//! What a loaded assembly holds, as far as execution reads it.
pub mod class;
pub mod image;
pub mod image_laws;
pub mod method;
pub mod signature;
