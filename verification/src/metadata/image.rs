//! The loaded assembly.
use std::collections::HashMap;

use vstd::prelude::*;

use crate::fault::Fault;
use crate::metadata::class::ClassInfo;
use crate::metadata::method::MethodBody;
use crate::metadata::signature::{ElementType, MethodSignature};

verus! {

/// The name of a row: its table, and its entry, which counts from one.
#[derive(Clone, Copy, Debug, PartialEq, Eq, Structural)]
pub struct Token {
    pub table: usize,
    pub entry: usize,
}

/// A row that refers to a method of another assembly.
#[derive(Clone, Copy, Debug, PartialEq, Eq, Structural)]
pub struct MemberRefTable {
    /// The row of the class that has the method.
    pub class: Token,
    pub name: u32,
    pub signature: u32,
}

/// A row that refers to a type of another assembly.
#[derive(Clone, Copy, Debug, PartialEq, Eq, Structural)]
pub struct TypeRefTable {
    /// The row of the assembly that has the type.
    pub resolution_scope: Token,
    pub name: u32,
    pub namespace: u32,
}

/// A row that refers to another assembly.
#[derive(Clone, Copy, Debug, PartialEq, Eq, Structural)]
pub struct AssemblyRefTable {
    pub name: u32,
}

/// A row that defines a method.
#[derive(Clone, Copy, Debug, PartialEq, Eq, Structural)]
pub struct MethodDefTable {
    /// The address by which the method body is found.
    pub rva: u32,
    pub signature: u32,
}

/// A row that defines a field.
#[derive(Clone, Copy, Debug, PartialEq, Eq, Structural)]
pub struct FieldTable {
    pub name: u32,
}

/// A row of the metadata tables.
#[derive(Clone, Copy, Debug, PartialEq, Eq, Structural)]
pub enum Table {
    MemberRef(MemberRefTable),
    TypeRef(TypeRefTable),
    AssemblyRef(AssemblyRefTable),
    MethodDef(MethodDefTable),
    Field(FieldTable),
    Other,
}

/// What a call of a method of another assembly does.
#[derive(Clone, Copy, Debug, PartialEq, Eq, Structural)]
pub enum ExternalCall {
    /// `System.Console.WriteLine(string)`.
    WriteText,
    /// `System.Console.WriteLine(int)`.
    WriteInt,
    /// `System.Console.WriteLine` with other parameters: its argument is
    /// dropped.
    WriteNothing,
    /// Any other method: nothing happens.
    Ignored,
}

/// A loaded assembly.
#[derive(Debug)]
pub struct Image {
    /// The rows of each metadata table.
    pub tables: Vec<Vec<Table>>,
    /// The names that rows refer to.
    pub strings: HashMap<u32, String>,
    /// The string literals of the program, in UTF-16.
    pub user_strings: HashMap<u32, Vec<u16>>,
    /// The method signatures that rows refer to.
    pub signatures: HashMap<u32, MethodSignature>,
    /// The method bodies by their address.
    pub methods: HashMap<u32, MethodBody>,
    pub classes: Vec<ClassInfo>,
}

/// Whether `name` is the text `text`.
fn is_text(name: &String, text: &str) -> (r: bool)
    ensures
        r == (name@ == text@),
{
    *name == text.to_string()
}

impl Image {
    /// The row that the token of `table` and `entry` names. Entries count from one.
    pub open spec fn row_spec(self, table: usize, entry: usize) -> Option<Table> {
        if table < self.tables.len() && 1 <= entry <= self.tables[table as int].len() {
            Some(self.tables[table as int][entry - 1])
        } else {
            None
        }
    }

    /// The row that the token of `table` and `entry` names.
    pub fn row(&self, table: usize, entry: usize) -> (r: Option<Table>)
        ensures
            r == self.row_spec(table, entry),
    {
        if table < self.tables.len() && 1 <= entry && entry <= self.tables[table].len() {
            Some(self.tables[table][entry - 1])
        } else {
            None
        }
    }

    /// The string that a row refers to.
    pub fn get_string(&self, index: u32) -> (r: Option<&String>)
        ensures
            match r {
                Some(s) => self.strings@.contains_key(index) && *s == self.strings@[index],
                None => !self.strings@.contains_key(index),
            },
    {
        self.strings.get(&index)
    }

    /// The method body at an address.
    pub fn get_method(&self, rva: u32) -> (r: Option<&MethodBody>)
        ensures
            match r {
                Some(m) => self.methods@.contains_key(rva) && *m == self.methods@[rva],
                None => !self.methods@.contains_key(rva),
            },
    {
        self.methods.get(&rva)
    }

    /// Whether `mrt` is a method named `System.Console.WriteLine` of the assembly
    /// `mscorlib`, if `trt` and `art` are the rows of its class and assembly.
    pub open spec fn is_write_line(
        self,
        mrt: MemberRefTable,
        trt: TypeRefTable,
        art: AssemblyRefTable,
    ) -> bool {
        &&& self.strings@[art.name]@ == "mscorlib"@
        &&& self.strings@[trt.namespace]@ == "System"@
        &&& self.strings@[trt.name]@ == "Console"@
        &&& self.strings@[mrt.name]@ == "WriteLine"@
    }

    /// What a call of `mrt` does, if `trt` and `art` are the rows of its class
    /// and assembly.
    pub open spec fn write_line_spec(
        self,
        mrt: MemberRefTable,
        trt: TypeRefTable,
        art: AssemblyRefTable,
    ) -> Result<ExternalCall, Fault> {
        if !(self.strings@.contains_key(art.name) && self.strings@.contains_key(trt.namespace)
            && self.strings@.contains_key(trt.name) && self.strings@.contains_key(mrt.name)) {
            Err(Fault::MissingString)
        } else if !self.signatures@.contains_key(mrt.signature) {
            Err(Fault::MissingSignature)
        } else if !self.is_write_line(mrt, trt, art) {
            Ok(ExternalCall::Ignored)
        } else if self.signatures@[mrt.signature].equal_method_spec(
            ElementType::Void,
            seq![ElementType::String],
        ) {
            Ok(ExternalCall::WriteText)
        } else if self.signatures@[mrt.signature].equal_method_spec(
            ElementType::Void,
            seq![ElementType::I4],
        ) {
            Ok(ExternalCall::WriteInt)
        } else {
            Ok(ExternalCall::WriteNothing)
        }
    }

    /// What a call of the method that `mrt` refers to does.
    pub open spec fn external_call_spec(self, mrt: MemberRefTable) -> Result<ExternalCall, Fault> {
        match self.row_spec(mrt.class.table, mrt.class.entry) {
            None => Err(Fault::MissingRow),
            Some(Table::TypeRef(trt)) => match self.row_spec(
                trt.resolution_scope.table,
                trt.resolution_scope.entry,
            ) {
                None => Err(Fault::MissingRow),
                Some(Table::AssemblyRef(art)) => self.write_line_spec(mrt, trt, art),
                Some(_) => Err(Fault::Unimplemented),
            },
            Some(_) => Err(Fault::Unimplemented),
        }
    }

    /// What a call of the method that `mrt` refers to does.
    pub fn external_call(&self, mrt: &MemberRefTable) -> (r: Result<ExternalCall, Fault>)
        ensures
            r == self.external_call_spec(*mrt),
    {
        let trt = match self.row(mrt.class.table, mrt.class.entry) {
            None => return Err(Fault::MissingRow),
            Some(Table::TypeRef(trt)) => trt,
            Some(_) => return Err(Fault::Unimplemented),
        };
        let art = match self.row(trt.resolution_scope.table, trt.resolution_scope.entry) {
            None => return Err(Fault::MissingRow),
            Some(Table::AssemblyRef(art)) => art,
            Some(_) => return Err(Fault::Unimplemented),
        };
        let ar_name = match self.get_string(art.name) {
            Some(s) => s,
            None => return Err(Fault::MissingString),
        };
        let ty_namespace = match self.get_string(trt.namespace) {
            Some(s) => s,
            None => return Err(Fault::MissingString),
        };
        let ty_name = match self.get_string(trt.name) {
            Some(s) => s,
            None => return Err(Fault::MissingString),
        };
        let name = match self.get_string(mrt.name) {
            Some(s) => s,
            None => return Err(Fault::MissingString),
        };
        let sig = match self.signatures.get(&mrt.signature) {
            Some(sig) => sig,
            None => return Err(Fault::MissingSignature),
        };
        if is_text(ar_name, "mscorlib") && is_text(ty_namespace, "System") && is_text(
            ty_name,
            "Console",
        ) && is_text(name, "WriteLine") {
            let text = [ElementType::String];
            let integer = [ElementType::I4];
            assert(text@ =~= seq![ElementType::String]);
            assert(integer@ =~= seq![ElementType::I4]);
            if sig.equal_method(ElementType::Void, &text) {
                Ok(ExternalCall::WriteText)
            } else if sig.equal_method(ElementType::Void, &integer) {
                Ok(ExternalCall::WriteInt)
            } else {
                Ok(ExternalCall::WriteNothing)
            }
        } else {
            Ok(ExternalCall::Ignored)
        }
    }
}

} // verus!
