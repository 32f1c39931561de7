//! The instructions that the engine knows.
use vstd::prelude::*;

verus! {

/// One CIL instruction. Branch targets are indices into the method body;
/// `table` and `entry` are the two parts of a metadata token.
#[allow(non_camel_case_types)]
#[derive(Clone, Copy, Debug, PartialEq, Eq, Structural)]
pub enum Instruction {
    Ldstr { us_offset: u32 },
    Ldc_I4_0,
    Ldc_I4_1,
    Ldc_I4_2,
    Ldc_I4_3,
    Ldc_I4_S { n: i32 },
    Ldc_I4 { n: i32 },
    Pop,
    Call { table: usize, entry: usize },
    CallVirt { table: usize, entry: usize },
    Newobj { table: usize, entry: usize },
    Ldloc_0,
    Ldloc_1,
    Ldfld { table: usize, entry: usize },
    Stloc_0,
    Stloc_1,
    Stfld { table: usize, entry: usize },
    Ldarg_0,
    Ldarg_1,
    Add,
    Sub,
    Mul,
    Rem,
    Ret,
    Brfalse { target: usize },
    Brtrue { target: usize },
    Beq { target: usize },
    Bne_un { target: usize },
    Bge { target: usize },
    Bgt { target: usize },
    Ble { target: usize },
    Blt { target: usize },
    Br { target: usize },
}

/// How an instruction passes control on.
#[derive(Clone, Copy, Debug, PartialEq, Eq, Structural)]
pub enum Transfer {
    /// To `target`, or to the instruction that follows.
    Conditional { target: usize },
    /// To `target`.
    Always { target: usize },
    /// To the instruction that follows.
    Next,
}

impl Instruction {
    /// How this instruction passes control on.
    pub open spec fn transfer_spec(self) -> Transfer {
        match self {
            Instruction::Bge { target }
            | Instruction::Bgt { target }
            | Instruction::Ble { target }
            | Instruction::Blt { target }
            | Instruction::Beq { target }
            | Instruction::Bne_un { target }
            | Instruction::Brfalse { target }
            | Instruction::Brtrue { target } => Transfer::Conditional { target },
            Instruction::Br { target } => Transfer::Always { target },
            _ => Transfer::Next,
        }
    }

    /// How this instruction passes control on.
    pub fn transfer(&self) -> (r: Transfer)
        ensures
            r == self.transfer_spec(),
    {
        match self {
            Instruction::Bge { target }
            | Instruction::Bgt { target }
            | Instruction::Ble { target }
            | Instruction::Blt { target }
            | Instruction::Beq { target }
            | Instruction::Bne_un { target }
            | Instruction::Brfalse { target }
            | Instruction::Brtrue { target } => Transfer::Conditional { target: *target },
            Instruction::Br { target } => Transfer::Always { target: *target },
            _ => Transfer::Next,
        }
    }
}

} // verus!
