use vstd::prelude::*;
use crate::types::Type;
use crate::value::{BlockId, ValueId};

verus! {

/// A binary operation.
#[derive(Debug, Clone, Copy, PartialEq, Eq, Hash, Structural)]
pub enum BinOp {
    Add,
    Sub,
    Mul,
    Div,
    Mod,
    CmpEq,
    CmpNe,
    CmpLt,
    CmpLe,
    CmpGt,
    CmpGe,
    And,
    Or,
}

/// The type both operands of `op` must have.
pub open spec fn bin_operand_type(op: BinOp) -> Type {
    match op {
        BinOp::And | BinOp::Or => Type::Bool,
        _ => Type::I64,
    }
}

/// The type of the value `op` produces.
pub open spec fn bin_result_type(op: BinOp) -> Type {
    match op {
        BinOp::Add | BinOp::Sub | BinOp::Mul | BinOp::Div | BinOp::Mod => Type::I64,
        _ => Type::Bool,
    }
}

pub open spec fn bin_mnemonic(op: BinOp) -> Seq<char> {
    match op {
        BinOp::Add => "add"@,
        BinOp::Sub => "sub"@,
        BinOp::Mul => "mul"@,
        BinOp::Div => "div"@,
        BinOp::Mod => "mod"@,
        BinOp::CmpEq => "cmpeq"@,
        BinOp::CmpNe => "cmpne"@,
        BinOp::CmpLt => "cmplt"@,
        BinOp::CmpLe => "cmple"@,
        BinOp::CmpGt => "cmpgt"@,
        BinOp::CmpGe => "cmpge"@,
        BinOp::And => "and"@,
        BinOp::Or => "or"@,
    }
}

impl BinOp {
    /// The type both operands must have.
    pub fn operand_type(self) -> (t: Type)
        ensures
            t == bin_operand_type(self),
    {
        match self {
            BinOp::Add | BinOp::Sub | BinOp::Mul | BinOp::Div | BinOp::Mod | BinOp::CmpEq
            | BinOp::CmpNe | BinOp::CmpLt | BinOp::CmpLe | BinOp::CmpGt | BinOp::CmpGe => Type::I64,
            BinOp::And | BinOp::Or => Type::Bool,
        }
    }

    /// The type of the value this operation produces.
    pub fn result_type(self) -> (t: Type)
        ensures
            t == bin_result_type(self),
    {
        match self {
            BinOp::Add | BinOp::Sub | BinOp::Mul | BinOp::Div | BinOp::Mod => Type::I64,
            BinOp::CmpEq | BinOp::CmpNe | BinOp::CmpLt | BinOp::CmpLe | BinOp::CmpGt
            | BinOp::CmpGe | BinOp::And | BinOp::Or => Type::Bool,
        }
    }

    /// The name used for this operation in rendered IR.
    pub fn mnemonic(self) -> (s: &'static str)
        ensures
            s@ == bin_mnemonic(self),
    {
        match self {
            BinOp::Add => "add",
            BinOp::Sub => "sub",
            BinOp::Mul => "mul",
            BinOp::Div => "div",
            BinOp::Mod => "mod",
            BinOp::CmpEq => "cmpeq",
            BinOp::CmpNe => "cmpne",
            BinOp::CmpLt => "cmplt",
            BinOp::CmpLe => "cmple",
            BinOp::CmpGt => "cmpgt",
            BinOp::CmpGe => "cmpge",
            BinOp::And => "and",
            BinOp::Or => "or",
        }
    }
}

/// A unary operation.
#[derive(Debug, Clone, Copy, PartialEq, Eq, Hash, Structural)]
pub enum UnOp {
    Neg,
    Not,
}

/// Operand and result type of a unary operation (they coincide).
pub open spec fn un_type(op: UnOp) -> Type {
    match op {
        UnOp::Neg => Type::I64,
        UnOp::Not => Type::Bool,
    }
}

pub open spec fn un_mnemonic(op: UnOp) -> Seq<char> {
    match op {
        UnOp::Neg => "neg"@,
        UnOp::Not => "not"@,
    }
}

impl UnOp {
    pub fn operand_type(self) -> (t: Type)
        ensures
            t == un_type(self),
    {
        match self {
            UnOp::Neg => Type::I64,
            UnOp::Not => Type::Bool,
        }
    }

    pub fn result_type(self) -> (t: Type)
        ensures
            t == un_type(self),
    {
        match self {
            UnOp::Neg => Type::I64,
            UnOp::Not => Type::Bool,
        }
    }

    pub fn mnemonic(self) -> (s: &'static str)
        ensures
            s@ == un_mnemonic(self),
    {
        match self {
            UnOp::Neg => "neg",
            UnOp::Not => "not",
        }
    }
}

/// What one SSA value is defined as.
#[derive(Debug, Clone, PartialEq, Eq)]
pub enum InstKind {
    ConstI64(i64),
    ConstBool(bool),
    Bin(BinOp, ValueId, ValueId),
    Un(UnOp, ValueId),
    /// A call to another function of the same module.
    Call { func: String, args: Vec<ValueId> },
    /// One incoming value per predecessor of the enclosing block.
    Phi(Vec<(BlockId, ValueId)>),
}

/// One instruction: defines exactly one new, typed SSA value.
#[derive(Debug, Clone, PartialEq, Eq)]
pub struct Instruction {
    pub id: ValueId,
    pub ty: Type,
    pub kind: InstKind,
}

} // verus!
