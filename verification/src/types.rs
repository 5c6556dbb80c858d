use vstd::prelude::*;

verus! {

/// The surface language's two value types.
#[derive(Debug, Clone, Copy, PartialEq, Eq, Hash, Structural)]
pub enum Type {
    I64,
    Bool,
}

/// How a type is spelled in source text and in rendered IR.
pub open spec fn type_spelling(t: Type) -> Seq<char> {
    match t {
        Type::I64 => "i64"@,
        Type::Bool => "bool"@,
    }
}

impl Type {
    /// The source spelling of this type (`i64` or `bool`).
    pub fn name(self) -> (s: &'static str)
        ensures
            s@ == type_spelling(self),
    {
        match self {
            Type::I64 => "i64",
            Type::Bool => "bool",
        }
    }
}

} // verus!
