use vstd::prelude::*;
use vstd::string::StringExecFns;
use crate::text::{append_digits, nat_text};

verus! {

/// A typed SSA value id, unique within one function.
#[derive(Debug, Clone, Copy, PartialEq, Eq, Hash, PartialOrd, Ord, Structural)]
pub struct ValueId(pub u32);

/// A basic block id.
#[derive(Debug, Clone, Copy, Default, PartialEq, Eq, Hash, PartialOrd, Ord, Structural)]
pub struct BlockId(pub u32);

/// How a value id is written in rendered IR: `v` and its number.
pub open spec fn value_text(v: ValueId) -> Seq<char> {
    "v"@ + nat_text(v.0 as nat)
}

/// How a block id is written in rendered IR: `b` and its number.
pub open spec fn block_text(b: BlockId) -> Seq<char> {
    "b"@ + nat_text(b.0 as nat)
}

impl ValueId {
    /// This id as rendered IR writes it, such as `v3`.
    pub fn text(&self) -> (s: String)
        ensures
            s@ == value_text(*self),
    {
        let mut s = String::new();
        s.append("v");
        append_digits(&mut s, self.0 as u64);
        s
    }
}

impl BlockId {
    /// This id as rendered IR writes it, such as `b0`.
    pub fn text(&self) -> (s: String)
        ensures
            s@ == block_text(*self),
    {
        let mut s = String::new();
        s.append("b");
        append_digits(&mut s, self.0 as u64);
        s
    }
}

} // verus!
