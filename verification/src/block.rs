use vstd::prelude::*;
use crate::inst::Instruction;
use crate::value::{BlockId, ValueId};

verus! {

/// How control leaves a block.
#[derive(Debug, Clone, PartialEq, Eq)]
pub enum Terminator {
    Jump(BlockId),
    Branch { cond: ValueId, then_block: BlockId, else_block: BlockId },
    Return(Option<ValueId>),
}

/// Every block a terminator can transfer control to, in order.
pub open spec fn term_successors(t: Terminator) -> Seq<BlockId> {
    match t {
        Terminator::Jump(b) => seq![b],
        Terminator::Branch { then_block, else_block, .. } => seq![then_block, else_block],
        Terminator::Return(_) => seq![],
    }
}

impl Terminator {
    /// Every block this terminator can transfer control to.
    pub fn successors(&self) -> (r: Vec<BlockId>)
        ensures
            r@ == term_successors(*self),
    {
        match self {
            Terminator::Jump(b) => {
                let mut v = Vec::new();
                v.push(*b);
                v
            },
            Terminator::Branch { then_block, else_block, .. } => {
                let mut v = Vec::new();
                v.push(*then_block);
                v.push(*else_block);
                v
            },
            Terminator::Return(_) => Vec::new(),
        }
    }
}

/// A basic block: ordered instructions plus (once finished) a terminator.
#[derive(Debug, Clone, Default, PartialEq, Eq)]
pub struct BasicBlock {
    pub id: BlockId,
    pub instructions: Vec<Instruction>,
    pub terminator: Option<Terminator>,
}

impl BasicBlock {
    /// An empty, unterminated block.
    pub fn new(id: BlockId) -> (b: Self)
        ensures
            b.id == id,
            b.instructions@.len() == 0,
            b.terminator is None,
    {
        BasicBlock { id, instructions: Vec::new(), terminator: None }
    }
}

} // verus!
