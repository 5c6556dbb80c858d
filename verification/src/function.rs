use vstd::prelude::*;
use std::collections::HashMap;
use crate::block::{BasicBlock, Terminator, term_successors};
use crate::types::Type;
use crate::value::BlockId;

verus! {

broadcast use vstd::std_specs::hash::group_hash_axioms;

/// One typed SSA function.
#[derive(Debug, Clone, PartialEq, Eq)]
pub struct Function {
    pub name: String,
    pub params: Vec<(String, Type)>,
    pub ret_ty: Option<Type>,
    pub blocks: Vec<BasicBlock>,
    pub entry: BlockId,
}

/// Index of the first block in `bs` whose id is `id`.
pub open spec fn find_block(bs: Seq<BasicBlock>, id: BlockId) -> Option<int>
    decreases bs.len(),
{
    if bs.len() == 0 {
        None
    } else if bs[0].id == id {
        Some(0)
    } else {
        match find_block(bs.drop_first(), id) {
            Some(i) => Some(i + 1),
            None => None,
        }
    }
}

pub proof fn lemma_find_block(bs: Seq<BasicBlock>, id: BlockId)
    ensures
        match find_block(bs, id) {
            Some(i) => 0 <= i < bs.len() && bs[i].id == id && forall|j: int|
                0 <= j < i ==> bs[j].id != id,
            None => forall|j: int| 0 <= j < bs.len() ==> bs[j].id != id,
        },
    decreases bs.len(),
{
    if bs.len() > 0 {
        lemma_find_block(bs.drop_first(), id);
        if bs[0].id != id {
            assert forall|j: int| 1 <= j < bs.len() implies bs[j] == bs.drop_first()[j - 1] by {}
        }
    }
}

/// One copy of `b.id` per edge from `b` to `target`.
pub open spec fn edges_into(b: BasicBlock, target: BlockId) -> Seq<BlockId> {
    match b.terminator {
        Some(Terminator::Jump(t)) => if t == target { seq![b.id] } else { seq![] },
        Some(Terminator::Branch { then_block, else_block, .. }) =>
            (if then_block == target { seq![b.id] } else { seq![] }) + (if else_block == target {
                seq![b.id]
            } else {
                seq![]
            }),
        _ => seq![],
    }
}

/// The predecessors of `target` among `bs`, in block order, one entry per edge.
pub open spec fn preds_of(bs: Seq<BasicBlock>, target: BlockId) -> Seq<BlockId>
    decreases bs.len(),
{
    if bs.len() == 0 {
        seq![]
    } else {
        preds_of(bs.drop_last(), target) + edges_into(bs.last(), target)
    }
}

/// The predecessor map of a block list: every block id with at least one
/// incoming edge, mapped to its predecessors.
pub open spec fn preds_map_ok(m: Map<u32, Vec<BlockId>>, bs: Seq<BasicBlock>) -> bool {
    forall|k: u32|
        (#[trigger] m.contains_key(k) <==> preds_of(bs, BlockId(k)).len() > 0) && (m.contains_key(k)
            ==> m[k]@ == preds_of(bs, BlockId(k)))
}

/// Appends `from` to `target`'s entry of `m`.
fn add_edge(m: &mut HashMap<u32, Vec<BlockId>>, target: BlockId, from: BlockId)
    ensures
        forall|k: u32| k != target.0 ==> (#[trigger] final(m)@.contains_key(k) == old(m)@.contains_key(k)
            && (old(m)@.contains_key(k) ==> final(m)@[k] == old(m)@[k])),
        final(m)@.contains_key(target.0),
        final(m)@[target.0]@ == (if old(m)@.contains_key(target.0) {
            old(m)@[target.0]@
        } else {
            seq![]
        }).push(from),
{
    let removed = m.remove(&target.0);
    match removed {
        Some(v) => {
            let mut v = v;
            v.push(from);
            m.insert(target.0, v);
        },
        None => {
            let mut v = Vec::new();
            v.push(from);
            m.insert(target.0, v);
        },
    }
}

impl Function {
    /// A function with no blocks yet, entered at block 0.
    pub fn new(name: &str, params: Vec<(String, Type)>, ret_ty: Option<Type>) -> (f: Self)
        ensures
            f.name@ == name@,
            f.params == params,
            f.ret_ty == ret_ty,
            f.blocks@.len() == 0,
            f.entry == BlockId(0),
    {
        Function { name: name.to_owned(), params, ret_ty, blocks: Vec::new(), entry: BlockId(0) }
    }

    /// The first block whose id is `id`.
    pub fn block(&self, id: BlockId) -> (r: Option<&BasicBlock>)
        ensures
            match find_block(self.blocks@, id) {
                Some(i) => r == Some(&self.blocks@[i]),
                None => r is None,
            },
    {
        proof { lemma_find_block(self.blocks@, id); }
        let mut i: usize = 0;
        while i < self.blocks.len()
            invariant
                0 <= i <= self.blocks@.len(),
                forall|j: int| 0 <= j < i ==> self.blocks@[j].id != id,
                match find_block(self.blocks@, id) {
                    Some(k) => 0 <= k < self.blocks@.len() && self.blocks@[k].id == id
                        && forall|j: int| 0 <= j < k ==> self.blocks@[j].id != id,
                    None => forall|j: int| 0 <= j < self.blocks@.len() ==> self.blocks@[j].id != id,
                },
            decreases self.blocks.len() - i,
        {
            if self.blocks[i].id == id {
                return Some(&self.blocks[i]);
            }
            i += 1;
        }
        None
    }

    /// Every block's predecessors, derived from the terminators, keyed by
    /// the block's id number. A block without incoming edges has no entry.
    pub fn predecessors(&self) -> (m: HashMap<u32, Vec<BlockId>>)
        ensures
            preds_map_ok(m@, self.blocks@),
    {
        let mut m: HashMap<u32, Vec<BlockId>> = HashMap::new();
        let mut i: usize = 0;
        while i < self.blocks.len()
            invariant
                0 <= i <= self.blocks@.len(),
                preds_map_ok(m@, self.blocks@.take(i as int)),
            decreases self.blocks.len() - i,
        {
            let ghost old_m = m@;
            let b = &self.blocks[i];
            assert(self.blocks@.take(i + 1).drop_last() == self.blocks@.take(i as int));
            assert(self.blocks@.take(i + 1).last() == *b);
            match &b.terminator {
                Some(Terminator::Jump(t)) => {
                    add_edge(&mut m, *t, b.id);
                },
                Some(Terminator::Branch { then_block, else_block, .. }) => {
                    add_edge(&mut m, *then_block, b.id);
                    add_edge(&mut m, *else_block, b.id);
                },
                _ => {},
            }
            assert forall|k: u32| (#[trigger] m@.contains_key(k) <==> preds_of(
                self.blocks@.take(i + 1), BlockId(k)).len() > 0) && (m@.contains_key(k) ==> m@[k]@
                == preds_of(self.blocks@.take(i + 1), BlockId(k))) by {
                assert(preds_of(self.blocks@.take(i + 1), BlockId(k)) == preds_of(
                    self.blocks@.take(i as int), BlockId(k)) + edges_into(*b, BlockId(k)));
                assert(old_m.contains_key(k) ==> old_m[k]@ == preds_of(self.blocks@.take(i as int), BlockId(k)));
            }
            i += 1;
        }
        assert(self.blocks@.take(self.blocks@.len() as int) == self.blocks@);
        m
    }
}

} // verus!
