use vstd::prelude::*;
use crate::function::Function;
use vstd::string::StringSliceAdditionalSpecFns;

verus! {

/// A whole program: every function it defines.
#[derive(Debug, Clone, Default, PartialEq, Eq)]
pub struct Module {
    pub functions: Vec<Function>,
}

/// Index of the first function in `fs` named `name`, if any.
pub open spec fn find_function(fs: Seq<Function>, name: Seq<char>) -> Option<int>
    decreases fs.len(),
{
    if fs.len() == 0 {
        None
    } else if fs[0].name@ == name {
        Some(0)
    } else {
        match find_function(fs.drop_first(), name) {
            Some(i) => Some(i + 1),
            None => None,
        }
    }
}

pub proof fn lemma_find_function(fs: Seq<Function>, name: Seq<char>)
    ensures
        match find_function(fs, name) {
            Some(i) => 0 <= i < fs.len() && fs[i].name@ == name && forall|j: int|
                0 <= j < i ==> fs[j].name@ != name,
            None => forall|j: int| 0 <= j < fs.len() ==> fs[j].name@ != name,
        },
    decreases fs.len(),
{
    if fs.len() > 0 {
        lemma_find_function(fs.drop_first(), name);
        if fs[0].name@ != name {
            assert forall|j: int| 1 <= j < fs.len() implies fs[j] == fs.drop_first()[j - 1] by {}
        }
    }
}

impl Module {
    /// The first function named `name`.
    pub fn function(&self, name: &str) -> (r: Option<&Function>)
        ensures
            match find_function(self.functions@, name@) {
                Some(i) => r == Some(&self.functions@[i]),
                None => r is None,
            },
    {
        proof { lemma_find_function(self.functions@, name@); }
        let mut i: usize = 0;
        while i < self.functions.len()
            invariant
                0 <= i <= self.functions.len(),
                forall|j: int| 0 <= j < i ==> self.functions@[j].name@ != name@,
                match find_function(self.functions@, name@) {
                    Some(k) => 0 <= k < self.functions@.len() && self.functions@[k].name@ == name@
                        && forall|j: int| 0 <= j < k ==> self.functions@[j].name@ != name@,
                    None => forall|j: int| 0 <= j < self.functions@.len() ==> self.functions@[j].name@ != name@,
                },
            decreases self.functions.len() - i,
        {
            if str_eq(self.functions[i].name.as_str(), name) {
                return Some(&self.functions[i]);
            }
            i += 1;
        }
        None
    }
}

/// Character-wise equality of two string slices.
pub fn str_eq(a: &str, b: &str) -> (r: bool)
    ensures
        r == (a@ == b@),
{
    let ab = a.as_bytes();
    let bb = b.as_bytes();
    proof {
        vstd::utf8::encode_utf8_decode_utf8(a@);
        vstd::utf8::encode_utf8_decode_utf8(b@);
    }
    if ab.len() != bb.len() {
        return false;
    }
    let mut i: usize = 0;
    while i < ab.len()
        invariant
            ab@.len() == bb@.len(),
            ab@ == a.spec_bytes(),
            bb@ == b.spec_bytes(),
            0 <= i <= ab@.len(),
            forall|j: int| 0 <= j < i ==> ab@[j] == bb@[j],
        decreases ab.len() - i,
    {
        if ab[i] != bb[i] {
            return false;
        }
        i += 1;
    }
    assert(ab@ =~= bb@);
    true
}

} // verus!
