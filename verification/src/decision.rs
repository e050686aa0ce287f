//! The decision procedure that a trie compiles to: nested conditionals, each
//! a conjunction of byte tests at fixed positions of the query, chained with
//! "else" among siblings, with the value returned where a key ends.

use crate::trie::Node;
use vstd::prelude::*;

verus! {

/// Whether bytes are compared as they are or with ASCII letters folded.
#[derive(Debug, Clone, Copy, PartialEq, Eq, Structural)]
pub enum Case {
    Sensitive,
    Insensitive,
}

/// The lower-case form of an ASCII upper-case letter; any other byte itself.
pub open spec fn lower(b: u8) -> u8 {
    if 65 <= b <= 90 {
        (b + 32) as u8
    } else {
        b
    }
}

/// Whether two bytes count as equal under `case`.
pub open spec fn same_byte(a: u8, b: u8, case: Case) -> bool {
    match case {
        Case::Sensitive => a == b,
        Case::Insensitive => lower(a) == lower(b),
    }
}

/// Whether two byte strings have one length and count as equal, byte by byte, under `case`.
pub open spec fn same_bytes(a: Seq<u8>, b: Seq<u8>, case: Case) -> bool {
    a.len() == b.len() && forall|i: int| 0 <= i < a.len() ==> same_byte(a[i], b[i], case)
}

/// Folds an ASCII upper-case letter to lower case.
pub fn to_lower(b: u8) -> (r: u8)
    ensures
        r == lower(b),
{
    if 65 <= b && b <= 90 {
        b + 32
    } else {
        b
    }
}

/// Compares two bytes under `case`.
pub fn bytes_agree(a: u8, b: u8, case: Case) -> (r: bool)
    ensures
        r == same_byte(a, b, case),
{
    match case {
        Case::Sensitive => a == b,
        Case::Insensitive => to_lower(a) == to_lower(b),
    }
}

/// One comparison: the byte of the query at `index` against `byte`.
#[derive(Debug, Clone, Copy, PartialEq, Eq, Structural)]
pub struct ByteTest {
    pub index: usize,
    pub byte: u8,
}

impl ByteTest {
    /// Whether the query has a byte at `index` and it counts as equal to `byte`.
    pub open spec fn holds(self, query: Seq<u8>, case: Case) -> bool {
        self.index < query.len() && same_byte(query[self.index as int], self.byte, case)
    }

    /// Makes the comparison on `query`.
    pub fn check(&self, query: &[u8], case: Case) -> (r: bool)
        ensures
            r == self.holds(query@, case),
    {
        self.index < query.len() && bytes_agree(query[self.index], self.byte, case)
    }
}

/// One conditional: when all `tests` hold, `found` is returned if there is
/// one, and otherwise the first of the `inner` conditionals whose tests hold
/// decides.
#[derive(Debug)]
pub struct Branch<'a, T> {
    pub tests: Vec<ByteTest>,
    pub found: Option<&'a T>,
    pub inner: Vec<Branch<'a, T>>,
}

impl<'a, T> Branch<'a, T> {
    /// Whether all tests of this conditional hold of `query`.
    pub open spec fn accepts(self, query: Seq<u8>, case: Case) -> bool {
        forall|k: int| 0 <= k < self.tests@.len() ==> (#[trigger] self.tests@[k]).holds(query, case)
    }

    /// What the body of this conditional returns once its tests hold.
    pub open spec fn outcome(self, query: Seq<u8>, case: Case) -> Option<T>
        decreases self, self.inner@.len() + 1,
    {
        match self.found {
            Some(v) => Some(*v),
            None => self.chain(0, query, case),
        }
    }

    /// What the inner conditionals from position `from` on return: the first
    /// whose tests hold decides, and later ones are not tried.
    pub open spec fn chain(self, from: nat, query: Seq<u8>, case: Case) -> Option<T>
        decreases self, self.inner@.len() - from,
    {
        if from >= self.inner@.len() {
            None
        } else if self.inner@[from as int].accepts(query, case) {
            self.inner@[from as int].outcome(query, case)
        } else {
            self.chain(from + 1, query, case)
        }
    }

    /// What this conditional returns for `query`.
    pub open spec fn decide(self, query: Seq<u8>, case: Case) -> Option<T> {
        if self.accepts(query, case) {
            self.outcome(query, case)
        } else {
            None
        }
    }

    /// Whether every test, here and in the inner conditionals, looks at a
    /// position below `len`.
    pub open spec fn reads_below(self, len: nat) -> bool
        decreases self,
    {
        &&& forall|k: int| 0 <= k < self.tests@.len() ==> (#[trigger] self.tests@[k]).index < len
        &&& forall|i: int|
            0 <= i < self.inner@.len() ==> (#[trigger] self.inner@[i]).reads_below(len)
    }

    /// Whether this conditional is the one that `node` compiles to when its
    /// label starts at position `depth` of the query: one test for each byte of
    /// the label, the node's value, and one inner conditional for each child,
    /// in order.
    pub open spec fn mirrors(self, node: Node<T>, depth: nat) -> bool
        decreases node,
    {
        &&& self.tests@.len() == node.bytes@.len()
        &&& forall|k: int|
            0 <= k < self.tests@.len() ==> (#[trigger] self.tests@[k]).index == depth + k
                && self.tests@[k].byte == node.bytes@[k]
        &&& match self.found {
            Some(v) => node.value == Some(*v),
            None => node.value.is_none(),
        }
        &&& self.inner@.len() == node.children@.len()
        &&& forall|i: int|
            0 <= i < self.inner@.len() ==> (#[trigger] self.inner@[i]).mirrors(
                node.children@[i],
                depth + node.bytes@.len(),
            )
    }

    /// Makes all tests of this conditional on `query`.
    pub fn test(&self, query: &[u8], case: Case) -> (r: bool)
        ensures
            r == self.accepts(query@, case),
    {
        let mut k: usize = 0;
        while k < self.tests.len()
            invariant
                k <= self.tests@.len(),
                forall|j: int| 0 <= j < k ==> (#[trigger] self.tests@[j]).holds(query@, case),
            decreases self.tests@.len() - k,
        {
            if !self.tests[k].check(query, case) {
                return false;
            }
            k += 1;
        }
        true
    }

    /// Runs this conditional on `query`.
    pub fn run(&self, query: &[u8], case: Case) -> (r: Option<&'a T>)
        ensures
            match r {
                Some(v) => self.decide(query@, case) == Some(*v),
                None => self.decide(query@, case).is_none(),
            },
    {
        if !self.test(query, case) {
            return None;
        }
        let mut at = self;
        loop
            invariant
                self.decide(query@, case) == at.outcome(query@, case),
            decreases at,
        {
            if let Some(v) = at.found {
                return Some(v);
            }
            let mut i: usize = 0;
            while i < at.inner.len() && !at.inner[i].test(query, case)
                invariant
                    i <= at.inner@.len(),
                    at.chain(0, query@, case) == at.chain(i as nat, query@, case),
                decreases at.inner@.len() - i,
            {
                i += 1;
            }
            if i == at.inner.len() {
                return None;
            }
            at = &at.inner[i];
        }
    }
}

} // verus!
