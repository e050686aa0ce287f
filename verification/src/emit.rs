//! Compiles a trie into its decision procedure, and shows that the procedure
//! and the direct lookup give the same answers.

use crate::decision::{lower, same_byte, same_bytes, to_lower, Branch, ByteTest, Case};
use crate::dfs::remaining_of;
use crate::trie::{leads, Node};
use vstd::prelude::*;

verus! {

/// Whether letter case is used in one way among the keys: where two keys of
/// one length have, at one position, bytes that are equal but for letter
/// case, the bytes are equal.
pub open spec fn consistently_cased(keys: Set<Seq<u8>>) -> bool {
    forall|a: Seq<u8>, b: Seq<u8>, i: int|
        #![trigger keys.contains(a), keys.contains(b), a[i]]
        keys.contains(a) && keys.contains(b) && a.len() == b.len() && 0 <= i < a.len() && lower(
            a[i],
        ) == lower(b[i]) ==> a[i] == b[i]
}

impl<T> Node<T> {
    /// Whether no path of labels in this subtree is longer than `bound` bytes.
    pub open spec fn within(self, bound: nat) -> bool
        decreases self,
    {
        &&& self.bytes@.len() <= bound
        &&& forall|i: int|
            0 <= i < self.children@.len() ==> (#[trigger] self.children@[i]).within(
                (bound - self.bytes@.len()) as nat,
            )
    }

    /// Whether siblings stay apart when ASCII letters are folded: no two
    /// children of one node start with bytes that differ in case only.
    pub open spec fn case_separated(self) -> bool
        decreases self,
    {
        &&& forall|i: int, j: int|
            0 <= i < j < self.children@.len() ==> lower(
                (#[trigger] self.children@[i]).bytes@[0],
            ) != lower((#[trigger] self.children@[j]).bytes@[0])
        &&& forall|i: int|
            0 <= i < self.children@.len() ==> (#[trigger] self.children@[i]).case_separated()
    }

    /// A trie whose keys use letter case in one way keeps its siblings apart
    /// when letters are folded. The keys of the subtree are those of `keys`
    /// that start with `path`, all of length `len`.
    pub proof fn lemma_case_separated(self, keys: Set<Seq<u8>>, path: Seq<u8>, len: nat)
        requires
            self.well_formed(),
            self.thriving(),
            path.len() <= len,
            self.fits((len - path.len()) as nat),
            consistently_cased(keys),
            forall|below: Seq<u8>|
                (#[trigger] self.lookup(below)).is_some() ==> keys.contains(path + below),
        ensures
            self.case_separated(),
        decreases self,
    {
        let here = path + self.bytes@;
        let at = here.len() as int;
        let rest = (len - here.len()) as nat;
        assert forall|i: int| 0 <= i < self.children@.len() implies (
        #[trigger] self.children@[i]).case_separated() by {
            let child = self.children@[i];
            assert forall|below: Seq<u8>| (#[trigger] child.lookup(below)).is_some() implies keys.contains(
                here + below,
            ) by {
                self.lemma_bears_through(i, below);
                assert(here + below =~= path + (self.bytes@ + below));
            }
            child.lemma_case_separated(keys, here, len);
        }
        assert forall|i: int, j: int| 0 <= i < j < self.children@.len() implies lower(
            (#[trigger] self.children@[i]).bytes@[0],
        ) != lower((#[trigger] self.children@[j]).bytes@[0]) by {
            let one = self.children@[i];
            let other = self.children@[j];
            let a = choose|a: Seq<u8>| (#[trigger] one.lookup(a)).is_some();
            let b = choose|b: Seq<u8>| (#[trigger] other.lookup(b)).is_some();
            one.lemma_fits_lookup(rest, a);
            other.lemma_fits_lookup(rest, b);
            self.lemma_bears_through(i, a);
            self.lemma_bears_through(j, b);
            let ka = path + (self.bytes@ + a);
            let kb = path + (self.bytes@ + b);
            assert(a.subrange(0, one.bytes@.len() as int)[0] == one.bytes@[0]);
            assert(b.subrange(0, other.bytes@.len() as int)[0] == other.bytes@[0]);
            assert(ka[at] == one.bytes@[0]);
            assert(kb[at] == other.bytes@[0]);
            assert(one.bytes@[0] < other.bytes@[0]);
            assert(keys.contains(ka) && keys.contains(kb));
        }
    }

    /// A subtree that holds keys of length `len` only has no longer path.
    pub proof fn lemma_fits_within(self, len: nat, bound: nat)
        requires
            self.fits(len),
            len <= bound,
        ensures
            self.within(bound),
        decreases self,
    {
        let n = self.bytes@.len();
        assert forall|i: int| 0 <= i < self.children@.len() implies (
        #[trigger] self.children@[i]).within((bound - n) as nat) by {
            self.children@[i].lemma_fits_within((len - n) as nat, (bound - n) as nat);
        }
    }

    /// Checks that no path of labels in this subtree is longer than `bound` bytes.
    pub fn lies_within(&self, bound: usize) -> (r: bool)
        ensures
            r == self.within(bound as nat),
        decreases self,
    {
        if self.bytes.len() > bound {
            return false;
        }
        let rest = bound - self.bytes.len();
        let mut i: usize = 0;
        while i < self.children.len()
            invariant
                i <= self.children@.len(),
                rest == bound - self.bytes@.len(),
                forall|k: int| 0 <= k < i ==> (#[trigger] self.children@[k]).within(rest as nat),
            decreases self.children@.len() - i,
        {
            if !self.children[i].lies_within(rest) {
                return false;
            }
            i += 1;
        }
        true
    }

    /// Checks that siblings stay apart when ASCII letters are folded.
    pub fn is_case_separated(&self) -> (r: bool)
        requires
            self.well_formed(),
        ensures
            r == self.case_separated(),
        decreases self,
    {
        let mut j: usize = 0;
        while j < self.children.len()
            invariant
                j <= self.children@.len(),
                self.well_formed(),
                forall|a: int, b: int|
                    0 <= a < b < j ==> lower((#[trigger] self.children@[a]).bytes@[0]) != lower(
                        (#[trigger] self.children@[b]).bytes@[0],
                    ),
                forall|k: int| 0 <= k < j ==> (#[trigger] self.children@[k]).case_separated(),
            decreases self.children@.len() - j,
        {
            let child = &self.children[j];
            let folded = to_lower(child.bytes[0]);
            let mut i: usize = 0;
            while i < j
                invariant
                    i <= j < self.children@.len(),
                    self.well_formed(),
                    folded == lower(self.children@[j as int].bytes@[0]),
                    forall|a: int|
                        0 <= a < i ==> lower((#[trigger] self.children@[a]).bytes@[0]) != folded,
                decreases j - i,
            {
                if to_lower(self.children[i].bytes[0]) == folded {
                    return false;
                }
                i += 1;
            }
            if !child.is_case_separated() {
                return false;
            }
            j += 1;
        }
        true
    }
}

impl<'a, T> Branch<'a, T> {
    /// The tests of a compiled conditional hold exactly when the query, from
    /// the node's position on, starts with the node's label under `case`.
    pub proof fn lemma_accepts_label(self, node: Node<T>, depth: nat, query: Seq<u8>, case: Case)
        requires
            self.mirrors(node, depth),
            depth + node.bytes@.len() <= query.len(),
        ensures
            self.accepts(query, case) <==> same_bytes(
                query.subrange(depth as int, depth + node.bytes@.len() as int),
                node.bytes@,
                case,
            ),
    {
        let n = node.bytes@.len() as int;
        let part = query.subrange(depth as int, depth + n);
        if self.accepts(query, case) {
            assert forall|k: int| 0 <= k < n implies same_byte(part[k], node.bytes@[k], case) by {
                assert(self.tests@[k].holds(query, case));
            }
        }
        if same_bytes(part, node.bytes@, case) {
            assert forall|k: int| 0 <= k < self.tests@.len() implies (
            #[trigger] self.tests@[k]).holds(query, case) by {
                assert(same_byte(part[k], node.bytes@[k], case));
            }
        }
    }

    /// A compiled conditional looks at no position beyond the paths of its
    /// trie: where no path is longer than `len` bytes, counted from the start
    /// of the query, every test looks at a position below `len`.
    pub proof fn lemma_reads_below(self, node: Node<T>, depth: nat, len: nat)
        requires
            self.mirrors(node, depth),
            depth <= len,
            node.within((len - depth) as nat),
        ensures
            self.reads_below(len),
        decreases node,
    {
        assert forall|i: int| 0 <= i < self.inner@.len() implies (
        #[trigger] self.inner@[i]).reads_below(len) by {
            self.inner@[i].lemma_reads_below(
                node.children@[i],
                depth + node.bytes@.len(),
                len,
            );
        }
    }

    /// When no inner conditional from `from` on accepts the query, the chain
    /// from there returns nothing.
    pub proof fn lemma_chain_rejects(self, from: nat, query: Seq<u8>, case: Case)
        requires
            forall|j: int|
                from <= j < self.inner@.len() ==> !(#[trigger] self.inner@[j]).accepts(query, case),
        ensures
            self.chain(from, query, case).is_none(),
        decreases self.inner@.len() - from,
    {
        if from < self.inner@.len() {
            assert(!self.inner@[from as int].accepts(query, case));
            self.lemma_chain_rejects(from + 1, query, case);
        }
    }

    /// With bytes compared as they are, the conditional that a trie of
    /// single-length keys compiles to returns, for every query of that
    /// length, what the direct lookup returns.
    pub proof fn lemma_decides_as_lookup(self, node: Node<T>, depth: nat, query: Seq<u8>)
        requires
            node.well_formed(),
            depth <= query.len(),
            node.fits((query.len() - depth) as nat),
            self.mirrors(node, depth),
        ensures
            self.decide(query, Case::Sensitive) == node.lookup(
                query.subrange(depth as int, query.len() as int),
            ),
        decreases node, node.children@.len() + 1,
    {
        let n = node.bytes@.len() as int;
        let key = query.subrange(depth as int, query.len() as int);
        let part = query.subrange(depth as int, depth + n);
        self.lemma_accepts_label(node, depth, query, Case::Sensitive);
        assert(key.subrange(0, n) =~= part);
        if same_bytes(part, node.bytes@, Case::Sensitive) {
            assert(part =~= node.bytes@);
        }
        if self.accepts(query, Case::Sensitive) {
            if key.len() == n {
                if node.value.is_none() {
                    assert forall|j: int| 0 <= j < self.inner@.len() implies !(
                    #[trigger] self.inner@[j]).accepts(query, Case::Sensitive) by {
                        assert(node.children@[j].fits(0));
                        assert(node.children@[j].bytes@.len() > 0);
                    }
                    self.lemma_chain_rejects(0, query, Case::Sensitive);
                }
            } else if node.value.is_none() {
                assert(key[n] == query[depth + n]);
                assert(key.subrange(n, key.len() as int) =~= query.subrange(
                    depth + n,
                    query.len() as int,
                ));
                self.lemma_chain_as_lookup(node, depth, query, 0, query[depth + n]);
            }
        }
    }

    /// The chain of inner conditionals returns what the child that the next
    /// byte of the query leads to answers, when no child before `from` is that
    /// child.
    pub proof fn lemma_chain_as_lookup(
        self,
        node: Node<T>,
        depth: nat,
        query: Seq<u8>,
        from: nat,
        next: u8,
    )
        requires
            node.well_formed(),
            depth + node.bytes@.len() < query.len(),
            node.fits((query.len() - depth) as nat),
            self.mirrors(node, depth),
            from <= node.children@.len(),
            next == query[depth + node.bytes@.len() as int],
            forall|j: int| 0 <= j < from ==> !leads(node.children@, j, next),
        ensures
            self.chain(from, query, Case::Sensitive) == (if exists|i: int|
                leads(node.children@, i, next) {
                node.children@[choose|i: int| leads(node.children@, i, next)].lookup(
                    query.subrange(depth + node.bytes@.len() as int, query.len() as int),
                )
            } else {
                None
            }),
        decreases node, node.children@.len() - from,
    {
        let at = depth + node.bytes@.len();
        let b = next;
        if from < node.children@.len() {
            let child = node.children@[from as int];
            let arm = self.inner@[from as int];
            assert(arm.mirrors(child, at));
            assert(child.fits((query.len() - at) as nat));
            assert(child.well_formed());
            arm.lemma_decides_as_lookup(child, at, query);
            if child.bytes@[0] == b {
                assert(leads(node.children@, from as int, b));
                let c = choose|i: int| leads(node.children@, i, b);
                assert(leads(node.children@, c, b));
                if c < from {
                    assert(node.children@[c].bytes@[0] < node.children@[from as int].bytes@[0]);
                } else if from < c {
                    assert(node.children@[from as int].bytes@[0] < node.children@[c].bytes@[0]);
                }
                if !arm.accepts(query, Case::Sensitive) {
                    assert forall|j: int| from + 1 <= j < self.inner@.len() implies !(
                    #[trigger] self.inner@[j]).accepts(query, Case::Sensitive) by {
                        assert(self.inner@[j].mirrors(node.children@[j], at));
                        assert(node.children@[from as int].bytes@[0] < node.children@[j].bytes@[0]);
                        assert(node.children@[j].bytes@.len() > 0);
                        if self.inner@[j].accepts(query, Case::Sensitive) {
                            assert(self.inner@[j].tests@[0].holds(query, Case::Sensitive));
                        }
                    }
                    self.lemma_chain_rejects(from + 1, query, Case::Sensitive);
                }
            } else {
                assert(!arm.accepts(query, Case::Sensitive)) by {
                    if arm.accepts(query, Case::Sensitive) {
                        assert(arm.tests@[0].holds(query, Case::Sensitive));
                    }
                }
                self.lemma_chain_as_lookup(node, depth, query, from + 1, next);
            }
        }
    }
}

impl<'a, T> Branch<'a, T> {
    /// Inner conditionals that do not accept the query are passed over.
    pub proof fn lemma_chain_skips(self, from: nat, to: nat, query: Seq<u8>, case: Case)
        requires
            from <= to <= self.inner@.len(),
            forall|j: int| from <= j < to ==> !(#[trigger] self.inner@[j]).accepts(query, case),
        ensures
            self.chain(from, query, case) == self.chain(to, query, case),
        decreases to - from,
    {
        if from < to {
            assert(!self.inner@[from as int].accepts(query, case));
            self.lemma_chain_skips(from + 1, to, query, case);
        }
    }

    /// With ASCII letters folded, the conditional that a case-separated trie
    /// of single-length keys compiles to returns the value of a stored key for
    /// every query that differs from the key in letter case only.
    pub proof fn lemma_decides_ignoring_case(
        self,
        node: Node<T>,
        depth: nat,
        query: Seq<u8>,
        key: Seq<u8>,
    )
        requires
            node.well_formed(),
            node.case_separated(),
            depth <= key.len(),
            node.fits((key.len() - depth) as nat),
            self.mirrors(node, depth),
            same_bytes(query, key, Case::Insensitive),
            node.lookup(key.subrange(depth as int, key.len() as int)).is_some(),
        ensures
            self.decide(query, Case::Insensitive) == node.lookup(
                key.subrange(depth as int, key.len() as int),
            ),
        decreases node,
    {
        let n = node.bytes@.len() as int;
        let tail = key.subrange(depth as int, key.len() as int);
        let part = query.subrange(depth as int, depth + n);
        self.lemma_accepts_label(node, depth, query, Case::Insensitive);
        assert(same_bytes(part, node.bytes@, Case::Insensitive)) by {
            assert forall|k: int| 0 <= k < n implies same_byte(
                part[k],
                node.bytes@[k],
                Case::Insensitive,
            ) by {
                assert(tail.subrange(0, n)[k] == node.bytes@[k]);
                assert(same_byte(query[depth + k], key[depth + k], Case::Insensitive));
            }
        }
        if tail.len() > n && node.value.is_none() {
            let at = (depth + n) as nat;
            let b = tail[n];
            let i = choose|i: int| leads(node.children@, i, b);
            let child = node.children@[i];
            let arm = self.inner@[i];
            assert(tail.subrange(n, tail.len() as int) =~= key.subrange(
                at as int,
                key.len() as int,
            ));
            arm.lemma_decides_ignoring_case(child, at, query, key);
            assert forall|j: int| 0 <= j < i implies !(#[trigger] self.inner@[j]).accepts(
                query,
                Case::Insensitive,
            ) by {
                let other = node.children@[j];
                assert(self.inner@[j].mirrors(other, at));
                assert(lower(other.bytes@[0]) != lower(child.bytes@[0]));
                assert(same_byte(query[at as int], key[at as int], Case::Insensitive));
                assert(key[at as int] == b);
                if self.inner@[j].accepts(query, Case::Insensitive) {
                    assert(self.inner@[j].tests@[0].holds(query, Case::Insensitive));
                }
            }
            self.lemma_chain_skips(0, i as nat, query, Case::Insensitive);
        }
    }
}

impl<'a, T> Branch<'a, T> {
    /// A chain that returns something has an inner conditional that accepts
    /// the query, before which none does, and returns what that one returns.
    pub proof fn lemma_chain_taken(self, from: nat, query: Seq<u8>, case: Case) -> (at: int)
        requires
            self.chain(from, query, case).is_some(),
        ensures
            from <= at < self.inner@.len(),
            self.inner@[at].accepts(query, case),
            self.chain(from, query, case) == self.inner@[at].outcome(query, case),
        decreases self.inner@.len() - from,
    {
        if self.inner@[from as int].accepts(query, case) {
            from as int
        } else {
            self.lemma_chain_taken(from + 1, query, case)
        }
    }

    /// Whatever the case, the conditional that a trie of single-length keys
    /// compiles to returns nothing of its own: every value that it returns
    /// for a query is stored in the trie, under a key that counts as equal to
    /// the query. That key is returned.
    pub proof fn lemma_decides_a_stored_key(
        self,
        node: Node<T>,
        depth: nat,
        query: Seq<u8>,
        case: Case,
    ) -> (key: Seq<u8>)
        requires
            node.well_formed(),
            depth <= query.len(),
            node.fits((query.len() - depth) as nat),
            self.mirrors(node, depth),
            self.decide(query, case).is_some(),
        ensures
            same_bytes(query.subrange(depth as int, query.len() as int), key, case),
            node.lookup(key) == self.decide(query, case),
        decreases node,
    {
        let n = node.bytes@.len() as int;
        let tail = query.subrange(depth as int, query.len() as int);
        self.lemma_accepts_label(node, depth, query, case);
        if self.found.is_some() {
            assert(tail =~= query.subrange(depth as int, depth + n));
            assert(node.bytes@.subrange(0, n) =~= node.bytes@);
            node.bytes@
        } else {
            let at = self.lemma_chain_taken(0, query, case);
            let child = node.children@[at];
            let arm = self.inner@[at];
            assert(arm.mirrors(child, (depth + n) as nat));
            assert(child.fits((query.len() - depth - n) as nat));
            let rest = arm.lemma_decides_a_stored_key(child, (depth + n) as nat, query, case);
            let key = node.bytes@ + rest;
            assert(key.subrange(0, n) =~= node.bytes@);
            assert(key.subrange(n, key.len() as int) =~= rest);
            assert(rest.len() >= child.bytes@.len() && rest.subrange(
                0,
                child.bytes@.len() as int,
            ) == child.bytes@);
            assert(rest.subrange(0, child.bytes@.len() as int)[0] == child.bytes@[0]);
            assert(leads(node.children@, at, key[n]));
            node.lemma_lookup_descends(key, at);
            assert forall|i: int| 0 <= i < tail.len() implies same_byte(tail[i], key[i], case) by {
                if i < n {
                    assert(query.subrange(depth as int, depth + n)[i] == tail[i]);
                } else {
                    assert(query.subrange(depth + n, query.len() as int)[i - n] == tail[i]);
                    assert(rest[i - n] == key[i]);
                }
            }
            key
        }
    }
}

/// A conditional under construction: the node that it is compiled from, the
/// position of the node's label in the query, the position of the child to
/// compile next, and the conditional as far as it is built.
pub struct Frame<'a, T> {
    pub node: &'a Node<T>,
    pub depth: usize,
    pub next: usize,
    pub branch: Branch<'a, T>,
}

impl<'a, T> Frame<'a, T> {
    /// Whether the conditional is that of the node with the children
    /// compiled so far: the tests and the value are those of the node, and
    /// there is one inner conditional for each child done.
    pub open spec fn well_formed(self) -> bool {
        &&& self.node.within((usize::MAX - self.depth) as nat)
        &&& self.next <= self.node.children@.len()
        &&& self.branch.inner@.len() <= self.node.children@.len()
        &&& self.branch.tests@.len() == self.node.bytes@.len()
        &&& forall|k: int|
            0 <= k < self.branch.tests@.len() ==> (#[trigger] self.branch.tests@[k]).index
                == self.depth + k && self.branch.tests@[k].byte == self.node.bytes@[k]
        &&& match self.branch.found {
            Some(v) => self.node.value == Some(*v),
            None => self.node.value.is_none(),
        }
        &&& forall|i: int|
            0 <= i < self.branch.inner@.len() ==> (#[trigger] self.branch.inner@[i]).mirrors(
                self.node.children@[i],
                (self.depth + self.node.bytes@.len()) as nat,
            )
    }

    /// Opens the conditional for `node`, with its tests and its value and
    /// without inner conditionals.
    pub fn open(node: &'a Node<T>, depth: usize) -> (frame: Self)
        requires
            node.within((usize::MAX - depth) as nat),
        ensures
            frame.well_formed(),
            frame.node == node,
            frame.depth == depth,
            frame.next == 0,
            frame.branch.inner@.len() == 0,
    {
        let n = node.bytes.len();
        let mut tests: Vec<ByteTest> = Vec::new();
        let mut k: usize = 0;
        while k < n
            invariant
                n == node.bytes@.len(),
                k <= n,
                depth + n <= usize::MAX,
                tests@.len() == k,
                forall|j: int|
                    0 <= j < k ==> (#[trigger] tests@[j]).index == depth + j && tests@[j].byte
                        == node.bytes@[j],
            decreases n - k,
        {
            tests.push(ByteTest { index: depth + k, byte: node.bytes[k] });
            k += 1;
        }
        Frame {
            node,
            depth,
            next: 0,
            branch: Branch { tests, found: node.value.as_ref(), inner: Vec::new() },
        }
    }
}

/// The nodes of the frames, each with the position of its next child.
pub open spec fn walked<T>(stack: Seq<Frame<'_, T>>) -> Seq<(&Node<T>, usize)> {
    Seq::new(stack.len(), |k: int| (stack[k].node, stack[k].next))
}

/// Whether the frames are a path from a node down to the node being
/// compiled: each frame but the last waits for the child that the frame
/// after it compiles, with all children before that one done, and the last
/// frame has done all children before its next.
pub open spec fn stacked<T>(stack: Seq<Frame<'_, T>>) -> bool {
    &&& forall|k: int| 0 <= k < stack.len() ==> (#[trigger] stack[k]).well_formed()
    &&& forall|k: int|
        0 <= k < stack.len() - 1 ==> {
            &&& (#[trigger] stack[k]).next >= 1
            &&& stack[k].branch.inner@.len() == stack[k].next - 1
            &&& *stack[k + 1].node == stack[k].node.children@[stack[k].next - 1]
            &&& stack[k + 1].depth == stack[k].depth + stack[k].node.bytes@.len()
        }
    &&& stack.len() > 0 ==> stack.last().branch.inner@.len() == stack.last().next
}

impl<T> Node<T> {
    /// Compiles this subtree into a conditional, for a query in which the
    /// node's label starts at position `depth`: the label becomes one test for
    /// each of its bytes, the value is returned where the tests hold, and the
    /// children follow as inner conditionals in ascending order of first byte.
    ///
    /// The subtree is walked depth first with a stack of open conditionals: a
    /// conditional is opened when its node is entered, and closed into the
    /// one above it when the node is left.
    pub fn branch(&self, depth: usize) -> (r: Branch<'_, T>)
        requires
            self.within((usize::MAX - depth) as nat),
        ensures
            r.mirrors(*self, depth as nat),
    {
        let mut stack: Vec<Frame<'_, T>> = Vec::new();
        stack.push(Frame::open(self, depth));
        proof {
            assert(walked(stack@).drop_last() =~= Seq::empty());
            assert(remaining_of(walked(stack@).drop_last()) =~= Seq::empty());
        }
        loop
            invariant
                stack@.len() > 0,
                stacked(stack@),
                *stack@[0].node == *self,
                stack@[0].depth == depth,
            decreases remaining_of(walked(stack@)).len(),
        {
            let ghost before = stack@;
            let mut top = stack.pop().unwrap();
            let ghost below = stack@;
            proof {
                assert(before.drop_last() =~= below);
                assert(walked(before).drop_last() =~= walked(below));
                assert(walked(before).last() == (top.node, top.next));
            }
            let node = top.node;
            if top.next < node.children.len() {
                let child = &node.children[top.next];
                let at = top.depth + node.bytes.len();
                proof {
                    assert(node.children@[top.next as int].within((usize::MAX - at) as nat));
                }
                top.next = top.next + 1;
                let ghost waiting = top;
                stack.push(top);
                let ghost mid = stack@;
                stack.push(Frame::open(child, at));
                proof {
                    assert(mid.drop_last() =~= below);
                    assert(stack@.drop_last() =~= mid);
                    assert(walked(mid).drop_last() =~= walked(below));
                    assert(walked(stack@).drop_last() =~= walked(mid));
                    assert(walked(mid).last() == (node, waiting.next));
                    assert(walked(stack@).last() == (child, 0usize));
                    assert(remaining_of(walked(mid)) == node.events_from(waiting.next as nat)
                        + seq![node.post()] + remaining_of(walked(below)));
                    assert(remaining_of(walked(stack@)) == child.events_from(0) + seq![
                        child.post(),
                    ] + remaining_of(walked(mid)));
                    assert(node.events_from((waiting.next - 1) as nat) == child.events()
                        + node.events_from(waiting.next as nat));
                    assert(child.events() == seq![child.pre()] + child.events_from(0) + seq![
                        child.post(),
                    ]);
                    assert(remaining_of(walked(before)) == node.events_from(
                        (waiting.next - 1) as nat,
                    ) + seq![node.post()] + remaining_of(walked(below)));
                    assert(remaining_of(walked(before)).len() == remaining_of(
                        walked(stack@),
                    ).len() + 1);
                    assert forall|k: int| 0 <= k < stack@.len() implies (
                    #[trigger] stack@[k]).well_formed() by {
                        if k < below.len() {
                            assert(stack@[k] == before[k]);
                        }
                    }
                    assert forall|k: int| 0 <= k < stack@.len() - 1 implies {
                        &&& (#[trigger] stack@[k]).next >= 1
                        &&& stack@[k].branch.inner@.len() == stack@[k].next - 1
                        &&& *stack@[k + 1].node == stack@[k].node.children@[stack@[k].next - 1]
                        &&& stack@[k + 1].depth == stack@[k].depth + stack@[k].node.bytes@.len()
                    } by {
                        if k < below.len() - 1 {
                            assert(stack@[k] == before[k]);
                            assert(stack@[k + 1] == before[k + 1]);
                        } else if k == below.len() - 1 {
                            assert(stack@[k] == before[k]);
                            assert(stack@[k + 1].node == before[k + 1].node);
                            assert(stack@[k + 1].depth == before[k + 1].depth);
                        }
                    }
                }
            } else {
                proof {
                    assert(remaining_of(walked(before)) == node.events_from(top.next as nat)
                        + seq![node.post()] + remaining_of(walked(below)));
                    assert(remaining_of(walked(before)).len() == remaining_of(
                        walked(below),
                    ).len() + 1);
                    assert(top.branch.mirrors(*node, top.depth as nat));
                }
                let mut above = match stack.pop() {
                    Some(above) => above,
                    None => {
                        return top.branch;
                    },
                };
                let ghost rest = stack@;
                proof {
                    assert(below.drop_last() =~= rest);
                    assert(above == before[before.len() - 2]);
                    assert(*top.node == above.node.children@[above.next - 1]);
                }
                above.branch.inner.push(top.branch);
                stack.push(above);
                proof {
                    assert(stack@.drop_last() =~= rest);
                    assert(walked(stack@) =~= walked(below));
                    assert forall|k: int| 0 <= k < stack@.len() implies (
                    #[trigger] stack@[k]).well_formed() by {
                        if k < rest.len() {
                            assert(stack@[k] == before[k]);
                        }
                    }
                    assert forall|k: int| 0 <= k < stack@.len() - 1 implies {
                        &&& (#[trigger] stack@[k]).next >= 1
                        &&& stack@[k].branch.inner@.len() == stack@[k].next - 1
                        &&& *stack@[k + 1].node == stack@[k].node.children@[stack@[k].next - 1]
                        &&& stack@[k + 1].depth == stack@[k].depth + stack@[k].node.bytes@.len()
                    } by {
                        assert(stack@[k] == before[k]);
                        if k + 1 < rest.len() {
                            assert(stack@[k + 1] == before[k + 1]);
                        } else {
                            assert(stack@[k + 1].node == before[k + 1].node);
                            assert(stack@[k + 1].depth == before[k + 1].depth);
                        }
                    }
                }
            }
        }
    }
}

} // verus!
