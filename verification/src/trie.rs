//! A byte-compressed trie: every node carries an edge label of zero or more
//! bytes, an optional value, and its children in ascending order of the first
//! byte of their labels.

use crate::bytes::{common_prefix, differs_at};
use vstd::prelude::*;
use vstd::slice::{slice_subrange, slice_to_vec};

verus! {

/// One node of the trie, together with everything below it.
pub struct Node<T> {
    pub bytes: Vec<u8>,
    pub children: Vec<Node<T>>,
    pub value: Option<T>,
}

/// Whether `children[i]` is the child that a remaining key starting with `b` descends into.
pub open spec fn leads<T>(children: Seq<Node<T>>, i: int, b: u8) -> bool {
    0 <= i < children.len() && children[i].bytes@.len() > 0 && children[i].bytes@[0] == b
}

impl<T> Node<T> {
    /// Children have non-empty labels and strictly ascending first bytes, all the way down.
    pub open spec fn well_formed(self) -> bool
        decreases self,
    {
        &&& forall|i: int|
            0 <= i < self.children@.len() ==> (#[trigger] self.children@[i]).bytes@.len() > 0
        &&& forall|i: int, j: int|
            0 <= i < j < self.children@.len() ==> (#[trigger] self.children@[i]).bytes@[0] < (
            #[trigger] self.children@[j]).bytes@[0]
        &&& forall|i: int|
            0 <= i < self.children@.len() ==> (#[trigger] self.children@[i]).well_formed()
    }

    /// Whether the subtree holds keys of length `len` only, `len` counted from
    /// the start of this node's label: no label reaches beyond `len`, and
    /// values sit exactly there.
    pub open spec fn fits(self, len: nat) -> bool
        decreases self,
    {
        &&& self.bytes@.len() <= len
        &&& (self.value.is_some() ==> self.bytes@.len() == len)
        &&& forall|i: int|
            0 <= i < self.children@.len() ==> (#[trigger] self.children@[i]).fits(
                (len - self.bytes@.len()) as nat,
            )
    }

    /// Whether the subtree stores a key.
    pub open spec fn bears(self) -> bool {
        exists|key: Seq<u8>| (#[trigger] self.lookup(key)).is_some()
    }

    /// Whether no branch ends without a key: every child stores one, all the
    /// way down.
    pub open spec fn thriving(self) -> bool
        decreases self,
    {
        forall|i: int|
            0 <= i < self.children@.len() ==> (#[trigger] self.children@[i]).bears()
                && self.children@[i].thriving()
    }

    /// Whether the node is more than a link in a chain: with fewer than two
    /// children it has a value.
    pub open spec fn branching(self) -> bool {
        self.children@.len() <= 1 ==> self.value.is_some()
    }

    /// Whether the labels below this node are as long as they can be: every
    /// node below has a value or at least two children, so that no label
    /// could be joined with the one above it.
    pub open spec fn compressed(self) -> bool
        decreases self,
    {
        forall|i: int|
            0 <= i < self.children@.len() ==> (#[trigger] self.children@[i]).branching()
                && self.children@[i].compressed()
    }

    /// Whether the node has this label, this value and these children.
    pub open spec fn holds(self, label: Seq<u8>, value: Option<T>, children: Seq<Node<T>>) -> bool {
        self.bytes@ =~= label && self.value == value && self.children@ =~= children
    }

    /// Whether `after` is this subtree with `value` stored under `key`, where
    /// `key` starts at this node's label.
    ///
    /// The label is kept as far as `key` shares it. Where the label goes on
    /// after that, it is cut: its rest moves into a child of its own, with the
    /// value and the children that the node had. Then, where `key` ends with
    /// the label, the node takes `value`; where a child starts with the next
    /// byte of `key`, the rest of `key` is stored in that child in the same
    /// way; and otherwise a new leaf with the rest of `key` and with `value`
    /// joins the children.
    pub open spec fn grown(self, after: Self, key: Seq<u8>, value: T) -> bool
        decreases self,
    {
        let n = after.bytes@.len() as int;
        let rest = key.subrange(n, key.len() as int);
        &&& common_prefix(self.bytes@, key, n)
        &&& after.bytes@ =~= self.bytes@.subrange(0, n)
        &&& if n < self.bytes@.len() {
            let cut = self.bytes@.subrange(n, self.bytes@.len() as int);
            if key.len() == n {
                &&& after.value == Some(value)
                &&& after.children@.len() == 1
                &&& after.children@[0].holds(cut, self.value, self.children@)
            } else {
                let moved = if self.bytes@[n] < key[n] {
                    0int
                } else {
                    1int
                };
                &&& after.value.is_none()
                &&& after.children@.len() == 2
                &&& after.children@[moved].holds(cut, self.value, self.children@)
                &&& after.children@[1 - moved].holds(rest, Some(value), Seq::empty())
            }
        } else if key.len() == n {
            after.value == Some(value) && after.children@ =~= self.children@
        } else if exists|i: int| leads(self.children@, i, key[n]) {
            let i = choose|i: int| leads(self.children@, i, key[n]);
            &&& after.value == self.value
            &&& after.children@.len() == self.children@.len()
            &&& forall|j: int|
                0 <= j < self.children@.len() && j != i ==> #[trigger] after.children@[j]
                    == self.children@[j]
            &&& self.children@[i].grown(after.children@[i], rest, value)
        } else {
            &&& after.value == self.value
            &&& exists|p: int|
                0 <= p <= self.children@.len() && after.children@ =~= self.children@.insert(
                    p,
                    #[trigger] after.children@[p],
                ) && after.children@[p].holds(rest, Some(value), Seq::empty())
        }
    }

    /// What the subtree answers for `key`, where `key` starts at this node's label:
    /// the value stored for exactly `key`, if any.
    pub open spec fn lookup(self, key: Seq<u8>) -> Option<T>
        decreases self,
    {
        let n = self.bytes@.len() as int;
        if key.len() < n || key.subrange(0, n) != self.bytes@ {
            None
        } else if key.len() == n {
            self.value
        } else if exists|i: int| leads(self.children@, i, key[n]) {
            let i = choose|i: int| leads(self.children@, i, key[n]);
            self.children@[i].lookup(key.subrange(n, key.len() as int))
        } else {
            None
        }
    }
}

impl<T> Node<T> {
    /// A key of a child, behind the node's label, is a key of the node.
    pub proof fn lemma_bears_through(self, i: int, below: Seq<u8>)
        requires
            self.well_formed(),
            0 <= i < self.children@.len(),
            self.children@[i].lookup(below).is_some(),
        ensures
            self.lookup(self.bytes@ + below) == self.children@[i].lookup(below),
            self.bears(),
    {
        let n = self.bytes@.len() as int;
        let key = self.bytes@ + below;
        let child = self.children@[i];
        assert(below.len() >= child.bytes@.len());
        assert(below.subrange(0, child.bytes@.len() as int)[0] == child.bytes@[0]);
        assert(key.subrange(0, n) =~= self.bytes@);
        assert(key.subrange(n, key.len() as int) =~= below);
        assert(leads(self.children@, i, key[n]));
        self.lemma_lookup_descends(key, i);
    }

    /// A node stores a key exactly if it has a value or one of its children
    /// stores a key.
    pub proof fn lemma_bears(self)
        requires
            self.well_formed(),
        ensures
            self.bears() <==> (self.value.is_some() || exists|i: int|
                0 <= i < self.children@.len() && (#[trigger] self.children@[i]).bears()),
    {
        let n = self.bytes@.len() as int;
        if self.bears() {
            let key = choose|key: Seq<u8>| (#[trigger] self.lookup(key)).is_some();
            if key.len() > n {
                let i = choose|i: int| leads(self.children@, i, key[n]);
                assert(self.children@[i].lookup(key.subrange(n, key.len() as int)).is_some());
                assert(self.children@[i].bears());
            }
        }
        if self.value.is_some() {
            assert(self.bytes@.subrange(0, n) =~= self.bytes@);
            assert(self.lookup(self.bytes@).is_some());
        }
        if exists|i: int| 0 <= i < self.children@.len() && (#[trigger] self.children@[i]).bears() {
            let i = choose|i: int|
                0 <= i < self.children@.len() && (#[trigger] self.children@[i]).bears();
            let below = choose|below: Seq<u8>|
                (#[trigger] self.children@[i].lookup(below)).is_some();
            self.lemma_bears_through(i, below);
        }
    }

    /// First bytes that go up from each child to the next go up from any
    /// child to any later one.
    pub proof fn lemma_ascending(self, a: int, b: int)
        requires
            0 <= a < b < self.children@.len(),
            forall|k: int|
                0 < k < self.children@.len() ==> (#[trigger] self.children@[k - 1]).bytes@[0]
                    < self.children@[k].bytes@[0],
        ensures
            self.children@[a].bytes@[0] < self.children@[b].bytes@[0],
        decreases b - a,
    {
        assert(self.children@[b - 1].bytes@[0] < self.children@[b].bytes@[0]);
        if a < b - 1 {
            self.lemma_ascending(a, b - 1);
        }
    }

    /// A subtree that holds keys of one length answers for no key of another.
    pub proof fn lemma_fits_lookup(self, len: nat, key: Seq<u8>)
        requires
            self.fits(len),
            self.lookup(key).is_some(),
        ensures
            key.len() == len,
        decreases self,
    {
        let n = self.bytes@.len() as int;
        if key.len() > n {
            let i = choose|i: int| leads(self.children@, i, key[n]);
            self.children@[i].lemma_fits_lookup(
                (len - n) as nat,
                key.subrange(n, key.len() as int),
            );
        }
    }

    /// In a well-formed node at most one child starts with a given byte, so a
    /// key that goes on after the label is answered by that child.
    pub proof fn lemma_lookup_descends(self, key: Seq<u8>, i: int)
        requires
            self.well_formed(),
            key.len() > self.bytes@.len(),
            key.subrange(0, self.bytes@.len() as int) == self.bytes@,
            leads(self.children@, i, key[self.bytes@.len() as int]),
        ensures
            self.lookup(key) == self.children@[i].lookup(
                key.subrange(self.bytes@.len() as int, key.len() as int),
            ),
    {
        let b = key[self.bytes@.len() as int];
        let c = choose|c: int| leads(self.children@, c, b);
        assert(leads(self.children@, c, b));
        if c < i {
            assert(self.children@[c].bytes@[0] < self.children@[i].bytes@[0]);
        } else if i < c {
            assert(self.children@[i].bytes@[0] < self.children@[c].bytes@[0]);
        }
    }

    /// Cutting a label in two leaves every answer as it was.
    pub proof fn lemma_lookup_split(self, cut: Self, idx: int, key: Seq<u8>)
        requires
            self.well_formed(),
            cut.well_formed(),
            0 <= idx < self.bytes@.len(),
            cut.bytes@ == self.bytes@.subrange(0, idx),
            cut.value.is_none(),
            cut.children@.len() == 1,
            cut.children@[0].bytes@ == self.bytes@.subrange(idx, self.bytes@.len() as int),
            cut.children@[0].value == self.value,
            cut.children@[0].children@ == self.children@,
        ensures
            cut.lookup(key) == self.lookup(key),
    {
        let full = self.bytes@;
        let n = full.len() as int;
        let child = cut.children@[0];
        if key.len() < idx || key.subrange(0, idx) != cut.bytes@ {
            if key.len() >= n && key.subrange(0, n) == full {
                assert(key.subrange(0, idx) =~= full.subrange(0, idx));
            }
        } else if key.len() == idx {
        } else {
            let rest = key.subrange(idx, key.len() as int);
            assert(child.bytes@[0] == full[idx]);
            if key[idx] == full[idx] {
                assert(leads(cut.children@, 0, key[idx]));
                cut.lemma_lookup_descends(key, 0);
                assert(cut.lookup(key) == child.lookup(rest));
                if key.len() >= n && key.subrange(0, n) == full {
                    assert(rest.subrange(0, n - idx) =~= child.bytes@);
                    if key.len() > n {
                        assert(rest[n - idx] == key[n]);
                        assert(rest.subrange(n - idx, rest.len() as int) =~= key.subrange(
                            n,
                            key.len() as int,
                        ));
                    }
                } else if key.len() >= n {
                    if rest.subrange(0, n - idx) == child.bytes@ {
                        assert forall|j: int| 0 <= j < n implies key.subrange(0, n)[j] == full[j] by {
                            if j < idx {
                                assert(key.subrange(0, idx)[j] == full.subrange(0, idx)[j]);
                            } else {
                                assert(rest.subrange(0, n - idx)[j - idx] == child.bytes@[j - idx]);
                            }
                        }
                        assert(key.subrange(0, n) =~= full);
                    }
                }
            } else {
                assert forall|c: int| !leads(cut.children@, c, key[idx]) by {}
                if key.len() >= n && key.subrange(0, n) == full {
                    assert(key.subrange(0, n)[idx] == full[idx]);
                }
            }
        }
    }

    /// Setting the value of a node changes the answer for its own label only.
    pub proof fn lemma_lookup_set_value(self, after: Self, value: T, key: Seq<u8>)
        requires
            after.bytes@ == self.bytes@,
            after.children@ == self.children@,
            after.value == Some(value),
        ensures
            after.lookup(key) == (if key == self.bytes@ {
                Some(value)
            } else {
                self.lookup(key)
            }),
    {
        let n = self.bytes@.len() as int;
        if key.len() == n && key.subrange(0, n) == self.bytes@ {
            assert(key.subrange(0, n) =~= key);
        }
        if key == self.bytes@ {
            assert(key.subrange(0, n) =~= key);
        }
    }

    /// A new leaf among the children answers for its own key and changes no
    /// other answer.
    pub proof fn lemma_lookup_add_leaf(
        self,
        after: Self,
        at: int,
        rest: Seq<u8>,
        value: T,
        key: Seq<u8>,
    )
        requires
            self.well_formed(),
            after.well_formed(),
            after.bytes@ == self.bytes@,
            after.value == self.value,
            0 <= at <= self.children@.len(),
            after.children@.len() == self.children@.len() + 1,
            after.children@ == self.children@.insert(at, after.children@[at]),
            after.children@[at].bytes@ == rest,
            after.children@[at].value == Some(value),
            after.children@[at].children@.len() == 0,
            rest.len() > 0,
            forall|i: int| !leads(self.children@, i, rest[0]),
        ensures
            after.lookup(key) == (if key == self.bytes@ + rest {
                Some(value)
            } else {
                self.lookup(key)
            }),
    {
        let n = self.bytes@.len() as int;
        let leaf = after.children@[at];
        let whole = self.bytes@ + rest;
        assert(whole.subrange(0, n) =~= self.bytes@);
        assert(whole.subrange(n, whole.len() as int) =~= rest);
        if key.len() > n && key.subrange(0, n) == self.bytes@ {
            let tail = key.subrange(n, key.len() as int);
            let b = key[n];
            assert(tail[0] == b);
            if b == rest[0] {
                assert(leads(after.children@, at, b));
                after.lemma_lookup_descends(key, at);
                if tail.len() >= rest.len() && tail.subrange(0, rest.len() as int) == rest
                    && tail.len() == rest.len() {
                    assert(tail.subrange(0, rest.len() as int) =~= tail);
                    assert(key =~= whole);
                }
                if key == whole {
                    assert(tail =~= rest);
                    assert(tail.subrange(0, rest.len() as int) =~= tail);
                }
                if tail.len() > rest.len() {
                    assert forall|c: int| !leads(leaf.children@, c, tail[rest.len() as int]) by {}
                }
            } else {
                assert(key != whole) by {
                    if key == whole {
                        assert(whole[n] == rest[0]);
                    }
                }
                if exists|i: int| leads(self.children@, i, b) {
                    let i = choose|i: int| leads(self.children@, i, b);
                    let j = if i < at {
                        i
                    } else {
                        i + 1
                    };
                    assert(after.children@[j] == self.children@[i]);
                    assert(leads(after.children@, j, b));
                    after.lemma_lookup_descends(key, j);
                    self.lemma_lookup_descends(key, i);
                } else {
                    assert forall|j: int| !leads(after.children@, j, b) by {
                        if leads(after.children@, j, b) {
                            let i = if j < at {
                                j
                            } else {
                                j - 1
                            };
                            assert(j != at);
                            assert(after.children@[j] == self.children@[i]);
                            assert(leads(self.children@, i, b));
                        }
                    }
                }
            }
        } else {
            assert(key != whole) by {
                if key == whole {
                    assert(key.len() > n);
                }
            }
        }
    }

    /// When one child changes its answer for one key, so does the node, for
    /// that key behind the node's label, and for no other.
    pub proof fn lemma_lookup_update_child(
        self,
        after: Self,
        i: int,
        rest: Seq<u8>,
        value: T,
        key: Seq<u8>,
    )
        requires
            self.well_formed(),
            after.well_formed(),
            after.bytes@ == self.bytes@,
            after.value == self.value,
            0 <= i < self.children@.len(),
            after.children@ == self.children@.update(i, after.children@[i]),
            rest.len() > 0,
            leads(self.children@, i, rest[0]),
            leads(after.children@, i, rest[0]),
            forall|k: Seq<u8>| #[trigger]
                after.children@[i].lookup(k) == (if k == rest {
                    Some(value)
                } else {
                    self.children@[i].lookup(k)
                }),
        ensures
            after.lookup(key) == (if key == self.bytes@ + rest {
                Some(value)
            } else {
                self.lookup(key)
            }),
    {
        let n = self.bytes@.len() as int;
        let whole = self.bytes@ + rest;
        assert(whole.subrange(0, n) =~= self.bytes@);
        assert(whole.subrange(n, whole.len() as int) =~= rest);
        if key.len() > n && key.subrange(0, n) == self.bytes@ {
            let tail = key.subrange(n, key.len() as int);
            let b = key[n];
            if b == rest[0] {
                after.lemma_lookup_descends(key, i);
                self.lemma_lookup_descends(key, i);
                if tail == rest {
                    assert(key =~= whole);
                }
            } else {
                assert(key != whole) by {
                    if key == whole {
                        assert(whole[n] == rest[0]);
                    }
                }
                if exists|j: int| leads(self.children@, j, b) {
                    let j = choose|j: int| leads(self.children@, j, b);
                    assert(j != i);
                    assert(after.children@[j] == self.children@[j]);
                    assert(leads(after.children@, j, b));
                    after.lemma_lookup_descends(key, j);
                    self.lemma_lookup_descends(key, j);
                } else {
                    assert forall|j: int| !leads(after.children@, j, b) by {
                        if leads(after.children@, j, b) {
                            assert(j != i);
                            assert(after.children@[j] == self.children@[j]);
                            assert(leads(self.children@, j, b));
                        }
                    }
                }
            }
        } else {
            assert(key != whole) by {
                if key == whole {
                    assert(key.len() > n);
                }
            }
        }
    }

    /// A node with the given label and value and no children.
    pub fn new(bytes: Vec<u8>, value: Option<T>) -> (node: Self)
        ensures
            node.bytes@ == bytes@,
            node.value == value,
            node.children@.len() == 0,
            node.well_formed(),
            node.thriving(),
            node.compressed(),
    {
        Node { bytes, value, children: Vec::new() }
    }

    /// Checks that children have non-empty labels and strictly ascending first
    /// bytes, all the way down.
    pub fn is_well_formed(&self) -> (r: bool)
        ensures
            r == self.well_formed(),
        decreases self,
    {
        let mut i: usize = 0;
        while i < self.children.len()
            invariant
                i <= self.children@.len(),
                forall|k: int|
                    0 <= k < i ==> (#[trigger] self.children@[k]).bytes@.len() > 0
                        && self.children@[k].well_formed(),
                forall|k: int|
                    0 < k < i ==> (#[trigger] self.children@[k - 1]).bytes@[0]
                        < self.children@[k].bytes@[0],
            decreases self.children@.len() - i,
        {
            let child = &self.children[i];
            if child.bytes.len() == 0 {
                return false;
            }
            if i > 0 && self.children[i - 1].bytes[0] >= child.bytes[0] {
                proof {
                    assert(self.children@[i - 1].bytes@[0] >= self.children@[i as int].bytes@[0]);
                }
                return false;
            }
            if !child.is_well_formed() {
                return false;
            }
            i += 1;
        }
        proof {
            assert forall|a: int, b: int| 0 <= a < b < self.children@.len() implies (
            #[trigger] self.children@[a]).bytes@[0] < (#[trigger] self.children@[b]).bytes@[0] by {
                self.lemma_ascending(a, b);
            }
        }
        true
    }

    /// Checks whether the subtree stores a key.
    pub fn has_key(&self) -> (r: bool)
        requires
            self.well_formed(),
        ensures
            r == self.bears(),
        decreases self,
    {
        if self.value.is_some() {
            proof {
                self.lemma_bears();
            }
            return true;
        }
        let mut i: usize = 0;
        while i < self.children.len()
            invariant
                i <= self.children@.len(),
                self.well_formed(),
                forall|k: int| 0 <= k < i ==> !(#[trigger] self.children@[k]).bears(),
            decreases self.children@.len() - i,
        {
            if self.children[i].has_key() {
                proof {
                    self.lemma_bears();
                }
                return true;
            }
            i += 1;
        }
        proof {
            self.lemma_bears();
        }
        false
    }

    /// Checks that no branch ends without a key.
    pub fn is_thriving(&self) -> (r: bool)
        requires
            self.well_formed(),
        ensures
            r == self.thriving(),
        decreases self,
    {
        let mut i: usize = 0;
        while i < self.children.len()
            invariant
                i <= self.children@.len(),
                self.well_formed(),
                forall|k: int|
                    0 <= k < i ==> (#[trigger] self.children@[k]).bears()
                        && self.children@[k].thriving(),
            decreases self.children@.len() - i,
        {
            if !self.children[i].has_key() || !self.children[i].is_thriving() {
                return false;
            }
            i += 1;
        }
        true
    }

    /// Checks that the labels below this node are as long as they can be.
    pub fn is_compressed(&self) -> (r: bool)
        ensures
            r == self.compressed(),
        decreases self,
    {
        let mut i: usize = 0;
        while i < self.children.len()
            invariant
                i <= self.children@.len(),
                forall|k: int|
                    0 <= k < i ==> (#[trigger] self.children@[k]).branching()
                        && self.children@[k].compressed(),
            decreases self.children@.len() - i,
        {
            let child = &self.children[i];
            if child.children.len() <= 1 && child.value.is_none() {
                return false;
            }
            if !child.is_compressed() {
                return false;
            }
            i += 1;
        }
        true
    }

    /// Checks that the subtree holds keys of length `len` only.
    pub fn holds_length(&self, len: usize) -> (r: bool)
        ensures
            r == self.fits(len as nat),
        decreases self,
    {
        if self.bytes.len() > len {
            return false;
        }
        if self.value.is_some() && self.bytes.len() != len {
            return false;
        }
        let rest = len - self.bytes.len();
        let mut i: usize = 0;
        while i < self.children.len()
            invariant
                i <= self.children@.len(),
                rest == len - self.bytes@.len(),
                forall|k: int| 0 <= k < i ==> (#[trigger] self.children@[k]).fits(rest as nat),
            decreases self.children@.len() - i,
        {
            if !self.children[i].holds_length(rest) {
                return false;
            }
            i += 1;
        }
        true
    }

    /// The position of the child whose label starts with `b`, if there is one.
    pub fn find_child(&self, b: u8) -> (r: Option<usize>)
        ensures
            match r {
                Some(i) => leads(self.children@, i as int, b),
                None => forall|i: int| !leads(self.children@, i, b),
            },
    {
        let mut i: usize = 0;
        while i < self.children.len()
            invariant
                i <= self.children@.len(),
                forall|j: int| 0 <= j < i ==> !leads(self.children@, j, b),
            decreases self.children@.len() - i,
        {
            let label = &self.children[i].bytes;
            if label.len() > 0 && label[0] == b {
                return Some(i);
            }
            i += 1;
        }
        None
    }

    /// Cuts the label after its first `idx` bytes. The rest of the label moves
    /// into a new, only child, which also takes over the value and the children.
    pub fn split_at(&mut self, idx: usize)
        requires
            old(self).well_formed(),
            idx < old(self).bytes@.len(),
        ensures
            final(self).well_formed(),
            final(self).bytes@ == old(self).bytes@.subrange(0, idx as int),
            final(self).value.is_none(),
            final(self).children@.len() == 1,
            final(self).children@[0].bytes@ == old(self).bytes@.subrange(
                idx as int,
                old(self).bytes@.len() as int,
            ),
            final(self).children@[0].value == old(self).value,
            final(self).children@[0].children@ == old(self).children@,
            forall|key: Seq<u8>| #[trigger] final(self).lookup(key) == old(self).lookup(key),
            forall|len: nat| old(self).fits(len) ==> #[trigger] final(self).fits(len),
            old(self).thriving() && old(self).bears() ==> final(self).thriving(),
            old(self).compressed() && old(self).branching() ==> final(self).compressed(),
    {
        let suffix = self.bytes.split_off(idx);
        let mut child = Node::new(suffix, self.value.take());
        std::mem::swap(&mut child.children, &mut self.children);
        assert(child.well_formed());
        self.children.push(child);
        proof {
            assert forall|key: Seq<u8>| #[trigger] self.lookup(key) == old(self).lookup(key) by {
                old(self).lemma_lookup_split(*self, idx as int, key);
            }
            assert forall|len: nat| old(self).fits(len) implies #[trigger] self.fits(len) by {
                assert(self.children@[0].fits((len - idx) as nat));
            }
            if old(self).thriving() && old(self).bears() {
                let moved = self.children@[0];
                let key = choose|key: Seq<u8>| (#[trigger] old(self).lookup(key)).is_some();
                assert(self.lookup(key).is_some());
                let full = old(self).bytes@;
                assert(key.subrange(0, full.len() as int)[idx as int] == full[idx as int]);
                assert(leads(self.children@, 0, key[idx as int]));
                self.lemma_lookup_descends(key, 0);
                assert(moved.lookup(key.subrange(idx as int, key.len() as int)).is_some());
                assert(moved.bears());
                assert(moved.thriving());
            }
            if old(self).compressed() && old(self).branching() {
                let moved = self.children@[0];
                assert(moved.branching());
                assert(moved.compressed());
            }
        }
    }

    /// Puts `child` among the children, at the place that keeps them in
    /// ascending order of first byte.
    pub fn add_child(&mut self, child: Node<T>) -> (at: usize)
        requires
            old(self).well_formed(),
            child.well_formed(),
            child.bytes@.len() > 0,
            forall|i: int| !leads(old(self).children@, i, child.bytes@[0]),
        ensures
            final(self).well_formed(),
            final(self).bytes@ == old(self).bytes@,
            final(self).value == old(self).value,
            at <= old(self).children@.len(),
            final(self).children@ == old(self).children@.insert(at as int, child),
            forall|len: nat|
                old(self).fits(len) && child.fits((len - old(self).bytes@.len()) as nat)
                    ==> #[trigger] final(self).fits(len),
            old(self).thriving() && child.thriving() && child.bears() ==> final(self).thriving(),
            old(self).compressed() && child.compressed() && child.branching()
                ==> final(self).compressed(),
    {
        let b = child.bytes[0];
        let mut at: usize = 0;
        while at < self.children.len() && self.children[at].bytes[0] < b
            invariant
                at <= self.children@.len(),
                self.well_formed(),
                *self == *old(self),
                forall|j: int| 0 <= j < at ==> (#[trigger] self.children@[j]).bytes@[0] < b,
            decreases self.children@.len() - at,
        {
            at += 1;
        }
        proof {
            assert forall|j: int| at <= j < self.children@.len() implies b < (
            #[trigger] self.children@[j]).bytes@[0] by {
                assert(!leads(self.children@, j, b));
                assert(!leads(self.children@, at as int, b));
                if at < j {
                    assert(self.children@[at as int].bytes@[0] < self.children@[j].bytes@[0]);
                }
            }
        }
        self.children.insert(at, child);
        at
    }

    /// Inserts `bytes` with `value` into this subtree, where `bytes` starts at this
    /// node's label. The label is cut where `bytes` leaves it. Returns the value that
    /// `bytes` had before, if any.
    pub fn insert(&mut self, bytes: &[u8], value: T) -> (prev: Option<T>)
        requires
            old(self).well_formed(),
        ensures
            final(self).well_formed(),
            prev == old(self).lookup(bytes@),
            forall|key: Seq<u8>| #[trigger]
                final(self).lookup(key) == (if key == bytes@ {
                    Some(value)
                } else {
                    old(self).lookup(key)
                }),
            old(self).grown(*final(self), bytes@, value),
            old(self).fits(bytes@.len()) ==> final(self).fits(bytes@.len()),
            old(self).thriving() && (old(self).bears() || old(self).bytes@.len() == 0)
                ==> final(self).thriving(),
            old(self).compressed() && (old(self).branching() || old(self).bytes@.len() == 0)
                ==> final(self).compressed(),
            old(self).branching() ==> final(self).branching(),
        decreases *old(self),
    {
        let l = if bytes.len() < self.bytes.len() {
            bytes.len()
        } else {
            self.bytes.len()
        };
        let prefix = slice_subrange(bytes, 0, l);
        let mut n = self.bytes.len();
        let split_idx = match differs_at(prefix, self.bytes.as_slice()) {
            Some(i) => Some(i),
            None => if l < self.bytes.len() {
                Some(l)
            } else {
                None
            },
        };
        if let Some(idx) = split_idx {
            proof {
                if bytes@.len() >= old(self).bytes@.len() {
                    assert(bytes@.subrange(0, l as int)[idx as int] != old(self).bytes@[idx as int]);
                }
            }
            self.split_at(idx);
            n = idx;
        }
        let suffix = slice_subrange(bytes, n, bytes.len());
        let ghost mid = *self;
        proof {
            assert(bytes@.subrange(0, n as int) =~= self.bytes@);
            assert(bytes@ =~= self.bytes@ + suffix@);
            assert(old(self).lookup(bytes@) == mid.lookup(bytes@));
        }
        if suffix.len() == 0 {
            let prev = self.value.take();
            self.value = Some(value);
            proof {
                assert(bytes@ =~= mid.bytes@);
                assert forall|key: Seq<u8>| #[trigger]
                    self.lookup(key) == (if key == bytes@ {
                        Some(value)
                    } else {
                        old(self).lookup(key)
                    }) by {
                    mid.lemma_lookup_set_value(*self, value, key);
                    assert(mid.lookup(key) == old(self).lookup(key));
                }
                assert(old(self).grown(*self, bytes@, value));
            }
            return prev;
        }
        match self.find_child(suffix[0]) {
            Some(i) => {
                assert(split_idx.is_none());
                proof {
                    mid.lemma_lookup_descends(bytes@, i as int);
                }
                let prev = self.children[i].insert(suffix, value);
                proof {
                    if mid.thriving() {
                        assert(mid.children@[i as int].bears());
                        assert(self.children@[i as int].lookup(suffix@).is_some());
                        assert(self.children@[i as int].bears());
                        assert forall|j: int| 0 <= j < self.children@.len() implies (
                        #[trigger] self.children@[j]).bears() && self.children@[j].thriving() by {
                            if j != i {
                                assert(self.children@[j] == mid.children@[j]);
                            }
                        }
                    }
                    assert(self.children@ =~= mid.children@.update(i as int, self.children@[i as int]));
                    assert(self.children@[i as int].bytes@.len() > 0);
                    assert(self.children@[i as int].bytes@[0] == mid.children@[i as int].bytes@[0]);
                    assert forall|key: Seq<u8>| #[trigger]
                        self.lookup(key) == (if key == bytes@ {
                            Some(value)
                        } else {
                            old(self).lookup(key)
                        }) by {
                        mid.lemma_lookup_update_child(*self, i as int, suffix@, value, key);
                    }
                    assert(mid == *old(self));
                    assert(self.bytes@ == mid.bytes@);
                    assert(self.value == mid.value);
                    let c = choose|c: int| leads(mid.children@, c, bytes@[n as int]);
                    assert(leads(mid.children@, i as int, bytes@[n as int]));
                    assert(leads(mid.children@, c, bytes@[n as int]));
                    if c < i {
                        assert(mid.children@[c].bytes@[0] < mid.children@[i as int].bytes@[0]);
                    } else if i < c {
                        assert(mid.children@[i as int].bytes@[0] < mid.children@[c].bytes@[0]);
                    }
                    assert(old(self).grown(*self, bytes@, value));
                }
                prev
            },
            None => {
                let leaf = Node::new(slice_to_vec(suffix), Some(value));
                proof {
                    assert(suffix@.subrange(0, suffix@.len() as int) =~= suffix@);
                    assert(leaf.lookup(suffix@).is_some());
                }
                let at = self.add_child(leaf);
                proof {
                    assert(mid.lookup(bytes@).is_none());
                    assert forall|key: Seq<u8>| #[trigger]
                        self.lookup(key) == (if key == bytes@ {
                            Some(value)
                        } else {
                            old(self).lookup(key)
                        }) by {
                        mid.lemma_lookup_add_leaf(*self, at as int, suffix@, value, key);
                        assert(mid.lookup(key) == old(self).lookup(key));
                    }
                    let leaf = self.children@[at as int];
                    assert(leaf.holds(suffix@, Some(value), Seq::empty()));
                    if split_idx.is_some() {
                        let moved = mid.children@[0];
                        assert(moved.bytes@[0] == old(self).bytes@[n as int]);
                        assert(leaf.bytes@[0] == bytes@[n as int]);
                        if at == 0 {
                            assert(self.children@[1] == moved);
                            assert(self.children@[0].bytes@[0] < self.children@[1].bytes@[0]);
                        } else {
                            assert(self.children@[0] == moved);
                            assert(self.children@[0].bytes@[0] < self.children@[1].bytes@[0]);
                        }
                    }
                    assert(old(self).grown(*self, bytes@, value));
                }
                None
            },
        }
    }

    /// Looks `bytes` up in this subtree by direct descent: at each node the label
    /// must match the next bytes of the query, and the value is taken where the
    /// query ends.
    pub fn get(&self, bytes: &[u8]) -> (r: Option<&T>)
        requires
            self.well_formed(),
        ensures
            match r {
                Some(v) => self.lookup(bytes@) == Some(*v),
                None => self.lookup(bytes@).is_none(),
            },
    {
        let mut node = self;
        let mut pos: usize = 0;
        let len = bytes.len();
        proof {
            assert(bytes@.subrange(0, bytes@.len() as int) =~= bytes@);
        }
        loop
            invariant
                len == bytes@.len(),
                pos <= len,
                node.well_formed(),
                self.lookup(bytes@) == node.lookup(bytes@.subrange(pos as int, bytes@.len() as int)),
            decreases bytes@.len() - pos, node,
        {
            let ghost rest = bytes@.subrange(pos as int, bytes@.len() as int);
            let n = node.bytes.len();
            if len - pos < n {
                return None;
            }
            let mut k: usize = 0;
            while k < n
                invariant
                    n == node.bytes@.len(),
                    k <= n,
                    len == bytes@.len(),
                    pos + n <= len,
                    self.lookup(bytes@) == node.lookup(rest),
                    rest == bytes@.subrange(pos as int, bytes@.len() as int),
                    forall|j: int| 0 <= j < k ==> rest[j] == node.bytes@[j],
                decreases n - k,
            {
                if bytes[pos + k] != node.bytes[k] {
                    proof {
                        assert(rest.subrange(0, n as int)[k as int] != node.bytes@[k as int]);
                    }
                    return None;
                }
                k += 1;
            }
            proof {
                assert(rest.subrange(0, n as int) =~= node.bytes@);
            }
            if len - pos == n {
                return node.value.as_ref();
            }
            match node.find_child(bytes[pos + n]) {
                None => {
                    return None;
                },
                Some(i) => {
                    proof {
                        let c = choose|c: int| leads(node.children@, c, rest[n as int]);
                        assert(leads(node.children@, c, rest[n as int]));
                        assert(leads(node.children@, i as int, rest[n as int]));
                        assert(c == i) by {
                            if c < i {
                                assert(node.children@[c].bytes@[0] < node.children@[i as int].bytes@[0]);
                            } else if i < c {
                                assert(node.children@[i as int].bytes@[0] < node.children@[c].bytes@[0]);
                            }
                        }
                        assert(rest.subrange(n as int, rest.len() as int) =~= bytes@.subrange(
                            pos + n,
                            bytes@.len() as int,
                        ));
                    }
                    node = &node.children[i];
                    pos = pos + n;
                },
            }
        }
    }
}

impl<T> Default for Node<T> {
    /// The empty trie: no label, no value, no children.
    fn default() -> (node: Self)
        ensures
            node.bytes@.len() == 0,
            node.value.is_none(),
            node.children@.len() == 0,
            node.well_formed(),
            node.thriving(),
            node.compressed(),
            forall|len: nat| #[trigger] node.fits(len),
            forall|key: Seq<u8>| (#[trigger] node.lookup(key)).is_none(),
    {
        let node = Node { bytes: Vec::new(), children: Vec::new(), value: None };
        proof {
            assert forall|key: Seq<u8>| (#[trigger] node.lookup(key)).is_none() by {
                if key.len() > 0 {
                    assert forall|i: int| !leads(node.children@, i, key[0]) by {}
                }
            }
        }
        node
    }
}

} // verus!
