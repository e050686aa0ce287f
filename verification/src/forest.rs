//! A set of tries, one for each key length. A query is routed by its length
//! before any byte is compared, so that no trie needs to keep track of lengths.

use crate::trie::Node;
use std::collections::BTreeMap;
use vstd::prelude::*;
use vstd::std_specs::btree::spec_btree_map_iter;
use vstd::std_specs::iter::IteratorSpec;

verus! {

/// Tries by key length: the trie under `len` stores keys of `len` bytes only.
pub struct Forest<T>(pub BTreeMap<usize, Node<T>>);

impl<T> Forest<T> {
    /// The buckets as a mathematical map from key length to trie.
    pub open spec fn buckets(self) -> Map<usize, Node<T>> {
        self.0@
    }

    /// What is asked of the bucket for keys of `len` bytes: it is a
    /// well-formed trie, it holds keys of that length only, it stores a key
    /// in each of its branches, its root has no label, and the labels below
    /// the root are as long as they can be.
    pub open spec fn sound(root: Node<T>, len: usize) -> bool {
        &&& root.well_formed()
        &&& root.fits(len as nat)
        &&& root.bears()
        &&& root.thriving()
        &&& root.bytes@.len() == 0
        &&& root.compressed()
    }

    /// Every bucket is sound for its length.
    pub open spec fn well_formed(self) -> bool {
        forall|len: usize| #[trigger]
            self.buckets().contains_key(len) ==> Forest::sound(self.buckets()[len], len)
    }

    /// The value stored for `key`, if any: the answer of the bucket for the
    /// length of `key`, and nothing where there is no such bucket.
    pub open spec fn lookup(self, key: Seq<u8>) -> Option<T> {
        if key.len() <= usize::MAX && self.buckets().contains_key(key.len() as usize) {
            self.buckets()[key.len() as usize].lookup(key)
        } else {
            None
        }
    }
}

impl<T> View for Forest<T> {
    type V = Map<Seq<u8>, T>;

    /// The forest as a map from keys to values.
    open spec fn view(&self) -> Map<Seq<u8>, T> {
        Map::new(|key: Seq<u8>| self.lookup(key).is_some(), |key: Seq<u8>| self.lookup(key).unwrap())
    }
}

impl<T> Default for Forest<T> {
    /// The forest without keys.
    fn default() -> (forest: Self)
        ensures
            forest.well_formed(),
            forest.buckets() == Map::<usize, Node<T>>::empty(),
            forest@ == Map::<Seq<u8>, T>::empty(),
    {
        let forest = Forest(BTreeMap::new());
        proof {
            assert(forest@ =~= Map::<Seq<u8>, T>::empty());
        }
        forest
    }
}

impl<T> Forest<T> {
    /// Checks that every bucket is sound for its length.
    pub fn is_well_formed(&self) -> (r: bool)
        ensures
            r == self.well_formed(),
    {
        let ghost all = spec_btree_map_iter(&self.0).remaining();
        let ghost mut done: int = 0;
        for (len, node) in it: self.0.iter()
            invariant
                it.seq() == all,
                done == it.index(),
                forall|i: int| 0 <= i < done ==> Forest::sound(*(#[trigger] all[i]).1, *all[i].0),
        {
            proof {
                assert(self.buckets().contains_key(*len) && self.buckets()[*len] == *node);
            }
            if !node.is_well_formed() || !node.holds_length(*len) {
                return false;
            }
            if !node.has_key() || !node.is_thriving() {
                return false;
            }
            if node.bytes.len() != 0 || !node.is_compressed() {
                return false;
            }
            proof {
                done = done + 1;
            }
        }
        proof {
            assert forall|len: usize| #[trigger]
                self.buckets().contains_key(len) implies Forest::sound(
                self.buckets()[len],
                len,
            ) by {
                assert(all.contains((&len, &self.buckets()[len])));
                let i = choose|i: int| 0 <= i < all.len() && all[i] == (&len, &self.buckets()[len]);
                assert(Forest::sound(*all[i].1, *all[i].0));
            }
        }
        true
    }

    /// Looks `bytes` up in the bucket for its length.
    pub fn get(&self, bytes: &[u8]) -> (r: Option<&T>)
        requires
            self.well_formed(),
        ensures
            match r {
                Some(v) => self.lookup(bytes@) == Some(*v),
                None => self.lookup(bytes@).is_none(),
            },
            match r {
                Some(v) => self@.contains_key(bytes@) && self@[bytes@] == *v,
                None => !self@.contains_key(bytes@),
            },
    {
        let len = bytes.len();
        match self.0.get(&len) {
            Some(node) => node.get(bytes),
            None => None,
        }
    }

    /// Stores `value` under `bytes` in the bucket for its length, which is made
    /// if it is not there yet. Returns the value that `bytes` had before, if any.
    pub fn insert(&mut self, bytes: &[u8], value: T) -> (prev: Option<T>)
        requires
            old(self).well_formed(),
        ensures
            final(self).well_formed(),
            prev == old(self).lookup(bytes@),
            forall|key: Seq<u8>| #[trigger]
                final(self).lookup(key) == (if key == bytes@ {
                    Some(value)
                } else {
                    old(self).lookup(key)
                }),
            final(self)@ == old(self)@.insert(bytes@, value),
            final(self).buckets().dom() == old(self).buckets().dom().insert(bytes@.len() as usize),
            forall|len: usize|
                len != bytes@.len() && old(self).buckets().contains_key(len)
                    ==> #[trigger] final(self).buckets()[len] == old(self).buckets()[len],
    {
        let len = bytes.len();
        let mut node = match self.0.remove(&len) {
            Some(node) => node,
            None => Node::default(),
        };
        let ghost before = node;
        let prev = node.insert(bytes, value);
        proof {
            assert(node.lookup(bytes@).is_some());
        }
        self.0.insert(len, node);
        proof {
            assert(final(self).buckets().dom() =~= old(self).buckets().dom().insert(len));
            assert forall|key: Seq<u8>| #[trigger]
                self.lookup(key) == (if key == bytes@ {
                    Some(value)
                } else {
                    old(self).lookup(key)
                }) by {
                if key.len() == len {
                    assert(node.lookup(key) == (if key == bytes@ {
                        Some(value)
                    } else {
                        before.lookup(key)
                    }));
                }
            }
            assert(self@ =~= old(self)@.insert(bytes@, value));
        }
        prev
    }
}

} // verus!
