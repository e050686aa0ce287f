//! The builder of a lookup function for a fixed set of strings: it collects
//! keys and values, and compiles them into a matcher.

use crate::decision::Case;
use crate::forest::Forest;
use crate::matcher::Matcher;
use vstd::prelude::*;
use vstd::string::StringSliceAdditionalSpecFns;

verus! {

/// A lookup function under construction: its name, the type it returns, how
/// it compares bytes, and the keys with their values.
pub struct StrMapFunc<T> {
    pub atoms: Forest<T>,
    pub func_name: String,
    pub ret_ty: String,
    pub case: Case,
}

/// The map that results from `start` when the pairs of `entries` are stored
/// one after another: a later pair replaces an earlier one with the same key.
pub open spec fn stored<T>(start: Map<Seq<u8>, T>, entries: Seq<(Seq<u8>, T)>) -> Map<Seq<u8>, T>
    decreases entries.len(),
{
    if entries.len() == 0 {
        start
    } else {
        stored(start, entries.drop_last()).insert(entries.last().0, entries.last().1)
    }
}

/// String keys with their values as byte keys with their values.
pub open spec fn keyed<T>(entries: Seq<(&str, T)>) -> Seq<(Seq<u8>, T)> {
    Seq::new(entries.len(), |i: int| (entries[i].0.spec_bytes(), entries[i].1))
}

impl<T> StrMapFunc<T> {
    /// Whether the collected keys form a well-formed forest.
    pub open spec fn well_formed(self) -> bool {
        self.atoms.well_formed()
    }

    /// A lookup function without keys that compares bytes as they are.
    pub fn new(func_name: &str, ret_ty: &str) -> (f: Self)
        ensures
            f.well_formed(),
            f.atoms@ == Map::<Seq<u8>, T>::empty(),
            f.func_name@ == func_name@,
            f.ret_ty@ == ret_ty@,
            f.case == Case::Sensitive,
    {
        StrMapFunc {
            atoms: Forest::default(),
            func_name: func_name.to_owned(),
            ret_ty: ret_ty.to_owned(),
            case: Case::Sensitive,
        }
    }

    /// Sets how bytes are compared.
    pub fn case(&mut self, case: Case) -> (r: &mut Self)
        ensures
            r.case == case,
            r.atoms == old(self).atoms,
            r.func_name == old(self).func_name,
            r.ret_ty == old(self).ret_ty,
            *final(self) == *final(r),
    {
        self.case = case;
        self
    }

    /// Stores `v` under the bytes of `k`, in place of what was stored there.
    pub fn entry(&mut self, k: &str, v: T) -> (r: &mut Self)
        requires
            old(self).well_formed(),
        ensures
            r.well_formed(),
            r.atoms@ == old(self).atoms@.insert(k.spec_bytes(), v),
            r.case == old(self).case,
            r.func_name == old(self).func_name,
            r.ret_ty == old(self).ret_ty,
            *final(self) == *final(r),
    {
        self.atoms.insert(k.as_bytes(), v);
        self
    }

    /// Stores every pair of `entries`, in order.
    pub fn entries(&mut self, entries: Vec<(&str, T)>) -> (r: &mut Self)
        requires
            old(self).well_formed(),
        ensures
            r.well_formed(),
            r.atoms@ == stored(old(self).atoms@, keyed(entries@)),
            r.case == old(self).case,
            r.func_name == old(self).func_name,
            r.ret_ty == old(self).ret_ty,
            *final(self) == *final(r),
    {
        let ghost all = entries@;
        let ghost mut done: int = 0;
        for pair in it: entries
            invariant
                it.seq() == all,
                done == it.index(),
                0 <= done <= all.len(),
                self.well_formed(),
                self.atoms@ == stored(old(self).atoms@, keyed(all.take(done))),
                self.case == old(self).case,
                self.func_name == old(self).func_name,
                self.ret_ty == old(self).ret_ty,
        {
            let (k, v) = pair;
            self.atoms.insert(k.as_bytes(), v);
            proof {
                let before = keyed(all.take(done));
                let after = keyed(all.take(done + 1));
                assert(after.drop_last() =~= before);
                assert(after.last() == (k.spec_bytes(), v));
                done = done + 1;
            }
        }
        proof {
            assert(all.take(done) =~= all);
        }
        self
    }

    /// Compiles the collected keys into a matcher.
    pub fn compile(&self) -> (m: Matcher<'_, T>)
        requires
            self.well_formed(),
        ensures
            m.case == self.case,
            m.compiled_from(self.atoms),
    {
        self.atoms.compile(self.case)
    }
}

/// Last write wins: after the pairs of `entries` are stored, a key holds
/// the value of the last pair that names it.
pub proof fn lemma_stored_last_wins<T>(
    start: Map<Seq<u8>, T>,
    entries: Seq<(Seq<u8>, T)>,
    i: int,
)
    requires
        0 <= i < entries.len(),
        forall|j: int| i < j < entries.len() ==> entries[j].0 != entries[i].0,
    ensures
        stored(start, entries).contains_key(entries[i].0),
        stored(start, entries)[entries[i].0] == entries[i].1,
    decreases entries.len(),
{
    if i < entries.len() - 1 {
        let front = entries.drop_last();
        assert(front[i] == entries[i]);
        assert forall|j: int| i < j < front.len() implies front[j].0 != front[i].0 by {
            assert(front[j] == entries[j]);
        }
        lemma_stored_last_wins(start, front, i);
        assert(entries.last().0 != entries[i].0);
    }
}

/// A key that no pair of `entries` names is left as it was: absent where it
/// was absent, and with its value where it had one.
pub proof fn lemma_stored_other_keys<T>(
    start: Map<Seq<u8>, T>,
    entries: Seq<(Seq<u8>, T)>,
    key: Seq<u8>,
)
    requires
        forall|j: int| 0 <= j < entries.len() ==> entries[j].0 != key,
    ensures
        stored(start, entries).contains_key(key) == start.contains_key(key),
        start.contains_key(key) ==> stored(start, entries)[key] == start[key],
    decreases entries.len(),
{
    if entries.len() > 0 {
        let front = entries.drop_last();
        assert forall|j: int| 0 <= j < front.len() implies front[j].0 != key by {
            assert(front[j] == entries[j]);
        }
        lemma_stored_other_keys(start, front, key);
        assert(entries.last().0 != key);
    }
}

/// The order of storing does not matter for keys that are named once: a
/// sequence of pairs with pairwise different keys and any rearrangement of
/// it give the same map.
pub proof fn lemma_stored_any_order<T>(
    start: Map<Seq<u8>, T>,
    one: Seq<(Seq<u8>, T)>,
    other: Seq<(Seq<u8>, T)>,
)
    requires
        forall|i: int, j: int| 0 <= i < j < one.len() ==> one[i].0 != one[j].0,
        one.to_multiset() == other.to_multiset(),
    ensures
        stored(start, one) == stored(start, other),
{
    one.to_multiset_ensures();
    other.to_multiset_ensures();
    let a = stored(start, one);
    let b = stored(start, other);
    assert forall|key: Seq<u8>|
        (#[trigger] a.dom().contains(key)) == b.dom().contains(key) && (a.dom().contains(key)
            ==> a[key] == b[key]) by {
        if exists|j: int| 0 <= j < other.len() && other[j].0 == key {
            let j = last_naming(other, key);
            lemma_last_naming(other, key);
            lemma_stored_last_wins(start, other, j);
            assert(other.contains(other[j]));
            assert(other.to_multiset().count(other[j]) > 0);
            assert(one.contains(other[j]));
            let i = choose|i: int| 0 <= i < one.len() && one[i] == other[j];
            lemma_stored_last_wins(start, one, i);
        } else {
            assert forall|i: int| 0 <= i < one.len() implies one[i].0 != key by {
                assert(one.contains(one[i]));
                assert(other.to_multiset().count(one[i]) > 0);
                assert(other.contains(one[i]));
                let j = choose|j: int| 0 <= j < other.len() && other[j] == one[i];
                assert(other[j].0 != key);
            }
            lemma_stored_other_keys(start, one, key);
            lemma_stored_other_keys(start, other, key);
        }
    }
    assert(a =~= b);
}

/// The position of the last pair of `entries` that names `key`, or -1.
pub open spec fn last_naming<T>(entries: Seq<(Seq<u8>, T)>, key: Seq<u8>) -> int
    decreases entries.len(),
{
    if entries.len() == 0 {
        -1
    } else if entries.last().0 == key {
        entries.len() - 1
    } else {
        last_naming(entries.drop_last(), key)
    }
}

/// Where some pair names `key`, `last_naming` is the position of the last such pair.
pub proof fn lemma_last_naming<T>(entries: Seq<(Seq<u8>, T)>, key: Seq<u8>)
    requires
        exists|j: int| 0 <= j < entries.len() && entries[j].0 == key,
    ensures
        0 <= last_naming(entries, key) < entries.len(),
        entries[last_naming(entries, key)].0 == key,
        forall|j: int| last_naming(entries, key) < j < entries.len() ==> entries[j].0 != key,
    decreases entries.len(),
{
    if entries.last().0 != key {
        let front = entries.drop_last();
        let j = choose|j: int| 0 <= j < entries.len() && entries[j].0 == key;
        assert(front[j].0 == key);
        lemma_last_naming(front, key);
        assert forall|j: int| last_naming(entries, key) < j < entries.len() implies entries[j].0
            != key by {
            if j < front.len() {
                assert(front[j] == entries[j]);
            }
        }
    }
}

} // verus!
