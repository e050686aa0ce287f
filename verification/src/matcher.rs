//! The matcher for a fixed set of keys: the keys are collected into a forest
//! and compiled, bucket by bucket, into a decision procedure behind one
//! dispatch on the length of the query.

use crate::decision::{same_bytes, Branch, Case};
use crate::emit::consistently_cased;
use crate::forest::Forest;
use std::collections::BTreeMap;
use vstd::prelude::*;
use vstd::std_specs::btree::spec_btree_map_iter;
use vstd::std_specs::iter::IteratorSpec;

verus! {

/// A compiled matcher: for each key length the conditional that decides the
/// queries of that length.
pub struct Matcher<'a, T> {
    pub arms: BTreeMap<usize, Branch<'a, T>>,
    pub case: Case,
}

impl<'a, T> Matcher<'a, T> {
    /// What the matcher returns for `query`: the answer of the conditional for
    /// the length of `query`, and nothing where there is none.
    pub open spec fn decide(self, query: Seq<u8>) -> Option<T> {
        if query.len() <= usize::MAX && self.arms@.contains_key(query.len() as usize) {
            self.arms@[query.len() as usize].decide(query, self.case)
        } else {
            None
        }
    }

    /// Whether this matcher is what `forest` compiles to: one conditional for
    /// each bucket, and each the one that the bucket's trie compiles to.
    pub open spec fn compiled_from(self, forest: Forest<T>) -> bool {
        &&& self.arms@.dom() == forest.buckets().dom()
        &&& forall|len: usize| #[trigger]
            self.arms@.contains_key(len) ==> self.arms@[len].mirrors(forest.buckets()[len], 0)
    }

    /// Runs the matcher on `query`.
    pub fn lookup(&self, query: &[u8]) -> (r: Option<&'a T>)
        ensures
            match r {
                Some(v) => self.decide(query@) == Some(*v),
                None => self.decide(query@).is_none(),
            },
    {
        let len = query.len();
        match self.arms.get(&len) {
            Some(arm) => arm.run(query, self.case),
            None => None,
        }
    }
}

impl<T> Forest<T> {
    /// Compiles every bucket into its conditional.
    pub fn compile(&self, case: Case) -> (m: Matcher<'_, T>)
        requires
            self.well_formed(),
        ensures
            m.case == case,
            m.compiled_from(*self),
    {
        let mut arms: BTreeMap<usize, Branch<'_, T>> = BTreeMap::new();
        let ghost all = spec_btree_map_iter(&self.0).remaining();
        let ghost mut done: int = 0;
        for (len, node) in it: self.0.iter()
            invariant
                self.well_formed(),
                it.seq() == all,
                done == it.index(),
                forall|i: int| 0 <= i < done ==> arms@.contains_key(*(#[trigger] all[i]).0),
                forall|len: usize| #[trigger]
                    arms@.contains_key(len) ==> self.buckets().contains_key(len)
                        && arms@[len].mirrors(self.buckets()[len], 0),
        {
            proof {
                assert(self.buckets().contains_key(*len) && self.buckets()[*len] == *node);
                node.lemma_fits_within(*len as nat, usize::MAX as nat);
            }
            let arm = node.branch(0);
            arms.insert(*len, arm);
            proof {
                done = done + 1;
            }
        }
        proof {
            assert forall|len: usize| self.buckets().contains_key(len) implies arms@.contains_key(
                len,
            ) by {
                assert(done == all.len());
                assert(all.contains((&len, &self.buckets()[len])));
                let i = choose|i: int| 0 <= i < all.len() && all[i] == (&len, &self.buckets()[len]);
                assert(arms@.contains_key(*all[i].0));
            }
            assert(arms@.dom() =~= self.buckets().dom());
        }
        Matcher { arms, case }
    }
}

/// With bytes compared as they are, a compiled matcher returns for every
/// query what the direct lookup in the forest returns.
pub proof fn lemma_matcher_agrees_with_lookup<T>(
    forest: Forest<T>,
    matcher: Matcher<'_, T>,
    query: Seq<u8>,
)
    requires
        forest.well_formed(),
        matcher.compiled_from(forest),
        matcher.case == Case::Sensitive,
    ensures
        matcher.decide(query) == forest.lookup(query),
{
    if query.len() <= usize::MAX && forest.buckets().contains_key(query.len() as usize) {
        let len = query.len() as usize;
        assert(matcher.arms@.dom().contains(len));
        assert(matcher.arms@.contains_key(len));
        assert(query.subrange(0, query.len() as int) =~= query);
        matcher.arms@[len].lemma_decides_as_lookup(forest.buckets()[len], 0, query);
    } else if query.len() <= usize::MAX {
        assert(!matcher.arms@.dom().contains(query.len() as usize));
    }
}

/// A compiled matcher looks at no position beyond the query: under each
/// length, every test looks at a position below that length.
pub proof fn lemma_matcher_reads_within_query<T>(
    forest: Forest<T>,
    matcher: Matcher<'_, T>,
    len: usize,
)
    requires
        forest.well_formed(),
        matcher.compiled_from(forest),
        matcher.arms@.contains_key(len),
    ensures
        matcher.arms@[len].reads_below(len as nat),
{
    assert(forest.buckets().dom().contains(len));
    assert(forest.buckets().contains_key(len));
    forest.buckets()[len].lemma_fits_within(len as nat, len as nat);
    matcher.arms@[len].lemma_reads_below(forest.buckets()[len], 0, len as nat);
}

/// The answer for a query depends on the bucket for its length alone: two
/// forests that agree on that bucket agree on the query, whatever their other
/// buckets hold.
pub proof fn lemma_bucket_isolation<T>(one: Forest<T>, other: Forest<T>, query: Seq<u8>)
    requires
        query.len() <= usize::MAX,
        one.buckets().contains_key(query.len() as usize) == other.buckets().contains_key(
            query.len() as usize,
        ),
        one.buckets().contains_key(query.len() as usize) ==> one.buckets()[query.len() as usize]
            == other.buckets()[query.len() as usize],
    ensures
        one.lookup(query) == other.lookup(query),
{
}

/// A well-formed forest answers a query only from a key of the query's own
/// length: what the bucket for one length holds is never found under another.
pub proof fn lemma_no_answer_across_lengths<T>(forest: Forest<T>, len: usize, key: Seq<u8>)
    requires
        forest.well_formed(),
        forest.buckets().contains_key(len),
        forest.buckets()[len].lookup(key).is_some(),
    ensures
        key.len() == len,
        forest.lookup(key) == forest.buckets()[len].lookup(key),
{
    forest.buckets()[len].lemma_fits_lookup(len as nat, key);
}

impl<T> Forest<T> {
    /// Whether, in every bucket, siblings stay apart when ASCII letters are folded.
    pub open spec fn case_separated(self) -> bool {
        forall|len: usize| #[trigger]
            self.buckets().contains_key(len) ==> self.buckets()[len].case_separated()
    }
}

impl<T> Forest<T> {
    /// Checks that, in every bucket, siblings stay apart when ASCII letters
    /// are folded.
    pub fn is_case_separated(&self) -> (r: bool)
        requires
            self.well_formed(),
        ensures
            r == self.case_separated(),
    {
        let ghost all = spec_btree_map_iter(&self.0).remaining();
        let ghost mut done: int = 0;
        for (len, node) in it: self.0.iter()
            invariant
                self.well_formed(),
                it.seq() == all,
                done == it.index(),
                forall|i: int| 0 <= i < done ==> (#[trigger] all[i]).1.case_separated(),
        {
            proof {
                assert(self.buckets().contains_key(*len) && self.buckets()[*len] == *node);
            }
            if !node.is_case_separated() {
                return false;
            }
            proof {
                done = done + 1;
            }
        }
        proof {
            assert forall|len: usize| #[trigger]
                self.buckets().contains_key(len) implies self.buckets()[len].case_separated() by {
                assert(all.contains((&len, &self.buckets()[len])));
                let i = choose|i: int| 0 <= i < all.len() && all[i] == (&len, &self.buckets()[len]);
                assert(all[i].1.case_separated());
            }
        }
        true
    }
}

/// With ASCII letters folded, a matcher compiled from a case-separated forest
/// returns the value of a stored key for every query that differs from the
/// key in letter case only.
pub proof fn lemma_matcher_ignores_case<T>(
    forest: Forest<T>,
    matcher: Matcher<'_, T>,
    query: Seq<u8>,
    key: Seq<u8>,
)
    requires
        forest.well_formed(),
        forest.case_separated(),
        matcher.compiled_from(forest),
        matcher.case == Case::Insensitive,
        same_bytes(query, key, Case::Insensitive),
        forest.lookup(key).is_some(),
    ensures
        matcher.decide(query) == forest.lookup(key),
{
    let len = key.len() as usize;
    assert(matcher.arms@.dom().contains(len));
    assert(matcher.arms@.contains_key(len));
    assert(key.subrange(0, key.len() as int) =~= key);
    matcher.arms@[len].lemma_decides_ignoring_case(forest.buckets()[len], 0, query, key);
}

/// Whatever the case, a compiled matcher returns nothing of its own: every
/// value that it returns for a query is stored in the forest, under a key
/// that counts as equal to the query. That key is returned.
pub proof fn lemma_matcher_answers_from_keys<T>(
    forest: Forest<T>,
    matcher: Matcher<'_, T>,
    query: Seq<u8>,
) -> (key: Seq<u8>)
    requires
        forest.well_formed(),
        matcher.compiled_from(forest),
        matcher.decide(query).is_some(),
    ensures
        same_bytes(query, key, matcher.case),
        forest.lookup(key) == matcher.decide(query),
{
    let len = query.len() as usize;
    assert(matcher.arms@.contains_key(len));
    assert(forest.buckets().dom().contains(len));
    assert(forest.buckets().contains_key(len));
    assert(query.subrange(0, query.len() as int) =~= query);
    matcher.arms@[len].lemma_decides_a_stored_key(forest.buckets()[len], 0, query, matcher.case)
}

/// A forest whose keys use letter case in one way keeps, in every bucket,
/// its siblings apart when letters are folded.
pub proof fn lemma_forest_case_separated<T>(forest: Forest<T>)
    requires
        forest.well_formed(),
        consistently_cased(forest@.dom()),
    ensures
        forest.case_separated(),
{
    assert forall|len: usize| #[trigger]
        forest.buckets().contains_key(len) implies forest.buckets()[len].case_separated() by {
        let root = forest.buckets()[len];
        assert forall|below: Seq<u8>| (#[trigger] root.lookup(below)).is_some() implies forest@.dom().contains(
        Seq::<u8>::empty() + below) by {
            lemma_no_answer_across_lengths(forest, len, below);
            assert(Seq::<u8>::empty() + below =~= below);
            assert(forest@.contains_key(below));
        }
        root.lemma_case_separated(forest@.dom(), Seq::empty(), len as nat);
    }
}

/// With ASCII letters folded, a compiled matcher finds every key by every
/// spelling of it: where the keys of the forest use letter case in one way, a
/// query that differs from a key in letter case only is answered with the
/// key's value.
pub proof fn lemma_matcher_finds_any_spelling<T>(
    forest: Forest<T>,
    matcher: Matcher<'_, T>,
    query: Seq<u8>,
    key: Seq<u8>,
)
    requires
        forest.well_formed(),
        consistently_cased(forest@.dom()),
        matcher.compiled_from(forest),
        matcher.case == Case::Insensitive,
        same_bytes(query, key, Case::Insensitive),
        forest@.contains_key(key),
    ensures
        matcher.decide(query) == Some(forest@[key]),
{
    lemma_forest_case_separated(forest);
    lemma_matcher_ignores_case(forest, matcher, query, key);
}

} // verus!
