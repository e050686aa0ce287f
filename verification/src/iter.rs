//! How the variants of an enum are best iterated over: as a range of
//! discriminants where the variants form one, and as a list otherwise.

use crate::attr::{
    c_like, discriminant_at, repr_after, DeriveInput, Discriminant, Enum, Primitive, Problem,
    Variant, VariantAttrs,
};
use vstd::prelude::*;

verus! {

/// The way to iterate over the variants of an enum.
#[derive(Debug, PartialEq, Eq)]
pub enum IterImpl {
    /// There is nothing to iterate over.
    Empty,
    /// The discriminants from `start` up to, and without, `end`, as values of `repr`.
    Range { repr: String, start: Discriminant, end: Discriminant },
    /// The discriminants from `start` up to, and with, `end`, as values of `repr`.
    RangeInclusive { repr: String, start: Discriminant, end: Discriminant },
    /// The variants with these names, in this order.
    Slice(Vec<String>),
}

/// Whether the discriminants form a single run that goes up by one at each step.
pub open spec fn contiguous(run: Seq<Discriminant>) -> bool {
    run.len() > 0 && forall|i: int| 0 <= i < run.len() ==> #[trigger] run[i] == run[0] + i
}

/// Returns the first and the last of the discriminants if they form a single
/// run that goes up by one at each step, and nothing if there are none or
/// they do not.
pub fn detect_contiguous_run(discriminants: &Vec<Discriminant>) -> (r: Option<
    (Discriminant, Discriminant),
>)
    ensures
        match r {
            Some((first, last)) => contiguous(discriminants@) && first == discriminants@[0]
                && last == discriminants@.last(),
            None => !contiguous(discriminants@),
        },
{
    if discriminants.len() == 0 {
        return None;
    }
    let first = discriminants[0];
    let mut last = first;
    let mut i: usize = 1;
    while i < discriminants.len()
        invariant
            1 <= i <= discriminants@.len(),
            first == discriminants@[0],
            last == discriminants@[i - 1],
            forall|k: int| 0 <= k < i ==> #[trigger] discriminants@[k] == first + k,
        decreases discriminants@.len() - i,
    {
        let next = discriminants[i];
        match last.checked_add(1) {
            Some(expected) => {
                if expected != next {
                    return None;
                }
            },
            None => {
                return None;
            },
        }
        last = next;
        i += 1;
    }
    Some((first, last))
}

/// The discriminants of the variants that are not skipped, among the first
/// `n` variants that have a discriminant.
pub open spec fn unskipped_discriminants(
    discriminants: Seq<Discriminant>,
    variants: Seq<(&Variant, VariantAttrs)>,
    n: nat,
) -> Seq<Discriminant>
    decreases n,
{
    if n == 0 {
        Seq::empty()
    } else if variants[n - 1].1.skip {
        unskipped_discriminants(discriminants, variants, (n - 1) as nat)
    } else {
        unskipped_discriminants(discriminants, variants, (n - 1) as nat).push(discriminants[n - 1])
    }
}

/// The names of the variants that are not skipped, among the first `n`.
pub open spec fn unskipped_names(variants: Seq<(&Variant, VariantAttrs)>, n: nat) -> Seq<
    Seq<char>,
>
    decreases n,
{
    if n == 0 {
        Seq::empty()
    } else if variants[n - 1].1.skip || !variants[n - 1].0.unit {
        unskipped_names(variants, (n - 1) as nat)
    } else {
        unskipped_names(variants, (n - 1) as nat).push(variants[n - 1].0.ident@)
    }
}

/// How many of the first `n` variants are not skipped and yet have fields.
pub open spec fn unskipped_with_fields(variants: Seq<(&Variant, VariantAttrs)>, n: nat) -> nat
    decreases n,
{
    if n == 0 {
        0
    } else if !variants[n - 1].1.skip && !variants[n - 1].0.unit {
        unskipped_with_fields(variants, (n - 1) as nat) + 1
    } else {
        unskipped_with_fields(variants, (n - 1) as nat)
    }
}

/// The texts of `names`.
pub open spec fn texts(names: Seq<String>) -> Seq<Seq<char>> {
    Seq::new(names.len(), |i: int| names[i]@)
}

impl<'a> Enum<'a> {
    /// The discriminants of the variants that are not skipped, where the
    /// discriminants are known; variants and discriminants are paired off as
    /// far as both go.
    pub open spec fn run(self) -> Seq<Discriminant> {
        match self.discriminants {
            Some(ds) => unskipped_discriminants(
                ds@,
                self.variants@,
                if ds@.len() <= self.variants@.len() {
                    ds@.len()
                } else {
                    self.variants@.len()
                },
            ),
            None => Seq::empty(),
        }
    }

    /// Whether the end of a range over the discriminants can be written down:
    /// only with `u128` can the last discriminant be the largest `i128` and a
    /// range that ends one after it be asked for.
    pub open spec fn range_fits(self) -> bool {
        self.primitive_repr matches Ok(Some((Primitive::U128, _))) && self.run().len() > 0
            ==> self.run().last() < i128::MAX
    }
}

impl IterImpl {
    /// Whether `r` is the way to iterate over `e`, or the problems that stand
    /// against one.
    ///
    /// Where the discriminants are known and a primitive type is named: with
    /// no variant left unskipped there is nothing to iterate over; with more
    /// than one variant, whose unskipped discriminants form a single run, the
    /// result is the range over that run, written without its end where the
    /// end is below the largest value of the type, and with it otherwise.
    ///
    /// In every other case the result is the list of the unskipped variants,
    /// none of which may have fields; each that has is reported.
    pub open spec fn chosen_for(e: Enum, r: Result<IterImpl, Vec<Problem>>) -> bool {
        match (e.discriminants, e.primitive_repr) {
            (Some(ds), Ok(Some((prim, name)))) => {
                let end = e.run().last();
                if e.run().len() == 0 {
                    r == Ok::<IterImpl, Vec<Problem>>(IterImpl::Empty)
                } else if ds@.len() > 1 && contiguous(e.run()) {
                    if end < 0 || (prim.spec_max_value() matches Some(max) && end < max) {
                        r == Ok::<IterImpl, Vec<Problem>>(
                            IterImpl::Range {
                                repr: name,
                                start: e.run()[0],
                                end: (end + 1) as i128,
                            },
                        )
                    } else {
                        r == Ok::<IterImpl, Vec<Problem>>(
                            IterImpl::RangeInclusive { repr: name, start: e.run()[0], end },
                        )
                    }
                } else {
                    IterImpl::listed_for(e, r)
                }
            },
            _ => IterImpl::listed_for(e, r),
        }
    }

    /// Whether `r` is the list of the variants of `e` that are not skipped,
    /// or nothing to iterate over where there is none, or one problem for
    /// each variant that is not skipped and has fields.
    pub open spec fn listed_for(e: Enum, r: Result<IterImpl, Vec<Problem>>) -> bool {
        let with_fields = unskipped_with_fields(e.variants@, e.variants@.len());
        let names = unskipped_names(e.variants@, e.variants@.len());
        match r {
            Err(errors) => with_fields > 0 && errors@.len() == with_fields && forall|i: int|
                0 <= i < errors@.len() ==> #[trigger] errors@[i] == Problem::UnskippedFields,
            Ok(IterImpl::Empty) => with_fields == 0 && names.len() == 0,
            Ok(IterImpl::Slice(listed)) => with_fields == 0 && names.len() > 0 && texts(listed@)
                == names,
            Ok(_) => false,
        }
    }

    /// Chooses the way to iterate over `e`.
    pub fn for_enum(e: &Enum) -> (r: Result<Self, Vec<Problem>>)
        requires
            e.range_fits(),
        ensures
            IterImpl::chosen_for(*e, r),
    {
        if let Some(discriminants) = &e.discriminants {
            let is_zst = discriminants.len() <= 1;
            if let Ok(Some((repr, repr_path))) = &e.primitive_repr {
                let n = if discriminants.len() <= e.variants.len() {
                    discriminants.len()
                } else {
                    e.variants.len()
                };
                let mut unskipped: Vec<Discriminant> = Vec::new();
                let mut i: usize = 0;
                while i < n
                    invariant
                        i <= n,
                        n <= discriminants@.len(),
                        n <= e.variants@.len(),
                        unskipped@ == unskipped_discriminants(
                            discriminants@,
                            e.variants@,
                            i as nat,
                        ),
                    decreases n - i,
                {
                    if !e.variants[i].1.skip {
                        unskipped.push(discriminants[i]);
                    }
                    i += 1;
                }
                assert(unskipped@ == e.run());
                if unskipped.is_empty() {
                    return Ok(IterImpl::Empty);
                }
                if !is_zst {
                    if let Some((start, end)) = detect_contiguous_run(&unskipped) {
                        let below = end < 0 || match repr.max_value() {
                            Some(max) => (end as u128) < max,
                            None => false,
                        };
                        if below {
                            return Ok(
                                IterImpl::Range { repr: repr_path.clone(), start, end: end + 1 },
                            );
                        }
                        return Ok(
                            IterImpl::RangeInclusive { repr: repr_path.clone(), start, end },
                        );
                    }
                }
            }
        }
        let mut errors: Vec<Problem> = Vec::new();
        let mut names: Vec<String> = Vec::new();
        let mut i: usize = 0;
        while i < e.variants.len()
            invariant
                i <= e.variants@.len(),
                errors@.len() == unskipped_with_fields(e.variants@, i as nat),
                forall|k: int|
                    0 <= k < errors@.len() ==> #[trigger] errors@[k] == Problem::UnskippedFields,
                texts(names@) == unskipped_names(e.variants@, i as nat),
            decreases e.variants@.len() - i,
        {
            let ghost before = names@;
            let (v, attr) = &e.variants[i];
            i += 1;
            if attr.skip {
                continue ;
            }
            if !v.unit {
                errors.push(Problem::UnskippedFields);
                continue ;
            }
            names.push(v.ident.clone());
            proof {
                assert(texts(names@) =~= texts(before).push(v.ident@));
            }
        }
        if !errors.is_empty() {
            return Err(errors);
        }
        if names.is_empty() {
            return Ok(IterImpl::Empty);
        }
        Ok(IterImpl::Slice(names))
    }
}

impl DeriveInput {
    /// The discriminants of the first `n` variants that are not skipped.
    pub open spec fn unskipped(self, n: nat) -> Seq<int>
        decreases n,
    {
        if n == 0 {
            Seq::empty()
        } else if self.said_of(n - 1).skip {
            self.unskipped((n - 1) as nat)
        } else {
            self.unskipped((n - 1) as nat).push(discriminant_at(self.variants(), n - 1))
        }
    }

    /// Whether the end of a range over the discriminants can be written down:
    /// where `u128` is the primitive type and all discriminants are known,
    /// the last one that is not skipped is below the largest `i128`.
    pub open spec fn range_fits(self) -> bool {
        repr_after(self.attrs@, self.attrs@.len()) matches Ok(Some((Primitive::U128, _)))
            && c_like(self.variants(), self.variants().len() as int) && self.unskipped(
            self.variants().len(),
        ).len() > 0 ==> self.unskipped(self.variants().len()).last() < i128::MAX
    }

    /// The unskipped discriminants of an enum are those of its declaration.
    pub proof fn lemma_unskipped(self, e: Enum, ds: Vec<Discriminant>, n: nat)
        requires
            e.reads(self),
            e.discriminants == Some(ds),
            n <= self.variants().len(),
        ensures
            unskipped_discriminants(ds@, e.variants@, n).len() == self.unskipped(n).len(),
            forall|i: int|
                0 <= i < self.unskipped(n).len() ==> #[trigger] unskipped_discriminants(
                    ds@,
                    e.variants@,
                    n,
                )[i] == self.unskipped(n)[i],
        decreases n,
    {
        if n > 0 {
            self.lemma_unskipped(e, ds, (n - 1) as nat);
            assert(e.variants@[n - 1].1.said() == self.said_of(n - 1));
            assert(ds@[n - 1] == discriminant_at(self.variants(), n - 1));
        }
    }
}

/// Reads a declaration and chooses the way to iterate over its variants.
/// Every problem of the declaration is reported; in a declaration without
/// problems the choice is made as for the enum that it declares.
pub fn derive(input: &DeriveInput) -> (r: Result<IterImpl, Vec<Problem>>)
    requires
        input.discriminants_fit(),
        input.range_fits(),
    ensures
        if !(input.data is Enum) {
            r matches Err(errors) && errors@ == seq![Problem::NotAnEnum]
        } else if input.problems().len() > 0 {
            r matches Err(errors) && errors@ == input.problems()
        } else {
            exists|e: Enum| e.reads(*input) && IterImpl::chosen_for(e, r)
        },
{
    let e = match Enum::parse(input) {
        Ok(e) => e,
        Err(errors) => {
            return Err(errors);
        },
    };
    proof {
        if e.discriminants.is_some() {
            let ds = e.discriminants.unwrap();
            input.lemma_unskipped(e, ds, input.variants().len());
            assert(e.run() =~= unskipped_discriminants(ds@, e.variants@, input.variants().len()));
        }
    }
    IterImpl::for_enum(&e)
}

} // verus!
