//! Conversions between an enum and the primitive type named in its
//! `#[repr(...)]`: what has to hold of the declaration, and the names that
//! the conversions are written with.

use crate::attr::{repr_after, DeriveInput, Enum, Problem, Variant};
use vstd::prelude::*;
use vstd::string::StringExecFns;

verus! {

/// What the conversion from the primitive type to the enum is written with:
/// the enum's name, the primitive type, and for each variant its name and
/// the name of the constant that holds its discriminant.
#[derive(Debug, PartialEq, Eq)]
pub struct TryFromRepr {
    pub name: String,
    pub repr: String,
    pub variants: Vec<String>,
    pub consts: Vec<String>,
}

/// What the conversion from the enum to the primitive type is written with:
/// the enum's name and the primitive type.
#[derive(Debug, PartialEq, Eq)]
pub struct ReprFrom {
    pub name: String,
    pub repr: String,
}

/// How many of the first `n` variants have fields.
pub open spec fn with_fields(variants: Seq<Variant>, n: nat) -> nat
    decreases n,
{
    if n == 0 {
        0
    } else if !variants[n - 1].unit {
        with_fields(variants, (n - 1) as nat) + 1
    } else {
        with_fields(variants, (n - 1) as nat)
    }
}

/// The problems that stand against a conversion, for a declaration of an
/// enum whose attributes have none: a problem with `#[repr(...)]`, or none
/// that names a primitive type, or else one problem for each variant with
/// fields.
pub open spec fn conversion_problems(input: DeriveInput) -> Seq<Problem> {
    match repr_after(input.attrs@, input.attrs@.len()) {
        Err(e) => seq![e],
        Ok(None) => seq![Problem::MissingRepr],
        Ok(Some(_)) => Seq::new(
            with_fields(input.variants(), input.variants().len()),
            |i: int| Problem::Fields,
        ),
    }
}

/// The name of the constant that holds the discriminant of a variant.
pub open spec fn const_name(variant: Seq<char>) -> Seq<char> {
    "DISCRIMINANT_"@ + variant
}

/// Checks that `e` names a primitive type and that none of its variants has
/// fields, and returns the name of the type.
fn checked_repr(e: Enum, Ghost(input): Ghost<DeriveInput>) -> (r: Result<String, Vec<Problem>>)
    requires
        e.reads(input),
    ensures
        match r {
            Ok(name) => {
                &&& conversion_problems(input).len() == 0
                &&& repr_after(input.attrs@, input.attrs@.len()) matches Ok(Some((_, repr)))
                    && repr == name
            },
            Err(errors) => errors@.len() > 0 && errors@ == conversion_problems(input),
        },
{
    let mut errors: Vec<Problem> = Vec::new();
    let repr = match e.primitive_repr {
        Ok(Some((_, repr))) => repr,
        Ok(None) => {
            errors.push(Problem::MissingRepr);
            assert(errors@ =~= conversion_problems(input));
            return Err(errors);
        },
        Err(problem) => {
            errors.push(problem);
            assert(errors@ =~= conversion_problems(input));
            return Err(errors);
        },
    };
    let mut i: usize = 0;
    while i < e.variants.len()
        invariant
            i <= e.variants@.len(),
            e.variants@.len() == input.variants().len(),
            forall|k: int|
                0 <= k < e.variants@.len() ==> *(#[trigger] e.variants@[k]).0
                    == input.variants()[k],
            errors@.len() == with_fields(input.variants(), i as nat),
            forall|k: int| 0 <= k < errors@.len() ==> #[trigger] errors@[k] == Problem::Fields,
        decreases e.variants@.len() - i,
    {
        if !e.variants[i].0.unit {
            errors.push(Problem::Fields);
        }
        i += 1;
    }
    proof {
        assert(errors@ =~= conversion_problems(input));
    }
    if !errors.is_empty() {
        return Err(errors);
    }
    Ok(repr)
}

/// Whether `r` is what a conversion for `input` is written with, or the
/// problems that stand against it: anything but an enum, the problems in the
/// attributes, or else the problems with the primitive type and with variants
/// that have fields.
pub open spec fn conversion_for(input: DeriveInput, r: Result<String, Vec<Problem>>) -> bool {
    match r {
        Ok(name) => {
            &&& input.data is Enum
            &&& input.problems().len() == 0
            &&& conversion_problems(input).len() == 0
            &&& repr_after(input.attrs@, input.attrs@.len()) matches Ok(Some((_, repr))) && repr
                == name
        },
        Err(errors) => if !(input.data is Enum) {
            errors@ == seq![Problem::NotAnEnum]
        } else if input.problems().len() > 0 {
            errors@ == input.problems()
        } else {
            errors@.len() > 0 && errors@ == conversion_problems(input)
        },
    }
}

/// Reads a declaration for the conversion from the enum to its primitive type.
pub fn derive_repr_from(input: &DeriveInput) -> (r: Result<ReprFrom, Vec<Problem>>)
    requires
        input.discriminants_fit(),
    ensures
        match r {
            Ok(f) => f.name == input.ident && conversion_for(
                *input,
                Ok::<String, Vec<Problem>>(f.repr),
            ),
            Err(errors) => conversion_for(*input, Err::<String, Vec<Problem>>(errors)),
        },
{
    let e = match Enum::parse(input) {
        Ok(e) => e,
        Err(errors) => {
            return Err(errors);
        },
    };
    let name = e.name.clone();
    match checked_repr(e, Ghost(*input)) {
        Ok(repr) => Ok(ReprFrom { name, repr }),
        Err(errors) => Err(errors),
    }
}

/// Reads a declaration for the conversion from the primitive type to the
/// enum. Every variant takes part, skipped or not, with a constant for its
/// discriminant named after it.
pub fn derive_try_from_repr(input: &DeriveInput) -> (r: Result<TryFromRepr, Vec<Problem>>)
    requires
        input.discriminants_fit(),
    ensures
        match r {
            Ok(f) => {
                &&& f.name == input.ident
                &&& conversion_for(*input, Ok::<String, Vec<Problem>>(f.repr))
                &&& f.variants@.len() == input.variants().len()
                &&& f.consts@.len() == input.variants().len()
                &&& forall|i: int|
                    0 <= i < input.variants().len() ==> (#[trigger] f.variants@[i])
                        == input.variants()[i].ident
                &&& forall|i: int|
                    0 <= i < input.variants().len() ==> (#[trigger] f.consts@[i])@ == const_name(
                        input.variants()[i].ident@,
                    )
            },
            Err(errors) => conversion_for(*input, Err::<String, Vec<Problem>>(errors)),
        },
{
    let e = match Enum::parse(input) {
        Ok(e) => e,
        Err(errors) => {
            return Err(errors);
        },
    };
    let name = e.name.clone();
    let mut variants: Vec<String> = Vec::new();
    let mut consts: Vec<String> = Vec::new();
    let mut i: usize = 0;
    while i < e.variants.len()
        invariant
            i <= e.variants@.len(),
            e.variants@.len() == input.variants().len(),
            forall|k: int|
                0 <= k < e.variants@.len() ==> *(#[trigger] e.variants@[k]).0
                    == input.variants()[k],
            variants@.len() == i,
            consts@.len() == i,
            forall|k: int| 0 <= k < i ==> (#[trigger] variants@[k]) == input.variants()[k].ident,
            forall|k: int|
                0 <= k < i ==> (#[trigger] consts@[k])@ == const_name(input.variants()[k].ident@),
        decreases e.variants@.len() - i,
    {
        let ident = &e.variants[i].0.ident;
        variants.push(ident.clone());
        consts.push(String::from_str("DISCRIMINANT_").concat(ident.as_str()));
        i += 1;
    }
    match checked_repr(e, Ghost(*input)) {
        Ok(repr) => Ok(TryFromRepr { name, repr, variants, consts }),
        Err(errors) => Err(errors),
    }
}

} // verus!
