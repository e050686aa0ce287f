use enum_utils::attr::{
    Attribute, Data, DeriveInput, DiscriminantExpr, Enum, Lit, Meta, NestedMeta, Problem, Variant,
};
use enum_utils::iter::{detect_contiguous_run, IterImpl};

fn word(name: &str) -> NestedMeta {
    NestedMeta::Meta(Meta::Path(Some(name.to_string())))
}

fn list_attr(name: &str, args: Vec<NestedMeta>) -> Attribute {
    Attribute {
        path: Some(name.to_string()),
        meta: Ok(Meta::List(Some(name.to_string()), args)),
    }
}

fn derive_attr(traits: &[&str]) -> Attribute {
    list_attr("derive", traits.iter().map(|t| word(t)).collect())
}

fn repr_attr(args: &[&str]) -> Attribute {
    list_attr("repr", args.iter().map(|t| word(t)).collect())
}

fn unit(name: &str, attrs: Vec<Attribute>, discriminant: Option<i128>) -> Variant {
    Variant {
        ident: name.to_string(),
        attrs,
        unit: true,
        discriminant: discriminant.map(DiscriminantExpr::Literal),
    }
}

fn tuple(name: &str, attrs: Vec<Attribute>) -> Variant {
    Variant { ident: name.to_string(), attrs, unit: false, discriminant: None }
}

fn an_enum(name: &str, attrs: Vec<Attribute>, variants: Vec<Variant>) -> DeriveInput {
    DeriveInput { ident: name.to_string(), attrs, data: Data::Enum(variants) }
}

/// The names of the variants that the generated `iter()` yields, in order.
fn iterate(input: &DeriveInput) -> Vec<String> {
    let parsed = Enum::parse(input).unwrap();
    let by_discriminant = |d: i128| -> String {
        let ds = parsed.discriminants.as_ref().unwrap();
        let at = ds.iter().position(|x| *x == d).unwrap();
        parsed.variants[at].0.ident.clone()
    };
    match IterImpl::for_enum(&parsed).unwrap() {
        IterImpl::Empty => vec![],
        IterImpl::Range { start, end, .. } => (start..end).map(by_discriminant).collect(),
        IterImpl::RangeInclusive { start, end, .. } => (start..=end).map(by_discriminant).collect(),
        IterImpl::Slice(names) => names,
    }
}

fn plan(input: &DeriveInput) -> Result<IterImpl, Vec<Problem>> {
    IterImpl::for_enum(&Enum::parse(input).unwrap())
}

fn large_discriminant_enum() -> DeriveInput {
    an_enum(
        "LargeDiscriminant",
        vec![derive_attr(&["Debug", "IterVariants", "PartialEq", "Eq"]), repr_attr(&["u32"])],
        vec![
            unit("MaxMinusOne", vec![], Some(0xffff_fffe)),
            unit("Max", vec![], Some(0xffff_ffff)),
        ],
    )
}

#[test]
fn large_discriminant() {
    assert_eq!(
        vec!["MaxMinusOne".to_string(), "Max".to_string()],
        iterate(&large_discriminant_enum())
    );
}

#[test]
fn large_discriminant_is_an_inclusive_range() {
    assert_eq!(
        plan(&large_discriminant_enum()),
        Ok(IterImpl::RangeInclusive {
            repr: "u32".to_string(),
            start: 0xffff_fffe,
            end: 0xffff_ffff
        })
    );
}

fn zst_enum() -> DeriveInput {
    an_enum(
        "Zst",
        vec![derive_attr(&["Debug", "Clone", "IterVariants", "PartialEq", "Eq"]), repr_attr(&["u8"])],
        vec![unit("Singleton", vec![], None)],
    )
}

#[test]
fn zst() {
    assert_eq!(vec!["Singleton".to_string()], iterate(&zst_enum()));
}

#[test]
fn zst_is_a_slice() {
    assert_eq!(plan(&zst_enum()), Ok(IterImpl::Slice(vec!["Singleton".to_string()])));
}

fn empty_enum() -> DeriveInput {
    an_enum("Empty", vec![derive_attr(&["Debug", "IterVariants", "PartialEq", "Eq"])], vec![])
}

#[test]
fn empty() {
    assert_eq!(Vec::<String>::new(), iterate(&empty_enum()));
}

#[test]
fn empty_is_empty() {
    assert_eq!(plan(&empty_enum()), Ok(IterImpl::Empty));
}

fn skip_c_like_enum() -> DeriveInput {
    an_enum(
        "SkipCLike",
        vec![
            derive_attr(&["Debug", "Clone", "IterVariants", "PartialEq", "Eq"]),
            repr_attr(&["u8"]),
            list_attr("allow", vec![word("unused")]),
        ],
        vec![
            unit("A", vec![], None),
            unit("B", vec![list_attr("enumeration", vec![word("skip")])], None),
            unit("C", vec![], None),
        ],
    )
}

#[test]
fn skip_c_like() {
    assert_eq!(vec!["A".to_string(), "C".to_string()], iterate(&skip_c_like_enum()));
}

#[test]
fn skip_c_like_is_a_slice() {
    assert_eq!(
        plan(&skip_c_like_enum()),
        Ok(IterImpl::Slice(vec!["A".to_string(), "C".to_string()]))
    );
}

fn multi_repr_enum() -> DeriveInput {
    an_enum(
        "MultiRepr",
        vec![
            derive_attr(&["Debug", "IterVariants", "PartialEq", "Eq"]),
            repr_attr(&["C", "u16"]),
            list_attr(
                "repr",
                vec![NestedMeta::Meta(Meta::List(
                    Some("align".to_string()),
                    vec![NestedMeta::Lit(Lit::Other)],
                ))],
            ),
        ],
        vec![unit("A", vec![], None), unit("B", vec![], None)],
    )
}

#[test]
fn multi_repr() {
    assert_eq!(vec!["A".to_string(), "B".to_string()], iterate(&multi_repr_enum()));
}

#[test]
fn multi_repr_is_a_range() {
    assert_eq!(
        plan(&multi_repr_enum()),
        Ok(IterImpl::Range { repr: "u16".to_string(), start: 0, end: 2 })
    );
}

#[test]
fn negative_run_is_a_range_without_end() {
    let input = an_enum(
        "Signed",
        vec![repr_attr(&["i8"])],
        vec![unit("Low", vec![], Some(-3)), unit("Mid", vec![], None), unit("High", vec![], None)],
    );
    assert_eq!(plan(&input), Ok(IterImpl::Range { repr: "i8".to_string(), start: -3, end: 0 }));
    assert_eq!(
        iterate(&input),
        vec!["Low".to_string(), "Mid".to_string(), "High".to_string()]
    );
}

#[test]
fn run_up_to_the_largest_value_keeps_its_end() {
    let input = an_enum(
        "Top",
        vec![repr_attr(&["i8"])],
        vec![unit("A", vec![], Some(126)), unit("B", vec![], None)],
    );
    assert_eq!(
        plan(&input),
        Ok(IterImpl::RangeInclusive { repr: "i8".to_string(), start: 126, end: 127 })
    );
}

#[test]
fn machine_sized_repr_keeps_its_end() {
    let input = an_enum(
        "Wide",
        vec![repr_attr(&["usize"])],
        vec![unit("A", vec![], None), unit("B", vec![], None)],
    );
    assert_eq!(
        plan(&input),
        Ok(IterImpl::RangeInclusive { repr: "usize".to_string(), start: 0, end: 1 })
    );
}

#[test]
fn all_skipped_is_empty() {
    let skip = || vec![list_attr("enumeration", vec![word("skip")])];
    let input = an_enum(
        "Hidden",
        vec![repr_attr(&["u8"])],
        vec![unit("A", skip(), None), unit("B", skip(), None)],
    );
    assert_eq!(plan(&input), Ok(IterImpl::Empty));
}

#[test]
fn skipped_variant_may_have_fields() {
    let input = an_enum(
        "Frame",
        vec![],
        vec![
            unit("Data", vec![], None),
            unit("Headers", vec![], None),
            tuple("Unknown", vec![list_attr("enumeration", vec![word("skip")])]),
        ],
    );
    assert_eq!(
        plan(&input),
        Ok(IterImpl::Slice(vec!["Data".to_string(), "Headers".to_string()]))
    );
}

#[test]
fn unskipped_fields_are_reported_each() {
    let input = an_enum(
        "Bad",
        vec![],
        vec![tuple("A", vec![]), unit("B", vec![], None), tuple("C", vec![])],
    );
    assert_eq!(
        plan(&input),
        Err(vec![Problem::UnskippedFields, Problem::UnskippedFields])
    );
}

#[test]
fn no_repr_gives_a_slice() {
    let input = an_enum(
        "Plain",
        vec![],
        vec![unit("A", vec![], None), unit("B", vec![], None)],
    );
    assert_eq!(plan(&input), Ok(IterImpl::Slice(vec!["A".to_string(), "B".to_string()])));
}

#[test]
fn contiguous_runs() {
    assert_eq!(detect_contiguous_run(&vec![]), None);
    assert_eq!(detect_contiguous_run(&vec![5]), Some((5, 5)));
    assert_eq!(detect_contiguous_run(&vec![1, 2, 3, 4]), Some((1, 4)));
    assert_eq!(detect_contiguous_run(&vec![-2, -1, 0, 1]), Some((-2, 1)));
    assert_eq!(detect_contiguous_run(&vec![1, 3]), None);
    assert_eq!(detect_contiguous_run(&vec![2, 1]), None);
    assert_eq!(detect_contiguous_run(&vec![1, 1]), None);
    assert_eq!(detect_contiguous_run(&vec![i128::MAX - 1, i128::MAX]), Some((i128::MAX - 1, i128::MAX)));
    assert_eq!(detect_contiguous_run(&vec![i128::MAX, i128::MIN]), None);
}
