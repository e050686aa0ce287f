use enum_utils::attr::{Attribute, Data, DeriveInput, Meta, NestedMeta, Problem, Variant};
use enum_utils::conv::{derive_repr_from, derive_try_from_repr, ReprFrom, TryFromRepr};
use enum_utils::report::{report, unwrap_errors};

fn word(name: &str) -> NestedMeta {
    NestedMeta::Meta(Meta::Path(Some(name.to_string())))
}

fn list_attr(name: &str, args: Vec<NestedMeta>) -> Attribute {
    Attribute {
        path: Some(name.to_string()),
        meta: Ok(Meta::List(Some(name.to_string()), args)),
    }
}

fn variant(name: &str, unit: bool) -> Variant {
    Variant { ident: name.to_string(), attrs: vec![], unit, discriminant: None }
}

fn an_enum(attrs: Vec<Attribute>, variants: Vec<Variant>) -> DeriveInput {
    DeriveInput { ident: "Direction".to_string(), attrs, data: Data::Enum(variants) }
}

fn direction() -> DeriveInput {
    an_enum(
        vec![list_attr("repr", vec![word("u8")])],
        vec![
            variant("North", true),
            variant("East", true),
            variant("South", true),
            variant("West", true),
        ],
    )
}

#[test]
fn from_repr_names_constants_after_variants() {
    assert_eq!(
        derive_try_from_repr(&direction()),
        Ok(TryFromRepr {
            name: "Direction".to_string(),
            repr: "u8".to_string(),
            variants: vec![
                "North".to_string(),
                "East".to_string(),
                "South".to_string(),
                "West".to_string()
            ],
            consts: vec![
                "DISCRIMINANT_North".to_string(),
                "DISCRIMINANT_East".to_string(),
                "DISCRIMINANT_South".to_string(),
                "DISCRIMINANT_West".to_string()
            ],
        })
    );
}

#[test]
fn to_repr_needs_the_type_only() {
    assert_eq!(
        derive_repr_from(&direction()),
        Ok(ReprFrom { name: "Direction".to_string(), repr: "u8".to_string() })
    );
}

#[test]
fn conversions_need_a_primitive_type() {
    let input = an_enum(vec![list_attr("repr", vec![word("C")])], vec![variant("A", true)]);
    assert_eq!(derive_try_from_repr(&input), Err(vec![Problem::MissingRepr]));
    assert_eq!(derive_repr_from(&input), Err(vec![Problem::MissingRepr]));

    let input = an_enum(
        vec![list_attr("repr", vec![word("u8"), word("u16")])],
        vec![variant("A", false)],
    );
    assert_eq!(derive_try_from_repr(&input), Err(vec![Problem::MultipleReprs]));
    assert_eq!(derive_repr_from(&input), Err(vec![Problem::MultipleReprs]));
}

#[test]
fn conversions_take_no_fields() {
    let input = an_enum(
        vec![list_attr("repr", vec![word("u8")])],
        vec![variant("A", false), variant("B", true), variant("C", false)],
    );
    assert_eq!(derive_try_from_repr(&input), Err(vec![Problem::Fields, Problem::Fields]));
    assert_eq!(derive_repr_from(&input), Err(vec![Problem::Fields, Problem::Fields]));
}

#[test]
fn conversions_read_enums_only() {
    let input = DeriveInput { ident: "S".to_string(), attrs: vec![], data: Data::Other };
    assert_eq!(derive_try_from_repr(&input), Err(vec![Problem::NotAnEnum]));
    assert_eq!(derive_repr_from(&input), Err(vec![Problem::NotAnEnum]));
}

#[test]
fn report_lists_each_problem_on_its_own_line() {
    assert_eq!(report(&vec![]), "enum_utils encountered one or more errors:");
    assert_eq!(
        report(&vec![Problem::MissingRepr, Problem::Fields]),
        "enum_utils encountered one or more errors:\n`#[repr(...)]` must be specified to derive `TryFrom`\nVariant cannot have fields"
    );
}

#[test]
fn unwrap_hands_the_value_out() {
    assert_eq!(unwrap_errors(Ok(5)), 5);
    assert_eq!(unwrap_errors(derive_repr_from(&direction())).repr, "u8");
}
