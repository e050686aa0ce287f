use enum_utils::attr::{Attr, Problem};
use enum_utils::rename::RenameRule;

#[test]
fn wording_of_problems() {
    let cases = [
        (Problem::NotAnEnum, "Input must be an enum"),
        (Problem::Syntax("expected `,`".to_string()), "expected `,`"),
        (Problem::LiteralArgument, "Argument to attribute cannot be a literal"),
        (Problem::NonStringLiteral, "Non-string literal"),
        (Problem::InvalidRenameAll, "Invalid RenameAll rule"),
        (Problem::UnknownArgument, "Unknown attribute argument"),
        (Problem::RenamedTwice, "Variant cannot be renamed multiple times"),
        (
            Problem::NotForVariant(Attr::CaseInsensitive),
            "Attribute \"CaseInsensitive\" is not valid for a variant",
        ),
        (
            Problem::NotForVariant(Attr::RenameAll(RenameRule::SnakeCase)),
            "Attribute \"RenameAll(RenameRule)\" is not valid for a variant",
        ),
        (
            Problem::RenameAllTwice,
            "Enum can only have a single \"rename_all\" attribute",
        ),
        (Problem::NotForEnum(Attr::Skip), "Attribute \"Skip\" is not valid for an enum"),
        (
            Problem::NotForEnum(Attr::Rename("a\"b".to_string())),
            "Attribute \"Rename(\"a\\\"b\")\" is not valid for an enum",
        ),
        (
            Problem::NotForEnum(Attr::Alias("x\ny".to_string())),
            "Attribute \"Alias(\"x\\ny\")\" is not valid for an enum",
        ),
        (Problem::MultipleReprs, "Multiple primitive `#[repr(...)]`s"),
        (Problem::UnskippedFields, "An (unskipped) variant cannot have fields"),
        (Problem::Fields, "Variant cannot have fields"),
        (Problem::MissingRepr, "`#[repr(...)]` must be specified to derive `TryFrom`"),
    ];
    for (problem, text) in cases {
        assert_eq!(problem.message(), text);
    }
}

#[test]
fn wording_of_arguments() {
    assert_eq!(Attr::Skip.text(), "Skip");
    assert_eq!(Attr::CaseInsensitive.text(), "CaseInsensitive");
    assert_eq!(Attr::Rename("x".to_string()).text(), "Rename(\"x\")");
    assert_eq!(Attr::Alias("".to_string()).text(), "Alias(\"\")");
    assert_eq!(Attr::RenameAll(RenameRule::Keep).text(), "RenameAll(RenameRule)");
}
