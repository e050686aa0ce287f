//! The wording of problems, and the report that lists them.

use crate::attr::{Attr, Problem};
use vstd::prelude::*;
use vstd::string::StringExecFns;

verus! {

/// A text as `std` writes it for debugging: in double quotes, with
/// characters escaped as `char::escape_debug` escapes them.
pub uninterp spec fn debug_quoted(text: Seq<char>) -> Seq<char>;

/// Formats a string with `{:?}`, which is `<str as Debug>::fmt` of `std`. The
/// contract gives the result a name and claims nothing else of it.
#[verifier::external_body]
fn quoted(text: &str) -> (r: String)
    ensures
        r@ == debug_quoted(text@),
{
    format!("{:?}", text)
}

/// How an argument is written when a problem names it.
pub open spec fn attr_text(attr: Attr) -> Seq<char> {
    match attr {
        Attr::CaseInsensitive => "CaseInsensitive"@,
        Attr::Skip => "Skip"@,
        Attr::Rename(name) => "Rename("@ + debug_quoted(name@) + ")"@,
        Attr::RenameAll(_) => "RenameAll(RenameRule)"@,
        Attr::Alias(name) => "Alias("@ + debug_quoted(name@) + ")"@,
    }
}

/// The wording of a problem.
pub open spec fn message_text(problem: Problem) -> Seq<char> {
    match problem {
        Problem::NotAnEnum => "Input must be an enum"@,
        Problem::Syntax(why) => why@,
        Problem::LiteralArgument => "Argument to attribute cannot be a literal"@,
        Problem::NonStringLiteral => "Non-string literal"@,
        Problem::InvalidRenameAll => "Invalid RenameAll rule"@,
        Problem::UnknownArgument => "Unknown attribute argument"@,
        Problem::RenamedTwice => "Variant cannot be renamed multiple times"@,
        Problem::NotForVariant(attr) => "Attribute \""@ + attr_text(attr)
            + "\" is not valid for a variant"@,
        Problem::RenameAllTwice => "Enum can only have a single \"rename_all\" attribute"@,
        Problem::NotForEnum(attr) => "Attribute \""@ + attr_text(attr)
            + "\" is not valid for an enum"@,
        Problem::MultipleReprs => "Multiple primitive `#[repr(...)]`s"@,
        Problem::UnskippedFields => "An (unskipped) variant cannot have fields"@,
        Problem::Fields => "Variant cannot have fields"@,
        Problem::MissingRepr => "`#[repr(...)]` must be specified to derive `TryFrom`"@,
    }
}

/// The report on the first `n` problems: a heading, and then each problem
/// on a line of its own.
pub open spec fn report_text(problems: Seq<Problem>, n: nat) -> Seq<char>
    decreases n,
{
    if n == 0 {
        "enum_utils encountered one or more errors:"@
    } else {
        report_text(problems, (n - 1) as nat) + "\n"@ + message_text(problems[n - 1])
    }
}

impl Attr {
    /// How the argument is written when a problem names it.
    pub fn text(&self) -> (r: String)
        ensures
            r@ == attr_text(*self),
    {
        match self {
            Attr::CaseInsensitive => String::from_str("CaseInsensitive"),
            Attr::Skip => String::from_str("Skip"),
            Attr::Rename(name) => String::from_str("Rename(").concat(
                quoted(name.as_str()).as_str(),
            ).concat(")"),
            Attr::RenameAll(_) => String::from_str("RenameAll(RenameRule)"),
            Attr::Alias(name) => String::from_str("Alias(").concat(
                quoted(name.as_str()).as_str(),
            ).concat(")"),
        }
    }
}

impl Problem {
    /// The wording of the problem.
    pub fn message(&self) -> (r: String)
        ensures
            r@ == message_text(*self),
    {
        match self {
            Problem::NotAnEnum => String::from_str("Input must be an enum"),
            Problem::Syntax(why) => why.clone(),
            Problem::LiteralArgument => String::from_str(
                "Argument to attribute cannot be a literal",
            ),
            Problem::NonStringLiteral => String::from_str("Non-string literal"),
            Problem::InvalidRenameAll => String::from_str("Invalid RenameAll rule"),
            Problem::UnknownArgument => String::from_str("Unknown attribute argument"),
            Problem::RenamedTwice => String::from_str("Variant cannot be renamed multiple times"),
            Problem::NotForVariant(attr) => String::from_str("Attribute \"").concat(
                attr.text().as_str(),
            ).concat("\" is not valid for a variant"),
            Problem::RenameAllTwice => String::from_str(
                "Enum can only have a single \"rename_all\" attribute",
            ),
            Problem::NotForEnum(attr) => String::from_str("Attribute \"").concat(
                attr.text().as_str(),
            ).concat("\" is not valid for an enum"),
            Problem::MultipleReprs => String::from_str("Multiple primitive `#[repr(...)]`s"),
            Problem::UnskippedFields => String::from_str(
                "An (unskipped) variant cannot have fields",
            ),
            Problem::Fields => String::from_str("Variant cannot have fields"),
            Problem::MissingRepr => String::from_str(
                "`#[repr(...)]` must be specified to derive `TryFrom`",
            ),
        }
    }
}

/// The report that lists `problems`.
pub fn report(problems: &Vec<Problem>) -> (r: String)
    ensures
        r@ == report_text(problems@, problems@.len()),
{
    let mut desc = String::from_str("enum_utils encountered one or more errors:");
    let mut i: usize = 0;
    while i < problems.len()
        invariant
            i <= problems@.len(),
            desc@ == report_text(problems@, i as nat),
        decreases problems@.len() - i,
    {
        desc.append("\n");
        desc.append(problems[i].message().as_str());
        i += 1;
    }
    desc
}

/// Takes the value out of a result that is known to hold one.
pub fn unwrap_errors<T>(res: Result<T, Vec<Problem>>) -> (r: T)
    requires
        res is Ok,
    ensures
        res == Ok::<T, Vec<Problem>>(r),
{
    match res {
        Ok(x) => x,
        Err(_) => unreached(),
    }
}

} // verus!
