//! Rules for renaming all variants of an enum at once, by the style of
//! letter case that the names are to take.

use vstd::prelude::*;

verus! {

/// A style of letter case for variant names.
#[derive(Debug, Clone, Copy, PartialEq, Eq, Structural)]
pub enum RenameRule {
    Keep,
    LowerCase,
    UpperCase,
    PascalCase,
    CamelCase,
    SnakeCase,
    ScreamingSnakeCase,
    KebabCase,
    ScreamingKebabCase,
}

/// The rule that a style's own spelling names, if it names one.
pub open spec fn rule_named(text: Seq<char>) -> Option<RenameRule> {
    if text == "lowercase"@ {
        Some(RenameRule::LowerCase)
    } else if text == "UPPERCASE"@ {
        Some(RenameRule::UpperCase)
    } else if text == "PascalCase"@ {
        Some(RenameRule::PascalCase)
    } else if text == "camelCase"@ {
        Some(RenameRule::CamelCase)
    } else if text == "snake_case"@ {
        Some(RenameRule::SnakeCase)
    } else if text == "SCREAMING_SNAKE_CASE"@ {
        Some(RenameRule::ScreamingSnakeCase)
    } else if text == "kebab-case"@ {
        Some(RenameRule::KebabCase)
    } else if text == "SCREAMING-KEBAB-CASE"@ {
        Some(RenameRule::ScreamingKebabCase)
    } else {
        None
    }
}

/// The name that a variant takes under a rule, as
/// `serde_derive_internals` computes it.
pub uninterp spec fn renamed_variant(rule: RenameRule, variant: Seq<char>) -> Seq<char>;

/// Whether a rule can be applied to a variant name: the camel-case rule cuts
/// the name after its first byte, which therefore has to be a whole character.
pub open spec fn can_rename(rule: RenameRule, variant: Seq<char>) -> bool {
    rule == RenameRule::CamelCase ==> variant.len() > 0 && (variant[0] as u32) < 128
}

impl RenameRule {
    /// Calls `serde_derive_internals::attr::RenameRule::from_str`. The contract
    /// claims its table of eight spellings, each for one rule, and that any
    /// other text names no rule.
    #[verifier::external_body]
    pub(crate) fn parse(text: &str) -> (r: Option<RenameRule>)
        ensures
            r == rule_named(text@),
    {
        match text.parse::<serde_derive_internals::attr::RenameRule>() {
            Ok(serde_derive_internals::attr::RenameRule::None) => Some(RenameRule::Keep),
            Ok(serde_derive_internals::attr::RenameRule::LowerCase) => Some(RenameRule::LowerCase),
            Ok(serde_derive_internals::attr::RenameRule::UPPERCASE) => Some(RenameRule::UpperCase),
            Ok(serde_derive_internals::attr::RenameRule::PascalCase) => Some(RenameRule::PascalCase),
            Ok(serde_derive_internals::attr::RenameRule::CamelCase) => Some(RenameRule::CamelCase),
            Ok(serde_derive_internals::attr::RenameRule::SnakeCase) => Some(RenameRule::SnakeCase),
            Ok(serde_derive_internals::attr::RenameRule::ScreamingSnakeCase) => Some(RenameRule::ScreamingSnakeCase),
            Ok(serde_derive_internals::attr::RenameRule::KebabCase) => Some(RenameRule::KebabCase),
            Ok(serde_derive_internals::attr::RenameRule::ScreamingKebabCase) => Some(RenameRule::ScreamingKebabCase),
            Err(()) => None,
        }
    }

    /// Calls `serde_derive_internals::attr::RenameRule::apply_to_variant`. The
    /// contract gives the result a name, and claims that the rules `Keep` and
    /// `PascalCase` leave the variant's name as it is. The camel-case rule is
    /// kept from names that it cannot cut after the first byte.
    #[verifier::external_body]
    pub fn apply_to_variant(&self, s: &str) -> (r: String)
        requires
            can_rename(*self, s@),
        ensures
            r@ == renamed_variant(*self, s@),
            *self == RenameRule::Keep || *self == RenameRule::PascalCase ==> r@ == s@,
    {
        let rule = match self {
            RenameRule::Keep => serde_derive_internals::attr::RenameRule::None,
            RenameRule::LowerCase => serde_derive_internals::attr::RenameRule::LowerCase,
            RenameRule::UpperCase => serde_derive_internals::attr::RenameRule::UPPERCASE,
            RenameRule::PascalCase => serde_derive_internals::attr::RenameRule::PascalCase,
            RenameRule::CamelCase => serde_derive_internals::attr::RenameRule::CamelCase,
            RenameRule::SnakeCase => serde_derive_internals::attr::RenameRule::SnakeCase,
            RenameRule::ScreamingSnakeCase => serde_derive_internals::attr::RenameRule::ScreamingSnakeCase,
            RenameRule::KebabCase => serde_derive_internals::attr::RenameRule::KebabCase,
            RenameRule::ScreamingKebabCase => serde_derive_internals::attr::RenameRule::ScreamingKebabCase,
        };
        rule.apply_to_variant(s)
    }
}

} // verus!
