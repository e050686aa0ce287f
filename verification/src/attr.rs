//! What the derives read from an enum's declaration: its attributes, its
//! variants and their discriminants, and the primitive type it is laid out as.

use crate::rename::{rule_named, RenameRule};
use vstd::prelude::*;

verus! {

/// The primitive integer types that an enum can be laid out as.
#[derive(Debug, Clone, Copy, PartialEq, Eq, Structural)]
pub enum Primitive {
    U8,
    U16,
    U32,
    U64,
    U128,
    Usize,
    I8,
    I16,
    I32,
    I64,
    I128,
    Isize,
}

/// The primitive type that a name spells, if it spells one.
pub open spec fn primitive_named(name: Seq<char>) -> Option<Primitive> {
    if name == "u8"@ {
        Some(Primitive::U8)
    } else if name == "u16"@ {
        Some(Primitive::U16)
    } else if name == "u32"@ {
        Some(Primitive::U32)
    } else if name == "u64"@ {
        Some(Primitive::U64)
    } else if name == "u128"@ {
        Some(Primitive::U128)
    } else if name == "usize"@ {
        Some(Primitive::Usize)
    } else if name == "i8"@ {
        Some(Primitive::I8)
    } else if name == "i16"@ {
        Some(Primitive::I16)
    } else if name == "i32"@ {
        Some(Primitive::I32)
    } else if name == "i64"@ {
        Some(Primitive::I64)
    } else if name == "i128"@ {
        Some(Primitive::I128)
    } else if name == "isize"@ {
        Some(Primitive::Isize)
    } else {
        None
    }
}

/// Whether `text` is spelled `word`.
pub fn spells(text: &str, word: &str) -> (r: bool)
    ensures
        r == (text@ == word@),
{
    text.to_owned() == word.to_owned()
}

impl Primitive {
    /// The primitive type that `name` spells.
    pub fn from_name(name: &str) -> (r: Option<Primitive>)
        ensures
            r == primitive_named(name@),
    {
        if spells(name, "u8") {
            Some(Primitive::U8)
        } else if spells(name, "u16") {
            Some(Primitive::U16)
        } else if spells(name, "u32") {
            Some(Primitive::U32)
        } else if spells(name, "u64") {
            Some(Primitive::U64)
        } else if spells(name, "u128") {
            Some(Primitive::U128)
        } else if spells(name, "usize") {
            Some(Primitive::Usize)
        } else if spells(name, "i8") {
            Some(Primitive::I8)
        } else if spells(name, "i16") {
            Some(Primitive::I16)
        } else if spells(name, "i32") {
            Some(Primitive::I32)
        } else if spells(name, "i64") {
            Some(Primitive::I64)
        } else if spells(name, "i128") {
            Some(Primitive::I128)
        } else if spells(name, "isize") {
            Some(Primitive::Isize)
        } else {
            None
        }
    }

    /// The largest value of the type, where it is the same on every machine.
    pub open spec fn spec_max_value(self) -> Option<u128> {
        match self {
            Primitive::U8 => Some(0xff),
            Primitive::U16 => Some(0xffff),
            Primitive::U32 => Some(0xffff_ffff),
            Primitive::U64 => Some(0xffff_ffff_ffff_ffff),
            Primitive::U128 => Some(0xffff_ffff_ffff_ffff_ffff_ffff_ffff_ffff),
            Primitive::I8 => Some(0x7f),
            Primitive::I16 => Some(0x7fff),
            Primitive::I32 => Some(0x7fff_ffff),
            Primitive::I64 => Some(0x7fff_ffff_ffff_ffff),
            Primitive::I128 => Some(0x7fff_ffff_ffff_ffff_ffff_ffff_ffff_ffff),
            Primitive::Usize | Primitive::Isize => None,
        }
    }

    /// The largest value of the type; nothing for the types whose width
    /// depends on the machine.
    pub fn max_value(&self) -> (r: Option<u128>)
        ensures
            r == self.spec_max_value(),
    {
        match self {
            Primitive::U8 => Some(0xff),
            Primitive::U16 => Some(0xffff),
            Primitive::U32 => Some(0xffff_ffff),
            Primitive::U64 => Some(0xffff_ffff_ffff_ffff),
            Primitive::U128 => Some(u128::MAX),
            Primitive::I8 => Some(0x7f),
            Primitive::I16 => Some(0x7fff),
            Primitive::I32 => Some(0x7fff_ffff),
            Primitive::I64 => Some(0x7fff_ffff_ffff_ffff),
            Primitive::I128 => Some(0x7fff_ffff_ffff_ffff_ffff_ffff_ffff_ffff),
            Primitive::Usize | Primitive::Isize => None,
        }
    }
}

/// A literal in an attribute: a string, or anything else.
#[derive(Debug, PartialEq, Eq)]
pub enum Lit {
    Str(String),
    Other,
}

/// The structured form of an attribute. A path is given by its identifier
/// where it consists of one, and by nothing where it does not.
#[derive(Debug, PartialEq, Eq)]
pub enum Meta {
    Path(Option<String>),
    List(Option<String>, Vec<NestedMeta>),
    NameValue(Option<String>, Lit),
}

/// One argument in the list of an attribute.
#[derive(Debug, PartialEq, Eq)]
pub enum NestedMeta {
    Meta(Meta),
    Lit(Lit),
}

/// An attribute as it stands on an enum or a variant: its path, and its
/// structured form or the reason why it has none.
#[derive(Debug, PartialEq, Eq)]
pub struct Attribute {
    pub path: Option<String>,
    pub meta: Result<Meta, String>,
}

/// One argument of `#[enumeration(...)]`.
#[derive(Debug, PartialEq, Eq)]
pub enum Attr {
    CaseInsensitive,
    Skip,
    Rename(String),
    RenameAll(RenameRule),
    Alias(String),
}

/// What can be wrong with a declaration.
#[derive(Debug, PartialEq, Eq)]
pub enum Problem {
    /// The input is not an enum.
    NotAnEnum,
    /// An attribute has no structured form; the text says why.
    Syntax(String),
    /// An argument of the attribute is a literal.
    LiteralArgument,
    /// The value of an argument is not a string.
    NonStringLiteral,
    /// The value of `rename_all` names no rule.
    InvalidRenameAll,
    /// The argument is not one that the attribute knows.
    UnknownArgument,
    /// A variant is renamed more than once.
    RenamedTwice,
    /// The argument belongs on an enum, not on a variant.
    NotForVariant(Attr),
    /// An enum has more than one `rename_all`.
    RenameAllTwice,
    /// The argument belongs on a variant, not on an enum.
    NotForEnum(Attr),
    /// More than one primitive type is named in `#[repr(...)]`.
    MultipleReprs,
    /// A variant that is not skipped has fields.
    UnskippedFields,
    /// A variant has fields.
    Fields,
    /// No primitive type is named in `#[repr(...)]`.
    MissingRepr,
}

/// Whether a path is the single identifier `word`.
pub open spec fn path_is(path: Option<String>, word: Seq<char>) -> bool {
    match path {
        Some(ident) => ident@ == word,
        None => false,
    }
}

/// Whether a path is the single identifier `word`.
pub fn is_ident(path: &Option<String>, word: &str) -> (r: bool)
    ensures
        r == path_is(*path, word@),
{
    match path {
        Some(ident) => spells(ident.as_str(), word),
        None => false,
    }
}

impl Lit {
    /// The text of a string literal; any other literal is a problem.
    pub open spec fn text(self) -> Result<String, Problem> {
        match self {
            Lit::Str(v) => Ok(v),
            Lit::Other => Err(Problem::NonStringLiteral),
        }
    }

    /// The text of a string literal.
    pub fn value(&self) -> (r: Result<String, Problem>)
        ensures
            r == self.text(),
    {
        match self {
            Lit::Str(v) => Ok(v.clone()),
            Lit::Other => Err(Problem::NonStringLiteral),
        }
    }
}

impl Attr {
    /// The argument that a structured form stands for: `skip` and
    /// `case_insensitive` as bare words, `rename`, `rename_all` and `alias`
    /// with a string value.
    pub open spec fn of(meta: Meta) -> Result<Attr, Problem> {
        match meta {
            Meta::Path(path) => if path_is(path, "skip"@) {
                Ok(Attr::Skip)
            } else if path_is(path, "case_insensitive"@) {
                Ok(Attr::CaseInsensitive)
            } else {
                Err(Problem::UnknownArgument)
            },
            Meta::NameValue(path, lit) => if path_is(path, "rename"@) {
                match lit.text() {
                    Ok(v) => Ok(Attr::Rename(v)),
                    Err(e) => Err(e),
                }
            } else if path_is(path, "rename_all"@) {
                match lit.text() {
                    Ok(v) => match rule_named(v@) {
                        Some(rule) => Ok(Attr::RenameAll(rule)),
                        None => Err(Problem::InvalidRenameAll),
                    },
                    Err(e) => Err(e),
                }
            } else if path_is(path, "alias"@) {
                match lit.text() {
                    Ok(v) => Ok(Attr::Alias(v)),
                    Err(e) => Err(e),
                }
            } else {
                Err(Problem::UnknownArgument)
            },
            Meta::List(_, _) => Err(Problem::UnknownArgument),
        }
    }

    /// Reads one argument from its structured form.
    pub fn from_meta(meta: &Meta) -> (r: Result<Attr, Problem>)
        ensures
            r == Attr::of(*meta),
    {
        match meta {
            Meta::Path(path) => {
                if is_ident(path, "skip") {
                    Ok(Attr::Skip)
                } else if is_ident(path, "case_insensitive") {
                    Ok(Attr::CaseInsensitive)
                } else {
                    Err(Problem::UnknownArgument)
                }
            },
            Meta::NameValue(path, lit) => {
                if is_ident(path, "rename") {
                    match lit.value() {
                        Ok(v) => Ok(Attr::Rename(v)),
                        Err(e) => Err(e),
                    }
                } else if is_ident(path, "rename_all") {
                    match lit.value() {
                        Ok(v) => match RenameRule::parse(v.as_str()) {
                            Some(rule) => Ok(Attr::RenameAll(rule)),
                            None => Err(Problem::InvalidRenameAll),
                        },
                        Err(e) => Err(e),
                    }
                } else if is_ident(path, "alias") {
                    match lit.value() {
                        Ok(v) => Ok(Attr::Alias(v)),
                        Err(e) => Err(e),
                    }
                } else {
                    Err(Problem::UnknownArgument)
                }
            },
            Meta::List(_, _) => Err(Problem::UnknownArgument),
        }
    }

    /// The arguments of an attribute, where it has the form
    /// `#[enumeration(...)]`; of any other attribute, none.
    pub open spec fn args(attr: Attribute) -> Seq<NestedMeta> {
        match attr.meta {
            Ok(Meta::List(path, nested)) => if path_is(path, "enumeration"@) {
                nested@
            } else {
                Seq::empty()
            },
            _ => Seq::empty(),
        }
    }

    /// What one argument of `#[enumeration(...)]` reads as.
    pub open spec fn of_nested(arg: NestedMeta) -> Result<Attr, Problem> {
        match arg {
            NestedMeta::Meta(m) => Attr::of(m),
            NestedMeta::Lit(_) => Err(Problem::LiteralArgument),
        }
    }

    /// What the arguments of an attribute read as, one result for each.
    pub open spec fn parsed(attr: Attribute) -> Seq<Result<Attr, Problem>> {
        Seq::new(Attr::args(attr).len(), |i: int| Attr::of_nested(Attr::args(attr)[i]))
    }

    /// Reads the arguments of one attribute.
    pub fn parse_attrs(attr: &Attribute) -> (r: Vec<Result<Attr, Problem>>)
        ensures
            r@ == Attr::parsed(*attr),
    {
        let mut out: Vec<Result<Attr, Problem>> = Vec::new();
        if let Ok(Meta::List(path, nested)) = &attr.meta {
            if is_ident(path, "enumeration") {
                let mut i: usize = 0;
                while i < nested.len()
                    invariant
                        i <= nested@.len(),
                        Attr::args(*attr) == nested@,
                        out@ == Seq::new(i as nat, |k: int| Attr::of_nested(nested@[k])),
                    decreases nested@.len() - i,
                {
                    let one = match &nested[i] {
                        NestedMeta::Meta(m) => Attr::from_meta(m),
                        NestedMeta::Lit(_) => Err(Problem::LiteralArgument),
                    };
                    out.push(one);
                    i += 1;
                    assert(out@ =~= Seq::new(i as nat, |k: int| Attr::of_nested(nested@[k])));
                }
                assert(out@ =~= Attr::parsed(*attr));
                return out;
            }
        }
        assert(out@ =~= Attr::parsed(*attr));
        out
    }
}

/// The problems among the first `n` of a run of items, in order, where
/// `problem_at` says which problem each item is, if it is one.
pub open spec fn problems_among(problem_at: spec_fn(int) -> Option<Problem>, n: nat) -> Seq<
    Problem,
>
    decreases n,
{
    if n == 0 {
        Seq::empty()
    } else {
        match problem_at(n - 1) {
            Some(p) => problems_among(problem_at, (n - 1) as nat).push(p),
            None => problems_among(problem_at, (n - 1) as nat),
        }
    }
}

/// Whether one of the first `n` results is a `rename`.
pub open spec fn renamed_before(attrs: Seq<Result<Attr, Problem>>, n: int) -> bool {
    exists|j: int| 0 <= j < n && j < attrs.len() && (#[trigger] attrs[j]) matches Ok(Attr::Rename(_))
}

/// Whether one of the first `n` results is a `rename_all`.
pub open spec fn rule_before(attrs: Seq<Result<Attr, Problem>>, n: int) -> bool {
    exists|j: int|
        0 <= j < n && j < attrs.len() && (#[trigger] attrs[j]) matches Ok(Attr::RenameAll(_))
}

/// Whether `text` is among `names`.
pub open spec fn names_hold(names: Seq<String>, text: Seq<char>) -> bool {
    exists|j: int| 0 <= j < names.len() && (#[trigger] names[j])@ == text
}

/// Whether one of the first `n` results is the alias `text`.
pub open spec fn alias_before(attrs: Seq<Result<Attr, Problem>>, n: int, text: Seq<char>) -> bool {
    exists|j: int|
        0 <= j < n && j < attrs.len() && match #[trigger] attrs[j] {
            Ok(Attr::Alias(a)) => a@ == text,
            _ => false,
        }
}

/// The new name that the first `n` results give first, if they give one.
pub open spec fn first_rename(attrs: Seq<Result<Attr, Problem>>, n: nat) -> Option<Seq<char>>
    decreases n,
{
    if n == 0 {
        None
    } else {
        match first_rename(attrs, (n - 1) as nat) {
            Some(name) => Some(name),
            None => match attrs[n - 1] {
                Ok(Attr::Rename(name)) => Some(name@),
                _ => None,
            },
        }
    }
}

/// The rule that the first `n` results give first, if they give one.
pub open spec fn first_rule(attrs: Seq<Result<Attr, Problem>>, n: nat) -> Option<RenameRule>
    decreases n,
{
    if n == 0 {
        None
    } else {
        match first_rule(attrs, (n - 1) as nat) {
            Some(rule) => Some(rule),
            None => match attrs[n - 1] {
                Ok(Attr::RenameAll(rule)) => Some(rule),
                _ => None,
            },
        }
    }
}

/// What is said of a variant, in plain values: whether it is skipped, its
/// new name, and the set of its aliases.
pub struct Said {
    pub skip: bool,
    pub rename: Option<Seq<char>>,
    pub aliases: Set<Seq<char>>,
}

/// A result that is no alias adds none.
pub proof fn lemma_alias_step(attrs: Seq<Result<Attr, Problem>>, n: int)
    requires
        0 <= n < attrs.len(),
        !(attrs[n] matches Ok(Attr::Alias(_))),
    ensures
        forall|text: Seq<char>| #[trigger]
            alias_before(attrs, n + 1, text) == alias_before(attrs, n, text),
{
    assert forall|text: Seq<char>| #[trigger]
        alias_before(attrs, n + 1, text) == alias_before(attrs, n, text) by {
        if alias_before(attrs, n, text) {
            let j = choose|j: int|
                0 <= j < n && j < attrs.len() && match #[trigger] attrs[j] {
                    Ok(Attr::Alias(a)) => a@ == text,
                    _ => false,
                };
            assert(0 <= j < n + 1);
        }
    }
}

/// What `#[enumeration(...)]` says of one variant.
#[derive(Debug, PartialEq, Eq)]
pub struct VariantAttrs {
    pub skip: bool,
    pub rename: Option<String>,
    pub aliases: Vec<String>,
}

impl Default for VariantAttrs {
    /// A variant of which nothing is said.
    fn default() -> (r: Self)
        ensures
            !r.skip,
            r.rename.is_none(),
            r.aliases@.len() == 0,
    {
        VariantAttrs { skip: false, rename: None, aliases: Vec::new() }
    }
}

impl VariantAttrs {
    /// The problem that the result at `i` is on a variant, if it is one: a
    /// result that is itself a problem, a second `rename`, or an argument
    /// that belongs on an enum.
    pub open spec fn problem_at(attrs: Seq<Result<Attr, Problem>>, i: int) -> Option<Problem> {
        match attrs[i] {
            Ok(Attr::Skip) => None,
            Ok(Attr::Alias(_)) => None,
            Ok(Attr::Rename(_)) => if renamed_before(attrs, i) {
                Some(Problem::RenamedTwice)
            } else {
                None
            },
            Ok(other) => Some(Problem::NotForVariant(other)),
            Err(e) => Some(e),
        }
    }

    /// All problems of the results on a variant, in order.
    pub open spec fn problems(attrs: Seq<Result<Attr, Problem>>) -> Seq<Problem> {
        problems_among(|i: int| VariantAttrs::problem_at(attrs, i), attrs.len())
    }

    /// What `self` says, in plain values.
    pub open spec fn said(self) -> Said {
        Said {
            skip: self.skip,
            rename: match self.rename {
                Some(name) => Some(name@),
                None => None,
            },
            aliases: Set::new(|text: Seq<char>| names_hold(self.aliases@, text)),
        }
    }

    /// What the results say of a variant: it is skipped if one of them says
    /// so, it has the first new name given, and its aliases are those given.
    pub open spec fn said_by(attrs: Seq<Result<Attr, Problem>>) -> Said {
        Said {
            skip: exists|j: int|
                0 <= j < attrs.len() && (#[trigger] attrs[j]) == Ok::<Attr, Problem>(Attr::Skip),
            rename: first_rename(attrs, attrs.len()),
            aliases: Set::new(|text: Seq<char>| alias_before(attrs, attrs.len() as int, text)),
        }
    }

    /// Whether no alias is listed twice.
    pub open spec fn well_formed(self) -> bool {
        forall|a: int, b: int|
            0 <= a < b < self.aliases@.len() ==> (#[trigger] self.aliases@[a])@ != (
            #[trigger] self.aliases@[b])@
    }

    /// Whether `self` is what the first `n` results say of a variant.
    pub open spec fn reads(self, attrs: Seq<Result<Attr, Problem>>, n: int) -> bool {
        &&& self.skip == (exists|j: int|
            0 <= j < n && j < attrs.len() && (#[trigger] attrs[j]) == Ok::<Attr, Problem>(
                Attr::Skip,
            ))
        &&& self.said().rename == first_rename(attrs, n as nat)
        &&& self.rename.is_some() == renamed_before(attrs, n)
        &&& self.well_formed()
        &&& forall|text: Seq<char>| #[trigger]
            names_hold(self.aliases@, text) <==> alias_before(attrs, n, text)
    }

    /// Collects what the arguments on a variant say. Every problem among
    /// them is reported, and only without any is there a result.
    pub fn from_attrs(attrs: Vec<Result<Attr, Problem>>) -> (r: Result<Self, Vec<Problem>>)
        ensures
            match r {
                Ok(v) => VariantAttrs::problems(attrs@).len() == 0 && v.well_formed() && v.said()
                    == VariantAttrs::said_by(attrs@),
                Err(e) => e@.len() > 0 && e@ == VariantAttrs::problems(attrs@),
            },
    {
        let mut ret = VariantAttrs::default();
        let mut errors: Vec<Problem> = Vec::new();
        let ghost all = attrs@;
        let ghost mut done: int = 0;
        let ghost problem_at = |i: int| VariantAttrs::problem_at(all, i);
        for attr in it: attrs
            invariant
                it.seq() == all,
                done == it.index(),
                0 <= done <= all.len(),
                problem_at == (|i: int| VariantAttrs::problem_at(all, i)),
                errors@ == problems_among(problem_at, done as nat),
                ret.reads(all, done),
        {
            let ghost before = ret;
            assert(attr == all[done]);
            match attr {
                Ok(Attr::Skip) => {
                    ret.skip = true;
                    proof {
                        lemma_alias_step(all, done);
                    }
                },
                Ok(Attr::Rename(s)) => {
                    if ret.rename.is_none() {
                        ret.rename = Some(s);
                    } else {
                        errors.push(Problem::RenamedTwice);
                    }
                    proof {
                        lemma_alias_step(all, done);
                    }
                },
                Ok(Attr::Alias(s)) => {
                    let mut k: usize = 0;
                    let mut known = false;
                    while k < ret.aliases.len()
                        invariant
                            k <= ret.aliases@.len(),
                            ret == before,
                            known == (exists|j: int|
                                0 <= j < k && (#[trigger] ret.aliases@[j])@ == s@),
                        decreases ret.aliases@.len() - k,
                    {
                        if spells(ret.aliases[k].as_str(), s.as_str()) {
                            known = true;
                        }
                        k += 1;
                    }
                    if !known {
                        ret.aliases.push(s);
                    }
                    proof {
                        assert(names_hold(before.aliases@, s@) == known);
                        assert forall|text: Seq<char>| #[trigger]
                            names_hold(ret.aliases@, text) <==> alias_before(
                                all,
                                done + 1,
                                text,
                            ) by {
                            if names_hold(ret.aliases@, text) {
                                let j = choose|j: int|
                                    0 <= j < ret.aliases@.len() && (#[trigger] ret.aliases@[j])@
                                        == text;
                                if j < before.aliases@.len() {
                                    assert(before.aliases@[j]@ == text);
                                    assert(names_hold(before.aliases@, text));
                                    assert(alias_before(all, done, text));
                                }
                            }
                            if alias_before(all, done + 1, text) {
                                if alias_before(all, done, text) {
                                    assert(names_hold(before.aliases@, text));
                                    let j = choose|j: int|
                                        0 <= j < before.aliases@.len() && (
                                        #[trigger] before.aliases@[j])@ == text;
                                    assert(ret.aliases@[j]@ == text);
                                } else {
                                    assert(text == s@);
                                    if known {
                                        assert(names_hold(before.aliases@, s@));
                                    } else {
                                        assert(ret.aliases@[ret.aliases@.len() - 1]@ == s@);
                                    }
                                }
                            }
                        }
                    }
                },
                Ok(attr) => {
                    errors.push(Problem::NotForVariant(attr));
                    proof {
                        lemma_alias_step(all, done);
                    }
                },
                Err(e) => {
                    errors.push(e);
                    proof {
                        lemma_alias_step(all, done);
                    }
                },
            }
            proof {
                done = done + 1;
            }
        }
        proof {
            assert(ret.said().aliases =~= VariantAttrs::said_by(all).aliases);
        }
        if errors.is_empty() {
            Ok(ret)
        } else {
            Err(errors)
        }
    }
}

/// What `#[enumeration(...)]` says of an enum as a whole.
#[derive(Debug, PartialEq, Eq)]
pub struct EnumAttrs {
    pub nocase: bool,
    pub rename_rule: Option<RenameRule>,
}

impl Default for EnumAttrs {
    /// An enum of which nothing is said.
    fn default() -> (r: Self)
        ensures
            !r.nocase,
            r.rename_rule.is_none(),
    {
        EnumAttrs { nocase: false, rename_rule: None }
    }
}

impl EnumAttrs {
    /// The problem that the result at `i` is on an enum, if it is one: a
    /// result that is itself a problem, a second `rename_all`, or an argument
    /// that belongs on a variant.
    pub open spec fn problem_at(attrs: Seq<Result<Attr, Problem>>, i: int) -> Option<Problem> {
        match attrs[i] {
            Ok(Attr::CaseInsensitive) => None,
            Ok(Attr::RenameAll(_)) => if rule_before(attrs, i) {
                Some(Problem::RenameAllTwice)
            } else {
                None
            },
            Ok(other) => Some(Problem::NotForEnum(other)),
            Err(e) => Some(e),
        }
    }

    /// All problems of the results on an enum, in order.
    pub open spec fn problems(attrs: Seq<Result<Attr, Problem>>) -> Seq<Problem> {
        problems_among(|i: int| EnumAttrs::problem_at(attrs, i), attrs.len())
    }

    /// What the results say of an enum: case is ignored if one of them says
    /// so, and the rule is the first one given.
    pub open spec fn said_by(attrs: Seq<Result<Attr, Problem>>) -> EnumAttrs {
        EnumAttrs {
            nocase: exists|j: int|
                0 <= j < attrs.len() && (#[trigger] attrs[j]) == Ok::<Attr, Problem>(
                    Attr::CaseInsensitive,
                ),
            rename_rule: first_rule(attrs, attrs.len()),
        }
    }

    /// Whether `self` is what the first `n` results say of an enum.
    pub open spec fn reads(self, attrs: Seq<Result<Attr, Problem>>, n: int) -> bool {
        &&& self.nocase == (exists|j: int|
            0 <= j < n && j < attrs.len() && (#[trigger] attrs[j]) == Ok::<Attr, Problem>(
                Attr::CaseInsensitive,
            ))
        &&& self.rename_rule == first_rule(attrs, n as nat)
        &&& self.rename_rule.is_some() == rule_before(attrs, n)
    }

    /// Collects what the arguments on an enum say. Every problem among them
    /// is reported, and only without any is there a result.
    pub fn from_attrs(attrs: Vec<Result<Attr, Problem>>) -> (r: Result<Self, Vec<Problem>>)
        ensures
            match r {
                Ok(v) => EnumAttrs::problems(attrs@).len() == 0 && v == EnumAttrs::said_by(attrs@),
                Err(e) => e@.len() > 0 && e@ == EnumAttrs::problems(attrs@),
            },
    {
        let mut ret = EnumAttrs::default();
        let mut errors: Vec<Problem> = Vec::new();
        let ghost all = attrs@;
        let ghost mut done: int = 0;
        let ghost problem_at = |i: int| EnumAttrs::problem_at(all, i);
        for attr in it: attrs
            invariant
                it.seq() == all,
                done == it.index(),
                0 <= done <= all.len(),
                problem_at == (|i: int| EnumAttrs::problem_at(all, i)),
                errors@ == problems_among(problem_at, done as nat),
                ret.reads(all, done),
        {
            let ghost before = ret;
            assert(attr == all[done]);
            match attr {
                Ok(Attr::CaseInsensitive) => {
                    ret.nocase = true;
                },
                Ok(Attr::RenameAll(r)) => {
                    if ret.rename_rule.is_none() {
                        ret.rename_rule = Some(r);
                    } else {
                        errors.push(Problem::RenameAllTwice);
                    }
                },
                Ok(attr) => {
                    errors.push(Problem::NotForEnum(attr));
                },
                Err(e) => {
                    errors.push(e);
                },
            }
            proof {
                done = done + 1;
            }
        }
        if errors.is_empty() {
            Ok(ret)
        } else {
            Err(errors)
        }
    }
}

/// A primitive type together with the name that spelled it.
pub type Repr = (Primitive, String);

/// The primitive type that one argument of `#[repr(...)]` names, if it names one.
pub open spec fn primitive_arg(arg: NestedMeta) -> Option<Repr> {
    match arg {
        NestedMeta::Meta(Meta::Path(Some(name))) => match primitive_named(name@) {
            Some(prim) => Some((prim, name)),
            None => None,
        },
        _ => None,
    }
}

/// What is known of the primitive type after the first `n` arguments of one
/// `#[repr(...)]`: a second primitive type is a problem.
pub open spec fn repr_after_args(
    start: Option<Repr>,
    args: Seq<NestedMeta>,
    n: nat,
) -> Result<Option<Repr>, Problem>
    decreases n,
{
    if n == 0 {
        Ok(start)
    } else {
        match repr_after_args(start, args, (n - 1) as nat) {
            Err(e) => Err(e),
            Ok(found) => match primitive_arg(args[n - 1]) {
                Some(repr) => if found.is_some() {
                    Err(Problem::MultipleReprs)
                } else {
                    Ok(Some(repr))
                },
                None => Ok(found),
            },
        }
    }
}

/// What is known of the primitive type after the first `n` attributes: only
/// those with the path `repr` count, one without a structured form is a
/// problem, and only lists are looked into.
pub open spec fn repr_after(attrs: Seq<Attribute>, n: nat) -> Result<Option<Repr>, Problem>
    decreases n,
{
    if n == 0 {
        Ok(None)
    } else {
        match repr_after(attrs, (n - 1) as nat) {
            Err(e) => Err(e),
            Ok(found) => if !path_is(attrs[n - 1].path, "repr"@) {
                Ok(found)
            } else {
                match attrs[n - 1].meta {
                    Err(why) => Err(Problem::Syntax(why)),
                    Ok(Meta::List(_, nested)) => repr_after_args(found, nested@, nested@.len()),
                    Ok(_) => Ok(found),
                }
            },
        }
    }
}

/// Finds the primitive type that the `#[repr(...)]` attributes name: none,
/// one, or the problem met first.
pub fn parse_primitive_repr(attrs: &Vec<Attribute>) -> (r: Result<Option<Repr>, Problem>)
    ensures
        r == repr_after(attrs@, attrs@.len()),
{
    let mut repr: Option<Repr> = None;
    let mut i: usize = 0;
    while i < attrs.len()
        invariant
            i <= attrs@.len(),
            repr_after(attrs@, i as nat) == Ok::<Option<Repr>, Problem>(repr),
        decreases attrs@.len() - i,
    {
        let attr = &attrs[i];
        i += 1;
        if !is_ident(&attr.path, "repr") {
            continue ;
        }
        let nested = match &attr.meta {
            Err(why) => {
                proof {
                    lemma_repr_error_stays(attrs@, i as nat, attrs@.len());
                }
                return Err(Problem::Syntax(why.clone()));
            },
            Ok(Meta::List(_, nested)) => nested,
            Ok(_) => {
                continue ;
            },
        };
        let ghost start = repr;
        let mut k: usize = 0;
        while k < nested.len()
            invariant
                k <= nested@.len(),
                0 < i <= attrs@.len(),
                repr_after(attrs@, (i - 1) as nat) == Ok::<Option<Repr>, Problem>(start),
                path_is(attrs@[i - 1].path, "repr"@),
                attrs@[i - 1].meta matches Ok(Meta::List(_, list)) && list == *nested,
                repr_after_args(start, nested@, k as nat) == Ok::<Option<Repr>, Problem>(repr),
            decreases nested@.len() - k,
        {
            let arg = &nested[k];
            k += 1;
            if let NestedMeta::Meta(Meta::Path(Some(name))) = arg {
                if let Some(prim) = Primitive::from_name(name.as_str()) {
                    if repr.is_some() {
                        proof {
                            lemma_repr_args_error_stays(start, nested@, k as nat, nested@.len());
                            lemma_repr_error_stays(attrs@, i as nat, attrs@.len());
                        }
                        return Err(Problem::MultipleReprs);
                    }
                    repr = Some((prim, name.clone()));
                }
            }
        }
    }
    Ok(repr)
}

/// A problem met among the arguments stays the result.
pub proof fn lemma_repr_args_error_stays(
    start: Option<Repr>,
    args: Seq<NestedMeta>,
    n: nat,
    m: nat,
)
    requires
        n <= m,
        repr_after_args(start, args, n).is_err(),
    ensures
        repr_after_args(start, args, m) == repr_after_args(start, args, n),
    decreases m,
{
    if n < m {
        lemma_repr_args_error_stays(start, args, n, (m - 1) as nat);
    }
}

/// A problem met among the attributes stays the result.
pub proof fn lemma_repr_error_stays(attrs: Seq<Attribute>, n: nat, m: nat)
    requires
        n <= m,
        repr_after(attrs, n).is_err(),
    ensures
        repr_after(attrs, m) == repr_after(attrs, n),
    decreases m,
{
    if n < m {
        lemma_repr_error_stays(attrs, n, (m - 1) as nat);
    }
}

/// The value of a discriminant.
pub type Discriminant = i128;

/// The discriminant that a variant is declared with: an integer literal, or
/// an expression whose value is not known here.
#[derive(Debug, PartialEq, Eq)]
pub enum DiscriminantExpr {
    Literal(Discriminant),
    Other,
}

/// One variant as declared: its name, its attributes, whether it is without
/// fields, and its discriminant where one is written.
#[derive(Debug, PartialEq, Eq)]
pub struct Variant {
    pub ident: String,
    pub attrs: Vec<Attribute>,
    pub unit: bool,
    pub discriminant: Option<DiscriminantExpr>,
}

/// What is declared: an enum with its variants, or something else.
#[derive(Debug, PartialEq, Eq)]
pub enum Data {
    Enum(Vec<Variant>),
    Other,
}

/// The declaration that a derive is asked to work on.
#[derive(Debug, PartialEq, Eq)]
pub struct DeriveInput {
    pub ident: String,
    pub attrs: Vec<Attribute>,
    pub data: Data,
}

/// An enum as the derives see it.
#[derive(Debug)]
pub struct Enum<'a> {
    pub name: &'a String,
    pub attrs: EnumAttrs,
    /// The primitive type named in `#[repr(...)]`, if any, or the problem
    /// with those attributes.
    pub primitive_repr: Result<Option<Repr>, Problem>,
    pub variants: Vec<(&'a Variant, VariantAttrs)>,
    /// The discriminants of the variants, where all of them are known.
    pub discriminants: Option<Vec<Discriminant>>,
}

/// What the arguments of the first `n` attributes read as, one after another.
pub open spec fn args_of(attrs: Seq<Attribute>, n: nat) -> Seq<Result<Attr, Problem>>
    decreases n,
{
    if n == 0 {
        Seq::empty()
    } else {
        args_of(attrs, (n - 1) as nat) + Attr::parsed(attrs[n - 1])
    }
}

/// Reads the arguments of all attributes.
pub fn parse_all_attrs(attrs: &Vec<Attribute>) -> (r: Vec<Result<Attr, Problem>>)
    ensures
        r@ == args_of(attrs@, attrs@.len()),
{
    let mut out: Vec<Result<Attr, Problem>> = Vec::new();
    let mut i: usize = 0;
    while i < attrs.len()
        invariant
            i <= attrs@.len(),
            out@ == args_of(attrs@, i as nat),
        decreases attrs@.len() - i,
    {
        let mut more = Attr::parse_attrs(&attrs[i]);
        out.append(&mut more);
        i += 1;
    }
    out
}

/// Whether the first `n` variants all have a discriminant known here: they
/// are without fields, and declare an integer literal or nothing.
pub open spec fn c_like(variants: Seq<Variant>, n: int) -> bool {
    forall|i: int|
        0 <= i < n && i < variants.len() ==> (#[trigger] variants[i]).unit && !(
        variants[i].discriminant matches Some(DiscriminantExpr::Other))
}

/// The discriminant of the variant at `i`: the literal that it declares, or
/// one more than that of the variant before it, or zero for the first.
pub open spec fn discriminant_at(variants: Seq<Variant>, i: int) -> int
    decreases i + 1,
{
    if i < 0 {
        -1
    } else {
        match variants[i].discriminant {
            Some(DiscriminantExpr::Literal(d)) => d as int,
            _ => discriminant_at(variants, i - 1) + 1,
        }
    }
}

/// All problems in the attributes of the first `n` variants, in order.
pub open spec fn variant_problems(variants: Seq<Variant>, n: nat) -> Seq<Problem>
    decreases n,
{
    if n == 0 {
        Seq::empty()
    } else {
        variant_problems(variants, (n - 1) as nat) + VariantAttrs::problems(
            args_of(variants[n - 1].attrs@, variants[n - 1].attrs@.len()),
        )
    }
}

impl DeriveInput {
    /// The variants, where an enum is declared.
    pub open spec fn variants(self) -> Seq<Variant> {
        match self.data {
            Data::Enum(variants) => variants@,
            Data::Other => Seq::empty(),
        }
    }

    /// Whether the discriminants that are counted up from the variant before
    /// stay within `i128`.
    pub open spec fn discriminants_fit(self) -> bool {
        forall|i: int|
            0 <= i < self.variants().len() && c_like(self.variants(), i + 1)
                ==> #[trigger] discriminant_at(self.variants(), i) <= i128::MAX
    }

    /// What the attributes of the enum say of it.
    pub open spec fn said(self) -> EnumAttrs {
        EnumAttrs::said_by(args_of(self.attrs@, self.attrs@.len()))
    }

    /// What the attributes of the variant at `i` say of it.
    pub open spec fn said_of(self, i: int) -> Said {
        VariantAttrs::said_by(args_of(self.variants()[i].attrs@, self.variants()[i].attrs@.len()))
    }

    /// All problems in the attributes of the enum and of its variants, in order.
    pub open spec fn problems(self) -> Seq<Problem> {
        EnumAttrs::problems(args_of(self.attrs@, self.attrs@.len())) + variant_problems(
            self.variants(),
            self.variants().len(),
        )
    }
}

impl<'a> Enum<'a> {
    /// Whether `self` is what `input` declares.
    pub open spec fn reads(self, input: DeriveInput) -> bool {
        &&& *self.name == input.ident
        &&& self.attrs == input.said()
        &&& self.primitive_repr == repr_after(input.attrs@, input.attrs@.len())
        &&& self.variants@.len() == input.variants().len()
        &&& forall|i: int|
            0 <= i < self.variants@.len() ==> *(#[trigger] self.variants@[i]).0
                == input.variants()[i] && self.variants@[i].1.well_formed()
                && self.variants@[i].1.said() == input.said_of(i)
        &&& match self.discriminants {
            Some(ds) => c_like(input.variants(), input.variants().len() as int) && ds@.len()
                == input.variants().len() && forall|i: int|
                0 <= i < ds@.len() ==> #[trigger] ds@[i] == discriminant_at(input.variants(), i),
            None => !c_like(input.variants(), input.variants().len() as int),
        }
    }

    /// Reads a declaration. Anything but an enum is a problem, and so is every
    /// problem in the attributes of the enum and of its variants: all of them
    /// are reported. Without any, the result holds the enum's attributes, its
    /// variants with theirs, the primitive type, and the discriminants where
    /// every variant is without fields and declares a literal or nothing.
    pub fn parse(input: &'a DeriveInput) -> (r: Result<Self, Vec<Problem>>)
        requires
            input.discriminants_fit(),
        ensures
            match r {
                Ok(e) => input.data is Enum && input.problems().len() == 0 && e.reads(*input),
                Err(errors) => if input.data is Enum {
                    errors@.len() > 0 && errors@ == input.problems()
                } else {
                    errors@ == seq![Problem::NotAnEnum]
                },
            },
    {
        let variants = match &input.data {
            Data::Enum(variants) => variants,
            Data::Other => {
                let mut list: Vec<Problem> = Vec::new();
                list.push(Problem::NotAnEnum);
                return Err(list);
            },
        };
        let mut errors: Vec<Problem> = Vec::new();
        let enum_attrs = match EnumAttrs::from_attrs(parse_all_attrs(&input.attrs)) {
            Ok(attrs) => attrs,
            Err(e) => {
                errors = e;
                EnumAttrs::default()
            },
        };
        let ghost head = errors@;
        let mut discriminants: Option<Vec<Discriminant>> = Some(Vec::new());
        let mut parsed_variants: Vec<(&'a Variant, VariantAttrs)> = Vec::new();
        let mut i: usize = 0;
        while i < variants.len()
            invariant
                i <= variants@.len(),
                variants@ == input.variants(),
                input.discriminants_fit(),
                head == EnumAttrs::problems(args_of(input.attrs@, input.attrs@.len())),
                errors@ == head + variant_problems(variants@, i as nat),
                discriminants.is_some() ==> variant_problems(variants@, i as nat).len() == 0,
                variant_problems(variants@, i as nat).len() == 0 ==> {
                    &&& parsed_variants@.len() == i
                    &&& forall|k: int|
                        0 <= k < i ==> *(#[trigger] parsed_variants@[k]).0 == variants@[k]
                            && parsed_variants@[k].1.well_formed() && parsed_variants@[k].1.said()
                            == input.said_of(k)
                    &&& match discriminants {
                        Some(ds) => c_like(variants@, i as int) && ds@.len() == i && forall|
                            k: int,
                        |
                            0 <= k < i ==> #[trigger] ds@[k] == discriminant_at(variants@, k),
                        None => !c_like(variants@, i as int),
                    }
                },
            decreases variants@.len() - i,
        {
            let v = &variants[i];
            i += 1;
            let attrs = match VariantAttrs::from_attrs(parse_all_attrs(&v.attrs)) {
                Ok(a) => a,
                Err(mut e) => {
                    errors.append(&mut e);
                    discriminants = None;
                    proof {
                        assert(errors@ =~= head + variant_problems(variants@, i as nat));
                    }
                    continue ;
                },
            };
            parsed_variants.push((v, attrs));
            proof {
                let here = VariantAttrs::problems(args_of(v.attrs@, v.attrs@.len()));
                assert(variant_problems(variants@, i as nat) =~= variant_problems(
                    variants@,
                    (i - 1) as nat,
                ));
                assert(errors@ =~= head + variant_problems(variants@, i as nat));
            }
            if !v.unit {
                discriminants = None;
                continue ;
            }
            if discriminants.is_some() {
                let mut ds = discriminants.unwrap();
                match &v.discriminant {
                    Some(DiscriminantExpr::Literal(d)) => {
                        ds.push(*d);
                        discriminants = Some(ds);
                    },
                    Some(DiscriminantExpr::Other) => {
                        discriminants = None;
                    },
                    None => {
                        let d: Discriminant = if ds.len() == 0 {
                            proof {
                                assert(discriminant_at(variants@, -1) == -1);
                            }
                            0
                        } else {
                            proof {
                                assert(c_like(variants@, i as int));
                                assert(discriminant_at(variants@, i - 1) <= i128::MAX);
                            }
                            ds[ds.len() - 1] + 1
                        };
                        ds.push(d);
                        discriminants = Some(ds);
                    },
                }
            }
        }
        let primitive_repr = parse_primitive_repr(&input.attrs);
        if !errors.is_empty() {
            return Err(errors);
        }
        Ok(
            Enum {
                name: &input.ident,
                attrs: enum_attrs,
                variants: parsed_variants,
                primitive_repr,
                discriminants,
            },
        )
    }
}

} // verus!
