//! Parsing an enum from a string: which strings name which variant, and the
//! lookup function that decides it.

use crate::attr::{names_hold, DeriveInput, Enum, Problem, Said};
use crate::decision::Case;
use crate::rename::{can_rename, renamed_variant, RenameRule};
use crate::str_map::StrMapFunc;
use vstd::prelude::*;
use vstd::utf8::{
    decode_utf8, decode_utf8_encode_utf8, encode_utf8, encode_utf8_decode_utf8,
    encode_utf8_valid_utf8, valid_utf8,
};

verus! {

/// Names with what they name, each name once.
pub type Names = Vec<(String, String)>;

/// Names with what they name as a map of texts.
pub open spec fn names_map(names: Seq<(String, String)>) -> Map<Seq<char>, Seq<char>>
    decreases names.len(),
{
    if names.len() == 0 {
        Map::empty()
    } else {
        names_map(names.drop_last()).insert(names.last().0@, names.last().1@)
    }
}

/// Whether no two entries have the same name.
pub open spec fn names_differ(names: Seq<(String, String)>) -> bool {
    forall|i: int, j: int|
        0 <= i < j < names.len() ==> (#[trigger] names[i]).0@ != (#[trigger] names[j]).0@
}

/// An entry of `names` is in their map.
pub proof fn lemma_names_map_holds(names: Seq<(String, String)>, i: int)
    requires
        names_differ(names),
        0 <= i < names.len(),
    ensures
        names_map(names).contains_key(names[i].0@),
        names_map(names)[names[i].0@] == names[i].1@,
    decreases names.len(),
{
    if i < names.len() - 1 {
        let front = names.drop_last();
        assert(front[i] == names[i]);
        assert forall|a: int, b: int| 0 <= a < b < front.len() implies (#[trigger] front[a]).0@
            != (#[trigger] front[b]).0@ by {
            assert(front[a] == names[a]);
            assert(front[b] == names[b]);
        }
        lemma_names_map_holds(front, i);
        assert(names[i].0@ != names[names.len() - 1].0@);
    }
}

/// A name that no entry has is not in the map.
pub proof fn lemma_names_map_lacks(names: Seq<(String, String)>, name: Seq<char>)
    requires
        forall|i: int| 0 <= i < names.len() ==> (#[trigger] names[i]).0@ != name,
    ensures
        !names_map(names).contains_key(name),
    decreases names.len(),
{
    if names.len() > 0 {
        let front = names.drop_last();
        assert forall|i: int| 0 <= i < front.len() implies (#[trigger] front[i]).0@ != name by {
            assert(front[i] == names[i]);
        }
        lemma_names_map_lacks(front, name);
        assert(names[names.len() - 1].0@ != name);
    }
}

/// Replacing what one entry names changes the map at that name only.
pub proof fn lemma_names_map_update(
    names: Seq<(String, String)>,
    i: int,
    entry: (String, String),
)
    requires
        names_differ(names),
        0 <= i < names.len(),
        entry.0@ == names[i].0@,
    ensures
        names_map(names.update(i, entry)) == names_map(names).insert(entry.0@, entry.1@),
    decreases names.len(),
{
    let after = names.update(i, entry);
    let front = names.drop_last();
    if i == names.len() - 1 {
        assert(after.drop_last() =~= front);
        assert(names_map(after) =~= names_map(names).insert(entry.0@, entry.1@));
    } else {
        assert forall|a: int, b: int| 0 <= a < b < front.len() implies (#[trigger] front[a]).0@
            != (#[trigger] front[b]).0@ by {
            assert(front[a] == names[a]);
            assert(front[b] == names[b]);
        }
        assert(front[i] == names[i]);
        lemma_names_map_update(front, i, entry);
        assert(after.drop_last() =~= front.update(i, entry));
        assert(after.last() == names.last());
        assert(names[i].0@ != names[names.len() - 1].0@);
        assert(names_map(after) =~= names_map(names).insert(entry.0@, entry.1@));
    }
}

/// Lets `name` name `what`, in place of what it named before.
pub fn put_name(names: &mut Names, name: String, what: String)
    requires
        names_differ(old(names)@),
    ensures
        names_differ(final(names)@),
        names_map(final(names)@) == names_map(old(names)@).insert(name@, what@),
{
    let mut i: usize = 0;
    while i < names.len()
        invariant
            i <= names@.len(),
            *names == *old(names),
            names_differ(names@),
            forall|k: int| 0 <= k < i ==> (#[trigger] names@[k]).0@ != name@,
        decreases names@.len() - i,
    {
        if names[i].0 == name {
            proof {
                lemma_names_map_update(names@, i as int, (name, what));
            }
            names[i] = (name, what);
            return ;
        }
        i += 1;
    }
    names.push((name, what));
    proof {
        assert(names@.drop_last() =~= old(names)@);
    }
}

/// What is needed to parse an enum from a string: whether letter case
/// counts, the enum's name, and the variant that each string names.
#[derive(Debug)]
pub struct FromStrImpl {
    pub nocase: bool,
    pub enum_name: String,
    pub variants: Names,
}

/// A variant in plain values: its name, whether it is without fields, and
/// what its attributes say of it.
pub type Listed = (Seq<char>, bool, Said);

impl<'a> Enum<'a> {
    /// The variants in plain values.
    pub open spec fn roster(self) -> Seq<Listed> {
        Seq::new(
            self.variants@.len(),
            |i: int| (self.variants@[i].0.ident@, self.variants@[i].0.unit, self.variants@[i].1.said()),
        )
    }
}

impl DeriveInput {
    /// The variants in plain values.
    pub open spec fn roster(self) -> Seq<Listed> {
        Seq::new(
            self.variants().len(),
            |i: int| (self.variants()[i].ident@, self.variants()[i].unit, self.said_of(i)),
        )
    }
}

/// The string that names a variant in the first place: its new name where it
/// is renamed, else its own name under the enum's rule, else its own name.
pub open spec fn primary_name(variant: Listed, rule: Option<RenameRule>) -> Seq<char> {
    match variant.2.rename {
        Some(name) => name,
        None => match rule {
            Some(rule) => renamed_variant(rule, variant.0),
            None => variant.0,
        },
    }
}

/// Whether `name` is a string that names the variant: its primary name or
/// one of its aliases.
pub open spec fn claims(variant: Listed, rule: Option<RenameRule>, name: Seq<char>) -> bool {
    name == primary_name(variant, rule) || variant.2.aliases.contains(name)
}

/// The strings that name the first `n` variants, each with the variant that
/// it names: a variant that is not skipped has its primary name and its
/// aliases, and where two variants claim one string the later variant has it.
pub open spec fn variant_names(roster: Seq<Listed>, rule: Option<RenameRule>, n: nat) -> Map<
    Seq<char>,
    Seq<char>,
>
    decreases n,
{
    if n == 0 {
        Map::empty()
    } else {
        let variant = roster[n - 1];
        let before = variant_names(roster, rule, (n - 1) as nat);
        if variant.2.skip {
            before
        } else {
            Map::new(
                |name: Seq<char>| before.contains_key(name) || claims(variant, rule, name),
                |name: Seq<char>|
                    if claims(variant, rule, name) {
                        variant.0
                    } else {
                        before[name]
                    },
            )
        }
    }
}

/// How many of the first `n` variants are not skipped and yet have fields.
pub open spec fn fields_among(roster: Seq<Listed>, n: nat) -> nat
    decreases n,
{
    if n == 0 {
        0
    } else if !roster[n - 1].2.skip && !roster[n - 1].1 {
        fields_among(roster, (n - 1) as nat) + 1
    } else {
        fields_among(roster, (n - 1) as nat)
    }
}

/// Whether the enum's rule can be applied to every variant that it is
/// applied to: those neither skipped nor renamed.
pub open spec fn renamable(roster: Seq<Listed>, rule: Option<RenameRule>) -> bool {
    forall|i: int|
        0 <= i < roster.len() && !(#[trigger] roster[i]).2.skip && roster[i].2.rename.is_none()
            ==> match rule {
            Some(rule) => can_rename(rule, roster[i].0),
            None => true,
        }
}

impl FromStrImpl {
    /// Collects the strings that name the variants of `e`. A variant that is
    /// not skipped may not have fields: each that has is reported.
    pub fn of_enum(e: &Enum) -> (r: Result<Self, Vec<Problem>>)
        requires
            renamable(e.roster(), e.attrs.rename_rule),
        ensures
            match r {
                Ok(f) => fields_among(e.roster(), e.roster().len()) == 0 && f.nocase
                    == e.attrs.nocase && f.enum_name == *e.name && names_differ(f.variants@)
                    && names_map(f.variants@) == variant_names(
                    e.roster(),
                    e.attrs.rename_rule,
                    e.roster().len(),
                ),
                Err(errors) => errors@.len() > 0 && errors@.len() == fields_among(
                    e.roster(),
                    e.roster().len(),
                ) && forall|i: int|
                    0 <= i < errors@.len() ==> #[trigger] errors@[i] == Problem::UnskippedFields,
            },
    {
        let mut errors: Vec<Problem> = Vec::new();
        let mut name_map: Names = Vec::new();
        let ghost roster = e.roster();
        let ghost rule = e.attrs.rename_rule;
        let mut i: usize = 0;
        while i < e.variants.len()
            invariant
                i <= e.variants@.len(),
                roster == e.roster(),
                rule == e.attrs.rename_rule,
                renamable(roster, rule),
                errors@.len() == fields_among(roster, i as nat),
                forall|k: int|
                    0 <= k < errors@.len() ==> #[trigger] errors@[k] == Problem::UnskippedFields,
                names_differ(name_map@),
                names_map(name_map@) == variant_names(roster, rule, i as nat),
            decreases e.variants@.len() - i,
        {
            let (v, attrs) = &e.variants[i];
            let ghost listed = roster[i as int];
            let ghost before = names_map(name_map@);
            assert(listed == (v.ident@, v.unit, attrs.said()));
            i += 1;
            if attrs.skip {
                continue ;
            }
            if !v.unit {
                errors.push(Problem::UnskippedFields);
            }
            let name = match &attrs.rename {
                Some(name) => name.clone(),
                None => match &e.attrs.rename_rule {
                    Some(rule) => rule.apply_to_variant(v.ident.as_str()),
                    None => v.ident.clone(),
                },
            };
            assert(name@ == primary_name(listed, rule));
            put_name(&mut name_map, name, v.ident.clone());
            let mut k: usize = 0;
            while k < attrs.aliases.len()
                invariant
                    k <= attrs.aliases@.len(),
                    names_differ(name_map@),
                    forall|text: Seq<char>|
                        #![trigger names_map(name_map@).dom().contains(text)]
                        #![trigger names_map(name_map@)[text]]
                        {
                            let mine = text == primary_name(listed, rule) || exists|j: int|
                                0 <= j < k && (#[trigger] attrs.aliases@[j])@ == text;
                            &&& names_map(name_map@).dom().contains(text) == (before.dom().contains(
                                text,
                            ) || mine)
                            &&& names_map(name_map@)[text] == (if mine {
                                v.ident@
                            } else {
                                before[text]
                            })
                        },
                decreases attrs.aliases@.len() - k,
            {
                put_name(&mut name_map, attrs.aliases[k].clone(), v.ident.clone());
                k += 1;
            }
            proof {
                assert forall|text: Seq<char>| names_hold(attrs.aliases@, text) == (exists|j: int|
                    0 <= j < k && (#[trigger] attrs.aliases@[j])@ == text) by {}
                assert(names_map(name_map@) =~= variant_names(roster, rule, i as nat));
            }
        }
        if !errors.is_empty() {
            return Err(errors);
        }
        Ok(FromStrImpl { nocase: e.attrs.nocase, enum_name: e.name.clone(), variants: name_map })
    }

    /// Reads a declaration and collects the strings that name its variants.
    /// Every problem of the declaration is reported, and so is, in a
    /// declaration without problems, each variant that is not skipped and has
    /// fields.
    pub fn parse(input: &DeriveInput) -> (r: Result<Self, Vec<Problem>>)
        requires
            input.discriminants_fit(),
            renamable(input.roster(), input.said().rename_rule),
        ensures
            match r {
                Ok(f) => input.data is Enum && input.problems().len() == 0 && fields_among(
                    input.roster(),
                    input.roster().len(),
                ) == 0 && f.nocase == input.said().nocase && f.enum_name == input.ident
                    && names_differ(f.variants@) && names_map(f.variants@) == variant_names(
                    input.roster(),
                    input.said().rename_rule,
                    input.roster().len(),
                ),
                Err(errors) => if !(input.data is Enum) {
                    errors@ == seq![Problem::NotAnEnum]
                } else if input.problems().len() > 0 {
                    errors@ == input.problems()
                } else {
                    errors@.len() > 0 && errors@.len() == fields_among(
                        input.roster(),
                        input.roster().len(),
                    ) && forall|i: int|
                        0 <= i < errors@.len() ==> #[trigger] errors@[i]
                            == Problem::UnskippedFields
                },
            },
    {
        let e = match Enum::parse(input) {
            Ok(e) => e,
            Err(errors) => {
                return Err(errors);
            },
        };
        proof {
            assert(e.roster() =~= input.roster());
        }
        FromStrImpl::of_enum(&e)
    }
}

/// Whether `atoms` holds, under the bytes of each name of `names`, what the
/// name names, and nothing else.
pub open spec fn names_in_bytes(
    names: Map<Seq<char>, Seq<char>>,
    atoms: Map<Seq<u8>, String>,
) -> bool {
    forall|key: Seq<u8>|
        #![trigger atoms.dom().contains(key)]
        {
            &&& atoms.dom().contains(key) == (valid_utf8(key) && names.contains_key(
                decode_utf8(key),
            ))
            &&& atoms.dom().contains(key) ==> atoms[key]@ == names[decode_utf8(key)]
        }
}

impl FromStrImpl {
    /// The case that the lookup function works in.
    pub open spec fn case(self) -> Case {
        if self.nocase {
            Case::Insensitive
        } else {
            Case::Sensitive
        }
    }

    /// The lookup function `_parse`, which finds for the bytes of each name
    /// the variant that it names.
    pub fn lookup_func(self) -> (f: StrMapFunc<String>)
        requires
            names_differ(self.variants@),
        ensures
            f.well_formed(),
            f.func_name@ == "_parse"@,
            f.ret_ty@ == self.enum_name@,
            f.case == self.case(),
            names_in_bytes(names_map(self.variants@), f.atoms@),
    {
        let mut trie: StrMapFunc<String> = StrMapFunc::new("_parse", self.enum_name.as_str());
        let case = if self.nocase {
            Case::Insensitive
        } else {
            Case::Sensitive
        };
        trie.case(case);
        let ghost all = self.variants@;
        let ghost mut done: int = 0;
        for pair in it: self.variants
            invariant
                it.seq() == all,
                done == it.index(),
                0 <= done <= all.len(),
                names_differ(all),
                trie.well_formed(),
                trie.func_name@ == "_parse"@,
                trie.ret_ty@ == self.enum_name@,
                trie.case == case,
                forall|key: Seq<u8>|
                    #![trigger trie.atoms@.dom().contains(key)]
                    trie.atoms@.dom().contains(key) <==> exists|j: int|
                        0 <= j < done && encode_utf8((#[trigger] all[j]).0@) == key,
                forall|j: int|
                    0 <= j < done ==> trie.atoms@[encode_utf8((#[trigger] all[j]).0@)] == all[j].1,
        {
            let (alias, variant) = pair;
            let ghost before = trie.atoms@;
            trie.entry(alias.as_str(), variant);
            proof {
                assert(all[done] == (alias, variant));
                assert(trie.atoms@ == before.insert(encode_utf8(alias@), variant));
                assert forall|j: int| 0 <= j < done implies encode_utf8((#[trigger] all[j]).0@)
                    != encode_utf8(alias@) by {
                    encode_utf8_decode_utf8(all[j].0@);
                    encode_utf8_decode_utf8(alias@);
                    assert(all[j].0@ != all[done].0@);
                }
                assert forall|key: Seq<u8>|
                    #![trigger trie.atoms@.dom().contains(key)]
                    trie.atoms@.dom().contains(key) <==> exists|j: int|
                        0 <= j < done + 1 && encode_utf8((#[trigger] all[j]).0@) == key by {
                    if before.dom().contains(key) {
                        let j = choose|j: int|
                            0 <= j < done && encode_utf8((#[trigger] all[j]).0@) == key;
                        assert(0 <= j < done + 1);
                    }
                    if key == encode_utf8(alias@) {
                        assert(encode_utf8(all[done].0@) == key);
                    }
                }
                done = done + 1;
            }
        }
        proof {
            let names = names_map(all);
            assert forall|key: Seq<u8>|
                #![trigger trie.atoms@.dom().contains(key)]
                {
                    &&& trie.atoms@.dom().contains(key) == (valid_utf8(key) && names.contains_key(
                        decode_utf8(key),
                    ))
                    &&& trie.atoms@.dom().contains(key) ==> trie.atoms@[key]@
                        == names[decode_utf8(key)]
                } by {
                if trie.atoms@.dom().contains(key) {
                    let j = choose|j: int|
                        0 <= j < done && encode_utf8((#[trigger] all[j]).0@) == key;
                    encode_utf8_valid_utf8(all[j].0@);
                    encode_utf8_decode_utf8(all[j].0@);
                    lemma_names_map_holds(all, j);
                }
                if valid_utf8(key) && names.contains_key(decode_utf8(key)) {
                    if forall|j: int| 0 <= j < all.len() ==> (#[trigger] all[j]).0@ != decode_utf8(
                        key,
                    ) {
                        lemma_names_map_lacks(all, decode_utf8(key));
                    }
                    let j = choose|j: int|
                        0 <= j < all.len() && (#[trigger] all[j]).0@ == decode_utf8(key);
                    decode_utf8_encode_utf8(key);
                    assert(encode_utf8(all[j].0@) == key);
                }
            }
        }
        trie
    }
}

/// Reads a declaration and builds the lookup function that parses the enum
/// from a string.
pub fn derive(input: &DeriveInput) -> (r: Result<StrMapFunc<String>, Vec<Problem>>)
    requires
        input.discriminants_fit(),
        renamable(input.roster(), input.said().rename_rule),
    ensures
        match r {
            Ok(f) => input.data is Enum && input.problems().len() == 0 && fields_among(
                input.roster(),
                input.roster().len(),
            ) == 0 && f.well_formed() && f.func_name@ == "_parse"@ && f.ret_ty@ == input.ident@
                && f.case == (if input.said().nocase {
                Case::Insensitive
            } else {
                Case::Sensitive
            }) && names_in_bytes(
                variant_names(input.roster(), input.said().rename_rule, input.roster().len()),
                f.atoms@,
            ),
            Err(errors) => if !(input.data is Enum) {
                errors@ == seq![Problem::NotAnEnum]
            } else if input.problems().len() > 0 {
                errors@ == input.problems()
            } else {
                errors@.len() > 0 && errors@.len() == fields_among(
                    input.roster(),
                    input.roster().len(),
                ) && forall|i: int|
                    0 <= i < errors@.len() ==> #[trigger] errors@[i] == Problem::UnskippedFields
            },
        },
{
    match FromStrImpl::parse(input) {
        Ok(imp) => Ok(imp.lookup_func()),
        Err(errors) => Err(errors),
    }
}

} // verus!
