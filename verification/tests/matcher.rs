use enum_utils::decision::{bytes_agree, to_lower, Branch, ByteTest, Case};
use enum_utils::forest::Forest;
use enum_utils::str_map::StrMapFunc;
use enum_utils::trie::Node;

fn yes_yep_no() -> StrMapFunc<bool> {
    let mut func = StrMapFunc::new("custom_lookup", "bool");
    func.entries(vec![("yes", true), ("yep", true), ("no", false)]);
    func
}

#[test]
fn compiled_yes_yep_no() {
    let func = yes_yep_no();
    let matcher = func.compile();
    assert_eq!(matcher.lookup(b"yes"), Some(&true));
    assert_eq!(matcher.lookup(b"yep"), Some(&true));
    assert_eq!(matcher.lookup(b"no"), Some(&false));
    assert_eq!(matcher.lookup(b"y"), None);
    assert_eq!(matcher.lookup(b"ye"), None);
    assert_eq!(matcher.lookup(b"yesno"), None);
    assert_eq!(matcher.lookup(b""), None);
    assert_eq!(matcher.lookup(b"yeq"), None);
    assert_eq!(matcher.lookup(b"No"), None);
}

#[test]
fn builder_keeps_its_names_and_case() {
    let mut func: StrMapFunc<u8> = StrMapFunc::new("custom_lookup", "bool");
    assert_eq!(func.func_name, "custom_lookup");
    assert_eq!(func.ret_ty, "bool");
    assert_eq!(func.case, Case::Sensitive);
    func.case(Case::Insensitive).entry("a", 1).entry("b", 2);
    assert_eq!(func.case, Case::Insensitive);
    assert_eq!(func.atoms.get(b"a"), Some(&1));
    assert_eq!(func.atoms.get(b"b"), Some(&2));
    assert_eq!(func.compile().case, Case::Insensitive);
}

#[test]
fn compiled_shape_of_yes_yep_no() {
    let func = yes_yep_no();
    let matcher = func.compile();
    let lengths: Vec<usize> = matcher.arms.keys().copied().collect();
    assert_eq!(lengths, vec![2, 3]);

    let two = &matcher.arms[&2];
    assert!(two.tests.is_empty());
    assert_eq!(two.found, None);
    assert_eq!(two.inner.len(), 1);
    let no = &two.inner[0];
    assert_eq!(
        no.tests,
        vec![ByteTest { index: 0, byte: b'n' }, ByteTest { index: 1, byte: b'o' }]
    );
    assert_eq!(no.found, Some(&false));
    assert!(no.inner.is_empty());

    let three = &matcher.arms[&3];
    assert!(three.tests.is_empty());
    assert_eq!(three.inner.len(), 1);
    let ye = &three.inner[0];
    assert_eq!(
        ye.tests,
        vec![ByteTest { index: 0, byte: b'y' }, ByteTest { index: 1, byte: b'e' }]
    );
    assert_eq!(ye.found, None);
    assert_eq!(ye.inner.len(), 2);
    assert_eq!(ye.inner[0].tests, vec![ByteTest { index: 2, byte: b'p' }]);
    assert_eq!(ye.inner[0].found, Some(&true));
    assert_eq!(ye.inner[1].tests, vec![ByteTest { index: 2, byte: b's' }]);
    assert_eq!(ye.inner[1].found, Some(&true));
}

#[test]
fn prefix_keys_in_buckets() {
    let mut func = StrMapFunc::new("f", "u8");
    func.entries(vec![("abcd", 1), ("abcde", 2), ("abz", 3)]);
    let matcher = func.compile();
    for (query, expected) in [
        (&b"abc"[..], None),
        (&b"abcd"[..], Some(&1)),
        (&b"abcde"[..], Some(&2)),
        (&b"abz"[..], Some(&3)),
        (&b"aby"[..], None),
    ] {
        assert_eq!(func.atoms.get(query), expected);
        assert_eq!(matcher.lookup(query), expected);
    }
}

#[test]
fn case_insensitive_alpha() {
    let mut func = StrMapFunc::new("f", "u8");
    func.case(Case::Insensitive);
    func.entry("Alpha", 0);
    let matcher = func.compile();
    assert_eq!(matcher.lookup(b"ALPHA"), Some(&0));
    assert_eq!(matcher.lookup(b"alpha"), Some(&0));
    assert_eq!(matcher.lookup(b"Alpha"), Some(&0));
    assert_eq!(matcher.lookup(b"aLpHa"), Some(&0));
    assert_eq!(matcher.lookup(b"AlphaX"), None);
    assert_eq!(matcher.lookup(b"Alph"), None);
    assert_eq!(matcher.lookup(b"Alphb"), None);
}

#[test]
fn case_sensitive_by_default() {
    let mut func = StrMapFunc::new("f", "u8");
    func.entry("Alpha", 0);
    let matcher = func.compile();
    assert_eq!(matcher.lookup(b"Alpha"), Some(&0));
    assert_eq!(matcher.lookup(b"ALPHA"), None);
    assert_eq!(matcher.lookup(b"alpha"), None);
}

#[test]
fn case_folding_touches_ascii_letters_only() {
    assert_eq!(to_lower(b'A'), b'a');
    assert_eq!(to_lower(b'Z'), b'z');
    assert_eq!(to_lower(b'a'), b'a');
    assert_eq!(to_lower(b'@'), b'@');
    assert_eq!(to_lower(b'['), b'[');
    assert_eq!(to_lower(0xC4), 0xC4);
    assert!(bytes_agree(b'q', b'Q', Case::Insensitive));
    assert!(!bytes_agree(b'q', b'Q', Case::Sensitive));
    assert!(!bytes_agree(b'@', b'`', Case::Insensitive));
    assert!(!bytes_agree(b'[', b'{', Case::Insensitive));

    let mut func = StrMapFunc::new("f", "u8");
    func.case(Case::Insensitive);
    func.entry("a[b", 1);
    let matcher = func.compile();
    assert_eq!(matcher.lookup(b"A[B"), Some(&1));
    assert_eq!(matcher.lookup(b"a{b"), None);
}

#[test]
fn reinsert_through_the_builder() {
    let mut func = yes_yep_no();
    func.entry("no", true);
    assert_eq!(func.atoms.get(b"no"), Some(&true));
    assert_eq!(func.compile().lookup(b"no"), Some(&true));
    assert_eq!(func.compile().lookup(b"yes"), Some(&true));
}

#[test]
fn last_entry_wins() {
    let mut func = StrMapFunc::new("f", "u8");
    func.entries(vec![("k", 1), ("other", 9), ("k", 2), ("k", 3)]);
    assert_eq!(func.atoms.get(b"k"), Some(&3));
    assert_eq!(func.compile().lookup(b"k"), Some(&3));
    assert_eq!(func.compile().lookup(b"other"), Some(&9));
}

#[test]
fn empty_builder_matches_nothing() {
    let func: StrMapFunc<u8> = StrMapFunc::new("f", "u8");
    let matcher = func.compile();
    assert!(matcher.arms.is_empty());
    assert_eq!(matcher.lookup(b""), None);
    assert_eq!(matcher.lookup(b"a"), None);
    assert_eq!(matcher.lookup(b"some longer query"), None);
}

#[test]
fn empty_key_is_found_by_the_matcher() {
    let mut func = StrMapFunc::new("f", "u8");
    func.entry("", 5);
    let matcher = func.compile();
    assert_eq!(matcher.lookup(b""), Some(&5));
    assert_eq!(matcher.lookup(b"a"), None);
}

fn sample_keys() -> Vec<&'static str> {
    vec![
        "GET", "PUT", "POST", "HEAD", "PATCH", "TRACE", "DELETE", "OPTIONS", "CONNECT", "get",
        "Get", "po", "p", "", "optionS", "DELETED", "PATCHY", "PAT",
    ]
}

#[test]
fn matcher_agrees_with_lookup_on_keys_mutations_and_neighbours() {
    let keys = sample_keys();
    let mut func = StrMapFunc::new("f", "usize");
    for (i, key) in keys.iter().enumerate() {
        func.entry(key, i);
    }
    let matcher = func.compile();
    for (i, key) in keys.iter().enumerate() {
        let bytes = key.as_bytes();
        assert_eq!(func.atoms.get(bytes), Some(&i));
        assert_eq!(matcher.lookup(bytes), Some(&i));
        for at in 0..bytes.len() {
            for byte in [0u8, b'A', b'a', b'T', b'E', 0xff] {
                let mut mutated = bytes.to_vec();
                mutated[at] = byte;
                assert_eq!(matcher.lookup(&mutated), func.atoms.get(&mutated));
            }
            assert_eq!(matcher.lookup(&bytes[..at]), func.atoms.get(&bytes[..at]));
        }
        for byte in [0u8, b'S', b'Y', b'D'] {
            let mut longer = bytes.to_vec();
            longer.push(byte);
            assert_eq!(matcher.lookup(&longer), func.atoms.get(&longer));
        }
    }
}

#[test]
fn order_of_insertion_does_not_change_answers() {
    let keys = sample_keys();
    let mut forward = Forest::default();
    for (i, key) in keys.iter().enumerate() {
        forward.insert(key.as_bytes(), i);
    }
    let mut backward = Forest::default();
    for (i, key) in keys.iter().enumerate().rev() {
        backward.insert(key.as_bytes(), i);
    }
    let mut queries: Vec<Vec<u8>> = keys.iter().map(|k| k.as_bytes().to_vec()).collect();
    queries.extend([b"GE".to_vec(), b"GETS".to_vec(), b"x".to_vec(), b"POSt".to_vec()]);
    for query in &queries {
        assert_eq!(forward.get(query), backward.get(query));
    }
}

#[test]
fn branch_of_a_single_node() {
    let mut root = Node::default();
    root.insert(b"ab", 7u8);
    let branch = root.branch(0);
    assert!(branch.tests.is_empty());
    assert_eq!(branch.inner.len(), 1);
    assert!(branch.inner[0].test(b"ab", Case::Sensitive));
    assert!(!branch.inner[0].test(b"aB", Case::Sensitive));
    assert!(branch.inner[0].test(b"aB", Case::Insensitive));
    assert!(!branch.inner[0].test(b"a", Case::Sensitive));
    assert_eq!(branch.run(b"ab", Case::Sensitive), Some(&7));
    assert_eq!(branch.run(b"AB", Case::Sensitive), None);
    assert_eq!(branch.run(b"AB", Case::Insensitive), Some(&7));
}

#[test]
fn branch_at_a_depth_tests_later_positions() {
    let mut root = Node::default();
    root.insert(b"xy", 1u8);
    let branch = root.branch(3);
    assert_eq!(
        branch.inner[0].tests,
        vec![ByteTest { index: 3, byte: b'x' }, ByteTest { index: 4, byte: b'y' }]
    );
    assert_eq!(branch.run(b"___xy", Case::Sensitive), Some(&1));
    assert_eq!(branch.run(b"xy", Case::Sensitive), None);
}

#[test]
fn first_accepting_sibling_decides() {
    let one = 1u8;
    let two = 2u8;
    let branch = Branch {
        tests: vec![],
        found: None,
        inner: vec![
            Branch { tests: vec![ByteTest { index: 0, byte: b'A' }], found: Some(&one), inner: vec![] },
            Branch { tests: vec![ByteTest { index: 0, byte: b'a' }], found: Some(&two), inner: vec![] },
        ],
    };
    assert_eq!(branch.run(b"a", Case::Sensitive), Some(&2));
    assert_eq!(branch.run(b"A", Case::Sensitive), Some(&1));
    assert_eq!(branch.run(b"a", Case::Insensitive), Some(&1));
    assert_eq!(branch.run(b"b", Case::Insensitive), None);
    assert_eq!(branch.run(b"", Case::Insensitive), None);
}

#[test]
fn keys_that_differ_in_case_only_shadow_each_other() {
    let mut func = StrMapFunc::new("f", "u8");
    func.case(Case::Insensitive);
    func.entries(vec![("Ab", 1), ("aB", 2)]);
    assert!(!func.atoms.is_case_separated());
    let matcher = func.compile();
    assert_eq!(matcher.lookup(b"Ab"), Some(&1));
    assert_eq!(matcher.lookup(b"aB"), Some(&1));
    assert_eq!(matcher.lookup(b"ab"), Some(&1));
    assert_eq!(func.atoms.get(b"aB"), Some(&2));
}

#[test]
fn consistent_case_finds_every_spelling() {
    let keys = ["Alpha", "Aleph", "Beta!", "Gamma", "GET", "Put", "post", "Alps"];
    let mut func = StrMapFunc::new("f", "usize");
    func.case(Case::Insensitive);
    for (i, key) in keys.iter().enumerate() {
        func.entry(key, i);
    }
    assert!(func.atoms.is_well_formed());
    assert!(func.atoms.is_case_separated());
    let matcher = func.compile();
    for (i, key) in keys.iter().enumerate() {
        assert_eq!(matcher.lookup(key.as_bytes()), Some(&i));
        assert_eq!(matcher.lookup(key.to_ascii_uppercase().as_bytes()), Some(&i));
        assert_eq!(matcher.lookup(key.to_ascii_lowercase().as_bytes()), Some(&i));
    }
    assert_eq!(matcher.lookup(b"alphx"), None);
    assert_eq!(matcher.lookup(b"BETA?"), None);
}

fn largest<T>(branch: &Branch<'_, T>) -> Option<usize> {
    let own = branch.tests.iter().map(|t| t.index).max();
    branch.inner.iter().filter_map(largest).chain(own).max()
}

#[test]
fn compiled_tests_stay_within_the_query() {
    let mut func = StrMapFunc::new("f", "usize");
    for (i, key) in sample_keys().iter().enumerate() {
        func.entry(key, i);
    }
    let matcher = func.compile();
    for (len, branch) in &matcher.arms {
        if let Some(index) = largest(branch) {
            assert!(index < *len);
        }
    }
}
