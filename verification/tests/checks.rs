use enum_utils::bytes::differs_at;
use enum_utils::decision::ByteTest;
use enum_utils::dfs::{DfsIter, NodeRef, TraversalOrder};
use enum_utils::emit::Frame;
use enum_utils::forest::Forest;
use enum_utils::trie::Node;

fn leaf(label: &[u8], value: u8) -> Node<u8> {
    Node::new(label.to_vec(), Some(value))
}

#[test]
fn first_difference_of_byte_strings() {
    assert_eq!(differs_at(b"abc", b"abd"), Some(2));
    assert_eq!(differs_at(b"abc", b"abc"), None);
    assert_eq!(differs_at(b"abc", b"xbc"), Some(0));
    assert_eq!(differs_at(b"ab", b"abc"), None);
    assert_eq!(differs_at(b"abc", b"ab"), None);
    assert_eq!(differs_at(b"", b"abc"), None);
    assert_eq!(differs_at(b"", b""), None);
    assert_eq!(differs_at(b"aXc", b"aYcd"), Some(1));
}

#[test]
fn new_node_is_a_leaf() {
    let node = Node::new(b"abc".to_vec(), Some(3));
    assert_eq!(node.bytes, b"abc");
    assert_eq!(node.value, Some(3));
    assert!(node.children.is_empty());
    assert_eq!(node.get(b"abc"), Some(&3));
    assert_eq!(node.get(b"ab"), None);
    assert_eq!(node.get(b"abcd"), None);
}

#[test]
fn splitting_keeps_answers() {
    let mut node = leaf(b"abcd", 1);
    node.insert(b"abcdxy", 2);
    node.split_at(2);
    assert_eq!(node.bytes, b"ab");
    assert_eq!(node.value, None);
    assert_eq!(node.children.len(), 1);
    assert_eq!(node.children[0].bytes, b"cd");
    assert_eq!(node.children[0].value, Some(1));
    assert_eq!(node.children[0].children.len(), 1);
    assert_eq!(node.get(b"abcd"), Some(&1));
    assert_eq!(node.get(b"abcdxy"), Some(&2));
    assert_eq!(node.get(b"ab"), None);
    node.split_at(0);
    assert_eq!(node.bytes, b"");
    assert_eq!(node.children[0].bytes, b"ab");
    assert_eq!(node.get(b"abcd"), Some(&1));
}

#[test]
fn children_are_kept_in_byte_order() {
    let mut node: Node<u8> = Node::default();
    assert_eq!(node.add_child(leaf(b"m", 1)), 0);
    assert_eq!(node.add_child(leaf(b"a", 2)), 0);
    assert_eq!(node.add_child(leaf(b"z", 3)), 2);
    assert_eq!(node.add_child(leaf(b"n", 4)), 2);
    let firsts: Vec<u8> = node.children.iter().map(|c| c.bytes[0]).collect();
    assert_eq!(firsts, b"amnz");
    assert_eq!(node.find_child(b'n'), Some(2));
    assert_eq!(node.find_child(b'a'), Some(0));
    assert_eq!(node.find_child(b'b'), None);
    assert!(node.is_well_formed());

    let mut by_insert: Node<u8> = Node::default();
    for key in [&b"zeta"[..], b"alpha", b"mu", b"beta", b"\xffx", b"\x00y"] {
        by_insert.insert(key, 0);
    }
    let firsts: Vec<u8> = by_insert.children.iter().map(|c| c.bytes[0]).collect();
    assert_eq!(firsts, vec![0x00, b'a', b'b', b'm', b'z', 0xff]);
}

#[test]
fn insert_cuts_the_label_where_the_key_leaves_it() {
    let mut node = leaf(b"abc", 1);
    assert_eq!(node.insert(b"abd", 2), None);
    assert_eq!(node.bytes, b"ab");
    assert_eq!(node.value, None);
    assert_eq!(node.children.len(), 2);
    assert_eq!(node.children[0].bytes, b"c");
    assert_eq!(node.children[0].value, Some(1));
    assert_eq!(node.children[1].bytes, b"d");
    assert_eq!(node.children[1].value, Some(2));

    let mut node = leaf(b"abc", 1);
    assert_eq!(node.insert(b"ab", 2), None);
    assert_eq!(node.bytes, b"ab");
    assert_eq!(node.value, Some(2));
    assert_eq!(node.children.len(), 1);
    assert_eq!(node.children[0].bytes, b"c");
    assert_eq!(node.children[0].value, Some(1));

    let mut node = leaf(b"abc", 1);
    assert_eq!(node.insert(b"abc", 2), Some(1));
    assert_eq!(node.bytes, b"abc");
    assert_eq!(node.value, Some(2));
    assert!(node.children.is_empty());

    let mut node = leaf(b"abc", 1);
    assert_eq!(node.insert(b"xyz", 2), None);
    assert_eq!(node.bytes, b"");
    assert_eq!(node.children[0].bytes, b"abc");
    assert_eq!(node.children[1].bytes, b"xyz");

    let mut node = leaf(b"b", 1);
    assert_eq!(node.insert(b"a", 2), None);
    assert_eq!(node.children[0].bytes, b"a");
    assert_eq!(node.children[1].bytes, b"b");
}

#[test]
fn well_formed_tries_are_recognised() {
    let mut node: Node<u8> = Node::default();
    assert!(node.is_well_formed());
    node.insert(b"abcd", 1);
    node.insert(b"abcz", 2);
    assert!(node.is_well_formed());
    assert!(node.holds_length(4));
    assert!(!node.holds_length(3));
    assert!(!node.holds_length(5));

    let unsorted = Node { bytes: vec![], children: vec![leaf(b"b", 1), leaf(b"a", 2)], value: None };
    assert!(!unsorted.is_well_formed());
    let twice = Node { bytes: vec![], children: vec![leaf(b"a", 1), leaf(b"a", 2)], value: None };
    assert!(!twice.is_well_formed());
    let hollow = Node { bytes: vec![], children: vec![leaf(b"", 1)], value: None };
    assert!(!hollow.is_well_formed());
    let deep = Node { bytes: b"x".to_vec(), children: vec![unsorted], value: None };
    assert!(!deep.is_well_formed());

    let mixed = Node { bytes: vec![], children: vec![leaf(b"a", 1), leaf(b"bc", 2)], value: None };
    assert!(mixed.is_well_formed());
    assert!(!mixed.holds_length(1));
    assert!(!mixed.holds_length(2));
    let early = Node { bytes: b"a".to_vec(), children: vec![leaf(b"b", 2)], value: Some(1) };
    assert!(early.is_well_formed());
    assert!(!early.holds_length(2));
}

#[test]
fn well_formed_forests_are_recognised() {
    let mut forest: Forest<u8> = Forest::default();
    assert!(forest.is_well_formed());
    forest.insert(b"ab", 1);
    forest.insert(b"abc", 2);
    forest.insert(b"", 3);
    assert!(forest.is_well_formed());
    let under = |child: Node<u8>| Node { bytes: vec![], children: vec![child], value: None };
    forest.0.insert(7, under(leaf(b"short", 1)));
    assert!(!forest.is_well_formed());
    forest.0.insert(7, leaf(b"sevenby", 1));
    assert!(!forest.is_well_formed());
    forest.0.insert(7, under(leaf(b"sevenby", 1)));
    assert!(forest.is_well_formed());
    let link = Node { bytes: b"sev".to_vec(), children: vec![leaf(b"enby", 1)], value: None };
    forest.0.insert(7, under(link));
    assert!(!forest.is_well_formed());
}

#[test]
fn case_separation_is_recognised() {
    let mut forest: Forest<u8> = Forest::default();
    forest.insert(b"Alpha", 1);
    forest.insert(b"Beta!", 2);
    forest.insert(b"Alpine", 3);
    assert!(forest.is_case_separated());
    forest.insert(b"alpha", 4);
    assert!(!forest.is_case_separated());

    let mut node: Node<u8> = Node::default();
    node.insert(b"xA", 1);
    node.insert(b"xb", 2);
    assert!(node.is_case_separated());
    node.insert(b"xa", 3);
    assert!(!node.is_case_separated());

    let mut node: Node<u8> = Node::default();
    node.insert(b"@", 1);
    node.insert(b"`", 2);
    node.insert(b"[", 3);
    node.insert(b"{", 4);
    assert!(node.is_case_separated());
}

#[test]
fn traversal_step_by_step() {
    let mut trie = Node::default();
    trie.insert(b"ab", 1u8);
    trie.insert(b"ac", 2u8);
    let mut it = DfsIter::new(&trie);
    let mut seen: Vec<(TraversalOrder, Vec<u8>, Option<u8>)> = vec![];
    while let Some((order, node)) = it.next() {
        seen.push((order, node.bytes.to_vec(), node.value.copied()));
    }
    assert_eq!(
        seen,
        vec![
            (TraversalOrder::Pre, b"a".to_vec(), None),
            (TraversalOrder::Pre, b"b".to_vec(), Some(1)),
            (TraversalOrder::Post, b"b".to_vec(), Some(1)),
            (TraversalOrder::Pre, b"c".to_vec(), Some(2)),
            (TraversalOrder::Post, b"c".to_vec(), Some(2)),
            (TraversalOrder::Post, b"a".to_vec(), None),
            (TraversalOrder::Post, b"".to_vec(), None),
        ]
    );
    assert!(it.next().is_none());
    assert!(it.next().is_none());
}

#[test]
fn traversal_of_a_leaf() {
    let node = leaf(b"k", 9);
    let steps = node.dfs();
    assert_eq!(steps.len(), 2);
    assert_eq!(steps[0].0, TraversalOrder::Pre);
    assert_eq!(steps[1].0, TraversalOrder::Post);
    assert_eq!(steps[0].1.bytes, b"k");
    assert_eq!(steps[1].1.value, Some(&9));
    let seen = NodeRef::of(&node);
    assert_eq!(seen.bytes, b"k");
    assert_eq!(seen.value, Some(&9));
}

#[test]
fn branches_without_keys_are_recognised() {
    let empty: Node<u8> = Node::default();
    assert!(!empty.has_key());
    assert!(empty.is_thriving());

    let bare: Node<u8> = Node::new(b"x".to_vec(), None);
    assert!(!bare.has_key());
    let dead_end = Node { bytes: vec![], children: vec![bare], value: Some(1) };
    assert!(dead_end.is_well_formed());
    assert!(dead_end.has_key());
    assert!(!dead_end.is_thriving());

    let mut grown: Node<u8> = Node::default();
    grown.insert(b"abc", 1);
    grown.insert(b"abd", 2);
    grown.insert(b"x", 3);
    assert!(grown.has_key());
    assert!(grown.is_thriving());

    let mut forest: Forest<u8> = Forest::default();
    forest.insert(b"ab", 1);
    assert!(forest.is_well_formed());
    forest.0.insert(3, Node::default());
    assert!(!forest.is_well_formed());
    forest.0.remove(&3);
    forest.0.get_mut(&2).unwrap().children[0].children.push(Node::new(b"".to_vec(), None));
    assert!(!forest.is_well_formed());
}

#[test]
fn longest_path_is_measured() {
    let mut node: Node<u8> = Node::default();
    assert!(node.lies_within(0));
    node.insert(b"abc", 1);
    node.insert(b"abcdef", 2);
    node.insert(b"x", 3);
    assert!(node.lies_within(6));
    assert!(node.lies_within(usize::MAX));
    assert!(!node.lies_within(5));
    assert!(!node.lies_within(0));
}

#[test]
fn an_open_conditional_has_tests_and_value_only() {
    let mut node = leaf(b"ab", 4);
    node.insert(b"abc", 5);
    let frame = Frame::open(&node, 10);
    assert_eq!(frame.depth, 10);
    assert_eq!(frame.next, 0);
    assert_eq!(
        frame.branch.tests,
        vec![ByteTest { index: 10, byte: b'a' }, ByteTest { index: 11, byte: b'b' }]
    );
    assert_eq!(frame.branch.found, Some(&4));
    assert!(frame.branch.inner.is_empty());
}

#[test]
fn deep_tries_compile_without_deep_recursion() {
    let key = vec![b'a'; 20_000];
    let mut chain = Node { bytes: vec![b'a'], children: vec![], value: Some(0usize) };
    for depth in 1..20_000usize {
        chain = Node { bytes: vec![b'a'], children: vec![chain], value: Some(depth) };
    }
    let root = Node { bytes: vec![], children: vec![chain], value: None };
    let branch = root.branch(0);
    assert_eq!(branch.run(&key[..1], enum_utils::decision::Case::Sensitive), Some(&19_999));
    assert_eq!(root.get(&key), Some(&0));
    assert_eq!(root.get(&key[..3]), Some(&19_997));
    std::mem::forget(branch);
    std::mem::forget(root);
}

#[test]
fn compression_is_recognised() {
    let mut grown: Node<u8> = Node::default();
    for key in [&b"abcd"[..], b"abce", b"ab", b"x", b"abcdxyz"] {
        grown.insert(key, 0);
        assert!(grown.is_compressed());
    }
    let link = Node { bytes: b"a".to_vec(), children: vec![leaf(b"b", 1)], value: None };
    let chained = Node { bytes: vec![], children: vec![link], value: None };
    assert!(!chained.is_compressed());
    let bare: Node<u8> =
        Node { bytes: vec![], children: vec![Node::new(b"a".to_vec(), None)], value: None };
    assert!(!bare.is_compressed());
    let valued = Node { bytes: b"a".to_vec(), children: vec![leaf(b"b", 1)], value: Some(2) };
    assert!(Node { bytes: vec![], children: vec![valued], value: None }.is_compressed());
}
