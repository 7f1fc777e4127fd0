use boggler::charset::{CharsetMap, EnglishAlpha, EnglishAlphaMap};
use boggler::node::{PrefixLeaf, PrefixNode};
use boggler::trie::Prefixes;

#[test]
fn test_node_kinds() {
    let leaf = PrefixNode::<EnglishAlpha>::leaf(7);
    assert!(leaf.is_leaf());
    assert!(!leaf.is_branch());
    assert_eq!(leaf.word(), Some(7));

    let branch = PrefixNode::<EnglishAlpha>::branch();
    assert!(branch.is_branch());
    assert!(!branch.is_leaf());
    assert_eq!(branch.word(), None);
}

#[test]
fn test_node_children() {
    let mut node = PrefixNode::<EnglishAlpha>::branch();
    assert_eq!(node.child(0), None);
    node.children_mut().insert(0, 5);
    node.children_mut().insert(25, 9);
    assert_eq!(node.child(0), Some(5));
    assert_eq!(node.child(25), Some(9));
    assert_eq!(node.child(1), None);
    assert_eq!(node.children().get(0), Some(5));
}

#[test]
fn test_leaf_new() {
    let leaf = PrefixLeaf::<EnglishAlpha>::new(3);
    assert_eq!(leaf.word, 3);
    assert_eq!(leaf.children.get(0), None);
}

#[test]
fn test_charset_map() {
    let mut map = EnglishAlphaMap::empty();
    assert_eq!(map.get(4), None);
    map.insert(4, 11);
    assert_eq!(map.get(4), Some(11));
    assert_eq!(map.get(5), None);
    assert_eq!(map.get(200), None);

    let mut copy = EnglishAlphaMap::empty();
    copy.insert(0, 1);
    copy.copy_from(&map);
    assert_eq!(copy.get(0), None);
    assert_eq!(copy.get(4), Some(11));
}

#[test]
fn test_reconstructed_index_matches_built_one() {
    // the index for ["abc"], rebuilt node by node from literals, answers
    // queries exactly like the one built by bulk insertion
    let words = vec!["abc".to_string()];
    let built = Prefixes::<EnglishAlpha>::from_words(&words, 50);

    let mut arena = Vec::new();
    let mut root = PrefixNode::<EnglishAlpha>::branch();
    root.children_mut().insert(0, 1);
    arena.push(root);
    let mut n_a = PrefixNode::<EnglishAlpha>::branch();
    n_a.children_mut().insert(1, 2);
    arena.push(n_a);
    let mut n_b = PrefixNode::<EnglishAlpha>::branch();
    n_b.children_mut().insert(2, 3);
    arena.push(n_b);
    arena.push(PrefixNode::<EnglishAlpha>::leaf(0));

    let rebuilt = Prefixes::<EnglishAlpha>::default().with_root(0).with_arena(arena);

    assert_eq!(rebuilt.root_index(), built.root_index());
    assert_eq!(rebuilt.arena().len(), built.arena().len());
    for (codes, expected) in [
        (vec![0u8, 1, 2], Some(0)),
        (vec![0u8, 1], None),
        (vec![0u8], None),
    ] {
        let mut b = built.root().unwrap();
        let mut r = rebuilt.root().unwrap();
        for c in codes {
            b = b.child(c).unwrap();
            r = r.child(c).unwrap();
        }
        assert_eq!(b.word(), expected);
        assert_eq!(r.word(), expected);
    }
}
