use boggler::charset::{Charset, EnglishAlpha};
use boggler::trie::Prefixes;

fn owned(words: &[&str]) -> Vec<String> {
    words.iter().map(|w| w.to_string()).collect()
}

#[test]
fn test_from_words_simple() {
    let words = owned(&["testa", "testb", "testc"]);
    let prefixes = Prefixes::<EnglishAlpha>::from_words(&words, 50);

    let root = prefixes.root().unwrap();

    let ch_t = EnglishAlpha::to_prefix_char('t').unwrap();
    let ch_e = EnglishAlpha::to_prefix_char('e').unwrap();
    let ch_s = EnglishAlpha::to_prefix_char('s').unwrap();
    let ch_a = EnglishAlpha::to_prefix_char('a').unwrap();
    let ch_b = EnglishAlpha::to_prefix_char('b').unwrap();
    let ch_c = EnglishAlpha::to_prefix_char('c').unwrap();

    let n_t = root.child(ch_t).unwrap();
    let n_e = n_t.child(ch_e).unwrap();
    let n_s = n_e.child(ch_s).unwrap();
    let n_t = n_s.child(ch_t).unwrap();
    let n_a = n_t.child(ch_a).unwrap();
    let n_b = n_t.child(ch_b).unwrap();
    let n_c = n_t.child(ch_c).unwrap();

    assert_eq!(n_a.word(), Some(0));
    assert_eq!(n_b.word(), Some(1));
    assert_eq!(n_c.word(), Some(2));
}

#[test]
fn test_from_words_dictionary() {
    let mut words = vec![
        "apple", "apple", "queue", "quick", "it", "banana", "Banana", "door",
        "doors", "zebra",
    ];
    words.dedup();
    let words: Vec<String> = words.iter().map(|w| w.to_string()).collect();

    let prefixes = Prefixes::<EnglishAlpha>::from_words(&words, 50);

    'words: for (i, word) in words.iter().enumerate() {
        let trimmed = EnglishAlpha::trim_special_characters(word);
        if trimmed.len() < 3 || trimmed.len() > 50 {
            continue;
        }

        let mut node = prefixes.root().unwrap();

        for ch in trimmed.chars() {
            let prefix_ch = match EnglishAlpha::to_prefix_char(ch) {
                Some(ch) => ch,
                None => continue 'words,
            };

            node = node.child(prefix_ch).unwrap_or_else(|| {
                panic!("Missing character node `{ch}` for word `{word}`@{i}")
            });
        }

        if node.word() != Some(i) {
            println!(
                "Expected leaf node for word `{word}`@{i}, got {:?}",
                node.word()
            );
        }
    }
}

#[test]
fn test_from_words() {
    let words = owned(&["", "", ""]);
    let prefixes = Prefixes::<EnglishAlpha>::from_words(&words, 50);
    assert_eq!(prefixes.root_index(), None);
    assert!(prefixes.arena().is_empty());
}

#[test]
fn test_promotion_keeps_children() {
    // "cats" first: the path c-a-t exists as branches; inserting "cat" then
    // promotes the t node to a leaf that keeps its child s.
    let words = owned(&["cats", "cat"]);
    let prefixes = Prefixes::<EnglishAlpha>::from_words(&words, 50);

    let ch_c = EnglishAlpha::to_prefix_char('c').unwrap();
    let ch_a = EnglishAlpha::to_prefix_char('a').unwrap();
    let ch_t = EnglishAlpha::to_prefix_char('t').unwrap();
    let ch_s = EnglishAlpha::to_prefix_char('s').unwrap();

    let root = prefixes.root().unwrap();
    let n_t = root.child(ch_c).unwrap().child(ch_a).unwrap().child(ch_t).unwrap();
    assert_eq!(n_t.word(), Some(1));
    let n_s = n_t.child(ch_s).unwrap();
    assert_eq!(n_s.word(), Some(0));
}

#[test]
fn test_branch_yields_no_word() {
    let words = owned(&["cats"]);
    let prefixes = Prefixes::<EnglishAlpha>::from_words(&words, 50);

    let ch_c = EnglishAlpha::to_prefix_char('c').unwrap();
    let ch_a = EnglishAlpha::to_prefix_char('a').unwrap();

    let root = prefixes.root().unwrap();
    assert_eq!(root.word(), None);
    let n_c = root.child(ch_c).unwrap();
    assert_eq!(n_c.word(), None);
    let n_a = n_c.child(ch_a).unwrap();
    assert_eq!(n_a.word(), None);
}

#[test]
fn test_non_adjacent_duplicate_is_shadowed() {
    // the later "abc" collides with the first leaf and its identifier is
    // discarded; only adjacent duplicates are skipped up front.
    let words = owned(&["abc", "abd", "abc"]);
    let prefixes = Prefixes::<EnglishAlpha>::from_words(&words, 50);

    let ch_a = EnglishAlpha::to_prefix_char('a').unwrap();
    let ch_b = EnglishAlpha::to_prefix_char('b').unwrap();
    let ch_c = EnglishAlpha::to_prefix_char('c').unwrap();
    let ch_d = EnglishAlpha::to_prefix_char('d').unwrap();

    let root = prefixes.root().unwrap();
    let n_ab = root.child(ch_a).unwrap().child(ch_b).unwrap();
    assert_eq!(n_ab.child(ch_c).unwrap().word(), Some(0));
    assert_eq!(n_ab.child(ch_d).unwrap().word(), Some(1));
}

#[test]
fn test_length_filter() {
    // too short and too long words are dropped without error
    let words = owned(&["it", "abcdef"]);
    let prefixes = Prefixes::<EnglishAlpha>::from_words(&words, 5);
    assert_eq!(prefixes.root_index(), None);

    let words = owned(&["abcde"]);
    let prefixes = Prefixes::<EnglishAlpha>::from_words(&words, 5);
    assert!(prefixes.root_index().is_some());
}

#[test]
fn test_qu_collapses() {
    // "queen" normalizes to "qeen": the board-side q tile stands for qu
    let words = owned(&["queen"]);
    let prefixes = Prefixes::<EnglishAlpha>::from_words(&words, 50);

    let ch_q = EnglishAlpha::to_prefix_char('q').unwrap();
    let ch_e = EnglishAlpha::to_prefix_char('e').unwrap();
    let ch_n = EnglishAlpha::to_prefix_char('n').unwrap();

    let root = prefixes.root().unwrap();
    let n = root
        .child(ch_q).unwrap()
        .child(ch_e).unwrap()
        .child(ch_e).unwrap()
        .child(ch_n).unwrap();
    assert_eq!(n.word(), Some(0));
}

#[test]
fn test_trim_special_characters() {
    assert_eq!(EnglishAlpha::trim_special_characters("QUeen"), "qeen");
    assert_eq!(EnglishAlpha::trim_special_characters("Hello"), "hello");
    assert_eq!(EnglishAlpha::trim_special_characters("qu"), "q");
    assert_eq!(EnglishAlpha::trim_special_characters(""), "");
    assert_eq!(EnglishAlpha::trim_special_characters("aqua"), "aqa");
}

#[test]
fn test_to_prefix_char() {
    assert_eq!(EnglishAlpha::to_prefix_char('a'), Some(0));
    assert_eq!(EnglishAlpha::to_prefix_char('A'), Some(0));
    assert_eq!(EnglishAlpha::to_prefix_char('z'), Some(25));
    assert_eq!(EnglishAlpha::to_prefix_char('Z'), Some(25));
    assert_eq!(EnglishAlpha::to_prefix_char('1'), None);
    assert_eq!(EnglishAlpha::to_prefix_char(' '), None);
}
