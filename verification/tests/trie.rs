use prefix_tree::Trie;
use prefix_tree::TrieNode;

#[test]
fn test_insert_and_search() {
    let mut trie = Trie::new();
    trie.insert("hello");
    trie.insert("world");

    assert!(trie.search("hello"));
    assert!(trie.search("world"));
    assert!(!trie.search("hell"));
    assert!(!trie.search("worlds"));
}

#[test]
fn test_starts_with() {
    let mut trie = Trie::new();
    trie.insert("hello");
    trie.insert("helium");

    assert!(trie.starts_with("he"));
    assert!(trie.starts_with("hel"));
    assert!(trie.starts_with("hello"));
    assert!(!trie.starts_with("hero"));
}

#[test]
fn empty_trie_has_no_word_and_only_the_empty_prefix() {
    let trie = Trie::new();
    assert!(!trie.search(""));
    assert!(!trie.search("a"));
    assert!(!trie.search("hello"));
    assert!(trie.starts_with(""));
    assert!(!trie.starts_with("a"));
    assert!(!trie.starts_with("hello"));
    assert!(!trie.root.is_end_of_word);
    assert_eq!(trie.root.children.len(), 0);
}

#[test]
fn default_trie_is_empty() {
    let trie = Trie::default();
    assert!(!trie.search(""));
    assert!(trie.starts_with(""));
    assert!(!trie.starts_with("x"));
    let node = TrieNode::default();
    assert!(!node.is_end_of_word);
    assert!(node.children.is_empty());
}

#[test]
fn inserted_word_is_found() {
    let words = ["a", "ab", "hello", "world", "zebra crossing", "x"];
    let mut trie = Trie::new();
    for w in words {
        trie.insert(w);
        assert!(trie.search(w));
    }
    for w in words {
        assert!(trie.search(w));
    }
}

#[test]
fn every_leading_part_of_an_inserted_word_is_a_prefix() {
    let mut trie = Trie::new();
    trie.insert("helium");
    for p in ["", "h", "he", "hel", "heli", "heliu", "helium"] {
        assert!(trie.starts_with(p));
    }
    assert!(!trie.starts_with("heliums"));
    assert!(!trie.starts_with("e"));
}

#[test]
fn inserting_a_word_leaves_other_words_as_they_were() {
    let mut trie = Trie::new();
    trie.insert("car");
    assert!(trie.search("car"));
    assert!(!trie.search("cart"));
    assert!(!trie.search("ca"));
    trie.insert("cart");
    assert!(trie.search("car"));
    assert!(trie.search("cart"));
    assert!(!trie.search("ca"));
    assert!(!trie.search("carts"));
    assert!(!trie.search("dog"));
}

#[test]
fn inserting_twice_is_inserting_once() {
    let mut once = Trie::new();
    once.insert("hello");
    let mut twice = Trie::new();
    twice.insert("hello");
    twice.insert("hello");
    for s in ["", "h", "hell", "hello", "hellos", "hero", "world"] {
        assert_eq!(once.search(s), twice.search(s));
        assert_eq!(once.starts_with(s), twice.starts_with(s));
    }
    assert_eq!(twice.root.children.len(), 1);
    let h = twice.root.children.get(&('h' as u32)).unwrap();
    assert_eq!(h.children.len(), 1);
    assert!(!h.is_end_of_word);
}

#[test]
fn proper_prefix_is_a_prefix_but_no_word() {
    let mut trie = Trie::new();
    trie.insert("hello");
    assert!(!trie.search("hell"));
    assert!(trie.starts_with("hell"));
    assert!(!trie.search("h"));
    assert!(trie.starts_with("h"));
}

#[test]
fn divergent_string_is_neither_word_nor_prefix() {
    let mut trie = Trie::new();
    trie.insert("hello");
    assert!(!trie.search("hero"));
    assert!(!trie.starts_with("hero"));
    assert!(!trie.search("help"));
    assert!(!trie.starts_with("help"));
}

#[test]
fn empty_word_ends_at_the_root() {
    let mut trie = Trie::new();
    trie.insert("");
    assert!(trie.search(""));
    assert!(trie.starts_with(""));
    assert!(trie.root.is_end_of_word);
    assert_eq!(trie.root.children.len(), 0);
    assert!(!trie.search("a"));
    assert!(!trie.starts_with("a"));
}

#[test]
fn empty_word_is_not_stored_by_other_words() {
    let mut trie = Trie::new();
    trie.insert("a");
    assert!(!trie.search(""));
    assert!(trie.starts_with(""));
    assert!(!trie.root.is_end_of_word);
}

#[test]
fn a_word_and_its_extension_are_both_stored() {
    let mut trie = Trie::new();
    trie.insert("hello");
    trie.insert("hell");
    assert!(trie.search("hell"));
    assert!(trie.search("hello"));
    assert!(!trie.search("hel"));
    assert!(trie.starts_with("hel"));
}

#[test]
fn words_are_case_sensitive() {
    let mut trie = Trie::new();
    trie.insert("Hello");
    assert!(trie.search("Hello"));
    assert!(!trie.search("hello"));
    assert!(!trie.starts_with("h"));
    assert!(trie.starts_with("H"));
}

#[test]
fn edges_are_whole_characters() {
    let mut trie = Trie::new();
    trie.insert("日本語");
    trie.insert("héllo");
    assert!(trie.search("日本語"));
    assert!(!trie.search("日本"));
    assert!(trie.starts_with("日本"));
    assert!(!trie.starts_with("日a"));
    assert!(trie.search("héllo"));
    assert!(!trie.search("hello"));
    assert!(trie.starts_with("hé"));
    assert!(!trie.starts_with("he"));
    assert_eq!(trie.root.children.len(), 2);
    assert!(trie.root.children.contains_key(&('日' as u32)));
    assert!(trie.root.children.contains_key(&0x68u32));
}

#[test]
fn siblings_share_their_common_path() {
    let mut trie = Trie::new();
    trie.insert("hello");
    trie.insert("helium");
    let h = trie.root.children.get(&('h' as u32)).unwrap();
    let e = h.children.get(&('e' as u32)).unwrap();
    let l = e.children.get(&('l' as u32)).unwrap();
    assert_eq!(trie.root.children.len(), 1);
    assert_eq!(h.children.len(), 1);
    assert_eq!(e.children.len(), 1);
    assert_eq!(l.children.len(), 2);
    assert!(l.children.contains_key(&('l' as u32)));
    assert!(l.children.contains_key(&('i' as u32)));
}
