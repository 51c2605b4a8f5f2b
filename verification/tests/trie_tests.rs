use trie_hard::trie::Trie;

fn owned(s: &str) -> String {
    s.to_string()
}

#[test]
fn round_trip_insert_get() {
    let mut t = Trie::new();
    t.insert("hello", &owned("world"));
    assert_eq!(t.get("hello"), Some(&owned("world")));
}

#[test]
fn round_trip_empty_key() {
    let mut t = Trie::new();
    t.insert("", &owned("root value"));
    assert_eq!(t.get(""), Some(&owned("root value")));
}

#[test]
fn get_missing_reports_not_found() {
    let mut t = Trie::new();
    assert_eq!(t.get("absent"), None);
    t.insert("abc", &owned("x"));
    assert_eq!(t.get("ab"), None);
    assert_eq!(t.get("abcd"), None);
    assert_eq!(t.get("b"), None);
}

#[test]
fn overwrite_keeps_latest_value() {
    let mut t = Trie::new();
    t.insert("key", &owned("first"));
    t.insert("key", &owned("second"));
    assert_eq!(t.get("key"), Some(&owned("second")));
}

#[test]
fn delete_removes_key() {
    let mut t = Trie::new();
    t.insert("gone", &owned("v"));
    t.delete("gone");
    assert_eq!(t.get("gone"), None);
}

#[test]
fn delete_prunes_fully() {
    let mut t = Trie::new();
    t.insert("onlykey", &owned("v"));
    t.delete("onlykey");
    let fresh = Trie::new();
    assert_eq!(format!("{:?}", t), format!("{:?}", fresh));
}

#[test]
fn delete_preserves_siblings() {
    let mut t = Trie::new();
    t.insert("cat", &owned("feline"));
    t.insert("car", &owned("vehicle"));
    t.delete("cat");
    assert_eq!(t.get("car"), Some(&owned("vehicle")));
    assert_eq!(t.get("cat"), None);
    assert!(t.prefix_search("ca"));
}

#[test]
fn delete_stops_at_valued_ancestor() {
    let mut t = Trie::new();
    t.insert("a", &owned("short"));
    t.insert("ab", &owned("long"));
    t.delete("ab");
    assert_eq!(t.get("a"), Some(&owned("short")));
    assert!(!t.prefix_search("ab"));
    assert!(t.prefix_search("a"));
}

#[test]
fn idempotent_delete_of_missing_key() {
    let mut t = Trie::new();
    t.insert("kept", &owned("v"));
    let before = format!("{:?}", t);
    t.delete("missing");
    t.delete("kept_not_there");
    assert_eq!(format!("{:?}", t), before);
    assert_eq!(t.get("kept"), Some(&owned("v")));
    assert!(t.prefix_search("ke"));
}

#[test]
fn prefix_search_monotone_along_prefixes() {
    let mut t = Trie::new();
    t.insert("apple", &owned("fruit"));
    assert!(t.prefix_search("appl"));
    assert!(t.prefix_search("app"));
    assert!(t.prefix_search("ap"));
    assert!(t.prefix_search("a"));
    assert!(t.prefix_search(""));
    assert!(!t.prefix_search("apples"));
    assert!(!t.prefix_search("b"));
}

#[test]
fn prefix_search_empty_trie() {
    let t = Trie::new();
    assert!(t.prefix_search(""));
    assert!(!t.prefix_search("a"));
}

#[test]
fn prefix_search_ignores_values() {
    let mut t = Trie::new();
    t.insert("ab", &owned("v"));
    assert!(t.prefix_search("a"));
    assert_eq!(t.get("a"), None);
}

#[test]
fn auto_complete_example() {
    let mut t = Trie::new();
    t.insert("app", &owned("A"));
    t.insert("apple", &owned("B"));
    t.insert("apt", &owned("C"));
    let results = t.auto_complete("ap", 10);
    assert_eq!(results, vec!["app", "apple", "apt"]);
    assert!(!t.prefix_search("ax"));
    assert_eq!(t.get("ap"), None);
    assert!(t.prefix_search("ap"));
}

#[test]
fn auto_complete_cap() {
    let mut t = Trie::new();
    t.insert("app", &owned("A"));
    t.insert("apple", &owned("B"));
    t.insert("apt", &owned("C"));
    assert_eq!(t.auto_complete("ap", 0), Vec::<String>::new());
    let two = t.auto_complete("ap", 2);
    assert_eq!(two.len(), 2);
    assert_eq!(two, vec!["app", "apple"]);
    assert_eq!(t.auto_complete("ap", 3).len(), 3);
    assert_eq!(t.auto_complete("ap", 100).len(), 3);
}

#[test]
fn auto_complete_missing_prefix_is_empty() {
    let mut t = Trie::new();
    t.insert("app", &owned("A"));
    assert_eq!(t.auto_complete("b", 10), Vec::<String>::new());
}

#[test]
fn auto_complete_results_carry_prefix_and_are_stored() {
    let mut t = Trie::new();
    t.insert("car", &owned("1"));
    t.insert("cart", &owned("2"));
    t.insert("cat", &owned("3"));
    t.insert("dog", &owned("4"));
    let results = t.auto_complete("ca", 10);
    assert_eq!(results.len(), 3);
    for word in &results {
        assert!(word.starts_with("ca"));
        assert!(t.get(word).is_some());
    }
}

#[test]
fn auto_complete_whole_trie_with_empty_prefix() {
    let mut t = Trie::new();
    t.insert("", &owned("root"));
    t.insert("a", &owned("1"));
    t.insert("b", &owned("2"));
    let results = t.auto_complete("", 10);
    assert_eq!(results, vec!["", "a", "b"]);
}

#[test]
fn add_word_list_matches_single_inserts() {
    let mut bulk = Trie::new();
    bulk.add_word_list(&["cat", "car"], |word| format!("{}!", word));
    let mut single = Trie::new();
    single.insert("cat", &owned("cat!"));
    single.insert("car", &owned("car!"));
    assert_eq!(format!("{:?}", bulk), format!("{:?}", single));
    assert_eq!(bulk.get("cat"), Some(&owned("cat!")));
    assert_eq!(bulk.get("car"), Some(&owned("car!")));
}

#[test]
fn add_word_list_later_duplicate_wins() {
    let mut t = Trie::new();
    let counter = std::cell::Cell::new(0usize);
    t.add_word_list(&["dup", "dup"], |word| {
        counter.set(counter.get() + 1);
        format!("{}-{}", word, counter.get())
    });
    assert_eq!(t.get("dup"), Some(&owned("dup-2")));
}

#[test]
fn unicode_keys_round_trip() {
    let mut t = Trie::new();
    t.insert("héllo", &owned("accented"));
    assert_eq!(t.get("héllo"), Some(&owned("accented")));
    assert!(t.prefix_search("hé"));
    assert_eq!(t.auto_complete("h", 5), vec!["héllo"]);
}
