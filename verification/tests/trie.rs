use elemental::trie::Trie;

#[test]
fn insert() {
    let mut trie: Trie<Vec<char>> = Trie::root();

    let hello: Vec<char> = "hello".chars().collect();
    let hell: Vec<char> = "hell".chars().collect();
    let hi: Vec<char> = "hi".chars().collect();
    let bye: Vec<char> = "bye".chars().collect();

    trie.insert(&hello, hello.clone());
    trie.insert(&hell, hell.clone());
    trie.insert(&hi, hi.clone());
    trie.insert(&bye, bye.clone());

    // are exactly there
    assert!(trie.exact_match(&hello).is_some());
    assert!(trie.exact_match(&hell).is_some());
    assert!(trie.exact_match(&hi).is_some());
    assert!(trie.exact_match(&bye).is_some());

    // compare structure
    let keys: Vec<char> = trie.child_keys();
    assert_eq!(keys, vec!['b', 'h']);

    let h = trie.child('h').unwrap();
    let keys: Vec<char> = h.child_keys();
    assert_eq!(keys, vec!['e', 'i']);
}

#[test]
fn best_match() {
    let mut trie: Trie<Vec<char>> = Trie::root();

    let hello: Vec<char> = "hello".chars().collect();
    let hell: Vec<char> = "hell".chars().collect();
    let hi: Vec<char> = "hi".chars().collect();
    let bye: Vec<char> = "bye".chars().collect();

    trie.insert(&hello, hello.clone());
    trie.insert(&hell, hell.clone());
    trie.insert(&hi, hi.clone());
    trie.insert(&bye, bye.clone());

    let hello_world: Vec<char> = "hello world".chars().collect();

    let best = trie.best_match(&hello_world).unwrap();

    assert_eq!(best, &hello);
}

#[test]
fn exact_match_needs_full_path() {
    let mut trie: Trie<String> = Trie::root();
    let h: Vec<char> = vec!['h'];
    let he: Vec<char> = vec!['h', 'e'];
    let hel: Vec<char> = vec!['h', 'e', 'l'];
    trie.insert(&h, String::from("H"));
    trie.insert(&he, String::from("He"));

    assert_eq!(trie.exact_match(&h), Some(&String::from("H")));
    assert_eq!(trie.exact_match(&he), Some(&String::from("He")));
    assert_eq!(trie.exact_match(&hel), None);
}

#[test]
fn insertion_overwrite() {
    let mut trie: Trie<u32> = Trie::root();
    let key: Vec<char> = vec!['h', 'e'];
    trie.insert(&key, 1);
    trie.insert(&key, 2);

    assert_eq!(trie.exact_match(&key), Some(&2));
}

#[test]
fn empty_key_inserts_nothing() {
    let mut trie: Trie<u32> = Trie::root();
    let empty: Vec<char> = Vec::new();
    trie.insert(&empty, 7);

    assert_eq!(trie.exact_match(&empty), None);
    assert_eq!(trie.best_match(&empty), None);
    assert!(trie.child_keys().is_empty());
}

#[test]
fn exact_match_on_value_free_prefix() {
    let mut trie: Trie<u32> = Trie::root();
    let hello: Vec<char> = "hello".chars().collect();
    trie.insert(&hello, 1);

    // the path exists but holds no value
    let hell: Vec<char> = "hell".chars().collect();
    assert_eq!(trie.exact_match(&hell), None);
}
