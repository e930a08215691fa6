use elemental::elements::Element;
use elemental::segment::segment;
use elemental::trie::Trie;

fn elem(name: &str, short: &str) -> Element {
    Element {
        name: name.to_string(),
        short: short.to_string(),
        neutrons: 0,
        protons: 0,
        electrons: 0,
    }
}

fn chars(s: &str) -> Vec<char> {
    s.chars().collect()
}

fn insert_elem(trie: &mut Trie<Element>, e: Element) {
    let key: Vec<char> = e.short.to_lowercase().chars().collect();
    trie.insert(&key, e);
}

fn h_he_trie() -> Trie<Element> {
    let mut trie: Trie<Element> = Trie::root();
    insert_elem(&mut trie, elem("Hydrogen", "H"));
    insert_elem(&mut trie, elem("Helium", "He"));
    trie
}

#[test]
fn greedy_advance() {
    let trie = h_he_trie();
    let res = segment(&trie, &chars("hhe"));

    assert_eq!(res.len(), 2);
    assert!(matches!(&res[0], Ok(e) if e.short == "H"));
    assert!(matches!(&res[1], Ok(e) if e.short == "He"));
}

#[test]
fn failure_folding() {
    let mut trie: Trie<Element> = Trie::root();
    insert_elem(&mut trie, elem("Hydrogen", "H"));
    let res = segment(&trie, &chars("xhxy"));

    assert_eq!(res.len(), 3);
    assert!(matches!(&res[0], Err(run) if *run == vec!['x']));
    assert!(matches!(&res[1], Ok(e) if e.short == "H"));
    assert!(matches!(&res[2], Err(run) if *run == vec!['x', 'y']));
}

#[test]
fn empty_input() {
    let trie = h_he_trie();
    let res = segment(&trie, &chars(""));
    assert!(res.is_empty());
}

#[test]
fn no_dictionary() {
    let trie: Trie<Element> = Trie::root();
    let res = segment(&trie, &chars("abc"));

    assert_eq!(res.len(), 1);
    assert!(matches!(&res[0], Err(run) if *run == vec!['a', 'b', 'c']));
}

#[test]
fn best_match_non_backtracking() {
    let mut trie: Trie<Element> = Trie::root();
    insert_elem(&mut trie, elem("Carbon", "C"));
    insert_elem(&mut trie, elem("Chlorox", "Clx"));

    // the walk descends into the valueless "cl" node and reports no match,
    // instead of backtracking to the value stored at "c"
    let cl = chars("cl");
    assert!(trie.best_match(&cl).is_none());

    // through the engine the whole input becomes one unmatched run
    let res = segment(&trie, &cl);
    assert_eq!(res.len(), 1);
    assert!(matches!(&res[0], Err(run) if *run == vec!['c', 'l']));

    // a step with no child stops the walk at "c", which does hold a value
    let cd = chars("cd");
    assert!(matches!(trie.best_match(&cd), Some(e) if e.short == "C"));
}

#[test]
fn round_trip_concrete() {
    let trie = h_he_trie();
    let input = chars("zhheq");
    let res = segment(&trie, &input);

    let mut rebuilt: Vec<char> = Vec::new();
    for item in &res {
        match item {
            Ok(e) => rebuilt.extend(e.short.to_lowercase().chars()),
            Err(run) => rebuilt.extend(run.iter().copied()),
        }
    }
    assert_eq!(rebuilt, input);

    assert_eq!(res.len(), 4);
    assert!(matches!(&res[0], Err(run) if *run == vec!['z']));
    assert!(matches!(&res[1], Ok(e) if e.short == "H"));
    assert!(matches!(&res[2], Ok(e) if e.short == "He"));
    assert!(matches!(&res[3], Err(run) if *run == vec!['q']));
}
