use elemental::elements::{element_from_csv, element_trie, get_elements};
use elemental::segment::segment;

const CSV: &str = "Element,Symbol,NumberofNeutrons,NumberofProtons,NumberofElectrons\nHydrogen,H,0,1,1\nHelium,He,2,2,2\nLithium,Li,4,3,3\nCarbon,C,6,6,6";

#[test]
fn get_elements_reads_rows() {
    let elems = get_elements(CSV);

    assert_eq!(elems.len(), 4);
    assert_eq!(elems[0].name, "Hydrogen");
    assert_eq!(elems[0].short, "H");
    assert_eq!(elems[0].neutrons, 0);
    assert_eq!(elems[0].protons, 1);
    assert_eq!(elems[0].electrons, 1);
    assert_eq!(elems[3].name, "Carbon");
    assert_eq!(elems[3].short, "C");
}

#[test]
fn get_elements_skips_bad_rows_and_trailing_newline() {
    let csv = "Element,Symbol,N,P,E\nHydrogen,H,0,1,1\nnot a data row\nHelium,He,2,2,2\n";
    let elems = get_elements(csv);

    assert_eq!(elems.len(), 2);
    assert_eq!(elems[0].short, "H");
    assert_eq!(elems[1].short, "He");
}

#[test]
fn element_from_csv_parses_one_row() {
    let e = element_from_csv("Boron,B,6,5,5").unwrap();

    assert_eq!(e.name, "Boron");
    assert_eq!(e.short, "B");
    assert_eq!(e.neutrons, 6);
    assert_eq!(e.protons, 5);
    assert_eq!(e.electrons, 5);
}

#[test]
fn element_from_csv_rejects_bad_rows() {
    // too few fields
    assert!(element_from_csv("").is_none());
    assert!(element_from_csv("OnlyName").is_none());
    assert!(element_from_csv("A,B,1,2").is_none());
    // counts that are not plain decimals
    assert!(element_from_csv("A,B,six,5,5").is_none());
    assert!(element_from_csv("A,B,6,5,").is_none());
    assert!(element_from_csv("A,B,6,-5,5").is_none());
    // a count too large for sixteen bits
    assert!(element_from_csv("A,B,6,5,65536").is_none());
    assert!(element_from_csv("A,B,6,5,65535").is_some());
    // fields past the fifth are ignored
    assert!(element_from_csv("A,B,1,2,3,extra,fields").is_some());
}

#[test]
fn element_trie_keys_are_lowercased() {
    let trie = element_trie(CSV);

    let he: Vec<char> = vec!['h', 'e'];
    assert!(trie.exact_match(&he).is_some());
    assert_eq!(trie.exact_match(&he).unwrap().name, "Helium");

    // the stored key is the lowercase form only
    let upper: Vec<char> = vec!['H', 'e'];
    assert!(trie.exact_match(&upper).is_none());
}

#[test]
fn element_trie_overwrites_duplicates() {
    let csv = "Element,Symbol,N,P,E\nSulfur,S,16,16,16\nSulfurian,S,17,16,16";
    let trie = element_trie(csv);

    let s: Vec<char> = vec!['s'];
    let e = trie.exact_match(&s).unwrap();
    assert_eq!(e.name, "Sulfurian");
    assert_eq!(e.neutrons, 17);
}

#[test]
fn segment_spells_a_word() {
    let trie = element_trie(CSV);
    let word: Vec<char> = "hhe".chars().collect();
    let res = segment(&trie, &word);

    assert_eq!(res.len(), 2);
    assert!(matches!(&res[0], Ok(e) if e.short == "H"));
    assert!(matches!(&res[1], Ok(e) if e.short == "He"));
}
