use disambiseq::{Disambibyte, Disambiseq, Error};

fn all_of_length_three() -> Vec<String> {
    let lex = ['A', 'C', 'G', 'T', 'N'];
    let mut out = Vec::new();
    for a in lex {
        for b in lex {
            for c in lex {
                out.push([a, b, c].iter().collect());
            }
        }
    }
    out
}

fn lookups(index: &Disambiseq) -> Vec<Option<String>> {
    all_of_length_three()
        .iter()
        .map(|s| index.get_parent(s).map(|p| p.sequence().to_string()))
        .collect()
}

fn memberships(index: &Disambiseq) -> Vec<(bool, bool, bool)> {
    all_of_length_three()
        .iter()
        .map(|s| {
            (
                index.parents().contains(s),
                index.ambiguous().contains(s),
                index.unambiguous().contains_key(s),
            )
        })
        .collect()
}

#[test]
fn new_index_is_empty() {
    let dsq = Disambiseq::new();
    assert_eq!(dsq.parents().len(), 0);
    assert_eq!(dsq.ambiguous().len(), 0);
    assert_eq!(dsq.unambiguous().len(), 0);
    assert_eq!(dsq.get_parent("ACT"), None);
    let dsq = Disambiseq::default();
    assert_eq!(dsq.parents().len(), 0);
    let dsb = Disambibyte::new();
    assert_eq!(dsb.parents().len(), 0);
    assert_eq!(dsb.ambiguous().len(), 0);
    assert_eq!(dsb.unambiguous().len(), 0);
    assert_eq!(dsb.get_parent(b"ACT"), None);
}

#[test]
fn two_close_parents_share_two_mutations() {
    let mut dsq = Disambiseq::new();
    dsq.insert("ACT");
    assert_eq!(dsq.unambiguous().len(), 9);
    assert_eq!(dsq.ambiguous().len(), 0);
    assert_eq!(dsq.get_parent("AGT").unwrap().sequence(), "ACT");
    dsq.insert("AGT");
    assert!(dsq.parents().contains("ACT"));
    assert!(dsq.parents().contains("AGT"));
    assert!(dsq.ambiguous().contains("AAT"));
    assert!(dsq.ambiguous().contains("ATT"));
    assert!(!dsq.unambiguous().contains_key("AAT"));
    assert!(!dsq.unambiguous().contains_key("AGT"));
    assert_eq!(dsq.unambiguous().get("TCT").unwrap().sequence(), "ACT");
    assert_eq!(dsq.unambiguous().get("TGT").unwrap().sequence(), "AGT");
    assert_eq!(dsq.unambiguous().get("AAT"), None);
    assert_eq!(dsq.get_parent("ACT").unwrap().sequence(), "ACT");
    assert_eq!(dsq.get_parent("AGT").unwrap().sequence(), "AGT");
    assert_eq!(dsq.get_parent("AAT"), None);
    assert_eq!(dsq.get_parent("GGG"), None);
}

#[test]
fn inserting_a_parent_twice_changes_nothing() {
    let mut dsq = Disambiseq::from_slice(&["ACT".to_string(), "AGT".to_string()]);
    let before = (lookups(&dsq), memberships(&dsq));
    dsq.insert("ACT");
    dsq.insert("AGT");
    dsq.insert("ACT");
    assert_eq!((lookups(&dsq), memberships(&dsq)), before);
    assert_eq!(dsq.parents().len(), 2);
    assert_eq!(dsq.ambiguous().len(), 2);
    assert_eq!(dsq.unambiguous().len(), 12);

    let mut both = Disambiseq::new();
    both.insert_with_reverse_complement("ACTAA").unwrap();
    let sizes = (both.parents().len(), both.ambiguous().len(), both.unambiguous().len());
    both.insert_with_reverse_complement("ACTAA").unwrap();
    both.insert("ACTAA");
    assert_eq!(
        (both.parents().len(), both.ambiguous().len(), both.unambiguous().len()),
        sizes
    );

    let mut dsb = Disambibyte::from_slice(&[b"ACT".to_vec(), b"AGT".to_vec()]);
    dsb.insert(b"AGT");
    assert_eq!(dsb.parents().len(), 2);
    assert_eq!(dsb.ambiguous().len(), 2);
    assert_eq!(dsb.unambiguous().len(), 12);
}

#[test]
fn order_of_insertion_does_not_matter() {
    let parents = ["ACT", "AGT", "TTA", "GGG", "CCC"];
    let forward: Vec<String> = parents.iter().map(|s| s.to_string()).collect();
    let backward: Vec<String> = parents.iter().rev().map(|s| s.to_string()).collect();
    let rotated: Vec<String> =
        ["TTA", "GGG", "ACT", "CCC", "AGT"].iter().map(|s| s.to_string()).collect();
    let a = Disambiseq::from_slice(&forward);
    let b = Disambiseq::from_slice(&backward);
    let c = Disambiseq::from_slice(&rotated);
    assert_eq!(lookups(&a), lookups(&b));
    assert_eq!(lookups(&a), lookups(&c));
    assert_eq!(memberships(&a), memberships(&b));
    assert_eq!(memberships(&a), memberships(&c));
    assert_eq!(a.unambiguous().len(), b.unambiguous().len());
    assert_eq!(a.ambiguous().len(), c.ambiguous().len());
}

#[test]
fn order_matters_for_a_parent_that_derives_from_two_others() {
    let late: Vec<String> = ["ACT", "AGT", "AAT"].iter().map(|s| s.to_string()).collect();
    let early: Vec<String> = ["AAT", "ACT", "AGT"].iter().map(|s| s.to_string()).collect();
    let a = Disambiseq::from_slice(&late);
    let b = Disambiseq::from_slice(&early);
    assert!(a.ambiguous().contains("AAT"));
    assert!(!b.ambiguous().contains("AAT"));
    assert!(b.ambiguous().contains("AGT"));
    assert_eq!(a.get_parent("AAT").unwrap().sequence(), "AAT");
    assert_eq!(b.get_parent("AAT").unwrap().sequence(), "AAT");
}

#[test]
fn ambiguous_sequence_stays_ambiguous() {
    let mut dsq = Disambiseq::from_slice(&["ACT".to_string(), "AGT".to_string()]);
    assert!(dsq.ambiguous().contains("ATT"));
    for parent in ["TTT", "ATA", "GGG", "CTT", "ATC"] {
        dsq.insert(parent);
        assert!(dsq.ambiguous().contains("ATT"));
        assert!(dsq.ambiguous().contains("AAT"));
        assert_eq!(dsq.get_parent("ATT"), None);
        assert!(!dsq.unambiguous().contains_key("ATT"));
    }
    dsq.insert_with_reverse_complement("CAT").unwrap();
    assert!(dsq.ambiguous().contains("ATT"));
}

#[test]
fn parent_is_no_derived_sequence() {
    let mut dsq = Disambiseq::new();
    dsq.insert("ACT");
    assert_eq!(dsq.get_parent("ACG").unwrap().sequence(), "ACT");
    assert!(dsq.unambiguous().contains_key("ACG"));
    dsq.insert("ACG");
    assert_eq!(dsq.get_parent("ACG").unwrap().sequence(), "ACG");
    assert!(!dsq.unambiguous().contains_key("ACG"));
    assert!(!dsq.unambiguous().contains_key("ACT"));
    assert_eq!(dsq.parents().len(), 2);
}

#[test]
fn reverse_complement_of_parent_is_frozen() {
    let mut dsq = Disambiseq::new();
    dsq.insert_with_reverse_complement("ACTAA").unwrap();
    assert_eq!(dsq.get_parent("TTAGT").unwrap().sequence(), "ACTAA");
    // two parents that each have `TTAGT` among their mutations
    dsq.insert("TTAGA");
    assert_eq!(dsq.get_parent("TTAGT").unwrap().sequence(), "ACTAA");
    dsq.insert("TTAGC");
    assert_eq!(dsq.get_parent("TTAGT").unwrap().sequence(), "ACTAA");
    dsq.insert_with_reverse_complement("GTAGT").unwrap();
    assert_eq!(dsq.get_parent("TTAGT").unwrap().sequence(), "ACTAA");
    assert!(!dsq.ambiguous().contains("TTAGT"));

    let mut dsb = Disambibyte::new();
    dsb.insert_with_reverse_complement(b"ACTAA").unwrap();
    dsb.insert(b"TTAGA");
    dsb.insert(b"TTAGC");
    assert_eq!(dsb.get_parent(b"TTAGT").unwrap().sequence(), b"ACTAA");
}

#[test]
fn reverse_complement_overwrites_an_earlier_origin() {
    let mut dsq = Disambiseq::new();
    dsq.insert("TTAGA");
    assert_eq!(dsq.get_parent("TTAGT").unwrap().sequence(), "TTAGA");
    dsq.insert_with_reverse_complement("ACTAA").unwrap();
    assert_eq!(dsq.get_parent("TTAGT").unwrap().sequence(), "ACTAA");
}

#[test]
fn parent_equal_to_its_reverse_complement_resolves_to_itself() {
    let mut dsq = Disambiseq::new();
    dsq.insert_with_reverse_complement("AT").unwrap();
    assert_eq!(dsq.get_parent("AT").unwrap().sequence(), "AT");
    assert_eq!(dsq.parents().len(), 1);
}

#[test]
fn invalid_symbol_leaves_the_index_unchanged() {
    let mut dsq = Disambiseq::from_slice(&["ACT".to_string()]);
    let before = (lookups(&dsq), memberships(&dsq));
    assert_eq!(dsq.insert_with_reverse_complement("ABT"), Err(Error::InvalidSymbol));
    assert_eq!((lookups(&dsq), memberships(&dsq)), before);
    assert_eq!(dsq.parents().len(), 1);
    assert_eq!(dsq.unambiguous().len(), 9);
    assert_eq!(dsq.get_parent("ABT"), None);

    let mut dsb = Disambibyte::new();
    assert_eq!(dsb.insert_with_reverse_complement(b"AC?T"), Err(Error::InvalidSymbol));
    assert_eq!(dsb.parents().len(), 0);
    assert_eq!(dsb.unambiguous().len(), 0);
}

#[test]
fn known_parent_is_accepted_whatever_its_symbols() {
    let mut dsq = Disambiseq::new();
    dsq.insert("ABT");
    assert_eq!(dsq.insert_with_reverse_complement("ABT"), Ok(()));
    assert_eq!(dsq.parents().len(), 1);
    assert_eq!(dsq.get_parent("ABT").unwrap().sequence(), "ABT");
    assert_eq!(dsq.get_parent("ACT").unwrap().sequence(), "ABT");
}

#[test]
fn parent_with_n_is_indexed_in_both_orientations() {
    let mut dsq = Disambiseq::new();
    dsq.insert_with_reverse_complement("ANC").unwrap();
    assert_eq!(dsq.get_parent("GNT").unwrap().sequence(), "ANC");
    assert_eq!(dsq.get_parent("AAC").unwrap().sequence(), "ANC");
    assert_eq!(dsq.get_parent("GTT").unwrap().sequence(), "ANC");
}

#[test]
fn clone_holds_the_same_index() {
    let mut dsq = Disambiseq::from_slice(&["ACT".to_string(), "AGT".to_string()]);
    let copy = dsq.clone();
    dsq.insert("GGG");
    assert_eq!(copy.parents().len(), 2);
    assert_eq!(copy.ambiguous().len(), 2);
    assert_eq!(copy.unambiguous().len(), 12);
    assert_eq!(copy.get_parent("TCT").unwrap().sequence(), "ACT");
    assert_eq!(copy.get_parent("GGG"), None);
    assert_eq!(dsq.parents().len(), 3);
}

#[test]
fn insertion_takes_any_text() {
    let mut dsq = Disambiseq::new();
    dsq.insert("A\u{e9}");
    dsq.insert("");
    assert_eq!(dsq.parents().len(), 2);
    assert_eq!(dsq.get_parent("C\u{e9}").unwrap().sequence(), "A\u{e9}");
    assert_eq!(dsq.get_parent("AT").unwrap().sequence(), "A\u{e9}");
    assert_eq!(dsq.unambiguous().len(), 7);
}
