use disambiseq::Disambibyte;

#[test]
fn disambibyte_init_slice() {
    let sequences = vec![b"ACT".to_vec(), b"AGT".to_vec()];
    let dsb = Disambibyte::from_slice(&sequences);
    assert_eq!(dsb.parents().len(), 2);
    assert_eq!(dsb.ambiguous().len(), 2);
    assert_eq!(dsb.unambiguous().len(), 12);
}

#[test]
fn disambibyte_parental_get() {
    let sequences = vec![b"ACT".to_vec(), b"AGT".to_vec()];
    let dsb = Disambibyte::from_slice(&sequences);
    assert_eq!(dsb.get_parent(b"ACT").unwrap().sequence(), b"ACT");
}

#[test]
fn disambibyte_mutation_get() {
    let sequences = vec![b"ACT".to_vec(), b"AGT".to_vec()];
    let dsb = Disambibyte::from_slice(&sequences);
    assert_eq!(dsb.get_parent(b"TCT").unwrap().sequence(), b"ACT");
}

#[test]
fn disambibyte_ambiguous_get() {
    let sequences = vec![b"ACT".to_vec(), b"AGT".to_vec()];
    let dsb = Disambibyte::from_slice(&sequences);
    assert_eq!(dsb.get_parent(b"ATT"), None);
}

#[test]
fn disambibyte_init() {
    let sequences = vec![b"ACT", b"AGT"];
    let mut dsb = Disambibyte::new();
    dsb.insert(sequences[0]);
    dsb.insert(sequences[1]);
    assert_eq!(dsb.parents().len(), 2);
    assert_eq!(dsb.ambiguous().len(), 2);
    assert_eq!(dsb.unambiguous().len(), 12);
}

#[test]
fn disambibyte_init_rc() {
    let sequences = vec![b"ACTAA", b"AGTAA"];
    let mut dsb = Disambibyte::new();
    dsb.insert_with_reverse_complement(sequences[0]).unwrap();
    dsb.insert_with_reverse_complement(sequences[1]).unwrap();
    assert_eq!(dsb.parents().len(), 2);
    assert_eq!(dsb.ambiguous().len(), 4);
    assert_eq!(dsb.unambiguous().len(), 50);
    assert_eq!(dsb.get_parent(b"TTAGT").unwrap().sequence(), b"ACTAA");
    assert_eq!(dsb.get_parent(b"ACTAA").unwrap().sequence(), b"ACTAA");
    assert_eq!(dsb.get_parent(b"TTACT").unwrap().sequence(), b"AGTAA");
    assert_eq!(dsb.get_parent(b"AGTAA").unwrap().sequence(), b"AGTAA");
    assert_eq!(dsb.get_parent(b"ATAGT").unwrap().sequence(), b"ACTAA");
}
