use disambiseq::Disambiseq;

#[test]
fn disambiseq_init_slice() {
    let sequences = vec!["ACT".to_string(), "AGT".to_string()];
    let das = Disambiseq::from_slice(&sequences);
    assert_eq!(das.parents().len(), 2);
    assert_eq!(das.ambiguous().len(), 2);
    assert_eq!(das.unambiguous().len(), 12);
}

#[test]
fn disambiseq_parental_get() {
    let sequences = vec!["ACT".to_string(), "AGT".to_string()];
    let das = Disambiseq::from_slice(&sequences);
    assert_eq!(das.get_parent("ACT").unwrap().sequence(), "ACT");
}

#[test]
fn disambiseq_mutation_get() {
    let sequences = vec!["ACT".to_string(), "AGT".to_string()];
    let das = Disambiseq::from_slice(&sequences);
    assert_eq!(das.get_parent("TCT").unwrap().sequence(), "ACT");
}

#[test]
fn disambiseq_ambiguous_get() {
    let sequences = vec!["ACT".to_string(), "AGT".to_string()];
    let das = Disambiseq::from_slice(&sequences);
    assert_eq!(das.get_parent("ATT"), None);
}

#[test]
fn disambiseq_init() {
    let sequences = vec!["ACT", "AGT"];
    let mut dsq = Disambiseq::new();
    dsq.insert(sequences[0]);
    dsq.insert(sequences[1]);
    assert_eq!(dsq.parents().len(), 2);
    assert_eq!(dsq.ambiguous().len(), 2);
    assert_eq!(dsq.unambiguous().len(), 12);
}

#[test]
fn disambiseq_init_rc() {
    let sequences = vec!["ACTAA", "AGTAA"];
    let mut dsq = Disambiseq::new();
    dsq.insert_with_reverse_complement(sequences[0]).unwrap();
    dsq.insert_with_reverse_complement(sequences[1]).unwrap();
    assert_eq!(dsq.parents().len(), 2);
    assert_eq!(dsq.ambiguous().len(), 4);
    assert_eq!(dsq.unambiguous().len(), 50);
    assert_eq!(dsq.get_parent("TTAGT").unwrap().sequence(), "ACTAA");
    assert_eq!(dsq.get_parent("ACTAA").unwrap().sequence(), "ACTAA");
    assert_eq!(dsq.get_parent("TTACT").unwrap().sequence(), "AGTAA");
    assert_eq!(dsq.get_parent("AGTAA").unwrap().sequence(), "AGTAA");
    assert_eq!(dsq.get_parent("ATAGT").unwrap().sequence(), "ACTAA");
}
