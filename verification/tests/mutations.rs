use disambiseq::{ByteSequence, Sequence};

fn assert_distinct(items: &[String]) {
    for i in 0..items.len() {
        for j in 0..i {
            assert_ne!(items[i], items[j]);
        }
    }
}

#[test]
fn canonical_sequence_has_three_mutations_per_position() {
    for bases in ["A", "AC", "ACGT", "TTTT", "GATTACA", "ACTGGACCCATG"] {
        let muts = Sequence::new(bases).mutate_all();
        assert_eq!(muts.len(), 3 * bases.len());
        assert_distinct(&muts);
        assert!(muts.iter().all(|m| m != bases));
        assert!(muts.iter().all(|m| m.len() == bases.len()));

        let byte_muts = ByteSequence::new(bases.as_bytes()).mutate_all();
        let as_bytes: Vec<Vec<u8>> = muts.iter().map(|m| m.as_bytes().to_vec()).collect();
        assert_eq!(byte_muts, as_bytes);
    }
}

#[test]
fn empty_sequence_has_no_mutations() {
    assert_eq!(Sequence::new("").len(), 0);
    assert!(Sequence::new("").mutate_all().is_empty());
    assert_eq!(ByteSequence::new(b"").len(), 0);
    assert!(ByteSequence::new(b"").mutate_all().is_empty());
}

#[test]
fn mutations_follow_position_then_alphabet_order() {
    assert_eq!(Sequence::new("GT").mutate_all(), vec!["AT", "CT", "TT", "GA", "GC", "GG"]);
    assert_eq!(Sequence::new("ACGT").mutate_position(3), vec!["ACGA", "ACGC", "ACGG"]);
    assert_eq!(
        ByteSequence::new(b"ACGT").mutate_position(2),
        vec![b"ACAT", b"ACCT", b"ACTT"]
    );
}

#[test]
fn symbol_outside_the_alphabet_is_copied_and_has_four_variants() {
    let muts = Sequence::new("AN").mutate_all();
    assert_eq!(muts, vec!["CN", "GN", "TN", "AA", "AC", "AG", "AT"]);
    let muts = ByteSequence::new(b"xA").mutate_all();
    assert_eq!(
        muts,
        vec![
            b"AA".to_vec(),
            b"CA".to_vec(),
            b"GA".to_vec(),
            b"TA".to_vec(),
            b"xC".to_vec(),
            b"xG".to_vec(),
            b"xT".to_vec()
        ]
    );
}

#[test]
fn characters_beyond_ascii_count_as_one_symbol() {
    let seq = Sequence::new("A\u{e9}");
    assert_eq!(seq.len(), 2);
    assert_eq!(seq.mutate_position(0), vec!["C\u{e9}", "G\u{e9}", "T\u{e9}"]);
    assert_eq!(seq.mutate_position(1), vec!["AA", "AC", "AG", "AT"]);
    assert_eq!(seq.mutate_all().len(), 7);
}

#[test]
fn build_mutation_joins_prefix_symbol_and_suffix() {
    let seq = Sequence::new("ACGT");
    assert_eq!(seq.build_mutation("", "CGT", &'T'), "TCGT");
    assert_eq!(seq.build_mutation("ACG", "", &'A'), "ACGA");
    let seq = ByteSequence::new(b"ACGT");
    assert_eq!(seq.build_mutation(b"", b"CGT", &b'T'), b"TCGT");
    assert_eq!(seq.build_mutation(b"ACG", b"", &b'A'), b"ACGA");
}
