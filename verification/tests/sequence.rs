use disambiseq::{ByteSequence, Sequence};

#[test]
fn sequence_init() {
    let bases = "ACTGGACCCATG";
    let seq = Sequence::new(bases);
    assert_eq!(seq.len(), bases.len());
}

#[test]
fn init_byte() {
    let bases = b"ACTGGACCCATG";
    let seq = ByteSequence::new(bases);
    assert_eq!(seq.len(), bases.len());
}

#[test]
fn build_mutation() {
    let bases = "ACGT";
    let seq = Sequence::new(bases);
    let prefix = "AC";
    let insertion = 'G';
    let suffix = "T";
    assert_eq!(seq.build_mutation(prefix, suffix, &insertion), "ACGT");
}

#[test]
fn build_mutation_bytes() {
    let bases = b"ACGT";
    let seq = ByteSequence::new(bases);
    let prefix = b"AC";
    let insertion = b'G';
    let suffix = b"T";
    assert_eq!(seq.build_mutation(prefix, suffix, &insertion), b"ACGT");
}

#[test]
fn mutate_position() {
    let bases = "ACGT";
    let seq = Sequence::new(bases);
    let muts = seq.mutate_position(0);
    assert_eq!(muts, vec!["CCGT", "GCGT", "TCGT"]);
}

#[test]
fn mutate_position_bytes() {
    let bases = b"ACGT";
    let seq = ByteSequence::new(bases);
    let muts = seq.mutate_position(0);
    assert_eq!(muts, vec![b"CCGT", b"GCGT", b"TCGT"]);
}

#[test]
fn mutate_all() {
    let bases = "ACGT";
    let seq = Sequence::new(bases);
    let muts = seq.mutate_all();
    assert_eq!(
        muts,
        vec![
            "CCGT", "GCGT", "TCGT", "AAGT", "AGGT", "ATGT", "ACAT", "ACCT", "ACTT", "ACGA",
            "ACGC", "ACGG"
        ]
    );
}

#[test]
fn mutate_all_bytes() {
    let bases = b"ACGT";
    let seq = ByteSequence::new(bases);
    let muts = seq.mutate_all();
    assert_eq!(
        muts,
        vec![
            b"CCGT", b"GCGT", b"TCGT", b"AAGT", b"AGGT", b"ATGT", b"ACAT", b"ACCT", b"ACTT",
            b"ACGA", b"ACGC", b"ACGG"
        ]
    );
}
