use disambiseq::{reverse_complement, reverse_complement_bytes, Error};

#[test]
fn test_reverse_complement_1() {
    let seq = "ATCG";
    let rc = reverse_complement(seq).unwrap();
    assert_eq!(rc, "CGAT");
}

#[test]
fn test_reverse_complement_2() {
    let seq = "ATNCG";
    let rc = reverse_complement(seq).unwrap();
    assert_eq!(rc, "CGNAT");
}

#[test]
#[should_panic]
fn test_reverse_complement_3() {
    let seq = "BBBB";
    reverse_complement(seq).unwrap();
}

#[test]
fn bytes_test_reverse_complement_1() {
    let seq = b"ATCG";
    let rc = reverse_complement_bytes(seq).unwrap();
    assert_eq!(rc, b"CGAT");
}

#[test]
fn bytes_test_reverse_complement_2() {
    let seq = b"ATNCG";
    let rc = reverse_complement_bytes(seq).unwrap();
    assert_eq!(rc, b"CGNAT");
}

#[test]
#[should_panic]
fn bytes_test_reverse_complement_3() {
    let seq = b"BBBB";
    reverse_complement_bytes(seq).unwrap();
}

#[test]
fn reverse_complement_rejects_unknown_symbol() {
    assert_eq!(reverse_complement("BBBB"), Err(Error::InvalidSymbol));
    assert_eq!(reverse_complement("ACGTX"), Err(Error::InvalidSymbol));
    assert_eq!(reverse_complement("acgt"), Err(Error::InvalidSymbol));
    assert_eq!(reverse_complement_bytes(b"BBBB"), Err(Error::InvalidSymbol));
    assert_eq!(reverse_complement_bytes(b"XACGT"), Err(Error::InvalidSymbol));
}

#[test]
fn reverse_complement_of_empty_is_empty() {
    assert_eq!(reverse_complement("").unwrap(), "");
    assert_eq!(reverse_complement_bytes(b"").unwrap(), b"");
}

#[test]
fn reverse_complement_twice_is_identity() {
    for seq in ["A", "ACGT", "ATNCG", "TTTTGCA", "NNNN"] {
        let once = reverse_complement(seq).unwrap();
        assert_eq!(reverse_complement(&once).unwrap(), seq);
        let once = reverse_complement_bytes(seq.as_bytes()).unwrap();
        assert_eq!(reverse_complement_bytes(&once).unwrap(), seq.as_bytes());
    }
}
