use vstd::prelude::*;
use crate::alphabet::{complement_byte, complement_char, Symbol};
use crate::error::Error;
use crate::sequence::{is_mutation_of, is_substitution_at, lemma_mutations, mutations};

verus! {

/// A sequence can be reverse-complemented when each of its symbols has a
/// complement.
pub open spec fn is_valid<T: Symbol>(s: Seq<T>) -> bool {
    forall|i: int| 0 <= i < s.len() ==> (#[trigger] s[i]).complement() is Some
}

/// The reverse complement of a valid sequence: the complements of its
/// symbols, last symbol first.
pub open spec fn reverse_complement_of<T: Symbol>(s: Seq<T>) -> Seq<T> {
    Seq::new(s.len(), |i: int| s[s.len() - 1 - i].complement().unwrap())
}

/// Reverse complement is an involution: the reverse complement of a valid
/// sequence is valid, and its own reverse complement is the sequence.
pub proof fn lemma_reverse_complement_involution<T: Symbol>(s: Seq<T>)
    requires
        is_valid(s),
    ensures
        is_valid(reverse_complement_of(s)),
        reverse_complement_of(s).len() == s.len(),
        reverse_complement_of(reverse_complement_of(s)) == s,
{
    let r = reverse_complement_of(s);
    assert forall|i: int| 0 <= i < r.len() implies (#[trigger] r[i]).complement() is Some by {
        s[s.len() - 1 - i].lemma_complement_twice();
    }
    assert forall|i: int| 0 <= i < s.len() implies reverse_complement_of(r)[i] == s[i] by {
        s[i].lemma_complement_twice();
        assert(r[s.len() - 1 - i] == s[i].complement().unwrap());
    }
    assert(reverse_complement_of(r) =~= s);
}

/// Every mutation of a valid sequence is valid.
pub proof fn lemma_mutations_of_valid<T: Symbol>(s: Seq<T>)
    requires
        is_valid(s),
    ensures
        forall|i: int| 0 <= i < mutations(s).len() ==> is_valid(#[trigger] mutations(s)[i]),
{
    lemma_mutations(s);
    T::lemma_alphabet();
    assert forall|i: int| 0 <= i < mutations(s).len() implies is_valid(
        #[trigger] mutations(s)[i],
    ) by {
        let m = mutations(s)[i];
        assert(mutations(s).contains(m));
        assert(is_mutation_of(m, s));
        let pos = choose|pos: int| is_substitution_at(m, s, pos);
        let k = choose|k: int| 0 <= k < 4 && T::alphabet()[k] == m[pos];
        assert forall|j: int| 0 <= j < m.len() implies (#[trigger] m[j]).complement() is Some by {
            if j != pos {
                assert(m[j] == s[j]);
            }
        }
    }
}

/// `String::push`: the string holds what it held, followed by the character.
pub assume_specification[ String::push ](s: &mut String, c: char)
    ensures
        final(s)@ == old(s)@.push(c),
;

/// Creates the reverse complement of a sequence. A sequence with a symbol
/// other than A, C, G, T and N is rejected.
pub fn reverse_complement(sequence: &str) -> (res: Result<String, Error>)
    ensures
        res is Ok <==> is_valid(sequence@),
        res matches Ok(revc) ==> revc@ == reverse_complement_of(sequence@),
{
    broadcast use vstd::string::group_string_axioms;

    let mut complements: Vec<char> = Vec::new();
    for symbol in it: sequence.chars()
        invariant
            it.seq() == sequence@,
            complements@.len() == it.index(),
            forall|j: int|
                0 <= j < complements@.len() ==> Some(#[trigger] complements@[j])
                    == sequence@[j].complement(),
    {
        match complement_char(symbol) {
            Some(c) => complements.push(c),
            None => {
                return Err(Error::InvalidSymbol);
            },
        }
    }
    let n = complements.len();
    let mut revc = String::new();
    let mut i: usize = n;
    while i > 0
        invariant
            i <= n,
            n == sequence@.len(),
            n == complements@.len(),
            revc@.len() == n - i,
            forall|j: int|
                0 <= j < complements@.len() ==> Some(#[trigger] complements@[j])
                    == sequence@[j].complement(),
            forall|j: int| 0 <= j < revc@.len() ==> #[trigger] revc@[j] == complements@[n - 1 - j],
        decreases i,
    {
        i -= 1;
        revc.push(complements[i]);
    }
    assert forall|k: int| 0 <= k < sequence@.len() implies (#[trigger] sequence@[k]).complement() is Some by {
        assert(Some(complements@[k]) == sequence@[k].complement());
    }
    assert(revc@ =~= reverse_complement_of(sequence@)) by {
        assert forall|j: int| 0 <= j < n implies revc@[j] == reverse_complement_of(sequence@)[j] by {
            assert(Some(complements@[n - 1 - j]) == sequence@[n - 1 - j].complement());
        }
    }
    Ok(revc)
}

/// Creates the reverse complement of a sequence of bytes. A sequence with a
/// symbol other than A, C, G, T and N is rejected.
pub fn reverse_complement_bytes(sequence: &[u8]) -> (res: Result<Vec<u8>, Error>)
    ensures
        res is Ok <==> is_valid(sequence@),
        res matches Ok(revc) ==> revc@ == reverse_complement_of(sequence@),
{
    let n = sequence.len();
    let mut revc: Vec<u8> = Vec::with_capacity(n);
    let mut i: usize = n;
    while i > 0
        invariant
            i <= n,
            n == sequence@.len(),
            revc@.len() == n - i,
            forall|j: int| 0 <= j < revc@.len() ==> Some(#[trigger] revc@[j]) == sequence@[n - 1 - j].complement(),
        decreases i,
    {
        i -= 1;
        match complement_byte(sequence[i]) {
            Some(c) => revc.push(c),
            None => {
                return Err(Error::InvalidSymbol);
            },
        }
    }
    assert forall|k: int| 0 <= k < sequence@.len() implies (#[trigger] sequence@[k]).complement() is Some by {
        assert(Some(revc@[n - 1 - k]) == sequence@[k].complement());
    }
    assert(revc@ =~= reverse_complement_of(sequence@));
    Ok(revc)
}

} // verus!
