use vstd::prelude::*;
use vstd::string::{StrSliceExecFns, StringExecFns};
use crate::alphabet::{Symbol, BYTE_LEX, LEX};

verus! {

/// The test that a symbol is another one than `current`.
pub open spec fn differs_from<T>(current: T) -> spec_fn(T) -> bool {
    |c: T| c != current
}

/// The substitution that puts a symbol at position `pos` of `s`.
pub open spec fn substitute<T>(s: Seq<T>, pos: int) -> spec_fn(T) -> Seq<T> {
    |c: T| s.update(pos, c)
}

/// The canonical symbols other than `current`, in alphabet order.
pub open spec fn alternatives<T: Symbol>(current: T) -> Seq<T> {
    T::alphabet().filter(differs_from(current))
}

/// The variants of `s` at position `pos`: that position holds, in turn, each
/// canonical symbol other than the one that `s` has there.
pub open spec fn substitutions_at<T: Symbol>(s: Seq<T>, pos: int) -> Seq<Seq<T>> {
    alternatives(s[pos]).map_values(substitute(s, pos))
}

/// The function from a position of `s` to the variants of `s` there.
pub open spec fn substitutions_of<T: Symbol>(s: Seq<T>) -> spec_fn(int) -> Seq<Seq<T>> {
    |pos: int| substitutions_at(s, pos)
}

/// The variants of `s` at the positions before `end`, by ascending position.
pub open spec fn mutations_before<T: Symbol>(s: Seq<T>, end: int) -> Seq<Seq<T>> {
    Seq::new(end as nat, substitutions_of(s)).flatten()
}

/// Every sequence that one substitution makes of `s`.
pub open spec fn mutations<T: Symbol>(s: Seq<T>) -> Seq<Seq<T>> {
    mutations_before(s, s.len() as int)
}

/// The variants up to and including a position are those before it, followed
/// by the variants at it.
pub proof fn lemma_mutations_before_step<T: Symbol>(s: Seq<T>, end: int)
    requires
        0 <= end,
    ensures
        mutations_before(s, end + 1) == mutations_before(s, end) + substitutions_at(s, end),
        mutations_before(s, 0) == Seq::<Seq<T>>::empty(),
{
    let f = substitutions_of(s);
    assert(Seq::new((end + 1) as nat, f) =~= Seq::new(end as nat, f).push(f(end)));
    Seq::new(end as nat, f).lemma_flatten_push(f(end));
    assert(Seq::new(0nat, f) =~= Seq::<Seq<Seq<T>>>::empty());
}

/// `m` is `s` with another symbol at position `pos`, a canonical one.
pub open spec fn is_substitution_at<T: Symbol>(m: Seq<T>, s: Seq<T>, pos: int) -> bool {
    &&& 0 <= pos < s.len()
    &&& T::alphabet().contains(m[pos])
    &&& m[pos] != s[pos]
    &&& m == s.update(pos, m[pos])
}

/// `m` is `s` with another symbol, a canonical one, at one position.
pub open spec fn is_mutation_of<T: Symbol>(m: Seq<T>, s: Seq<T>) -> bool {
    exists|pos: int| is_substitution_at(m, s, pos)
}

/// The alternatives to a symbol are the canonical symbols other than it,
/// each once: three of them for a canonical symbol, else four.
pub proof fn lemma_alternatives<T: Symbol>(current: T)
    ensures
        alternatives(current).no_duplicates(),
        forall|c: T| #[trigger]
            alternatives(current).contains(c) <==> T::alphabet().contains(c) && c != current,
        alternatives(current).len() == if T::alphabet().contains(current) {
            3int
        } else {
            4int
        },
{
    T::lemma_alphabet();
    let a = T::alphabet();
    let p = differs_from(current);
    let a3 = a.take(3);
    let a2 = a.take(2);
    let a1 = a.take(1);
    let a0 = a.take(0);
    reveal(Seq::filter);
    assert(a.drop_last() =~= a3);
    assert(a3.drop_last() =~= a2);
    assert(a2.drop_last() =~= a1);
    assert(a1.drop_last() =~= a0);
    assert(a0.filter(p) =~= Seq::<T>::empty());
    let f1 = a1.filter(p);
    let f2 = a2.filter(p);
    let f3 = a3.filter(p);
    let f4 = a.filter(p);
    assert(a1.last() == a[0]);
    assert(a2.last() == a[1]);
    assert(a3.last() == a[2]);
    assert(a.last() == a[3]);
    assert(f1 =~= if p(a[0]) { seq![a[0]] } else { seq![] });
    assert(f2 =~= if p(a[1]) { f1.push(a[1]) } else { f1 });
    assert(f3 =~= if p(a[2]) { f2.push(a[2]) } else { f2 });
    assert(f4 =~= if p(a[3]) { f3.push(a[3]) } else { f3 });
    assert forall|c: T| #[trigger] f4.contains(c) <==> a.contains(c) && c != current by {
        if f4.contains(c) {
            let j = choose|j: int| 0 <= j < f4.len() && f4[j] == c;
            assert(c == a[0] || c == a[1] || c == a[2] || c == a[3]);
            assert(p(c));
        }
        if a.contains(c) && c != current {
            let j = choose|j: int| 0 <= j < a.len() && a[j] == c;
            assert(p(c));
            if j == 0 {
                assert(f1[0] == c);
                assert(f4[0] == c);
            } else if j == 1 {
                assert(f2[f2.len() - 1] == c);
                assert(f4[f2.len() - 1] == c);
            } else if j == 2 {
                assert(f3[f3.len() - 1] == c);
                assert(f4[f3.len() - 1] == c);
            } else {
                assert(f4[f4.len() - 1] == c);
            }
        }
    }
    if a.contains(current) {
        let j = choose|j: int| 0 <= j < a.len() && a[j] == current;
        assert(f4.len() == 3);
    } else {
        assert(p(a[0]) && p(a[1]) && p(a[2]) && p(a[3]));
    }
}

/// The variants at a position are the substitutions there, each once.
pub proof fn lemma_substitutions_at<T: Symbol>(s: Seq<T>, pos: int)
    requires
        0 <= pos < s.len(),
    ensures
        substitutions_at(s, pos).no_duplicates(),
        substitutions_at(s, pos).len() == alternatives(s[pos]).len(),
        forall|m: Seq<T>| #[trigger]
            substitutions_at(s, pos).contains(m) <==> is_substitution_at(m, s, pos),
{
    lemma_alternatives(s[pos]);
    let alts = alternatives(s[pos]);
    let subs = substitutions_at(s, pos);
    assert forall|i: int, j: int| 0 <= i < subs.len() && 0 <= j < subs.len() && i != j implies subs[i]
        != subs[j] by {
        assert(subs[i][pos] == alts[i]);
        assert(subs[j][pos] == alts[j]);
    }
    assert forall|m: Seq<T>| #[trigger] subs.contains(m) <==> is_substitution_at(m, s, pos) by {
        if subs.contains(m) {
            let j = choose|j: int| 0 <= j < subs.len() && subs[j] == m;
            assert(m == s.update(pos, alts[j]));
            assert(m[pos] == alts[j]);
            assert(alts.contains(alts[j]));
        }
        if is_substitution_at(m, s, pos) {
            assert(alts.contains(m[pos]));
            let j = choose|j: int| 0 <= j < alts.len() && alts[j] == m[pos];
            assert(subs[j] == m);
        }
    }
}

/// The variants before a position are the substitutions at the positions
/// before it, each once.
pub proof fn lemma_mutations_before<T: Symbol>(s: Seq<T>, end: int)
    requires
        0 <= end <= s.len(),
    ensures
        mutations_before(s, end).no_duplicates(),
        forall|m: Seq<T>| #[trigger]
            mutations_before(s, end).contains(m) <==> exists|pos: int|
                pos < end && is_substitution_at(m, s, pos),
    decreases end,
{
    if end == 0 {
        lemma_mutations_before_step(s, 0);
    } else {
        let earlier = mutations_before(s, end - 1);
        let here = substitutions_at(s, end - 1);
        lemma_mutations_before(s, end - 1);
        lemma_mutations_before_step(s, end - 1);
        lemma_substitutions_at(s, end - 1);
        assert forall|i: int, j: int| 0 <= i < earlier.len() && 0 <= j < here.len() implies earlier[i]
            != here[j] by {
            let m = earlier[i];
            assert(earlier.contains(m));
            assert(here.contains(here[j]));
            if m == here[j] {
                let pos = choose|pos: int| pos < end - 1 && is_substitution_at(m, s, pos);
                assert(is_substitution_at(m, s, end - 1));
                assert(m[pos] == s.update(end - 1, m[end - 1])[pos]);
            }
        }
        vstd::seq_lib::lemma_no_dup_in_concat(earlier, here);
        let all = mutations_before(s, end);
        assert forall|m: Seq<T>| #[trigger] all.contains(m) <==> exists|pos: int|
            pos < end && is_substitution_at(m, s, pos) by {
            if all.contains(m) {
                let i = choose|i: int| 0 <= i < all.len() && all[i] == m;
                if i < earlier.len() {
                    assert(earlier.contains(earlier[i]));
                    let pos = choose|pos: int| pos < end - 1 && is_substitution_at(m, s, pos);
                    assert(pos < end && is_substitution_at(m, s, pos));
                } else {
                    assert(here.contains(here[i - earlier.len()]));
                    assert(end - 1 < end && is_substitution_at(m, s, end - 1));
                }
            }
            if exists|pos: int| pos < end && is_substitution_at(m, s, pos) {
                let pos = choose|pos: int| pos < end && is_substitution_at(m, s, pos);
                if pos < end - 1 {
                    assert(earlier.contains(m));
                    let i = choose|i: int| 0 <= i < earlier.len() && earlier[i] == m;
                    assert(all[i] == m);
                } else {
                    assert(here.contains(m));
                    let j = choose|j: int| 0 <= j < here.len() && here[j] == m;
                    assert(all[earlier.len() + j] == m);
                }
            }
        }
    }
}

/// The mutations of a sequence are the sequences that differ from it by one
/// substitution of a canonical symbol, each once.
pub proof fn lemma_mutations<T: Symbol>(s: Seq<T>)
    ensures
        mutations(s).no_duplicates(),
        forall|m: Seq<T>| #[trigger] mutations(s).contains(m) <==> is_mutation_of(m, s),
{
    lemma_mutations_before(s, s.len() as int);
    assert forall|m: Seq<T>| #[trigger] mutations(s).contains(m) <==> is_mutation_of(m, s) by {
        if mutations(s).contains(m) {
            let pos = choose|pos: int| pos < s.len() && is_substitution_at(m, s, pos);
            assert(is_substitution_at(m, s, pos));
        }
        if is_mutation_of(m, s) {
            let pos = choose|pos: int| is_substitution_at(m, s, pos);
            assert(pos < s.len() && is_substitution_at(m, s, pos));
        }
    }
}

/// A sequence is canonical where each of its symbols is of the alphabet.
pub open spec fn is_canonical<T: Symbol>(s: Seq<T>) -> bool {
    forall|i: int| 0 <= i < s.len() ==> T::alphabet().contains(#[trigger] s[i])
}

/// A canonical sequence has three variants at each position before `end`.
pub proof fn lemma_mutations_before_len<T: Symbol>(s: Seq<T>, end: int)
    requires
        0 <= end <= s.len(),
        is_canonical(s),
    ensures
        mutations_before(s, end).len() == 3 * end,
    decreases end,
{
    if end == 0 {
        lemma_mutations_before_step(s, 0);
    } else {
        lemma_mutations_before_len(s, end - 1);
        lemma_mutations_before_step(s, end - 1);
        lemma_substitutions_at(s, end - 1);
        lemma_alternatives(s[end - 1]);
    }
}

/// A canonical sequence of length `L` has exactly `3 L` mutations; they
/// differ from each other, and none is the sequence itself.
pub proof fn lemma_mutations_of_canonical<T: Symbol>(s: Seq<T>)
    requires
        is_canonical(s),
    ensures
        mutations(s).len() == 3 * s.len(),
        mutations(s).no_duplicates(),
        !mutations(s).contains(s),
{
    lemma_mutations_before_len(s, s.len() as int);
    lemma_mutations(s);
    if mutations(s).contains(s) {
        let pos = choose|pos: int| is_substitution_at(s, s, pos);
        assert(false);
    }
}

/// A borrowed sequence of characters and its single-position mutations.
pub struct Sequence<'a> {
    seq: &'a str,
}

impl<'a> View for Sequence<'a> {
    type V = Seq<char>;

    closed spec fn view(&self) -> Seq<char> {
        self.seq@
    }
}

impl<'a> Sequence<'a> {
    /// Instantiates a new sequence
    pub fn new(seq: &'a str) -> (s: Self)
        ensures
            s@ == seq@,
    {
        Self { seq }
    }

    /// Returns the internal sequence length, counted in characters
    pub fn len(&self) -> (n: usize)
        ensures
            n == self@.len(),
    {
        self.seq.unicode_len()
    }

    /// Creates the sequence from raw parts
    pub fn build_mutation(&self, prefix: &str, suffix: &str, insertion: &char) -> (sequence: String)
        ensures
            sequence@ == prefix@.push(*insertion) + suffix@,
    {
        let mut sequence = String::new();
        sequence.append(prefix);
        sequence.push(*insertion);
        sequence.append(suffix);
        assert(sequence@ =~= prefix@.push(*insertion) + suffix@);
        sequence
    }

    /// Generates all mutations of the sequence at the specified position
    pub fn mutate_position(&self, pos: usize) -> (muts: Vec<String>)
        requires
            pos < self@.len(),
        ensures
            muts.deep_view() == substitutions_at(self@, pos as int),
    {
        let n = self.len();
        let prefix = self.seq.substring_char(0, pos);
        let suffix = self.seq.substring_char(pos + 1, n);
        let current = self.seq.get_char(pos);
        let ghost differs = differs_from(current);
        let ghost vary = substitute(self@, pos as int);
        let mut muts: Vec<String> = Vec::new();
        let mut k: usize = 0;
        assert(muts.deep_view() =~= char::alphabet().take(0).filter(differs).map_values(vary)) by {
            reveal(Seq::filter);
        }
        while k < 4
            invariant
                k <= 4,
                pos < self@.len(),
                current == self@[pos as int],
                prefix@ == self@.subrange(0, pos as int),
                suffix@ == self@.subrange(pos + 1, self@.len() as int),
                differs == differs_from(current),
                vary == substitute(self@, pos as int),
                muts.deep_view() == char::alphabet().take(k as int).filter(differs).map_values(vary),
            decreases 4 - k,
        {
            let c = LEX[k];
            let ghost before = muts.deep_view();
            let ghost kept = char::alphabet().take(k as int).filter(differs);
            proof {
                reveal(Seq::filter);
                assert(char::alphabet().take(k + 1).drop_last() =~= char::alphabet().take(k as int));
                assert(char::alphabet().take(k + 1).last() == c);
            }
            if c != current {
                let m = self.build_mutation(prefix, suffix, &c);
                assert(m@ =~= self@.update(pos as int, c));
                muts.push(m);
                assert(muts.deep_view() =~= before.push(vary(c)));
                assert(char::alphabet().take(k + 1).filter(differs) == kept.push(c));
                assert(kept.push(c).map_values(vary) =~= kept.map_values(vary).push(vary(c)));
            } else {
                assert(char::alphabet().take(k + 1).filter(differs) == kept);
            }
            k += 1;
        }
        assert(char::alphabet().take(4) =~= char::alphabet());
        muts
    }

    /// Generates all mutations of the sequence
    pub fn mutate_all(&self) -> (muts: Vec<String>)
        ensures
            muts.deep_view() == mutations(self@),
    {
        let n = self.len();
        let mut muts: Vec<String> = Vec::new();
        let mut idx: usize = 0;
        proof {
            lemma_mutations_before_step(self@, 0);
            assert(muts.deep_view() =~= mutations_before(self@, 0));
        }
        while idx < n
            invariant
                idx <= n,
                n == self@.len(),
                muts.deep_view() == mutations_before(self@, idx as int),
            decreases n - idx,
        {
            let ghost before = muts.deep_view();
            let mut batch = self.mutate_position(idx);
            let ghost added = batch.deep_view();
            muts.append(&mut batch);
            proof {
                lemma_mutations_before_step(self@, idx as int);
                assert(muts.deep_view() =~= before + added);
            }
            idx += 1;
        }
        muts
    }
}

/// A borrowed sequence of bytes and its single-position mutations.
pub struct ByteSequence<'a> {
    seq: &'a [u8],
}

impl<'a> View for ByteSequence<'a> {
    type V = Seq<u8>;

    closed spec fn view(&self) -> Seq<u8> {
        self.seq@
    }
}

impl<'a> ByteSequence<'a> {
    /// Instantiates a new sequence
    pub fn new(seq: &'a [u8]) -> (s: Self)
        ensures
            s@ == seq@,
    {
        Self { seq }
    }

    /// Returns the internal sequence length
    pub fn len(&self) -> (n: usize)
        ensures
            n == self@.len(),
    {
        self.seq.len()
    }

    /// Creates the sequence from raw parts
    pub fn build_mutation(&self, prefix: &[u8], suffix: &[u8], insertion: &u8) -> (sequence: Vec<u8>)
        ensures
            sequence@ == prefix@.push(*insertion) + suffix@,
    {
        let mut sequence = Vec::with_capacity(self.len());
        sequence.extend_from_slice(prefix);
        sequence.push(*insertion);
        sequence.extend_from_slice(suffix);
        assert(sequence@ =~= prefix@.push(*insertion) + suffix@);
        sequence
    }

    /// Generates all mutations of the sequence at the specified position
    pub fn mutate_position(&self, pos: usize) -> (muts: Vec<Vec<u8>>)
        requires
            pos < self@.len(),
        ensures
            muts.deep_view() == substitutions_at(self@, pos as int),
    {
        let n = self.seq.len();
        let (prefix, poschar) = self.seq.split_at(pos);
        let (_, suffix) = self.seq.split_at(pos + 1);
        let current = poschar[0];
        let ghost differs = differs_from(current);
        let ghost vary = substitute(self@, pos as int);
        let mut muts: Vec<Vec<u8>> = Vec::new();
        let mut k: usize = 0;
        assert(muts.deep_view() =~= u8::alphabet().take(0).filter(differs).map_values(vary)) by {
            reveal(Seq::filter);
        }
        while k < 4
            invariant
                k <= 4,
                pos < self@.len(),
                current == self@[pos as int],
                prefix@ == self@.subrange(0, pos as int),
                suffix@ == self@.subrange(pos + 1, self@.len() as int),
                differs == differs_from(current),
                vary == substitute(self@, pos as int),
                muts.deep_view() == u8::alphabet().take(k as int).filter(differs).map_values(vary),
            decreases 4 - k,
        {
            let c = BYTE_LEX[k];
            let ghost before = muts.deep_view();
            let ghost kept = u8::alphabet().take(k as int).filter(differs);
            proof {
                reveal(Seq::filter);
                assert(u8::alphabet().take(k + 1).drop_last() =~= u8::alphabet().take(k as int));
                assert(u8::alphabet().take(k + 1).last() == c);
            }
            if c != current {
                let m = self.build_mutation(prefix, suffix, &c);
                assert(m@ =~= self@.update(pos as int, c));
                assert(m.deep_view() =~= m@);
                muts.push(m);
                assert(muts.deep_view() =~= before.push(vary(c)));
                assert(u8::alphabet().take(k + 1).filter(differs) == kept.push(c));
                assert(kept.push(c).map_values(vary) =~= kept.map_values(vary).push(vary(c)));
            } else {
                assert(u8::alphabet().take(k + 1).filter(differs) == kept);
            }
            k += 1;
        }
        assert(u8::alphabet().take(4) =~= u8::alphabet());
        muts
    }

    /// Generates all mutations of the sequence
    pub fn mutate_all(&self) -> (muts: Vec<Vec<u8>>)
        ensures
            muts.deep_view() == mutations(self@),
    {
        let n = self.len();
        let mut muts: Vec<Vec<u8>> = Vec::new();
        let mut idx: usize = 0;
        proof {
            lemma_mutations_before_step(self@, 0);
            assert(muts.deep_view() =~= mutations_before(self@, 0));
        }
        while idx < n
            invariant
                idx <= n,
                n == self@.len(),
                muts.deep_view() == mutations_before(self@, idx as int),
            decreases n - idx,
        {
            let ghost before = muts.deep_view();
            let mut batch = self.mutate_position(idx);
            let ghost added = batch.deep_view();
            muts.append(&mut batch);
            proof {
                lemma_mutations_before_step(self@, idx as int);
                assert(muts.deep_view() =~= before + added);
            }
            idx += 1;
        }
        muts
    }
}

} // verus!
