use std::borrow::Borrow;
use std::rc::Rc;
use hashbrown::{HashMap, HashSet};
use vstd::prelude::*;
use vstd::slice::slice_to_vec;
use crate::error::Error;
use crate::index::{with_reverse_complements, Index};
use crate::sequence::ByteSequence;
use crate::utils::{is_valid, lemma_mutations_of_valid, reverse_complement_bytes, reverse_complement_of};

verus! {

/// A sequence of bytes behind a shared handle, so that the index can
/// hold one parent in many places.
#[derive(Debug, Hash, Eq, PartialEq, Clone)]
pub struct ByteWrapper(pub Rc<Vec<u8>>);

impl View for ByteWrapper {
    type V = Seq<u8>;

    open spec fn view(&self) -> Seq<u8> {
        self.0@
    }
}

/// A wrapper is borrowed as the sequence it holds, and it hashes and compares
/// as that sequence does: a set or a map of wrappers is searched by a plain
/// sequence.
impl Borrow<[u8]> for ByteWrapper {
    fn borrow(&self) -> (s: &[u8])
        ensures
            ({
                let borrowed: &[u8] = s;
                borrowed@ == self@
            }),
    {
        self.0.as_slice()
    }
}

impl ByteWrapper {
    /// The bytes of the sequence.
    pub fn sequence(&self) -> (s: &[u8])
        ensures
            s@ == self@,
    {
        self.0.as_slice()
    }

    /// Another handle to the same sequence. Calls `Rc::clone`, which copies
    /// the handle and leaves the bytes as they are.
    #[verifier::external_body]
    fn share(&self) -> (w: Self)
        ensures
            w@ == self@,
    {
        ByteWrapper(Rc::clone(&self.0))
    }
}

/// A hash set of sequences. It holds a `hashbrown::HashSet`, which Verus
/// does not look into: what it contains goes by the name [`byte_set_items`].
#[verifier::external_body]
#[derive(Debug)]
pub struct ByteSet {
    inner: HashSet<ByteWrapper>,
}

/// The sequences that a set holds.
pub uninterp spec fn byte_set_items(set: ByteSet) -> Set<Seq<u8>>;

/// A hash map from sequences to sequences. It holds a `hashbrown::HashMap`,
/// which Verus does not look into: what it contains goes by the name
/// [`byte_map_items`].
#[verifier::external_body]
#[derive(Debug)]
pub struct ByteMap {
    inner: HashMap<ByteWrapper, ByteWrapper>,
}

/// The keys that a map holds, each with its value.
pub uninterp spec fn byte_map_items(map: ByteMap) -> Map<Seq<u8>, Seq<u8>>;

/// `HashSet::new`: a set that holds nothing.
#[verifier::external_body]
fn set_new() -> (set: ByteSet)
    ensures
        byte_set_items(set) == Set::<Seq<u8>>::empty(),
{
    ByteSet { inner: HashSet::new() }
}

/// `HashSet::len`: how many sequences the set holds.
#[verifier::external_body]
fn set_len(set: &ByteSet) -> (n: usize)
    ensures
        n == byte_set_items(*set).len(),
{
    set.inner.len()
}

/// `HashSet::contains`: whether the set holds a sequence equal to `key`.
#[verifier::external_body]
fn set_contains(set: &ByteSet, key: &[u8]) -> (found: bool)
    ensures
        found == byte_set_items(*set).contains(key@),
{
    set.inner.contains(key)
}

/// `HashSet::get`: the set's own sequence equal to `key`, if it holds one.
#[verifier::external_body]
fn set_get<'a>(set: &'a ByteSet, key: &[u8]) -> (found: Option<&'a ByteWrapper>)
    ensures
        found is Some == byte_set_items(*set).contains(key@),
        found matches Some(w) ==> w@ == key@,
{
    set.inner.get(key)
}

/// `HashSet::insert`: the set holds `key` afterwards, and what it held
/// before; the result says whether `key` is new to it.
#[verifier::external_body]
fn set_insert(set: &mut ByteSet, key: ByteWrapper) -> (fresh: bool)
    ensures
        byte_set_items(*final(set)) == byte_set_items(*old(set)).insert(key@),
        fresh == !byte_set_items(*old(set)).contains(key@),
{
    set.inner.insert(key)
}

/// `HashMap::new`: a map that holds nothing.
#[verifier::external_body]
fn map_new() -> (table: ByteMap)
    ensures
        byte_map_items(table).dom() == Set::<Seq<u8>>::empty(),
{
    ByteMap { inner: HashMap::new() }
}

/// `HashMap::len`: how many keys the map holds.
#[verifier::external_body]
fn map_len(map: &ByteMap) -> (n: usize)
    ensures
        n == byte_map_items(*map).dom().len(),
{
    map.inner.len()
}

/// `HashMap::contains_key`: whether the map holds a key equal to `key`.
#[verifier::external_body]
fn map_contains_key(map: &ByteMap, key: &[u8]) -> (found: bool)
    ensures
        found == byte_map_items(*map).dom().contains(key@),
{
    map.inner.contains_key(key)
}

/// `HashMap::get`: the value under the key equal to `key`, if there is one.
#[verifier::external_body]
fn map_get<'a>(map: &'a ByteMap, key: &[u8]) -> (found: Option<&'a ByteWrapper>)
    ensures
        found is Some == byte_map_items(*map).dom().contains(key@),
        found matches Some(w) ==> w@ == byte_map_items(*map)[key@],
{
    map.inner.get(key)
}

/// `HashMap::insert`: the map holds `value` under `key` afterwards, in place
/// of what it held there; the result is the value it held there.
#[verifier::external_body]
fn map_insert(map: &mut ByteMap, key: ByteWrapper, value: ByteWrapper) -> (previous: Option<
    ByteWrapper,
>)
    ensures
        byte_map_items(*final(map)) == byte_map_items(*old(map)).insert(key@, value@),
        previous is Some == byte_map_items(*old(map)).dom().contains(key@),
        previous matches Some(w) ==> w@ == byte_map_items(*old(map))[key@],
{
    map.inner.insert(key, value)
}

/// `HashMap::remove`: the map holds no key equal to `key` afterwards; the
/// result is the value it held under it.
#[verifier::external_body]
fn map_remove(map: &mut ByteMap, key: &[u8]) -> (previous: Option<ByteWrapper>)
    ensures
        byte_map_items(*final(map)) == byte_map_items(*old(map)).remove(key@),
        previous is Some == byte_map_items(*old(map)).dom().contains(key@),
        previous matches Some(w) ==> w@ == byte_map_items(*old(map))[key@],
{
    map.inner.remove(key)
}

impl View for ByteSet {
    type V = Set<Seq<u8>>;

    open spec fn view(&self) -> Set<Seq<u8>> {
        byte_set_items(*self)
    }
}

impl View for ByteMap {
    type V = Map<Seq<u8>, Seq<u8>>;

    open spec fn view(&self) -> Map<Seq<u8>, Seq<u8>> {
        byte_map_items(*self)
    }
}

impl ByteSet {
    /// The number of sequences in the set.
    pub fn len(&self) -> (n: usize)
        ensures
            n == self@.len(),
    {
        set_len(self)
    }

    /// Whether the set holds `seq`.
    pub fn contains(&self, seq: &[u8]) -> (found: bool)
        ensures
            found == self@.contains(seq@),
    {
        set_contains(self, seq)
    }
}

impl ByteMap {
    /// The number of keys in the map.
    pub fn len(&self) -> (n: usize)
        ensures
            n == self@.dom().len(),
    {
        map_len(self)
    }

    /// Whether the map has the key `seq`.
    pub fn contains_key(&self, seq: &[u8]) -> (found: bool)
        ensures
            found == self@.dom().contains(seq@),
    {
        map_contains_key(self, seq)
    }

    /// The value under the key `seq`, if the map has that key.
    pub fn get(&self, seq: &[u8]) -> (found: Option<&ByteWrapper>)
        ensures
            found is Some == self@.dom().contains(seq@),
            found matches Some(w) ==> w@ == self@[seq@],
    {
        map_get(self, seq)
    }
}

/// The disambiguation index over sequences of bytes.
#[derive(Debug)]
pub struct Disambibyte {
    unambiguous: ByteMap,
    parents: ByteSet,
    ambiguous: ByteSet,
    null: ByteSet,
}

impl View for Disambibyte {
    type V = Index<u8>;

    closed spec fn view(&self) -> Index<u8> {
        Index {
            parents: self.parents@,
            unambiguous: self.unambiguous@,
            ambiguous: self.ambiguous@,
            frozen: self.null@,
        }
    }
}

impl Disambibyte {
    /// An index that holds nothing.
    pub fn new() -> (index: Self)
        ensures
            index@ == Index::<u8>::empty(),
            index@.wf(),
    {
        let index = Self {
            unambiguous: map_new(),
            parents: set_new(),
            ambiguous: set_new(),
            null: set_new(),
        };
        assert(index@.unambiguous =~= Map::empty());
        index
    }

    /// Classifies one sequence derived from `parent`.
    fn insert_alias(&mut self, child: Vec<u8>, parent: &ByteWrapper)
        ensures
            final(self)@ == old(self)@.classify(child@, parent@),
    {
        let child = ByteWrapper(Rc::new(child));

        // skip ambiguous, parental and frozen sequences
        if set_contains(&self.ambiguous, child.sequence()) || set_contains(
            &self.parents,
            child.sequence(),
        ) || set_contains(&self.null, child.sequence()) {
            return ;
        }
        // a sequence that was seen before becomes ambiguous

        if map_contains_key(&self.unambiguous, child.sequence()) {
            let _ = map_remove(&mut self.unambiguous, child.sequence());
            let _ = set_insert(&mut self.ambiguous, child);
        } else {
            let _ = map_insert(&mut self.unambiguous, child, parent.share());
        }
    }

    /// Inserts a parent sequence with which to create all unambiguous
    /// point mutations.
    pub fn insert(&mut self, parent: &[u8])
        ensures
            final(self)@ == old(self)@.insert(parent@),
            old(self)@.wf() ==> final(self)@.wf(),
    {
        if set_contains(&self.parents, parent) {
            return ;
        }
        let parent = ByteWrapper(Rc::new(slice_to_vec(parent)));
        let _ = set_insert(&mut self.parents, parent.share());
        if map_contains_key(&self.unambiguous, parent.sequence()) {
            let _ = map_remove(&mut self.unambiguous, parent.sequence());
        }
        assert(self@ =~= old(self)@.register(parent@));
        let muts = ByteSequence::new(parent.sequence()).mutate_all();
        self.insert_aliases(muts, &parent);
        proof {
            if old(self)@.wf() {
                old(self)@.lemma_insert_wf(parent@);
            }
        }
    }

    /// Inserts a parent sequence with which to create all unambiguous
    /// point mutations as well as the reverse complement of those sequences.
    ///
    /// A parent that holds a symbol without a complement is rejected and the
    /// index stays as it is, unless the parent is in the index already.
    pub fn insert_with_reverse_complement(&mut self, parent: &[u8]) -> (res: Result<(), Error>)
        ensures
            res is Err <==> !old(self)@.parents.contains(parent@) && !is_valid(parent@),
            res is Ok ==> final(self)@ == old(self)@.insert_with_reverse_complement(parent@),
            res is Err ==> final(self)@ == old(self)@,
            old(self)@.wf() ==> final(self)@.wf(),
    {
        if set_contains(&self.parents, parent) {
            return Ok(());
        }
        let parent_revc = match reverse_complement_bytes(parent) {
            Ok(revc) => ByteWrapper(Rc::new(revc)),
            Err(e) => {
                return Err(e);
            },
        };
        let parent = ByteWrapper(Rc::new(slice_to_vec(parent)));
        let _ = set_insert(&mut self.parents, parent.share());
        if map_contains_key(&self.unambiguous, parent.sequence()) {
            let _ = map_remove(&mut self.unambiguous, parent.sequence());
        }
        // insert parent reverse complement with potential overwriting

        let _ = map_insert(&mut self.unambiguous, parent_revc.share(), parent.share());

        // freeze the reverse complement of the parent
        let _ = set_insert(&mut self.null, parent_revc);
        assert(self@ =~= old(self)@.register(parent@).freeze(
            reverse_complement_of(parent@),
            parent@,
        ));
        let muts = ByteSequence::new(parent.sequence()).mutate_all();
        proof {
            lemma_mutations_of_valid(parent@);
            assert forall|i: int| 0 <= i < muts@.len() implies is_valid(#[trigger] muts@[i]@) by {
                assert(muts@[i]@ == muts.deep_view()[i]);
            }
        }
        self.insert_oriented_aliases(muts, &parent);
        proof {
            if old(self)@.wf() {
                old(self)@.lemma_insert_with_reverse_complement_wf(parent@);
            }
        }
        Ok(())
    }

    /// Classifies each of the sequences, preceded by its reverse complement;
    /// all of them are derived from `parent`.
    fn insert_oriented_aliases(&mut self, children: Vec<Vec<u8>>, parent: &ByteWrapper)
        requires
            forall|i: int| 0 <= i < children@.len() ==> is_valid(#[trigger] children@[i]@),
        ensures
            final(self)@ == old(self)@.classify_all(
                with_reverse_complements(children.deep_view()),
                parent@,
            ),
    {
        let ghost all = children.deep_view();
        let ghost start = self@;
        assert(all.take(0) =~= Seq::<Seq<u8>>::empty());
        for child in it: children.into_iter()
            invariant
                it.seq() == children@,
                all == children.deep_view(),
                forall|i: int| 0 <= i < children@.len() ==> is_valid(#[trigger] children@[i]@),
                self@ == start.classify_all(
                    with_reverse_complements(all.take(it.index())),
                    parent@,
                ),
        {
            let ghost before = self@;
            let ghost done = with_reverse_complements(all.take(it.index()));
            let ghost revc_of_child = reverse_complement_of(child@);
            proof {
                assert(is_valid(children@[it.index()]@));
                assert(child@ == all[it.index()]);
                assert(all.take(it.index() + 1).drop_last() =~= all.take(it.index()));
                assert(all.take(it.index() + 1).last() == child@);
                let both = with_reverse_complements(all.take(it.index() + 1));
                assert(both == done.push(revc_of_child).push(child@));
                assert(both.drop_last() =~= done.push(revc_of_child));
                assert(both.drop_last().drop_last() =~= done);
                assert(both.last() == child@);
                assert(both.drop_last().last() == revc_of_child);
                assert(start.classify_all(both.drop_last(), parent@) == before.classify(
                    revc_of_child,
                    parent@,
                ));
                assert(start.classify_all(both, parent@) == before.classify(
                    revc_of_child,
                    parent@,
                ).classify(child@, parent@));
            }
            if let Ok(revc) = reverse_complement_bytes(child.as_slice()) {
                self.insert_alias(revc, parent);
            }
            self.insert_alias(child, parent);
        }
        assert(all.take(all.len() as int) =~= all);
    }

    /// An index of the parents, inserted in the order given.
    pub fn from_slice(sequences: &[Vec<u8>]) -> (index: Self)
        ensures
            index@ == Index::<u8>::empty().insert_all(sequences.deep_view()),
            index@.wf(),
    {
        let mut dsq = Self::new();
        let ghost all = sequences.deep_view();
        assert(all.take(0) =~= Seq::<Seq<u8>>::empty());
        let n = sequences.len();
        let mut i: usize = 0;
        while i < n
            invariant
                i <= n,
                n == sequences@.len(),
                all == sequences.deep_view(),
                dsq@.wf(),
                dsq@ == Index::<u8>::empty().insert_all(all.take(i as int)),
            decreases n - i,
        {
            proof {
                assert(all.take(i + 1).drop_last() =~= all.take(i as int));
                assert(all[i as int] =~= sequences[i as int]@);
            }
            dsq.insert(sequences[i].as_slice());
            i += 1;
        }
        assert(all.take(n as int) =~= all);
        dsq
    }

    /// The parent that `seq` resolves to: `seq` itself where it is a parent,
    /// else the one parent that it derives from, if there is exactly one.
    pub fn get_parent(&self, seq: &[u8]) -> (found: Option<&ByteWrapper>)
        ensures
            found is Some == self@.get_parent(seq@) is Some,
            found matches Some(p) ==> self@.get_parent(seq@) == Some(p@),
    {
        if let Some(p) = set_get(&self.parents, seq) {
            Some(p)
        } else {
            map_get(&self.unambiguous, seq)
        }
    }

    /// The parents of the index.
    pub fn parents(&self) -> (set: &ByteSet)
        ensures
            set@ == self@.parents,
    {
        &self.parents
    }

    /// The derived sequences that more than one parent reaches.
    pub fn ambiguous(&self) -> (set: &ByteSet)
        ensures
            set@ == self@.ambiguous,
    {
        &self.ambiguous
    }

    /// The derived sequences with one origin, each with its parent.
    pub fn unambiguous(&self) -> (map: &ByteMap)
        ensures
            map@ == self@.unambiguous,
    {
        &self.unambiguous
    }

    /// Classifies each of the sequences, all of them derived from `parent`.
    fn insert_aliases(&mut self, children: Vec<Vec<u8>>, parent: &ByteWrapper)
        ensures
            final(self)@ == old(self)@.classify_all(children.deep_view(), parent@),
    {
        let ghost all = children.deep_view();
        let ghost start = self@;
        assert(all.take(0) =~= Seq::<Seq<u8>>::empty());
        for child in it: children.into_iter()
            invariant
                it.seq() == children@,
                all == children.deep_view(),
                self@ == start.classify_all(all.take(it.index()), parent@),
        {
            proof {
                assert(all.take(it.index() + 1).drop_last() =~= all.take(it.index()));
                assert(all[it.index()] =~= child@);
            }
            self.insert_alias(child, parent);
        }
        assert(all.take(all.len() as int) =~= all);
    }
}

} // verus!
