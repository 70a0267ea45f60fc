use vstd::prelude::*;
use crate::alphabet::Symbol;
use crate::sequence::mutations;
use crate::utils::reverse_complement_of;

verus! {

/// What a disambiguation index holds, as mathematical sets and a map.
#[verifier::ext_equal]
#[verifier::reject_recursive_types(T)]
pub struct Index<T> {
    /// The sequences that were inserted.
    pub parents: Set<Seq<T>>,
    /// Each derived sequence that has one known origin, with that parent.
    pub unambiguous: Map<Seq<T>, Seq<T>>,
    /// The derived sequences that several parents reach.
    pub ambiguous: Set<Seq<T>>,
    /// The derived sequences pinned to a parent and kept from classification.
    pub frozen: Set<Seq<T>>,
}

impl<T> Index<T> {
    /// The index that holds nothing.
    pub open spec fn empty() -> Self {
        Index {
            parents: Set::empty(),
            unambiguous: Map::empty(),
            ambiguous: Set::empty(),
            frozen: Set::empty(),
        }
    }

    /// The invariant of an index: its sets are finite, every derived sequence
    /// maps to a parent, and a derived sequence that is not frozen is neither
    /// a parent nor ambiguous.
    pub open spec fn wf(self) -> bool {
        &&& self.parents.finite()
        &&& self.unambiguous.dom().finite()
        &&& self.ambiguous.finite()
        &&& self.frozen.finite()
        &&& forall|k: Seq<T>| #[trigger]
            self.unambiguous.dom().contains(k) ==> self.parents.contains(self.unambiguous[k])
        &&& forall|k: Seq<T>| #[trigger]
            self.unambiguous.dom().contains(k) && !self.frozen.contains(k)
                ==> !self.parents.contains(k) && !self.ambiguous.contains(k)
    }

    /// Whether classification passes over `candidate`: it is ambiguous, a
    /// parent, or frozen.
    pub open spec fn skips(self, candidate: Seq<T>) -> bool {
        self.ambiguous.contains(candidate) || self.parents.contains(candidate)
            || self.frozen.contains(candidate)
    }

    /// The index after one candidate derived from `parent` was classified.
    pub open spec fn classify(self, candidate: Seq<T>, parent: Seq<T>) -> Self {
        if self.skips(candidate) {
            self
        } else if self.unambiguous.dom().contains(candidate) {
            Index {
                unambiguous: self.unambiguous.remove(candidate),
                ambiguous: self.ambiguous.insert(candidate),
                ..self
            }
        } else {
            Index { unambiguous: self.unambiguous.insert(candidate, parent), ..self }
        }
    }

    /// The index after the candidates were classified one after another.
    pub open spec fn classify_all(self, candidates: Seq<Seq<T>>, parent: Seq<T>) -> Self
        decreases candidates.len(),
    {
        if candidates.len() == 0 {
            self
        } else {
            self.classify_all(candidates.drop_last(), parent).classify(candidates.last(), parent)
        }
    }

    /// The index after `parent` joined the parents: a parent is no derived
    /// sequence any more.
    pub open spec fn register(self, parent: Seq<T>) -> Self {
        Index {
            parents: self.parents.insert(parent),
            unambiguous: self.unambiguous.remove(parent),
            ..self
        }
    }

    /// The index after `derived` was pinned to `parent`, whatever it was before.
    pub open spec fn freeze(self, derived: Seq<T>, parent: Seq<T>) -> Self {
        Index {
            unambiguous: self.unambiguous.insert(derived, parent),
            frozen: self.frozen.insert(derived),
            ..self
        }
    }

    /// The parent that a sequence resolves to: itself where it is a parent,
    /// else its one origin, if it has one.
    pub open spec fn get_parent(self, seq: Seq<T>) -> Option<Seq<T>> {
        if self.parents.contains(seq) {
            Some(seq)
        } else if self.unambiguous.dom().contains(seq) {
            Some(self.unambiguous[seq])
        } else {
            None
        }
    }
}

impl<T> Index<T> {
    /// Classification keeps the invariant, where the candidate comes from a
    /// parent of the index.
    pub proof fn lemma_classify_wf(self, candidate: Seq<T>, parent: Seq<T>)
        requires
            self.wf(),
            self.parents.contains(parent),
        ensures
            self.classify(candidate, parent).wf(),
            self.classify(candidate, parent).parents == self.parents,
    {
    }

    /// Classifying a run of candidates keeps the invariant.
    pub proof fn lemma_classify_all_wf(self, candidates: Seq<Seq<T>>, parent: Seq<T>)
        requires
            self.wf(),
            self.parents.contains(parent),
        ensures
            self.classify_all(candidates, parent).wf(),
            self.classify_all(candidates, parent).parents == self.parents,
        decreases candidates.len(),
    {
        if candidates.len() > 0 {
            self.lemma_classify_all_wf(candidates.drop_last(), parent);
            self.classify_all(candidates.drop_last(), parent).lemma_classify_wf(
                candidates.last(),
                parent,
            );
        }
    }
}

impl<T> Index<T> {
    /// Classification leaves the parents and the frozen sequences as they
    /// are, adds to the ambiguous sequences and removes none, and leaves a
    /// frozen sequence with the parent it is pinned to.
    pub proof fn lemma_classify_all_keeps(self, candidates: Seq<Seq<T>>, parent: Seq<T>)
        ensures
            self.classify_all(candidates, parent).parents == self.parents,
            self.classify_all(candidates, parent).frozen == self.frozen,
            self.ambiguous.subset_of(self.classify_all(candidates, parent).ambiguous),
            forall|k: Seq<T>|
                self.skips(k) ==> (#[trigger] self.classify_all(
                    candidates,
                    parent,
                ).unambiguous.dom().contains(k) == self.unambiguous.dom().contains(k)
                    && self.classify_all(candidates, parent).unambiguous[k]
                    == self.unambiguous[k]),
        decreases candidates.len(),
    {
        if candidates.len() > 0 {
            self.lemma_classify_all_keeps(candidates.drop_last(), parent);
        }
    }
}

/// Each sequence of `ms` preceded by its reverse complement.
pub open spec fn with_reverse_complements<T: Symbol>(ms: Seq<Seq<T>>) -> Seq<Seq<T>>
    decreases ms.len(),
{
    if ms.len() == 0 {
        Seq::empty()
    } else {
        with_reverse_complements(ms.drop_last()).push(reverse_complement_of(ms.last())).push(
            ms.last(),
        )
    }
}

impl<T: Symbol> Index<T> {
    /// The index after `parent` was inserted: nothing changes where it is a
    /// parent already; else it joins the parents and each of its mutations is
    /// classified.
    pub open spec fn insert(self, parent: Seq<T>) -> Self {
        if self.parents.contains(parent) {
            self
        } else {
            self.register(parent).classify_all(mutations(parent), parent)
        }
    }

    /// The index after `parent` was inserted in both orientations: its reverse
    /// complement is pinned to it, and each mutation is classified together
    /// with its own reverse complement.
    pub open spec fn insert_with_reverse_complement(self, parent: Seq<T>) -> Self {
        if self.parents.contains(parent) {
            self
        } else {
            self.register(parent).freeze(reverse_complement_of(parent), parent).classify_all(
                with_reverse_complements(mutations(parent)),
                parent,
            )
        }
    }

    /// Insertion keeps the invariant.
    pub proof fn lemma_insert_wf(self, parent: Seq<T>)
        requires
            self.wf(),
        ensures
            self.insert(parent).wf(),
    {
        if !self.parents.contains(parent) {
            self.register(parent).lemma_classify_all_wf(mutations(parent), parent);
        }
    }

    /// Insertion in both orientations keeps the invariant.
    pub proof fn lemma_insert_with_reverse_complement_wf(self, parent: Seq<T>)
        requires
            self.wf(),
        ensures
            self.insert_with_reverse_complement(parent).wf(),
    {
        if !self.parents.contains(parent) {
            self.register(parent).freeze(
                reverse_complement_of(parent),
                parent,
            ).lemma_classify_all_wf(with_reverse_complements(mutations(parent)), parent);
        }
    }

    /// Inserting a parent a second time changes nothing.
    pub proof fn lemma_insert_idempotent(self, parent: Seq<T>)
        ensures
            self.insert(parent).insert(parent) == self.insert(parent),
    {
        self.register(parent).lemma_classify_all_keeps(mutations(parent), parent);
    }

    /// Inserting a parent in both orientations a second time changes nothing.
    pub proof fn lemma_insert_with_reverse_complement_idempotent(self, parent: Seq<T>)
        ensures
            self.insert_with_reverse_complement(parent).insert_with_reverse_complement(parent)
                == self.insert_with_reverse_complement(parent),
    {
        self.register(parent).freeze(reverse_complement_of(parent), parent).lemma_classify_all_keeps(
            with_reverse_complements(mutations(parent)),
            parent,
        );
    }

    /// A sequence that is ambiguous stays ambiguous through every insertion,
    /// and an insertion of a parent alone does not make it a key again.
    pub proof fn lemma_ambiguous_is_permanent(self, parent: Seq<T>, seq: Seq<T>)
        requires
            self.ambiguous.contains(seq),
        ensures
            self.insert(parent).ambiguous.contains(seq),
            self.insert_with_reverse_complement(parent).ambiguous.contains(seq),
            !self.unambiguous.dom().contains(seq) ==> !self.insert(
                parent,
            ).unambiguous.dom().contains(seq),
    {
        self.register(parent).lemma_classify_all_keeps(mutations(parent), parent);
        self.register(parent).freeze(reverse_complement_of(parent), parent).lemma_classify_all_keeps(
            with_reverse_complements(mutations(parent)),
            parent,
        );
    }

    /// A sequence that is ambiguous stays ambiguous however many parents follow.
    pub proof fn lemma_ambiguous_is_permanent_for_all(self, parents: Seq<Seq<T>>, seq: Seq<T>)
        requires
            self.ambiguous.contains(seq),
        ensures
            self.insert_all(parents).ambiguous.contains(seq),
        decreases parents.len(),
    {
        if parents.len() > 0 {
            self.lemma_ambiguous_is_permanent_for_all(parents.drop_last(), seq);
            self.insert_all(parents.drop_last()).lemma_ambiguous_is_permanent(parents.last(), seq);
        }
    }

    /// After a parent was inserted in both orientations, its reverse
    /// complement is frozen and pinned to it; it resolves to that parent
    /// unless it is a parent itself.
    pub proof fn lemma_reverse_complement_is_frozen(self, parent: Seq<T>)
        requires
            !self.parents.contains(parent),
        ensures
            ({
                let after = self.insert_with_reverse_complement(parent);
                let revc = reverse_complement_of(parent);
                &&& after.frozen.contains(revc)
                &&& after.unambiguous.dom().contains(revc)
                &&& after.unambiguous[revc] == parent
                &&& !after.parents.contains(revc) ==> after.get_parent(revc) == Some(parent)
            }),
    {
        self.register(parent).freeze(reverse_complement_of(parent), parent).lemma_classify_all_keeps(
            with_reverse_complements(mutations(parent)),
            parent,
        );
    }

    /// A frozen sequence keeps the parent it is pinned to when another
    /// sequence is inserted as a parent, and resolves as before.
    pub proof fn lemma_frozen_survives_insert(self, parent: Seq<T>, seq: Seq<T>)
        requires
            self.frozen.contains(seq),
            self.unambiguous.dom().contains(seq),
            parent != seq,
        ensures
            self.insert(parent).frozen.contains(seq),
            self.insert(parent).unambiguous.dom().contains(seq),
            self.insert(parent).unambiguous[seq] == self.unambiguous[seq],
            self.insert(parent).get_parent(seq) == self.get_parent(seq),
    {
        self.register(parent).lemma_classify_all_keeps(mutations(parent), parent);
    }

    /// A frozen sequence keeps the parent it is pinned to when another
    /// sequence is inserted in both orientations, unless it is the reverse
    /// complement of that sequence; it resolves as before.
    pub proof fn lemma_frozen_survives_insert_with_reverse_complement(
        self,
        parent: Seq<T>,
        seq: Seq<T>,
    )
        requires
            self.frozen.contains(seq),
            self.unambiguous.dom().contains(seq),
            parent != seq,
            reverse_complement_of(parent) != seq,
        ensures
            self.insert_with_reverse_complement(parent).frozen.contains(seq),
            self.insert_with_reverse_complement(parent).unambiguous.dom().contains(seq),
            self.insert_with_reverse_complement(parent).unambiguous[seq] == self.unambiguous[seq],
            self.insert_with_reverse_complement(parent).get_parent(seq) == self.get_parent(seq),
    {
        self.register(parent).freeze(reverse_complement_of(parent), parent).lemma_classify_all_keeps(
            with_reverse_complements(mutations(parent)),
            parent,
        );
    }

    /// The index after the parents were inserted in the order given.
    pub open spec fn insert_all(self, parents: Seq<Seq<T>>) -> Self
        decreases parents.len(),
    {
        if parents.len() == 0 {
            self
        } else {
            self.insert_all(parents.drop_last()).insert(parents.last())
        }
    }
}

} // verus!
