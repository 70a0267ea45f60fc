use vstd::prelude::*;
use crate::alphabet::Symbol;
use crate::index::Index;
use crate::sequence::{is_mutation_of, lemma_mutations, mutations};

verus! {

/// `parent` is one of the parents, and `seq` is a mutation of it.
pub open spec fn is_origin<T: Symbol>(parents: Set<Seq<T>>, seq: Seq<T>, parent: Seq<T>) -> bool {
    parents.contains(parent) && is_mutation_of(seq, parent)
}

/// `seq` is a mutation of one parent at least.
pub open spec fn has_origin<T: Symbol>(parents: Set<Seq<T>>, seq: Seq<T>) -> bool {
    exists|p: Seq<T>| is_origin(parents, seq, p)
}

/// `seq` is a mutation of two different parents at least.
pub open spec fn has_two_origins<T: Symbol>(parents: Set<Seq<T>>, seq: Seq<T>) -> bool {
    exists|p: Seq<T>, q: Seq<T>|
        #![trigger is_origin(parents, seq, p), is_origin(parents, seq, q)]
        p != q && is_origin(parents, seq, p) && is_origin(parents, seq, q)
}

/// A parent of which `seq` is a mutation, where there is one.
pub open spec fn the_origin<T: Symbol>(parents: Set<Seq<T>>, seq: Seq<T>) -> Seq<T> {
    choose|p: Seq<T>| is_origin(parents, seq, p)
}

/// No parent is a mutation of two other parents.
pub open spec fn parents_apart<T: Symbol>(parents: Set<Seq<T>>) -> bool {
    forall|c: Seq<T>| parents.contains(c) ==> !#[trigger] has_two_origins(parents, c)
}

/// The test that a sequence is no parent and the mutation of one parent only.
pub open spec fn resolves<T: Symbol>(parents: Set<Seq<T>>) -> spec_fn(Seq<T>) -> bool {
    |c: Seq<T>| !parents.contains(c) && has_origin(parents, c) && !has_two_origins(parents, c)
}

/// The test that a sequence is no parent and the mutation of several parents.
pub open spec fn collides<T: Symbol>(parents: Set<Seq<T>>) -> spec_fn(Seq<T>) -> bool {
    |c: Seq<T>| !parents.contains(c) && has_two_origins(parents, c)
}

/// The function from a sequence to a parent of which it is a mutation.
pub open spec fn origin_of<T: Symbol>(parents: Set<Seq<T>>) -> spec_fn(Seq<T>) -> Seq<T> {
    |c: Seq<T>| the_origin(parents, c)
}

/// The classification of a set of parents: each sequence that is a mutation
/// of exactly one parent maps to it, each that is a mutation of several is
/// ambiguous, and a parent is neither.
pub open spec fn classified<T: Symbol>(parents: Set<Seq<T>>) -> Index<T> {
    Index {
        parents,
        unambiguous: Map::new(resolves(parents), origin_of(parents)),
        ambiguous: Set::new(collides(parents)),
        frozen: Set::empty(),
    }
}

/// What two indexes hold of `seq` is the same.
pub open spec fn agree_on<T>(a: Index<T>, b: Index<T>, seq: Seq<T>) -> bool {
    &&& a.unambiguous.dom().contains(seq) == b.unambiguous.dom().contains(seq)
    &&& a.unambiguous.dom().contains(seq) ==> a.unambiguous[seq] == b.unambiguous[seq]
    &&& a.ambiguous.contains(seq) == b.ambiguous.contains(seq)
}

/// Classifying candidates that differ from each other does to each of them
/// what one classification does, and leaves every other sequence alone.
pub proof fn lemma_classify_all_on<T>(
    index: Index<T>,
    candidates: Seq<Seq<T>>,
    parent: Seq<T>,
    seq: Seq<T>,
)
    requires
        candidates.no_duplicates(),
    ensures
        agree_on(
            index.classify_all(candidates, parent),
            if candidates.contains(seq) {
                index.classify(seq, parent)
            } else {
                index
            },
            seq,
        ),
    decreases candidates.len(),
{
    if candidates.len() > 0 {
        let init = candidates.drop_last();
        let last = candidates.last();
        let before = index.classify_all(init, parent);
        lemma_classify_all_on(index, init, parent, seq);
        index.lemma_classify_all_keeps(init, parent);
        if seq == last {
            assert(candidates[candidates.len() - 1] == seq);
            if init.contains(seq) {
                let j = choose|j: int| 0 <= j < init.len() && init[j] == seq;
                assert(candidates[j] == seq);
            }
        } else {
            if candidates.contains(seq) {
                let j = choose|j: int| 0 <= j < candidates.len() && candidates[j] == seq;
                assert(init[j] == seq);
            }
            if init.contains(seq) {
                let j = choose|j: int| 0 <= j < init.len() && init[j] == seq;
                assert(candidates[j] == seq);
            }
        }
    }
}

/// Inserting a parent into the classification of a set of parents gives the
/// classification of the larger set, where no parent of the larger set is a
/// mutation of two others.
pub proof fn lemma_insert_classified<T: Symbol>(parents: Set<Seq<T>>, parent: Seq<T>)
    requires
        parents_apart(parents.insert(parent)),
    ensures
        classified(parents).insert(parent) == classified(parents.insert(parent)),
{
    let larger = parents.insert(parent);
    let from = classified(parents);
    let goal = classified(larger);
    if parents.contains(parent) {
        assert(larger =~= parents);
    } else {
        let registered = from.register(parent);
        let after = from.insert(parent);
        lemma_mutations(parent);
        registered.lemma_classify_all_keeps(mutations(parent), parent);
        assert forall|c: Seq<T>| agree_on(after, goal, c) by {
            lemma_classify_all_on(registered, mutations(parent), parent, c);
            lemma_origins_grow(parents, parent, c);
            if larger.contains(c) {
                assert(!has_two_origins(larger, c));
            }
            if !larger.contains(c) && goal.unambiguous.dom().contains(c) {
                let found = the_origin(larger, c);
                assert(is_origin(larger, c, found));
                if is_mutation_of(c, parent) {
                    assert(is_origin(larger, c, parent));
                } else {
                    let old_found = the_origin(parents, c);
                    assert(is_origin(parents, c, old_found));
                    assert(is_origin(larger, c, old_found));
                }
            }
        }
        assert(after.unambiguous =~= goal.unambiguous) by {
            assert forall|c: Seq<T>| #[trigger]
                after.unambiguous.dom().contains(c) == goal.unambiguous.dom().contains(c) && (
                after.unambiguous.dom().contains(c) ==> after.unambiguous[c]
                    == goal.unambiguous[c]) by {
                assert(agree_on(after, goal, c));
            }
        }
        assert(after.ambiguous =~= goal.ambiguous) by {
            assert forall|c: Seq<T>| #[trigger]
                after.ambiguous.contains(c) == goal.ambiguous.contains(c) by {
                assert(agree_on(after, goal, c));
            }
        }
    }
}

/// How the origins of a sequence change when one parent joins the parents.
pub proof fn lemma_origins_grow<T: Symbol>(parents: Set<Seq<T>>, parent: Seq<T>, seq: Seq<T>)
    requires
        !parents.contains(parent),
    ensures
        has_origin(parents.insert(parent), seq) <==> has_origin(parents, seq) || is_mutation_of(
            seq,
            parent,
        ),
        has_two_origins(parents.insert(parent), seq) <==> has_two_origins(parents, seq) || (
        has_origin(parents, seq) && is_mutation_of(seq, parent)),
{
    let larger = parents.insert(parent);
    if has_origin(larger, seq) {
        let p = choose|p: Seq<T>| is_origin(larger, seq, p);
        if p != parent {
            assert(is_origin(parents, seq, p));
        }
    }
    if has_origin(parents, seq) {
        let p = choose|p: Seq<T>| is_origin(parents, seq, p);
        assert(is_origin(larger, seq, p));
        if is_mutation_of(seq, parent) {
            assert(is_origin(larger, seq, parent));
            assert(p != parent);
        }
    }
    if is_mutation_of(seq, parent) {
        assert(is_origin(larger, seq, parent));
    }
    if has_two_origins(larger, seq) {
        let (p, q) = choose|p: Seq<T>, q: Seq<T>|
            #![trigger is_origin(larger, seq, p), is_origin(larger, seq, q)]
            p != q && is_origin(larger, seq, p) && is_origin(larger, seq, q);
        if p != parent && q != parent {
            assert(is_origin(parents, seq, p) && is_origin(parents, seq, q));
        } else if p == parent {
            assert(is_origin(parents, seq, q));
        } else {
            assert(is_origin(parents, seq, p));
        }
    }
    if has_two_origins(parents, seq) {
        let (p, q) = choose|p: Seq<T>, q: Seq<T>|
            #![trigger is_origin(parents, seq, p), is_origin(parents, seq, q)]
            p != q && is_origin(parents, seq, p) && is_origin(parents, seq, q);
        assert(is_origin(larger, seq, p) && is_origin(larger, seq, q));
    }
}

/// Inserting parents into an empty index gives the classification of their
/// set, where no parent is a mutation of two others.
pub proof fn lemma_insert_all_classified<T: Symbol>(parents: Seq<Seq<T>>)
    requires
        parents_apart(parents.to_set()),
    ensures
        Index::<T>::empty().insert_all(parents) == classified(parents.to_set()),
    decreases parents.len(),
{
    if parents.len() == 0 {
        assert(parents.to_set() =~= Set::<Seq<T>>::empty());
        let none = classified(Set::<Seq<T>>::empty());
        assert(none.unambiguous =~= Map::empty());
        assert(none.ambiguous =~= Set::empty());
    } else {
        let init = parents.drop_last();
        let last = parents.last();
        assert(parents =~= init.push(last));
        assert(parents.to_set() =~= init.to_set().insert(last)) by {
            assert forall|c: Seq<T>| parents.to_set().contains(c) <==> init.to_set().insert(
                last,
            ).contains(c) by {
                if parents.to_set().contains(c) {
                    let j = choose|j: int| 0 <= j < parents.len() && parents[j] == c;
                    if j < init.len() {
                        assert(init[j] == c);
                    }
                }
                if init.to_set().contains(c) {
                    let j = choose|j: int| 0 <= j < init.len() && init[j] == c;
                    assert(parents[j] == c);
                }
                if c == last {
                    assert(parents[parents.len() - 1] == c);
                }
            }
        }
        assert forall|c: Seq<T>| init.to_set().contains(c) implies !#[trigger] has_two_origins(
            init.to_set(),
            c,
        ) by {
            if has_two_origins(init.to_set(), c) {
                let (p, q) = choose|p: Seq<T>, q: Seq<T>|
                    #![trigger is_origin(init.to_set(), c, p), is_origin(init.to_set(), c, q)]
                    p != q && is_origin(init.to_set(), c, p) && is_origin(init.to_set(), c, q);
                assert(is_origin(parents.to_set(), c, p) && is_origin(parents.to_set(), c, q));
                assert(has_two_origins(parents.to_set(), c));
            }
        }
        lemma_insert_all_classified(init);
        lemma_insert_classified(init.to_set(), last);
    }
}

/// The order in which parents are inserted into an empty index does not
/// matter, where no parent is a mutation of two others: two runs of the same
/// parents give the same index.
pub proof fn lemma_insert_order_independent<T: Symbol>(first: Seq<Seq<T>>, second: Seq<Seq<T>>)
    requires
        first.to_set() == second.to_set(),
        parents_apart(first.to_set()),
    ensures
        Index::<T>::empty().insert_all(first) == Index::<T>::empty().insert_all(second),
{
    lemma_insert_all_classified(first);
    lemma_insert_all_classified(second);
}

} // verus!
