//! The strategy by which a walk combines the facts it meets.
//!
//! An aggregator starts from an identity value and folds in one fact per
//! regular file, in the order of the walk. Two aggregates can be merged; the
//! merge of the aggregates of two fact sequences is the aggregate of their
//! concatenation, so it does not matter whether a subtree is folded into its
//! parent's aggregate fact by fact or merged in as a finished result.
//!
//! Every aggregate lives in machine integers. A fold or merge whose result
//! would not fit leaves the aggregate as it was and reports `false`.

use vstd::prelude::*;
use crate::fact::{Fact, FileFact};

verus! {

/// A strategy for combining facts: an identity, a fold of one fact, and a
/// merge of two aggregates. The total size, the summary by extension and
/// the list of files implement it.
pub trait Aggregator: Sized {
    /// The mathematical value that an aggregate stands for.
    type Model;

    /// The value this aggregate stands for.
    spec fn model(&self) -> Self::Model;

    /// The representation invariant.
    spec fn wf(&self) -> bool;

    /// The aggregate of no facts.
    spec fn empty() -> Self::Model;

    /// The aggregate `m` with one more fact folded in.
    spec fn folded(m: Self::Model, fact: Fact) -> Self::Model;

    /// The aggregate `a` with the aggregate `b` of later facts merged in.
    spec fn merged(a: Self::Model, b: Self::Model) -> Self::Model;

    /// Whether the value fits the machine representation.
    spec fn representable(m: Self::Model) -> bool;

    /// A well-formed aggregate stands for a representable value.
    proof fn lemma_wf_representable(&self)
        requires
            self.wf(),
        ensures
            Self::representable(self.model()),
    ;

    /// Aggregates only grow: what precedes a representable aggregate is
    /// representable.
    proof fn lemma_representable_before(m: Self::Model, fact: Fact)
        requires
            Self::representable(Self::folded(m, fact)),
        ensures
            Self::representable(m),
    ;

    /// Merging the empty aggregate changes nothing.
    proof fn lemma_merged_empty(a: Self::Model)
        ensures
            Self::merged(a, Self::empty()) == a,
    ;

    /// Merging commutes with folding a further fact.
    proof fn lemma_merged_folded(a: Self::Model, b: Self::Model, fact: Fact)
        ensures
            Self::merged(a, Self::folded(b, fact)) == Self::folded(Self::merged(a, b), fact),
    ;

    /// The aggregate of no facts.
    fn identity() -> (acc: Self)
        ensures
            acc.wf(),
            acc.model() == Self::empty(),
    ;

    /// Folds one fact in. Returns `false`, and changes nothing, where the
    /// result would not be representable.
    fn fold(&mut self, fact: FileFact) -> (ok: bool)
        requires
            old(self).wf(),
        ensures
            final(self).wf(),
            ok == Self::representable(Self::folded(old(self).model(), fact@)),
            ok ==> final(self).model() == Self::folded(old(self).model(), fact@),
            !ok ==> final(self).model() == old(self).model(),
    ;

    /// Merges in the aggregate of facts met later. Returns `false`, and
    /// changes nothing, where the result would not be representable.
    fn merge(&mut self, other: Self) -> (ok: bool)
        requires
            old(self).wf(),
            other.wf(),
        ensures
            final(self).wf(),
            ok == Self::representable(Self::merged(old(self).model(), other.model())),
            ok ==> final(self).model() == Self::merged(old(self).model(), other.model()),
            !ok ==> final(self).model() == old(self).model(),
    ;
}

/// The aggregate of a sequence of facts: the identity with the facts folded
/// in, first to last.
pub open spec fn aggregate<A: Aggregator>(facts: Seq<Fact>) -> A::Model
    decreases facts.len(),
{
    if facts.len() == 0 {
        A::empty()
    } else {
        A::folded(aggregate::<A>(facts.drop_last()), facts.last())
    }
}

/// Merging two aggregates gives the aggregate of the concatenated facts.
pub proof fn lemma_aggregate_concat<A: Aggregator>(first: Seq<Fact>, second: Seq<Fact>)
    ensures
        aggregate::<A>(first + second) == A::merged(aggregate::<A>(first), aggregate::<A>(second)),
    decreases second.len(),
{
    if second.len() == 0 {
        assert(first + second =~= first);
        A::lemma_merged_empty(aggregate::<A>(first));
    } else {
        let init = second.drop_last();
        assert((first + second).drop_last() =~= first + init);
        assert((first + second).last() == second.last());
        lemma_aggregate_concat::<A>(first, init);
        A::lemma_merged_folded(aggregate::<A>(first), aggregate::<A>(init), second.last());
    }
}

/// If the aggregate of a sequence of facts is representable, so is the
/// aggregate of each of its prefixes.
pub proof fn lemma_representable_prefix<A: Aggregator>(facts: Seq<Fact>, n: int)
    requires
        0 <= n <= facts.len(),
        A::representable(aggregate::<A>(facts)),
    ensures
        A::representable(aggregate::<A>(facts.take(n))),
    decreases facts.len() - n,
{
    if n == facts.len() {
        assert(facts.take(n) =~= facts);
    } else {
        lemma_representable_prefix::<A>(facts, n + 1);
        let longer = facts.take(n + 1);
        assert(longer.drop_last() =~= facts.take(n));
        A::lemma_representable_before(aggregate::<A>(facts.take(n)), longer.last());
    }
}

} // verus!
