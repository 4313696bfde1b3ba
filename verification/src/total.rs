//! The total size of the files of a walk.

use vstd::prelude::*;
use crate::aggregate::{aggregate, Aggregator};
use crate::fact::{Fact, FileFact};

verus! {

/// The sum of the sizes of a sequence of facts.
pub open spec fn sum_sizes(facts: Seq<Fact>) -> nat
    decreases facts.len(),
{
    if facts.len() == 0 {
        0
    } else {
        sum_sizes(facts.drop_last()) + facts.last().size as nat
    }
}

/// The running total of file sizes, in bytes.
#[derive(Debug)]
pub struct TotalSize {
    bytes: u64,
}

impl TotalSize {
    /// The total in bytes.
    pub fn bytes(&self) -> (bytes: u64)
        ensures
            bytes == self.model(),
    {
        self.bytes
    }
}

impl Aggregator for TotalSize {
    type Model = nat;

    closed spec fn model(&self) -> nat {
        self.bytes as nat
    }

    open spec fn wf(&self) -> bool {
        true
    }

    open spec fn empty() -> nat {
        0
    }

    open spec fn folded(m: nat, fact: Fact) -> nat {
        m + fact.size as nat
    }

    open spec fn merged(a: nat, b: nat) -> nat {
        a + b
    }

    open spec fn representable(m: nat) -> bool {
        m <= u64::MAX
    }

    proof fn lemma_wf_representable(&self) {
    }

    proof fn lemma_representable_before(m: nat, fact: Fact) {
    }

    proof fn lemma_merged_empty(a: nat) {
    }

    proof fn lemma_merged_folded(a: nat, b: nat, fact: Fact) {
    }

    fn identity() -> (acc: TotalSize) {
        TotalSize { bytes: 0 }
    }

    fn fold(&mut self, fact: FileFact) -> (ok: bool) {
        match self.bytes.checked_add(fact.size()) {
            Some(sum) => {
                self.bytes = sum;
                true
            },
            None => false,
        }
    }

    fn merge(&mut self, other: TotalSize) -> (ok: bool) {
        match self.bytes.checked_add(other.bytes) {
            Some(sum) => {
                self.bytes = sum;
                true
            },
            None => false,
        }
    }
}

/// The total over a sequence of facts is the sum of their sizes.
pub proof fn lemma_total_is_sum(facts: Seq<Fact>)
    ensures
        aggregate::<TotalSize>(facts) == sum_sizes(facts),
    decreases facts.len(),
{
    if facts.len() > 0 {
        lemma_total_is_sum(facts.drop_last());
    }
}

} // verus!
