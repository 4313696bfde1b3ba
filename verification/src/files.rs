//! The list of the files of a walk, in the order in which they were met.

use vstd::prelude::*;
use crate::aggregate::{aggregate, Aggregator};
use crate::fact::{Fact, FileFact};
use crate::ranking::{indices, lemma_top_ranking, pick, precedes, top_indices, top_ranking};

verus! {

/// A file with its size.
#[derive(Debug)]
pub struct FileRecord {
    pub path: String,
    pub size: u64,
}

/// The mathematical content of a `FileRecord`.
pub struct Record {
    pub path: Seq<char>,
    pub size: u64,
}

impl View for FileRecord {
    type V = Record;

    open spec fn view(&self) -> Record {
        Record { path: self.path@, size: self.size }
    }
}

impl Clone for FileRecord {
    fn clone(&self) -> (copy: FileRecord)
        ensures
            copy@ == self@,
    {
        FileRecord { path: self.path.clone(), size: self.size }
    }
}

/// The record kept for a fact: its path and size.
pub open spec fn record_of(fact: Fact) -> Record {
    Record { path: fact.path, size: fact.size }
}

/// The records of a sequence of facts, in the same order.
pub open spec fn records_of(facts: Seq<Fact>) -> Seq<Record> {
    Seq::new(facts.len(), |i: int| record_of(facts[i]))
}

/// The views of a sequence of records.
pub open spec fn records(files: Seq<FileRecord>) -> Seq<Record> {
    Seq::new(files.len(), |i: int| files[i]@)
}

/// The sizes of a sequence of records.
pub open spec fn sizes(files: Seq<Record>) -> Seq<u64> {
    Seq::new(files.len(), |i: int| files[i].size)
}

/// Every file of a walk with its size, in the order of the walk.
#[derive(Debug)]
pub struct FileList {
    files: Vec<FileRecord>,
}

impl FileList {
    /// The files, in the order in which they were met.
    pub fn files(&self) -> (files: &Vec<FileRecord>)
        ensures
            records(files@) == self.model(),
    {
        &self.files
    }

    /// Gives up the list for its files.
    pub fn into_files(self) -> (files: Vec<FileRecord>)
        ensures
            records(files@) == self.model(),
    {
        self.files
    }

    /// The number of files.
    pub fn len(&self) -> (n: usize)
        ensures
            n == self.model().len(),
    {
        self.files.len()
    }
}

impl Aggregator for FileList {
    type Model = Seq<Record>;

    closed spec fn model(&self) -> Seq<Record> {
        records(self.files@)
    }

    open spec fn wf(&self) -> bool {
        true
    }

    open spec fn empty() -> Seq<Record> {
        Seq::empty()
    }

    open spec fn folded(m: Seq<Record>, fact: Fact) -> Seq<Record> {
        m.push(record_of(fact))
    }

    open spec fn merged(a: Seq<Record>, b: Seq<Record>) -> Seq<Record> {
        a + b
    }

    open spec fn representable(m: Seq<Record>) -> bool {
        true
    }

    proof fn lemma_wf_representable(&self) {
    }

    proof fn lemma_representable_before(m: Seq<Record>, fact: Fact) {
    }

    proof fn lemma_merged_empty(a: Seq<Record>) {
        assert(a + Seq::<Record>::empty() =~= a);
    }

    proof fn lemma_merged_folded(a: Seq<Record>, b: Seq<Record>, fact: Fact) {
        assert(a + b.push(record_of(fact)) =~= (a + b).push(record_of(fact)));
    }

    fn identity() -> (acc: FileList) {
        let acc = FileList { files: Vec::new() };
        assert(acc.model() =~= Seq::<Record>::empty());
        acc
    }

    fn fold(&mut self, fact: FileFact) -> (ok: bool) {
        let ghost before = self.files@;
        let ghost added = fact@;
        let (path, size) = fact.into_parts();
        self.files.push(FileRecord { path, size });
        assert(records(self.files@) =~= records(before).push(record_of(added)));
        true
    }

    fn merge(&mut self, other: FileList) -> (ok: bool) {
        let ghost before = self.files@;
        let ghost later = other.files@;
        let mut other = other;
        self.files.append(&mut other.files);
        assert(records(self.files@) =~= records(before) + records(later));
        true
    }
}

/// The list over a sequence of facts holds the record of each fact, in order.
pub proof fn lemma_list_is_records(facts: Seq<Fact>)
    ensures
        aggregate::<FileList>(facts) == records_of(facts),
    decreases facts.len(),
{
    if facts.len() > 0 {
        lemma_list_is_records(facts.drop_last());
        assert(records_of(facts) =~= records_of(facts.drop_last()).push(record_of(facts.last())));
    } else {
        assert(records_of(facts) =~= Seq::<Record>::empty());
    }
}

/// The number of files shown where the caller names none.
pub const DEFAULT_TOP: usize = 10;

/// The `n` largest files, largest first; files of equal size stay in the
/// order of the walk. Where there are fewer than `n` files, all of them are
/// returned.
pub fn top_n(files: &Vec<FileRecord>, n: usize) -> (top: Vec<FileRecord>)
    ensures
        records(top@) == pick(records(files@), top_ranking(sizes(records(files@)), n as int)),
        top@.len() == if n < files@.len() { n as int } else { files@.len() as int },
        forall|a: int, b: int| 0 <= a < b < top@.len() ==> top@[a].size >= top@[b].size,
{
    let mut keys: Vec<u64> = Vec::new();
    let mut i: usize = 0;
    while i < files.len()
        invariant
            i <= files@.len(),
            keys@ == sizes(records(files@)).take(i as int),
        decreases files@.len() - i,
    {
        keys.push(files[i].size);
        assert(keys@ =~= sizes(records(files@)).take(i + 1));
        i = i + 1;
    }
    assert(keys@ =~= sizes(records(files@)));
    let order = top_indices(&keys, n);
    let ghost ints = indices(order@);
    let mut top: Vec<FileRecord> = Vec::new();
    let mut k: usize = 0;
    while k < order.len()
        invariant
            k <= order@.len(),
            ints == indices(order@),
            forall|j: int| 0 <= j < order@.len() ==> (#[trigger] order@[j]) < files@.len(),
            top@.len() == k,
            records(top@) == pick(records(files@), ints.take(k as int)),
        decreases order@.len() - k,
    {
        let ghost before = records(top@);
        top.push(files[order[k]].clone());
        assert forall|j: int| 0 <= j < k + 1 implies records(top@)[j] == pick(
            records(files@),
            ints.take(k + 1),
        )[j] by {
            if j < k {
                assert(records(top@)[j] == before[j]);
                assert(ints.take(k as int)[j] == ints.take(k + 1)[j]);
            } else {
                assert(ints[k as int] == order@[k as int] as int);
            }
        }
        assert(records(top@) =~= pick(records(files@), ints.take(k + 1)));
        k = k + 1;
    }
    assert(ints.take(k as int) =~= ints);
    proof {
        lemma_top_ranking(keys@, n as int);
        assert forall|a: int, b: int| 0 <= a < b < top@.len() implies top@[a].size
            >= top@[b].size by {
            assert(records(top@)[a] == top@[a]@ && records(top@)[b] == top@[b]@);
            assert(precedes(keys@, ints[a], ints[b]));
        }
    }
    top
}

/// The ten largest files, largest first.
pub fn top_ten(files: &Vec<FileRecord>) -> (top: Vec<FileRecord>)
    ensures
        records(top@) == pick(
            records(files@),
            top_ranking(sizes(records(files@)), DEFAULT_TOP as int),
        ),
{
    top_n(files, DEFAULT_TOP)
}

} // verus!
