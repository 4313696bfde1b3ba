//! The breakdown of a walk by file extension.
//!
//! Files are grouped by the label of their extension. Each group holds the
//! sum of the sizes of its files and their number. The groups are kept in
//! the order in which their first file was met, and no label occurs twice.

use vstd::prelude::*;
use crate::aggregate::{aggregate, Aggregator};
use crate::fact::{Fact, FileFact};
use crate::ranking::{indices, pick, ranking, top_indices};
use crate::total::{sum_sizes, TotalSize};

verus! {

/// The mathematical content of one extension group.
pub struct Group {
    pub label: Seq<char>,
    pub size: nat,
    pub count: nat,
}

/// The group that a single fact makes.
pub open spec fn unit_group(fact: Fact) -> Group {
    Group { label: fact.label(), size: fact.size as nat, count: 1 }
}

/// The group `g` with the sizes and counts of `more` added.
pub open spec fn plus(g: Group, more: Group) -> Group {
    Group { label: g.label, size: g.size + more.size, count: g.count + more.count }
}

/// The index of the group labelled `label`, or -1 if there is none.
pub open spec fn position(groups: Seq<Group>, label: Seq<char>) -> int
    decreases groups.len(),
{
    if groups.len() == 0 {
        -1
    } else if groups.last().label == label {
        groups.len() - 1
    } else {
        position(groups.drop_last(), label)
    }
}

/// The groups with `g` added: to the group of its label where there is one,
/// and as a new last group otherwise.
pub open spec fn add_group(groups: Seq<Group>, g: Group) -> Seq<Group> {
    let p = position(groups, g.label);
    if p >= 0 {
        groups.update(p, plus(groups[p], g))
    } else {
        groups.push(g)
    }
}

/// The groups of `a` with each group of `b` added, first to last.
pub open spec fn merge_groups(a: Seq<Group>, b: Seq<Group>) -> Seq<Group>
    decreases b.len(),
{
    if b.len() == 0 {
        a
    } else {
        add_group(merge_groups(a, b.drop_last()), b.last())
    }
}

/// No label occurs twice.
pub open spec fn distinct_labels(groups: Seq<Group>) -> bool {
    forall|i: int, j: int|
        0 <= i < j < groups.len() ==> (#[trigger] groups[i]).label != (#[trigger] groups[j]).label
}

/// Sizes and counts fit the machine integers that hold them.
pub open spec fn groups_fit(groups: Seq<Group>) -> bool {
    forall|i: int|
        0 <= i < groups.len() ==> (#[trigger] groups[i]).size <= u64::MAX && groups[i].count
            <= usize::MAX
}

/// The sum of the sizes of all groups.
pub open spec fn total_size(groups: Seq<Group>) -> nat
    decreases groups.len(),
{
    if groups.len() == 0 {
        0
    } else {
        total_size(groups.drop_last()) + groups.last().size
    }
}

/// The sum of the file counts of all groups.
pub open spec fn total_count(groups: Seq<Group>) -> nat
    decreases groups.len(),
{
    if groups.len() == 0 {
        0
    } else {
        total_count(groups.drop_last()) + groups.last().count
    }
}

/// The sum of the sizes of the facts labelled `label`.
pub open spec fn size_of_label(facts: Seq<Fact>, label: Seq<char>) -> nat
    decreases facts.len(),
{
    if facts.len() == 0 {
        0
    } else if facts.last().label() == label {
        size_of_label(facts.drop_last(), label) + facts.last().size as nat
    } else {
        size_of_label(facts.drop_last(), label)
    }
}

/// The number of the facts labelled `label`.
pub open spec fn count_of_label(facts: Seq<Fact>, label: Seq<char>) -> nat
    decreases facts.len(),
{
    if facts.len() == 0 {
        0
    } else if facts.last().label() == label {
        count_of_label(facts.drop_last(), label) + 1
    } else {
        count_of_label(facts.drop_last(), label)
    }
}

/// One extension group: its label, the total size of its files in bytes,
/// and their number.
#[derive(Debug)]
pub struct ExtensionEntry {
    pub label: String,
    pub size: u64,
    pub count: usize,
}

impl View for ExtensionEntry {
    type V = Group;

    open spec fn view(&self) -> Group {
        Group { label: self.label@, size: self.size as nat, count: self.count as nat }
    }
}

impl Clone for ExtensionEntry {
    fn clone(&self) -> (copy: ExtensionEntry)
        ensures
            copy@ == self@,
    {
        ExtensionEntry { label: self.label.clone(), size: self.size, count: self.count }
    }
}

/// The sizes of a sequence of groups, as the keys by which they are ranked.
pub open spec fn group_keys(groups: Seq<Group>) -> Seq<u64> {
    Seq::new(groups.len(), |i: int| groups[i].size as u64)
}

/// The views of a sequence of entries.
pub open spec fn groups_of(entries: Seq<ExtensionEntry>) -> Seq<Group> {
    Seq::new(entries.len(), |i: int| entries[i]@)
}

/// Size and file count per extension.
#[derive(Debug)]
pub struct ExtensionSummary {
    entries: Vec<ExtensionEntry>,
}

/// `position` finds the group of a label: the label is there, and nowhere
/// after.
pub proof fn lemma_position(groups: Seq<Group>, label: Seq<char>)
    ensures
        -1 <= position(groups, label) < groups.len(),
        position(groups, label) >= 0 ==> groups[position(groups, label)].label == label,
        forall|j: int|
            position(groups, label) < j < groups.len() ==> (#[trigger] groups[j]).label != label,
    decreases groups.len(),
{
    if groups.len() > 0 && groups.last().label != label {
        lemma_position(groups.drop_last(), label);
        assert forall|j: int| position(groups, label) < j < groups.len() implies (
        #[trigger] groups[j]).label != label by {
            if j < groups.len() - 1 {
                assert(groups.drop_last()[j] == groups[j]);
            }
        }
    }
}

/// An index that holds the label, with no later one that does, is its
/// position; and the position is -1 where no index holds the label.
pub proof fn lemma_position_is(groups: Seq<Group>, label: Seq<char>, p: int)
    requires
        -1 <= p < groups.len(),
        p >= 0 ==> groups[p].label == label,
        forall|j: int| p < j < groups.len() ==> (#[trigger] groups[j]).label != label,
    ensures
        position(groups, label) == p,
    decreases groups.len(),
{
    if groups.len() > 0 {
        if groups.last().label == label {
            assert(p == groups.len() - 1);
        } else {
            let init = groups.drop_last();
            assert forall|j: int| p < j < init.len() implies (#[trigger] init[j]).label
                != label by {
                assert(init[j] == groups[j]);
            }
            lemma_position_is(init, label, p);
        }
    }
}

/// Where labels are distinct, any index that holds the label is its
/// position.
pub proof fn lemma_position_distinct(groups: Seq<Group>, i: int)
    requires
        distinct_labels(groups),
        0 <= i < groups.len(),
    ensures
        position(groups, groups[i].label) == i,
{
    lemma_position_is(groups, groups[i].label, i);
}

/// Replacing a group by one of the same label moves no position.
proof fn lemma_position_update(groups: Seq<Group>, i: int, g: Group, label: Seq<char>)
    requires
        0 <= i < groups.len(),
        g.label == groups[i].label,
    ensures
        position(groups.update(i, g), label) == position(groups, label),
{
    lemma_position(groups, label);
    let p = position(groups, label);
    let after = groups.update(i, g);
    assert forall|j: int| p < j < after.len() implies (#[trigger] after[j]).label != label by {
        assert(groups[j].label != label);
    }
    lemma_position_is(after, label, p);
}

/// Adding a group leaves the positions of the other labels alone and makes
/// its own label present.
proof fn lemma_position_add(groups: Seq<Group>, g: Group, label: Seq<char>)
    ensures
        label != g.label ==> position(add_group(groups, g), label) == position(groups, label),
        label == g.label ==> position(add_group(groups, g), label) >= 0,
        position(groups, label) >= 0 ==> position(add_group(groups, g), label) == position(
            groups,
            label,
        ),
{
    lemma_position(groups, g.label);
    lemma_position(groups, label);
    let p = position(groups, g.label);
    if p >= 0 {
        lemma_position_update(groups, p, plus(groups[p], g), label);
    } else {
        assert(groups.push(g).drop_last() =~= groups);
    }
}

/// Adding two groups of one label in turn is adding their sum.
proof fn lemma_add_same_label(groups: Seq<Group>, g: Group, more: Group)
    requires
        g.label == more.label,
    ensures
        add_group(add_group(groups, g), more) == add_group(groups, plus(g, more)),
{
    lemma_position(groups, g.label);
    lemma_position_add(groups, g, g.label);
    let p = position(groups, g.label);
    if p >= 0 {
        assert(add_group(add_group(groups, g), more) =~= add_group(groups, plus(g, more)));
    } else {
        let pushed = groups.push(g);
        assert(pushed.drop_last() =~= groups);
        assert(position(pushed, g.label) == groups.len());
        assert(add_group(pushed, more) =~= groups.push(plus(g, more)));
    }
}

/// Adding to a group that is already there commutes with adding a group of
/// another label.
proof fn lemma_add_commutes(groups: Seq<Group>, present: Group, other: Group)
    requires
        position(groups, present.label) >= 0,
        present.label != other.label,
    ensures
        add_group(add_group(groups, present), other) == add_group(
            add_group(groups, other),
            present,
        ),
{
    lemma_position(groups, present.label);
    lemma_position(groups, other.label);
    lemma_position_add(groups, present, other.label);
    lemma_position_add(groups, other, present.label);
    let pp = position(groups, present.label);
    let po = position(groups, other.label);
    if po >= 0 {
        assert(add_group(add_group(groups, present), other) =~= add_group(
            add_group(groups, other),
            present,
        ));
    } else {
        assert(add_group(add_group(groups, present), other) =~= add_group(
            add_group(groups, other),
            present,
        ));
    }
}

/// Every label of `b` is present in the merge of `a` and `b`.
proof fn lemma_merge_has_label(a: Seq<Group>, b: Seq<Group>, i: int)
    requires
        0 <= i < b.len(),
    ensures
        position(merge_groups(a, b), b[i].label) >= 0,
    decreases b.len(),
{
    let before = merge_groups(a, b.drop_last());
    lemma_position_add(before, b.last(), b[i].label);
    if i < b.len() - 1 {
        assert(b.drop_last()[i] == b[i]);
        lemma_merge_has_label(a, b.drop_last(), i);
    }
}

/// Adding to one group of `b` before the merge is adding to the merge.
proof fn lemma_merge_update(a: Seq<Group>, b: Seq<Group>, i: int, more: Group)
    requires
        0 <= i < b.len(),
        more.label == b[i].label,
    ensures
        merge_groups(a, b.update(i, plus(b[i], more))) == add_group(merge_groups(a, b), more),
    decreases b.len(),
{
    let changed = b.update(i, plus(b[i], more));
    let before = merge_groups(a, b.drop_last());
    if i == b.len() - 1 {
        assert(changed.drop_last() =~= b.drop_last());
        lemma_add_same_label(before, b.last(), more);
    } else {
        assert(changed.drop_last() =~= b.drop_last().update(i, plus(b[i], more)));
        assert(b.drop_last()[i] == b[i]);
        assert(changed.last() == b.last());
        lemma_merge_update(a, b.drop_last(), i, more);
        lemma_merge_has_label(a, b.drop_last(), i);
        if b.last().label == more.label {
            lemma_add_same_label(before, more, b.last());
            lemma_add_same_label(before, b.last(), more);
            assert(plus(more, b.last()).size == plus(b.last(), more).size);
            // Both sums carry the same label, size and count.
            assert(plus(more, b.last()) == plus(b.last(), more));
        } else {
            lemma_add_commutes(before, more, b.last());
        }
    }
}

/// Adding a group adds its size and count to the sums.
pub proof fn lemma_totals_add(groups: Seq<Group>, g: Group)
    ensures
        total_size(add_group(groups, g)) == total_size(groups) + g.size,
        total_count(add_group(groups, g)) == total_count(groups) + g.count,
{
    lemma_position(groups, g.label);
    let p = position(groups, g.label);
    if p >= 0 {
        lemma_totals_update(groups, p, plus(groups[p], g));
    } else {
        assert(groups.push(g).drop_last() =~= groups);
    }
}

proof fn lemma_totals_update(groups: Seq<Group>, i: int, g: Group)
    requires
        0 <= i < groups.len(),
    ensures
        total_size(groups.update(i, g)) + groups[i].size == total_size(groups) + g.size,
        total_count(groups.update(i, g)) + groups[i].count == total_count(groups) + g.count,
    decreases groups.len(),
{
    let after = groups.update(i, g);
    if i == groups.len() - 1 {
        assert(after.drop_last() =~= groups.drop_last());
    } else {
        assert(after.drop_last() =~= groups.drop_last().update(i, g));
        assert(groups.drop_last()[i] == groups[i]);
        lemma_totals_update(groups.drop_last(), i, g);
    }
}

/// Adding a group keeps the labels distinct.
pub proof fn lemma_distinct_add(groups: Seq<Group>, g: Group)
    requires
        distinct_labels(groups),
    ensures
        distinct_labels(add_group(groups, g)),
{
    lemma_position(groups, g.label);
    let p = position(groups, g.label);
    let after = add_group(groups, g);
    assert forall|i: int, j: int| 0 <= i < j < after.len() implies (#[trigger] after[i]).label != (
    #[trigger] after[j]).label by {
        if p >= 0 {
            assert(after[i].label == groups[i].label);
            assert(after[j].label == groups[j].label);
        } else {
            if j < groups.len() {
                assert(after[i] == groups[i]);
                assert(after[j] == groups[j]);
            } else {
                assert(after[i] == groups[i]);
                assert(groups[i].label != g.label);
            }
        }
    }
}

/// What precedes groups that fit fits too.
pub proof fn lemma_fit_before(groups: Seq<Group>, g: Group)
    requires
        groups_fit(add_group(groups, g)),
    ensures
        groups_fit(groups),
{
    lemma_position(groups, g.label);
    let p = position(groups, g.label);
    let after = add_group(groups, g);
    assert forall|i: int| 0 <= i < groups.len() implies (#[trigger] groups[i]).size <= u64::MAX
        && groups[i].count <= usize::MAX by {
        assert(after[i].size >= groups[i].size);
        assert(after[i].count >= groups[i].count);
    }
}

/// If a merge fits, so does the merge with any prefix of the second part.
pub proof fn lemma_merge_fit_prefix(a: Seq<Group>, b: Seq<Group>, n: int)
    requires
        0 <= n <= b.len(),
        groups_fit(merge_groups(a, b)),
    ensures
        groups_fit(merge_groups(a, b.take(n))),
    decreases b.len() - n,
{
    if n == b.len() {
        assert(b.take(n) =~= b);
    } else {
        lemma_merge_fit_prefix(a, b, n + 1);
        let longer = b.take(n + 1);
        assert(longer.drop_last() =~= b.take(n));
        lemma_fit_before(merge_groups(a, b.take(n)), longer.last());
    }
}

/// Merging keeps the labels distinct.
pub proof fn lemma_distinct_merge(a: Seq<Group>, b: Seq<Group>)
    requires
        distinct_labels(a),
    ensures
        distinct_labels(merge_groups(a, b)),
    decreases b.len(),
{
    if b.len() > 0 {
        lemma_distinct_merge(a, b.drop_last());
        lemma_distinct_add(merge_groups(a, b.drop_last()), b.last());
    }
}

impl ExtensionSummary {
    /// The groups, in the order in which their first file was met.
    pub fn entries(&self) -> (entries: &Vec<ExtensionEntry>)
        ensures
            groups_of(entries@) == self.model(),
    {
        &self.entries
    }

    /// The number of groups.
    pub fn len(&self) -> (n: usize)
        ensures
            n == self.model().len(),
    {
        self.entries.len()
    }

    /// The groups by descending size. Groups of equal size stay in the order
    /// in which their first file was met.
    pub fn sorted_entries(&self) -> (sorted: Vec<ExtensionEntry>)
        ensures
            groups_of(sorted@) == pick(self.model(), ranking(group_keys(self.model()))),
            sorted@.len() == self.model().len(),
    {
        let mut keys: Vec<u64> = Vec::new();
        let mut i: usize = 0;
        while i < self.entries.len()
            invariant
                i <= self.entries@.len(),
                keys@ == group_keys(groups_of(self.entries@)).take(i as int),
            decreases self.entries@.len() - i,
        {
            keys.push(self.entries[i].size);
            assert(keys@ =~= group_keys(groups_of(self.entries@)).take(i + 1));
            i = i + 1;
        }
        assert(keys@ =~= group_keys(groups_of(self.entries@)));
        let order = top_indices(&keys, self.entries.len());
        let ghost ints = indices(order@);
        let mut sorted: Vec<ExtensionEntry> = Vec::new();
        let mut k: usize = 0;
        while k < order.len()
            invariant
                k <= order@.len(),
                ints == indices(order@),
                forall|j: int| 0 <= j < order@.len() ==> (#[trigger] order@[j]) < self.entries@.len(),
                sorted@.len() == k,
                groups_of(sorted@) == pick(groups_of(self.entries@), ints.take(k as int)),
            decreases order@.len() - k,
        {
            let ghost before = groups_of(sorted@);
            sorted.push(self.entries[order[k]].clone());
            assert forall|j: int| 0 <= j < k + 1 implies groups_of(sorted@)[j] == pick(
                groups_of(self.entries@),
                ints.take(k + 1),
            )[j] by {
                if j < k {
                    assert(groups_of(sorted@)[j] == before[j]);
                    assert(ints.take(k as int)[j] == ints.take(k + 1)[j]);
                } else {
                    assert(ints[k as int] == order@[k as int] as int);
                }
            }
            assert(groups_of(sorted@) =~= pick(groups_of(self.entries@), ints.take(k + 1)));
            k = k + 1;
        }
        assert(ints.take(k as int) =~= ints);
        sorted
    }
}

fn find(entries: &Vec<ExtensionEntry>, label: &String) -> (found: Option<usize>)
    ensures
        match found {
            Some(i) => i == position(groups_of(entries@), label@),
            None => position(groups_of(entries@), label@) == -1,
        },
{
    let ghost groups = groups_of(entries@);
    let mut i: usize = entries.len();
    while i > 0
        invariant
            i <= entries.len(),
            groups == groups_of(entries@),
            forall|j: int| i <= j < groups.len() ==> (#[trigger] groups[j]).label != label@,
        decreases i,
    {
        i = i - 1;
        if entries[i].label == *label {
            proof {
                lemma_position_is(groups, label@, i as int);
            }
            return Some(i);
        }
    }
    proof {
        lemma_position_is(groups, label@, -1);
    }
    None
}

fn add_entry(entries: &mut Vec<ExtensionEntry>, entry: ExtensionEntry) -> (ok: bool)
    ensures
        groups_fit(groups_of(old(entries)@)) ==> ok == groups_fit(
            add_group(groups_of(old(entries)@), entry@),
        ),
        ok ==> groups_of(final(entries)@) == add_group(groups_of(old(entries)@), entry@),
        !ok ==> final(entries)@ == old(entries)@,
{
    let ghost before = groups_of(entries@);
    let ghost g = entry@;
    proof {
        lemma_position(before, g.label);
    }
    match find(entries, &entry.label) {
        Some(i) => {
            let size = entries[i].size.checked_add(entry.size);
            let count = entries[i].count.checked_add(entry.count);
            match (size, count) {
                (Some(size), Some(count)) => {
                    entries.set(i, ExtensionEntry { label: entry.label, size, count });
                    assert(groups_of(entries@) =~= add_group(before, g));
                    proof {
                        if groups_fit(before) {
                            let after = add_group(before, g);
                            assert forall|k: int| 0 <= k < after.len() implies (
                            #[trigger] after[k]).size <= u64::MAX && after[k].count
                                <= usize::MAX by {
                                if k != i {
                                    assert(after[k] == before[k]);
                                }
                            }
                        }
                    }
                    true
                },
                _ => {
                    proof {
                        let after = add_group(before, g);
                        assert(after[i as int] == plus(before[i as int], g));
                        assert(!groups_fit(after));
                    }
                    false
                },
            }
        },
        None => {
            entries.push(entry);
            assert(groups_of(entries@) =~= add_group(before, g));
            proof {
                if groups_fit(before) {
                    let after = add_group(before, g);
                    assert forall|k: int| 0 <= k < after.len() implies (#[trigger] after[k]).size
                        <= u64::MAX && after[k].count <= usize::MAX by {
                        if k < before.len() {
                            assert(after[k] == before[k]);
                        }
                    }
                }
            }
            true
        },
    }
}

impl Aggregator for ExtensionSummary {
    type Model = Seq<Group>;

    closed spec fn model(&self) -> Seq<Group> {
        groups_of(self.entries@)
    }

    open spec fn wf(&self) -> bool {
        distinct_labels(self.model()) && groups_fit(self.model())
    }

    open spec fn empty() -> Seq<Group> {
        Seq::empty()
    }

    open spec fn folded(m: Seq<Group>, fact: Fact) -> Seq<Group> {
        add_group(m, unit_group(fact))
    }

    open spec fn merged(a: Seq<Group>, b: Seq<Group>) -> Seq<Group> {
        merge_groups(a, b)
    }

    open spec fn representable(m: Seq<Group>) -> bool {
        groups_fit(m)
    }

    proof fn lemma_wf_representable(&self) {
    }

    proof fn lemma_representable_before(m: Seq<Group>, fact: Fact) {
        lemma_fit_before(m, unit_group(fact));
    }

    proof fn lemma_merged_empty(a: Seq<Group>) {
    }

    proof fn lemma_merged_folded(a: Seq<Group>, b: Seq<Group>, fact: Fact) {
        let u = unit_group(fact);
        lemma_position(b, u.label);
        let p = position(b, u.label);
        if p >= 0 {
            lemma_merge_update(a, b, p, u);
        } else {
            assert(b.push(u).drop_last() =~= b);
        }
    }

    fn identity() -> (acc: ExtensionSummary) {
        let acc = ExtensionSummary { entries: Vec::new() };
        assert(acc.model() =~= Seq::<Group>::empty());
        acc
    }

    fn fold(&mut self, fact: FileFact) -> (ok: bool) {
        let label = fact.label();
        let entry = ExtensionEntry { label, size: fact.size(), count: 1 };
        assert(entry@ == unit_group(fact@));
        proof {
            lemma_distinct_add(self.model(), entry@);
        }
        add_entry(&mut self.entries, entry)
    }

    fn merge(&mut self, other: ExtensionSummary) -> (ok: bool) {
        let ghost a = self.model();
        let ghost b = other.model();
        let mut work: Vec<ExtensionEntry> = Vec::new();
        let mut k: usize = 0;
        while k < self.entries.len()
            invariant
                k <= self.entries.len(),
                work@.len() == k,
                forall|j: int| 0 <= j < k ==> (#[trigger] work@[j])@ == self.entries@[j]@,
            decreases self.entries.len() - k,
        {
            work.push(self.entries[k].clone());
            k = k + 1;
        }
        assert(groups_of(work@) =~= a);
        let mut j: usize = 0;
        while j < other.entries.len()
            invariant
                j <= other.entries.len(),
                self.wf(),
                a == self.model(),
                b == groups_of(other.entries@),
                groups_of(work@) == merge_groups(a, b.take(j as int)),
                groups_fit(groups_of(work@)),
                distinct_labels(groups_of(work@)),
            decreases other.entries.len() - j,
        {
            let entry = other.entries[j].clone();
            proof {
                let longer = b.take(j + 1);
                assert(longer.drop_last() =~= b.take(j as int));
                assert(longer.last() == entry@);
                lemma_distinct_add(groups_of(work@), entry@);
            }
            if !add_entry(&mut work, entry) {
                proof {
                    if groups_fit(merge_groups(a, b)) {
                        lemma_merge_fit_prefix(a, b, j + 1);
                    }
                }
                return false;
            }
            j = j + 1;
        }
        assert(b.take(j as int) =~= b);
        self.entries = work;
        true
    }
}

/// In the summary of a sequence of facts no label occurs twice.
pub proof fn lemma_summary_distinct(facts: Seq<Fact>)
    ensures
        distinct_labels(aggregate::<ExtensionSummary>(facts)),
    decreases facts.len(),
{
    if facts.len() > 0 {
        lemma_summary_distinct(facts.drop_last());
        lemma_distinct_add(
            aggregate::<ExtensionSummary>(facts.drop_last()),
            unit_group(facts.last()),
        );
    }
}

/// The summary is complete: the sizes of its groups add up to the total
/// size of the facts, and their counts to the number of facts.
pub proof fn lemma_summary_complete(facts: Seq<Fact>)
    ensures
        total_size(aggregate::<ExtensionSummary>(facts)) == sum_sizes(facts),
        total_size(aggregate::<ExtensionSummary>(facts)) == aggregate::<TotalSize>(facts),
        total_count(aggregate::<ExtensionSummary>(facts)) == facts.len(),
    decreases facts.len(),
{
    crate::total::lemma_total_is_sum(facts);
    if facts.len() > 0 {
        lemma_summary_complete(facts.drop_last());
        lemma_totals_add(
            aggregate::<ExtensionSummary>(facts.drop_last()),
            unit_group(facts.last()),
        );
    }
}

/// Each group of the summary holds exactly the facts of its label: their
/// sizes summed and their number. A label has a group if and only if some
/// fact carries it.
pub proof fn lemma_summary_groups(facts: Seq<Fact>, label: Seq<char>)
    ensures
        ({
            let groups = aggregate::<ExtensionSummary>(facts);
            let p = position(groups, label);
            if p >= 0 {
                &&& groups[p].size == size_of_label(facts, label)
                &&& groups[p].count == count_of_label(facts, label)
                &&& groups[p].count > 0
            } else {
                &&& size_of_label(facts, label) == 0
                &&& count_of_label(facts, label) == 0
            }
        }),
    decreases facts.len(),
{
    if facts.len() > 0 {
        let before = aggregate::<ExtensionSummary>(facts.drop_last());
        let u = unit_group(facts.last());
        lemma_summary_groups(facts.drop_last(), label);
        lemma_position(before, label);
        lemma_position(before, u.label);
        lemma_position_add(before, u, label);
        let after = add_group(before, u);
        lemma_position(after, label);
        if u.label == label {
            if position(before, label) < 0 {
                assert(after.drop_last() =~= before);
                assert(position(after, label) == before.len());
            }
        } else {
            if position(before, label) >= 0 {
                assert(after[position(before, label)] == before[position(before, label)]);
            }
        }
    }
}

} // verus!
