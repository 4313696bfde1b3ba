//! Directory trees held in memory, and walks over them.
//!
//! A `Tree` says what a filesystem would answer for an entry and for
//! everything under it. `outcome` says what a walk of the tree must come to:
//! the facts of its regular files in depth-first order up to the first
//! failure, and that failure. `walk_tree` runs the traversal engine on a
//! tree, answering each of its actions from the tree, and is proved to come
//! to exactly that.

use vstd::prelude::*;
use crate::aggregate::{aggregate, lemma_representable_prefix, Aggregator};
use crate::error::TraversalError;
use crate::extensions::{lemma_summary_complete, total_count, total_size, ExtensionSummary};
use crate::fact::Fact;
use crate::files::{lemma_list_is_records, records, records_of, sizes, top_n, FileList, FileRecord};
use crate::ranking::{pick, top_ranking};
use crate::total::{lemma_total_is_sum, sum_sizes, TotalSize};
use crate::walk::{listed, Action, Event, Step, Walker, Work};

verus! {

/// An entry of a filesystem with everything under it.
#[derive(Debug)]
pub enum Tree {
    /// A regular file.
    File { path: String, size: u64 },
    /// A directory with its entries in the order in which they are listed.
    /// Where `failure` is set, the listing breaks off with that error after
    /// the entries given.
    Directory { entries: Vec<Tree>, failure: Option<TraversalError> },
    /// Something that is neither a file nor a directory.
    Other,
    /// An entry whose metadata cannot be read.
    Unreadable(TraversalError),
}

/// What a walk comes to: the facts met before the first failure, in order,
/// and that failure.
#[verifier::ext_equal]
pub struct Outcome {
    pub facts: Seq<Fact>,
    pub failure: Option<TraversalError>,
}

impl Outcome {
    /// The outcome of a walk that meets nothing.
    pub open spec fn nothing() -> Outcome {
        Outcome { facts: Seq::empty(), failure: None }
    }

    /// The outcome of a walk that fails at once.
    pub open spec fn failed(error: TraversalError) -> Outcome {
        Outcome { facts: Seq::empty(), failure: Some(error) }
    }

    /// This outcome followed by `next`: once the walk has failed, nothing
    /// that follows is looked at.
    pub open spec fn followed_by(self, next: Outcome) -> Outcome {
        if self.failure is Some {
            self
        } else {
            Outcome { facts: self.facts + next.facts, failure: next.failure }
        }
    }
}

/// The outcome of walking a tree.
pub open spec fn outcome(tree: Tree) -> Outcome
    decreases tree,
{
    match tree {
        Tree::File { path, size } => Outcome { facts: seq![Fact::of(path@, size)], failure: None },
        Tree::Directory { entries, failure } => entries_outcome(entries@, failure),
        Tree::Other => Outcome::nothing(),
        Tree::Unreadable(error) => Outcome::failed(error),
    }
}

/// The outcome of walking the entries of a directory in order, and of the
/// failure of its listing after them.
pub open spec fn entries_outcome(entries: Seq<Tree>, failure: Option<TraversalError>) -> Outcome
    decreases entries,
{
    if entries.len() == 0 {
        Outcome { facts: Seq::empty(), failure }
    } else {
        outcome(entries[0]).followed_by(entries_outcome(entries.skip(1), failure))
    }
}

/// The facts of all regular files of a tree, in depth-first order.
pub open spec fn all_facts(tree: Tree) -> Seq<Fact>
    decreases tree,
{
    match tree {
        Tree::File { path, size } => seq![Fact::of(path@, size)],
        Tree::Directory { entries, failure } => entries_facts(entries@),
        _ => Seq::empty(),
    }
}

/// The facts of all regular files under the entries of a directory.
pub open spec fn entries_facts(entries: Seq<Tree>) -> Seq<Fact>
    decreases entries,
{
    if entries.len() == 0 {
        Seq::empty()
    } else {
        all_facts(entries[0]) + entries_facts(entries.skip(1))
    }
}

/// Whether anything in the tree fails: an entry that cannot be inspected,
/// or a directory whose listing breaks off.
pub open spec fn fails(tree: Tree) -> bool
    decreases tree,
{
    match tree {
        Tree::Directory { entries, failure } => entries_fail(entries@) || failure is Some,
        Tree::Unreadable(_) => true,
        _ => false,
    }
}

/// Whether anything under the entries of a directory fails.
pub open spec fn entries_fail(entries: Seq<Tree>) -> bool
    decreases entries,
{
    if entries.len() == 0 {
        false
    } else {
        fails(entries[0]) || entries_fail(entries.skip(1))
    }
}

/// A walk fails exactly where something in the tree fails, however much of
/// the tree lies in front of it; and a walk that does not fail meets every
/// regular file of the tree.
pub proof fn lemma_outcome(tree: Tree)
    ensures
        outcome(tree).failure is Some <==> fails(tree),
        !fails(tree) ==> outcome(tree).facts == all_facts(tree),
    decreases tree,
{
    match tree {
        Tree::Directory { entries, failure } => {
            lemma_entries_outcome(entries@, failure);
        },
        _ => {},
    }
}

/// The same for the entries of a directory.
pub proof fn lemma_entries_outcome(entries: Seq<Tree>, failure: Option<TraversalError>)
    ensures
        entries_outcome(entries, failure).failure is Some <==> entries_fail(entries) || failure
            is Some,
        !entries_fail(entries) && failure is None ==> entries_outcome(entries, failure).facts
            == entries_facts(entries),
    decreases entries,
{
    if entries.len() > 0 {
        lemma_outcome(entries[0]);
        lemma_entries_outcome(entries.skip(1), failure);
    }
}

/// Walking an empty directory meets nothing and does not fail: every
/// aggregate of it is the identity.
pub proof fn lemma_empty_directory<A: Aggregator>(tree: Tree)
    requires
        tree matches Tree::Directory { entries, failure } && entries@.len() == 0 && failure
            is None,
    ensures
        outcome(tree) == Outcome::nothing(),
        aggregate::<A>(outcome(tree).facts) == A::empty(),
{
}

/// The trees that references stand for.
pub open spec fn trees(entries: Seq<&Tree>) -> Seq<Tree> {
    Seq::new(entries.len(), |i: int| *entries[i])
}

/// The outcome of one piece of pending work.
pub open spec fn work_outcome(work: Work<&Tree>) -> Outcome {
    match work {
        Work::Entry(tree) => outcome(*tree),
        Work::Failure(error) => Outcome::failed(error),
    }
}

/// The outcome of doing pending work in order.
pub open spec fn works_outcome(works: Seq<Work<&Tree>>) -> Outcome
    decreases works.len(),
{
    if works.len() == 0 {
        Outcome::nothing()
    } else {
        work_outcome(works[0]).followed_by(works_outcome(works.skip(1)))
    }
}

/// The number of steps that a walk of the tree takes at most.
pub open spec fn weight(tree: Tree) -> nat
    decreases tree,
{
    match tree {
        Tree::Directory { entries, failure } => 2 + entries_weight(entries@) + if failure is Some {
            1nat
        } else {
            0nat
        },
        _ => 1,
    }
}

/// The weights of the entries of a directory, summed.
pub open spec fn entries_weight(entries: Seq<Tree>) -> nat
    decreases entries,
{
    if entries.len() == 0 {
        0
    } else {
        weight(entries[0]) + entries_weight(entries.skip(1))
    }
}

/// The weight of pending work.
pub open spec fn works_weight(works: Seq<Work<&Tree>>) -> nat
    decreases works.len(),
{
    if works.len() == 0 {
        0
    } else {
        (match works[0] {
            Work::Entry(tree) => weight(*tree),
            Work::Failure(_) => 1nat,
        }) + works_weight(works.skip(1))
    }
}

/// Following one outcome by two others is associative.
pub proof fn lemma_followed_by_assoc(a: Outcome, b: Outcome, c: Outcome)
    ensures
        a.followed_by(b).followed_by(c) == a.followed_by(b.followed_by(c)),
{
    assert(a.followed_by(b).followed_by(c) =~= a.followed_by(b.followed_by(c)));
}

/// Listing a directory puts the outcome of its entries in front of the
/// outcome of what was pending.
proof fn lemma_listed_outcome(
    entries: Seq<&Tree>,
    failure: Option<TraversalError>,
    pending: Seq<Work<&Tree>>,
)
    ensures
        works_outcome(listed(entries, failure) + pending) == entries_outcome(
            trees(entries),
            failure,
        ).followed_by(works_outcome(pending)),
        works_weight(listed(entries, failure) + pending) == entries_weight(trees(entries)) + (
        if failure is Some {
            1nat
        } else {
            0nat
        }) + works_weight(pending),
    decreases entries.len(),
{
    let all = listed(entries, failure) + pending;
    if entries.len() == 0 {
        match failure {
            Some(error) => {
                assert(all[0] == Work::<&Tree>::Failure(error));
                assert(all.skip(1) =~= pending);
            },
            None => {
                assert(all =~= pending);
                assert(Outcome::nothing().followed_by(works_outcome(pending)) =~= works_outcome(pending));
            },
        }
    } else {
        let rest = entries.skip(1);
        assert(all[0] == Work::Entry(entries[0]));
        assert(all.skip(1) =~= listed(rest, failure) + pending);
        assert(trees(entries).skip(1) =~= trees(rest));
        assert(trees(entries)[0] == *entries[0]);
        lemma_listed_outcome(rest, failure, pending);
        lemma_followed_by_assoc(
            outcome(*entries[0]),
            entries_outcome(trees(rest), failure),
            works_outcome(pending),
        );
    }
}

/// What is left of a walk: the listing that is awaited, then the pending
/// work.
pub open spec fn remaining<A: Aggregator>(walker: Walker<&Tree, A>) -> Outcome {
    match walker.listing() {
        Some(dir) => outcome(*dir).followed_by(works_outcome(walker.pending())),
        None => works_outcome(walker.pending()),
    }
}

/// The number of steps left of a walk at most.
pub open spec fn steps_left<A: Aggregator>(walker: Walker<&Tree, A>) -> nat {
    match walker.listing() {
        Some(dir) => (weight(*dir) - 1) as nat + works_weight(walker.pending()),
        None => works_weight(walker.pending()),
    }
}

fn references(entries: &Vec<Tree>) -> (found: Vec<&Tree>)
    ensures
        trees(found@) == entries@,
{
    let mut found: Vec<&Tree> = Vec::new();
    let mut i: usize = 0;
    while i < entries.len()
        invariant
            i <= entries@.len(),
            found@.len() == i,
            forall|k: int| 0 <= k < i ==> *(#[trigger] found@[k]) == entries@[k],
        decreases entries@.len() - i,
    {
        found.push(&entries[i]);
        i = i + 1;
    }
    assert(trees(found@) =~= entries@);
    found
}

/// Walks a tree held in memory.
///
/// The result is `None` where the aggregate cannot hold the files that the
/// walk meets before its first failure. Otherwise it is the first failure
/// of the tree in depth-first order, if there is one, and if there is none,
/// the aggregate of the facts of all regular files of the tree in that
/// order.
pub fn walk_tree<A: Aggregator>(root: &Tree) -> (result: Option<Result<A, TraversalError>>)
    ensures
        match result {
            None => !A::representable(aggregate::<A>(outcome(*root).facts)),
            Some(Err(error)) => outcome(*root).failure == Some(error) && A::representable(
                aggregate::<A>(outcome(*root).facts),
            ),
            Some(Ok(acc)) => outcome(*root).failure is None && acc.wf() && acc.model()
                == aggregate::<A>(outcome(*root).facts),
        },
{
    let mut walker = Walker::<&Tree, A>::start(root);
    let ghost mut done: Seq<Fact> = Seq::empty();
    proof {
        walker.lemma_representable();
        assert(walker.pending().skip(1) =~= Seq::empty());
        assert(walker.pending()[0] == Work::Entry(root));
        assert(works_outcome(walker.pending().skip(1)) == Outcome::nothing());
        assert(outcome(*root).followed_by(Outcome::nothing()) =~= outcome(*root));
        assert(works_outcome(walker.pending()) =~= outcome(*root));
        assert(Outcome { facts: done, failure: None }.followed_by(remaining(walker)) =~= outcome(*root));
    }
    loop
        invariant
            walker.wf(),
            walker.aggregate() == aggregate::<A>(done),
            A::representable(aggregate::<A>(done)),
            walker.listing() matches Some(dir) ==> *dir is Directory,
            outcome(*root) == (Outcome { facts: done, failure: None }).followed_by(remaining(walker)),
        decreases steps_left(walker),
    {
        let ghost pending = walker.pending();
        let ghost before = walker;
        let ghost rest = pending.skip(1);
        proof {
            walker.lemma_wf();
        }
        let event: Event<&Tree> = match walker.action() {
            Action::Inspect(entry) => match entry {
                Tree::File { path, size } => Event::File { path: path.clone(), size: *size },
                Tree::Directory { .. } => Event::Directory,
                Tree::Other => Event::Other,
                Tree::Unreadable(error) => Event::Failed(*error),
            },
            Action::List(dir) => match dir {
                Tree::Directory { entries, failure } => Event::Entries {
                    entries: references(entries),
                    failure: *failure,
                },
                _ => {
                    proof {
                        assert(false);
                    }
                    unreached()
                },
            },
        };
        // What the step folds in, and the work that it leaves.
        let ghost found = event;
        let ghost folded: Seq<Fact> = match found {
            Event::File { path, size } => done.push(Fact::of(path@, size)),
            _ => done,
        };
        let ghost left: Outcome = match found {
            Event::File { .. } => works_outcome(rest),
            Event::Directory => outcome(*pending[0]->Entry_0).followed_by(works_outcome(rest)),
            Event::Other => works_outcome(rest),
            Event::Entries { entries, failure } => works_outcome(listed(entries@, failure) + pending),
            Event::Failed(error) => Outcome::failed(error),
        };
        proof {
            match found {
                Event::Entries { entries, failure } => {
                    lemma_listed_outcome(entries@, failure, pending);
                },
                _ => {},
            }
            assert(folded == done || folded.drop_last() =~= done);
            assert(outcome(*root) =~= (Outcome { facts: folded, failure: None }).followed_by(left));
            assert(outcome(*root).facts.take(folded.len() as int) =~= folded);
            if A::representable(aggregate::<A>(outcome(*root).facts)) {
                lemma_representable_prefix::<A>(outcome(*root).facts, folded.len() as int);
            }
        }
        match walker.advance(event) {
            Step::Continue(next) => {
                proof {
                    assert(remaining(next) =~= left);
                    assert(steps_left(next) < steps_left(before));
                }
                walker = next;
                proof {
                    done = folded;
                }
            },
            Step::Done(result) => {
                let ghost ended = result;
                proof {
                    match ended {
                        Ok(acc) => {
                            assert(left =~= Outcome::nothing());
                        },
                        Err(error) => {
                            assert(left.failure == Some(error) && left.facts =~= Seq::empty());
                        },
                    }
                    assert(outcome(*root).facts =~= folded);
                }
                return Some(result);
            },
            Step::Refused(_) => {
                return None;
            },
        }
    }
}

/// The total size of the regular files of a tree.
///
/// The result is `None` where the sum does not fit 64 bits. Otherwise it is
/// the first failure of the tree, or, for a tree without one, the sum of the
/// sizes of all its regular files.
pub fn total_size_of(root: &Tree) -> (result: Option<Result<u64, TraversalError>>)
    ensures
        match result {
            None => sum_sizes(outcome(*root).facts) > u64::MAX,
            Some(Err(error)) => outcome(*root).failure == Some(error),
            Some(Ok(bytes)) => !fails(*root) && bytes == sum_sizes(all_facts(*root)),
        },
{
    proof {
        lemma_outcome(*root);
        lemma_total_is_sum(outcome(*root).facts);
    }
    match walk_tree::<TotalSize>(root) {
        None => None,
        Some(Err(error)) => Some(Err(error)),
        Some(Ok(total)) => Some(Ok(total.bytes())),
    }
}

/// The breakdown by extension of the regular files of a tree.
///
/// The result is `None` where a size or a count does not fit its integer.
/// Otherwise it is the first failure of the tree, or, for a tree without
/// one, the summary of all its regular files: the sizes of its groups add
/// up to the total size, and their counts to the number of files.
pub fn extension_summary_of(root: &Tree) -> (result: Option<
    Result<ExtensionSummary, TraversalError>,
>)
    ensures
        match result {
            None => !ExtensionSummary::representable(
                aggregate::<ExtensionSummary>(outcome(*root).facts),
            ),
            Some(Err(error)) => outcome(*root).failure == Some(error),
            Some(Ok(summary)) => {
                &&& !fails(*root)
                &&& summary.wf()
                &&& summary.model() == aggregate::<ExtensionSummary>(all_facts(*root))
                &&& total_size(summary.model()) == sum_sizes(all_facts(*root))
                &&& total_count(summary.model()) == all_facts(*root).len()
            },
        },
{
    proof {
        lemma_outcome(*root);
        lemma_summary_complete(outcome(*root).facts);
    }
    walk_tree::<ExtensionSummary>(root)
}

/// The regular files of a tree with their sizes, in depth-first order, or
/// the first failure of the tree.
pub fn file_list_of(root: &Tree) -> (result: Result<FileList, TraversalError>)
    ensures
        match result {
            Err(error) => outcome(*root).failure == Some(error),
            Ok(list) => !fails(*root) && list.model() == records_of(all_facts(*root)),
        },
{
    proof {
        lemma_outcome(*root);
        lemma_list_is_records(outcome(*root).facts);
    }
    match walk_tree::<FileList>(root) {
        Some(result) => result,
        None => {
            proof {
                assert(false);
            }
            unreached()
        },
    }
}

/// The `n` largest regular files of a tree, largest first, files of equal
/// size in depth-first order; or the first failure of the tree.
pub fn largest_files_of(root: &Tree, n: usize) -> (result: Result<Vec<FileRecord>, TraversalError>)
    ensures
        match result {
            Err(error) => outcome(*root).failure == Some(error),
            Ok(top) => {
                let all = records_of(all_facts(*root));
                &&& !fails(*root)
                &&& records(top@) == pick(all, top_ranking(sizes(all), n as int))
                &&& top@.len() == if n < all.len() { n as int } else { all.len() as int }
            },
        },
{
    match file_list_of(root) {
        Err(error) => Err(error),
        Ok(list) => Ok(top_n(list.files(), n)),
    }
}

} // verus!
