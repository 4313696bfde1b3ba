//! The traversal engine.
//!
//! A walk visits every entry under a root once, depth first, each
//! directory's entries in the order in which the operating system lists
//! them, and folds one fact per regular file into an aggregate. The first
//! failure ends the walk, and nothing of what was aggregated until then is
//! handed out.
//!
//! The engine does no input or output itself. It is a state machine: a
//! `Walker` says which entry is to be inspected or which directory is to be
//! listed, the caller does that and reports what it found as an `Event`, and
//! `advance` gives the next state or the outcome of the walk. Work that is
//! still to be done is kept on an explicit stack, so the depth of the tree
//! never adds to the depth of the call stack.
//!
//! Entries are named by handles of a type that the caller chooses, paths for
//! a filesystem; the engine only hands them back.

use vstd::prelude::*;
use crate::aggregate::Aggregator;
use crate::error::TraversalError;
use crate::fact::{Fact, FileFact};

verus! {

/// One piece of work that a walk has still to do.
pub enum Work<H> {
    /// An entry that is to be inspected.
    Entry(H),
    /// The listing of a directory broke off here: once the entries in front
    /// have been walked, the walk fails with this error.
    Failure(TraversalError),
}

/// What the caller has to do next.
pub enum Action<'a, H> {
    /// Read the metadata of this entry, following symbolic links.
    Inspect(&'a H),
    /// Read the entries of this directory.
    List(&'a H),
}

/// What the caller found.
pub enum Event<H> {
    /// The entry inspected is a regular file.
    File { path: String, size: u64 },
    /// The entry inspected is a directory.
    Directory,
    /// The entry inspected is neither a file nor a directory.
    Other,
    /// The entries of the directory listed, in the order in which they were
    /// read, and the error on which the listing broke off, if it did.
    Entries { entries: Vec<H>, failure: Option<TraversalError> },
    /// The entry could not be inspected, or the directory not be opened.
    Failed(TraversalError),
}

/// A walk in progress. A walker always has an action for the caller.
pub struct Walker<H, A> {
    stack: Vec<Work<H>>,
    listing: Option<H>,
    acc: A,
}

/// The result of one step of a walk.
pub enum Step<H, A> {
    /// The walk goes on.
    Continue(Walker<H, A>),
    /// The walk is over: every entry was visited, or a failure ended it.
    Done(Result<A, TraversalError>),
    /// The event was not taken: it does not answer the walker's action, or
    /// the aggregate cannot hold the file. The walker is as it was.
    Refused(Walker<H, A>),
}

/// The work that a listing of a directory adds: its entries in order, then
/// the failure on which it broke off.
pub open spec fn listed<H>(entries: Seq<H>, failure: Option<TraversalError>) -> Seq<Work<H>> {
    let found = Seq::new(entries.len(), |i: int| Work::Entry(entries[i]));
    match failure {
        Some(error) => found.push(Work::Failure(error)),
        None => found,
    }
}

impl<H, A: Aggregator> Walker<H, A> {
    /// The work still to be done, next first.
    pub closed spec fn pending(&self) -> Seq<Work<H>> {
        self.stack@.reverse()
    }

    /// The directory that is to be listed, if the walker waits for one.
    pub closed spec fn listing(&self) -> Option<H> {
        self.listing
    }

    /// The aggregate of the files met so far.
    pub closed spec fn aggregate(&self) -> A::Model {
        self.acc.model()
    }

    /// The representation invariant: the aggregate is well formed, and there
    /// is an action to take.
    pub closed spec fn wf(&self) -> bool {
        &&& self.acc.wf()
        &&& self.listing is Some || (self.stack@.len() > 0 && self.stack@.last() is Entry)
    }

    /// A well-formed walker waits for a listing or has an entry in front.
    pub proof fn lemma_wf(&self)
        requires
            self.wf(),
        ensures
            self.listing() is Some || (self.pending().len() > 0 && self.pending()[0] is Entry),
    {
    }

    /// The aggregate of a well-formed walker is representable.
    pub proof fn lemma_representable(&self)
        requires
            self.wf(),
        ensures
            A::representable(self.aggregate()),
    {
        self.acc.lemma_wf_representable();
    }

    /// Whether `other` is in the same state as this walker.
    pub open spec fn same_state(&self, other: &Walker<H, A>) -> bool {
        &&& other.wf()
        &&& other.pending() == self.pending()
        &&& other.listing() == self.listing()
        &&& other.aggregate() == self.aggregate()
    }

    /// What a step comes to once `pending` is the work left and `acc` the
    /// aggregate: the walk is done where no work is left, it has failed
    /// where a failure is in front, and it goes on otherwise.
    pub open spec fn settled(step: Step<H, A>, pending: Seq<Work<H>>, acc: A::Model) -> bool {
        if pending.len() == 0 {
            step matches Step::Done(Ok(result)) && result.wf() && result.model() == acc
        } else {
            match pending[0] {
                Work::Failure(error) => step matches Step::Done(Err(e)) && e == error,
                Work::Entry(_) => {
                    &&& step matches Step::Continue(next)
                    &&& next.wf()
                    &&& next.pending() == pending
                    &&& next.listing() is None
                    &&& next.aggregate() == acc
                },
            }
        }
    }

    /// The step that `event` makes from this walker.
    pub open spec fn advanced(&self, event: Event<H>, step: Step<H, A>) -> bool {
        match (self.listing(), event) {
            (_, Event::Failed(error)) => step matches Step::Done(Err(e)) && e == error,
            (None, Event::File { path, size }) => {
                let acc = A::folded(self.aggregate(), Fact::of(path@, size));
                if A::representable(acc) {
                    Self::settled(step, self.pending().skip(1), acc)
                } else {
                    step matches Step::Refused(same) && self.same_state(&same)
                }
            },
            (None, Event::Directory) => {
                &&& step matches Step::Continue(next)
                &&& next.wf()
                &&& next.pending() == self.pending().skip(1)
                &&& self.pending()[0] == Work::Entry(next.listing()->0)
                &&& next.listing() is Some
                &&& next.aggregate() == self.aggregate()
            },
            (None, Event::Other) => Self::settled(step, self.pending().skip(1), self.aggregate()),
            (Some(_), Event::Entries { entries, failure }) => Self::settled(
                step,
                listed(entries@, failure) + self.pending(),
                self.aggregate(),
            ),
            _ => step matches Step::Refused(same) && self.same_state(&same),
        }
    }

    /// Starts a walk at `root` with the identity aggregate.
    pub fn start(root: H) -> (walker: Walker<H, A>)
        ensures
            walker.wf(),
            walker.pending() == seq![Work::Entry(root)],
            walker.listing() is None,
            walker.aggregate() == A::empty(),
    {
        let mut stack: Vec<Work<H>> = Vec::new();
        stack.push(Work::Entry(root));
        let walker = Walker { stack, listing: None, acc: A::identity() };
        assert(walker.stack@.reverse() =~= seq![Work::Entry(root)]);
        walker
    }

    /// What the caller has to do next: list the directory that was found
    /// last, or inspect the entry in front.
    pub fn action(&self) -> (action: Action<'_, H>)
        requires
            self.wf(),
        ensures
            match action {
                Action::List(dir) => self.listing() == Some(*dir),
                Action::Inspect(entry) => self.listing() is None && self.pending().len() > 0
                    && self.pending()[0] == Work::Entry(*entry),
            },
    {
        match &self.listing {
            Some(dir) => Action::List(dir),
            None => {
                let last: usize = self.stack.len() - 1;
                match &self.stack[last] {
                    Work::Entry(entry) => Action::Inspect(entry),
                    Work::Failure(_) => {
                        proof {
                            assert(false);
                        }
                        unreached()
                    },
                }
            },
        }
    }

    fn settle(walker: Walker<H, A>) -> (step: Step<H, A>)
        requires
            walker.acc.wf(),
            walker.listing is None,
        ensures
            Self::settled(step, walker.pending(), walker.aggregate()),
    {
        if walker.stack.len() == 0 {
            Step::Done(Ok(walker.acc))
        } else {
            let last: usize = walker.stack.len() - 1;
            let failure: Option<TraversalError> = match &walker.stack[last] {
                Work::Failure(error) => Some(*error),
                Work::Entry(_) => None,
            };
            match failure {
                Some(error) => Step::Done(Err(error)),
                None => Step::Continue(walker),
            }
        }
    }

    /// Takes what the caller found and moves the walk on.
    ///
    /// A file is folded into the aggregate; a directory is listed next, and
    /// its entries are then walked in order before anything that was
    /// pending; an entry that is neither is passed over. A failure, of an
    /// inspection or of a listing, ends the walk with that error. A listing
    /// that broke off ends it once the entries read before have been walked.
    pub fn advance(self, event: Event<H>) -> (step: Step<H, A>)
        requires
            self.wf(),
        ensures
            self.advanced(event, step),
    {
        let mut walker = self;
        let ghost before = walker.pending();
        let ghost stack_before = walker.stack@;
        match event {
            Event::Failed(error) => Step::Done(Err(error)),
            Event::File { path, size } => {
                if walker.listing.is_some() {
                    return Step::Refused(walker);
                }
                let fact = FileFact::new(path, size);
                if !walker.acc.fold(fact) {
                    return Step::Refused(walker);
                }
                walker.stack.pop();
                assert(walker.stack@.reverse() =~= before.skip(1));
                Self::settle(walker)
            },
            Event::Directory => {
                if walker.listing.is_some() {
                    return Step::Refused(walker);
                }
                match walker.stack.pop() {
                    Some(Work::Entry(dir)) => {
                        assert(walker.stack@.reverse() =~= before.skip(1));
                        assert(before[0] == Work::Entry(dir));
                        walker.listing = Some(dir);
                        Step::Continue(walker)
                    },
                    _ => {
                        proof {
                            assert(false);
                        }
                        unreached()
                    },
                }
            },
            Event::Other => {
                if walker.listing.is_some() {
                    return Step::Refused(walker);
                }
                walker.stack.pop();
                assert(walker.stack@.reverse() =~= before.skip(1));
                Self::settle(walker)
            },
            Event::Entries { entries, failure } => {
                if walker.listing.is_none() {
                    return Step::Refused(walker);
                }
                walker.listing = None;
                let ghost found = entries@;
                let mut entries = entries;
                match failure {
                    Some(error) => {
                        walker.stack.push(Work::Failure(error));
                    },
                    None => {},
                }
                let ghost base = walker.stack@;
                loop
                    invariant
                        entries@.len() <= found.len(),
                        entries@ == found.take(entries@.len() as int),
                        walker.stack@.len() == base.len() + found.len() - entries@.len(),
                        forall|i: int| 0 <= i < base.len() ==> walker.stack@[i] == base[i],
                        forall|i: int|
                            base.len() <= i < walker.stack@.len() ==> walker.stack@[i]
                                == Work::Entry(found[found.len() - 1 - (i - base.len())]),
                        walker.acc.wf(),
                        walker.listing is None,
                        walker.acc.model() == self.acc.model(),
                    ensures
                        entries@.len() == 0,
                    decreases entries@.len(),
                {
                    match entries.pop() {
                        Some(entry) => {
                            walker.stack.push(Work::Entry(entry));
                        },
                        None => {
                            break ;
                        },
                    }
                }
                proof {
                    let want = listed(found, failure) + before;
                    let have = walker.stack@.reverse();
                    assert(have.len() == want.len());
                    assert forall|k: int| 0 <= k < want.len() implies have[k] == want[k] by {
                        let i = walker.stack@.len() - 1 - k;
                        if k < found.len() {
                            assert(walker.stack@[i] == Work::Entry(found[k]));
                        } else {
                            assert(walker.stack@[i] == base[i]);
                            if failure is Some && k == found.len() {
                            } else {
                                assert(base[i] == stack_before[i]);
                                assert(before[before.len() - 1 - i] == stack_before[i]);
                            }
                        }
                    }
                    assert(have =~= want);
                }
                Self::settle(walker)
            },
        }
    }
}

} // verus!
