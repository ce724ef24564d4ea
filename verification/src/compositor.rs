//! Composites: nodes that run an ordered group of children and combine their
//! results, tracking independent progress per subject.
//!
//! One composite value is shared by every subject attached to its tree, so
//! the progress cursor lives in a map keyed by subject; a subject with no
//! entry is at the first child. Advancing one subject's cursor never touches
//! another's, which is what keeps a shared tree structure safe to play for
//! many subjects at once.

use vstd::prelude::*;

use std::collections::HashMap;

use crate::behaviour::Behaviour;
use crate::behaviour::IntoBehaviour;
use crate::behaviour::SelfMarker;
use crate::behaviour::Status;

verus! {

broadcast use vstd::std_specs::hash::group_hash_axioms;

/// The progress of a subject through a composite's children: its map entry,
/// or the first child when it has none.
pub open spec fn cursor_of(cursors: Map<u64, usize>, subject: u64) -> int {
    if cursors.contains_key(subject) {
        cursors[subject] as int
    } else {
        0
    }
}

/// One step of the [`Sequence`] cursor when the child at the cursor answers:
/// a running child leaves the cursor alone; a failed child resets it and
/// fails the whole sequence; a successful child moves the cursor on and
/// reports `Running`, deferring the next child to the following tick so that
/// every tick runs at most one child.
pub open spec fn sequence_step(cursor: int, child: Status) -> (int, Status) {
    match child {
        Status::Running => (cursor, Status::Running),
        Status::Failure => (0, Status::Failure),
        Status::Success => (cursor + 1, Status::Running),
    }
}

/// One step of the [`Select`] cursor: the roles of success and failure swap
/// compared to [`sequence_step`]. A failed child moves on to the next branch,
/// still `Running`; a successful child resets the cursor and succeeds.
pub open spec fn select_step(cursor: int, child: Status) -> (int, Status) {
    match child {
        Status::Running => (cursor, Status::Running),
        Status::Failure => (cursor + 1, Status::Running),
        Status::Success => (0, Status::Success),
    }
}

/// A sequence fails the moment its current child fails, with the cursor
/// reset: children after the failed one are not consulted on that tick or
/// the next. And while a child merely runs, the cursor does not move.
pub proof fn lemma_sequence_halts_on_failure(cursor: int)
    ensures
        sequence_step(cursor, Status::Failure) == (0int, Status::Failure),
        sequence_step(cursor, Status::Running) == (cursor, Status::Running),
{
}

/// A select keeps trying branches: a failed branch leaves the whole select
/// running with the cursor on the next branch, and a successful branch ends
/// the select on that very tick with the cursor rewound.
pub proof fn lemma_select_advances_on_failure(cursor: int)
    ensures
        select_step(cursor, Status::Failure) == (cursor + 1, Status::Running),
        select_step(cursor, Status::Success) == (0int, Status::Success),
{
}

/// Runs its children one at a time, in order (AND semantics).
///
/// **Succeeds** once every child has succeeded.
/// **Fails** as soon as any child fails.
pub struct Sequence<T> {
    /// The children, in the order they must succeed.
    pub funcs: Vec<T>,
    /// Each subject's progress through the children; no entry means the
    /// first child. This map is the only subject-specific state a composite
    /// holds: the children themselves are shared by every subject.
    pub indices: HashMap<u64, usize>,
}

impl<T> Sequence<T> {
    /// The subject's current cursor, read without changing the map.
    fn cursor(&self, subject: u64) -> (cursor: usize)
        ensures
            cursor as int == cursor_of(self.indices@, subject),
    {
        match self.indices.get(&subject) {
            Some(cursor) => *cursor,
            None => 0,
        }
    }
}

impl<Ctx, T: Behaviour<Ctx>> Behaviour<Ctx> for Sequence<T> {
    fn initialize(&mut self, ctx: &mut Ctx)
        ensures
            final(self).funcs@.len() == old(self).funcs@.len(),
            final(self).indices == old(self).indices,
    {
        let count = self.funcs.len();
        let mut done: usize = 0;
        while done < count
            invariant
                done <= count,
                self.funcs@.len() == count,
                self.indices == old(self).indices,
            decreases count - done,
        {
            self.funcs[done].initialize(ctx);
            done = done + 1;
        }
    }

    fn run(&mut self, subject: u64, ctx: &mut Ctx) -> (status: Status)
        ensures
            final(self).funcs@.len() == old(self).funcs@.len(),
            // other subjects' progress is untouched
            forall|other: u64|
                other != subject ==> cursor_of(final(self).indices@, other) == cursor_of(
                    old(self).indices@,
                    other,
                ),
            // children other than the one at the cursor are untouched
            forall|i: int|
                0 <= i < old(self).funcs@.len() && i != cursor_of(old(self).indices@, subject)
                    ==> final(self).funcs@[i] == old(self).funcs@[i],
            // the whole sequence succeeds exactly when every child has
            // already succeeded, which parks the cursor past the last child
            status == Status::Success <==> cursor_of(old(self).indices@, subject) >= old(
                self,
            ).funcs@.len(),
            status == Status::Success ==> final(self).funcs@ == old(self).funcs@,
            // success and failure both rewind the subject to the first child
            status != Status::Running ==> cursor_of(final(self).indices@, subject) == 0,
            // with a child at the cursor, cursor and status step together
            cursor_of(old(self).indices@, subject) < old(self).funcs@.len()
                ==> exists|child: Status| (
                cursor_of(final(self).indices@, subject),
                status,
            ) == sequence_step(cursor_of(old(self).indices@, subject), child),
    {
        let cursor = self.cursor(subject);
        if cursor < self.funcs.len() {
            let child = self.funcs[cursor].run(subject, ctx);
            let status = match child {
                Status::Running => Status::Running,
                Status::Failure => {
                    // reset this subject's progress
                    self.indices.insert(subject, 0);
                    Status::Failure
                },
                Status::Success => {
                    // defer the next child to the next tick
                    self.indices.insert(subject, cursor + 1);
                    Status::Running
                },
            };
            proof {
                assert((cursor_of(self.indices@, subject), status) == sequence_step(
                    cursor as int,
                    child,
                ));
            }
            status
        } else {
            // every child has succeeded on earlier ticks: rewind and succeed
            self.indices.insert(subject, 0);
            Status::Success
        }
    }
}

impl<T> IntoBehaviour<SelfMarker> for Sequence<T> {
    type Out = Sequence<T>;

    fn into_behaviour(self) -> (out: Sequence<T>)
        ensures
            out == self,
    {
        self
    }
}

/// Selects between its children, trying them one at a time, in order (OR
/// semantics).
///
/// **Succeeds** as soon as any child succeeds.
/// **Fails** once every child has failed.
pub struct Select<T> {
    /// The branches, in the order they are tried.
    pub funcs: Vec<T>,
    /// Each subject's progress through the branches; no entry means the
    /// first branch.
    pub indices: HashMap<u64, usize>,
}

impl<T> Select<T> {
    /// The subject's current cursor, read without changing the map.
    fn cursor(&self, subject: u64) -> (cursor: usize)
        ensures
            cursor as int == cursor_of(self.indices@, subject),
    {
        match self.indices.get(&subject) {
            Some(cursor) => *cursor,
            None => 0,
        }
    }
}

impl<Ctx, T: Behaviour<Ctx>> Behaviour<Ctx> for Select<T> {
    fn initialize(&mut self, ctx: &mut Ctx)
        ensures
            final(self).funcs@.len() == old(self).funcs@.len(),
            final(self).indices == old(self).indices,
    {
        let count = self.funcs.len();
        let mut done: usize = 0;
        while done < count
            invariant
                done <= count,
                self.funcs@.len() == count,
                self.indices == old(self).indices,
            decreases count - done,
        {
            self.funcs[done].initialize(ctx);
            done = done + 1;
        }
    }

    fn run(&mut self, subject: u64, ctx: &mut Ctx) -> (status: Status)
        ensures
            final(self).funcs@.len() == old(self).funcs@.len(),
            // other subjects' progress is untouched
            forall|other: u64|
                other != subject ==> cursor_of(final(self).indices@, other) == cursor_of(
                    old(self).indices@,
                    other,
                ),
            // branches other than the one at the cursor are untouched
            forall|i: int|
                0 <= i < old(self).funcs@.len() && i != cursor_of(old(self).indices@, subject)
                    ==> final(self).funcs@[i] == old(self).funcs@[i],
            // the whole select fails exactly when every branch has already
            // failed, which parks the cursor past the last branch
            status == Status::Failure <==> cursor_of(old(self).indices@, subject) >= old(
                self,
            ).funcs@.len(),
            status == Status::Failure ==> final(self).funcs@ == old(self).funcs@,
            // success and failure both rewind the subject to the first branch
            status != Status::Running ==> cursor_of(final(self).indices@, subject) == 0,
            // with a branch at the cursor, cursor and status step together
            cursor_of(old(self).indices@, subject) < old(self).funcs@.len()
                ==> exists|child: Status| (
                cursor_of(final(self).indices@, subject),
                status,
            ) == select_step(cursor_of(old(self).indices@, subject), child),
    {
        let cursor = self.cursor(subject);
        if cursor < self.funcs.len() {
            let child = self.funcs[cursor].run(subject, ctx);
            let status = match child {
                Status::Running => Status::Running,
                Status::Failure => {
                    // try the next branch on the next tick
                    self.indices.insert(subject, cursor + 1);
                    Status::Running
                },
                Status::Success => {
                    // rewind this subject's progress
                    self.indices.insert(subject, 0);
                    Status::Success
                },
            };
            proof {
                assert((cursor_of(self.indices@, subject), status) == select_step(
                    cursor as int,
                    child,
                ));
            }
            status
        } else {
            // we tried everything; no branch was successful
            self.indices.insert(subject, 0);
            Status::Failure
        }
    }
}

impl<T> IntoBehaviour<SelfMarker> for Select<T> {
    type Out = Select<T>;

    fn into_behaviour(self) -> (out: Select<T>)
        ensures
            out == self,
    {
        self
    }
}

/// Everything a fixed group of nodes can be composed into. A group must hold
/// at least two children: composing fewer is a configuration error, rejected
/// at construction time.
pub trait Compositor<T>: Sized {
    /// How many children the group holds.
    spec fn group_len(&self) -> int;

    /// Composes the group into a [`Sequence`] (AND semantics): it succeeds
    /// once all children have succeeded and fails as soon as one fails.
    fn sequence(self) -> Sequence<T>
        requires
            self.group_len() >= 2,
    ;

    /// Composes the group into a [`Select`] (OR semantics): it succeeds as
    /// soon as one branch succeeds and fails once all branches have failed.
    fn select(self) -> Select<T>
        requires
            self.group_len() >= 2,
    ;

    /// Chains the input nodes together: another name for
    /// [`sequence`](Compositor::sequence).
    fn chain(self) -> Sequence<T>
        requires
            self.group_len() >= 2,
    ;
}

impl<T> Compositor<T> for Vec<T> {
    open spec fn group_len(&self) -> int {
        self@.len() as int
    }

    fn sequence(self) -> (composite: Sequence<T>)
        ensures
            composite.funcs@ == self@,
            composite.indices@ == Map::<u64, usize>::empty(),
    {
        Sequence { funcs: self, indices: HashMap::new() }
    }

    fn select(self) -> (composite: Select<T>)
        ensures
            composite.funcs@ == self@,
            composite.indices@ == Map::<u64, usize>::empty(),
    {
        Select { funcs: self, indices: HashMap::new() }
    }

    fn chain(self) -> (composite: Sequence<T>)
        ensures
            composite.funcs@ == self@,
            composite.indices@ == Map::<u64, usize>::empty(),
    {
        self.sequence()
    }
}

} // verus!
