//! The node capability at the core of the crate: [`Behaviour`], together with
//! the tri-state [`Status`] result and the conversions into it.

use vstd::prelude::*;

verus! {

/// The status of a [`Behaviour`], returned when it is [`run`](Behaviour::run).
#[derive(PartialEq, Eq, Structural, Clone, Copy, Debug)]
pub enum Status {
    /// Indicates a successful action.
    Success,
    /// Indicates a failed action.
    Failure,
    /// Indicates that an action requires more time to complete.
    Running,
}

/// What a status converts to when the host hands back a plain `bool`:
/// `true` succeeds, `false` fails.
pub open spec fn status_of_bool(value: bool) -> Status {
    if value {
        Status::Success
    } else {
        Status::Failure
    }
}

/// What a status converts to when the host hands back an optional status:
/// an absent status is a failure, so that a leaf missing its subject data
/// degrades to a recoverable failure instead of a fatal error.
pub open spec fn status_of_option(value: Option<Status>) -> Status {
    match value {
        Some(status) => status,
        None => Status::Failure,
    }
}

impl From<bool> for Status {
    fn from(value: bool) -> (status: Status)
        ensures
            status == status_of_bool(value),
    {
        match value {
            true => Status::Success,
            false => Status::Failure,
        }
    }
}

impl vstd::std_specs::convert::FromSpecImpl<bool> for Status {
    open spec fn obeys_from_spec() -> bool {
        true
    }

    open spec fn from_spec(value: bool) -> Status {
        status_of_bool(value)
    }
}

impl From<Option<Status>> for Status {
    fn from(value: Option<Status>) -> (status: Status)
        ensures
            status == status_of_option(value),
    {
        match value {
            Some(status) => status,
            None => Status::Failure,
        }
    }
}

impl vstd::std_specs::convert::FromSpecImpl<Option<Status>> for Status {
    open spec fn obeys_from_spec() -> bool {
        true
    }

    open spec fn from_spec(value: Option<Status>) -> Status {
        status_of_option(value)
    }
}

/// The capability shared by every tree node.
///
/// A behaviour is run against a *subject* (an opaque identifier supplied by
/// the host, carried through untouched) inside a *context* of type `Ctx` (the
/// host world; this crate never inspects it beyond handing it to leaves), and
/// answers with a [`Status`].
///
/// Leaves are host-supplied implementations that read and mutate the context
/// directly; nothing is promised about their results, so no clause here
/// constrains `run`. Decorators and composites are provided by this crate and
/// state what they do in the contracts of their own implementations.
pub trait Behaviour<Ctx> {
    /// Initializes the behaviour, performing whatever one-time setup the node
    /// needs. Required to be called before [`run`](Behaviour::run), and called
    /// once per tree, never once per subject.
    fn initialize(&mut self, ctx: &mut Ctx);

    /// Runs the behaviour for the given subject in the given context.
    /// Called at most once per subject per logic tick.
    fn run(&mut self, subject: u64, ctx: &mut Ctx) -> Status;
}

/// A condition evaluated by the guarding decorators: a host-supplied predicate
/// over a subject and the context. Nothing is promised about its result.
pub trait Condition<Ctx> {
    /// Initializes the condition, mirroring [`Behaviour::initialize`].
    fn initialize(&mut self, ctx: &mut Ctx);

    /// Evaluates the condition for the given subject.
    fn check(&mut self, subject: u64, ctx: &mut Ctx) -> bool;
}

/// A leaf that always answers with the same fixed status, independent of
/// subject and context. Useful as a terminal of a larger tree and in tests.
#[derive(PartialEq, Eq, Structural, Clone, Copy, Debug)]
pub struct StatusLeaf(pub Status);

impl<Ctx> Behaviour<Ctx> for StatusLeaf {
    fn initialize(&mut self, _ctx: &mut Ctx)
        ensures
            *final(self) == *old(self),
    {
    }

    fn run(&mut self, _subject: u64, _ctx: &mut Ctx) -> (status: Status)
        ensures
            status == final(self).0,
            *final(self) == *old(self),
    {
        self.0
    }
}

/// Marker for the identity conversion: a finished node converts into a
/// behaviour by being handed over unchanged.
pub struct SelfMarker;

/// Conversion trait for values that can become behaviours. The `Marker`
/// parameter keeps distinct blanket conversions apart; the nodes of this
/// crate convert with [`SelfMarker`], and a host integration can add its own
/// marker for adapting host-side callables.
pub trait IntoBehaviour<Marker> {
    /// What the conversion produces.
    type Out;

    /// Conversion function.
    fn into_behaviour(self) -> Self::Out;
}

impl IntoBehaviour<SelfMarker> for StatusLeaf {
    type Out = StatusLeaf;

    fn into_behaviour(self) -> (out: StatusLeaf)
        ensures
            out == self,
    {
        self
    }
}

/// For debug purposes only: an inert stand-in for tree surface that is not
/// implemented. It sets up nothing and always fails.
#[derive(Clone, Copy)]
pub struct TodoBehaviour;

impl<Ctx> Behaviour<Ctx> for TodoBehaviour {
    fn initialize(&mut self, _ctx: &mut Ctx)
        ensures
            *final(self) == *old(self),
    {
    }

    fn run(&mut self, _subject: u64, _ctx: &mut Ctx) -> (status: Status)
        ensures
            status == Status::Failure,
    {
        Status::Failure
    }
}

impl IntoBehaviour<SelfMarker> for TodoBehaviour {
    type Out = TodoBehaviour;

    fn into_behaviour(self) -> (out: TodoBehaviour)
        ensures
            out == self,
    {
        self
    }
}

/// A condition that always answers with the same fixed boolean.
#[derive(PartialEq, Eq, Structural, Clone, Copy, Debug)]
pub struct BoolCondition(pub bool);

impl<Ctx> Condition<Ctx> for BoolCondition {
    fn initialize(&mut self, _ctx: &mut Ctx)
        ensures
            *final(self) == *old(self),
    {
    }

    fn check(&mut self, _subject: u64, _ctx: &mut Ctx) -> (value: bool)
        ensures
            value == final(self).0,
            *final(self) == *old(self),
    {
        self.0
    }
}

} // verus!
