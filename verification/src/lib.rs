//! A behaviour-tree execution engine.
//!
//! A tree is composed of nodes implementing the [`Behaviour`](behaviour::Behaviour)
//! capability: decorators wrap a single child and transform its result, while
//! composites run an ordered group of children with an independent progress
//! cursor per subject. A [`BehaviourTrees`](registry::BehaviourTrees) registry
//! stores finished trees under opaque handles and drives one tick per active
//! subject each pass.

pub mod behaviour;
pub mod compositor;
pub mod decorator;
pub mod registry;

pub use behaviour::Behaviour;
pub use behaviour::Status;
pub use compositor::Compositor;
pub use decorator::Decorator;
pub use registry::BehaviourId;
pub use registry::BehaviourTrees;
pub use registry::Skip;
