//! Reconciliation core of a unidirectional-data-flow UI framework.
//!
//! A view function describes the interface as a tree of [`Node`]s. The diff
//! engine compares the tree of the previous render with the new one and
//! produces an ordered script of [`Diff`] edits, addressed by sibling
//! position, that a host applies to its live surface one edit after another.

pub mod convert;
pub mod diff;
pub mod edits;
pub mod env;
pub mod idempotence;
pub mod ids;
pub mod node;
pub mod pairs;
pub mod roundtrip;
pub mod surface;
pub mod vecs;
pub mod view;

pub use env::{App, Driver, Env, Runtime};
pub use ids::uuid;
pub use node::{Attribute, AttributeValue, Diff, Element, Handler, Node};
pub use view::{handler, Child, HandlerArg, HandlerFunction, HandlerMap, View};
