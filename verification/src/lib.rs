//! A deterministic finite-state machine engine.
//!
//! A machine is described once, by a type that implements [`StateMachine`]:
//! its states, its inputs, the initial state, the inputs that each state
//! accepts and the state that each accepted input leads to. Around such a
//! description the crate offers
//!
//! - [`StateMachineInstance`], a running machine that executes transitions,
//!   keeps a bounded history and notifies registered callbacks,
//! - [`CallbackRegistry`], the table of callbacks behind an instance,
//! - [`StateMachineQuery`], reachability and shortest-path analysis of the
//!   transition graph,
//! - [`StateMachineDoc`], a renderer of diagrams and tables.
//!
//! The module [`door`] holds a small machine whose description is verified.
//!
//! Every function carries a contract over a mathematical model of the
//! description, and Verus proves each body against its contract.
use vstd::prelude::*;

pub mod callbacks;
pub mod definition;
pub mod doc;
pub mod door;
pub mod graph;
pub mod instance;
pub mod query;

pub use crate::callbacks::CallbackRegistry;
pub use crate::definition::StateMachine;
pub use crate::doc::StateMachineDoc;
pub use crate::instance::{StateMachineInstance, TransitionError};
pub use crate::query::StateMachineQuery;

verus! {

/// The number of transitions that an instance remembers unless told otherwise.
pub const DEFAULT_MAX_HISTORY_SIZE: usize = 512;

} // verus!
