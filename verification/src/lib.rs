//! An evaluator for a small Lisp that a host drives step by step.
//!
//! The host hands a program to a [`State`], asks it for single steps or for
//! a run, drains the events that the program queued, answers the messages
//! that it sent, and may interrupt it with another program at any point. No
//! evaluation uses the stack of the host: every form in progress is a frame
//! of the state.
//!
//! Each function of the library says in its contract what it returns and
//! how it changes the state, over the models in [`val`], [`variables`] and
//! [`exec`]. What holds of the evaluator whatever the program is proved in
//! [`laws`], [`memory`] and [`safety`].

pub mod builtins;
pub mod exec;
pub mod laws;
pub mod memory;
pub mod number;
pub mod object;
pub mod safety;
pub mod screen;
pub mod val;
pub mod variables;

pub use crate::exec::{eval, eval_s, State};
pub use crate::object::{read_ivec2, read_object};
pub use crate::val::{p, Val};
