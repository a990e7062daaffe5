//! A registry of wakers built on append-only lists.
//!
//! A caller registers a waker and gets a handle, with which it can later
//! replace the waker or free its slot; anyone can deliver one notification,
//! which goes to one slot that has not had one yet.
//!
//! Every operation takes the registry by `&mut` and is one step of a state
//! machine. [`model`] holds that machine as plain mathematics, [`registry`]
//! the registry itself, which is proved to follow the model step by step,
//! [`list`] the append-only list that the registry keeps its slots and its
//! garbage in, and [`laws`] what holds of every run of steps.

pub mod laws;
pub mod list;
pub mod model;
pub mod registry;
pub mod waker;

pub use registry::{WakeHandle, WakeList};
