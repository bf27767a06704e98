//! A single-user task list: tasks are added, ticked off and removed, and the
//! list can be handed to and taken back from persistent storage.

pub mod laws;
pub mod model;
pub mod order;
pub mod store;
pub mod text;

pub use store::{Stats, Todo, TodoApp};
