//! A small task-tracker library: an in-memory store of todo items with
//! monotonically minted identifiers, plus a canonical JSON representation
//! used to persist the store between invocations.

pub mod cli;
pub mod codec;
pub mod errors;
mod outside;
pub mod todo;

pub use cli::Cli;
pub use cli::Commands;
pub use errors::TodoError;
pub use todo::Todo;
pub use todo::TodoList;
