use vstd::prelude::*;

use crate::errors::TodoError;
use crate::todo::{keep_incomplete, spec_find, TodoList};

verus! {

/// The operations a command-line invocation can request.
#[derive(Debug)]
pub enum Commands {
    /// Create a new store file.
    Init,
    /// Print the tasks in identifier order.
    List,
    /// Add a task with the given description.
    Add { text: String },
    /// Delete the task with the given identifier.
    Delete { todo_id: usize },
    /// Mark the task with the given identifier complete.
    Complete { todo_id: usize },
    /// Mark the task with the given identifier incomplete.
    Uncomplete { todo_id: usize },
    /// Remove every task.
    Clear,
    /// Remove the completed tasks.
    Clean,
}

/// One parsed invocation: the command it requests.
#[derive(Debug)]
pub struct Cli {
    pub command: Commands,
}

impl TodoList {
    /// Apply one command to an already-loaded store. Returns whether the
    /// store was mutated and so must be saved afterwards; `Init` and
    /// `List` touch nothing. A command naming an identifier no task has
    /// fails with `NotFound` and leaves the store unchanged.
    pub fn apply(&mut self, cmd: Commands) -> (r: Result<bool, TodoError>)
        requires
            old(self)@.wf(),
            old(self)@.next_id < usize::MAX,
        ensures
            final(self)@.wf(),
            (match cmd {
                Commands::Init => r == Ok::<bool, TodoError>(false) && *final(self) == *old(self),
                Commands::List => r == Ok::<bool, TodoError>(false) && *final(self) == *old(self),
                Commands::Add { text } => {
                    &&& r == Ok::<bool, TodoError>(true)
                    &&& final(self)@.next_id == old(self)@.next_id + 1
                    &&& exists|stamp: Seq<char>|
                        final(self)@.tasks == old(self)@.tasks.push(
                            (old(self)@.next_id, crate::todo::TodoView {
                                description: text@,
                                complete: false,
                                created_at: stamp,
                                completed_at: None,
                            }),
                        )
                },
                Commands::Delete { todo_id } => (match r {
                    Ok(b) => {
                        &&& b == true
                        &&& spec_find(old(self)@.tasks, todo_id) is Some
                        &&& spec_find(final(self)@.tasks, todo_id) is None
                        &&& forall|j: usize| j != todo_id ==> spec_find(final(self)@.tasks, j)
                            == spec_find(old(self)@.tasks, j)
                        &&& final(self)@.next_id == old(self)@.next_id
                        &&& final(self)@.tasks.len() + 1 == old(self)@.tasks.len()
                    },
                    Err(e) => {
                        &&& e == TodoError::NotFound
                        &&& *final(self) == *old(self)
                        &&& spec_find(old(self)@.tasks, todo_id) is None
                    },
                }),
                Commands::Complete { todo_id } => (match r {
                    Ok(b) => {
                        &&& b == true
                        &&& spec_find(old(self)@.tasks, todo_id) is Some
                        &&& (match spec_find(final(self)@.tasks, todo_id) {
                            Some(t) => t.complete == true && t.completed_at is Some
                                && t.description == spec_find(
                                old(self)@.tasks,
                                todo_id,
                            )->0.description,
                            None => false,
                        })
                        &&& forall|j: usize| j != todo_id ==> spec_find(final(self)@.tasks, j)
                            == spec_find(old(self)@.tasks, j)
                        &&& final(self)@.next_id == old(self)@.next_id
                    },
                    Err(e) => {
                        &&& e == TodoError::NotFound
                        &&& *final(self) == *old(self)
                        &&& spec_find(old(self)@.tasks, todo_id) is None
                    },
                }),
                Commands::Uncomplete { todo_id } => (match r {
                    Ok(b) => {
                        &&& b == true
                        &&& spec_find(old(self)@.tasks, todo_id) is Some
                        &&& (match spec_find(final(self)@.tasks, todo_id) {
                            Some(t) => t.complete == false && t.completed_at is None
                                && t.description == spec_find(
                                old(self)@.tasks,
                                todo_id,
                            )->0.description,
                            None => false,
                        })
                        &&& forall|j: usize| j != todo_id ==> spec_find(final(self)@.tasks, j)
                            == spec_find(old(self)@.tasks, j)
                        &&& final(self)@.next_id == old(self)@.next_id
                    },
                    Err(e) => {
                        &&& e == TodoError::NotFound
                        &&& *final(self) == *old(self)
                        &&& spec_find(old(self)@.tasks, todo_id) is None
                    },
                }),
                Commands::Clear => {
                    &&& r == Ok::<bool, TodoError>(true)
                    &&& final(self)@.tasks == Seq::<(usize, crate::todo::TodoView)>::empty()
                    &&& final(self)@.next_id == old(self)@.next_id
                },
                Commands::Clean => {
                    &&& r == Ok::<bool, TodoError>(true)
                    &&& final(self)@.tasks == keep_incomplete(old(self)@.tasks)
                    &&& final(self)@.next_id == old(self)@.next_id
                },
            }),
    {
        match cmd {
            Commands::Init => Ok(false),
            Commands::List => Ok(false),
            Commands::Add { text } => {
                self.add_todo(text);
                Ok(true)
            },
            Commands::Delete { todo_id } => {
                match self.remove_todo(&todo_id) {
                    Ok(()) => Ok(true),
                    Err(e) => Err(e),
                }
            },
            Commands::Complete { todo_id } => {
                match self.change_todo_status(&todo_id, true) {
                    Ok(()) => Ok(true),
                    Err(e) => Err(e),
                }
            },
            Commands::Uncomplete { todo_id } => {
                match self.change_todo_status(&todo_id, false) {
                    Ok(()) => Ok(true),
                    Err(e) => Err(e),
                }
            },
            Commands::Clear => {
                self.clear();
                Ok(true)
            },
            Commands::Clean => {
                self.clean();
                Ok(true)
            },
        }
    }
}

} // verus!
