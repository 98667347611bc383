use vstd::prelude::*;

use crate::errors::TodoError;
use crate::outside::now_timestamp;

verus! {

/// Mathematical model of one todo item: the four fields of a task, with
/// strings abstracted to character sequences.
pub ghost struct TodoView {
    pub description: Seq<char>,
    pub complete: bool,
    pub created_at: Seq<char>,
    pub completed_at: Option<Seq<char>>,
}

/// Mathematical model of a store: the tasks as an identifier-ordered
/// sequence of pairs, plus the counter that mints the next identifier.
pub ghost struct StoreView {
    pub tasks: Seq<(usize, TodoView)>,
    pub next_id: usize,
}

/// One todo entry: a description, a completion flag, the creation
/// timestamp, and the completion timestamp while the item is complete.
#[derive(Debug)]
pub struct Todo {
    pub description: String,
    pub complete: bool,
    pub created_at: String,
    pub completed_at: Option<String>,
}

impl View for Todo {
    type V = TodoView;

    open spec fn view(&self) -> TodoView {
        TodoView {
            description: self.description@,
            complete: self.complete,
            created_at: self.created_at@,
            completed_at: match self.completed_at {
                Some(s) => Some(s@),
                None => None,
            },
        }
    }
}

/// The task with `value` as its completion flag: completing stamps the
/// completion time, uncompleting clears it (the completion timestamp is
/// present exactly while the task is complete).
pub open spec fn with_status(t: TodoView, value: bool, stamp: Seq<char>) -> TodoView {
    TodoView {
        description: t.description,
        complete: value,
        created_at: t.created_at,
        completed_at: if value {
            Some(stamp)
        } else {
            None
        },
    }
}

/// No two entries carry the same identifier.
pub open spec fn unique_ids(tasks: Seq<(usize, TodoView)>) -> bool {
    forall|i: int, j: int| 0 <= i < j < tasks.len() ==> tasks[i].0 != tasks[j].0
}

/// Entries are ordered by strictly increasing identifier.
pub open spec fn sorted_by_id(tasks: Seq<(usize, TodoView)>) -> bool {
    forall|i: int, j: int| 0 <= i < j < tasks.len() ==> tasks[i].0 < tasks[j].0
}

/// The task under `id`, if any.
pub open spec fn spec_find(tasks: Seq<(usize, TodoView)>, id: usize) -> Option<TodoView>
    decreases tasks.len(),
{
    if tasks.len() == 0 {
        None
    } else if tasks.last().0 == id {
        Some(tasks.last().1)
    } else {
        spec_find(tasks.drop_last(), id)
    }
}

/// Whether some entry carries `id`.
pub open spec fn contains_id(tasks: Seq<(usize, TodoView)>, id: usize) -> bool {
    exists|i: int| 0 <= i < tasks.len() && tasks[i].0 == id
}

/// The entries that are not complete, in their original order.
pub open spec fn keep_incomplete(tasks: Seq<(usize, TodoView)>) -> Seq<(usize, TodoView)>
    decreases tasks.len(),
{
    if tasks.len() == 0 {
        Seq::empty()
    } else if tasks.last().1.complete {
        keep_incomplete(tasks.drop_last())
    } else {
        keep_incomplete(tasks.drop_last()).push(tasks.last())
    }
}

impl StoreView {
    /// Store well-formedness: identifiers ascend strictly, every one was
    /// minted below the counter, and the counter never sits below its
    /// initial value of 1.
    pub open spec fn wf(self) -> bool {
        &&& sorted_by_id(self.tasks)
        &&& forall|i: int|
            0 <= i < self.tasks.len() ==> 1 <= (#[trigger] self.tasks[i]).0 < self.next_id
        &&& self.next_id >= 1
    }
}

/// On sequences with unique identifiers, `spec_find` agrees with the
/// pointwise description: it is `Some` exactly when some entry carries the
/// identifier, and then returns that entry's task.
pub proof fn lemma_find_characterization(tasks: Seq<(usize, TodoView)>, id: usize)
    requires
        unique_ids(tasks),
    ensures
        (spec_find(tasks, id) is Some) == contains_id(tasks, id),
        forall|i: int|
            0 <= i < tasks.len() && (#[trigger] tasks[i]).0 == id ==> spec_find(tasks, id)
                == Some(tasks[i].1),
    decreases tasks.len(),
{
    if tasks.len() == 0 {
    } else if tasks.last().0 == id {
        assert(contains_id(tasks, id)) by {
            assert(tasks[tasks.len() - 1].0 == id);
        }
        assert forall|i: int| 0 <= i < tasks.len() && (#[trigger] tasks[i]).0 == id implies
            spec_find(tasks, id) == Some(tasks[i].1) by {
            if i < tasks.len() - 1 {
                assert(tasks[i].0 != tasks[tasks.len() - 1].0);
            }
        }
    } else {
        assert(unique_ids(tasks.drop_last())) by {
            assert forall|i: int, j: int| 0 <= i < j < tasks.drop_last().len() implies
                tasks.drop_last()[i].0 != tasks.drop_last()[j].0 by {
                assert(tasks[i].0 != tasks[j].0);
            }
        }
        lemma_find_characterization(tasks.drop_last(), id);
        if contains_id(tasks, id) {
            let i = choose|i: int| 0 <= i < tasks.len() && tasks[i].0 == id;
            assert(i < tasks.len() - 1);
            assert(tasks.drop_last()[i].0 == id);
            assert(contains_id(tasks.drop_last(), id));
        }
        if contains_id(tasks.drop_last(), id) {
            let i = choose|i: int| 0 <= i < tasks.drop_last().len() && tasks.drop_last()[i].0
                == id;
            assert(tasks[i].0 == id);
            assert(contains_id(tasks, id));
        }
        assert forall|i: int| 0 <= i < tasks.len() && (#[trigger] tasks[i]).0 == id implies
            spec_find(tasks, id) == Some(tasks[i].1) by {
            assert(i < tasks.len() - 1);
            assert(tasks.drop_last()[i].0 == id);
            assert(tasks.drop_last()[i].1 == tasks[i].1);
        }
    }
}

/// The store: tasks keyed by minted identifiers, held in ascending
/// identifier order, and the counter for the next identifier.
#[derive(Debug)]
pub struct TodoList {
    pub todos: Vec<(usize, Todo)>,
    pub next_id: usize,
}

impl View for TodoList {
    type V = StoreView;

    open spec fn view(&self) -> StoreView {
        StoreView {
            tasks: self.todos@.map_values(|p: (usize, Todo)| (p.0, p.1@)),
            next_id: self.next_id,
        }
    }
}

impl Todo {
    /// A task created now: incomplete unless `complete` says otherwise,
    /// stamped with the current time, with no completion timestamp.
    pub fn new(description: String, complete: Option<bool>) -> (r: Todo)
        ensures
            r@.description == description@,
            r@.complete == (match complete {
                Some(b) => b,
                None => false,
            }),
            r@.completed_at is None,
    {
        let created_at = now_timestamp();
        Todo {
            description,
            complete: match complete {
                Some(b) => b,
                None => false,
            },
            created_at,
            completed_at: None,
        }
    }

    /// A task with every field given, for callers that carry their own
    /// timestamps (a load, or a test).
    pub fn new_at(description: String, complete: bool, created_at: String) -> (r: Todo)
        ensures
            r@ == (TodoView {
                description: description@,
                complete: complete,
                created_at: created_at@,
                completed_at: None,
            }),
    {
        Todo { description, complete, created_at, completed_at: None }
    }

    /// The creation timestamp.
    pub fn created_at(&self) -> (r: &String)
        ensures
            r@ == self@.created_at,
    {
        &self.created_at
    }

    /// The completion timestamp, present exactly while the task is
    /// complete (for stores built by this library's own mutations).
    pub fn completed_at(&self) -> (r: &Option<String>)
        ensures
            (match r {
                Some(s) => self@.completed_at == Some(s@),
                None => self@.completed_at is None,
            }),
    {
        &self.completed_at
    }
}

impl TodoList {
    /// An empty store, counter at its initial value: the first identifier
    /// minted will be 1.
    pub fn new() -> (r: TodoList)
        ensures
            r@.tasks == Seq::<(usize, TodoView)>::empty(),
            r@.next_id == 1,
            r@.wf(),
    {
        let r = TodoList { todos: Vec::new(), next_id: 1 };
        proof {
            assert(r@.tasks =~= Seq::<(usize, TodoView)>::empty());
        }
        r
    }

    /// Mint a fresh identifier, file `todo` under it at the end of the
    /// order, and return it. The counter strictly increases, so no
    /// identifier is ever handed out twice.
    pub fn add(&mut self, todo: Todo) -> (r: usize)
        requires
            old(self)@.wf(),
            old(self)@.next_id < usize::MAX,
        ensures
            r == old(self)@.next_id,
            final(self)@.next_id == old(self)@.next_id + 1,
            final(self)@.tasks == old(self)@.tasks.push((r, todo@)),
            final(self)@.wf(),
            spec_find(final(self)@.tasks, r) == Some(todo@),
            forall|j: usize| j != r ==> spec_find(final(self)@.tasks, j) == spec_find(
                old(self)@.tasks,
                j,
            ),
    {
        let ghost tv = todo@;
        let id = self.next_id;
        self.next_id = self.next_id + 1;
        self.todos.push((id, todo));
        proof {
            let oldt = old(self)@.tasks;
            let newt = self@.tasks;
            assert(newt =~= oldt.push((id, tv)));
            assert(newt.drop_last() =~= oldt);
            assert forall|j: usize| j != id implies spec_find(newt, j) == spec_find(oldt, j) by {
                assert(newt.last().0 == id);
            }
        }
        id
    }

    /// Spec-level `add`: create an incomplete task with the given
    /// description and some creation stamp, and return its identifier.
    pub fn add_todo(&mut self, text: String) -> (r: usize)
        requires
            old(self)@.wf(),
            old(self)@.next_id < usize::MAX,
        ensures
            r == old(self)@.next_id,
            final(self)@.next_id == old(self)@.next_id + 1,
            final(self)@.wf(),
            exists|stamp: Seq<char>|
                final(self)@.tasks == old(self)@.tasks.push(
                    (r, TodoView {
                        description: text@,
                        complete: false,
                        created_at: stamp,
                        completed_at: None,
                    }),
                ),
            forall|j: usize| j != r ==> spec_find(final(self)@.tasks, j) == spec_find(
                old(self)@.tasks,
                j,
            ),
    {
        let todo = Todo::new(text, None);
        let ghost stamp = todo@.created_at;
        let r = self.add(todo);
        proof {
            assert(final(self)@.tasks == old(self)@.tasks.push(
                (r, TodoView {
                    description: todo@.description,
                    complete: false,
                    created_at: stamp,
                    completed_at: None,
                }),
            ));
        }
        r
    }

    /// The task under `id`, if any.
    pub fn get_todo(&self, id: &usize) -> (r: Option<&Todo>)
        requires
            self@.wf(),
        ensures
            (match r {
                Some(t) => spec_find(self@.tasks, *id) == Some(t@),
                None => spec_find(self@.tasks, *id) is None,
            }),
    {
        proof {
            lemma_find_characterization(self@.tasks, *id);
        }
        let n = self.todos.len();
        let mut i: usize = 0;
        while i < n
            invariant
                self@.wf(),
                n == self.todos.len(),
                i <= n,
                forall|k: int| 0 <= k < i ==> (#[trigger] self@.tasks[k]).0 != *id,
                spec_find(self@.tasks, *id) is Some ==> contains_id(self@.tasks, *id),
                forall|k: int|
                    0 <= k < self@.tasks.len() && (#[trigger] self@.tasks[k]).0 == *id
                        ==> spec_find(self@.tasks, *id) == Some(self@.tasks[k].1),
            decreases n - i,
        {
            if self.todos[i].0 == *id {
                proof {
                    assert(self@.tasks[i as int].0 == *id);
                    assert(self@.tasks[i as int].1 == self.todos@[i as int].1@);
                }
                return Some(&self.todos[i].1);
            }
            i = i + 1;
        }
        proof {
            if contains_id(self@.tasks, *id) {
                let k = choose|k: int| 0 <= k < self@.tasks.len() && self@.tasks[k].0 == *id;
                assert(self@.tasks[k].0 != *id);
            }
        }
        None
    }

    /// The tasks, as identifier-ascending pairs; a pure read.
    pub fn list(&self) -> (r: &Vec<(usize, Todo)>)
        ensures
            r@.map_values(|p: (usize, Todo)| (p.0, p.1@)) == self@.tasks,
    {
        &self.todos
    }

    /// Drop the task under `id`; the identifier is never minted again.
    /// Fails with `NotFound`, the store untouched, when no task has it.
    pub fn remove_todo(&mut self, id: &usize) -> (r: Result<(), TodoError>)
        requires
            old(self)@.wf(),
        ensures
            final(self)@.wf(),
            final(self)@.next_id == old(self)@.next_id,
            (match r {
                Ok(()) => {
                    &&& spec_find(old(self)@.tasks, *id) is Some
                    &&& exists|i: int|
                        0 <= i < old(self)@.tasks.len() && (#[trigger] old(
                            self,
                        )@.tasks[i]).0 == *id && final(self)@.tasks == old(self)@.tasks.remove(i)
                    &&& spec_find(final(self)@.tasks, *id) is None
                    &&& forall|j: usize| j != *id ==> spec_find(final(self)@.tasks, j)
                        == spec_find(old(self)@.tasks, j)
                },
                Err(e) => {
                    &&& e == TodoError::NotFound
                    &&& *final(self) == *old(self)
                    &&& spec_find(old(self)@.tasks, *id) is None
                },
            }),
    {
        proof {
            lemma_find_characterization(old(self)@.tasks, *id);
        }
        let n = self.todos.len();
        let mut i: usize = 0;
        while i < n
            invariant
                self == old(self),
                old(self)@.wf(),
                n == self.todos.len(),
                i <= n,
                forall|k: int| 0 <= k < i ==> (#[trigger] self@.tasks[k]).0 != *id,
            decreases n - i,
        {
            if self.todos[i].0 == *id {
                let ghost oldt = old(self)@.tasks;
                proof {
                    lemma_find_characterization(oldt, *id);
                    assert(oldt[i as int].0 == *id);
                    assert(spec_find(oldt, *id) == Some(oldt[i as int].1));
                }
                self.todos.remove(i);
                proof {
                    assert(self@.tasks =~= oldt.remove(i as int));
                    lemma_remove_keeps_wf(old(self)@, i as int);
                    lemma_find_after_remove(oldt, i as int, *id);
                    assert(oldt[i as int].0 == *id && self@.tasks == oldt.remove(i as int));
                }
                return Ok(());
            }
            i = i + 1;
        }
        proof {
            if contains_id(self@.tasks, *id) {
                let k = choose|k: int| 0 <= k < self@.tasks.len() && self@.tasks[k].0 == *id;
                assert(self@.tasks[k].0 != *id);
            }
        }
        Err(TodoError::NotFound)
    }

    /// Set the completion flag of the task under `id` to `value`,
    /// stamping the completion time with `stamp` when completing and
    /// clearing it when uncompleting. Fails with `NotFound`, the store
    /// untouched, when no task has the identifier.
    pub fn set_complete(&mut self, id: usize, value: bool, stamp: String) -> (r: Result<
        (),
        TodoError,
    >)
        requires
            old(self)@.wf(),
        ensures
            final(self)@.wf(),
            final(self)@.next_id == old(self)@.next_id,
            (match r {
                Ok(()) => {
                    &&& spec_find(old(self)@.tasks, id) is Some
                    &&& exists|i: int|
                        0 <= i < old(self)@.tasks.len() && (#[trigger] old(self)@.tasks[i]).0
                            == id && final(self)@.tasks == old(self)@.tasks.update(
                            i,
                            (id, with_status(old(self)@.tasks[i].1, value, stamp@)),
                        )
                    &&& spec_find(final(self)@.tasks, id) == Some(
                        with_status(spec_find(old(self)@.tasks, id)->0, value, stamp@),
                    )
                    &&& forall|j: usize| j != id ==> spec_find(final(self)@.tasks, j)
                        == spec_find(old(self)@.tasks, j)
                },
                Err(e) => {
                    &&& e == TodoError::NotFound
                    &&& *final(self) == *old(self)
                    &&& spec_find(old(self)@.tasks, id) is None
                },
            }),
    {
        proof {
            lemma_find_characterization(old(self)@.tasks, id);
        }
        let n = self.todos.len();
        let mut i: usize = 0;
        while i < n
            invariant
                self == old(self),
                old(self)@.wf(),
                n == self.todos.len(),
                i <= n,
                forall|k: int| 0 <= k < i ==> (#[trigger] self@.tasks[k]).0 != id,
            decreases n - i,
        {
            if self.todos[i].0 == id {
                let ghost oldt = old(self)@.tasks;
                proof {
                    lemma_find_characterization(oldt, id);
                    assert(oldt[i as int].0 == id);
                    assert(spec_find(oldt, id) == Some(oldt[i as int].1));
                }
                let entry = self.todos.remove(i);
                let new_todo = Todo {
                    description: entry.1.description,
                    complete: value,
                    created_at: entry.1.created_at,
                    completed_at: if value {
                        Some(stamp)
                    } else {
                        None
                    },
                };
                proof {
                    assert(new_todo@ == with_status(oldt[i as int].1, value, stamp@));
                }
                self.todos.insert(i, (entry.0, new_todo));
                proof {
                    assert(self@.tasks =~= oldt.update(
                        i as int,
                        (id, with_status(oldt[i as int].1, value, stamp@)),
                    ));
                    lemma_update_keeps_wf(old(self)@, i as int, value, stamp@);
                    lemma_find_after_update(oldt, i as int, value, stamp@);
                    lemma_find_characterization(self@.tasks, id);
                    assert(self@.tasks[i as int].0 == id);
                    assert(spec_find(self@.tasks, id) == Some(self@.tasks[i as int].1));
                    assert(self@.tasks[i as int].1 == with_status(oldt[i as int].1, value, stamp@));
                }
                return Ok(());
            }
            i = i + 1;
        }
        proof {
            if contains_id(self@.tasks, id) {
                let k = choose|k: int| 0 <= k < self@.tasks.len() && self@.tasks[k].0 == id;
                assert(self@.tasks[k].0 != id);
            }
        }
        Err(TodoError::NotFound)
    }

    /// `set_complete` with the completion time stamped from the clock.
    pub fn change_todo_status(&mut self, id: &usize, status: bool) -> (r: Result<(), TodoError>)
        requires
            old(self)@.wf(),
        ensures
            final(self)@.wf(),
            final(self)@.next_id == old(self)@.next_id,
            (match r {
                Ok(()) => {
                    &&& spec_find(old(self)@.tasks, *id) is Some
                    &&& final(self)@.tasks.len() == old(self)@.tasks.len()
                    &&& forall|k: int|
                        0 <= k < old(self)@.tasks.len() ==> (#[trigger] final(self)@.tasks[k]).0
                            == old(self)@.tasks[k].0
                    &&& forall|k: int|
                        0 <= k < old(self)@.tasks.len() && old(self)@.tasks[k].0 != *id
                            ==> (#[trigger] final(self)@.tasks[k]).1 == old(self)@.tasks[k].1
                    &&& (match spec_find(final(self)@.tasks, *id) {
                        Some(t) => t.complete == status && (status ==> t.completed_at is Some)
                            && (!status ==> t.completed_at is None) && t.description == spec_find(
                            old(self)@.tasks,
                            *id,
                        )->0.description && t.created_at == spec_find(
                            old(self)@.tasks,
                            *id,
                        )->0.created_at,
                        None => false,
                    })
                    &&& forall|j: usize| j != *id ==> spec_find(final(self)@.tasks, j)
                        == spec_find(old(self)@.tasks, j)
                },
                Err(e) => {
                    &&& e == TodoError::NotFound
                    &&& *final(self) == *old(self)
                    &&& spec_find(old(self)@.tasks, *id) is None
                },
            }),
    {
        let stamp = now_timestamp();
        self.set_complete(*id, status, stamp)
    }

    /// Remove every task; the counter is preserved, so identifiers of
    /// cleared tasks are never minted again.
    pub fn clear(&mut self)
        requires
            old(self)@.wf(),
        ensures
            final(self)@.tasks == Seq::<(usize, TodoView)>::empty(),
            final(self)@.next_id == old(self)@.next_id,
            final(self)@.wf(),
    {
        self.todos.clear();
        proof {
            assert(self@.tasks =~= Seq::<(usize, TodoView)>::empty());
        }
    }

    /// Remove exactly the completed tasks, keeping the rest in order; the
    /// counter is preserved.
    pub fn clean(&mut self)
        requires
            old(self)@.wf(),
        ensures
            final(self)@.tasks == keep_incomplete(old(self)@.tasks),
            final(self)@.next_id == old(self)@.next_id,
            final(self)@.wf(),
    {
        let ghost orig = old(self)@.tasks;
        let ghost mut j: int = 0;
        let mut i: usize = 0;
        proof {
            assert(self@.tasks =~= keep_incomplete(orig.take(0)) + orig.skip(0));
        }
        while i < self.todos.len()
            invariant
                self@.next_id == old(self)@.next_id,
                orig == old(self)@.tasks,
                0 <= j <= orig.len(),
                i as int == keep_incomplete(orig.take(j)).len(),
                self@.tasks == keep_incomplete(orig.take(j)) + orig.skip(j),
            decreases self.todos.len() - i,
        {
            proof {
                assert(j < orig.len());
                assert(self@.tasks[i as int] == orig[j]);
                let next = orig.take(j + 1);
                assert(next.drop_last() =~= orig.take(j));
                assert(next.last() == orig[j]);
            }
            if self.todos[i].1.complete {
                let ghost before = self@.tasks;
                self.todos.remove(i);
                proof {
                    assert(self@.tasks =~= before.remove(i as int));
                    assert(self@.tasks =~= keep_incomplete(orig.take(j + 1)) + orig.skip(j + 1));
                }
            } else {
                proof {
                    assert(keep_incomplete(orig.take(j + 1)) == keep_incomplete(
                        orig.take(j),
                    ).push(orig[j]));
                    assert(self@.tasks =~= keep_incomplete(orig.take(j + 1)) + orig.skip(j + 1));
                }
                i = i + 1;
            }
            proof {
                j = j + 1;
            }
        }
        proof {
            assert(j == orig.len());
            assert(orig.take(j) =~= orig);
            assert(self@.tasks =~= keep_incomplete(orig));
            lemma_keep_incomplete_wf(old(self)@);
        }
    }
}

/// Law: identifiers strictly increase and are never reused. `add`
/// returns the store's counter and advances it by one, and no other
/// operation decreases the counter; so of two `add` calls, however many
/// removals or other operations run in between, the later call returns a
/// strictly larger identifier than the earlier one.
pub proof fn lemma_identifiers_strictly_increase(
    s0: StoreView,
    id1: usize,
    s1: StoreView,
    s2: StoreView,
    id2: usize,
)
    requires
        id1 == s0.next_id,
        s1.next_id == s0.next_id + 1,
        s2.next_id >= s1.next_id,
        id2 == s2.next_id,
    ensures
        id2 > id1,
{
}

/// Law: a freshly minted identifier collides with nothing the store
/// holds. In a well-formed store every held identifier sits strictly
/// below the counter, so the identifier the next `add` returns differs
/// from every identifier in the store -- including ones whose tasks were
/// removed, which sit below the counter forever.
pub proof fn lemma_minted_identifier_is_fresh(s: StoreView)
    requires
        s.wf(),
    ensures
        forall|i: int| 0 <= i < s.tasks.len() ==> (#[trigger] s.tasks[i]).0 != s.next_id,
{
}

/// Law: completing a task and then uncompleting it leaves the task
/// incomplete with no completion timestamp (uncompleting clears the
/// stamp rather than preserving it), and leaves its description and
/// creation time untouched. `set_complete` describes each step by
/// `with_status`, so two calls compose to this.
pub proof fn lemma_complete_then_uncomplete(t0: TodoView, stamp1: Seq<char>, stamp2: Seq<char>)
    ensures
        ({
            let t2 = with_status(with_status(t0, true, stamp1), false, stamp2);
            &&& t2.complete == false
            &&& t2.completed_at is None
            &&& t2.description == t0.description
            &&& t2.created_at == t0.created_at
        }),
{
}

/// Removing an entry keeps the store invariant.
proof fn lemma_remove_keeps_wf(v: StoreView, i: int)
    requires
        v.wf(),
        0 <= i < v.tasks.len(),
    ensures
        (StoreView { tasks: v.tasks.remove(i), next_id: v.next_id }).wf(),
{
    let t = v.tasks.remove(i);
    assert forall|a: int, b: int| 0 <= a < b < t.len() implies t[a].0 < t[b].0 by {
        let a0 = if a < i { a } else { a + 1 };
        let b0 = if b < i { b } else { b + 1 };
        assert(t[a] == v.tasks[a0]);
        assert(t[b] == v.tasks[b0]);
    }
    assert forall|a: int| 0 <= a < t.len() implies 1 <= (#[trigger] t[a]).0 < v.next_id by {
        let a0 = if a < i { a } else { a + 1 };
        assert(t[a] == v.tasks[a0]);
    }
}

/// After removing the entry that carries `id` from a uniquely keyed
/// sequence, `id` is absent and every other lookup is unchanged.
proof fn lemma_find_after_remove(tasks: Seq<(usize, TodoView)>, i: int, id: usize)
    requires
        unique_ids(tasks),
        0 <= i < tasks.len(),
        tasks[i].0 == id,
    ensures
        spec_find(tasks.remove(i), id) is None,
        forall|j: usize| j != id ==> spec_find(tasks.remove(i), j) == spec_find(tasks, j),
{
    let t = tasks.remove(i);
    assert(unique_ids(t)) by {
        assert forall|a: int, b: int| 0 <= a < b < t.len() implies t[a].0 != t[b].0 by {
            let a0 = if a < i { a } else { a + 1 };
            let b0 = if b < i { b } else { b + 1 };
            assert(t[a] == tasks[a0]);
            assert(t[b] == tasks[b0]);
        }
    }
    lemma_find_characterization(tasks, id);
    lemma_find_characterization(t, id);
    if contains_id(t, id) {
        let k = choose|k: int| 0 <= k < t.len() && t[k].0 == id;
        let k0 = if k < i { k } else { k + 1 };
        assert(t[k] == tasks[k0]);
        assert(tasks[k0].0 == tasks[i].0);
        assert(k0 != i);
        if k0 < i {
            assert(tasks[k0].0 != tasks[i].0);
        } else {
            assert(tasks[i].0 != tasks[k0].0);
        }
    }
    assert forall|j: usize| j != id implies spec_find(t, j) == spec_find(tasks, j) by {
        lemma_find_characterization(tasks, j);
        lemma_find_characterization(t, j);
        if contains_id(tasks, j) {
            let k = choose|k: int| 0 <= k < tasks.len() && tasks[k].0 == j;
            assert(k != i);
            let k1 = if k < i { k } else { k - 1 };
            assert(t[k1] == tasks[k]);
            assert(contains_id(t, j));
            assert(spec_find(t, j) == Some(t[k1].1));
        } else {
            if contains_id(t, j) {
                let k = choose|k: int| 0 <= k < t.len() && t[k].0 == j;
                let k0 = if k < i { k } else { k + 1 };
                assert(t[k] == tasks[k0]);
                assert(contains_id(tasks, j));
            }
        }
    }
}

/// Updating one entry in place keeps the store invariant.
proof fn lemma_update_keeps_wf(v: StoreView, i: int, value: bool, stamp: Seq<char>)
    requires
        v.wf(),
        0 <= i < v.tasks.len(),
    ensures
        (StoreView {
            tasks: v.tasks.update(i, (v.tasks[i].0, with_status(v.tasks[i].1, value, stamp))),
            next_id: v.next_id,
        }).wf(),
{
    let t = v.tasks.update(i, (v.tasks[i].0, with_status(v.tasks[i].1, value, stamp)));
    assert forall|a: int, b: int| 0 <= a < b < t.len() implies t[a].0 < t[b].0 by {
        assert(t[a].0 == v.tasks[a].0);
        assert(t[b].0 == v.tasks[b].0);
    }
    assert forall|a: int| 0 <= a < t.len() implies 1 <= (#[trigger] t[a]).0 < v.next_id by {
        assert(t[a].0 == v.tasks[a].0);
    }
}

/// After updating the entry that carries `id`, looking `id` up returns
/// the updated task and every other lookup is unchanged.
proof fn lemma_find_after_update(tasks: Seq<(usize, TodoView)>, i: int, value: bool, stamp: Seq<
    char,
>)
    requires
        unique_ids(tasks),
        0 <= i < tasks.len(),
    ensures
        unique_ids(tasks.update(i, (tasks[i].0, with_status(tasks[i].1, value, stamp)))),
        forall|j: usize| j != tasks[i].0 ==> spec_find(
            tasks.update(i, (tasks[i].0, with_status(tasks[i].1, value, stamp))),
            j,
        ) == spec_find(tasks, j),
{
    let t = tasks.update(i, (tasks[i].0, with_status(tasks[i].1, value, stamp)));
    assert(unique_ids(t)) by {
        assert forall|a: int, b: int| 0 <= a < b < t.len() implies t[a].0 != t[b].0 by {
            assert(t[a].0 == tasks[a].0);
            assert(t[b].0 == tasks[b].0);
        }
    }
    assert forall|j: usize| j != tasks[i].0 implies spec_find(t, j) == spec_find(tasks, j) by {
        lemma_find_characterization(tasks, j);
        lemma_find_characterization(t, j);
        if contains_id(tasks, j) {
            let k = choose|k: int| 0 <= k < tasks.len() && tasks[k].0 == j;
            assert(k != i);
            assert(t[k] == tasks[k]);
            assert(contains_id(t, j));
        }
        if contains_id(t, j) {
            let k = choose|k: int| 0 <= k < t.len() && t[k].0 == j;
            assert(k != i);
            assert(t[k] == tasks[k]);
            assert(contains_id(tasks, j));
        }
    }
}

/// Keeping only the incomplete entries keeps the store invariant: the
/// kept entries are a subsequence, so order and bounds carry over.
proof fn lemma_keep_incomplete_wf(v: StoreView)
    requires
        v.wf(),
    ensures
        (StoreView { tasks: keep_incomplete(v.tasks), next_id: v.next_id }).wf(),
{
    lemma_keep_incomplete_props(v.tasks, v.next_id);
}

/// `keep_incomplete` preserves sortedness and identifier bounds.
proof fn lemma_keep_incomplete_props(tasks: Seq<(usize, TodoView)>, bound: usize)
    requires
        sorted_by_id(tasks),
        forall|i: int| 0 <= i < tasks.len() ==> 1 <= (#[trigger] tasks[i]).0 < bound,
    ensures
        sorted_by_id(keep_incomplete(tasks)),
        forall|i: int|
            0 <= i < keep_incomplete(tasks).len() ==> 1 <= (#[trigger] keep_incomplete(
                tasks,
            )[i]).0 < bound,
        forall|i: int|
            0 <= i < keep_incomplete(tasks).len() ==> tasks.contains(
                #[trigger] keep_incomplete(tasks)[i],
            ),
    decreases tasks.len(),
{
    if tasks.len() == 0 {
    } else {
        let front = tasks.drop_last();
        assert(sorted_by_id(front)) by {
            assert forall|a: int, b: int| 0 <= a < b < front.len() implies front[a].0
                < front[b].0 by {
                assert(tasks[a].0 < tasks[b].0);
            }
        }
        assert forall|i: int| 0 <= i < front.len() implies 1 <= (#[trigger] front[i]).0
            < bound by {
            assert(front[i] == tasks[i]);
        }
        lemma_keep_incomplete_props(front, bound);
        let kf = keep_incomplete(front);
        assert forall|i: int| 0 <= i < kf.len() implies tasks.contains(#[trigger] kf[i]) by {
            assert(front.contains(kf[i]));
            let w = choose|w: int| 0 <= w < front.len() && front[w] == kf[i];
            assert(tasks[w] == kf[i]);
        }
        if !tasks.last().1.complete {
            let kt = keep_incomplete(tasks);
            assert(kt == kf.push(tasks.last()));
            assert forall|a: int, b: int| 0 <= a < b < kt.len() implies kt[a].0 < kt[b].0 by {
                if b < kt.len() - 1 {
                    assert(kf[a].0 < kf[b].0);
                } else {
                    assert(front.contains(kf[a]));
                    let w = choose|w: int| 0 <= w < front.len() && front[w] == kf[a];
                    assert(tasks[w].0 < tasks[tasks.len() - 1].0);
                }
            }
            assert forall|i: int| 0 <= i < kt.len() implies tasks.contains(#[trigger] kt[i]) by {
                if i < kt.len() - 1 {
                    assert(tasks.contains(kf[i]));
                } else {
                    assert(kt[i] == tasks[tasks.len() - 1]);
                }
            }
        }
    }
}

} // verus!
