use todo_cli::{Commands, Todo, TodoError, TodoList};

#[test]
fn scenario_add_remove_add_never_reuses_ids() {
    let mut store = TodoList::new();
    assert_eq!(store.add_todo(String::from("buy milk")), 1);
    assert_eq!(store.add_todo(String::from("walk dog")), 2);
    assert!(store.remove_todo(&1).is_ok());
    let listed = store.list();
    assert_eq!(listed.len(), 1);
    assert_eq!(listed[0].0, 2);
    assert_eq!(listed[0].1.description, "walk dog");
    assert!(!listed[0].1.complete);
    assert_eq!(store.add_todo(String::from("feed cat")), 3);
}

#[test]
fn ids_strictly_increase_even_after_removing_latest() {
    let mut store = TodoList::new();
    let a = store.add_todo(String::from("first"));
    let b = store.add_todo(String::from("second"));
    assert!(a < b);
    assert!(store.remove_todo(&b).is_ok());
    let c = store.add_todo(String::from("third"));
    assert!(b < c);
    assert_eq!(c, 3);
}

#[test]
fn remove_unknown_id_fails_and_leaves_store_unchanged() {
    let mut store = TodoList::new();
    store.add_todo(String::from("keep me"));
    let before = store.to_json();
    let r = store.remove_todo(&42);
    assert_eq!(r, Err(TodoError::NotFound));
    assert_eq!(store.to_json(), before);
}

#[test]
fn complete_then_uncomplete_clears_flag_and_stamp() {
    let mut store = TodoList::new();
    let id = store.add_todo(String::from("toggle me"));
    assert!(store.change_todo_status(&id, true).is_ok());
    {
        let t = store.get_todo(&id).unwrap();
        assert!(t.complete);
        assert!(t.completed_at.is_some());
    }
    assert!(store.change_todo_status(&id, false).is_ok());
    {
        let t = store.get_todo(&id).unwrap();
        assert!(!t.complete);
        assert!(t.completed_at.is_none());
        assert_eq!(t.description, "toggle me");
    }
}

#[test]
fn set_complete_unknown_id_fails() {
    let mut store = TodoList::new();
    let r = store.change_todo_status(&7, true);
    assert_eq!(r, Err(TodoError::NotFound));
    let r2 = store.set_complete(7, true, String::from("2024-01-01T00:00:00+00:00"));
    assert_eq!(r2, Err(TodoError::NotFound));
}

#[test]
fn clear_removes_all_tasks_but_keeps_counter() {
    let mut store = TodoList::new();
    store.add_todo(String::from("a"));
    store.add_todo(String::from("b"));
    store.clear();
    assert_eq!(store.list().len(), 0);
    assert_eq!(store.add_todo(String::from("c")), 3);
}

#[test]
fn clean_removes_only_completed_tasks_in_order() {
    let mut store = TodoList::new();
    let a = store.add_todo(String::from("a"));
    let b = store.add_todo(String::from("b"));
    let c = store.add_todo(String::from("c"));
    store.change_todo_status(&a, true).unwrap();
    store.change_todo_status(&c, true).unwrap();
    store.clean();
    let listed = store.list();
    assert_eq!(listed.len(), 1);
    assert_eq!(listed[0].0, b);
    assert_eq!(listed[0].1.description, "b");
    assert_eq!(store.add_todo(String::from("d")), 4);
}

#[test]
fn get_todo_finds_by_id() {
    let mut store = TodoList::new();
    let a = store.add_todo(String::from("one"));
    let b = store.add_todo(String::from("two"));
    assert_eq!(store.get_todo(&a).unwrap().description, "one");
    assert_eq!(store.get_todo(&b).unwrap().description, "two");
    assert!(store.get_todo(&99).is_none());
}

#[test]
fn todo_new_defaults_to_incomplete() {
    let t = Todo::new(String::from("x"), None);
    assert!(!t.complete);
    assert!(t.completed_at.is_none());
    let t2 = Todo::new(String::from("y"), Some(true));
    assert!(t2.complete);
}

#[test]
fn apply_dispatches_each_command() {
    let mut store = TodoList::new();
    assert_eq!(store.apply(Commands::Init), Ok(false));
    assert_eq!(store.apply(Commands::List), Ok(false));
    assert_eq!(store.apply(Commands::Add { text: String::from("milk") }), Ok(true));
    assert_eq!(store.apply(Commands::Complete { todo_id: 1 }), Ok(true));
    assert!(store.get_todo(&1).unwrap().complete);
    assert_eq!(store.apply(Commands::Uncomplete { todo_id: 1 }), Ok(true));
    assert!(!store.get_todo(&1).unwrap().complete);
    assert_eq!(store.apply(Commands::Delete { todo_id: 1 }), Ok(true));
    assert_eq!(store.apply(Commands::Delete { todo_id: 1 }), Err(TodoError::NotFound));
    store.apply(Commands::Add { text: String::from("done") }).unwrap();
    store.apply(Commands::Complete { todo_id: 2 }).unwrap();
    store.apply(Commands::Add { text: String::from("open") }).unwrap();
    assert_eq!(store.apply(Commands::Clean), Ok(true));
    assert_eq!(store.list().len(), 1);
    assert_eq!(store.list()[0].1.description, "open");
    assert_eq!(store.apply(Commands::Clear), Ok(true));
    assert_eq!(store.list().len(), 0);
}

#[test]
fn error_variants_are_distinct() {
    let all = [
        TodoError::AlreadyExists,
        TodoError::NotFound,
        TodoError::ReadFailure,
        TodoError::WriteFailure,
        TodoError::MalformedData,
    ];
    for (i, a) in all.iter().enumerate() {
        for (j, b) in all.iter().enumerate() {
            assert_eq!(i == j, a == b);
        }
    }
}
