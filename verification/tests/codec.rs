use todo_cli::codec::initialize_plan;
use todo_cli::{Todo, TodoError, TodoList};

fn store_with(tasks: Vec<(&str, bool, &str)>) -> TodoList {
    let mut store = TodoList::new();
    for (desc, complete, stamp) in tasks {
        let id = store.add(Todo::new_at(String::from(desc), false, String::from(stamp)));
        if complete {
            store
                .set_complete(id, true, format!("{stamp}+done"))
                .unwrap();
        }
    }
    store
}

#[test]
fn empty_store_serializes_to_expected_document() {
    let store = TodoList::new();
    assert_eq!(store.to_json(), "{\"tasks\":{},\"next_id\":1}");
}

#[test]
fn one_task_serializes_to_expected_document() {
    let store = store_with(vec![("buy milk", false, "2024-01-02T03:04:05+00:00")]);
    assert_eq!(
        store.to_json(),
        "{\"tasks\":{\"1\":{\"description\":\"buy milk\",\"complete\":false,\
         \"created_at\":\"2024-01-02T03:04:05+00:00\",\"completed_at\":null}},\"next_id\":2}"
    );
}

#[test]
fn completed_task_serializes_with_stamp() {
    let store = store_with(vec![("ship it", true, "t1")]);
    assert_eq!(
        store.to_json(),
        "{\"tasks\":{\"1\":{\"description\":\"ship it\",\"complete\":true,\
         \"created_at\":\"t1\",\"completed_at\":\"t1+done\"}},\"next_id\":2}"
    );
}

#[test]
fn descriptions_are_escaped() {
    let store = store_with(vec![("say \"hi\"\\\n\tdone\r", false, "t")]);
    assert_eq!(
        store.to_json(),
        "{\"tasks\":{\"1\":{\"description\":\"say \\\"hi\\\"\\\\\\n\\tdone\\r\",\
         \"complete\":false,\"created_at\":\"t\",\"completed_at\":null}},\"next_id\":2}"
    );
}

#[test]
fn save_then_load_round_trips() {
    let mut store = store_with(vec![
        ("plain", false, "2024-05-06T07:08:09+00:00"),
        ("quoted \"text\" with \\ and \n tab \t cr \r", true, "t2"),
        ("third", false, "t3"),
    ]);
    store.remove_todo(&1).unwrap();
    let saved = store.to_json();
    let loaded = TodoList::from_json(&saved).unwrap();
    assert_eq!(loaded.to_json(), saved);
    let a = store.list();
    let b = loaded.list();
    assert_eq!(a.len(), b.len());
    for (x, y) in a.iter().zip(b.iter()) {
        assert_eq!(x.0, y.0);
        assert_eq!(x.1.description, y.1.description);
        assert_eq!(x.1.complete, y.1.complete);
        assert_eq!(x.1.created_at, y.1.created_at);
        assert_eq!(x.1.completed_at, y.1.completed_at);
    }
    let mut reloaded = loaded;
    assert_eq!(reloaded.add_todo(String::from("counter survived")), 4);
}

#[test]
fn from_json_reads_a_handwritten_document() {
    let text = "{\"tasks\":{\"2\":{\"description\":\"walk dog\",\"complete\":true,\
                \"created_at\":\"c\",\"completed_at\":\"d\"}},\"next_id\":9}";
    let store = TodoList::from_json(text).unwrap();
    let listed = store.list();
    assert_eq!(listed.len(), 1);
    assert_eq!(listed[0].0, 2);
    assert_eq!(listed[0].1.description, "walk dog");
    assert!(listed[0].1.complete);
    assert_eq!(listed[0].1.created_at, "c");
    assert_eq!(listed[0].1.completed_at, Some(String::from("d")));
    let mut store = store;
    assert_eq!(store.add_todo(String::from("next")), 9);
}

#[test]
fn from_json_rejects_malformed_documents() {
    let bad = [
        "",
        "{}",
        "not json at all",
        "{\"tasks\":{}}",
        "{\"tasks\":{},\"next_id\":0}",
        "{\"tasks\":{},\"next_id\":1} ",
        "{\"tasks\":{},\"next_id\":01}",
        "{\"tasks\":{\"1\":{\"description\":\"a\",\"complete\":false,\
         \"created_at\":\"t\",\"completed_at\":null}},\"next_id\":1}",
        "{\"tasks\":{\"0\":{\"description\":\"a\",\"complete\":false,\
         \"created_at\":\"t\",\"completed_at\":null}},\"next_id\":5}",
        "{\"tasks\":{\"2\":{\"description\":\"a\",\"complete\":false,\
         \"created_at\":\"t\",\"completed_at\":null},\
         \"1\":{\"description\":\"b\",\"complete\":false,\
         \"created_at\":\"t\",\"completed_at\":null}},\"next_id\":5}",
        "{\"tasks\":{\"1\":{\"description\":\"a\",\"complete\":maybe,\
         \"created_at\":\"t\",\"completed_at\":null}},\"next_id\":5}",
        "{\"tasks\":{\"1\":{\"description\":\"a\",\"complete\":false,\
         \"created_at\":\"t\",\"completed_at\":null}},\"next_id\":5",
    ];
    for text in bad {
        assert_eq!(
            TodoList::from_json(text).unwrap_err(),
            TodoError::MalformedData,
            "accepted: {text}"
        );
    }
}

#[test]
fn initialize_plan_writes_fresh_store_only_once() {
    let first = initialize_plan(false);
    assert_eq!(first, Ok(String::from("{\"tasks\":{},\"next_id\":1}")));
    let second = initialize_plan(true);
    assert_eq!(second, Err(TodoError::AlreadyExists));
}

#[test]
fn loading_what_initialize_wrote_gives_an_empty_store() {
    let contents = initialize_plan(false).unwrap();
    let mut store = TodoList::from_json(&contents).unwrap();
    assert_eq!(store.list().len(), 0);
    assert_eq!(store.add_todo(String::from("first")), 1);
}
