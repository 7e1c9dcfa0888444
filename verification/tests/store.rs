use todolist::script::ScriptRun;
use todolist::{Assignment, Decoded, NameMap, StoreError, Timestamp, TodoList, TodoListV2};

fn at(seconds: i64) -> Timestamp {
    Timestamp { seconds, nanos: 0, offset: 0 }
}

fn task(seconds: i64, name: &str) -> Assignment {
    Assignment { due_date: at(seconds), name: name.to_string() }
}

fn empty() -> TodoList {
    TodoList::new("/tmp/list".to_string(), None, &vec![]).unwrap()
}

fn reload(list: &TodoList) -> TodoList {
    let doc = list.save_to_file();
    let file = Decoded { v1: None, v2: Some(doc) };
    TodoList::new(list.path().clone(), Some(file), &vec![]).unwrap()
}

#[test]
fn new_without_file_is_empty() {
    let list = empty();
    assert!(list.get_classes().is_empty());
    assert_eq!(list.path(), "/tmp/list");
    assert_eq!(list.save_to_file().version, 2);
    assert_eq!(list.save_to_file().assignments.len(), 0);
}

#[test]
fn new_without_file_hears_no_script() {
    let scripts = vec![ScriptRun {
        succeeded: true,
        stdout: "CS101,Quiz,2025-04-01,09:00\n".as_bytes().to_vec(),
    }];
    let list = TodoList::new("/tmp/list".to_string(), None, &scripts).unwrap();
    assert!(list.get_classes().is_empty());
    let quiz = Assignment {
        due_date: Timestamp { seconds: 1743494400 + 9 * 3600, nanos: 0, offset: 0 },
        name: "Quiz".to_string(),
    };
    assert_eq!(
        list.get_assignment_completion(todolist::derive_uid(&quiz)),
        Err(StoreError::UnknownUid)
    );
}

#[test]
fn new_refuses_unrecognized_file() {
    let file = Decoded { v1: None, v2: None };
    let r = TodoList::new("/tmp/list".to_string(), Some(file), &vec![]);
    assert!(matches!(r, Err(StoreError::UnrecognizedFormat)));
}

#[test]
fn create_class_then_duplicate() {
    let mut list = empty();
    assert_eq!(list.create_class("CS101".to_string()), Ok(()));
    assert_eq!(list.create_class("CS101".to_string()), Err(StoreError::ClassExists));
    assert_eq!(list.get_classes(), vec!["CS101".to_string()]);
    assert_eq!(list.get_class_assignments(&"CS101".to_string()), Ok(vec![]));
}

#[test]
fn get_classes_is_sorted() {
    let mut list = empty();
    for name in ["math", "Zoology", "art", "", "artist", "\u{e9}tude"] {
        assert_eq!(list.create_class(name.to_string()), Ok(()));
    }
    let mut expected: Vec<String> =
        ["math", "Zoology", "art", "", "artist", "\u{e9}tude"].iter().map(|s| s.to_string()).collect();
    expected.sort();
    assert_eq!(list.get_classes(), expected);
    assert_eq!(
        list.get_classes(),
        vec!["", "Zoology", "art", "artist", "math", "\u{e9}tude"]
    );
}

#[test]
fn delete_class_missing() {
    let mut list = empty();
    assert_eq!(list.delete_class("CS101".to_string()), Err(StoreError::ClassNotFound));
}

#[test]
fn delete_class_keeps_the_tasks_in_the_table() {
    let mut list = empty();
    list.create_class("CS101".to_string()).unwrap();
    list.create_class("CS102".to_string()).unwrap();
    let uid = list.create_assignment("CS101".to_string(), task(1740816000, "HW1")).unwrap();
    list.set_assignment_completion(uid, true).unwrap();
    assert_eq!(list.delete_class("CS101".to_string()), Ok(()));
    assert_eq!(list.get_classes(), vec!["CS102".to_string()]);
    assert_eq!(
        list.get_class_assignments(&"CS101".to_string()),
        Err(StoreError::ClassNotFound)
    );
    // The task is still held: its flag can be read, and its identifier is taken.
    assert_eq!(list.get_assignment_completion(uid), Ok(true));
    assert_eq!(
        list.create_assignment("CS102".to_string(), task(1740816000, "HW1")),
        Err(StoreError::DuplicateAssignment)
    );
    // It is not written, since no class lists it.
    let after = reload(&list);
    assert_eq!(after.get_assignment_completion(uid), Err(StoreError::UnknownUid));
}

#[test]
fn create_assignment_in_missing_class_changes_nothing() {
    let mut list = empty();
    list.create_class("CS101".to_string()).unwrap();
    let held = list.create_assignment("CS101".to_string(), task(10, "HW1")).unwrap();
    let r = list.create_assignment("CS999".to_string(), task(20, "HW2"));
    assert_eq!(r, Err(StoreError::ClassNotFound));
    assert_eq!(list.get_classes(), vec!["CS101".to_string()]);
    assert_eq!(list.get_class_assignments(&"CS101".to_string()), Ok(vec![task(10, "HW1")]));
    assert_eq!(list.get_assignment_completion(held), Ok(false));
    assert_eq!(
        list.get_assignment_completion(todolist::derive_uid(&task(20, "HW2"))),
        Err(StoreError::UnknownUid)
    );
}

#[test]
fn create_assignment_missing_class_comes_before_duplicate() {
    let mut list = empty();
    list.create_class("CS101".to_string()).unwrap();
    list.create_assignment("CS101".to_string(), task(10, "HW1")).unwrap();
    assert_eq!(
        list.create_assignment("CS999".to_string(), task(10, "HW1")),
        Err(StoreError::ClassNotFound)
    );
}

#[test]
fn create_assignment_duplicate_in_any_class() {
    let mut list = empty();
    list.create_class("CS101".to_string()).unwrap();
    list.create_class("CS102".to_string()).unwrap();
    let uid = list.create_assignment("CS101".to_string(), task(10, "HW1")).unwrap();
    assert_eq!(uid, todolist::derive_uid(&task(10, "HW1")));
    assert_eq!(
        list.create_assignment("CS101".to_string(), task(10, "HW1")),
        Err(StoreError::DuplicateAssignment)
    );
    assert_eq!(
        list.create_assignment("CS102".to_string(), task(10, "HW1")),
        Err(StoreError::DuplicateAssignment)
    );
    assert_eq!(list.get_class_assignments(&"CS102".to_string()), Ok(vec![]));
    // The offset does not enter the identifier.
    let shifted = Assignment {
        due_date: Timestamp { seconds: 10, nanos: 0, offset: 3600 },
        name: "HW1".to_string(),
    };
    assert_eq!(
        list.create_assignment("CS102".to_string(), shifted),
        Err(StoreError::DuplicateAssignment)
    );
}

#[test]
fn class_assignments_keep_their_order() {
    let mut list = empty();
    list.create_class("CS101".to_string()).unwrap();
    list.create_assignment("CS101".to_string(), task(30, "c")).unwrap();
    list.create_assignment("CS101".to_string(), task(10, "a")).unwrap();
    list.create_assignment("CS101".to_string(), task(20, "b")).unwrap();
    assert_eq!(
        list.get_class_assignments(&"CS101".to_string()),
        Ok(vec![task(30, "c"), task(10, "a"), task(20, "b")])
    );
}

#[test]
fn completion_unknown_uid() {
    let mut list = empty();
    assert_eq!(list.get_assignment_completion(7), Err(StoreError::UnknownUid));
    assert_eq!(list.set_assignment_completion(7, true), Err(StoreError::UnknownUid));
    assert_eq!(list.get_assignment_completion(7), Err(StoreError::UnknownUid));
}

#[test]
fn completion_toggle_leaves_the_task_alone() {
    let mut list = empty();
    list.create_class("CS101".to_string()).unwrap();
    let uid = list.create_assignment("CS101".to_string(), task(10, "HW1")).unwrap();
    assert_eq!(list.set_assignment_completion(uid, true), Ok(()));
    assert_eq!(list.get_assignment_completion(uid), Ok(true));
    assert_eq!(list.set_assignment_completion(uid, false), Ok(()));
    assert_eq!(list.get_assignment_completion(uid), Ok(false));
    let tasks = list.get_class_assignments(&"CS101".to_string()).unwrap();
    assert_eq!(tasks.len(), 1);
    assert_eq!(tasks[0].name, "HW1");
    assert_eq!(tasks[0].due_date.seconds, 10);
    assert_eq!(tasks[0].due_date.nanos, 0);
    assert_eq!(tasks[0].due_date.offset, 0);
    assert_eq!(todolist::derive_uid(&tasks[0]), uid);
}

#[test]
fn scenario_create_complete_save_reload() {
    let mut list = empty();
    assert_eq!(list.create_class("CS101".to_string()), Ok(()));
    // 2025-03-01T08:00 UTC
    let uid = list.create_assignment("CS101".to_string(), task(1740816000, "HW1")).unwrap();
    assert_eq!(list.get_assignment_completion(uid), Ok(false));
    assert_eq!(list.set_assignment_completion(uid, true), Ok(()));
    let after = reload(&list);
    assert_eq!(after.get_assignment_completion(uid), Ok(true));
    assert_eq!(
        after.get_class_assignments(&"CS101".to_string()),
        Ok(vec![task(1740816000, "HW1")])
    );
    assert_eq!(after.get_classes(), vec!["CS101".to_string()]);
    assert_eq!(after.path(), "/tmp/list");
}

#[test]
fn save_lists_every_class_in_order() {
    let mut list = empty();
    list.create_class("b".to_string()).unwrap();
    list.create_class("a".to_string()).unwrap();
    list.create_assignment("b".to_string(), task(10, "x")).unwrap();
    let uid = list.create_assignment("b".to_string(), task(20, "y")).unwrap();
    list.set_assignment_completion(uid, true).unwrap();
    let doc = list.save_to_file();
    assert_eq!(doc.version, 2);
    assert_eq!(doc.assignments.len(), 2);
    assert_eq!(doc.assignments.name_at(0), "a");
    assert_eq!(doc.assignments.name_at(1), "b");
    assert!(doc.assignments.value_at(0).is_empty());
    assert_eq!(doc.assignments.value_at(1), &vec![(task(10, "x"), false), (task(20, "y"), true)]);
}

#[test]
fn round_trip_keeps_classes_tasks_and_flags() {
    let mut list = empty();
    for class in ["x", "y", "z"] {
        list.create_class(class.to_string()).unwrap();
    }
    let mut uids = vec![];
    for (i, class) in ["x", "y", "x", "z", "x"].iter().enumerate() {
        let uid = list
            .create_assignment(class.to_string(), task(100 * i as i64, &format!("t{}", i)))
            .unwrap();
        list.set_assignment_completion(uid, i % 2 == 0).unwrap();
        uids.push(uid);
    }
    let after = reload(&list);
    assert_eq!(after.get_classes(), list.get_classes());
    for class in list.get_classes() {
        assert_eq!(after.get_class_assignments(&class), list.get_class_assignments(&class));
    }
    for uid in uids {
        assert_eq!(after.get_assignment_completion(uid), list.get_assignment_completion(uid));
    }
}

#[test]
fn load_v2_with_repeated_record_keeps_the_later_flag() {
    let mut doc: NameMap<Vec<(Assignment, bool)>> = NameMap::new();
    doc.insert("a".to_string(), vec![(task(10, "x"), false)]);
    doc.insert("b".to_string(), vec![(task(10, "x"), true)]);
    let file = Decoded { v1: None, v2: Some(TodoListV2 { version: 2, assignments: doc }) };
    let list = TodoList::new("p".to_string(), Some(file), &vec![]).unwrap();
    let uid = todolist::derive_uid(&task(10, "x"));
    assert_eq!(list.get_assignment_completion(uid), Ok(true));
    assert_eq!(list.get_class_assignments(&"a".to_string()), Ok(vec![task(10, "x")]));
    assert_eq!(list.get_class_assignments(&"b".to_string()), Ok(vec![task(10, "x")]));
}

#[test]
fn load_v2_accepts_any_version_number() {
    let mut doc: NameMap<Vec<(Assignment, bool)>> = NameMap::new();
    doc.insert("a".to_string(), vec![(task(10, "x"), true)]);
    let file = Decoded { v1: None, v2: Some(TodoListV2 { version: 9, assignments: doc }) };
    let list = TodoList::new("p".to_string(), Some(file), &vec![]).unwrap();
    assert_eq!(list.get_classes(), vec!["a".to_string()]);
    assert_eq!(list.save_to_file().version, 2);
}
