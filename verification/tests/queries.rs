use todolist::agenda::Notice;
use todolist::due::{due_at, due_from_text, DueError};
use todolist::messages::{answer, can_answer, MainMessage, TodoMessage};
use todolist::{
    Assignment, AssignmentV1, Decoded, NameMap, StoreError, Timestamp, TodoList, TodoListV1,
    TodoListV2,
};

const DAY: i64 = 86_400;
// 2025-03-01
const D: i32 = 20148;

fn at(day: i32, second: i64) -> Timestamp {
    Timestamp { seconds: day as i64 * DAY + second, nanos: 0, offset: 0 }
}

fn task(day: i32, second: i64, name: &str) -> Assignment {
    Assignment { due_date: at(day, second), name: name.to_string() }
}

fn sample() -> TodoList {
    let mut list = TodoList::new("p".to_string(), None, &vec![]).unwrap();
    for class in ["math", "art", "bio"] {
        list.create_class(class.to_string()).unwrap();
    }
    list.create_assignment("math".to_string(), task(D, 8 * 3600, "sheet 1")).unwrap();
    list.create_assignment("math".to_string(), task(D + 7, 8 * 3600, "sheet 2")).unwrap();
    list.create_assignment("art".to_string(), task(D, 8 * 3600, "sketch")).unwrap();
    list.create_assignment("art".to_string(), task(D, 0, "early")).unwrap();
    list.create_assignment("art".to_string(), task(D - 1, DAY - 1, "late")).unwrap();
    list.create_assignment("bio".to_string(), task(D + 1, 0, "lab")).unwrap();
    list
}

fn names(tasks: &Vec<Assignment>) -> Vec<&str> {
    tasks.iter().map(|t| t.name.as_str()).collect()
}

#[test]
fn timespan_is_inclusive_and_by_day() {
    let list = sample();
    let found = list.get_timespan_assignments(D, D);
    assert_eq!(found.len(), 3);
    assert_eq!(found.name_at(0), "art");
    assert_eq!(found.name_at(1), "bio");
    assert_eq!(found.name_at(2), "math");
    assert_eq!(names(found.value_at(0)), vec!["sketch", "early"]);
    assert!(found.value_at(1).is_empty());
    assert_eq!(names(found.value_at(2)), vec!["sheet 1"]);

    let wider = list.get_timespan_assignments(D - 1, D + 1);
    assert_eq!(names(wider.get("art").unwrap()), vec!["sketch", "early", "late"]);
    assert_eq!(names(wider.get("bio").unwrap()), vec!["lab"]);
    assert_eq!(names(wider.get("math").unwrap()), vec!["sheet 1"]);
    assert!(wider.get("zoo").is_none());

    let none = list.get_timespan_assignments(D + 2, D + 6);
    assert_eq!(none.len(), 3);
    for i in 0..3 {
        assert!(none.value_at(i).is_empty());
    }
    let backwards = list.get_timespan_assignments(D + 1, D - 1);
    for i in 0..3 {
        assert!(backwards.value_at(i).is_empty());
    }
}

#[test]
fn timespan_goes_by_the_local_day() {
    let mut list = TodoList::new("p".to_string(), None, &vec![]).unwrap();
    list.create_class("c".to_string()).unwrap();
    // 23:30 UTC on day D, kept two hours east of UTC: locally day D + 1.
    let east = Assignment {
        due_date: Timestamp { seconds: D as i64 * DAY + 23 * 3600 + 1800, nanos: 0, offset: 7200 },
        name: "east".to_string(),
    };
    list.create_assignment("c".to_string(), east).unwrap();
    assert!(list.get_timespan_assignments(D, D).value_at(0).is_empty());
    assert_eq!(names(list.get_timespan_assignments(D + 1, D + 1).value_at(0)), vec!["east"]);
}

#[test]
fn week_is_seven_days() {
    let list = sample();
    let week = list.get_week_assignments(D);
    assert_eq!(names(week.get("math").unwrap()), vec!["sheet 1"]);
    assert_eq!(names(week.get("art").unwrap()), vec!["sketch", "early"]);
    assert_eq!(names(week.get("bio").unwrap()), vec!["lab"]);
    let next = list.get_week_assignments(D + 1);
    assert_eq!(names(next.get("math").unwrap()), vec!["sheet 2"]);
    assert!(next.get("art").unwrap().is_empty());
    let last = list.get_week_assignments(i32::MAX);
    assert!(last.get("math").unwrap().is_empty());
}

#[test]
fn agenda_groups_by_day_and_sorts() {
    let list = sample();
    let days = list.agenda(D);
    let shown: Vec<(i64, Notice, Vec<(&str, &str)>)> = days
        .iter()
        .map(|d| {
            (
                d.day,
                d.notice,
                d.items.iter().map(|i| (i.class.as_str(), i.assignment.name.as_str())).collect(),
            )
        })
        .collect();
    assert_eq!(
        shown,
        vec![
            (D as i64 - 1, Notice::Other, vec![("art", "late")]),
            (
                D as i64,
                Notice::Today,
                vec![("art", "early"), ("art", "sketch"), ("math", "sheet 1")]
            ),
            (D as i64 + 1, Notice::Tomorrow, vec![("bio", "lab")]),
            (D as i64 + 7, Notice::Other, vec![("math", "sheet 2")]),
        ]
    );
    for day in &days {
        for item in &day.items {
            assert_eq!(item.uid, todolist::derive_uid(&item.assignment));
            assert!(!item.completed);
        }
    }
}

#[test]
fn agenda_window_is_three_days_back_and_ten_ahead() {
    let list = sample();
    let days: Vec<i64> = list.agenda(D + 3).iter().map(|d| d.day).collect();
    assert_eq!(days, vec![D as i64, D as i64 + 1, D as i64 + 7]);
    let days: Vec<i64> = list.agenda(D + 4).iter().map(|d| d.day).collect();
    assert_eq!(days, vec![D as i64 + 1, D as i64 + 7]);
    let days: Vec<i64> = list.agenda(D - 3).iter().map(|d| d.day).collect();
    assert_eq!(days, vec![D as i64 - 1, D as i64, D as i64 + 1, D as i64 + 7]);
    let days: Vec<i64> = list.agenda(D - 4).iter().map(|d| d.day).collect();
    assert_eq!(days, vec![D as i64 - 1, D as i64, D as i64 + 1]);
    assert!(list.agenda(D + 18).is_empty());
    assert!(list.agenda(i32::MAX).is_empty());
    assert!(list.agenda(i32::MIN).is_empty());
}

#[test]
fn agenda_shows_completion() {
    let mut list = sample();
    let uid = todolist::derive_uid(&task(D, 8 * 3600, "sketch"));
    list.set_assignment_completion(uid, true).unwrap();
    let days = list.agenda(D);
    let done: Vec<(&str, bool)> =
        days[1].items.iter().map(|i| (i.assignment.name.as_str(), i.completed)).collect();
    assert_eq!(done, vec![("early", false), ("sketch", true), ("sheet 1", false)]);
}

#[test]
fn items_within_sorts_by_instant_class_name() {
    let mut list = TodoList::new("p".to_string(), None, &vec![]).unwrap();
    for class in ["b", "a"] {
        list.create_class(class.to_string()).unwrap();
    }
    list.create_assignment("b".to_string(), task(D, 100, "x")).unwrap();
    list.create_assignment("b".to_string(), task(D, 50, "z")).unwrap();
    list.create_assignment("a".to_string(), task(D, 100, "y")).unwrap();
    list.create_assignment("a".to_string(), task(D, 100, "w")).unwrap();
    list.create_assignment("a".to_string(), task(D + 1, 0, "v")).unwrap();
    let items = list.items_within(D as i64, D as i64);
    let shown: Vec<(&str, &str)> =
        items.iter().map(|i| (i.class.as_str(), i.assignment.name.as_str())).collect();
    assert_eq!(shown, vec![("b", "z"), ("a", "w"), ("a", "y"), ("b", "x")]);
}

#[test]
fn upcoming_drops_what_is_long_past() {
    let mut list = sample();
    list.create_assignment("art".to_string(), task(D - 3, 0, "edge")).unwrap();
    list.create_assignment("art".to_string(), task(D - 4, DAY - 1, "gone")).unwrap();
    list.create_assignment("art".to_string(), task(D + 400, 0, "far")).unwrap();
    let items = list.upcoming("art", D).unwrap();
    let shown: Vec<&str> = items.iter().map(|i| i.assignment.name.as_str()).collect();
    assert_eq!(shown, vec!["edge", "late", "early", "sketch", "far"]);
    assert!(items.iter().all(|i| i.class == "art"));
    assert!(matches!(list.upcoming("zoo", D), Err(StoreError::ClassNotFound)));
    assert!(list.upcoming("bio", D + 5).unwrap().is_empty());
}

#[test]
fn worker_answers() {
    let mut list = TodoList::new("p".to_string(), None, &vec![]).unwrap();
    assert!(matches!(
        answer(&mut list, MainMessage::NewClass("c".to_string())),
        Some(TodoMessage::NewClassResponse(true))
    ));
    assert!(matches!(
        answer(&mut list, MainMessage::NewClass("c".to_string())),
        Some(TodoMessage::NewClassResponse(false))
    ));
    assert!(matches!(
        answer(&mut list, MainMessage::NewAssignment("c".to_string(), task(D, 0, "t"))),
        Some(TodoMessage::NewAssignmentResponse(true))
    ));
    assert!(matches!(
        answer(&mut list, MainMessage::NewAssignment("c".to_string(), task(D, 0, "t"))),
        Some(TodoMessage::NewAssignmentResponse(false))
    ));
    assert!(matches!(
        answer(&mut list, MainMessage::NewAssignment("d".to_string(), task(D, 0, "u"))),
        Some(TodoMessage::NewAssignmentResponse(false))
    ));
    assert!(matches!(
        answer(&mut list, MainMessage::CheckClassExists("c".to_string())),
        Some(TodoMessage::ClassExists(true))
    ));
    assert!(matches!(
        answer(&mut list, MainMessage::CheckClassExists("d".to_string())),
        Some(TodoMessage::ClassExists(false))
    ));
    match answer(&mut list, MainMessage::GetClasses) {
        Some(TodoMessage::SendClasses(names)) => assert_eq!(names, vec!["c".to_string()]),
        _ => panic!("no classes"),
    }
    let request = MainMessage::GetClassAssignments("c".to_string());
    assert!(can_answer(&list, &request));
    match answer(&mut list, request) {
        Some(TodoMessage::SendClassAssignments(tasks)) => assert_eq!(tasks, vec![task(D, 0, "t")]),
        _ => panic!("no tasks"),
    }
    assert!(!can_answer(&list, &MainMessage::GetClassAssignments("d".to_string())));
    assert!(can_answer(&list, &MainMessage::Quit));
    match answer(&mut list, MainMessage::GetWeekAssignments(D - 6)) {
        Some(TodoMessage::SendWeekAssignments(found)) => {
            assert_eq!(found.get("c").unwrap(), &vec![task(D, 0, "t")])
        }
        _ => panic!("no week"),
    }
    match answer(&mut list, MainMessage::GetWeekAssignments(D - 7)) {
        Some(TodoMessage::SendWeekAssignments(found)) => assert!(found.get("c").unwrap().is_empty()),
        _ => panic!("no week"),
    }
    assert!(answer(&mut list, MainMessage::Quit).is_none());
    assert_eq!(list.get_classes(), vec!["c".to_string()]);
}

#[test]
fn due_from_text_reads_local_time() {
    let due = due_from_text("2025-03-01", "08:00").unwrap();
    assert_eq!(due.nanos, 0);
    assert_eq!(due.seconds + due.offset as i64, D as i64 * DAY + 8 * 3600);
    assert_eq!(due.day(), D as i64);
    assert_eq!(due_from_text("2025-03-01", "8 o'clock"), Err(DueError::BadFormat));
    assert_eq!(due_from_text("March 1st", "08:00"), Err(DueError::BadFormat));
    assert_eq!(due_from_text("", ""), Err(DueError::BadFormat));
}

#[test]
fn due_at_wants_day_and_time() {
    assert_eq!(due_at(None, Some(0)), Err(DueError::BadFormat));
    assert_eq!(due_at(Some(0), None), Err(DueError::BadFormat));
    assert_eq!(due_at(None, None), Err(DueError::BadFormat));
    let due = due_at(Some(D), Some(3600)).unwrap();
    assert_eq!(due.seconds + due.offset as i64, D as i64 * DAY + 3600);
    // No such second of a day, and no such day.
    assert_eq!(due_at(Some(D), Some(86_400)), Err(DueError::NoLocalTime));
    assert_eq!(due_at(Some(i32::MAX), Some(0)), Err(DueError::NoLocalTime));
}

#[test]
fn v1_and_v2_files_give_the_same_store() {
    let mut v1: TodoListV1 = NameMap::new();
    v1.insert(
        "math".to_string(),
        vec![
            AssignmentV1 { due_date: at(D, 0), name: "a".to_string(), completed: true },
            AssignmentV1 { due_date: at(D, 5), name: "b".to_string(), completed: false },
        ],
    );
    v1.insert("art".to_string(), vec![]);
    let mut v2: NameMap<Vec<(Assignment, bool)>> = NameMap::new();
    v2.insert("art".to_string(), vec![]);
    v2.insert("math".to_string(), vec![(task(D, 0, "a"), true), (task(D, 5, "b"), false)]);
    let old = TodoList::new("p".to_string(), Some(Decoded { v1: Some(v1), v2: None }), &vec![])
        .unwrap();
    let new = TodoList::new(
        "p".to_string(),
        Some(Decoded { v1: None, v2: Some(TodoListV2 { version: 2, assignments: v2 }) }),
        &vec![],
    )
    .unwrap();
    assert_eq!(old.get_classes(), new.get_classes());
    assert_eq!(old.get_classes(), vec!["art".to_string(), "math".to_string()]);
    for class in old.get_classes() {
        assert_eq!(old.get_class_assignments(&class), new.get_class_assignments(&class));
    }
    for t in [task(D, 0, "a"), task(D, 5, "b")] {
        let uid = todolist::derive_uid(&t);
        assert_eq!(old.get_assignment_completion(uid), new.get_assignment_completion(uid));
    }
    assert_eq!(old.get_assignment_completion(todolist::derive_uid(&task(D, 0, "a"))), Ok(true));
    assert_eq!(old.get_assignment_completion(todolist::derive_uid(&task(D, 5, "b"))), Ok(false));
    assert!(old == new);
}

#[test]
fn first_format_is_asked_first() {
    let mut v1: TodoListV1 = NameMap::new();
    v1.insert("one".to_string(), vec![]);
    let mut v2: NameMap<Vec<(Assignment, bool)>> = NameMap::new();
    v2.insert("two".to_string(), vec![]);
    let both = Decoded { v1: Some(v1), v2: Some(TodoListV2 { version: 2, assignments: v2 }) };
    let list = TodoList::new("p".to_string(), Some(both), &vec![]).unwrap();
    assert_eq!(list.get_classes(), vec!["one".to_string()]);
}

#[test]
fn parse_gives_what_the_file_says() {
    let mut v2: NameMap<Vec<(Assignment, bool)>> = NameMap::new();
    v2.insert("math".to_string(), vec![(task(D, 0, "a"), true)]);
    let doc = TodoListV2 { version: 2, assignments: v2 };
    let parsed = TodoList::parse_v2(&doc);
    let list = TodoList::from_parsed("q".to_string(), parsed);
    assert_eq!(list.get_class_assignments(&"math".to_string()), Ok(vec![task(D, 0, "a")]));
    let mut v1: TodoListV1 = NameMap::new();
    v1.insert(
        "math".to_string(),
        vec![AssignmentV1 { due_date: at(D, 0), name: "a".to_string(), completed: true }],
    );
    let other = TodoList::from_parsed("q".to_string(), TodoList::parse_v1(&v1));
    assert!(list == other);
    assert_eq!(other.path(), "q");
}

#[test]
fn stores_equal_and_clone() {
    let list = sample();
    let copy = list.clone();
    assert!(list == copy);
    let mut changed = list.clone();
    let uid = todolist::derive_uid(&task(D, 8 * 3600, "sketch"));
    changed.set_assignment_completion(uid, true).unwrap();
    assert!(list != changed);
    assert_eq!(list.get_assignment_completion(uid), Ok(false));
    let mut grown = list.clone();
    grown.create_class("zoo".to_string()).unwrap();
    assert!(list != grown);
    let mut more = list.clone();
    more.create_assignment("bio".to_string(), task(D, 1, "n")).unwrap();
    assert!(list != more);
    let mut ghost = list.clone();
    ghost.add_ghost("nowhere", task(D, 2, "g"));
    assert!(list != ghost);
    let elsewhere = TodoList::new("other".to_string(), None, &vec![]).unwrap();
    assert!(TodoList::new("p".to_string(), None, &vec![]).unwrap() != elsewhere);
}

#[test]
fn name_map_keeps_names_in_order() {
    let mut map: NameMap<u32> = NameMap::new();
    assert_eq!(map.insert("b".to_string(), 1), None);
    assert_eq!(map.insert("a".to_string(), 2), None);
    assert_eq!(map.insert("c".to_string(), 3), None);
    assert_eq!(map.insert("b".to_string(), 4), Some(1));
    assert_eq!(map.keys(), vec!["a", "b", "c"]);
    assert_eq!(map.len(), 3);
    assert_eq!(map.get("b"), Some(&4));
    assert_eq!(map.get("d"), None);
    assert!(map.contains_key("a"));
    assert_eq!(map.position("b"), Ok(1));
    assert_eq!(map.position("bb"), Err(2));
    assert_eq!(map.position(""), Err(0));
    assert_eq!(map.remove("a"), Some(2));
    assert_eq!(map.remove("a"), None);
    assert_eq!(map.keys(), vec!["b", "c"]);
    *map.value_at_mut(1) = 9;
    assert_eq!(map.value_at(1), &9);
    assert_eq!(map.name_at(1), "c");
    assert_eq!(map.insert("d".to_string(), 5), None);
    assert_eq!(map.keys(), vec!["b", "c", "d"]);
    let copy = map.clone();
    assert!(copy.same_names(&map));
    assert_eq!(copy.get("d"), Some(&5));
}
