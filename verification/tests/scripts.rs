use todolist::due::DueError;
use todolist::script::{announcement, parse_line, Announcement, ScriptRun};
use todolist::{Assignment, Decoded, NameMap, StoreError, TodoList, TodoListV2};

const QUIZ: &str = "CS101,Quiz,2025-04-01,09:00";
const QUIZ_DAY: i32 = 20179;
const NINE: u32 = 9 * 3600;

fn runs(scripts: &[&str]) -> Vec<ScriptRun> {
    scripts.iter().map(|s| ScriptRun { succeeded: true, stdout: s.as_bytes().to_vec() }).collect()
}

fn with_classes(classes: &[&str], scripts: &[&str]) -> TodoList {
    let mut doc: NameMap<Vec<(Assignment, bool)>> = NameMap::new();
    for class in classes {
        doc.insert(class.to_string(), vec![]);
    }
    let file = Decoded { v1: None, v2: Some(TodoListV2 { version: 2, assignments: doc }) };
    TodoList::new("p".to_string(), Some(file), &runs(scripts)).unwrap()
}

fn reload(list: &TodoList, scripts: &[&str]) -> TodoList {
    let file = Decoded { v1: None, v2: Some(list.save_to_file()) };
    TodoList::new("p".to_string(), Some(file), &runs(scripts)).unwrap()
}

#[test]
fn parse_line_reads_the_four_fields() {
    let a = parse_line(QUIZ).unwrap();
    assert_eq!(a.class, "CS101");
    assert_eq!(a.name, "Quiz");
    assert_eq!(a.day, QUIZ_DAY);
    assert_eq!(a.seconds, NINE);
}

#[test]
fn parse_line_reads_dates_before_1970() {
    let a = parse_line("c,n,1969-12-31,23:59").unwrap();
    assert_eq!(a.day, -1);
    assert_eq!(a.seconds, 23 * 3600 + 59 * 60);
    let b = parse_line("c,n,1970-01-01,00:00").unwrap();
    assert_eq!(b.day, 0);
    assert_eq!(b.seconds, 0);
    let c = parse_line("c,n,2024-02-29,12:30").unwrap();
    assert_eq!(c.day, 19782);
    assert_eq!(c.seconds, 12 * 3600 + 30 * 60);
}

#[test]
fn parse_line_wants_exactly_four_fields() {
    assert!(parse_line("").is_none());
    assert!(parse_line("CS101,Quiz,2025-04-01").is_none());
    assert!(parse_line("CS101,Quiz,2025-04-01,09:00,").is_none());
    assert!(parse_line("CS101,Quiz,extra,2025-04-01,09:00").is_none());
    assert!(parse_line(",,,").is_none());
}

#[test]
fn parse_line_keeps_empty_and_odd_names() {
    let a = parse_line(",,2025-04-01,09:00").unwrap();
    assert_eq!(a.class, "");
    assert_eq!(a.name, "");
    let b = parse_line("Analyse \u{2161}, \u{c9}preuve ,2025-04-01,09:00").unwrap();
    assert_eq!(b.class, "Analyse \u{2161}");
    assert_eq!(b.name, " \u{c9}preuve ");
}

#[test]
fn parse_line_skips_bad_dates_and_times() {
    assert!(parse_line("CS101,Quiz,2025-13-01,09:00").is_none());
    assert!(parse_line("CS101,Quiz,2025-02-30,09:00").is_none());
    assert!(parse_line("CS101,Quiz,tomorrow,09:00").is_none());
    assert!(parse_line("CS101,Quiz,2025-04-01,24:00").is_none());
    assert!(parse_line("CS101,Quiz,2025-04-01,09:60").is_none());
    assert!(parse_line("CS101,Quiz,2025-04-01,noon").is_none());
    assert!(parse_line("CS101,Quiz,2025-04-01,09:00:00").is_none());
    assert!(parse_line("CS101,Quiz,09:00,2025-04-01").is_none());
}

#[test]
fn announcement_needs_date_and_time() {
    let a = announcement("c", "n", Some(3), Some(4)).unwrap();
    assert_eq!((a.class.as_str(), a.name.as_str(), a.day, a.seconds), ("c", "n", 3, 4));
    assert!(announcement("c", "n", None, Some(4)).is_none());
    assert!(announcement("c", "n", Some(3), None).is_none());
    assert!(announcement("c", "n", None, None).is_none());
}

#[test]
fn announce_takes_the_task_at_its_local_time() {
    let mut list = with_classes(&["CS101"], &[]);
    assert!(list.announce(QUIZ));
    let tasks = list.get_class_assignments(&"CS101".to_string()).unwrap();
    assert_eq!(tasks.len(), 1);
    assert_eq!(tasks[0].name, "Quiz");
    let due = tasks[0].due_date;
    assert_eq!(due.nanos, 0);
    assert_eq!(due.seconds + due.offset as i64, QUIZ_DAY as i64 * 86_400 + NINE as i64);
    assert_eq!(due.day(), QUIZ_DAY as i64);
    assert_eq!(list.get_assignment_completion(todolist::derive_uid(&tasks[0])), Ok(false));
}

#[test]
fn announce_skips_what_announces_nothing() {
    let mut list = with_classes(&["CS101"], &[]);
    assert!(!list.announce("CS101,Quiz,2025-04-01"));
    assert!(!list.announce("CS101,Quiz,soon,09:00"));
    assert!(!list.announce(""));
    assert_eq!(list.get_class_assignments(&"CS101".to_string()), Ok(vec![]));
}

#[test]
fn scenario_duplicate_line_gives_one_ghost() {
    let list = with_classes(&["CS101"], &["CS101,Quiz,2025-04-01,09:00\nCS101,Quiz,2025-04-01,09:00\n"]);
    let tasks = list.get_class_assignments(&"CS101".to_string()).unwrap();
    assert_eq!(tasks.len(), 1);
    assert_eq!(tasks[0].name, "Quiz");
}

#[test]
fn same_task_from_two_scripts_is_taken_once() {
    let list = with_classes(&["CS101", "CS102"], &[QUIZ, "CS102,Quiz,2025-04-01,09:00"]);
    assert_eq!(list.get_class_assignments(&"CS101".to_string()).unwrap().len(), 1);
    assert_eq!(list.get_class_assignments(&"CS102".to_string()).unwrap().len(), 0);
}

#[test]
fn ingest_counts_and_skips_bad_lines() {
    let mut list = with_classes(&["CS101"], &[]);
    let output = "CS101,Quiz,2025-04-01,09:00\r\nnot a task\nCS101,Exam,2025-06-01,14:30\n\nCS101,Quiz,2025-04-01,09:00";
    assert_eq!(list.ingest(output), 2);
    let tasks = list.get_class_assignments(&"CS101".to_string()).unwrap();
    let names: Vec<&str> = tasks.iter().map(|t| t.name.as_str()).collect();
    assert_eq!(names, vec!["Quiz", "Exam"]);
    assert_eq!(list.ingest(output), 0);
    assert_eq!(list.get_class_assignments(&"CS101".to_string()).unwrap().len(), 2);
}

#[test]
fn ghost_for_unknown_class_is_held_but_not_listed() {
    let mut list = with_classes(&["CS101"], &[]);
    assert!(list.announce("CS999,Quiz,2025-04-01,09:00"));
    assert_eq!(list.get_classes(), vec!["CS101".to_string()]);
    assert_eq!(list.get_class_assignments(&"CS101".to_string()), Ok(vec![]));
    assert_eq!(
        list.get_class_assignments(&"CS999".to_string()),
        Err(StoreError::ClassNotFound)
    );
    // The task is held all the same: announcing it for a class that is
    // there comes too late.
    assert!(!list.announce(QUIZ));
    assert_eq!(list.get_class_assignments(&"CS101".to_string()), Ok(vec![]));
}

#[test]
fn ghost_is_written_only_once_completed() {
    let mut list = with_classes(&["CS101"], &[QUIZ]);
    let quiz = list.get_class_assignments(&"CS101".to_string()).unwrap().remove(0);
    let uid = todolist::derive_uid(&quiz);
    assert!(list.save_to_file().assignments.value_at(0).is_empty());
    let silent = reload(&list, &[]);
    assert_eq!(silent.get_class_assignments(&"CS101".to_string()), Ok(vec![]));
    assert_eq!(silent.get_assignment_completion(uid), Err(StoreError::UnknownUid));

    list.set_assignment_completion(uid, true).unwrap();
    assert_eq!(list.save_to_file().assignments.value_at(0), &vec![(quiz.clone(), true)]);
    let kept = reload(&list, &[]);
    assert_eq!(kept.get_class_assignments(&"CS101".to_string()), Ok(vec![quiz.clone()]));
    assert_eq!(kept.get_assignment_completion(uid), Ok(true));

    list.set_assignment_completion(uid, false).unwrap();
    assert!(list.save_to_file().assignments.value_at(0).is_empty());
}

#[test]
fn reload_with_the_same_script_gives_the_same_ghosts() {
    let scripts = ["CS101,Quiz,2025-04-01,09:00\nCS101,Exam,2025-06-01,14:30\n"];
    let first = with_classes(&["CS101"], &scripts);
    let second = reload(&first, &scripts);
    assert_eq!(
        second.get_class_assignments(&"CS101".to_string()),
        first.get_class_assignments(&"CS101".to_string())
    );
    assert_eq!(second.get_class_assignments(&"CS101".to_string()).unwrap().len(), 2);
    assert!(second.save_to_file().assignments.value_at(0).is_empty());
}

#[test]
fn task_of_the_file_wins_over_the_script() {
    let scratch = with_classes(&["CS101"], &[QUIZ]);
    let quiz = scratch.get_class_assignments(&"CS101".to_string()).unwrap().remove(0);
    let mut doc: NameMap<Vec<(Assignment, bool)>> = NameMap::new();
    doc.insert("CS101".to_string(), vec![(quiz.clone(), false)]);
    let file = Decoded { v1: None, v2: Some(TodoListV2 { version: 2, assignments: doc }) };
    let list = TodoList::new("p".to_string(), Some(file), &runs(&[QUIZ])).unwrap();
    assert_eq!(list.get_class_assignments(&"CS101".to_string()), Ok(vec![quiz.clone()]));
    // It is no ghost: it is written though it is not completed.
    assert_eq!(list.save_to_file().assignments.value_at(0), &vec![(quiz, false)]);
}

#[test]
fn add_ghost_says_whether_it_took_the_task() {
    let mut list = with_classes(&["CS101"], &[]);
    let task = Assignment {
        due_date: todolist::Timestamp { seconds: 5, nanos: 0, offset: 0 },
        name: "t".to_string(),
    };
    assert!(list.add_ghost("CS101", task.clone()));
    assert!(!list.add_ghost("CS101", task.clone()));
    assert_eq!(list.get_class_assignments(&"CS101".to_string()), Ok(vec![task.clone()]));
    assert_eq!(
        list.create_assignment("CS101".to_string(), task),
        Err(StoreError::DuplicateAssignment)
    );
}

#[test]
fn failed_script_is_not_heard() {
    let mut doc: NameMap<Vec<(Assignment, bool)>> = NameMap::new();
    doc.insert("CS101".to_string(), vec![]);
    let file = Decoded { v1: None, v2: Some(TodoListV2 { version: 2, assignments: doc }) };
    let scripts = vec![
        ScriptRun { succeeded: false, stdout: QUIZ.as_bytes().to_vec() },
        ScriptRun { succeeded: true, stdout: "CS101,Exam,2025-06-01,14:30\n".as_bytes().to_vec() },
    ];
    let list = TodoList::new("p".to_string(), Some(file), &scripts).unwrap();
    let tasks = list.get_class_assignments(&"CS101".to_string()).unwrap();
    assert_eq!(tasks.len(), 1);
    assert_eq!(tasks[0].name, "Exam");
}

#[test]
fn script_that_prints_no_text_is_not_heard() {
    let mut doc: NameMap<Vec<(Assignment, bool)>> = NameMap::new();
    doc.insert("CS101".to_string(), vec![]);
    let file = Decoded { v1: None, v2: Some(TodoListV2 { version: 2, assignments: doc }) };
    let mut broken = QUIZ.as_bytes().to_vec();
    broken.extend_from_slice(&[b'\n', 0xff, 0xfe, b'\n']);
    let scripts = vec![
        ScriptRun { succeeded: true, stdout: broken },
        ScriptRun { succeeded: true, stdout: vec![0xc3] },
        ScriptRun { succeeded: true, stdout: "CS101,Exam,2025-06-01,14:30\n".as_bytes().to_vec() },
    ];
    let list = TodoList::new("p".to_string(), Some(file), &scripts).unwrap();
    let tasks = list.get_class_assignments(&"CS101".to_string()).unwrap();
    assert_eq!(tasks.len(), 1);
    assert_eq!(tasks[0].name, "Exam");
}

#[test]
fn output_of_a_run() {
    let good = ScriptRun { succeeded: true, stdout: "h\u{e9}\n".as_bytes().to_vec() };
    assert_eq!(good.output(), "h\u{e9}\n");
    let failed = ScriptRun { succeeded: false, stdout: "x".as_bytes().to_vec() };
    assert_eq!(failed.output(), "");
    let binary = ScriptRun { succeeded: true, stdout: vec![0x80] };
    assert_eq!(binary.output(), "");
    let nothing = ScriptRun { succeeded: true, stdout: vec![] };
    assert_eq!(nothing.output(), "");
}

#[test]
fn take_in_follows_what_local_time_said() {
    let quiz = || Announcement {
        class: "CS101".to_string(),
        name: "Quiz".to_string(),
        day: QUIZ_DAY,
        seconds: NINE,
    };
    let due = todolist::Timestamp { seconds: QUIZ_DAY as i64 * 86_400 + NINE as i64, nanos: 0, offset: 0 };
    let mut list = with_classes(&["CS101"], &[]);
    assert!(!list.take_in(quiz(), Err(DueError::NoLocalTime)));
    assert!(!list.take_in(quiz(), Err(DueError::BadFormat)));
    assert_eq!(list.get_class_assignments(&"CS101".to_string()), Ok(vec![]));
    assert!(list.take_in(quiz(), Ok(due)));
    let held = Assignment { due_date: due, name: "Quiz".to_string() };
    assert_eq!(list.get_class_assignments(&"CS101".to_string()), Ok(vec![held.clone()]));
    assert_eq!(list.get_assignment_completion(todolist::derive_uid(&held)), Ok(false));
    assert!(!list.take_in(quiz(), Ok(due)));
    assert_eq!(list.get_class_assignments(&"CS101".to_string()), Ok(vec![held]));
    assert!(list.save_to_file().assignments.value_at(0).is_empty());
}
