use std::cmp::Ordering;
use std::collections::hash_map::DefaultHasher;
use std::hash::Hasher;
use todolist::order::{order_instants, order_names};
use todolist::{derive_uid, Assignment, AssignmentV1, Timestamp};

fn stamp(seconds: i64, nanos: u32, offset: i32) -> Timestamp {
    Timestamp { seconds, nanos, offset }
}

fn task(seconds: i64, name: &str) -> Assignment {
    Assignment { due_date: stamp(seconds, 0, 0), name: name.to_string() }
}

#[test]
fn uid_is_the_digest_of_seconds_nanos_and_name() {
    let a = Assignment { due_date: stamp(1740816000, 7, 3600), name: "HW1".to_string() };
    let mut hasher = DefaultHasher::new();
    hasher.write(&1740816000u64.to_le_bytes());
    hasher.write(&7u32.to_le_bytes());
    hasher.write("HW1".as_bytes());
    assert_eq!(derive_uid(&a), hasher.finish());
}

#[test]
fn uid_of_a_time_before_1970() {
    let a = task(-1, "x");
    let mut hasher = DefaultHasher::new();
    hasher.write(&u64::MAX.to_le_bytes());
    hasher.write(&0u32.to_le_bytes());
    hasher.write("x".as_bytes());
    assert_eq!(derive_uid(&a), hasher.finish());
}

#[test]
fn uid_is_the_same_for_the_same_content() {
    assert_eq!(derive_uid(&task(10, "HW1")), derive_uid(&task(10, "HW1")));
    let here = Assignment { due_date: stamp(10, 0, 0), name: "HW1".to_string() };
    let there = Assignment { due_date: stamp(10, 0, -18000), name: "HW1".to_string() };
    assert_eq!(derive_uid(&here), derive_uid(&there));
}

#[test]
fn uid_differs_with_either_field() {
    let base = derive_uid(&task(10, "HW1"));
    assert_ne!(base, derive_uid(&task(11, "HW1")));
    assert_ne!(base, derive_uid(&task(10, "HW2")));
    assert_ne!(base, derive_uid(&task(10, "")));
    let later = Assignment { due_date: stamp(10, 1, 0), name: "HW1".to_string() };
    assert_ne!(base, derive_uid(&later));
}

#[test]
fn day_is_the_local_calendar_day() {
    assert_eq!(stamp(0, 0, 0).day(), 0);
    assert_eq!(stamp(86_399, 999_999_999, 0).day(), 0);
    assert_eq!(stamp(86_400, 0, 0).day(), 1);
    assert_eq!(stamp(-1, 0, 0).day(), -1);
    assert_eq!(stamp(-86_400, 0, 0).day(), -1);
    assert_eq!(stamp(-86_401, 0, 0).day(), -2);
    assert_eq!(stamp(1740816000, 0, 0).day(), 20148);
    // 2025-03-01T23:30 UTC is already the 2nd two hours east, still the 1st in UTC.
    assert_eq!(stamp(1740871800, 0, 0).day(), 20148);
    assert_eq!(stamp(1740871800, 0, 7200).day(), 20149);
    // 2025-03-01T00:30 UTC is still February five hours west.
    assert_eq!(stamp(1740789000, 0, -18000).day(), 20147);
    assert_eq!(stamp(i64::MAX, 0, i32::MAX).day(), (i64::MAX as i128 + i32::MAX as i128).div_euclid(86_400) as i64);
    assert_eq!(stamp(i64::MIN, 0, i32::MIN).day(), (i64::MIN as i128 + i32::MIN as i128).div_euclid(86_400) as i64);
}

#[test]
fn is_within_takes_both_ends() {
    let due = stamp(1740816000, 0, 0);
    assert!(due.is_within(20148, 20148));
    assert!(due.is_within(20147, 20149));
    assert!(due.is_within(20148, 20200));
    assert!(due.is_within(20000, 20148));
    assert!(!due.is_within(20149, 20200));
    assert!(!due.is_within(20000, 20147));
    assert!(!due.is_within(20149, 20147));
}

#[test]
fn timestamps_compare_by_instant() {
    assert_eq!(stamp(10, 0, 0), stamp(10, 0, 3600));
    assert_ne!(stamp(10, 0, 0), stamp(10, 1, 0));
    assert_ne!(stamp(10, 0, 0), stamp(11, 0, 0));
    assert!(stamp(10, 5, 0) < stamp(11, 0, 0));
    assert!(stamp(10, 5, 0) < stamp(10, 6, 0));
    assert!(stamp(10, 5, 0) > stamp(9, 999, 0));
    assert_eq!(stamp(10, 5, 9).partial_cmp(&stamp(10, 5, -9)), Some(Ordering::Equal));
    assert_eq!(order_instants(&stamp(1, 0, 0), &stamp(2, 0, 0)), Ordering::Less);
    assert_eq!(order_instants(&stamp(2, 0, 0), &stamp(1, 9, 0)), Ordering::Greater);
    assert!(stamp(1, 0, 0).is_before(&stamp(1, 1, 0)));
    assert!(!stamp(1, 1, 0).is_before(&stamp(1, 1, 5)));
    assert!(stamp(1, 1, 0).is_same_instant(&stamp(1, 1, 5)));
}

#[test]
fn names_compare_by_bytes() {
    assert_eq!(order_names("a", "b"), Ordering::Less);
    assert_eq!(order_names("b", "a"), Ordering::Greater);
    assert_eq!(order_names("a", "a"), Ordering::Equal);
    assert_eq!(order_names("", "a"), Ordering::Less);
    assert_eq!(order_names("Z", "a"), Ordering::Less);
    assert_eq!(order_names("ab", "a"), Ordering::Greater);
    assert_eq!(order_names("z", "\u{e9}"), Ordering::Less);
    for (a, b) in [("x", "y"), ("\u{e9}", "\u{e8}"), ("abc", "abd"), ("", "")] {
        assert_eq!(order_names(a, b), a.cmp(b));
    }
}

#[test]
fn assignments_order_by_due_date_then_name() {
    assert!(task(10, "z") < task(11, "a"));
    assert!(task(10, "a") < task(10, "b"));
    assert!(task(10, "b") > task(10, "a"));
    assert_eq!(task(10, "a").partial_cmp(&task(10, "a")), Some(Ordering::Equal));
    assert_eq!(task(10, "a"), task(10, "a"));
    assert_ne!(task(10, "a"), task(10, "b"));
    assert_ne!(task(10, "a"), task(11, "a"));
    let mut tasks = vec![task(30, "a"), task(10, "b"), task(10, "a"), task(20, "c")];
    tasks.sort_by(|a, b| a.partial_cmp(b).unwrap());
    assert_eq!(tasks, vec![task(10, "a"), task(10, "b"), task(20, "c"), task(30, "a")]);
}

#[test]
fn v1_assignments_compare_with_their_flag_but_order_without() {
    let open = AssignmentV1 { due_date: stamp(10, 0, 0), name: "a".to_string(), completed: false };
    let done = AssignmentV1 { due_date: stamp(10, 0, 0), name: "a".to_string(), completed: true };
    assert_ne!(open, done);
    assert_eq!(open, open.clone());
    assert_eq!(open.partial_cmp(&done), Some(Ordering::Equal));
    let later = AssignmentV1 { due_date: stamp(11, 0, 0), name: "a".to_string(), completed: false };
    assert!(done < later);
}

#[test]
fn clone_keeps_every_field() {
    let a = Assignment { due_date: stamp(10, 3, -60), name: "HW1".to_string() };
    let b = a.clone();
    assert_eq!(b.name, "HW1");
    assert_eq!((b.due_date.seconds, b.due_date.nanos, b.due_date.offset), (10, 3, -60));
}
