//! The store behind a channel: what a worker that owns the store answers
//! to each request. Sending and receiving are left to the caller.

use crate::assignment::{spec_uid, Assignment, Day};
use crate::name_map::{ascending, NameMap};
use crate::todolist::TodoList;
use vstd::prelude::*;

verus! {

/// A request to the worker.
pub enum MainMessage {
    /// Stop working.
    Quit,
    /// Add a task to a class.
    NewAssignment(String, Assignment),
    /// Add an empty class.
    NewClass(String),
    /// List the tasks of a class.
    GetClassAssignments(String),
    /// List, for each class, the tasks of the seven days from a day on.
    GetWeekAssignments(Day),
    /// List the names of the classes.
    GetClasses,
    /// Say whether there is a class of a name.
    CheckClassExists(String),
}

/// An answer of the worker.
pub enum TodoMessage {
    /// Whether the task was added.
    NewAssignmentResponse(bool),
    /// Whether the class was added.
    NewClassResponse(bool),
    /// The tasks of the class, in its order.
    SendClassAssignments(Vec<Assignment>),
    /// For each class, its tasks of the week.
    SendWeekAssignments(NameMap<Vec<Assignment>>),
    /// The names of the classes, in ascending order.
    SendClasses(Vec<String>),
    /// Whether there is such a class.
    ClassExists(bool),
}

/// Whether the worker can answer the request: it cannot list the tasks of
/// a class that is not there.
pub open spec fn answerable(list: &TodoList, request: &MainMessage) -> bool {
    request matches MainMessage::GetClassAssignments(class) ==> list@.classes.contains_key(class@)
}

/// Lets the store answer one request. `Quit` has no answer; every other
/// request has one, and only new classes and new tasks change the store.
pub fn answer(list: &mut TodoList, request: MainMessage) -> (r: Option<TodoMessage>)
    requires
        old(list).wf(),
        answerable(old(list), &request),
    ensures
        final(list).wf(),
        match request {
            MainMessage::Quit => r is None && final(list)@ == old(list)@,
            MainMessage::NewClass(class) => {
                &&& r matches Some(TodoMessage::NewClassResponse(added))
                &&& added == !old(list)@.classes.contains_key(class@)
                &&& final(list)@ == if added {
                    old(list)@.with_class(class@)
                } else {
                    old(list)@
                }
            },
            MainMessage::NewAssignment(class, task) => {
                &&& r matches Some(TodoMessage::NewAssignmentResponse(added))
                &&& added == (old(list)@.classes.contains_key(class@)
                    && !old(list)@.assignments.contains_key(spec_uid(task@)))
                &&& final(list)@ == if added {
                    old(list)@.with_assignment(class@, task@)
                } else {
                    old(list)@
                }
            },
            MainMessage::GetClasses => {
                &&& r matches Some(TodoMessage::SendClasses(names))
                &&& ascending(names.deep_view())
                &&& names.deep_view().to_set() =~= old(list)@.classes.dom()
                &&& final(list)@ == old(list)@
            },
            MainMessage::GetClassAssignments(class) => {
                &&& r matches Some(TodoMessage::SendClassAssignments(tasks))
                &&& tasks.deep_view() == old(list)@.tasks(old(list)@.classes[class@])
                &&& final(list)@ == old(list)@
            },
            MainMessage::GetWeekAssignments(from_date) => {
                &&& r matches Some(TodoMessage::SendWeekAssignments(found))
                &&& found.wf()
                &&& found.deep_view() == old(list)@.timespan(from_date as int, from_date + 6)
                &&& final(list)@ == old(list)@
            },
            MainMessage::CheckClassExists(class) => {
                &&& r matches Some(TodoMessage::ClassExists(exists))
                &&& exists == old(list)@.classes.contains_key(class@)
                &&& final(list)@ == old(list)@
            },
        },
{
    match request {
        MainMessage::Quit => None,
        MainMessage::NewClass(class) => {
            let added = list.create_class(class).is_ok();
            Some(TodoMessage::NewClassResponse(added))
        },
        MainMessage::NewAssignment(class, task) => {
            let added = list.create_assignment(class, task).is_ok();
            Some(TodoMessage::NewAssignmentResponse(added))
        },
        MainMessage::GetClasses => Some(TodoMessage::SendClasses(list.get_classes())),
        MainMessage::GetClassAssignments(class) => {
            match list.get_class_assignments(&class) {
                Ok(tasks) => Some(TodoMessage::SendClassAssignments(tasks)),
                Err(_) => vstd::pervasive::unreached(),
            }
        },
        MainMessage::GetWeekAssignments(from_date) => Some(
            TodoMessage::SendWeekAssignments(list.get_week_assignments(from_date)),
        ),
        MainMessage::CheckClassExists(class) => Some(
            TodoMessage::ClassExists(list.has_class(class.as_str())),
        ),
    }
}

/// Whether the worker can answer the request.
pub fn can_answer(list: &TodoList, request: &MainMessage) -> (r: bool)
    requires
        list.wf(),
    ensures
        r == answerable(list, request),
{
    match request {
        MainMessage::GetClassAssignments(class) => list.has_class(class.as_str()),
        _ => true,
    }
}

} // verus!
