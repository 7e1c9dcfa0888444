//! The store as mathematical values: what it holds, when that is
//! consistent, and what each operation makes of it.

use crate::assignment::{spec_uid, AssignmentV1View, AssignmentView};
use crate::name_map::ascending;
use vstd::prelude::*;

verus! {

/// A task together with its completion flag.
pub type RecordView = (AssignmentView, bool);

/// What a store holds.
pub struct TodoListView {
    /// For each class, the identifiers of its assignments, in order.
    pub classes: Map<Seq<char>, Seq<u64>>,
    /// The task behind each identifier.
    pub assignments: Map<u64, AssignmentView>,
    /// Whether the task behind each identifier is completed.
    pub completion: Map<u64, bool>,
    /// The identifiers of the tasks that came from generator scripts.
    pub ghosts: Seq<u64>,
    /// Where the store is kept on disk.
    pub path: Seq<char>,
}

/// What a decoded file says, brought into the shape of the store.
pub struct ParsedView {
    pub classes: Map<Seq<char>, Seq<u64>>,
    pub assignments: Map<u64, AssignmentView>,
    pub completion: Map<u64, bool>,
}

impl TodoListView {
    /// The consistency of a store: class names are finitely many, each
    /// task has a completion flag and the other way round, classes and
    /// the ghost list only name tasks that the store holds, and each task
    /// is held under the identifier derived from it.
    pub open spec fn valid(self) -> bool {
        &&& self.classes.dom().finite()
        &&& self.assignments.dom().finite()
        &&& self.assignments.dom() =~= self.completion.dom()
        &&& forall|class: Seq<char>, i: int|
            self.classes.contains_key(class) && 0 <= i < self.classes[class].len()
                ==> self.assignments.contains_key(#[trigger] self.classes[class][i])
        &&& forall|i: int|
            0 <= i < self.ghosts.len() ==> self.assignments.contains_key(#[trigger] self.ghosts[i])
        &&& forall|uid: u64| #[trigger]
            self.assignments.contains_key(uid) ==> spec_uid(self.assignments[uid]) == uid
    }

    /// The names of the classes, in ascending order.
    pub open spec fn class_names(self) -> Seq<Seq<char>> {
        choose|names: Seq<Seq<char>>| ascending(names) && names.to_set() =~= self.classes.dom()
    }

    /// Whether two stores hold the same, but for the offsets of the due
    /// dates: the same classes, flags, ghosts and path, and under each
    /// identifier tasks with the same due instant and name.
    pub open spec fn same_as(self, other: TodoListView) -> bool {
        &&& self.classes == other.classes
        &&& self.completion == other.completion
        &&& self.ghosts == other.ghosts
        &&& self.path == other.path
        &&& self.assignments.dom() =~= other.assignments.dom()
        &&& forall|uid: u64| #[trigger]
            self.assignments.contains_key(uid) ==> self.assignments[uid].same_task(
                other.assignments[uid],
            )
    }

    /// Whether the task behind `uid` is written to disk: a task from a
    /// script is only once it is completed.
    pub open spec fn persists(self, uid: u64) -> bool {
        !self.ghosts.contains(uid) || self.completion[uid]
    }

    /// The record that is written for `uid`.
    pub open spec fn record(self, uid: u64) -> RecordView {
        (self.assignments[uid], self.completion[uid])
    }

    /// The tasks behind the given identifiers, in order.
    pub open spec fn tasks(self, uids: Seq<u64>) -> Seq<AssignmentView> {
        uids.map_values(|uid: u64| self.assignments[uid])
    }

    /// Of the given identifiers, those whose tasks are written to disk,
    /// in order.
    pub open spec fn persistent_uids(self, uids: Seq<u64>) -> Seq<u64> {
        uids.filter(|uid: u64| self.persists(uid))
    }

    /// The records that are written for a class with the given identifiers.
    pub open spec fn persistent_records(self, uids: Seq<u64>) -> Seq<RecordView> {
        self.persistent_uids(uids).map_values(|uid: u64| self.record(uid))
    }

    /// For each class, the identifiers of its tasks that are written to
    /// disk.
    pub open spec fn persistent_classes(self) -> Map<Seq<char>, Seq<u64>> {
        self.classes.map_values(|uids: Seq<u64>| self.persistent_uids(uids))
    }

    /// What is written to disk: for each class, the records of its tasks
    /// that persist.
    pub open spec fn persisted(self) -> Map<Seq<char>, Seq<RecordView>> {
        self.classes.map_values(|uids: Seq<u64>| self.persistent_records(uids))
    }

    /// Of the tasks behind the given identifiers, those that fall due
    /// within `start..=end`, in order.
    pub open spec fn due_tasks(self, uids: Seq<u64>, start: int, end: int) -> Seq<AssignmentView> {
        self.tasks(uids).filter(|task: AssignmentView| task.due_date.due_within(start, end))
    }

    /// For each class, its tasks that fall due within `start..=end`.
    pub open spec fn timespan(self, start: int, end: int) -> Map<Seq<char>, Seq<AssignmentView>> {
        self.classes.map_values(|uids: Seq<u64>| self.due_tasks(uids, start, end))
    }

    /// The tasks behind some identifiers and one more.
    pub proof fn lemma_tasks_push(self, uids: Seq<u64>, uid: u64)
        ensures
            self.tasks(uids.push(uid)) == self.tasks(uids).push(self.assignments[uid]),
    {
        assert(self.tasks(uids.push(uid)) =~= self.tasks(uids).push(self.assignments[uid]));
    }

    /// The due tasks behind some identifiers and one more: the task behind
    /// the last one is added where it falls due within the days.
    pub proof fn lemma_due_tasks_push(self, uids: Seq<u64>, uid: u64, start: int, end: int)
        ensures
            self.due_tasks(uids.push(uid), start, end) == if self.assignments[uid].due_date.due_within(
                start,
                end,
            ) {
                self.due_tasks(uids, start, end).push(self.assignments[uid])
            } else {
                self.due_tasks(uids, start, end)
            },
    {
        self.lemma_tasks_push(uids, uid);
        self.tasks(uids).lemma_filter_push(
            self.assignments[uid],
            |task: AssignmentView| task.due_date.due_within(start, end),
        );
    }

    /// The records written for some identifiers and one more: the record
    /// of the last one is added where it persists.
    pub proof fn lemma_persistent_records_push(self, uids: Seq<u64>, uid: u64)
        ensures
            self.persistent_records(uids.push(uid)) == if self.persists(uid) {
                self.persistent_records(uids).push(self.record(uid))
            } else {
                self.persistent_records(uids)
            },
    {
        uids.lemma_filter_push(uid, |uid: u64| self.persists(uid));
        if self.persists(uid) {
            assert(self.persistent_uids(uids).push(uid).map_values(|uid: u64| self.record(uid))
                =~= self.persistent_records(uids).push(self.record(uid)));
        }
    }

    /// The store with an empty class `name` put in.
    pub open spec fn with_class(self, name: Seq<char>) -> TodoListView {
        TodoListView { classes: self.classes.insert(name, Seq::empty()), ..self }
    }

    /// The store without the class `name`. The tasks of the class stay in
    /// the assignment table.
    pub open spec fn without_class(self, name: Seq<char>) -> TodoListView {
        TodoListView { classes: self.classes.remove(name), ..self }
    }

    /// The store with `task` appended to the class `class`, not completed.
    pub open spec fn with_assignment(self, class: Seq<char>, task: AssignmentView) -> TodoListView {
        let uid = spec_uid(task);
        TodoListView {
            classes: self.classes.insert(class, self.classes[class].push(uid)),
            assignments: self.assignments.insert(uid, task),
            completion: self.completion.insert(uid, false),
            ..self
        }
    }

    /// The store with the completion flag of `uid` set to `completed`.
    pub open spec fn with_completion(self, uid: u64, completed: bool) -> TodoListView {
        TodoListView { completion: self.completion.insert(uid, completed), ..self }
    }

    /// The store after a script has announced `task` for the class
    /// `class`. A task that the store holds already changes nothing.
    /// Otherwise the task becomes a ghost, not completed, and is appended
    /// to the class if there is such a class.
    pub open spec fn with_ghost(self, class: Seq<char>, task: AssignmentView) -> TodoListView {
        let uid = spec_uid(task);
        if self.assignments.contains_key(uid) {
            self
        } else {
            TodoListView {
                classes: if self.classes.contains_key(class) {
                    self.classes.insert(class, self.classes[class].push(uid))
                } else {
                    self.classes
                },
                assignments: self.assignments.insert(uid, task),
                completion: self.completion.insert(uid, false),
                ghosts: self.ghosts.push(uid),
                path: self.path,
            }
        }
    }

    /// Whether `later` can come of this store by scripts announcing tasks,
    /// and by nothing else: what the store held is untouched, and all that
    /// is new is ghosts that are not completed.
    pub open spec fn grown_by_ghosts(self, later: TodoListView) -> bool {
        &&& later.path == self.path
        &&& later.classes.dom() =~= self.classes.dom()
        &&& forall|class: Seq<char>| #[trigger]
            self.classes.contains_key(class) ==> self.classes[class].is_prefix_of(
                later.classes[class],
            )
        &&& forall|class: Seq<char>, i: int|
            self.classes.contains_key(class) && self.classes[class].len() <= i
                < later.classes[class].len() ==> !self.assignments.contains_key(
                #[trigger] later.classes[class][i],
            )
        &&& forall|uid: u64| #[trigger]
            self.assignments.contains_key(uid) ==> later.assignments.contains_key(uid)
                && later.assignments[uid] == self.assignments[uid] && later.completion[uid]
                == self.completion[uid]
        &&& forall|uid: u64| #[trigger]
            later.assignments.contains_key(uid) && !self.assignments.contains_key(uid)
                ==> later.ghosts.contains(uid) && !later.completion[uid]
        &&& self.ghosts.is_prefix_of(later.ghosts)
        &&& forall|i: int|
            self.ghosts.len() <= i < later.ghosts.len() ==> !self.assignments.contains_key(
                #[trigger] later.ghosts[i],
            )
    }
}

/// A new class leaves a store consistent.
pub proof fn lemma_with_class_valid(store: TodoListView, name: Seq<char>)
    requires
        store.valid(),
    ensures
        store.with_class(name).valid(),
{
    let after = store.with_class(name);
    assert forall|class: Seq<char>, i: int|
        after.classes.contains_key(class) && 0 <= i < after.classes[class].len()
        implies after.assignments.contains_key(#[trigger] after.classes[class][i]) by {
        if class != name {
            assert(store.classes.contains_key(class));
            assert(after.classes[class][i] == store.classes[class][i]);
        }
    }
}

/// Removing a class leaves a store consistent.
pub proof fn lemma_without_class_valid(store: TodoListView, name: Seq<char>)
    requires
        store.valid(),
    ensures
        store.without_class(name).valid(),
{
    let after = store.without_class(name);
    assert forall|class: Seq<char>, i: int|
        after.classes.contains_key(class) && 0 <= i < after.classes[class].len()
        implies after.assignments.contains_key(#[trigger] after.classes[class][i]) by {
        assert(store.classes.contains_key(class));
        assert(after.classes[class][i] == store.classes[class][i]);
    }
}

/// A new task in one of its classes leaves a store consistent.
pub proof fn lemma_with_assignment_valid(
    store: TodoListView,
    class: Seq<char>,
    task: AssignmentView,
)
    requires
        store.valid(),
        store.classes.contains_key(class),
    ensures
        store.with_assignment(class, task).valid(),
{
    let after = store.with_assignment(class, task);
    let uid = spec_uid(task);
    assert forall|c: Seq<char>, i: int|
        after.classes.contains_key(c) && 0 <= i < after.classes[c].len()
        implies after.assignments.contains_key(#[trigger] after.classes[c][i]) by {
        assert(store.classes.contains_key(c));
        if c != class {
            assert(after.classes[c][i] == store.classes[c][i]);
        } else if i < store.classes[c].len() {
            assert(after.classes[c][i] == store.classes[c][i]);
        }
    }
    assert forall|i: int| 0 <= i < after.ghosts.len() implies after.assignments.contains_key(
        #[trigger] after.ghosts[i],
    ) by {
        assert(store.assignments.contains_key(store.ghosts[i]));
    }
}

/// Setting a flag that is there leaves a store consistent.
pub proof fn lemma_with_completion_valid(store: TodoListView, uid: u64, completed: bool)
    requires
        store.valid(),
        store.completion.contains_key(uid),
    ensures
        store.with_completion(uid, completed).valid(),
{
    let after = store.with_completion(uid, completed);
    assert(after.completion.dom() =~= store.completion.dom());
    assert forall|c: Seq<char>, i: int|
        after.classes.contains_key(c) && 0 <= i < after.classes[c].len()
        implies after.assignments.contains_key(#[trigger] after.classes[c][i]) by {
        assert(after.classes[c][i] == store.classes[c][i]);
    }
}

/// A task from a script leaves a store consistent.
pub proof fn lemma_with_ghost_valid(store: TodoListView, class: Seq<char>, task: AssignmentView)
    requires
        store.valid(),
    ensures
        store.with_ghost(class, task).valid(),
{
    let after = store.with_ghost(class, task);
    let uid = spec_uid(task);
    if !store.assignments.contains_key(uid) {
        assert forall|c: Seq<char>, i: int|
            after.classes.contains_key(c) && 0 <= i < after.classes[c].len()
            implies after.assignments.contains_key(#[trigger] after.classes[c][i]) by {
            assert(store.classes.contains_key(c));
            if c != class {
                assert(after.classes[c][i] == store.classes[c][i]);
            } else if i < store.classes[c].len() {
                assert(after.classes[c][i] == store.classes[c][i]);
            }
        }
        assert forall|i: int| 0 <= i < after.ghosts.len() implies after.assignments.contains_key(
            #[trigger] after.ghosts[i],
        ) by {
            if i < store.ghosts.len() {
                assert(store.assignments.contains_key(store.ghosts[i]));
            }
        }
    }
}

/// Nothing at all is growth by ghosts.
pub proof fn lemma_grown_reflexive(store: TodoListView)
    ensures
        store.grown_by_ghosts(store),
{
}

/// Growth by ghosts upon growth by ghosts is growth by ghosts.
pub proof fn lemma_grown_transitive(first: TodoListView, second: TodoListView, third: TodoListView)
    requires
        first.grown_by_ghosts(second),
        second.grown_by_ghosts(third),
    ensures
        first.grown_by_ghosts(third),
{
    assert forall|class: Seq<char>| #[trigger] first.classes.contains_key(class) implies
        first.classes[class].is_prefix_of(third.classes[class]) by {
        assert(second.classes.contains_key(class));
        assert(first.classes[class].is_prefix_of(second.classes[class]));
        assert(second.classes[class].is_prefix_of(third.classes[class]));
    }
    assert forall|class: Seq<char>, i: int|
        first.classes.contains_key(class) && first.classes[class].len() <= i
            < third.classes[class].len() implies !first.assignments.contains_key(
        #[trigger] third.classes[class][i],
    ) by {
        assert(second.classes.contains_key(class));
        assert(first.classes[class].is_prefix_of(second.classes[class]));
        assert(second.classes[class].is_prefix_of(third.classes[class]));
        if i < second.classes[class].len() {
            assert(third.classes[class][i] == second.classes[class][i]);
        } else {
            let uid = third.classes[class][i];
            assert(!second.assignments.contains_key(uid));
        }
    }
    assert forall|uid: u64| #[trigger]
        third.assignments.contains_key(uid) && !first.assignments.contains_key(uid)
        implies third.ghosts.contains(uid) && !third.completion[uid] by {
        if second.assignments.contains_key(uid) {
            let at = second.ghosts.index_of(uid);
            assert(second.ghosts.contains(uid));
            assert(third.ghosts[at] == uid);
        }
    }
    assert forall|i: int| first.ghosts.len() <= i < third.ghosts.len()
        implies !first.assignments.contains_key(#[trigger] third.ghosts[i]) by {
        if i < second.ghosts.len() {
            assert(third.ghosts[i] == second.ghosts[i]);
        } else {
            assert(!second.assignments.contains_key(third.ghosts[i]));
        }
    }
}

/// Taking in a task from a script is growth by ghosts.
pub proof fn lemma_with_ghost_grows(store: TodoListView, class: Seq<char>, task: AssignmentView)
    requires
        store.valid(),
    ensures
        store.grown_by_ghosts(store.with_ghost(class, task)),
{
    let after = store.with_ghost(class, task);
    let uid = spec_uid(task);
    if !store.assignments.contains_key(uid) {
        assert(after.ghosts[after.ghosts.len() - 1] == uid);
    }
}

/// A store without classes and tasks, kept at `path`.
pub open spec fn empty_store(path: Seq<char>) -> TodoListView {
    TodoListView {
        classes: Map::empty(),
        assignments: Map::empty(),
        completion: Map::empty(),
        ghosts: Seq::empty(),
        path,
    }
}

/// The identifiers that some class lists.
pub open spec fn listed(classes: Map<Seq<char>, Seq<u64>>) -> Set<u64> {
    Set::new(
        |uid: u64|
            exists|class: Seq<char>, i: int|
                classes.contains_key(class) && 0 <= i < classes[class].len()
                    && #[trigger] classes[class][i] == uid,
    )
}

/// The identifiers of the given records, in order.
pub open spec fn uids_of(records: Seq<RecordView>) -> Seq<u64> {
    records.map_values(|record: RecordView| spec_uid(record.0))
}

/// The table that comes of entering the records one after the other,
/// each under its identifier: where two have the same identifier, the
/// later one stays.
pub open spec fn record_table(records: Seq<RecordView>) -> Map<u64, RecordView>
    decreases records.len(),
{
    if records.len() == 0 {
        Map::empty()
    } else {
        record_table(records.drop_last()).insert(spec_uid(records.last().0), records.last())
    }
}

/// What a file with the classes `names`, and for each of them the records
/// at the same place in `lists`, says: each class lists the identifiers
/// of its records, and the tables hold all records in the order of the
/// file.
pub open spec fn normalized(names: Seq<Seq<char>>, lists: Seq<Seq<RecordView>>) -> ParsedView {
    let table = record_table(lists.flatten());
    ParsedView {
        classes: Map::new(
            |class: Seq<char>| names.contains(class),
            |class: Seq<char>| uids_of(lists[names.index_of(class)]),
        ),
        assignments: table.map_values(|record: RecordView| record.0),
        completion: table.map_values(|record: RecordView| record.1),
    }
}

/// The records of the first file format, in the shape of the second.
pub open spec fn upgraded(list: Seq<AssignmentV1View>) -> Seq<RecordView> {
    list.map_values(|task: AssignmentV1View| (task.record(), task.completed))
}

/// All lists of a file of the first format, in the shape of the second.
pub open spec fn upgraded_lists(lists: Seq<Seq<AssignmentV1View>>) -> Seq<Seq<RecordView>> {
    lists.map_values(|list: Seq<AssignmentV1View>| upgraded(list))
}

/// The store that a decoded file gives: nothing in it is a ghost.
pub open spec fn loaded(parsed: ParsedView, path: Seq<char>) -> TodoListView {
    TodoListView {
        classes: parsed.classes,
        assignments: parsed.assignments,
        completion: parsed.completion,
        ghosts: Seq::empty(),
        path,
    }
}

/// What the table of some records holds: an entry for the identifier of
/// each record, and under each identifier one of the records that bear
/// it.
pub proof fn lemma_record_table(records: Seq<RecordView>)
    ensures
        record_table(records).dom().finite(),
        forall|i: int|
            0 <= i < records.len() ==> record_table(records).contains_key(
                spec_uid(#[trigger] records[i].0),
            ),
        forall|uid: u64| #[trigger]
            record_table(records).contains_key(uid) ==> records.contains(
                record_table(records)[uid],
            ) && spec_uid(record_table(records)[uid].0) == uid,
    decreases records.len(),
{
    if records.len() > 0 {
        let front = records.drop_last();
        lemma_record_table(front);
        assert forall|i: int| 0 <= i < records.len() implies record_table(records).contains_key(
            spec_uid(#[trigger] records[i].0),
        ) by {
            if i < front.len() {
                assert(front[i] == records[i]);
            }
        }
        assert forall|uid: u64| #[trigger]
            record_table(records).contains_key(uid) implies records.contains(
            record_table(records)[uid],
        ) && spec_uid(record_table(records)[uid].0) == uid by {
            if uid == spec_uid(records.last().0) {
                assert(records[records.len() - 1] == records.last());
            } else {
                let held = record_table(front)[uid];
                let i = front.index_of(held);
                assert(front.contains(held));
                assert(records[i] == held);
            }
        }
    }
}

/// Each record of each list occurs in the lists laid end to end, and
/// nothing else does.
pub proof fn lemma_flatten_members<A>(lists: Seq<Seq<A>>)
    ensures
        forall|k: int, i: int|
            0 <= k < lists.len() && 0 <= i < lists[k].len() ==> lists.flatten().contains(
                #[trigger] lists[k][i],
            ),
        forall|item: A| #[trigger]
            lists.flatten().contains(item) ==> exists|k: int|
                0 <= k < lists.len() && (#[trigger] lists[k]).contains(item),
    decreases lists.len(),
{
    if lists.len() > 0 {
        let rest = lists.drop_first();
        let flat = lists.flatten();
        lemma_flatten_members(rest);
        assert(flat == lists.first() + rest.flatten());
        assert forall|k: int, i: int| 0 <= k < lists.len() && 0 <= i < lists[k].len() implies
            flat.contains(#[trigger] lists[k][i]) by {
            if k == 0 {
                assert(flat[i] == lists[k][i]);
            } else {
                assert(rest[k - 1] == lists[k]);
                assert(rest.flatten().contains(rest[k - 1][i]));
                let at = rest.flatten().index_of(rest[k - 1][i]);
                assert(flat[lists.first().len() + at] == lists[k][i]);
            }
        }
        assert forall|item: A| #[trigger] flat.contains(item) implies exists|k: int|
            0 <= k < lists.len() && (#[trigger] lists[k]).contains(item) by {
            let at = flat.index_of(item);
            if at < lists.first().len() {
                assert(lists[0][at] == item);
                assert(lists[0].contains(item));
            } else {
                assert(rest.flatten()[at - lists.first().len()] == item);
                assert(rest.flatten().contains(item));
                let k = choose|k: int| 0 <= k < rest.len() && (#[trigger] rest[k]).contains(item);
                assert(lists[k + 1] == rest[k]);
                assert(lists[k + 1].contains(item));
            }
        }
    }
}

/// What a file says is a consistent store, whatever the file holds.
pub proof fn lemma_normalized_valid(
    names: Seq<Seq<char>>,
    lists: Seq<Seq<RecordView>>,
    path: Seq<char>,
)
    requires
        names.len() == lists.len(),
    ensures
        loaded(normalized(names, lists), path).valid(),
{
    let parsed = normalized(names, lists);
    let store = loaded(parsed, path);
    let table = record_table(lists.flatten());
    lemma_record_table(lists.flatten());
    lemma_flatten_members(lists);
    vstd::seq_lib::seq_to_set_is_finite(names);
    assert(store.classes.dom() =~= names.to_set());
    assert(store.assignments.dom() =~= table.dom());
    assert(store.completion.dom() =~= table.dom());
    assert forall|class: Seq<char>, i: int|
        store.classes.contains_key(class) && 0 <= i < store.classes[class].len()
        implies store.assignments.contains_key(#[trigger] store.classes[class][i]) by {
        let k = names.index_of(class);
        assert(names.contains(class));
        let record = lists[k][i];
        assert(lists.flatten().contains(record));
        let at = lists.flatten().index_of(record);
        assert(table.contains_key(spec_uid(lists.flatten()[at].0)));
    }
}

} // verus!
