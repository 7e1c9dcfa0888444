//! The task store: classes, the tasks in them, and which tasks are done.

use crate::assignment::{derive_uid, spec_uid, Assignment, AssignmentV1, AssignmentView, Day};
use crate::model::{
    empty_store, lemma_normalized_valid, lemma_with_assignment_valid, lemma_with_class_valid,
    lemma_with_completion_valid, lemma_with_ghost_valid, lemma_without_class_valid, loaded,
    normalized, record_table, uids_of, upgraded, upgraded_lists, ParsedView, RecordView,
    TodoListView,
};
use crate::name_map::{ascending, lemma_ascending_same, lemma_replaced, NameMap};
use crate::names::name_lt;
use crate::script::{all_heard, output_chain, outputs_taken, ScriptRun};
use crate::views::{lemma_empty, lemma_numbers, lemma_pushed};
use std::collections::HashMap;
use vstd::prelude::*;
use vstd::std_specs::cmp::PartialEqSpecImpl;
use vstd::std_specs::iter::IteratorSpec;

verus! {

/// Why an operation on the store was refused.
#[derive(Clone, Copy, Debug, PartialEq, Eq, Structural)]
pub enum StoreError {
    /// There is a class of that name already.
    ClassExists,
    /// There is no class of that name.
    ClassNotFound,
    /// The store holds a task with the same due instant and name already.
    DuplicateAssignment,
    /// The store holds no task under that identifier.
    UnknownUid,
    /// The backing file is in neither of the known formats.
    UnrecognizedFormat,
}

/// A file of the first format: for each class its tasks, each with its
/// completion flag inside.
pub type TodoListV1 = NameMap<Vec<AssignmentV1>>;

/// A file of the second format: a version number, and for each class its
/// tasks, each paired with its completion flag.
pub struct TodoListV2 {
    pub version: u8,
    pub assignments: NameMap<Vec<(Assignment, bool)>>,
}

/// What the decoders of the two formats made of the text of the backing
/// file: for each format the decoded file, if the text is in that format.
pub struct Decoded {
    pub v1: Option<TodoListV1>,
    pub v2: Option<TodoListV2>,
}

impl Decoded {
    /// The invariant of the decoded files.
    pub open spec fn wf(&self) -> bool {
        &&& self.v1 matches Some(doc) ==> doc.wf()
        &&& self.v2 matches Some(doc) ==> doc.assignments.wf()
    }

    /// What the file says: the first format is asked first, then the
    /// second. A text in neither format says nothing.
    pub open spec fn parsed(&self) -> Option<ParsedView> {
        match self.v1 {
            Some(doc) => Some(normalized(doc.names(), upgraded_lists(doc.deep_values()))),
            None => match self.v2 {
                Some(doc) => Some(
                    normalized(doc.assignments.names(), doc.assignments.deep_values()),
                ),
                None => None,
            },
        }
    }
}

/// What a decoded file says, in the shape of the store.
pub struct TodoListParsed {
    uids_by_class: NameMap<Vec<u64>>,
    assignment_by_uid: HashMap<u64, Assignment>,
    completed_by_uid: HashMap<u64, bool>,
}

impl View for TodoListParsed {
    type V = ParsedView;

    closed spec fn view(&self) -> ParsedView {
        ParsedView {
            classes: self.uids_by_class.deep_view(),
            assignments: self.assignment_by_uid@.map_values(|task: Assignment| task@),
            completion: self.completed_by_uid@,
        }
    }
}

impl TodoListParsed {
    /// The invariant: the representation is in order, and what it holds
    /// makes a consistent store.
    pub closed spec fn wf(&self) -> bool {
        &&& self.uids_by_class.wf()
        &&& loaded(self@, Seq::empty()).valid()
    }
}

/// Whether the two tables hold exactly what `table` holds.
spec fn tables_hold(
    assignments: Map<u64, Assignment>,
    completion: Map<u64, bool>,
    table: Map<u64, RecordView>,
) -> bool {
    &&& assignments.dom() =~= table.dom()
    &&& completion.dom() =~= table.dom()
    &&& forall|uid: u64| #[trigger]
        table.contains_key(uid) ==> assignments[uid]@ == table[uid].0 && completion[uid]
            == table[uid].1
}

/// Enters one record into the tables and notes its identifier.
fn enter(
    assignment_by_uid: &mut HashMap<u64, Assignment>,
    completed_by_uid: &mut HashMap<u64, bool>,
    uids: &mut Vec<u64>,
    assignment: Assignment,
    completed: bool,
    Ghost(before): Ghost<Seq<RecordView>>,
)
    requires
        tables_hold(old(assignment_by_uid)@, old(completed_by_uid)@, record_table(before)),
    ensures
        tables_hold(
            final(assignment_by_uid)@,
            final(completed_by_uid)@,
            record_table(before.push((assignment@, completed))),
        ),
        final(uids)@ == old(uids)@.push(spec_uid(assignment@)),
{
    let uid = derive_uid(&assignment);
    let ghost after = before.push((assignment@, completed));
    proof {
        assert(after.drop_last() =~= before);
        assert(after.last() == (assignment@, completed));
    }
    assignment_by_uid.insert(uid, assignment);
    completed_by_uid.insert(uid, completed);
    uids.push(uid);
}

/// The tasks of a class of the first format, each with its completion
/// flag beside it.
fn upgrade(tasks: &Vec<AssignmentV1>) -> (records: Vec<(Assignment, bool)>)
    ensures
        records.deep_view() == upgraded(tasks.deep_view()),
{
    let mut records: Vec<(Assignment, bool)> = Vec::new();
    let mut j: usize = 0;
    proof {
        lemma_empty(records);
        assert(upgraded(tasks.deep_view().take(0)) =~= Seq::<RecordView>::empty());
    }
    while j < tasks.len()
        invariant
            j <= tasks.len(),
            records.deep_view() == upgraded(tasks.deep_view().take(j as int)),
        decreases tasks.len() - j,
    {
        let task = &tasks[j];
        let record = (Assignment { due_date: task.due_date, name: task.name.clone() }, task.completed);
        let ghost held = records;
        records.push(record);
        proof {
            lemma_pushed(held, records, record);
            assert(upgraded(tasks.deep_view().take(j as int)).push(record.deep_view())
                =~= upgraded(tasks.deep_view().take(j as int + 1)));
        }
        j += 1;
    }
    proof {
        assert(tasks.deep_view().take(j as int) =~= tasks.deep_view());
    }
    records
}

/// Enters the records of each class into the tables, class after class,
/// and lists for each class the identifiers of its records.
fn normalize(doc: &NameMap<Vec<(Assignment, bool)>>) -> (parsed: TodoListParsed)
    requires
        doc.wf(),
    ensures
        parsed.wf(),
        parsed@ == normalized(doc.names(), doc.deep_values()),
{
    let ghost names = doc.names();
    let ghost lists = doc.deep_values();
    let mut uids_by_class: NameMap<Vec<u64>> = NameMap::new();
    let mut assignment_by_uid: HashMap<u64, Assignment> = HashMap::new();
    let mut completed_by_uid: HashMap<u64, bool> = HashMap::new();
    let mut i: usize = 0;
    proof {
        assert(lists.take(0) =~= Seq::<Seq<RecordView>>::empty());
    }
    while i < doc.len()
        invariant
            doc.wf(),
            names == doc.names(),
            lists == doc.deep_values(),
            i <= names.len(),
            uids_by_class.wf(),
            uids_by_class.names() == names.take(i as int),
            uids_by_class.values().len() == i,
            forall|k: int|
                0 <= k < i ==> (#[trigger] uids_by_class.values()[k])@ == uids_of(lists[k]),
            tables_hold(
                assignment_by_uid@,
                completed_by_uid@,
                record_table(lists.take(i as int).flatten()),
            ),
        decreases names.len() - i,
    {
        let class = doc.name_at(i);
        let records = doc.value_at(i);
        let ghost list = lists[i as int];
        let ghost done = lists.take(i as int).flatten();
        let mut uids: Vec<u64> = Vec::new();
        let mut j: usize = 0;
        proof {
            assert(list == records.deep_view());
            assert(done + list.take(0) =~= done);
        }
        while j < records.len()
            invariant
                j <= records.len(),
                list == records.deep_view(),
                uids@ == uids_of(list.take(j as int)),
                tables_hold(
                    assignment_by_uid@,
                    completed_by_uid@,
                    record_table(done + list.take(j as int)),
                ),
            decreases records.len() - j,
        {
            let record = &records[j];
            proof {
                assert(list[j as int] == (record.0@, record.1));
                assert((done + list.take(j as int)).push(list[j as int]) =~= done + list.take(
                    j as int + 1,
                ));
                assert(uids_of(list.take(j as int)).push(spec_uid(record.0@)) =~= uids_of(
                    list.take(j as int + 1),
                ));
            }
            enter(
                &mut assignment_by_uid,
                &mut completed_by_uid,
                &mut uids,
                record.0.clone(),
                record.1,
                Ghost(done + list.take(j as int)),
            );
            j += 1;
        }
        proof {
            assert(list.take(j as int) =~= list);
            assert(lists.take(i as int + 1) =~= lists.take(i as int).push(list));
            lists.take(i as int).lemma_flatten_push(list);
            assert forall|k: int| 0 <= k < i implies name_lt(
                #[trigger] uids_by_class.names()[k],
                class@,
            ) by {
                assert(uids_by_class.names()[k] == names[k]);
            }
            assert(names.take(i as int).push(class@) =~= names.take(i as int + 1));
        }
        uids_by_class.push(class.clone(), uids);
        i += 1;
    }
    let parsed = TodoListParsed { uids_by_class, assignment_by_uid, completed_by_uid };
    proof {
        assert(lists.take(i as int) =~= lists);
        assert(names.take(i as int) =~= names);
        let goal = normalized(names, lists);
        assert(parsed@.assignments =~= goal.assignments);
        assert(parsed@.completion =~= goal.completion);
        assert forall|class: Seq<char>| names.contains(class) implies #[trigger]
            parsed@.classes[class] == goal.classes[class] by {
            let k = names.index_of(class);
            lemma_numbers(parsed.uids_by_class.values()[k]);
        }
        assert(parsed@.classes =~= goal.classes);
        lemma_normalized_valid(names, lists, Seq::empty());
    }
    parsed
}

impl TodoList {
    /// Brings a file of the first format into the shape of the store: the
    /// completion flag leaves each record, and does not enter its
    /// identifier.
    pub fn parse_v1(doc: &TodoListV1) -> (parsed: TodoListParsed)
        requires
            doc.wf(),
        ensures
            parsed.wf(),
            parsed@ == normalized(doc.names(), upgraded_lists(doc.deep_values())),
    {
        let ghost names = doc.names();
        let ghost lists = upgraded_lists(doc.deep_values());
        let mut records: NameMap<Vec<(Assignment, bool)>> = NameMap::new();
        let mut i: usize = 0;
        proof {
            assert(names.take(0) =~= Seq::<Seq<char>>::empty());
        }
        while i < doc.len()
            invariant
                doc.wf(),
                names == doc.names(),
                lists == upgraded_lists(doc.deep_values()),
                i <= names.len(),
                records.wf(),
                records.names() == names.take(i as int),
                records.deep_values() == lists.take(i as int),
            decreases names.len() - i,
        {
            let class = doc.name_at(i);
            let list = upgrade(doc.value_at(i));
            proof {
                assert forall|k: int| 0 <= k < i implies name_lt(
                    #[trigger] records.names()[k],
                    class@,
                ) by {
                    assert(records.names()[k] == names[k]);
                }
                assert(names.take(i as int).push(class@) =~= names.take(i as int + 1));
                assert(lists.take(i as int).push(list.deep_view()) =~= lists.take(i as int + 1));
                assert(records.deep_values().push(list.deep_view()) =~= records.values().push(
                    list,
                ).map_values(|value: Vec<(Assignment, bool)>| value.deep_view()));
            }
            records.push(class.clone(), list);
            i += 1;
        }
        proof {
            assert(names.take(i as int) =~= names);
            assert(lists.take(i as int) =~= lists);
        }
        normalize(&records)
    }

    /// Brings a file of the second format into the shape of the store.
    pub fn parse_v2(doc: &TodoListV2) -> (parsed: TodoListParsed)
        requires
            doc.assignments.wf(),
        ensures
            parsed.wf(),
            parsed@ == normalized(doc.assignments.names(), doc.assignments.deep_values()),
    {
        normalize(&doc.assignments)
    }
}

/// The task store.
pub struct TodoList {
    uids_by_class: NameMap<Vec<u64>>,
    assignment_by_uid: HashMap<u64, Assignment>,
    completed_by_uid: HashMap<u64, bool>,
    ghost_uids: Vec<u64>,
    list_path: String,
}

impl View for TodoList {
    type V = TodoListView;

    closed spec fn view(&self) -> TodoListView {
        TodoListView {
            classes: self.uids_by_class.deep_view(),
            assignments: self.assignment_by_uid@.map_values(|task: Assignment| task@),
            completion: self.completed_by_uid@,
            ghosts: self.ghost_uids@,
            path: self.list_path@,
        }
    }
}

/// The lists of a class map stay what they are when they are seen as
/// sequences of numbers.
proof fn lemma_class_lists(classes: NameMap<Vec<u64>>)
    ensures
        classes.deep_view().dom() =~= classes@.dom(),
        forall|class: Seq<char>| #[trigger]
            classes@.contains_key(class) ==> classes.deep_view()[class] == classes@[class]@,
{
    assert forall|class: Seq<char>| #[trigger] classes@.contains_key(class) implies
        classes.deep_view()[class] == classes@[class]@ by {
        assert(classes@[class].deep_view() =~= classes@[class]@);
    }
}

impl Clone for TodoList {
    fn clone(&self) -> (r: Self)
        ensures
            self.wf() ==> r.wf() && r@ == self@,
    {
        let r = TodoList {
            uids_by_class: self.uids_by_class.clone(),
            assignment_by_uid: self.assignment_by_uid.clone(),
            completed_by_uid: self.completed_by_uid.clone(),
            ghost_uids: self.ghost_uids.clone(),
            list_path: self.list_path.clone(),
        };
        proof {
            if self.wf() {
            assert(r.uids_by_class.values().len() == self.uids_by_class.values().len());
            assert forall|i: int| 0 <= i < self.uids_by_class.values().len() implies (
            #[trigger] r.uids_by_class.values()[i])@ == self.uids_by_class.values()[i]@ by {
                let a = self.uids_by_class.values()[i];
                let b = r.uids_by_class.values()[i];
                assert(cloned::<Vec<u64>>(a, b));
                assert(a@ =~= b@);
            }
            assert(r.uids_by_class.deep_view() =~= self.uids_by_class.deep_view()) by {
                assert forall|class: Seq<char>| #[trigger]
                    self.uids_by_class@.contains_key(class) implies r.uids_by_class@[class]@
                    == self.uids_by_class@[class]@ by {
                    let k = self.uids_by_class.names().index_of(class);
                    assert(self.uids_by_class.names().contains(class));
                    assert(r.uids_by_class.values()[k]@ == self.uids_by_class.values()[k]@);
                }
                lemma_class_lists(self.uids_by_class);
                lemma_class_lists(r.uids_by_class);
            }
            assert(r.ghost_uids@ =~= self.ghost_uids@);
            }
        }
        r
    }
}

/// Whether two tables hold equal tasks under the same identifiers.
spec fn tasks_alike(a: Map<u64, Assignment>, b: Map<u64, Assignment>) -> bool {
    &&& a.dom() =~= b.dom()
    &&& forall|uid: u64| #[trigger] a.contains_key(uid) ==> a[uid]@.same_task(b[uid]@)
}

/// Compares two tables of tasks.
fn same_tasks(a: &HashMap<u64, Assignment>, b: &HashMap<u64, Assignment>) -> (r: bool)
    ensures
        r == tasks_alike(a@, b@),
{
    if a.len() != b.len() {
        return false;
    }
    let ghost keys = a.keys().remaining();
    for uid in it: a.keys()
        invariant
            it.seq() == keys,
            keys.unref().to_set() == a@.dom(),
            forall|i: int|
                0 <= i < it.index() ==> b@.contains_key(*#[trigger] keys[i])
                    && a@[*keys[i]]@.same_task(b@[*keys[i]]@),
    {
        assert(keys.unref()[it.index() as int] == *uid);
        assert(keys.unref().to_set().contains(*uid));
        assert(a@.contains_key(*uid));
        match b.get(uid) {
            Some(other) => {
                let task = a.get(uid).unwrap();
                if !(*task == *other) {
                    assert(a@[*uid] == *task && b@[*uid] == *other);
                    return false;
                }
            },
            None => {
                assert(!b@.dom().contains(*uid));
                return false;
            },
        }
    }
    proof {
        assert forall|uid: u64| #[trigger] a@.contains_key(uid) implies b@.contains_key(uid)
            && a@[uid]@.same_task(b@[uid]@) by {
            assert(keys.unref().to_set().contains(uid));
            let i = keys.unref().index_of(uid);
            assert(*keys[i] == uid);
        }
        assert(a@.dom().subset_of(b@.dom()));
        vstd::set_lib::lemma_subset_equality(a@.dom(), b@.dom());
    }
    true
}

/// Compares two tables of completion flags.
fn same_flags(a: &HashMap<u64, bool>, b: &HashMap<u64, bool>) -> (r: bool)
    ensures
        r == (a@ == b@),
{
    if a.len() != b.len() {
        return false;
    }
    let ghost keys = a.keys().remaining();
    for uid in it: a.keys()
        invariant
            it.seq() == keys,
            keys.unref().to_set() == a@.dom(),
            forall|i: int|
                0 <= i < it.index() ==> b@.contains_key(*#[trigger] keys[i]) && a@[*keys[i]]
                    == b@[*keys[i]],
    {
        assert(keys.unref()[it.index() as int] == *uid);
        assert(keys.unref().to_set().contains(*uid));
        assert(a@.contains_key(*uid));
        match b.get(uid) {
            Some(other) => {
                let flag = a.get(uid).unwrap();
                if *flag != *other {
                    assert(a@[*uid] == *flag && b@[*uid] == *other);
                    return false;
                }
            },
            None => {
                assert(!b@.dom().contains(*uid));
                return false;
            },
        }
    }
    proof {
        assert forall|uid: u64| #[trigger] a@.contains_key(uid) implies b@.contains_key(uid)
            && a@[uid] == b@[uid] by {
            assert(keys.unref().to_set().contains(uid));
            let i = keys.unref().index_of(uid);
            assert(*keys[i] == uid);
        }
        assert(a@.dom().subset_of(b@.dom()));
        vstd::set_lib::lemma_subset_equality(a@.dom(), b@.dom());
        assert(a@ =~= b@);
    }
    true
}

/// Compares two lists of identifiers.
fn same_uids(a: &Vec<u64>, b: &Vec<u64>) -> (r: bool)
    ensures
        r == (a@ == b@),
{
    if a.len() != b.len() {
        return false;
    }
    let mut i: usize = 0;
    while i < a.len()
        invariant
            i <= a.len(),
            a.len() == b.len(),
            forall|k: int| 0 <= k < i ==> a[k] == b[k],
        decreases a.len() - i,
    {
        if a[i] != b[i] {
            return false;
        }
        i += 1;
    }
    assert(a@ =~= b@);
    true
}

/// Compares two class maps: the same names in the same order, each with
/// the same identifiers in the same order.
fn same_classes(a: &NameMap<Vec<u64>>, b: &NameMap<Vec<u64>>) -> (r: bool)
    ensures
        r == (a.names() == b.names() && a.deep_values() == b.deep_values()),
{
    if !a.same_names(b) {
        return false;
    }
    if a.values_len() != b.values_len() {
        assert(a.deep_values().len() != b.deep_values().len());
        return false;
    }
    let mut i: usize = 0;
    while i < a.values_len()
        invariant
            i <= a.values().len(),
            a.values().len() == b.values().len(),
            forall|k: int| 0 <= k < i ==> a.deep_values()[k] == b.deep_values()[k],
        decreases a.values().len() - i,
    {
        proof {
            lemma_numbers(a.values()[i as int]);
            lemma_numbers(b.values()[i as int]);
        }
        if !same_uids(a.value_at(i), b.value_at(i)) {
            assert(a.deep_values()[i as int] != b.deep_values()[i as int]);
            return false;
        }
        i += 1;
    }
    assert(a.deep_values() =~= b.deep_values());
    true
}

impl TodoList {
    /// Whether two stores are held alike: the same classes with the same
    /// identifiers, equal tasks and the same flags under the same
    /// identifiers, the same ghosts, the same path.
    pub closed spec fn alike(&self, other: &TodoList) -> bool {
        &&& self.uids_by_class.names() == other.uids_by_class.names()
        &&& self.uids_by_class.deep_values() == other.uids_by_class.deep_values()
        &&& tasks_alike(self.assignment_by_uid@, other.assignment_by_uid@)
        &&& self.completed_by_uid@ == other.completed_by_uid@
        &&& self.ghost_uids@ == other.ghost_uids@
        &&& self.list_path@ == other.list_path@
    }

    /// Two well-formed stores are held alike exactly if they hold the
    /// same, but for the offsets of the due dates.
    pub proof fn lemma_alike(&self, other: &TodoList)
        requires
            self.wf(),
            other.wf(),
        ensures
            self.alike(other) <==> self@.same_as(other@),
    {
        let a = self.uids_by_class;
        let b = other.uids_by_class;
        lemma_class_lists(a);
        lemma_class_lists(b);
        if a.names() == b.names() && a.deep_values() == b.deep_values() {
            assert forall|class: Seq<char>| #[trigger] a@.contains_key(class) implies a@[class]@
                == b@[class]@ by {
                let k = a.lemma_key_place(class);
                b.lemma_entry(k);
                lemma_numbers(a.values()[k]);
                lemma_numbers(b.values()[k]);
                assert(a.deep_values()[k] == b.deep_values()[k]);
            }
            assert(self@.classes =~= other@.classes);
        }
        if self@.classes == other@.classes {
            a.lemma_dom();
            b.lemma_dom();
            lemma_ascending_same(a.names(), b.names());
            assert forall|k: int| 0 <= k < a.names().len() implies a.deep_values()[k]
                == b.deep_values()[k] by {
                a.lemma_entry(k);
                b.lemma_entry(k);
                lemma_numbers(a.values()[k]);
                lemma_numbers(b.values()[k]);
                assert(self@.classes[a.names()[k]] == a.values()[k]@);
                assert(other@.classes[b.names()[k]] == b.values()[k]@);
            }
            assert(a.deep_values() =~= b.deep_values());
        }
        let mine = self.assignment_by_uid@;
        let theirs = other.assignment_by_uid@;
        assert forall|uid: u64| mine.contains_key(uid) <==> #[trigger] self@.assignments.contains_key(
            uid,
        ) by {}
        assert forall|uid: u64| theirs.contains_key(uid)
            <==> #[trigger] other@.assignments.contains_key(uid) by {}
        if tasks_alike(mine, theirs) {
            assert(self@.assignments.dom() =~= other@.assignments.dom());
            assert forall|uid: u64| #[trigger] self@.assignments.contains_key(uid) implies
                self@.assignments[uid].same_task(other@.assignments[uid]) by {
                assert(mine.contains_key(uid));
            }
        }
        if self@.assignments.dom() =~= other@.assignments.dom() && (forall|uid: u64| #[trigger]
            self@.assignments.contains_key(uid) ==> self@.assignments[uid].same_task(
                other@.assignments[uid],
            )) {
            assert forall|uid: u64| mine.contains_key(uid) <==> theirs.contains_key(uid) by {
                assert(self@.assignments.contains_key(uid) <==> other@.assignments.contains_key(
                    uid,
                ));
            }
            assert(mine.dom() =~= theirs.dom());
            assert forall|uid: u64| #[trigger] mine.contains_key(uid) implies mine[uid]@.same_task(
                theirs[uid]@,
            ) by {
                assert(self@.assignments.contains_key(uid));
            }
        }
    }
}

impl PartialEq for TodoList {
    fn eq(&self, other: &Self) -> (r: bool) {
        same_classes(&self.uids_by_class, &other.uids_by_class) && same_tasks(
            &self.assignment_by_uid,
            &other.assignment_by_uid,
        ) && same_flags(&self.completed_by_uid, &other.completed_by_uid) && same_uids(
            &self.ghost_uids,
            &other.ghost_uids,
        ) && self.list_path == other.list_path
    }
}

impl PartialEqSpecImpl for TodoList {
    open spec fn obeys_eq_spec() -> bool {
        true
    }

    open spec fn eq_spec(&self, other: &Self) -> bool {
        self.alike(other)
    }
}

/// A map that holds, under the names of the classes, what `f` makes of each
/// class's identifiers.
proof fn lemma_derived<T: DeepView>(
    source: NameMap<Vec<u64>>,
    out: NameMap<Vec<T>>,
    f: spec_fn(Seq<u64>) -> Seq<T::V>,
)
    requires
        source.wf(),
        out.wf(),
        out.names() == source.names(),
        forall|k: int|
            0 <= k < source.names().len() ==> (#[trigger] out.values()[k]).deep_view() == f(
                source.values()[k]@,
            ),
    ensures
        out.deep_view().dom() =~= source.deep_view().dom(),
        forall|class: Seq<char>| #[trigger]
            source.deep_view().contains_key(class) ==> out.deep_view()[class] == f(
                source.deep_view()[class],
            ),
{
    lemma_class_lists(source);
    assert forall|class: Seq<char>| #[trigger]
        source.deep_view().contains_key(class) implies out.deep_view()[class] == f(
        source.deep_view()[class],
    ) by {
        let k = source.lemma_key_place(class);
        out.lemma_entry(k);
    }
}

impl TodoList {
    /// Whether the classes are held in order.
    pub closed spec fn ordered(&self) -> bool {
        self.uids_by_class.wf()
    }

    /// The invariant of the store: its classes are held in order, and
    /// what it holds is consistent.
    pub open spec fn wf(&self) -> bool {
        &&& self.ordered()
        &&& self@.valid()
    }

    /// Sets up the store that is kept at `list_path`.
    ///
    /// Without a backing file (`file` is `None`) the store is empty, and
    /// no script is heard. Otherwise the store holds what the file says,
    /// and then takes in what the generator scripts announced, in the
    /// order of `scripts`; a script that failed, or printed something
    /// other than text, is not heard. A file in neither format is refused.
    pub fn new(list_path: String, file: Option<Decoded>, scripts: &Vec<ScriptRun>) -> (r: Result<
        TodoList,
        StoreError,
    >)
        requires
            file matches Some(decoded) ==> decoded.wf(),
        ensures
            match r {
                Ok(list) => {
                    &&& list.wf()
                    &&& match file {
                        None => list@ == empty_store(list_path@),
                        Some(decoded) => {
                            &&& decoded.parsed() matches Some(parsed)
                            &&& outputs_taken(
                                loaded(parsed, list_path@),
                                list@,
                                all_heard(scripts.deep_view()),
                            )
                        },
                    }
                },
                Err(e) => {
                    &&& e == StoreError::UnrecognizedFormat
                    &&& file matches Some(decoded)
                    &&& decoded.parsed() is None
                },
            },
    {
        let decoded = match file {
            None => {
                return Ok(TodoList::empty(list_path));
            },
            Some(decoded) => decoded,
        };
        let parsed = match &decoded.v1 {
            Some(doc) => TodoList::parse_v1(doc),
            None => match &decoded.v2 {
                Some(doc) => TodoList::parse_v2(doc),
                None => {
                    return Err(StoreError::UnrecognizedFormat);
                },
            },
        };
        let mut list = TodoList::from_parsed(list_path, parsed);
        let ghost outputs = all_heard(scripts.deep_view());
        let ghost states = seq![list@];
        let mut i: usize = 0;
        while i < scripts.len()
            invariant
                list.wf(),
                i <= scripts.len(),
                outputs == all_heard(scripts.deep_view()),
                output_chain(states, outputs.take(i as int)),
                states.first() == loaded(parsed@, list_path@),
                states.last() == list@,
            decreases scripts.len() - i,
        {
            list.ingest(scripts[i].output());
            proof {
                assert(outputs[i as int] == scripts[i as int]@.heard());
                states = states.push(list@);
            }
            i += 1;
        }
        proof {
            assert(outputs.take(i as int) =~= outputs);
        }
        Ok(list)
    }

    /// A store without classes and tasks, to be kept at `list_path`.
    pub fn empty(list_path: String) -> (list: TodoList)
        ensures
            list.wf(),
            list@ == empty_store(list_path@),
    {
        let list = TodoList {
            uids_by_class: NameMap::new(),
            assignment_by_uid: HashMap::new(),
            completed_by_uid: HashMap::new(),
            ghost_uids: Vec::new(),
            list_path,
        };
        proof {
            assert(list@.classes =~= Map::<Seq<char>, Seq<u64>>::empty());
            assert(list@.assignments =~= Map::<u64, AssignmentView>::empty());
        }
        list
    }

    /// The store that a decoded file gives, to be kept at `list_path`.
    pub fn from_parsed(list_path: String, parsed: TodoListParsed) -> (list: TodoList)
        requires
            parsed.wf(),
        ensures
            list.wf(),
            list@ == loaded(parsed@, list_path@),
    {
        TodoList {
            uids_by_class: parsed.uids_by_class,
            assignment_by_uid: parsed.assignment_by_uid,
            completed_by_uid: parsed.completed_by_uid,
            ghost_uids: Vec::new(),
            list_path,
        }
    }

    /// Where the store is kept on disk.
    pub fn path(&self) -> (path: &String)
        ensures
            path@ == self@.path,
    {
        &self.list_path
    }

    /// Adds an empty class, unless there is a class of that name.
    pub fn create_class(&mut self, classname: String) -> (r: Result<(), StoreError>)
        requires
            old(self).wf(),
        ensures
            final(self).wf(),
            match r {
                Ok(_) => {
                    &&& !old(self)@.classes.contains_key(classname@)
                    &&& final(self)@ == old(self)@.with_class(classname@)
                },
                Err(e) => {
                    &&& e == StoreError::ClassExists
                    &&& old(self)@.classes.contains_key(classname@)
                    &&& final(self)@ == old(self)@
                },
            },
    {
        let ghost before = *self;
        proof {
            lemma_class_lists(self.uids_by_class);
        }
        if !self.uids_by_class.contains_key(classname.as_str()) {
            self.uids_by_class.insert(classname, Vec::new());
            proof {
                lemma_class_lists(self.uids_by_class);
                assert(self@.classes =~= before@.classes.insert(classname@, Seq::empty()));
                lemma_with_class_valid(before@, classname@);
            }
            Ok(())
        } else {
            Err(StoreError::ClassExists)
        }
    }

    /// Removes a class. Its tasks stay in the assignment table, where
    /// they keep their identifiers taken and their completion flags.
    pub fn delete_class(&mut self, classname: String) -> (r: Result<(), StoreError>)
        requires
            old(self).wf(),
        ensures
            final(self).wf(),
            match r {
                Ok(_) => {
                    &&& old(self)@.classes.contains_key(classname@)
                    &&& final(self)@ == old(self)@.without_class(classname@)
                },
                Err(e) => {
                    &&& e == StoreError::ClassNotFound
                    &&& !old(self)@.classes.contains_key(classname@)
                    &&& final(self)@ == old(self)@
                },
            },
    {
        let ghost before = *self;
        proof {
            lemma_class_lists(self.uids_by_class);
        }
        match self.uids_by_class.remove(classname.as_str()) {
            Some(_) => {
                proof {
                    lemma_class_lists(self.uids_by_class);
                    assert(self@.classes =~= before@.classes.remove(classname@));
                    lemma_without_class_valid(before@, classname@);
                }
                Ok(())
            },
            None => {
                proof {
                    assert(self.uids_by_class@ =~= before.uids_by_class@);
                    lemma_class_lists(self.uids_by_class);
                    assert(self@.classes =~= before@.classes);
                }
                Err(StoreError::ClassNotFound)
            },
        }
    }

    /// The names of the classes, in the order in which the store holds
    /// them.
    pub closed spec fn names(&self) -> Seq<Seq<char>> {
        self.uids_by_class.names()
    }

    /// A well-formed store holds its classes in ascending order of their
    /// names.
    pub proof fn lemma_names(&self)
        requires
            self.wf(),
        ensures
            self.names() == self@.class_names(),
            ascending(self.names()),
            self.names().to_set() =~= self@.classes.dom(),
    {
        self.uids_by_class.lemma_dom();
        lemma_class_lists(self.uids_by_class);
        lemma_ascending_same(self.names(), self@.class_names());
    }

    /// The place of the class of that name, if there is one.
    pub(crate) fn class_place(&self, classname: &str) -> (place: Option<usize>)
        requires
            self.wf(),
        ensures
            match place {
                Some(i) => i < self.names().len() && self.names()[i as int] == classname@
                    && self@.classes.contains_key(classname@),
                None => !self@.classes.contains_key(classname@),
            },
    {
        proof {
            lemma_class_lists(self.uids_by_class);
        }
        match self.uids_by_class.position(classname) {
            Ok(i) => {
                proof {
                    self.uids_by_class.lemma_entry(i as int);
                }
                Some(i)
            },
            Err(_) => None,
        }
    }

    /// The number of classes.
    pub(crate) fn class_count(&self) -> (n: usize)
        ensures
            n == self.names().len(),
    {
        self.uids_by_class.len()
    }

    /// The name of the class at place `i`.
    pub(crate) fn class_name(&self, i: usize) -> (name: &String)
        requires
            i < self.names().len(),
        ensures
            name@ == self.names()[i as int],
    {
        self.uids_by_class.name_at(i)
    }

    /// The identifiers of the tasks of the class at place `i`.
    pub(crate) fn class_uids(&self, i: usize) -> (uids: &Vec<u64>)
        requires
            self.wf(),
            i < self.names().len(),
        ensures
            self@.classes.contains_key(self.names()[i as int]),
            uids@ == self@.classes[self.names()[i as int]],
            forall|j: int| 0 <= j < uids.len() ==> self@.assignments.contains_key(#[trigger] uids[j]),
    {
        proof {
            self.uids_by_class.lemma_entry(i as int);
            lemma_class_lists(self.uids_by_class);
        }
        let uids = self.uids_by_class.value_at(i);
        proof {
            assert forall|j: int| 0 <= j < uids.len() implies self@.assignments.contains_key(
                #[trigger] uids[j],
            ) by {
                assert(self@.assignments.contains_key(
                    self@.classes[self.names()[i as int]][j],
                ));
            }
        }
        uids
    }

    /// The task behind an identifier that the store holds.
    pub(crate) fn task(&self, uid: u64) -> (task: &Assignment)
        requires
            self@.assignments.contains_key(uid),
        ensures
            task@ == self@.assignments[uid],
    {
        self.assignment_by_uid.get(&uid).unwrap()
    }

    /// The completion flag of a task that the store holds.
    pub(crate) fn flag(&self, uid: u64) -> (completed: bool)
        requires
            self.wf(),
            self@.assignments.contains_key(uid),
        ensures
            completed == self@.completion[uid],
    {
        *self.completed_by_uid.get(&uid).unwrap()
    }

    /// Whether the task behind `uid` came from a script.
    fn is_ghost(&self, uid: u64) -> (r: bool)
        ensures
            r == self@.ghosts.contains(uid),
    {
        let mut i: usize = 0;
        while i < self.ghost_uids.len()
            invariant
                i <= self.ghost_uids.len(),
                forall|k: int| 0 <= k < i ==> self.ghost_uids[k] != uid,
            decreases self.ghost_uids.len() - i,
        {
            if self.ghost_uids[i] == uid {
                return true;
            }
            i += 1;
        }
        false
    }

    /// Adds a task to a class, not completed, and returns its identifier.
    /// It is refused if there is no such class, or if the store holds a
    /// task with the same due instant and name, in whatever class.
    pub fn create_assignment(&mut self, classname: String, assignment: Assignment) -> (r: Result<
        u64,
        StoreError,
    >)
        requires
            old(self).wf(),
        ensures
            final(self).wf(),
            match r {
                Ok(uid) => {
                    &&& uid == spec_uid(assignment@)
                    &&& old(self)@.classes.contains_key(classname@)
                    &&& !old(self)@.assignments.contains_key(uid)
                    &&& final(self)@ == old(self)@.with_assignment(classname@, assignment@)
                },
                Err(e) => {
                    &&& final(self)@ == old(self)@
                    &&& if old(self)@.classes.contains_key(classname@) {
                        &&& e == StoreError::DuplicateAssignment
                        &&& old(self)@.assignments.contains_key(spec_uid(assignment@))
                    } else {
                        e == StoreError::ClassNotFound
                    }
                },
            },
    {
        let ghost before = *self;
        proof {
            lemma_class_lists(self.uids_by_class);
        }
        match self.uids_by_class.position(classname.as_str()) {
            Err(_) => Err(StoreError::ClassNotFound),
            Ok(i) => {
                let uid = derive_uid(&assignment);
                if self.assignment_by_uid.contains_key(&uid) {
                    Err(StoreError::DuplicateAssignment)
                } else {
                    let uids = self.uids_by_class.value_at_mut(i);
                    uids.push(uid);
                    self.assignment_by_uid.insert(uid, assignment);
                    self.completed_by_uid.insert(uid, false);
                    proof {
                        let grown = self.uids_by_class.values()[i as int];
                        before.uids_by_class.lemma_entry(i as int);
                        lemma_replaced(before.uids_by_class, self.uids_by_class, i as int, grown);
                        lemma_class_lists(self.uids_by_class);
                        let goal = before@.with_assignment(classname@, assignment@);
                        assert(self@.classes =~= goal.classes);
                        assert(self@.assignments =~= goal.assignments);
                        lemma_with_assignment_valid(before@, classname@, assignment@);
                    }
                    Ok(uid)
                }
            },
        }
    }

    /// Whether there is a class of that name.
    pub fn has_class(&self, classname: &str) -> (r: bool)
        requires
            self.wf(),
        ensures
            r == self@.classes.contains_key(classname@),
    {
        proof {
            lemma_class_lists(self.uids_by_class);
        }
        self.uids_by_class.contains_key(classname)
    }

    /// The names of all classes, in ascending order.
    pub fn get_classes(&self) -> (names: Vec<String>)
        requires
            self.wf(),
        ensures
            ascending(names.deep_view()),
            names.deep_view().to_set() =~= self@.classes.dom(),
    {
        proof {
            self.uids_by_class.lemma_dom();
            lemma_class_lists(self.uids_by_class);
        }
        self.uids_by_class.keys()
    }

    /// The tasks of a class, in the order in which the class holds them.
    pub fn get_class_assignments(&self, classname: &String) -> (r: Result<
        Vec<Assignment>,
        StoreError,
    >)
        requires
            self.wf(),
        ensures
            match r {
                Ok(tasks) => {
                    &&& self@.classes.contains_key(classname@)
                    &&& tasks.deep_view() == self@.tasks(self@.classes[classname@])
                },
                Err(e) => e == StoreError::ClassNotFound && !self@.classes.contains_key(
                    classname@,
                ),
            },
    {
        proof {
            lemma_class_lists(self.uids_by_class);
        }
        match self.uids_by_class.get(classname.as_str()) {
            None => Err(StoreError::ClassNotFound),
            Some(uids) => {
                let mut tasks: Vec<Assignment> = Vec::new();
                let mut j: usize = 0;
                proof {
                    lemma_empty(tasks);
                    assert(uids@.take(0) =~= Seq::<u64>::empty());
                    assert(self@.tasks(Seq::<u64>::empty()) =~= Seq::<AssignmentView>::empty());
                }
                while j < uids.len()
                    invariant
                        self.wf(),
                        j <= uids.len(),
                        self@.classes.contains_key(classname@),
                        self@.classes[classname@] == uids@,
                        tasks.deep_view() == self@.tasks(uids@.take(j as int)),
                    decreases uids.len() - j,
                {
                    let uid = uids[j];
                    let ghost held = tasks;
                    let task = self.task(uid).clone();
                    tasks.push(task);
                    proof {
                        lemma_pushed(held, tasks, task);
                        self@.lemma_tasks_push(uids@.take(j as int), uid);
                        assert(uids@.take(j as int).push(uid) =~= uids@.take(j as int + 1));
                    }
                    j += 1;
                }
                assert(uids@.take(j as int) =~= uids@);
                Ok(tasks)
            },
        }
    }

    /// For each class, its tasks that fall due on one of the days
    /// `start_date..=end_date` in local time. A class without such tasks
    /// has an empty list.
    pub fn get_timespan_assignments(&self, start_date: Day, end_date: Day) -> (found: NameMap<
        Vec<Assignment>,
    >)
        requires
            self.wf(),
        ensures
            found.wf(),
            found.deep_view() == self@.timespan(start_date as int, end_date as int),
    {
        self.span(start_date as i64, end_date as i64)
    }

    /// For each class, its tasks that fall due on one of the seven days
    /// from `from_date` on, in local time.
    pub fn get_week_assignments(&self, from_date: Day) -> (found: NameMap<Vec<Assignment>>)
        requires
            self.wf(),
        ensures
            found.wf(),
            found.deep_view() == self@.timespan(from_date as int, from_date + 6),
    {
        self.span(from_date as i64, from_date as i64 + 6)
    }

    /// For each class, its tasks that fall due on one of the days
    /// `start..=end` in local time.
    fn span(&self, start: i64, end: i64) -> (found: NameMap<Vec<Assignment>>)
        requires
            self.wf(),
        ensures
            found.wf(),
            found.deep_view() == self@.timespan(start as int, end as int),
    {
        let ghost start_date = start as int;
        let ghost end_date = end as int;
        let ghost names = self.uids_by_class.names();
        let mut found: NameMap<Vec<Assignment>> = NameMap::new();
        let mut i: usize = 0;
        proof {
            lemma_class_lists(self.uids_by_class);
            assert(names.take(0) =~= Seq::<Seq<char>>::empty());
        }
        while i < self.uids_by_class.len()
            invariant
                self.wf(),
                names == self.uids_by_class.names(),
                i <= names.len(),
                found.wf(),
                found.names() == names.take(i as int),
                found.values().len() == i,
                start_date == start,
                end_date == end,
                forall|k: int|
                    0 <= k < i ==> (#[trigger] found.values()[k]).deep_view() == self@.due_tasks(
                        self.uids_by_class.values()[k]@,
                        start_date,
                        end_date,
                    ),
            decreases names.len() - i,
        {
            let class = self.uids_by_class.name_at(i);
            let uids = self.uids_by_class.value_at(i);
            let mut tasks: Vec<Assignment> = Vec::new();
            let mut j: usize = 0;
            proof {
                self.uids_by_class.lemma_entry(i as int);
                lemma_class_lists(self.uids_by_class);
                lemma_empty(tasks);
                assert(uids@.take(0) =~= Seq::<u64>::empty());
                assert(self@.tasks(Seq::<u64>::empty()) =~= Seq::<AssignmentView>::empty());
                assert(self@.due_tasks(Seq::<u64>::empty(), start_date, end_date)
                    =~= Seq::<AssignmentView>::empty()) by {
                    reveal(Seq::filter);
                }
            }
            while j < uids.len()
                invariant
                    self.wf(),
                    j <= uids.len(),
                    self@.classes.contains_key(class@),
                    self@.classes[class@] == uids@,
                    start_date == start,
                    end_date == end,
                    tasks.deep_view() == self@.due_tasks(uids@.take(j as int), start_date, end_date),
                decreases uids.len() - j,
            {
                let uid = uids[j];
                let task = self.task(uid);
                proof {
                    self@.lemma_due_tasks_push(uids@.take(j as int), uid, start_date, end_date);
                    assert(uids@.take(j as int).push(uid) =~= uids@.take(j as int + 1));
                }
                if task.due_date.is_within(start, end) {
                    let ghost held = tasks;
                    let task = task.clone();
                    tasks.push(task);
                    proof {
                        lemma_pushed(held, tasks, task);
                    }
                }
                j += 1;
            }
            proof {
                assert(uids@.take(j as int) =~= uids@);
                assert forall|k: int| 0 <= k < i implies name_lt(
                    #[trigger] found.names()[k],
                    class@,
                ) by {
                    assert(found.names()[k] == names[k]);
                }
                assert(names.take(i as int).push(class@) =~= names.take(i as int + 1));
            }
            found.push(class.clone(), tasks);
            i += 1;
        }
        proof {
            assert(names.take(i as int) =~= names);
            lemma_derived(
                self.uids_by_class,
                found,
                |uids: Seq<u64>| self@.due_tasks(uids, start_date, end_date),
            );
            assert(found.deep_view() =~= self@.timespan(start_date, end_date));
        }
        found
    }

    /// What is to be written to disk, in the second format: every class,
    /// and of its tasks those that did not come from a script or are
    /// completed.
    pub fn save_to_file(&self) -> (doc: TodoListV2)
        requires
            self.wf(),
        ensures
            doc.version == 2,
            doc.assignments.wf(),
            doc.assignments.deep_view() == self@.persisted(),
    {
        let ghost names = self.uids_by_class.names();
        let mut assignments: NameMap<Vec<(Assignment, bool)>> = NameMap::new();
        let mut i: usize = 0;
        proof {
            lemma_class_lists(self.uids_by_class);
            assert(names.take(0) =~= Seq::<Seq<char>>::empty());
        }
        while i < self.uids_by_class.len()
            invariant
                self.wf(),
                names == self.uids_by_class.names(),
                i <= names.len(),
                assignments.wf(),
                assignments.names() == names.take(i as int),
                assignments.values().len() == i,
                forall|k: int|
                    0 <= k < i ==> (#[trigger] assignments.values()[k]).deep_view()
                        == self@.persistent_records(self.uids_by_class.values()[k]@),
            decreases names.len() - i,
        {
            let class = self.uids_by_class.name_at(i);
            let uids = self.uids_by_class.value_at(i);
            let mut records: Vec<(Assignment, bool)> = Vec::new();
            let mut j: usize = 0;
            proof {
                self.uids_by_class.lemma_entry(i as int);
                lemma_class_lists(self.uids_by_class);
                lemma_empty(records);
                assert(uids@.take(0) =~= Seq::<u64>::empty());
                assert(self@.persistent_records(Seq::<u64>::empty())
                    =~= Seq::<RecordView>::empty()) by {
                    reveal(Seq::filter);
                }
            }
            while j < uids.len()
                invariant
                    self.wf(),
                    j <= uids.len(),
                    self@.classes.contains_key(class@),
                    self@.classes[class@] == uids@,
                    records.deep_view() == self@.persistent_records(uids@.take(j as int)),
                decreases uids.len() - j,
            {
                let uid = uids[j];
                let task = self.task(uid);
                let completed = *self.completed_by_uid.get(&uid).unwrap();
                let is_ghost = self.is_ghost(uid);
                proof {
                    self@.lemma_persistent_records_push(uids@.take(j as int), uid);
                    assert(uids@.take(j as int).push(uid) =~= uids@.take(j as int + 1));
                }
                if !is_ghost || completed {
                    let ghost held = records;
                    let record = (task.clone(), completed);
                    records.push(record);
                    proof {
                        lemma_pushed(held, records, record);
                    }
                }
                j += 1;
            }
            proof {
                assert(uids@.take(j as int) =~= uids@);
                assert forall|k: int| 0 <= k < i implies name_lt(
                    #[trigger] assignments.names()[k],
                    class@,
                ) by {
                    assert(assignments.names()[k] == names[k]);
                }
                assert(names.take(i as int).push(class@) =~= names.take(i as int + 1));
            }
            assignments.push(class.clone(), records);
            i += 1;
        }
        proof {
            assert(names.take(i as int) =~= names);
            lemma_derived(
                self.uids_by_class,
                assignments,
                |uids: Seq<u64>| self@.persistent_records(uids),
            );
            assert(assignments.deep_view() =~= self@.persisted());
        }
        TodoListV2 { version: 2, assignments }
    }

    /// Takes in a task that a script announced for a class, and says
    /// whether the store took it. A task that the store holds already
    /// is dropped. Otherwise it is held as a ghost, not completed, and
    /// listed in the class if there is such a class.
    pub fn add_ghost(&mut self, classname: &str, assignment: Assignment) -> (added: bool)
        requires
            old(self).wf(),
        ensures
            final(self).wf(),
            final(self)@ == old(self)@.with_ghost(classname@, assignment@),
            added == !old(self)@.assignments.contains_key(spec_uid(assignment@)),
    {
        let ghost before = *self;
        let uid = derive_uid(&assignment);
        if self.assignment_by_uid.contains_key(&uid) {
            return false;
        }
        proof {
            lemma_class_lists(self.uids_by_class);
            lemma_with_ghost_valid(before@, classname@, assignment@);
        }
        self.assignment_by_uid.insert(uid, assignment);
        self.completed_by_uid.insert(uid, false);
        self.ghost_uids.push(uid);
        match self.uids_by_class.position(classname) {
            Ok(i) => {
                let uids = self.uids_by_class.value_at_mut(i);
                uids.push(uid);
                proof {
                    let grown = self.uids_by_class.values()[i as int];
                    before.uids_by_class.lemma_entry(i as int);
                    lemma_replaced(before.uids_by_class, self.uids_by_class, i as int, grown);
                    lemma_class_lists(self.uids_by_class);
                }
            },
            Err(_) => {},
        }
        proof {
            let goal = before@.with_ghost(classname@, assignment@);
            assert(self@.classes =~= goal.classes);
            assert(self@.assignments =~= goal.assignments);
        }
        true
    }

    /// Sets the completion flag of the task behind `uid`.
    pub fn set_assignment_completion(&mut self, uid: u64, completed: bool) -> (r: Result<
        (),
        StoreError,
    >)
        requires
            old(self).wf(),
        ensures
            final(self).wf(),
            match r {
                Ok(_) => {
                    &&& old(self)@.completion.contains_key(uid)
                    &&& final(self)@ == old(self)@.with_completion(uid, completed)
                },
                Err(e) => {
                    &&& e == StoreError::UnknownUid
                    &&& !old(self)@.completion.contains_key(uid)
                    &&& final(self)@ == old(self)@
                },
            },
    {
        if self.completed_by_uid.contains_key(&uid) {
            proof {
                lemma_with_completion_valid(self@, uid, completed);
            }
            self.completed_by_uid.insert(uid, completed);
            Ok(())
        } else {
            Err(StoreError::UnknownUid)
        }
    }

    /// Whether the task behind `uid` is completed.
    pub fn get_assignment_completion(&self, uid: u64) -> (r: Result<bool, StoreError>)
        requires
            self.wf(),
        ensures
            match r {
                Ok(completed) => {
                    &&& self@.completion.contains_key(uid)
                    &&& completed == self@.completion[uid]
                },
                Err(e) => e == StoreError::UnknownUid && !self@.completion.contains_key(uid),
            },
    {
        match self.completed_by_uid.get(&uid) {
            Some(completed) => Ok(*completed),
            None => Err(StoreError::UnknownUid),
        }
    }
}

} // verus!
