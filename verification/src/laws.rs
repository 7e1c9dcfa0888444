//! What holds of the store as a whole, beyond what each operation says of
//! itself.

use crate::assignment::{spec_uid, Assignment, AssignmentView, Timestamp};
use crate::due::lemma_falls_on_day;
use crate::script::{lemma_outputs_grow, outputs_taken, AnnouncementView};
use crate::model::{
    lemma_flatten_members, lemma_normalized_valid, lemma_record_table, listed, loaded,
    normalized, record_table, uids_of, upgraded_lists, TodoListView,
};
use crate::name_map::{lemma_ascending_distinct, NameMap};
use crate::todolist::{Decoded, TodoListV1, TodoListV2};
use vstd::prelude::*;

verus! {

/// The identifier of a task depends on its due instant and its name, and
/// on nothing else: two tasks that agree in both have the same identifier.
pub proof fn law_identity(a: AssignmentView, b: AssignmentView)
    requires
        a.same_task(b),
    ensures
        spec_uid(a) == spec_uid(b),
{
}

/// Of the identifiers of a class those that persist are identifiers of
/// tasks that the store holds, and each is the identifier of its task.
proof fn lemma_persistent_uids(store: TodoListView, class: Seq<char>)
    requires
        store.valid(),
        store.classes.contains_key(class),
    ensures
        forall|j: int|
            0 <= j < store.persistent_uids(store.classes[class]).len() ==> {
                let uid = #[trigger] store.persistent_uids(store.classes[class])[j];
                &&& store.assignments.contains_key(uid)
                &&& spec_uid(store.assignments[uid]) == uid
                &&& store.persists(uid)
            },
        uids_of(store.persistent_records(store.classes[class])) == store.persistent_uids(
            store.classes[class],
        ),
{
    let uids = store.classes[class];
    let kept = store.persistent_uids(uids);
    assert forall|j: int| 0 <= j < kept.len() implies {
        let uid = #[trigger] kept[j];
        &&& store.assignments.contains_key(uid)
        &&& spec_uid(store.assignments[uid]) == uid
        &&& store.persists(uid)
    } by {
        let uid = kept[j];
        assert(kept.contains(uid));
        uids.lemma_filter_contains_rev(|uid: u64| store.persists(uid), uid);
        let at = uids.index_of(uid);
        assert(store.assignments.contains_key(store.classes[class][at]));
        uids.lemma_filter_pred(|uid: u64| store.persists(uid), j);
    }
    assert(uids_of(store.persistent_records(uids)) =~= kept);
}

/// Saving a store and loading what was saved gives back the classes with
/// their persistent tasks in order, and each of these tasks as it was,
/// with its completion flag. Tasks that no class lists, and tasks from
/// scripts that are not completed, are gone.
pub proof fn law_round_trip(store: TodoListView, doc: NameMap<Vec<(Assignment, bool)>>)
    requires
        store.valid(),
        doc.wf(),
        doc.deep_view() == store.persisted(),
    ensures
        ({
            let parsed = normalized(doc.names(), doc.deep_values());
            &&& parsed.classes == store.persistent_classes()
            &&& parsed.assignments == store.assignments.restrict(listed(parsed.classes))
            &&& parsed.completion == store.completion.restrict(listed(parsed.classes))
        }),
{
    let names = doc.names();
    let lists = doc.deep_values();
    let parsed = normalized(names, lists);
    let flat = lists.flatten();
    let table = record_table(flat);
    // Each list of the file is what is written of the class at its place.
    assert forall|k: int| 0 <= k < names.len() implies store.classes.contains_key(
        #[trigger] names[k],
    ) && lists[k] == store.persistent_records(store.classes[names[k]]) by {
        doc.lemma_entry(k);
        assert(doc@.contains_key(names[k]));
        assert(doc.deep_view().contains_key(names[k]));
        assert(doc.deep_view()[names[k]] == doc.values()[k].deep_view());
        assert(lists[k] == doc.values()[k].deep_view());
        assert(store.persisted().contains_key(names[k]));
    }
    assert forall|class: Seq<char>| store.classes.contains_key(class) implies names.contains(
        class,
    ) by {
        assert(store.persisted().contains_key(class));
        assert(doc.deep_view().contains_key(class));
    }
    assert forall|class: Seq<char>| names.contains(class) implies store.classes.contains_key(
        class,
    ) && #[trigger] parsed.classes[class] == store.persistent_uids(store.classes[class]) by {
        let k = names.index_of(class);
        assert(names[k] == class);
        lemma_persistent_uids(store, class);
    }
    assert(parsed.classes =~= store.persistent_classes());
    lemma_record_table(flat);
    lemma_flatten_members(lists);
    // What the table holds under an identifier is the record of that
    // identifier in the store.
    assert forall|uid: u64| #[trigger] table.contains_key(uid) implies listed(
        parsed.classes,
    ).contains(uid) && store.assignments.contains_key(uid) && table[uid] == store.record(
        uid,
    ) by {
        let record = table[uid];
        assert(flat.contains(record));
        let k = choose|k: int| 0 <= k < lists.len() && (#[trigger] lists[k]).contains(record);
        let j = lists[k].index_of(record);
        let class = names[k];
        assert(names.contains(class));
        lemma_persistent_uids(store, class);
        let kept = store.persistent_uids(store.classes[class]);
        assert(lists[k][j] == store.record(kept[j]));
        assert(kept[j] == uid);
        assert(parsed.classes[class][j] == uid);
    }
    assert forall|uid: u64|
        listed(parsed.classes).contains(uid) implies #[trigger] table.contains_key(uid) by {
        let (class, i) = choose|class: Seq<char>, i: int|
            parsed.classes.contains_key(class) && 0 <= i < parsed.classes[class].len()
                && #[trigger] parsed.classes[class][i] == uid;
        let k = names.index_of(class);
        assert(names.contains(class));
        assert(names[k] == class);
        assert(parsed.classes[class] == uids_of(lists[k]));
        let record = lists[k][i];
        assert(flat.contains(record));
        let at = flat.index_of(record);
        assert(table.contains_key(spec_uid(flat[at].0)));
    }
    assert(parsed.assignments =~= store.assignments.restrict(listed(parsed.classes)));
    assert(parsed.completion =~= store.completion.restrict(listed(parsed.classes)));
}

/// Setting the completion flag of a task, and setting it back or to
/// anything else, touches neither the task nor its identifier nor the
/// classes: only the flag is what was set last.
pub proof fn law_completion_independent(
    store: TodoListView,
    uid: u64,
    first: bool,
    second: bool,
)
    requires
        store.valid(),
        store.completion.contains_key(uid),
    ensures
        ({
            let after = store.with_completion(uid, first).with_completion(uid, second);
            &&& after == store.with_completion(uid, second)
            &&& after.valid()
            &&& after.classes == store.classes
            &&& after.assignments == store.assignments
            &&& after.ghosts == store.ghosts
            &&& after.assignments.contains_key(uid)
            &&& spec_uid(after.assignments[uid]) == uid
        }),
{
    let after = store.with_completion(uid, first).with_completion(uid, second);
    assert(after.completion =~= store.completion.insert(uid, second));
    crate::model::lemma_with_completion_valid(store, uid, second);
}

/// What is written of a class that has only grown by ghosts that are not
/// completed is what was written of it before.
proof fn lemma_grown_class_persists_alike(
    store: TodoListView,
    later: TodoListView,
    uids: Seq<u64>,
    grown: Seq<u64>,
)
    requires
        uids.is_prefix_of(grown),
        forall|i: int| 0 <= i < uids.len() ==> store.assignments.contains_key(#[trigger] uids[i]),
        forall|i: int| uids.len() <= i < grown.len() ==> !later.persists(#[trigger] grown[i]),
        forall|uid: u64| #[trigger]
            store.assignments.contains_key(uid) ==> later.persists(uid) == store.persists(uid)
                && later.record(uid) == store.record(uid),
    ensures
        later.persistent_records(grown) == store.persistent_records(uids),
    decreases grown.len(),
{
    if grown.len() == 0 {
        assert(uids =~= grown);
    } else {
        let front = grown.drop_last();
        let last = grown.last();
        assert(front.push(last) =~= grown);
        later.lemma_persistent_records_push(front, last);
        if grown.len() > uids.len() {
            lemma_grown_class_persists_alike(store, later, uids, front);
        } else {
            assert(uids =~= grown);
            let before = uids.drop_last();
            assert(before.push(last) =~= uids);
            store.lemma_persistent_records_push(before, last);
            assert(store.assignments.contains_key(uids[uids.len() - 1]));
            lemma_grown_class_persists_alike(store, later, before, front);
        }
    }
}

/// Tasks from scripts that nobody completed leave no trace on disk: a
/// store that has only grown by ghosts writes what it wrote before.
pub proof fn law_untouched_ghosts_vanish(store: TodoListView, later: TodoListView)
    requires
        store.valid(),
        later.valid(),
        store.grown_by_ghosts(later),
    ensures
        later.persisted() == store.persisted(),
{
    assert forall|uid: u64| #[trigger] store.assignments.contains_key(uid) implies later.persists(
        uid,
    ) == store.persists(uid) && later.record(uid) == store.record(uid) by {
        if store.ghosts.contains(uid) {
            let at = store.ghosts.index_of(uid);
            assert(later.ghosts[at] == uid);
        }
        if later.ghosts.contains(uid) {
            let at = later.ghosts.index_of(uid);
            if at >= store.ghosts.len() {
                assert(!store.assignments.contains_key(later.ghosts[at]));
            } else {
                assert(store.ghosts[at] == uid);
            }
        }
    }
    assert forall|class: Seq<char>| #[trigger] store.classes.contains_key(class) implies
        later.persistent_records(later.classes[class]) == store.persistent_records(
        store.classes[class],
    ) by {
        let uids = store.classes[class];
        let grown = later.classes[class];
        assert(later.classes.contains_key(class));
        assert forall|i: int| uids.len() <= i < grown.len() implies !later.persists(
            #[trigger] grown[i],
        ) by {
            assert(!store.assignments.contains_key(later.classes[class][i]));
            assert(later.assignments.contains_key(later.classes[class][i]));
        }
        assert forall|i: int| 0 <= i < uids.len() implies store.assignments.contains_key(
            #[trigger] uids[i],
        ) by {
            assert(store.assignments.contains_key(store.classes[class][i]));
        }
        lemma_grown_class_persists_alike(store, later, uids, grown);
    }
    assert(later.persisted() =~= store.persisted());
}

/// Whatever scripts print, the store stays consistent and only grows by
/// ghosts, and what it would write stays what it was.
pub proof fn law_scripts_only_add_ghosts(
    before: TodoListView,
    after: TodoListView,
    outputs: Seq<Seq<char>>,
)
    requires
        before.valid(),
        outputs_taken(before, after, outputs),
    ensures
        after.valid(),
        before.grown_by_ghosts(after),
        after.persisted() == before.persisted(),
{
    lemma_outputs_grow(before, after, outputs);
    law_untouched_ghosts_vanish(before, after);
}

/// Loading a store, hearing scripts, saving, and loading what was saved
/// gives what the first file said, as long as nobody touched the store
/// in between: the ghosts are gone, and come back the same when the
/// scripts speak again.
pub proof fn law_reload(
    first: NameMap<Vec<(Assignment, bool)>>,
    path: Seq<char>,
    later: TodoListView,
    second: NameMap<Vec<(Assignment, bool)>>,
)
    requires
        first.wf(),
        later.valid(),
        loaded(normalized(first.names(), first.deep_values()), path).grown_by_ghosts(later),
        second.wf(),
        second.deep_view() == later.persisted(),
    ensures
        normalized(second.names(), second.deep_values()) == normalized(
            first.names(),
            first.deep_values(),
        ),
{
    let names = first.names();
    let lists = first.deep_values();
    let parsed = normalized(names, lists);
    let store = loaded(parsed, path);
    let again = normalized(second.names(), second.deep_values());
    lemma_normalized_valid(names, lists, path);
    law_untouched_ghosts_vanish(store, later);
    law_round_trip(store, second);
    // Without ghosts every task persists.
    assert forall|class: Seq<char>| #[trigger] store.classes.contains_key(class) implies
        store.persistent_uids(store.classes[class]) == store.classes[class] by {
        lemma_filter_all(store.classes[class], |uid: u64| store.persists(uid));
    }
    assert(again.classes =~= parsed.classes);
    // Every task of the file stands in one of its lists.
    lemma_record_table(lists.flatten());
    lemma_flatten_members(lists);
    lemma_ascending_distinct(names);
    assert forall|uid: u64| #[trigger] parsed.assignments.contains_key(uid) implies listed(
        parsed.classes,
    ).contains(uid) by {
        let record = record_table(lists.flatten())[uid];
        assert(lists.flatten().contains(record));
        let k = choose|k: int| 0 <= k < lists.len() && (#[trigger] lists[k]).contains(record);
        let j = lists[k].index_of(record);
        assert(names.contains(names[k]));
        assert(parsed.classes[names[k]][j] == uid);
    }
    assert(again.assignments =~= parsed.assignments);
    assert(again.completion =~= parsed.completion);
}

/// A filter that every item passes keeps the sequence as it is.
proof fn lemma_filter_all<A>(s: Seq<A>, pred: spec_fn(A) -> bool)
    requires
        forall|i: int| 0 <= i < s.len() ==> pred(#[trigger] s[i]),
    ensures
        s.filter(pred) == s,
    decreases s.len(),
{
    reveal(Seq::filter);
    if s.len() > 0 {
        lemma_filter_all(s.drop_last(), pred);
        assert(s.drop_last().push(s.last()) =~= s);
    }
}

/// Two files of the two formats that say the same give the same store:
/// the same classes, each with the same tasks in the same order, and the
/// same completion flags.
pub proof fn law_formats_agree(v1: TodoListV1, v2: TodoListV2)
    requires
        v1.wf(),
        v2.assignments.wf(),
        same_content(v1, v2),
    ensures
        (Decoded { v1: Some(v1), v2: None }).parsed() == (Decoded {
            v1: None,
            v2: Some(v2),
        }).parsed(),
{
    let lists = v2.assignments.deep_values();
    let from_first = upgraded_lists(v1.deep_values());
    assert(from_first.len() == lists.len());
    assert forall|k: int| 0 <= k < lists.len() implies from_first[k] == lists[k] by {
        assert(from_first[k] =~= lists[k]);
    }
    assert(from_first =~= lists);
}

/// Whether a file of the first format and one of the second say the
/// same: the same classes, and in each class the same tasks in the same
/// order, with the same completion flags.
pub open spec fn same_content(v1: TodoListV1, v2: TodoListV2) -> bool {
    &&& v1.names() == v2.assignments.names()
    &&& forall|k: int|
        0 <= k < v1.names().len() ==> {
            &&& (#[trigger] v1.deep_values()[k]).len() == v2.assignments.deep_values()[k].len()
            &&& forall|j: int|
                0 <= j < v1.deep_values()[k].len() ==> {
                    let old = #[trigger] v1.deep_values()[k][j];
                    let new = v2.assignments.deep_values()[k][j];
                    &&& new.0.due_date == old.due_date
                    &&& new.0.name == old.name
                    &&& new.1 == old.completed
                }
        }
}

/// A task that a script announces for a time of a day falls due on that
/// day, whatever the time zone.
pub proof fn law_announced_day(a: AnnouncementView, due: Timestamp)
    requires
        a.falls_on(due),
        a.seconds < 86_400,
    ensures
        a.task(due).due_date.local_day() == a.day,
        a.task(due).due_date.due_within(a.day as int, a.day as int),
{
    lemma_falls_on_day(due, a.day, a.seconds);
}

/// A task that scripts announce twice is taken in once.
pub proof fn law_ghost_once(store: TodoListView, class: Seq<char>, task: AssignmentView)
    ensures
        store.with_ghost(class, task).with_ghost(class, task) == store.with_ghost(class, task),
{
}

} // verus!
