//! The tasks of the store laid out for reading: what falls due around a
//! day, day by day, and what is ahead in one class.

use crate::assignment::{Assignment, AssignmentView, Day};
use crate::model::TodoListView;
use crate::names::{lemma_name_lt_asymmetric, lemma_name_lt_transitive, name_lt, name_precedes};
use crate::todolist::{StoreError, TodoList};
use crate::views::{lemma_empty, lemma_pushed};
use vstd::prelude::*;

verus! {

/// A task as it is shown: with its class, its identifier and its
/// completion flag.
#[derive(Debug)]
pub struct AgendaItem {
    pub class: String,
    pub assignment: Assignment,
    pub uid: u64,
    pub completed: bool,
}

/// What an [`AgendaItem`] holds, as mathematical values.
pub struct AgendaItemView {
    pub class: Seq<char>,
    pub assignment: AssignmentView,
    pub uid: u64,
    pub completed: bool,
}

impl View for AgendaItem {
    type V = AgendaItemView;

    open spec fn view(&self) -> AgendaItemView {
        AgendaItemView {
            class: self.class@,
            assignment: self.assignment@,
            uid: self.uid,
            completed: self.completed,
        }
    }
}

impl DeepView for AgendaItem {
    type V = AgendaItemView;

    open spec fn deep_view(&self) -> AgendaItemView {
        self@
    }
}

/// How a day stands to today.
#[derive(Clone, Copy, Debug, PartialEq, Eq, Structural)]
pub enum Notice {
    Today,
    Tomorrow,
    Other,
}

/// The tasks of one day.
#[derive(Debug)]
pub struct AgendaDay {
    pub day: i64,
    pub notice: Notice,
    pub items: Vec<AgendaItem>,
}

/// What an [`AgendaDay`] holds, as mathematical values.
pub struct AgendaDayView {
    pub day: int,
    pub notice: Notice,
    pub items: Seq<AgendaItemView>,
}

impl View for AgendaDay {
    type V = AgendaDayView;

    open spec fn view(&self) -> AgendaDayView {
        AgendaDayView { day: self.day as int, notice: self.notice, items: self.items.deep_view() }
    }
}

impl DeepView for AgendaDay {
    type V = AgendaDayView;

    open spec fn deep_view(&self) -> AgendaDayView {
        self@
    }
}

/// Whether `a` is shown before `b`: the earlier due instant first, then
/// the class that comes first, then the name that comes first.
pub open spec fn item_lt(a: AgendaItemView, b: AgendaItemView) -> bool {
    if !a.assignment.due_date.same_instant(b.assignment.due_date) {
        a.assignment.due_date.before(b.assignment.due_date)
    } else if a.class != b.class {
        name_lt(a.class, b.class)
    } else {
        name_lt(a.assignment.name, b.assignment.name)
    }
}

/// Whether the items are in the order in which they are shown.
pub open spec fn in_order(items: Seq<AgendaItemView>) -> bool {
    forall|i: int, j: int|
        #![trigger items[i], items[j]]
        0 <= i < j < items.len() ==> !item_lt(items[j], items[i])
}

/// No item is shown before itself, and of two items at most one is shown
/// before the other.
pub proof fn lemma_item_lt_asymmetric(a: AgendaItemView, b: AgendaItemView)
    requires
        item_lt(a, b),
    ensures
        !item_lt(b, a),
{
    if a.assignment.due_date.same_instant(b.assignment.due_date) {
        if a.class != b.class {
            lemma_name_lt_asymmetric(a.class, b.class);
        } else {
            lemma_name_lt_asymmetric(a.assignment.name, b.assignment.name);
        }
    }
}

/// The order in which items are shown is transitive.
pub proof fn lemma_item_lt_transitive(a: AgendaItemView, b: AgendaItemView, c: AgendaItemView)
    requires
        item_lt(a, b),
        item_lt(b, c),
    ensures
        item_lt(a, c),
{
    let same_ab = a.assignment.due_date.same_instant(b.assignment.due_date);
    let same_bc = b.assignment.due_date.same_instant(c.assignment.due_date);
    if same_ab && same_bc {
        if a.class != b.class && b.class != c.class {
            lemma_name_lt_transitive(a.class, b.class, c.class);
            lemma_name_lt_asymmetric(a.class, c.class);
        } else if a.class == b.class && b.class == c.class {
            lemma_name_lt_transitive(a.assignment.name, b.assignment.name, c.assignment.name);
        } else if a.class != b.class {
            lemma_name_lt_asymmetric(a.class, b.class);
        } else {
            lemma_name_lt_asymmetric(b.class, c.class);
        }
    }
}

/// The store's record of the task behind `uid`, as an item of `class`.
pub open spec fn item_of(store: TodoListView, class: Seq<char>, uid: u64) -> AgendaItemView {
    AgendaItemView {
        class,
        assignment: store.assignments[uid],
        uid,
        completed: store.completion[uid],
    }
}

/// Of the tasks behind the given identifiers, those that fall due within
/// `start..=end`, as items of `class`, in the order of the identifiers.
pub open spec fn class_items(
    store: TodoListView,
    class: Seq<char>,
    uids: Seq<u64>,
    start: int,
    end: int,
) -> Seq<AgendaItemView> {
    uids.filter(|uid: u64| store.assignments[uid].due_date.due_within(start, end)).map_values(
        |uid: u64| item_of(store, class, uid),
    )
}

/// The items of each of the given classes, class after class.
pub open spec fn items_of_classes(
    store: TodoListView,
    names: Seq<Seq<char>>,
    start: int,
    end: int,
) -> Seq<AgendaItemView> {
    names.map_values(
        |class: Seq<char>| class_items(store, class, store.classes[class], start, end),
    ).flatten()
}

/// All tasks of the store that fall due within `start..=end`, as items,
/// class after class.
pub open spec fn items_due(store: TodoListView, start: int, end: int) -> Seq<AgendaItemView> {
    items_of_classes(store, store.class_names(), start, end)
}

/// Whether `shown` is `items` put in the order in which items are shown.
pub open spec fn arranged(shown: Seq<AgendaItemView>, items: Seq<AgendaItemView>) -> bool {
    in_order(shown) && shown.to_multiset() == items.to_multiset()
}

/// How `day` stands to `today`.
pub open spec fn notice_for(day: int, today: int) -> Notice {
    if day == today {
        Notice::Today
    } else if day - 1 == today {
        Notice::Tomorrow
    } else {
        Notice::Other
    }
}

/// The days from three days before `today` to ten days after it.
pub open spec fn window(today: int) -> Seq<int> {
    Seq::new(14, |i: int| today - 3 + i)
}

/// Of the days of the window those on which a task of the store falls
/// due, in order.
pub open spec fn busy_days(store: TodoListView, today: int) -> Seq<int> {
    window(today).filter(|day: int| items_due(store, day, day).len() > 0)
}

/// Whether `days` is the agenda of the store around `today`: one entry
/// for each busy day of the window, in order, with the tasks of that day
/// in the order in which they are shown.
pub open spec fn is_agenda(store: TodoListView, today: int, days: Seq<AgendaDayView>) -> bool {
    &&& days.len() == busy_days(store, today).len()
    &&& forall|k: int|
        0 <= k < days.len() ==> {
            let shown = #[trigger] days[k];
            &&& shown.day == busy_days(store, today)[k]
            &&& shown.notice == notice_for(shown.day, today)
            &&& arranged(shown.items, items_due(store, shown.day, shown.day))
        }
}

/// Whether `a` is shown before `b`.
pub fn item_precedes(a: &AgendaItem, b: &AgendaItem) -> (r: bool)
    ensures
        r == item_lt(a@, b@),
{
    if !a.assignment.due_date.is_same_instant(&b.assignment.due_date) {
        a.assignment.due_date.is_before(&b.assignment.due_date)
    } else if !(a.class == b.class) {
        name_precedes(a.class.as_str(), b.class.as_str())
    } else {
        name_precedes(a.assignment.name.as_str(), b.assignment.name.as_str())
    }
}

/// Of the items of a class those behind some identifiers and one more.
pub proof fn lemma_class_items_push(
    store: TodoListView,
    class: Seq<char>,
    uids: Seq<u64>,
    uid: u64,
    start: int,
    end: int,
)
    ensures
        class_items(store, class, uids.push(uid), start, end)
            == if store.assignments[uid].due_date.due_within(start, end) {
            class_items(store, class, uids, start, end).push(item_of(store, class, uid))
        } else {
            class_items(store, class, uids, start, end)
        },
{
    let due = |uid: u64| store.assignments[uid].due_date.due_within(start, end);
    uids.lemma_filter_push(uid, due);
    if due(uid) {
        assert(uids.filter(due).push(uid).map_values(|uid: u64| item_of(store, class, uid))
            =~= class_items(store, class, uids, start, end).push(item_of(store, class, uid)));
    }
}

/// The items of some classes and one more class.
pub proof fn lemma_items_of_classes_push(
    store: TodoListView,
    names: Seq<Seq<char>>,
    class: Seq<char>,
    start: int,
    end: int,
)
    ensures
        items_of_classes(store, names.push(class), start, end) == items_of_classes(
            store,
            names,
            start,
            end,
        ) + class_items(store, class, store.classes[class], start, end),
{
    let each = |class: Seq<char>| class_items(store, class, store.classes[class], start, end);
    assert(names.push(class).map_values(each) =~= names.map_values(each).push(each(class)));
    names.map_values(each).lemma_flatten_push(each(class));
}

/// Puts an item into a list that is in order, at its place.
fn insert_item(items: &mut Vec<AgendaItem>, item: AgendaItem)
    requires
        in_order(old(items).deep_view()),
    ensures
        in_order(final(items).deep_view()),
        final(items).deep_view().to_multiset() == old(items).deep_view().to_multiset().insert(
            item@,
        ),
{
    let ghost before = items.deep_view();
    let mut at: usize = 0;
    while at < items.len() && !item_precedes(&item, &items[at])
        invariant
            at <= items.len(),
            items.deep_view() == before,
            forall|k: int| 0 <= k < at ==> !item_lt(item@, #[trigger] before[k]),
        decreases items.len() - at,
    {
        assert(before[at as int] == items[at as int]@);
        at += 1;
    }
    proof {
        if at < items.len() {
            assert(before[at as int] == items[at as int]@);
        }
    }
    let ghost held = *items;
    items.insert(at, item);
    proof {
        let after = items.deep_view();
        assert(after =~= before.insert(at as int, item@));
        assert forall|i: int, j: int| 0 <= i < j < after.len() implies !item_lt(
            after[j],
            after[i],
        ) by {
            let i0 = if i < at { i } else { i - 1 };
            let j0 = if j < at { j } else { j - 1 };
            if i != at && j != at {
                assert(after[i] == before[i0] && after[j] == before[j0]);
            } else if j == at {
                assert(after[i] == before[i0]);
            } else {
                // `i` is the new item, `j` comes behind it.
                assert(after[j] == before[j0]);
                if item_lt(before[j0], item@) {
                    lemma_item_lt_transitive(before[j0], item@, before[at as int]);
                    if j0 == at {
                        lemma_item_lt_asymmetric(before[j0], item@);
                    }
                }
            }
        }
        assert(after.remove(at as int) =~= before);
        vstd::seq_lib::to_multiset_remove(after, at as int);
        after.to_multiset_ensures();
        assert(after.contains(item@)) by {
            assert(after[at as int] == item@);
        }
        assert(after.to_multiset() =~= before.to_multiset().insert(item@));
    }
}

impl TodoList {
    /// Puts the tasks of the class at place `i` that fall due within
    /// `start..=end` into a list that is in order.
    fn add_class_items(&self, items: &mut Vec<AgendaItem>, i: usize, start: i64, end: i64)
        requires
            self.wf(),
            i < self.names().len(),
            in_order(old(items).deep_view()),
        ensures
            in_order(final(items).deep_view()),
            final(items).deep_view().to_multiset() == old(items).deep_view().to_multiset().add(
                class_items(
                    self@,
                    self.names()[i as int],
                    self@.classes[self.names()[i as int]],
                    start as int,
                    end as int,
                ).to_multiset(),
            ),
    {
        let class = self.class_name(i);
        let uids = self.class_uids(i);
        let ghost before = items.deep_view().to_multiset();
        let mut j: usize = 0;
        proof {
            assert(uids@.take(0) =~= Seq::<u64>::empty());
            assert(class_items(self@, class@, Seq::<u64>::empty(), start as int, end as int)
                =~= Seq::<AgendaItemView>::empty()) by {
                reveal(Seq::filter);
            }
            Seq::<AgendaItemView>::empty().to_multiset_ensures();
            assert(before.add(Seq::<AgendaItemView>::empty().to_multiset()) =~= before);
        }
        while j < uids.len()
            invariant
                self.wf(),
                j <= uids.len(),
                class@ == self.names()[i as int],
                uids@ == self@.classes[class@],
                forall|k: int|
                    0 <= k < uids.len() ==> self@.assignments.contains_key(#[trigger] uids[k]),
                in_order(items.deep_view()),
                items.deep_view().to_multiset() == before.add(
                    class_items(
                        self@,
                        class@,
                        uids@.take(j as int),
                        start as int,
                        end as int,
                    ).to_multiset(),
                ),
            decreases uids.len() - j,
        {
            let uid = uids[j];
            let task = self.task(uid);
            proof {
                let so_far = class_items(
                    self@,
                    class@,
                    uids@.take(j as int),
                    start as int,
                    end as int,
                );
                lemma_class_items_push(
                    self@,
                    class@,
                    uids@.take(j as int),
                    uid,
                    start as int,
                    end as int,
                );
                assert(uids@.take(j as int).push(uid) =~= uids@.take(j as int + 1));
                vstd::seq_lib::to_multiset_build(so_far, item_of(self@, class@, uid));
                assert(before.add(so_far.to_multiset()).insert(item_of(self@, class@, uid))
                    =~= before.add(so_far.to_multiset().insert(item_of(self@, class@, uid))));
            }
            if task.due_date.is_within(start, end) {
                let item = AgendaItem {
                    class: class.clone(),
                    assignment: task.clone(),
                    uid,
                    completed: self.flag(uid),
                };
                insert_item(items, item);
            }
            j += 1;
        }
        proof {
            assert(uids@.take(j as int) =~= uids@);
        }
    }

    /// All tasks that fall due within `start..=end`, in the order in
    /// which they are shown.
    pub fn items_within(&self, start: i64, end: i64) -> (items: Vec<AgendaItem>)
        requires
            self.wf(),
        ensures
            arranged(items.deep_view(), items_due(self@, start as int, end as int)),
    {
        let mut items: Vec<AgendaItem> = Vec::new();
        let mut i: usize = 0;
        proof {
            lemma_empty(items);
            self.lemma_names();
            assert(self.names().take(0) =~= Seq::<Seq<char>>::empty());
            assert(items_of_classes(
                self@,
                Seq::<Seq<char>>::empty(),
                start as int,
                end as int,
            ) =~= Seq::<AgendaItemView>::empty());
        }
        while i < self.class_count()
            invariant
                self.wf(),
                i <= self.names().len(),
                in_order(items.deep_view()),
                items.deep_view().to_multiset() == items_of_classes(
                    self@,
                    self.names().take(i as int),
                    start as int,
                    end as int,
                ).to_multiset(),
            decreases self.names().len() - i,
        {
            proof {
                let done = self.names().take(i as int);
                let class = self.names()[i as int];
                lemma_items_of_classes_push(self@, done, class, start as int, end as int);
                assert(done.push(class) =~= self.names().take(i as int + 1));
                vstd::seq_lib::lemma_multiset_commutative(
                    items_of_classes(self@, done, start as int, end as int),
                    class_items(self@, class, self@.classes[class], start as int, end as int),
                );
            }
            self.add_class_items(&mut items, i, start, end);
            i += 1;
        }
        proof {
            assert(self.names().take(i as int) =~= self.names());
        }
        items
    }

    /// The tasks of a class that fall due from three days before `today`
    /// on, in the order in which they are shown.
    pub fn upcoming(&self, classname: &str, today: Day) -> (r: Result<Vec<AgendaItem>, StoreError>)
        requires
            self.wf(),
        ensures
            match r {
                Ok(items) => {
                    &&& self@.classes.contains_key(classname@)
                    &&& arranged(
                        items.deep_view(),
                        class_items(
                            self@,
                            classname@,
                            self@.classes[classname@],
                            today - 3,
                            i64::MAX as int,
                        ),
                    )
                },
                Err(e) => e == StoreError::ClassNotFound && !self@.classes.contains_key(
                    classname@,
                ),
            },
    {
        match self.class_place(classname) {
            None => Err(StoreError::ClassNotFound),
            Some(i) => {
                let mut items: Vec<AgendaItem> = Vec::new();
                proof {
                    lemma_empty(items);
                    Seq::<AgendaItemView>::empty().to_multiset_ensures();
                    let found = class_items(
                        self@,
                        classname@,
                        self@.classes[classname@],
                        today - 3,
                        i64::MAX as int,
                    );
                    assert(Seq::<AgendaItemView>::empty().to_multiset().add(found.to_multiset())
                        =~= found.to_multiset());
                }
                self.add_class_items(&mut items, i, today as i64 - 3, i64::MAX);
                Ok(items)
            },
        }
    }

    /// The agenda around `today`: for each day from three days before to
    /// ten days after on which a task falls due, the tasks of that day
    /// in the order in which they are shown.
    pub fn agenda(&self, today: Day) -> (days: Vec<AgendaDay>)
        requires
            self.wf(),
        ensures
            is_agenda(self@, today as int, days.deep_view()),
    {
        let ghost all = window(today as int);
        let ghost busy = |day: int| items_due(self@, day, day).len() > 0;
        let mut days: Vec<AgendaDay> = Vec::new();
        let mut n: i64 = 0;
        proof {
            lemma_empty(days);
            assert(all.take(0) =~= Seq::<int>::empty());
            assert(all.take(0).filter(busy) =~= Seq::<int>::empty()) by {
                reveal(Seq::filter);
            }
        }
        while n < 14
            invariant
                self.wf(),
                0 <= n <= 14,
                all == window(today as int),
                busy == |day: int| items_due(self@, day, day).len() > 0,
                days.deep_view().len() == all.take(n as int).filter(busy).len(),
                forall|k: int|
                    0 <= k < days.len() ==> {
                        let shown = #[trigger] days.deep_view()[k];
                        &&& shown.day == all.take(n as int).filter(busy)[k]
                        &&& shown.notice == notice_for(shown.day, today as int)
                        &&& arranged(shown.items, items_due(self@, shown.day, shown.day))
                    },
            decreases 14 - n,
        {
            let day: i64 = today as i64 - 3 + n;
            let items = self.items_within(day, day);
            proof {
                assert(all[n as int] == day);
                assert(all.take(n as int).push(day as int) =~= all.take(n as int + 1));
                all.take(n as int).lemma_filter_push(day as int, busy);
                items.deep_view().to_multiset_ensures();
                items_due(self@, day as int, day as int).to_multiset_ensures();
            }
            if items.len() > 0 {
                let notice = if day == today as i64 {
                    Notice::Today
                } else if day - 1 == today as i64 {
                    Notice::Tomorrow
                } else {
                    Notice::Other
                };
                let ghost held = days;
                let shown = AgendaDay { day, notice, items };
                days.push(shown);
                proof {
                    lemma_pushed(held, days, shown);
                }
            }
            n += 1;
        }
        proof {
            assert(all.take(n as int) =~= all);
        }
        days
    }
}

} // verus!
