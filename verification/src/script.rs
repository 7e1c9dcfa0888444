//! What generator scripts announce: each line of a script's output names a
//! class, a task, a date and a time of day, and the store takes the task
//! in as a ghost.

use crate::assignment::{spec_uid, Assignment, AssignmentView, Day, Timestamp};
use crate::calendar::{date_of_text, parse_date, parse_time, time_of_text};
use crate::due::{due_at, falls_on, DueError};
use crate::model::{
    lemma_grown_reflexive, lemma_grown_transitive, lemma_with_ghost_grows, lemma_with_ghost_valid,
    TodoListView,
};
use crate::text::{fields, fields_of, lines, lines_of, read_text, text_of};
use crate::todolist::TodoList;
use vstd::prelude::*;
use vstd::string::*;

verus! {

/// How the run of a generator script ended: whether it ran to a
/// successful end, and what it printed.
#[derive(Debug)]
pub struct ScriptRun {
    pub succeeded: bool,
    pub stdout: Vec<u8>,
}

/// What a [`ScriptRun`] holds, as mathematical values.
pub struct ScriptRunView {
    pub succeeded: bool,
    pub stdout: Seq<u8>,
}

impl View for ScriptRun {
    type V = ScriptRunView;

    open spec fn view(&self) -> ScriptRunView {
        ScriptRunView { succeeded: self.succeeded, stdout: self.stdout@ }
    }
}

impl DeepView for ScriptRun {
    type V = ScriptRunView;

    open spec fn deep_view(&self) -> ScriptRunView {
        self@
    }
}

impl ScriptRunView {
    /// What the store hears of the run: what it printed, if it succeeded
    /// and printed text, and nothing otherwise.
    pub open spec fn heard(self) -> Seq<char> {
        match text_of(self.stdout) {
            Some(text) if self.succeeded => text,
            _ => Seq::empty(),
        }
    }
}

/// What the store hears of each run, in order.
pub open spec fn all_heard(runs: Seq<ScriptRunView>) -> Seq<Seq<char>> {
    runs.map_values(|run: ScriptRunView| run.heard())
}

impl ScriptRun {
    /// What the store hears of the run.
    pub fn output(&self) -> (text: &str)
        ensures
            text@ == self@.heard(),
    {
        proof {
            reveal_strlit("");
            assert(""@ =~= Seq::<char>::empty());
        }
        if !self.succeeded {
            return "";
        }
        match read_text(self.stdout.as_slice()) {
            Some(text) => text,
            None => "",
        }
    }
}

/// A task as a script announces it: due on a calendar day at a second of
/// that day, in local time.
#[derive(Debug)]
pub struct Announcement {
    pub class: String,
    pub name: String,
    pub day: Day,
    pub seconds: u32,
}

/// What an [`Announcement`] holds, as mathematical values.
pub struct AnnouncementView {
    pub class: Seq<char>,
    pub name: Seq<char>,
    pub day: Day,
    pub seconds: u32,
}

impl View for Announcement {
    type V = AnnouncementView;

    open spec fn view(&self) -> AnnouncementView {
        AnnouncementView {
            class: self.class@,
            name: self.name@,
            day: self.day,
            seconds: self.seconds,
        }
    }
}

impl DeepView for Announcement {
    type V = AnnouncementView;

    open spec fn deep_view(&self) -> AnnouncementView {
        self@
    }
}

impl AnnouncementView {
    /// Whether `due` is the announced local time.
    pub open spec fn falls_on(self, due: Timestamp) -> bool {
        falls_on(due, self.day, self.seconds)
    }

    /// The announced task, due at `due`.
    pub open spec fn task(self, due: Timestamp) -> AssignmentView {
        AssignmentView { due_date: due, name: self.name }
    }
}

/// What is announced once the date and the time have been read: nothing
/// unless both were read.
pub open spec fn announced(
    class: Seq<char>,
    name: Seq<char>,
    day: Option<Day>,
    seconds: Option<u32>,
) -> Option<AnnouncementView> {
    match (day, seconds) {
        (Some(day), Some(seconds)) => Some(AnnouncementView { class, name, day, seconds }),
        _ => None,
    }
}

/// What a line announces: it must have exactly four fields, the class, the
/// name, a date and a time of day.
pub open spec fn announcement_of(line: Seq<char>) -> Option<AnnouncementView> {
    let fields = fields_of(line);
    if fields.len() == 4 {
        announced(fields[0], fields[1], date_of_text(fields[2]), time_of_text(fields[3]))
    } else {
        None
    }
}

/// Whether `after` is what becomes of `before` when the store takes in `a`
/// at the one instant that local time gives it.
pub open spec fn taken_in(before: TodoListView, after: TodoListView, a: AnnouncementView) -> bool {
    exists|due: Timestamp| #[trigger] a.falls_on(due) && after == before.with_ghost(a.class, a.task(due))
}

/// Whether `after` can become of `before` by one line of output. A line
/// that announces nothing changes nothing. An announcement changes
/// nothing where local time gives it no single instant, and is taken in
/// where it gives one.
pub open spec fn line_taken(before: TodoListView, after: TodoListView, line: Seq<char>) -> bool {
    match announcement_of(line) {
        None => after == before,
        Some(a) => after == before || taken_in(before, after, a),
    }
}

/// Whether the states follow one another by the given lines: one state
/// before each line, and one after the last.
pub open spec fn line_chain(states: Seq<TodoListView>, lines: Seq<Seq<char>>) -> bool {
    &&& states.len() == lines.len() + 1
    &&& forall|i: int|
        0 <= i < lines.len() ==> line_taken(states[i], states[i + 1], #[trigger] lines[i])
}

/// Whether `after` can become of `before` by the given lines, one after
/// the other.
pub open spec fn lines_taken(
    before: TodoListView,
    after: TodoListView,
    lines: Seq<Seq<char>>,
) -> bool {
    exists|states: Seq<TodoListView>|
        #[trigger] line_chain(states, lines) && states.first() == before && states.last() == after
}

/// Whether the states follow one another by the outputs of the given
/// scripts: one state before each output, and one after the last.
pub open spec fn output_chain(states: Seq<TodoListView>, outputs: Seq<Seq<char>>) -> bool {
    &&& states.len() == outputs.len() + 1
    &&& forall|i: int|
        0 <= i < outputs.len() ==> lines_taken(
            states[i],
            states[i + 1],
            lines_of(#[trigger] outputs[i]),
        )
}

/// Whether `after` can become of `before` by the outputs of the given
/// scripts, one after the other.
pub open spec fn outputs_taken(
    before: TodoListView,
    after: TodoListView,
    outputs: Seq<Seq<char>>,
) -> bool {
    exists|states: Seq<TodoListView>|
        #[trigger] output_chain(states, outputs) && states.first() == before && states.last()
            == after
}

/// Puts an announcement together once the date and the time have been
/// read.
pub fn announcement(class: &str, name: &str, day: Option<Day>, seconds: Option<u32>) -> (r:
    Option<Announcement>)
    ensures
        r.deep_view() == announced(class@, name@, day, seconds),
{
    match (day, seconds) {
        (Some(day), Some(seconds)) => Some(
            Announcement {
                class: String::from_str(class),
                name: String::from_str(name),
                day,
                seconds,
            },
        ),
        _ => None,
    }
}

/// Reads what a line announces.
pub fn parse_line(line: &str) -> (r: Option<Announcement>)
    ensures
        r.deep_view() == announcement_of(line@),
        r matches Some(a) ==> a.seconds < 86_400,
{
    let tokens = fields(line);
    if tokens.len() != 4 {
        return None;
    }
    let day = parse_date(tokens[2]);
    let seconds = parse_time(tokens[3]);
    proof {
        assert(tokens.deep_view()[0] == tokens[0]@);
        assert(tokens.deep_view()[1] == tokens[1]@);
        assert(tokens.deep_view()[2] == tokens[2]@);
        assert(tokens.deep_view()[3] == tokens[3]@);
    }
    announcement(tokens[0], tokens[1], day, seconds)
}

impl TodoList {
    /// Takes in what a line of a script's output announces, and says
    /// whether the store took a task.
    pub fn announce(&mut self, line: &str) -> (added: bool)
        requires
            old(self).wf(),
        ensures
            final(self).wf(),
            line_taken(old(self)@, final(self)@, line@),
            !added ==> final(self)@ == old(self)@,
            final(self)@.ghosts.len() == old(self)@.ghosts.len() + if added {
                1int
            } else {
                0int
            },
    {
        match parse_line(line) {
            None => false,
            Some(a) => {
                let due = due_at(Some(a.day), Some(a.seconds));
                proof {
                    if let Ok(at) = due {
                        assert(a@.falls_on(at));
                    }
                }
                self.take_in(a, due)
            },
        }
    }

    /// Takes in everything that the output of a script announces, line by
    /// line, and says how many tasks the store took.
    pub fn ingest(&mut self, output: &str) -> (added: usize)
        requires
            old(self).wf(),
        ensures
            final(self).wf(),
            lines_taken(old(self)@, final(self)@, lines_of(output@)),
            added == 0 ==> final(self)@ == old(self)@,
            final(self)@.ghosts.len() == old(self)@.ghosts.len() + added,
    {
        let found = lines(output);
        let ghost all = lines_of(output@);
        let ghost before = self@;
        let ghost states = seq![self@];
        let mut added: usize = 0;
        let mut i: usize = 0;
        while i < found.len()
            invariant
                self.wf(),
                i <= found.len(),
                added <= i,
                found.deep_view() == all,
                line_chain(states, all.take(i as int)),
                states.first() == before,
                states.last() == self@,
                added == 0 ==> self@ == before,
                self@.ghosts.len() == before.ghosts.len() + added,
            decreases found.len() - i,
        {
            let took = self.announce(found[i]);
            proof {
                assert(all[i as int] == found[i as int]@);
                states = states.push(self@);
            }
            if took {
                added += 1;
            }
            i += 1;
        }
        proof {
            assert(all.take(i as int) =~= all);
        }
        added
    }

    /// Takes in an announcement once local time has been asked for its
    /// instant, and says whether the store took a task. Without an
    /// instant nothing is taken; with one, the task is taken at it unless
    /// the store holds it already.
    pub fn take_in(&mut self, a: Announcement, due: Result<Timestamp, DueError>) -> (added: bool)
        requires
            old(self).wf(),
        ensures
            final(self).wf(),
            match due {
                Ok(due) => {
                    &&& final(self)@ == old(self)@.with_ghost(a@.class, a@.task(due))
                    &&& added == !old(self)@.assignments.contains_key(spec_uid(a@.task(due)))
                },
                Err(_) => !added && final(self)@ == old(self)@,
            },
    {
        match due {
            Ok(due) => self.add_ghost(
                a.class.as_str(),
                Assignment { due_date: due, name: a.name },
            ),
            Err(_) => false,
        }
    }
}

/// Along a chain of states that follow one another by lines of output,
/// each state is consistent and is the first one grown by ghosts.
proof fn lemma_line_chain_grows(states: Seq<TodoListView>, lines: Seq<Seq<char>>, upto: int)
    requires
        line_chain(states, lines),
        states.first().valid(),
        0 <= upto <= lines.len(),
    ensures
        states[upto].valid(),
        states.first().grown_by_ghosts(states[upto]),
    decreases upto,
{
    if upto == 0 {
        lemma_grown_reflexive(states.first());
    } else {
        lemma_line_chain_grows(states, lines, upto - 1);
        let _ = lines[upto - 1];
        lemma_line_grows(states[upto - 1], states[upto], lines[upto - 1]);
        lemma_grown_transitive(states.first(), states[upto - 1], states[upto]);
    }
}

/// Lines of output only make a store grow by ghosts.
pub proof fn lemma_lines_grow(before: TodoListView, after: TodoListView, lines: Seq<Seq<char>>)
    requires
        before.valid(),
        lines_taken(before, after, lines),
    ensures
        after.valid(),
        before.grown_by_ghosts(after),
{
    let states = choose|states: Seq<TodoListView>|
        #[trigger] line_chain(states, lines) && states.first() == before && states.last() == after;
    lemma_line_chain_grows(states, lines, lines.len() as int);
}

/// One line of output only makes a store grow by ghosts.
pub proof fn lemma_line_grows(before: TodoListView, after: TodoListView, line: Seq<char>)
    requires
        before.valid(),
        line_taken(before, after, line),
    ensures
        after.valid(),
        before.grown_by_ghosts(after),
{
    lemma_grown_reflexive(before);
    if after != before {
        let a = announcement_of(line)->0;
        let due = choose|due: Timestamp| #[trigger]
            a.falls_on(due) && after == before.with_ghost(a.class, a.task(due));
        lemma_with_ghost_grows(before, a.class, a.task(due));
        lemma_with_ghost_valid(before, a.class, a.task(due));
    }
}

/// Along a chain of states that follow one another by outputs of scripts,
/// each state is consistent and is the first one grown by ghosts.
proof fn lemma_output_chain_grows(states: Seq<TodoListView>, outputs: Seq<Seq<char>>, upto: int)
    requires
        output_chain(states, outputs),
        states.first().valid(),
        0 <= upto <= outputs.len(),
    ensures
        states[upto].valid(),
        states.first().grown_by_ghosts(states[upto]),
    decreases upto,
{
    if upto == 0 {
        lemma_grown_reflexive(states.first());
    } else {
        lemma_output_chain_grows(states, outputs, upto - 1);
        let _ = outputs[upto - 1];
        lemma_lines_grow(states[upto - 1], states[upto], lines_of(outputs[upto - 1]));
        lemma_grown_transitive(states.first(), states[upto - 1], states[upto]);
    }
}

/// The outputs of scripts only make a store grow by ghosts.
pub proof fn lemma_outputs_grow(
    before: TodoListView,
    after: TodoListView,
    outputs: Seq<Seq<char>>,
)
    requires
        before.valid(),
        outputs_taken(before, after, outputs),
    ensures
        after.valid(),
        before.grown_by_ghosts(after),
{
    let states = choose|states: Seq<TodoListView>|
        #[trigger] output_chain(states, outputs) && states.first() == before && states.last()
            == after;
    lemma_output_chain_grows(states, outputs, outputs.len() as int);
}

} // verus!
