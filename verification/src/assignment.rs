//! Assignments: a due instant and a name, and the identifier derived from
//! the two.

use std::collections::hash_map::DefaultHasher;
use std::hash::Hasher;
use vstd::bytes::*;
use vstd::prelude::*;
use vstd::std_specs::hash::*;
use vstd::utf8::*;

verus! {

/// A calendar day, counted from 1970-01-01 (day 0).
pub type Day = i32;

/// An instant, together with the offset of local time that is in force at it.
///
/// The instant is what identifies and orders timestamps; the offset only
/// decides on which calendar day the instant falls.
#[derive(Clone, Copy, Debug)]
pub struct Timestamp {
    /// Whole seconds since 1970-01-01T00:00:00 UTC.
    pub seconds: i64,
    /// Nanoseconds past `seconds`.
    pub nanos: u32,
    /// Local time minus UTC, in seconds.
    pub offset: i32,
}

impl Timestamp {
    /// Whether two timestamps denote the same instant, whatever their offsets.
    pub open spec fn same_instant(self, other: Timestamp) -> bool {
        self.seconds == other.seconds && self.nanos == other.nanos
    }

    /// Whether the instant comes before that of `other`.
    pub open spec fn before(self, other: Timestamp) -> bool {
        self.seconds < other.seconds || (self.seconds == other.seconds && self.nanos
            < other.nanos)
    }

    /// The calendar day on which the instant falls in local time.
    pub open spec fn local_day(self) -> int {
        (self.seconds + self.offset) / 86_400
    }

    /// Whether the local calendar day lies in `start..=end`.
    pub open spec fn due_within(self, start: int, end: int) -> bool {
        start <= self.local_day() <= end
    }

    /// Whether the instant comes before that of `other`.
    pub fn is_before(&self, other: &Timestamp) -> (r: bool)
        ensures
            r == self.before(*other),
    {
        self.seconds < other.seconds || (self.seconds == other.seconds && self.nanos
            < other.nanos)
    }

    /// Whether the instant is that of `other`.
    pub fn is_same_instant(&self, other: &Timestamp) -> (r: bool)
        ensures
            r == self.same_instant(*other),
    {
        self.seconds == other.seconds && self.nanos == other.nanos
    }

    /// Computes the calendar day on which the instant falls in local time.
    pub fn day(&self) -> (d: i64)
        ensures
            d == self.local_day(),
    {
        let local: i128 = self.seconds as i128 + self.offset as i128;
        if local >= 0 {
            (local / 86_400) as i64
        } else {
            let below: i128 = -(local + 1);
            let q: i128 = below / 86_400;
            proof {
                let r = 86_399 - below % 86_400;
                assert(below == 86_400 * q + below % 86_400) by (nonlinear_arith)
                    requires
                        q == below / 86_400,
                ;
                assert(local == 86_400 * (-q - 1) + r);
                vstd::arithmetic::div_mod::lemma_fundamental_div_mod_converse(
                    local as int,
                    86_400,
                    -q - 1,
                    r,
                );
            }
            (-q - 1) as i64
        }
    }

    /// Whether the local calendar day lies in `start..=end`.
    pub fn is_within(&self, start: i64, end: i64) -> (r: bool)
        ensures
            r == self.due_within(start as int, end as int),
    {
        let d = self.day();
        start <= d && d <= end
    }
}

/// A task: when it is due, and what it is called.
#[derive(Debug)]
pub struct Assignment {
    pub due_date: Timestamp,
    pub name: String,
}

/// What an [`Assignment`] holds, as mathematical values.
pub struct AssignmentView {
    pub due_date: Timestamp,
    pub name: Seq<char>,
}

impl AssignmentView {
    /// Whether two tasks are due at the same instant and have the same
    /// name.
    pub open spec fn same_task(self, other: AssignmentView) -> bool {
        self.due_date.same_instant(other.due_date) && self.name == other.name
    }
}

impl View for Assignment {
    type V = AssignmentView;

    open spec fn view(&self) -> AssignmentView {
        AssignmentView { due_date: self.due_date, name: self.name@ }
    }
}

impl DeepView for Assignment {
    type V = AssignmentView;

    open spec fn deep_view(&self) -> AssignmentView {
        self@
    }
}

impl Clone for Assignment {
    fn clone(&self) -> (r: Self)
        ensures
            r == *self,
    {
        Self { due_date: self.due_date, name: self.name.clone() }
    }
}

/// A task as the first file format holds it: the completion flag is part
/// of the record.
#[derive(Debug)]
pub struct AssignmentV1 {
    pub due_date: Timestamp,
    pub name: String,
    pub completed: bool,
}

/// What an [`AssignmentV1`] holds, as mathematical values.
pub struct AssignmentV1View {
    pub due_date: Timestamp,
    pub name: Seq<char>,
    pub completed: bool,
}

impl AssignmentV1View {
    /// The task without its completion flag.
    pub open spec fn record(self) -> AssignmentView {
        AssignmentView { due_date: self.due_date, name: self.name }
    }
}

impl View for AssignmentV1 {
    type V = AssignmentV1View;

    open spec fn view(&self) -> AssignmentV1View {
        AssignmentV1View { due_date: self.due_date, name: self.name@, completed: self.completed }
    }
}

impl DeepView for AssignmentV1 {
    type V = AssignmentV1View;

    open spec fn deep_view(&self) -> AssignmentV1View {
        self@
    }
}

impl Clone for AssignmentV1 {
    fn clone(&self) -> (r: Self)
        ensures
            r == *self,
    {
        Self { due_date: self.due_date, name: self.name.clone(), completed: self.completed }
    }
}

/// The byte strings that are fed to the hasher for a task, in order: the
/// seconds and the nanoseconds of the due instant, little-endian, then the
/// name in UTF-8.
pub open spec fn uid_input(due_date: Timestamp, name: Seq<char>) -> Seq<Seq<u8>> {
    seq![
        spec_u64_to_le_bytes(due_date.seconds as u64),
        spec_u32_to_le_bytes(due_date.nanos),
        encode_utf8(name),
    ]
}

/// The identifier of a task: a digest of its due instant and its name.
/// Neither the offset nor anything outside the record enters it.
pub open spec fn spec_uid(record: AssignmentView) -> u64 {
    DefaultHasher::spec_finish(uid_input(record.due_date, record.name))
}

/// Derives the identifier of a task from its due instant and its name.
pub fn derive_uid(record: &Assignment) -> (uid: u64)
    ensures
        uid == spec_uid(record@),
{
    let mut hasher = DefaultHasher::new();
    let seconds = u64_to_le_bytes(record.due_date.seconds as u64);
    hasher.write(seconds.as_slice());
    let nanos = u32_to_le_bytes(record.due_date.nanos);
    hasher.write(nanos.as_slice());
    hasher.write(record.name.as_str().as_bytes());
    proof {
        assert(hasher@ =~= uid_input(record.due_date, record.name@));
    }
    hasher.finish()
}

} // verus!
