//! Intake of process records from a line-oriented input.
//!
//! The input gives a count `n` on its first line, then for each of the `n`
//! processes its arrival time and its burst time, one line each. The records
//! get the identifiers `1..=n` in input order. Intake stops at the first line
//! that does not parse, or when no further line can be read, and then yields
//! an error and no records.
//!
//! [`Intake`] takes one line at a time, so that a caller can prompt before
//! each read; [`run_intake`] feeds it a whole list of lines.

use vstd::prelude::*;
use crate::parse::{count_of, time_of, parse_count, parse_time};
use crate::record::{ProcessRecord, unscheduled};

verus! {

/// Why an intake failed.
#[derive(Clone, Copy, Debug, PartialEq, Eq, Structural)]
pub enum IntakeError {
    /// The first line is not a whole number in `0..=i32::MAX`.
    InvalidCount,
    /// An arrival or burst line is not a whole number that fits in a `u32`.
    InvalidField,
    /// The input ended before all the lines that were owed had come.
    ReadFailure,
}

/// What an [`Intake`] waits for next, or how it ended.
#[derive(Clone, Copy, Debug, PartialEq, Eq, Structural)]
pub enum Stage {
    /// The line that gives the number of processes.
    Count,
    /// The arrival time of the next process.
    Arrival,
    /// The burst time of the next process.
    Burst,
    /// Every record has been read.
    Done,
    /// Intake stopped on an error.
    Failed(IntakeError),
}

/// The state of an intake as a mathematical value.
pub struct IntakeModel {
    pub stage: Stage,
    /// The number of records the input announced (0 until it is read).
    pub total: u32,
    /// The arrival time read for the record under way, while its burst time
    /// is awaited.
    pub arrival: u32,
    /// The records completed so far, in input order.
    pub records: Seq<ProcessRecord>,
}

impl IntakeModel {
    /// The bounds that keep identifiers within range.
    pub open spec fn well_formed(self) -> bool {
        &&& self.total <= i32::MAX
        &&& self.stage == Stage::Count ==> self.records.len() == 0
        &&& self.records.len() <= self.total
        &&& (self.stage == Stage::Arrival || self.stage == Stage::Burst) ==> self.records.len()
            < self.total
    }
}

/// The state before any line has been read.
pub open spec fn initial_model() -> IntakeModel {
    IntakeModel { stage: Stage::Count, total: 0, arrival: 0, records: Seq::empty() }
}

/// The state `m` moves to in the stage `s`.
pub open spec fn with_stage(m: IntakeModel, s: Stage) -> IntakeModel {
    IntakeModel { stage: s, total: m.total, arrival: m.arrival, records: m.records }
}

/// The state after `m` is handed `line`, or is told by `None` that no line
/// could be read. A finished intake ignores what it is handed.
pub open spec fn next_model(m: IntakeModel, line: Option<Seq<char>>) -> IntakeModel {
    match m.stage {
        Stage::Count => match line {
            None => with_stage(m, Stage::Failed(IntakeError::ReadFailure)),
            Some(l) => match count_of(l) {
                None => with_stage(m, Stage::Failed(IntakeError::InvalidCount)),
                Some(n) => IntakeModel {
                    stage: if n == 0 {
                        Stage::Done
                    } else {
                        Stage::Arrival
                    },
                    total: n,
                    arrival: m.arrival,
                    records: m.records,
                },
            },
        },
        Stage::Arrival => match line {
            None => with_stage(m, Stage::Failed(IntakeError::ReadFailure)),
            Some(l) => match time_of(l) {
                None => with_stage(m, Stage::Failed(IntakeError::InvalidField)),
                Some(a) => IntakeModel {
                    stage: Stage::Burst,
                    total: m.total,
                    arrival: a,
                    records: m.records,
                },
            },
        },
        Stage::Burst => match line {
            None => with_stage(m, Stage::Failed(IntakeError::ReadFailure)),
            Some(l) => match time_of(l) {
                None => with_stage(m, Stage::Failed(IntakeError::InvalidField)),
                Some(b) => {
                    let rs = m.records.push(
                        unscheduled((m.records.len() + 1) as u32, m.arrival, b),
                    );
                    IntakeModel {
                        stage: if rs.len() == m.total {
                            Stage::Done
                        } else {
                            Stage::Arrival
                        },
                        total: m.total,
                        arrival: m.arrival,
                        records: rs,
                    }
                },
            },
        },
        _ => m,
    }
}

/// What a finished intake yields: its records, or its error. One that still
/// waits for a line yields `ReadFailure`, as no further line will come.
pub open spec fn result_of(m: IntakeModel) -> Result<Seq<ProcessRecord>, IntakeError> {
    match m.stage {
        Stage::Done => Ok(m.records),
        Stage::Failed(e) => Err(e),
        _ => Err(IntakeError::ReadFailure),
    }
}

/// The text of a line, or `None` where no line could be read.
pub open spec fn line_text(line: Option<&str>) -> Option<Seq<char>> {
    match line {
        Some(l) => Some(l@),
        None => None,
    }
}

/// An intake under way: it is handed the input one line at a time.
pub struct Intake {
    stage: Stage,
    total: u32,
    arrival: u32,
    records: Vec<ProcessRecord>,
}

impl View for Intake {
    type V = IntakeModel;

    closed spec fn view(&self) -> IntakeModel {
        IntakeModel {
            stage: self.stage,
            total: self.total,
            arrival: self.arrival,
            records: self.records@,
        }
    }
}

impl Intake {
    #[verifier::type_invariant]
    spec fn inv(&self) -> bool {
        self@.well_formed()
    }

    /// An intake that waits for the count line.
    pub fn new() -> (r: Intake)
        ensures
            r@ == initial_model(),
    {
        Intake { stage: Stage::Count, total: 0, arrival: 0, records: Vec::new() }
    }

    /// What the intake waits for next, or how it ended.
    pub fn stage(&self) -> (r: Stage)
        ensures
            r == self@.stage,
    {
        self.stage
    }

    /// The identifier that the record under way will get.
    pub fn next_id(&self) -> (r: u32)
        ensures
            r == self@.records.len() + 1,
    {
        proof {
            use_type_invariant(self);
        }
        (self.records.len() + 1) as u32
    }

    /// Hands the intake the next line of input, or `None` where none could be
    /// read.
    pub fn feed(&mut self, line: Option<&str>)
        ensures
            final(self)@ == next_model(old(self)@, line_text(line)),
    {
        proof {
            use_type_invariant(&*self);
        }
        match self.stage {
            Stage::Count => match line {
                None => {
                    self.stage = Stage::Failed(IntakeError::ReadFailure);
                },
                Some(l) => match parse_count(l) {
                    None => {
                        self.stage = Stage::Failed(IntakeError::InvalidCount);
                    },
                    Some(n) => {
                        self.total = n;
                        if n == 0 {
                            self.stage = Stage::Done;
                        } else {
                            self.stage = Stage::Arrival;
                        }
                    },
                },
            },
            Stage::Arrival => match line {
                None => {
                    self.stage = Stage::Failed(IntakeError::ReadFailure);
                },
                Some(l) => match parse_time(l) {
                    None => {
                        self.stage = Stage::Failed(IntakeError::InvalidField);
                    },
                    Some(a) => {
                        self.arrival = a;
                        self.stage = Stage::Burst;
                    },
                },
            },
            Stage::Burst => match line {
                None => {
                    self.stage = Stage::Failed(IntakeError::ReadFailure);
                },
                Some(l) => match parse_time(l) {
                    None => {
                        self.stage = Stage::Failed(IntakeError::InvalidField);
                    },
                    Some(b) => {
                        let mut records = Vec::new();
                        std::mem::swap(&mut self.records, &mut records);
                        let id = (records.len() + 1) as u32;
                        if records.len() + 1 == self.total as usize {
                            self.stage = Stage::Done;
                        } else {
                            self.stage = Stage::Arrival;
                        }
                        records.push(ProcessRecord::new(id, self.arrival, b));
                        self.records = records;
                    },
                },
            },
            _ => {},
        }
    }

    /// Ends the intake: the records where all were read, else the error.
    pub fn finish(self) -> (r: Result<Vec<ProcessRecord>, IntakeError>)
        ensures
            match r {
                Ok(v) => result_of(self@) == Ok::<Seq<ProcessRecord>, IntakeError>(v@),
                Err(e) => result_of(self@) == Err::<Seq<ProcessRecord>, IntakeError>(e),
            },
    {
        match self.stage {
            Stage::Done => Ok(self.records),
            Stage::Failed(e) => Err(e),
            _ => Err(IntakeError::ReadFailure),
        }
    }
}

/// The texts of a list of lines.
pub open spec fn texts(lines: Seq<String>) -> Seq<Seq<char>> {
    lines.map_values(|l: String| l@)
}

/// Line `j` is there and holds a well-formed time value.
pub open spec fn time_ok(ls: Seq<Seq<char>>, j: int) -> bool {
    0 <= j < ls.len() && time_of(ls[j]) is Some
}

/// Every line from the second up to, not including, line `j` holds a
/// well-formed time value.
pub open spec fn times_ok_before(ls: Seq<Seq<char>>, j: int) -> bool {
    forall|i: int| 1 <= i < j ==> #[trigger] time_ok(ls, i)
}

/// The time value on line `j` (0 where there is none).
pub open spec fn time_at(ls: Seq<Seq<char>>, j: int) -> u32 {
    match time_of(ls[j]) {
        Some(v) => v,
        None => 0,
    }
}

/// The first of the time lines `1..=2n` that is missing or malformed.
pub open spec fn first_bad_time(ls: Seq<Seq<char>>, n: u32) -> int {
    choose|j: int| 1 <= j <= 2 * n && !time_ok(ls, j) && times_ok_before(ls, j)
}

/// The `n` records that the time lines of `ls` describe: record `i` gets the
/// identifier `i + 1`, its arrival time from line `2i + 1` and its burst time
/// from line `2i + 2`.
pub open spec fn records_from(ls: Seq<Seq<char>>, n: nat) -> Seq<ProcessRecord> {
    Seq::new(n, |i: int| unscheduled((i + 1) as u32, time_at(ls, 2 * i + 1), time_at(ls, 2 * i + 2)))
}

/// What intake yields on the lines `ls`, read in order until the count and
/// the `2n` time lines it announces have come. Lines after those are never
/// read.
pub open spec fn intake_outcome(ls: Seq<Seq<char>>) -> Result<Seq<ProcessRecord>, IntakeError> {
    if ls.len() == 0 {
        Err(IntakeError::ReadFailure)
    } else {
        match count_of(ls[0]) {
            None => Err(IntakeError::InvalidCount),
            Some(n) => if times_ok_before(ls, 2 * n + 1) {
                Ok(records_from(ls, n as nat))
            } else if first_bad_time(ls, n) < ls.len() {
                Err(IntakeError::InvalidField)
            } else {
                Err(IntakeError::ReadFailure)
            },
        }
    }
}

/// The state after the first `k` lines of `ls` were handed to a new intake.
pub open spec fn model_after(ls: Seq<Seq<char>>, k: nat) -> IntakeModel
    decreases k,
{
    if k == 0 {
        initial_model()
    } else {
        next_model(model_after(ls, (k - 1) as nat), Some(ls[k - 1]))
    }
}

/// The shape of the state after `k` lines, in terms of the lines alone.
spec fn shape_after(ls: Seq<Seq<char>>, k: nat) -> bool {
    let m = model_after(ls, k);
    if k == 0 {
        m == initial_model()
    } else {
        match count_of(ls[0]) {
            None => m.stage == Stage::Failed(IntakeError::InvalidCount),
            Some(n) => {
                let c: int = if k < 2 * n + 1 {
                    k as int
                } else {
                    2 * n + 1
                };
                if times_ok_before(ls, c) {
                    &&& m.total == n
                    &&& m.records == records_from(ls, ((c - 1) / 2) as nat)
                    &&& m.stage == if c == 2 * n + 1 {
                        Stage::Done
                    } else if (c - 1) % 2 == 0 {
                        Stage::Arrival
                    } else {
                        Stage::Burst
                    }
                    &&& (c < 2 * n + 1 && (c - 1) % 2 == 1) ==> m.arrival == time_at(ls, c - 1)
                } else {
                    m.stage == Stage::Failed(IntakeError::InvalidField)
                }
            },
        }
    }
}

proof fn lemma_shape_after(ls: Seq<Seq<char>>, k: nat)
    requires
        k <= ls.len(),
    ensures
        shape_after(ls, k),
    decreases k,
{
    if k == 1 {
        assert(model_after(ls, 0) == initial_model());
        assert(records_from(ls, 0) =~= Seq::<ProcessRecord>::empty());
    } else if k > 1 {
        lemma_shape_after(ls, (k - 1) as nat);
        let prev = model_after(ls, (k - 1) as nat);
        let m = model_after(ls, k);
        assert(m == next_model(prev, Some(ls[k - 1])));
        if let Some(n) = count_of(ls[0]) {
            let c: int = k - 1;
            if c < 2 * n + 1 && times_ok_before(ls, c) {
                if time_ok(ls, c) {
                    assert(times_ok_before(ls, c + 1));
                    if (c - 1) % 2 == 1 {
                        let j: int = (c - 1) / 2;
                        assert(2 * j + 1 == c - 1);
                        assert(records_from(ls, (j + 1) as nat) =~= records_from(
                            ls,
                            j as nat,
                        ).push(unscheduled((j + 1) as u32, time_at(ls, c - 1), time_at(ls, c))));
                    }
                } else {
                    assert(!times_ok_before(ls, c + 1));
                }
            } else if c < 2 * n + 1 {
                assert(!times_ok_before(ls, c + 1)) by {
                    let i = choose|i: int| 1 <= i < c && !#[trigger] time_ok(ls, i);
                    assert(!time_ok(ls, i));
                }
            }
        }
    }
}

/// The least `j` at or below `i` whose time line is missing or malformed.
proof fn lemma_first_bad_exists(ls: Seq<Seq<char>>, i: int) -> (j: int)
    requires
        1 <= i,
        !time_ok(ls, i),
    ensures
        1 <= j <= i,
        !time_ok(ls, j),
        times_ok_before(ls, j),
    decreases i,
{
    if times_ok_before(ls, i) {
        i
    } else {
        let i2 = choose|i2: int| 1 <= i2 < i && !#[trigger] time_ok(ls, i2);
        lemma_first_bad_exists(ls, i2)
    }
}

proof fn lemma_first_bad_is(ls: Seq<Seq<char>>, n: u32, j: int)
    requires
        1 <= j <= 2 * n,
        !time_ok(ls, j),
        times_ok_before(ls, j),
    ensures
        first_bad_time(ls, n) == j,
{
    let f = first_bad_time(ls, n);
    assert(1 <= f <= 2 * n && !time_ok(ls, f) && times_ok_before(ls, f));
    if f < j {
        assert(time_ok(ls, f));
    }
    if f > j {
        assert(time_ok(ls, j));
    }
}

proof fn lemma_run_outcome(ls: Seq<Seq<char>>)
    ensures
        result_of(next_model(model_after(ls, ls.len()), None)) == intake_outcome(ls),
{
    lemma_shape_after(ls, ls.len());
    if ls.len() > 0 {
        if let Some(n) = count_of(ls[0]) {
            let k: int = ls.len() as int;
            let c: int = if k < 2 * n + 1 {
                k
            } else {
                2 * n + 1
            };
            if times_ok_before(ls, c) {
                if c < 2 * n + 1 {
                    assert(!time_ok(ls, k));
                    lemma_first_bad_is(ls, n, k);
                    assert(!times_ok_before(ls, 2 * n + 1));
                }
            } else {
                let i = choose|i: int| 1 <= i < c && !#[trigger] time_ok(ls, i);
                let j = lemma_first_bad_exists(ls, i);
                lemma_first_bad_is(ls, n, j);
                assert(!times_ok_before(ls, 2 * n + 1));
            }
        }
    }
}

/// Runs an intake over `lines`, as though they were the whole input: a line
/// that is owed beyond the last one counts as a failed read.
pub fn run_intake(lines: &Vec<String>) -> (r: Result<Vec<ProcessRecord>, IntakeError>)
    ensures
        match r {
            Ok(v) => intake_outcome(texts(lines@)) == Ok::<Seq<ProcessRecord>, IntakeError>(v@),
            Err(e) => intake_outcome(texts(lines@)) == Err::<Seq<ProcessRecord>, IntakeError>(e),
        },
{
    let ghost ls = texts(lines@);
    let mut intake = Intake::new();
    let mut k: usize = 0;
    while k < lines.len()
        invariant
            k <= lines.len(),
            ls == texts(lines@),
            intake@ == model_after(ls, k as nat),
        decreases lines.len() - k,
    {
        let line = lines[k].as_str();
        assert(line@ == ls[k as int]);
        intake.feed(Some(line));
        k = k + 1;
    }
    intake.feed(None);
    proof {
        lemma_run_outcome(ls);
    }
    intake.finish()
}

/// On a count `n` followed by `2n` well-formed time lines, intake yields
/// exactly `n` records, with the identifiers `1..=n` in input order, each
/// with the arrival and burst time of its own two lines.
pub proof fn lemma_intake_well_formed(ls: Seq<Seq<char>>, n: u32)
    requires
        ls.len() >= 1,
        count_of(ls[0]) == Some(n),
        forall|j: int| 1 <= j <= 2 * n ==> #[trigger] time_ok(ls, j),
    ensures
        match intake_outcome(ls) {
            Ok(rs) => {
                &&& rs.len() == n
                &&& forall|i: int|
                    0 <= i < n ==> {
                        &&& (#[trigger] rs[i]).id == i + 1
                        &&& Some(rs[i].arrival_time) == time_of(ls[2 * i + 1])
                        &&& Some(rs[i].burst_time) == time_of(ls[2 * i + 2])
                    }
            },
            Err(_) => false,
        },
{
    assert(times_ok_before(ls, 2 * n + 1));
    let rs = records_from(ls, n as nat);
    assert forall|i: int| 0 <= i < n implies {
        &&& (#[trigger] rs[i]).id == i + 1
        &&& Some(rs[i].arrival_time) == time_of(ls[2 * i + 1])
        &&& Some(rs[i].burst_time) == time_of(ls[2 * i + 2])
    } by {
        assert(time_ok(ls, 2 * i + 1));
        assert(time_ok(ls, 2 * i + 2));
    }
}

/// Every record that intake yields is unscheduled: its completion, waiting
/// and turnaround times are 0.
pub proof fn lemma_intake_records_unscheduled(ls: Seq<Seq<char>>)
    ensures
        match intake_outcome(ls) {
            Ok(rs) => forall|i: int|
                0 <= i < rs.len() ==> {
                    &&& (#[trigger] rs[i]).completion_time == 0
                    &&& rs[i].waiting_time == 0
                    &&& rs[i].turnaround_time == 0
                },
            Err(_) => true,
        },
{
}

/// A count of 0 yields no records and asks for no further line: the
/// outcome is the same whatever follows the count, and an intake is done as
/// soon as it has read that count.
pub proof fn lemma_intake_zero_count(ls: Seq<Seq<char>>)
    requires
        ls.len() >= 1,
        count_of(ls[0]) == Some(0u32),
    ensures
        intake_outcome(ls) == Ok::<Seq<ProcessRecord>, IntakeError>(Seq::empty()),
        intake_outcome(ls) == intake_outcome(ls.take(1)),
        next_model(initial_model(), Some(ls[0])).stage == Stage::Done,
{
    assert(records_from(ls, 0) =~= Seq::<ProcessRecord>::empty());
    assert(records_from(ls.take(1), 0) =~= Seq::<ProcessRecord>::empty());
    assert(ls.take(1)[0] == ls[0]);
}

/// A first line that is not a count fails intake with `InvalidCount`,
/// whatever follows it.
pub proof fn lemma_intake_invalid_count(ls: Seq<Seq<char>>)
    requires
        ls.len() >= 1,
        count_of(ls[0]) is None,
    ensures
        intake_outcome(ls) == Err::<Seq<ProcessRecord>, IntakeError>(IntakeError::InvalidCount),
{
}

/// A malformed time line that intake reaches, all time lines before it
/// being well-formed, fails intake with `InvalidField`: no partial record
/// is yielded.
pub proof fn lemma_intake_invalid_time(ls: Seq<Seq<char>>, n: u32, j: int)
    requires
        count_of(ls[0]) == Some(n),
        1 <= j <= 2 * n,
        j < ls.len(),
        time_of(ls[j]) is None,
        times_ok_before(ls, j),
    ensures
        intake_outcome(ls) == Err::<Seq<ProcessRecord>, IntakeError>(IntakeError::InvalidField),
{
    lemma_first_bad_is(ls, n, j);
    assert(!time_ok(ls, j));
}

} // verus!
