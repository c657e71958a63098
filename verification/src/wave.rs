use vstd::prelude::*;
use crate::error::ChunkError;

verus! {

/// Where a schedule stands.
#[derive(Clone, Copy, Debug, PartialEq, Eq, Structural)]
pub enum Phase {
    /// Units remain to be launched or reported.
    Running,
    /// Every unit was launched and reported as done.
    Finished,
    /// Unit `index` failed with `error`; nothing more is launched.
    Failed { index: u64, error: ChunkError },
}

/// What a schedule asks of its driver.
#[derive(Clone, Copy, Debug, PartialEq, Eq, Structural)]
pub enum WaveAction {
    /// Run the units `first` up to but not including `last` at the same
    /// time, wait for all of them, and report one outcome for each, in
    /// order.
    Launch { first: u64, last: u64 },
    /// All units are done.
    Finish,
    /// Stop: unit `index` failed with `error`.
    Abort { index: u64, error: ChunkError },
}

/// The state of a schedule as plain numbers.
pub struct ScheduleState {
    /// The number of units of work.
    pub total: nat,
    /// The most units that may run at the same time.
    pub concurrency: nat,
    /// How many units were launched so far; they are the units `0` up to
    /// but not including `launched`.
    pub launched: nat,
    /// How many launched units await their report: the last of those
    /// launched.
    pub in_flight: nat,
    pub phase: Phase,
}

impl ScheduleState {
    /// The state before anything was launched.
    pub open spec fn initial(total: nat, concurrency: nat) -> ScheduleState {
        ScheduleState { total, concurrency, launched: 0, in_flight: 0, phase: Phase::Running }
    }

    /// What holds of every state that a schedule reaches.
    pub open spec fn wf(self) -> bool {
        &&& self.concurrency >= 1
        &&& self.in_flight <= self.concurrency
        &&& self.in_flight <= self.launched <= self.total
        &&& self.total <= u64::MAX
        &&& self.phase is Finished ==> self.launched == self.total
        &&& !(self.phase is Running) ==> self.in_flight == 0
        &&& self.phase matches Phase::Failed { index, .. } ==> index < self.launched
    }

    /// The index of the first unit that awaits its report.
    pub open spec fn wave_start(self) -> nat {
        (self.launched - self.in_flight) as nat
    }

    /// Where the wave after the present one ends.
    pub open spec fn next_wave_end(self) -> nat {
        if self.launched + self.concurrency <= self.total {
            self.launched + self.concurrency
        } else {
            self.total
        }
    }

    /// The state that follows when the units in flight report `report`.
    pub open spec fn step(self, report: Seq<Option<ChunkError>>) -> ScheduleState {
        match self.phase {
            Phase::Running => match first_failure(report) {
                Some(position) => ScheduleState {
                    in_flight: 0,
                    phase: Phase::Failed {
                        index: (self.wave_start() + position) as u64,
                        error: report[position as int]->0,
                    },
                    ..self
                },
                None => if self.launched == self.total {
                    ScheduleState { in_flight: 0, phase: Phase::Finished, ..self }
                } else {
                    ScheduleState {
                        launched: self.next_wave_end(),
                        in_flight: (self.next_wave_end() - self.launched) as nat,
                        ..self
                    }
                },
            },
            _ => self,
        }
    }

    /// What the driver is asked to do when the units in flight report
    /// `report`.
    pub open spec fn action(self, report: Seq<Option<ChunkError>>) -> WaveAction {
        match self.step(report).phase {
            Phase::Running => WaveAction::Launch {
                first: self.launched as u64,
                last: self.step(report).launched as u64,
            },
            Phase::Finished => WaveAction::Finish,
            Phase::Failed { index, error } => WaveAction::Abort { index, error },
        }
    }
}

/// The position of the first failure in a report, if it holds one.
pub open spec fn first_failure(report: Seq<Option<ChunkError>>) -> Option<nat>
    decreases report.len(),
{
    if report.len() == 0 {
        None
    } else if first_failure(report.drop_last()) is Some {
        first_failure(report.drop_last())
    } else if report.last() is Some {
        Some((report.len() - 1) as nat)
    } else {
        None
    }
}

/// The first failure of a report is a failure, and nothing before it is;
/// a report without one holds successes only.
pub proof fn lemma_first_failure(report: Seq<Option<ChunkError>>)
    ensures
        first_failure(report) matches Some(position) ==> position < report.len()
            && report[position as int] is Some && forall|i: int|
            0 <= i < position ==> report[i] is None,
        first_failure(report) is None ==> forall|i: int|
            0 <= i < report.len() ==> report[i] is None,
    decreases report.len(),
{
    if report.len() > 0 {
        lemma_first_failure(report.drop_last());
        assert forall|i: int| 0 <= i < report.len() - 1 implies report[i]
            == report.drop_last()[i] by {}
    }
}

/// Finds the first failure in a report: its position and its error.
fn find_first_failure(report: &Vec<Option<ChunkError>>) -> (found: Option<
    (usize, ChunkError),
>)
    ensures
        found is Some <==> first_failure(report@) is Some,
        found matches Some((position, error)) ==> first_failure(report@) == Some(position as nat)
            && report@[position as int] == Some(error),
{
    let mut i: usize = 0;
    while i < report.len()
        invariant
            i <= report.len(),
            first_failure(report@.take(i as int)) is None,
        decreases report.len() - i,
    {
        assert(report@.take(i as int + 1).drop_last() == report@.take(i as int));
        if let Some(error) = report[i] {
            proof {
                lemma_first_failure_extends(report@, i as int + 1);
            }
            return Some((i, error));
        }
        i = i + 1;
    }
    assert(report@.take(i as int) == report@);
    None
}

/// A failure found in the first `n` outcomes is the first failure of the
/// whole report.
proof fn lemma_first_failure_extends(report: Seq<Option<ChunkError>>, n: int)
    requires
        0 <= n <= report.len(),
        first_failure(report.take(n)) is Some,
    ensures
        first_failure(report) == first_failure(report.take(n)),
    decreases report.len() - n,
{
    if n < report.len() {
        assert(report.take(n + 1).drop_last() == report.take(n));
        lemma_first_failure_extends(report, n + 1);
    } else {
        assert(report.take(n) == report);
    }
}

/// Hands out units of work in waves: at most `concurrency` units at a
/// time, and the next wave only when every unit of the one before it has
/// reported.
#[derive(Clone, Copy, Debug)]
pub struct WaveSchedule {
    total: u64,
    concurrency: usize,
    launched: u64,
    in_flight: u64,
    phase: Phase,
}

impl View for WaveSchedule {
    type V = ScheduleState;

    closed spec fn view(&self) -> ScheduleState {
        ScheduleState {
            total: self.total as nat,
            concurrency: self.concurrency as nat,
            launched: self.launched as nat,
            in_flight: self.in_flight as nat,
            phase: self.phase,
        }
    }
}

impl WaveSchedule {
    #[verifier::type_invariant]
    spec fn well_formed(&self) -> bool {
        self@.wf()
    }

    /// A schedule for `total` units of which at most `concurrency` run at
    /// the same time.
    pub fn new(total: u64, concurrency: usize) -> (schedule: WaveSchedule)
        requires
            concurrency >= 1,
        ensures
            schedule@ == ScheduleState::initial(total as nat, concurrency as nat),
            schedule@.wf(),
    {
        WaveSchedule { total, concurrency, launched: 0, in_flight: 0, phase: Phase::Running }
    }

    /// The number of units.
    pub fn total(&self) -> (total: u64)
        ensures
            total == self@.total,
            self@.wf(),
    {
        proof {
            use_type_invariant(self);
        }
        self.total
    }

    /// The number of units whose report is awaited.
    pub fn in_flight(&self) -> (count: u64)
        ensures
            count == self@.in_flight,
            count <= self@.concurrency,
            self@.wf(),
    {
        proof {
            use_type_invariant(self);
        }
        self.in_flight
    }

    /// Takes the report of the units in flight, one outcome for each in
    /// order (none before the first wave), and says what to do next. The
    /// first failure of a report ends the schedule; otherwise the next wave
    /// is launched, or the schedule finishes when no unit is left.
    pub fn step(&mut self, report: &Vec<Option<ChunkError>>) -> (action: WaveAction)
        requires
            report@.len() == old(self)@.in_flight,
        ensures
            final(self)@ == old(self)@.step(report@),
            action == old(self)@.action(report@),
            final(self)@.wf(),
    {
        proof {
            use_type_invariant(&*self);
            lemma_first_failure(report@);
        }
        match self.phase {
            Phase::Finished => WaveAction::Finish,
            Phase::Failed { index, error } => WaveAction::Abort { index, error },
            Phase::Running => {
                match find_first_failure(report) {
                    Some((position, error)) => {
                        let index: u64 = self.launched - self.in_flight + position as u64;
                        self.in_flight = 0;
                        self.phase = Phase::Failed { index, error };
                        WaveAction::Abort { index, error }
                    },
                    None => {
                        if self.launched == self.total {
                            self.in_flight = 0;
                            self.phase = Phase::Finished;
                            WaveAction::Finish
                        } else {
                            let first: u64 = self.launched;
                            let room: u64 = self.total - self.launched;
                            let width: u64 = if self.concurrency as u64 <= room {
                                self.concurrency as u64
                            } else {
                                room
                            };
                            self.launched = first + width;
                            self.in_flight = width;
                            WaveAction::Launch { first, last: first + width }
                        }
                    },
                }
            },
        }
    }
}

/// A schedule begins within its bound: nothing is in flight.
pub proof fn lemma_initial_within_bound(total: nat, concurrency: nat)
    requires
        concurrency >= 1,
        total <= u64::MAX,
    ensures
        ScheduleState::initial(total, concurrency).wf(),
        ScheduleState::initial(total, concurrency).in_flight == 0,
{
}

/// Every step keeps a schedule within its bound: the units in flight are
/// never more than `concurrency`; a wave is launched only from a state whose
/// units in flight have all reported success, it begins with the first unit
/// not yet launched, and it is not empty; and a schedule finishes only when
/// every unit was launched.
pub proof fn lemma_step_keeps_bound(state: ScheduleState, report: Seq<Option<ChunkError>>)
    requires
        state.wf(),
        report.len() == state.in_flight,
    ensures
        state.step(report).wf(),
        state.step(report).in_flight <= state.concurrency,
        state.step(report).total == state.total,
        state.step(report).concurrency == state.concurrency,
        state.action(report) matches WaveAction::Launch { first, last } ==> {
            &&& state.phase is Running
            &&& first_failure(report) is None
            &&& first == state.launched
            &&& last == state.step(report).launched
            &&& first < last <= state.total
            &&& last - first == state.step(report).in_flight
            &&& last - first <= state.concurrency
        },
        state.action(report) is Finish ==> state.step(report).launched == state.total,
        state.action(report) matches WaveAction::Abort { index, error } ==> index
            < state.launched,
{
    lemma_first_failure(report);
}

/// The report of `count` units that all succeeded.
pub open spec fn all_done(count: nat) -> Seq<Option<ChunkError>> {
    Seq::new(count, |i: int| None::<ChunkError>)
}

/// The state of a schedule after `steps` steps in which every unit
/// succeeded.
pub open spec fn after_steps(total: nat, concurrency: nat, steps: nat) -> ScheduleState
    decreases steps,
{
    if steps == 0 {
        ScheduleState::initial(total, concurrency)
    } else {
        let before = after_steps(total, concurrency, (steps - 1) as nat);
        before.step(all_done(before.in_flight))
    }
}

/// The smaller of `count` and `total`.
pub open spec fn at_most(count: nat, total: nat) -> nat {
    if count <= total {
        count
    } else {
        total
    }
}

/// A report of successes holds no failure.
pub proof fn lemma_all_done_has_no_failure(count: nat)
    ensures
        first_failure(all_done(count)) is None,
    decreases count,
{
    if count > 0 {
        lemma_all_done_has_no_failure((count - 1) as nat);
        assert(all_done(count).drop_last() =~= all_done((count - 1) as nat));
    }
}

/// While every unit succeeds, a schedule launches the units in order, each
/// exactly once: the wave of step `k` holds the units from
/// `(k - 1) * concurrency` up to `k * concurrency`, or up to the last unit.
/// It never fails, and it finishes with the first step after the wave that
/// holds the last unit.
pub proof fn lemma_run_launches_every_unit(total: nat, concurrency: nat, steps: nat)
    requires
        concurrency >= 1,
        total <= u64::MAX,
        steps >= 1,
    ensures
        ({
            let state = after_steps(total, concurrency, steps);
            &&& state.wf()
            &&& state.total == total
            &&& state.concurrency == concurrency
            &&& state.launched == at_most(steps * concurrency, total)
            &&& state.wave_start() == at_most(((steps - 1) * concurrency) as nat, total)
            &&& !(state.phase is Failed)
            &&& state.phase is Finished <==> (steps - 1) * concurrency >= total
        }),
    decreases steps,
{
    let before = after_steps(total, concurrency, (steps - 1) as nat);
    lemma_all_done_has_no_failure(before.in_flight);
    assert(steps * concurrency == (steps - 1) * concurrency + concurrency) by (nonlinear_arith);
    assert((steps - 1) * concurrency >= 0) by (nonlinear_arith)
        requires
            steps >= 1,
    ;
    if steps > 1 {
        lemma_run_launches_every_unit(total, concurrency, (steps - 1) as nat);
        assert((steps - 1) * concurrency == (steps - 2) * concurrency + concurrency)
            by (nonlinear_arith);
        assert((steps - 2) * concurrency >= 0) by (nonlinear_arith)
            requires
                steps >= 2,
        ;
    } else {
        assert((steps - 1) * concurrency == 0) by (nonlinear_arith)
            requires
                steps == 1,
        ;
    }
}

} // verus!
