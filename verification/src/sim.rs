//! Requests, responses and the run of a simulation: tick after tick until
//! the world is quiescent or the tick budget is spent.

use vstd::prelude::*;
use crate::engine::{advance, diff, start, BlockChange, Engine, SimState};
use crate::laws::lemma_run_in_range;
use crate::world::{all_in_range, timers_active, PlacedBlock, World};

verus! {

/// What to simulate: the world at tick 0, the greatest number of ticks to
/// run, and whether to stop as soon as the world is quiescent.
#[derive(Clone, Debug)]
pub struct SimRequest {
    pub ticks: u32,
    pub world: World,
    pub early_exit: bool,
}

/// The blocks that changed during one tick, in ascending position order.
#[derive(Clone, Debug)]
pub struct TickDiff {
    pub tick: u32,
    pub changes: Vec<BlockChange>,
}

/// Why a run ended.
#[derive(Clone, Copy, Debug, PartialEq, Eq, Structural)]
pub enum Termination {
    /// A tick changed nothing and no countdown is running.
    Stable,
    /// The tick budget is spent.
    MaxTicksReached,
}

/// The result of a run: one entry for each tick that changed something, and
/// the reason the run ended.
#[derive(Clone, Debug)]
pub struct SimResponse {
    pub diffs: Vec<TickDiff>,
    pub terminated: Termination,
}

/// The changes of one tick.
pub struct TickRecord {
    pub tick: nat,
    pub changes: Seq<BlockChange>,
}

/// The result of a run.
pub struct Outcome {
    pub diffs: Seq<TickRecord>,
    pub terminated: Termination,
}

impl View for TickDiff {
    type V = TickRecord;

    open spec fn view(&self) -> TickRecord {
        TickRecord { tick: self.tick as nat, changes: self.changes@ }
    }
}

/// The records of a list of tick diffs.
pub open spec fn records(diffs: Seq<TickDiff>) -> Seq<TickRecord> {
    Seq::new(diffs.len(), |i: int| diffs[i]@)
}

impl View for SimResponse {
    type V = Outcome;

    open spec fn view(&self) -> Outcome {
        Outcome { diffs: records(self.diffs@), terminated: self.terminated }
    }
}

/// The run that starts in state `s` with tick number `tick` and may go on
/// up to and including tick number `budget`. A tick that changes something
/// adds a record. A tick that changes nothing ends the run as stable if
/// `early_exit` is set and no countdown is running; otherwise the run goes
/// on until the budget is spent.
pub open spec fn run_from(s: SimState, tick: nat, budget: nat, early_exit: bool) -> Outcome
    decreases budget + 1 - tick,
{
    if tick > budget {
        Outcome { diffs: Seq::empty(), terminated: Termination::MaxTicksReached }
    } else {
        let after = advance(s);
        let changes = diff(s.cells, after.cells);
        if changes.len() > 0 {
            let rest = run_from(after, tick + 1, budget, early_exit);
            Outcome {
                diffs: seq![TickRecord { tick, changes }] + rest.diffs,
                terminated: rest.terminated,
            }
        } else if early_exit && !timers_active(after.cells) {
            Outcome { diffs: Seq::empty(), terminated: Termination::Stable }
        } else {
            run_from(after, tick + 1, budget, early_exit)
        }
    }
}

/// The number of the last tick that the run of `run_from` executes, and
/// `tick - 1` where it executes none.
pub open spec fn last_tick_from(s: SimState, tick: nat, budget: nat, early_exit: bool) -> nat
    decreases budget + 1 - tick,
{
    if tick > budget {
        (tick - 1) as nat
    } else {
        let after = advance(s);
        if diff(s.cells, after.cells).len() == 0 && early_exit && !timers_active(after.cells) {
            tick
        } else {
            last_tick_from(after, tick + 1, budget, early_exit)
        }
    }
}

/// The outcome of simulating the world `blocks` for at most `budget` ticks.
pub open spec fn run(blocks: Seq<PlacedBlock>, budget: nat, early_exit: bool) -> Outcome {
    run_from(start(blocks), 1, budget, early_exit)
}

/// The number of ticks the simulation of `blocks` executes.
pub open spec fn ticks_run(blocks: Seq<PlacedBlock>, budget: nat, early_exit: bool) -> nat {
    last_tick_from(start(blocks), 1, budget, early_exit)
}

/// The state `k` ticks after `s`, with no early exit.
pub open spec fn after(s: SimState, k: nat) -> SimState
    decreases k,
{
    if k == 0 {
        s
    } else {
        advance(after(s, (k - 1) as nat))
    }
}

/// The blocks that the `k`-th tick after `s` changes, for `k >= 1`.
pub open spec fn changes_at(s: SimState, k: nat) -> Seq<BlockChange> {
    diff(after(s, (k - 1) as nat).cells, after(s, k).cells)
}

/// Every block state that the outcome reports has its fields in range.
pub open spec fn reports_in_range(o: Outcome) -> bool {
    forall|i: int, j: int|
        0 <= i < o.diffs.len() && 0 <= j < o.diffs[i].changes.len() ==> (
        #[trigger] o.diffs[i].changes[j]).kind.in_range()
}

/// The value of the early-exit flag where a request leaves it out.
pub fn default_true() -> (flag: bool)
    ensures
        flag,
{
    true
}

/// Simulates `request.world` for `request.ticks` ticks, or until a tick
/// changes nothing while no countdown is running if `request.early_exit` is
/// set. Reports, for each tick that changed something, the blocks that
/// changed.
pub fn simulate(request: SimRequest) -> (response: SimResponse)
    ensures
        response@ == run(request.world.blocks@, request.ticks as nat, request.early_exit),
        all_in_range(request.world.blocks@) ==> reports_in_range(response@),
{
    let ticks = request.ticks;
    let early_exit = request.early_exit;
    let ghost blocks = request.world.blocks@;
    let ghost goal = run(blocks, ticks as nat, early_exit);
    let mut engine = Engine::new(request.world);
    let mut diffs: Vec<TickDiff> = Vec::new();
    let mut done: u32 = 0;
    assert(records(diffs@) + goal.diffs =~= goal.diffs);
    while done < ticks
        invariant
            done <= ticks,
            goal.diffs == records(diffs@) + run_from(
                engine@,
                (done + 1) as nat,
                ticks as nat,
                early_exit,
            ).diffs,
            goal.terminated == run_from(
                engine@,
                (done + 1) as nat,
                ticks as nat,
                early_exit,
            ).terminated,
            goal == run(blocks, ticks as nat, early_exit),
            blocks == request.world.blocks@,
            ticks == request.ticks,
            early_exit == request.early_exit,
        decreases ticks - done,
    {
        let tick: u32 = done + 1;
        let ghost listed = records(diffs@);
        let (next, changes) = engine.tick();
        engine = next;
        done = tick;
        if changes.len() > 0 {
            let ghost record = TickRecord { tick: tick as nat, changes: changes@ };
            diffs.push(TickDiff { tick, changes });
            proof {
                let rest = run_from(engine@, (tick + 1) as nat, ticks as nat, early_exit).diffs;
                assert(records(diffs@) =~= listed.push(record));
                assert(listed.push(record) + rest =~= listed + (seq![record] + rest));
            }
        } else if early_exit && !engine.timers_active() {
            proof {
                assert(listed + Seq::<TickRecord>::empty() =~= listed);
                lemma_run_in_range(blocks, ticks as nat, early_exit);
            }
            return SimResponse { diffs, terminated: Termination::Stable };
        }
    }
    proof {
        assert(records(diffs@) + Seq::<TickRecord>::empty() =~= records(diffs@));
        lemma_run_in_range(blocks, ticks as nat, early_exit);
    }
    SimResponse { diffs, terminated: Termination::MaxTicksReached }
}

} // verus!
