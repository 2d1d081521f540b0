//! What holds of every run: the reported states stay in range, a reported
//! change is a real change, a stable end is a quiescent world, and a
//! quiescent world stays as it is.

use vstd::prelude::*;
use crate::engine::{
    advance, diff, diff_upto, lemma_next_cells_positions, lemma_start_ascending, next_cell,
    next_cells, next_dirty, start, wakes, woken_upto, BlockChange, SimState,
};
use crate::geometry::Pos;
use crate::rules::lemma_next_kind_in_range;
use crate::sim::{
    after, changes_at, last_tick_from, reports_in_range, run, run_from, ticks_run, Termination,
    TickRecord,
};
use crate::world::{
    all_in_range, ascending, block_at, index_at, lemma_block_at_index, lemma_canonical_in_range,
    occupied, timers_active, PlacedBlock,
};

verus! {

/// A tick on a world in range gives a world in range.
pub proof fn lemma_advance_in_range(s: SimState)
    requires
        all_in_range(s.cells),
    ensures
        all_in_range(advance(s).cells),
{
    let next = next_cells(s);
    assert forall|i: int| 0 <= i < next.len() implies (#[trigger] next[i]).kind.in_range() by {
        let c = s.cells[i];
        assert(c.kind.in_range());
        lemma_next_kind_in_range(s.cells, c.pos, c.kind);
        assert(next[i] == next_cell(s, i));
    }
}

/// Every change carries the state of a block of the later listing.
pub proof fn lemma_diff_in_range(before: Seq<PlacedBlock>, after: Seq<PlacedBlock>, n: nat)
    requires
        all_in_range(after),
        n <= after.len(),
    ensures
        forall|j: int|
            0 <= j < diff_upto(before, after, n).len() ==> (#[trigger] diff_upto(
                before,
                after,
                n,
            )[j]).kind.in_range(),
    decreases n,
{
    if n > 0 {
        lemma_diff_in_range(before, after, (n - 1) as nat);
        assert(after[n - 1].kind.in_range());
    }
}

/// Power bounds, from any state: a run that starts on blocks in range
/// reports only block states in range.
pub proof fn lemma_run_from_in_range(s: SimState, tick: nat, budget: nat, early_exit: bool)
    requires
        all_in_range(s.cells),
    ensures
        reports_in_range(run_from(s, tick, budget, early_exit)),
    decreases budget + 1 - tick,
{
    if tick <= budget {
        let after = advance(s);
        let changes = diff(s.cells, after.cells);
        lemma_advance_in_range(s);
        lemma_diff_in_range(s.cells, after.cells, s.cells.len());
        lemma_run_from_in_range(after, tick + 1, budget, early_exit);
        if changes.len() > 0 {
            let rest = run_from(after, tick + 1, budget, early_exit);
            let o = run_from(s, tick, budget, early_exit);
            let head = TickRecord { tick, changes };
            assert(o.diffs == seq![head] + rest.diffs);
            assert forall|i: int, j: int|
                0 <= i < o.diffs.len() && 0 <= j < o.diffs[i].changes.len() implies (
            #[trigger] o.diffs[i].changes[j]).kind.in_range() by {
                if i == 0 {
                    assert(o.diffs[0] == head);
                } else {
                    assert(o.diffs[i] == rest.diffs[i - 1]);
                    assert(rest.diffs[i - 1].changes[j].kind.in_range());
                }
            }
        }
    }
}

/// Power bounds: where every block of the world has its fields in range,
/// so has every block state that the run reports; in particular every
/// reported power level lies within 0..=15.
pub proof fn lemma_run_in_range(blocks: Seq<PlacedBlock>, budget: nat, early_exit: bool)
    ensures
        all_in_range(blocks) ==> reports_in_range(run(blocks, budget, early_exit)),
{
    if all_in_range(blocks) {
        lemma_canonical_in_range(blocks);
        lemma_run_from_in_range(start(blocks), 1, budget, early_exit);
    }
}

/// Running `k` ticks after one tick is running `k + 1` ticks.
pub proof fn lemma_after_shift(s: SimState, k: nat)
    ensures
        after(advance(s), k) == after(s, k + 1),
    decreases k,
{
    assert(after(s, 0) == s);
    if k > 0 {
        lemma_after_shift(s, (k - 1) as nat);
        assert(after(advance(s), k) == advance(after(advance(s), (k - 1) as nat)));
        assert(after(s, k + 1) == advance(after(s, k)));
    } else {
        assert(after(s, 1) == advance(after(s, 0)));
    }
}

/// Ticks move no block: after any number of ticks the listing is ascending
/// and holds the same positions at the same indexes.
pub proof fn lemma_after_positions(s: SimState, k: nat)
    requires
        ascending(s.cells),
    ensures
        ascending(after(s, k).cells),
        after(s, k).cells.len() == s.cells.len(),
        forall|i: int|
            0 <= i < s.cells.len() ==> (#[trigger] after(s, k).cells[i]).pos == s.cells[i].pos,
    decreases k,
{
    if k > 0 {
        let prev = after(s, (k - 1) as nat);
        lemma_after_positions(s, (k - 1) as nat);
        lemma_next_cells_positions(prev);
        assert forall|i: int| 0 <= i < s.cells.len() implies (#[trigger] after(s, k).cells[i]).pos
            == s.cells[i].pos by {
            assert(next_cells(prev)[i].pos == prev.cells[i].pos);
        }
    }
}

/// Whether the block with index `i` has another state in `later` than in
/// `before`.
pub open spec fn differs_at(before: Seq<PlacedBlock>, later: Seq<PlacedBlock>, i: int) -> bool {
    later[i].kind != before[i].kind
}

/// The change that reports the block with index `i` of `later`.
pub open spec fn change_of(later: Seq<PlacedBlock>, i: int) -> BlockChange {
    BlockChange { pos: later[i].pos, kind: later[i].kind }
}

/// The change list of two listings of the same cells names exactly the
/// indexes at which the block state differs, each with the later state.
pub proof fn lemma_diff_upto_exact(before: Seq<PlacedBlock>, later: Seq<PlacedBlock>, n: nat)
    requires
        n <= before.len(),
        before.len() == later.len(),
    ensures
        forall|j: int|
            0 <= j < diff_upto(before, later, n).len() ==> exists|i: int|
                0 <= i < n && differs_at(before, later, i) && #[trigger] diff_upto(
                    before,
                    later,
                    n,
                )[j] == #[trigger] change_of(later, i),
        forall|i: int|
            0 <= i < n && #[trigger] differs_at(before, later, i) ==> exists|j: int|
                0 <= j < diff_upto(before, later, n).len() && #[trigger] diff_upto(
                    before,
                    later,
                    n,
                )[j] == change_of(later, i),
    decreases n,
{
    if n > 0 {
        let m = (n - 1) as nat;
        lemma_diff_upto_exact(before, later, m);
        let rest = diff_upto(before, later, m);
        let all = diff_upto(before, later, n);
        assert forall|j: int| 0 <= j < all.len() implies exists|i: int|
            0 <= i < n && differs_at(before, later, i) && #[trigger] all[j] == #[trigger] change_of(
                later,
                i,
            ) by {
            if j < rest.len() {
                assert(all[j] == rest[j]);
                let i = choose|i: int|
                    0 <= i < m && differs_at(before, later, i) && #[trigger] rest[j]
                        == #[trigger] change_of(later, i);
                assert(0 <= i < n && differs_at(before, later, i) && all[j] == change_of(later, i));
            } else {
                assert(differs_at(before, later, n - 1) && all[j] == change_of(later, n - 1));
            }
        }
        assert forall|i: int| 0 <= i < n && #[trigger] differs_at(before, later, i) implies exists|
            j: int,
        | 0 <= j < all.len() && #[trigger] all[j] == change_of(later, i) by {
            if i < m {
                let j = choose|j: int|
                    0 <= j < rest.len() && #[trigger] rest[j] == change_of(later, i);
                assert(all[j] == rest[j]);
            } else {
                assert(all[rest.len() as int] == change_of(later, i));
            }
        }
    }
}

/// Two listings of the same cells differ in no block exactly when their
/// change list is empty.
pub proof fn lemma_diff_empty(before: Seq<PlacedBlock>, later: Seq<PlacedBlock>)
    requires
        before.len() == later.len(),
        forall|i: int| 0 <= i < before.len() ==> (#[trigger] later[i]).pos == before[i].pos,
    ensures
        diff(before, later).len() == 0 <==> later == before,
{
    lemma_diff_upto_exact(before, later, before.len());
    let d = diff(before, later);
    if d.len() == 0 {
        assert forall|i: int| 0 <= i < before.len() implies later[i] == before[i] by {
            assert(later[i].pos == before[i].pos);
            if differs_at(before, later, i) {
                let j = choose|j: int| 0 <= j < d.len() && #[trigger] d[j] == change_of(later, i);
            }
        }
        assert(later =~= before);
    }
    if later == before && d.len() > 0 {
        let i = choose|i: int|
            0 <= i < before.len() && differs_at(before, later, i) && #[trigger] d[0]
                == #[trigger] change_of(later, i);
    }
}

/// A position is listed among the changes between two listings of the same
/// cells exactly when the block there differs, and it is listed with the
/// later state.
pub proof fn lemma_diff_real(before: Seq<PlacedBlock>, later: Seq<PlacedBlock>)
    requires
        ascending(before),
        before.len() == later.len(),
        forall|i: int| 0 <= i < before.len() ==> (#[trigger] later[i]).pos == before[i].pos,
    ensures
        forall|j: int|
            0 <= j < diff(before, later).len() ==> {
                let c = #[trigger] diff(before, later)[j];
                &&& block_at(later, c.pos) == Some(c.kind)
                &&& block_at(before, c.pos) != Some(c.kind)
            },
        forall|p: Pos|
            #[trigger] block_at(later, p) != block_at(before, p) ==> exists|j: int|
                0 <= j < diff(before, later).len() && (#[trigger] diff(before, later)[j]).pos == p,
{
    let n = before.len();
    let d = diff(before, later);
    lemma_diff_upto_exact(before, later, n);
    assert(ascending(later)) by {
        assert forall|i: int, j: int| 0 <= i < j < later.len() implies (#[trigger] later[i]).pos.precedes(
            (#[trigger] later[j]).pos,
        ) by {
            assert(before[i].pos.precedes(before[j].pos));
        }
    }
    assert forall|j: int| 0 <= j < d.len() implies {
        let c = #[trigger] d[j];
        &&& block_at(later, c.pos) == Some(c.kind)
        &&& block_at(before, c.pos) != Some(c.kind)
    } by {
        let i = choose|i: int|
            0 <= i < n && differs_at(before, later, i) && #[trigger] d[j] == #[trigger] change_of(
                later,
                i,
            );
        assert(later[i].pos == before[i].pos);
        lemma_block_at_index(before, i);
        lemma_block_at_index(later, i);
    }
    assert forall|p: Pos| #[trigger] block_at(later, p) != block_at(before, p) implies exists|
        j: int,
    | 0 <= j < d.len() && (#[trigger] d[j]).pos == p by {
        if occupied(later, p) {
            let i = index_at(later, p);
            assert(later[i].pos == before[i].pos);
            lemma_block_at_index(before, i);
            lemma_block_at_index(later, i);
            assert(differs_at(before, later, i));
            let j = choose|j: int| 0 <= j < d.len() && #[trigger] d[j] == change_of(later, i);
            assert(d[j].pos == p);
        } else if occupied(before, p) {
            let i = index_at(before, p);
            assert(later[i].pos == p);
        }
    }
}

/// Diff minimality, for one tick: a position is listed among the changes of
/// the `k`-th tick exactly when the block there differs from its state one
/// tick earlier, and it is listed with the state the block has after the
/// tick.
pub proof fn lemma_changes_are_real(s: SimState, k: nat)
    requires
        ascending(s.cells),
        k >= 1,
    ensures
        forall|j: int|
            0 <= j < changes_at(s, k).len() ==> {
                let c = #[trigger] changes_at(s, k)[j];
                &&& block_at(after(s, k).cells, c.pos) == Some(c.kind)
                &&& block_at(after(s, (k - 1) as nat).cells, c.pos) != Some(c.kind)
            },
        forall|p: Pos|
            #[trigger] block_at(after(s, k).cells, p) != block_at(
                after(s, (k - 1) as nat).cells,
                p,
            ) ==> exists|j: int|
                0 <= j < changes_at(s, k).len() && (#[trigger] changes_at(s, k)[j]).pos == p,
{
    let before = after(s, (k - 1) as nat).cells;
    let later = after(s, k).cells;
    lemma_after_positions(s, (k - 1) as nat);
    lemma_after_positions(s, k);
    assert forall|i: int| 0 <= i < before.len() implies (#[trigger] later[i]).pos
        == before[i].pos by {
        assert(before[i].pos == s.cells[i].pos);
    }
    lemma_diff_real(before, later);
}

/// The changes of tick number `t` in a run that starts in state `s` with
/// tick number `first`.
pub open spec fn tick_changes(s: SimState, first: nat, t: nat) -> Seq<BlockChange> {
    changes_at(s, (t - first + 1) as nat)
}

/// The records list exactly the ticks from `first` to `last` that changed
/// something, in ascending order, each with the change list of its tick.
pub open spec fn records_exact(diffs: Seq<TickRecord>, s: SimState, first: nat, last: nat) -> bool {
    &&& forall|i: int|
        0 <= i < diffs.len() ==> {
            let r = #[trigger] diffs[i];
            &&& first <= r.tick <= last
            &&& r.changes.len() > 0
            &&& r.changes == tick_changes(s, first, r.tick)
        }
    &&& forall|i: int, j: int|
        0 <= i < j < diffs.len() ==> (#[trigger] diffs[i]).tick < (#[trigger] diffs[j]).tick
    &&& forall|t: nat|
        first <= t <= last && (#[trigger] tick_changes(s, first, t)).len() > 0 ==> exists|i: int|
            0 <= i < diffs.len() && (#[trigger] diffs[i]).tick == t
}

/// A tick number of the run after the first tick names the same tick in the
/// run as a whole.
proof fn lemma_tick_changes_shift(s: SimState, first: nat, t: nat)
    requires
        first < t,
    ensures
        tick_changes(advance(s), first + 1, t) == tick_changes(s, first, t),
{
    let k = (t - first) as nat;
    lemma_after_shift(s, k);
    lemma_after_shift(s, (k - 1) as nat);
}

/// Records that are exact for the run after a first tick that changed
/// nothing are exact for the whole run.
proof fn lemma_records_skip(rest: Seq<TickRecord>, s: SimState, first: nat, last: nat)
    requires
        records_exact(rest, advance(s), first + 1, last),
        tick_changes(s, first, first).len() == 0,
    ensures
        records_exact(rest, s, first, last),
{
    assert forall|i: int| 0 <= i < rest.len() implies {
        let r = #[trigger] rest[i];
        &&& first <= r.tick <= last
        &&& r.changes.len() > 0
        &&& r.changes == tick_changes(s, first, r.tick)
    } by {
        lemma_tick_changes_shift(s, first, rest[i].tick);
    }
    assert forall|t: nat|
        first <= t <= last && (#[trigger] tick_changes(s, first, t)).len() > 0 implies exists|
        i: int,
    | 0 <= i < rest.len() && (#[trigger] rest[i]).tick == t by {
        lemma_tick_changes_shift(s, first, t);
        assert(tick_changes(advance(s), first + 1, t).len() > 0);
    }
}

/// Records that are exact for the run after the first tick, with the record
/// of a first tick that changed something in front, are exact for the whole
/// run.
proof fn lemma_records_cons(rest: Seq<TickRecord>, s: SimState, first: nat, last: nat)
    requires
        records_exact(rest, advance(s), first + 1, last),
        tick_changes(s, first, first).len() > 0,
        first <= last,
    ensures
        records_exact(
            seq![TickRecord { tick: first, changes: tick_changes(s, first, first) }] + rest,
            s,
            first,
            last,
        ),
{
    let head = TickRecord { tick: first, changes: tick_changes(s, first, first) };
    let all = seq![head] + rest;
    assert(all[0] == head);
    assert forall|i: int| 1 <= i < all.len() implies #[trigger] all[i] == rest[i - 1] by {}
    assert forall|i: int| 0 <= i < all.len() implies {
        let r = #[trigger] all[i];
        &&& first <= r.tick <= last
        &&& r.changes.len() > 0
        &&& r.changes == tick_changes(s, first, r.tick)
    } by {
        if i > 0 {
            assert(all[i] == rest[i - 1]);
            lemma_tick_changes_shift(s, first, rest[i - 1].tick);
        }
    }
    assert forall|i: int, j: int| 0 <= i < j < all.len() implies (#[trigger] all[i]).tick < (
    #[trigger] all[j]).tick by {
        assert(all[j] == rest[j - 1]);
        if i > 0 {
            assert(all[i] == rest[i - 1]);
        }
    }
    assert forall|t: nat|
        first <= t <= last && (#[trigger] tick_changes(s, first, t)).len() > 0 implies exists|
        i: int,
    | 0 <= i < all.len() && (#[trigger] all[i]).tick == t by {
        if t == first {
            assert(all[0].tick == t);
        } else {
            lemma_tick_changes_shift(s, first, t);
            assert(tick_changes(advance(s), first + 1, t).len() > 0);
            let i = choose|i: int| 0 <= i < rest.len() && (#[trigger] rest[i]).tick == t;
            assert(all[i + 1] == rest[i]);
        }
    }
}

/// Diff minimality, for a run from any state: the records list exactly the
/// ticks that ran and changed something, each with the change list of its
/// tick.
pub proof fn lemma_records_from(s: SimState, tick: nat, budget: nat, early_exit: bool)
    requires
        tick >= 1,
    ensures
        tick - 1 <= last_tick_from(s, tick, budget, early_exit),
        last_tick_from(s, tick, budget, early_exit) <= budget || last_tick_from(
            s,
            tick,
            budget,
            early_exit,
        ) == tick - 1,
        records_exact(
            run_from(s, tick, budget, early_exit).diffs,
            s,
            tick,
            last_tick_from(s, tick, budget, early_exit),
        ),
    decreases budget + 1 - tick,
{
    let o = run_from(s, tick, budget, early_exit);
    let last = last_tick_from(s, tick, budget, early_exit);
    if tick <= budget {
        let next = advance(s);
        let changes = diff(s.cells, next.cells);
        assert(after(s, 0) == s);
        assert(after(s, 1) == advance(after(s, 0)));
        assert(changes == tick_changes(s, tick, tick));
        let stops = changes.len() == 0 && early_exit && !timers_active(next.cells);
        if stops {
            assert(o.diffs.len() == 0);
            assert(last == tick);
        } else {
            lemma_records_from(next, tick + 1, budget, early_exit);
            let rest = run_from(next, tick + 1, budget, early_exit);
            assert(last == last_tick_from(next, tick + 1, budget, early_exit));
            if changes.len() > 0 {
                lemma_records_cons(rest.diffs, s, tick, last);
            } else {
                lemma_records_skip(rest.diffs, s, tick, last);
            }
        }
    }
}

/// Diff minimality: the response lists for each tick exactly the blocks
/// that the tick changed. Each entry holds the non-empty change list of its
/// tick, and the ticks are listed in ascending order. Every listed change
/// names a block whose state after the tick is the listed one and differs
/// from its state before the tick. Every block whose state a tick of the
/// run changed is listed under that tick.
pub proof fn lemma_diff_minimality(blocks: Seq<PlacedBlock>, budget: nat, early_exit: bool)
    ensures
        ticks_run(blocks, budget, early_exit) <= budget,
        records_exact(
            run(blocks, budget, early_exit).diffs,
            start(blocks),
            1,
            ticks_run(blocks, budget, early_exit),
        ),
        forall|i: int, j: int|
            0 <= i < run(blocks, budget, early_exit).diffs.len() && 0 <= j < run(
                blocks,
                budget,
                early_exit,
            ).diffs[i].changes.len() ==> {
                let r = run(blocks, budget, early_exit).diffs[i];
                let c = #[trigger] run(blocks, budget, early_exit).diffs[i].changes[j];
                &&& block_at(after(start(blocks), r.tick).cells, c.pos) == Some(c.kind)
                &&& block_at(after(start(blocks), (r.tick - 1) as nat).cells, c.pos) != Some(
                    c.kind,
                )
            },
        forall|t: nat, p: Pos|
            1 <= t <= ticks_run(blocks, budget, early_exit) && #[trigger] block_at(
                after(start(blocks), t).cells,
                p,
            ) != block_at(after(start(blocks), (t - 1) as nat).cells, p) ==> exists|
                i: int,
                j: int,
            |
                0 <= i < run(blocks, budget, early_exit).diffs.len() && 0 <= j < run(
                    blocks,
                    budget,
                    early_exit,
                ).diffs[i].changes.len() && run(blocks, budget, early_exit).diffs[i].tick == t && (
                #[trigger] run(blocks, budget, early_exit).diffs[i].changes[j]).pos == p,
{
    let s = start(blocks);
    let diffs = run(blocks, budget, early_exit).diffs;
    let last = ticks_run(blocks, budget, early_exit);
    lemma_records_from(s, 1, budget, early_exit);
    lemma_start_ascending(blocks);
    assert forall|i: int, j: int| 0 <= i < diffs.len() && 0 <= j < diffs[i].changes.len() implies {
        let r = diffs[i];
        let c = #[trigger] diffs[i].changes[j];
        &&& block_at(after(s, r.tick).cells, c.pos) == Some(c.kind)
        &&& block_at(after(s, (r.tick - 1) as nat).cells, c.pos) != Some(c.kind)
    } by {
        let r = diffs[i];
        assert(r.changes == tick_changes(s, 1, r.tick));
        lemma_changes_are_real(s, r.tick);
        assert(changes_at(s, r.tick)[j] == r.changes[j]);
    }
    assert forall|t: nat, p: Pos|
        1 <= t <= last && #[trigger] block_at(after(s, t).cells, p) != block_at(
            after(s, (t - 1) as nat).cells,
            p,
        ) implies exists|i: int, j: int|
        0 <= i < diffs.len() && 0 <= j < diffs[i].changes.len() && diffs[i].tick == t && (
        #[trigger] diffs[i].changes[j]).pos == p by {
        lemma_changes_are_real(s, t);
        let j = choose|j: int|
            0 <= j < changes_at(s, t).len() && (#[trigger] changes_at(s, t)[j]).pos == p;
        assert(tick_changes(s, 1, t) == changes_at(s, t));
        assert(tick_changes(s, 1, t).len() > 0);
        let i = choose|i: int| 0 <= i < diffs.len() && (#[trigger] diffs[i]).tick == t;
        assert(diffs[i].changes == tick_changes(s, 1, diffs[i].tick));
        assert(diffs[i].changes[j].pos == p);
    }
}

/// No false stability, for a run from any state: a run that ends stable
/// has set the early exit, executed at least one tick, and its last tick
/// changed nothing and left no countdown running.
pub proof fn lemma_stable_from(s: SimState, tick: nat, budget: nat, early_exit: bool)
    requires
        tick >= 1,
        run_from(s, tick, budget, early_exit).terminated == Termination::Stable,
    ensures
        early_exit,
        tick <= last_tick_from(s, tick, budget, early_exit) <= budget,
        tick_changes(s, tick, last_tick_from(s, tick, budget, early_exit)).len() == 0,
        !timers_active(
            after(s, (last_tick_from(s, tick, budget, early_exit) - tick + 1) as nat).cells,
        ),
    decreases budget + 1 - tick,
{
    let last = last_tick_from(s, tick, budget, early_exit);
    if tick <= budget {
        let next = advance(s);
        let changes = diff(s.cells, next.cells);
        assert(after(s, 0) == s);
        assert(after(s, 1) == advance(after(s, 0)));
        assert(changes == tick_changes(s, tick, tick));
        let stops = changes.len() == 0 && early_exit && !timers_active(next.cells);
        if !stops {
            lemma_stable_from(next, tick + 1, budget, early_exit);
            lemma_tick_changes_shift(s, tick, last);
            lemma_after_shift(s, (last - tick) as nat);
        }
    }
}

/// No false stability: where the run ends stable, at least one tick ran,
/// the last tick changed no block, and in the world it left no block has a
/// countdown running.
pub proof fn lemma_no_false_stability(blocks: Seq<PlacedBlock>, budget: nat, early_exit: bool)
    requires
        run(blocks, budget, early_exit).terminated == Termination::Stable,
    ensures
        early_exit,
        1 <= ticks_run(blocks, budget, early_exit) <= budget,
        changes_at(start(blocks), ticks_run(blocks, budget, early_exit)).len() == 0,
        !timers_active(after(start(blocks), ticks_run(blocks, budget, early_exit)).cells),
{
    lemma_stable_from(start(blocks), 1, budget, early_exit);
    let last = ticks_run(blocks, budget, early_exit);
    assert((last - 1 + 1) as nat == last);
}

/// No position is dirty.
pub open spec fn inert(s: SimState) -> bool {
    forall|p: Pos| !s.dirty.contains(p)
}

/// A tick without a dirty position changes nothing and leaves nothing dirty.
pub proof fn lemma_inert_is_fixed(s: SimState)
    requires
        inert(s),
    ensures
        advance(s).cells == s.cells,
        inert(advance(s)),
{
    assert(next_cells(s) =~= s.cells);
    assert forall|p: Pos| !next_dirty(s).contains(p) by {
        if woken_upto(s, s.cells.len() as int, p) {
            let i = choose|i: int| 0 <= i < s.cells.len() && #[trigger] wakes(s, i, p);
            assert(!s.dirty.contains(s.cells[i].pos));
        }
    }
}

/// A tick that changes no block and leaves no countdown running leaves no
/// position dirty.
pub proof fn lemma_quiet_then_inert(s: SimState)
    requires
        diff(s.cells, advance(s).cells).len() == 0,
        !timers_active(advance(s).cells),
    ensures
        advance(s).cells == s.cells,
        inert(advance(s)),
{
    let next = next_cells(s);
    assert forall|i: int| 0 <= i < s.cells.len() implies (#[trigger] next[i]).pos
        == s.cells[i].pos by {}
    lemma_diff_empty(s.cells, next);
    assert forall|p: Pos| !next_dirty(s).contains(p) by {
        if woken_upto(s, s.cells.len() as int, p) {
            let i = choose|i: int| 0 <= i < s.cells.len() && #[trigger] wakes(s, i, p);
            let c = s.cells[i];
            assert(next[i] == next_cell(s, i));
            assert(next_cell(s, i).kind == c.kind);
            assert(!c.kind.signal_differs(c.kind));
            assert(!next[i].kind.timer_running());
        }
    }
}

/// From a state where nothing is dirty no tick changes anything.
pub proof fn lemma_inert_run(s: SimState, tick: nat, budget: nat, early_exit: bool)
    requires
        inert(s),
    ensures
        run_from(s, tick, budget, early_exit).diffs.len() == 0,
    decreases budget + 1 - tick,
{
    if tick <= budget {
        lemma_inert_is_fixed(s);
        lemma_diff_empty(s.cells, s.cells);
        lemma_inert_run(advance(s), tick + 1, budget, early_exit);
    }
}

/// Idempotence at quiescence, for a run from any state: where the run with
/// early exit ends stable, a run with any budget that reaches its last tick
/// reports the same diffs, whether or not it exits early.
pub proof fn lemma_rerun_from(s: SimState, tick: nat, budget: nat, longer: nat, early_exit: bool)
    requires
        tick >= 1,
        run_from(s, tick, budget, true).terminated == Termination::Stable,
        longer >= last_tick_from(s, tick, budget, true),
    ensures
        run_from(s, tick, longer, early_exit).diffs == run_from(s, tick, budget, true).diffs,
        early_exit ==> run_from(s, tick, longer, early_exit).terminated == Termination::Stable,
    decreases budget + 1 - tick,
{
    if tick <= budget {
        let next = advance(s);
        let changes = diff(s.cells, next.cells);
        let stops = changes.len() == 0 && !timers_active(next.cells);
        if stops {
            if !early_exit {
                lemma_quiet_then_inert(s);
                lemma_inert_run(next, tick + 1, longer, early_exit);
            }
            assert(run_from(s, tick, longer, early_exit).diffs =~= run_from(
                s,
                tick,
                budget,
                true,
            ).diffs);
        } else {
            lemma_records_from(next, tick + 1, budget, true);
            lemma_rerun_from(next, tick + 1, budget, longer, early_exit);
        }
    }
}

/// Idempotence at quiescence: once a run has ended stable after `T` ticks,
/// the run of the same world with any budget of at least `T` ticks reports
/// the same diffs, none of them for a tick after `T`, whether or not it
/// exits early; with early exit it ends stable again.
pub proof fn lemma_idempotent_at_quiescence(
    blocks: Seq<PlacedBlock>,
    budget: nat,
    longer: nat,
    early_exit: bool,
)
    requires
        run(blocks, budget, true).terminated == Termination::Stable,
        longer >= ticks_run(blocks, budget, true),
    ensures
        run(blocks, longer, early_exit).diffs == run(blocks, budget, true).diffs,
        forall|i: int|
            0 <= i < run(blocks, longer, early_exit).diffs.len() ==> (#[trigger] run(
                blocks,
                longer,
                early_exit,
            ).diffs[i]).tick <= ticks_run(blocks, budget, true),
        early_exit ==> run(blocks, longer, early_exit) == run(blocks, budget, true),
{
    lemma_rerun_from(start(blocks), 1, budget, longer, early_exit);
    lemma_records_from(start(blocks), 1, budget, true);
}

} // verus!
