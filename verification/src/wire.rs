//! The attenuation law: a straight line of wire driven by a lever settles
//! with the full signal on the first wire and one less on each further wire.

use vstd::prelude::*;
use crate::block::{lemma_select_contains, BlockKind, Connectable};
use crate::engine::{
    advance, diff, next_cell, next_cells, next_dirty, start, wakes, woken_upto, SimState,
};
use crate::geometry::{Direction, Pos};
use crate::laws::{differs_at, lemma_diff_empty, lemma_diff_upto_exact};
use crate::rules::{lemma_greatest, next_kind, wire_incoming, wire_level};
use crate::sim::{after, last_tick_from, run, run_from, ticks_run, Termination};
use crate::world::{
    ascending, block_at, canonical, index_at, last_placed, lemma_block_at_index, lemma_canonical,
    occupied, timers_active, PlacedBlock,
};

verus! {

/// A lever that is on, and `wires` wires in a straight line in front of it.
pub struct WireLine {
    pub origin: Pos,
    pub dir: Direction,
    pub wires: nat,
}

/// The power on which the `k`-th wire of a line settles, counting from 1 at
/// the wire next to the lever: 15 on the first wire, one less on each
/// further wire, and 0 from the sixteenth wire on.
pub open spec fn level(k: int) -> u8 {
    if 1 <= k <= 15 {
        (16 - k) as u8
    } else {
        0u8
    }
}

impl WireLine {
    /// The whole line lies on the grid.
    pub open spec fn fits(self) -> bool {
        match self.dir {
            Direction::East => self.origin.x + self.wires <= i32::MAX,
            Direction::West => self.origin.x - self.wires >= i32::MIN,
            Direction::Up => self.origin.y + self.wires <= i32::MAX,
            Direction::Down => self.origin.y - self.wires >= i32::MIN,
            Direction::South => self.origin.z + self.wires <= i32::MAX,
            Direction::North => self.origin.z - self.wires >= i32::MIN,
        }
    }

    /// The cell `k` steps in front of the lever.
    pub open spec fn spot(self, k: int) -> Pos {
        let o = self.origin;
        match self.dir {
            Direction::East => Pos { x: (o.x + k) as i32, y: o.y, z: o.z },
            Direction::West => Pos { x: (o.x - k) as i32, y: o.y, z: o.z },
            Direction::Up => Pos { x: o.x, y: (o.y + k) as i32, z: o.z },
            Direction::Down => Pos { x: o.x, y: (o.y - k) as i32, z: o.z },
            Direction::South => Pos { x: o.x, y: o.y, z: (o.z + k) as i32 },
            Direction::North => Pos { x: o.x, y: o.y, z: (o.z - k) as i32 },
        }
    }

    /// How many steps in front of the lever `p` lies along the axis of the
    /// line.
    pub open spec fn hop(self, p: Pos) -> int {
        let o = self.origin;
        match self.dir {
            Direction::East => p.x - o.x,
            Direction::West => o.x - p.x,
            Direction::Up => p.y - o.y,
            Direction::Down => o.y - p.y,
            Direction::South => p.z - o.z,
            Direction::North => o.z - p.z,
        }
    }

    /// Whether `p` is the cell of the lever or of one of the wires.
    pub open spec fn holds(self, p: Pos) -> bool {
        0 <= self.hop(p) <= self.wires && p == self.spot(self.hop(p))
    }

    /// The block placed `k` steps in front of the lever's cell.
    pub open spec fn placed(self, k: int) -> PlacedBlock {
        PlacedBlock {
            pos: self.spot(k),
            kind: if k == 0 {
                BlockKind::Lever { on: true, facing: self.dir }
            } else {
                BlockKind::Dust { power: 0 }
            },
        }
    }

    /// The world: the lever, then the unpowered wires in order.
    pub open spec fn blocks(self) -> Seq<PlacedBlock> {
        Seq::new(self.wires + 1, |k: int| self.placed(k))
    }

    /// The number of the first tick that changes nothing.
    pub open spec fn settle_tick(self) -> nat {
        if self.wires <= 15 {
            self.wires + 1
        } else {
            16
        }
    }

    /// The block `k` steps in front of the lever after `t` ticks: the signal
    /// has reached the first `t` wires.
    pub open spec fn kind_after(self, t: nat, k: int) -> BlockKind {
        if k == 0 {
            BlockKind::Lever { on: true, facing: self.dir }
        } else {
            BlockKind::Dust { power: if k <= t { level(k) } else { 0u8 } }
        }
    }

    /// The blocks after `t` ticks.
    pub open spec fn cells_after(self, t: nat) -> Seq<PlacedBlock> {
        let base = canonical(self.blocks());
        Seq::new(
            base.len(),
            |i: int| PlacedBlock { pos: base[i].pos, kind: self.kind_after(t, self.hop(base[i].pos)) },
        )
    }

    /// The dirty positions after `t` ticks: at first every block; then the
    /// two neighbors of the wire that the last tick lit; nothing once a
    /// tick has changed nothing.
    pub open spec fn dirty_after(self, t: nat) -> Set<Pos> {
        Set::new(
            |p: Pos|
                self.holds(p) && (t == 0 || (t < self.settle_tick() && (self.hop(p) == t - 1
                    || self.hop(p) == t + 1))),
        )
    }

    /// The state after `t` ticks.
    pub open spec fn state_after(self, t: nat) -> SimState {
        SimState { cells: self.cells_after(t), dirty: self.dirty_after(t) }
    }
}

/// The cells of a line are distinct, each `k` hops from the lever, and on
/// the grid.
pub proof fn lemma_spot(line: WireLine, k: int)
    requires
        line.fits(),
        0 <= k <= line.wires,
    ensures
        line.hop(line.spot(k)) == k,
        line.holds(line.spot(k)),
{
}

/// Along the line the neighbors of a cell are the next and the previous
/// cell; in every other direction the neighbor lies off the line.
pub proof fn lemma_line_neighbor(line: WireLine, k: int, e: Direction)
    requires
        line.fits(),
        0 <= k <= line.wires,
    ensures
        e == line.dir && k + 1 <= line.wires ==> line.spot(k).neighbor(e) == Some(
            line.spot(k + 1),
        ),
        e == line.dir.opposite() && k >= 1 ==> line.spot(k).neighbor(e) == Some(line.spot(k - 1)),
        !(e == line.dir && k + 1 <= line.wires) && !(e == line.dir.opposite() && k >= 1) ==> (
        match line.spot(k).neighbor(e) {
            Some(q) => !line.holds(q),
            None => true,
        }),
{
}

/// The world of a line places at each of its cells the block of that cell,
/// and nothing anywhere else.
pub proof fn lemma_line_placed(line: WireLine, p: Pos)
    requires
        line.fits(),
    ensures
        last_placed(line.blocks(), p) == if line.holds(p) {
            Some(line.placed(line.hop(p)).kind)
        } else {
            None
        },
    decreases line.wires,
{
    let blocks = line.blocks();
    let n = line.wires as int;
    assert(blocks.last() == line.placed(n));
    lemma_spot(line, n);
    if n == 0 {
        assert(blocks.drop_last().len() == 0);
        if blocks.last().pos != p {
            assert(last_placed(blocks.drop_last(), p) == None::<BlockKind>);
        }
    } else {
        let shorter = WireLine { origin: line.origin, dir: line.dir, wires: (n - 1) as nat };
        assert(blocks.drop_last() =~= shorter.blocks());
        lemma_line_placed(shorter, p);
        assert(forall|k: int| shorter.spot(k) == line.spot(k));
        assert(shorter.hop(p) == line.hop(p));
    }
}

/// The listing of a line's world is ascending, holds exactly the cells of
/// the line, and so does the listing after any number of ticks, where the
/// block found at each cell is the one the signal has left there.
pub proof fn lemma_line_cells(line: WireLine, t: nat)
    requires
        line.fits(),
    ensures
        ascending(line.cells_after(t)),
        line.cells_after(t).len() == canonical(line.blocks()).len(),
        forall|i: int|
            0 <= i < line.cells_after(t).len() ==> line.holds(
                (#[trigger] line.cells_after(t)[i]).pos,
            ),
        forall|p: Pos|
            #[trigger] block_at(line.cells_after(t), p) == if line.holds(p) {
                Some(line.kind_after(t, line.hop(p)))
            } else {
                None
            },
        forall|p: Pos| #[trigger] occupied(line.cells_after(t), p) == line.holds(p),
{
    let base = canonical(line.blocks());
    let cells = line.cells_after(t);
    lemma_canonical(line.blocks());
    assert forall|i: int, j: int| 0 <= i < j < cells.len() implies (#[trigger] cells[i]).pos.precedes(
        (#[trigger] cells[j]).pos,
    ) by {
        assert(base[i].pos.precedes(base[j].pos));
    }
    assert forall|p: Pos|
        (#[trigger] occupied(cells, p) == line.holds(p)) && block_at(cells, p) == if line.holds(p) {
            Some(line.kind_after(t, line.hop(p)))
        } else {
            None
        } by {
        lemma_line_placed(line, p);
        assert(block_at(base, p) == last_placed(line.blocks(), p));
        if occupied(base, p) {
            let i = index_at(base, p);
            assert(cells[i].pos == p);
            lemma_block_at_index(cells, i);
        }
        if occupied(cells, p) {
            let i = index_at(cells, p);
            assert(base[i].pos == p);
        }
    }
    assert forall|p: Pos|
        #[trigger] block_at(cells, p) == if line.holds(p) {
            Some(line.kind_after(t, line.hop(p)))
        } else {
            None
        } by {
        assert(occupied(cells, p) == line.holds(p));
    }
    assert forall|i: int| 0 <= i < cells.len() implies line.holds((#[trigger] cells[i]).pos) by {
        lemma_block_at_index(cells, i);
        assert(occupied(cells, cells[i].pos) == line.holds(cells[i].pos));
    }
}

/// What the wire `k` steps in front of the lever takes from direction `e`
/// after `t` ticks: the full signal of the lever, one less than the power
/// of a neighboring wire, nothing from beside the line.
pub proof fn lemma_wire_in(line: WireLine, t: nat, k: int, e: Direction)
    requires
        line.fits(),
        1 <= k <= line.wires,
    ensures
        wire_incoming(line.cells_after(t), line.spot(k), e) == if e == line.dir.opposite() {
            if k == 1 {
                15u8
            } else if k - 1 <= t {
                level(k)
            } else {
                0u8
            }
        } else if e == line.dir && k + 1 <= line.wires && k + 1 <= t {
            level(k + 2)
        } else {
            0u8
        },
{
    lemma_line_cells(line, t);
    lemma_line_neighbor(line, k, e);
    lemma_spot(line, k);
    if e == line.dir.opposite() {
        lemma_spot(line, k - 1);
    }
    if e == line.dir && k + 1 <= line.wires {
        lemma_spot(line, k + 1);
    }
}

/// Evaluating any block of the line after `t` ticks gives the block it holds
/// after `t + 1` ticks.
pub proof fn lemma_line_rule(line: WireLine, t: nat, k: int)
    requires
        line.fits(),
        0 <= k <= line.wires,
    ensures
        next_kind(line.cells_after(t), line.spot(k), line.kind_after(t, k)) == line.kind_after(
            t + 1,
            k,
        ),
{
    if k >= 1 {
        let cells = line.cells_after(t);
        let p = line.spot(k);
        let f = |e: Direction| wire_incoming(cells, p, e);
        lemma_greatest(f);
        lemma_wire_in(line, t, k, Direction::East);
        lemma_wire_in(line, t, k, Direction::West);
        lemma_wire_in(line, t, k, Direction::Up);
        lemma_wire_in(line, t, k, Direction::Down);
        lemma_wire_in(line, t, k, Direction::South);
        lemma_wire_in(line, t, k, Direction::North);
        assert(wire_level(cells, p) == if k <= t + 1 {
            level(k)
        } else {
            0u8
        });
    }
}

/// Within the first `settle_tick` ticks each tick takes the line from its
/// state after `t` ticks to its state after `t + 1` ticks.
pub proof fn lemma_line_advance(line: WireLine, t: nat)
    requires
        line.fits(),
        t < line.settle_tick(),
    ensures
        advance(line.state_after(t)) == line.state_after(t + 1),
{
    let s = line.state_after(t);
    let cells = s.cells;
    let later = line.cells_after(t + 1);
    lemma_line_cells(line, t);
    lemma_line_cells(line, t + 1);
    assert forall|i: int| 0 <= i < cells.len() implies #[trigger] next_cell(s, i) == later[i] by {
        let p = cells[i].pos;
        let k = line.hop(p);
        assert(line.holds(p));
        lemma_line_rule(line, t, k);
    }
    assert(next_cells(s) =~= later);
    assert forall|q: Pos| next_dirty(s).contains(q) == line.dirty_after(t + 1).contains(q) by {
        lemma_line_wakes(line, t, q);
    }
    assert(next_dirty(s) =~= line.dirty_after(t + 1));
}

/// A block that wakes a position during tick `t + 1` is the wire that the
/// tick lights, and the position is one of its neighbors.
proof fn lemma_line_waker(line: WireLine, t: nat, i: int, q: Pos)
    requires
        line.fits(),
        t < line.settle_tick(),
        0 <= i < line.cells_after(t).len(),
        wakes(line.state_after(t), i, q),
    ensures
        line.hop(line.cells_after(t)[i].pos) == t + 1,
        t + 1 <= 15,
        exists|e: Direction| line.cells_after(t)[i].pos.neighbor(e) == Some(q),
{
    let s = line.state_after(t);
    let c = s.cells[i];
    let k = line.hop(c.pos);
    lemma_line_cells(line, t);
    assert(line.holds(c.pos));
    lemma_line_rule(line, t, k);
    let after = next_cell(s, i).kind;
    assert(after == line.kind_after(t + 1, k));
    assert(c.kind == line.kind_after(t, k));
    assert(!after.timer_running());
    assert(c.kind.signal_differs(after));
    assert(c.kind != after);
    lemma_select_contains(c.pos, |d: Direction| after.feeds(d), q);
}

/// The wire that tick `t + 1` lights wakes its neighbors on the line.
proof fn lemma_line_woken(line: WireLine, t: nat, q: Pos)
    requires
        line.fits(),
        t < line.settle_tick(),
        line.dirty_after(t + 1).contains(q),
    ensures
        next_dirty(line.state_after(t)).contains(q),
{
    let s = line.state_after(t);
    let cells = s.cells;
    let k: int = (t + 1) as int;
    let p = line.spot(k);
    lemma_line_cells(line, t);
    lemma_spot(line, k);
    assert(occupied(cells, p));
    let i = index_at(cells, p);
    assert(cells[i].pos == p);
    lemma_line_rule(line, t, k);
    let e = if line.hop(q) == t {
        line.dir.opposite()
    } else {
        line.dir
    };
    lemma_line_neighbor(line, k, e);
    assert(p.neighbor(e) == Some(q));
    let c = cells[i];
    let after = next_cell(s, i).kind;
    assert(s.dirty.contains(p));
    assert(c.kind == BlockKind::Dust { power: 0 });
    assert(after == BlockKind::Dust { power: level(k) });
    assert(c.kind.signal(Direction::East) != after.signal(Direction::East));
    assert(after.feeds(e));
    lemma_select_contains(p, |d: Direction| after.feeds(d), q);
    assert(after.outputs(p).contains(q));
    assert(wakes(s, i, q));
    assert(woken_upto(s, cells.len() as int, q));
    assert(occupied(cells, q));
}

/// The positions that tick `t + 1` leaves dirty are the neighbors on the
/// line of the wire it lights.
pub proof fn lemma_line_wakes(line: WireLine, t: nat, q: Pos)
    requires
        line.fits(),
        t < line.settle_tick(),
    ensures
        next_dirty(line.state_after(t)).contains(q) == line.dirty_after(t + 1).contains(q),
{
    let s = line.state_after(t);
    let cells = s.cells;
    if next_dirty(s).contains(q) {
        lemma_line_cells(line, t);
        let i = choose|i: int| 0 <= i < cells.len() && #[trigger] wakes(s, i, q);
        lemma_line_waker(line, t, i, q);
        let k = line.hop(cells[i].pos);
        assert(line.holds(cells[i].pos));
        let e = choose|e: Direction| cells[i].pos.neighbor(e) == Some(q);
        lemma_line_neighbor(line, k, e);
        assert(occupied(cells, q));
        assert(line.holds(q));
        assert(cells[i].pos == line.spot(k));
        if e == line.dir {
            lemma_spot(line, k + 1);
            assert(line.hop(q) == t + 2);
        } else {
            lemma_spot(line, k - 1);
            assert(line.hop(q) == t);
        }
        assert(t + 1 < line.settle_tick());
        assert(line.dirty_after(t + 1).contains(q));
    }
    if line.dirty_after(t + 1).contains(q) {
        lemma_line_woken(line, t, q);
    }
}

/// The world of a line starts in its state after 0 ticks, and `t` ticks
/// take it to its state after `t` ticks, up to the tick that settles it.
pub proof fn lemma_line_after(line: WireLine, t: nat)
    requires
        line.fits(),
        t <= line.settle_tick(),
    ensures
        after(start(line.blocks()), t) == line.state_after(t),
    decreases t,
{
    if t == 0 {
        let base = canonical(line.blocks());
        let cells = line.cells_after(0);
        lemma_canonical(line.blocks());
        lemma_line_cells(line, 0);
        assert forall|i: int| 0 <= i < base.len() implies base[i] == cells[i] by {
            lemma_block_at_index(base, i);
            lemma_line_placed(line, base[i].pos);
            assert(cells[i].pos == base[i].pos);
            assert(line.holds(cells[i].pos));
        }
        assert(base =~= cells);
        assert(start(line.blocks()).dirty =~= line.dirty_after(0)) by {
            assert forall|p: Pos| occupied(base, p) == line.holds(p) by {
                assert(occupied(cells, p) == line.holds(p));
            }
        }
    } else {
        lemma_line_after(line, (t - 1) as nat);
        lemma_line_advance(line, (t - 1) as nat);
    }
}

/// From its state after `t` ticks the line runs on until the tick that
/// settles it, and ends stable there.
pub proof fn lemma_line_run(line: WireLine, t: nat, budget: nat)
    requires
        line.fits(),
        t < line.settle_tick() <= budget,
    ensures
        run_from(line.state_after(t), t + 1, budget, true).terminated == Termination::Stable,
        last_tick_from(line.state_after(t), t + 1, budget, true) == line.settle_tick(),
    decreases line.settle_tick() - t,
{
    let s = line.state_after(t);
    let before = line.cells_after(t);
    let later = line.cells_after(t + 1);
    lemma_line_advance(line, t);
    lemma_line_cells(line, t);
    lemma_line_cells(line, t + 1);
    assert(advance(s).cells == later);
    if t + 1 < line.settle_tick() {
        let p = line.spot((t + 1) as int);
        lemma_spot(line, (t + 1) as int);
        assert(occupied(before, p));
        let i = index_at(before, p);
        assert(before[i].pos == p);
        assert(differs_at(before, later, i));
        lemma_diff_upto_exact(before, later, before.len());
        assert(diff(before, later).len() > 0);
        lemma_line_run(line, t + 1, budget);
    } else {
        assert forall|i: int| 0 <= i < before.len() implies before[i] == later[i] by {
            assert(line.holds(before[i].pos));
        }
        assert(before =~= later);
        lemma_diff_empty(before, later);
        assert(!timers_active(later)) by {
            if timers_active(later) {
                let i = choose|i: int|
                    0 <= i < later.len() && (#[trigger] later[i]).kind.timer_running();
                assert(later[i].kind.timer_running());
            }
        }
    }
}

/// Attenuation law: a lever that is on, with `wires` unpowered wires in a
/// straight line in front of it, comes to rest after `min(wires, 15) + 1`
/// ticks. The run ends stable, and the `k`-th wire, counted from 1 next to
/// the lever, holds power `16 - k` up to the fifteenth wire and 0 beyond:
/// the first wire carries the full signal, and each further wire carries
/// one less than the wire before it.
pub proof fn lemma_wire_attenuation(line: WireLine, budget: nat)
    requires
        line.fits(),
        budget >= line.settle_tick(),
    ensures
        run(line.blocks(), budget, true).terminated == Termination::Stable,
        ticks_run(line.blocks(), budget, true) == line.settle_tick(),
        forall|k: int|
            1 <= k <= line.wires ==> block_at(
                after(start(line.blocks()), ticks_run(line.blocks(), budget, true)).cells,
                #[trigger] line.spot(k),
            ) == Some(BlockKind::Dust { power: level(k) }),
{
    lemma_line_after(line, 0);
    lemma_line_run(line, 0, budget);
    lemma_line_after(line, line.settle_tick());
    lemma_line_cells(line, line.settle_tick());
    assert forall|k: int| 1 <= k <= line.wires implies block_at(
        line.cells_after(line.settle_tick()),
        #[trigger] line.spot(k),
    ) == Some(BlockKind::Dust { power: level(k) }) by {
        lemma_spot(line, k);
    }
}

} // verus!
