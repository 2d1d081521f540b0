//! The tick engine: one step re-evaluates the dirty blocks against the world
//! as it stood before the step, records which blocks changed and works out
//! which blocks are dirty for the next step.

use vstd::prelude::*;
use crate::block::{output_changed, BlockKind, Connectable};
use crate::geometry::Pos;
use crate::rules::{next_kind, update_block};
use crate::world::{
    ascending, canonical, index_at, lemma_block_at_index, lemma_canonical, occupied, restate,
    timers_active, BlockMap, PlacedBlock, World,
};

verus! {

/// A block that changed during a tick, with its state after the tick.
#[derive(Clone, Copy, Debug, PartialEq, Eq, Structural)]
pub struct BlockChange {
    pub pos: Pos,
    pub kind: BlockKind,
}

/// The state of a simulation between two ticks: the blocks in ascending
/// position order and the positions to re-evaluate on the next tick.
pub struct SimState {
    pub cells: Seq<PlacedBlock>,
    pub dirty: Set<Pos>,
}

/// The state before the first tick: every block is dirty.
pub open spec fn start(blocks: Seq<PlacedBlock>) -> SimState {
    SimState {
        cells: canonical(blocks),
        dirty: Set::new(|p: Pos| occupied(canonical(blocks), p)),
    }
}

/// The block with index `i` after the tick: a dirty block is updated by its
/// rule, reading the world as it stood before the tick; a clean one stays.
pub open spec fn next_cell(s: SimState, i: int) -> PlacedBlock {
    let c = s.cells[i];
    if s.dirty.contains(c.pos) {
        PlacedBlock { pos: c.pos, kind: next_kind(s.cells, c.pos, c.kind) }
    } else {
        c
    }
}

/// The blocks after the tick.
pub open spec fn next_cells(s: SimState) -> Seq<PlacedBlock> {
    Seq::new(s.cells.len(), |i: int| next_cell(s, i))
}

/// Whether the block with index `i` makes position `q` dirty for the next
/// tick: it was evaluated, and either its signal changed and `q` is one of
/// its output positions, or its countdown is still running and `q` is its
/// own position.
pub open spec fn wakes(s: SimState, i: int, q: Pos) -> bool {
    let c = s.cells[i];
    let after = next_cell(s, i).kind;
    s.dirty.contains(c.pos) && ((c.kind.signal_differs(after) && after.outputs(c.pos).contains(q))
        || (after.timer_running() && q == c.pos))
}

/// Whether one of the first `n` blocks makes `q` dirty.
pub open spec fn woken_upto(s: SimState, n: int, q: Pos) -> bool {
    exists|i: int| 0 <= i < n && #[trigger] wakes(s, i, q)
}

/// The positions to re-evaluate on the tick after this one: the occupied
/// cells that some evaluated block woke.
pub open spec fn next_dirty(s: SimState) -> Set<Pos> {
    Set::new(|q: Pos| occupied(s.cells, q) && woken_upto(s, s.cells.len() as int, q))
}

/// One tick.
pub open spec fn advance(s: SimState) -> SimState {
    SimState { cells: next_cells(s), dirty: next_dirty(s) }
}

/// The changes among the first `n` blocks between two listings of the same
/// cells: each block whose state differs, with its state in `after`, in
/// ascending position order.
pub open spec fn diff_upto(before: Seq<PlacedBlock>, after: Seq<PlacedBlock>, n: nat) -> Seq<
    BlockChange,
>
    decreases n,
{
    if n == 0 {
        Seq::empty()
    } else {
        let rest = diff_upto(before, after, (n - 1) as nat);
        if after[n - 1].kind != before[n - 1].kind {
            rest.push(BlockChange { pos: after[n - 1].pos, kind: after[n - 1].kind })
        } else {
            rest
        }
    }
}

/// The blocks whose state differs between `before` and `after`, each with
/// its state in `after`, in ascending position order.
pub open spec fn diff(before: Seq<PlacedBlock>, after: Seq<PlacedBlock>) -> Seq<BlockChange> {
    diff_upto(before, after, before.len())
}

/// The positions of the cells whose flag is set.
pub open spec fn flagged(cells: Seq<PlacedBlock>, flags: Seq<bool>) -> Set<Pos> {
    Set::new(|p: Pos| occupied(cells, p) && flags[index_at(cells, p)])
}

/// A tick moves no block: the listing stays ascending, and the same cells
/// are occupied at the same indexes.
pub proof fn lemma_next_cells_positions(s: SimState)
    requires
        ascending(s.cells),
    ensures
        ascending(next_cells(s)),
        next_cells(s).len() == s.cells.len(),
        forall|i: int| 0 <= i < s.cells.len() ==> (#[trigger] next_cells(s)[i]).pos == s.cells[i].pos,
        forall|p: Pos| #[trigger] occupied(next_cells(s), p) == occupied(s.cells, p),
        forall|p: Pos|
            occupied(s.cells, p) ==> #[trigger] index_at(next_cells(s), p) == index_at(s.cells, p),
{
    let next = next_cells(s);
    assert forall|i: int, j: int| 0 <= i < j < next.len() implies (#[trigger] next[i]).pos.precedes(
        (#[trigger] next[j]).pos,
    ) by {
        assert(s.cells[i].pos.precedes(s.cells[j].pos));
    }
    assert forall|p: Pos| #[trigger] occupied(next, p) == occupied(s.cells, p) by {
        if occupied(next, p) {
            let k = index_at(next, p);
            assert(s.cells[k].pos == p);
        }
        if occupied(s.cells, p) {
            let k = index_at(s.cells, p);
            assert(next[k].pos == p);
        }
    }
    assert forall|p: Pos| occupied(s.cells, p) implies #[trigger] index_at(next, p) == index_at(
        s.cells,
        p,
    ) by {
        let k = index_at(s.cells, p);
        assert(next[k].pos == p);
        lemma_block_at_index(next, k);
    }
}

fn filled(n: usize, value: bool) -> (flags: Vec<bool>)
    ensures
        flags@.len() == n,
        forall|i: int| 0 <= i < n ==> flags@[i] == value,
{
    let mut flags: Vec<bool> = Vec::new();
    while flags.len() < n
        invariant
            flags@.len() <= n,
            forall|i: int| 0 <= i < flags@.len() ==> flags@[i] == value,
        decreases n - flags@.len(),
    {
        flags.push(value);
    }
    flags
}

/// Sets the flag of every block that lies at one of `targets`.
fn mark(world: &BlockMap, flags: &mut Vec<bool>, targets: &Vec<Pos>)
    requires
        old(flags)@.len() == world@.len(),
    ensures
        final(flags)@.len() == old(flags)@.len(),
        forall|j: int|
            0 <= j < world@.len() ==> final(flags)@[j] == (old(flags)@[j] || targets@.contains(
                (#[trigger] world@[j]).pos,
            )),
{
    proof {
        use_type_invariant(world);
    }
    let mut t: usize = 0;
    while t < targets.len()
        invariant
            t <= targets.len(),
            ascending(world@),
            flags@.len() == old(flags)@.len(),
            flags@.len() == world@.len(),
            forall|j: int|
                0 <= j < world@.len() ==> flags@[j] == (old(flags)@[j] || targets@.take(
                    t as int,
                ).contains((#[trigger] world@[j]).pos)),
        decreases targets.len() - t,
    {
        let q = targets[t];
        let found = world.find(q);
        proof {
            let seen = targets@.take(t as int);
            let more = targets@.take(t + 1);
            assert(more =~= seen.push(q));
            assert forall|p: Pos| more.contains(p) == (seen.contains(p) || p == q) by {
                if seen.contains(p) {
                    let k = choose|k: int| 0 <= k < seen.len() && seen[k] == p;
                    assert(more[k] == p);
                }
                if p == q {
                    assert(more[t as int] == p);
                }
            }
            assert forall|j: int| 0 <= j < world@.len() && (#[trigger] world@[j]).pos == q implies found
                == Some(j as usize) by {
                lemma_block_at_index(world@, j);
            }
        }
        match found {
            Some(k) => {
                flags[k] = true;
            },
            None => {},
        }
        t += 1;
    }
    assert(targets@.take(t as int) =~= targets@);
}

/// A simulation in progress.
pub struct Engine {
    world: BlockMap,
    dirty: Vec<bool>,
}

impl View for Engine {
    type V = SimState;

    closed spec fn view(&self) -> SimState {
        SimState { cells: self.world@, dirty: flagged(self.world@, self.dirty@) }
    }
}

impl Engine {
    #[verifier::type_invariant]
    spec fn sized(&self) -> bool {
        self.dirty@.len() == self.world@.len()
    }

    /// An engine about to run the first tick on `world`.
    pub fn new(world: World) -> (engine: Engine)
        ensures
            engine@ == start(world.blocks@),
    {
        let world = world.into_map();
        let dirty = filled(world.len(), true);
        assert(flagged(world@, dirty@) =~= Set::new(|p: Pos| occupied(world@, p)));
        Engine { world, dirty }
    }

    /// The blocks as they stand now.
    pub fn world(&self) -> (world: &BlockMap)
        ensures
            world@ == self@.cells,
    {
        &self.world
    }

    /// Whether some block still has a countdown running.
    pub fn timers_active(&self) -> (r: bool)
        ensures
            r == timers_active(self@.cells),
    {
        self.world.timers_active()
    }

    /// Runs one tick and returns the engine after it together with the
    /// blocks that changed, in ascending position order.
    pub fn tick(self) -> (r: (Engine, Vec<BlockChange>))
        ensures
            r.0@ == advance(self@),
            r.1@ == diff(self@.cells, advance(self@).cells),
    {
        proof {
            use_type_invariant(&self);
            use_type_invariant(&self.world);
        }
        let n = self.world.len();
        let ghost s = self@;
        let mut kinds: Vec<BlockKind> = Vec::new();
        let mut changes: Vec<BlockChange> = Vec::new();
        let mut next: Vec<bool> = filled(n, false);
        let mut i: usize = 0;
        while i < n
            invariant
                i <= n,
                n == s.cells.len(),
                ascending(s.cells),
                self.world@ == s.cells,
                self.dirty@.len() == n,
                s.dirty == flagged(s.cells, self.dirty@),
                kinds@.len() == i,
                forall|k: int| 0 <= k < i ==> kinds@[k] == #[trigger] next_cell(s, k).kind,
                changes@ == diff_upto(s.cells, next_cells(s), i as nat),
                next@.len() == n,
                forall|j: int|
                    0 <= j < n ==> next@[j] == woken_upto(s, i as int, (#[trigger] s.cells[j]).pos),
            decreases n - i,
        {
            let cur = self.world.cell(i);
            let mut kind = cur.kind;
            let ghost before = next@;
            proof {
                lemma_block_at_index(s.cells, i as int);
                assert(s.dirty.contains(cur.pos) == self.dirty@[i as int]);
            }
            if self.dirty[i] {
                kind = update_block(&self.world, cur.pos, cur.kind);
                if kind != cur.kind {
                    changes.push(BlockChange { pos: cur.pos, kind });
                }
                if output_changed(&cur.kind, &kind) {
                    let targets = kind.output_positions(cur.pos);
                    mark(&self.world, &mut next, &targets);
                }
                if kind.timer_running() {
                    next[i] = true;
                }
            }
            kinds.push(kind);
            proof {
                assert(kind == next_cell(s, i as int).kind);
                assert(next_cells(s)[i as int] == next_cell(s, i as int));
                assert forall|j: int| 0 <= j < n implies next@[j] == woken_upto(
                    s,
                    i + 1,
                    (#[trigger] s.cells[j]).pos,
                ) by {
                    let q = s.cells[j].pos;
                    lemma_block_at_index(s.cells, j);
                    assert(next@[j] == (before[j] || wakes(s, i as int, q)));
                    if woken_upto(s, i + 1, q) {
                        let k = choose|k: int| 0 <= k < i + 1 && #[trigger] wakes(s, k, q);
                        if k < i {
                            assert(woken_upto(s, i as int, q));
                        }
                    }
                    if woken_upto(s, i as int, q) {
                        let k = choose|k: int| 0 <= k < i && #[trigger] wakes(s, k, q);
                        assert(wakes(s, k, q));
                    }
                }
            }
            i += 1;
        }
        let world = self.world.with_kinds(&kinds);
        proof {
            lemma_next_cells_positions(s);
            assert(restate(s.cells, kinds@) =~= next_cells(s)) by {
                assert forall|k: int| 0 <= k < n implies restate(s.cells, kinds@)[k] == next_cells(
                    s,
                )[k] by {
                    assert(kinds@[k] == next_cell(s, k).kind);
                }
            }
            assert(flagged(world@, next@) =~= next_dirty(s)) by {
                assert forall|q: Pos| flagged(world@, next@).contains(q) == next_dirty(s).contains(
                    q,
                ) by {
                    if occupied(s.cells, q) {
                        let j = index_at(s.cells, q);
                        assert(s.cells[j].pos == q);
                    }
                }
            }
        }
        (Engine { world, dirty: next }, changes)
    }
}

/// A listing of a world is ascending, so an engine started on it is
/// well-formed.
pub proof fn lemma_start_ascending(blocks: Seq<PlacedBlock>)
    ensures
        ascending(start(blocks).cells),
{
    lemma_canonical(blocks);
}

} // verus!
