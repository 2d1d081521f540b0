//! The per-block update rule: what a block becomes in one tick, given the
//! world as it stood before the tick.

use vstd::prelude::*;
use crate::block::{output_towards, BlockKind, MAX_POWER};
use crate::geometry::{
    dir_from_to, lemma_all_is_complete, lemma_neighbor_round_trip, Direction, Pos,
};
use crate::world::{all_in_range, block_at, index_at, occupied, BlockMap, PlacedBlock};

verus! {

/// The signal that the neighbor of `pos` in direction `d` offers toward
/// `pos`; an empty cell offers none.
pub open spec fn incoming(cells: Seq<PlacedBlock>, pos: Pos, d: Direction) -> u8 {
    match pos.neighbor(d) {
        Some(q) => match block_at(cells, q) {
            Some(nb) => nb.signal(d.opposite()),
            None => 0u8,
        },
        None => 0u8,
    }
}

/// What a wire at `pos` takes from direction `d`: one less than the power of
/// a neighboring wire, and the full signal of any other block.
pub open spec fn wire_incoming(cells: Seq<PlacedBlock>, pos: Pos, d: Direction) -> u8 {
    match pos.neighbor(d) {
        Some(q) => match block_at(cells, q) {
            Some(BlockKind::Dust { power }) => if power > 0 {
                (power - 1) as u8
            } else {
                0u8
            },
            Some(nb) => nb.signal(d.opposite()),
            None => 0u8,
        },
        None => 0u8,
    }
}

/// The greater of two power levels.
pub open spec fn max_power(a: u8, b: u8) -> u8 {
    if a >= b {
        a
    } else {
        b
    }
}

/// The greatest value of `f` over the first `n` directions of the scan
/// order, and 0 for `n == 0`.
pub open spec fn greatest_upto(f: spec_fn(Direction) -> u8, n: nat) -> u8
    decreases n,
{
    if n == 0 {
        0u8
    } else {
        max_power(greatest_upto(f, (n - 1) as nat), f(Direction::spec_all()[n - 1]))
    }
}

/// The greatest value of `f` over the six directions.
pub open spec fn greatest(f: spec_fn(Direction) -> u8) -> u8 {
    greatest_upto(f, 6)
}

/// The strongest signal any neighbor offers toward `pos`.
pub open spec fn strongest(cells: Seq<PlacedBlock>, pos: Pos) -> u8 {
    greatest(|d: Direction| incoming(cells, pos, d))
}

/// The power a wire at `pos` settles on this tick.
pub open spec fn wire_level(cells: Seq<PlacedBlock>, pos: Pos) -> u8 {
    greatest(|d: Direction| wire_incoming(cells, pos, d))
}

/// One tick of a repeater whose back input is powered iff `fed`.
pub open spec fn repeater_step(
    delay: u8,
    ticks_remaining: u8,
    powered: bool,
    facing: Direction,
    fed: bool,
) -> BlockKind {
    let armed = if !fed {
        0u8
    } else if !powered && ticks_remaining == 0 {
        delay
    } else {
        ticks_remaining
    };
    let held = fed && powered;
    if armed > 0 {
        BlockKind::Repeater {
            delay,
            ticks_remaining: (armed - 1) as u8,
            powered: held || armed == 1,
            facing,
        }
    } else {
        BlockKind::Repeater { delay, ticks_remaining: 0u8, powered: held, facing }
    }
}

/// The state of the block `kind` at `pos` after one tick, computed from the
/// world `cells` as it stood before the tick.
pub open spec fn next_kind(cells: Seq<PlacedBlock>, pos: Pos, kind: BlockKind) -> BlockKind {
    match kind {
        BlockKind::Lever { .. } => kind,
        BlockKind::Button { ticks_remaining, facing } => if ticks_remaining > 0 {
            BlockKind::Button { ticks_remaining: (ticks_remaining - 1) as u8, facing }
        } else {
            kind
        },
        BlockKind::Repeater { delay, ticks_remaining, powered, facing } => repeater_step(
            delay,
            ticks_remaining,
            powered,
            facing,
            incoming(cells, pos, facing.opposite()) > 0,
        ),
        BlockKind::Comparator { facing, .. } => BlockKind::Comparator {
            output: strongest(cells, pos),
            facing,
        },
        BlockKind::Dust { .. } => BlockKind::Dust { power: wire_level(cells, pos) },
        BlockKind::Lamp { .. } => BlockKind::Lamp { on: strongest(cells, pos) > 0 },
        BlockKind::Torch { facing, .. } => BlockKind::Torch {
            lit: incoming(cells, pos, facing) == 0,
            facing,
        },
        BlockKind::Piston { facing, .. } => BlockKind::Piston {
            extended: strongest(cells, pos) > 0,
            facing,
        },
        BlockKind::Hopper { facing, .. } => BlockKind::Hopper {
            enabled: strongest(cells, pos) == 0,
            facing,
        },
    }
}

/// The greatest value is the value in some direction, or 0 where every
/// direction gives 0, and no direction gives more.
pub proof fn lemma_greatest(f: spec_fn(Direction) -> u8)
    ensures
        forall|d: Direction| #[trigger] f(d) <= greatest(f),
        greatest(f) == 0 || exists|d: Direction| #[trigger] f(d) == greatest(f),
        greatest(f) == max_power(
            max_power(
                max_power(f(Direction::East), f(Direction::West)),
                max_power(f(Direction::Up), f(Direction::Down)),
            ),
            max_power(f(Direction::South), f(Direction::North)),
        ),
{
    reveal_with_fuel(greatest_upto, 7);
    let s = Direction::spec_all();
    assert(s[0] == Direction::East && s[1] == Direction::West && s[2] == Direction::Up && s[3]
        == Direction::Down && s[4] == Direction::South && s[5] == Direction::North);
    let g = greatest(f);
    if g != 0 {
        assert(f(Direction::East) == g || f(Direction::West) == g || f(Direction::Up) == g || f(
            Direction::Down,
        ) == g || f(Direction::South) == g || f(Direction::North) == g);
    }
    assert forall|d: Direction| #[trigger] f(d) <= greatest(f) by {
        lemma_all_is_complete(d);
    }
}

/// Blocks in range offer at most 15, so every block the rule produces from
/// a world in range is in range again.
pub proof fn lemma_next_kind_in_range(cells: Seq<PlacedBlock>, pos: Pos, kind: BlockKind)
    requires
        all_in_range(cells),
        kind.in_range(),
    ensures
        next_kind(cells, pos, kind).in_range(),
{
    let sig = |d: Direction| incoming(cells, pos, d);
    let wire = |d: Direction| wire_incoming(cells, pos, d);
    lemma_greatest(sig);
    lemma_greatest(wire);
    assert forall|d: Direction| #[trigger] sig(d) <= MAX_POWER && #[trigger] wire(d) <= MAX_POWER by {
        match pos.neighbor(d) {
            Some(q) => {
                if occupied(cells, q) {
                    let k = index_at(cells, q);
                    assert(cells[k].kind.in_range());
                }
            },
            None => {},
        }
    }
}

/// The signal that the neighbor of `pos` in direction `d` offers toward it.
pub fn incoming_power(snapshot: &BlockMap, pos: Pos, d: Direction) -> (power: u8)
    ensures
        power == incoming(snapshot@, pos, d),
{
    match pos.neighbor(d) {
        Some(q) => match snapshot.get(q) {
            Some(nb) => {
                proof {
                    lemma_neighbor_round_trip(pos, d, q);
                }
                let dir = dir_from_to(q, pos);
                output_towards(&nb, dir)
            },
            None => 0,
        },
        None => 0,
    }
}

/// What a wire at `pos` takes from its neighbor in direction `d`.
pub fn wire_incoming_power(snapshot: &BlockMap, pos: Pos, d: Direction) -> (power: u8)
    ensures
        power == wire_incoming(snapshot@, pos, d),
{
    match pos.neighbor(d) {
        Some(q) => match snapshot.get(q) {
            Some(nb) => {
                proof {
                    lemma_neighbor_round_trip(pos, d, q);
                }
                let dir = dir_from_to(q, pos);
                let offered = output_towards(&nb, dir);
                match nb {
                    BlockKind::Dust { power } => power.saturating_sub(1),
                    _ => offered,
                }
            },
            None => 0,
        },
        None => 0,
    }
}

/// The strongest signal any neighbor offers toward `pos`.
pub fn strongest_input(snapshot: &BlockMap, pos: Pos) -> (power: u8)
    ensures
        power == strongest(snapshot@, pos),
{
    let dirs = Direction::all();
    let ghost f = |d: Direction| incoming(snapshot@, pos, d);
    let mut best: u8 = 0;
    let mut i: usize = 0;
    while i < 6
        invariant
            i <= 6,
            dirs@ == Direction::spec_all(),
            f == (|d: Direction| incoming(snapshot@, pos, d)),
            best == greatest_upto(f, i as nat),
        decreases 6 - i,
    {
        let offered = incoming_power(snapshot, pos, dirs[i]);
        if offered > best {
            best = offered;
        }
        i += 1;
    }
    best
}

/// The power a wire at `pos` settles on this tick.
pub fn wire_input(snapshot: &BlockMap, pos: Pos) -> (power: u8)
    ensures
        power == wire_level(snapshot@, pos),
{
    let dirs = Direction::all();
    let ghost f = |d: Direction| wire_incoming(snapshot@, pos, d);
    let mut best: u8 = 0;
    let mut i: usize = 0;
    while i < 6
        invariant
            i <= 6,
            dirs@ == Direction::spec_all(),
            f == (|d: Direction| wire_incoming(snapshot@, pos, d)),
            best == greatest_upto(f, i as nat),
        decreases 6 - i,
    {
        let offered = wire_incoming_power(snapshot, pos, dirs[i]);
        if offered > best {
            best = offered;
        }
        i += 1;
    }
    best
}

/// The state of the block `kind` at `pos` after one tick; every read goes to
/// `snapshot`, the world as it stood before the tick.
pub fn update_block(snapshot: &BlockMap, pos: Pos, kind: BlockKind) -> (next: BlockKind)
    ensures
        next == next_kind(snapshot@, pos, kind),
{
    match kind {
        BlockKind::Lever { .. } => kind,
        BlockKind::Button { ticks_remaining, facing } => {
            if ticks_remaining > 0 {
                BlockKind::Button { ticks_remaining: ticks_remaining - 1, facing }
            } else {
                kind
            }
        },
        BlockKind::Repeater { delay, ticks_remaining, powered, facing } => {
            let input = incoming_power(snapshot, pos, facing.opposite());
            let mut ticks_remaining = ticks_remaining;
            let mut powered = powered;
            if input > 0 {
                if !powered && ticks_remaining == 0 {
                    ticks_remaining = delay;
                }
            } else {
                powered = false;
                ticks_remaining = 0;
            }
            if ticks_remaining > 0 {
                ticks_remaining = ticks_remaining - 1;
                if ticks_remaining == 0 && input > 0 {
                    powered = true;
                }
            }
            BlockKind::Repeater { delay, ticks_remaining, powered, facing }
        },
        BlockKind::Comparator { facing, .. } => BlockKind::Comparator {
            output: strongest_input(snapshot, pos),
            facing,
        },
        BlockKind::Dust { .. } => BlockKind::Dust { power: wire_input(snapshot, pos) },
        BlockKind::Lamp { .. } => BlockKind::Lamp { on: strongest_input(snapshot, pos) > 0 },
        BlockKind::Torch { facing, .. } => BlockKind::Torch {
            lit: incoming_power(snapshot, pos, facing) == 0,
            facing,
        },
        BlockKind::Piston { facing, .. } => BlockKind::Piston {
            extended: strongest_input(snapshot, pos) > 0,
            facing,
        },
        BlockKind::Hopper { facing, .. } => BlockKind::Hopper {
            enabled: strongest_input(snapshot, pos) == 0,
            facing,
        },
    }
}

} // verus!
