//! The block variants, the signal each offers, and which neighbors each
//! reads from and feeds.

use vstd::prelude::*;
use crate::geometry::{lemma_all_is_complete, Direction, Pos};

verus! {

/// The strongest signal a block can carry.
pub const MAX_POWER: u8 = 15;

/// A block variant together with its signal state.
#[derive(Clone, Copy, Debug, PartialEq, Eq, Structural)]
pub enum BlockKind {
    Lever { on: bool, facing: Direction },
    Button { ticks_remaining: u8, facing: Direction },
    Dust { power: u8 },
    Lamp { on: bool },
    Repeater { delay: u8, ticks_remaining: u8, powered: bool, facing: Direction },
    Comparator { output: u8, facing: Direction },
    Torch { lit: bool, facing: Direction },
    Piston { extended: bool, facing: Direction },
    Hopper { enabled: bool, facing: Direction },
}

impl BlockKind {
    /// The signal this block offers toward `dir`.
    pub open spec fn signal(self, dir: Direction) -> u8 {
        match self {
            BlockKind::Lever { on, facing } => if on && facing == dir { 15u8 } else { 0u8 },
            BlockKind::Button { ticks_remaining, facing } => if ticks_remaining > 0 && facing
                == dir { 15u8 } else { 0u8 },
            BlockKind::Repeater { powered, facing, .. } => if powered && facing == dir {
                15u8
            } else {
                0u8
            },
            BlockKind::Comparator { output, facing } => if facing == dir { output } else { 0u8 },
            BlockKind::Torch { lit, facing } => if lit && facing != dir { 15u8 } else { 0u8 },
            BlockKind::Dust { power } => power,
            _ => 0u8,
        }
    }

    /// Whether the block reads the neighbor that lies in direction `dir`.
    pub open spec fn spec_reads(&self, dir: Direction) -> bool {
        match *self {
            BlockKind::Lever { .. } | BlockKind::Button { .. } => false,
            BlockKind::Repeater { facing, .. } => dir == facing.opposite(),
            BlockKind::Torch { facing, .. } => dir == facing,
            _ => true,
        }
    }

    /// Whether the block reads the neighbor that lies in direction `dir`.
    #[verifier::when_used_as_spec(spec_reads)]
    pub fn reads(&self, dir: Direction) -> (r: bool)
        ensures
            r == self.spec_reads(dir),
    {
        match self {
            BlockKind::Lever { .. } | BlockKind::Button { .. } => false,
            BlockKind::Repeater { facing, .. } => dir == facing.opposite(),
            BlockKind::Torch { facing, .. } => dir == *facing,
            _ => true,
        }
    }

    /// Whether the block can influence the neighbor that lies in direction `dir`.
    pub open spec fn spec_feeds(&self, dir: Direction) -> bool {
        match *self {
            BlockKind::Lever { facing, .. }
            | BlockKind::Button { facing, .. }
            | BlockKind::Repeater { facing, .. }
            | BlockKind::Comparator { facing, .. } => dir == facing,
            BlockKind::Torch { facing, .. } => dir != facing,
            BlockKind::Dust { .. } => true,
            _ => false,
        }
    }

    /// Whether the block can influence the neighbor that lies in direction `dir`.
    #[verifier::when_used_as_spec(spec_feeds)]
    pub fn feeds(&self, dir: Direction) -> (r: bool)
        ensures
            r == self.spec_feeds(dir),
    {
        match self {
            BlockKind::Lever { facing, .. }
            | BlockKind::Button { facing, .. }
            | BlockKind::Repeater { facing, .. }
            | BlockKind::Comparator { facing, .. } => dir == *facing,
            BlockKind::Torch { facing, .. } => dir != *facing,
            BlockKind::Dust { .. } => true,
            _ => false,
        }
    }

    /// Whether an internal countdown of the block is still running.
    pub open spec fn spec_timer_running(&self) -> bool {
        match *self {
            BlockKind::Button { ticks_remaining, .. } => ticks_remaining > 0,
            BlockKind::Repeater { ticks_remaining, .. } => ticks_remaining > 0,
            _ => false,
        }
    }

    /// Whether an internal countdown of the block is still running.
    #[verifier::when_used_as_spec(spec_timer_running)]
    pub fn timer_running(&self) -> (r: bool)
        ensures
            r == self.spec_timer_running(),
    {
        match self {
            BlockKind::Button { ticks_remaining, .. } => *ticks_remaining > 0,
            BlockKind::Repeater { ticks_remaining, .. } => *ticks_remaining > 0,
            _ => false,
        }
    }

    /// Every field lies in its documented range: power levels within 0..=15,
    /// a repeater delay within 1..=4.
    pub open spec fn spec_in_range(&self) -> bool {
        match *self {
            BlockKind::Dust { power } => power <= MAX_POWER,
            BlockKind::Comparator { output, .. } => output <= MAX_POWER,
            BlockKind::Repeater { delay, .. } => 1 <= delay <= 4,
            _ => true,
        }
    }

    /// Whether every field lies in its documented range.
    #[verifier::when_used_as_spec(spec_in_range)]
    pub fn in_range(&self) -> (r: bool)
        ensures
            r == self.spec_in_range(),
    {
        match self {
            BlockKind::Dust { power } => *power <= MAX_POWER,
            BlockKind::Comparator { output, .. } => *output <= MAX_POWER,
            BlockKind::Repeater { delay, .. } => 1 <= *delay && *delay <= 4,
            _ => true,
        }
    }

    /// Whether two states of a block offer a different signal somewhere.
    pub open spec fn signal_differs(self, other: BlockKind) -> bool {
        exists|d: Direction| self.signal(d) != other.signal(d)
    }
}

/// The signal `block` offers toward `dir`, from 0 (none) to 15.
pub fn output_towards(block: &BlockKind, dir: Direction) -> (power: u8)
    ensures
        power == block.signal(dir),
{
    match block {
        BlockKind::Lever { on, facing } => if *on && *facing == dir { 15 } else { 0 },
        BlockKind::Button { ticks_remaining, facing } => if *ticks_remaining > 0 && *facing
            == dir { 15 } else { 0 },
        BlockKind::Repeater { powered, facing, .. } => if *powered && *facing == dir {
            15
        } else {
            0
        },
        BlockKind::Comparator { output, facing } => if *facing == dir { *output } else { 0 },
        BlockKind::Torch { lit, facing } => if *lit && *facing != dir { 15 } else { 0 },
        BlockKind::Dust { power } => *power,
        _ => 0,
    }
}

/// Whether the signal `after` offers differs from that of `before` in some
/// direction.
pub fn output_changed(before: &BlockKind, after: &BlockKind) -> (r: bool)
    ensures
        r == before.signal_differs(*after),
{
    let dirs = Direction::all();
    let mut i: usize = 0;
    while i < 6
        invariant
            i <= 6,
            dirs@ == Direction::spec_all(),
            forall|j: int| 0 <= j < i ==> before.signal(dirs@[j]) == after.signal(dirs@[j]),
        decreases 6 - i,
    {
        let d = dirs[i];
        if output_towards(before, d) != output_towards(after, d) {
            return true;
        }
        i += 1;
    }
    proof {
        assert forall|d: Direction| before.signal(d) == after.signal(d) by {
            lemma_all_is_complete(d);
        }
    }
    false
}

/// The cells among the six neighbors of `pos`, taken in scan order, that lie
/// in a direction selected by `want`; only the first `n` directions of the
/// scan order are considered.
pub open spec fn select_upto(pos: Pos, want: spec_fn(Direction) -> bool, n: nat) -> Seq<Pos>
    decreases n,
{
    if n == 0 {
        Seq::empty()
    } else {
        let rest = select_upto(pos, want, (n - 1) as nat);
        let d = Direction::spec_all()[n - 1];
        match pos.neighbor(d) {
            Some(q) => if want(d) { rest.push(q) } else { rest },
            None => rest,
        }
    }
}

/// The neighbors of `pos` that lie in a direction selected by `want`, in scan
/// order.
pub open spec fn select(pos: Pos, want: spec_fn(Direction) -> bool) -> Seq<Pos> {
    select_upto(pos, want, 6)
}

/// A cell is selected exactly when it is the neighbor in a wanted direction.
pub proof fn lemma_select_contains(pos: Pos, want: spec_fn(Direction) -> bool, q: Pos)
    ensures
        select(pos, want).contains(q) <==> exists|d: Direction|
            want(d) && pos.neighbor(d) == Some(q),
{
    lemma_select_upto_contains(pos, want, 6, q);
    if select(pos, want).contains(q) {
        let i = choose|i: int|
            0 <= i < 6 && want(Direction::spec_all()[i]) && pos.neighbor(Direction::spec_all()[i])
                == Some(q);
        assert(want(Direction::spec_all()[i]));
    }
    if exists|d: Direction| want(d) && pos.neighbor(d) == Some(q) {
        let d = choose|d: Direction| want(d) && pos.neighbor(d) == Some(q);
        lemma_all_is_complete(d);
    }
}

proof fn lemma_select_upto_contains(pos: Pos, want: spec_fn(Direction) -> bool, n: nat, q: Pos)
    requires
        n <= 6,
    ensures
        select_upto(pos, want, n).contains(q) <==> exists|i: int|
            0 <= i < n && want(Direction::spec_all()[i]) && pos.neighbor(Direction::spec_all()[i])
                == Some(q),
    decreases n,
{
    if n > 0 {
        lemma_select_upto_contains(pos, want, (n - 1) as nat, q);
        let rest = select_upto(pos, want, (n - 1) as nat);
        let d = Direction::spec_all()[n - 1];
        let now = select_upto(pos, want, n);
        if pos.neighbor(d) is Some && want(d) {
            let p = pos.neighbor(d)->0;
            assert(now == rest.push(p));
            assert(now.contains(q) <==> rest.contains(q) || p == q) by {
                if rest.contains(q) {
                    let k = choose|k: int| 0 <= k < rest.len() && rest[k] == q;
                    assert(now[k] == q);
                }
                if p == q {
                    assert(now[rest.len() as int] == q);
                }
            }
        }
    }
}

/// Blocks that know which cells they read power from and which cells they
/// can influence.
pub trait Connectable {
    /// The cells this block reads when placed at `pos`.
    spec fn inputs(&self, pos: Pos) -> Seq<Pos>;

    /// The cells this block may wake when its signal changes.
    spec fn outputs(&self, pos: Pos) -> Seq<Pos>;

    fn input_positions(&self, pos: Pos) -> (r: Vec<Pos>)
        ensures
            r@ == self.inputs(pos),
    ;

    fn output_positions(&self, pos: Pos) -> (r: Vec<Pos>)
        ensures
            r@ == self.outputs(pos),
    ;
}

impl Connectable for BlockKind {
    open spec fn inputs(&self, pos: Pos) -> Seq<Pos> {
        select(pos, |d: Direction| self.reads(d))
    }

    open spec fn outputs(&self, pos: Pos) -> Seq<Pos> {
        select(pos, |d: Direction| self.feeds(d))
    }

    /// The neighbors of `pos` this block reads, in scan order: none for a
    /// lever or button, the cell behind a repeater, the cell a torch is
    /// mounted on, all six for every other variant.
    fn input_positions(&self, pos: Pos) -> (r: Vec<Pos>) {
        let dirs = Direction::all();
        let mut found: Vec<Pos> = Vec::new();
        let ghost want = |d: Direction| self.reads(d);
        let mut i: usize = 0;
        while i < 6
            invariant
                i <= 6,
                dirs@ == Direction::spec_all(),
                want == (|d: Direction| self.reads(d)),
                found@ == select_upto(pos, want, i as nat),
            decreases 6 - i,
        {
            let d = dirs[i];
            if self.reads(d) {
                if let Some(q) = pos.neighbor(d) {
                    found.push(q);
                }
            }
            i += 1;
        }
        found
    }

    /// The neighbors of `pos` this block can influence, in scan order: the
    /// cell in front of a lever, button, repeater or comparator, every cell
    /// but the one a torch is mounted on, all six for dust, none for a lamp,
    /// piston or hopper.
    fn output_positions(&self, pos: Pos) -> (r: Vec<Pos>) {
        let dirs = Direction::all();
        let mut found: Vec<Pos> = Vec::new();
        let ghost want = |d: Direction| self.feeds(d);
        let mut i: usize = 0;
        while i < 6
            invariant
                i <= 6,
                dirs@ == Direction::spec_all(),
                want == (|d: Direction| self.feeds(d)),
                found@ == select_upto(pos, want, i as nat),
            decreases 6 - i,
        {
            let d = dirs[i];
            if self.feeds(d) {
                if let Some(q) = pos.neighbor(d) {
                    found.push(q);
                }
            }
            i += 1;
        }
        found
    }
}

} // verus!
