//! Positions, the six axis directions and adjacency.

use vstd::prelude::*;

verus! {

/// A cell of the grid.
#[derive(Clone, Copy, Debug, PartialEq, Eq, Hash, Structural)]
pub struct Pos {
    pub x: i32,
    pub y: i32,
    pub z: i32,
}

/// One of the six unit steps along an axis.
#[derive(Clone, Copy, Debug, PartialEq, Eq, Structural)]
pub enum Direction {
    North,
    East,
    South,
    West,
    Up,
    Down,
}

impl Direction {
    /// The unit step of this direction as `(dx, dy, dz)`.
    pub open spec fn spec_offset(self) -> (i32, i32, i32) {
        match self {
            Direction::East => (1i32, 0i32, 0i32),
            Direction::West => (-1i32, 0i32, 0i32),
            Direction::Up => (0i32, 1i32, 0i32),
            Direction::Down => (0i32, -1i32, 0i32),
            Direction::South => (0i32, 0i32, 1i32),
            Direction::North => (0i32, 0i32, -1i32),
        }
    }

    /// The unit step of this direction as `(dx, dy, dz)`.
    #[verifier::when_used_as_spec(spec_offset)]
    pub fn offset(self) -> (r: (i32, i32, i32))
        ensures
            r == self.spec_offset(),
    {
        match self {
            Direction::East => (1, 0, 0),
            Direction::West => (-1, 0, 0),
            Direction::Up => (0, 1, 0),
            Direction::Down => (0, -1, 0),
            Direction::South => (0, 0, 1),
            Direction::North => (0, 0, -1),
        }
    }

    /// The direction pointing the other way along the same axis.
    pub open spec fn spec_opposite(self) -> Direction {
        match self {
            Direction::East => Direction::West,
            Direction::West => Direction::East,
            Direction::Up => Direction::Down,
            Direction::Down => Direction::Up,
            Direction::South => Direction::North,
            Direction::North => Direction::South,
        }
    }

    /// The direction pointing the other way along the same axis.
    #[verifier::when_used_as_spec(spec_opposite)]
    pub fn opposite(self) -> (r: Direction)
        ensures
            r == self.spec_opposite(),
    {
        match self {
            Direction::East => Direction::West,
            Direction::West => Direction::East,
            Direction::Up => Direction::Down,
            Direction::Down => Direction::Up,
            Direction::South => Direction::North,
            Direction::North => Direction::South,
        }
    }

    /// The six directions in scan order: east, west, up, down, south, north.
    pub open spec fn spec_all() -> Seq<Direction> {
        seq![
            Direction::East,
            Direction::West,
            Direction::Up,
            Direction::Down,
            Direction::South,
            Direction::North,
        ]
    }

    /// All six directions, in the order every neighbor scan of the engine uses.
    pub fn all() -> (r: [Direction; 6])
        ensures
            r@ == Direction::spec_all(),
    {
        let r = [
            Direction::East,
            Direction::West,
            Direction::Up,
            Direction::Down,
            Direction::South,
            Direction::North,
        ];
        assert(r@ =~= Direction::spec_all());
        r
    }
}

/// Every direction occurs in the scan order.
pub proof fn lemma_all_is_complete(d: Direction)
    ensures
        exists|i: int| 0 <= i < 6 && Direction::spec_all()[i] == d,
{
    let s = Direction::spec_all();
    match d {
        Direction::East => assert(s[0] == d),
        Direction::West => assert(s[1] == d),
        Direction::Up => assert(s[2] == d),
        Direction::Down => assert(s[3] == d),
        Direction::South => assert(s[4] == d),
        Direction::North => assert(s[5] == d),
    }
}

/// Whether `v` is a coordinate of the grid.
pub open spec fn in_range(v: int) -> bool {
    i32::MIN <= v <= i32::MAX
}

impl Pos {
    /// The cell one step away in direction `d`, where the grid has one.
    pub open spec fn spec_neighbor(self, d: Direction) -> Option<Pos> {
        let (dx, dy, dz) = d.offset();
        if in_range(self.x + dx) && in_range(self.y + dy) && in_range(self.z + dz) {
            Some(Pos { x: (self.x + dx) as i32, y: (self.y + dy) as i32, z: (self.z + dz) as i32 })
        } else {
            None
        }
    }

    /// The cell one step away in direction `d`, or `None` at the rim of the
    /// grid, where no such cell exists.
    #[verifier::when_used_as_spec(spec_neighbor)]
    pub fn neighbor(self, d: Direction) -> (r: Option<Pos>)
        ensures
            r == self.spec_neighbor(d),
    {
        let (dx, dy, dz) = d.offset();
        match (self.x.checked_add(dx), self.y.checked_add(dy), self.z.checked_add(dz)) {
            (Some(x), Some(y), Some(z)) => Some(Pos { x, y, z }),
            _ => None,
        }
    }

    /// Lexicographic order on `(x, y, z)`.
    pub open spec fn spec_precedes(self, other: Pos) -> bool {
        self.x < other.x || (self.x == other.x && (self.y < other.y || (self.y == other.y
            && self.z < other.z)))
    }

    /// Whether `self` comes strictly before `other` in ascending position
    /// order, the order in which a tick visits the blocks.
    #[verifier::when_used_as_spec(spec_precedes)]
    pub fn precedes(self, other: Pos) -> (r: bool)
        ensures
            r == self.spec_precedes(other),
    {
        self.x < other.x || (self.x == other.x && (self.y < other.y || (self.y == other.y
            && self.z < other.z)))
    }
}

/// Two cells are adjacent when they differ by one in exactly one
/// coordinate.
pub open spec fn adjacent(from: Pos, to: Pos) -> bool {
    let dx = to.x - from.x;
    let dy = to.y - from.y;
    let dz = to.z - from.z;
    ||| (dx == 1 || dx == -1) && dy == 0 && dz == 0
    ||| dx == 0 && (dy == 1 || dy == -1) && dz == 0
    ||| dx == 0 && dy == 0 && (dz == 1 || dz == -1)
}

/// The direction of the step from `from` to the adjacent cell `to`.
pub fn dir_from_to(from: Pos, to: Pos) -> (d: Direction)
    requires
        adjacent(from, to),
    ensures
        from.neighbor(d) == Some(to),
{
    if to.x > from.x {
        Direction::East
    } else if to.x < from.x {
        Direction::West
    } else if to.y > from.y {
        Direction::Up
    } else if to.y < from.y {
        Direction::Down
    } else if to.z > from.z {
        Direction::South
    } else {
        Direction::North
    }
}

/// Stepping back along the opposite direction returns to the start, and the
/// direction between two adjacent cells is unique.
pub proof fn lemma_neighbor_round_trip(p: Pos, d: Direction, q: Pos)
    requires
        p.neighbor(d) == Some(q),
    ensures
        q.neighbor(d.opposite()) == Some(p),
        forall|e: Direction| q.neighbor(e) == Some(p) ==> e == d.opposite(),
        forall|e: Direction| p.neighbor(e) == Some(q) ==> e == d,
        adjacent(p, q),
        adjacent(q, p),
{
}

} // verus!
