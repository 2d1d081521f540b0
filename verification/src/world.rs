//! Placed blocks, the world as a caller supplies it, and the position-keyed
//! block map the engine works on.

use vstd::prelude::*;
use crate::block::BlockKind;
use crate::geometry::Pos;

verus! {

/// A block together with the cell it occupies.
#[derive(Clone, Copy, Debug, PartialEq, Eq, Structural)]
pub struct PlacedBlock {
    pub pos: Pos,
    pub kind: BlockKind,
}

/// The blocks of a world as placed by the caller, in any order. Where two
/// entries name the same cell, the later one replaces the earlier.
#[derive(Clone, Debug)]
pub struct World {
    pub blocks: Vec<PlacedBlock>,
}

/// The cells are listed in strictly ascending position order, so no
/// position occurs twice.
pub open spec fn ascending(cells: Seq<PlacedBlock>) -> bool {
    forall|i: int, j: int|
        0 <= i < j < cells.len() ==> (#[trigger] cells[i]).pos.precedes((#[trigger] cells[j]).pos)
}

/// Whether some cell of the listing lies at `p`.
pub open spec fn occupied(cells: Seq<PlacedBlock>, p: Pos) -> bool {
    exists|i: int| 0 <= i < cells.len() && (#[trigger] cells[i]).pos == p
}

/// The index of the cell at `p`, where the listing has one.
pub open spec fn index_at(cells: Seq<PlacedBlock>, p: Pos) -> int {
    choose|i: int| 0 <= i < cells.len() && (#[trigger] cells[i]).pos == p
}

/// The block at `p`, or `None` where the cell is empty.
pub open spec fn block_at(cells: Seq<PlacedBlock>, p: Pos) -> Option<BlockKind> {
    if occupied(cells, p) {
        Some(cells[index_at(cells, p)].kind)
    } else {
        None
    }
}

/// The ascending listing `cells` with `b` placed: `b` replaces the block at
/// its position if there is one, and is inserted in order otherwise.
pub open spec fn put(cells: Seq<PlacedBlock>, b: PlacedBlock) -> Seq<PlacedBlock>
    decreases cells.len(),
{
    if cells.len() == 0 {
        seq![b]
    } else {
        let last = cells.last();
        if last.pos.precedes(b.pos) {
            cells.push(b)
        } else if last.pos == b.pos {
            cells.drop_last().push(b)
        } else {
            put(cells.drop_last(), b).push(last)
        }
    }
}

/// The ascending listing of a world: its blocks placed one after another.
pub open spec fn canonical(blocks: Seq<PlacedBlock>) -> Seq<PlacedBlock>
    decreases blocks.len(),
{
    if blocks.len() == 0 {
        Seq::empty()
    } else {
        put(canonical(blocks.drop_last()), blocks.last())
    }
}

/// The block that the last entry for `p` in `blocks` places there.
pub open spec fn last_placed(blocks: Seq<PlacedBlock>, p: Pos) -> Option<BlockKind>
    decreases blocks.len(),
{
    if blocks.len() == 0 {
        None
    } else if blocks.last().pos == p {
        Some(blocks.last().kind)
    } else {
        last_placed(blocks.drop_last(), p)
    }
}

/// Every block of the listing has its fields in range.
pub open spec fn all_in_range(cells: Seq<PlacedBlock>) -> bool {
    forall|i: int| 0 <= i < cells.len() ==> (#[trigger] cells[i]).kind.in_range()
}

/// Whether some block of the listing has a countdown running.
pub open spec fn timers_active(cells: Seq<PlacedBlock>) -> bool {
    exists|i: int| 0 <= i < cells.len() && (#[trigger] cells[i]).kind.timer_running()
}

/// In an ascending listing the cell at index `i` is the one found at its
/// position.
pub proof fn lemma_block_at_index(cells: Seq<PlacedBlock>, i: int)
    requires
        ascending(cells),
        0 <= i < cells.len(),
    ensures
        occupied(cells, cells[i].pos),
        index_at(cells, cells[i].pos) == i,
        block_at(cells, cells[i].pos) == Some(cells[i].kind),
{
    let j = index_at(cells, cells[i].pos);
    assert(cells[j].pos == cells[i].pos);
    if j < i {
        assert(cells[j].pos.precedes(cells[i].pos));
    }
    if i < j {
        assert(cells[i].pos.precedes(cells[j].pos));
    }
}

/// Where `at` is the number of cells that precede `b.pos`, placing `b`
/// overwrites the cell at index `at` if it lies at `b.pos` and inserts `b`
/// before it otherwise.
pub proof fn lemma_put_at(cells: Seq<PlacedBlock>, b: PlacedBlock, at: int)
    requires
        ascending(cells),
        0 <= at <= cells.len(),
        forall|i: int| 0 <= i < at ==> (#[trigger] cells[i]).pos.precedes(b.pos),
        forall|i: int| at <= i < cells.len() ==> !(#[trigger] cells[i]).pos.precedes(b.pos),
    ensures
        put(cells, b) == if at < cells.len() && cells[at].pos == b.pos {
            cells.update(at, b)
        } else {
            cells.insert(at, b)
        },
    decreases cells.len(),
{
    let n = cells.len() as int;
    if n == 0 {
        assert(cells.insert(0, b) =~= seq![b]);
    } else {
        let last = cells.last();
        assert(last == cells[n - 1]);
        if last.pos.precedes(b.pos) {
            assert(at == n);
            assert(cells.insert(n, b) =~= cells.push(b));
        } else if last.pos == b.pos {
            if at < n - 1 {
                assert(cells[at].pos.precedes(cells[n - 1].pos));
            }
            assert(at == n - 1);
            assert(cells.update(at, b) =~= cells.drop_last().push(b));
        } else {
            let front = cells.drop_last();
            assert(at <= n - 1);
            assert(ascending(front));
            assert forall|i: int| 0 <= i < at implies (#[trigger] front[i]).pos.precedes(
                b.pos,
            ) by {
                assert(front[i] == cells[i]);
            }
            assert forall|i: int| at <= i < front.len() implies !(#[trigger] front[i]).pos.precedes(
                b.pos,
            ) by {
                assert(front[i] == cells[i]);
            }
            lemma_put_at(front, b, at);
            if at < n - 1 {
                assert(front[at] == cells[at]);
            }
            if at < n && cells[at].pos == b.pos {
                assert(at < n - 1);
                assert(front.update(at, b).push(last) =~= cells.update(at, b));
            } else {
                assert(front.insert(at, b).push(last) =~= cells.insert(at, b));
            }
        }
    }
}

/// Placing a block keeps the listing ascending, puts the block at its
/// position and leaves every other position as it was.
pub proof fn lemma_put(cells: Seq<PlacedBlock>, b: PlacedBlock)
    requires
        ascending(cells),
    ensures
        ascending(put(cells, b)),
        forall|p: Pos|
            #[trigger] block_at(put(cells, b), p) == if p == b.pos {
                Some(b.kind)
            } else {
                block_at(cells, p)
            },
        forall|p: Pos|
            #[trigger] occupied(put(cells, b), p) <==> p == b.pos || occupied(cells, p),
    decreases cells.len(),
{
    let at = rank(cells, b.pos);
    lemma_rank(cells, b.pos);
    lemma_put_at(cells, b, at);
    let next = put(cells, b);
    let replaces = at < cells.len() && cells[at].pos == b.pos;
    if replaces {
        assert(next == cells.update(at, b));
        assert forall|i: int, j: int| 0 <= i < j < next.len() implies (#[trigger] next[i]).pos.precedes(
            (#[trigger] next[j]).pos,
        ) by {
            assert(next[i].pos == cells[i].pos);
            assert(next[j].pos == cells[j].pos);
        }
    } else {
        assert(next == cells.insert(at, b));
        assert forall|i: int, j: int| 0 <= i < j < next.len() implies (#[trigger] next[i]).pos.precedes(
            (#[trigger] next[j]).pos,
        ) by {
            let pi = if i < at { cells[i].pos } else if i == at { b.pos } else { cells[i - 1].pos };
            let pj = if j < at { cells[j].pos } else if j == at { b.pos } else { cells[j - 1].pos };
            assert(next[i].pos == pi);
            assert(next[j].pos == pj);
            if j > at {
                assert(!cells[j - 1].pos.precedes(b.pos));
            }
        }
    }
    let slot = |k: int| if replaces || k <= at { k } else { k - 1 };
    assert forall|p: Pos| #[trigger]
        occupied(next, p) <==> p == b.pos || occupied(cells, p) by {
        assert(next[at] == b);
        if occupied(cells, p) {
            let k = index_at(cells, p);
            let k2 = if replaces || k < at { k } else { k + 1 };
            assert(next[k2].pos == p);
        }
        if occupied(next, p) && p != b.pos {
            let k = index_at(next, p);
            assert(next[k] == cells[slot(k)]);
            assert(cells[slot(k)].pos == p);
        }
    }
    assert forall|p: Pos| #[trigger]
        block_at(next, p) == if p == b.pos {
            Some(b.kind)
        } else {
            block_at(cells, p)
        } by {
        assert(next[at] == b);
        if p == b.pos {
            lemma_block_at_index(next, at);
        } else if occupied(cells, p) {
            let k = index_at(cells, p);
            let k2 = if replaces || k < at { k } else { k + 1 };
            assert(next[k2] == cells[k]);
            lemma_block_at_index(next, k2);
        } else {
            assert(!occupied(next, p));
        }
    }
}

/// The number of cells of an ascending listing that precede `p`.
pub open spec fn rank(cells: Seq<PlacedBlock>, p: Pos) -> int
    decreases cells.len(),
{
    if cells.len() == 0 {
        0
    } else if cells.last().pos.precedes(p) {
        cells.len() as int
    } else {
        rank(cells.drop_last(), p)
    }
}

/// The rank splits an ascending listing into the cells that precede `p` and
/// those that do not.
pub proof fn lemma_rank(cells: Seq<PlacedBlock>, p: Pos)
    requires
        ascending(cells),
    ensures
        0 <= rank(cells, p) <= cells.len(),
        forall|i: int| 0 <= i < rank(cells, p) ==> (#[trigger] cells[i]).pos.precedes(p),
        forall|i: int|
            rank(cells, p) <= i < cells.len() ==> !(#[trigger] cells[i]).pos.precedes(p),
    decreases cells.len(),
{
    if cells.len() > 0 {
        let n = cells.len() as int;
        let front = cells.drop_last();
        if cells.last().pos.precedes(p) {
            assert forall|i: int| 0 <= i < n implies (#[trigger] cells[i]).pos.precedes(p) by {
                if i < n - 1 {
                    assert(cells[i].pos.precedes(cells[n - 1].pos));
                }
            }
        } else {
            assert(ascending(front));
            lemma_rank(front, p);
            assert forall|i: int| 0 <= i < rank(cells, p) implies (#[trigger] cells[i]).pos.precedes(
                p,
            ) by {
                assert(front[i] == cells[i]);
            }
            assert forall|i: int| rank(cells, p) <= i < n implies !(#[trigger] cells[i]).pos.precedes(
                p,
            ) by {
                if i < n - 1 {
                    assert(front[i] == cells[i]);
                }
            }
        }
    }
}

/// Placing a block whose fields are in range keeps every block in range.
pub proof fn lemma_put_in_range(cells: Seq<PlacedBlock>, b: PlacedBlock)
    requires
        ascending(cells),
        all_in_range(cells),
        b.kind.in_range(),
    ensures
        all_in_range(put(cells, b)),
{
    let at = rank(cells, b.pos);
    lemma_rank(cells, b.pos);
    lemma_put_at(cells, b, at);
    let next = put(cells, b);
    let replaces = at < cells.len() && cells[at].pos == b.pos;
    assert forall|i: int| 0 <= i < next.len() implies (#[trigger] next[i]).kind.in_range() by {
        if i != at {
            let k = if replaces || i < at { i } else { i - 1 };
            assert(next[i] == cells[k]);
        }
    }
}

/// The listing of a world is ascending and holds at each position the block
/// that the last entry for that position placed there.
pub proof fn lemma_canonical(blocks: Seq<PlacedBlock>)
    ensures
        ascending(canonical(blocks)),
        forall|p: Pos| #[trigger] block_at(canonical(blocks), p) == last_placed(blocks, p),
    decreases blocks.len(),
{
    if blocks.len() > 0 {
        lemma_canonical(blocks.drop_last());
        lemma_put(canonical(blocks.drop_last()), blocks.last());
        assert forall|p: Pos| #[trigger]
            block_at(canonical(blocks), p) == last_placed(blocks, p) by {
            assert(block_at(canonical(blocks.drop_last()), p) == last_placed(
                blocks.drop_last(),
                p,
            ));
        }
    } else {
        assert forall|p: Pos| #[trigger]
            block_at(canonical(blocks), p) == last_placed(blocks, p) by {
            assert(!occupied(canonical(blocks), p));
        }
    }
}

/// A world whose blocks are all in range has a listing whose blocks are.
pub proof fn lemma_canonical_in_range(blocks: Seq<PlacedBlock>)
    requires
        all_in_range(blocks),
    ensures
        all_in_range(canonical(blocks)),
    decreases blocks.len(),
{
    if blocks.len() > 0 {
        let front = blocks.drop_last();
        assert forall|i: int| 0 <= i < front.len() implies (#[trigger] front[i]).kind.in_range() by {
            assert(front[i] == blocks[i]);
        }
        lemma_canonical_in_range(front);
        lemma_canonical(front);
        assert(blocks[blocks.len() - 1].kind.in_range());
        lemma_put_in_range(canonical(front), blocks.last());
    }
}

/// The blocks of a world keyed by position: an ascending listing with one
/// block per occupied cell.
pub struct BlockMap {
    cells: Vec<PlacedBlock>,
}

impl View for BlockMap {
    type V = Seq<PlacedBlock>;

    closed spec fn view(&self) -> Seq<PlacedBlock> {
        self.cells@
    }
}

/// The number of cells of `cells` that precede `p`, found by bisection.
fn lower_bound(cells: &Vec<PlacedBlock>, p: Pos) -> (at: usize)
    requires
        ascending(cells@),
    ensures
        at <= cells.len(),
        forall|i: int| 0 <= i < at ==> (#[trigger] cells@[i]).pos.precedes(p),
        forall|i: int| at <= i < cells.len() ==> !(#[trigger] cells@[i]).pos.precedes(p),
{
    let mut lo: usize = 0;
    let mut hi: usize = cells.len();
    while lo < hi
        invariant
            lo <= hi <= cells.len(),
            ascending(cells@),
            forall|i: int| 0 <= i < lo ==> (#[trigger] cells@[i]).pos.precedes(p),
            forall|i: int| hi <= i < cells.len() ==> !(#[trigger] cells@[i]).pos.precedes(p),
        decreases hi - lo,
    {
        let mid: usize = lo + (hi - lo) / 2;
        if cells[mid].pos.precedes(p) {
            assert forall|i: int| 0 <= i < mid + 1 implies (#[trigger] cells@[i]).pos.precedes(
                p,
            ) by {
                if i < mid {
                    assert(cells@[i].pos.precedes(cells@[mid as int].pos));
                }
            }
            lo = mid + 1;
        } else {
            assert forall|i: int| mid <= i < cells.len() implies !(#[trigger] cells@[i]).pos.precedes(
                p,
            ) by {
                if mid < i {
                    assert(cells@[mid as int].pos.precedes(cells@[i].pos));
                }
            }
            hi = mid;
        }
    }
    lo
}

impl World {
    /// Whether every block of the world has its fields in range.
    pub fn in_range(&self) -> (r: bool)
        ensures
            r == all_in_range(self.blocks@),
    {
        let mut i: usize = 0;
        while i < self.blocks.len()
            invariant
                i <= self.blocks.len(),
                forall|j: int| 0 <= j < i ==> (#[trigger] self.blocks@[j]).kind.in_range(),
            decreases self.blocks.len() - i,
        {
            if !self.blocks[i].kind.in_range() {
                return false;
            }
            i += 1;
        }
        true
    }

    /// Keys the blocks by position. Of several entries for one cell the last
    /// one stays.
    pub fn into_map(self) -> (map: BlockMap)
        ensures
            map@ == canonical(self.blocks@),
            ascending(map@),
            forall|p: Pos| #[trigger] block_at(map@, p) == last_placed(self.blocks@, p),
    {
        let mut cells: Vec<PlacedBlock> = Vec::new();
        let mut i: usize = 0;
        while i < self.blocks.len()
            invariant
                i <= self.blocks.len(),
                ascending(cells@),
                cells@ == canonical(self.blocks@.take(i as int)),
            decreases self.blocks.len() - i,
        {
            let b = self.blocks[i];
            let at = lower_bound(&cells, b.pos);
            proof {
                let upto = self.blocks@.take(i + 1);
                assert(upto.drop_last() =~= self.blocks@.take(i as int));
                assert(upto.last() == b);
                lemma_put_at(cells@, b, at as int);
                lemma_put(cells@, b);
            }
            if at < cells.len() && cells[at].pos == b.pos {
                cells[at] = b;
            } else {
                cells.insert(at, b);
            }
            i += 1;
        }
        assert(self.blocks@.take(i as int) =~= self.blocks@);
        proof {
            lemma_canonical(self.blocks@);
        }
        BlockMap { cells }
    }
}

impl BlockMap {
    /// No position occurs twice, and the cells stand in ascending order.
    #[verifier::type_invariant]
    pub open spec fn ordered(&self) -> bool {
        ascending(self@)
    }

    /// The number of blocks.
    pub fn len(&self) -> (n: usize)
        ensures
            n == self@.len(),
    {
        self.cells.len()
    }

    /// The block with index `i` in ascending position order.
    pub fn cell(&self, i: usize) -> (b: PlacedBlock)
        requires
            i < self@.len(),
        ensures
            b == self@[i as int],
    {
        self.cells[i]
    }

    /// The index of the block at `p` in ascending position order.
    pub fn find(&self, p: Pos) -> (r: Option<usize>)
        ensures
            match r {
                Some(i) => i < self@.len() && self@[i as int].pos == p && index_at(self@, p) == i,
                None => !occupied(self@, p),
            },
    {
        proof {
            use_type_invariant(self);
        }
        let at = lower_bound(&self.cells, p);
        if at < self.cells.len() && self.cells[at].pos == p {
            proof {
                lemma_block_at_index(self@, at as int);
            }
            Some(at)
        } else {
            proof {
                if occupied(self@, p) {
                    let k = index_at(self@, p);
                    assert(self@[k].pos == p);
                    if k > at {
                        assert(self@[at as int].pos.precedes(self@[k].pos));
                    }
                }
            }
            None
        }
    }

    /// The block at `p`, or `None` where the cell is empty.
    pub fn get(&self, p: Pos) -> (r: Option<BlockKind>)
        ensures
            r == block_at(self@, p),
    {
        match self.find(p) {
            Some(i) => Some(self.cells[i].kind),
            None => None,
        }
    }

    /// Whether some block still has a countdown running.
    pub fn timers_active(&self) -> (r: bool)
        ensures
            r == timers_active(self@),
    {
        let mut i: usize = 0;
        while i < self.cells.len()
            invariant
                i <= self.cells.len(),
                forall|j: int| 0 <= j < i ==> !(#[trigger] self.cells@[j]).kind.timer_running(),
            decreases self.cells.len() - i,
        {
            if self.cells[i].kind.timer_running() {
                return true;
            }
            i += 1;
        }
        false
    }

    /// The same cells with the block states replaced by `kinds`, index by
    /// index.
    pub fn with_kinds(&self, kinds: &Vec<BlockKind>) -> (map: BlockMap)
        requires
            kinds.len() == self@.len(),
        ensures
            map@ == restate(self@, kinds@),
    {
        proof {
            use_type_invariant(self);
        }
        let mut cells: Vec<PlacedBlock> = Vec::new();
        let mut i: usize = 0;
        while i < self.cells.len()
            invariant
                i <= self.cells.len(),
                kinds.len() == self.cells.len(),
                cells@ == restate(self.cells@, kinds@).take(i as int),
            decreases self.cells.len() - i,
        {
            cells.push(PlacedBlock { pos: self.cells[i].pos, kind: kinds[i] });
            assert(restate(self.cells@, kinds@).take(i + 1) =~= restate(
                self.cells@,
                kinds@,
            ).take(i as int).push(restate(self.cells@, kinds@)[i as int]));
            i += 1;
        }
        assert(cells@ =~= restate(self.cells@, kinds@));
        proof {
            lemma_restate_ascending(self.cells@, kinds@);
        }
        BlockMap { cells }
    }
}

/// The listing `cells` with the state of each block replaced by the entry of
/// `kinds` at the same index.
pub open spec fn restate(cells: Seq<PlacedBlock>, kinds: Seq<BlockKind>) -> Seq<PlacedBlock> {
    Seq::new(cells.len(), |i: int| PlacedBlock { pos: cells[i].pos, kind: kinds[i] })
}

/// Replacing block states moves no block.
pub proof fn lemma_restate_ascending(cells: Seq<PlacedBlock>, kinds: Seq<BlockKind>)
    requires
        ascending(cells),
    ensures
        ascending(restate(cells, kinds)),
{
    let next = restate(cells, kinds);
    assert forall|i: int, j: int| 0 <= i < j < next.len() implies (#[trigger] next[i]).pos.precedes(
        (#[trigger] next[j]).pos,
    ) by {
        assert(cells[i].pos.precedes(cells[j].pos));
    }
}

} // verus!
