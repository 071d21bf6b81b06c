//! Chunks: cubes of `CHUNK_SIZE` blocks, how world positions fall into them,
//! how they are merged, and the deltas that carry the changes from one to another.
use vstd::prelude::*;
use crate::blocks::{Block, is_solid};
use crate::Coord;

verus! {

/// Edge length of a chunk, in blocks.
pub const CHUNK_SIZE: usize = 64;

/// Position of a block inside a chunk.
pub type ChunkIndex = [u8; 3];

/// The blocks of a chunk, indexed `[x][y][z]`.
pub type ChunkData = Vec<Vec<Vec<Block>>>;

/// The blocks that changed in a chunk, each with its new kind.
pub type ChunkDelta = (Coord, Vec<(ChunkIndex, Block)>);

/// Whether `d` is a box of `n0 * n1 * n2` blocks.
pub open spec fn grid_dims(d: ChunkData, n0: nat, n1: nat, n2: nat) -> bool {
    &&& d@.len() == n0
    &&& forall|x: int| 0 <= x < n0 ==> #[trigger] d@[x]@.len() == n1
    &&& forall|x: int, y: int| 0 <= x < n0 && 0 <= y < n1 ==> #[trigger] d@[x]@[y]@.len() == n2
}

/// Whether `d` is a box of `n0 * n1 * n2` blocks.
pub fn has_dims(d: &ChunkData, n0: usize, n1: usize, n2: usize) -> (r: bool)
    ensures
        r == grid_dims(*d, n0 as nat, n1 as nat, n2 as nat),
{
    if d.len() != n0 {
        return false;
    }
    let mut x: usize = 0;
    while x < d.len()
        invariant
            x <= d@.len(),
            d@.len() == n0,
            forall|i: int| 0 <= i < x ==> #[trigger] d@[i]@.len() == n1,
            forall|i: int, j: int| 0 <= i < x && 0 <= j < n1 ==> #[trigger] d@[i]@[j]@.len() == n2,
        decreases d@.len() - x,
    {
        if d[x].len() != n1 {
            return false;
        }
        let mut y: usize = 0;
        while y < d[x].len()
            invariant
                x < d@.len(),
                y <= d@[x as int]@.len(),
                d@[x as int]@.len() == n1,
                forall|j: int| 0 <= j < y ==> #[trigger] d@[x as int]@[j]@.len() == n2,
            decreases d@[x as int]@.len() - y,
        {
            if d[x][y].len() != n2 {
                return false;
            }
            y = y + 1;
        }
        x = x + 1;
    }
    true
}

/// The block at `[x][y][z]` of `data`, or `Empty` where that index lies outside it.
pub fn get_block(x: usize, y: usize, z: usize, data: &ChunkData) -> (r: Block)
    ensures
        r == if x < data@.len() && y < data@[x as int]@.len() && z < data@[x as int]@[y as int]@.len() {
            data@[x as int]@[y as int]@[z as int]
        } else {
            Block::Empty
        },
{
    if x < data.len() {
        if y < data[x].len() {
            if z < data[x][y].len() {
                data[x][y][z]
            } else {
                Block::Empty
            }
        } else {
            Block::Empty
        }
    } else {
        Block::Empty
    }
}

/// The block at `[x][y][z]`.
#[verifier::inline]
pub open spec fn cell(d: ChunkData, x: int, y: int, z: int) -> Block {
    d@[x]@[y]@[z]
}

/// Whether `(x, y, z)` lies inside a chunk.
pub open spec fn in_chunk(x: int, y: int, z: int) -> bool {
    0 <= x < CHUNK_SIZE && 0 <= y < CHUNK_SIZE && 0 <= z < CHUNK_SIZE
}

/// Which chunk a world coordinate belongs to along one axis (floor division).
pub open spec fn chunk_of(c: int) -> int {
    c / (CHUNK_SIZE as int)
}

/// Where a world coordinate lies inside its chunk along one axis.
pub open spec fn offset_in_chunk(c: int) -> int {
    c % (CHUNK_SIZE as int)
}

/// A world coordinate is its chunk times `CHUNK_SIZE` plus its offset in that
/// chunk, and that offset lies in `0..CHUNK_SIZE`.
pub proof fn lemma_chunk_coords_rebuild(c: int)
    ensures
        chunk_of(c) * CHUNK_SIZE + offset_in_chunk(c) == c,
        0 <= offset_in_chunk(c) < CHUNK_SIZE,
{
    vstd::arithmetic::div_mod::lemma_fundamental_div_mod(c, CHUNK_SIZE as int);
}

/// Splits one world coordinate into its chunk and its offset in that chunk.
fn split_axis(c: i64) -> (r: (i64, usize))
    ensures
        r.0 == chunk_of(c as int),
        r.1 == offset_in_chunk(c as int),
        r.1 < CHUNK_SIZE,
        r.0 * (CHUNK_SIZE as int) + r.1 == c,
{
    let q: i64 = match c.checked_div_euclid(64) {
        Some(q) => q,
        None => 0,
    };
    let r: i64 = match c.checked_rem_euclid(64) {
        Some(r) => r,
        None => 0,
    };
    (q, r as usize)
}

/// The coordinate of the chunk that holds world position `w`.
pub open spec fn chunk_key(w: [i64; 3]) -> Coord {
    [chunk_of(w[0] as int) as i64, chunk_of(w[1] as int) as i64, chunk_of(w[2] as int) as i64]
}

/// The chunk that holds a world coordinate, and the block's index inside that chunk.
pub fn get_chunk_coords(coord: &[i64; 3]) -> (r: ([i64; 3], [usize; 3]))
    ensures
        r.0 == chunk_key(*coord),
        forall|i: int| 0 <= i < 3 ==> #[trigger] r.0[i] == chunk_of(coord[i] as int),
        forall|i: int| 0 <= i < 3 ==> #[trigger] r.1[i] == offset_in_chunk(coord[i] as int),
        forall|i: int| 0 <= i < 3 ==> #[trigger] r.1[i] < CHUNK_SIZE,
{
    let (c0, i0) = split_axis(coord[0]);
    let (c1, i1) = split_axis(coord[1]);
    let (c2, i2) = split_axis(coord[2]);
    let r = ([c0, c1, c2], [i0, i1, i2]);
    assert(forall|i: int| 0 <= i < 3 ==> r.0[i] == chunk_of(coord[i] as int) && r.1[i] == offset_in_chunk(coord[i] as int)) by {
        assert(r.0[0] == c0 && r.0[1] == c1 && r.0[2] == c2);
        assert(r.1[0] == i0 && r.1[1] == i1 && r.1[2] == i2);
    }
    assert(r.0 =~= chunk_key(*coord));
    r
}

/// A new row of `n` empty blocks.
fn empty_row(n: usize) -> (r: Vec<Block>)
    ensures
        r@.len() == n,
        forall|z: int| 0 <= z < n ==> r@[z] == Block::Empty,
{
    let mut r: Vec<Block> = Vec::new();
    let mut i: usize = 0;
    while i < n
        invariant
            i <= n,
            r@.len() == i,
            forall|z: int| 0 <= z < i ==> r@[z] == Block::Empty,
        decreases n - i,
    {
        r.push(Block::Empty);
        i = i + 1;
    }
    r
}

/// A new plane of `n1 * n2` empty blocks.
fn empty_plane(n1: usize, n2: usize) -> (r: Vec<Vec<Block>>)
    ensures
        r@.len() == n1,
        forall|y: int| 0 <= y < n1 ==> #[trigger] r@[y]@.len() == n2,
        forall|y: int, z: int| 0 <= y < n1 && 0 <= z < n2 ==> #[trigger] r@[y]@[z] == Block::Empty,
{
    let mut r: Vec<Vec<Block>> = Vec::new();
    let mut i: usize = 0;
    while i < n1
        invariant
            i <= n1,
            r@.len() == i,
            forall|y: int| 0 <= y < i ==> #[trigger] r@[y]@.len() == n2,
            forall|y: int, z: int| 0 <= y < i && 0 <= z < n2 ==> #[trigger] r@[y]@[z] == Block::Empty,
        decreases n1 - i,
    {
        r.push(empty_row(n2));
        i = i + 1;
    }
    r
}

/// A new box of `n0 * n1 * n2` empty blocks.
pub(crate) fn empty_grid(n0: usize, n1: usize, n2: usize) -> (r: ChunkData)
    ensures
        grid_dims(r, n0 as nat, n1 as nat, n2 as nat),
        forall|x: int, y: int, z: int| 0 <= x < n0 && 0 <= y < n1 && 0 <= z < n2
            ==> #[trigger] cell(r, x, y, z) == Block::Empty,
{
    let mut r: ChunkData = Vec::new();
    let mut i: usize = 0;
    while i < n0
        invariant
            i <= n0,
            grid_dims(r, i as nat, n1 as nat, n2 as nat),
            forall|x: int, y: int, z: int| 0 <= x < i && 0 <= y < n1 && 0 <= z < n2
                ==> #[trigger] cell(r, x, y, z) == Block::Empty,
        decreases n0 - i,
    {
        let plane = empty_plane(n1, n2);
        let ghost prev = r;
        r.push(plane);
        assert forall|x: int, y: int, z: int| 0 <= x < i + 1 && 0 <= y < n1 && 0 <= z < n2
            implies #[trigger] cell(r, x, y, z) == Block::Empty by {
            if x < i {
                assert(r@[x] == prev@[x]);
                assert(cell(prev, x, y, z) == Block::Empty);
            } else {
                assert(r@[x] == plane);
            }
        }
        i = i + 1;
    }
    r
}

/// Which block wins where `over` is merged onto `under`: any block but `Empty`.
pub open spec fn merged(under: Block, over: Block) -> Block {
    if over != Block::Empty { over } else { under }
}

fn merge_row(dst: &mut Vec<Block>, src: &Vec<Block>)
    requires
        old(dst)@.len() == src@.len(),
    ensures
        final(dst)@.len() == src@.len(),
        forall|z: int| 0 <= z < src@.len() ==> #[trigger] final(dst)@[z] == merged(old(dst)@[z], src@[z]),
{
    let n = src.len();
    let mut i: usize = 0;
    while i < n
        invariant
            n == src@.len(),
            i <= n,
            dst@.len() == n,
            forall|z: int| 0 <= z < i ==> #[trigger] dst@[z] == merged(old(dst)@[z], src@[z]),
            forall|z: int| i <= z < n ==> #[trigger] dst@[z] == old(dst)@[z],
        decreases n - i,
    {
        if src[i] != Block::Empty {
            dst[i] = src[i];
        }
        i = i + 1;
    }
}

fn merge_plane(dst: &mut Vec<Vec<Block>>, src: &Vec<Vec<Block>>, n2: Ghost<nat>)
    requires
        old(dst)@.len() == src@.len(),
        forall|y: int| 0 <= y < src@.len() ==> #[trigger] old(dst)@[y]@.len() == n2@,
        forall|y: int| 0 <= y < src@.len() ==> #[trigger] src@[y]@.len() == n2@,
    ensures
        final(dst)@.len() == src@.len(),
        forall|y: int| 0 <= y < src@.len() ==> #[trigger] final(dst)@[y]@.len() == n2@,
        forall|y: int, z: int| 0 <= y < src@.len() && 0 <= z < n2@
            ==> #[trigger] final(dst)@[y]@[z] == merged(old(dst)@[y]@[z], src@[y]@[z]),
{
    let n = src.len();
    let mut i: usize = 0;
    while i < n
        invariant
            n == src@.len(),
            i <= n,
            dst@.len() == n,
            forall|y: int| 0 <= y < n ==> #[trigger] dst@[y]@.len() == n2@,
            forall|y: int| 0 <= y < n ==> #[trigger] src@[y]@.len() == n2@,
            forall|y: int, z: int| 0 <= y < i && 0 <= z < n2@
                ==> #[trigger] dst@[y]@[z] == merged(old(dst)@[y]@[z], src@[y]@[z]),
            forall|y: int| i <= y < n ==> #[trigger] dst@[y] == old(dst)@[y],
        decreases n - i,
    {
        merge_row(&mut dst[i], &src[i]);
        i = i + 1;
    }
}

/// Whether row `src` holds only `Empty` blocks.
fn row_is_empty(src: &Vec<Block>) -> (r: bool)
    ensures
        r == (forall|z: int| 0 <= z < src@.len() ==> #[trigger] src@[z] == Block::Empty),
{
    let n = src.len();
    let mut empty = true;
    let mut i: usize = 0;
    while i < n
        invariant
            n == src@.len(),
            i <= n,
            empty == (forall|z: int| 0 <= z < i ==> #[trigger] src@[z] == Block::Empty),
        decreases n - i,
    {
        if src[i] != Block::Empty {
            empty = false;
        }
        i = i + 1;
    }
    empty
}

/// A cube of blocks, with the position of the chunk it fills.
#[derive(Clone, Debug)]
pub struct Chunk {
    pub data: ChunkData,
    pub coord: Coord,
}

impl Chunk {
    /// The blocks form a `CHUNK_SIZE` cube.
    pub open spec fn wf(&self) -> bool {
        grid_dims(self.data, CHUNK_SIZE as nat, CHUNK_SIZE as nat, CHUNK_SIZE as nat)
    }

    /// The block at `(x, y, z)`.
    #[verifier::inline]
    pub open spec fn at(&self, x: int, y: int, z: int) -> Block {
        cell(self.data, x, y, z)
    }

    /// Whether every block of the chunk is `Empty`.
    pub open spec fn spec_is_empty(&self) -> bool {
        forall|x: int, y: int, z: int| in_chunk(x, y, z) ==> #[trigger] self.at(x, y, z) == Block::Empty
    }

    /// A chunk at `coord` that holds only `Empty` blocks.
    pub fn new(coord: Coord) -> (r: Chunk)
        ensures
            r.wf(),
            r.coord == coord,
            forall|x: int, y: int, z: int| in_chunk(x, y, z) ==> #[trigger] r.at(x, y, z) == Block::Empty,
    {
        Chunk { data: empty_grid(CHUNK_SIZE, CHUNK_SIZE, CHUNK_SIZE), coord }
    }

    /// Copies every block of `other` that is not `Empty` onto this chunk.
    pub fn merge(&mut self, other: &Self)
        requires
            old(self).wf(),
            other.wf(),
        ensures
            final(self).wf(),
            final(self).coord == old(self).coord,
            forall|x: int, y: int, z: int| in_chunk(x, y, z)
                ==> #[trigger] final(self).at(x, y, z) == merged(old(self).at(x, y, z), other.at(x, y, z)),
    {
        let ghost before = self.data;
        let mut i: usize = 0;
        while i < CHUNK_SIZE
            invariant
                i <= CHUNK_SIZE,
                other.wf(),
                self.data@.len() == CHUNK_SIZE,
                self.coord == old(self).coord,
                before == old(self).data,
                grid_dims(before, CHUNK_SIZE as nat, CHUNK_SIZE as nat, CHUNK_SIZE as nat),
                forall|x: int| 0 <= x < CHUNK_SIZE ==> #[trigger] self.data@[x]@.len() == CHUNK_SIZE,
                forall|x: int, y: int| 0 <= x < CHUNK_SIZE && 0 <= y < CHUNK_SIZE
                    ==> #[trigger] self.data@[x]@[y]@.len() == CHUNK_SIZE,
                forall|x: int, y: int, z: int| 0 <= x < i && 0 <= y < CHUNK_SIZE && 0 <= z < CHUNK_SIZE
                    ==> #[trigger] cell(self.data, x, y, z) == merged(cell(before, x, y, z), cell(other.data, x, y, z)),
                forall|x: int| i <= x < CHUNK_SIZE ==> #[trigger] self.data@[x] == before@[x],
            decreases CHUNK_SIZE - i,
        {
            merge_plane(&mut self.data[i], &other.data[i], Ghost(CHUNK_SIZE as nat));
            i = i + 1;
        }
    }

    /// Whether the blocks form a `CHUNK_SIZE` cube.
    pub fn is_well_formed(&self) -> (r: bool)
        ensures
            r == self.wf(),
    {
        has_dims(&self.data, CHUNK_SIZE, CHUNK_SIZE, CHUNK_SIZE)
    }

    /// Whether every block of the chunk is `Empty`.
    pub fn is_empty(&self) -> (r: bool)
        requires
            self.wf(),
        ensures
            r == self.spec_is_empty(),
    {
        let mut empty = true;
        let mut x: usize = 0;
        while x < CHUNK_SIZE
            invariant
                x <= CHUNK_SIZE,
                self.wf(),
                empty == (forall|i: int, j: int, k: int| 0 <= i < x && 0 <= j < CHUNK_SIZE && 0 <= k < CHUNK_SIZE
                    ==> #[trigger] self.at(i, j, k) == Block::Empty),
            decreases CHUNK_SIZE - x,
        {
            let mut y: usize = 0;
            while y < CHUNK_SIZE
                invariant
                    x < CHUNK_SIZE,
                    y <= CHUNK_SIZE,
                    self.wf(),
                    empty == ((forall|i: int, j: int, k: int| 0 <= i < x && 0 <= j < CHUNK_SIZE && 0 <= k < CHUNK_SIZE
                        ==> #[trigger] self.at(i, j, k) == Block::Empty)
                        && (forall|j: int, k: int| 0 <= j < y && 0 <= k < CHUNK_SIZE
                        ==> #[trigger] self.at(x as int, j, k) == Block::Empty)),
                decreases CHUNK_SIZE - y,
            {
                let row_empty = row_is_empty(&self.data[x][y]);
                proof {
                    assert(row_empty == (forall|k: int| 0 <= k < CHUNK_SIZE ==> #[trigger] self.at(x as int, y as int, k) == Block::Empty));
                }
                if !row_empty {
                    empty = false;
                }
                y = y + 1;
            }
            x = x + 1;
        }
        empty
    }
}

/// A block position as three integers.
pub type Pos = (int, int, int);

/// The position that a delta entry changes.
pub open spec fn entry_pos(e: (ChunkIndex, Block)) -> Pos {
    (e.0[0] as int, e.0[1] as int, e.0[2] as int)
}

/// Lexicographic order on positions: by `x`, then `y`, then `z`.
pub open spec fn pos_lt(a: Pos, b: Pos) -> bool {
    a.0 < b.0 || (a.0 == b.0 && (a.1 < b.1 || (a.1 == b.1 && a.2 < b.2)))
}

/// Whether `p` lies inside a chunk.
pub open spec fn pos_in_chunk(p: Pos) -> bool {
    in_chunk(p.0, p.1, p.2)
}

/// The entries list their positions in strictly increasing order.
pub open spec fn entries_sorted(es: Seq<(ChunkIndex, Block)>) -> bool {
    forall|i: int, j: int| 0 <= i < j < es.len() ==> pos_lt(entry_pos(#[trigger] es[i]), entry_pos(#[trigger] es[j]))
}

/// The entries are exactly the positions before `bound` where `a` and `b`
/// differ, each carrying `b`'s block, in increasing order.
pub open spec fn delta_upto(a: Chunk, b: Chunk, es: Seq<(ChunkIndex, Block)>, bound: Pos) -> bool {
    &&& entries_sorted(es)
    &&& forall|i: int| 0 <= i < es.len() ==> {
        let p = #[trigger] entry_pos(es[i]);
        &&& pos_in_chunk(p)
        &&& pos_lt(p, bound)
        &&& a.at(p.0, p.1, p.2) != b.at(p.0, p.1, p.2)
        &&& es[i].1 == b.at(p.0, p.1, p.2)
    }
    &&& forall|x: int, y: int, z: int| in_chunk(x, y, z) && pos_lt((x, y, z), bound)
        && #[trigger] a.at(x, y, z) != b.at(x, y, z)
        ==> exists|i: int| 0 <= i < es.len() && #[trigger] entry_pos(es[i]) == (x, y, z)
}

/// The entries are exactly the positions where `a` and `b` differ, each with
/// `b`'s block, in increasing order of position.
pub open spec fn is_delta(a: Chunk, b: Chunk, es: Seq<(ChunkIndex, Block)>) -> bool {
    delta_upto(a, b, es, (CHUNK_SIZE as int, 0, 0))
}

/// The block that the last entry for position `p` writes, if any entry does.
pub open spec fn last_write(es: Seq<(ChunkIndex, Block)>, p: Pos) -> Option<Block>
    decreases es.len(),
{
    if es.len() == 0 {
        None
    } else if entry_pos(es.last()) == p {
        Some(es.last().1)
    } else {
        last_write(es.drop_last(), p)
    }
}

/// The block at `p` once the entries are written over `old_block`.
pub open spec fn written(es: Seq<(ChunkIndex, Block)>, p: Pos, old_block: Block) -> Block {
    match last_write(es, p) {
        Some(b) => b,
        None => old_block,
    }
}

impl Chunk {
    /// The blocks at which `other` differs from this chunk, each with its block in
    /// `other`, in increasing order of position; tagged with this chunk's coordinate.
    pub fn get_delta(&self, other: &Self) -> (r: ChunkDelta)
        requires
            self.wf(),
            other.wf(),
        ensures
            r.0 == self.coord,
            is_delta(*self, *other, r.1@),
    {
        let mut delta: Vec<(ChunkIndex, Block)> = Vec::new();
        let mut x: usize = 0;
        while x < CHUNK_SIZE
            invariant
                x <= CHUNK_SIZE,
                self.wf(),
                other.wf(),
                delta_upto(*self, *other, delta@, (x as int, 0, 0)),
            decreases CHUNK_SIZE - x,
        {
            let mut y: usize = 0;
            while y < CHUNK_SIZE
                invariant
                    x < CHUNK_SIZE,
                    y <= CHUNK_SIZE,
                    self.wf(),
                    other.wf(),
                    delta_upto(*self, *other, delta@, (x as int, y as int, 0)),
                decreases CHUNK_SIZE - y,
            {
                let mut z: usize = 0;
                while z < CHUNK_SIZE
                    invariant
                        x < CHUNK_SIZE,
                        y < CHUNK_SIZE,
                        z <= CHUNK_SIZE,
                        self.wf(),
                        other.wf(),
                        delta_upto(*self, *other, delta@, (x as int, y as int, z as int)),
                    decreases CHUNK_SIZE - z,
                {
                    let a = self.data[x][y][z];
                    let b = other.data[x][y][z];
                    let ghost prev = delta@;
                    if a != b {
                        let e: (ChunkIndex, Block) = ([x as u8, y as u8, z as u8], b);
                        delta.push(e);
                        proof {
                            assert(entry_pos(e) == (x as int, y as int, z as int));
                            assert(delta@[delta@.len() - 1] == e);
                            assert forall|i: int| 0 <= i < prev.len() implies delta@[i] == prev[i] by {}
                        }
                    }
                    proof {
                        let bound = (x as int, y as int, (z + 1) as int);
                        assert forall|p: int, q: int, r: int| in_chunk(p, q, r) && pos_lt((p, q, r), bound)
                            && #[trigger] self.at(p, q, r) != other.at(p, q, r)
                            implies exists|i: int| 0 <= i < delta@.len() && #[trigger] entry_pos(delta@[i]) == (p, q, r) by {
                            if pos_lt((p, q, r), (x as int, y as int, z as int)) {
                                let i = choose|i: int| 0 <= i < prev.len() && #[trigger] entry_pos(prev[i]) == (p, q, r);
                                assert(delta@[i] == prev[i]);
                            } else {
                                assert(entry_pos(delta@[delta@.len() - 1]) == (p, q, r));
                            }
                        }
                    }
                    z = z + 1;
                }
                y = y + 1;
            }
            x = x + 1;
        }
        (self.coord, delta)
    }

    /// Writes each entry's block at its position, in order.
    pub fn apply_delta(&mut self, delta: &ChunkDelta)
        requires
            old(self).wf(),
            forall|i: int| 0 <= i < delta.1@.len() ==> pos_in_chunk(#[trigger] entry_pos(delta.1@[i])),
        ensures
            final(self).wf(),
            final(self).coord == old(self).coord,
            forall|x: int, y: int, z: int| in_chunk(x, y, z)
                ==> #[trigger] final(self).at(x, y, z) == written(delta.1@, (x, y, z), old(self).at(x, y, z)),
    {
        let es = &delta.1;
        let n = es.len();
        let mut i: usize = 0;
        while i < n
            invariant
                n == es@.len(),
                i <= n,
                self.wf(),
                self.coord == old(self).coord,
                forall|k: int| 0 <= k < es@.len() ==> pos_in_chunk(#[trigger] entry_pos(es@[k])),
                forall|x: int, y: int, z: int| in_chunk(x, y, z)
                    ==> #[trigger] self.at(x, y, z) == written(es@.take(i as int), (x, y, z), old(self).at(x, y, z)),
            decreases n - i,
        {
            let (idx, block) = es[i];
            let ghost before = self.data;
            let ghost e = es@[i as int];
            assert(pos_in_chunk(entry_pos(e)));
            let x = idx[0] as usize;
            let y = idx[1] as usize;
            let z = idx[2] as usize;
            self.data[x][y][z] = block;
            proof {
                assert(es@.take(i + 1).drop_last() =~= es@.take(i as int));
                assert(es@.take(i + 1).last() == e);
                assert forall|p: int, q: int, r: int| in_chunk(p, q, r) implies
                    #[trigger] self.at(p, q, r) == written(es@.take(i + 1), (p, q, r), old(self).at(p, q, r)) by {
                    if (p, q, r) == (x as int, y as int, z as int) {
                    } else {
                        assert(cell(self.data, p, q, r) == cell(before, p, q, r));
                    }
                }
            }
            i = i + 1;
        }
        proof {
            assert(es@.take(n as int) =~= es@);
        }
    }
}

/// In a list of distinct positions, the entry for `p` is the one written there.
proof fn lemma_last_write_distinct(es: Seq<(ChunkIndex, Block)>, k: int)
    requires
        entries_sorted(es),
        0 <= k < es.len(),
    ensures
        last_write(es, entry_pos(es[k])) == Some(es[k].1),
    decreases es.len(),
{
    if k == es.len() - 1 {
    } else {
        assert(pos_lt(entry_pos(es[k]), entry_pos(es[es.len() - 1])));
        let rest = es.drop_last();
        assert forall|i: int, j: int| 0 <= i < j < rest.len() implies
            pos_lt(entry_pos(#[trigger] rest[i]), entry_pos(#[trigger] rest[j])) by {
            assert(rest[i] == es[i] && rest[j] == es[j]);
        }
        lemma_last_write_distinct(rest, k);
    }
}

/// A position no entry lists is not written.
proof fn lemma_last_write_absent(es: Seq<(ChunkIndex, Block)>, p: Pos)
    requires
        forall|i: int| 0 <= i < es.len() ==> #[trigger] entry_pos(es[i]) != p,
    ensures
        last_write(es, p) is None,
    decreases es.len(),
{
    if es.len() > 0 {
        assert(entry_pos(es[es.len() - 1]) != p);
        let rest = es.drop_last();
        assert forall|i: int| 0 <= i < rest.len() implies #[trigger] entry_pos(rest[i]) != p by {
            assert(rest[i] == es[i]);
        }
        lemma_last_write_absent(rest, p);
    }
}

/// Writing the delta from `a` to `b` over `a`'s blocks gives `b`'s blocks.
pub proof fn lemma_apply_delta_restores(a: Chunk, b: Chunk, es: Seq<(ChunkIndex, Block)>)
    requires
        a.wf(),
        b.wf(),
        is_delta(a, b, es),
    ensures
        forall|x: int, y: int, z: int| in_chunk(x, y, z)
            ==> #[trigger] written(es, (x, y, z), a.at(x, y, z)) == b.at(x, y, z),
        forall|i: int| 0 <= i < es.len() ==> pos_in_chunk(#[trigger] entry_pos(es[i])),
{
    assert forall|x: int, y: int, z: int| in_chunk(x, y, z)
        implies #[trigger] written(es, (x, y, z), a.at(x, y, z)) == b.at(x, y, z) by {
        if a.at(x, y, z) != b.at(x, y, z) {
            assert(pos_lt((x, y, z), (CHUNK_SIZE as int, 0, 0)));
            let k = choose|k: int| 0 <= k < es.len() && #[trigger] entry_pos(es[k]) == (x, y, z);
            lemma_last_write_distinct(es, k);
        } else {
            assert forall|i: int| 0 <= i < es.len() implies #[trigger] entry_pos(es[i]) != (x, y, z) by {}
            lemma_last_write_absent(es, (x, y, z));
        }
    }
}

/// One face of a chunk: a `CHUNK_SIZE` square of blocks.
pub type ChunkSide = [[Block; CHUNK_SIZE]; CHUNK_SIZE];

impl Chunk {
    /// The face at `x == 0`, indexed `[z][y]`.
    pub fn get_left_side(&self) -> (side: ChunkSide)
        requires
            self.wf(),
        ensures
            forall|z: int, y: int| 0 <= z < CHUNK_SIZE && 0 <= y < CHUNK_SIZE
                ==> #[trigger] side[z][y] == self.at(0, y, z),
    {
        let mut side: ChunkSide = [[Block::Empty; CHUNK_SIZE]; CHUNK_SIZE];
        let mut z: usize = 0;
        while z < CHUNK_SIZE
            invariant
                z <= CHUNK_SIZE,
                self.wf(),
                forall|c: int, b: int| 0 <= c < z && 0 <= b < CHUNK_SIZE
                    ==> #[trigger] side[c][b] == self.at(0, b, c),
            decreases CHUNK_SIZE - z,
        {
            let mut y: usize = 0;
            while y < CHUNK_SIZE
                invariant
                    z < CHUNK_SIZE,
                    y <= CHUNK_SIZE,
                    self.wf(),
                    forall|c: int, b: int| 0 <= c < z && 0 <= b < CHUNK_SIZE
                        ==> #[trigger] side[c][b] == self.at(0, b, c),
                    forall|b: int| 0 <= b < y ==> #[trigger] side[z as int][b] == self.at(0, b, z as int),
                decreases CHUNK_SIZE - y,
            {
                side[z][y] = self.data[0][y][z];
                y = y + 1;
            }
            z = z + 1;
        }
        side
    }

    /// The face at `x == CHUNK_SIZE - 1`, indexed `[z][y]`.
    pub fn get_right_side(&self) -> (side: ChunkSide)
        requires
            self.wf(),
        ensures
            forall|z: int, y: int| 0 <= z < CHUNK_SIZE && 0 <= y < CHUNK_SIZE
                ==> #[trigger] side[z][y] == self.at(CHUNK_SIZE - 1, y, z),
    {
        let mut side: ChunkSide = [[Block::Empty; CHUNK_SIZE]; CHUNK_SIZE];
        let mut z: usize = 0;
        while z < CHUNK_SIZE
            invariant
                z <= CHUNK_SIZE,
                self.wf(),
                forall|c: int, b: int| 0 <= c < z && 0 <= b < CHUNK_SIZE
                    ==> #[trigger] side[c][b] == self.at(CHUNK_SIZE - 1, b, c),
            decreases CHUNK_SIZE - z,
        {
            let mut y: usize = 0;
            while y < CHUNK_SIZE
                invariant
                    z < CHUNK_SIZE,
                    y <= CHUNK_SIZE,
                    self.wf(),
                    forall|c: int, b: int| 0 <= c < z && 0 <= b < CHUNK_SIZE
                        ==> #[trigger] side[c][b] == self.at(CHUNK_SIZE - 1, b, c),
                    forall|b: int| 0 <= b < y ==> #[trigger] side[z as int][b] == self.at(CHUNK_SIZE - 1, b, z as int),
                decreases CHUNK_SIZE - y,
            {
                side[z][y] = self.data[CHUNK_SIZE - 1][y][z];
                y = y + 1;
            }
            z = z + 1;
        }
        side
    }

    /// The face at `z == CHUNK_SIZE - 1`, indexed `[x][y]`.
    pub fn get_front_side(&self) -> (side: ChunkSide)
        requires
            self.wf(),
        ensures
            forall|x: int, y: int| 0 <= x < CHUNK_SIZE && 0 <= y < CHUNK_SIZE
                ==> #[trigger] side[x][y] == self.at(x, y, CHUNK_SIZE - 1),
    {
        let mut side: ChunkSide = [[Block::Empty; CHUNK_SIZE]; CHUNK_SIZE];
        let mut x: usize = 0;
        while x < CHUNK_SIZE
            invariant
                x <= CHUNK_SIZE,
                self.wf(),
                forall|c: int, b: int| 0 <= c < x && 0 <= b < CHUNK_SIZE
                    ==> #[trigger] side[c][b] == self.at(c, b, CHUNK_SIZE - 1),
            decreases CHUNK_SIZE - x,
        {
            let mut y: usize = 0;
            while y < CHUNK_SIZE
                invariant
                    x < CHUNK_SIZE,
                    y <= CHUNK_SIZE,
                    self.wf(),
                    forall|c: int, b: int| 0 <= c < x && 0 <= b < CHUNK_SIZE
                        ==> #[trigger] side[c][b] == self.at(c, b, CHUNK_SIZE - 1),
                    forall|b: int| 0 <= b < y ==> #[trigger] side[x as int][b] == self.at(x as int, b, CHUNK_SIZE - 1),
                decreases CHUNK_SIZE - y,
            {
                side[x][y] = self.data[x][y][CHUNK_SIZE - 1];
                y = y + 1;
            }
            x = x + 1;
        }
        side
    }

    /// The face at `z == 0`, indexed `[x][y]`.
    pub fn get_back_side(&self) -> (side: ChunkSide)
        requires
            self.wf(),
        ensures
            forall|x: int, y: int| 0 <= x < CHUNK_SIZE && 0 <= y < CHUNK_SIZE
                ==> #[trigger] side[x][y] == self.at(x, y, 0),
    {
        let mut side: ChunkSide = [[Block::Empty; CHUNK_SIZE]; CHUNK_SIZE];
        let mut x: usize = 0;
        while x < CHUNK_SIZE
            invariant
                x <= CHUNK_SIZE,
                self.wf(),
                forall|c: int, b: int| 0 <= c < x && 0 <= b < CHUNK_SIZE
                    ==> #[trigger] side[c][b] == self.at(c, b, 0),
            decreases CHUNK_SIZE - x,
        {
            let mut y: usize = 0;
            while y < CHUNK_SIZE
                invariant
                    x < CHUNK_SIZE,
                    y <= CHUNK_SIZE,
                    self.wf(),
                    forall|c: int, b: int| 0 <= c < x && 0 <= b < CHUNK_SIZE
                        ==> #[trigger] side[c][b] == self.at(c, b, 0),
                    forall|b: int| 0 <= b < y ==> #[trigger] side[x as int][b] == self.at(x as int, b, 0),
                decreases CHUNK_SIZE - y,
            {
                side[x][y] = self.data[x][y][0];
                y = y + 1;
            }
            x = x + 1;
        }
        side
    }

    /// The face at `y == CHUNK_SIZE - 1`, indexed `[x][z]`.
    pub fn get_top_side(&self) -> (side: ChunkSide)
        requires
            self.wf(),
        ensures
            forall|x: int, z: int| 0 <= x < CHUNK_SIZE && 0 <= z < CHUNK_SIZE
                ==> #[trigger] side[x][z] == self.at(x, CHUNK_SIZE - 1, z),
    {
        let mut side: ChunkSide = [[Block::Empty; CHUNK_SIZE]; CHUNK_SIZE];
        let mut x: usize = 0;
        while x < CHUNK_SIZE
            invariant
                x <= CHUNK_SIZE,
                self.wf(),
                forall|c: int, b: int| 0 <= c < x && 0 <= b < CHUNK_SIZE
                    ==> #[trigger] side[c][b] == self.at(c, CHUNK_SIZE - 1, b),
            decreases CHUNK_SIZE - x,
        {
            let mut z: usize = 0;
            while z < CHUNK_SIZE
                invariant
                    x < CHUNK_SIZE,
                    z <= CHUNK_SIZE,
                    self.wf(),
                    forall|c: int, b: int| 0 <= c < x && 0 <= b < CHUNK_SIZE
                        ==> #[trigger] side[c][b] == self.at(c, CHUNK_SIZE - 1, b),
                    forall|b: int| 0 <= b < z ==> #[trigger] side[x as int][b] == self.at(x as int, CHUNK_SIZE - 1, b),
                decreases CHUNK_SIZE - z,
            {
                side[x][z] = self.data[x][CHUNK_SIZE - 1][z];
                z = z + 1;
            }
            x = x + 1;
        }
        side
    }

    /// The face at `y == 0`, indexed `[x][z]`.
    pub fn get_bottom_side(&self) -> (side: ChunkSide)
        requires
            self.wf(),
        ensures
            forall|x: int, z: int| 0 <= x < CHUNK_SIZE && 0 <= z < CHUNK_SIZE
                ==> #[trigger] side[x][z] == self.at(x, 0, z),
    {
        let mut side: ChunkSide = [[Block::Empty; CHUNK_SIZE]; CHUNK_SIZE];
        let mut x: usize = 0;
        while x < CHUNK_SIZE
            invariant
                x <= CHUNK_SIZE,
                self.wf(),
                forall|c: int, b: int| 0 <= c < x && 0 <= b < CHUNK_SIZE
                    ==> #[trigger] side[c][b] == self.at(c, 0, b),
            decreases CHUNK_SIZE - x,
        {
            let mut z: usize = 0;
            while z < CHUNK_SIZE
                invariant
                    x < CHUNK_SIZE,
                    z <= CHUNK_SIZE,
                    self.wf(),
                    forall|c: int, b: int| 0 <= c < x && 0 <= b < CHUNK_SIZE
                        ==> #[trigger] side[c][b] == self.at(c, 0, b),
                    forall|b: int| 0 <= b < z ==> #[trigger] side[x as int][b] == self.at(x as int, 0, b),
                decreases CHUNK_SIZE - z,
            {
                side[x][z] = self.data[x][0][z];
                z = z + 1;
            }
            x = x + 1;
        }
        side
    }
}

fn copy_row(src: &Vec<Block>) -> (r: Vec<Block>)
    ensures
        r@ == src@,
{
    let mut r: Vec<Block> = Vec::new();
    let mut i: usize = 0;
    while i < src.len()
        invariant
            i <= src@.len(),
            r@ == src@.take(i as int),
        decreases src@.len() - i,
    {
        r.push(src[i]);
        i = i + 1;
        assert(r@ =~= src@.take(i as int));
    }
    assert(src@.take(src@.len() as int) =~= src@);
    r
}

fn copy_plane(src: &Vec<Vec<Block>>) -> (r: Vec<Vec<Block>>)
    ensures
        r@.len() == src@.len(),
        forall|y: int| 0 <= y < src@.len() ==> #[trigger] r@[y]@ == src@[y]@,
{
    let mut r: Vec<Vec<Block>> = Vec::new();
    let mut i: usize = 0;
    while i < src.len()
        invariant
            i <= src@.len(),
            r@.len() == i,
            forall|y: int| 0 <= y < i ==> #[trigger] r@[y]@ == src@[y]@,
        decreases src@.len() - i,
    {
        r.push(copy_row(&src[i]));
        i = i + 1;
    }
    r
}

impl Chunk {
    /// Whether two chunks hold the same blocks and coordinate.
    pub open spec fn same_as(&self, other: Chunk) -> bool {
        &&& self.wf()
        &&& other.wf()
        &&& self.coord == other.coord
        &&& forall|x: int, y: int, z: int| in_chunk(x, y, z) ==> #[trigger] self.at(x, y, z) == other.at(x, y, z)
    }

    /// A fresh chunk with the same blocks and coordinate.
    pub(crate) fn copy(&self) -> (r: Chunk)
        requires
            self.wf(),
        ensures
            r.same_as(*self),
    {
        let mut data: ChunkData = Vec::new();
        let mut i: usize = 0;
        while i < CHUNK_SIZE
            invariant
                i <= CHUNK_SIZE,
                self.wf(),
                data@.len() == i,
                forall|x: int| 0 <= x < i ==> #[trigger] data@[x]@.len() == CHUNK_SIZE,
                forall|x: int, y: int| 0 <= x < i && 0 <= y < CHUNK_SIZE ==> #[trigger] data@[x]@[y]@ == self.data@[x]@[y]@,
            decreases CHUNK_SIZE - i,
        {
            data.push(copy_plane(&self.data[i]));
            i = i + 1;
        }
        Chunk { data, coord: self.coord }
    }
}


/// Whether every entry of `delta` names a position inside a chunk.
pub fn delta_in_range(delta: &ChunkDelta) -> (r: bool)
    ensures
        r == forall|i: int| 0 <= i < delta.1@.len() ==> pos_in_chunk(#[trigger] entry_pos(delta.1@[i])),
{
    let n = delta.1.len();
    let mut i: usize = 0;
    while i < n
        invariant
            n == delta.1@.len(),
            i <= n,
            forall|j: int| 0 <= j < i ==> pos_in_chunk(#[trigger] entry_pos(delta.1@[j])),
        decreases n - i,
    {
        let p = delta.1[i].0;
        if !((p[0] as usize) < CHUNK_SIZE && (p[1] as usize) < CHUNK_SIZE && (p[2] as usize) < CHUNK_SIZE) {
            assert(!pos_in_chunk(entry_pos(delta.1@[i as int])));
            return false;
        }
        i = i + 1;
    }
    true
}

} // verus!
