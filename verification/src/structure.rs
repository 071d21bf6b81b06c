//! Structures: boxes of blocks, such as trees and houses, stamped into the world.
use vstd::prelude::*;
use crate::blocks::Block;
use crate::chunk::{ChunkData, grid_dims, cell, empty_grid, has_dims};

verus! {

/// A box of blocks that can be stamped into the world, indexed `[x][y][z]`.
#[derive(Clone, Debug)]
pub struct Structure {
    pub size: [usize; 3],
    pub voxels: ChunkData,
}

/// Whether `c` lies inside a box of the given size.
pub open spec fn in_box(size: [usize; 3], c: [usize; 3]) -> bool {
    c[0] < size[0] && c[1] < size[1] && c[2] < size[2]
}

impl Structure {
    /// The voxels form a box of `size`.
    pub open spec fn wf(&self) -> bool {
        grid_dims(self.voxels, self.size[0] as nat, self.size[1] as nat, self.size[2] as nat)
    }

    /// The block at `c`, or `None` outside the box.
    pub open spec fn spec_get(&self, c: [usize; 3]) -> Option<Block> {
        if in_box(self.size, c) {
            Some(cell(self.voxels, c[0] as int, c[1] as int, c[2] as int))
        } else {
            None
        }
    }

    /// A structure of the given size that holds only `Empty` blocks.
    pub fn new(size: [usize; 3]) -> (r: Structure)
        ensures
            r.wf(),
            r.size == size,
            forall|c: [usize; 3]| in_box(size, c) ==> #[trigger] r.spec_get(c) == Some(Block::Empty),
    {
        Structure { size, voxels: empty_grid(size[0], size[1], size[2]) }
    }

    /// Sets the block at `c`; answers whether `c` lies inside the box (nothing
    /// changes where it does not).
    pub fn place(&mut self, c: [usize; 3], block: Block) -> (r: bool)
        requires
            old(self).wf(),
        ensures
            r == in_box(old(self).size, c),
            final(self).wf(),
            final(self).size == old(self).size,
            forall|d: [usize; 3]| #[trigger] final(self).spec_get(d)
                == if r && d == c { Some(block) } else { old(self).spec_get(d) },
    {
        if c[0] < self.size[0] && c[1] < self.size[1] && c[2] < self.size[2] {
            let ghost before = self.voxels;
            self.voxels[c[0]][c[1]][c[2]] = block;
            proof {
                assert forall|d: [usize; 3]| #[trigger] self.spec_get(d)
                    == if d == c { Some(block) } else { old(self).spec_get(d) } by {
                    if in_box(self.size, d) && d != c {
                        if d[0] == c[0] && d[1] == c[1] && d[2] == c[2] {
                            assert(d =~= c);
                        }
                        assert(cell(self.voxels, d[0] as int, d[1] as int, d[2] as int)
                            == cell(before, d[0] as int, d[1] as int, d[2] as int));
                    }
                }
            }
            true
        } else {
            false
        }
    }

    /// The block at `c`, or `None` outside the box.
    pub fn get(&self, c: [usize; 3]) -> (r: Option<Block>)
        requires
            self.wf(),
        ensures
            r == self.spec_get(c),
    {
        if c[0] < self.size[0] && c[1] < self.size[1] && c[2] < self.size[2] {
            Some(self.voxels[c[0]][c[1]][c[2]])
        } else {
            None
        }
    }

    /// Whether the voxels form a box of `size`.
    pub fn is_well_formed(&self) -> (r: bool)
        ensures
            r == self.wf(),
    {
        has_dims(&self.voxels, self.size[0], self.size[1], self.size[2])
    }
}

/// Reading a position back after placing a block there gives the block, and
/// placing elsewhere, or outside the box, changes nothing that is read.
pub proof fn lemma_get_after_place(before: Structure, after: Structure, c: [usize; 3], block: Block, r: bool, d: [usize; 3])
    requires
        r == in_box(before.size, c),
        forall|e: [usize; 3]| #[trigger] after.spec_get(e)
            == if r && e == c { Some(block) } else { before.spec_get(e) },
    ensures
        in_box(before.size, c) ==> after.spec_get(c) == Some(block),
        d != c ==> after.spec_get(d) == before.spec_get(d),
        !in_box(before.size, c) ==> after.spec_get(d) == before.spec_get(d),
{
    assert(after.spec_get(c) == if r { Some(block) } else { before.spec_get(c) });
    assert(after.spec_get(d) == if r && d == c { Some(block) } else { before.spec_get(d) });
}


/// Whether `c` lies in the ball of a cube of side `size`: its squared distance
/// to the middle point (`size / 2` on each axis) is below `(size / 2)^2`, which
/// is to say that its distance, rounded down, is below `size / 2`.
pub open spec fn in_ball(size: int, c: [usize; 3]) -> bool {
    let m = size / 2;
    (c[0] - m) * (c[0] - m) + (c[1] - m) * (c[1] - m) + (c[2] - m) * (c[2] - m) < m * m
}

/// A position lies in the ball of a cube of side `size` exactly where its
/// integer distance `d` to the middle point is below `size / 2`.
pub proof fn lemma_in_ball_by_distance(size: int, c: [usize; 3], d: int)
    requires
        size >= 0,
        crate::is_isqrt(d, (c[0] - size / 2) * (c[0] - size / 2) + (c[1] - size / 2) * (c[1] - size / 2)
            + (c[2] - size / 2) * (c[2] - size / 2)),
    ensures
        in_ball(size, c) <==> d < size / 2,
{
    crate::chunk_loader::lemma_distance_bounds(d, (c[0] - size / 2) * (c[0] - size / 2) + (c[1] - size / 2) * (c[1] - size / 2)
        + (c[2] - size / 2) * (c[2] - size / 2), size / 2);
}

/// Whether, scanning x, then y, then z, `c` comes before `(x, y, z)`.
pub open spec fn scanned_before(c: [usize; 3], x: int, y: int, z: int) -> bool {
    c[0] < x || (c[0] == x && (c[1] < y || (c[1] == y && c[2] < z)))
}

/// `(a - b)^2` for small `a` and `b`.
fn square_diff(a: usize, b: usize) -> (r: i64)
    requires
        a <= 4096,
        b <= 4096,
    ensures
        r == (a - b) * (a - b),
        0 <= r <= 16777216,
{
    let d: i64 = a as i64 - b as i64;
    assert(0 <= d * d <= 16777216) by (nonlinear_arith) requires -4096 <= d <= 4096;
    d * d
}

/// A cube of side `size` holding `block` at each position of its ball (see
/// `in_ball`) and `Empty` elsewhere.
pub fn ball(size: usize, block: Block) -> (r: Structure)
    requires
        size <= 4096,
    ensures
        r.wf(),
        r.size == [size, size, size],
        forall|c: [usize; 3]| in_box(r.size, c) ==> #[trigger] r.spec_get(c)
            == Some(if in_ball(size as int, c) { block } else { Block::Empty }),
{
    let mut s = Structure::new([size, size, size]);
    let m: usize = size / 2;
    let mm: i64 = square_diff(m, 0);
    let mut x: usize = 0;
    while x < size
        invariant
            size <= 4096,
            x <= size,
            m == size / 2,
            mm == m * m,
            s.wf(),
            s.size == [size, size, size],
            forall|c: [usize; 3]| in_box(s.size, c) ==> #[trigger] s.spec_get(c)
                == Some(if scanned_before(c, x as int, 0, 0) && in_ball(size as int, c) { block } else { Block::Empty }),
        decreases size - x,
    {
        let mut y: usize = 0;
        while y < size
            invariant
                size <= 4096,
                x < size,
                y <= size,
                m == size / 2,
                mm == m * m,
                s.wf(),
                s.size == [size, size, size],
                forall|c: [usize; 3]| in_box(s.size, c) ==> #[trigger] s.spec_get(c)
                    == Some(if scanned_before(c, x as int, y as int, 0) && in_ball(size as int, c) { block } else { Block::Empty }),
            decreases size - y,
        {
            let mut z: usize = 0;
            while z < size
                invariant
                    size <= 4096,
                    x < size,
                    y < size,
                    z <= size,
                    m == size / 2,
                    mm == m * m,
                    s.wf(),
                    s.size == [size, size, size],
                    forall|c: [usize; 3]| in_box(s.size, c) ==> #[trigger] s.spec_get(c)
                        == Some(if scanned_before(c, x as int, y as int, z as int) && in_ball(size as int, c) { block } else { Block::Empty }),
                decreases size - z,
            {
                let d = square_diff(x, m) + square_diff(y, m) + square_diff(z, m);
                let here = [x, y, z];
                let inside = d < mm;
                assert(inside == in_ball(size as int, here));
                let ghost before = s;
                if inside {
                    s.place(here, block);
                }
                proof {
                    assert forall|c: [usize; 3]| in_box(s.size, c) implies #[trigger] s.spec_get(c)
                        == Some(if scanned_before(c, x as int, y as int, z + 1) && in_ball(size as int, c) { block } else { Block::Empty }) by {
                        if c[0] == x && c[1] == y && c[2] == z {
                            assert(c =~= here);
                        } else {
                            assert(before.spec_get(c) == s.spec_get(c));
                        }
                    }
                }
                z = z + 1;
            }
            y = y + 1;
        }
        x = x + 1;
    }
    s
}

} // verus!
