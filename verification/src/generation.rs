//! Generation of one chunk of the world: for each of its columns, ground is laid
//! from height 0 up to the terrain height, water is poured up to the water level,
//! and trees, stones and houses are stamped on top. The terrain height and
//! whether a tree, a stone or a house stands on a column come from noise, which
//! is computed outside this library and handed in.
use vstd::prelude::*;
use crate::blocks::{Block, spec_category};
use crate::chunk::{Chunk, CHUNK_SIZE, chunk_key, chunk_of, offset_in_chunk};
use crate::structure::Structure;
use crate::super_chunk::{SuperChunk, placed, stamped_all, stamp_fits, can_place_structure, lemma_find_unique, lemma_split_unique, find};
use crate::Coord;

verus! {

/// Height up to which water is poured, exclusive.
pub const WATER_LEVEL: i64 = 20;

/// What generation reads of one column of the world.
#[derive(Clone, Copy, Debug)]
pub struct Column {
    /// The terrain height.
    pub height: i64,
    /// Whether a tree stands on the column.
    pub tree: bool,
    /// Whether a stone lies on the column.
    pub stone: bool,
    /// Whether a house stands on the column.
    pub house: bool,
}

/// What is read at each world position: a block, or `None` where its chunk is not held.
pub type World = spec_fn([i64; 3]) -> Option<Block>;

/// The world read from a group that holds only `c`.
pub open spec fn chunk_world(c: Chunk) -> World {
    |w: [i64; 3]| if chunk_key(w) == c.coord {
        Some(c.at(offset_in_chunk(w[0] as int), offset_in_chunk(w[1] as int), offset_in_chunk(w[2] as int)))
    } else {
        None
    }
}

/// `wd` once `b` is placed at `c`.
pub open spec fn place_w(wd: World, c: [i64; 3], b: Block) -> World {
    |w: [i64; 3]| placed(wd(w), c, b, w)
}

/// `wd` once `s` is stamped at `c`.
pub open spec fn stamp_w(wd: World, s: Structure, c: [i64; 3]) -> World {
    |w: [i64; 3]| stamped_all(wd(w), s, c, w)
}

/// Whether nothing solid is read at `c` (a position whose chunk is not held
/// reads as `Empty`).
pub open spec fn reads_open(wd: World, c: [i64; 3]) -> bool {
    spec_category(match wd(c) {
        Some(b) => b,
        None => Block::Empty,
    }).0 == 0
}

/// How many layers of water are poured over ground of height `height`.
pub open spec fn water_layers(height: i64) -> nat {
    if height < WATER_LEVEL { (WATER_LEVEL - height) as nat } else { 0 }
}

/// `wd` once water is poured into the column at `(gx, gz)` at the `n` heights
/// from `lo` upward, one after the other, wherever nothing solid is read.
pub open spec fn water_upto(wd: World, gx: i64, gz: i64, lo: int, n: nat) -> World
    decreases n,
{
    if n == 0 {
        wd
    } else {
        let prev = water_upto(wd, gx, gz, lo, (n - 1) as nat);
        let c = [gx, (lo + n - 1) as i64, gz];
        if reads_open(prev, c) { place_w(prev, c, Block::Water) } else { prev }
    }
}

/// The ground block laid at height `h` of the column at `(gx, gz)` whose terrain
/// height is `height`: sand near the water level under an open block, grass in
/// the top layers, dirt below.
pub open spec fn ground_block(wd: World, gx: i64, gz: i64, height: i64, h: int) -> Block {
    if h < WATER_LEVEL + 3 && reads_open(wd, [gx, (h + 1) as i64, gz]) {
        Block::Sand
    } else if h > height - 4 {
        Block::Grass
    } else {
        Block::Dirt
    }
}

/// `wd` once the ground of the column at `(gx, gz)` is laid at the heights
/// `0..n`, each layer followed by water poured from `height` up to the water level.
pub open spec fn ground_upto(wd: World, gx: i64, gz: i64, height: i64, n: nat) -> World
    decreases n,
{
    if n == 0 {
        wd
    } else {
        let prev = ground_upto(wd, gx, gz, height, (n - 1) as nat);
        let h = n - 1;
        let laid = place_w(prev, [gx, h as i64, gz], ground_block(prev, gx, gz, height, h));
        water_upto(laid, gx, gz, height as int, water_layers(height))
    }
}

/// Whether the terrain height `height` lies in the chunk layer `key[1]`.
pub open spec fn in_band(key: Coord, height: i64) -> bool {
    key[1] * CHUNK_SIZE <= height < key[1] * CHUNK_SIZE + CHUNK_SIZE
}

/// The world x (or z) of offset `o` in the chunk at `k`.
pub open spec fn global(k: i64, o: int) -> i64 {
    (k * CHUNK_SIZE + o) as i64
}

/// Where the tree, the stone and the house of a column of height `h` at `(gx, gz)` are stamped.
pub open spec fn tree_at(gx: i64, gz: i64, h: i64) -> [i64; 3] {
    [gx, (h - 5) as i64, gz]
}

pub open spec fn stone_at(gx: i64, gz: i64, h: i64) -> [i64; 3] {
    [gx, (h - 2) as i64, gz]
}

pub open spec fn house_at(gx: i64, gz: i64, h: i64) -> [i64; 3] {
    [gx, (h - 7) as i64, gz]
}

/// `wd` once the column at offset `(x, z)` of the chunk at `key` is generated:
/// where its height lies in the chunk's layer, its ground and water, then its
/// tree (above the water level), its stone and its house (above the water level).
pub open spec fn column_world(wd: World, key: Coord, x: int, z: int, col: Column,
    tree: Structure, stone: Structure, house: Structure) -> World {
    let gx = global(key[0], x);
    let gz = global(key[2], z);
    let h = col.height;
    if in_band(key, h) {
        let g = ground_upto(wd, gx, gz, h, if h > 0 { h as nat } else { 0 });
        let t = if col.tree && h > WATER_LEVEL { stamp_w(g, tree, tree_at(gx, gz, h)) } else { g };
        let s = if col.stone { stamp_w(t, stone, stone_at(gx, gz, h)) } else { t };
        if col.house && h > WATER_LEVEL { stamp_w(s, house, house_at(gx, gz, h)) } else { s }
    } else {
        wd
    }
}

/// `wd` once the first `n` columns of `cols` are generated, column `i` standing
/// at offset `(i / CHUNK_SIZE, i % CHUNK_SIZE)` of the chunk at `key`.
pub open spec fn columns_world(wd: World, key: Coord, cols: Seq<Column>,
    tree: Structure, stone: Structure, house: Structure, n: nat) -> World
    decreases n,
{
    if n == 0 {
        wd
    } else {
        let i = n - 1;
        column_world(columns_world(wd, key, cols, tree, stone, house, (n - 1) as nat),
            key, i / CHUNK_SIZE as int, i % CHUNK_SIZE as int, cols[i], tree, stone, house)
    }
}

/// Whether the world coordinates of the chunk at `key`, and the positions where
/// the structures of its columns are stamped, fit in `i64`.
pub open spec fn generation_fits(key: Coord, cols: Seq<Column>, tree: Structure, stone: Structure, house: Structure) -> bool {
    &&& i64::MIN <= key[0] * CHUNK_SIZE && key[0] * CHUNK_SIZE + CHUNK_SIZE <= i64::MAX
    &&& i64::MIN <= key[2] * CHUNK_SIZE && key[2] * CHUNK_SIZE + CHUNK_SIZE <= i64::MAX
    &&& i64::MIN + 7 <= key[1] * CHUNK_SIZE && key[1] * CHUNK_SIZE + CHUNK_SIZE <= i64::MAX
    &&& forall|i: int| 0 <= i < cols.len() && #[trigger] in_band(key, cols[i].height) ==> {
        let gx = global(key[0], i / CHUNK_SIZE as int);
        let gz = global(key[2], i % CHUNK_SIZE as int);
        let h = cols[i].height;
        &&& (cols[i].tree && h > WATER_LEVEL ==> stamp_fits(tree, tree_at(gx, gz, h)))
        &&& (cols[i].stone ==> stamp_fits(stone, stone_at(gx, gz, h)))
        &&& (cols[i].house && h > WATER_LEVEL ==> stamp_fits(house, house_at(gx, gz, h)))
    }
}

/// Whether nothing solid is read at `c` in `sc`.
fn is_open(sc: &SuperChunk, c: [i64; 3]) -> (r: bool)
    requires
        sc.wf(),
    ensures
        r == reads_open(|w: [i64; 3]| sc.block_at(w), c),
{
    let b = match sc.get(c) {
        Some(b) => b,
        None => Block::Empty,
    };
    b.to_category().0 == 0
}

/// Whether `generate` can be called on these arguments.
pub fn can_generate(chunk: &Chunk, cols: &Vec<Column>, tree: &Structure, stone: &Structure, house: &Structure) -> (r: bool)
    ensures
        r == (chunk.wf() && cols@.len() == CHUNK_SIZE * CHUNK_SIZE && tree.wf() && stone.wf() && house.wf()
            && generation_fits(chunk.coord, cols@, *tree, *stone, *house)),
{
    if !chunk.is_well_formed() || cols.len() != CHUNK_SIZE * CHUNK_SIZE || !tree.is_well_formed()
        || !stone.is_well_formed() || !house.is_well_formed() {
        return false;
    }
    let key = chunk.coord;
    let k0 = key[0] as i128 * 64;
    let k1 = key[1] as i128 * 64;
    let k2 = key[2] as i128 * 64;
    let lo: i128 = -0x8000_0000_0000_0000;
    let hi: i128 = 0x7fff_ffff_ffff_ffff;
    if !(lo <= k0 && k0 + 64 <= hi && lo <= k2 && k2 + 64 <= hi && lo + 7 <= k1 && k1 + 64 <= hi) {
        return false;
    }
    let n = cols.len();
    let mut i: usize = 0;
    while i < n
        invariant
            n == cols@.len(),
            n == CHUNK_SIZE * CHUNK_SIZE,
            i <= n,
            i64::MIN <= key[0] * CHUNK_SIZE && key[0] * CHUNK_SIZE + CHUNK_SIZE <= i64::MAX,
            i64::MIN <= key[2] * CHUNK_SIZE && key[2] * CHUNK_SIZE + CHUNK_SIZE <= i64::MAX,
            i64::MIN + 7 <= key[1] * CHUNK_SIZE && key[1] * CHUNK_SIZE + CHUNK_SIZE <= i64::MAX,
            key == chunk.coord,
            forall|j: int| 0 <= j < i && #[trigger] in_band(key, cols@[j].height) ==> {
                let gx = global(key[0], j / CHUNK_SIZE as int);
                let gz = global(key[2], j % CHUNK_SIZE as int);
                let h = cols@[j].height;
                &&& (cols@[j].tree && h > WATER_LEVEL ==> stamp_fits(*tree, tree_at(gx, gz, h)))
                &&& (cols@[j].stone ==> stamp_fits(*stone, stone_at(gx, gz, h)))
                &&& (cols@[j].house && h > WATER_LEVEL ==> stamp_fits(*house, house_at(gx, gz, h)))
            },
        decreases n - i,
    {
        let col = cols[i];
        let height = col.height;
        if height >= key[1] * 64 && height < key[1] * 64 + 64 {
            let x = i / 64;
            let z = i % 64;
            assert(x < 64) by (nonlinear_arith) requires x == i / 64, i < 4096;
            let gx = key[0] * 64 + x as i64;
            let gz = key[2] * 64 + z as i64;
            assert(gx == global(key[0], i as int / CHUNK_SIZE as int));
            assert(gz == global(key[2], i as int % CHUNK_SIZE as int));
            let tc = [gx, height - 5, gz];
            let sc = [gx, height - 2, gz];
            let hc = [gx, height - 7, gz];
            assert(tree_at(gx, gz, height) == tc && stone_at(gx, gz, height) == sc && house_at(gx, gz, height) == hc);
            assert(in_band(key, cols@[i as int].height));
            if col.tree && height > WATER_LEVEL && !can_place_structure(tree, tc) {
                return false;
            }
            if col.stone && !can_place_structure(stone, sc) {
                return false;
            }
            if col.house && height > WATER_LEVEL && !can_place_structure(house, hc) {
                return false;
            }
        }
        i = i + 1;
    }
    true
}

/// Generates the chunk `chunk` from its columns: `cols[x * CHUNK_SIZE + z]` is
/// the column at offset `(x, z)`. The result holds the chunk and every chunk
/// that ground, water or a structure reached.
pub fn generate(chunk: Chunk, cols: &Vec<Column>, tree: &Structure, stone: &Structure, house: &Structure) -> (r: SuperChunk)
    requires
        chunk.wf(),
        cols@.len() == CHUNK_SIZE * CHUNK_SIZE,
        tree.wf(),
        stone.wf(),
        house.wf(),
        generation_fits(chunk.coord, cols@, *tree, *stone, *house),
    ensures
        r.wf(),
        r.main_chunk == chunk.coord,
        r.has_main(),
        forall|w: [i64; 3]| #[trigger] r.block_at(w) == columns_world(chunk_world(chunk), chunk.coord, cols@,
            *tree, *stone, *house, (CHUNK_SIZE * CHUNK_SIZE) as nat)(w),
{
    let key = chunk.coord;
    let ghost w0 = chunk_world(chunk);
    let mut sc = SuperChunk::new(chunk);
    proof {
        lemma_find_unique(sc.chunks@, 0);
        assert forall|w: [i64; 3]| #[trigger] sc.block_at(w) == w0(w) by {
            lemma_split_unique(w, w);
            if chunk_key(w) != key {
                if find(sc.chunks@, chunk_key(w)) is Some {
                    let j = find(sc.chunks@, chunk_key(w))->0;
                    assert(sc.chunks@[j].0 == chunk_key(w));
                }
            }
        }
    }
    let mut x: usize = 0;
    while x < CHUNK_SIZE
        invariant
            x <= CHUNK_SIZE,
            key == chunk.coord,
            cols@.len() == CHUNK_SIZE * CHUNK_SIZE,
            tree.wf(),
            stone.wf(),
            house.wf(),
            generation_fits(key, cols@, *tree, *stone, *house),
            sc.wf(),
            sc.main_chunk == key,
            sc.has_main(),
            forall|w: [i64; 3]| #[trigger] sc.block_at(w)
                == columns_world(w0, key, cols@, *tree, *stone, *house, (x * CHUNK_SIZE) as nat)(w),
        decreases CHUNK_SIZE - x,
    {
        let mut z: usize = 0;
        while z < CHUNK_SIZE
            invariant
                x < CHUNK_SIZE,
                z <= CHUNK_SIZE,
                key == chunk.coord,
                cols@.len() == CHUNK_SIZE * CHUNK_SIZE,
                tree.wf(),
                stone.wf(),
                house.wf(),
                generation_fits(key, cols@, *tree, *stone, *house),
                sc.wf(),
                sc.main_chunk == key,
                sc.has_main(),
                forall|w: [i64; 3]| #[trigger] sc.block_at(w)
                    == columns_world(w0, key, cols@, *tree, *stone, *house, (x * CHUNK_SIZE + z) as nat)(w),
            decreases CHUNK_SIZE - z,
        {
            let idx = x * CHUNK_SIZE + z;
            assert(idx / CHUNK_SIZE == x && idx % CHUNK_SIZE == z) by (nonlinear_arith)
                requires idx == x * CHUNK_SIZE + z, z < CHUNK_SIZE;
            assert(idx < CHUNK_SIZE * CHUNK_SIZE) by (nonlinear_arith)
                requires idx == x * CHUNK_SIZE + z, z < CHUNK_SIZE, x < CHUNK_SIZE;
            let col = cols[idx];
            let ghost before = columns_world(w0, key, cols@, *tree, *stone, *house, idx as nat);
            let gx = key[0] * 64 + x as i64;
            let gz = key[2] * 64 + z as i64;
            assert(gx == global(key[0], x as int) && gz == global(key[2], z as int));
            let height = col.height;
            if height >= key[1] * 64 && height < key[1] * 64 + 64 {
                assert(in_band(key, height));
                let mut h: i64 = 0;
                while h < height
                    invariant
                        0 <= h <= (if height > 0 { height } else { 0 }),
                        in_band(key, height),
                        generation_fits(key, cols@, *tree, *stone, *house),
                        sc.wf(),
                        sc.main_chunk == key,
                        sc.has_main(),
                        forall|w: [i64; 3]| #[trigger] sc.block_at(w) == ground_upto(before, gx, gz, height, h as nat)(w),
                    decreases height - h,
                {
                    let ghost prev = ground_upto(before, gx, gz, height, h as nat);
                    let above = [gx, h + 1, gz];
                    let open = is_open(&sc, above);
                    assert(open == reads_open(prev, [gx, (h + 1) as i64, gz])) by {
                        assert((|w: [i64; 3]| sc.block_at(w))(above) == prev(above));
                        assert(above == [gx, (h + 1) as i64, gz]);
                    }
                    let block = if h < WATER_LEVEL + 3 && open {
                        Block::Sand
                    } else if h > height - 4 {
                        Block::Grass
                    } else {
                        Block::Dirt
                    };
                    assert(block == ground_block(prev, gx, gz, height, h as int));
                    sc.place([gx, h, gz], block);
                    let ghost laid = place_w(prev, [gx, h, gz], block);
                    assert forall|w: [i64; 3]| #[trigger] sc.block_at(w) == water_upto(laid, gx, gz, height as int, 0)(w) by {}
                    let mut hw: i64 = height;
                    while hw < WATER_LEVEL
                        invariant
                            height <= hw,
                            hw - height <= water_layers(height),
                            sc.wf(),
                            sc.main_chunk == key,
                            sc.has_main(),
                            forall|w: [i64; 3]| #[trigger] sc.block_at(w)
                                == water_upto(laid, gx, gz, height as int, (hw - height) as nat)(w),
                        decreases WATER_LEVEL - hw,
                    {
                        let ghost wprev = water_upto(laid, gx, gz, height as int, (hw - height) as nat);
                        let c = [gx, hw, gz];
                        let open_here = is_open(&sc, c);
                        assert(open_here == reads_open(wprev, c)) by {
                            assert((|w: [i64; 3]| sc.block_at(w))(c) == wprev(c));
                        }
                        assert(c == [gx, (height + (hw + 1 - height) - 1) as i64, gz]);
                        if open_here {
                            sc.place(c, Block::Water);
                        }
                        hw = hw + 1;
                    }
                    proof {
                        assert((hw - height) as nat == water_layers(height));
                        assert forall|w: [i64; 3]| #[trigger] sc.block_at(w)
                            == ground_upto(before, gx, gz, height, (h + 1) as nat)(w) by {
                            assert(ground_upto(before, gx, gz, height, (h + 1) as nat)
                                == water_upto(laid, gx, gz, height as int, water_layers(height)));
                        }
                    }
                    h = h + 1;
                }
                let ghost g = ground_upto(before, gx, gz, height, if height > 0 { height as nat } else { 0 });
                assert forall|w: [i64; 3]| #[trigger] sc.block_at(w) == g(w) by {
                    if height <= 0 {
                        assert(h == 0);
                    }
                }
                assert(generation_fits(key, cols@, *tree, *stone, *house));
                assert(cols@[idx as int] == col);
                assert(in_band(key, cols@[idx as int].height));
                let ghost t = if col.tree && height > WATER_LEVEL { stamp_w(g, *tree, tree_at(gx, gz, height)) } else { g };
                if col.tree && height > WATER_LEVEL {
                    sc.place_structure(tree, [gx, height - 5, gz]);
                }
                assert forall|w: [i64; 3]| #[trigger] sc.block_at(w) == t(w) by {}
                let ghost s = if col.stone { stamp_w(t, *stone, stone_at(gx, gz, height)) } else { t };
                if col.stone {
                    sc.place_structure(stone, [gx, height - 2, gz]);
                }
                assert forall|w: [i64; 3]| #[trigger] sc.block_at(w) == s(w) by {}
                if col.house && height > WATER_LEVEL {
                    sc.place_structure(house, [gx, height - 7, gz]);
                }
            }
            proof {
                assert(columns_world(w0, key, cols@, *tree, *stone, *house, (idx + 1) as nat)
                    == column_world(before, key, x as int, z as int, col, *tree, *stone, *house));
            }
            z = z + 1;
        }
        x = x + 1;
    }
    sc
}

/// The column at offset `o` (along x or z) of the chunk at `k` stands in that
/// chunk, at that offset: generation writes each column's ground and water into
/// the chunk it generates.
pub proof fn lemma_column_in_chunk(k: i64, o: int)
    requires
        0 <= o < CHUNK_SIZE,
        i64::MIN <= k * CHUNK_SIZE,
        k * CHUNK_SIZE + CHUNK_SIZE <= i64::MAX,
    ensures
        chunk_of(global(k, o) as int) == k,
        offset_in_chunk(global(k, o) as int) == o,
{
    let g = global(k, o) as int;
    crate::chunk::lemma_chunk_coords_rebuild(g);
    let q = chunk_of(g);
    let r = offset_in_chunk(g);
    assert(g == k * CHUNK_SIZE + o);
    assert(q == k && r == o) by (nonlinear_arith)
        requires q * 64 + r == k * 64 + o, 0 <= r < 64, 0 <= o < 64;
}

/// Every ground position of the column at offset `(x, z)` of the chunk at `key`
/// lies in a chunk with `key`'s x and z, at offsets `x` and `z`.
pub proof fn lemma_ground_in_chunk(key: Coord, x: int, z: int, y: i64)
    requires
        0 <= x < CHUNK_SIZE,
        0 <= z < CHUNK_SIZE,
        i64::MIN <= key[0] * CHUNK_SIZE && key[0] * CHUNK_SIZE + CHUNK_SIZE <= i64::MAX,
        i64::MIN <= key[2] * CHUNK_SIZE && key[2] * CHUNK_SIZE + CHUNK_SIZE <= i64::MAX,
    ensures
        chunk_key([global(key[0], x), y, global(key[2], z)])[0] == key[0],
        chunk_key([global(key[0], x), y, global(key[2], z)])[2] == key[2],
        offset_in_chunk(global(key[0], x) as int) == x,
        offset_in_chunk(global(key[2], z) as int) == z,
{
    lemma_column_in_chunk(key[0], x);
    lemma_column_in_chunk(key[2], z);
}

} // verus!
