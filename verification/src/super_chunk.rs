//! A group of chunks produced together (by generation or by placing a
//! structure), read and written by world position.
use vstd::prelude::*;
use crate::blocks::Block;
use crate::chunk::{Chunk, chunk_key, chunk_of, offset_in_chunk, get_chunk_coords, in_chunk, cell, Pos, pos_lt};
use crate::structure::Structure;
use crate::Coord;

verus! {

/// Lexicographic order on chunk coordinates.
pub open spec fn key_lt(a: Coord, b: Coord) -> bool {
    a[0] < b[0] || (a[0] == b[0] && (a[1] < b[1] || (a[1] == b[1] && a[2] < b[2])))
}

fn coord_lt(a: &Coord, b: &Coord) -> (r: bool)
    ensures
        r == key_lt(*a, *b),
{
    a[0] < b[0] || (a[0] == b[0] && (a[1] < b[1] || (a[1] == b[1] && a[2] < b[2])))
}

fn coord_eq(a: &Coord, b: &Coord) -> (r: bool)
    ensures
        r == (*a == *b),
{
    let r = a[0] == b[0] && a[1] == b[1] && a[2] == b[2];
    if r {
        assert(*a =~= *b);
    }
    r
}

/// Keys listed in strictly increasing order, so none occurs twice.
pub open spec fn keys_sorted(es: Seq<(Coord, Chunk)>) -> bool {
    forall|i: int, j: int| 0 <= i < j < es.len() ==> key_lt(#[trigger] es[i].0, #[trigger] es[j].0)
}

/// The position of key `k`, if it is listed.
pub open spec fn find(es: Seq<(Coord, Chunk)>, k: Coord) -> Option<int> {
    if exists|i: int| 0 <= i < es.len() && #[trigger] es[i].0 == k {
        Some(choose|i: int| 0 <= i < es.len() && #[trigger] es[i].0 == k)
    } else {
        None
    }
}

pub(crate) proof fn lemma_find_unique(es: Seq<(Coord, Chunk)>, i: int)
    requires
        keys_sorted(es),
        0 <= i < es.len(),
    ensures
        find(es, es[i].0) == Some(i),
{
    let j = choose|j: int| 0 <= j < es.len() && #[trigger] es[j].0 == es[i].0;
    if j < i {
        assert(key_lt(es[j].0, es[i].0));
    } else if j > i {
        assert(key_lt(es[i].0, es[j].0));
    }
}

/// A group of chunks produced together, with the one they were produced for.
#[derive(Clone, Debug)]
pub struct SuperChunk {
    pub chunks: Vec<(Coord, Chunk)>,
    pub main_chunk: Coord,
}

impl SuperChunk {
    /// The chunks are listed by increasing coordinate, each under its own coordinate.
    pub open spec fn wf(&self) -> bool {
        &&& keys_sorted(self.chunks@)
        &&& forall|i: int| 0 <= i < self.chunks@.len() ==> (#[trigger] self.chunks@[i]).1.wf()
        &&& forall|i: int| 0 <= i < self.chunks@.len() ==> (#[trigger] self.chunks@[i]).1.coord == self.chunks@[i].0
    }

    /// The block at world position `w`, or `None` where its chunk is not held.
    pub open spec fn block_at(&self, w: Coord) -> Option<Block> {
        match find(self.chunks@, chunk_key(w)) {
            Some(i) => Some(cell(self.chunks@[i].1.data, offset_in_chunk(w[0] as int),
                offset_in_chunk(w[1] as int), offset_in_chunk(w[2] as int))),
            None => None,
        }
    }

    /// Whether the chunk at `k` is held.
    pub open spec fn has_key(&self, k: Coord) -> bool {
        find(self.chunks@, k) is Some
    }

    /// Whether the main chunk is held.
    pub open spec fn has_main(&self) -> bool {
        self.has_key(self.main_chunk)
    }

    /// The held main chunk.
    pub open spec fn spec_main(&self) -> Chunk {
        self.chunks@[find(self.chunks@, self.main_chunk)->0].1
    }

    /// A group that holds only `main_chunk`.
    pub fn new(main_chunk: Chunk) -> (r: SuperChunk)
        requires
            main_chunk.wf(),
        ensures
            r.wf(),
            r.main_chunk == main_chunk.coord,
            r.chunks@ == seq![(main_chunk.coord, main_chunk)],
    {
        let coord = main_chunk.coord;
        let mut chunks: Vec<(Coord, Chunk)> = Vec::new();
        chunks.push((coord, main_chunk));
        assert(chunks@ =~= seq![(coord, main_chunk)]);
        SuperChunk { chunks, main_chunk: coord }
    }

    /// Where key `k` is listed, or else where it would be inserted.
    fn position(&self, k: &Coord) -> (r: Result<usize, usize>)
        requires
            self.wf(),
        ensures
            r matches Ok(i) ==> i < self.chunks@.len() && self.chunks@[i as int].0 == *k,
            r matches Err(i) ==> {
                &&& i <= self.chunks@.len()
                &&& forall|j: int| 0 <= j < i ==> key_lt(#[trigger] self.chunks@[j].0, *k)
                &&& forall|j: int| i <= j < self.chunks@.len() ==> key_lt(*k, #[trigger] self.chunks@[j].0)
            },
    {
        let n = self.chunks.len();
        let mut i: usize = 0;
        while i < n
            invariant
                n == self.chunks@.len(),
                i <= n,
                self.wf(),
                forall|j: int| 0 <= j < i ==> key_lt(#[trigger] self.chunks@[j].0, *k),
            decreases n - i,
        {
            if coord_eq(&self.chunks[i].0, k) {
                return Ok(i);
            }
            if coord_lt(k, &self.chunks[i].0) {
                proof {
                    assert forall|j: int| i <= j < n implies key_lt(*k, #[trigger] self.chunks@[j].0) by {
                        if j > i {
                            assert(key_lt(self.chunks@[i as int].0, self.chunks@[j].0));
                        }
                    }
                }
                return Err(i);
            }
            proof {
                let a = self.chunks@[i as int].0;
                if !key_lt(a, *k) {
                    assert(a =~= *k);
                }
            }
            i = i + 1;
        }
        Err(n)
    }

    /// Whether the group is well formed and holds its main chunk.
    pub fn is_valid(&self) -> (r: bool)
        ensures
            r == (self.wf() && self.has_main()),
    {
        let n = self.chunks.len();
        let mut i: usize = 0;
        let mut main_found = false;
        while i < n
            invariant
                n == self.chunks@.len(),
                i <= n,
                forall|a: int, b: int| 0 <= a < b < i ==> key_lt(#[trigger] self.chunks@[a].0, #[trigger] self.chunks@[b].0),
                forall|a: int| 0 <= a < i ==> (#[trigger] self.chunks@[a]).1.wf(),
                forall|a: int| 0 <= a < i ==> (#[trigger] self.chunks@[a]).1.coord == self.chunks@[a].0,
                main_found == exists|a: int| 0 <= a < i && #[trigger] self.chunks@[a].0 == self.main_chunk,
            decreases n - i,
        {
            if !self.chunks[i].1.is_well_formed() || !coord_eq(&self.chunks[i].1.coord, &self.chunks[i].0) {
                assert(!self.wf()) by {
                    assert(self.chunks@[i as int].1.coord == self.chunks@[i as int].1.coord);
                }
                return false;
            }
            if i > 0 && !coord_lt(&self.chunks[i - 1].0, &self.chunks[i].0) {
                assert(!self.wf()) by {
                    assert(!key_lt(self.chunks@[i - 1].0, self.chunks@[i as int].0));
                }
                return false;
            }
            proof {
                if i > 0 {
                    assert forall|a: int| 0 <= a < i implies key_lt(#[trigger] self.chunks@[a].0, self.chunks@[i as int].0) by {
                        if a < i - 1 {
                            assert(key_lt(self.chunks@[a].0, self.chunks@[i - 1].0));
                        }
                    }
                }
            }
            if coord_eq(&self.chunks[i].0, &self.main_chunk) {
                main_found = true;
            }
            i = i + 1;
        }
        if main_found {
            proof {
                let a = choose|a: int| 0 <= a < n && #[trigger] self.chunks@[a].0 == self.main_chunk;
                assert(find(self.chunks@, self.main_chunk) is Some);
            }
        }
        main_found
    }

    /// A copy of the main chunk.
    pub fn get_main_chunk(&self) -> (r: Chunk)
        requires
            self.wf(),
            self.has_main(),
        ensures
            r.same_as(self.spec_main()),
    {
        match self.position(&self.main_chunk) {
            Ok(i) => {
                proof { lemma_find_unique(self.chunks@, i as int); }
                self.chunks[i].1.copy()
            }
            Err(_) => {
                proof {
                    let i = find(self.chunks@, self.main_chunk)->0;
                    assert(self.chunks@[i].0 == self.main_chunk);
                }
                Chunk::new(self.main_chunk)
            }
        }
    }

    /// Takes the main chunk out of the group.
    pub fn remove_main_chunk(&mut self) -> (r: Chunk)
        requires
            old(self).wf(),
            old(self).has_main(),
        ensures
            final(self).wf(),
            final(self).main_chunk == old(self).main_chunk,
            r == old(self).spec_main(),
            final(self).chunks@ == old(self).chunks@.remove(find(old(self).chunks@, old(self).main_chunk)->0),
    {
        let key = self.main_chunk;
        match self.position(&key) {
            Ok(i) => {
                proof { lemma_find_unique(self.chunks@, i as int); }
                let ghost before = self.chunks@;
                let (_, c) = self.chunks.remove(i);
                proof {
                    assert forall|a: int, b: int| 0 <= a < b < self.chunks@.len()
                        implies key_lt(#[trigger] self.chunks@[a].0, #[trigger] self.chunks@[b].0) by {
                        let a2 = if a < i { a } else { a + 1 };
                        let b2 = if b < i { b } else { b + 1 };
                        assert(self.chunks@[a] == before[a2] && self.chunks@[b] == before[b2]);
                    }
                    assert forall|a: int| 0 <= a < self.chunks@.len() implies
                        (#[trigger] self.chunks@[a]).1.wf() && self.chunks@[a].1.coord == self.chunks@[a].0 by {
                        let a2 = if a < i { a } else { a + 1 };
                        assert(self.chunks@[a] == before[a2]);
                    }
                }
                c
            }
            Err(_) => {
                proof {
                    let i = find(self.chunks@, self.main_chunk)->0;
                    assert(self.chunks@[i].0 == self.main_chunk);
                }
                Chunk::new(key)
            }
        }
    }

    /// The block at world position `coord`, or `None` where its chunk is not held.
    pub fn get(&self, coord: [i64; 3]) -> (r: Option<Block>)
        requires
            self.wf(),
        ensures
            r == self.block_at(coord),
    {
        let (key, index) = get_chunk_coords(&coord);
        match self.position(&key) {
            Ok(i) => {
                proof { lemma_find_unique(self.chunks@, i as int); }
                Some(self.chunks[i].1.data[index[0]][index[1]][index[2]])
            }
            Err(_) => {
                proof {
                    if find(self.chunks@, key) is Some {
                        let i = find(self.chunks@, key)->0;
                        assert(self.chunks@[i].0 == key);
                    }
                }
                None
            }
        }
    }

    /// Puts `block` at world position `coord`, creating its chunk where it is not
    /// held; an `Empty` block is not placed and leaves the group as it was.
    pub fn place(&mut self, coord: [i64; 3], block: Block)
        requires
            old(self).wf(),
        ensures
            final(self).wf(),
            block == Block::Empty ==> *final(self) == *old(self),
            final(self).main_chunk == old(self).main_chunk,
            forall|w: [i64; 3]| #[trigger] final(self).block_at(w) == placed(old(self).block_at(w), coord, block, w),
            forall|k: Coord| #[trigger] final(self).has_key(k)
                <==> (old(self).has_key(k) || (block != Block::Empty && k == chunk_key(coord))),
            final(self).chunks@.len() == old(self).chunks@.len()
                + (if block != Block::Empty && !old(self).has_key(chunk_key(coord)) { 1int } else { 0int }),
    {
        if block != Block::Empty {
            let (key, index) = get_chunk_coords(&coord);
            let ghost before = self.chunks@;
            match self.position(&key) {
                Ok(i) => {
                    proof { lemma_find_unique(before, i as int); }
                    self.chunks[i].1.data[index[0]][index[1]][index[2]] = block;
                    proof {
                        assert forall|k: Coord| #[trigger] old(self).has_key(k) implies self.has_key(k) by {
                            let j = find(before, k)->0;
                            assert(self.chunks@[j].0 == k);
                        }
                        assert forall|a: int, b: int| 0 <= a < b < self.chunks@.len()
                            implies key_lt(#[trigger] self.chunks@[a].0, #[trigger] self.chunks@[b].0) by {
                            assert(self.chunks@[a].0 == before[a].0 && self.chunks@[b].0 == before[b].0);
                        }
                        assert forall|a: int| 0 <= a < self.chunks@.len() implies
                            (#[trigger] self.chunks@[a]).1.wf() && self.chunks@[a].1.coord == self.chunks@[a].0 by {
                            if a != i {
                                assert(self.chunks@[a] == before[a]);
                            }
                        }
                        assert forall|w: [i64; 3]| #[trigger] self.block_at(w) == placed(old(self).block_at(w), coord, block, w) by {
                            lemma_split_unique(w, coord);
                            let kw = chunk_key(w);
                            if kw == key {
                                lemma_find_unique(self.chunks@, i as int);
                            } else {
                                assert forall|a: int| 0 <= a < before.len() && before[a].0 == kw
                                    implies #[trigger] before[a] == self.chunks@[a] by {
                                    assert(a != i);
                                }
                                lemma_find_same_keys(before, self.chunks@, kw);
                            }
                        }
                        assert forall|k: Coord| #[trigger] self.has_key(k) implies old(self).has_key(k) by {
                            let j = find(self.chunks@, k)->0;
                            assert(before[j].0 == k);
                        }
                        assert(before[i as int].0 == key);
                    }
                }
                Err(i) => {
                    let mut c = Chunk::new(key);
                    c.data[index[0]][index[1]][index[2]] = block;
                    self.chunks.insert(i, (key, c));
                    proof {
                        let after = self.chunks@;
                        assert forall|k: Coord| #[trigger] old(self).has_key(k) implies self.has_key(k) by {
                            let j = find(before, k)->0;
                            let j2 = if j < i { j } else { j + 1 };
                            assert(after[j2].0 == k);
                        }
                        assert forall|a: int, b: int| 0 <= a < b < after.len()
                            implies key_lt(#[trigger] after[a].0, #[trigger] after[b].0) by {
                            if a < i && b < i {
                                assert(after[a] == before[a] && after[b] == before[b]);
                            } else if a < i && b == i {
                                assert(after[a] == before[a]);
                            } else if a < i {
                                assert(after[a] == before[a] && after[b] == before[b - 1]);
                                assert(key_lt(before[a].0, key));
                            } else if a == i {
                                assert(after[b] == before[b - 1]);
                            } else {
                                assert(after[a] == before[a - 1] && after[b] == before[b - 1]);
                            }
                        }
                        assert forall|a: int| 0 <= a < after.len() implies
                            (#[trigger] after[a]).1.wf() && after[a].1.coord == after[a].0 by {
                            if a < i {
                                assert(after[a] == before[a]);
                            } else if a > i {
                                assert(after[a] == before[a - 1]);
                            }
                        }
                        assert forall|w: [i64; 3]| #[trigger] self.block_at(w) == placed(old(self).block_at(w), coord, block, w) by {
                            lemma_split_unique(w, coord);
                            let kw = chunk_key(w);
                            if kw == key {
                                lemma_find_unique(after, i as int);
                                if find(before, kw) is Some {
                                    let j = find(before, kw)->0;
                                    assert(before[j].0 == key);
                                    if j < i {
                                        assert(key_lt(before[j].0, key));
                                    } else {
                                        assert(key_lt(key, before[j].0));
                                    }
                                }
                            } else {
                                lemma_find_after_insert(before, after, i as int, kw);
                            }
                        }
                        assert forall|k: Coord| #[trigger] self.has_key(k) implies (old(self).has_key(k) || k == key) by {
                            if k != key {
                                lemma_find_after_insert(before, after, i as int, k);
                            }
                        }
                        assert(after[i as int].0 == key);
                        if find(before, key) is Some {
                            let j = find(before, key)->0;
                            assert(before[j].0 == key);
                            if j < i {
                                assert(key_lt(before[j].0, key));
                            } else {
                                assert(key_lt(key, before[j].0));
                            }
                        }
                    }
                }
            }
        }
    }

    /// Places every voxel of `structure` that is not `Empty` so that the structure
    /// is centred on `coord` along x and z and rests on it along y.
    pub fn place_structure(&mut self, structure: &Structure, coord: [i64; 3])
        requires
            old(self).wf(),
            structure.wf(),
            stamp_fits(*structure, coord),
        ensures
            final(self).wf(),
            final(self).main_chunk == old(self).main_chunk,
            forall|w: [i64; 3]| #[trigger] final(self).block_at(w)
                == stamped_all(old(self).block_at(w), *structure, coord, w),
            forall|k: Coord| #[trigger] old(self).has_key(k) ==> final(self).has_key(k),
    {
        let x_offset = structure.size[0] / 2;
        let z_offset = structure.size[2] / 2;
        let ghost s = *structure;
        let mut x: usize = 0;
        while x < structure.size[0]
            invariant
                x <= structure.size[0],
                structure.wf(),
                stamp_fits(s, coord),
                s == *structure,
                x_offset == s.size[0] / 2,
                z_offset == s.size[2] / 2,
                self.wf(),
                self.main_chunk == old(self).main_chunk,
                forall|k: Coord| #[trigger] old(self).has_key(k) ==> self.has_key(k),
                forall|w: [i64; 3]| #[trigger] self.block_at(w)
                    == stamped(old(self).block_at(w), s, coord, w, (x as int, 0, 0)),
            decreases structure.size[0] - x,
        {
            let mut y: usize = 0;
            while y < structure.size[1]
                invariant
                    x < structure.size[0],
                    y <= structure.size[1],
                    structure.wf(),
                    stamp_fits(s, coord),
                    s == *structure,
                    x_offset == s.size[0] / 2,
                    z_offset == s.size[2] / 2,
                    self.wf(),
                    self.main_chunk == old(self).main_chunk,
                    forall|k: Coord| #[trigger] old(self).has_key(k) ==> self.has_key(k),
                    forall|w: [i64; 3]| #[trigger] self.block_at(w)
                        == stamped(old(self).block_at(w), s, coord, w, (x as int, y as int, 0)),
                decreases structure.size[1] - y,
            {
                let mut z: usize = 0;
                while z < structure.size[2]
                    invariant
                        x < structure.size[0],
                        y < structure.size[1],
                        z <= structure.size[2],
                        structure.wf(),
                        stamp_fits(s, coord),
                        s == *structure,
                        x_offset == s.size[0] / 2,
                        z_offset == s.size[2] / 2,
                        self.wf(),
                        self.main_chunk == old(self).main_chunk,
                        forall|k: Coord| #[trigger] old(self).has_key(k) ==> self.has_key(k),
                        forall|w: [i64; 3]| #[trigger] self.block_at(w)
                            == stamped(old(self).block_at(w), s, coord, w, (x as int, y as int, z as int)),
                    decreases structure.size[2] - z,
                {
                    let ghost cur: Pos = (x as int, y as int, z as int);
                    let block = structure.voxels[x][y][z];
                    let ghost prev = *self;
                    if block != Block::Empty {
                        assert(voxel(s, cur) != Block::Empty);
                        let wx = coord[0] - x_offset as i64 + x as i64;
                        let wy = coord[1] + y as i64;
                        let wz = coord[2] - z_offset as i64 + z as i64;
                        let t = [wx, wy, wz];
                        assert(t =~= stamp_dst(s, coord, cur));
                        self.place(t, block);
                        proof {
                            assert forall|w: [i64; 3]| #[trigger] self.block_at(w)
                                == stamped(old(self).block_at(w), s, coord, w, (x as int, y as int, z + 1)) by {
                                if stamp_src(s, coord, w) == cur {
                                    assert(w =~= t);
                                }
                                lemma_stamp_step(prev.block_at(w), old(self).block_at(w), s, coord, w, cur);
                            }
                        }
                    } else {
                        proof {
                            assert forall|w: [i64; 3]| #[trigger] self.block_at(w)
                                == stamped(old(self).block_at(w), s, coord, w, (x as int, y as int, z + 1)) by {
                                lemma_stamp_step(prev.block_at(w), old(self).block_at(w), s, coord, w, cur);
                            }
                        }
                    }
                    z = z + 1;
                }
                proof {
                    assert forall|w: [i64; 3]| #[trigger] self.block_at(w)
                        == stamped(old(self).block_at(w), s, coord, w, (x as int, y + 1, 0)) by {
                        lemma_stamped_bounds(old(self).block_at(w), s, coord, w,
                            (x as int, y as int, s.size[2] as int), (x as int, y + 1, 0));
                    }
                }
                y = y + 1;
            }
            proof {
                assert forall|w: [i64; 3]| #[trigger] self.block_at(w)
                    == stamped(old(self).block_at(w), s, coord, w, (x + 1, 0, 0)) by {
                    lemma_stamped_bounds(old(self).block_at(w), s, coord, w,
                        (x as int, s.size[1] as int, 0), (x + 1, 0, 0));
                }
            }
            x = x + 1;
        }
    }
}

/// Whether `c` indexes a voxel of `s`.
pub open spec fn in_size(s: Structure, c: Pos) -> bool {
    0 <= c.0 < s.size[0] && 0 <= c.1 < s.size[1] && 0 <= c.2 < s.size[2]
}

/// The voxel of `s` at `c`.
pub open spec fn voxel(s: Structure, c: Pos) -> Block {
    cell(s.voxels, c.0, c.1, c.2)
}

/// The world position where voxel `c` lands when `s` is stamped at `coord`:
/// centred on `coord` along x and z, resting on it along y.
pub open spec fn stamp_dst(s: Structure, coord: [i64; 3], c: Pos) -> [i64; 3] {
    [
        (coord[0] - s.size[0] / 2 + c.0) as i64,
        (coord[1] + c.1) as i64,
        (coord[2] - s.size[2] / 2 + c.2) as i64,
    ]
}

/// The voxel of `s` that lands on world position `w` when stamped at `coord`.
pub open spec fn stamp_src(s: Structure, coord: [i64; 3], w: [i64; 3]) -> Pos {
    (w[0] - coord[0] + s.size[0] / 2, w[1] - coord[1], w[2] - coord[2] + s.size[2] / 2)
}

/// Whether the sizes, and the world position of every voxel of the box (with
/// the partial sums that compute it), fit in `i64`.
pub open spec fn stamp_fits(s: Structure, coord: [i64; 3]) -> bool {
    &&& s.size[0] <= i64::MAX && s.size[1] <= i64::MAX && s.size[2] <= i64::MAX
    &&& i64::MIN <= coord[0] - s.size[0] / 2
    &&& coord[0] - s.size[0] / 2 + s.size[0] <= i64::MAX + 1
    &&& coord[1] + s.size[1] <= i64::MAX + 1
    &&& i64::MIN <= coord[2] - s.size[2] / 2
    &&& coord[2] - s.size[2] / 2 + s.size[2] <= i64::MAX + 1
}

/// Whether `structure` is well formed and can be placed at `coord` without
/// leaving the range of `i64`.
pub fn can_place_structure(structure: &Structure, coord: [i64; 3]) -> (r: bool)
    ensures
        r == (structure.wf() && stamp_fits(*structure, coord)),
{
    if !structure.is_well_formed() {
        return false;
    }
    let m: i128 = 0x7fff_ffff_ffff_ffff;
    if structure.size[0] as i128 > m || structure.size[1] as i128 > m || structure.size[2] as i128 > m {
        return false;
    }
    let s0 = structure.size[0] as i128;
    let s1 = structure.size[1] as i128;
    let s2 = structure.size[2] as i128;
    let x0 = coord[0] as i128 - s0 / 2;
    let z0 = coord[2] as i128 - s2 / 2;
    x0 >= -m - 1 && x0 + s0 <= m + 1 && coord[1] as i128 + s1 <= m + 1 && z0 >= -m - 1 && z0 + s2 <= m + 1
}

/// What is read at `w` once the voxels of `s` before `bound` (in x, y, z order)
/// are placed at `coord`, given what was read there before: the landing voxel
/// where it is not `Empty`, else the old block, else `Empty` where a placed
/// voxel created the chunk.
pub open spec fn stamped(before: Option<Block>, s: Structure, coord: [i64; 3], w: [i64; 3], bound: Pos) -> Option<Block> {
    let c = stamp_src(s, coord, w);
    if in_size(s, c) && pos_lt(c, bound) && voxel(s, c) != Block::Empty {
        Some(voxel(s, c))
    } else if before is Some {
        before
    } else if exists|d: Pos| in_size(s, d) && pos_lt(d, bound) && #[trigger] voxel(s, d) != Block::Empty
        && chunk_key(stamp_dst(s, coord, d)) == chunk_key(w) {
        Some(Block::Empty)
    } else {
        None
    }
}

/// Stamping through all voxels of `s`.
pub open spec fn stamped_all(before: Option<Block>, s: Structure, coord: [i64; 3], w: [i64; 3]) -> Option<Block> {
    stamped(before, s, coord, w, (s.size[0] as int, 0, 0))
}

/// Stamping up to two bounds that no voxel lies between gives the same result.
proof fn lemma_stamped_bounds(before: Option<Block>, s: Structure, coord: [i64; 3], w: [i64; 3], b1: Pos, b2: Pos)
    requires
        forall|c: Pos| in_size(s, c) ==> (pos_lt(c, b1) <==> pos_lt(c, b2)),
    ensures
        stamped(before, s, coord, w, b1) == stamped(before, s, coord, w, b2),
{
    let e1 = exists|d: Pos| in_size(s, d) && pos_lt(d, b1) && #[trigger] voxel(s, d) != Block::Empty
        && chunk_key(stamp_dst(s, coord, d)) == chunk_key(w);
    let e2 = exists|d: Pos| in_size(s, d) && pos_lt(d, b2) && #[trigger] voxel(s, d) != Block::Empty
        && chunk_key(stamp_dst(s, coord, d)) == chunk_key(w);
    if e1 {
        let d = choose|d: Pos| in_size(s, d) && pos_lt(d, b1) && #[trigger] voxel(s, d) != Block::Empty
            && chunk_key(stamp_dst(s, coord, d)) == chunk_key(w);
        assert(pos_lt(d, b2));
    }
    if e2 {
        let d = choose|d: Pos| in_size(s, d) && pos_lt(d, b2) && #[trigger] voxel(s, d) != Block::Empty
            && chunk_key(stamp_dst(s, coord, d)) == chunk_key(w);
        assert(pos_lt(d, b1));
    }
}

/// Placing the voxel at `cur` advances the stamp by one voxel.
proof fn lemma_stamp_step(prev: Option<Block>, before: Option<Block>, s: Structure, coord: [i64; 3], w: [i64; 3], cur: Pos)
    requires
        in_size(s, cur),
        prev == stamped(before, s, coord, w, cur),
        voxel(s, cur) != Block::Empty ==> stamp_src(s, coord, stamp_dst(s, coord, cur)) == cur,
        voxel(s, cur) != Block::Empty ==> (w == stamp_dst(s, coord, cur) <==> stamp_src(s, coord, w) == cur),
    ensures
        placed(prev, stamp_dst(s, coord, cur), voxel(s, cur), w)
            == stamped(before, s, coord, w, (cur.0, cur.1, cur.2 + 1)),
{
    let next = (cur.0, cur.1, cur.2 + 1);
    let t = stamp_dst(s, coord, cur);
    let b = voxel(s, cur);
    assert forall|c: Pos| pos_lt(c, next) <==> (pos_lt(c, cur) || c == cur) by {}
    if b != Block::Empty {
        if w != t && chunk_key(w) == chunk_key(t) && prev is None {
            assert(in_size(s, cur) && pos_lt(cur, next) && voxel(s, cur) != Block::Empty
                && chunk_key(stamp_dst(s, coord, cur)) == chunk_key(w));
        } else if w != t {
            let e1 = exists|d: Pos| in_size(s, d) && pos_lt(d, cur) && #[trigger] voxel(s, d) != Block::Empty
                && chunk_key(stamp_dst(s, coord, d)) == chunk_key(w);
            if e1 {
                let d = choose|d: Pos| in_size(s, d) && pos_lt(d, cur) && #[trigger] voxel(s, d) != Block::Empty
                    && chunk_key(stamp_dst(s, coord, d)) == chunk_key(w);
                assert(pos_lt(d, next));
            }
            let e2 = exists|d: Pos| in_size(s, d) && pos_lt(d, next) && #[trigger] voxel(s, d) != Block::Empty
                && chunk_key(stamp_dst(s, coord, d)) == chunk_key(w);
            if e2 && !e1 {
                let d = choose|d: Pos| in_size(s, d) && pos_lt(d, next) && #[trigger] voxel(s, d) != Block::Empty
                    && chunk_key(stamp_dst(s, coord, d)) == chunk_key(w);
                assert(d == cur);
            }
        }
    } else {
        let e1 = exists|d: Pos| in_size(s, d) && pos_lt(d, cur) && #[trigger] voxel(s, d) != Block::Empty
            && chunk_key(stamp_dst(s, coord, d)) == chunk_key(w);
        if e1 {
            let d = choose|d: Pos| in_size(s, d) && pos_lt(d, cur) && #[trigger] voxel(s, d) != Block::Empty
                && chunk_key(stamp_dst(s, coord, d)) == chunk_key(w);
            assert(pos_lt(d, next));
        }
        let e2 = exists|d: Pos| in_size(s, d) && pos_lt(d, next) && #[trigger] voxel(s, d) != Block::Empty
            && chunk_key(stamp_dst(s, coord, d)) == chunk_key(w);
        if e2 {
            let d = choose|d: Pos| in_size(s, d) && pos_lt(d, next) && #[trigger] voxel(s, d) != Block::Empty
                && chunk_key(stamp_dst(s, coord, d)) == chunk_key(w);
            assert(d != cur);
        }
    }
}

/// What is read at `w` once `block` is placed at `coord`, given what was read there before.
pub open spec fn placed(before: Option<Block>, coord: [i64; 3], block: Block, w: [i64; 3]) -> Option<Block> {
    if block == Block::Empty {
        before
    } else if w == coord {
        Some(block)
    } else if chunk_key(w) == chunk_key(coord) && before is None {
        Some(Block::Empty)
    } else {
        before
    }
}

/// Reading a position right after placing a block that is not `Empty` there
/// gives that block; placing changes nothing in any other chunk, and placing
/// `Empty` changes nothing at all.
pub proof fn lemma_read_after_place(before: Option<Block>, coord: [i64; 3], block: Block, w: [i64; 3])
    ensures
        block != Block::Empty ==> placed(before, coord, block, coord) == Some(block),
        chunk_key(w) != chunk_key(coord) ==> placed(before, coord, block, w) == before,
        block == Block::Empty ==> placed(before, coord, block, w) == before,
{
}

/// A world position is fixed by its chunk and its offset in that chunk.
pub(crate) proof fn lemma_split_unique(w: [i64; 3], v: [i64; 3])
    ensures
        chunk_key(w) == chunk_key(v) && offset_in_chunk(w[0] as int) == offset_in_chunk(v[0] as int)
            && offset_in_chunk(w[1] as int) == offset_in_chunk(v[1] as int)
            && offset_in_chunk(w[2] as int) == offset_in_chunk(v[2] as int) ==> w == v,
        in_chunk(offset_in_chunk(w[0] as int), offset_in_chunk(w[1] as int), offset_in_chunk(w[2] as int)),
{
    assert forall|a: int| #[trigger] offset_in_chunk(a) == a - chunk_of(a) * 64 && 0 <= offset_in_chunk(a) < 64 by {
        vstd::arithmetic::div_mod::lemma_fundamental_div_mod(a, 64);
    }
    if chunk_key(w) == chunk_key(v) && offset_in_chunk(w[0] as int) == offset_in_chunk(v[0] as int)
        && offset_in_chunk(w[1] as int) == offset_in_chunk(v[1] as int)
        && offset_in_chunk(w[2] as int) == offset_in_chunk(v[2] as int) {
        assert(chunk_key(w)[0] == chunk_key(v)[0]);
        assert(chunk_key(w)[1] == chunk_key(v)[1]);
        assert(chunk_key(w)[2] == chunk_key(v)[2]);
        assert(w =~= v);
    }
}

/// Two key lists that agree on their keys find every key at the same place.
proof fn lemma_find_same_keys(a: Seq<(Coord, Chunk)>, b: Seq<(Coord, Chunk)>, k: Coord)
    requires
        keys_sorted(a),
        a.len() == b.len(),
        forall|i: int| 0 <= i < a.len() ==> #[trigger] a[i].0 == b[i].0,
        forall|i: int| 0 <= i < a.len() && a[i].0 == k ==> #[trigger] a[i] == b[i],
    ensures
        a.len() == b.len(),
        find(a, k) is None ==> find(b, k) is None,
        find(a, k) is Some ==> find(b, k) == find(a, k),
{
    if find(a, k) is Some {
        let i = find(a, k)->0;
        lemma_find_unique(a, i);
        assert(b[i].0 == k);
        assert forall|x: int, y: int| 0 <= x < y < b.len() implies key_lt(#[trigger] b[x].0, #[trigger] b[y].0) by {
            assert(a[x].0 == b[x].0 && a[y].0 == b[y].0);
        }
        lemma_find_unique(b, i);
    } else {
        if find(b, k) is Some {
            let i = find(b, k)->0;
            assert(a[i].0 == k);
        }
    }
}

/// Inserting a new key leaves every other key found at its entry.
proof fn lemma_find_after_insert(a: Seq<(Coord, Chunk)>, b: Seq<(Coord, Chunk)>, i: int, k: Coord)
    requires
        keys_sorted(a),
        keys_sorted(b),
        0 <= i <= a.len(),
        b.len() == a.len() + 1,
        forall|j: int| 0 <= j < i ==> #[trigger] b[j] == a[j],
        forall|j: int| i < j < b.len() ==> #[trigger] b[j] == a[j - 1],
        b[i].0 != k,
    ensures
        find(a, k) is None ==> find(b, k) is None,
        find(a, k) is Some ==> find(b, k) is Some && b[find(b, k)->0] == a[find(a, k)->0],
{
    if find(a, k) is Some {
        let j = find(a, k)->0;
        lemma_find_unique(a, j);
        let j2 = if j < i { j } else { j + 1 };
        assert(b[j2] == a[j]);
        lemma_find_unique(b, j2);
    } else {
        if find(b, k) is Some {
            let j = find(b, k)->0;
            if j < i {
                assert(a[j].0 == k);
            } else if j > i {
                assert(a[j - 1].0 == k);
            }
        }
    }
}

} // verus!