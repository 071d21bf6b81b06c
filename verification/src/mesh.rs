//! Which faces of a chunk's blocks are drawn: a face of a solid block shows
//! where the neighbouring block inside the chunk is not solid; across a border
//! to a known neighbouring chunk, a face shows on whichever side is solid when
//! the other is not. Turning faces into vertices is left to the renderer.
use vstd::prelude::*;
use crate::blocks::{Block, is_solid};
use crate::chunk::{Chunk, ChunkSide, CHUNK_SIZE, in_chunk};
use crate::coord_map::CoordMap;
use crate::Coord;

verus! {

/// A face of a block's cube, named by the direction it looks to.
#[derive(Clone, Copy, Debug, PartialEq, Eq, Structural)]
pub enum FaceKind {
    Left,
    Right,
    Front,
    Back,
    Top,
    Bottom,
}

/// A face to draw: its kind and the position of its block in the chunk; a face
/// of a neighbouring chunk's block stands one step outside the chunk.
#[derive(Clone, Copy, Debug)]
pub struct Face {
    pub kind: FaceKind,
    pub pos: [i64; 3],
}

/// Whether the block of `c` next to `(x, y, z)` in the direction of `k` lies in
/// the chunk and is not solid.
pub open spec fn open_toward(c: Chunk, x: int, y: int, z: int, k: FaceKind) -> bool {
    let e = CHUNK_SIZE - 1;
    match k {
        FaceKind::Left => x > 0 && !is_solid(c.at(x - 1, y, z)),
        FaceKind::Right => x < e && !is_solid(c.at(x + 1, y, z)),
        FaceKind::Front => z < e && !is_solid(c.at(x, y, z + 1)),
        FaceKind::Back => z > 0 && !is_solid(c.at(x, y, z - 1)),
        FaceKind::Top => y < e && !is_solid(c.at(x, y + 1, z)),
        FaceKind::Bottom => y > 0 && !is_solid(c.at(x, y - 1, z)),
    }
}

/// `f` alone where `b` holds, nothing otherwise.
pub open spec fn face_if(b: bool, f: Face) -> Seq<Face> {
    if b { seq![f] } else { Seq::empty() }
}

/// The face of kind `k` of the block at `(x, y, z)`, where it shows.
pub open spec fn face_toward(c: Chunk, x: int, y: int, z: int, k: FaceKind) -> Seq<Face> {
    face_if(open_toward(c, x, y, z, k), Face { kind: k, pos: [x as i64, y as i64, z as i64] })
}

/// The faces shown of the block at `(x, y, z)`: none where it is not solid, else
/// in the order left, right, front, back, top, bottom.
pub open spec fn block_faces(c: Chunk, x: int, y: int, z: int) -> Seq<Face> {
    if !is_solid(c.at(x, y, z)) {
        Seq::empty()
    } else {
        face_toward(c, x, y, z, FaceKind::Left) + face_toward(c, x, y, z, FaceKind::Right)
            + face_toward(c, x, y, z, FaceKind::Front) + face_toward(c, x, y, z, FaceKind::Back)
            + face_toward(c, x, y, z, FaceKind::Top) + face_toward(c, x, y, z, FaceKind::Bottom)
    }
}

/// The faces shown inside the chunk for its first `n` blocks, block `i` being at
/// `(i / CHUNK_SIZE^2, i / CHUNK_SIZE % CHUNK_SIZE, i % CHUNK_SIZE)`.
pub open spec fn inner_faces(c: Chunk, n: nat) -> Seq<Face>
    decreases n,
{
    if n == 0 {
        Seq::empty()
    } else {
        let i = n - 1;
        let s = CHUNK_SIZE as int;
        inner_faces(c, (n - 1) as nat) + block_faces(c, i / (s * s), (i / s) % s, i % s)
    }
}

/// The position in the chunk of cell `(a, b)` of border `s` (left, right, front,
/// back, top, bottom).
pub open spec fn own_pos(s: int, a: int, b: int) -> (int, int, int) {
    let e = CHUNK_SIZE - 1;
    if s == 0 { (0, b, a) }
    else if s == 1 { (e as int, b, a) }
    else if s == 2 { (a, b, e as int) }
    else if s == 3 { (a, b, 0) }
    else if s == 4 { (a, e as int, b) }
    else { (a, 0, b) }
}

/// The face shown across border `s` at cell `(a, b)` where the neighbour's block
/// is solid and the chunk's is not: the neighbour's face toward the chunk.
pub open spec fn outer_face(s: int, a: int, b: int) -> Face {
    let n = CHUNK_SIZE as i64;
    if s == 0 { Face { kind: FaceKind::Right, pos: [-1i64, b as i64, a as i64] } }
    else if s == 1 { Face { kind: FaceKind::Left, pos: [n, b as i64, a as i64] } }
    else if s == 2 { Face { kind: FaceKind::Back, pos: [a as i64, b as i64, n] } }
    else if s == 3 { Face { kind: FaceKind::Front, pos: [a as i64, b as i64, -1i64] } }
    else if s == 4 { Face { kind: FaceKind::Bottom, pos: [a as i64, n, b as i64] } }
    else { Face { kind: FaceKind::Top, pos: [a as i64, -1i64, b as i64] } }
}

/// The face shown across border `s` at cell `(a, b)` where the chunk's block is
/// solid and the neighbour's is not: the chunk's face toward the neighbour.
pub open spec fn inner_face(s: int, a: int, b: int) -> Face {
    let p = own_pos(s, a, b);
    let k = if s == 0 { FaceKind::Left } else if s == 1 { FaceKind::Right } else if s == 2 { FaceKind::Front }
        else if s == 3 { FaceKind::Back } else if s == 4 { FaceKind::Top } else { FaceKind::Bottom };
    Face { kind: k, pos: [p.0 as i64, p.1 as i64, p.2 as i64] }
}

/// The face shown across border `s` at cell `(a, b)`, if any.
pub open spec fn border_cell(c: Chunk, s: int, side: ChunkSide, a: int, b: int) -> Seq<Face> {
    let p = own_pos(s, a, b);
    let own = c.at(p.0, p.1, p.2);
    let other = side[a][b];
    face_if(!is_solid(own) && is_solid(other), outer_face(s, a, b))
        + face_if(is_solid(own) && !is_solid(other), inner_face(s, a, b))
}

/// The faces shown across border `s` for its first `n` cells, cell `i` being
/// `(i / CHUNK_SIZE, i % CHUNK_SIZE)`.
pub open spec fn border_faces(c: Chunk, s: int, side: ChunkSide, n: nat) -> Seq<Face>
    decreases n,
{
    if n == 0 {
        Seq::empty()
    } else {
        let i = n - 1;
        border_faces(c, s, side, (n - 1) as nat) + border_cell(c, s, side, i / CHUNK_SIZE as int, i % CHUNK_SIZE as int)
    }
}

/// The faces shown across the first `k` borders, skipping those whose
/// neighbour is not known.
pub open spec fn borders_faces(c: Chunk, sides: [Option<ChunkSide>; 6], k: nat) -> Seq<Face>
    decreases k,
{
    if k == 0 {
        Seq::empty()
    } else {
        let s = k - 1;
        borders_faces(c, sides, (k - 1) as nat) + match sides[s] {
            Some(side) => border_faces(c, s, side, (CHUNK_SIZE * CHUNK_SIZE) as nat),
            None => Seq::empty(),
        }
    }
}

/// Whether the block is solid.
fn solid(b: Block) -> (r: bool)
    ensures
        r == is_solid(b),
{
    b.to_category().0 != 0
}

/// Appends the face of kind `k` of the block at `(x, y, z)`, where it shows.
fn push_face(chunk: &Chunk, x: usize, y: usize, z: usize, k: FaceKind, faces: &mut Vec<Face>)
    requires
        chunk.wf(),
        x < CHUNK_SIZE && y < CHUNK_SIZE && z < CHUNK_SIZE,
    ensures
        final(faces)@ == old(faces)@ + face_toward(*chunk, x as int, y as int, z as int, k),
{
    let e = CHUNK_SIZE - 1;
    let open = match k {
        FaceKind::Left => x > 0 && !solid(chunk.data[x - 1][y][z]),
        FaceKind::Right => x < e && !solid(chunk.data[x + 1][y][z]),
        FaceKind::Front => z < e && !solid(chunk.data[x][y][z + 1]),
        FaceKind::Back => z > 0 && !solid(chunk.data[x][y][z - 1]),
        FaceKind::Top => y < e && !solid(chunk.data[x][y + 1][z]),
        FaceKind::Bottom => y > 0 && !solid(chunk.data[x][y - 1][z]),
    };
    assert(open == open_toward(*chunk, x as int, y as int, z as int, k));
    if open {
        faces.push(Face { kind: k, pos: [x as i64, y as i64, z as i64] });
    }
    assert(faces@ =~= old(faces)@ + face_toward(*chunk, x as int, y as int, z as int, k));
}

/// Appends the faces shown of the block at `(x, y, z)`.
fn push_block_faces(chunk: &Chunk, x: usize, y: usize, z: usize, faces: &mut Vec<Face>)
    requires
        chunk.wf(),
        x < CHUNK_SIZE && y < CHUNK_SIZE && z < CHUNK_SIZE,
    ensures
        final(faces)@ == old(faces)@ + block_faces(*chunk, x as int, y as int, z as int),
{
    if !solid(chunk.data[x][y][z]) {
        assert(faces@ =~= old(faces)@ + block_faces(*chunk, x as int, y as int, z as int));
        return;
    }
    let ghost c = *chunk;
    let ghost f0 = faces@;
    push_face(chunk, x, y, z, FaceKind::Left, faces);
    push_face(chunk, x, y, z, FaceKind::Right, faces);
    push_face(chunk, x, y, z, FaceKind::Front, faces);
    push_face(chunk, x, y, z, FaceKind::Back, faces);
    push_face(chunk, x, y, z, FaceKind::Top, faces);
    push_face(chunk, x, y, z, FaceKind::Bottom, faces);
    assert(faces@ =~= f0 + block_faces(c, x as int, y as int, z as int));
}

/// Appends the face shown across border `s` at cell `(a, b)`, if any.
fn push_border_cell(chunk: &Chunk, s: usize, side: &ChunkSide, a: usize, b: usize, faces: &mut Vec<Face>)
    requires
        chunk.wf(),
        s < 6,
        a < CHUNK_SIZE && b < CHUNK_SIZE,
    ensures
        final(faces)@ == old(faces)@ + border_cell(*chunk, s as int, *side, a as int, b as int),
{
    let e = CHUNK_SIZE - 1;
    let (x, y, z) = if s == 0 { (0, b, a) } else if s == 1 { (e, b, a) } else if s == 2 { (a, b, e) }
        else if s == 3 { (a, b, 0) } else if s == 4 { (a, e, b) } else { (a, 0, b) };
    assert((x as int, y as int, z as int) == own_pos(s as int, a as int, b as int));
    let own = solid(chunk.data[x][y][z]);
    let other = solid(side[a][b]);
    let ai = a as i64;
    let bi = b as i64;
    let n = CHUNK_SIZE as i64;
    if !own && other {
        let f = if s == 0 { Face { kind: FaceKind::Right, pos: [-1, bi, ai] } }
            else if s == 1 { Face { kind: FaceKind::Left, pos: [n, bi, ai] } }
            else if s == 2 { Face { kind: FaceKind::Back, pos: [ai, bi, n] } }
            else if s == 3 { Face { kind: FaceKind::Front, pos: [ai, bi, -1] } }
            else if s == 4 { Face { kind: FaceKind::Bottom, pos: [ai, n, bi] } }
            else { Face { kind: FaceKind::Top, pos: [ai, -1, bi] } };
        assert(f == outer_face(s as int, a as int, b as int));
        faces.push(f);
    }
    if own && !other {
        let k = if s == 0 { FaceKind::Left } else if s == 1 { FaceKind::Right } else if s == 2 { FaceKind::Front }
            else if s == 3 { FaceKind::Back } else if s == 4 { FaceKind::Top } else { FaceKind::Bottom };
        let f = Face { kind: k, pos: [x as i64, y as i64, z as i64] };
        assert(f == inner_face(s as int, a as int, b as int));
        faces.push(f);
    }
    assert(faces@ =~= old(faces)@ + border_cell(*chunk, s as int, *side, a as int, b as int));
}

/// The faces of `chunk` to draw: those inside it, block by block in x, y, z
/// order, then those across each border whose neighbouring chunk is known
/// (`sides` holds, for the left, right, front, back, top and bottom neighbour,
/// its layer that touches this chunk), cell by cell.
pub fn chunk_faces(chunk: &Chunk, sides: &[Option<ChunkSide>; 6]) -> (faces: Vec<Face>)
    requires
        chunk.wf(),
    ensures
        faces@ == inner_faces(*chunk, (CHUNK_SIZE * CHUNK_SIZE * CHUNK_SIZE) as nat) + borders_faces(*chunk, *sides, 6),
{
    let mut faces: Vec<Face> = Vec::new();
    let mut x: usize = 0;
    while x < CHUNK_SIZE
        invariant
            chunk.wf(),
            x <= CHUNK_SIZE,
            faces@ == inner_faces(*chunk, (x * CHUNK_SIZE * CHUNK_SIZE) as nat),
        decreases CHUNK_SIZE - x,
    {
        let mut y: usize = 0;
        while y < CHUNK_SIZE
            invariant
                chunk.wf(),
                x < CHUNK_SIZE,
                y <= CHUNK_SIZE,
                faces@ == inner_faces(*chunk, (x * CHUNK_SIZE * CHUNK_SIZE + y * CHUNK_SIZE) as nat),
            decreases CHUNK_SIZE - y,
        {
            let mut z: usize = 0;
            while z < CHUNK_SIZE
                invariant
                    chunk.wf(),
                    x < CHUNK_SIZE,
                    y < CHUNK_SIZE,
                    z <= CHUNK_SIZE,
                    faces@ == inner_faces(*chunk, (x * CHUNK_SIZE * CHUNK_SIZE + y * CHUNK_SIZE + z) as nat),
                decreases CHUNK_SIZE - z,
            {
                let ghost s: int = 64;
                let ghost i = x * CHUNK_SIZE * CHUNK_SIZE + y * CHUNK_SIZE + z;
                assert(i / (s * s) == x && (i / s) % s == y && i % s == z) by (nonlinear_arith)
                    requires i == x * s * s + y * s + z, s == 64, x < s, y < s, z < s;
                push_block_faces(chunk, x, y, z, &mut faces);
                z = z + 1;
            }
            y = y + 1;
        }
        x = x + 1;
    }
    let ghost inner = faces@;
    let mut k: usize = 0;
    while k < 6
        invariant
            chunk.wf(),
            k <= 6,
            faces@ == inner + borders_faces(*chunk, *sides, k as nat),
        decreases 6 - k,
    {
        let ghost before = faces@;
        match sides[k] {
            Some(side) => {
                let mut a: usize = 0;
                while a < CHUNK_SIZE
                    invariant
                        chunk.wf(),
                        k < 6,
                        a <= CHUNK_SIZE,
                        faces@ == before + border_faces(*chunk, k as int, side, (a * CHUNK_SIZE) as nat),
                    decreases CHUNK_SIZE - a,
                {
                    let mut b: usize = 0;
                    while b < CHUNK_SIZE
                        invariant
                            chunk.wf(),
                            k < 6,
                            a < CHUNK_SIZE,
                            b <= CHUNK_SIZE,
                            faces@ == before + border_faces(*chunk, k as int, side, (a * CHUNK_SIZE + b) as nat),
                        decreases CHUNK_SIZE - b,
                    {
                        let ghost s: int = 64;
                        let ghost i = a * CHUNK_SIZE + b;
                        assert(i / s == a && i % s == b) by (nonlinear_arith)
                            requires i == a * s + b, s == 64, b < s;
                        let ghost f0 = faces@;
                        push_border_cell(chunk, k, &side, a, b, &mut faces);
                        assert(faces@ =~= before + border_faces(*chunk, k as int, side, (i + 1) as nat));
                        b = b + 1;
                    }
                    a = a + 1;
                }
                assert(faces@ =~= inner + borders_faces(*chunk, *sides, (k + 1) as nat));
            }
            None => {
                assert(faces@ =~= inner + borders_faces(*chunk, *sides, (k + 1) as nat));
            }
        }
        k = k + 1;
    }
    faces
}


/// The coordinate of the neighbour of `c` across border `s` (left, right, front,
/// back, top, bottom).
pub open spec fn neighbour(c: Coord, s: int) -> Coord {
    if s == 0 { [(c[0] - 1) as i64, c[1], c[2]] }
    else if s == 1 { [(c[0] + 1) as i64, c[1], c[2]] }
    else if s == 2 { [c[0], c[1], (c[2] + 1) as i64] }
    else if s == 3 { [c[0], c[1], (c[2] - 1) as i64] }
    else if s == 4 { [c[0], (c[1] + 1) as i64, c[2]] }
    else { [c[0], (c[1] - 1) as i64, c[2]] }
}

/// Whether `side` is the layer of `n` that touches its neighbour across border
/// `s` of that neighbour: for the left border the right layer of `n`, and so on.
pub open spec fn touching_layer(n: Chunk, s: int, side: ChunkSide) -> bool {
    let e = CHUNK_SIZE - 1;
    forall|a: int, b: int| 0 <= a < CHUNK_SIZE && 0 <= b < CHUNK_SIZE ==> #[trigger] side[a][b] == {
        if s == 0 { n.at(e as int, b, a) }
        else if s == 1 { n.at(0, b, a) }
        else if s == 2 { n.at(a, b, 0) }
        else if s == 3 { n.at(a, b, e as int) }
        else if s == 4 { n.at(a, 0, b) }
        else { n.at(a, e as int, b) }
    }
}

/// The chunks known to the mesh builder, each under its coordinate.
pub struct MeshRegister {
    chunks: CoordMap<Chunk>,
}

impl MeshRegister {
    /// Every chunk known is well formed and known under its own coordinate.
    pub closed spec fn wf(&self) -> bool {
        forall|k: Coord| #[trigger] self.chunks@.contains_key(k) ==> self.chunks@[k].wf() && self.chunks@[k].coord == k
    }

    /// The chunks known, by coordinate.
    pub closed spec fn known(&self) -> Map<Coord, Chunk> {
        self.chunks@
    }

    /// A register that knows no chunk.
    pub fn new() -> (r: MeshRegister)
        ensures
            r.wf(),
            r.known() == Map::<Coord, Chunk>::empty(),
    {
        MeshRegister { chunks: CoordMap::new() }
    }

    /// Records `chunk` and answers, for each of its borders, the touching layer of
    /// the known neighbour across it, if any.
    pub fn add(&mut self, chunk: Chunk) -> (sides: [Option<ChunkSide>; 6])
        requires
            old(self).wf(),
            chunk.wf(),
            i64::MIN < chunk.coord[0] && chunk.coord[0] < i64::MAX,
            i64::MIN < chunk.coord[1] && chunk.coord[1] < i64::MAX,
            i64::MIN < chunk.coord[2] && chunk.coord[2] < i64::MAX,
        ensures
            final(self).wf(),
            final(self).known() == old(self).known().insert(chunk.coord, chunk),
            forall|s: int| 0 <= s < 6 ==> (#[trigger] sides[s] is Some <==> final(self).known().contains_key(neighbour(chunk.coord, s))),
            forall|s: int| 0 <= s < 6 && #[trigger] sides[s] is Some ==>
                touching_layer(final(self).known()[neighbour(chunk.coord, s)], s, sides[s]->0),
    {
        let c = chunk.coord;
        self.chunks.insert(c, chunk);
        let left = [c[0] - 1, c[1], c[2]];
        let right = [c[0] + 1, c[1], c[2]];
        let front = [c[0], c[1], c[2] + 1];
        let back = [c[0], c[1], c[2] - 1];
        let top = [c[0], c[1] + 1, c[2]];
        let bottom = [c[0], c[1] - 1, c[2]];
        let s0 = match self.chunks.get(&left) { Some(n) => Some(n.get_right_side()), None => None };
        let s1 = match self.chunks.get(&right) { Some(n) => Some(n.get_left_side()), None => None };
        let s2 = match self.chunks.get(&front) { Some(n) => Some(n.get_back_side()), None => None };
        let s3 = match self.chunks.get(&back) { Some(n) => Some(n.get_front_side()), None => None };
        let s4 = match self.chunks.get(&top) { Some(n) => Some(n.get_bottom_side()), None => None };
        let s5 = match self.chunks.get(&bottom) { Some(n) => Some(n.get_top_side()), None => None };
        let sides = [s0, s1, s2, s3, s4, s5];
        proof {
            assert(left == neighbour(c, 0) && right == neighbour(c, 1) && front == neighbour(c, 2));
            assert(back == neighbour(c, 3) && top == neighbour(c, 4) && bottom == neighbour(c, 5));
            assert forall|s: int| 0 <= s < 6 implies (#[trigger] sides[s] is Some <==> self.chunks@.contains_key(neighbour(c, s))) by {
                if s == 0 { assert(sides[s] == s0); } else if s == 1 { assert(sides[s] == s1); }
                else if s == 2 { assert(sides[s] == s2); } else if s == 3 { assert(sides[s] == s3); }
                else if s == 4 { assert(sides[s] == s4); } else { assert(sides[s] == s5); }
            }
            assert forall|s: int| 0 <= s < 6 && #[trigger] sides[s] is Some implies
                touching_layer(self.chunks@[neighbour(c, s)], s, sides[s]->0) by {
                if s == 0 { assert(sides[s] == s0); } else if s == 1 { assert(sides[s] == s1); }
                else if s == 2 { assert(sides[s] == s2); } else if s == 3 { assert(sides[s] == s3); }
                else if s == 4 { assert(sides[s] == s4); } else { assert(sides[s] == s5); }
            }
        }
        sides
    }
}


/// The pair (group, block) that cell `(x, y, z)` of a chunk gets from the flat
/// bytes `flat`: the pair starting at byte `2 (x + 64 y + 4096 z)`, or `(0, 0)`
/// where `flat` holds no whole pair there.
pub open spec fn flat_cell(flat: Seq<u8>, x: int, y: int, z: int) -> (u8, u8) {
    let i = x + 64 * y + 4096 * z;
    if 2 * i + 1 < flat.len() {
        (flat[2 * i], flat[2 * i + 1])
    } else {
        (0u8, 0u8)
    }
}

/// Whether `row` is the row of cells at `(x, y, _)` read from `flat`, up to `n` cells.
pub open spec fn flat_row(flat: Seq<u8>, row: Seq<(u8, u8)>, x: int, y: int, n: int) -> bool {
    &&& row.len() == n
    &&& forall|z: int| 0 <= z < n ==> #[trigger] row[z] == flat_cell(flat, x, y, z)
}

/// Whether `plane` is the plane of cells at `(x, _, _)` read from `flat`, up to `n` rows.
pub open spec fn flat_plane(flat: Seq<u8>, plane: Seq<Vec<(u8, u8)>>, x: int, n: int) -> bool {
    &&& plane.len() == n
    &&& forall|y: int| 0 <= y < n ==> flat_row(flat, (#[trigger] plane[y])@, x, y, 64)
}

/// The cells of a chunk, indexed by x, y and z, read from flat bytes that list a
/// (group, block) pair per cell, x first, then y, then z; cells past the end of
/// the bytes are `(0, 0)`, and a last odd byte is ignored.
pub fn flat_to_3d(flat: &[u8]) -> (r: Vec<Vec<Vec<(u8, u8)>>>)
    requires
        flat@.len() <= 2 * 64 * 64 * 64 + 1,
    ensures
        r@.len() == 64,
        forall|x: int| 0 <= x < 64 ==> flat_plane(flat@, (#[trigger] r@[x])@, x, 64),
{
    let mut r: Vec<Vec<Vec<(u8, u8)>>> = Vec::new();
    let mut x: usize = 0;
    while x < 64
        invariant
            x <= 64,
            r@.len() == x,
            forall|a: int| 0 <= a < x ==> flat_plane(flat@, (#[trigger] r@[a])@, a, 64),
        decreases 64 - x,
    {
        let mut plane: Vec<Vec<(u8, u8)>> = Vec::new();
        let mut y: usize = 0;
        while y < 64
            invariant
                x < 64,
                y <= 64,
                flat_plane(flat@, plane@, x as int, y as int),
            decreases 64 - y,
        {
            let mut row: Vec<(u8, u8)> = Vec::new();
            let mut z: usize = 0;
            while z < 64
                invariant
                    x < 64,
                    y < 64,
                    z <= 64,
                    flat_row(flat@, row@, x as int, y as int, z as int),
                decreases 64 - z,
            {
                let i = x + 64 * y + 4096 * z;
                if 2 * i + 1 < flat.len() {
                    row.push((flat[2 * i], flat[2 * i + 1]));
                } else {
                    row.push((0, 0));
                }
                z = z + 1;
            }
            plane.push(row);
            y = y + 1;
        }
        r.push(plane);
        x = x + 1;
    }
    r
}


/// One step in the direction that a face of kind `k` looks to.
pub open spec fn step(k: FaceKind) -> (int, int, int) {
    match k {
        FaceKind::Left => (-1, 0, 0),
        FaceKind::Right => (1, 0, 0),
        FaceKind::Front => (0, 0, 1),
        FaceKind::Back => (0, 0, -1),
        FaceKind::Top => (0, 1, 0),
        FaceKind::Bottom => (0, -1, 0),
    }
}

/// The cell of the neighbour across border `s` that faces cell `(a, b)` of that
/// border (the cell that `touching_layer` reads).
pub open spec fn facing_pos(s: int, a: int, b: int) -> (int, int, int) {
    let e = CHUNK_SIZE - 1;
    if s == 0 { (e as int, b, a) }
    else if s == 1 { (0, b, a) }
    else if s == 2 { (a, b, 0) }
    else if s == 3 { (a, b, e as int) }
    else if s == 4 { (a, 0, b) }
    else { (a, e as int, b) }
}

/// A face inside a chunk shows exactly where the block one step in the direction
/// it looks to lies in the chunk and is not solid.
pub proof fn lemma_open_toward_step(c: Chunk, x: int, y: int, z: int, k: FaceKind)
    requires
        in_chunk(x, y, z),
    ensures
        open_toward(c, x, y, z, k) <==> {
            let d = step(k);
            &&& in_chunk(x + d.0, y + d.1, z + d.2)
            &&& !is_solid(c.at(x + d.0, y + d.1, z + d.2))
        },
{
}

/// Across each border, the chunk's face looks out of the chunk, one step beyond
/// its border cell, and the neighbour's face looks back at that border cell.
pub proof fn lemma_border_faces_look_across(s: int, a: int, b: int)
    requires
        0 <= s < 6,
        0 <= a < CHUNK_SIZE,
        0 <= b < CHUNK_SIZE,
    ensures
        ({
            let p = own_pos(s, a, b);
            let d = step(inner_face(s, a, b).kind);
            &&& in_chunk(p.0, p.1, p.2)
            &&& !in_chunk(p.0 + d.0, p.1 + d.1, p.2 + d.2)
            &&& inner_face(s, a, b).pos == [p.0 as i64, p.1 as i64, p.2 as i64]
        }),
        ({
            let o = outer_face(s, a, b).pos;
            let d = step(outer_face(s, a, b).kind);
            let p = own_pos(s, a, b);
            o[0] + d.0 == p.0 && o[1] + d.1 == p.1 && o[2] + d.2 == p.2
        }),
{
}

/// The neighbour known across border `s` is the chunk that touches it there: its
/// cell facing cell `(a, b)` of the border lies, in the world, one step beyond
/// the chunk's border cell in the direction the chunk's faces toward that border
/// look.
pub proof fn lemma_neighbour_touches(c: Coord, s: int, a: int, b: int)
    requires
        0 <= s < 6,
        0 <= a < CHUNK_SIZE,
        0 <= b < CHUNK_SIZE,
        i64::MIN < c[0] < i64::MAX,
        i64::MIN < c[1] < i64::MAX,
        i64::MIN < c[2] < i64::MAX,
    ensures
        ({
            let p = own_pos(s, a, b);
            let q = facing_pos(s, a, b);
            let d = step(inner_face(s, a, b).kind);
            let n = neighbour(c, s);
            &&& in_chunk(q.0, q.1, q.2)
            &&& n[0] * CHUNK_SIZE + q.0 == c[0] * CHUNK_SIZE + p.0 + d.0
            &&& n[1] * CHUNK_SIZE + q.1 == c[1] * CHUNK_SIZE + p.1 + d.1
            &&& n[2] * CHUNK_SIZE + q.2 == c[2] * CHUNK_SIZE + p.2 + d.2
        }),
{
}

/// A layer that touches a neighbour holds, at each cell, the neighbour's block
/// at the facing cell.
pub proof fn lemma_touching_cells(n: Chunk, s: int, side: ChunkSide, a: int, b: int)
    requires
        touching_layer(n, s, side),
        0 <= a < CHUNK_SIZE,
        0 <= b < CHUNK_SIZE,
    ensures
        side[a][b] == n.at(facing_pos(s, a, b).0, facing_pos(s, a, b).1, facing_pos(s, a, b).2),
{
}

/// The position `(x, y, z)` of a chunk in the order in which its blocks are visited.
pub open spec fn visit_index(x: int, y: int, z: int) -> int {
    x * (CHUNK_SIZE * CHUNK_SIZE) as int + y * CHUNK_SIZE as int + z
}

proof fn lemma_add_contains<A>(a: Seq<A>, b: Seq<A>, v: A)
    ensures
        (a + b).contains(v) <==> (a.contains(v) || b.contains(v)),
{
    let s = a + b;
    if s.contains(v) {
        let i = choose|i: int| 0 <= i < s.len() && s[i] == v;
        if i < a.len() {
            assert(a[i] == v);
        } else {
            assert(b[i - a.len()] == v);
        }
    }
    if a.contains(v) {
        let i = choose|i: int| 0 <= i < a.len() && a[i] == v;
        assert(s[i] == v);
    }
    if b.contains(v) {
        let i = choose|i: int| 0 <= i < b.len() && b[i] == v;
        assert(s[i + a.len()] == v);
    }
}

proof fn lemma_face_if_contains(b: bool, f: Face, g: Face)
    ensures
        face_if(b, f).contains(g) <==> (b && g == f),
{
    if b {
        assert(face_if(b, f)[0] == f);
    }
}

/// The faces shown of one block: faces of that block, shown where it is solid
/// and its face looks to an open block.
proof fn lemma_block_faces_contains(c: Chunk, x: int, y: int, z: int, f: Face)
    ensures
        block_faces(c, x, y, z).contains(f) <==> (is_solid(c.at(x, y, z))
            && f.pos == [x as i64, y as i64, z as i64] && open_toward(c, x, y, z, f.kind)),
{
    if is_solid(c.at(x, y, z)) {
        let l = face_toward(c, x, y, z, FaceKind::Left);
        let r = face_toward(c, x, y, z, FaceKind::Right);
        let fr = face_toward(c, x, y, z, FaceKind::Front);
        let bk = face_toward(c, x, y, z, FaceKind::Back);
        let t = face_toward(c, x, y, z, FaceKind::Top);
        let bo = face_toward(c, x, y, z, FaceKind::Bottom);
        lemma_add_contains(l, r, f);
        lemma_add_contains(l + r, fr, f);
        lemma_add_contains(l + r + fr, bk, f);
        lemma_add_contains(l + r + fr + bk, t, f);
        lemma_add_contains(l + r + fr + bk + t, bo, f);
        let p = [x as i64, y as i64, z as i64];
        lemma_face_if_contains(open_toward(c, x, y, z, FaceKind::Left), Face { kind: FaceKind::Left, pos: p }, f);
        lemma_face_if_contains(open_toward(c, x, y, z, FaceKind::Right), Face { kind: FaceKind::Right, pos: p }, f);
        lemma_face_if_contains(open_toward(c, x, y, z, FaceKind::Front), Face { kind: FaceKind::Front, pos: p }, f);
        lemma_face_if_contains(open_toward(c, x, y, z, FaceKind::Back), Face { kind: FaceKind::Back, pos: p }, f);
        lemma_face_if_contains(open_toward(c, x, y, z, FaceKind::Top), Face { kind: FaceKind::Top, pos: p }, f);
        lemma_face_if_contains(open_toward(c, x, y, z, FaceKind::Bottom), Face { kind: FaceKind::Bottom, pos: p }, f);
    }
}

/// The faces shown inside the chunk for its first `n` blocks are the faces of
/// those blocks that are solid, each looking to an open block.
proof fn lemma_inner_faces_contains(c: Chunk, n: nat, f: Face)
    requires
        n <= CHUNK_SIZE * CHUNK_SIZE * CHUNK_SIZE,
    ensures
        inner_faces(c, n).contains(f) <==> {
            let x = f.pos[0] as int;
            let y = f.pos[1] as int;
            let z = f.pos[2] as int;
            &&& in_chunk(x, y, z)
            &&& visit_index(x, y, z) < n
            &&& is_solid(c.at(x, y, z))
            &&& open_toward(c, x, y, z, f.kind)
        },
    decreases n,
{
    if n > 0 {
        let i = n - 1;
        let s = CHUNK_SIZE as int;
        let bx = i / (s * s);
        let by = (i / s) % s;
        let bz = i % s;
        lemma_inner_faces_contains(c, (n - 1) as nat, f);
        lemma_add_contains(inner_faces(c, (n - 1) as nat), block_faces(c, bx, by, bz), f);
        lemma_block_faces_contains(c, bx, by, bz, f);
        assert(in_chunk(bx, by, bz) && visit_index(bx, by, bz) == i) by (nonlinear_arith)
            requires bx == i / (s * s), by == (i / s) % s, bz == i % s, s == 64, 0 <= i < 64 * 64 * 64;
        let x = f.pos[0] as int;
        let y = f.pos[1] as int;
        let z = f.pos[2] as int;
        if in_chunk(x, y, z) && visit_index(x, y, z) == i {
            assert(x == bx && y == by && z == bz) by (nonlinear_arith)
                requires in_chunk(x, y, z), visit_index(x, y, z) == i, in_chunk(bx, by, bz), visit_index(bx, by, bz) == i;
            assert(f.pos =~= [bx as i64, by as i64, bz as i64]);
        }
        if f.pos == [bx as i64, by as i64, bz as i64] {
            assert(x == bx && y == by && z == bz);
        }
    }
}

/// The faces drawn inside a chunk are exactly the faces of its solid blocks that
/// look, one step further, to a block of the chunk that is not solid: a face
/// between two solid blocks, or toward the chunk's border, is not drawn there.
pub proof fn lemma_inner_faces_drawn(c: Chunk, f: Face)
    ensures
        inner_faces(c, (CHUNK_SIZE * CHUNK_SIZE * CHUNK_SIZE) as nat).contains(f) <==> {
            let x = f.pos[0] as int;
            let y = f.pos[1] as int;
            let z = f.pos[2] as int;
            let d = step(f.kind);
            &&& in_chunk(x, y, z)
            &&& is_solid(c.at(x, y, z))
            &&& in_chunk(x + d.0, y + d.1, z + d.2)
            &&& !is_solid(c.at(x + d.0, y + d.1, z + d.2))
        },
{
    lemma_inner_faces_contains(c, (CHUNK_SIZE * CHUNK_SIZE * CHUNK_SIZE) as nat, f);
    let x = f.pos[0] as int;
    let y = f.pos[1] as int;
    let z = f.pos[2] as int;
    if in_chunk(x, y, z) {
        assert(visit_index(x, y, z) < CHUNK_SIZE * CHUNK_SIZE * CHUNK_SIZE) by (nonlinear_arith)
            requires in_chunk(x, y, z);
        lemma_open_toward_step(c, x, y, z, f.kind);
    }
}

} // verus!
