//! What a connected user sees of the world: which chunks around its position it
//! wants, which it holds, and which it should let go.
use vstd::prelude::*;
use crate::chunk::{Chunk, ChunkDelta, chunk_key, get_chunk_coords};
use crate::channel::{PrioritySender, TakingReceiver, channel};
use crate::coord_map::{CoordMap, coord_eq};
use crate::{Coord, Token, dist_sq};

verus! {

/// `2^128`.
pub open spec fn two_128() -> int {
    340282366920938463463374607431768211456int
}

/// `n * n` for a small `n`.
fn square(n: u128) -> (r: u128)
    requires
        n <= 0x1_0001,
    ensures
        r == n * n,
{
    assert(n * n <= 0x1_0002_0001) by (nonlinear_arith) requires n <= 0x1_0001;
    n * n
}

/// `(a - b)^2`, exactly.
fn sq_diff(a: i64, b: i64) -> (r: u128)
    ensures
        r == (a - b) * (a - b),
{
    let d: i128 = a as i128 - b as i128;
    let m: u128 = if d >= 0 { d as u128 } else { (-d) as u128 };
    assert(m * m == (a - b) * (a - b)) by (nonlinear_arith)
        requires m == d || m == -d, d == a - b;
    assert(m * m <= 0xffff_ffff_ffff_fffe_0000_0000_0000_0001u128) by (nonlinear_arith)
        requires m <= 0xffff_ffff_ffff_ffff;
    m * m
}

/// `x + y` as a carry and the low 128 bits.
fn add_carry(x: u128, y: u128) -> (r: (u8, u128))
    ensures
        r.0 <= 1,
        r.0 * two_128() + r.1 == x + y,
{
    match x.checked_add(y) {
        Some(s) => (0, s),
        None => (1, y - (u128::MAX - x) - 1),
    }
}

/// The squared distance between two chunk coordinates, as a carry and the low 128 bits.
fn dist_sq_parts(a: &Coord, b: &Coord) -> (r: (u8, u128))
    ensures
        r.0 * two_128() + r.1 == dist_sq(*a, *b),
{
    let s0 = sq_diff(a[0], b[0]);
    let s1 = sq_diff(a[1], b[1]);
    let s2 = sq_diff(a[2], b[2]);
    let (c1, l1) = add_carry(s0, s1);
    let (c2, l2) = add_carry(l1, s2);
    (c1 + c2, l2)
}

/// Whether `a` lies no farther from `center` than `b`.
fn closer_or_level(a: &Coord, b: &Coord, center: &Coord) -> (r: bool)
    ensures
        r == (dist_sq(*a, *center) <= dist_sq(*b, *center)),
{
    let (ca, la) = dist_sq_parts(a, center);
    let (cb, lb) = dist_sq_parts(b, center);
    ca < cb || (ca == cb && la <= lb)
}

/// Whether the squared distance between `a` and `b` is below `bound`.
fn dist_sq_below(a: &Coord, b: &Coord, bound: u128) -> (r: bool)
    ensures
        r == (dist_sq(*a, *b) < bound),
{
    let (c, l) = dist_sq_parts(a, b);
    c == 0 && l < bound
}

/// The integer distance between two coordinates (the square root of their
/// squared distance, rounded down) is below `r` exactly where their squared
/// distance is below `r * r`; it exceeds `r` exactly where the squared distance
/// is at least `(r + 1) * (r + 1)`.
pub proof fn lemma_distance_bounds(s: int, n: int, r: int)
    requires
        crate::is_isqrt(s, n),
        r >= 0,
    ensures
        s < r <==> n < r * r,
        s > r <==> n >= (r + 1) * (r + 1),
{
    if s < r {
        assert((s + 1) * (s + 1) <= r * r) by (nonlinear_arith) requires 0 <= s + 1 <= r;
    } else {
        assert(r * r <= s * s) by (nonlinear_arith) requires 0 <= r <= s;
    }
    if s > r {
        assert((r + 1) * (r + 1) <= s * s) by (nonlinear_arith) requires 0 <= r + 1 <= s;
    } else {
        assert((s + 1) * (s + 1) <= (r + 1) * (r + 1)) by (nonlinear_arith) requires 0 <= s <= r;
    }
}

/// Whether `s` runs from the nearest to `center` to the farthest.
pub open spec fn sorted_by_distance(s: Seq<Coord>, center: Coord) -> bool {
    forall|i: int, j: int| 0 <= i <= j < s.len() ==> dist_sq(#[trigger] s[i], center) <= dist_sq(#[trigger] s[j], center)
}

/// `v` reordered from the nearest to `center` to the farthest.
pub fn sort_by_distance(v: &Vec<Coord>, center: &Coord) -> (r: Vec<Coord>)
    ensures
        r@.to_multiset() == v@.to_multiset(),
        sorted_by_distance(r@, *center),
{
    broadcast use vstd::seq_lib::group_to_multiset_ensures;
    let mut out: Vec<Coord> = Vec::new();
    let n = v.len();
    let mut i: usize = 0;
    while i < n
        invariant
            n == v@.len(),
            i <= n,
            out@.to_multiset() == v@.take(i as int).to_multiset(),
            sorted_by_distance(out@, *center),
        decreases n - i,
    {
        let c = v[i];
        let m = out.len();
        let mut p: usize = 0;
        while p < m && closer_or_level(&out[p], &c, center)
            invariant
                m == out@.len(),
                p <= m,
                forall|j: int| 0 <= j < p ==> dist_sq(#[trigger] out@[j], *center) <= dist_sq(c, *center),
            decreases m - p,
        {
            p = p + 1;
        }
        let ghost before = out@;
        out.insert(p, c);
        proof {
            assert(v@.take(i + 1) =~= v@.take(i as int).push(c));
            vstd::seq_lib::to_multiset_insert(before, p as int, c);
            vstd::seq_lib::to_multiset_build(v@.take(i as int), c);
            assert(out@ =~= before.insert(p as int, c));
            assert forall|a: int, b: int| 0 <= a <= b < out@.len() implies
                dist_sq(#[trigger] out@[a], *center) <= dist_sq(#[trigger] out@[b], *center) by {
                if p < m {
                    assert(dist_sq(c, *center) < dist_sq(before[p as int], *center));
                    assert forall|j: int| p <= j < m implies dist_sq(c, *center) < dist_sq(#[trigger] before[j], *center) by {
                        assert(dist_sq(before[p as int], *center) <= dist_sq(before[j], *center));
                    }
                }
                let a2 = if a < p { a } else if a == p { -1 } else { a - 1 };
                let b2 = if b < p { b } else if b == p { -1 } else { b - 1 };
                if a2 >= 0 && b2 >= 0 {
                    assert(out@[a] == before[a2] && out@[b] == before[b2]);
                } else if a2 >= 0 {
                    assert(out@[a] == before[a2]);
                } else if b2 >= 0 {
                    assert(out@[b] == before[b2]);
                }
            }
        }
        i = i + 1;
    }
    assert(v@.take(n as int) =~= v@);
    out
}

/// `v` rounded toward zero after halving, as Rust's `/` does.
pub open spec fn half(v: i64) -> int {
    if v >= 0 { v / 2 } else { -((-v) / 2) }
}

fn half_exec(v: i64) -> (r: i64)
    ensures
        r == half(v),
{
    if v >= 0 {
        v / 2
    } else {
        let m: u64 = (-(v as i128)) as u64;
        -((m / 2) as i64)
    }
}

/// Whether `c` is one of the chunks scanned around `center` with view distance
/// `r`: within `r` of `center` along x and z, within `r` of half of `center`'s
/// height along y, and at a distance below `r`.
pub open spec fn in_scan(center: Coord, r: int, c: Coord) -> bool {
    &&& center[0] - r <= c[0] <= center[0] + r
    &&& half(center[1]) - r <= c[1] <= half(center[1]) + r
    &&& center[2] - r <= c[2] <= center[2] + r
    &&& dist_sq(center, c) < r * r
}

/// Whether the chunk at `c` lies beyond `r + 1` of `center` (its distance
/// rounded down exceeds `r + 1`).
pub open spec fn beyond(center: Coord, r: int, c: Coord) -> bool {
    dist_sq(c, center) >= (r + 2) * (r + 2)
}

/// The chunks around `center` that are in view, from the nearest to the farthest.
pub fn scan_chunks(center: &Coord, r: u16) -> (v: Vec<Coord>)
    requires
        i64::MIN <= center[0] - r && center[0] + r <= i64::MAX,
        i64::MIN <= center[2] - r && center[2] + r <= i64::MAX,
    ensures
        v@.no_duplicates(),
        forall|c: Coord| #[trigger] v@.contains(c) <==> in_scan(*center, r as int, c),
{
    let rr: i64 = r as i64;
    let bound: u128 = square(r as u128);
    let side: u64 = 2 * (r as u64) + 1;
    let x0 = center[0] - rr;
    let y0 = half_exec(center[1]) - rr;
    let z0 = center[2] - rr;
    let mut v: Vec<Coord> = Vec::new();
    let mut i: u64 = 0;
    while i < side
        invariant
            side == 2 * r + 1,
            x0 == center[0] - r,
            y0 == half(center[1]) - r,
            z0 == center[2] - r,
            bound == r * r,
            i <= side,
            i64::MIN <= center[0] - r && center[0] + r <= i64::MAX,
            i64::MIN <= center[2] - r && center[2] + r <= i64::MAX,
            v@.no_duplicates(),
            forall|c: Coord| #[trigger] v@.contains(c) <==> (in_scan(*center, r as int, c) && c[0] < x0 + i),
        decreases side - i,
    {
        let x = x0 + i as i64;
        let mut j: u64 = 0;
        while j < side
            invariant
                side == 2 * r + 1,
                x0 == center[0] - r,
                y0 == half(center[1]) - r,
                z0 == center[2] - r,
                bound == r * r,
                i < side,
                x == x0 + i,
                j <= side,
                i64::MIN <= center[0] - r && center[0] + r <= i64::MAX,
                i64::MIN <= center[2] - r && center[2] + r <= i64::MAX,
                v@.no_duplicates(),
                forall|c: Coord| #[trigger] v@.contains(c) <==> (in_scan(*center, r as int, c)
                    && (c[0] < x || (c[0] == x && c[1] < y0 + j))),
            decreases side - j,
        {
            let y = y0 + j as i64;
            let mut k: u64 = 0;
            while k < side
                invariant
                    side == 2 * r + 1,
                    x0 == center[0] - r,
                    y0 == half(center[1]) - r,
                    z0 == center[2] - r,
                    bound == r * r,
                    i < side,
                    j < side,
                    x == x0 + i,
                    y == y0 + j,
                    k <= side,
                    i64::MIN <= center[0] - r && center[0] + r <= i64::MAX,
                    i64::MIN <= center[2] - r && center[2] + r <= i64::MAX,
                    v@.no_duplicates(),
                    forall|c: Coord| #[trigger] v@.contains(c) <==> (in_scan(*center, r as int, c)
                        && (c[0] < x || (c[0] == x && (c[1] < y || (c[1] == y && c[2] < z0 + k))))),
                decreases side - k,
            {
                let z = z0 + k as i64;
                let c = [x, y, z];
                if dist_sq_below(center, &c, bound) {
                    let ghost before = v@;
                    v.push(c);
                    proof {
                        assert(!before.contains(c));
                        assert forall|a: int, b: int| 0 <= a < b < v@.len() implies v@[a] != v@[b] by {
                            if b == before.len() {
                                assert(before.contains(v@[a]));
                            }
                        }
                        lemma_push_contains(before, c);
                        assert forall|d: Coord| #[trigger] v@.contains(d) <==> (in_scan(*center, r as int, d)
                            && (d[0] < x || (d[0] == x && (d[1] < y || (d[1] == y && d[2] < z0 + k + 1))))) by {
                            if d[0] == x && d[1] == y && d[2] == z {
                                assert(d =~= c);
                            }
                        }
                    }
                } else {
                    proof {
                        assert forall|d: Coord| #[trigger] v@.contains(d) <==> (in_scan(*center, r as int, d)
                            && (d[0] < x || (d[0] == x && (d[1] < y || (d[1] == y && d[2] < z0 + k + 1))))) by {
                            if d[0] == x && d[1] == y && d[2] == z {
                                assert(d =~= c);
                            }
                        }
                    }
                }
                k = k + 1;
            }
            j = j + 1;
        }
        i = i + 1;
    }
    v
}

/// Whether `a` comes before `b` in the order of coordinates: by x, then by y,
/// then by z.
pub open spec fn coord_lt(a: Coord, b: Coord) -> bool {
    a[0] < b[0] || (a[0] == b[0] && (a[1] < b[1] || (a[1] == b[1] && a[2] < b[2])))
}

/// Whether `s` runs in strictly ascending order of coordinates.
pub open spec fn ascending(s: Seq<Coord>) -> bool {
    forall|i: int, j: int| 0 <= i < j < s.len() ==> coord_lt(#[trigger] s[i], #[trigger] s[j])
}

/// Whether `s` lists the coordinates of `m`, each once, in ascending order.
pub open spec fn lists_ascending(s: Seq<Coord>, m: Set<Coord>) -> bool {
    &&& ascending(s)
    &&& forall|c: Coord| #[trigger] s.contains(c) <==> m.contains(c)
}

/// The coordinates of `m` that lie beyond `r + 1` of `center`.
pub open spec fn far_of(m: Set<Coord>, center: Coord, r: int) -> Set<Coord> {
    Set::new(|c: Coord| m.contains(c) && beyond(center, r, c))
}

/// Whether `a` comes before `b`.
fn coord_less(a: &Coord, b: &Coord) -> (r: bool)
    ensures
        r == coord_lt(*a, *b),
{
    a[0] < b[0] || (a[0] == b[0] && (a[1] < b[1] || (a[1] == b[1] && a[2] < b[2])))
}

/// Of two coordinates, one comes first unless they are the same.
proof fn lemma_coord_order(a: Coord, b: Coord)
    ensures
        a == b || coord_lt(a, b) || coord_lt(b, a),
        !(coord_lt(a, b) && coord_lt(b, a)),
        !coord_lt(a, a),
{
    if a[0] == b[0] && a[1] == b[1] && a[2] == b[2] {
        assert(a =~= b);
    }
}

/// The coordinates of `v`, each once, in ascending order.
pub fn ascending_set(v: &Vec<Coord>) -> (r: Vec<Coord>)
    ensures
        ascending(r@),
        forall|c: Coord| #[trigger] r@.contains(c) <==> v@.contains(c),
{
    let mut out: Vec<Coord> = Vec::new();
    let n = v.len();
    let mut i: usize = 0;
    while i < n
        invariant
            n == v@.len(),
            i <= n,
            ascending(out@),
            forall|c: Coord| #[trigger] out@.contains(c) <==> v@.take(i as int).contains(c),
        decreases n - i,
    {
        let c = v[i];
        let ghost pre = v@.take(i as int);
        assert(v@.take(i + 1) =~= pre.push(c));
        proof { lemma_push_contains(pre, c); }
        let m = out.len();
        let mut p: usize = 0;
        while p < m && coord_less(&out[p], &c)
            invariant
                m == out@.len(),
                p <= m,
                forall|j: int| 0 <= j < p ==> coord_lt(#[trigger] out@[j], c),
            decreases m - p,
        {
            p = p + 1;
        }
        if p < m && coord_eq(&out[p], &c) {
            assert(out@[p as int] == c);
        } else {
            let ghost before = out@;
            out.insert(p, c);
            proof {
                assert(out@ =~= before.insert(p as int, c));
                lemma_insert_contains(before, p as int, c);
                if p < m {
                    lemma_coord_order(before[p as int], c);
                }
                assert forall|a: int, b: int| 0 <= a < b < out@.len() implies
                    coord_lt(#[trigger] out@[a], #[trigger] out@[b]) by {
                    if b < p {
                        assert(out@[a] == before[a] && out@[b] == before[b]);
                    } else if b == p {
                        assert(out@[a] == before[a] && out@[b] == c);
                    } else if a < p {
                        assert(out@[a] == before[a] && out@[b] == before[b - 1]);
                    } else if a == p {
                        assert(out@[a] == c && out@[b] == before[b - 1]);
                        if b - 1 > p {
                            assert(coord_lt(before[p as int], before[b - 1]));
                        }
                    } else {
                        assert(out@[a] == before[a - 1] && out@[b] == before[b - 1]);
                    }
                }
            }
        }
        i = i + 1;
    }
    assert(v@.take(n as int) =~= v@);
    out
}

/// What a user's connection took from its chunk channels in one cycle: chunks
/// to load, changes to send, and changes to send at once.
#[derive(Debug)]
pub struct Received {
    pub loads: Vec<Chunk>,
    pub updates: Vec<ChunkDelta>,
    pub urgent: Vec<ChunkDelta>,
    pub loads_taken: u64,
    pub updates_taken: u64,
}

impl Received {
    /// Nothing taken yet.
    pub fn new() -> (r: Received)
        ensures
            r.loads@ == Seq::<Chunk>::empty(),
            r.updates@ == Seq::<ChunkDelta>::empty(),
            r.urgent@ == Seq::<ChunkDelta>::empty(),
            r.loads_count() == 0,
            r.updates_count() == 0,
    {
        Received { loads: Vec::new(), updates: Vec::new(), urgent: Vec::new(), loads_taken: 0, updates_taken: 0 }
    }

    /// How many chunks were kept to load.
    pub open spec fn loads_count(&self) -> nat {
        self.loads_taken as nat
    }

    /// How many changes were kept, at once or not.
    pub open spec fn updates_count(&self) -> nat {
        self.updates_taken as nat
    }
}

/// The chunk loading state of one user.
pub struct ChunkLoader {
    last_load_pos: Coord,
    chunk_load_sender: PrioritySender<Chunk>,
    chunk_load_receiver: TakingReceiver<Chunk>,
    chunk_update_sender: PrioritySender<ChunkDelta>,
    chunk_update_receiver: TakingReceiver<ChunkDelta>,
    chunks: CoordMap<()>,
    leftover: CoordMap<()>,
    chunk_pos: Coord,
    moved: bool,
    chunk_load_queque: Vec<Coord>,
    render_distance: u16,
    chunks_per_cycle: u16,
}

impl ChunkLoader {
    /// The chunks the user holds.
    pub closed spec fn loaded(&self) -> Set<Coord> {
        self.chunks@.dom()
    }

    /// The chunks whose changes the user received.
    pub closed spec fn updated(&self) -> Set<Coord> {
        self.leftover@.dom()
    }

    /// The chunks waiting to be asked for, in the order they will be.
    pub closed spec fn queue(&self) -> Seq<Coord> {
        self.chunk_load_queque@
    }

    /// The chunk the user stands in.
    pub closed spec fn pos(&self) -> Coord {
        self.chunk_pos
    }

    /// The chunk where chunks were last loaded around.
    pub closed spec fn last_load(&self) -> Coord {
        self.last_load_pos
    }

    /// Whether chunks are to be loaded around a new position.
    pub closed spec fn is_moved(&self) -> bool {
        self.moved
    }

    /// Every chunk taken from the channel of chunks to load, in the order taken.
    pub closed spec fn loads_taken(&self) -> Seq<(Chunk, bool)> {
        self.chunk_load_receiver.taken()
    }

    /// Every change taken from the channel of changes, in the order taken.
    pub closed spec fn updates_taken(&self) -> Seq<(ChunkDelta, bool)> {
        self.chunk_update_receiver.taken()
    }

    /// The view distance, in chunks.
    pub closed spec fn view_distance(&self) -> int {
        self.render_distance as int
    }

    /// How many chunks are asked for per cycle.
    pub closed spec fn per_cycle(&self) -> int {
        self.chunks_per_cycle as int
    }

    /// No chunk waits twice.
    pub open spec fn wf(&self) -> bool {
        self.queue().no_duplicates()
    }

    /// The view distance and the chunks asked for per cycle are what a `u16` holds.
    pub proof fn lemma_limits(&self)
        ensures
            0 <= self.view_distance() <= u16::MAX,
            0 <= self.per_cycle() <= u16::MAX,
    {
    }

    /// A loader that holds nothing, for a user standing at the origin, which has
    /// to load around it.
    pub fn new(render_distance: u16, chunks_per_cycle: u16) -> (r: ChunkLoader)
        ensures
            r.wf(),
            r.loaded() == Set::<Coord>::empty(),
            r.updated() == Set::<Coord>::empty(),
            r.queue() == Seq::<Coord>::empty(),
            r.pos() == [0i64, 0, 0],
            r.last_load() == [0i64, 0, 0],
            r.is_moved(),
            r.view_distance() == render_distance,
            r.per_cycle() == chunks_per_cycle,
    {
        let (chunk_load_sender, chunk_load_receiver) = channel(None);
        let (chunk_update_sender, chunk_update_receiver) = channel(None);
        let r = ChunkLoader {
            last_load_pos: [0, 0, 0],
            chunk_load_sender,
            chunk_load_receiver: TakingReceiver::new(chunk_load_receiver),
            chunk_update_sender,
            chunk_update_receiver: TakingReceiver::new(chunk_update_receiver),
            chunks: CoordMap::new(),
            leftover: CoordMap::new(),
            chunk_pos: [0, 0, 0],
            moved: true,
            chunk_load_queque: Vec::new(),
            render_distance,
            chunks_per_cycle,
        };
        assert(r.loaded() =~= Set::<Coord>::empty());
        assert(r.updated() =~= Set::<Coord>::empty());
        r
    }

    /// Sets where chunks are loaded around: one chunk above the chunk of the world
    /// position `coord`.
    pub fn set_player_pos(&mut self, coord: [i64; 3])
        ensures
            final(self).last_load() == [chunk_key(coord)[0], (chunk_key(coord)[1] + 1) as i64, chunk_key(coord)[2]],
            final(self).loaded() == old(self).loaded(),
            final(self).updated() == old(self).updated(),
            final(self).queue() == old(self).queue(),
            final(self).pos() == old(self).pos(),
            final(self).is_moved() == old(self).is_moved(),
            final(self).view_distance() == old(self).view_distance(),
            final(self).per_cycle() == old(self).per_cycle(),
    {
        let (mut key, _) = get_chunk_coords(&coord);
        key[1] = key[1] + 1;
        self.last_load_pos = key;
    }

    /// Moves the user to the world position `coord`; where its chunk differs from
    /// the one last loaded around (it lies at a distance of at least 1), chunks
    /// are to be loaded around it.
    pub fn update_position(&mut self, coord: [i64; 3])
        ensures
            final(self).pos() == chunk_key(coord),
            final(self).last_load() == chunk_key(coord),
            final(self).is_moved() == (old(self).is_moved() || chunk_key(coord) != old(self).last_load()),
            final(self).loaded() == old(self).loaded(),
            final(self).updated() == old(self).updated(),
            final(self).queue() == old(self).queue(),
            final(self).view_distance() == old(self).view_distance(),
            final(self).per_cycle() == old(self).per_cycle(),
    {
        let (key, _) = get_chunk_coords(&coord);
        self.chunk_pos = key;
        if !coord_eq(&key, &self.last_load_pos) {
            self.moved = true;
            self.last_load_pos = key;
        }
    }

    /// Where the user moved: adds each chunk in view that the user neither holds
    /// nor waits for to the chunks waiting, and orders them from the nearest.
    /// Returns the chunks whose changes the user is to be sent (every chunk in
    /// view, from the nearest), for the register; `None` where the user did not
    /// move, or where no chunk is in view and none waits.
    pub fn calculate_chunks(&mut self) -> (r: Option<Vec<Coord>>)
        requires
            old(self).wf(),
            i64::MIN <= old(self).pos()[0] - old(self).view_distance() && old(self).pos()[0] + old(self).view_distance() <= i64::MAX,
            i64::MIN <= old(self).pos()[2] - old(self).view_distance() && old(self).pos()[2] + old(self).view_distance() <= i64::MAX,
        ensures
            final(self).wf(),
            !old(self).is_moved() ==> r is None && *final(self) == *old(self),
            old(self).is_moved() ==> {
                &&& sorted_by_distance(final(self).queue(), old(self).pos())
                &&& forall|c: Coord| #[trigger] final(self).queue().contains(c) <==> (old(self).queue().contains(c)
                    || (in_scan(old(self).pos(), old(self).view_distance(), c) && !old(self).loaded().contains(c)))
                &&& r is None ==> final(self).queue().len() == 0
                &&& r is None ==> forall|c: Coord| !#[trigger] in_scan(old(self).pos(), old(self).view_distance(), c)
                &&& (final(self).queue().len() == 0
                    && forall|c: Coord| !#[trigger] in_scan(old(self).pos(), old(self).view_distance(), c)) ==> r is None
                &&& r matches Some(v) ==> {
                    &&& sorted_by_distance(v@, old(self).pos())
                    &&& v@.no_duplicates()
                    &&& forall|c: Coord| #[trigger] v@.contains(c) <==> in_scan(old(self).pos(), old(self).view_distance(), c)
                }
            },
            final(self).loaded() == old(self).loaded(),
            final(self).updated() == old(self).updated(),
            final(self).pos() == old(self).pos(),
            final(self).last_load() == old(self).last_load(),
            final(self).is_moved() == old(self).is_moved(),
            final(self).view_distance() == old(self).view_distance(),
            final(self).per_cycle() == old(self).per_cycle(),
    {
        if !self.moved {
            return None;
        }
        let scanned = scan_chunks(&self.chunk_pos, self.render_distance);
        let ghost q0 = self.chunk_load_queque@;
        let n = scanned.len();
        let mut i: usize = 0;
        while i < n
            invariant
                n == scanned@.len(),
                i <= n,
                self.chunk_load_queque@.no_duplicates(),
                forall|c: Coord| #[trigger] self.chunk_load_queque@.contains(c) <==> (q0.contains(c)
                    || (scanned@.take(i as int).contains(c) && !self.chunks@.dom().contains(c))),
                self.chunks@ == old(self).chunks@,
                self.leftover@ == old(self).leftover@,
                self.chunk_pos == old(self).chunk_pos,
                self.last_load_pos == old(self).last_load_pos,
                self.moved == old(self).is_moved(),
                self.render_distance == old(self).render_distance,
                self.chunks_per_cycle == old(self).chunks_per_cycle,
                q0 == old(self).chunk_load_queque@,
            decreases n - i,
        {
            let c = scanned[i];
            let ghost pre = scanned@.take(i as int);
            assert(scanned@.take(i + 1) =~= pre.push(c));
            proof { lemma_push_contains(pre, c); }
            if !self.chunks.contains_key(&c) && !coord_listed(&self.chunk_load_queque, &c) {
                let ghost before = self.chunk_load_queque@;
                self.chunk_load_queque.push(c);
                proof {
                    assert forall|a: int, b: int| 0 <= a < self.chunk_load_queque@.len() && 0 <= b < self.chunk_load_queque@.len()
                        && a != b implies self.chunk_load_queque@[a] != self.chunk_load_queque@[b] by {
                        if a == before.len() {
                            assert(before.contains(self.chunk_load_queque@[b]));
                        } else if b == before.len() {
                            assert(before.contains(self.chunk_load_queque@[a]));
                        }
                    }
                    lemma_push_contains(before, c);
                }
            }
            i = i + 1;
        }
        assert(scanned@.take(n as int) =~= scanned@);
        let update_coords = sort_by_distance(&scanned, &self.chunk_pos);
        let ghost unsorted = self.chunk_load_queque@;
        self.chunk_load_queque = sort_by_distance(&self.chunk_load_queque, &self.chunk_pos);
        proof {
            assert forall|c: Coord| #[trigger] self.chunk_load_queque@.contains(c) <==> unsorted.contains(c) by {
                broadcast use vstd::seq_lib::group_to_multiset_ensures;
                assert(self.chunk_load_queque@.to_multiset().count(c) == unsorted.to_multiset().count(c));
            }
            lemma_perm_no_duplicates(unsorted, self.chunk_load_queque@);
            assert forall|c: Coord| #[trigger] update_coords@.contains(c) <==> scanned@.contains(c) by {
                broadcast use vstd::seq_lib::group_to_multiset_ensures;
                assert(update_coords@.to_multiset().count(c) == scanned@.to_multiset().count(c));
            }
            lemma_perm_no_duplicates(scanned@, update_coords@);
            if update_coords@.len() > 0 {
                assert(update_coords@.contains(update_coords@[0]));
                assert(scanned@.contains(update_coords@[0]));
                assert(in_scan(self.chunk_pos, self.render_distance as int, update_coords@[0]));
            } else {
                assert forall|c: Coord| !#[trigger] in_scan(old(self).pos(), old(self).view_distance(), c) by {
                    assert(!update_coords@.contains(c));
                    assert(scanned@.contains(c) <==> in_scan(self.chunk_pos, self.render_distance as int, c));
                }
            }
        }
        if self.chunk_load_queque.len() > 0 || update_coords.len() > 0 {
            Some(update_coords)
        } else {
            None
        }
    }

    /// Takes the first of the chunks waiting, at most as many as are asked for
    /// per cycle, to be asked for from the register; they wait no more. `None`
    /// where no chunk waits.
    pub fn request_chunks(&mut self) -> (r: Option<Vec<Coord>>)
        requires
            old(self).wf(),
        ensures
            final(self).wf(),
            r is Some <==> old(self).queue().len() > 0,
            r matches Some(v) ==> v@ == old(self).queue().take(
                if old(self).queue().len() > old(self).per_cycle() { old(self).per_cycle() } else { old(self).queue().len() as int }),
            final(self).queue() == old(self).queue().skip(
                if old(self).queue().len() > old(self).per_cycle() { old(self).per_cycle() } else { old(self).queue().len() as int }),
            final(self).loaded() == old(self).loaded(),
            final(self).updated() == old(self).updated(),
            final(self).pos() == old(self).pos(),
            final(self).last_load() == old(self).last_load(),
            final(self).is_moved() == old(self).is_moved(),
            final(self).view_distance() == old(self).view_distance(),
            final(self).per_cycle() == old(self).per_cycle(),
    {
        let n = self.chunk_load_queque.len();
        if n == 0 {
            assert(self.chunk_load_queque@.skip(0) =~= self.chunk_load_queque@);
            return None;
        }
        let amount: usize = self.chunks_per_cycle as usize;
        let k: usize = if n > amount { amount } else { n };
        let mut coords: Vec<Coord> = Vec::new();
        let mut rest: Vec<Coord> = Vec::new();
        let mut i: usize = 0;
        while i < n
            invariant
                n == self.chunk_load_queque@.len(),
                k <= n,
                i <= n,
                coords@ == self.chunk_load_queque@.take(if i < k { i as int } else { k as int }),
                rest@ == self.chunk_load_queque@.subrange(k as int, if i < k { k as int } else { i as int }),
            decreases n - i,
        {
            if i < k {
                coords.push(self.chunk_load_queque[i]);
                assert(coords@ =~= self.chunk_load_queque@.take(i + 1));
            } else {
                rest.push(self.chunk_load_queque[i]);
                assert(rest@ =~= self.chunk_load_queque@.subrange(k as int, i + 1));
            }
            i = i + 1;
        }
        let ghost q = self.chunk_load_queque@;
        assert(rest@ =~= q.skip(k as int));
        self.chunk_load_queque = rest;
        proof {
            assert forall|a: int, b: int| 0 <= a < rest@.len() && 0 <= b < rest@.len() && a != b
                implies rest@[a] != rest@[b] by {
                assert(rest@[a] == q[a + k] && rest@[b] == q[b + k]);
            }
        }
        Some(coords)
    }

    /// Where the user moved: lets go of each held chunk, and of each chunk whose
    /// changes it received, that lies beyond the view distance plus one. Returns
    /// the chunks let go, to be told to the register and to the user: the held
    /// ones in ascending order, then the updated ones in ascending order (a chunk
    /// both held and updated is listed in both parts). Nothing where the user did
    /// not move.
    pub fn unload(&mut self) -> (r: Vec<Coord>)
        ensures
            !old(self).is_moved() ==> r@ == Seq::<Coord>::empty() && *final(self) == *old(self),
            old(self).is_moved() ==> forall|c: Coord| #[trigger] final(self).loaded().contains(c)
                <==> (old(self).loaded().contains(c) && !beyond(old(self).pos(), old(self).view_distance(), c)),
            old(self).is_moved() ==> exists|k: int| 0 <= k <= r@.len()
                && lists_ascending(#[trigger] r@.take(k), far_of(old(self).loaded(), old(self).pos(), old(self).view_distance()))
                && lists_ascending(r@.skip(k), far_of(old(self).updated(), old(self).pos(), old(self).view_distance())),
            final(self).updated() == old(self).updated(),
            final(self).queue() == old(self).queue(),
            final(self).pos() == old(self).pos(),
            final(self).last_load() == old(self).last_load(),
            final(self).is_moved() == old(self).is_moved(),
            final(self).view_distance() == old(self).view_distance(),
            final(self).per_cycle() == old(self).per_cycle(),
            old(self).wf() ==> final(self).wf(),
    {
        let mut far_held: Vec<Coord> = Vec::new();
        if !self.moved {
            return far_held;
        }
        let r2 = square(self.render_distance as u128 + 2);
        let held = self.chunks.keys();
        let ghost loaded0 = self.chunks@.dom();
        let n = held.len();
        let mut i: usize = 0;
        while i < n
            invariant
                n == held@.len(),
                i <= n,
                r2 == (self.render_distance + 2) * (self.render_distance + 2),
                forall|j: int| 0 <= j < n ==> loaded0.contains(#[trigger] held@[j]),
                forall|c: Coord| #[trigger] loaded0.contains(c) ==> held@.contains(c),
                forall|c: Coord| #[trigger] self.chunks@.dom().contains(c) <==> (loaded0.contains(c)
                    && !(held@.take(i as int).contains(c) && beyond(self.chunk_pos, self.render_distance as int, c))),
                forall|c: Coord| #[trigger] far_held@.contains(c) <==> (held@.take(i as int).contains(c)
                    && beyond(self.chunk_pos, self.render_distance as int, c)),
                loaded0 == old(self).chunks@.dom(),
                self.leftover@ == old(self).leftover@,
                self.chunk_load_queque@ == old(self).chunk_load_queque@,
                self.chunk_pos == old(self).chunk_pos,
                self.last_load_pos == old(self).last_load_pos,
                self.moved == old(self).is_moved(),
                self.render_distance == old(self).render_distance,
                self.chunks_per_cycle == old(self).chunks_per_cycle,
            decreases n - i,
        {
            let c = held[i];
            let ghost pre = held@.take(i as int);
            assert(held@.take(i + 1) =~= pre.push(c));
            proof { lemma_push_contains(pre, c); }
            let far = !dist_sq_below(&c, &self.chunk_pos, r2);
            if far {
                self.chunks.remove(&c);
                let ghost before = far_held@;
                far_held.push(c);
                proof {
                    lemma_push_contains(before, c);
                }
            }
            i = i + 1;
        }
        assert(held@.take(n as int) =~= held@);
        let mut far_updated: Vec<Coord> = Vec::new();
        let updated = self.leftover.keys();
        let m = updated.len();
        let mut j: usize = 0;
        while j < m
            invariant
                m == updated@.len(),
                j <= m,
                r2 == (self.render_distance + 2) * (self.render_distance + 2),
                forall|q: int| 0 <= q < m ==> self.leftover@.dom().contains(#[trigger] updated@[q]),
                forall|c: Coord| #[trigger] self.leftover@.dom().contains(c) ==> updated@.contains(c),
                forall|c: Coord| #[trigger] self.chunks@.dom().contains(c) <==> (loaded0.contains(c)
                    && !beyond(self.chunk_pos, self.render_distance as int, c)),
                forall|c: Coord| #[trigger] far_updated@.contains(c) <==> (updated@.take(j as int).contains(c)
                    && beyond(self.chunk_pos, self.render_distance as int, c)),
                loaded0 == old(self).chunks@.dom(),
                self.leftover@ == old(self).leftover@,
                self.chunk_load_queque@ == old(self).chunk_load_queque@,
                self.chunk_pos == old(self).chunk_pos,
                self.last_load_pos == old(self).last_load_pos,
                self.moved == old(self).is_moved(),
                self.render_distance == old(self).render_distance,
                self.chunks_per_cycle == old(self).chunks_per_cycle,
            decreases m - j,
        {
            let c = updated[j];
            let ghost pre = updated@.take(j as int);
            assert(updated@.take(j + 1) =~= pre.push(c));
            proof { lemma_push_contains(pre, c); }
            let far = !dist_sq_below(&c, &self.chunk_pos, r2);
            if far {
                self.chunks.remove(&c);
                let ghost before = far_updated@;
                far_updated.push(c);
                proof {
                    lemma_push_contains(before, c);
                }
            }
            j = j + 1;
        }
        assert(updated@.take(m as int) =~= updated@);
        let mut first = ascending_set(&far_held);
        let mut second = ascending_set(&far_updated);
        let ghost a = first@;
        let ghost b = second@;
        first.append(&mut second);
        proof {
            let far_l = far_of(old(self).loaded(), old(self).pos(), old(self).view_distance());
            let far_u = far_of(old(self).updated(), old(self).pos(), old(self).view_distance());
            let k = a.len() as int;
            assert(first@.take(k) =~= a);
            assert(first@.skip(k) =~= b);
            assert forall|c: Coord| #[trigger] a.contains(c) <==> far_l.contains(c) by {
                assert(far_held@.contains(c) <==> far_l.contains(c));
            }
            assert forall|c: Coord| #[trigger] b.contains(c) <==> far_u.contains(c) by {
                assert(far_updated@.contains(c) <==> far_u.contains(c));
            }
            assert(lists_ascending(first@.take(k), far_l));
            assert(lists_ascending(first@.skip(k), far_u));
        }
        first
    }

    /// Takes a chunk sent to load: one in view (at a distance below the view
    /// distance) is now held and kept to be sent to the user, one beyond is
    /// dropped. Answers whether more chunks may be taken in this cycle.
    pub fn take_load(&mut self, chunk: Chunk, got: &mut Received) -> (more: bool)
        requires
            old(got).loads_count() < u64::MAX,
        ensures
            dist_sq(old(self).pos(), chunk.coord) < old(self).view_distance() * old(self).view_distance() ==> {
                &&& final(self).loaded() == old(self).loaded().insert(chunk.coord)
                &&& final(got).loads@ == old(got).loads@.push(chunk)
                &&& final(got).loads_count() == old(got).loads_count() + 1
                &&& more == (final(got).loads_count() <= old(self).per_cycle() / 2)
            },
            !(dist_sq(old(self).pos(), chunk.coord) < old(self).view_distance() * old(self).view_distance()) ==> {
                &&& final(self).loaded() == old(self).loaded()
                &&& final(got).loads@ == old(got).loads@
                &&& final(got).loads_count() == old(got).loads_count()
                &&& more
            },
            final(got).updates@ == old(got).updates@,
            final(got).urgent@ == old(got).urgent@,
            final(got).updates_count() == old(got).updates_count(),
            final(self).updated() == old(self).updated(),
            final(self).queue() == old(self).queue(),
            final(self).pos() == old(self).pos(),
            final(self).last_load() == old(self).last_load(),
            final(self).is_moved() == old(self).is_moved(),
            final(self).view_distance() == old(self).view_distance(),
            final(self).per_cycle() == old(self).per_cycle(),
            final(self).loads_taken() == old(self).loads_taken(),
            final(self).updates_taken() == old(self).updates_taken(),
    {
        let bound = square(self.render_distance as u128);
        if dist_sq_below(&self.chunk_pos, &chunk.coord, bound) {
            self.chunks.insert(chunk.coord, ());
            assert(self.chunks@.dom() =~= old(self).chunks@.dom().insert(chunk.coord));
            got.loads.push(chunk);
            got.loads_taken = got.loads_taken + 1;
            got.loads_taken <= (self.chunks_per_cycle / 2) as u64
        } else {
            true
        }
    }

    /// Takes a change sent for a chunk: one in view (at a distance below the view
    /// distance) marks the chunk as updated and is kept to be sent to the user, at
    /// once where it was sent as important; one beyond is dropped. Answers whether
    /// more changes may be taken in this cycle.
    pub fn take_update(&mut self, delta: ChunkDelta, important: bool, got: &mut Received) -> (more: bool)
        requires
            old(got).updates_count() < u64::MAX,
        ensures
            dist_sq(old(self).pos(), delta.0) < old(self).view_distance() * old(self).view_distance() ==> {
                &&& final(self).updated() == old(self).updated().insert(delta.0)
                &&& important ==> final(got).urgent@ == old(got).urgent@.push(delta) && final(got).updates@ == old(got).updates@
                &&& !important ==> final(got).updates@ == old(got).updates@.push(delta) && final(got).urgent@ == old(got).urgent@
                &&& final(got).updates_count() == old(got).updates_count() + 1
                &&& more == (final(got).updates_count() <= old(self).per_cycle() / 2)
            },
            !(dist_sq(old(self).pos(), delta.0) < old(self).view_distance() * old(self).view_distance()) ==> {
                &&& final(self).updated() == old(self).updated()
                &&& final(got).updates@ == old(got).updates@
                &&& final(got).urgent@ == old(got).urgent@
                &&& final(got).updates_count() == old(got).updates_count()
                &&& more
            },
            final(got).loads@ == old(got).loads@,
            final(got).loads_count() == old(got).loads_count(),
            final(self).loaded() == old(self).loaded(),
            final(self).queue() == old(self).queue(),
            final(self).pos() == old(self).pos(),
            final(self).last_load() == old(self).last_load(),
            final(self).is_moved() == old(self).is_moved(),
            final(self).view_distance() == old(self).view_distance(),
            final(self).per_cycle() == old(self).per_cycle(),
            final(self).loads_taken() == old(self).loads_taken(),
            final(self).updates_taken() == old(self).updates_taken(),
    {
        let bound = square(self.render_distance as u128);
        if dist_sq_below(&self.chunk_pos, &delta.0, bound) {
            self.leftover.insert(delta.0, ());
            assert(self.leftover@.dom() =~= old(self).leftover@.dom().insert(delta.0));
            if important {
                got.urgent.push(delta);
            } else {
                got.updates.push(delta);
            }
            got.updates_taken = got.updates_taken + 1;
            got.updates_taken <= (self.chunks_per_cycle / 2) as u64
        } else {
            true
        }
    }

    /// Whether chunks are to be loaded around a new position.
    pub fn moved(&self) -> (r: bool)
        ensures
            r == self.is_moved(),
    {
        self.moved
    }

    /// Sets whether chunks are to be loaded around a new position.
    pub fn set_moved(&mut self, moved: bool)
        ensures
            final(self).is_moved() == moved,
            final(self).loaded() == old(self).loaded(),
            final(self).updated() == old(self).updated(),
            final(self).queue() == old(self).queue(),
            final(self).pos() == old(self).pos(),
            final(self).last_load() == old(self).last_load(),
            final(self).view_distance() == old(self).view_distance(),
            final(self).per_cycle() == old(self).per_cycle(),
            old(self).wf() ==> final(self).wf(),
    {
        self.moved = moved;
    }

    /// The sender on which chunks to load reach the user.
    pub closed spec fn load_channel(&self) -> PrioritySender<Chunk> {
        self.chunk_load_sender
    }

    /// The sender on which chunk changes reach the user.
    pub closed spec fn update_channel(&self) -> PrioritySender<ChunkDelta> {
        self.chunk_update_sender
    }

    /// The sender to hand the register with the chunks asked for.
    pub fn load_sender(&self) -> (r: &PrioritySender<Chunk>)
        ensures
            *r == self.load_channel(),
    {
        &self.chunk_load_sender
    }

    /// The sender to hand the register with the chunks whose changes are wanted.
    pub fn update_sender(&self) -> (r: &PrioritySender<ChunkDelta>)
        ensures
            *r == self.update_channel(),
    {
        &self.chunk_update_sender
    }

    /// Takes what the chunk channels hold in this cycle, as `take_load` and
    /// `take_update` keep it: chunks to load until more than half the chunks asked
    /// for per cycle were kept or none waits, then changes likewise. Every chunk
    /// and change taken is returned, unless it lies out of view; nothing is taken
    /// once the limit is passed.
    pub fn receive(&mut self) -> (got: Received)
        ensures
            got.loads@.len() == got.loads_count(),
            got.loads_count() <= old(self).per_cycle() / 2 + 1,
            got.updates@.len() + got.urgent@.len() == got.updates_count(),
            got.updates_count() <= old(self).per_cycle() / 2 + 1,
            forall|i: int| 0 <= i < got.loads@.len() ==> dist_sq(old(self).pos(), #[trigger] got.loads@[i].coord)
                < old(self).view_distance() * old(self).view_distance(),
            forall|i: int| 0 <= i < got.updates@.len() ==> dist_sq(old(self).pos(), (#[trigger] got.updates@[i]).0)
                < old(self).view_distance() * old(self).view_distance(),
            forall|i: int| 0 <= i < got.urgent@.len() ==> dist_sq(old(self).pos(), (#[trigger] got.urgent@[i]).0)
                < old(self).view_distance() * old(self).view_distance(),
            final(self).loads_taken().len() >= old(self).loads_taken().len(),
            final(self).loads_taken().take(old(self).loads_taken().len() as int) == old(self).loads_taken(),
            got.loads@ == chunks_in_view(final(self).loads_taken().skip(old(self).loads_taken().len() as int),
                old(self).pos(), old(self).view_distance()),
            final(self).loads_taken().len() > old(self).loads_taken().len() ==> chunks_in_view(
                final(self).loads_taken().skip(old(self).loads_taken().len() as int).drop_last(),
                old(self).pos(), old(self).view_distance()).len() <= old(self).per_cycle() / 2,
            final(self).updates_taken().len() >= old(self).updates_taken().len(),
            final(self).updates_taken().take(old(self).updates_taken().len() as int) == old(self).updates_taken(),
            got.urgent@ == changes_in_view(final(self).updates_taken().skip(old(self).updates_taken().len() as int),
                old(self).pos(), old(self).view_distance(), true),
            got.updates@ == changes_in_view(final(self).updates_taken().skip(old(self).updates_taken().len() as int),
                old(self).pos(), old(self).view_distance(), false),
            final(self).updates_taken().len() > old(self).updates_taken().len() ==> {
                let before_last = final(self).updates_taken().skip(old(self).updates_taken().len() as int).drop_last();
                changes_in_view(before_last, old(self).pos(), old(self).view_distance(), true).len()
                    + changes_in_view(before_last, old(self).pos(), old(self).view_distance(), false).len()
                    <= old(self).per_cycle() / 2
            },
            final(self).loaded() == old(self).loaded().union(chunk_coords(got.loads@)),
            final(self).updated() == old(self).updated().union(delta_coords(got.updates@)).union(delta_coords(got.urgent@)),
            final(self).queue() == old(self).queue(),
            final(self).pos() == old(self).pos(),
            final(self).last_load() == old(self).last_load(),
            final(self).is_moved() == old(self).is_moved(),
            final(self).view_distance() == old(self).view_distance(),
            final(self).per_cycle() == old(self).per_cycle(),
    {
        let mut got = Received::new();
        let ghost l0 = self.loads_taken().len() as int;
        let ghost u0 = self.updates_taken().len() as int;
        proof {
            assert(chunk_coords(got.loads@) =~= Set::<Coord>::empty());
            assert(delta_coords(got.updates@) =~= Set::<Coord>::empty());
            assert(delta_coords(got.urgent@) =~= Set::<Coord>::empty());
            assert(self.loaded().union(Set::<Coord>::empty()) =~= self.loaded());
            assert(self.updated().union(Set::<Coord>::empty()).union(Set::<Coord>::empty()) =~= self.updated());
            assert(self.loads_taken().skip(l0) =~= Seq::<(Chunk, bool)>::empty());
            assert(self.updates_taken().skip(u0) =~= Seq::<(ChunkDelta, bool)>::empty());
            assert(self.loads_taken().take(l0) =~= self.loads_taken());
            assert(self.updates_taken().take(u0) =~= self.updates_taken());
        }
        // At most `u64::MAX` attempts are made: no channel holds that many messages.
        let mut attempts: u64 = 0;
        while attempts < u64::MAX
            invariant_except_break
                got.loads_count() <= self.per_cycle() / 2,
            invariant
                got.loads@.len() == got.loads_count(),
                got.loads_count() <= self.per_cycle() / 2 + 1,
                got.updates@.len() == 0,
                got.urgent@.len() == 0,
                got.updates_count() == 0,
                forall|i: int| 0 <= i < got.loads@.len() ==> dist_sq(old(self).pos(), #[trigger] got.loads@[i].coord)
                    < old(self).view_distance() * old(self).view_distance(),
                self.loaded() == old(self).loaded().union(chunk_coords(got.loads@)),
                self.updated() == old(self).updated(),
                self.queue() == old(self).queue(),
                self.pos() == old(self).pos(),
                self.last_load() == old(self).last_load(),
                self.is_moved() == old(self).is_moved(),
                self.view_distance() == old(self).view_distance(),
                self.per_cycle() == old(self).per_cycle(),
                0 <= self.per_cycle() <= u16::MAX,
                l0 == old(self).loads_taken().len(),
                u0 == old(self).updates_taken().len(),
                self.updates_taken() == old(self).updates_taken(),
                self.loads_taken().len() >= l0,
                self.loads_taken().take(l0) == old(self).loads_taken(),
                got.loads@ == chunks_in_view(self.loads_taken().skip(l0), old(self).pos(), old(self).view_distance()),
                self.loads_taken().len() > l0 ==> chunks_in_view(self.loads_taken().skip(l0).drop_last(),
                    old(self).pos(), old(self).view_distance()).len() <= self.per_cycle() / 2,
            ensures
                got.loads@.len() == got.loads_count(),
                got.loads_count() <= self.per_cycle() / 2 + 1,
                self.loads_taken().len() > l0 ==> chunks_in_view(self.loads_taken().skip(l0).drop_last(),
                    old(self).pos(), old(self).view_distance()).len() <= self.per_cycle() / 2,
            decreases u64::MAX - attempts,
        {
            attempts = attempts + 1;
            let ghost t0 = self.loads_taken();
            let chunk = match self.try_recv_load() {
                Some(c) => c,
                None => break,
            };
            let ghost s0 = got.loads@;
            let ghost lo = self.loaded();
            proof {
                assert(self.loads_taken().skip(l0).drop_last() =~= t0.skip(l0));
                assert(self.loads_taken().take(l0) =~= t0.take(l0));
                assert(self.loads_taken().skip(l0).last() == self.loads_taken().last());
            }
            let more = self.take_load(chunk, &mut got);
            proof {
                if got.loads@.len() > s0.len() {
                    lemma_chunk_coords_push(s0, chunk);
                    assert(old(self).loaded().union(chunk_coords(s0)).insert(chunk.coord)
                        =~= old(self).loaded().union(chunk_coords(got.loads@)));
                }
            }
            if !more {
                break;
            }
        }
        let mut attempts: u64 = 0;
        while attempts < u64::MAX
            invariant_except_break
                got.updates_count() <= self.per_cycle() / 2,
            invariant
                got.loads@.len() == got.loads_count(),
                got.loads_count() <= old(self).per_cycle() / 2 + 1,
                got.updates@.len() + got.urgent@.len() == got.updates_count(),
                got.updates_count() <= self.per_cycle() / 2 + 1,
                forall|i: int| 0 <= i < got.loads@.len() ==> dist_sq(old(self).pos(), #[trigger] got.loads@[i].coord)
                    < old(self).view_distance() * old(self).view_distance(),
                forall|i: int| 0 <= i < got.updates@.len() ==> dist_sq(old(self).pos(), (#[trigger] got.updates@[i]).0)
                    < old(self).view_distance() * old(self).view_distance(),
                forall|i: int| 0 <= i < got.urgent@.len() ==> dist_sq(old(self).pos(), (#[trigger] got.urgent@[i]).0)
                    < old(self).view_distance() * old(self).view_distance(),
                self.loaded() == old(self).loaded().union(chunk_coords(got.loads@)),
                self.updated() == old(self).updated().union(delta_coords(got.updates@)).union(delta_coords(got.urgent@)),
                self.queue() == old(self).queue(),
                self.pos() == old(self).pos(),
                self.last_load() == old(self).last_load(),
                self.is_moved() == old(self).is_moved(),
                self.view_distance() == old(self).view_distance(),
                self.per_cycle() == old(self).per_cycle(),
                0 <= self.per_cycle() <= u16::MAX,
                l0 == old(self).loads_taken().len(),
                u0 == old(self).updates_taken().len(),
                self.loads_taken().len() >= l0,
                self.loads_taken().take(l0) == old(self).loads_taken(),
                got.loads@ == chunks_in_view(self.loads_taken().skip(l0), old(self).pos(), old(self).view_distance()),
                self.loads_taken().len() > l0 ==> chunks_in_view(self.loads_taken().skip(l0).drop_last(),
                    old(self).pos(), old(self).view_distance()).len() <= old(self).per_cycle() / 2,
                self.updates_taken().len() >= u0,
                self.updates_taken().take(u0) == old(self).updates_taken(),
                got.urgent@ == changes_in_view(self.updates_taken().skip(u0), old(self).pos(), old(self).view_distance(), true),
                got.updates@ == changes_in_view(self.updates_taken().skip(u0), old(self).pos(), old(self).view_distance(), false),
                self.updates_taken().len() > u0 ==> changes_in_view(self.updates_taken().skip(u0).drop_last(),
                    old(self).pos(), old(self).view_distance(), true).len()
                    + changes_in_view(self.updates_taken().skip(u0).drop_last(),
                    old(self).pos(), old(self).view_distance(), false).len() <= self.per_cycle() / 2,
            ensures
                got.updates@.len() + got.urgent@.len() == got.updates_count(),
                got.updates_count() <= self.per_cycle() / 2 + 1,
                self.updates_taken().len() > u0 ==> changes_in_view(self.updates_taken().skip(u0).drop_last(),
                    old(self).pos(), old(self).view_distance(), true).len()
                    + changes_in_view(self.updates_taken().skip(u0).drop_last(),
                    old(self).pos(), old(self).view_distance(), false).len() <= self.per_cycle() / 2,
            decreases u64::MAX - attempts,
        {
            attempts = attempts + 1;
            let ghost t0 = self.updates_taken();
            let (delta, important) = match self.try_recv_update() {
                Some(m) => m,
                None => break,
            };
            let ghost u1 = got.updates@;
            let ghost g0 = got.urgent@;
            proof {
                assert(self.updates_taken().skip(u0).drop_last() =~= t0.skip(u0));
                assert(self.updates_taken().take(u0) =~= t0.take(u0));
                assert(self.updates_taken().skip(u0).last() == (delta, important));
            }
            let more = self.take_update(delta, important, &mut got);
            proof {
                if got.updates@.len() > u1.len() {
                    lemma_delta_coords_push(u1, delta);
                    assert(old(self).updated().union(delta_coords(u1)).union(delta_coords(g0)).insert(delta.0)
                        =~= old(self).updated().union(delta_coords(got.updates@)).union(delta_coords(got.urgent@)));
                }
                if got.urgent@.len() > g0.len() {
                    lemma_delta_coords_push(g0, delta);
                    assert(old(self).updated().union(delta_coords(u1)).union(delta_coords(g0)).insert(delta.0)
                        =~= old(self).updated().union(delta_coords(got.updates@)).union(delta_coords(got.urgent@)));
                }
            }
            if !more {
                break;
            }
        }
        got
    }

    /// Takes a chunk waiting to be loaded, if any; it is added to the record of
    /// chunks taken.
    pub fn try_recv_load(&mut self) -> (r: Option<Chunk>)
        ensures
            r matches Some(c) ==> final(self).loads_taken().len() == old(self).loads_taken().len() + 1
                && final(self).loads_taken().drop_last() == old(self).loads_taken()
                && final(self).loads_taken().last().0 == c,
            r is None ==> final(self).loads_taken() == old(self).loads_taken(),
            final(self).updates_taken() == old(self).updates_taken(),
            final(self).loaded() == old(self).loaded(),
            final(self).updated() == old(self).updated(),
            final(self).queue() == old(self).queue(),
            final(self).pos() == old(self).pos(),
            final(self).last_load() == old(self).last_load(),
            final(self).is_moved() == old(self).is_moved(),
            final(self).view_distance() == old(self).view_distance(),
            final(self).per_cycle() == old(self).per_cycle(),
    {
        match self.chunk_load_receiver.take() {
            Some((chunk, important)) => {
                assert(self.loads_taken().drop_last() =~= old(self).loads_taken());
                Some(chunk)
            }
            None => None,
        }
    }

    /// Takes a waiting change, an important one first, and whether it is
    /// important; it is added to the record of changes taken.
    pub fn try_recv_update(&mut self) -> (r: Option<(ChunkDelta, bool)>)
        ensures
            r matches Some(m) ==> final(self).updates_taken() == old(self).updates_taken().push(m),
            r is None ==> final(self).updates_taken() == old(self).updates_taken(),
            final(self).loads_taken() == old(self).loads_taken(),
            final(self).loaded() == old(self).loaded(),
            final(self).updated() == old(self).updated(),
            final(self).queue() == old(self).queue(),
            final(self).pos() == old(self).pos(),
            final(self).last_load() == old(self).last_load(),
            final(self).is_moved() == old(self).is_moved(),
            final(self).view_distance() == old(self).view_distance(),
            final(self).per_cycle() == old(self).per_cycle(),
    {
        self.chunk_update_receiver.take()
    }

    /// Lets go of every held chunk. Returns the chunks to be told to the register:
    /// the held ones in ascending order, then those whose changes the user
    /// received in ascending order.
    pub fn unload_all_chunks(&mut self) -> (r: Vec<Coord>)
        ensures
            final(self).loaded() == Set::<Coord>::empty(),
            exists|k: int| 0 <= k <= r@.len()
                && lists_ascending(#[trigger] r@.take(k), old(self).loaded())
                && lists_ascending(r@.skip(k), old(self).updated()),
            final(self).updated() == old(self).updated(),
            final(self).queue() == old(self).queue(),
            final(self).pos() == old(self).pos(),
            final(self).last_load() == old(self).last_load(),
            final(self).is_moved() == old(self).is_moved(),
            final(self).view_distance() == old(self).view_distance(),
            final(self).per_cycle() == old(self).per_cycle(),
            old(self).wf() ==> final(self).wf(),
    {
        let held = self.chunks.keys();
        let updated = self.leftover.keys();
        let mut first = ascending_set(&held);
        let mut second = ascending_set(&updated);
        let ghost a = first@;
        let ghost b = second@;
        first.append(&mut second);
        self.chunks = CoordMap::new();
        proof {
            let k = a.len() as int;
            assert(first@.take(k) =~= a);
            assert(first@.skip(k) =~= b);
            assert forall|c: Coord| #[trigger] a.contains(c) <==> old(self).loaded().contains(c) by {
                assert(held@.contains(c) <==> old(self).chunks@.contains_key(c));
            }
            assert forall|c: Coord| #[trigger] b.contains(c) <==> old(self).updated().contains(c) by {
                assert(updated@.contains(c) <==> old(self).leftover@.contains_key(c));
            }
            assert(lists_ascending(first@.take(k), old(self).loaded()));
            assert(lists_ascending(first@.skip(k), old(self).updated()));
            assert(self.chunks@.dom() =~= Set::<Coord>::empty());
        }
        first
    }
}

/// The coordinates of `s`, each at the place where it first occurs, in order.
pub open spec fn first_occurrences(s: Seq<Coord>) -> Seq<Coord>
    decreases s.len(),
{
    if s.len() == 0 {
        Seq::empty()
    } else {
        let d = first_occurrences(s.drop_last());
        if d.contains(s.last()) {
            d
        } else {
            d.push(s.last())
        }
    }
}

/// Keeping first occurrences keeps every coordinate once and no other.
pub proof fn lemma_first_occurrences(s: Seq<Coord>)
    ensures
        first_occurrences(s).no_duplicates(),
        forall|c: Coord| #[trigger] first_occurrences(s).contains(c) <==> s.contains(c),
    decreases s.len(),
{
    if s.len() > 0 {
        let u = s.drop_last();
        let d = first_occurrences(u);
        lemma_first_occurrences(u);
        assert(s =~= u.push(s.last()));
        lemma_push_contains(u, s.last());
        lemma_push_contains(d, s.last());
        if !d.contains(s.last()) {
            let t = d.push(s.last());
            assert forall|a: int, b: int| 0 <= a < t.len() && 0 <= b < t.len() && a != b implies t[a] != t[b] by {
                if a == d.len() {
                    assert(d.contains(t[b]));
                } else if b == d.len() {
                    assert(d.contains(t[a]));
                }
            }
        }
    }
}

/// Removes each coordinate that already occurs earlier in `v`, keeping the order.
pub fn clear_duplicates(v: &mut Vec<Coord>)
    ensures
        final(v)@ == first_occurrences(old(v)@),
        final(v)@.no_duplicates(),
        forall|c: Coord| #[trigger] final(v)@.contains(c) <==> old(v)@.contains(c),
{
    let mut out: Vec<Coord> = Vec::new();
    let n = v.len();
    let mut i: usize = 0;
    while i < n
        invariant
            n == v@.len(),
            i <= n,
            out@ == first_occurrences(v@.take(i as int)),
        decreases n - i,
    {
        let c = v[i];
        assert(v@.take(i + 1).drop_last() =~= v@.take(i as int));
        if !coord_listed(&out, &c) {
            out.push(c);
        }
        i = i + 1;
    }
    assert(v@.take(n as int) =~= v@);
    proof { lemma_first_occurrences(v@); }
    *v = out;
}

/// Whether `c` is listed in `coords`.
fn coord_listed(coords: &Vec<Coord>, c: &Coord) -> (r: bool)
    ensures
        r == coords@.contains(*c),
{
    let n = coords.len();
    let mut i: usize = 0;
    while i < n
        invariant
            n == coords@.len(),
            i <= n,
            forall|j: int| 0 <= j < i ==> coords@[j] != *c,
        decreases n - i,
    {
        if coord_eq(&coords[i], c) {
            assert(coords@[i as int] == *c);
            return true;
        }
        i = i + 1;
    }
    false
}

/// The chunks among `taken` that lie in view (at a squared distance below
/// `r * r` from `center`), in the order taken.
pub open spec fn chunks_in_view(taken: Seq<(Chunk, bool)>, center: Coord, r: int) -> Seq<Chunk>
    decreases taken.len(),
{
    if taken.len() == 0 {
        Seq::empty()
    } else {
        let rest = chunks_in_view(taken.drop_last(), center, r);
        if dist_sq(center, taken.last().0.coord) < r * r { rest.push(taken.last().0) } else { rest }
    }
}

/// The changes among `taken` that were sent as important (or not, as `important`
/// says) and lie in view, in the order taken.
pub open spec fn changes_in_view(taken: Seq<(ChunkDelta, bool)>, center: Coord, r: int, important: bool) -> Seq<ChunkDelta>
    decreases taken.len(),
{
    if taken.len() == 0 {
        Seq::empty()
    } else {
        let rest = changes_in_view(taken.drop_last(), center, r, important);
        if taken.last().1 == important && dist_sq(center, taken.last().0.0) < r * r {
            rest.push(taken.last().0)
        } else {
            rest
        }
    }
}

/// What a cycle's receive returns of the chunks it took: every chunk taken that
/// lies in view is returned, and nothing else.
pub proof fn lemma_chunks_in_view(taken: Seq<(Chunk, bool)>, center: Coord, r: int)
    ensures
        forall|i: int| 0 <= i < taken.len() && dist_sq(center, taken[i].0.coord) < r * r
            ==> #[trigger] chunks_in_view(taken, center, r).contains(taken[i].0),
        forall|c: Chunk| #[trigger] chunks_in_view(taken, center, r).contains(c)
            ==> dist_sq(center, c.coord) < r * r && exists|i: int| 0 <= i < taken.len() && taken[i].0 == c,
    decreases taken.len(),
{
    if taken.len() > 0 {
        let u = taken.drop_last();
        let k = chunks_in_view(u, center, r);
        lemma_chunks_in_view(u, center, r);
        assert forall|i: int| 0 <= i < taken.len() && dist_sq(center, taken[i].0.coord) < r * r
            implies #[trigger] chunks_in_view(taken, center, r).contains(taken[i].0) by {
            if i < u.len() {
                assert(u[i] == taken[i]);
                assert(k.contains(u[i].0));
                if dist_sq(center, taken.last().0.coord) < r * r {
                    let j = choose|j: int| 0 <= j < k.len() && k[j] == u[i].0;
                    assert(k.push(taken.last().0)[j] == u[i].0);
                }
            } else {
                assert(k.push(taken.last().0)[k.len() as int] == taken[i].0);
            }
        }
        assert forall|c: Chunk| #[trigger] chunks_in_view(taken, center, r).contains(c)
            implies dist_sq(center, c.coord) < r * r && exists|i: int| 0 <= i < taken.len() && taken[i].0 == c by {
            let s = chunks_in_view(taken, center, r);
            let j = choose|j: int| 0 <= j < s.len() && s[j] == c;
            if j < k.len() {
                assert(k[j] == c);
                assert(k.contains(c));
                let i = choose|i: int| 0 <= i < u.len() && u[i].0 == c;
                assert(taken[i] == u[i]);
            } else {
                assert(taken[taken.len() - 1].0 == c);
            }
        }
    }
}

/// What a cycle's receive returns of the changes it took: every change taken
/// that lies in view is returned, among the urgent ones where it was sent as
/// important and among the others where not, and nothing else.
pub proof fn lemma_changes_in_view(taken: Seq<(ChunkDelta, bool)>, center: Coord, r: int, important: bool)
    ensures
        forall|i: int| 0 <= i < taken.len() && taken[i].1 == important && dist_sq(center, taken[i].0.0) < r * r
            ==> #[trigger] changes_in_view(taken, center, r, important).contains(taken[i].0),
        forall|d: ChunkDelta| #[trigger] changes_in_view(taken, center, r, important).contains(d)
            ==> dist_sq(center, d.0) < r * r && exists|i: int| 0 <= i < taken.len() && taken[i] == (d, important),
    decreases taken.len(),
{
    if taken.len() > 0 {
        let u = taken.drop_last();
        let k = changes_in_view(u, center, r, important);
        lemma_changes_in_view(u, center, r, important);
        let keep = taken.last().1 == important && dist_sq(center, taken.last().0.0) < r * r;
        assert forall|i: int| 0 <= i < taken.len() && taken[i].1 == important && dist_sq(center, taken[i].0.0) < r * r
            implies #[trigger] changes_in_view(taken, center, r, important).contains(taken[i].0) by {
            if i < u.len() {
                assert(u[i] == taken[i]);
                assert(k.contains(u[i].0));
                if keep {
                    let j = choose|j: int| 0 <= j < k.len() && k[j] == u[i].0;
                    assert(k.push(taken.last().0)[j] == u[i].0);
                }
            } else {
                assert(k.push(taken.last().0)[k.len() as int] == taken[i].0);
            }
        }
        assert forall|d: ChunkDelta| #[trigger] changes_in_view(taken, center, r, important).contains(d)
            implies dist_sq(center, d.0) < r * r && exists|i: int| 0 <= i < taken.len() && taken[i] == (d, important) by {
            let s = changes_in_view(taken, center, r, important);
            let j = choose|j: int| 0 <= j < s.len() && s[j] == d;
            if j < k.len() {
                assert(k[j] == d);
                assert(k.contains(d));
                let i = choose|i: int| 0 <= i < u.len() && u[i] == (d, important);
                assert(taken[i] == u[i]);
            } else {
                assert(taken[taken.len() - 1] == (d, important));
            }
        }
    }
}

/// The coordinates of the chunks in `s`.
pub open spec fn chunk_coords(s: Seq<Chunk>) -> Set<Coord> {
    Set::new(|c: Coord| exists|i: int| 0 <= i < s.len() && (#[trigger] s[i]).coord == c)
}

/// The coordinates of the changes in `s`.
pub open spec fn delta_coords(s: Seq<ChunkDelta>) -> Set<Coord> {
    Set::new(|c: Coord| exists|i: int| 0 <= i < s.len() && (#[trigger] s[i]).0 == c)
}

proof fn lemma_chunk_coords_push(s: Seq<Chunk>, ch: Chunk)
    ensures
        chunk_coords(s.push(ch)) == chunk_coords(s).insert(ch.coord),
{
    let t = s.push(ch);
    assert forall|c: Coord| #[trigger] chunk_coords(t).contains(c) <==> chunk_coords(s).insert(ch.coord).contains(c) by {
        if chunk_coords(t).contains(c) {
            let i = choose|i: int| 0 <= i < t.len() && (#[trigger] t[i]).coord == c;
            if i < s.len() {
                assert(s[i] == t[i]);
            }
        }
        if chunk_coords(s).contains(c) {
            let i = choose|i: int| 0 <= i < s.len() && (#[trigger] s[i]).coord == c;
            assert(t[i] == s[i]);
        }
        if c == ch.coord {
            assert(t[s.len() as int] == ch);
        }
    }
    assert(chunk_coords(t) =~= chunk_coords(s).insert(ch.coord));
}

proof fn lemma_delta_coords_push(s: Seq<ChunkDelta>, d: ChunkDelta)
    ensures
        delta_coords(s.push(d)) == delta_coords(s).insert(d.0),
{
    let t = s.push(d);
    assert forall|c: Coord| #[trigger] delta_coords(t).contains(c) <==> delta_coords(s).insert(d.0).contains(c) by {
        if delta_coords(t).contains(c) {
            let i = choose|i: int| 0 <= i < t.len() && (#[trigger] t[i]).0 == c;
            if i < s.len() {
                assert(s[i] == t[i]);
            }
        }
        if delta_coords(s).contains(c) {
            let i = choose|i: int| 0 <= i < s.len() && (#[trigger] s[i]).0 == c;
            assert(t[i] == s[i]);
        }
        if c == d.0 {
            assert(t[s.len() as int] == d);
        }
    }
    assert(delta_coords(t) =~= delta_coords(s).insert(d.0));
}

/// What a list holds once `c` is pushed onto it.
proof fn lemma_push_contains(s: Seq<Coord>, c: Coord)
    ensures
        forall|d: Coord| #[trigger] s.push(c).contains(d) <==> (s.contains(d) || d == c),
{
    assert forall|d: Coord| #[trigger] s.push(c).contains(d) <==> (s.contains(d) || d == c) by {
        if s.push(c).contains(d) && d != c {
            let q = choose|q: int| 0 <= q < s.push(c).len() && s.push(c)[q] == d;
            assert(s[q] == d);
        }
        if s.contains(d) {
            let q = choose|q: int| 0 <= q < s.len() && s[q] == d;
            assert(s.push(c)[q] == d);
        }
        if d == c {
            assert(s.push(c)[s.len() as int] == d);
        }
    }
}

/// What a list holds once `c` is inserted into it.
proof fn lemma_insert_contains(s: Seq<Coord>, p: int, c: Coord)
    requires
        0 <= p <= s.len(),
    ensures
        forall|d: Coord| #[trigger] s.insert(p, c).contains(d) <==> (s.contains(d) || d == c),
{
    assert forall|d: Coord| #[trigger] s.insert(p, c).contains(d) <==> (s.contains(d) || d == c) by {
        let t = s.insert(p, c);
        if t.contains(d) && d != c {
            let q = choose|q: int| 0 <= q < t.len() && t[q] == d;
            if q < p {
                assert(s[q] == d);
            } else {
                assert(s[q - 1] == d);
            }
        }
        if s.contains(d) {
            let q = choose|q: int| 0 <= q < s.len() && s[q] == d;
            if q < p {
                assert(t[q] == d);
            } else {
                assert(t[q + 1] == d);
            }
        }
        if d == c {
            assert(t[p] == d);
        }
    }
}

/// A reordering of a list without repeats has no repeats.
proof fn lemma_perm_no_duplicates(a: Seq<Coord>, b: Seq<Coord>)
    requires
        a.no_duplicates(),
        a.to_multiset() == b.to_multiset(),
    ensures
        b.no_duplicates(),
{
    a.lemma_multiset_has_no_duplicates();
    b.lemma_multiset_has_no_duplicates_conv();
}

} // verus!
