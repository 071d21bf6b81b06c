//! Verified core of a voxel game: the block palette, chunks and their deltas,
//! structures and `.vox` models, world generation, the wire framing of events,
//! the server's registers of users and chunks, what each connection decides for
//! its client and which chunks it loads, and, on the client side, the chunks it
//! knows and the faces it draws.

pub mod blocks;
pub mod chunk;
pub mod structure;
pub mod super_chunk;
pub mod framing;
pub mod users;
pub mod error;
pub mod config;
pub mod terminator;
pub mod stored_chunk;
pub mod cross;
pub mod channel;
pub mod link;
pub mod queque;
pub mod coord_map;
pub mod chunk_store;
pub mod vox;
pub mod terrain;
pub mod generation;
pub mod chunk_loader;
pub mod mesh;
pub mod client_chunks;
pub mod session;

use vstd::prelude::*;

verus! {

/// Position of a chunk in the world, in chunk units.
pub type Coord = [i64; 3];

/// The secret that identifies a registered user.
pub type Token = [u8; 16];

/// Whether two tokens are equal byte by byte.
pub fn token_eq(a: &Token, b: &Token) -> (r: bool)
    ensures
        r == (*a == *b),
{
    let mut i: usize = 0;
    while i < 16
        invariant
            i <= 16,
            forall|j: int| 0 <= j < i ==> a[j] == b[j],
        decreases 16 - i,
    {
        if a[i] != b[i] {
            return false;
        }
        i = i + 1;
    }
    assert(*a =~= *b);
    true
}

/// The square of the Euclidean distance between two chunk coordinates.
pub open spec fn dist_sq(p1: Coord, p2: Coord) -> int {
    (p1[0] - p2[0]) * (p1[0] - p2[0]) + (p1[1] - p2[1]) * (p1[1] - p2[1]) + (p1[2] - p2[2]) * (p1[2] - p2[2])
}

/// `r` is the integer square root of `n`: the largest integer whose square is at most `n`.
pub open spec fn is_isqrt(r: int, n: int) -> bool {
    0 <= r && r * r <= n < (r + 1) * (r + 1)
}

/// Whether the differences and the squared distance of two coordinates fit in `i64`.
pub open spec fn dist_fits(p1: Coord, p2: Coord) -> bool {
    &&& forall|i: int| 0 <= i < 3 ==> i64::MIN <= #[trigger] p1[i] - p2[i] <= i64::MAX
    &&& (p1[0] - p2[0]) * (p1[0] - p2[0]) <= i64::MAX
    &&& (p1[1] - p2[1]) * (p1[1] - p2[1]) <= i64::MAX
    &&& (p1[2] - p2[2]) * (p1[2] - p2[2]) <= i64::MAX
    &&& (p1[0] - p2[0]) * (p1[0] - p2[0]) + (p1[1] - p2[1]) * (p1[1] - p2[1]) <= i64::MAX
    &&& dist_sq(p1, p2) <= i64::MAX
}

/// The integer square root of a non-negative `i64`.
fn isqrt(n: i64) -> (r: i64)
    requires
        n >= 0,
    ensures
        is_isqrt(r as int, n as int),
{
    let mut lo: i64 = 0;
    let mut hi: i64 = 3037000500;
    assert(hi * hi > i64::MAX) by (nonlinear_arith)
        requires hi == 3037000500;
    while hi - lo > 1
        invariant
            0 <= lo < hi <= 3037000500,
            lo * lo <= n,
            n < hi * hi,
        decreases hi - lo,
    {
        let mid = lo + (hi - lo) / 2;
        assert(0 <= mid * mid <= 3037000499 * 3037000499) by (nonlinear_arith)
            requires 0 <= mid <= 3037000499;
        if mid * mid <= n {
            lo = mid;
        } else {
            hi = mid;
        }
    }
    assert(hi == lo + 1);
    lo
}

/// The Euclidean distance between two chunk coordinates, rounded down.
pub fn calculate_chunk_distance(p1: &Coord, p2: &Coord) -> (r: i64)
    requires
        dist_fits(*p1, *p2),
    ensures
        is_isqrt(r as int, dist_sq(*p1, *p2)),
{
    assert(i64::MIN <= p1[0] - p2[0] <= i64::MAX);
    assert(i64::MIN <= p1[1] - p2[1] <= i64::MAX);
    assert(i64::MIN <= p1[2] - p2[2] <= i64::MAX);
    let d0 = p1[0] - p2[0];
    let d1 = p1[1] - p2[1];
    let d2 = p1[2] - p2[2];
    assert(d0 * d0 >= 0 && d1 * d1 >= 0 && d2 * d2 >= 0) by (nonlinear_arith);
    let s = d0 * d0 + d1 * d1 + d2 * d2;
    isqrt(s)
}

} // verus!
