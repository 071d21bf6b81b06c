//! The server's register of chunks: which chunks exist, which are being
//! generated, which pieces generated beyond their chunk wait to be merged, and
//! which users want which chunks.
use vstd::prelude::*;
use crate::blocks::Block;
use crate::chunk::{Chunk, ChunkDelta, in_chunk, merged, is_delta};
use crate::channel::{PrioritySender, PriorityReceiver, channel};
use crate::cross::SendError;
use crate::coord_map::{CoordMap, KeyMap, coord_eq};
use crate::stored_chunk::StoredChunk;
use crate::structure::Structure;
use crate::super_chunk::{SuperChunk, find, stamp_fits, stamped_all, keys_sorted, lemma_find_unique};
use crate::chunk::chunk_key;
use crate::{Coord, Token, token_eq};

verus! {

/// A request to the chunk register.
#[derive(Clone, Debug)]
pub enum Instruction {
    /// The user of `token` wants these chunks, sent to `load_sender`.
    PushLoadChunks { load_coords: Vec<Coord>, token: Token, load_sender: PrioritySender<Chunk> },
    /// The user of `token` wants changes to these chunks, sent to `update_sender`.
    SetUpdateChunks { update_coords: Vec<Coord>, token: Token, update_sender: PrioritySender<ChunkDelta> },
    /// The user of `token` no longer needs these chunks.
    RequestUnloadChunk { coords: Vec<Coord>, token: Token },
    /// Chunks were generated on behalf of the user of `token`.
    PushSuperChunk { super_chunk: SuperChunk, token: Token, important: bool },
    /// The user of `token` places a structure at `coord`.
    PlaceStructure { coord: Coord, structure: Structure, token: Token },
}

/// Work the register hands to its caller.
#[derive(Debug)]
pub enum ChunkJob {
    /// Generate the chunk at `coord` and push the result back.
    Generate { coord: Coord, token: Token },
    /// Push these chunks back to the register.
    PushSuperChunk { super_chunk: SuperChunk, token: Token },
}

/// What a user wants sent.
#[derive(Debug)]
pub struct Request {
    pub load_coords: Vec<Coord>,
    pub update_coords: Vec<Coord>,
    pub load_sender: Option<PrioritySender<Chunk>>,
    pub update_sender: Option<PrioritySender<ChunkDelta>>,
}

/// What the register hands to a user: a chunk to load, or the change of a chunk
/// the user follows.
#[derive(Debug)]
pub enum Delivery {
    /// A chunk for the user of `token` to load.
    Load { token: Token, chunk: Chunk },
    /// The change of a chunk, for the user of `token`.
    Change { token: Token, delta: ChunkDelta },
}

/// The user a delivery is for.
pub open spec fn token_of(d: Delivery) -> Token {
    match d {
        Delivery::Load { token, .. } => token,
        Delivery::Change { token, .. } => token,
    }
}

/// Whether request `r` is handed a chunk at `c` to load: it waits for it,
/// loading is allowed, and it has a sender for chunks.
pub open spec fn gets_load(r: Request, c: Coord, disallow_loading: bool) -> bool {
    !disallow_loading && r.load_coords@.contains(c) && r.load_sender is Some
}

/// Whether request `r` is handed the change of the chunk at `c`: it follows that
/// chunk and has a sender for changes.
pub open spec fn gets_change(r: Request, c: Coord) -> bool {
    r.update_coords@.contains(c) && r.update_sender is Some
}

/// Whether `d` is, for the user of `t`, the chunk `chunk` to load.
pub open spec fn is_load_of(d: Delivery, t: Token, chunk: Chunk) -> bool {
    d matches Delivery::Load { token, chunk: c } && token == t && c.same_as(chunk)
}

/// Whether `d` is, for the user of `t`, the change from `pre` to `chunk`.
pub open spec fn is_change_of(d: Delivery, t: Token, pre: Chunk, chunk: Chunk) -> bool {
    d matches Delivery::Change { token, delta } && token == t && delta.0 == pre.coord && is_delta(pre, chunk, delta.1@)
}

/// Whether offering `chunk` (with `pre` as the chunk before it, if any) hands
/// `d` to the user of `t`, whose request is `r`.
pub open spec fn offers(d: Delivery, t: Token, r: Request, pre: Option<Chunk>, chunk: Chunk, disallow_loading: bool) -> bool {
    ||| gets_load(r, chunk.coord, disallow_loading) && is_load_of(d, t, chunk)
    ||| pre matches Some(p) && gets_change(r, chunk.coord) && is_change_of(d, t, p, chunk)
}

/// How many deliveries offering `chunk` hands a user whose request is `r`.
pub open spec fn offer_len(r: Request, pre: Option<Chunk>, chunk: Chunk, disallow_loading: bool) -> int {
    (if gets_load(r, chunk.coord, disallow_loading) { 1int } else { 0int })
        + (if pre is Some && gets_change(r, chunk.coord) { 1int } else { 0int })
}

/// Whether `s` is what offering `chunk` hands the user of `t`, whose request is
/// `r`: the chunk to load where it gets it, then the change from `pre` where
/// there is one and it gets it.
pub open spec fn offer_to(s: Seq<Delivery>, t: Token, r: Request, pre: Option<Chunk>, chunk: Chunk, disallow_loading: bool) -> bool {
    &&& s.len() == offer_len(r, pre, chunk, disallow_loading)
    &&& gets_load(r, chunk.coord, disallow_loading) ==> is_load_of(s[0], t, chunk)
    &&& (pre is Some && gets_change(r, chunk.coord)) ==> is_change_of(s[s.len() - 1], t, pre->0, chunk)
}

/// Whether `s` is what offering `chunk` hands the users of `ts`, in that order,
/// by their requests in `w`.
pub open spec fn offer_to_all(s: Seq<Delivery>, w: Map<Token, Request>, ts: Seq<Token>, pre: Option<Chunk>,
    chunk: Chunk, disallow_loading: bool) -> bool
    decreases ts.len(),
{
    if ts.len() == 0 {
        s.len() == 0
    } else {
        let t = ts.last();
        let k = s.len() - offer_len(w[t], pre, chunk, disallow_loading);
        &&& 0 <= k
        &&& offer_to_all(s.take(k), w, ts.drop_last(), pre, chunk, disallow_loading)
        &&& offer_to(s.skip(k), t, w[t], pre, chunk, disallow_loading)
    }
}

/// What an offer to several users hands out: each delivery is one that the
/// offer owes to its user; each user gets what it is owed; with no user listed
/// twice, nothing is handed out twice.
pub proof fn lemma_offer_to_all(s: Seq<Delivery>, w: Map<Token, Request>, ts: Seq<Token>, pre: Option<Chunk>,
    chunk: Chunk, disallow_loading: bool)
    requires
        offer_to_all(s, w, ts, pre, chunk, disallow_loading),
    ensures
        forall|i: int| 0 <= i < s.len() ==> ts.contains(token_of(#[trigger] s[i]))
            && offers(s[i], token_of(s[i]), w[token_of(s[i])], pre, chunk, disallow_loading),
        forall|t: Token| #[trigger] ts.contains(t) && gets_load(w[t], chunk.coord, disallow_loading)
            ==> exists|i: int| 0 <= i < s.len() && is_load_of(#[trigger] s[i], t, chunk),
        forall|t: Token| #[trigger] ts.contains(t) && gets_change(w[t], chunk.coord) && pre is Some
            ==> exists|i: int| 0 <= i < s.len() && is_change_of(#[trigger] s[i], t, pre->0, chunk),
        ts.no_duplicates() ==> s.no_duplicates(),
    decreases ts.len(),
{
    if ts.len() > 0 {
        let t = ts.last();
        let k = s.len() - offer_len(w[t], pre, chunk, disallow_loading);
        let a = s.take(k);
        let b = s.skip(k);
        let us = ts.drop_last();
        lemma_offer_to_all(a, w, us, pre, chunk, disallow_loading);
        assert(s =~= a + b);
        assert forall|x: Token| #[trigger] us.contains(x) implies ts.contains(x) by {
            let j = choose|j: int| 0 <= j < us.len() && us[j] == x;
            assert(ts[j] == x);
        }
        assert forall|i: int| 0 <= i < s.len() implies ts.contains(token_of(#[trigger] s[i]))
            && offers(s[i], token_of(s[i]), w[token_of(s[i])], pre, chunk, disallow_loading) by {
            if i < k {
                assert(s[i] == a[i]);
            } else {
                assert(s[i] == b[i - k]);
                assert(ts[ts.len() - 1] == t);
                if gets_load(w[t], chunk.coord, disallow_loading) && i == k {
                } else {
                    assert(i == s.len() - 1);
                }
            }
        }
        assert forall|x: Token| #[trigger] ts.contains(x) && gets_load(w[x], chunk.coord, disallow_loading)
            implies exists|i: int| 0 <= i < s.len() && is_load_of(#[trigger] s[i], x, chunk) by {
            if x == t {
                assert(s[k] == b[0]);
            } else {
                let j = choose|j: int| 0 <= j < ts.len() && ts[j] == x;
                assert(j != ts.len() - 1);
                assert(us[j] == x);
                assert(us.contains(x));
                let i = choose|i: int| 0 <= i < a.len() && is_load_of(#[trigger] a[i], x, chunk);
                assert(s[i] == a[i]);
            }
        }
        assert forall|x: Token| #[trigger] ts.contains(x) && gets_change(w[x], chunk.coord) && pre is Some
            implies exists|i: int| 0 <= i < s.len() && is_change_of(#[trigger] s[i], x, pre->0, chunk) by {
            if x == t {
                assert(s[s.len() - 1] == b[b.len() - 1]);
            } else {
                let j = choose|j: int| 0 <= j < ts.len() && ts[j] == x;
                assert(j != ts.len() - 1);
                assert(us[j] == x);
                assert(us.contains(x));
                let i = choose|i: int| 0 <= i < a.len() && is_change_of(#[trigger] a[i], x, pre->0, chunk);
                assert(s[i] == a[i]);
            }
        }
        if ts.no_duplicates() {
            assert(us.no_duplicates());
            assert(!us.contains(t)) by {
                if us.contains(t) {
                    let j = choose|j: int| 0 <= j < us.len() && us[j] == t;
                    assert(ts[j] == ts[ts.len() - 1]);
                }
            }
            assert forall|i: int, j: int| 0 <= i < j < s.len() implies s[i] != s[j] by {
                if j < k {
                    assert(s[i] == a[i] && s[j] == a[j]);
                } else if i < k {
                    assert(s[i] == a[i] && s[j] == b[j - k]);
                    assert(us.contains(token_of(a[i])));
                } else {
                    assert(s[i] == b[i - k] && s[j] == b[j - k]);
                }
            }
        }
    }
}

/// The chunk a delivery is about.
pub open spec fn coord_of(d: Delivery) -> Coord {
    match d {
        Delivery::Load { chunk, .. } => chunk.coord,
        Delivery::Change { delta, .. } => delta.0,
    }
}

/// Whether `c` is a well-formed chunk at `k` whose blocks are those `f` gives.
pub open spec fn holds(c: Chunk, k: Coord, f: spec_fn(int, int, int) -> Block) -> bool {
    &&& c.wf()
    &&& c.coord == k
    &&& forall|x: int, y: int, z: int| in_chunk(x, y, z) ==> #[trigger] c.at(x, y, z) == f(x, y, z)
}

/// Whether `f` gives `Empty` at every position of a chunk.
pub open spec fn all_empty(f: spec_fn(int, int, int) -> Block) -> bool {
    forall|x: int, y: int, z: int| in_chunk(x, y, z) ==> #[trigger] f(x, y, z) == Block::Empty
}

/// The blocks of the main chunk of `sc` once taken in (see `main_after`).
pub open spec fn main_blocks(sc: SuperChunk, left: Map<Coord, StoredChunk>) -> spec_fn(int, int, int) -> Block {
    |x: int, y: int, z: int| main_after(sc, left, x, y, z)
}

/// The blocks of the chunk kept in `kept` at `k` once the side piece of `sc`
/// there, with the piece waiting in `left`, is merged into it.
pub open spec fn kept_blocks(sc: SuperChunk, kept: Map<Coord, StoredChunk>, left: Map<Coord, StoredChunk>, k: Coord)
    -> spec_fn(int, int, int) -> Block {
    |x: int, y: int, z: int| merged(kept[k].stored().at(x, y, z), layered(kept_at(left, k), side_piece(sc, k), x, y, z))
}

/// Only `Empty` blocks.
pub open spec fn no_blocks() -> spec_fn(int, int, int) -> Block {
    |x: int, y: int, z: int| Block::Empty
}

/// Whether taking in `sc` owes `d` to its user, by the requests `w`, the kept
/// chunks `kept` and the waiting pieces `left` from before: the main chunk, once
/// taken in, to a user waiting for it to load; a chunk kept at a side piece's
/// coordinate, with the piece merged in, to a user waiting for it to load; to a
/// user following a side piece's coordinate, the change from the chunk kept
/// there to the merged one, or, where none is kept, from an empty chunk to the
/// piece.
pub open spec fn owed(d: Delivery, w: Map<Token, Request>, sc: SuperChunk, kept: Map<Coord, StoredChunk>,
    left: Map<Coord, StoredChunk>) -> bool {
    let t = token_of(d);
    let k = coord_of(d);
    &&& w.contains_key(t)
    &&& match d {
        Delivery::Load { chunk, .. } => gets_load(w[t], k, false) && if k == sc.main_chunk {
            holds(chunk, k, main_blocks(sc, left))
        } else {
            side_piece(sc, k) is Some && kept.contains_key(k) && holds(chunk, k, kept_blocks(sc, kept, left, k))
        },
        Delivery::Change { .. } => gets_change(w[t], k) && k != sc.main_chunk && side_piece(sc, k) is Some && if kept.contains_key(k) {
            exists|p: Chunk, c: Chunk| #[trigger] is_change_of(d, t, p, c) && p.same_as(kept[k].stored())
                && holds(c, k, kept_blocks(sc, kept, left, k))
        } else {
            exists|p: Chunk, c: Chunk| #[trigger] is_change_of(d, t, p, c) && holds(p, k, no_blocks())
                && c.same_as(side_piece(sc, k)->0)
        },
    }
}

/// Whether `s` holds, for the user of `t`, a chunk at `k` to load (`load`) or
/// the change of the chunk at `k` (not `load`).
pub open spec fn delivers(s: Seq<Delivery>, load: bool, t: Token, k: Coord) -> bool {
    exists|i: int| 0 <= i < s.len() && (s[i] is Load) == load && token_of(#[trigger] s[i]) == t && coord_of(s[i]) == k
}

/// What an offer hands out, read against requests `w` that agree with the ones
/// it was made on about the chunk offered.
proof fn lemma_offer_owed(s: Seq<Delivery>, wb: Map<Token, Request>, w: Map<Token, Request>, ts: Seq<Token>,
    pre: Option<Chunk>, chunk: Chunk, disallow_loading: bool)
    requires
        offer_to_all(s, wb, ts, pre, chunk, disallow_loading),
        ts.no_duplicates(),
        forall|t: Token| #[trigger] ts.contains(t) <==> wb.contains_key(t),
        wb.dom() == w.dom(),
        forall|t: Token| #[trigger] wb.contains_key(t) ==> {
            &&& wb[t].load_coords@.contains(chunk.coord) == w[t].load_coords@.contains(chunk.coord)
            &&& wb[t].update_coords == w[t].update_coords
            &&& wb[t].load_sender == w[t].load_sender
            &&& wb[t].update_sender == w[t].update_sender
        },
    ensures
        forall|i: int| 0 <= i < s.len() ==> w.contains_key(token_of(#[trigger] s[i]))
            && offers(s[i], token_of(s[i]), w[token_of(s[i])], pre, chunk, disallow_loading),
        forall|t: Token| #[trigger] w.contains_key(t) && gets_load(w[t], chunk.coord, disallow_loading)
            ==> exists|i: int| 0 <= i < s.len() && is_load_of(#[trigger] s[i], t, chunk),
        forall|t: Token| #[trigger] w.contains_key(t) && gets_change(w[t], chunk.coord) && pre is Some
            ==> exists|i: int| 0 <= i < s.len() && is_change_of(#[trigger] s[i], t, pre->0, chunk),
        s.no_duplicates(),
{
    lemma_offer_to_all(s, wb, ts, pre, chunk, disallow_loading);
    assert forall|i: int| 0 <= i < s.len() implies w.contains_key(token_of(#[trigger] s[i]))
        && offers(s[i], token_of(s[i]), w[token_of(s[i])], pre, chunk, disallow_loading) by {
        let t = token_of(s[i]);
        assert(ts.contains(t));
        assert(wb.contains_key(t));
    }
    assert forall|t: Token| #[trigger] w.contains_key(t) && gets_load(w[t], chunk.coord, disallow_loading)
        implies exists|i: int| 0 <= i < s.len() && is_load_of(#[trigger] s[i], t, chunk) by {
        assert(wb.contains_key(t));
        assert(ts.contains(t));
        assert(gets_load(wb[t], chunk.coord, disallow_loading));
    }
    assert forall|t: Token| #[trigger] w.contains_key(t) && gets_change(w[t], chunk.coord) && pre is Some
        implies exists|i: int| 0 <= i < s.len() && is_change_of(#[trigger] s[i], t, pre->0, chunk) by {
        assert(wb.contains_key(t));
        assert(ts.contains(t));
        assert(gets_change(wb[t], chunk.coord));
    }
}

/// Appending deliveries about other chunks keeps them all distinct, and keeps
/// what each part delivers.
proof fn lemma_append_deliveries(a: Seq<Delivery>, b: Seq<Delivery>)
    requires
        a.no_duplicates(),
        b.no_duplicates(),
        forall|i: int, j: int| 0 <= i < a.len() && 0 <= j < b.len() ==> coord_of(#[trigger] a[i]) != coord_of(#[trigger] b[j]),
    ensures
        (a + b).no_duplicates(),
        forall|l: bool, t: Token, k: Coord| delivers(a, l, t, k) ==> #[trigger] delivers(a + b, l, t, k),
        forall|l: bool, t: Token, k: Coord| delivers(b, l, t, k) ==> #[trigger] delivers(a + b, l, t, k),
{
    let s = a + b;
    assert forall|i: int, j: int| 0 <= i < s.len() && 0 <= j < s.len() && i != j implies s[i] != s[j] by {
        if i < a.len() && j < a.len() {
        } else if i >= a.len() && j >= a.len() {
            assert(s[i] == b[i - a.len()] && s[j] == b[j - a.len()]);
        } else if i < a.len() {
            assert(s[i] == a[i] && s[j] == b[j - a.len()]);
            assert(coord_of(a[i]) != coord_of(b[j - a.len()]));
        } else {
            assert(s[j] == a[j] && s[i] == b[i - a.len()]);
            assert(coord_of(a[j]) != coord_of(b[i - a.len()]));
        }
    }
    assert forall|l: bool, t: Token, k: Coord| delivers(a, l, t, k) implies #[trigger] delivers(a + b, l, t, k) by {
        let i = choose|i: int| 0 <= i < a.len() && (a[i] is Load) == l && token_of(#[trigger] a[i]) == t && coord_of(a[i]) == k;
        assert(s[i] == a[i]);
    }
    assert forall|l: bool, t: Token, k: Coord| delivers(b, l, t, k) implies #[trigger] delivers(a + b, l, t, k) by {
        let i = choose|i: int| 0 <= i < b.len() && (b[i] is Load) == l && token_of(#[trigger] b[i]) == t && coord_of(b[i]) == k;
        assert(s[i + a.len()] == b[i]);
    }
}

/// One more offer in taking in a group of chunks: what was handed out so far,
/// about the main chunk and the side pieces before the `i`-th, and what this
/// offer hands out about the `i`-th.
proof fn lemma_step_append(a: Seq<Delivery>, b: Seq<Delivery>, s: Seq<Delivery>, w: Map<Token, Request>, sc: SuperChunk,
    kept: Map<Coord, StoredChunk>, left: Map<Coord, StoredChunk>, rest: Seq<(Coord, Chunk)>, mc: Coord, coord: Coord, i: int)
    requires
        s == a + b,
        a.no_duplicates(),
        b.no_duplicates(),
        forall|j: int| 0 <= j < a.len() ==> owed(#[trigger] a[j], w, sc, kept, left),
        forall|j: int| 0 <= j < a.len() ==> coord_of(#[trigger] a[j]) == mc
            || (find(rest, coord_of(a[j])) is Some && find(rest, coord_of(a[j]))->0 < i),
        forall|j: int| 0 <= j < b.len() ==> owed(#[trigger] b[j], w, sc, kept, left) && coord_of(b[j]) == coord,
        coord != mc,
        find(rest, coord) == Some(i),
    ensures
        s.no_duplicates(),
        forall|j: int| 0 <= j < s.len() ==> owed(#[trigger] s[j], w, sc, kept, left),
        forall|j: int| 0 <= j < s.len() ==> coord_of(#[trigger] s[j]) == mc
            || (find(rest, coord_of(s[j])) is Some && find(rest, coord_of(s[j]))->0 < i + 1),
        forall|l: bool, t: Token, k: Coord| delivers(a, l, t, k) ==> #[trigger] delivers(s, l, t, k),
        forall|l: bool, t: Token, k: Coord| delivers(b, l, t, k) ==> #[trigger] delivers(s, l, t, k),
{
    assert forall|x: int, y: int| 0 <= x < a.len() && 0 <= y < b.len() implies coord_of(#[trigger] a[x]) != coord_of(#[trigger] b[y]) by {
        assert(coord_of(b[y]) == coord);
    }
    lemma_append_deliveries(a, b);
    assert forall|j: int| 0 <= j < s.len() implies owed(#[trigger] s[j], w, sc, kept, left)
        && (coord_of(s[j]) == mc || (find(rest, coord_of(s[j])) is Some && find(rest, coord_of(s[j]))->0 < i + 1)) by {
        if j < a.len() {
            assert(s[j] == a[j]);
        } else {
            assert(s[j] == b[j - a.len()]);
        }
    }
}

/// A cloneable remote to the chunk register, which runs on its own thread.
#[derive(Clone, Debug)]
pub struct ChunkHandle {
    sender: PrioritySender<Instruction>,
}

impl ChunkHandle {
    /// A handle, and the receiver on which the register's thread takes the requests.
    pub fn init() -> (ChunkHandle, PriorityReceiver<Instruction>) {
        let (tx, rx) = channel(None);
        (ChunkHandle { sender: tx }, rx)
    }

    /// Asks for chunks to be loaded for the user of `token`; fails, handing the
    /// request back, once the register is gone.
    pub fn push_load_chunks(&self, load_coords: Vec<Coord>, load_sender: PrioritySender<Chunk>, token: Token) -> (r: Result<(), SendError<Instruction>>)
        ensures
            r matches Err(SendError(i)) ==> i == (Instruction::PushLoadChunks { load_coords, token, load_sender }),
    {
        self.sender.send(Instruction::PushLoadChunks { load_coords, token, load_sender }, false)
    }

    /// Sets the chunks whose changes the user of `token` wants; fails, handing the
    /// request back, once the register is gone.
    pub fn set_update_chunks(&self, update_coords: Vec<Coord>, update_sender: PrioritySender<ChunkDelta>, token: Token) -> (r: Result<(), SendError<Instruction>>)
        ensures
            r matches Err(SendError(i)) ==> i == (Instruction::SetUpdateChunks { update_coords, token, update_sender }),
    {
        self.sender.send(Instruction::SetUpdateChunks { update_coords, token, update_sender }, false)
    }

    /// Tells that the user of `token` no longer needs these chunks; fails, handing
    /// the request back, once the register is gone.
    pub fn unload_chunks(&self, coords: Vec<Coord>, token: Token) -> (r: Result<(), SendError<Instruction>>)
        ensures
            r matches Err(SendError(i)) ==> i == (Instruction::RequestUnloadChunk { coords, token }),
    {
        self.sender.send(Instruction::RequestUnloadChunk { coords, token }, false)
    }

    /// Asks for a structure to be placed, as important; fails, handing the request
    /// back, once the register is gone.
    pub fn place_structure(&self, coord: Coord, structure: Structure, token: Token) -> (r: Result<(), SendError<Instruction>>)
        ensures
            r matches Err(SendError(i)) ==> i == (Instruction::PlaceStructure { coord, structure, token }),
    {
        self.sender.send(Instruction::PlaceStructure { coord, structure, token }, true)
    }

    /// Pushes generated chunks to the register; fails, handing them back, once the
    /// register is gone.
    pub fn push_super_chunk(&self, super_chunk: SuperChunk, token: Token, important: bool) -> (r: Result<(), SendError<Instruction>>)
        ensures
            r matches Err(SendError(i)) ==> i == (Instruction::PushSuperChunk { super_chunk, token, important }),
    {
        self.sender.send(Instruction::PushSuperChunk { super_chunk, token, important }, false)
    }
}

/// Whether every stored chunk is well formed and stored under its own coordinate.
pub open spec fn chunks_wf(m: Map<Coord, StoredChunk>) -> bool {
    forall|k: Coord| #[trigger] m.contains_key(k) ==> m[k].stored().wf() && m[k].stored().coord == k
}

/// The chunk register.
pub struct ChunkStore {
    chunk_queque: CoordMap<()>,
    chunks: CoordMap<StoredChunk>,
    leftover: CoordMap<StoredChunk>,
    requests: KeyMap<Token, Request>,
}

/// The coordinates of `s` other than `c`, in order.
pub open spec fn without(s: Seq<Coord>, c: Coord) -> Seq<Coord> {
    s.filter(|k: Coord| k != c)
}

/// The coordinates that request `r` still wants loaded once a chunk at `c` was
/// offered to it and sent.
pub open spec fn loads_after_offer(r: Request, c: Coord, disallow_loading: bool) -> Seq<Coord> {
    if !disallow_loading && r.load_coords@.contains(c) {
        without(r.load_coords@, c)
    } else {
        r.load_coords@
    }
}

/// How the requests change when a chunk at `c` is offered: the same users keep
/// requests, each with its senders and its update wants, and each loses `c`
/// from its load wants where it was handed the chunk.
pub open spec fn requests_offered(before: Map<Token, Request>, after: Map<Token, Request>, c: Coord,
    disallow_loading: bool) -> bool {
    &&& after.dom() == before.dom()
    &&& forall|t: Token| #[trigger] after.contains_key(t) ==> {
        &&& after[t].load_coords@ == loads_after_offer(before[t], c, disallow_loading)
        &&& after[t].update_coords == before[t].update_coords
        &&& after[t].load_sender == before[t].load_sender
        &&& after[t].update_sender == before[t].update_sender
    }
}

/// The block at `(x, y, z)` once `over` is merged onto `under`; a missing chunk
/// holds only `Empty`.
pub open spec fn layered(under: Option<Chunk>, over: Option<Chunk>, x: int, y: int, z: int) -> Block {
    match (under, over) {
        (Some(u), Some(o)) => merged(u.at(x, y, z), o.at(x, y, z)),
        (Some(u), None) => u.at(x, y, z),
        (None, Some(o)) => o.at(x, y, z),
        (None, None) => Block::Empty,
    }
}

/// The chunk kept in `m` at `k`, if any.
pub open spec fn kept_at(m: Map<Coord, StoredChunk>, k: Coord) -> Option<Chunk> {
    if m.contains_key(k) { Some(m[k].stored()) } else { None }
}

/// The users that need the chunk kept in `m` at `k`; nobody where none is kept.
pub open spec fn needers_at(m: Map<Coord, StoredChunk>, k: Coord) -> Set<Token> {
    if m.contains_key(k) { m[k].needers() } else { Set::empty() }
}

/// The chunks of `sc` other than its main one.
pub open spec fn side_pieces(sc: SuperChunk) -> Seq<(Coord, Chunk)> {
    sc.chunks@.remove(find(sc.chunks@, sc.main_chunk)->0)
}

/// The chunk of `sc` at `k` other than its main one, if any.
pub open spec fn side_piece(sc: SuperChunk, k: Coord) -> Option<Chunk> {
    match find(side_pieces(sc), k) {
        Some(j) => Some(side_pieces(sc)[j].1),
        None => None,
    }
}

/// The block at `(x, y, z)` of the main chunk of `sc` once the piece waiting in
/// `left` at its coordinate is merged onto it.
pub open spec fn main_after(sc: SuperChunk, left: Map<Coord, StoredChunk>, x: int, y: int, z: int) -> Block {
    layered(Some(sc.spec_main()), kept_at(left, sc.main_chunk), x, y, z)
}

/// How the requests change over several offers of chunks at the coordinates of
/// `lost`: each keeps its senders and its update wants, its load wants only
/// shrink, and only by coordinates of `lost`; requests may be dropped, none added.
pub open spec fn requests_narrowed(before: Map<Token, Request>, after: Map<Token, Request>, lost: Set<Coord>) -> bool {
    &&& forall|t: Token| #[trigger] after.contains_key(t) ==> before.contains_key(t)
    &&& forall|t: Token| #[trigger] after.contains_key(t) ==> {
        &&& after[t].update_coords == before[t].update_coords
        &&& after[t].load_sender == before[t].load_sender
        &&& after[t].update_sender == before[t].update_sender
        &&& forall|c: Coord| #[trigger] after[t].load_coords@.contains(c) ==> before[t].load_coords@.contains(c)
        &&& forall|c: Coord| #[trigger] before[t].load_coords@.contains(c) && !after[t].load_coords@.contains(c)
            ==> lost.contains(c)
    }
}

proof fn lemma_offer_narrows(w0: Map<Token, Request>, w1: Map<Token, Request>, w2: Map<Token, Request>,
    c: Coord, disallow_loading: bool, lost: Set<Coord>)
    requires
        requests_narrowed(w0, w1, lost),
        requests_offered(w1, w2, c, disallow_loading),
        lost.contains(c),
    ensures
        requests_narrowed(w0, w2, lost),
{
    assert forall|t: Token| #[trigger] w2.contains_key(t) implies {
        &&& w2[t].update_coords == w0[t].update_coords
        &&& w2[t].load_sender == w0[t].load_sender
        &&& w2[t].update_sender == w0[t].update_sender
        &&& forall|k: Coord| #[trigger] w2[t].load_coords@.contains(k) ==> w0[t].load_coords@.contains(k)
        &&& forall|k: Coord| #[trigger] w0[t].load_coords@.contains(k) && !w2[t].load_coords@.contains(k)
            ==> lost.contains(k)
    } by {
        assert(w1.contains_key(t));
        lemma_without(w1[t].load_coords@, c);
    }
}

/// A chunk offered for loading is sent to a user at most once: once it is
/// offered, no user that is kept still waits for it to load.
pub proof fn lemma_loaded_once(before: Map<Token, Request>, after: Map<Token, Request>, c: Coord)
    requires
        requests_offered(before, after, c, false),
    ensures
        forall|t: Token| #[trigger] after.contains_key(t) ==> !after[t].load_coords@.contains(c),
{
    assert forall|t: Token| #[trigger] after.contains_key(t) implies !after[t].load_coords@.contains(c) by {
        lemma_without(before[t].load_coords@, c);
    }
}

/// What `without` keeps.
proof fn lemma_without(s: Seq<Coord>, c: Coord)
    ensures
        forall|k: Coord| #[trigger] without(s, c).contains(k) <==> (s.contains(k) && k != c),
{
    broadcast use {vstd::seq_lib::group_filter_ensures, vstd::seq::Seq::lemma_filter_contains_rev};
    assert forall|k: Coord| #[trigger] without(s, c).contains(k) <==> (s.contains(k) && k != c) by {
        if s.contains(k) && k != c {
            let j = choose|j: int| 0 <= j < s.len() && s[j] == k;
            assert(without(s, c).contains(s[j]));
        }
        if without(s, c).contains(k) {
            let w = without(s, c);
            let j = choose|j: int| 0 <= j < w.len() && w[j] == k;
            assert(w[j] != c);
        }
    }
}

/// Whether `new` is `old`, kept at `k`, once the piece waiting in `left` at `k`
/// is merged in where the chunk was `asked` for (and as it was otherwise).
pub open spec fn refreshed(new: Chunk, old: Chunk, left: Map<Coord, StoredChunk>, k: Coord, asked: bool) -> bool {
    &&& new.wf()
    &&& new.coord == old.coord
    &&& forall|x: int, y: int, z: int| in_chunk(x, y, z) ==> #[trigger] new.at(x, y, z) ==
        if asked && left.contains_key(k) { merged(old.at(x, y, z), left[k].stored().at(x, y, z)) } else { old.at(x, y, z) }
}

/// The needers of `s`, stored at `k`, once the chunks at `coords` are released
/// by the user of `token`.
pub open spec fn released(s: StoredChunk, coords: Seq<Coord>, k: Coord, token: Token) -> Set<Token> {
    if coords.contains(k) { s.needers().remove(token) } else { s.needers() }
}

/// The coordinates of `s` at which a chunk is kept in `m`, in the order of `s`.
pub open spec fn kept_coords(s: Seq<Coord>, m: Map<Coord, StoredChunk>) -> Seq<Coord>
    decreases s.len(),
{
    if s.len() == 0 {
        Seq::empty()
    } else if m.contains_key(s.last()) {
        kept_coords(s.drop_last(), m).push(s.last())
    } else {
        kept_coords(s.drop_last(), m)
    }
}

/// Each coordinate listed by `kept_coords` is one of `s` and kept in `m`.
proof fn lemma_kept_coords(s: Seq<Coord>, m: Map<Coord, StoredChunk>)
    ensures
        forall|a: int| 0 <= a < kept_coords(s, m).len() ==> s.contains(#[trigger] kept_coords(s, m)[a])
            && m.contains_key(kept_coords(s, m)[a]),
    decreases s.len(),
{
    if s.len() > 0 {
        let u = s.drop_last();
        lemma_kept_coords(u, m);
        assert forall|a: int| 0 <= a < kept_coords(s, m).len() implies s.contains(#[trigger] kept_coords(s, m)[a])
            && m.contains_key(kept_coords(s, m)[a]) by {
            let k = kept_coords(s, m)[a];
            if a < kept_coords(u, m).len() {
                assert(k == kept_coords(u, m)[a]);
                let j = choose|j: int| 0 <= j < u.len() && u[j] == k;
                assert(s[j] == k);
            } else {
                assert(s[s.len() - 1] == k);
            }
        }
    }
}

impl ChunkStore {
    /// Every kept chunk and waiting piece is well formed and under its own coordinate.
    pub closed spec fn wf(&self) -> bool {
        &&& chunks_wf(self.chunks@)
        &&& chunks_wf(self.leftover@)
    }

    /// The chunks kept, by coordinate.
    pub closed spec fn stored(&self) -> Map<Coord, StoredChunk> {
        self.chunks@
    }

    /// The pieces generated beyond their chunk that wait to be merged, by coordinate.
    pub closed spec fn left(&self) -> Map<Coord, StoredChunk> {
        self.leftover@
    }

    /// What each user wants sent, by token.
    pub closed spec fn wanted(&self) -> Map<Token, Request> {
        self.requests@
    }

    /// The coordinates whose generation has been asked for and not yet pushed back.
    pub closed spec fn queued(&self) -> Set<Coord> {
        self.chunk_queque@.dom()
    }

    /// An empty register.
    pub fn new() -> (r: ChunkStore)
        ensures
            r.wf(),
            r.stored() == Map::<Coord, StoredChunk>::empty(),
            r.left() == Map::<Coord, StoredChunk>::empty(),
            r.queued() == Set::<Coord>::empty(),
            r.wanted() == Map::<Token, Request>::empty(),
    {
        let r = ChunkStore {
            chunk_queque: CoordMap::new(),
            chunks: CoordMap::new(),
            leftover: CoordMap::new(),
            requests: KeyMap::new(),
        };
        assert(r.queued() =~= Set::<Coord>::empty());
        r
    }

    /// Releases the chunks (kept or waiting) at `coords` for the user of `token`;
    /// one that nobody needs any more is dropped.
    pub fn unload(&mut self, coords: &Vec<Coord>, token: &Token)
        requires
            old(self).wf(),
        ensures
            final(self).wf(),
            final(self).queued() == old(self).queued(),
            final(self).wanted() == old(self).wanted(),
            forall|k: Coord| #[trigger] final(self).stored().contains_key(k) == (old(self).stored().contains_key(k)
                && !(coords@.contains(k) && released(old(self).stored()[k], coords@, k, *token).is_empty())),
            forall|k: Coord| #[trigger] final(self).stored().contains_key(k) ==> final(self).stored()[k].stored() == old(self).stored()[k].stored()
                && final(self).stored()[k].needers() == released(old(self).stored()[k], coords@, k, *token),
            forall|k: Coord| #[trigger] final(self).left().contains_key(k) == (old(self).left().contains_key(k)
                && !(coords@.contains(k) && released(old(self).left()[k], coords@, k, *token).is_empty())),
            forall|k: Coord| #[trigger] final(self).left().contains_key(k) ==> final(self).left()[k].stored() == old(self).left()[k].stored()
                && final(self).left()[k].needers() == released(old(self).left()[k], coords@, k, *token),
    {
        let ghost s0 = self.chunks@;
        let ghost l0 = self.leftover@;
        let n = coords.len();
        let mut i: usize = 0;
        while i < n
            invariant
                n == coords@.len(),
                i <= n,
                self.wf(),
                self.queued() == old(self).queued(),
                self.wanted() == old(self).wanted(),
                s0 == old(self).stored(),
                l0 == old(self).left(),
                forall|k: Coord| #[trigger] self.chunks@.contains_key(k) == (s0.contains_key(k)
                    && !(coords@.take(i as int).contains(k) && released(s0[k], coords@.take(i as int), k, *token).is_empty())),
                forall|k: Coord| #[trigger] self.chunks@.contains_key(k) ==> self.chunks@[k].stored() == s0[k].stored()
                    && self.chunks@[k].needers() == released(s0[k], coords@.take(i as int), k, *token),
                forall|k: Coord| #[trigger] self.leftover@.contains_key(k) == (l0.contains_key(k)
                    && !(coords@.take(i as int).contains(k) && released(l0[k], coords@.take(i as int), k, *token).is_empty())),
                forall|k: Coord| #[trigger] self.leftover@.contains_key(k) ==> self.leftover@[k].stored() == l0[k].stored()
                    && self.leftover@[k].needers() == released(l0[k], coords@.take(i as int), k, *token),
            decreases n - i,
        {
            let coord = coords[i];
            let ghost pre = coords@.take(i as int);
            let ghost post = coords@.take(i + 1);
            assert(post =~= pre.push(coord));
            assert forall|k: Coord| k != coord implies (#[trigger] post.contains(k)) == pre.contains(k) by {
                if post.contains(k) {
                    let j = choose|j: int| 0 <= j < post.len() && post[j] == k;
                    assert(j < pre.len());
                    assert(pre[j] == k);
                }
                if pre.contains(k) {
                    let j = choose|j: int| 0 <= j < pre.len() && pre[j] == k;
                    assert(post[j] == k);
                }
            }
            assert(post.contains(coord)) by { assert(post[i as int] == coord); }
            let ghost c0 = self.chunks@;
            let ghost lf0 = self.leftover@;
            match self.chunks.remove(&coord) {
                Some(mut chunk) => {
                    chunk.mark_unneeded_by(token);
                    proof {
                        if pre.contains(coord) {
                            assert(s0[coord].needers().remove(*token).remove(*token) =~= s0[coord].needers().remove(*token));
                        }
                    }
                    if chunk.is_needed() {
                        self.chunks.insert(coord, chunk);
                    }
                }
                None => {
                    proof {
                        if s0.contains_key(coord) {
                            assert(pre.contains(coord));
                            assert(s0[coord].needers().remove(*token).remove(*token) =~= s0[coord].needers().remove(*token));
                        }
                    }
                }
            }
            match self.leftover.remove(&coord) {
                Some(mut left) => {
                    left.mark_unneeded_by(token);
                    proof {
                        if pre.contains(coord) {
                            assert(l0[coord].needers().remove(*token).remove(*token) =~= l0[coord].needers().remove(*token));
                        }
                    }
                    if left.is_needed() {
                        self.leftover.insert(coord, left);
                    }
                }
                None => {
                    proof {
                        if l0.contains_key(coord) {
                            assert(pre.contains(coord));
                            assert(l0[coord].needers().remove(*token).remove(*token) =~= l0[coord].needers().remove(*token));
                        }
                    }
                }
            }
            i = i + 1;
        }
        assert(coords@.take(n as int) =~= coords@);
    }

    /// Offers `chunk` to the users: returns, for each user in some order, the
    /// chunk to load where it waits for it (unless loading is disallowed), then the
    /// change from `pre` where it follows the chunk; each user that waited for the
    /// chunk to load waits for it no more. An empty chunk is not offered. Nothing is
    /// sent here: the deliveries are handed over by `deliver`.
    fn offer(&mut self, pre: Option<Chunk>, chunk: &Chunk, disallow_loading: bool) -> (r: Vec<Delivery>)
        requires
            old(self).wf(),
            chunk.wf(),
            pre matches Some(p) ==> p.wf(),
        ensures
            final(self).wf(),
            final(self).stored() == old(self).stored(),
            final(self).left() == old(self).left(),
            final(self).queued() == old(self).queued(),
            chunk.spec_is_empty() ==> final(self).wanted() == old(self).wanted() && r@.len() == 0,
            !chunk.spec_is_empty() ==> requests_offered(old(self).wanted(), final(self).wanted(), chunk.coord,
                disallow_loading),
            final(self).wanted().dom() == old(self).wanted().dom(),
            !chunk.spec_is_empty() ==> exists|ts: Seq<Token>| {
                &&& ts.no_duplicates()
                &&& forall|t: Token| #[trigger] ts.contains(t) <==> old(self).wanted().contains_key(t)
                &&& offer_to_all(r@, old(self).wanted(), ts, pre, *chunk, disallow_loading)
            },
    {
        let mut out: Vec<Delivery> = Vec::new();
        if chunk.is_empty() {
            return out;
        }
        let ghost w0 = self.requests@;
        let tokens = self.requests.keys();
        let n = tokens.len();
        let mut i: usize = 0;
        while i < n
            invariant
                n == tokens@.len(),
                i <= n,
                chunk.wf(),
                pre matches Some(p) ==> p.wf(),
                self.wf(),
                self.stored() == old(self).stored(),
                self.left() == old(self).left(),
                self.queued() == old(self).queued(),
                w0 == old(self).wanted(),
                forall|j: int| 0 <= j < n ==> w0.contains_key(#[trigger] tokens@[j]),
                forall|t: Token| #[trigger] w0.contains_key(t) ==> tokens@.contains(t),
                forall|a: int, b: int| 0 <= a < b < n ==> #[trigger] tokens@[a] != #[trigger] tokens@[b],
                self.requests@.dom() == w0.dom(),
                forall|j: int| i <= j < n ==> #[trigger] self.requests@[tokens@[j]] == w0[tokens@[j]],
                forall|t: Token| #[trigger] self.requests@.contains_key(t) && tokens@.take(i as int).contains(t) ==> {
                    &&& self.requests@[t].load_coords@ == loads_after_offer(w0[t], chunk.coord, disallow_loading)
                    &&& self.requests@[t].update_coords == w0[t].update_coords
                    &&& self.requests@[t].load_sender == w0[t].load_sender
                    &&& self.requests@[t].update_sender == w0[t].update_sender
                },
                offer_to_all(out@, w0, tokens@.take(i as int), pre, *chunk, disallow_loading),
            decreases n - i,
        {
            let t = tokens[i];
            let ghost pre_t = tokens@.take(i as int);
            let ghost post_t = tokens@.take(i + 1);
            assert(post_t =~= pre_t.push(t));
            assert forall|k: Token| #[trigger] post_t.contains(k) == (pre_t.contains(k) || k == t) by {
                if post_t.contains(k) && k != t {
                    let j = choose|j: int| 0 <= j < post_t.len() && post_t[j] == k;
                    assert(pre_t[j] == k);
                }
                if pre_t.contains(k) {
                    let j = choose|j: int| 0 <= j < pre_t.len() && pre_t[j] == k;
                    assert(post_t[j] == k);
                }
                if k == t {
                    assert(post_t[i as int] == k);
                }
            }
            let ghost r0 = self.requests@;
            let ghost out0 = out@;
            assert(r0.contains_key(t) && r0[t] == w0[t]);
            match self.requests.remove(&t) {
                Some(mut req) => {
                    assert(req == w0[t]);
                    let listed = coord_listed(&req.load_coords, &chunk.coord);
                    if !disallow_loading && listed {
                        if req.load_sender.is_some() {
                            out.push(Delivery::Load { token: t, chunk: chunk.copy() });
                        }
                        req.load_coords = without_coord(&req.load_coords, &chunk.coord);
                    }
                    match &pre {
                        Some(p) => {
                            if coord_listed(&req.update_coords, &chunk.coord) && req.update_sender.is_some() {
                                out.push(Delivery::Change { token: t, delta: p.get_delta(chunk) });
                            }
                        }
                        None => {}
                    }
                    assert(req.load_coords@ == loads_after_offer(w0[t], chunk.coord, disallow_loading));
                    self.requests.insert(t, req);
                }
                None => {}
            }
            proof {
                let k = out0.len() as int;
                assert(post_t.drop_last() =~= pre_t);
                assert(post_t.last() == t);
                assert(out@.take(k) =~= out0);
                assert(out@.len() - offer_len(w0[t], pre, *chunk, disallow_loading) == k);
                assert forall|j: int| i + 1 <= j < n implies #[trigger] self.requests@[tokens@[j]] == w0[tokens@[j]] by {
                    assert(tokens@[j] != tokens@[i as int]);
                }
                assert forall|x: Token| #[trigger] self.requests@.contains_key(x) && post_t.contains(x) implies {
                    &&& self.requests@[x].load_coords@ == loads_after_offer(w0[x], chunk.coord, disallow_loading)
                    &&& self.requests@[x].update_coords == w0[x].update_coords
                    &&& self.requests@[x].load_sender == w0[x].load_sender
                    &&& self.requests@[x].update_sender == w0[x].update_sender
                } by {
                    if x != t {
                        assert(pre_t.contains(x));
                        assert(r0.contains_key(x) && self.requests@[x] == r0[x]);
                    }
                }
                assert(self.requests@.dom() =~= w0.dom());
            }
            i = i + 1;
        }
        proof {
            assert(tokens@.take(n as int) =~= tokens@);
            assert forall|a: int, b: int| 0 <= a < tokens@.len() && 0 <= b < tokens@.len() && a != b
                implies tokens@[a] != tokens@[b] by {
                if a < b {
                    assert(tokens@[a] != tokens@[b]);
                } else {
                    assert(tokens@[b] != tokens@[a]);
                }
            }
            assert forall|t: Token| #[trigger] tokens@.contains(t) <==> w0.contains_key(t) by {
                if tokens@.contains(t) {
                    let j = choose|j: int| 0 <= j < tokens@.len() && tokens@[j] == t;
                }
            }
            assert(tokens@.no_duplicates());
            assert(offer_to_all(out@, w0, tokens@, pre, *chunk, disallow_loading));
        }
        out
    }

    /// Hands `d` over on the sender of its user's request: the chunk on the
    /// sender for chunks, the change on the sender for changes. Where that send
    /// fails (the user's receiver is gone) the user's request is forgotten, and
    /// `false` comes back; it is forgotten in no other case. Nothing is sent where
    /// the user has no request or no such sender.
    pub fn deliver(&mut self, d: Delivery) -> (kept: bool)
        requires
            old(self).wf(),
        ensures
            final(self).wf(),
            final(self).stored() == old(self).stored(),
            final(self).left() == old(self).left(),
            final(self).queued() == old(self).queued(),
            kept ==> final(self).wanted() == old(self).wanted(),
            !kept ==> final(self).wanted() == old(self).wanted().remove(token_of(d)),
            !kept ==> old(self).wanted().contains_key(token_of(d)) && (match d {
                Delivery::Load { .. } => old(self).wanted()[token_of(d)].load_sender is Some,
                Delivery::Change { .. } => old(self).wanted()[token_of(d)].update_sender is Some,
            }),
    {
        let (token, sent) = match d {
            Delivery::Load { token, chunk } => {
                let sent = match self.requests.get(&token) {
                    Some(req) => match &req.load_sender {
                        Some(s) => s.send(chunk, false).is_ok(),
                        None => true,
                    },
                    None => true,
                };
                (token, sent)
            }
            Delivery::Change { token, delta } => {
                let sent = match self.requests.get(&token) {
                    Some(req) => match &req.update_sender {
                        Some(s) => s.send(delta, false).is_ok(),
                        None => true,
                    },
                    None => true,
                };
                (token, sent)
            }
        };
        if !sent {
            self.requests.remove(&token);
        }
        sent
    }

    /// Registers the chunks that the user of `token` wants loaded; asks for the
    /// generation of each that is neither kept nor queued, and hands over each kept
    /// one (with any waiting piece merged in) right away, in the order asked for.
    pub fn push_load_chunks(&mut self, load_coords: Vec<Coord>, token: Token, load_sender: PrioritySender<Chunk>) -> (r: (Vec<ChunkJob>, Vec<Delivery>))
        requires
            old(self).wf(),
            forall|k: Coord| #[trigger] load_coords@.contains(k) && old(self).queued().contains(k)
                ==> old(self).stored().contains_key(k),
        ensures
            final(self).wf(),
            final(self).left() == old(self).left(),
            final(self).stored().dom() == old(self).stored().dom(),
            forall|k: Coord| #[trigger] final(self).stored().contains_key(k) ==> final(self).stored()[k].needers() == old(self).stored()[k].needers(),
            forall|k: Coord| #[trigger] final(self).stored().contains_key(k) ==> refreshed(final(self).stored()[k].stored(),
                old(self).stored()[k].stored(), old(self).left(), k, load_coords@.contains(k)),
            final(self).queued() == old(self).queued().union(
                load_coords@.to_set().filter(|k: Coord| !old(self).stored().contains_key(k))),
            forall|i: int| 0 <= i < r.0@.len() ==> ((#[trigger] r.0@[i]) matches ChunkJob::Generate { coord, token: t }
                && t == token && load_coords@.contains(coord) && !old(self).stored().contains_key(coord) && !old(self).queued().contains(coord)),
            forall|k: Coord| #[trigger] load_coords@.contains(k) && !old(self).stored().contains_key(k) && !old(self).queued().contains(k)
                ==> exists|i: int| 0 <= i < r.0@.len() && #[trigger] r.0@[i] == (ChunkJob::Generate { coord: k, token }),
            forall|i: int, j: int| 0 <= i < j < r.0@.len() ==> #[trigger] r.0@[i] != #[trigger] r.0@[j],
            forall|k: Coord| #[trigger] load_coords@.contains(k)
                ==> final(self).stored().contains_key(k) || final(self).queued().contains(k),
            final(self).wanted().dom() == old(self).wanted().dom().insert(token),
            forall|t: Token| t != token && #[trigger] final(self).wanted().contains_key(t)
                ==> final(self).wanted()[t] == old(self).wanted()[t],
            final(self).wanted()[token].load_coords@ == load_coords@,
            final(self).wanted()[token].load_sender == Some(load_sender),
            r.1@.len() == kept_coords(load_coords@, old(self).stored()).len(),
            forall|i: int| 0 <= i < r.1@.len() ==> is_load_of(#[trigger] r.1@[i], token,
                final(self).stored()[kept_coords(load_coords@, old(self).stored())[i]].stored()),
            old(self).wanted().contains_key(token) ==> final(self).wanted()[token].update_coords == old(self).wanted()[token].update_coords
                && final(self).wanted()[token].update_sender == old(self).wanted()[token].update_sender,
            !old(self).wanted().contains_key(token) ==> final(self).wanted()[token].update_coords@ == Seq::<Coord>::empty()
                && final(self).wanted()[token].update_sender is None,
    {
        let request = match self.requests.remove(&token) {
            Some(r) => Request {
                load_coords: copy_coords(&load_coords),
                update_coords: r.update_coords,
                load_sender: Some(load_sender),
                update_sender: r.update_sender,
            },
            None => Request {
                load_coords: copy_coords(&load_coords),
                update_coords: Vec::new(),
                load_sender: Some(load_sender),
                update_sender: None,
            },
        };
        self.requests.insert(token, request);
        let ghost w1 = self.requests@;
        let mut jobs: Vec<ChunkJob> = Vec::new();
        let mut loads: Vec<Delivery> = Vec::new();
        let ghost q0 = self.queued();
        let n = load_coords.len();
        let mut i: usize = 0;
        while i < n
            invariant
                n == load_coords@.len(),
                i <= n,
                self.wf(),
                self.left() == old(self).left(),
                self.wanted() == w1,
                q0 == old(self).queued(),
                self.stored().dom() == old(self).stored().dom(),
                forall|k: Coord| #[trigger] self.stored().contains_key(k) ==> self.stored()[k].needers() == old(self).stored()[k].needers(),
                forall|k: Coord| #[trigger] self.stored().contains_key(k) ==> refreshed(self.stored()[k].stored(),
                    old(self).stored()[k].stored(), old(self).left(), k, load_coords@.take(i as int).contains(k)),
                forall|k: Coord| #[trigger] load_coords@.contains(k) && q0.contains(k) ==> old(self).stored().contains_key(k),
                self.queued() == q0.union(load_coords@.take(i as int).to_set().filter(|k: Coord| !old(self).stored().contains_key(k))),
                forall|a: int| 0 <= a < jobs@.len() ==> ((#[trigger] jobs@[a]) matches ChunkJob::Generate { coord, token: t }
                    && t == token && load_coords@.take(i as int).contains(coord) && !old(self).stored().contains_key(coord) && !q0.contains(coord)),
                forall|k: Coord| #[trigger] load_coords@.take(i as int).contains(k) && !old(self).stored().contains_key(k) && !q0.contains(k)
                    ==> exists|a: int| 0 <= a < jobs@.len() && #[trigger] jobs@[a] == (ChunkJob::Generate { coord: k, token }),
                forall|a: int, b: int| 0 <= a < b < jobs@.len() ==> #[trigger] jobs@[a] != #[trigger] jobs@[b],
                forall|a: int| 0 <= a < jobs@.len() ==> ((#[trigger] jobs@[a]) matches ChunkJob::Generate { coord, token: _ }
                    && self.queued().contains(coord)),
                loads@.len() == kept_coords(load_coords@.take(i as int), old(self).stored()).len(),
                forall|a: int| 0 <= a < loads@.len() ==> ((#[trigger] loads@[a]) matches Delivery::Load { token: t, chunk: c }
                    && t == token && refreshed(c, old(self).stored()[kept_coords(load_coords@.take(i as int), old(self).stored())[a]].stored(),
                        old(self).left(), kept_coords(load_coords@.take(i as int), old(self).stored())[a], true)),
            decreases n - i,
        {
            let coord = load_coords[i];
            let ghost pre = load_coords@.take(i as int);
            let ghost post = load_coords@.take(i + 1);
            assert(post =~= pre.push(coord));
            assert forall|k: Coord| #[trigger] post.contains(k) == (pre.contains(k) || k == coord) by {
                if post.contains(k) && k != coord {
                    let j = choose|j: int| 0 <= j < post.len() && post[j] == k;
                    assert(pre[j] == k);
                }
                if pre.contains(k) {
                    let j = choose|j: int| 0 <= j < pre.len() && pre[j] == k;
                    assert(post[j] == k);
                }
                if k == coord {
                    assert(post[i as int] == k);
                }
            }
            assert(load_coords@.contains(coord)) by { assert(load_coords@[i as int] == coord); }
            let ghost jobs0 = jobs@;
            let ghost q1 = self.queued();
            if !self.chunks.contains_key(&coord) && !self.chunk_queque.contains_key(&coord) {
                self.chunk_queque.insert(coord, ());
                jobs.push(ChunkJob::Generate { coord, token });
                proof {
                    assert forall|a: int, b: int| 0 <= a < b < jobs@.len() implies #[trigger] jobs@[a] != #[trigger] jobs@[b] by {
                        if b == jobs0.len() {
                            assert(jobs@[a] == jobs0[a]);
                            assert(q1.contains(jobs0[a]->Generate_coord));
                        } else {
                            assert(jobs@[a] == jobs0[a] && jobs@[b] == jobs0[b]);
                        }
                    }
                    assert forall|k: Coord| #[trigger] post.contains(k) && !old(self).stored().contains_key(k) && !q0.contains(k)
                        implies exists|a: int| 0 <= a < jobs@.len() && #[trigger] jobs@[a] == (ChunkJob::Generate { coord: k, token }) by {
                        if k == coord {
                            assert(jobs@[jobs0.len() as int] == (ChunkJob::Generate { coord: k, token }));
                        } else {
                            let a = choose|a: int| 0 <= a < jobs0.len() && #[trigger] jobs0[a] == (ChunkJob::Generate { coord: k, token });
                            assert(jobs@[a] == jobs0[a]);
                        }
                    }
                    assert(self.queued() =~= q0.union(post.to_set().filter(|k: Coord| !old(self).stored().contains_key(k))));
                    assert(kept_coords(post, old(self).stored()) =~= kept_coords(pre, old(self).stored())) by {
                        assert(post.drop_last() =~= pre);
                    }
                }
            } else {
                proof {
                    if !old(self).stored().contains_key(coord) {
                        assert(q1.contains(coord));
                        if !q0.contains(coord) {
                            assert(pre.contains(coord));
                        }
                    }
                    assert forall|k: Coord| #[trigger] post.contains(k) && !old(self).stored().contains_key(k) && !q0.contains(k)
                        implies exists|a: int| 0 <= a < jobs@.len() && #[trigger] jobs@[a] == (ChunkJob::Generate { coord: k, token }) by {
                        if k == coord {
                            assert(pre.contains(k));
                        }
                    }
                    assert(self.queued() =~= q0.union(post.to_set().filter(|k: Coord| !old(self).stored().contains_key(k))));
                }
                let ghost s1 = self.chunks@;
                match self.chunks.remove(&coord) {
                    Some(mut stored) => {
                        match self.leftover.get(&coord) {
                            Some(left) => {
                                stored.merge_chunk(left.chunk());
                            }
                            None => {}
                        }
                        let sent = stored.chunk().copy();
                        proof {
                            assert(s1.contains_key(coord));
                            assert(kept_coords(post, old(self).stored()) =~= kept_coords(pre, old(self).stored()).push(coord)) by {
                                assert(post.drop_last() =~= pre);
                            }
                        }
                        let ghost loads0 = loads@;
                        loads.push(Delivery::Load { token, chunk: sent });
                        proof {
                            let kp = kept_coords(post, old(self).stored());
                            assert forall|a: int| 0 <= a < loads@.len() implies ((#[trigger] loads@[a]) matches Delivery::Load { token: t, chunk: c }
                                && t == token && refreshed(c, old(self).stored()[kp[a]].stored(), old(self).left(), kp[a], true)) by {
                                if a < loads0.len() {
                                    assert(loads@[a] == loads0[a]);
                                }
                            }
                        }
                        self.chunks.insert(coord, stored);
                        proof {
                            assert(self.chunks@.dom() =~= s1.dom());
                        }
                    }
                    None => {
                        proof {
                            assert(!old(self).stored().contains_key(coord));
                            assert(kept_coords(post, old(self).stored()) =~= kept_coords(pre, old(self).stored())) by {
                                assert(post.drop_last() =~= pre);
                            }
                        }
                    }
                }
            }
            i = i + 1;
        }
        proof {
            assert(load_coords@.take(n as int) =~= load_coords@);
            assert(self.wanted().dom() =~= old(self).wanted().dom().insert(token));
            let kept = kept_coords(load_coords@, old(self).stored());
            lemma_kept_coords(load_coords@, old(self).stored());
            assert forall|a: int| 0 <= a < loads@.len() implies is_load_of(#[trigger] loads@[a], token,
                self.stored()[kept[a]].stored()) by {
                let k = kept[a];
                assert(load_coords@.contains(k) && old(self).stored().contains_key(k));
                assert(self.stored().contains_key(k));
                let f = self.stored()[k].stored();
                let c = loads@[a]->Load_chunk;
                assert(refreshed(f, old(self).stored()[k].stored(), old(self).left(), k, true));
                assert(refreshed(c, old(self).stored()[k].stored(), old(self).left(), k, true));
                assert forall|x: int, y: int, z: int| in_chunk(x, y, z) implies #[trigger] c.at(x, y, z) == f.at(x, y, z) by {
                    assert(c.at(x, y, z) == f.at(x, y, z));
                }
            }
        }
        (jobs, loads)
    }

    /// Takes in chunks generated for the user of `token`. The main chunk, with any
    /// piece waiting at its coordinate merged in, is kept (needed by that user)
    /// unless it is empty, and handed to the users waiting for it; its coordinate
    /// leaves the queue. Each other chunk is merged into the piece waiting at its
    /// coordinate (or waits as a new piece), needed by that user too; where a chunk
    /// is kept there, that piece is merged into it, which is handed to the users
    /// waiting for it, with the change to the users that follow it; else the
    /// piece's change is handed to them. Returns what is handed out, each once
    /// (see `owed`); `deliver` sends it.
    pub fn push_super_chunk(&mut self, super_chunk: SuperChunk, token: Token) -> (out: Vec<Delivery>)
        requires
            old(self).wf(),
            super_chunk.wf(),
            super_chunk.has_main(),
        ensures
            final(self).wf(),
            final(self).queued() == old(self).queued().remove(super_chunk.main_chunk),
            !final(self).left().contains_key(super_chunk.main_chunk),
            (forall|x: int, y: int, z: int| in_chunk(x, y, z)
                ==> #[trigger] main_after(super_chunk, old(self).left(), x, y, z) == Block::Empty) ==> {
                &&& final(self).stored().contains_key(super_chunk.main_chunk) == old(self).stored().contains_key(super_chunk.main_chunk)
                &&& final(self).stored().contains_key(super_chunk.main_chunk)
                    ==> final(self).stored()[super_chunk.main_chunk] == old(self).stored()[super_chunk.main_chunk]
            },
            !(forall|x: int, y: int, z: int| in_chunk(x, y, z)
                ==> #[trigger] main_after(super_chunk, old(self).left(), x, y, z) == Block::Empty) ==> {
                &&& final(self).stored().contains_key(super_chunk.main_chunk)
                &&& final(self).stored()[super_chunk.main_chunk].needers() == Set::<Token>::empty().insert(token)
                &&& forall|x: int, y: int, z: int| in_chunk(x, y, z)
                    ==> #[trigger] final(self).stored()[super_chunk.main_chunk].stored().at(x, y, z)
                        == main_after(super_chunk, old(self).left(), x, y, z)
            },
            forall|k: Coord| k != super_chunk.main_chunk && #[trigger] side_piece(super_chunk, k) is None ==> {
                &&& final(self).stored().contains_key(k) == old(self).stored().contains_key(k)
                &&& final(self).stored().contains_key(k) ==> final(self).stored()[k] == old(self).stored()[k]
                &&& final(self).left().contains_key(k) == old(self).left().contains_key(k)
                &&& final(self).left().contains_key(k) ==> final(self).left()[k] == old(self).left()[k]
            },
            forall|k: Coord| #[trigger] side_piece(super_chunk, k) is Some && old(self).stored().contains_key(k) ==> {
                &&& final(self).stored().contains_key(k)
                &&& !final(self).left().contains_key(k)
                &&& final(self).stored()[k].needers() == old(self).stored()[k].needers().insert(token)
                &&& forall|x: int, y: int, z: int| in_chunk(x, y, z) ==> #[trigger] final(self).stored()[k].stored().at(x, y, z)
                    == merged(old(self).stored()[k].stored().at(x, y, z),
                        layered(kept_at(old(self).left(), k), side_piece(super_chunk, k), x, y, z))
            },
            forall|k: Coord| #[trigger] side_piece(super_chunk, k) is Some && !old(self).stored().contains_key(k) ==> {
                &&& !final(self).stored().contains_key(k)
                &&& final(self).left().contains_key(k)
                &&& final(self).left()[k].needers() == needers_at(old(self).left(), k).insert(token)
                &&& forall|x: int, y: int, z: int| in_chunk(x, y, z) ==> #[trigger] final(self).left()[k].stored().at(x, y, z)
                    == layered(kept_at(old(self).left(), k), side_piece(super_chunk, k), x, y, z)
            },
            requests_narrowed(old(self).wanted(), final(self).wanted(),
                Set::new(|k: Coord| k == super_chunk.main_chunk || side_piece(super_chunk, k) is Some)),
            final(self).wanted().dom() == old(self).wanted().dom(),
            forall|i: int| 0 <= i < out@.len() ==> owed(#[trigger] out@[i], old(self).wanted(), super_chunk,
                old(self).stored(), old(self).left()),
            out@.no_duplicates(),
            forall|t: Token| #[trigger] old(self).wanted().contains_key(t)
                && gets_load(old(self).wanted()[t], super_chunk.main_chunk, false)
                && !all_empty(main_blocks(super_chunk, old(self).left()))
                ==> delivers(out@, true, t, super_chunk.main_chunk),
            forall|k: Coord, t: Token| side_piece(super_chunk, k) is Some && old(self).stored().contains_key(k)
                && old(self).wanted().contains_key(t) && #[trigger] gets_load(old(self).wanted()[t], k, false)
                && !all_empty(kept_blocks(super_chunk, old(self).stored(), old(self).left(), k))
                ==> delivers(out@, true, t, k),
            forall|k: Coord, t: Token| side_piece(super_chunk, k) is Some && old(self).wanted().contains_key(t)
                && #[trigger] gets_change(old(self).wanted()[t], k)
                && (if old(self).stored().contains_key(k) {
                    !all_empty(kept_blocks(super_chunk, old(self).stored(), old(self).left(), k))
                } else {
                    !side_piece(super_chunk, k)->0.spec_is_empty()
                })
                ==> delivers(out@, false, t, k),
    {
        let ghost s0 = self.chunks@;
        let ghost l0 = self.leftover@;
        let ghost w0 = self.requests@;
        let ghost lost = Set::new(|k: Coord| k == super_chunk.main_chunk || side_piece(super_chunk, k) is Some);
        let mut sc = super_chunk;
        let main0 = sc.remove_main_chunk();
        let ghost rest = sc.chunks@;
        proof {
            let i0 = find(super_chunk.chunks@, super_chunk.main_chunk)->0;
            assert(super_chunk.chunks@[i0].0 == super_chunk.main_chunk);
            assert(main0.coord == super_chunk.main_chunk);
            assert(rest == side_pieces(super_chunk));
            assert forall|j: int| 0 <= j < rest.len() implies #[trigger] rest[j].0 != super_chunk.main_chunk by {
                let j2 = if j < i0 { j } else { j + 1 };
                assert(rest[j] == super_chunk.chunks@[j2]);
                if j2 < i0 {
                    assert(crate::super_chunk::key_lt(super_chunk.chunks@[j2].0, super_chunk.chunks@[i0].0));
                } else {
                    assert(crate::super_chunk::key_lt(super_chunk.chunks@[i0].0, super_chunk.chunks@[j2].0));
                }
            }
        }
        let mc = sc.main_chunk;
        let mut main = main0;
        self.chunk_queque.remove(&mc);
        match self.leftover.remove(&mc) {
            Some(left) => {
                main.merge(left.chunk());
            }
            None => {}
        }
        assert forall|x: int, y: int, z: int| in_chunk(x, y, z) implies
            #[trigger] main.at(x, y, z) == main_after(super_chunk, l0, x, y, z) by {}
        let empty = main.is_empty();
        proof {
            if empty {
                assert forall|x: int, y: int, z: int| in_chunk(x, y, z) implies
                    #[trigger] main_after(super_chunk, l0, x, y, z) == Block::Empty by {
                    assert(main.at(x, y, z) == Block::Empty);
                }
                assert forall|x: int, y: int, z: int| in_chunk(x, y, z) implies
                    #[trigger] main_blocks(super_chunk, l0)(x, y, z) == Block::Empty by {
                    assert(main.at(x, y, z) == Block::Empty);
                }
            } else {
                let (x, y, z) = choose|x: int, y: int, z: int| in_chunk(x, y, z) && #[trigger] main.at(x, y, z) != Block::Empty;
                assert(main_after(super_chunk, l0, x, y, z) != Block::Empty);
                assert(main_blocks(super_chunk, l0)(x, y, z) != Block::Empty);
            }
        }
        let mut out: Vec<Delivery> = Vec::new();
        if !empty {
            let mut handed = self.offer(None, &main, false);
            proof {
                let ts = choose|ts: Seq<Token>| {
                    &&& ts.no_duplicates()
                    &&& forall|t: Token| #[trigger] ts.contains(t) <==> w0.contains_key(t)
                    &&& offer_to_all(handed@, w0, ts, None, main, false)
                };
                lemma_offer_owed(handed@, w0, w0, ts, None, main, false);
                assert forall|j: int| 0 <= j < handed@.len() implies owed(#[trigger] handed@[j], w0, super_chunk, s0, l0)
                    && coord_of(handed@[j]) == mc by {
                    let d = handed@[j];
                    let t = token_of(d);
                    assert(offers(d, t, w0[t], None, main, false));
                    let c = d->Load_chunk;
                    assert forall|x: int, y: int, z: int| in_chunk(x, y, z) implies
                        #[trigger] c.at(x, y, z) == main_blocks(super_chunk, l0)(x, y, z) by {
                        assert(c.at(x, y, z) == main.at(x, y, z));
                    }
                }
                assert forall|t: Token| #[trigger] w0.contains_key(t) && gets_load(w0[t], mc, false)
                    implies delivers(handed@, true, t, mc) by {
                    let j = choose|j: int| 0 <= j < handed@.len() && is_load_of(#[trigger] handed@[j], t, main);
                    assert(coord_of(handed@[j]) == mc);
                }
            }
            out.append(&mut handed);
            proof { lemma_offer_narrows(w0, w0, self.requests@, mc, false, lost); }
            let mut stored = StoredChunk::new(main);
            stored.mark_needed_by(token);
            self.chunks.insert(mc, stored);
        }
        proof {
            if empty {
                assert forall|t: Token| #[trigger] self.requests@.contains_key(t) implies
                    forall|c: Coord| #[trigger] self.requests@[t].load_coords@.contains(c) ==> w0[t].load_coords@.contains(c) by {}
                assert(out@.len() == 0);
            } else {
                assert forall|t: Token, c: Coord| #[trigger] self.requests@[t].load_coords@.contains(c)
                    && self.requests@.contains_key(t) && c != mc
                    implies self.requests@[t].load_coords@.contains(c) == w0[t].load_coords@.contains(c) by {
                    lemma_without(w0[t].load_coords@, mc);
                }
                assert forall|t: Token, c: Coord| self.requests@.contains_key(t) && c != mc
                    && !self.requests@[t].load_coords@.contains(c) implies !w0[t].load_coords@.contains(c) by {
                    lemma_without(w0[t].load_coords@, mc);
                }
            }
            assert(empty <==> all_empty(main_blocks(super_chunk, l0)));
        }
        let n = sc.chunks.len();
        let mut i: usize = 0;
        while i < n
            invariant
                n == rest.len(),
                i <= n,
                sc.chunks@ == rest,
                sc.wf(),
                rest == side_pieces(super_chunk),
                forall|j: int| 0 <= j < rest.len() ==> #[trigger] rest[j].0 != mc,
                mc == super_chunk.main_chunk,
                self.wf(),
                self.queued() == old(self).queued().remove(mc),
                s0 == old(self).stored(),
                l0 == old(self).left(),
                w0 == old(self).wanted(),
                lost == Set::new(|k: Coord| k == super_chunk.main_chunk || side_piece(super_chunk, k) is Some),
                requests_narrowed(w0, self.requests@, lost),
                self.requests@.dom() == w0.dom(),
                !self.leftover@.contains_key(mc),
                empty ==> self.chunks@.contains_key(mc) == s0.contains_key(mc)
                    && (self.chunks@.contains_key(mc) ==> self.chunks@[mc] == s0[mc]),
                !empty ==> self.chunks@.contains_key(mc)
                    && self.chunks@[mc].needers() == Set::<Token>::empty().insert(token)
                    && forall|x: int, y: int, z: int| in_chunk(x, y, z)
                        ==> #[trigger] self.chunks@[mc].stored().at(x, y, z) == main_after(super_chunk, l0, x, y, z),
                forall|k: Coord| k != mc && (#[trigger] find(rest, k) is None || find(rest, k)->0 >= i) ==> {
                    &&& self.chunks@.contains_key(k) == s0.contains_key(k)
                    &&& self.chunks@.contains_key(k) ==> self.chunks@[k] == s0[k]
                    &&& self.leftover@.contains_key(k) == l0.contains_key(k)
                    &&& self.leftover@.contains_key(k) ==> self.leftover@[k] == l0[k]
                },
                forall|k: Coord| #[trigger] find(rest, k) is Some && find(rest, k)->0 < i && s0.contains_key(k) ==> {
                    &&& self.chunks@.contains_key(k)
                    &&& !self.leftover@.contains_key(k)
                    &&& self.chunks@[k].needers() == s0[k].needers().insert(token)
                    &&& forall|x: int, y: int, z: int| in_chunk(x, y, z) ==> #[trigger] self.chunks@[k].stored().at(x, y, z)
                        == merged(s0[k].stored().at(x, y, z), layered(kept_at(l0, k), Some(rest[find(rest, k)->0].1), x, y, z))
                },
                forall|k: Coord| #[trigger] find(rest, k) is Some && find(rest, k)->0 < i && !s0.contains_key(k) ==> {
                    &&& !self.chunks@.contains_key(k)
                    &&& self.leftover@.contains_key(k)
                    &&& self.leftover@[k].needers() == needers_at(l0, k).insert(token)
                    &&& forall|x: int, y: int, z: int| in_chunk(x, y, z) ==> #[trigger] self.leftover@[k].stored().at(x, y, z)
                        == layered(kept_at(l0, k), Some(rest[find(rest, k)->0].1), x, y, z)
                },
                self.requests@.dom() == w0.dom(),
                empty <==> all_empty(main_blocks(super_chunk, l0)),
                forall|j: int| 0 <= j < out@.len() ==> owed(#[trigger] out@[j], w0, super_chunk, s0, l0),
                out@.no_duplicates(),
                forall|j: int| 0 <= j < out@.len() ==> coord_of(#[trigger] out@[j]) == mc
                    || (find(rest, coord_of(out@[j])) is Some && find(rest, coord_of(out@[j]))->0 < i),
                forall|t: Token| #[trigger] w0.contains_key(t) && gets_load(w0[t], mc, false) && !empty
                    ==> delivers(out@, true, t, mc),
                forall|k: Coord, t: Token| find(rest, k) is Some && find(rest, k)->0 < i && s0.contains_key(k)
                    && w0.contains_key(t) && #[trigger] gets_load(w0[t], k, false)
                    && !all_empty(kept_blocks(super_chunk, s0, l0, k)) ==> delivers(out@, true, t, k),
                forall|k: Coord, t: Token| find(rest, k) is Some && find(rest, k)->0 < i && w0.contains_key(t)
                    && #[trigger] gets_change(w0[t], k)
                    && (if s0.contains_key(k) { !all_empty(kept_blocks(super_chunk, s0, l0, k)) }
                        else { !side_piece(super_chunk, k)->0.spec_is_empty() }) ==> delivers(out@, false, t, k),
                forall|t: Token, c: Coord| #[trigger] self.requests@[t].load_coords@.contains(c)
                    && self.requests@.contains_key(t) && c != mc && (find(rest, c) is None || find(rest, c)->0 >= i)
                    ==> w0[t].load_coords@.contains(c),
                forall|t: Token, c: Coord| self.requests@.contains_key(t) && c != mc && (find(rest, c) is None || find(rest, c)->0 >= i)
                    && #[trigger] w0[t].load_coords@.contains(c) ==> self.requests@[t].load_coords@.contains(c),
            decreases n - i,
        {
            let coord = sc.chunks[i].0;
            proof {
                lemma_find_unique(rest, i as int);
                assert(coord != mc);
                assert(side_piece(super_chunk, coord) is Some);
                assert(lost.contains(coord));
            }
            let piece = sc.chunks[i].1.copy();
            let ghost c = rest[i as int].1;
            let acc = match self.leftover.remove(&coord) {
                Some(mut l) => {
                    l.merge_chunk(&piece);
                    l.mark_needed_by(token);
                    l
                }
                None => {
                    let mut l = StoredChunk::new(piece.copy());
                    l.mark_needed_by(token);
                    l
                }
            };
            assert forall|x: int, y: int, z: int| in_chunk(x, y, z) implies #[trigger] acc.stored().at(x, y, z)
                == layered(kept_at(l0, coord), Some(c), x, y, z) by {}
            assert(acc.needers() == needers_at(l0, coord).insert(token)) by {
                if !l0.contains_key(coord) {
                    assert(Set::<Token>::empty().insert(token) =~= needers_at(l0, coord).insert(token));
                }
            }
            let ghost wb = self.requests@;
            match self.chunks.remove(&coord) {
                Some(mut stored) => {
                    stored.mark_needed_by(token);
                    let pre = stored.chunk().copy();
                    stored.merge_chunk(acc.chunk());
                    let now = stored.chunk().copy();
                    self.chunks.insert(coord, stored);
                    let ghost pre_g = pre;
                    proof {
                        assert(pre_g.same_as(s0[coord].stored()));
                        assert(s0[coord].stored().coord == coord);
                        assert(side_piece(super_chunk, coord) == Some(c));
                        assert forall|x: int, y: int, z: int| in_chunk(x, y, z) implies
                            #[trigger] now.at(x, y, z) == kept_blocks(super_chunk, s0, l0, coord)(x, y, z) by {}
                        assert(now.spec_is_empty() <==> all_empty(kept_blocks(super_chunk, s0, l0, coord))) by {
                            if !now.spec_is_empty() {
                                let (x, y, z) = choose|x: int, y: int, z: int| in_chunk(x, y, z) && #[trigger] now.at(x, y, z) != Block::Empty;
                                assert(kept_blocks(super_chunk, s0, l0, coord)(x, y, z) != Block::Empty);
                            } else {
                                assert forall|x: int, y: int, z: int| in_chunk(x, y, z) implies
                                    #[trigger] kept_blocks(super_chunk, s0, l0, coord)(x, y, z) == Block::Empty by {
                                    assert(now.at(x, y, z) == Block::Empty);
                                }
                            }
                        }
                    }
                    let mut handed = self.offer(Some(pre), &now, false);
                    proof {
                        if !now.spec_is_empty() {
                            lemma_offer_narrows(w0, wb, self.requests@, coord, false, lost);
                            let ts = choose|ts: Seq<Token>| {
                                &&& ts.no_duplicates()
                                &&& forall|t: Token| #[trigger] ts.contains(t) <==> wb.contains_key(t)
                                &&& offer_to_all(handed@, wb, ts, Some(pre_g), now, false)
                            };
                            assert forall|t: Token| #[trigger] wb.contains_key(t) implies {
                                &&& wb[t].load_coords@.contains(now.coord) == w0[t].load_coords@.contains(now.coord)
                                &&& wb[t].update_coords == w0[t].update_coords
                                &&& wb[t].load_sender == w0[t].load_sender
                                &&& wb[t].update_sender == w0[t].update_sender
                            } by {
                                if wb[t].load_coords@.contains(coord) {
                                } else if w0[t].load_coords@.contains(coord) {
                                }
                            }
                            lemma_offer_owed(handed@, wb, w0, ts, Some(pre_g), now, false);
                            assert forall|j: int| 0 <= j < handed@.len() implies owed(#[trigger] handed@[j], w0, super_chunk, s0, l0)
                                && coord_of(handed@[j]) == coord by {
                                let d = handed@[j];
                                let t = token_of(d);
                                assert(offers(d, t, w0[t], Some(pre_g), now, false));
                                if d is Load {
                                    let cc = d->Load_chunk;
                                    assert forall|x: int, y: int, z: int| in_chunk(x, y, z) implies
                                        #[trigger] cc.at(x, y, z) == kept_blocks(super_chunk, s0, l0, coord)(x, y, z) by {
                                        assert(cc.at(x, y, z) == now.at(x, y, z));
                                    }
                                } else {
                                    assert(is_change_of(d, t, pre_g, now));
                                }
                            }
                            assert forall|t: Token| #[trigger] w0.contains_key(t) && gets_load(w0[t], coord, false)
                                implies delivers(handed@, true, t, coord) by {
                                let j = choose|j: int| 0 <= j < handed@.len() && is_load_of(#[trigger] handed@[j], t, now);
                                assert(coord_of(handed@[j]) == coord);
                            }
                            assert forall|t: Token| #[trigger] w0.contains_key(t) && gets_change(w0[t], coord)
                                implies delivers(handed@, false, t, coord) by {
                                let j = choose|j: int| 0 <= j < handed@.len() && is_change_of(#[trigger] handed@[j], t, pre_g, now);
                                assert(coord_of(handed@[j]) == coord);
                            }
                        }
                    }
                    let ghost out0 = out@;
                    let ghost hb = handed@;
                    out.append(&mut handed);
                    proof {
                        lemma_step_append(out0, hb, out@, w0, super_chunk, s0, l0, rest, mc, coord, i as int);
                    }
                }
                None => {
                    self.leftover.insert(coord, acc);
                    let blank = Chunk::new(coord);
                    let ghost blank_g = blank;
                    proof {
                        assert(side_piece(super_chunk, coord) == Some(c));
                        assert(!s0.contains_key(coord));
                        assert(piece.same_as(c));
                        assert(piece.spec_is_empty() <==> c.spec_is_empty()) by {
                            if !piece.spec_is_empty() {
                                let (x, y, z) = choose|x: int, y: int, z: int| in_chunk(x, y, z) && #[trigger] piece.at(x, y, z) != Block::Empty;
                                assert(c.at(x, y, z) != Block::Empty);
                            }
                            if !c.spec_is_empty() {
                                let (x, y, z) = choose|x: int, y: int, z: int| in_chunk(x, y, z) && #[trigger] c.at(x, y, z) != Block::Empty;
                                assert(piece.at(x, y, z) != Block::Empty);
                            }
                        }
                        assert forall|x: int, y: int, z: int| in_chunk(x, y, z) implies
                            #[trigger] blank_g.at(x, y, z) == no_blocks()(x, y, z) by {}
                    }
                    let mut handed = self.offer(Some(blank), &piece, true);
                    proof {
                        if !piece.spec_is_empty() {
                            lemma_offer_narrows(w0, wb, self.requests@, coord, true, lost);
                            let ts = choose|ts: Seq<Token>| {
                                &&& ts.no_duplicates()
                                &&& forall|t: Token| #[trigger] ts.contains(t) <==> wb.contains_key(t)
                                &&& offer_to_all(handed@, wb, ts, Some(blank_g), piece, true)
                            };
                            assert forall|t: Token| #[trigger] wb.contains_key(t) implies {
                                &&& wb[t].load_coords@.contains(piece.coord) == w0[t].load_coords@.contains(piece.coord)
                                &&& wb[t].update_coords == w0[t].update_coords
                                &&& wb[t].load_sender == w0[t].load_sender
                                &&& wb[t].update_sender == w0[t].update_sender
                            } by {
                                if wb[t].load_coords@.contains(coord) {
                                } else if w0[t].load_coords@.contains(coord) {
                                }
                            }
                            lemma_offer_owed(handed@, wb, w0, ts, Some(blank_g), piece, true);
                            assert forall|j: int| 0 <= j < handed@.len() implies owed(#[trigger] handed@[j], w0, super_chunk, s0, l0)
                                && coord_of(handed@[j]) == coord by {
                                let d = handed@[j];
                                let t = token_of(d);
                                assert(offers(d, t, w0[t], Some(blank_g), piece, true));
                                assert(is_change_of(d, t, blank_g, piece));
                            }
                            assert forall|t: Token| #[trigger] w0.contains_key(t) && gets_change(w0[t], coord)
                                implies delivers(handed@, false, t, coord) by {
                                let j = choose|j: int| 0 <= j < handed@.len() && is_change_of(#[trigger] handed@[j], t, blank_g, piece);
                                assert(coord_of(handed@[j]) == coord);
                            }
                        }
                    }
                    let ghost out0 = out@;
                    let ghost hb = handed@;
                    out.append(&mut handed);
                    proof {
                        lemma_step_append(out0, hb, out@, w0, super_chunk, s0, l0, rest, mc, coord, i as int);
                    }
                }
            }
            proof {
                assert forall|k: Coord| #[trigger] find(rest, k) is Some && find(rest, k)->0 < i + 1 && k != coord
                    implies find(rest, k)->0 < i by {
                    if find(rest, k)->0 == i {
                        assert(rest[i as int].0 == k);
                    }
                }
            }
            i = i + 1;
        }
        proof {
            assert forall|k: Coord| #[trigger] side_piece(super_chunk, k) is Some implies find(rest, k) is Some
                && find(rest, k)->0 < n && side_piece(super_chunk, k) == Some(rest[find(rest, k)->0].1) by {
                let j = find(rest, k)->0;
                assert(rest[j].0 == k);
            }
        }
        out
    }

    /// Sets the chunks whose changes the user of `token` wants sent to `update_sender`.
    pub fn set_update_chunks(&mut self, update_coords: Vec<Coord>, token: Token, update_sender: PrioritySender<ChunkDelta>)
        requires
            old(self).wf(),
        ensures
            final(self).wf(),
            final(self).stored() == old(self).stored(),
            final(self).left() == old(self).left(),
            final(self).queued() == old(self).queued(),
            final(self).wanted().dom() == old(self).wanted().dom().insert(token),
            forall|t: Token| t != token && #[trigger] final(self).wanted().contains_key(t)
                ==> final(self).wanted()[t] == old(self).wanted()[t],
            final(self).wanted()[token].update_coords@ == update_coords@,
            final(self).wanted()[token].update_sender == Some(update_sender),
            old(self).wanted().contains_key(token) ==> final(self).wanted()[token].load_coords == old(self).wanted()[token].load_coords
                && final(self).wanted()[token].load_sender == old(self).wanted()[token].load_sender,
            !old(self).wanted().contains_key(token) ==> final(self).wanted()[token].load_coords@ == Seq::<Coord>::empty()
                && final(self).wanted()[token].load_sender is None,
    {
        let request = match self.requests.remove(&token) {
            Some(r) => Request {
                load_coords: r.load_coords,
                update_coords,
                load_sender: r.load_sender,
                update_sender: Some(update_sender),
            },
            None => Request {
                load_coords: Vec::new(),
                update_coords,
                load_sender: None,
                update_sender: Some(update_sender),
            },
        };
        self.requests.insert(token, request);
        assert(self.wanted().dom() =~= old(self).wanted().dom().insert(token));
    }

    /// Whether the chunks at `load_coords` can be asked for: none of them is queued
    /// for generation without being kept.
    pub fn loads_accepted(&self, load_coords: &Vec<Coord>) -> (r: bool)
        ensures
            r == forall|k: Coord| #[trigger] load_coords@.contains(k) && self.queued().contains(k)
                ==> self.stored().contains_key(k),
    {
        let n = load_coords.len();
        let mut i: usize = 0;
        while i < n
            invariant
                n == load_coords@.len(),
                i <= n,
                forall|j: int| 0 <= j < i ==> (self.queued().contains(#[trigger] load_coords@[j])
                    ==> self.stored().contains_key(load_coords@[j])),
            decreases n - i,
        {
            let k = load_coords[i];
            if self.chunk_queque.contains_key(&k) && !self.chunks.contains_key(&k) {
                assert(load_coords@.contains(k)) by { assert(load_coords@[i as int] == k); }
                return false;
            }
            i = i + 1;
        }
        proof {
            assert forall|k: Coord| #[trigger] load_coords@.contains(k) && self.queued().contains(k)
                implies self.stored().contains_key(k) by {
                let j = choose|j: int| 0 <= j < n && load_coords@[j] == k;
                assert(self.queued().contains(load_coords@[j]));
            }
        }
        true
    }
}

/// What is read at world position `w` in a group that holds only an empty chunk
/// at `coord`.
pub open spec fn fresh_at(coord: Coord, w: [i64; 3]) -> Option<Block> {
    if chunk_key(w) == coord { Some(Block::Empty) } else { None }
}

/// The work for placing `structure` at `coord` for the user of `token`: a group
/// that holds an empty chunk at `coord` with the structure stamped at `coord`
/// as a world position, to be pushed back to the register.
pub fn structure_job(coord: Coord, structure: &Structure, token: Token) -> (job: ChunkJob)
    requires
        structure.wf(),
        stamp_fits(*structure, coord),
    ensures
        job matches ChunkJob::PushSuperChunk { super_chunk, token: t } && {
            &&& t == token
            &&& super_chunk.wf()
            &&& super_chunk.main_chunk == coord
            &&& super_chunk.has_main()
            &&& forall|w: [i64; 3]| #[trigger] super_chunk.block_at(w)
                == stamped_all(fresh_at(coord, w), *structure, coord, w)
        },
{
    let mut super_chunk = SuperChunk::new(Chunk::new(coord));
    proof {
        lemma_find_unique(super_chunk.chunks@, 0);
        assert forall|w: [i64; 3]| #[trigger] super_chunk.block_at(w) == fresh_at(coord, w) by {
            if chunk_key(w) == coord {
                lemma_find_unique(super_chunk.chunks@, 0);
                crate::super_chunk::lemma_split_unique(w, w);
            } else {
                assert(find(super_chunk.chunks@, chunk_key(w)) is None) by {
                    if find(super_chunk.chunks@, chunk_key(w)) is Some {
                        let j = find(super_chunk.chunks@, chunk_key(w))->0;
                        assert(super_chunk.chunks@[j].0 == chunk_key(w));
                    }
                }
            }
        }
    }
    assert(super_chunk.has_key(coord));
    super_chunk.place_structure(structure, coord);
    assert(super_chunk.has_main());
    ChunkJob::PushSuperChunk { super_chunk, token }
}

/// Whether `c` is listed in `coords`.
fn coord_listed(coords: &Vec<Coord>, c: &Coord) -> (r: bool)
    ensures
        r == coords@.contains(*c),
{
    let n = coords.len();
    let mut i: usize = 0;
    while i < n
        invariant
            n == coords@.len(),
            i <= n,
            forall|j: int| 0 <= j < i ==> coords@[j] != *c,
        decreases n - i,
    {
        if coord_eq(&coords[i], c) {
            assert(coords@[i as int] == *c);
            return true;
        }
        i = i + 1;
    }
    false
}

/// The coordinates of `coords` other than `c`, in order.
fn without_coord(coords: &Vec<Coord>, c: &Coord) -> (r: Vec<Coord>)
    ensures
        r@ == without(coords@, *c),
{
    let mut r: Vec<Coord> = Vec::new();
    let n = coords.len();
    let mut i: usize = 0;
    while i < n
        invariant
            n == coords@.len(),
            i <= n,
            r@ == without(coords@.take(i as int), *c),
        decreases n - i,
    {
        let ghost pre = coords@.take(i as int);
        assert(coords@.take(i + 1).drop_last() =~= pre);
        if !coord_eq(&coords[i], c) {
            r.push(coords[i]);
        }
        proof {
            reveal_with_fuel(Seq::<Coord>::filter, 1);
        }
        i = i + 1;
    }
    assert(coords@.take(n as int) =~= coords@);
    r
}

/// A copy of `coords`.
fn copy_coords(coords: &Vec<Coord>) -> (r: Vec<Coord>)
    ensures
        r@ == coords@,
{
    let mut r: Vec<Coord> = Vec::new();
    let n = coords.len();
    let mut i: usize = 0;
    while i < n
        invariant
            n == coords@.len(),
            i <= n,
            r@ == coords@.take(i as int),
        decreases n - i,
    {
        r.push(coords[i]);
        i = i + 1;
        assert(r@ =~= coords@.take(i as int));
    }
    assert(coords@.take(n as int) =~= coords@);
    r
}

} // verus!