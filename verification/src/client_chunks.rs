//! The chunks a client knows: those loaded whole and those built up from the
//! changes it received. Each chunk that arrives or changes is handed back to be
//! drawn.
use vstd::prelude::*;
use crate::chunk::{Chunk, ChunkDelta, in_chunk, merged, written, entry_pos, pos_in_chunk};
use crate::coord_map::CoordMap;
use crate::Coord;

verus! {

/// The chunks known to a client.
pub struct ClientChunks {
    chunks: CoordMap<Chunk>,
}

impl ClientChunks {
    /// Every chunk known is well formed and known under its own coordinate.
    pub closed spec fn wf(&self) -> bool {
        forall|k: Coord| #[trigger] self.chunks@.contains_key(k) ==> self.chunks@[k].wf() && self.chunks@[k].coord == k
    }

    /// The chunks known, by coordinate.
    pub closed spec fn known(&self) -> Map<Coord, Chunk> {
        self.chunks@
    }

    /// No chunk known yet.
    pub fn new() -> (r: ClientChunks)
        ensures
            r.wf(),
            r.known() == Map::<Coord, Chunk>::empty(),
    {
        ClientChunks { chunks: CoordMap::new() }
    }

    /// A chunk arrived whole. Where changes to it arrived first, the blocks they
    /// set that are not `Empty` are kept over it. The result is known from now on
    /// and returned to be drawn.
    pub fn load(&mut self, chunk: Chunk) -> (r: Chunk)
        requires
            old(self).wf(),
            chunk.wf(),
        ensures
            final(self).wf(),
            r.wf(),
            r.coord == chunk.coord,
            forall|x: int, y: int, z: int| in_chunk(x, y, z) ==> #[trigger] r.at(x, y, z) == if old(self).known().contains_key(chunk.coord) {
                merged(chunk.at(x, y, z), old(self).known()[chunk.coord].at(x, y, z))
            } else {
                chunk.at(x, y, z)
            },
            final(self).known().dom() == old(self).known().dom().insert(chunk.coord),
            final(self).known()[chunk.coord].same_as(r),
            forall|k: Coord| k != chunk.coord && #[trigger] final(self).known().contains_key(k)
                ==> final(self).known()[k] == old(self).known()[k],
    {
        let mut chunk = chunk;
        let c = chunk.coord;
        match self.chunks.get(&c) {
            Some(known) => {
                chunk.merge(known);
            }
            None => {}
        }
        let kept = chunk.copy();
        self.chunks.insert(c, kept);
        assert(self.known().dom() =~= old(self).known().dom().insert(c));
        chunk
    }

    /// Changes to the chunk at `delta.0` arrived: they are written into the known
    /// chunk there, or into a new empty one. The result is returned to be drawn.
    pub fn update(&mut self, delta: &ChunkDelta) -> (r: Chunk)
        requires
            old(self).wf(),
            forall|i: int| 0 <= i < delta.1@.len() ==> pos_in_chunk(#[trigger] entry_pos(delta.1@[i])),
        ensures
            final(self).wf(),
            r.wf(),
            r.coord == delta.0,
            forall|x: int, y: int, z: int| in_chunk(x, y, z) ==> #[trigger] r.at(x, y, z) == written(delta.1@, (x, y, z),
                if old(self).known().contains_key(delta.0) { old(self).known()[delta.0].at(x, y, z) } else { crate::blocks::Block::Empty }),
            final(self).known().dom() == old(self).known().dom().insert(delta.0),
            final(self).known()[delta.0].same_as(r),
            forall|k: Coord| k != delta.0 && #[trigger] final(self).known().contains_key(k)
                ==> final(self).known()[k] == old(self).known()[k],
    {
        let c = delta.0;
        let mut chunk = match self.chunks.remove(&c) {
            Some(known) => known,
            None => Chunk::new(c),
        };
        chunk.apply_delta(delta);
        let drawn = chunk.copy();
        self.chunks.insert(c, chunk);
        assert(self.known().dom() =~= old(self).known().dom().insert(c));
        drawn
    }
}

} // verus!
