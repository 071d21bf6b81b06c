//! A chunk kept by the server, with the users that still need it.
use vstd::prelude::*;
use crate::chunk::{Chunk, in_chunk, merged};
use crate::{Token, token_eq};

verus! {

/// A chunk kept by the server, with the users that still need it.
#[derive(Debug)]
pub struct StoredChunk {
    pub(crate) chunk: Chunk,
    needed_by: Vec<Token>,
}

impl StoredChunk {
    #[verifier::type_invariant]
    closed spec fn inv(&self) -> bool {
        self.needed_by@.no_duplicates()
    }

    /// The chunk kept.
    pub closed spec fn stored(&self) -> Chunk {
        self.chunk
    }

    /// The users that need the chunk.
    pub closed spec fn needers(&self) -> Set<Token> {
        self.needed_by@.to_set()
    }

    /// A chunk that nobody needs yet.
    pub fn new(chunk: Chunk) -> (r: StoredChunk)
        ensures
            r.stored() == chunk,
            r.needers() == Set::<Token>::empty(),
    {
        let r = StoredChunk { chunk, needed_by: Vec::new() };
        assert(r.needers() =~= Set::<Token>::empty());
        r
    }

    /// Whether some user needs the chunk.
    pub fn is_needed(&self) -> (r: bool)
        ensures
            r == !self.needers().is_empty(),
    {
        let r = self.needed_by.len() != 0;
        proof {
            if r {
                assert(self.needers().contains(self.needed_by@[0]));
            } else {
                assert(self.needers() =~= Set::<Token>::empty());
            }
        }
        r
    }

    /// Records that the user of `token` needs the chunk.
    pub fn mark_needed_by(&mut self, token: Token)
        ensures
            final(self).stored() == old(self).stored(),
            final(self).needers() == old(self).needers().insert(token),
    {
        proof { use_type_invariant(&*self); }
        let n = self.needed_by.len();
        let mut i: usize = 0;
        while i < n
            invariant
                n == self.needed_by@.len(),
                i <= n,
                self.needed_by@.no_duplicates(),
                forall|j: int| 0 <= j < i ==> self.needed_by@[j] != token,
            decreases n - i,
        {
            if token_eq(&self.needed_by[i], &token) {
                proof {
                    assert(self.needers().contains(token));
                    assert(self.needers().insert(token) =~= self.needers());
                }
                return;
            }
            i = i + 1;
        }
        let mut v: Vec<Token> = Vec::new();
        std::mem::swap(&mut v, &mut self.needed_by);
        let ghost before = v@;
        v.push(token);
        proof {
            assert(v@.no_duplicates()) by {
                assert forall|a: int, b: int| 0 <= a < v@.len() && 0 <= b < v@.len() && a != b
                    implies v@[a] != v@[b] by {
                    if a < before.len() && b < before.len() {
                        assert(v@[a] == before[a] && v@[b] == before[b]);
                    } else if a < before.len() {
                        assert(v@[a] == before[a]);
                    } else {
                        assert(v@[b] == before[b]);
                    }
                }
            }
            assert(v@.to_set() =~= before.to_set().insert(token)) by {
                assert forall|t: Token| v@.to_set().contains(t) <==> before.to_set().insert(token).contains(t) by {
                    if v@.contains(t) {
                        let k = choose|k: int| 0 <= k < v@.len() && v@[k] == t;
                        if k < before.len() {
                            assert(before[k] == t);
                        }
                    }
                    if before.contains(t) {
                        let k = choose|k: int| 0 <= k < before.len() && before[k] == t;
                        assert(v@[k] == t);
                    }
                    if t == token {
                        assert(v@[before.len() as int] == t);
                    }
                }
            }
        }
        self.needed_by = v;
    }

    /// Records that the user of `token` no longer needs the chunk.
    pub fn mark_unneeded_by(&mut self, token: &Token)
        ensures
            final(self).stored() == old(self).stored(),
            final(self).needers() == old(self).needers().remove(*token),
    {
        proof { use_type_invariant(&*self); }
        let n = self.needed_by.len();
        let mut i: usize = 0;
        while i < n
            invariant
                n == self.needed_by@.len(),
                i <= n,
                self.needed_by@.no_duplicates(),
                self.needed_by == old(self).needed_by,
                self.chunk == old(self).chunk,
                forall|j: int| 0 <= j < i ==> self.needed_by@[j] != *token,
            decreases n - i,
        {
            if token_eq(&self.needed_by[i], token) {
                let mut v: Vec<Token> = Vec::new();
                std::mem::swap(&mut v, &mut self.needed_by);
                let ghost before = v@;
                v.remove(i);
                proof {
                    assert(v@ =~= before.remove(i as int));
                    assert(v@.no_duplicates()) by {
                        assert forall|a: int, b: int| 0 <= a < v@.len() && 0 <= b < v@.len() && a != b
                            implies v@[a] != v@[b] by {
                            let a2 = if a < i { a } else { a + 1 };
                            let b2 = if b < i { b } else { b + 1 };
                            assert(v@[a] == before[a2] && v@[b] == before[b2]);
                        }
                    }
                    assert(v@.to_set() =~= before.to_set().remove(*token)) by {
                        assert forall|t: Token| v@.to_set().contains(t) <==> before.to_set().remove(*token).contains(t) by {
                            if v@.contains(t) {
                                let k = choose|k: int| 0 <= k < v@.len() && v@[k] == t;
                                let k2 = if k < i { k } else { k + 1 };
                                assert(before[k2] == t);
                                assert(k2 != i);
                            }
                            if before.contains(t) && t != *token {
                                let k = choose|k: int| 0 <= k < before.len() && before[k] == t;
                                assert(k != i);
                                if k < i {
                                    assert(v@[k] == t);
                                } else {
                                    assert(v@[k - 1] == t);
                                }
                            }
                        }
                    }
                }
                self.needed_by = v;
                return;
            }
            i = i + 1;
        }
        proof {
            assert(!self.needed_by@.contains(*token));
            assert(self.needers().remove(*token) =~= self.needers());
        }
    }

    /// Merges `other` onto the kept chunk (see `Chunk::merge`).
    pub fn merge_chunk(&mut self, other: &Chunk)
        requires
            old(self).stored().wf(),
            other.wf(),
        ensures
            final(self).needers() == old(self).needers(),
            final(self).stored().wf(),
            final(self).stored().coord == old(self).stored().coord,
            forall|x: int, y: int, z: int| in_chunk(x, y, z) ==> #[trigger] final(self).stored().at(x, y, z)
                == merged(old(self).stored().at(x, y, z), other.at(x, y, z)),
    {
        proof { use_type_invariant(&*self); }
        let mut c = Chunk { data: Vec::new(), coord: self.chunk.coord };
        std::mem::swap(&mut c, &mut self.chunk);
        c.merge(other);
        self.chunk = c;
    }

    /// The kept chunk.
    pub fn chunk(&self) -> (r: &Chunk)
        ensures
            *r == self.stored(),
    {
        &self.chunk
    }
}

} // verus!