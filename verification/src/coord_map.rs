//! A map kept as a list of entries with distinct keys, for keys compared
//! component by component (chunk coordinates and user tokens).
use vstd::prelude::*;
use crate::{Coord, Token, token_eq};

verus! {

/// Whether two coordinates are equal component by component.
pub fn coord_eq(a: &Coord, b: &Coord) -> (r: bool)
    ensures
        r == (*a == *b),
{
    let r = a[0] == b[0] && a[1] == b[1] && a[2] == b[2];
    if r {
        assert(*a =~= *b);
    }
    r
}

/// A key whose equality can be tested.
pub trait MapKey: Sized {
    /// Whether `self` and `other` are the same key.
    fn key_eq(&self, other: &Self) -> (r: bool)
        ensures
            r == (*self == *other);

    /// A copy of the key.
    fn key_copy(&self) -> (r: Self)
        ensures
            r == *self;
}

impl MapKey for Coord {
    fn key_eq(&self, other: &Self) -> (r: bool) {
        coord_eq(self, other)
    }

    fn key_copy(&self) -> (r: Self) {
        *self
    }
}

impl MapKey for Token {
    fn key_eq(&self, other: &Self) -> (r: bool) {
        token_eq(self, other)
    }

    fn key_copy(&self) -> (r: Self) {
        *self
    }
}

/// The position of key `k` in a list of entries, if it is listed.
pub open spec fn find_key<K, V>(es: Seq<(K, V)>, k: K) -> Option<int> {
    if exists|i: int| 0 <= i < es.len() && #[trigger] es[i].0 == k {
        Some(choose|i: int| 0 <= i < es.len() && #[trigger] es[i].0 == k)
    } else {
        None
    }
}

/// No key is listed twice.
pub open spec fn keys_distinct<K, V>(es: Seq<(K, V)>) -> bool {
    forall|i: int, j: int| 0 <= i < j < es.len() ==> #[trigger] es[i].0 != #[trigger] es[j].0
}

/// The map a list of entries with distinct keys stands for.
pub open spec fn map_of<K, V>(es: Seq<(K, V)>) -> Map<K, V> {
    Map::new(|k: K| find_key(es, k) is Some, |k: K| es[find_key(es, k)->0].1)
}

proof fn lemma_find_unique<K, V>(es: Seq<(K, V)>, i: int)
    requires
        keys_distinct(es),
        0 <= i < es.len(),
    ensures
        find_key(es, es[i].0) == Some(i),
{
}

proof fn lemma_map_of_set<K, V>(es: Seq<(K, V)>, i: int, v: V)
    requires
        keys_distinct(es),
        0 <= i < es.len(),
    ensures
        keys_distinct(es.update(i, (es[i].0, v))),
        map_of(es.update(i, (es[i].0, v))) == map_of(es).insert(es[i].0, v),
{
    let es2 = es.update(i, (es[i].0, v));
    assert forall|a: int, b: int| 0 <= a < b < es2.len() implies #[trigger] es2[a].0 != #[trigger] es2[b].0 by {
        assert(es2[a].0 == es[a].0 && es2[b].0 == es[b].0);
    }
    assert forall|k: K| #[trigger] find_key(es2, k) == find_key(es, k) by {
        if find_key(es, k) is Some {
            let j = find_key(es, k)->0;
            lemma_find_unique(es, j);
            assert(es2[j].0 == k);
            lemma_find_unique(es2, j);
        } else if find_key(es2, k) is Some {
            let j = find_key(es2, k)->0;
            assert(es[j].0 == k);
        }
    }
    lemma_find_unique(es, i);
    assert(map_of(es2) =~= map_of(es).insert(es[i].0, v));
}

proof fn lemma_map_of_push<K, V>(es: Seq<(K, V)>, k: K, v: V)
    requires
        keys_distinct(es),
        find_key(es, k) is None,
    ensures
        keys_distinct(es.push((k, v))),
        map_of(es.push((k, v))) == map_of(es).insert(k, v),
{
    let es2 = es.push((k, v));
    assert forall|a: int, b: int| 0 <= a < b < es2.len() implies #[trigger] es2[a].0 != #[trigger] es2[b].0 by {
        if b == es.len() {
            assert(es2[a] == es[a]);
        } else {
            assert(es2[a] == es[a] && es2[b] == es[b]);
        }
    }
    assert forall|c: K| c != k implies #[trigger] find_key(es2, c) == find_key(es, c) by {
        if find_key(es, c) is Some {
            let j = find_key(es, c)->0;
            lemma_find_unique(es, j);
            assert(es2[j] == es[j]);
            lemma_find_unique(es2, j);
        } else if find_key(es2, c) is Some {
            let j = find_key(es2, c)->0;
            assert(j < es.len());
            assert(es[j] == es2[j]);
        }
    }
    lemma_find_unique(es2, es.len() as int);
    assert forall|c: K| #[trigger] map_of(es2).contains_key(c) == map_of(es).insert(k, v).contains_key(c) by {
        if c != k {
            assert(find_key(es2, c) == find_key(es, c));
        }
    }
    assert forall|c: K| map_of(es2).contains_key(c) implies #[trigger] map_of(es2)[c] == map_of(es).insert(k, v)[c] by {
        if c != k {
            let j = find_key(es, c)->0;
            assert(es2[j] == es[j]);
        }
    }
    assert(map_of(es2) =~= map_of(es).insert(k, v));
}

proof fn lemma_map_of_remove<K, V>(es: Seq<(K, V)>, i: int)
    requires
        keys_distinct(es),
        0 <= i < es.len(),
    ensures
        keys_distinct(es.remove(i)),
        map_of(es.remove(i)) == map_of(es).remove(es[i].0),
{
    let es2 = es.remove(i);
    let k = es[i].0;
    assert forall|a: int, b: int| 0 <= a < b < es2.len() implies #[trigger] es2[a].0 != #[trigger] es2[b].0 by {
        let a2 = if a < i { a } else { a + 1 };
        let b2 = if b < i { b } else { b + 1 };
        assert(es2[a] == es[a2] && es2[b] == es[b2]);
    }
    assert forall|c: K| c != k implies #[trigger] find_key(es2, c) is Some == find_key(es, c) is Some
        && (find_key(es2, c) is Some ==> es2[find_key(es2, c)->0] == es[find_key(es, c)->0]) by {
        if find_key(es, c) is Some {
            let j = find_key(es, c)->0;
            lemma_find_unique(es, j);
            assert(j != i);
            let j2 = if j < i { j } else { j - 1 };
            assert(es2[j2] == es[j]);
            lemma_find_unique(es2, j2);
        } else if find_key(es2, c) is Some {
            let j = find_key(es2, c)->0;
            let j1 = if j < i { j } else { j + 1 };
            assert(es[j1] == es2[j]);
        }
    }
    if find_key(es2, k) is Some {
        let j = find_key(es2, k)->0;
        let j1 = if j < i { j } else { j + 1 };
        assert(es[j1] == es2[j]);
    }
    assert(map_of(es2) =~= map_of(es).remove(k));
}

/// A map from keys to values.
pub struct KeyMap<K: MapKey, V> {
    entries: Vec<(K, V)>,
}

/// A map from chunk coordinates to values.
pub type CoordMap<V> = KeyMap<Coord, V>;

impl<K: MapKey, V> View for KeyMap<K, V> {
    type V = Map<K, V>;

    closed spec fn view(&self) -> Map<K, V> {
        map_of(self.entries@)
    }
}

impl<K: MapKey, V> KeyMap<K, V> {
    #[verifier::type_invariant]
    closed spec fn inv(&self) -> bool {
        keys_distinct(self.entries@)
    }

    /// The number of keys.
    pub closed spec fn spec_len(&self) -> nat {
        self.entries@.len()
    }

    /// An empty map.
    pub fn new() -> (r: KeyMap<K, V>)
        ensures
            r@ == Map::<K, V>::empty(),
    {
        let r = KeyMap { entries: Vec::new() };
        assert(r@ =~= Map::<K, V>::empty());
        r
    }

    fn index_of(&self, k: &K) -> (r: Option<usize>)
        ensures
            r matches Some(i) ==> i < self.entries@.len() && self.entries@[i as int].0 == *k
                && find_key(self.entries@, *k) == Some(i as int),
            r is None ==> find_key(self.entries@, *k) is None,
    {
        proof { use_type_invariant(self); }
        let n = self.entries.len();
        let mut i: usize = 0;
        while i < n
            invariant
                n == self.entries@.len(),
                i <= n,
                keys_distinct(self.entries@),
                forall|j: int| 0 <= j < i ==> self.entries@[j].0 != *k,
            decreases n - i,
        {
            if self.entries[i].0.key_eq(k) {
                proof { lemma_find_unique(self.entries@, i as int); }
                return Some(i);
            }
            i = i + 1;
        }
        None
    }

    /// The keys, each once.
    pub fn keys(&self) -> (r: Vec<K>)
        ensures
            forall|i: int| 0 <= i < r@.len() ==> self@.contains_key(#[trigger] r@[i]),
            forall|k: K| #[trigger] self@.contains_key(k) ==> r@.contains(k),
            forall|i: int, j: int| 0 <= i < j < r@.len() ==> #[trigger] r@[i] != #[trigger] r@[j],
    {
        proof { use_type_invariant(self); }
        let mut r: Vec<K> = Vec::new();
        let n = self.entries.len();
        let mut i: usize = 0;
        while i < n
            invariant
                n == self.entries@.len(),
                i <= n,
                keys_distinct(self.entries@),
                r@.len() == i,
                forall|j: int| 0 <= j < i ==> #[trigger] r@[j] == self.entries@[j].0,
            decreases n - i,
        {
            r.push(self.entries[i].0.key_copy());
            i = i + 1;
        }
        proof {
            assert forall|j: int| 0 <= j < r@.len() implies self@.contains_key(#[trigger] r@[j]) by {
                assert(self.entries@[j].0 == r@[j]);
            }
            assert forall|k: K| #[trigger] self@.contains_key(k) implies r@.contains(k) by {
                let j = find_key(self.entries@, k)->0;
                assert(r@[j] == k);
            }
        }
        r
    }

    /// Whether `k` is a key.
    pub fn contains_key(&self, k: &K) -> (r: bool)
        ensures
            r == self@.contains_key(*k),
    {
        self.index_of(k).is_some()
    }

    /// The value under `k`, if any.
    pub fn get(&self, k: &K) -> (r: Option<&V>)
        ensures
            r is Some == self@.contains_key(*k),
            r matches Some(v) ==> *v == self@[*k],
    {
        match self.index_of(k) {
            Some(i) => Some(&self.entries[i].1),
            None => None,
        }
    }

    /// Stores `v` under `k`, replacing any value there.
    pub fn insert(&mut self, k: K, v: V)
        ensures
            final(self)@ == old(self)@.insert(k, v),
    {
        let pos = self.index_of(&k);
        proof { use_type_invariant(&*self); }
        let mut entries: Vec<(K, V)> = Vec::new();
        std::mem::swap(&mut entries, &mut self.entries);
        match pos {
            Some(i) => {
                proof { lemma_map_of_set(entries@, i as int, v); }
                entries.set(i, (k, v));
            }
            None => {
                proof { lemma_map_of_push(entries@, k, v); }
                entries.push((k, v));
            }
        }
        self.entries = entries;
    }

    /// Takes the value under `k` out of the map, if any.
    pub fn remove(&mut self, k: &K) -> (r: Option<V>)
        ensures
            final(self)@ == old(self)@.remove(*k),
            r is Some == old(self)@.contains_key(*k),
            r matches Some(v) ==> v == old(self)@[*k],
    {
        match self.index_of(k) {
            Some(i) => {
                proof { use_type_invariant(&*self); }
                let mut entries: Vec<(K, V)> = Vec::new();
                std::mem::swap(&mut entries, &mut self.entries);
                proof { lemma_map_of_remove(entries@, i as int); }
                let (_, v) = entries.remove(i);
                self.entries = entries;
                Some(v)
            }
            None => {
                assert(old(self)@.remove(*k) =~= old(self)@);
                None
            }
        }
    }
}

} // verus!
