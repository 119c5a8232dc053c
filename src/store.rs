//! Per-tile state, partitioned into chunks: one per face of the base icosahedron
//! and one for the tiles that straddle faces.
use vstd::prelude::*;
use crate::biome::Biome;

verus! {

/// The number of faces of the base icosahedron.
pub const BASE_FACES: u32 = 20;

/// The number of chunks: one per base face, then the boundary chunk.
pub const CHUNK_COUNT: usize = 21;

/// The chunk of a tile whose corners are `corners`, base triangle `t` lying on base
/// face `t / per_face`: the face of all its corners when they share one, else the
/// boundary chunk.
pub open spec fn chunk_of(corners: Seq<u32>, per_face: int) -> int {
    if corners.len() > 0 && (corners[0] as int) / per_face < BASE_FACES && forall|i: int|
        0 <= i < corners.len() ==> (#[trigger] corners[i] as int) / per_face == (corners[0] as int)
            / per_face {
        (corners[0] as int) / per_face
    } else {
        BASE_FACES as int
    }
}

/// Computes `chunk_of`.
pub fn chunk_for(corners: &Vec<u32>, per_face: u32) -> (r: u32)
    requires
        per_face > 0,
    ensures
        r == chunk_of(corners@, per_face as int),
        r <= BASE_FACES,
{
    if corners.len() == 0 {
        return BASE_FACES;
    }
    let face = corners[0] / per_face;
    if face >= BASE_FACES {
        return BASE_FACES;
    }
    let mut i: usize = 1;
    while i < corners.len()
        invariant
            corners@.len() > 0,
            per_face > 0,
            face == corners@[0] / per_face,
            1 <= i <= corners.len(),
            forall|j: int| 0 <= j < i ==> (#[trigger] corners@[j] as int) / (per_face as int) == face,
        decreases corners.len() - i,
    {
        if corners[i] / per_face != face {
            return BASE_FACES;
        }
        i = i + 1;
    }
    face
}

/// The mutable state of one tile.
pub struct TileRecord {
    /// Its corners, in cyclic order.
    pub corners: Vec<u32>,
    pub biome: Biome,
    /// Its material index in the biome table.
    pub material: i32,
    /// Its node in the adjacency graph.
    pub node: u32,
}

/// The number of records over all chunks.
pub open spec fn total_len(chunks: Seq<Seq<TileRecord>>) -> int
    decreases chunks.len(),
{
    if chunks.len() == 0 {
        0
    } else {
        total_len(chunks.drop_last()) + chunks.last().len()
    }
}

proof fn lemma_total_len_push(chunks: Seq<Seq<TileRecord>>, c: int, x: TileRecord)
    requires
        0 <= c < chunks.len(),
    ensures
        total_len(chunks.update(c, chunks[c].push(x))) == total_len(chunks) + 1,
    decreases chunks.len(),
{
    let u = chunks.update(c, chunks[c].push(x));
    if c == chunks.len() - 1 {
        assert(u.drop_last() =~= chunks.drop_last());
    } else {
        lemma_total_len_push(chunks.drop_last(), c, x);
        assert(u.drop_last() =~= chunks.drop_last().update(c, chunks[c].push(x)));
    }
}

proof fn lemma_total_len_same_lens(a: Seq<Seq<TileRecord>>, b: Seq<Seq<TileRecord>>)
    requires
        a.len() == b.len(),
        forall|i: int| 0 <= i < a.len() ==> a[i].len() == b[i].len(),
    ensures
        total_len(a) == total_len(b),
    decreases a.len(),
{
    if a.len() > 0 {
        lemma_total_len_same_lens(a.drop_last(), b.drop_last());
    }
}

/// Tiles arranged in chunks. Each tile sits in exactly one chunk, fixed when the
/// store is built; where a node sits is known without looking into any chunk.
pub struct ChunkedTileStore {
    chunks: Vec<Vec<TileRecord>>,
    place: Vec<(u32, u32)>,
    per_face: u32,
}

impl ChunkedTileStore {
    /// The records of each chunk.
    pub closed spec fn chunks(&self) -> Seq<Seq<TileRecord>> {
        Seq::new(self.chunks@.len(), |c: int| self.chunks@[c]@)
    }

    /// The (chunk, offset) of each node.
    pub closed spec fn places(&self) -> Seq<(u32, u32)> {
        self.place@
    }

    /// The number of base triangles on each base face.
    pub closed spec fn per_face(&self) -> int {
        self.per_face as int
    }

    /// The record of node `n`.
    pub open spec fn record(&self, n: int) -> TileRecord {
        self.chunks()[self.places()[n].0 as int][self.places()[n].1 as int]
    }

    pub open spec fn wf(&self) -> bool {
        &&& self.chunks().len() == CHUNK_COUNT
        &&& self.per_face() > 0
        &&& self.places().len() <= u32::MAX
        &&& forall|n: int|
            0 <= n < self.places().len() ==> {
                let (c, o) = #[trigger] self.places()[n];
                &&& c == chunk_of(self.record(n).corners@, self.per_face())
                &&& o < self.chunks()[c as int].len()
                &&& self.record(n).node == n
            }
        &&& forall|c: int, o: int|
            0 <= c < CHUNK_COUNT && 0 <= o < self.chunks()[c].len() ==> {
                let nd = (#[trigger] self.chunks()[c][o]).node as int;
                &&& nd < self.places().len()
                &&& self.places()[nd] == (c as u32, o as u32)
            }
        &&& total_len(self.chunks()) == self.places().len()
    }

    /// Distributes the tiles over the chunks: tile `n` has corners `tiles[n]`, biome
    /// `biomes[n]` and material `materials[n]`, and base triangle `t` lies on base face
    /// `t / per_face`.
    pub fn new(tiles: Vec<Vec<u32>>, biomes: &Vec<Biome>, materials: &Vec<i32>, per_face: u32) -> (r:
        Self)
        requires
            per_face > 0,
            tiles.len() == biomes.len(),
            tiles.len() == materials.len(),
            tiles.len() <= u32::MAX,
        ensures
            r.wf(),
            r.per_face() == per_face,
            r.places().len() == tiles.len(),
            forall|n: int|
                0 <= n < tiles.len() ==> {
                    &&& (#[trigger] r.record(n)).corners@ == tiles@[n]@
                    &&& r.record(n).biome == biomes@[n]
                    &&& r.record(n).material == materials@[n]
                },
    {
        let ghost orig = tiles@;
        let mut tiles = tiles;
        let mut chunks: Vec<Vec<TileRecord>> = Vec::new();
        let mut c: usize = 0;
        while c < CHUNK_COUNT
            invariant
                0 <= c <= CHUNK_COUNT,
                chunks.len() == c,
                forall|k: int| 0 <= k < c ==> (#[trigger] chunks@[k])@.len() == 0,
            decreases CHUNK_COUNT - c,
        {
            chunks.push(Vec::new());
            c = c + 1;
        }
        let ghost empty = Seq::new(CHUNK_COUNT as nat, |k: int| chunks@[k]@);
        proof {
            assert(total_len(empty) == 0) by {
                lemma_total_len_same_lens(
                    empty,
                    Seq::new(CHUNK_COUNT as nat, |k: int| Seq::<TileRecord>::empty()),
                );
                lemma_total_len_empty(CHUNK_COUNT as nat);
            }
        }
        let mut place: Vec<(u32, u32)> = Vec::new();
        let mut n: usize = 0;
        while n < tiles.len()
            invariant
                per_face > 0,
                tiles.len() == orig.len(),
                tiles.len() == biomes.len(),
                tiles.len() == materials.len(),
                tiles.len() <= u32::MAX,
                0 <= n <= tiles.len(),
                forall|k: int| n <= k < tiles.len() ==> (#[trigger] tiles@[k])@ == orig[k]@,
                place.len() == n,
                ({
                    let s = ChunkedTileStore { chunks, place, per_face };
                    &&& s.wf()
                    &&& forall|k: int|
                        0 <= k < n ==> {
                            &&& (#[trigger] s.record(k)).corners@ == orig[k]@
                            &&& s.record(k).biome == biomes@[k]
                            &&& s.record(k).material == materials@[k]
                        }
                }),
            decreases tiles.len() - n,
        {
            let mut corners: Vec<u32> = Vec::new();
            std::mem::swap(&mut corners, &mut tiles[n]);
            let c = chunk_for(&corners, per_face);
            let ghost before = ChunkedTileStore { chunks, place, per_face };
            let o = chunks[c as usize].len();
            proof {
                assert(o == before.chunks()[c as int].len());
                assert(total_len(before.chunks()) == n);
                assert(o <= n) by {
                    lemma_chunk_le_total(before.chunks(), c as int);
                }
            }
            let rec = TileRecord { corners, biome: biomes[n], material: materials[n], node: n as u32 };
            chunks[c as usize].push(rec);
            place.push((c, o as u32));
            proof {
                let s = ChunkedTileStore { chunks, place, per_face };
                assert(s.chunks() =~= before.chunks().update(
                    c as int,
                    before.chunks()[c as int].push(rec),
                ));
                lemma_total_len_push(before.chunks(), c as int, rec);
                assert forall|k: int| 0 <= k < s.places().len() implies {
                    let (cc, oo) = #[trigger] s.places()[k];
                    &&& cc == chunk_of(s.record(k).corners@, s.per_face())
                    &&& oo < s.chunks()[cc as int].len()
                    &&& s.record(k).node == k
                } by {
                    if k < n {
                        assert(s.places()[k] == before.places()[k]);
                        assert(s.record(k) == before.record(k));
                    } else {
                        assert(s.record(k) == rec);
                    }
                }
                assert forall|cc: int, oo: int|
                    0 <= cc < CHUNK_COUNT && 0 <= oo < s.chunks()[cc].len() implies {
                    let nd = (#[trigger] s.chunks()[cc][oo]).node as int;
                    &&& nd < s.places().len()
                    &&& s.places()[nd] == (cc as u32, oo as u32)
                } by {
                    if cc == c && oo == o {
                        assert(s.chunks()[cc][oo] == rec);
                    } else {
                        assert(s.chunks()[cc][oo] == before.chunks()[cc][oo]);
                    }
                }
                assert forall|k: int| 0 <= k < n + 1 implies {
                    &&& (#[trigger] s.record(k)).corners@ == orig[k]@
                    &&& s.record(k).biome == biomes@[k]
                    &&& s.record(k).material == materials@[k]
                } by {
                    if k < n {
                        assert(s.places()[k] == before.places()[k]);
                        assert(s.record(k) == before.record(k));
                    } else {
                        assert(s.record(k) == rec);
                    }
                }
            }
            n = n + 1;
        }
        ChunkedTileStore { chunks, place, per_face }
    }

    /// Hands out the chunks and the (chunk, offset) of each node, so that each chunk
    /// can be guarded on its own.
    pub fn into_parts(self) -> (r: (Vec<Vec<TileRecord>>, Vec<(u32, u32)>))
        ensures
            Seq::new(r.0@.len(), |c: int| r.0@[c]@) == self.chunks(),
            r.1@ == self.places(),
    {
        (self.chunks, self.place)
    }

    /// The number of tiles.
    pub fn tile_count(&self) -> (r: usize)
        ensures
            r == self.places().len(),
    {
        self.place.len()
    }

    /// The number of tiles in chunk `c`.
    pub fn chunk_len(&self, c: usize) -> (r: usize)
        requires
            self.wf(),
            c < CHUNK_COUNT,
        ensures
            r == self.chunks()[c as int].len(),
    {
        self.chunks[c].len()
    }

    /// The chunk and the offset within it of node `n`, found without reading any
    /// chunk.
    pub fn resolve(&self, n: usize) -> (r: (u32, u32))
        requires
            self.wf(),
            n < self.places().len(),
        ensures
            r == self.places()[n as int],
            r.0 == chunk_of(self.record(n as int).corners@, self.per_face()),
    {
        self.place[n]
    }

    /// The record of node `n`.
    pub fn tile(&self, n: usize) -> (r: &TileRecord)
        requires
            self.wf(),
            n < self.places().len(),
        ensures
            *r == self.record(n as int),
    {
        let (c, o) = self.place[n];
        &self.chunks[c as usize][o as usize]
    }

    /// Gives node `n` a new material and returns the one it had.
    pub fn set_material(&mut self, n: usize, material: i32) -> (r: i32)
        requires
            old(self).wf(),
            n < old(self).places().len(),
        ensures
            final(self).wf(),
            r == old(self).record(n as int).material,
            final(self).places() == old(self).places(),
            final(self).per_face() == old(self).per_face(),
            final(self).record(n as int).material == material,
            final(self).record(n as int).biome == old(self).record(n as int).biome,
            final(self).record(n as int).corners@ == old(self).record(n as int).corners@,
            forall|k: int|
                0 <= k < old(self).places().len() && k != n ==> #[trigger] final(self).record(k)
                    == old(self).record(k),
    {
        let (c, o) = self.place[n];
        let ghost before = *self;
        let prev = self.chunks[c as usize][o as usize].material;
        self.chunks[c as usize][o as usize].material = material;
        proof {
            let s = *self;
            assert forall|k: int| 0 <= k < before.places().len() && k != n implies #[trigger] s.record(k)
                == before.record(k) by {
                let (kc, ko) = before.places()[k];
                assert(before.chunks()[kc as int][ko as int].node == k);
            }
            assert forall|cc: int| 0 <= cc < CHUNK_COUNT implies s.chunks()[cc].len() == before.chunks()[cc].len() by {}
            lemma_total_len_same_lens(s.chunks(), before.chunks());
            assert forall|k: int| 0 <= k < s.places().len() implies {
                let (kc, ko) = #[trigger] s.places()[k];
                &&& kc == chunk_of(s.record(k).corners@, s.per_face())
                &&& ko < s.chunks()[kc as int].len()
                &&& s.record(k).node == k
            } by {
                assert(before.places()[k] == s.places()[k]);
            }
            assert forall|cc: int, oo: int|
                0 <= cc < CHUNK_COUNT && 0 <= oo < s.chunks()[cc].len() implies {
                let nd = (#[trigger] s.chunks()[cc][oo]).node as int;
                &&& nd < s.places().len()
                &&& s.places()[nd] == (cc as u32, oo as u32)
            } by {
                assert(s.chunks()[cc][oo].node == before.chunks()[cc][oo].node);
            }
        }
        prev
    }
}

proof fn lemma_total_len_empty(m: nat)
    ensures
        total_len(Seq::new(m, |k: int| Seq::<TileRecord>::empty())) == 0,
    decreases m,
{
    if m > 0 {
        lemma_total_len_empty((m - 1) as nat);
        assert(Seq::new(m, |k: int| Seq::<TileRecord>::empty()).drop_last() =~= Seq::new(
            (m - 1) as nat,
            |k: int| Seq::<TileRecord>::empty(),
        ));
    }
}

proof fn lemma_chunk_le_total(chunks: Seq<Seq<TileRecord>>, c: int)
    requires
        0 <= c < chunks.len(),
    ensures
        chunks[c].len() <= total_len(chunks),
    decreases chunks.len(),
{
    if c < chunks.len() - 1 {
        lemma_chunk_le_total(chunks.drop_last(), c);
    }
    lemma_total_len_nonneg(chunks.drop_last());
}

proof fn lemma_total_len_nonneg(chunks: Seq<Seq<TileRecord>>)
    ensures
        total_len(chunks) >= 0,
    decreases chunks.len(),
{
    if chunks.len() > 0 {
        lemma_total_len_nonneg(chunks.drop_last());
    }
}

/// The chunks partition the tiles: their sizes add up to the number of tiles, and
/// each node's chunk is a function of its own corners alone.
pub proof fn lemma_chunks_partition(store: &ChunkedTileStore, n: int)
    requires
        store.wf(),
        0 <= n < store.places().len(),
    ensures
        total_len(store.chunks()) == store.places().len(),
        store.places()[n].0 == chunk_of(store.record(n).corners@, store.per_face()),
        store.record(n).node == n,
{
}

} // verus!
