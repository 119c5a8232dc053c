//! Planets: what a planet is made of, and the steps that build one from a
//! subdivision level and a world type.
use vstd::prelude::*;
use hexasphere::shapes::IcoSphere;
use crate::biome::{
    Biome, Measure, BiomeTable, base_biome, sky_biome, space_biome, find_range, base_ranges,
    sky_ranges, space_ranges, lemma_classified_biomes_have_ranges, lemma_materials_in_table,
};
use crate::store::{ChunkedTileStore, BASE_FACES};
use crate::tessellation::{
    Tessellation, TessellationError, tessellate, initial_materials, valid_triangles, fans_fit,
    fans_close, corner_total, lemma_corner_total, lemma_tile_len, fan, shares_triangle,
};
use crate::graph::{lists_view, has_edge, lemma_symmetric_loop_free};

verus! {

/// Marks a relation between two neighbouring tiles.
#[derive(Copy, Clone, Debug, PartialEq, Eq, Hash, Default, Structural)]
pub struct NeighbourOf;

/// Marks the plugin that builds planets.
#[derive(Copy, Clone, Debug, PartialEq, Eq, Hash, Default, Structural)]
pub struct BoardPlugin;

/// Marks a shell that belongs to a layered planet.
#[derive(Copy, Clone, Debug, PartialEq, Eq, Hash, Default, Structural)]
pub struct PlanetLayerOf;

/// Marks the point that a camera looks at.
#[derive(Copy, Clone, Debug, PartialEq, Eq, Hash, Default, Structural)]
pub struct CameraDebugPoint;

/// The seeds of a base world's two noise channels.
#[derive(Copy, Clone, Debug, PartialEq, Eq, Hash, Structural)]
pub struct GeographicalParams {
    pub metal_seed: i32,
    pub temp_seed: i32,
}

/// The seed of a sky or space world's land channel.
#[derive(Copy, Clone, Debug, PartialEq, Eq, Hash, Structural)]
pub struct SkyParams {
    pub land_seed: i32,
}

/// The kind of world a planet is, with its noise seeds.
#[derive(Copy, Clone, Debug, PartialEq, Eq, Hash, Structural)]
pub enum BoardInitializationType {
    Empty,
    Base(GeographicalParams),
    Sky(SkyParams),
    Space(SkyParams),
}

/// A planet to build.
#[derive(Copy, Clone, Debug, PartialEq, Eq, Hash, Structural)]
pub struct PlanetDesc {
    pub subvidisions: usize,
    pub planet_type: BoardInitializationType,
}

/// The biome of one tile.
#[derive(Copy, Clone, Debug, PartialEq, Eq, Structural)]
pub struct TileData {
    pub biome: Biome,
}

/// The current material index of a tile.
#[derive(Copy, Clone, Debug, PartialEq, Eq, Hash, Structural)]
pub struct FaceMaterialIdx(pub i32);

/// The material index a tile had before its last change.
#[derive(Copy, Clone, Debug, PartialEq, Eq, Hash, Structural)]
pub struct OldFaceMaterialIdx(pub i32);

/// Whether a pending board operation is done.
#[derive(Copy, Clone, Debug, PartialEq, Eq, Hash, Structural)]
pub enum OpState {
    Pending,
    Finished,
}

/// Whether shells are being loaded and unloaded.
#[derive(Copy, Clone, Debug, PartialEq, Eq, Hash, Structural)]
pub enum LayerLoadState {
    LoadUnload,
    Finished,
}

/// One shell of a layered planet.
pub struct LayerChild {
    layer_number: usize,
}

impl LayerChild {
    pub fn new(layer_number: usize) -> (r: Self)
        ensures
            r.layer() == layer_number,
    {
        LayerChild { layer_number }
    }

    pub closed spec fn layer(&self) -> int {
        self.layer_number as int
    }

    /// The subdivision level of this shell: each layer is three levels finer than the
    /// one below it, starting from eight.
    pub fn subdivisions(&self) -> (r: usize)
        requires
            self.layer() * 3 + 8 <= usize::MAX,
        ensures
            r == self.layer() * 3 + 8,
    {
        self.layer_number * 3 + 8
    }
}

/// The number of vertices of an icosphere whose base edges each got `s` extra points.
pub open spec fn icosphere_point_count(s: int) -> int {
    10 * s * s + 20 * s + 12
}

/// The number of triangles of that icosphere.
pub open spec fn icosphere_triangle_count(s: int) -> int {
    20 * (s + 1) * (s + 1)
}

/// The largest subdivision level whose indices fit in `u32` with room for the tile
/// centres.
pub const MAX_SUBDIVISIONS: usize = 10000;

/// The triangle list of the icosphere of subdivision level `s`.
pub uninterp spec fn icosphere_indices(s: nat) -> Seq<u32>;

/// Relies on `hexasphere`'s `IcoSphere::new`, `get_all_indices` and `raw_points`: the
/// triangles of an icosphere whose base edges each got `subdivisions` extra points,
/// `(subdivisions + 1)²` per base triangle, and the number of its points (the shared
/// ones, `subdivisions * 30 + 12`, and `(subdivisions - 1) * subdivisions / 2` inside
/// each of the 20 base triangles).
#[verifier::external_body]
fn base_triangulation(subdivisions: usize) -> (r: (Vec<u32>, usize))
    requires
        subdivisions <= MAX_SUBDIVISIONS,
    ensures
        r.0@ == icosphere_indices(subdivisions as nat),
        r.0@.len() == 3 * icosphere_triangle_count(subdivisions as int),
        r.1 == icosphere_point_count(subdivisions as int),
{
    let sphere = IcoSphere::new(subdivisions, |_| ());
    (sphere.get_all_indices(), sphere.raw_points().len())
}

proof fn lemma_counts_fit(s: int)
    requires
        0 <= s <= MAX_SUBDIVISIONS,
    ensures
        icosphere_triangle_count(s) + icosphere_point_count(s) <= u32::MAX,
        icosphere_triangle_count(s) >= 20,
{
    assert(s * s <= 10000 * 10000) by (nonlinear_arith)
        requires
            0 <= s <= 10000,
    ;
    assert((s + 1) * (s + 1) == s * s + 2 * s + 1) by (nonlinear_arith);
    assert(20 * (s + 1) * (s + 1) == 20 * ((s + 1) * (s + 1))) by (nonlinear_arith);
    assert(10 * s * s == 10 * (s * s)) by (nonlinear_arith);
    assert((s + 1) * (s + 1) >= 1) by (nonlinear_arith)
        requires
            s >= 0,
    ;
}

/// A planet's tiles once they are classified.
pub struct Planet {
    /// Its mesh, whose tile centres carry each tile's material; the tiles' corner
    /// lists have moved into the store.
    pub mesh: Tessellation,
    /// Its tiles' state, in chunks.
    pub store: ChunkedTileStore,
    /// The materials of its world type.
    pub table: BiomeTable,
}

/// The biome of each tile of a world of kind `w`: base worlds read (metal,
/// temperature) buckets, sky and space worlds read the land bucket first and
/// ignore the second, and every tile of an empty world is empty.
pub open spec fn world_biomes(w: BoardInitializationType, buckets: Seq<(Measure, Measure)>) -> Seq<
    Biome,
> {
    Seq::new(
        buckets.len(),
        |i: int|
            match w {
                BoardInitializationType::Base(_) => base_biome(buckets[i].1, buckets[i].0),
                BoardInitializationType::Sky(_) => sky_biome(buckets[i].0),
                BoardInitializationType::Space(_) => space_biome(buckets[i].0),
                BoardInitializationType::Empty => Biome::Empty,
            },
    )
}

/// The material ranges of a world of kind `w`.
pub open spec fn world_ranges(w: BoardInitializationType) -> Seq<crate::biome::BiomeRange> {
    match w {
        BoardInitializationType::Base(_) => base_ranges(),
        BoardInitializationType::Sky(_) => sky_ranges(),
        _ => space_ranges(),
    }
}

/// The number of materials of a world of kind `w`, the reserved material 0 included.
pub open spec fn world_material_count(w: BoardInitializationType) -> int {
    match w {
        BoardInitializationType::Base(_) => 14,
        BoardInitializationType::Sky(_) => 5,
        _ => 6,
    }
}

impl BoardInitializationType {
    /// The material table of this world type.
    pub fn biome_table(&self) -> (r: BiomeTable)
        ensures
            r.wf(),
            r.ranges() == world_ranges(*self),
            r.count() == world_material_count(*self),
    {
        match self {
            BoardInitializationType::Base(_) => BiomeTable::base(),
            BoardInitializationType::Sky(_) => BiomeTable::sky(),
            _ => BiomeTable::space(),
        }
    }

    /// Classifies every tile from its buckets (see `world_biomes`).
    pub fn make_biomes(&self, buckets: &Vec<(Measure, Measure)>) -> (r: Vec<Biome>)
        ensures
            r@ == world_biomes(*self, buckets@),
    {
        let mut out: Vec<Biome> = Vec::new();
        let mut i: usize = 0;
        while i < buckets.len()
            invariant
                0 <= i <= buckets.len(),
                out@ =~= world_biomes(*self, buckets@).take(i as int),
            decreases buckets.len() - i,
        {
            let (a, b) = buckets[i];
            let biome = match self {
                BoardInitializationType::Base(_) => Biome::new_base(b, a),
                BoardInitializationType::Sky(_) => Biome::new_sky(a),
                BoardInitializationType::Space(_) => Biome::new_space(a),
                BoardInitializationType::Empty => Biome::Empty,
            };
            out.push(biome);
            i = i + 1;
        }
        assert(out@ =~= world_biomes(*self, buckets@));
        out
    }
}

/// Every biome that a world's classifier gives has a range in that world's table.
proof fn lemma_world_biomes_ranged(w: BoardInitializationType, buckets: Seq<(Measure, Measure)>, i: int)
    requires
        0 <= i < buckets.len(),
    ensures
        find_range(world_ranges(w), world_biomes(w, buckets)[i]) is Some,
{
    lemma_classified_biomes_have_ranges(buckets[i].1, buckets[i].0, buckets[i].0);
}

/// Chunks hold the tiles of one base face each: the number of base triangles on each
/// face, and at least one.
pub open spec fn triangles_per_face(corner_count: int) -> int {
    if corner_count / BASE_FACES as int > 0 {
        corner_count / BASE_FACES as int
    } else {
        1
    }
}

/// Builds a planet.
#[derive(Copy, Clone, Debug, PartialEq, Eq, Structural)]
pub struct BoardBuilder {
    pub subdivisions: usize,
    pub state: BoardInitializationType,
}

impl From<PlanetDesc> for BoardBuilder {
    fn from(x: PlanetDesc) -> (r: Self) {
        BoardBuilder { subdivisions: x.subvidisions, state: x.planet_type }
    }
}

impl vstd::std_specs::convert::FromSpecImpl<PlanetDesc> for BoardBuilder {
    open spec fn obeys_from_spec() -> bool {
        true
    }

    open spec fn from_spec(x: PlanetDesc) -> BoardBuilder {
        BoardBuilder { subdivisions: x.subvidisions, state: x.planet_type }
    }
}

impl Planet {
    /// The store is well formed, and the mesh holds one material per corner point
    /// and per tile centre, the centre of tile `i` carrying the material of tile
    /// `i`'s record.
    pub open spec fn wf(&self) -> bool {
        &&& self.store.wf()
        &&& self.mesh.face_materials@.len() == self.mesh.corner_count + self.store.places().len()
        &&& forall|i: int|
            0 <= i < self.store.places().len() ==> (#[trigger] self.store.record(i)).material
                == self.mesh.face_materials@[self.mesh.corner_count + i]
    }

    /// Gives tile `tile` a new material, in its record and on its centre in the mesh,
    /// and returns the material it had.
    pub fn set_tile_material(&mut self, tile: usize, material: i32) -> (r: i32)
        requires
            old(self).wf(),
            tile < old(self).store.places().len(),
        ensures
            r == old(self).mesh.face_materials@[old(self).mesh.corner_count + tile],
            r == old(self).store.record(tile as int).material,
            final(self).wf(),
            final(self).store.places() == old(self).store.places(),
            final(self).store.record(tile as int).material == material,
            forall|k: int|
                0 <= k < old(self).store.places().len() && k != tile ==> #[trigger] final(self).store.record(k)
                    == old(self).store.record(k),
            final(self).mesh.face_materials@ == old(self).mesh.face_materials@.update(
                old(self).mesh.corner_count + tile,
                material,
            ),
            final(self).mesh.corner_count == old(self).mesh.corner_count,
            final(self).mesh.indices@ == old(self).mesh.indices@,
    {
        let count = self.mesh.face_materials.len();
        let at = self.mesh.corner_count + tile;
        assert(at < count);
        let ghost before = *self;
        let old_material = self.store.set_material(tile, material);
        self.mesh.face_materials.set(at, material);
        proof {
            assert forall|i: int| 0 <= i < self.store.places().len() implies (#[trigger] self.store.record(
                i,
            )).material == self.mesh.face_materials@[self.mesh.corner_count + i] by {
                if i != tile {
                    assert(self.store.record(i) == before.store.record(i));
                    assert(before.store.record(i).material == before.mesh.face_materials@[before.mesh.corner_count + i]);
                }
            }
        }
        old_material
    }
}

impl BoardBuilder {
    /// The dual mesh of the icosphere of this builder's subdivision level.
    pub fn tessellate(&self) -> (r: Result<Tessellation, TessellationError>)
        requires
            self.subdivisions <= MAX_SUBDIVISIONS,
        ensures
            ({
                let tris = icosphere_indices(self.subdivisions as nat);
                let n = icosphere_point_count(self.subdivisions as int);
                &&& (r == Err::<Tessellation, TessellationError>(TessellationError::BadTriangle))
                    <==> !valid_triangles(tris, n)
                &&& (r == Err::<Tessellation, TessellationError>(TessellationError::TooManyCorners))
                    <==> (valid_triangles(tris, n) && !fans_fit(tris, n))
                &&& (r == Err::<Tessellation, TessellationError>(TessellationError::OpenCycle))
                    <==> (valid_triangles(tris, n) && fans_fit(tris, n) && !fans_close(tris, n))
                &&& r matches Ok(m) ==> m.dual_of(tris, n) && m.corner_count
                    == icosphere_triangle_count(self.subdivisions as int)
            }),
    {
        let (tris, n) = base_triangulation(self.subdivisions);
        proof {
            lemma_counts_fit(self.subdivisions as int);
        }
        tessellate(&tris, n)
    }

    /// Classifies the tiles of `mesh` from their buckets (one per tile, see
    /// `world_biomes`), gives each a material drawn from its biome's range, marks
    /// that material on the tile's centre in the mesh, and stores the tiles in chunks.
    pub fn finish(&self, mesh: Tessellation, buckets: &Vec<(Measure, Measure)>) -> (r: Planet)
        requires
            mesh.tiles.len() == buckets.len(),
            mesh.tiles.len() <= u32::MAX,
            mesh.corner_count <= u32::MAX,
            mesh.face_materials@ == initial_materials(
                mesh.corner_count as int,
                mesh.tiles.len() as int,
            ),
        ensures
            r.wf(),
            r.table.wf(),
            r.table.ranges() == world_ranges(self.state),
            r.table.count() == world_material_count(self.state),
            r.store.wf(),
            r.store.places().len() == buckets.len(),
            r.store.per_face() == triangles_per_face(mesh.corner_count as int),
            r.mesh.corner_count == mesh.corner_count,
            r.mesh.indices@ == mesh.indices@,
            r.mesh.graph@ == mesh.graph@,
            r.mesh.graph.wf() == mesh.graph.wf(),
            r.mesh.face_materials@.len() == mesh.face_materials@.len(),
            forall|i: int| 0 <= i < mesh.corner_count ==> #[trigger] r.mesh.face_materials@[i] == 0,
            forall|i: int|
                0 <= i < r.mesh.face_materials@.len() ==> 0 <= #[trigger] r.mesh.face_materials@[i]
                    < r.table.count(),
            forall|i: int|
                0 <= i < buckets.len() ==> {
                    let b = world_biomes(self.state, buckets@)[i];
                    let range = find_range(r.table.ranges(), b)->0;
                    &&& (#[trigger] r.store.record(i)).biome == b
                    &&& r.store.record(i).corners@ == mesh.tiles@[i]@
                    &&& range.start <= r.store.record(i).material < range.end
                    &&& r.mesh.face_materials@[mesh.corner_count + i] == r.store.record(i).material
                },
    {
        let table = self.state.biome_table();
        let biomes = self.state.make_biomes(buckets);
        proof {
            assert forall|i: int| 0 <= i < biomes@.len() implies (#[trigger] find_range(
                table.ranges(),
                biomes@[i],
            )) is Some by {
                lemma_world_biomes_ranged(self.state, buckets@, i);
            }
        }
        let materials = match table.assign_materials(&biomes) {
            Some(m) => m,
            None => {
                proof {
                    assert(false);
                }
                Vec::new()
            },
        };
        let Tessellation { corner_count, tiles, indices, mut face_materials, graph } = mesh;
        let ghost old_faces = face_materials@;
        let total = face_materials.len();
        let mut i: usize = 0;
        while i < materials.len()
            invariant
                total == face_materials@.len(),
                materials@.len() == tiles@.len(),
                face_materials@.len() == corner_count + tiles@.len(),
                0 <= i <= materials.len(),
                old_faces == initial_materials(corner_count as int, tiles@.len() as int),
                forall|j: int| 0 <= j < corner_count ==> #[trigger] face_materials@[j] == 0,
                forall|j: int| 0 <= j < i ==> face_materials@[corner_count + j] == #[trigger] materials@[j],
            decreases materials.len() - i,
        {
            face_materials.set(corner_count + i, materials[i]);
            i = i + 1;
        }
        let per_face = if corner_count / 20 > 0 {
            (corner_count / 20) as u32
        } else {
            1
        };
        let ghost tile_views = tiles@;
        let store = ChunkedTileStore::new(tiles, &biomes, &materials, per_face);
        let new_mesh = Tessellation {
            corner_count,
            tiles: Vec::new(),
            indices,
            face_materials,
            graph,
        };
        proof {
            assert forall|i: int| 0 <= i < new_mesh.face_materials@.len() implies 0
                <= #[trigger] new_mesh.face_materials@[i] < table.count() by {
                if i >= corner_count {
                    let j = i - corner_count;
                    lemma_materials_in_table(&table, biomes@[j]);
                    assert(find_range(table.ranges(), biomes@[j]) is Some);
                    assert(new_mesh.face_materials@[corner_count + j] == materials@[j]);
                    assert(find_range(table.ranges(), biomes@[j])->0.start <= materials@[j]);
                }
            }
        }
        Planet { mesh: new_mesh, store, table }
    }
}

/// How many corners the first `k` tiles lack, each against six.
pub open spec fn corner_shortfall(tiles: Seq<Seq<u32>>, k: nat) -> int
    decreases k,
{
    if k == 0 {
        0
    } else {
        corner_shortfall(tiles, (k - 1) as nat) + (6 - tiles[k - 1].len())
    }
}

proof fn lemma_shortfall_total(tiles: Seq<Seq<u32>>, k: nat)
    ensures
        corner_shortfall(tiles, k) == 6 * k - corner_total(tiles, k),
    decreases k,
{
    if k > 0 {
        lemma_shortfall_total(tiles, (k - 1) as nat);
    }
}

/// At every subdivision level no tile of the icosphere has more than six corners,
/// and the corners that the tiles lack, counted against six each, add up to twelve.
pub proof fn lemma_twelve_missing_corners(s: nat, m: &Tessellation)
    requires
        m.dual_of(icosphere_indices(s), icosphere_point_count(s as int)),
        m.corner_count == icosphere_triangle_count(s as int),
    ensures
        forall|v: int|
            0 <= v < icosphere_point_count(s as int) ==> (#[trigger] m.tiles@[v])@.len() <= 6,
        corner_shortfall(lists_view(m.tiles@), icosphere_point_count(s as int) as nat) == 12,
{
    assert forall|v: int| 0 <= v < icosphere_point_count(s as int) implies (#[trigger] m.tiles@[v])@.len() <= 6 by {
        lemma_tile_len(icosphere_indices(s), v, m.tiles@[v]@);
        assert(fan(icosphere_indices(s), v).len() <= 6);
    }
    let n = icosphere_point_count(s as int);
    lemma_corner_total(icosphere_indices(s), n, m);
    lemma_shortfall_total(lists_view(m.tiles@), n as nat);
    let si = s as int;
    assert(6 * (10 * si * si + 20 * si + 12) - 3 * (20 * (si + 1) * (si + 1)) == 12) by (nonlinear_arith);
}

/// Whenever the icosphere of level `s` has a dual mesh, the mesh has one tile and
/// one graph node per base vertex, and its graph is symmetric and without loops:
/// two tiles touch exactly when their base vertices share a triangle.
pub proof fn lemma_icosphere_tiles_and_graph(s: nat, m: &Tessellation, a: int, b: int)
    requires
        m.dual_of(icosphere_indices(s), icosphere_point_count(s as int)),
    ensures
        m.tiles@.len() == icosphere_point_count(s as int),
        m.graph@.len() == icosphere_point_count(s as int),
        has_edge(m.graph@, a, b) ==> has_edge(m.graph@, b, a) && a != b,
        0 <= a < icosphere_point_count(s as int) && 0 <= b < icosphere_point_count(s as int) ==> (
        has_edge(m.graph@, a, b) <==> shares_triangle(icosphere_indices(s), a, b)),
{
    if has_edge(m.graph@, a, b) {
        lemma_symmetric_loop_free(&m.graph, a, b);
    }
}

} // verus!
