use sphereorder::board::MAX_SUBDIVISIONS;
use sphereorder::store::{chunk_for, CHUNK_COUNT};
use sphereorder::{
    Biome, BoardBuilder, BoardInitializationType, GeographicalParams, LayerChild, Measure,
    PlanetDesc, SkyParams,
};

fn base_builder(subdivisions: usize) -> BoardBuilder {
    BoardBuilder::from(PlanetDesc {
        subvidisions: subdivisions,
        planet_type: BoardInitializationType::Base(GeographicalParams { metal_seed: 2, temp_seed: 1 }),
    })
}

fn buckets(n: usize) -> Vec<(Measure, Measure)> {
    let all = [Measure::Low, Measure::Mid, Measure::High];
    (0..n).map(|i| (all[i % 3], all[(i / 3) % 3])).collect()
}

#[test]
fn layer_subdivisions() {
    assert_eq!(LayerChild::new(0).subdivisions(), 8);
    assert_eq!(LayerChild::new(5).subdivisions(), 23);
}

#[test]
fn builder_from_desc() {
    let b = base_builder(2);
    assert_eq!(b.subdivisions, 2);
    assert!(MAX_SUBDIVISIONS >= 33);
}

#[test]
fn base_world_level_two_mesh() {
    let b = base_builder(2);
    let mesh = b.tessellate().unwrap();
    let tiles = mesh.tiles.len();
    let corners = mesh.corner_count;
    let planet = b.finish(mesh, &buckets(tiles));
    assert_eq!(planet.mesh.indices.len() % 3, 0);
    assert_eq!(planet.mesh.face_materials.len(), corners + tiles);
    let count = planet.table.material_count();
    assert_eq!(count, 14);
    assert!(planet.mesh.face_materials.iter().all(|&m| m >= 0 && m < count));
    assert!(planet.mesh.face_materials[..corners].iter().all(|&m| m == 0));
    assert!(planet.mesh.face_materials[corners..].iter().all(|&m| m >= 2));
}

#[test]
fn tile_records_follow_buckets() {
    let b = base_builder(2);
    let mesh = b.tessellate().unwrap();
    let n = mesh.tiles.len();
    let corners = mesh.corner_count;
    let bs = buckets(n);
    let planet = b.finish(mesh, &bs);
    for i in 0..n {
        let rec = planet.store.tile(i);
        assert_eq!(rec.node as usize, i);
        assert_eq!(rec.biome, Biome::new_base(bs[i].1, bs[i].0));
        let r = planet.table.range_of(rec.biome).unwrap();
        assert!(rec.material >= r.start && rec.material < r.end);
        assert_eq!(planet.mesh.face_materials[corners + i], rec.material);
    }
}

#[test]
fn chunk_sizes_add_up() {
    let b = base_builder(3);
    let mesh = b.tessellate().unwrap();
    let n = mesh.tiles.len();
    let planet = b.finish(mesh, &buckets(n));
    let total: usize = (0..CHUNK_COUNT).map(|c| planet.store.chunk_len(c)).sum();
    assert_eq!(total, n);
    assert_eq!(planet.store.tile_count(), n);
    for node in 0..n {
        let first = planet.store.resolve(node);
        assert_eq!(first, planet.store.resolve(node));
        let rec = planet.store.tile(node);
        assert_eq!(first.0, chunk_for(&rec.corners, 16));
    }
    assert!(planet.store.chunk_len(20) > 0);
    assert!(planet.store.chunk_len(0) > 0);
}

#[test]
fn chunk_rule() {
    assert_eq!(chunk_for(&vec![0, 1, 2, 3, 4, 5], 9), 0);
    assert_eq!(chunk_for(&vec![18, 19, 20], 9), 2);
    assert_eq!(chunk_for(&vec![8, 9, 10], 9), 20);
    assert_eq!(chunk_for(&vec![200], 9), 20);
    assert_eq!(chunk_for(&vec![], 9), 20);
}

#[test]
fn empty_world_tiles_are_empty() {
    let b = BoardBuilder { subdivisions: 1, state: BoardInitializationType::Empty };
    let mesh = b.tessellate().unwrap();
    let n = mesh.tiles.len();
    let planet = b.finish(mesh, &buckets(n));
    assert_eq!(planet.table.material_count(), 6);
    for i in 0..n {
        assert_eq!(planet.store.tile(i).biome, Biome::Empty);
        assert_eq!(planet.store.tile(i).material, 1);
    }
}

#[test]
fn sky_world_uses_sky_table() {
    let b = BoardBuilder { subdivisions: 1, state: BoardInitializationType::Sky(SkyParams { land_seed: 3 }) };
    let mesh = b.tessellate().unwrap();
    let n = mesh.tiles.len();
    let planet = b.finish(mesh, &buckets(n));
    assert_eq!(planet.table.material_count(), 5);
    for i in 0..n {
        let biome = planet.store.tile(i).biome;
        assert!(biome == Biome::Empty || biome == Biome::Cloud);
    }
}

#[test]
fn set_tile_material_returns_old_and_marks_mesh() {
    let b = base_builder(1);
    let mesh = b.tessellate().unwrap();
    let n = mesh.tiles.len();
    let corners = mesh.corner_count;
    let mut planet = b.finish(mesh, &buckets(n));
    let before = planet.store.tile(3).material;
    let slot = planet.mesh.face_materials[corners + 3];
    assert_eq!(slot, before);
    let old = planet.set_tile_material(3, 12);
    assert_eq!(old, before);
    assert_eq!(planet.store.tile(3).material, 12);
    assert_eq!(planet.mesh.face_materials[corners + 3], 12);
    assert_eq!(planet.set_tile_material(3, 9), 12);
    assert_eq!(planet.mesh.face_materials[corners + 3], 9);
}

#[test]
fn space_world_has_six_materials() {
    let b = BoardBuilder { subdivisions: 1, state: BoardInitializationType::Space(SkyParams { land_seed: 4 }) };
    let mesh = b.tessellate().unwrap();
    let n = mesh.tiles.len();
    let planet = b.finish(mesh, &buckets(n));
    assert_eq!(planet.table.material_count(), 6);
    assert!(planet.mesh.face_materials.iter().all(|&m| m >= 0 && m < 6));
}
