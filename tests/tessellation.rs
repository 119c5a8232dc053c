use sphereorder::tessellation::{check_triangles, tessellate};
use sphereorder::{BoardBuilder, BoardInitializationType, Index, TessellationError};

fn tetrahedron() -> Vec<u32> {
    vec![0, 1, 2, 0, 2, 3, 0, 3, 1, 1, 3, 2]
}

fn builder(subdivisions: usize) -> BoardBuilder {
    BoardBuilder { subdivisions, state: BoardInitializationType::Empty }
}

#[test]
fn tetrahedron_tiles_are_ordered_cycles() {
    let m = tessellate(&tetrahedron(), 4).unwrap();
    assert_eq!(m.corner_count, 4);
    assert_eq!(m.tiles.len(), 4);
    assert_eq!(m.tiles[0], vec![2, 0, 1]);
    for tile in &m.tiles {
        assert_eq!(tile.len(), 3);
    }
}

#[test]
fn tetrahedron_index_buffer_is_fans() {
    let m = tessellate(&tetrahedron(), 4).unwrap();
    assert_eq!(m.indices.len(), 4 * 3 * 3);
    assert_eq!(&m.indices[0..9], &[4, 2, 0, 4, 0, 1, 4, 1, 2]);
    assert_eq!(m.face_materials, vec![0, 0, 0, 0, 1, 1, 1, 1]);
}

#[test]
fn tetrahedron_graph_is_complete() {
    let m = tessellate(&tetrahedron(), 4).unwrap();
    assert_eq!(m.graph.node_count(), 4);
    assert_eq!(m.graph.neighbours(0), &vec![3, 1, 2]);
    for a in 0..4 {
        for b in 0..4 {
            assert_eq!(m.graph.is_edge(a, b), a != b);
        }
    }
}

#[test]
fn out_of_range_index_is_bad_triangle() {
    assert_eq!(tessellate(&vec![0, 1, 4], 4).err(), Some(TessellationError::BadTriangle));
    assert!(!check_triangles(&vec![0, 1, 4], 4));
}

#[test]
fn repeated_vertex_is_bad_triangle() {
    assert_eq!(tessellate(&vec![0, 1, 1], 4).err(), Some(TessellationError::BadTriangle));
}

#[test]
fn partial_triangle_is_bad_triangle() {
    assert_eq!(tessellate(&vec![0, 1], 4).err(), Some(TessellationError::BadTriangle));
}

#[test]
fn lone_triangle_is_open_cycle() {
    assert_eq!(tessellate(&vec![0, 1, 2], 3).err(), Some(TessellationError::OpenCycle));
}

#[test]
fn unused_vertex_is_open_cycle() {
    assert_eq!(tessellate(&tetrahedron(), 5).err(), Some(TessellationError::OpenCycle));
}

#[test]
fn seven_triangles_at_a_vertex_is_too_many_corners() {
    let mut tris = Vec::new();
    for i in 0..7u32 {
        tris.extend_from_slice(&[0, 1 + i, 1 + (i + 1) % 7]);
    }
    assert_eq!(tessellate(&tris, 8).err(), Some(TessellationError::TooManyCorners));
}

#[test]
fn resolve_offsets_tile_centres() {
    assert_eq!(Index::All(7).resolve(100), 7);
    assert_eq!(Index::Mid(7).resolve(100), 107);
}

#[test]
fn twelve_pentagons_and_the_rest_hexagons() {
    for level in 1..6 {
        let m = builder(level).tessellate().unwrap();
        let pentagons = m.tiles.iter().filter(|t| t.len() == 5).count();
        let hexagons = m.tiles.iter().filter(|t| t.len() == 6).count();
        assert_eq!(pentagons, 12);
        assert_eq!(hexagons, m.tiles.len() - 12);
    }
}

#[test]
fn tile_count_is_base_vertex_count() {
    for level in 0..6usize {
        let m = builder(level).tessellate().unwrap();
        assert_eq!(m.tiles.len(), 10 * level * level + 20 * level + 12);
        assert_eq!(m.corner_count, 20 * (level + 1) * (level + 1));
    }
}

#[test]
fn level_zero_is_a_dodecahedron() {
    let m = builder(0).tessellate().unwrap();
    assert_eq!(m.tiles.len(), 12);
    assert!(m.tiles.iter().all(|t| t.len() == 5));
}

#[test]
fn adjacency_is_symmetric_and_loop_free() {
    let m = builder(2).tessellate().unwrap();
    let n = m.graph.node_count();
    for a in 0..n {
        for &b in m.graph.neighbours(a) {
            assert_ne!(a, b as usize);
            assert!(m.graph.is_edge(b as usize, a));
        }
        assert_eq!(m.graph.neighbours(a).len(), m.tiles[a].len());
    }
}

#[test]
fn index_buffer_holds_whole_triangles() {
    let m = builder(3).tessellate().unwrap();
    assert_eq!(m.indices.len() % 3, 0);
    let points = m.corner_count + m.tiles.len();
    assert!(m.indices.iter().all(|&i| (i as usize) < points));
    assert_eq!(m.face_materials.len(), points);
}

#[test]
fn calibration_edge_joins_hexagons() {
    let m = builder(2).tessellate().unwrap();
    let (a, b) = m.calibration_edge().unwrap();
    assert!(m.graph.is_edge(a as usize, b as usize));
    assert_eq!(m.tiles[a as usize].len(), 6);
    assert_eq!(m.tiles[b as usize].len(), 6);
}

#[test]
fn no_calibration_edge_among_pentagons() {
    assert_eq!(builder(0).tessellate().unwrap().calibration_edge(), None);
}
