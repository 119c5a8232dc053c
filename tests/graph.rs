use sphereorder::tessellation::tessellate;
use sphereorder::{BoardBuilder, BoardInitializationType};

#[test]
fn tetrahedron_edges_once_each() {
    let m = tessellate(&vec![0, 1, 2, 0, 2, 3, 0, 3, 1, 1, 3, 2], 4).unwrap();
    let mut e = m.graph.edges();
    e.sort();
    assert_eq!(e, vec![(0, 1), (0, 2), (0, 3), (1, 2), (1, 3), (2, 3)]);
}

#[test]
fn icosphere_edge_count() {
    let m = BoardBuilder { subdivisions: 2, state: BoardInitializationType::Empty }.tessellate().unwrap();
    let e = m.graph.edges();
    assert_eq!(e.len(), 3 * m.corner_count / 2);
    assert!(e.iter().all(|&(a, b)| a < b && m.graph.is_edge(a as usize, b as usize)));
}

#[test]
fn neighbourhood_radii() {
    let m = BoardBuilder { subdivisions: 6, state: BoardInitializationType::Empty }.tessellate().unwrap();
    assert_eq!(m.graph.within(0, 0), vec![0]);
    let pentagon = m.graph.within(0, 1);
    assert_eq!(pentagon.len(), 6);
    assert_eq!(pentagon[0], 0);
    let hexagon = (0..m.tiles.len())
        .find(|&t| {
            m.graph.within(t, 2).iter().all(|&u| m.tiles[u as usize].len() == 6)
        })
        .unwrap();
    assert_eq!(m.graph.within(hexagon, 1).len(), 7);
    assert_eq!(m.graph.within(hexagon, 2).len(), 19);
}

#[test]
fn tetrahedron_neighbourhood_is_everything() {
    let m = tessellate(&vec![0, 1, 2, 0, 2, 3, 0, 3, 1, 1, 3, 2], 4).unwrap();
    let mut all = m.graph.within(2, 1);
    assert_eq!(all[0], 2);
    all.sort();
    assert_eq!(all, vec![0, 1, 2, 3]);
}
