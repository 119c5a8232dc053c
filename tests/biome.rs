use sphereorder::biome::{make_base_biomes, make_sky_biomes, make_space_biomes};
use sphereorder::{Biome, BiomeTable, Measure};

const ALL: [Measure; 3] = [Measure::Low, Measure::Mid, Measure::High];

#[test]
fn base_decision_tree() {
    assert_eq!(Biome::new_base(Measure::High, Measure::High), Biome::Lava);
    assert_eq!(Biome::new_base(Measure::Mid, Measure::High), Biome::Metal);
    assert_eq!(Biome::new_base(Measure::Low, Measure::High), Biome::Metal);
    assert_eq!(Biome::new_base(Measure::Low, Measure::Mid), Biome::Ice);
    assert_eq!(Biome::new_base(Measure::Mid, Measure::Mid), Biome::Dirt);
    assert_eq!(Biome::new_base(Measure::Mid, Measure::Low), Biome::Dirt);
}

#[test]
fn sky_and_space_decisions() {
    assert_eq!(Biome::new_sky(Measure::Low), Biome::Empty);
    assert_eq!(Biome::new_sky(Measure::High), Biome::Cloud);
    assert_eq!(Biome::new_space(Measure::Low), Biome::Empty);
    assert_eq!(Biome::new_space(Measure::Mid), Biome::Asteroid);
}

#[test]
fn same_buckets_same_biome() {
    let mut buckets = Vec::new();
    for &m in &ALL {
        for &t in &ALL {
            buckets.push((m, t));
            buckets.push((m, t));
        }
    }
    let biomes = make_base_biomes(&buckets);
    assert_eq!(biomes.len(), buckets.len());
    for i in 0..buckets.len() {
        for j in 0..buckets.len() {
            if buckets[i] == buckets[j] {
                assert_eq!(biomes[i], biomes[j]);
            }
        }
    }
    let land = vec![Measure::Low, Measure::High, Measure::Low];
    assert_eq!(make_sky_biomes(&land), vec![Biome::Empty, Biome::Cloud, Biome::Empty]);
    assert_eq!(make_space_biomes(&land), vec![Biome::Empty, Biome::Asteroid, Biome::Empty]);
}

#[test]
fn base_table_ranges() {
    let t = BiomeTable::base();
    assert_eq!(t.material_count(), 14);
    let r = t.range_of(Biome::Metal).unwrap();
    assert_eq!((r.start, r.end), (5, 8));
    assert!(t.range_of(Biome::Cloud).is_none());
    assert_eq!(t.pick_material(Biome::Cloud), None);
}

#[test]
fn sky_and_space_table_ranges() {
    let r = BiomeTable::sky().range_of(Biome::Cloud).unwrap();
    assert_eq!((r.start, r.end), (2, 4));
    let r = BiomeTable::space().range_of(Biome::Asteroid).unwrap();
    assert_eq!((r.start, r.end), (2, 5));
    assert_eq!(BiomeTable::space().material_count(), 6);
}

#[test]
fn picked_materials_stay_in_range() {
    let t = BiomeTable::base();
    let mut seen = [false; 14];
    for _ in 0..400 {
        let m = t.pick_material(Biome::Lava).unwrap();
        assert!((8..11).contains(&m));
        seen[m as usize] = true;
    }
    assert!(seen[8] && seen[9] && seen[10]);
    assert_eq!(t.pick_material(Biome::Empty), Some(1));
}

#[test]
fn assign_materials_fails_on_missing_biome() {
    let t = BiomeTable::sky();
    assert!(t.assign_materials(&vec![Biome::Cloud, Biome::Lava]).is_none());
    let ms = t.assign_materials(&vec![Biome::Cloud, Biome::Platform]).unwrap();
    assert!((2..4).contains(&ms[0]));
    assert_eq!(ms[1], 4);
}
