//! Biome classification from bucketed noise channels, and the tables that map each
//! biome to its range of material indices.
use vstd::prelude::*;
use rand::Rng;

verus! {

/// A discrete terrain class.
#[derive(Copy, Clone, Debug, PartialEq, Eq, Hash, Structural)]
pub enum Biome {
    Dirt,
    Metal,
    Lava,
    Ice,
    Cloud,
    Asteroid,
    Platform,
    Empty,
}

/// The bucket a continuous channel value falls into.
#[derive(Copy, Clone, Debug, PartialEq, Eq, Hash, Structural)]
pub enum Measure {
    Low,
    Mid,
    High,
}

/// The biome of a tile of a base world: hot is lava, then metal-rich is metal, then
/// cold is ice, and dirt is the fallback.
pub open spec fn base_biome(temperature: Measure, metal: Measure) -> Biome {
    if temperature == Measure::High {
        Biome::Lava
    } else if metal == Measure::High {
        Biome::Metal
    } else if temperature == Measure::Low {
        Biome::Ice
    } else {
        Biome::Dirt
    }
}

/// The biome of a tile of a sky world: low land is empty, the rest is cloud.
pub open spec fn sky_biome(land: Measure) -> Biome {
    if land == Measure::Low {
        Biome::Empty
    } else {
        Biome::Cloud
    }
}

/// The biome of a tile of a space world: low land is empty, the rest is asteroid.
pub open spec fn space_biome(land: Measure) -> Biome {
    if land == Measure::Low {
        Biome::Empty
    } else {
        Biome::Asteroid
    }
}

/// Biomes of a base world, from (metal, temperature) buckets per tile.
pub open spec fn base_biomes(buckets: Seq<(Measure, Measure)>) -> Seq<Biome> {
    Seq::new(buckets.len(), |i: int| base_biome(buckets[i].1, buckets[i].0))
}

/// Biomes of a sky world, from one land bucket per tile.
pub open spec fn sky_biomes(land: Seq<Measure>) -> Seq<Biome> {
    Seq::new(land.len(), |i: int| sky_biome(land[i]))
}

/// Biomes of a space world, from one land bucket per tile.
pub open spec fn space_biomes(land: Seq<Measure>) -> Seq<Biome> {
    Seq::new(land.len(), |i: int| space_biome(land[i]))
}

impl Biome {
    /// Classifies a tile of a base world.
    pub fn new_base(temperature: Measure, metal: Measure) -> (r: Biome)
        ensures
            r == base_biome(temperature, metal),
    {
        match (temperature, metal) {
            (Measure::High, _) => Biome::Lava,
            (_, Measure::High) => Biome::Metal,
            (Measure::Low, _) => Biome::Ice,
            _ => Biome::Dirt,
        }
    }

    /// Classifies a tile of a sky world.
    pub fn new_sky(land: Measure) -> (r: Biome)
        ensures
            r == sky_biome(land),
    {
        match land {
            Measure::Low => Biome::Empty,
            _ => Biome::Cloud,
        }
    }

    /// Classifies a tile of a space world.
    pub fn new_space(land: Measure) -> (r: Biome)
        ensures
            r == space_biome(land),
    {
        match land {
            Measure::Low => Biome::Empty,
            _ => Biome::Asteroid,
        }
    }
}

/// Classifies every tile of a base world from its (metal, temperature) buckets.
pub fn make_base_biomes(metal_temp: &Vec<(Measure, Measure)>) -> (r: Vec<Biome>)
    ensures
        r@ == base_biomes(metal_temp@),
{
    let mut out: Vec<Biome> = Vec::new();
    let mut i: usize = 0;
    while i < metal_temp.len()
        invariant
            0 <= i <= metal_temp.len(),
            out@ =~= base_biomes(metal_temp@).take(i as int),
        decreases metal_temp.len() - i,
    {
        let (metal, temp) = metal_temp[i];
        out.push(Biome::new_base(temp, metal));
        i = i + 1;
    }
    assert(out@ =~= base_biomes(metal_temp@));
    out
}

/// Classifies every tile of a sky world from its land bucket.
pub fn make_sky_biomes(land: &Vec<Measure>) -> (r: Vec<Biome>)
    ensures
        r@ == sky_biomes(land@),
{
    let mut out: Vec<Biome> = Vec::new();
    let mut i: usize = 0;
    while i < land.len()
        invariant
            0 <= i <= land.len(),
            out@ =~= sky_biomes(land@).take(i as int),
        decreases land.len() - i,
    {
        out.push(Biome::new_sky(land[i]));
        i = i + 1;
    }
    assert(out@ =~= sky_biomes(land@));
    out
}

/// Classifies every tile of a space world from its land bucket.
pub fn make_space_biomes(land: &Vec<Measure>) -> (r: Vec<Biome>)
    ensures
        r@ == space_biomes(land@),
{
    let mut out: Vec<Biome> = Vec::new();
    let mut i: usize = 0;
    while i < land.len()
        invariant
            0 <= i <= land.len(),
            out@ =~= space_biomes(land@).take(i as int),
        decreases land.len() - i,
    {
        out.push(Biome::new_space(land[i]));
        i = i + 1;
    }
    assert(out@ =~= space_biomes(land@));
    out
}

/// Classification depends on the buckets alone: two tiles of a base world with the
/// same buckets get the same biome, and so do two tiles of a sky or a space world.
pub proof fn lemma_same_buckets_same_biome(
    metal_temp: Seq<(Measure, Measure)>,
    land: Seq<Measure>,
    i: int,
    j: int,
)
    ensures
        0 <= i < metal_temp.len() && 0 <= j < metal_temp.len() && metal_temp[i] == metal_temp[j]
            ==> base_biomes(metal_temp)[i] == base_biomes(metal_temp)[j],
        0 <= i < land.len() && 0 <= j < land.len() && land[i] == land[j] ==> sky_biomes(land)[i]
            == sky_biomes(land)[j] && space_biomes(land)[i] == space_biomes(land)[j],
{
}

/// The material indices `start..end` reserved for `biome`.
#[derive(Copy, Clone, Debug, PartialEq, Eq, Structural)]
pub struct BiomeRange {
    pub biome: Biome,
    pub start: i32,
    pub end: i32,
}

/// The range of the first entry for `b` among `rs`, if there is one.
pub open spec fn find_range(rs: Seq<BiomeRange>, b: Biome) -> Option<BiomeRange>
    decreases rs.len(),
{
    if rs.len() == 0 {
        None
    } else if rs[0].biome == b {
        Some(rs[0])
    } else {
        find_range(rs.drop_first(), b)
    }
}

pub open spec fn base_ranges() -> Seq<BiomeRange> {
    seq![
        BiomeRange { biome: Biome::Empty, start: 1, end: 2 },
        BiomeRange { biome: Biome::Dirt, start: 2, end: 5 },
        BiomeRange { biome: Biome::Metal, start: 5, end: 8 },
        BiomeRange { biome: Biome::Lava, start: 8, end: 11 },
        BiomeRange { biome: Biome::Ice, start: 11, end: 14 },
    ]
}

pub open spec fn sky_ranges() -> Seq<BiomeRange> {
    seq![
        BiomeRange { biome: Biome::Empty, start: 1, end: 2 },
        BiomeRange { biome: Biome::Cloud, start: 2, end: 4 },
        BiomeRange { biome: Biome::Platform, start: 4, end: 5 },
    ]
}

pub open spec fn space_ranges() -> Seq<BiomeRange> {
    seq![
        BiomeRange { biome: Biome::Empty, start: 1, end: 2 },
        BiomeRange { biome: Biome::Asteroid, start: 2, end: 5 },
        BiomeRange { biome: Biome::Platform, start: 5, end: 6 },
    ]
}

/// Which biomes own which material indices. Material 0 belongs to no biome: it is the
/// material of the corner points.
pub struct BiomeTable {
    ranges: Vec<BiomeRange>,
    material_count: i32,
}

/// Every range is non-empty and lies inside `1..count`.
pub open spec fn ranges_wf(rs: Seq<BiomeRange>, count: int) -> bool {
    forall|i: int| 0 <= i < rs.len() ==> 1 <= #[trigger] rs[i].start < rs[i].end <= count
}

proof fn lemma_find_range_in(rs: Seq<BiomeRange>, count: int, b: Biome)
    requires
        ranges_wf(rs, count),
    ensures
        find_range(rs, b) matches Some(x) ==> 1 <= x.start < x.end <= count,
    decreases rs.len(),
{
    if rs.len() > 0 {
        assert(1 <= rs[0].start);
        assert(ranges_wf(rs.drop_first(), count)) by {
            assert forall|i: int| 0 <= i < rs.drop_first().len() implies 1 <= #[trigger] rs.drop_first()[i].start
                < rs.drop_first()[i].end <= count by {
                assert(rs.drop_first()[i] == rs[i + 1]);
            }
        }
        lemma_find_range_in(rs.drop_first(), count, b);
    }
}

/// Relies on `rand::Rng::gen_range` over the thread's generator: a value drawn from
/// `lo..hi`; it panics only when the range is empty.
#[verifier::external_body]
fn random_in(lo: i32, hi: i32) -> (r: i32)
    requires
        lo < hi,
    ensures
        lo <= r < hi,
{
    rand::thread_rng().gen_range(lo..hi)
}

impl BiomeTable {
    pub closed spec fn ranges(&self) -> Seq<BiomeRange> {
        self.ranges@
    }

    pub closed spec fn count(&self) -> int {
        self.material_count as int
    }

    pub open spec fn wf(&self) -> bool {
        ranges_wf(self.ranges(), self.count())
    }

    /// The table of base worlds: 14 materials.
    pub fn base() -> (r: Self)
        ensures
            r.ranges() == base_ranges(),
            r.count() == 14,
            r.wf(),
    {
        let ranges = vec![
            BiomeRange { biome: Biome::Empty, start: 1, end: 2 },
            BiomeRange { biome: Biome::Dirt, start: 2, end: 5 },
            BiomeRange { biome: Biome::Metal, start: 5, end: 8 },
            BiomeRange { biome: Biome::Lava, start: 8, end: 11 },
            BiomeRange { biome: Biome::Ice, start: 11, end: 14 },
        ];
        assert(ranges@ =~= base_ranges());
        BiomeTable { ranges, material_count: 14 }
    }

    /// The table of sky worlds: 5 materials.
    pub fn sky() -> (r: Self)
        ensures
            r.ranges() == sky_ranges(),
            r.count() == 5,
            r.wf(),
    {
        let ranges = vec![
            BiomeRange { biome: Biome::Empty, start: 1, end: 2 },
            BiomeRange { biome: Biome::Cloud, start: 2, end: 4 },
            BiomeRange { biome: Biome::Platform, start: 4, end: 5 },
        ];
        assert(ranges@ =~= sky_ranges());
        BiomeTable { ranges, material_count: 5 }
    }

    /// The table of space worlds: 6 materials.
    pub fn space() -> (r: Self)
        ensures
            r.ranges() == space_ranges(),
            r.count() == 6,
            r.wf(),
    {
        let ranges = vec![
            BiomeRange { biome: Biome::Empty, start: 1, end: 2 },
            BiomeRange { biome: Biome::Asteroid, start: 2, end: 5 },
            BiomeRange { biome: Biome::Platform, start: 5, end: 6 },
        ];
        assert(ranges@ =~= space_ranges());
        BiomeTable { ranges, material_count: 6 }
    }

    /// The number of materials, the reserved material 0 included.
    pub fn material_count(&self) -> (r: i32)
        ensures
            r == self.count(),
    {
        self.material_count
    }

    /// The range of material indices reserved for `biome`.
    pub fn range_of(&self, biome: Biome) -> (r: Option<BiomeRange>)
        ensures
            r == find_range(self.ranges(), biome),
    {
        let mut i: usize = 0;
        assert(self.ranges@.skip(0) =~= self.ranges@);
        while i < self.ranges.len()
            invariant
                0 <= i <= self.ranges@.len(),
                find_range(self.ranges@, biome) == find_range(self.ranges@.skip(i as int), biome),
            decreases self.ranges@.len() - i,
        {
            let e = self.ranges[i];
            assert(self.ranges@.skip(i as int)[0] == e);
            if e.biome == biome {
                return Some(e);
            }
            assert(self.ranges@.skip(i as int).drop_first() =~= self.ranges@.skip(i + 1));
            i = i + 1;
        }
        None
    }

    /// A material for a tile of `biome`, drawn at random from the biome's range;
    /// `None` when the table has no range for it.
    pub fn pick_material(&self, biome: Biome) -> (r: Option<i32>)
        requires
            self.wf(),
        ensures
            r is Some <==> find_range(self.ranges(), biome) is Some,
            r matches Some(m) ==> find_range(self.ranges(), biome)->0.start <= m
                < find_range(self.ranges(), biome)->0.end,
    {
        proof {
            lemma_find_range_in(self.ranges(), self.count(), biome);
        }
        match self.range_of(biome) {
            Some(range) => Some(random_in(range.start, range.end)),
            None => None,
        }
    }

    /// A material for each tile, drawn from the range of its biome; `None` when some
    /// biome has no range in the table.
    pub fn assign_materials(&self, biomes: &Vec<Biome>) -> (r: Option<Vec<i32>>)
        requires
            self.wf(),
        ensures
            r is Some <==> forall|i: int|
                0 <= i < biomes@.len() ==> (#[trigger] find_range(self.ranges(), biomes@[i])) is Some,
            r matches Some(ms) ==> ms@.len() == biomes@.len() && forall|i: int|
                0 <= i < biomes@.len() ==> find_range(self.ranges(), biomes@[i])->0.start
                    <= #[trigger] ms@[i] < find_range(self.ranges(), biomes@[i])->0.end,
    {
        let mut out: Vec<i32> = Vec::new();
        let mut i: usize = 0;
        while i < biomes.len()
            invariant
                self.wf(),
                0 <= i <= biomes.len(),
                out@.len() == i,
                forall|j: int| 0 <= j < i ==> (#[trigger] find_range(self.ranges(), biomes@[j])) is Some,
                forall|j: int|
                    0 <= j < i ==> find_range(self.ranges(), biomes@[j])->0.start <= #[trigger] out@[j]
                        < find_range(self.ranges(), biomes@[j])->0.end,
            decreases biomes.len() - i,
        {
            match self.pick_material(biomes[i]) {
                Some(m) => out.push(m),
                None => {
                    return None;
                },
            }
            i = i + 1;
        }
        Some(out)
    }
}

/// Every material that a table hands out lies inside `1..count`, so inside the table.
pub proof fn lemma_materials_in_table(table: &BiomeTable, biome: Biome)
    requires
        table.wf(),
    ensures
        find_range(table.ranges(), biome) matches Some(x) ==> 1 <= x.start && x.end <= table.count(),
{
    lemma_find_range_in(table.ranges(), table.count(), biome);
}

/// Each table has a range for every biome that its world's classifier gives.
pub proof fn lemma_classified_biomes_have_ranges(t: Measure, m: Measure, land: Measure)
    ensures
        find_range(base_ranges(), base_biome(t, m)) is Some,
        find_range(sky_ranges(), sky_biome(land)) is Some,
        find_range(space_ranges(), space_biome(land)) is Some,
        find_range(space_ranges(), Biome::Empty) is Some,
{
    reveal_with_fuel(find_range, 6);
}

} // verus!
