use vstd::prelude::*;

use crate::tile::WFCState;

verus! {

/// A ready-made terrain alphabet: eight landscape tiles plus `Nothing`,
/// the fallback for cells that could not be resolved.
#[derive(Clone, Copy, Debug, PartialEq, Eq, Hash, Structural)]
pub enum TerrainExample {
    Sand,
    DarkSand,
    Water,
    DeepWater,
    Rocks,
    Grass,
    Forest,
    DeepForest,
    Nothing,
}

impl TerrainExample {
    /// The RGB colour this tile renders as.
    pub open spec fn spec_colour(self) -> [u8; 3] {
        match self {
            TerrainExample::Sand => [222, 252, 70],
            TerrainExample::DarkSand => [125, 135, 74],
            TerrainExample::Water => [37, 158, 146],
            TerrainExample::DeepWater => [5, 43, 114],
            TerrainExample::Rocks => [39, 44, 53],
            TerrainExample::Grass => [65, 186, 52],
            TerrainExample::Forest => [31, 102, 23],
            TerrainExample::DeepForest => [47, 68, 35],
            TerrainExample::Nothing => [0, 0, 0],
        }
    }

    /// The tiles allowed directly adjacent to this one, in declaration
    /// order; the fallback tile allows none.
    pub open spec fn spec_neighbours(self) -> Seq<TerrainExample> {
        match self {
            TerrainExample::Sand => seq![
                TerrainExample::Sand,
                TerrainExample::Water,
                TerrainExample::Grass,
            ],
            TerrainExample::DarkSand => seq![
                TerrainExample::DarkSand,
                TerrainExample::Sand,
                TerrainExample::Water,
            ],
            TerrainExample::Water => seq![
                TerrainExample::Water,
                TerrainExample::Sand,
                TerrainExample::DeepWater,
                TerrainExample::Forest,
            ],
            TerrainExample::DeepWater => seq![
                TerrainExample::DeepWater,
                TerrainExample::Water,
                TerrainExample::Rocks,
            ],
            TerrainExample::Rocks => seq![TerrainExample::DeepWater, TerrainExample::DeepForest],
            TerrainExample::Grass => seq![
                TerrainExample::Grass,
                TerrainExample::Sand,
                TerrainExample::Forest,
            ],
            TerrainExample::Forest => seq![
                TerrainExample::Forest,
                TerrainExample::Grass,
                TerrainExample::DeepForest,
                TerrainExample::Water,
            ],
            TerrainExample::DeepForest => seq![
                TerrainExample::DeepForest,
                TerrainExample::Rocks,
                TerrainExample::Forest,
            ],
            TerrainExample::Nothing => Seq::empty(),
        }
    }

    /// Whether `o` may stand next to `self`: the membership test of
    /// `spec_neighbours`, written out pair by pair. The relation is not
    /// symmetric (sand accepts grass, but dark sand accepts sand while
    /// sand does not accept dark sand).
    pub open spec fn spec_allows(self, o: Self) -> bool {
        match self {
            TerrainExample::Sand => o == TerrainExample::Sand || o == TerrainExample::Water || o
                == TerrainExample::Grass,
            TerrainExample::DarkSand => o == TerrainExample::DarkSand || o == TerrainExample::Sand
                || o == TerrainExample::Water,
            TerrainExample::Water => o == TerrainExample::Water || o == TerrainExample::Sand || o
                == TerrainExample::DeepWater || o == TerrainExample::Forest,
            TerrainExample::DeepWater => o == TerrainExample::DeepWater || o
                == TerrainExample::Water || o == TerrainExample::Rocks,
            TerrainExample::Rocks => o == TerrainExample::DeepWater || o
                == TerrainExample::DeepForest,
            TerrainExample::Grass => o == TerrainExample::Grass || o == TerrainExample::Sand || o
                == TerrainExample::Forest,
            TerrainExample::Forest => o == TerrainExample::Forest || o == TerrainExample::Grass
                || o == TerrainExample::DeepForest || o == TerrainExample::Water,
            TerrainExample::DeepForest => o == TerrainExample::DeepForest || o
                == TerrainExample::Rocks || o == TerrainExample::Forest,
            TerrainExample::Nothing => false,
        }
    }

    /// The raw preference table of allowed pairs, before the adjacency
    /// guard: how strongly `o` is drawn next to `self`.
    pub open spec fn spec_raw_bias(self, o: Self) -> usize {
        match (self, o) {
            (TerrainExample::Sand, TerrainExample::Sand) => 2,
            (TerrainExample::Sand, TerrainExample::DarkSand) => 2,
            (TerrainExample::DarkSand, TerrainExample::Sand) => 2,
            (TerrainExample::DarkSand, TerrainExample::DarkSand) => 2,
            (TerrainExample::Sand, TerrainExample::Water) => 1,
            (TerrainExample::Water, TerrainExample::Sand) => 1,
            (TerrainExample::Sand, TerrainExample::Grass) => 1,
            (TerrainExample::Grass, TerrainExample::Sand) => 1,
            (TerrainExample::DarkSand, TerrainExample::Water) => 2,
            (TerrainExample::Water, TerrainExample::DarkSand) => 2,
            (TerrainExample::Water, TerrainExample::Water) => 3,
            (TerrainExample::Water, TerrainExample::Forest) => 1,
            (TerrainExample::Forest, TerrainExample::Water) => 1,
            (TerrainExample::Water, TerrainExample::DeepWater) => 2,
            (TerrainExample::DeepWater, TerrainExample::Water) => 2,
            (TerrainExample::DeepWater, TerrainExample::DeepWater) => 5,
            (TerrainExample::DeepWater, TerrainExample::Rocks) => 1,
            (TerrainExample::DeepForest, TerrainExample::Rocks) => 1,
            (TerrainExample::Rocks, TerrainExample::DeepWater) => 1,
            (TerrainExample::Rocks, TerrainExample::DeepForest) => 1,
            (TerrainExample::Grass, TerrainExample::Grass) => 2,
            (TerrainExample::Grass, TerrainExample::Forest) => 3,
            (TerrainExample::Forest, TerrainExample::Grass) => 3,
            (TerrainExample::Forest, TerrainExample::Forest) => 4,
            (TerrainExample::Forest, TerrainExample::DeepForest) => 3,
            (TerrainExample::DeepForest, TerrainExample::Forest) => 3,
            (TerrainExample::DeepForest, TerrainExample::DeepForest) => 5,
            _ => 0,
        }
    }

    /// The bias of an ordered pair: the raw preference where the pair is
    /// allowed adjacent, zero otherwise.
    pub open spec fn spec_bias(self, o: Self) -> usize {
        if self.spec_allows(o) {
            self.spec_raw_bias(o)
        } else {
            0
        }
    }

    /// The RGB colour this tile renders as.
    pub fn get_colour(&self) -> (r: [u8; 3])
        ensures
            r == self.spec_colour(),
    {
        match self {
            TerrainExample::Sand => [222, 252, 70],
            TerrainExample::DarkSand => [125, 135, 74],
            TerrainExample::Water => [37, 158, 146],
            TerrainExample::DeepWater => [5, 43, 114],
            TerrainExample::Rocks => [39, 44, 53],
            TerrainExample::Grass => [65, 186, 52],
            TerrainExample::Forest => [31, 102, 23],
            TerrainExample::DeepForest => [47, 68, 35],
            TerrainExample::Nothing => [0, 0, 0],
        }
    }
}

/// The bias law of the terrain alphabet: a pair weighs zero exactly when
/// it is not allowed adjacent, and every allowed pair weighs between one
/// and five.
pub proof fn lemma_terrain_bias_law()
    ensures
        forall|a: TerrainExample, b: TerrainExample|
            (#[trigger] a.spec_bias(b)) > 0 <==> a.spec_allows(b),
        forall|a: TerrainExample, b: TerrainExample| (#[trigger] a.spec_bias(b)) <= 5,
{
}

/// The pairwise adjacency table and the neighbour lists agree: `o` is
/// allowed next to `a` exactly when `a`'s neighbour list holds it.
pub proof fn lemma_terrain_neighbours_allowed()
    ensures
        forall|a: TerrainExample, b: TerrainExample|
            (#[trigger] a.spec_neighbours().contains(b)) <==> a.spec_allows(b),
{
    assert forall|a: TerrainExample, b: TerrainExample|
        (#[trigger] a.spec_neighbours().contains(b)) <==> a.spec_allows(b) by {
        let s = a.spec_neighbours();
        if a.spec_allows(b) {
            assert(s.contains(b)) by {
                if s.len() > 0 && s[0] == b {
                    assert(s[0] == b);
                } else if s.len() > 1 && s[1] == b {
                    assert(s[1] == b);
                } else if s.len() > 2 && s[2] == b {
                    assert(s[2] == b);
                } else {
                    assert(s.len() > 3 && s[3] == b);
                }
            }
        }
        if s.contains(b) {
            let t = choose|t: int| 0 <= t < s.len() && s[t] == b;
            assert(a.spec_allows(b));
        }
    }
}

impl WFCState for TerrainExample {
    fn get_variants() -> Vec<Self> {
        let mut v: Vec<Self> = Vec::new();
        v.push(TerrainExample::Sand);
        v.push(TerrainExample::DarkSand);
        v.push(TerrainExample::Water);
        v.push(TerrainExample::DeepWater);
        v.push(TerrainExample::Rocks);
        v.push(TerrainExample::Grass);
        v.push(TerrainExample::Forest);
        v.push(TerrainExample::DeepForest);
        v.push(TerrainExample::Nothing);
        v
    }

    fn to_usize(self) -> usize {
        match self {
            TerrainExample::Sand => 0,
            TerrainExample::DarkSand => 1,
            TerrainExample::Water => 2,
            TerrainExample::DeepWater => 3,
            TerrainExample::Rocks => 4,
            TerrainExample::Grass => 5,
            TerrainExample::Forest => 6,
            TerrainExample::DeepForest => 7,
            TerrainExample::Nothing => 8,
        }
    }

    fn bias(&self, o: &Self) -> (r: usize)
        ensures
            r == self.spec_bias(*o),
    {
        match (self, o) {
            (TerrainExample::Sand, TerrainExample::Sand) => 2,
            (TerrainExample::DarkSand, TerrainExample::Sand) => 2,
            (TerrainExample::DarkSand, TerrainExample::DarkSand) => 2,
            (TerrainExample::Sand, TerrainExample::Water) => 1,
            (TerrainExample::Water, TerrainExample::Sand) => 1,
            (TerrainExample::Sand, TerrainExample::Grass) => 1,
            (TerrainExample::Grass, TerrainExample::Sand) => 1,
            (TerrainExample::DarkSand, TerrainExample::Water) => 2,
            (TerrainExample::Water, TerrainExample::Water) => 3,
            (TerrainExample::Water, TerrainExample::Forest) => 1,
            (TerrainExample::Forest, TerrainExample::Water) => 1,
            (TerrainExample::Water, TerrainExample::DeepWater) => 2,
            (TerrainExample::DeepWater, TerrainExample::Water) => 2,
            (TerrainExample::DeepWater, TerrainExample::DeepWater) => 5,
            (TerrainExample::DeepWater, TerrainExample::Rocks) => 1,
            (TerrainExample::DeepForest, TerrainExample::Rocks) => 1,
            (TerrainExample::Rocks, TerrainExample::DeepWater) => 1,
            (TerrainExample::Rocks, TerrainExample::DeepForest) => 1,
            (TerrainExample::Grass, TerrainExample::Grass) => 2,
            (TerrainExample::Grass, TerrainExample::Forest) => 3,
            (TerrainExample::Forest, TerrainExample::Grass) => 3,
            (TerrainExample::Forest, TerrainExample::Forest) => 4,
            (TerrainExample::Forest, TerrainExample::DeepForest) => 3,
            (TerrainExample::DeepForest, TerrainExample::Forest) => 3,
            (TerrainExample::DeepForest, TerrainExample::DeepForest) => 5,
            _ => 0,
        }
    }

    fn possible_neighbours(&self) -> (r: Vec<Self>)
        ensures
            r@ == self.spec_neighbours(),
    {
        let mut v: Vec<Self> = Vec::new();
        match self {
            TerrainExample::Sand => {
                v.push(TerrainExample::Sand);
                v.push(TerrainExample::Water);
                v.push(TerrainExample::Grass);
            },
            TerrainExample::DarkSand => {
                v.push(TerrainExample::DarkSand);
                v.push(TerrainExample::Sand);
                v.push(TerrainExample::Water);
            },
            TerrainExample::Water => {
                v.push(TerrainExample::Water);
                v.push(TerrainExample::Sand);
                v.push(TerrainExample::DeepWater);
                v.push(TerrainExample::Forest);
            },
            TerrainExample::DeepWater => {
                v.push(TerrainExample::DeepWater);
                v.push(TerrainExample::Water);
                v.push(TerrainExample::Rocks);
            },
            TerrainExample::Rocks => {
                v.push(TerrainExample::DeepWater);
                v.push(TerrainExample::DeepForest);
            },
            TerrainExample::Grass => {
                v.push(TerrainExample::Grass);
                v.push(TerrainExample::Sand);
                v.push(TerrainExample::Forest);
            },
            TerrainExample::Forest => {
                v.push(TerrainExample::Forest);
                v.push(TerrainExample::Grass);
                v.push(TerrainExample::DeepForest);
                v.push(TerrainExample::Water);
            },
            TerrainExample::DeepForest => {
                v.push(TerrainExample::DeepForest);
                v.push(TerrainExample::Rocks);
                v.push(TerrainExample::Forest);
            },
            TerrainExample::Nothing => {
            },
        }
        proof {
            assert(v@ =~= self.spec_neighbours());
        }
        v
    }

    fn none_option() -> Self {
        TerrainExample::Nothing
    }
}

} // verus!
