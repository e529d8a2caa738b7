use wave_function_collapse::TerrainExample;
use wave_function_collapse::WFCGenerator;
use wave_function_collapse::WFCState;

#[test]
fn colours_match_the_palette() {
    assert_eq!(TerrainExample::Sand.get_colour(), [222, 252, 70]);
    assert_eq!(TerrainExample::DeepWater.get_colour(), [5, 43, 114]);
    assert_eq!(TerrainExample::Forest.get_colour(), [31, 102, 23]);
    assert_eq!(TerrainExample::Nothing.get_colour(), [0, 0, 0]);
}

#[test]
fn identities_enumerate_the_variants() {
    let variants = TerrainExample::get_variants();
    assert_eq!(variants.len(), 9);
    for (i, v) in variants.iter().enumerate() {
        assert_eq!(v.to_usize(), i);
    }
}

#[test]
fn every_allowed_neighbour_has_positive_bias() {
    for v in TerrainExample::get_variants() {
        for nb in v.possible_neighbours() {
            assert!(
                v.bias(&nb) > 0,
                "{v:?} allows {nb:?} but gives it zero weight"
            );
        }
    }
}

#[test]
fn disallowed_pairs_have_zero_bias() {
    assert_eq!(TerrainExample::Rocks.bias(&TerrainExample::Grass), 0);
    assert_eq!(TerrainExample::Sand.bias(&TerrainExample::DeepForest), 0);
    assert_eq!(TerrainExample::Nothing.bias(&TerrainExample::Sand), 0);
    // Pairs the raw preference table mentions but the adjacency relation
    // forbids still weigh zero.
    assert_eq!(TerrainExample::Sand.bias(&TerrainExample::DarkSand), 0);
    assert_eq!(TerrainExample::Water.bias(&TerrainExample::DarkSand), 0);
    assert_eq!(TerrainExample::DeepWater.bias(&TerrainExample::DeepWater), 5);
}

#[test]
fn bias_values_match_the_preference_table() {
    assert_eq!(TerrainExample::Sand.bias(&TerrainExample::Water), 1);
    assert_eq!(TerrainExample::Water.bias(&TerrainExample::Water), 3);
    assert_eq!(TerrainExample::DarkSand.bias(&TerrainExample::Sand), 2);
    assert_eq!(TerrainExample::Grass.bias(&TerrainExample::Forest), 3);
    assert_eq!(TerrainExample::Forest.bias(&TerrainExample::Forest), 4);
    assert_eq!(TerrainExample::DeepForest.bias(&TerrainExample::DeepForest), 5);
}

#[test]
fn neighbour_lists_match_the_adjacency_table() {
    assert_eq!(
        TerrainExample::Rocks.possible_neighbours(),
        vec![TerrainExample::DeepWater, TerrainExample::DeepForest]
    );
    assert_eq!(
        TerrainExample::Sand.possible_neighbours(),
        vec![TerrainExample::Sand, TerrainExample::Water, TerrainExample::Grass]
    );
    // Not symmetric: dark sand accepts sand, sand does not accept dark sand.
    assert!(TerrainExample::DarkSand
        .possible_neighbours()
        .contains(&TerrainExample::Sand));
    assert!(!TerrainExample::Sand
        .possible_neighbours()
        .contains(&TerrainExample::DarkSand));
    assert!(TerrainExample::Nothing.possible_neighbours().is_empty());
}

#[test]
fn terrain_generates_a_full_map() {
    let out = WFCGenerator::<TerrainExample>::generate(4, 4).unwrap();
    assert_eq!(out.len(), 16);
}
