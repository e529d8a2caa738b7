use wave_function_collapse::TerrainExample;
use wave_function_collapse::WFCError;
use wave_function_collapse::WFCGenerator;
use wave_function_collapse::WFCState;

#[derive(Clone, Copy, Debug, PartialEq, Eq)]
enum Mono {
    A,
}

impl WFCState for Mono {
    fn get_variants() -> Vec<Self> {
        vec![Mono::A]
    }
    fn to_usize(self) -> usize {
        0
    }
    fn bias(&self, _o: &Self) -> usize {
        1
    }
    fn possible_neighbours(&self) -> Vec<Self> {
        vec![Mono::A]
    }
    fn none_option() -> Self {
        Mono::A
    }
}

#[derive(Clone, Copy, Debug, PartialEq, Eq)]
enum Empty {}

impl WFCState for Empty {
    fn get_variants() -> Vec<Self> {
        vec![]
    }
    fn to_usize(self) -> usize {
        match self {}
    }
    fn bias(&self, _o: &Self) -> usize {
        match *self {}
    }
    fn possible_neighbours(&self) -> Vec<Self> {
        match *self {}
    }
    fn none_option() -> Self {
        unreachable!()
    }
}

#[derive(Clone, Copy, Debug, PartialEq, Eq)]
enum BadIds {
    X,
    Y,
}

impl WFCState for BadIds {
    fn get_variants() -> Vec<Self> {
        vec![BadIds::X, BadIds::Y]
    }
    fn to_usize(self) -> usize {
        0
    }
    fn bias(&self, _o: &Self) -> usize {
        1
    }
    fn possible_neighbours(&self) -> Vec<Self> {
        vec![BadIds::X]
    }
    fn none_option() -> Self {
        BadIds::X
    }
}

#[test]
fn zero_dimensions_are_rejected() {
    assert_eq!(
        WFCGenerator::<Mono>::new(0, 5).err(),
        Some(WFCError::ZeroDimension)
    );
    assert_eq!(
        WFCGenerator::<Mono>::new(5, 0).err(),
        Some(WFCError::ZeroDimension)
    );
    assert_eq!(
        WFCGenerator::<Mono>::generate(0, 0).err(),
        Some(WFCError::ZeroDimension)
    );
}

#[test]
fn overflowing_cell_counts_are_rejected() {
    assert_eq!(
        WFCGenerator::<Mono>::new(usize::MAX, 2).err(),
        Some(WFCError::TooLarge)
    );
    assert_eq!(
        WFCGenerator::<Mono>::new_seeded(2, usize::MAX, 1).err(),
        Some(WFCError::TooLarge)
    );
    assert_eq!(
        WFCGenerator::<Mono>::generate(usize::MAX, usize::MAX).err(),
        Some(WFCError::TooLarge)
    );
}

#[test]
fn empty_alphabet_is_rejected() {
    assert_eq!(
        WFCGenerator::<Empty>::new(2, 2).err(),
        Some(WFCError::EmptyAlphabet)
    );
}

#[test]
fn non_enumerating_identities_are_rejected() {
    assert_eq!(
        WFCGenerator::<BadIds>::new(2, 2).err(),
        Some(WFCError::BadTileSpace)
    );
}

#[test]
fn single_tile_alphabet_collapses_trivially() {
    let out = WFCGenerator::<Mono>::generate(3, 4).unwrap();
    assert_eq!(out.len(), 12);
    assert!(out.iter().all(|t| *t == Mono::A));
}

#[test]
fn single_tile_needs_only_one_step() {
    let mut g = WFCGenerator::<Mono>::new_seeded(5, 5, 7).unwrap();
    assert!(g.step_moar_random());
    let out = g.finish();
    assert_eq!(out.len(), 25);
    assert!(out.iter().all(|t| *t == Mono::A));
}

#[test]
fn generation_finishes_within_cell_count_steps() {
    let mut g = WFCGenerator::<TerrainExample>::new_seeded(6, 6, 99).unwrap();
    let mut steps = 0;
    loop {
        if g.step_moar_random() {
            break;
        }
        steps += 1;
        assert!(steps <= 36, "more collapsing steps than cells");
    }
    let out = g.finish();
    assert_eq!(out.len(), 36);
}

#[test]
fn fixed_seed_gives_identical_runs() {
    let mut g1 = WFCGenerator::<TerrainExample>::new_seeded(8, 8, 12345).unwrap();
    let mut g2 = WFCGenerator::<TerrainExample>::new_seeded(8, 8, 12345).unwrap();
    loop {
        let d1 = g1.step_moar_random();
        let d2 = g2.step_moar_random();
        assert_eq!(d1, d2);
        assert_eq!(g1.get_current(), g2.get_current());
        if d1 {
            break;
        }
    }
    assert_eq!(g1.finish(), g2.finish());
}

#[test]
fn snapshot_is_idempotent_between_steps() {
    let mut g = WFCGenerator::<TerrainExample>::new_seeded(4, 4, 5).unwrap();
    let before1 = g.get_current();
    let before2 = g.get_current();
    assert_eq!(before1, before2);
    let _ = g.step_moar_random();
    let after1 = g.get_current();
    let after2 = g.get_current();
    assert_eq!(after1, after2);
    let after3 = g.get_current();
    assert_eq!(after1, after3);
}

#[test]
fn decided_count_never_drops() {
    let mut g = WFCGenerator::<TerrainExample>::new_seeded(5, 5, 31).unwrap();
    let mut done_cells = g.get_no_done();
    let mut steps = 0;
    loop {
        let finished = g.step_moar_random();
        let now = g.get_no_done();
        assert!(now >= done_cells, "a decided cell became undecided");
        done_cells = now;
        steps += 1;
        if finished || steps > 25 {
            break;
        }
    }
}

#[test]
fn get_with_delta_respects_bounds() {
    let g = WFCGenerator::<Mono>::new_seeded(3, 2, 1).unwrap();
    assert_eq!(g.get_with_delta((0, 0), 1, 1), Some((1, 1)));
    assert_eq!(g.get_with_delta((2, 1), -2, -1), Some((0, 0)));
    assert_eq!(g.get_with_delta((0, 0), -1, 0), None);
    assert_eq!(g.get_with_delta((2, 1), 1, 0), None);
    assert_eq!(g.get_with_delta((2, 1), 0, 1), None);
    assert_eq!(g.get_with_delta((1, 0), 2, 0), None);
}

#[test]
fn scan_order_resolves_every_cell() {
    let mut g = WFCGenerator::<Mono>::new_seeded(3, 3, 11).unwrap();
    let mut calls = 0;
    loop {
        calls += 1;
        if g.step_scan_order() {
            break;
        }
        assert!(calls <= 9, "scan passed more cells than the grid holds");
    }
    assert_eq!(calls, 9);
    let current = g.get_current();
    assert!(current.iter().all(|c| c.is_some()));
    let out = g.finish();
    assert_eq!(out.len(), 9);
    assert!(out.iter().all(|t| *t == Mono::A));
}

#[test]
fn one_by_one_grid_generates_a_single_tile() {
    let out = WFCGenerator::<TerrainExample>::generate(1, 1).unwrap();
    assert_eq!(out.len(), 1);
    let mut g = WFCGenerator::<TerrainExample>::new_seeded(1, 1, 3).unwrap();
    let mut steps = 0;
    loop {
        if g.step_moar_random() {
            break;
        }
        steps += 1;
        assert!(steps <= 1, "more collapsing steps than cells");
    }
    assert_eq!(g.finish().len(), 1);
}

#[test]
fn scan_mode_with_fixed_seed_gives_identical_runs() {
    let mut g1 = WFCGenerator::<TerrainExample>::new_seeded(6, 4, 777).unwrap();
    let mut g2 = WFCGenerator::<TerrainExample>::new_seeded(6, 4, 777).unwrap();
    loop {
        let d1 = g1.step_scan_order();
        let d2 = g2.step_scan_order();
        assert_eq!(d1, d2);
        assert_eq!(g1.get_current(), g2.get_current());
        if d1 {
            break;
        }
    }
    assert_eq!(g1.finish(), g2.finish());
}
