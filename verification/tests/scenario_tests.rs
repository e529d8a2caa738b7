use wave_function_collapse::WFCError;
use wave_function_collapse::WFCGenerator;
use wave_function_collapse::WFCState;

#[derive(Clone, Copy, Debug, PartialEq, Eq)]
enum Permissive {
    A,
    B,
}

impl WFCState for Permissive {
    fn get_variants() -> Vec<Self> {
        vec![Permissive::A, Permissive::B]
    }
    fn to_usize(self) -> usize {
        match self {
            Permissive::A => 0,
            Permissive::B => 1,
        }
    }
    fn bias(&self, _o: &Self) -> usize {
        1
    }
    fn possible_neighbours(&self) -> Vec<Self> {
        vec![Permissive::A, Permissive::B]
    }
    fn none_option() -> Self {
        Permissive::A
    }
}

#[derive(Clone, Copy, Debug, PartialEq, Eq)]
enum Clannish {
    A,
    B,
    Nothing,
}

impl WFCState for Clannish {
    fn get_variants() -> Vec<Self> {
        vec![Clannish::A, Clannish::B, Clannish::Nothing]
    }
    fn to_usize(self) -> usize {
        match self {
            Clannish::A => 0,
            Clannish::B => 1,
            Clannish::Nothing => 2,
        }
    }
    fn bias(&self, o: &Self) -> usize {
        match (self, o) {
            (Clannish::A, Clannish::A) => 5,
            (Clannish::B, Clannish::B) => 5,
            _ => 0,
        }
    }
    fn possible_neighbours(&self) -> Vec<Self> {
        match self {
            Clannish::A => vec![Clannish::A],
            Clannish::B => vec![Clannish::B],
            Clannish::Nothing => vec![],
        }
    }
    fn none_option() -> Self {
        Clannish::Nothing
    }
}

#[test]
fn permissive_two_by_two_resolves_without_fallback() {
    let mut g = WFCGenerator::<Permissive>::new_seeded(2, 2, 42).unwrap();
    let mut steps = 0;
    loop {
        if g.step_moar_random() {
            break;
        }
        steps += 1;
        assert!(steps <= 4, "more collapsing steps than cells");
    }
    // With a fully permissive relation no domain ever empties, so every
    // cell is already resolved before finalization.
    let current = g.get_current();
    assert_eq!(current.len(), 4);
    assert!(current.iter().all(|c| c.is_some()));
    let out = g.finish();
    assert_eq!(out.len(), 4);
    assert!(out
        .iter()
        .all(|t| *t == Permissive::A || *t == Permissive::B));
}

#[test]
fn clannish_tiles_never_touch_across_kinds() {
    const W: usize = 5;
    const H: usize = 5;
    let mut g = WFCGenerator::<Clannish>::new_seeded(W, H, 2024).unwrap();
    let mut steps = 0;
    loop {
        if g.step_moar_random() {
            break;
        }
        steps += 1;
        assert!(steps <= W * H, "more collapsing steps than cells");
    }
    let out = g.finish();
    assert_eq!(out.len(), W * H);
    // Row-major: the tile of cell (x, y) is out[y * W + x]. Every
    // edge-adjacent pair of non-fallback tiles must be of the same kind.
    for y in 0..H {
        for x in 0..W {
            let here = out[y * W + x];
            if here == Clannish::Nothing {
                continue;
            }
            if x + 1 < W {
                let right = out[y * W + x + 1];
                if right != Clannish::Nothing {
                    assert_eq!(here, right, "mixed kinds side by side at ({x}, {y})");
                }
            }
            if y + 1 < H {
                let below = out[(y + 1) * W + x];
                if below != Clannish::Nothing {
                    assert_eq!(here, below, "mixed kinds stacked at ({x}, {y})");
                }
            }
        }
    }
}

#[test]
fn permissive_scan_order_resolves_without_fallback() {
    let mut g = WFCGenerator::<Permissive>::new_seeded(4, 3, 77).unwrap();
    let mut calls = 0;
    loop {
        calls += 1;
        if g.step_scan_order() {
            break;
        }
        assert!(calls <= 12, "scan passed more cells than the grid holds");
    }
    let current = g.get_current();
    assert!(current.iter().all(|c| c.is_some()));
    let out = g.finish();
    assert_eq!(out.len(), 12);
    assert!(out
        .iter()
        .all(|t| *t == Permissive::A || *t == Permissive::B));
}

#[test]
fn from_parts_builds_a_working_engine() {
    let mut g = WFCGenerator::<Permissive>::from_parts(
        2,
        2,
        9,
        vec![Permissive::A, Permissive::B],
        vec![0, 1],
        Permissive::A,
        vec![vec![0, 1], vec![0, 1]],
        vec![vec![1, 1], vec![1, 1]],
    )
    .unwrap();
    let mut steps = 0;
    loop {
        if g.step_moar_random() {
            break;
        }
        steps += 1;
        assert!(steps <= 4, "more collapsing steps than cells");
    }
    let out = g.finish();
    assert_eq!(out.len(), 4);
    assert!(out
        .iter()
        .all(|t| *t == Permissive::A || *t == Permissive::B));
}

#[test]
fn from_parts_rejects_unusable_data() {
    // Zero dimension comes before everything else.
    assert_eq!(
        WFCGenerator::<Permissive>::from_parts(
            0,
            2,
            0,
            vec![],
            vec![],
            Permissive::A,
            vec![],
            vec![]
        )
        .err(),
        Some(WFCError::ZeroDimension)
    );
    // An unaddressable rectangle.
    assert_eq!(
        WFCGenerator::<Permissive>::from_parts(
            usize::MAX,
            2,
            0,
            vec![Permissive::A],
            vec![0],
            Permissive::A,
            vec![vec![0]],
            vec![vec![1]]
        )
        .err(),
        Some(WFCError::TooLarge)
    );
    // No variants at all.
    assert_eq!(
        WFCGenerator::<Permissive>::from_parts(
            2,
            2,
            0,
            vec![],
            vec![],
            Permissive::A,
            vec![],
            vec![]
        )
        .err(),
        Some(WFCError::EmptyAlphabet)
    );
    // Identities out of order.
    assert_eq!(
        WFCGenerator::<Permissive>::from_parts(
            2,
            2,
            0,
            vec![Permissive::A, Permissive::B],
            vec![1, 0],
            Permissive::A,
            vec![vec![0], vec![1]],
            vec![vec![1, 1], vec![1, 1]]
        )
        .err(),
        Some(WFCError::BadTileSpace)
    );
    // A neighbour identity outside the alphabet.
    assert_eq!(
        WFCGenerator::<Permissive>::from_parts(
            2,
            2,
            0,
            vec![Permissive::A, Permissive::B],
            vec![0, 1],
            Permissive::A,
            vec![vec![0, 5], vec![1]],
            vec![vec![1, 1], vec![1, 1]]
        )
        .err(),
        Some(WFCError::BadTileSpace)
    );
    // A bias row of the wrong width.
    assert_eq!(
        WFCGenerator::<Permissive>::from_parts(
            2,
            2,
            0,
            vec![Permissive::A, Permissive::B],
            vec![0, 1],
            Permissive::A,
            vec![vec![0], vec![1]],
            vec![vec![1], vec![1, 1]]
        )
        .err(),
        Some(WFCError::BadTileSpace)
    );
}
