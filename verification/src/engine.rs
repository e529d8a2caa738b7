use vstd::prelude::*;

use crate::array2d::Array2D;
use crate::bits::Bits;
use crate::bits::bv_count_ones;
use crate::bits::bv_fill;
use crate::bits::bv_get;
use crate::bits::bv_set;
use crate::bits::const_bits;
use crate::bits::domain_bits;
use crate::bits::extract_index;
use crate::bits::filled_bitvec;
use crate::bits::is_resolved;
use crate::bits::popcount;
use crate::model::GenView;
use crate::model::lemma_cell_index;
use crate::model::spec_current;
use crate::model::spec_finished;
use crate::model::done_upto;
use crate::model::view_wf;
use crate::rng::entropy_seed;
use crate::tile::WFCState;

verus! {

/// Why a generator could not be constructed.
#[derive(Clone, Copy, Debug, PartialEq, Eq, Structural)]
pub enum WFCError {
    /// The requested width or height is zero.
    ZeroDimension,
    /// The tile alphabet has no variants.
    EmptyAlphabet,
    /// The requested cell count overflows the machine's addressing.
    TooLarge,
    /// The alphabet's identities do not enumerate `[0, variant count)` in
    /// the order of `get_variants`.
    BadTileSpace,
}

/// How a vector of plain-value rows reads as a sequence of sequences.
pub open spec fn rows_view(v: Seq<Vec<usize>>) -> Seq<Seq<usize>> {
    v.map_values(|r: Vec<usize>| r@)
}

/// What makes collected tile data usable: one identity, neighbour list
/// and bias row per variant, identities enumerating `[0, variant count)`
/// in order, square bias rows, and every listed neighbour identity in
/// range.
pub open spec fn parts_valid<T>(
    variants: Seq<T>,
    ids: Seq<usize>,
    neighbours: Seq<Seq<usize>>,
    bias_rows: Seq<Seq<usize>>,
) -> bool {
    &&& variants.len() == ids.len()
    &&& neighbours.len() == ids.len()
    &&& bias_rows.len() == ids.len()
    &&& (forall|i: int| 0 <= i < ids.len() ==> #[trigger] ids[i] == i)
    &&& (forall|a: int| 0 <= a < ids.len() ==> (#[trigger] bias_rows[a]).len() == ids.len())
    &&& (forall|a: int, t: int|
        0 <= a < ids.len() && 0 <= t < neighbours[a].len() ==> (#[trigger] neighbours[a][t])
            < ids.len())
}

/// The propagation-and-collapse engine: a dense grid of domain bitsets,
/// the alphabet's adjacency and weight tables precomputed as dense arrays,
/// and a seedable random source.
pub struct WFCGenerator<T> {
    /// Width of the final map to give out.
    width: usize,
    /// Height of the final map to give out.
    height: usize,
    /// All the possible variants, in identity order.
    variants: Vec<T>,
    /// The number of variants.
    variant_nos: usize,
    /// The tile substituted for an unresolvable cell.
    fallback: T,
    /// Per identity, the bitset of identities allowed next to it.
    neighbour_possibilities: Vec<Bits>,
    /// Per identity pair, the collapse bias weight; zero for disallowed
    /// pairs.
    weights: Vec<Vec<usize>>,
    /// The map being worked on: one domain bitset per cell, row-major.
    in_progress_map: Array2D<Bits>,
    /// The next cell the scan-order strategy will resolve.
    next_to_generate: usize,
    /// The state of the pseudo-random source.
    rng_state: u64,
}

impl<T> View for WFCGenerator<T> {
    type V = GenView<T>;

    closed spec fn view(&self) -> GenView<T> {
        GenView {
            width: self.width as int,
            height: self.height as int,
            n: self.variant_nos as int,
            variants: self.variants@,
            fallback: self.fallback,
            allowed: Seq::new(
                self.neighbour_possibilities@.len(),
                |a: int| domain_bits(self.neighbour_possibilities@[a]),
            ),
            weights: Seq::new(
                self.weights@.len(),
                |a: int| self.weights@[a]@.map_values(|w: usize| w as int),
            ),
            map: Seq::new(
                self.in_progress_map.spec_elems().len(),
                |k: int| domain_bits(self.in_progress_map.spec_elems()[k]),
            ),
            cursor: self.next_to_generate as int,
            rng: self.rng_state,
        }
    }
}

impl<T: WFCState> WFCGenerator<T> {
    /// The engine's invariant: the view is well formed and the backing
    /// containers agree with the declared dimensions.
    pub closed spec fn wf(&self) -> bool {
        &&& view_wf(self@)
        &&& self.in_progress_map.spec_width() == self.width as int
        &&& self.variant_nos == self.variants@.len()
    }

    /// A well-formed engine has a well-formed view.
    pub proof fn lemma_wf(&self)
        requires
            self.wf(),
        ensures
            view_wf(self@),
    {
    }

    /// Construct an engine from already collected plain tile data: the
    /// variants in order, each variant's declared identity, the fallback
    /// tile, each variant's allowed-neighbour identities and each
    /// variant's row of raw bias weights. Succeeds exactly when the
    /// rectangle is addressable and the data is usable; on success the
    /// adjacency table holds exactly the listed pairs and the weight
    /// table holds the given rows with disallowed pairs zeroed.
    pub fn from_parts(
        width: usize,
        height: usize,
        seed: u64,
        variants: Vec<T>,
        ids: Vec<usize>,
        fallback: T,
        neighbours: Vec<Vec<usize>>,
        bias_rows: Vec<Vec<usize>>,
    ) -> (r: Result<Self, WFCError>)
        ensures
            (width == 0 || height == 0) <==> r == Err::<Self, WFCError>(WFCError::ZeroDimension),
            (width != 0 && height != 0 && (width as int) * (height as int) > usize::MAX) <==> r
                == Err::<Self, WFCError>(WFCError::TooLarge),
            (width != 0 && height != 0 && (width as int) * (height as int) <= usize::MAX
                && ids@.len() == 0) <==> r == Err::<Self, WFCError>(WFCError::EmptyAlphabet),
            (width != 0 && height != 0 && (width as int) * (height as int) <= usize::MAX
                && ids@.len() >= 1 && !parts_valid(
                variants@,
                ids@,
                rows_view(neighbours@),
                rows_view(bias_rows@),
            )) <==> r == Err::<Self, WFCError>(WFCError::BadTileSpace),
            r is Ok <==> (width != 0 && height != 0 && (width as int) * (height as int)
                <= usize::MAX && ids@.len() >= 1 && parts_valid(
                variants@,
                ids@,
                rows_view(neighbours@),
                rows_view(bias_rows@),
            )),
            r matches Ok(g) ==> g.wf() && view_wf(g@) && g@.width == width && g@.height == height
                && g@.cursor == 0 && g@.rng == seed && g@.n == ids@.len() && g@.variants
                == variants@ && g@.fallback == fallback && g@.map =~= Seq::new(
                (width as int * height as int) as nat,
                |k: int| const_bits(g@.n as nat, true),
            ) && (forall|a: int, b: int|
                0 <= a < g@.n && 0 <= b < g@.n ==> ((#[trigger] g@.allowed[a][b])
                    <==> neighbours@[a]@.contains(b as usize))) && (forall|a: int, b: int|
                0 <= a < g@.n && 0 <= b < g@.n ==> (#[trigger] g@.weights[a][b]) == (
                if g@.allowed[a][b] {
                    bias_rows@[a]@[b] as int
                } else {
                    0
                })),
    {
        if width == 0 || height == 0 {
            return Err(WFCError::ZeroDimension);
        }
        let wh = match width.checked_mul(height) {
            Some(w) => w,
            None => { return Err(WFCError::TooLarge) },
        };
        let n = ids.len();
        if n == 0 {
            return Err(WFCError::EmptyAlphabet);
        }
        if variants.len() != n || neighbours.len() != n || bias_rows.len() != n {
            return Err(WFCError::BadTileSpace);
        }

        let mut i: usize = 0;
        while i < n
            invariant
                width >= 1,
                height >= 1,
                (width as int) * (height as int) <= usize::MAX,
                1 <= n == ids@.len(),
                i <= n,
                forall|z: int| 0 <= z < i ==> #[trigger] ids@[z] == z,
            decreases n - i,
        {
            if ids[i] != i {
                return Err(WFCError::BadTileSpace);
            }
            i += 1;
        }

        let mut a: usize = 0;
        while a < n
            invariant
                width >= 1,
                height >= 1,
                (width as int) * (height as int) <= usize::MAX,
                1 <= n == ids@.len(),
                variants@.len() == n,
                neighbours@.len() == n,
                bias_rows@.len() == n,
                a <= n,
                forall|z: int| 0 <= z < n ==> #[trigger] ids@[z] == z,
                forall|z: int| 0 <= z < a ==> (#[trigger] bias_rows@[z])@.len() == n,
                forall|z: int, t: int|
                    0 <= z < a && 0 <= t < neighbours@[z]@.len() ==> (
                    #[trigger] neighbours@[z]@[t]) < n,
            decreases n - a,
        {
            if bias_rows[a].len() != n {
                proof {
                    assert(rows_view(bias_rows@)[a as int].len() != ids@.len());
                    assert(!parts_valid(
                        variants@,
                        ids@,
                        rows_view(neighbours@),
                        rows_view(bias_rows@),
                    ));
                }
                return Err(WFCError::BadTileSpace);
            }
            let nbs_len = neighbours[a].len();
            let mut t: usize = 0;
            while t < nbs_len
                invariant
                    width >= 1,
                    height >= 1,
                    (width as int) * (height as int) <= usize::MAX,
                    1 <= n == ids@.len(),
                    variants@.len() == n,
                    neighbours@.len() == n,
                    bias_rows@.len() == n,
                    a < n,
                    t <= nbs_len == neighbours@[a as int]@.len(),
                    forall|z: int| 0 <= z < n ==> #[trigger] ids@[z] == z,
                    forall|u: int| 0 <= u < t ==> (#[trigger] neighbours@[a as int]@[u]) < n,
                decreases nbs_len - t,
            {
                if neighbours[a][t] >= n {
                    proof {
                        assert(rows_view(neighbours@)[a as int][t as int] >= ids@.len());
                        assert(!parts_valid(
                            variants@,
                            ids@,
                            rows_view(neighbours@),
                            rows_view(bias_rows@),
                        ));
                    }
                    return Err(WFCError::BadTileSpace);
                }
                t += 1;
            }
            a += 1;
        }
        proof {
            assert(parts_valid(variants@, ids@, rows_view(neighbours@), rows_view(bias_rows@)));
        }

        let mut allowed: Vec<Bits> = Vec::new();
        let mut a2: usize = 0;
        while a2 < n
            invariant
                1 <= n == ids@.len(),
                neighbours@.len() == n,
                a2 <= n,
                allowed@.len() == a2,
                forall|z: int, t: int|
                    0 <= z < n && 0 <= t < neighbours@[z]@.len() ==> (
                    #[trigger] neighbours@[z]@[t]) < n,
                forall|z: int|
                    0 <= z < a2 ==> domain_bits(#[trigger] allowed@[z]).len() == n,
                forall|z: int, b: int|
                    0 <= z < a2 && 0 <= b < n ==> ((#[trigger] domain_bits(allowed@[z])[b])
                        <==> neighbours@[z]@.contains(b as usize)),
            decreases n - a2,
        {
            let mut bv = filled_bitvec(n, false);
            let nbs_len = neighbours[a2].len();
            let mut t: usize = 0;
            while t < nbs_len
                invariant
                    1 <= n,
                    neighbours@.len() == n,
                    a2 < n,
                    t <= nbs_len == neighbours@[a2 as int]@.len(),
                    forall|u: int| 0 <= u < nbs_len ==> (#[trigger] neighbours@[a2 as int]@[u]) < n,
                    domain_bits(bv).len() == n,
                    forall|b: int|
                        0 <= b < n ==> (#[trigger] domain_bits(bv)[b] <==> exists|u: int|
                            0 <= u < t && neighbours@[a2 as int]@[u] == b),
                decreases nbs_len - t,
            {
                let ghost bits0 = domain_bits(bv);
                let id = neighbours[a2][t];
                bv_set(&mut bv, id, true);
                proof {
                    assert forall|b: int| 0 <= b < n implies (#[trigger] domain_bits(bv)[b]
                        <==> exists|u: int|
                        0 <= u < t + 1 && neighbours@[a2 as int]@[u] == b) by {
                        if b == id {
                            assert(neighbours@[a2 as int]@[t as int] == b);
                        } else {
                            assert(domain_bits(bv)[b] == bits0[b]);
                        }
                    }
                }
                t += 1;
            }
            proof {
                assert forall|b: int| 0 <= b < n implies (#[trigger] domain_bits(bv)[b]
                    <==> neighbours@[a2 as int]@.contains(b as usize)) by {
                    if domain_bits(bv)[b] {
                        let u = choose|u: int|
                            0 <= u < nbs_len && neighbours@[a2 as int]@[u] == b;
                        assert(neighbours@[a2 as int]@[u] == b as usize);
                    }
                    if neighbours@[a2 as int]@.contains(b as usize) {
                        let u = choose|u: int|
                            0 <= u < neighbours@[a2 as int]@.len() && neighbours@[a2 as int]@[u]
                                == b as usize;
                        assert(neighbours@[a2 as int]@[u] == b);
                    }
                }
            }
            allowed.push(bv);
            a2 += 1;
        }

        let mut weights: Vec<Vec<usize>> = Vec::new();
        let mut a3: usize = 0;
        while a3 < n
            invariant
                1 <= n,
                bias_rows@.len() == n,
                forall|z: int| 0 <= z < n ==> (#[trigger] bias_rows@[z])@.len() == n,
                allowed@.len() == n,
                forall|z: int|
                    0 <= z < n ==> domain_bits(#[trigger] allowed@[z]).len() == n,
                a3 <= n,
                weights@.len() == a3,
                forall|z: int| 0 <= z < a3 ==> (#[trigger] weights@[z])@.len() == n,
                forall|z: int, b: int|
                    0 <= z < a3 && 0 <= b < n ==> (#[trigger] weights@[z]@[b]) == (
                    if domain_bits(allowed@[z])[b] {
                        bias_rows@[z]@[b]
                    } else {
                        0
                    }),
            decreases n - a3,
        {
            let mut row: Vec<usize> = Vec::new();
            let mut b: usize = 0;
            while b < n
                invariant
                    1 <= n,
                    bias_rows@.len() == n,
                    forall|z: int| 0 <= z < n ==> (#[trigger] bias_rows@[z])@.len() == n,
                    allowed@.len() == n,
                    forall|z: int|
                        0 <= z < n ==> domain_bits(#[trigger] allowed@[z]).len() == n,
                    a3 < n,
                    b <= n,
                    row@.len() == b,
                    forall|z: int|
                        0 <= z < b ==> (#[trigger] row@[z]) == (
                        if domain_bits(allowed@[a3 as int])[z] {
                            bias_rows@[a3 as int]@[z]
                        } else {
                            0
                        }),
                decreases n - b,
            {
                let w = if bv_get(&allowed[a3], b) {
                    bias_rows[a3][b]
                } else {
                    0
                };
                row.push(w);
                b += 1;
            }
            weights.push(row);
            a3 += 1;
        }

        let mut map: Array2D<Bits> = Array2D::new(width);
        let mut k: usize = 0;
        while k < wh
            invariant
                k <= wh,
                1 <= n,
                map.spec_width() == width as int,
                map.spec_elems().len() == k,
                forall|c: int|
                    0 <= c < k ==> domain_bits(#[trigger] map.spec_elems()[c]) == const_bits(
                        n as nat,
                        true,
                    ),
            decreases wh - k,
        {
            map.add_element(filled_bitvec(n, true));
            k += 1;
        }

        let g = WFCGenerator {
            width,
            height,
            variants,
            variant_nos: n,
            fallback,
            neighbour_possibilities: allowed,
            weights,
            in_progress_map: map,
            next_to_generate: 0,
            rng_state: seed,
        };
        proof {
            assert forall|c: int| 0 <= c < g@.map.len() implies (#[trigger] g@.map[c]).len()
                == g@.n by {
                assert(g@.map[c] == const_bits(n as nat, true));
            }
            assert forall|x: int, z: int|
                0 <= x < g@.n && 0 <= z < g@.n implies 0 <= (#[trigger] g@.weights[x][z])
                    <= usize::MAX && (!g@.allowed[x][z] ==> g@.weights[x][z] == 0) by {
                assert(g@.weights[x] == g.weights@[x]@.map_values(|w: usize| w as int));
                assert(g@.weights[x][z] == g.weights@[x]@[z] as int);
            }
            assert(view_wf(g@));
            assert(g@.map =~= Seq::new(
                (width as int * height as int) as nat,
                |c: int| const_bits(g@.n as nat, true),
            ));
        }
        Ok(g)
    }

    /// Gather the tile alphabet's data through its trait: each variant's
    /// identity, neighbour identities and full bias row, collected as
    /// plain values and handed to `from_parts`, which makes every
    /// decision.
    fn build(width: usize, height: usize, seed: u64) -> (r: Result<Self, WFCError>)
        ensures
            (width == 0 || height == 0) <==> r == Err::<Self, WFCError>(WFCError::ZeroDimension),
            (width != 0 && height != 0 && (width as int) * (height as int) > usize::MAX) <==> r
                == Err::<Self, WFCError>(WFCError::TooLarge),
            r matches Ok(g) ==> g.wf() && view_wf(g@) && g@.width == width && g@.height == height
                && g@.cursor == 0 && g@.rng == seed && g@.map =~= Seq::new(
                (width as int * height as int) as nat,
                |k: int| const_bits(g@.n as nat, true),
            ),
    {
        if width == 0 || height == 0 {
            return Err(WFCError::ZeroDimension);
        }
        if width.checked_mul(height).is_none() {
            return Err(WFCError::TooLarge);
        }
        let variants = T::get_variants();
        let n = variants.len();
        if n == 0 {
            return Err(WFCError::EmptyAlphabet);
        }
        let fallback = T::none_option();

        let mut ids: Vec<usize> = Vec::new();
        let mut i: usize = 0;
        while i < n
            invariant
                i <= n,
                n == variants@.len(),
            decreases n - i,
        {
            ids.push(variants[i].to_usize());
            i += 1;
        }

        let mut neighbours: Vec<Vec<usize>> = Vec::new();
        let mut a: usize = 0;
        while a < n
            invariant
                a <= n,
                n == variants@.len(),
            decreases n - a,
        {
            let nbs = variants[a].possible_neighbours();
            let mut l: Vec<usize> = Vec::new();
            let mut t: usize = 0;
            while t < nbs.len()
                invariant
                    t <= nbs@.len(),
                decreases nbs@.len() - t,
            {
                l.push(nbs[t].to_usize());
                t += 1;
            }
            neighbours.push(l);
            a += 1;
        }

        let mut bias_rows: Vec<Vec<usize>> = Vec::new();
        let mut a2: usize = 0;
        while a2 < n
            invariant
                a2 <= n,
                n == variants@.len(),
            decreases n - a2,
        {
            let mut row: Vec<usize> = Vec::new();
            let mut b: usize = 0;
            while b < n
                invariant
                    b <= n,
                    a2 < n,
                    n == variants@.len(),
                decreases n - b,
            {
                row.push(variants[a2].bias(&variants[b]));
                b += 1;
            }
            bias_rows.push(row);
            a2 += 1;
        }

        Self::from_parts(width, height, seed, variants, ids, fallback, neighbours, bias_rows)
    }

    /// Construct an engine over a freshly drawn random seed; the grid
    /// starts with every tile possible in every cell.
    pub fn new(width: usize, height: usize) -> (r: Result<Self, WFCError>)
        ensures
            r matches Ok(g) ==> g.wf() && view_wf(g@) && g@.width == width && g@.height == height
                && g@.cursor == 0 && g@.map =~= Seq::new(
                (width as int * height as int) as nat,
                |k: int| const_bits(g@.n as nat, true),
            ),
            (width == 0 || height == 0) <==> r == Err::<Self, WFCError>(WFCError::ZeroDimension),
            (width != 0 && height != 0 && (width as int) * (height as int) > usize::MAX) <==> r
                == Err::<Self, WFCError>(WFCError::TooLarge),
    {
        Self::build(width, height, entropy_seed())
    }

    /// Construct an engine over a caller-chosen seed, so that a whole run
    /// is a function of the seed and the tile alphabet.
    pub fn new_seeded(width: usize, height: usize, seed: u64) -> (r: Result<Self, WFCError>)
        ensures
            r matches Ok(g) ==> g.wf() && view_wf(g@) && g@.width == width && g@.height == height
                && g@.cursor == 0 && g@.rng == seed && g@.map =~= Seq::new(
                (width as int * height as int) as nat,
                |k: int| const_bits(g@.n as nat, true),
            ),
            (width == 0 || height == 0) <==> r == Err::<Self, WFCError>(WFCError::ZeroDimension),
            (width != 0 && height != 0 && (width as int) * (height as int) > usize::MAX) <==> r
                == Err::<Self, WFCError>(WFCError::TooLarge),
    {
        Self::build(width, height, seed)
    }

    /// The position at offset `(dx, dy)` from `xy`, while it stays inside
    /// the map's rectangle.
    pub fn get_with_delta(&self, xy: (usize, usize), dx: isize, dy: isize) -> (r: Option<
        (usize, usize),
    >)
        ensures
            r is Some <==> (0 <= xy.0 + dx < self@.width && 0 <= xy.1 + dy < self@.height),
            r matches Some(p) ==> p.0 == xy.0 + dx && p.1 == xy.1 + dy,
    {
        if let Some(nx) = xy.0.checked_add_signed(dx) {
            if nx < self.width {
                if let Some(ny) = xy.1.checked_add_signed(dy) {
                    if ny < self.height {
                        return Some((nx, ny));
                    }
                }
            }
        }
        None
    }

    /// Whether every cell of the in-progress map is decided.
    fn all_decided(&self) -> (r: bool)
        requires
            self.wf(),
        ensures
            r == spec_finished(self@.map),
    {
        let mut y: usize = 0;
        let mut k: usize = 0;
        while y < self.height
            invariant
                self.wf(),
                y <= self@.height,
                k == y * self@.width,
                forall|c: int| 0 <= c < k ==> popcount(#[trigger] self@.map[c]) <= 1,
            decreases self@.height - y,
        {
            let mut x: usize = 0;
            while x < self.width
                invariant
                    self.wf(),
                    y < self@.height,
                    x <= self@.width,
                    k == y * self@.width + x,
                    forall|c: int| 0 <= c < k ==> popcount(#[trigger] self@.map[c]) <= 1,
                decreases self@.width - x,
            {
                proof {
                    lemma_cell_index(self@.width, self@.height, x as int, y as int);
                }
                if bv_count_ones(self.in_progress_map.get(x, y)) > 1 {
                    assert(popcount(self@.map[k as int]) > 1);
                    return false;
                }
                k += 1;
                x += 1;
            }
            proof {
                assert((y as int + 1) * self@.width == y as int * self@.width + self@.width)
                    by (nonlinear_arith);
            }
            y += 1;
        }
        proof {
            assert(k == self@.height * self@.width);
            assert(self@.height * self@.width == self@.width * self@.height) by (nonlinear_arith);
        }
        true
    }

    /// How many cells are decided: resolved to one tile, or emptied.
    pub fn get_no_done(&self) -> (r: usize)
        requires
            self.wf(),
        ensures
            r == done_upto(self@.map, self@.width * self@.height),
    {
        let mut wk: usize = 0;
        let mut y: usize = 0;
        let mut k: usize = 0;
        while y < self.height
            invariant
                self.wf(),
                y <= self@.height,
                k == y * self@.width,
                wk == done_upto(self@.map, k as int),
                wk <= k,
            decreases self@.height - y,
        {
            let mut x: usize = 0;
            while x < self.width
                invariant
                    self.wf(),
                    y < self@.height,
                    x <= self@.width,
                    k == y * self@.width + x,
                    wk == done_upto(self@.map, k as int),
                    wk <= k,
                decreases self@.width - x,
            {
                proof {
                    lemma_cell_index(self@.width, self@.height, x as int, y as int);
                }
                if bv_count_ones(self.in_progress_map.get(x, y)) <= 1 {
                    wk += 1;
                }
                k += 1;
                x += 1;
            }
            proof {
                assert((y as int + 1) * self@.width == y as int * self@.width + self@.width)
                    by (nonlinear_arith);
            }
            y += 1;
        }
        proof {
            assert(k == self@.height * self@.width);
            assert(self@.height * self@.width == self@.width * self@.height) by (nonlinear_arith);
        }
        wk
    }

    /// Narrow the cell at `(x, y)` in place: intersect its domain, offset
    /// by offset, with the allowed set of every neighbour currently
    /// resolved; neighbours are read as they stand now.
    fn narrow_cell(&mut self, x: usize, y: usize)
        requires
            old(self).wf(),
            x < old(self)@.width,
            y < old(self)@.height,
        ensures
            final(self).wf(),
            final(self)@ == crate::model::with_map(
                old(self)@,
                old(self)@.map.update(
                    y * old(self)@.width + x,
                    crate::model::prop_cell_upto(
                        old(self)@.width,
                        old(self)@.height,
                        old(self)@.allowed,
                        old(self)@.map,
                        y * old(self)@.width + x,
                        24,
                    ),
                ),
            ),
    {
        let ghost v0 = old(self)@;
        let ghost k = y as int * v0.width + x as int;
        proof {
            lemma_cell_index(v0.width, v0.height, x as int, y as int);
            vstd::arithmetic::div_mod::lemma_fundamental_div_mod_converse(
                k,
                v0.width,
                y as int,
                x as int,
            );
            assert(v0.map.update(k, crate::model::prop_cell_upto(
                v0.width,
                v0.height,
                v0.allowed,
                v0.map,
                k,
                0,
            )) =~= v0.map);
        }
        let mut j: usize = 0;
        while j < 24
            invariant
                j <= 24,
                self.wf(),
                view_wf(v0),
                x < v0.width,
                y < v0.height,
                k == y * v0.width + x,
                0 <= k < v0.width * v0.height,
                k % v0.width == x,
                k / v0.width == y,
                self@ == crate::model::with_map(
                    v0,
                    v0.map.update(
                        k,
                        crate::model::prop_cell_upto(
                            v0.width,
                            v0.height,
                            v0.allowed,
                            v0.map,
                            k,
                            j as int,
                        ),
                    ),
                ),
            decreases 24 - j,
        {
            let ghost cell_before = crate::model::prop_cell_upto(
                v0.width,
                v0.height,
                v0.allowed,
                v0.map,
                k,
                j as int,
            );
            proof {
                crate::model::lemma_prop_cell(v0.width, v0.height, v0.allowed, v0.map, k, j as int);
            }
            let jj = if j < 12 {
                j
            } else {
                j + 1
            };
            let dx = (jj / 5) as isize - 2;
            let dy = (jj % 5) as isize - 2;
            proof {
                assert((dx as int, dy as int) == crate::model::neighbour_delta(j as int));
                assert(!(dx == 0 && dy == 0));
            }
            if let Some(p) = self.get_with_delta((x, y), dx, dy) {
                let (nx, ny) = p;
                proof {
                    lemma_cell_index(v0.width, v0.height, nx as int, ny as int);
                }
                let nk = ny * self.width + nx;
                proof {
                    assert(crate::model::delta_index(
                        v0.width,
                        v0.height,
                        k,
                        crate::model::neighbour_delta(j as int),
                    ) == nk as int);
                    if nk as int == k {
                        crate::model::lemma_linear_unique(
                            v0.width,
                            x as int,
                            y as int,
                            nx as int,
                            ny as int,
                        );
                        assert(false);
                    }
                    assert(self@.map[nk as int] == v0.map[nk as int]);
                }
                let cnt = bv_count_ones(self.in_progress_map.get(nx, ny));
                if cnt == 1 {
                    match extract_index(self.in_progress_map.get(nx, ny)) {
                        Some(ni) => {
                            proof {
                                crate::bits::lemma_resolved_id(v0.map[nk as int]);
                                assert(ni < self.variant_nos);
                                assert(domain_bits(
                                    self.neighbour_possibilities@[ni as int],
                                ) == v0.allowed[ni as int]);
                                assert(v0.allowed[ni as int].len() == v0.n);
                                assert(self@.map[k] == cell_before);
                                assert(cell_before.len() == v0.map[k].len());
                            }
                            let ghost elems0 = self.in_progress_map.spec_elems();
                            let cell = self.in_progress_map.get_mut(x, y);
                            crate::bits::bv_and_assign(cell, &self.neighbour_possibilities[ni]);
                            proof {
                                let next = crate::model::prop_cell_upto(
                                    v0.width,
                                    v0.height,
                                    v0.allowed,
                                    v0.map,
                                    k,
                                    j as int + 1,
                                );
                                assert(next == crate::bits::seq_and(
                                    cell_before,
                                    v0.allowed[ni as int],
                                ));
                                let elems1 = self.in_progress_map.spec_elems();
                                assert(elems1 =~= elems0.update(k, elems1[k]));
                                assert(domain_bits(elems0[k]) == cell_before);
                                assert(domain_bits(elems1[k]) == crate::bits::seq_and(
                                    cell_before,
                                    v0.allowed[ni as int],
                                ));
                                assert forall|i: int| 0 <= i < v0.map.len() implies #[trigger] self@.map[i]
                                    == v0.map.update(k, next)[i] by {
                                    assert(self@.map[i] == domain_bits(elems1[i]));
                                    if i != k {
                                        assert(elems1[i] == elems0[i]);
                                        assert(domain_bits(elems0[i]) == v0.map.update(
                                            k,
                                            cell_before,
                                        )[i]);
                                    }
                                }
                                assert(self@.map =~= v0.map.update(k, next));
                                assert(self@ == crate::model::with_map(v0, v0.map.update(k, next)));
                                crate::model::lemma_prop_cell(
                                    v0.width,
                                    v0.height,
                                    v0.allowed,
                                    v0.map,
                                    k,
                                    j as int + 1,
                                );
                                assert(view_wf(self@));
                            }
                        },
                        None => {
                            proof {
                                assert(false);
                            }
                        },
                    }
                } else {
                    proof {
                        assert(!is_resolved(v0.map[nk as int]));
                        assert(crate::model::prop_cell_upto(
                            v0.width,
                            v0.height,
                            v0.allowed,
                            v0.map,
                            k,
                            j as int + 1,
                        ) == cell_before);
                    }
                }
            } else {
                proof {
                    assert(crate::model::delta_index(
                        v0.width,
                        v0.height,
                        k,
                        crate::model::neighbour_delta(j as int),
                    ) == -1);
                    assert(crate::model::prop_cell_upto(
                        v0.width,
                        v0.height,
                        v0.allowed,
                        v0.map,
                        k,
                        j as int + 1,
                    ) == cell_before);
                }
            }
            j += 1;
        }
    }

    /// One full propagation pass: every cell, in row-major order, is
    /// narrowed from the neighbours as they stand when the pass reaches
    /// it.
    fn propagate(&mut self)
        requires
            old(self).wf(),
        ensures
            final(self).wf(),
            final(self)@ == crate::model::with_map(
                old(self)@,
                crate::model::spec_propagate(old(self)@),
            ),
    {
        let ghost v0 = old(self)@;
        let ghost m0 = v0.map;
        let mut y: usize = 0;
        let mut k: usize = 0;
        while y < self.height
            invariant
                self.wf(),
                view_wf(v0),
                y <= v0.height,
                k == y * v0.width,
                self@ == crate::model::with_map(
                    v0,
                    crate::model::prop_pass_upto(v0.width, v0.height, v0.allowed, m0, k as int),
                ),
            decreases v0.height - y,
        {
            let mut x: usize = 0;
            while x < self.width
                invariant
                    self.wf(),
                    view_wf(v0),
                    y < v0.height,
                    x <= v0.width,
                    k == y * v0.width + x,
                    self@ == crate::model::with_map(
                        v0,
                        crate::model::prop_pass_upto(v0.width, v0.height, v0.allowed, m0, k as int),
                    ),
                decreases v0.width - x,
            {
                proof {
                    lemma_cell_index(v0.width, v0.height, x as int, y as int);
                }
                let ghost mk = crate::model::prop_pass_upto(
                    v0.width,
                    v0.height,
                    v0.allowed,
                    m0,
                    k as int,
                );
                self.narrow_cell(x, y);
                proof {
                    assert(crate::model::prop_pass_upto(
                        v0.width,
                        v0.height,
                        v0.allowed,
                        m0,
                        k as int + 1,
                    ) == mk.update(
                        k as int,
                        crate::model::prop_cell_upto(v0.width, v0.height, v0.allowed, mk, k as int, 24),
                    ));
                    assert(self@ == crate::model::with_map(
                        v0,
                        crate::model::prop_pass_upto(
                            v0.width,
                            v0.height,
                            v0.allowed,
                            m0,
                            k as int + 1,
                        ),
                    ));
                }
                k += 1;
                x += 1;
            }
            proof {
                assert((y as int + 1) * v0.width == y as int * v0.width + v0.width)
                    by (nonlinear_arith);
            }
            y += 1;
        }
        proof {
            assert(k == v0.height * v0.width);
            assert(v0.height * v0.width == v0.width * v0.height) by (nonlinear_arith);
        }
    }

    /// Find the lowest entropy above one and every cell tied at it, in
    /// row-major visit order.
    fn select_min(&self) -> (r: (usize, Vec<usize>))
        requires
            self.wf(),
        ensures
            r.0 as int == crate::model::select_fold(self@.map, self@.width * self@.height).0,
            r.1@.map_values(|u: usize| u as int) == crate::model::select_fold(
                self@.map,
                self@.width * self@.height,
            ).1,
    {
        let mut mn: usize = usize::MAX;
        let mut list: Vec<usize> = Vec::new();
        proof {
            assert(list@.map_values(|u: usize| u as int) =~= Seq::<int>::empty());
        }
        let mut y: usize = 0;
        let mut k: usize = 0;
        while y < self.height
            invariant
                self.wf(),
                y <= self@.height,
                k == y * self@.width,
                mn as int == crate::model::select_fold(self@.map, k as int).0,
                list@.map_values(|u: usize| u as int) == crate::model::select_fold(
                    self@.map,
                    k as int,
                ).1,
            decreases self@.height - y,
        {
            let mut x: usize = 0;
            while x < self.width
                invariant
                    self.wf(),
                    y < self@.height,
                    x <= self@.width,
                    k == y * self@.width + x,
                    mn as int == crate::model::select_fold(self@.map, k as int).0,
                    list@.map_values(|u: usize| u as int) == crate::model::select_fold(
                        self@.map,
                        k as int,
                    ).1,
                decreases self@.width - x,
            {
                proof {
                    lemma_cell_index(self@.width, self@.height, x as int, y as int);
                }
                let possibilities = bv_count_ones(self.in_progress_map.get(x, y));
                if possibilities > 1 {
                    if possibilities < mn {
                        mn = possibilities;
                        list.clear();
                        proof {
                            assert(list@.map_values(|u: usize| u as int) =~= Seq::<int>::empty());
                        }
                    }
                    if possibilities == mn {
                        let ghost prev = list@.map_values(|u: usize| u as int);
                        list.push(k);
                        proof {
                            assert(list@.map_values(|u: usize| u as int) =~= prev.push(k as int));
                        }
                    }
                }
                k += 1;
                x += 1;
            }
            proof {
                assert((y as int + 1) * self@.width == y as int * self@.width + self@.width)
                    by (nonlinear_arith);
            }
            y += 1;
        }
        proof {
            assert(k == self@.height * self@.width);
            assert(self@.height * self@.width == self@.width * self@.height) by (nonlinear_arith);
        }
        (mn, list)
    }

    /// Build the weighted candidate list for collapsing cell `k`: first
    /// the cell's own remaining identities, then, for every resolved
    /// neighbour in the collapse radius, copies of that neighbour's
    /// identity weighted by its bias toward each remaining possibility.
    fn build_matrix(&self, k: usize, x: usize, y: usize) -> (mx: Vec<usize>)
        requires
            self.wf(),
            x < self@.width,
            y < self@.height,
            k == y * self@.width + x,
            k as int % self@.width == x as int,
            k as int / self@.width == y as int,
        ensures
            mx@.map_values(|u: usize| u as int) == crate::model::matrix_upto(
                self@.width,
                self@.height,
                self@.n,
                self@.weights,
                self@.map,
                k as int,
                24,
            ),
            forall|e: int| 0 <= e < mx@.len() ==> #[trigger] mx@[e] < self@.n,
    {
        proof {
            lemma_cell_index(self@.width, self@.height, x as int, y as int);
            crate::bits::lemma_domain_indices(self@.map[k as int]);
        }
        let mut mx: Vec<usize> = crate::bits::domain_list(self.in_progress_map.get(x, y));
        let mut j: usize = 0;
        while j < 24
            invariant
                self.wf(),
                j <= 24,
                x < self@.width,
                y < self@.height,
                k == y * self@.width + x,
                0 <= k < self@.width * self@.height,
                k as int % self@.width == x as int,
                k as int / self@.width == y as int,
                mx@.map_values(|u: usize| u as int) == crate::model::matrix_upto(
                    self@.width,
                    self@.height,
                    self@.n,
                    self@.weights,
                    self@.map,
                    k as int,
                    j as int,
                ),
                forall|e: int| 0 <= e < mx@.len() ==> #[trigger] mx@[e] < self@.n,
            decreases 24 - j,
        {
            let ghost prefix = mx@.map_values(|u: usize| u as int);
            let jj = if j < 12 {
                j
            } else {
                j + 1
            };
            let dx = (jj / 5) as isize - 2;
            let dy = (jj % 5) as isize - 2;
            proof {
                assert((dx as int, dy as int) == crate::model::neighbour_delta(j as int));
            }
            if let Some(p) = self.get_with_delta((x, y), dx, dy) {
                let (nx, ny) = p;
                proof {
                    lemma_cell_index(self@.width, self@.height, nx as int, ny as int);
                    assert(crate::model::delta_index(
                        self@.width,
                        self@.height,
                        k as int,
                        crate::model::neighbour_delta(j as int),
                    ) == ny * self@.width + nx);
                }
                match extract_index(self.in_progress_map.get(nx, ny)) {
                    Some(ni) => {
                        proof {
                            crate::bits::lemma_resolved_id(self@.map[ny * self@.width + nx]);
                            assert(ni < self.variant_nos);
                        }
                        let ghost dom = self@.map[k as int];
                        let ghost wrow = self@.weights[ni as int];
                        let mut i: usize = 0;
                        while i < self.variant_nos
                            invariant
                                self.wf(),
                                i <= self@.n,
                                ni < self@.n,
                                x < self@.width,
                                y < self@.height,
                                k == y * self@.width + x,
                                0 <= k < self@.width * self@.height,
                                dom == self@.map[k as int],
                                wrow == self@.weights[ni as int],
                                mx@.map_values(|u: usize| u as int) == crate::model::contrib_opts(
                                    prefix,
                                    dom,
                                    wrow,
                                    ni as int,
                                    i as int,
                                ),
                                forall|e: int| 0 <= e < mx@.len() ==> #[trigger] mx@[e] < self@.n,
                            decreases self@.n - i,
                        {
                            let ghost copies_base = mx@.map_values(|u: usize| u as int);
                            if bv_get(self.in_progress_map.get(x, y), i) {
                                let w = self.weights[ni][i];
                                proof {
                                    assert(wrow[i as int] == w as int);
                                }
                                let mut cidx: usize = 0;
                                while cidx < w
                                    invariant
                                        cidx <= w,
                                        ni < self@.n,
                                        mx@.map_values(|u: usize| u as int)
                                            == crate::model::push_copies(
                                            copies_base,
                                            ni as int,
                                            cidx as int,
                                        ),
                                        forall|e: int|
                                            0 <= e < mx@.len() ==> #[trigger] mx@[e] < self@.n,
                                    decreases w - cidx,
                                {
                                    let ghost before = mx@.map_values(|u: usize| u as int);
                                    mx.push(ni);
                                    proof {
                                        assert(mx@.map_values(|u: usize| u as int) =~= before.push(
                                            ni as int,
                                        ));
                                    }
                                    cidx += 1;
                                }
                                proof {
                                    assert(mx@.map_values(|u: usize| u as int)
                                        == crate::model::push_copies(
                                        copies_base,
                                        ni as int,
                                        w as int,
                                    ));
                                }
                            }
                            i += 1;
                        }
                    },
                    None => {
                    },
                }
            }
            j += 1;
        }
        mx
    }

    /// Collapse cell `k`: draw one entry of the weighted candidate list,
    /// or, when the list is empty, draw uniformly over the whole
    /// alphabet, and leave only the drawn identity's bit set.
    fn collapse_cell(&mut self, k: usize)
        requires
            old(self).wf(),
            k < old(self)@.width * old(self)@.height,
        ensures
            final(self).wf(),
            final(self)@ == ({
                let c = crate::model::spec_collapse(
                    old(self)@.width,
                    old(self)@.height,
                    old(self)@.n,
                    old(self)@.weights,
                    old(self)@.rng,
                    old(self)@.map,
                    k as int,
                );
                GenView { map: c.0, rng: c.1, ..old(self)@ }
            }),
    {
        let ghost v0 = old(self)@;
        let x = k % self.width;
        let y = k / self.width;
        proof {
            vstd::arithmetic::div_mod::lemma_fundamental_div_mod(k as int, v0.width);
            assert(v0.width * (k as int / v0.width) == (k as int / v0.width) * v0.width)
                by (nonlinear_arith);
            assert(y * v0.width <= k < v0.width * v0.height);
            assert(y < v0.height) by (nonlinear_arith)
                requires
                    y * v0.width <= k < v0.width * v0.height,
                    v0.width >= 1,
                    y >= 0,
            ;
        }
        let mx = self.build_matrix(k, x, y);
        let ghost mxs = crate::model::matrix_upto(
            v0.width,
            v0.height,
            v0.n,
            v0.weights,
            v0.map,
            k as int,
            24,
        );
        let tid = if mx.len() == 0 {
            crate::rng::draw_below(&mut self.rng_state, self.variant_nos)
        } else {
            let pick = crate::rng::draw_below(&mut self.rng_state, mx.len());
            proof {
                assert(mx@.map_values(|u: usize| u as int)[pick as int] == mxs[pick as int]);
            }
            mx[pick]
        };
        proof {
            assert(tid < v0.n);
            assert(self@.map[k as int].len() == v0.n);
        }
        let ghost elems0 = self.in_progress_map.spec_elems();
        let cell = self.in_progress_map.get_mut(x, y);
        bv_fill(cell, false);
        bv_set(cell, tid, true);
        proof {
            let unit = crate::bits::unit_bits(v0.n as nat, tid as int);
            let elems1 = self.in_progress_map.spec_elems();
            assert(elems1 =~= elems0.update(k as int, elems1[k as int]));
            assert(domain_bits(elems1[k as int]) =~= unit);
            assert forall|i: int| 0 <= i < v0.map.len() implies #[trigger] self@.map[i]
                == v0.map.update(k as int, unit)[i] by {
                assert(self@.map[i] == domain_bits(elems1[i]));
                if i != k as int {
                    assert(elems1[i] == elems0[i]);
                    assert(domain_bits(elems0[i]) == v0.map[i]);
                } else {
                    assert(domain_bits(elems1[i]) == unit);
                }
            }
            assert(self@.map =~= v0.map.update(k as int, unit));
        }
    }

    /// One global-entropy step: propagate every cell, pick one of the
    /// lowest-entropy cells at random and collapse it by weighted random
    /// choice, reporting whether generation is complete. Each
    /// non-completing step strictly lowers the number of undecided cells,
    /// so at most `width * height` steps reach completion.
    pub fn step_moar_random(&mut self) -> (done: bool)
        requires
            old(self).wf(),
        ensures
            final(self).wf(),
            final(self)@ == crate::model::spec_step(old(self)@).0,
            done == crate::model::spec_step(old(self)@).1,
            !done ==> crate::model::unresolved_upto(
                final(self)@.map,
                final(self)@.map.len() as int,
            ) < crate::model::unresolved_upto(old(self)@.map, old(self)@.map.len() as int),
            done ==> spec_finished(final(self)@.map),
    {
        let ghost v0 = old(self)@;
        proof {
            crate::model::lemma_step_progress(v0);
        }
        if self.all_decided() {
            return true;
        }
        self.propagate();
        let ghost m1 = crate::model::spec_propagate(v0);
        proof {
            crate::model::lemma_prop_pass(v0.width, v0.height, v0.allowed, v0.map, v0.width * v0.height);
            assert forall|c: int| 0 <= c < m1.len() implies popcount(#[trigger] m1[c])
                <= usize::MAX by {
                crate::bits::lemma_popcount_le_len(m1[c]);
            }
            crate::model::lemma_select_fold(m1, v0.width * v0.height);
        }
        let sel = self.select_min();
        let list = sel.1;
        if list.len() == 0 {
            return true;
        }
        let pick = crate::rng::draw_below(&mut self.rng_state, list.len());
        let kk = list[pick];
        proof {
            let s = crate::model::select_fold(m1, v0.width * v0.height);
            assert(kk as int == s.1[pick as int]);
            assert(0 <= (kk as int) && (kk as int) < v0.width * v0.height);
        }
        self.collapse_cell(kk);
        false
    }

    /// One scan-order step: narrow the cell under the cursor from its
    /// already resolved neighbours, collapse it by weighted random choice
    /// if it still holds two or more possibilities, and advance the
    /// cursor. Reports whether the scan has passed the last cell.
    pub fn step_scan_order(&mut self) -> (done: bool)
        requires
            old(self).wf(),
        ensures
            final(self).wf(),
            final(self)@ == crate::model::spec_scan_step(old(self)@).0,
            done == crate::model::spec_scan_step(old(self)@).1,
    {
        let ghost v0 = old(self)@;
        let wh = self.width * self.height;
        if self.next_to_generate >= wh {
            return true;
        }
        let k = self.next_to_generate;
        let x = k % self.width;
        let y = k / self.width;
        proof {
            vstd::arithmetic::div_mod::lemma_fundamental_div_mod(k as int, v0.width);
            assert(v0.width * (k as int / v0.width) == (k as int / v0.width) * v0.width)
                by (nonlinear_arith);
            assert(y < v0.height) by (nonlinear_arith)
                requires
                    y * v0.width <= k < v0.width * v0.height,
                    v0.width >= 1,
                    y >= 0,
            ;
        }
        let ghost narrowed = crate::model::prop_cell_upto(
            v0.width,
            v0.height,
            v0.allowed,
            v0.map,
            k as int,
            24,
        );
        let ghost m1 = v0.map.update(k as int, narrowed);
        self.narrow_cell(x, y);
        let cnt = bv_count_ones(self.in_progress_map.get(x, y));
        proof {
            assert(self@.map[k as int] == narrowed);
        }
        if cnt > 1 {
            self.collapse_cell(k);
        }
        self.next_to_generate = k + 1;
        proof {
            assert(view_wf(self@));
        }
        k + 1 == wh
    }

    /// Finalize the map, consuming the engine: a resolved cell gives its
    /// tile, a still-ambiguous cell collapses to a uniformly drawn
    /// remaining candidate, an emptied cell gives the fallback tile. The
    /// tiles come out in row-major order.
    pub fn finish(self) -> (r: Vec<T>)
        requires
            self.wf(),
        ensures
            r@ == crate::model::spec_finish(self@),
    {
        let ghost v0 = self@;
        let mut this = self;
        let mut nv: Vec<T> = Vec::new();
        let mut y: usize = 0;
        let mut k: usize = 0;
        while y < this.height
            invariant
                this.wf(),
                view_wf(v0),
                y <= v0.height,
                k == y * v0.width,
                this@ == (GenView { rng: this@.rng, ..v0 }),
                nv@ == crate::model::spec_finish_upto(v0, k as int).0,
                this@.rng == crate::model::spec_finish_upto(v0, k as int).1,
            decreases v0.height - y,
        {
            let mut x: usize = 0;
            while x < this.width
                invariant
                    this.wf(),
                    view_wf(v0),
                    y < v0.height,
                    x <= v0.width,
                    k == y * v0.width + x,
                    this@ == (GenView { rng: this@.rng, ..v0 }),
                    nv@ == crate::model::spec_finish_upto(v0, k as int).0,
                    this@.rng == crate::model::spec_finish_upto(v0, k as int).1,
                decreases v0.width - x,
            {
                proof {
                    lemma_cell_index(v0.width, v0.height, x as int, y as int);
                }
                let ghost dom = v0.map[k as int];
                let cnt = bv_count_ones(this.in_progress_map.get(x, y));
                if cnt > 1 {
                    let ids = crate::bits::domain_list(this.in_progress_map.get(x, y));
                    proof {
                        crate::bits::lemma_domain_indices(dom);
                        assert(ids@.len() == popcount(dom));
                    }
                    let pick = crate::rng::draw_below(&mut this.rng_state, ids.len());
                    let tid = ids[pick];
                    proof {
                        assert(ids@.map_values(|u: usize| u as int)[pick as int]
                            == crate::bits::domain_indices(dom)[pick as int]);
                        assert(tid < v0.n);
                    }
                    nv.push(this.variants[tid]);
                } else {
                    match extract_index(this.in_progress_map.get(x, y)) {
                        Some(i) => {
                            proof {
                                crate::bits::lemma_resolved_id(dom);
                            }
                            nv.push(this.variants[i]);
                        },
                        None => {
                            nv.push(this.fallback);
                        },
                    }
                }
                k += 1;
                x += 1;
            }
            proof {
                assert((y as int + 1) * v0.width == y as int * v0.width + v0.width)
                    by (nonlinear_arith);
            }
            y += 1;
        }
        proof {
            assert(k == v0.height * v0.width);
            assert(v0.height * v0.width == v0.width * v0.height) by (nonlinear_arith);
        }
        nv
    }

    /// Run propagation, selection and collapse to completion and
    /// finalize: a fully resolved grid of exactly `width * height` tiles,
    /// reached within `width * height` collapse steps.
    #[verifier::rlimit(100)]
    #[verifier::spinoff_prover]
    pub fn generate(width: usize, height: usize) -> (r: Result<Vec<T>, WFCError>)
        ensures
            r matches Ok(out) ==> out@.len() == width * height,
            (width == 0 || height == 0) <==> r == Err::<Vec<T>, WFCError>(WFCError::ZeroDimension),
            (width != 0 && height != 0 && (width as int) * (height as int) > usize::MAX) <==> r
                == Err::<Vec<T>, WFCError>(WFCError::TooLarge),
    {
        let mut g = match Self::new(width, height) {
            Ok(g) => g,
            Err(e) => { return Err(e) },
        };
        let mut done = false;
        while !done
            invariant
                g.wf(),
                g@.width == width,
                g@.height == height,
                width >= 1,
                height >= 1,
            decreases
                    2 * crate::model::unresolved_upto(g@.map, g@.map.len() as int) + if done {
                        0int
                    } else {
                        1int
                    },
        {
            let ghost vb = g@;
            done = g.step_moar_random();
            proof {
                crate::model::lemma_step_progress(vb);
                crate::model::lemma_unresolved_finished(vb.map, vb.map.len() as int);
                crate::model::lemma_unresolved_finished(g@.map, g@.map.len() as int);
            }
        }
        let ghost vg = g@;
        let out = g.finish();
        proof {
            crate::model::lemma_finish_len(vg, vg.width * vg.height);
        }
        Ok(out)
    }

    /// A non-destructive snapshot: the resolved tile of each decided
    /// cell, nothing for undecided or emptied cells, in row-major order.
    /// Between mutating calls, repeated snapshots are identical, because
    /// the result is a function of the unchanged state alone.
    pub fn get_current(&self) -> (r: Vec<Option<T>>)
        requires
            self.wf(),
        ensures
            r@ == spec_current(self@),
    {
        let mut out: Vec<Option<T>> = Vec::new();
        let mut y: usize = 0;
        let mut k: usize = 0;
        while y < self.height
            invariant
                self.wf(),
                y <= self@.height,
                k == y * self@.width,
                out@.len() == k,
                forall|c: int| 0 <= c < k ==> out@[c] == spec_current(self@)[c],
            decreases self@.height - y,
        {
            let mut x: usize = 0;
            while x < self.width
                invariant
                    self.wf(),
                    y < self@.height,
                    x <= self@.width,
                    k == y * self@.width + x,
                    out@.len() == k,
                    forall|c: int| 0 <= c < k ==> out@[c] == spec_current(self@)[c],
                decreases self@.width - x,
            {
                proof {
                    lemma_cell_index(self@.width, self@.height, x as int, y as int);
                }
                match extract_index(self.in_progress_map.get(x, y)) {
                    Some(i) => {
                        proof {
                            crate::bits::lemma_resolved_id(self@.map[k as int]);
                        }
                        out.push(Some(self.variants[i]));
                    },
                    None => {
                        out.push(None);
                    },
                }
                k += 1;
                x += 1;
            }
            proof {
                assert((y as int + 1) * self@.width == y as int * self@.width + self@.width)
                    by (nonlinear_arith);
            }
            y += 1;
        }
        proof {
            assert(k == self@.height * self@.width);
            assert(self@.height * self@.width == self@.width * self@.height) by (nonlinear_arith);
            assert(out@ =~= spec_current(self@));
        }
        out
    }
}

} // verus!
