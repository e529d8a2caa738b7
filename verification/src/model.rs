use vstd::prelude::*;

use crate::bits::domain_indices;
use crate::bits::is_resolved;
use crate::bits::popcount;
use crate::bits::resolved_id;
use crate::bits::seq_and;
use crate::bits::unit_bits;
use crate::rng::rng_next;
use crate::rng::rng_pick;

verus! {

/// The mathematical state of a generator: the configuration tables, the
/// grid of domains in row-major order, the scan cursor and the generator
/// state of the random source.
pub ghost struct GenView<T> {
    /// Width of the map being generated.
    pub width: int,
    /// Height of the map being generated.
    pub height: int,
    /// Number of tiles in the alphabet.
    pub n: int,
    /// The tile alphabet, in identity order.
    pub variants: Seq<T>,
    /// The tile substituted for an unresolvable cell.
    pub fallback: T,
    /// Row `a` holds, per identity `b`, whether `b` may stand next to `a`.
    pub allowed: Seq<Seq<bool>>,
    /// Row `a` holds, per identity `b`, the bias weight of resolving `b`
    /// near a cell already resolved to `a`; zero for disallowed pairs.
    pub weights: Seq<Seq<int>>,
    /// The domain of each cell, in row-major order.
    pub map: Seq<Seq<bool>>,
    /// The next cell the scan-order strategy will resolve.
    pub cursor: int,
    /// The state of the pseudo-random source.
    pub rng: u64,
}

/// Well-formedness of a generator view: consistent table dimensions and a
/// grid of domains sized to the alphabet.
pub open spec fn view_wf<T>(v: GenView<T>) -> bool {
    &&& 1 <= v.width
    &&& 1 <= v.height
    &&& 1 <= v.n
    &&& v.width * v.height <= usize::MAX
    &&& v.n <= usize::MAX
    &&& v.variants.len() == v.n
    &&& v.allowed.len() == v.n
    &&& (forall|a: int| 0 <= a < v.n ==> (#[trigger] v.allowed[a]).len() == v.n)
    &&& v.weights.len() == v.n
    &&& (forall|a: int| 0 <= a < v.n ==> (#[trigger] v.weights[a]).len() == v.n)
    &&& (forall|a: int, b: int|
        0 <= a < v.n && 0 <= b < v.n ==> 0 <= #[trigger] v.weights[a][b] <= usize::MAX)
    &&& (forall|a: int, b: int|
        0 <= a < v.n && 0 <= b < v.n && !v.allowed[a][b] ==> #[trigger] v.weights[a][b] == 0)
    &&& v.map.len() == v.width * v.height
    &&& (forall|k: int| 0 <= k < v.map.len() ==> (#[trigger] v.map[k]).len() == v.n)
    &&& 0 <= v.cursor <= v.width * v.height
}

/// The same view with another grid of domains.
pub open spec fn with_map<T>(v: GenView<T>, m: Seq<Seq<bool>>) -> GenView<T> {
    GenView { map: m, ..v }
}

/// The `j`-th of the 24 neighbourhood offsets shared by propagation and
/// collapse: every `(dx, dy)` in `[-2, 2] x [-2, 2]` except `(0, 0)`,
/// ordered with `dx` outermost. The 5 x 5 radius contains the whole
/// 8-connected ring around a cell.
pub open spec fn neighbour_delta(j: int) -> (int, int) {
    let jj = if j < 12 {
        j
    } else {
        j + 1
    };
    (jj / 5 - 2, jj % 5 - 2)
}

/// The linear index of the cell at offset `d` from cell `k`, or `-1` when
/// that position leaves the `width` by `height` rectangle.
pub open spec fn delta_index(width: int, height: int, k: int, d: (int, int)) -> int {
    let x = k % width + d.0;
    let y = k / width + d.1;
    if 0 <= x < width && 0 <= y < height {
        y * width + x
    } else {
        -1
    }
}

/// Cell `k`'s domain after intersecting, in order, with the allowed sets
/// of the resolved cells at the first `j` propagation offsets, all read
/// from the grid `m`.
pub open spec fn prop_cell_upto(
    width: int,
    height: int,
    allowed: Seq<Seq<bool>>,
    m: Seq<Seq<bool>>,
    k: int,
    j: int,
) -> Seq<bool>
    decreases j,
{
    if j <= 0 {
        m[k]
    } else {
        let prev = prop_cell_upto(width, height, allowed, m, k, j - 1);
        let nk = delta_index(width, height, k, neighbour_delta(j - 1));
        if nk >= 0 && is_resolved(m[nk]) {
            seq_and(prev, allowed[resolved_id(m[nk])])
        } else {
            prev
        }
    }
}

/// The grid after the propagation pass has visited the first `k` cells in
/// row-major order; each visit narrows that cell in place, so later cells
/// see the narrowed domains of earlier ones.
pub open spec fn prop_pass_upto(
    width: int,
    height: int,
    allowed: Seq<Seq<bool>>,
    m0: Seq<Seq<bool>>,
    k: int,
) -> Seq<Seq<bool>>
    decreases k,
{
    if k <= 0 {
        m0
    } else {
        let m = prop_pass_upto(width, height, allowed, m0, k - 1);
        m.update(k - 1, prop_cell_upto(width, height, allowed, m, k - 1, 24))
    }
}

/// The grid after one full propagation pass over the view's map.
pub open spec fn spec_propagate<T>(v: GenView<T>) -> Seq<Seq<bool>> {
    prop_pass_upto(v.width, v.height, v.allowed, v.map, v.width * v.height)
}

/// Whether every cell of a grid is decided: no domain keeps more than one
/// possibility.
pub open spec fn spec_finished(m: Seq<Seq<bool>>) -> bool {
    forall|k: int| 0 <= k < m.len() ==> popcount(#[trigger] m[k]) <= 1
}

/// The number of cells among the first `k` that are decided (at most one
/// possibility left).
pub open spec fn done_upto(m: Seq<Seq<bool>>, k: int) -> int
    decreases k,
{
    if k <= 0 {
        0
    } else {
        done_upto(m, k - 1) + if popcount(m[k - 1]) <= 1 {
            1int
        } else {
            0int
        }
    }
}

/// The number of cells among the first `k` still holding two or more
/// possibilities.
pub open spec fn unresolved_upto(m: Seq<Seq<bool>>, k: int) -> int
    decreases k,
{
    if k <= 0 {
        0
    } else {
        unresolved_upto(m, k - 1) + if popcount(m[k - 1]) >= 2 {
            1int
        } else {
            0int
        }
    }
}

/// The running minimum-entropy fold over the first `k` cells: the least
/// popcount above one seen so far (`usize::MAX` before any) and the list
/// of cells tied at that minimum, in visit order.
pub open spec fn select_fold(m: Seq<Seq<bool>>, k: int) -> (int, Seq<int>)
    decreases k,
{
    if k <= 0 {
        (usize::MAX as int, Seq::empty())
    } else {
        let r = select_fold(m, k - 1);
        let p = popcount(m[k - 1]) as int;
        if p <= 1 {
            r
        } else {
            let mn = if p < r.0 {
                p
            } else {
                r.0
            };
            let lst = if p < r.0 {
                Seq::<int>::empty()
            } else {
                r.1
            };
            if p == mn {
                (mn, lst.push(k - 1))
            } else {
                (mn, lst)
            }
        }
    }
}

/// `c` copies of `t` appended to `mx`.
pub open spec fn push_copies(mx: Seq<int>, t: int, c: int) -> Seq<int>
    decreases c,
{
    if c <= 0 {
        mx
    } else {
        push_copies(mx, t, c - 1).push(t)
    }
}

/// For each of the first `i` identities still possible in `dom`, append
/// to `mx` as many copies of the resolved neighbour's identity `ni` as
/// that neighbour's bias toward the possibility gives.
pub open spec fn contrib_opts(mx: Seq<int>, dom: Seq<bool>, wrow: Seq<int>, ni: int, i: int) -> Seq<
    int,
>
    decreases i,
{
    if i <= 0 {
        mx
    } else {
        let prev = contrib_opts(mx, dom, wrow, ni, i - 1);
        if dom[i - 1] {
            push_copies(prev, ni, wrow[i - 1])
        } else {
            prev
        }
    }
}

/// The weighted candidate list for collapsing cell `k` of grid `m`, after
/// the first `j` collapse offsets have contributed: the still-possible
/// identities of the cell itself, then the neighbour contributions in
/// offset order.
pub open spec fn matrix_upto(
    width: int,
    height: int,
    n: int,
    weights: Seq<Seq<int>>,
    m: Seq<Seq<bool>>,
    k: int,
    j: int,
) -> Seq<int>
    decreases j,
{
    if j <= 0 {
        domain_indices(m[k])
    } else {
        let prev = matrix_upto(width, height, n, weights, m, k, j - 1);
        let nk = delta_index(width, height, k, neighbour_delta(j - 1));
        if nk >= 0 && is_resolved(m[nk]) {
            contrib_opts(prev, m[k], weights[resolved_id(m[nk])], resolved_id(m[nk]), n)
        } else {
            prev
        }
    }
}

/// Collapse the cell `k` of the propagated grid `m1`: draw from the
/// weighted candidate list, or uniformly from the whole alphabet when the
/// list is empty, and leave only the drawn bit set.
pub open spec fn spec_collapse(
    width: int,
    height: int,
    n: int,
    weights: Seq<Seq<int>>,
    rng: u64,
    m1: Seq<Seq<bool>>,
    k: int,
) -> (Seq<Seq<bool>>, u64) {
    let mx = matrix_upto(width, height, n, weights, m1, k, 24);
    let tid = if mx.len() == 0 {
        rng_pick(rng, n)
    } else {
        mx[rng_pick(rng, mx.len() as int)]
    };
    (m1.update(k, unit_bits(n as nat, tid)), rng_next(rng))
}

/// One global-entropy step: nothing when the grid is already finished;
/// otherwise one propagation pass, then selection of a random cell among
/// those of least entropy, then its weighted collapse. The boolean tells
/// whether generation is complete.
pub open spec fn spec_step<T>(v: GenView<T>) -> (GenView<T>, bool) {
    if spec_finished(v.map) {
        (v, true)
    } else {
        let m1 = spec_propagate(v);
        let sel = select_fold(m1, v.width * v.height);
        if sel.1.len() == 0 {
            (with_map(v, m1), true)
        } else {
            let k = sel.1[rng_pick(v.rng, sel.1.len() as int)];
            let v1 = GenView { map: m1, rng: rng_next(v.rng), ..v };
            let c = spec_collapse(v.width, v.height, v.n, v.weights, v1.rng, m1, k);
            (GenView { map: c.0, rng: c.1, ..v1 }, false)
        }
    }
}

/// One scan-order step: narrow the cell under the cursor from its already
/// resolved neighbours, collapse it if it still holds two or more
/// possibilities, and advance the cursor. The boolean tells whether the
/// scan has passed the last cell.
pub open spec fn spec_scan_step<T>(v: GenView<T>) -> (GenView<T>, bool) {
    if v.cursor >= v.width * v.height {
        (v, true)
    } else {
        let k = v.cursor;
        let narrowed = prop_cell_upto(v.width, v.height, v.allowed, v.map, k, 24);
        let m1 = v.map.update(k, narrowed);
        let v1 = GenView { map: m1, cursor: k + 1, ..v };
        if popcount(narrowed) >= 2 {
            let c = spec_collapse(v.width, v.height, v.n, v.weights, v.rng, m1, k);
            (GenView { map: c.0, rng: c.1, ..v1 }, k + 1 == v.width * v.height)
        } else {
            (v1, k + 1 == v.width * v.height)
        }
    }
}

/// The tiles the first `k` cells finalize to, with the random source
/// threaded through the draws that still-ambiguous cells need.
pub open spec fn spec_finish_upto<T>(v: GenView<T>, k: int) -> (Seq<T>, u64)
    decreases k,
{
    if k <= 0 {
        (Seq::empty(), v.rng)
    } else {
        let r = spec_finish_upto(v, k - 1);
        let dom = v.map[k - 1];
        if popcount(dom) > 1 {
            let ids = domain_indices(dom);
            (r.0.push(v.variants[ids[rng_pick(r.1, ids.len() as int)]]), rng_next(r.1))
        } else if popcount(dom) == 1 {
            (r.0.push(v.variants[resolved_id(dom)]), r.1)
        } else {
            (r.0.push(v.fallback), r.1)
        }
    }
}

/// The fully resolved grid finalization returns: each still-ambiguous
/// cell collapses to a uniformly drawn remaining candidate, each emptied
/// cell to the fallback tile.
pub open spec fn spec_finish<T>(v: GenView<T>) -> Seq<T> {
    spec_finish_upto(v, v.width * v.height).0
}

/// The non-destructive snapshot: the resolved tile of each decided cell,
/// nothing for the rest.
pub open spec fn spec_current<T>(v: GenView<T>) -> Seq<Option<T>> {
    Seq::new(
        (v.width * v.height) as nat,
        |k: int|
            if is_resolved(v.map[k]) {
                Some(v.variants[resolved_id(v.map[k])])
            } else {
                None
            },
    )
}

/// Narrowing a cell from its neighbours keeps the domain's length, only
/// ever clears bits, and never raises the popcount.
pub proof fn lemma_prop_cell(
    width: int,
    height: int,
    allowed: Seq<Seq<bool>>,
    m: Seq<Seq<bool>>,
    k: int,
    j: int,
)
    ensures
        prop_cell_upto(width, height, allowed, m, k, j).len() == m[k].len(),
        forall|i: int|
            0 <= i < m[k].len() && #[trigger] prop_cell_upto(width, height, allowed, m, k, j)[i]
                ==> m[k][i],
        popcount(prop_cell_upto(width, height, allowed, m, k, j)) <= popcount(m[k]),
    decreases j,
{
    if j <= 0 {
    } else {
        lemma_prop_cell(width, height, allowed, m, k, j - 1);
        crate::bits::lemma_popcount_pointwise_le(
            prop_cell_upto(width, height, allowed, m, k, j),
            m[k],
        );
    }
}

/// The propagation pass keeps the grid's shape, only ever clears bits,
/// never raises any cell's popcount, and leaves unvisited cells alone.
pub proof fn lemma_prop_pass(
    width: int,
    height: int,
    allowed: Seq<Seq<bool>>,
    m0: Seq<Seq<bool>>,
    k: int,
)
    requires
        k <= m0.len(),
    ensures
        prop_pass_upto(width, height, allowed, m0, k).len() == m0.len(),
        forall|c: int|
            0 <= c < m0.len() ==> (#[trigger] prop_pass_upto(width, height, allowed, m0, k)[c]).len()
                == m0[c].len(),
        forall|c: int|
            0 <= c < m0.len() ==> popcount(
                #[trigger] prop_pass_upto(width, height, allowed, m0, k)[c],
            ) <= popcount(m0[c]),
        forall|c: int, i: int|
            0 <= c < m0.len() && 0 <= i < m0[c].len() && #[trigger] prop_pass_upto(
                width,
                height,
                allowed,
                m0,
                k,
            )[c][i] ==> m0[c][i],
        forall|c: int|
            k <= c < m0.len() ==> #[trigger] prop_pass_upto(width, height, allowed, m0, k)[c]
                == m0[c],
    decreases k,
{
    if k <= 0 {
    } else {
        lemma_prop_pass(width, height, allowed, m0, k - 1);
        let m = prop_pass_upto(width, height, allowed, m0, k - 1);
        if 0 <= k - 1 < m0.len() {
            lemma_prop_cell(width, height, allowed, m, k - 1, 24);
            let knext = k - 1;
            assert forall|i: int|
                0 <= i < m0[knext].len() && #[trigger] prop_pass_upto(
                    width,
                    height,
                    allowed,
                    m0,
                    k,
                )[knext][i] implies m0[knext][i] by {
                assert(m[knext][i]);
            }
            crate::bits::lemma_popcount_pointwise_le(
                prop_cell_upto(width, height, allowed, m, k - 1, 24),
                m[k - 1],
            );
        }
    }
}

/// What the minimum-entropy fold yields: a minimum of at least two, and a
/// tie list whose every entry is an undecided visited cell holding exactly
/// the minimum; the list is empty exactly when every visited cell is
/// decided.
pub proof fn lemma_select_fold(m: Seq<Seq<bool>>, k: int)
    requires
        forall|c: int| 0 <= c < k ==> popcount(#[trigger] m[c]) <= usize::MAX,
    ensures
        2 <= select_fold(m, k).0 <= usize::MAX,
        select_fold(m, k).1.len() == 0 ==> select_fold(m, k).0 == usize::MAX,
        forall|t: int|
            0 <= t < select_fold(m, k).1.len() ==> 0 <= #[trigger] select_fold(m, k).1[t] < k
                && popcount(m[select_fold(m, k).1[t]]) == select_fold(m, k).0,
        (select_fold(m, k).1.len() == 0) <==> (forall|c: int|
            0 <= c < k ==> popcount(#[trigger] m[c]) <= 1),
    decreases k,
{
    if k <= 0 {
    } else {
        lemma_select_fold(m, k - 1);
        let r = select_fold(m, k - 1);
        let p = popcount(m[k - 1]) as int;
        if p <= 1 {
            assert(select_fold(m, k) == r);
        } else {
            assert(select_fold(m, k).1.len() > 0);
        }
    }
}

/// Appending copies grows the list by `c` (when positive), keeps the
/// prefix, and every appended entry is the copied value.
pub proof fn lemma_push_copies(mx: Seq<int>, t: int, c: int)
    ensures
        push_copies(mx, t, c).len() == mx.len() + if c >= 0 {
            c
        } else {
            0
        },
        forall|e: int| 0 <= e < mx.len() ==> #[trigger] push_copies(mx, t, c)[e] == mx[e],
        forall|e: int|
            mx.len() <= e < push_copies(mx, t, c).len() ==> #[trigger] push_copies(mx, t, c)[e]
                == t,
    decreases c,
{
    if c > 0 {
        lemma_push_copies(mx, t, c - 1);
    }
}

/// A neighbour's contributions extend the list and consist solely of that
/// neighbour's identity.
pub proof fn lemma_contrib_opts(mx: Seq<int>, dom: Seq<bool>, wrow: Seq<int>, ni: int, i: int)
    ensures
        contrib_opts(mx, dom, wrow, ni, i).len() >= mx.len(),
        forall|e: int|
            0 <= e < mx.len() ==> #[trigger] contrib_opts(mx, dom, wrow, ni, i)[e] == mx[e],
        forall|e: int|
            mx.len() <= e < contrib_opts(mx, dom, wrow, ni, i).len() ==> #[trigger] contrib_opts(
                mx,
                dom,
                wrow,
                ni,
                i,
            )[e] == ni,
    decreases i,
{
    if i > 0 {
        lemma_contrib_opts(mx, dom, wrow, ni, i - 1);
        if dom[i - 1] {
            lemma_push_copies(contrib_opts(mx, dom, wrow, ni, i - 1), ni, wrow[i - 1]);
        }
    }
}

/// An in-range offset target is an in-range cell.
pub proof fn lemma_delta_index(width: int, height: int, k: int, d: (int, int))
    requires
        1 <= width,
        1 <= height,
        0 <= k < width * height,
    ensures
        delta_index(width, height, k, d) < width * height,
{
    let x = k % width + d.0;
    let y = k / width + d.1;
    if 0 <= x < width && 0 <= y < height {
        assert(y * width + x < width * height) by (nonlinear_arith)
            requires
                0 <= x < width,
                0 <= y < height,
                1 <= width,
        ;
    }
}

/// Every entry of the weighted candidate list is an identity in range:
/// the cell's own possibilities by construction, the neighbour
/// contributions because a resolved neighbour's identity is in range. The
/// list is never shorter than the cell's own possibility count.
pub proof fn lemma_matrix(
    width: int,
    height: int,
    n: int,
    weights: Seq<Seq<int>>,
    m: Seq<Seq<bool>>,
    k: int,
    j: int,
)
    requires
        1 <= width,
        1 <= height,
        1 <= n,
        m.len() == width * height,
        forall|c: int| 0 <= c < m.len() ==> (#[trigger] m[c]).len() == n,
        0 <= k < m.len(),
    ensures
        matrix_upto(width, height, n, weights, m, k, j).len() >= popcount(m[k]),
        forall|e: int|
            0 <= e < matrix_upto(width, height, n, weights, m, k, j).len() ==> 0
                <= #[trigger] matrix_upto(width, height, n, weights, m, k, j)[e] < n,
    decreases j,
{
    crate::bits::lemma_domain_indices(m[k]);
    if j <= 0 {
    } else {
        lemma_matrix(width, height, n, weights, m, k, j - 1);
        let prev = matrix_upto(width, height, n, weights, m, k, j - 1);
        let nk = delta_index(width, height, k, neighbour_delta(j - 1));
        lemma_delta_index(width, height, k, neighbour_delta(j - 1));
        if nk >= 0 && is_resolved(m[nk]) {
            crate::bits::lemma_resolved_id(m[nk]);
            let ni = resolved_id(m[nk]);
            lemma_contrib_opts(prev, m[k], weights[ni], ni, n);
        }
    }
}

/// Cellwise popcount bounds carry over to the count of undecided cells.
pub proof fn lemma_unresolved_pointwise(m1: Seq<Seq<bool>>, m2: Seq<Seq<bool>>, k: int)
    requires
        forall|c: int| 0 <= c < k ==> popcount(#[trigger] m1[c]) <= popcount(#[trigger] m2[c]),
    ensures
        unresolved_upto(m1, k) <= unresolved_upto(m2, k),
    decreases k,
{
    if k > 0 {
        lemma_unresolved_pointwise(m1, m2, k - 1);
    }
}

/// Deciding one undecided cell lowers the count of undecided cells by
/// exactly one.
pub proof fn lemma_unresolved_update(m: Seq<Seq<bool>>, c: int, u: Seq<bool>, k: int)
    requires
        0 <= c < k <= m.len(),
        popcount(m[c]) >= 2,
        popcount(u) <= 1,
    ensures
        unresolved_upto(m.update(c, u), k) == unresolved_upto(m, k) - 1,
    decreases k,
{
    if k > 0 {
        if c == k - 1 {
            lemma_unresolved_same(m.update(c, u), m, k - 1);
        } else {
            lemma_unresolved_update(m, c, u, k - 1);
        }
    }
}

/// Grids equal on a prefix count its undecided cells alike.
pub proof fn lemma_unresolved_same(m1: Seq<Seq<bool>>, m2: Seq<Seq<bool>>, k: int)
    requires
        forall|c: int| 0 <= c < k ==> #[trigger] m1[c] == #[trigger] m2[c],
    ensures
        unresolved_upto(m1, k) == unresolved_upto(m2, k),
    decreases k,
{
    if k > 0 {
        lemma_unresolved_same(m1, m2, k - 1);
    }
}

/// A grid is finished exactly when it has no undecided cell.
pub proof fn lemma_unresolved_finished(m: Seq<Seq<bool>>, k: int)
    ensures
        0 <= unresolved_upto(m, k),
        k >= 0 ==> unresolved_upto(m, k) <= k,
        (unresolved_upto(m, k) == 0) <==> (forall|c: int|
            0 <= c < k ==> popcount(#[trigger] m[c]) <= 1),
    decreases k,
{
    if k > 0 {
        lemma_unresolved_finished(m, k - 1);
        let p = popcount(m[k - 1]);
        assert(unresolved_upto(m, k) == unresolved_upto(m, k - 1) + if p >= 2 {
            1int
        } else {
            0int
        });
        assert(p >= 2 || p <= 1);
    }
}

/// Entropy monotonicity: a propagation pass never raises any cell's
/// population count, and keeps the grid's shape.
pub proof fn lemma_propagate_entropy_monotone<T>(v: GenView<T>)
    requires
        view_wf(v),
    ensures
        spec_propagate(v).len() == v.map.len(),
        forall|k: int|
            0 <= k < v.map.len() ==> popcount(#[trigger] spec_propagate(v)[k]) <= popcount(
                v.map[k],
            ),
{
    lemma_prop_pass(v.width, v.height, v.allowed, v.map, v.width * v.height);
}

/// Constraint respect: narrowing a cell leaves only tiles that every
/// neighbour already resolved in the grid being read allows next to
/// itself.
pub proof fn lemma_narrow_respects_neighbours(
    width: int,
    height: int,
    allowed: Seq<Seq<bool>>,
    m: Seq<Seq<bool>>,
    k: int,
    j: int,
)
    ensures
        forall|i: int, jj: int|
            {
                let nk = delta_index(width, height, k, #[trigger] neighbour_delta(jj));
                (0 <= i < m[k].len() && 0 <= jj < j && #[trigger] prop_cell_upto(
                    width,
                    height,
                    allowed,
                    m,
                    k,
                    j,
                )[i] && nk >= 0 && is_resolved(m[nk])) ==> allowed[resolved_id(m[nk])][i]
            },
    decreases j,
{
    if j > 0 {
        lemma_narrow_respects_neighbours(width, height, allowed, m, k, j - 1);
        crate::bits::lemma_popcount_pointwise_le(
            prop_cell_upto(width, height, allowed, m, k, j),
            prop_cell_upto(width, height, allowed, m, k, j - 1),
        );
        let prev = prop_cell_upto(width, height, allowed, m, k, j - 1);
        let cur = prop_cell_upto(width, height, allowed, m, k, j);
        assert forall|i: int, jj: int|
            {
                let nk = delta_index(width, height, k, #[trigger] neighbour_delta(jj));
                (0 <= i < m[k].len() && 0 <= jj < j && #[trigger] cur[i] && nk >= 0 && is_resolved(
                    m[nk],
                )) ==> allowed[resolved_id(m[nk])][i]
            } by {
            let nk = delta_index(width, height, k, neighbour_delta(jj));
            if 0 <= i < m[k].len() && 0 <= jj < j && cur[i] && nk >= 0 && is_resolved(m[nk]) {
                lemma_prop_cell(width, height, allowed, m, k, j - 1);
                if jj < j - 1 {
                    assert(cur[i] ==> prev[i]);
                } else {
                    assert(cur == seq_and(prev, allowed[resolved_id(m[nk])]));
                }
            }
        }
    }
}

/// Determinism: every phase of the engine is a mathematical function of
/// the state, seed included, so two generators whose views agree step,
/// scan and finalize to equal results.
pub proof fn lemma_run_deterministic<T>(a: GenView<T>, b: GenView<T>)
    requires
        a == b,
    ensures
        spec_step(a) == spec_step(b),
        spec_scan_step(a) == spec_scan_step(b),
        spec_finish(a) == spec_finish(b),
        spec_current(a) == spec_current(b),
{
}

/// Under an all-true adjacency relation, narrowing a cell changes
/// nothing: every mask intersected in is all-true.
proof fn lemma_prop_cell_permissive(
    width: int,
    height: int,
    allowed: Seq<Seq<bool>>,
    m: Seq<Seq<bool>>,
    n: int,
    k: int,
    j: int,
)
    requires
        1 <= width,
        1 <= height,
        m.len() == width * height,
        0 <= k < m.len(),
        forall|c: int| 0 <= c < m.len() ==> (#[trigger] m[c]).len() == n,
        allowed.len() == n,
        forall|a: int| 0 <= a < n ==> (#[trigger] allowed[a]).len() == n,
        forall|a: int, b: int| 0 <= a < n && 0 <= b < n ==> #[trigger] allowed[a][b],
    ensures
        prop_cell_upto(width, height, allowed, m, k, j) == m[k],
    decreases j,
{
    if j > 0 {
        lemma_prop_cell_permissive(width, height, allowed, m, n, k, j - 1);
        let nk = delta_index(width, height, k, neighbour_delta(j - 1));
        if nk >= 0 && is_resolved(m[nk]) {
            lemma_delta_index(width, height, k, neighbour_delta(j - 1));
            crate::bits::lemma_resolved_id(m[nk]);
            assert(seq_and(m[k], allowed[resolved_id(m[nk])]) =~= m[k]);
        }
    }
}

/// Under an all-true adjacency relation, the whole propagation pass is
/// the identity.
proof fn lemma_prop_pass_permissive(
    width: int,
    height: int,
    allowed: Seq<Seq<bool>>,
    m0: Seq<Seq<bool>>,
    n: int,
    k: int,
)
    requires
        1 <= width,
        1 <= height,
        m0.len() == width * height,
        k <= m0.len(),
        forall|c: int| 0 <= c < m0.len() ==> (#[trigger] m0[c]).len() == n,
        allowed.len() == n,
        forall|a: int| 0 <= a < n ==> (#[trigger] allowed[a]).len() == n,
        forall|a: int, b: int| 0 <= a < n && 0 <= b < n ==> #[trigger] allowed[a][b],
    ensures
        prop_pass_upto(width, height, allowed, m0, k) == m0,
    decreases k,
{
    if k > 0 {
        lemma_prop_pass_permissive(width, height, allowed, m0, n, k - 1);
        lemma_prop_cell_permissive(width, height, allowed, m0, n, k - 1, 24);
        assert(m0.update(k - 1, m0[k - 1]) =~= m0);
    }
}

/// Contradiction avoidance under full permissiveness: when every ordered
/// pair of identities is allowed adjacent, a step never empties any
/// domain — propagation changes nothing and a collapse leaves exactly
/// one possibility.
pub proof fn lemma_permissive_step_no_empty<T>(v: GenView<T>)
    requires
        view_wf(v),
        forall|a: int, b: int| 0 <= a < v.n && 0 <= b < v.n ==> #[trigger] v.allowed[a][b],
        forall|k: int| 0 <= k < v.map.len() ==> popcount(#[trigger] v.map[k]) >= 1,
    ensures
        spec_step(v).0.map.len() == v.map.len(),
        forall|k: int|
            0 <= k < spec_step(v).0.map.len() ==> popcount(#[trigger] spec_step(v).0.map[k]) >= 1,
{
    let wh = v.width * v.height;
    if spec_finished(v.map) {
    } else {
        lemma_prop_pass_permissive(v.width, v.height, v.allowed, v.map, v.n, wh);
        let m1 = spec_propagate(v);
        assert(m1 == v.map);
        assert forall|c: int| 0 <= c < wh implies popcount(#[trigger] m1[c]) <= usize::MAX by {
            crate::bits::lemma_popcount_le_len(m1[c]);
        }
        let sel = select_fold(m1, wh);
        lemma_select_fold(m1, wh);
        if sel.1.len() == 0 {
        } else {
            let k = sel.1[rng_pick(v.rng, sel.1.len() as int)];
            crate::rng::lemma_rng_pick_range(v.rng, sel.1.len() as int);
            let v1 = GenView { map: m1, rng: rng_next(v.rng), ..v };
            lemma_matrix(v.width, v.height, v.n, v.weights, m1, k, 24);
            let mx = matrix_upto(v.width, v.height, v.n, v.weights, m1, k, 24);
            let tid = if mx.len() == 0 {
                rng_pick(v1.rng, v1.n)
            } else {
                mx[rng_pick(v1.rng, mx.len() as int)]
            };
            if mx.len() == 0 {
                crate::rng::lemma_rng_pick_range(v1.rng, v1.n);
            } else {
                crate::rng::lemma_rng_pick_range(v1.rng, mx.len() as int);
            }
            crate::bits::lemma_popcount_unit(v.n as nat, tid);
            assert(spec_step(v).0.map == m1.update(k, unit_bits(v.n as nat, tid)));
        }
    }
}

/// A freshly built all-possible grid has no empty domain.
pub proof fn lemma_full_map_no_empty<T>(v: GenView<T>)
    requires
        view_wf(v),
        forall|k: int|
            0 <= k < v.map.len() ==> #[trigger] v.map[k] == crate::bits::const_bits(
                v.n as nat,
                true,
            ),
    ensures
        forall|k: int| 0 <= k < v.map.len() ==> popcount(#[trigger] v.map[k]) >= 1,
{
    assert forall|k: int| 0 <= k < v.map.len() implies popcount(#[trigger] v.map[k]) >= 1 by {
        crate::bits::lemma_popcount_full(v.n as nat);
    }
}

/// The first `k` finalized tiles of a grid with no empty domain among
/// its first `k` cells all come from the alphabet.
proof fn lemma_finish_upto_in_alphabet<T>(v: GenView<T>, k: int)
    requires
        view_wf(v),
        k <= v.map.len(),
        forall|c: int| 0 <= c < k ==> popcount(#[trigger] v.map[c]) >= 1,
    ensures
        forall|i: int|
            0 <= i < spec_finish_upto(v, k).0.len() ==> v.variants.contains(
                #[trigger] spec_finish_upto(v, k).0[i],
            ),
    decreases k,
{
    if k > 0 {
        lemma_finish_upto_in_alphabet(v, k - 1);
        lemma_finish_len(v, k - 1);
        let prev = spec_finish_upto(v, k - 1);
        let dom = v.map[k - 1];
        let pushed: T = if popcount(dom) > 1 {
            let ids = domain_indices(dom);
            crate::bits::lemma_domain_indices(dom);
            crate::rng::lemma_rng_pick_range(prev.1, ids.len() as int);
            let tid = ids[rng_pick(prev.1, ids.len() as int)];
            assert(v.variants[tid] == spec_finish_upto(v, k).0.last());
            v.variants[tid]
        } else {
            crate::bits::lemma_resolved_id(dom);
            let tid = resolved_id(dom);
            assert(v.variants[tid] == spec_finish_upto(v, k).0.last());
            v.variants[tid]
        };
        assert(v.variants.contains(pushed));
        assert forall|i: int|
            0 <= i < spec_finish_upto(v, k).0.len() implies v.variants.contains(
            #[trigger] spec_finish_upto(v, k).0[i],
        ) by {
            if i < k - 1 {
                assert(spec_finish_upto(v, k).0[i] == prev.0[i]);
            } else {
                assert(spec_finish_upto(v, k).0[i] == pushed);
            }
        }
    }
}

/// Fallback avoidance: when no domain is empty, finalization never
/// substitutes the fallback tile — every returned tile is one of the
/// alphabet's variants.
pub proof fn lemma_no_empty_finish_in_alphabet<T>(v: GenView<T>)
    requires
        view_wf(v),
        forall|k: int| 0 <= k < v.map.len() ==> popcount(#[trigger] v.map[k]) >= 1,
    ensures
        forall|i: int|
            0 <= i < spec_finish(v).len() ==> v.variants.contains(#[trigger] spec_finish(v)[i]),
{
    lemma_finish_upto_in_alphabet(v, v.width * v.height);
}

/// Finalization produces exactly one tile per cell visited.
pub proof fn lemma_finish_len<T>(v: GenView<T>, k: int)
    ensures
        k >= 0 ==> spec_finish_upto(v, k).0.len() == k,
        k < 0 ==> spec_finish_upto(v, k).0.len() == 0,
    decreases k,
{
    if k > 0 {
        lemma_finish_len(v, k - 1);
    }
}

/// A position inside the rectangle has its linear index inside the grid.
pub proof fn lemma_cell_index(width: int, height: int, x: int, y: int)
    requires
        1 <= width,
        1 <= height,
        0 <= x < width,
        0 <= y < height,
    ensures
        0 <= y * width + x < width * height,
{
    assert(0 <= y * width + x < width * height) by (nonlinear_arith)
        requires
            1 <= width,
            1 <= height,
            0 <= x < width,
            0 <= y < height,
    ;
}

/// Row-major linear indexing is injective over the rectangle.
pub proof fn lemma_linear_unique(width: int, x1: int, y1: int, x2: int, y2: int)
    requires
        1 <= width,
        0 <= x1 < width,
        0 <= x2 < width,
        0 <= y1,
        0 <= y2,
        y1 * width + x1 == y2 * width + x2,
    ensures
        x1 == x2 && y1 == y2,
{
    assert(x1 == x2 && y1 == y2) by (nonlinear_arith)
        requires
            1 <= width,
            0 <= x1 < width,
            0 <= x2 < width,
            0 <= y1,
            0 <= y2,
            y1 * width + x1 == y2 * width + x2,
    ;
}

/// One step on an unfinished well-formed view keeps it well formed,
/// changes nothing but the grid and the random state, and either reports
/// completion or strictly lowers the number of undecided cells — hence at
/// most `width * height` steps ever collapse a cell.
#[verifier::rlimit(50)]
#[verifier::spinoff_prover]
pub proof fn lemma_step_progress<T>(v: GenView<T>)
    requires
        view_wf(v),
    ensures
        view_wf(spec_step(v).0),
        spec_step(v).0.width == v.width,
        spec_step(v).0.height == v.height,
        spec_step(v).0.n == v.n,
        spec_step(v).0.variants == v.variants,
        spec_step(v).0.fallback == v.fallback,
        spec_step(v).0.allowed == v.allowed,
        spec_step(v).0.weights == v.weights,
        spec_step(v).0.cursor == v.cursor,
        !spec_step(v).1 ==> unresolved_upto(spec_step(v).0.map, spec_step(v).0.map.len() as int)
            < unresolved_upto(v.map, v.map.len() as int),
        spec_step(v).1 ==> spec_finished(spec_step(v).0.map),
        unresolved_upto(spec_step(v).0.map, spec_step(v).0.map.len() as int) <= unresolved_upto(
            v.map,
            v.map.len() as int,
        ),
{
    let wh = v.width * v.height;
    lemma_unresolved_finished(v.map, wh);
    if spec_finished(v.map) {
    } else {
        let m1 = spec_propagate(v);
        lemma_prop_pass(v.width, v.height, v.allowed, v.map, wh);
        assert(m1.len() == wh);
        assert forall|c: int| 0 <= c < wh implies (#[trigger] m1[c]).len() == v.n by {
            assert(m1[c].len() == v.map[c].len());
        }
        assert forall|c: int| 0 <= c < wh implies popcount(#[trigger] m1[c]) <= usize::MAX by {
            crate::bits::lemma_popcount_le_len(m1[c]);
        }
        let sel = select_fold(m1, wh);
        lemma_select_fold(m1, wh);
        if sel.1.len() == 0 {
            assert(spec_finished(m1));
            lemma_unresolved_pointwise(m1, v.map, wh);
        } else {
            let k = sel.1[rng_pick(v.rng, sel.1.len() as int)];
            crate::rng::lemma_rng_pick_range(v.rng, sel.1.len() as int);
            assert(popcount(m1[k]) == sel.0 && sel.0 >= 2);
            let v1 = GenView { map: m1, rng: rng_next(v.rng), ..v };
            lemma_matrix(v.width, v.height, v.n, v.weights, m1, k, 24);
            let c = spec_collapse(v.width, v.height, v.n, v.weights, v1.rng, m1, k);
            let mx = matrix_upto(v.width, v.height, v.n, v.weights, m1, k, 24);
            let tid = if mx.len() == 0 {
                rng_pick(v1.rng, v1.n)
            } else {
                mx[rng_pick(v1.rng, mx.len() as int)]
            };
            if mx.len() == 0 {
                crate::rng::lemma_rng_pick_range(v1.rng, v1.n);
            } else {
                crate::rng::lemma_rng_pick_range(v1.rng, mx.len() as int);
            }
            assert(0 <= tid < v.n);
            crate::bits::lemma_popcount_unit(v.n as nat, tid);
            assert(spec_step(v).0.map == m1.update(k, unit_bits(v.n as nat, tid)));
            lemma_unresolved_pointwise(m1, v.map, wh);
            lemma_unresolved_update(m1, k, unit_bits(v.n as nat, tid), wh);
            lemma_unresolved_finished(m1, wh);
            assert(view_wf(spec_step(v).0));
        }
    }
}

} // verus!
