//! The diffusion grid: cell state, the boundary policy, and one
//! diffusion + absorption + normalization transition.
//!
//! Mass is held exactly: each cell stores an integer weight, and the mass of a
//! cell is its weight divided by the sum of all weights.  A step multiplies
//! every weight by exact integer coefficients, so the unit-total invariant is
//! maintained by construction and conservation is an integer identity.
//!
//! One step, on a grid of side `n`:
//! - *Diffusion*: a cell keeps `1/d` of its mass and gives `1/d` to each of
//!   its present neighbors, where `d` is the neighbor count plus one.  In
//!   weights: every cell's contribution is scaled by `DIFF_SCALE / d`
//!   (`DIFF_SCALE = 60` is divisible by every possible `d`), which keeps the
//!   arithmetic exact.
//! - *Absorption*: the cell's post-diffusion weight is multiplied by
//!   `ABS_SCALE - absorption`, where `absorption / ABS_SCALE` is the cell's
//!   capture efficiency.
//! - *Scale extraction*: the pre-normalization total mass of the step is the
//!   exact fraction `survived_total / (DIFF_SCALE * ABS_SCALE * old_total)`,
//!   returned as a reduced `Scale`.
//! - *Normalization*: implicit — masses are weights over their sum, so the
//!   new weights (divided by their gcd to keep them small) already describe a
//!   unit-total grid.

use vstd::prelude::*;

use crate::math::{
    csum, divides, gcd, lemma_csum_add, lemma_csum_div_le, lemma_csum_elem_le, lemma_csum_ext,
    lemma_csum_guard_dec, lemma_csum_guard_inc, lemma_csum_keep_above, lemma_csum_keep_below,
    lemma_csum_le, lemma_csum_lt, lemma_csum_nonneg, lemma_csum_pos_witness,
    lemma_csum_prefix_le, lemma_csum_rot_dec, lemma_csum_rot_inc, lemma_csum_scale,
    lemma_csum_zero, lemma_div_exact, lemma_divides_transitive, lemma_gcd_properties, wrap_dec,
    wrap_inc,
};
use crate::sampling::draw_below;

verus! {

/// Denominator of a cell's absorption efficiency: an `absorb` field of `e`
/// means the cell captures the fraction `e / ABS_SCALE` of incoming mass.
pub const ABS_SCALE: u64 = 1_000_000;

/// Denominator of the seeding probability handed to `seed_absorbers`.
pub const PROB_SCALE: u64 = 1_000_000;

/// Common multiple of every possible diffusion denominator (3, 4 and 5):
/// diffusing scales all weights by `DIFF_SCALE` so shares stay integral.
pub const DIFF_SCALE: u64 = 60;

/// Largest supported grid side.
pub const MAX_SIDE: usize = 10_000;

/// Largest total weight a grid may carry going into a step: one step scales
/// the total by at most `DIFF_SCALE * ABS_SCALE = 60_000_000`, and that
/// product must still fit in a `u64`; this is `u64::MAX / 60_000_000`,
/// rounded down.
pub const TOTAL_LIMIT: u64 = 307_445_734_561;

/// Which neighbors a cell has at the edge of the grid.
#[derive(Clone, Copy, PartialEq, Eq, Structural, Debug)]
pub enum BoundaryPolicy {
    /// Toroidal: indices wrap, every cell has exactly 4 neighbors.
    Wrap,
    /// Bounded: neighbors outside `[0, n)` are absent (2 at a corner,
    /// 3 on a non-corner edge).
    Clamp,
}

/// One grid site: a mass weight and a fixed absorption efficiency.
#[derive(Clone, Copy, PartialEq, Eq, Structural, Debug)]
pub struct Cell {
    /// Weight of the diffusing mass at this site; the cell's mass is this
    /// weight divided by the sum of all weights.
    pub mass: u64,
    /// Absorption efficiency numerator, at most `ABS_SCALE`.
    pub absorb: u64,
}

/// Why a step could not complete.
#[derive(Clone, Copy, PartialEq, Eq, Structural, Debug)]
pub enum StepError {
    /// Every weight became zero: all mass was absorbed, and renormalizing
    /// would divide by zero.  The grid is left unchanged.
    Extinguished,
    /// The total weight is too large for an exact step within `u64`
    /// arithmetic.  The grid is left unchanged.
    Overflow,
}

/// The pre-normalization total mass of one step, as an exact fraction
/// `num / den` of the pre-step total.
#[derive(Clone, Copy, Debug)]
pub struct Scale {
    pub num: u64,
    pub den: u64,
}

/// Flat index of row `r`, column `c` on a grid of side `n`.
pub open spec fn idx(n: int, r: int, c: int) -> int {
    r * n + c
}

/// The diffusion denominator of a cell: its present-neighbor count plus one.
pub open spec fn degree(p: BoundaryPolicy, n: int, r: int, c: int) -> int {
    match p {
        BoundaryPolicy::Wrap => 5,
        BoundaryPolicy::Clamp => 1 + (if r > 0 {
            1int
        } else {
            0int
        }) + (if r < n - 1 {
            1int
        } else {
            0int
        }) + (if c > 0 {
            1int
        } else {
            0int
        }) + (if c < n - 1 {
            1int
        } else {
            0int
        }),
    }
}

/// Weight each destination receives from the cell: `DIFF_SCALE / d`, the
/// cell's `1/d` share at the common scale.
pub open spec fn coeff(p: BoundaryPolicy, n: int, r: int, c: int) -> int {
    DIFF_SCALE as int / degree(p, n, r, c)
}

/// The scaled share a cell hands to itself and to each present neighbor.
pub open spec fn outflow(p: BoundaryPolicy, n: int, w: Seq<int>, r: int, c: int) -> int {
    w[idx(n, r, c)] * coeff(p, n, r, c)
}

/// What `(r, c)` receives from its northern neighbor, if present.
pub open spec fn from_north(p: BoundaryPolicy, n: int, w: Seq<int>, r: int, c: int) -> int {
    match p {
        BoundaryPolicy::Wrap => outflow(p, n, w, wrap_dec(n, r), c),
        BoundaryPolicy::Clamp => if r > 0 {
            outflow(p, n, w, r - 1, c)
        } else {
            0
        },
    }
}

/// What `(r, c)` receives from its southern neighbor, if present.
pub open spec fn from_south(p: BoundaryPolicy, n: int, w: Seq<int>, r: int, c: int) -> int {
    match p {
        BoundaryPolicy::Wrap => outflow(p, n, w, wrap_inc(n, r), c),
        BoundaryPolicy::Clamp => if r < n - 1 {
            outflow(p, n, w, r + 1, c)
        } else {
            0
        },
    }
}

/// What `(r, c)` receives from its western neighbor, if present.
pub open spec fn from_west(p: BoundaryPolicy, n: int, w: Seq<int>, r: int, c: int) -> int {
    match p {
        BoundaryPolicy::Wrap => outflow(p, n, w, r, wrap_dec(n, c)),
        BoundaryPolicy::Clamp => if c > 0 {
            outflow(p, n, w, r, c - 1)
        } else {
            0
        },
    }
}

/// What `(r, c)` receives from its eastern neighbor, if present.
pub open spec fn from_east(p: BoundaryPolicy, n: int, w: Seq<int>, r: int, c: int) -> int {
    match p {
        BoundaryPolicy::Wrap => outflow(p, n, w, r, wrap_inc(n, c)),
        BoundaryPolicy::Clamp => if c < n - 1 {
            outflow(p, n, w, r, c + 1)
        } else {
            0
        },
    }
}

/// The post-diffusion weight of `(r, c)`, at scale `DIFF_SCALE` relative to
/// the input weights: its own retained share plus what its present neighbors
/// hand it.
pub open spec fn diffused(p: BoundaryPolicy, n: int, w: Seq<int>, r: int, c: int) -> int {
    outflow(p, n, w, r, c) + from_north(p, n, w, r, c) + from_south(p, n, w, r, c) + from_west(
        p,
        n,
        w,
        r,
        c,
    ) + from_east(p, n, w, r, c)
}

/// The post-absorption weight of `(r, c)`, at scale `DIFF_SCALE * ABS_SCALE`:
/// the diffused weight times the fraction the site does not capture.
pub open spec fn survived(
    p: BoundaryPolicy,
    n: int,
    w: Seq<int>,
    a: Seq<int>,
    r: int,
    c: int,
) -> int {
    diffused(p, n, w, r, c) * (ABS_SCALE as int - a[idx(n, r, c)])
}

/// Sum of `f` over all cells of an `n` by `n` grid.
pub open spec fn grid_sum(n: int, f: spec_fn(int, int) -> int) -> int {
    csum(|r: int| csum(|c: int| f(r, c), n), n)
}

/// The total weight of the grid: the denominator of every cell's mass.
pub open spec fn total_mass(n: int, w: Seq<int>) -> int {
    grid_sum(n, |r: int, c: int| w[idx(n, r, c)])
}

/// Total post-diffusion weight, at scale `DIFF_SCALE`.
pub open spec fn diffused_total(p: BoundaryPolicy, n: int, w: Seq<int>) -> int {
    grid_sum(n, |r: int, c: int| diffused(p, n, w, r, c))
}

/// Total post-absorption weight, at scale `DIFF_SCALE * ABS_SCALE`: the
/// numerator of the scale factor a step returns.
pub open spec fn survived_total(p: BoundaryPolicy, n: int, w: Seq<int>, a: Seq<int>) -> int {
    grid_sum(n, |r: int, c: int| survived(p, n, w, a, r, c))
}

/// The normalization contract of a step: for some positive `g`, every
/// post-absorption weight is exactly `g` times the stored new weight, so the
/// new grid holds exactly the normalized post-absorption distribution (the
/// common factor `g` cancels in every mass `weight / total`).
pub open spec fn weights_rescaled(
    p: BoundaryPolicy,
    n: int,
    w: Seq<int>,
    a: Seq<int>,
    w_new: Seq<int>,
    g: int,
) -> bool {
    &&& g >= 1
    &&& w_new.len() == w.len()
    &&& forall|r: int, c: int|
        0 <= r < n && 0 <= c < n ==> survived(p, n, w, a, r, c) == g * #[trigger] w_new[idx(
            n,
            r,
            c,
        )]
}

/// Two functions that agree on the grid have the same grid sum.
proof fn lemma_grid_sum_ext(n: int, f: spec_fn(int, int) -> int, g: spec_fn(int, int) -> int)
    requires
        forall|r: int, c: int| 0 <= r < n && 0 <= c < n ==> #[trigger] f(r, c) == g(r, c),
    ensures
        grid_sum(n, f) == grid_sum(n, g),
{
    let fr = |r: int| csum(|c: int| f(r, c), n);
    let gr = |r: int| csum(|c: int| g(r, c), n);
    assert forall|r: int| 0 <= r < n implies #[trigger] fr(r) == gr(r) by {
        lemma_csum_ext(|c: int| f(r, c), |c: int| g(r, c), n);
    }
    lemma_csum_ext(fr, gr, n);
}

/// A pointwise sum of two functions has the sum of their grid sums.
proof fn lemma_grid_sum_add(
    n: int,
    f: spec_fn(int, int) -> int,
    g: spec_fn(int, int) -> int,
    h: spec_fn(int, int) -> int,
)
    requires
        forall|r: int, c: int| 0 <= r < n && 0 <= c < n ==> #[trigger] h(r, c) == f(r, c) + g(
            r,
            c,
        ),
    ensures
        grid_sum(n, h) == grid_sum(n, f) + grid_sum(n, g),
{
    let fr = |r: int| csum(|c: int| f(r, c), n);
    let gr = |r: int| csum(|c: int| g(r, c), n);
    let hr = |r: int| csum(|c: int| h(r, c), n);
    assert forall|r: int| 0 <= r < n implies #[trigger] hr(r) == fr(r) + gr(r) by {
        lemma_csum_add(|c: int| f(r, c), |c: int| g(r, c), |c: int| h(r, c), n);
    }
    lemma_csum_add(fr, gr, hr, n);
}

/// A constant factor moves out of a grid sum.
proof fn lemma_grid_sum_scale(
    n: int,
    f: spec_fn(int, int) -> int,
    g: spec_fn(int, int) -> int,
    k: int,
)
    requires
        forall|r: int, c: int| 0 <= r < n && 0 <= c < n ==> #[trigger] g(r, c) == k * f(r, c),
    ensures
        grid_sum(n, g) == k * grid_sum(n, f),
{
    let fr = |r: int| csum(|c: int| f(r, c), n);
    let gr = |r: int| csum(|c: int| g(r, c), n);
    assert forall|r: int| 0 <= r < n implies #[trigger] gr(r) == k * fr(r) by {
        lemma_csum_scale(|c: int| f(r, c), |c: int| g(r, c), k, n);
    }
    lemma_csum_scale(fr, gr, k, n);
}

/// A grid sum of nonnegative values is nonnegative.
proof fn lemma_grid_sum_nonneg(n: int, f: spec_fn(int, int) -> int)
    requires
        forall|r: int, c: int| 0 <= r < n && 0 <= c < n ==> #[trigger] f(r, c) >= 0,
    ensures
        grid_sum(n, f) >= 0,
{
    let fr = |r: int| csum(|c: int| f(r, c), n);
    assert forall|r: int| 0 <= r < n implies #[trigger] fr(r) >= 0 by {
        lemma_csum_nonneg(|c: int| f(r, c), n);
    }
    lemma_csum_nonneg(fr, n);
}

/// Grid sums respect a pointwise bound.
proof fn lemma_grid_sum_le(n: int, f: spec_fn(int, int) -> int, g: spec_fn(int, int) -> int)
    requires
        forall|r: int, c: int| 0 <= r < n && 0 <= c < n ==> #[trigger] f(r, c) <= g(r, c),
    ensures
        grid_sum(n, f) <= grid_sum(n, g),
{
    let fr = |r: int| csum(|c: int| f(r, c), n);
    let gr = |r: int| csum(|c: int| g(r, c), n);
    assert forall|r: int| 0 <= r < n implies #[trigger] fr(r) <= gr(r) by {
        lemma_csum_le(|c: int| f(r, c), |c: int| g(r, c), n);
    }
    lemma_csum_le(fr, gr, n);
}

/// A pointwise bound that is strict at one cell makes grid sums strictly
/// ordered.
proof fn lemma_grid_sum_lt(
    n: int,
    f: spec_fn(int, int) -> int,
    g: spec_fn(int, int) -> int,
    r0: int,
    c0: int,
)
    requires
        forall|r: int, c: int| 0 <= r < n && 0 <= c < n ==> #[trigger] f(r, c) <= g(r, c),
        0 <= r0 < n,
        0 <= c0 < n,
        f(r0, c0) < g(r0, c0),
    ensures
        grid_sum(n, f) < grid_sum(n, g),
{
    let fr = |r: int| csum(|c: int| f(r, c), n);
    let gr = |r: int| csum(|c: int| g(r, c), n);
    assert forall|r: int| 0 <= r < n implies #[trigger] fr(r) <= gr(r) by {
        lemma_csum_le(|c: int| f(r, c), |c: int| g(r, c), n);
    }
    lemma_csum_lt(|c: int| f(r0, c), |c: int| g(r0, c), n, c0);
    lemma_csum_lt(fr, gr, n, r0);
}

/// In a nonnegative grid, each cell's value is at most the grid sum.
proof fn lemma_grid_sum_elem_le(n: int, f: spec_fn(int, int) -> int, r0: int, c0: int)
    requires
        forall|r: int, c: int| 0 <= r < n && 0 <= c < n ==> #[trigger] f(r, c) >= 0,
        0 <= r0 < n,
        0 <= c0 < n,
    ensures
        f(r0, c0) <= grid_sum(n, f),
{
    let fr = |r: int| csum(|c: int| f(r, c), n);
    assert forall|r: int| 0 <= r < n implies #[trigger] fr(r) >= 0 by {
        lemma_csum_nonneg(|c: int| f(r, c), n);
    }
    lemma_csum_elem_le(|c: int| f(r0, c), n, c0);
    lemma_csum_elem_le(fr, n, r0);
}

/// A sum over flat indices `0..n*n` equals the nested grid sum, when the flat
/// function reads the grid at `(k / n, k % n)`.
proof fn lemma_grid_sum_flat_row(
    n: int,
    f: spec_fn(int, int) -> int,
    g: spec_fn(int) -> int,
    r: int,
    c: int,
)
    requires
        n >= 1,
        0 <= r < n,
        0 <= c <= n,
        forall|k: int| 0 <= k < n * n ==> #[trigger] g(k) == f(k / n, k % n),
    ensures
        csum(g, r * n + c) == csum(g, r * n) + csum(|cc: int| f(r, cc), c),
    decreases c,
{
    if c > 0 {
        lemma_grid_sum_flat_row(n, f, g, r, c - 1);
        let k = r * n + (c - 1);
        assert(0 <= k < n * n) by (nonlinear_arith)
            requires
                0 <= r < n,
                0 <= c - 1 < n,
                k == r * n + (c - 1),
        ;
        vstd::arithmetic::div_mod::lemma_fundamental_div_mod_converse(k, n, r, c - 1);
    }
}

proof fn lemma_grid_sum_flat_rows(n: int, f: spec_fn(int, int) -> int, g: spec_fn(int) -> int, r: int)
    requires
        n >= 1,
        0 <= r <= n,
        forall|k: int| 0 <= k < n * n ==> #[trigger] g(k) == f(k / n, k % n),
    ensures
        csum(g, r * n) == csum(|rr: int| csum(|cc: int| f(rr, cc), n), r),
    decreases r,
{
    let fr = |rr: int| csum(|cc: int| f(rr, cc), n);
    if r > 0 {
        lemma_grid_sum_flat_rows(n, f, g, r - 1);
        lemma_grid_sum_flat_row(n, f, g, r - 1, n);
        assert((r - 1) * n + n == r * n) by (nonlinear_arith);
        assert(csum(fr, r) == csum(fr, r - 1) + fr(r - 1));
        assert(fr(r - 1) == csum(|cc: int| f(r - 1, cc), n));
    } else {
        assert(r * n == 0) by (nonlinear_arith)
            requires
                r == 0,
        ;
    }
}

/// The bridge between flat iteration and the nested grid sum.
proof fn lemma_grid_sum_flat(n: int, f: spec_fn(int, int) -> int, g: spec_fn(int) -> int)
    requires
        n >= 1,
        forall|k: int| 0 <= k < n * n ==> #[trigger] g(k) == f(k / n, k % n),
    ensures
        csum(g, n * n) == grid_sum(n, f),
{
    lemma_grid_sum_flat_rows(n, f, g, n);
}

/// On a grid of side at least 2, every cell's diffusion denominator is 3, 4
/// or 5, and the per-neighbor share times the denominator is exactly
/// `DIFF_SCALE`.
pub proof fn lemma_degree_bounds(p: BoundaryPolicy, n: int, r: int, c: int)
    requires
        n >= 2,
        0 <= r < n,
        0 <= c < n,
    ensures
        3 <= degree(p, n, r, c) <= 5,
        coeff(p, n, r, c) * degree(p, n, r, c) == DIFF_SCALE as int,
        coeff(p, n, r, c) >= 12,
{
    let d = degree(p, n, r, c);
    assert(3 <= d <= 5);
    if d == 3 {
        assert(60int / 3 == 20);
    } else if d == 4 {
        assert(60int / 4 == 15);
    } else {
        assert(60int / 5 == 12);
    }
}

/// Conservation of the diffusion sub-step: summed over the grid, the
/// post-diffusion weights are exactly `DIFF_SCALE` times the pre-step total.
/// Every share a cell gives up is received, in full, by one of its `d`
/// destinations.
pub proof fn lemma_diffusion_conserves(p: BoundaryPolicy, n: int, w: Seq<int>)
    requires
        n >= 2,
        w.len() == n * n,
    ensures
        diffused_total(p, n, w) == DIFF_SCALE as int * total_mass(n, w),
{
    let out = |r: int, c: int| outflow(p, n, w, r, c);
    let fno = |r: int, c: int| from_north(p, n, w, r, c);
    let fso = |r: int, c: int| from_south(p, n, w, r, c);
    let fwe = |r: int, c: int| from_west(p, n, w, r, c);
    let fea = |r: int, c: int| from_east(p, n, w, r, c);

    // Guarded forms: each direction's receipts, re-indexed to the senders.
    let gno = |r: int, c: int|
        if p is Wrap || r < n - 1 {
            out(r, c)
        } else {
            0
        };
    let gso = |r: int, c: int|
        if p is Wrap || r > 0 {
            out(r, c)
        } else {
            0
        };
    let gwe = |r: int, c: int|
        if p is Wrap || c < n - 1 {
            out(r, c)
        } else {
            0
        };
    let gea = |r: int, c: int|
        if p is Wrap || c > 0 {
            out(r, c)
        } else {
            0
        };

    let out_row = |r: int| csum(|c: int| out(r, c), n);

    // North: what each row receives from the row above it.
    let fno_row = |r: int| csum(|c: int| fno(r, c), n);
    let gno_row = |r: int| csum(|c: int| gno(r, c), n);
    match p {
        BoundaryPolicy::Wrap => {
            assert forall|r: int| 0 <= r < n implies #[trigger] fno_row(r) == out_row(
                wrap_dec(n, r),
            ) by {
                lemma_csum_ext(|c: int| fno(r, c), |c: int| out(wrap_dec(n, r), c), n);
            }
            lemma_csum_rot_dec(out_row, fno_row, n);
            assert forall|r: int| 0 <= r < n implies #[trigger] gno_row(r) == out_row(r) by {
                lemma_csum_ext(|c: int| gno(r, c), |c: int| out(r, c), n);
            }
            lemma_csum_ext(gno_row, out_row, n);
        },
        BoundaryPolicy::Clamp => {
            assert forall|r: int| 0 <= r < n implies #[trigger] fno_row(r) == (if r > 0 {
                out_row(r - 1)
            } else {
                0
            }) by {
                if r > 0 {
                    lemma_csum_ext(|c: int| fno(r, c), |c: int| out(r - 1, c), n);
                } else {
                    lemma_csum_zero(|c: int| fno(r, c), n);
                }
            }
            lemma_csum_guard_dec(out_row, fno_row, n);
            assert forall|r: int| 0 <= r < n implies #[trigger] gno_row(r) == (if r < n - 1 {
                out_row(r)
            } else {
                0
            }) by {
                if r < n - 1 {
                    lemma_csum_ext(|c: int| gno(r, c), |c: int| out(r, c), n);
                } else {
                    lemma_csum_zero(|c: int| gno(r, c), n);
                }
            }
            lemma_csum_keep_below(out_row, gno_row, n);
        },
    }
    assert(grid_sum(n, fno) == grid_sum(n, gno));

    // South: what each row receives from the row below it.
    let fso_row = |r: int| csum(|c: int| fso(r, c), n);
    let gso_row = |r: int| csum(|c: int| gso(r, c), n);
    match p {
        BoundaryPolicy::Wrap => {
            assert forall|r: int| 0 <= r < n implies #[trigger] fso_row(r) == out_row(
                wrap_inc(n, r),
            ) by {
                lemma_csum_ext(|c: int| fso(r, c), |c: int| out(wrap_inc(n, r), c), n);
            }
            lemma_csum_rot_inc(out_row, fso_row, n);
            assert forall|r: int| 0 <= r < n implies #[trigger] gso_row(r) == out_row(r) by {
                lemma_csum_ext(|c: int| gso(r, c), |c: int| out(r, c), n);
            }
            lemma_csum_ext(gso_row, out_row, n);
        },
        BoundaryPolicy::Clamp => {
            assert forall|r: int| 0 <= r < n implies #[trigger] fso_row(r) == (if r < n - 1 {
                out_row(r + 1)
            } else {
                0
            }) by {
                if r < n - 1 {
                    lemma_csum_ext(|c: int| fso(r, c), |c: int| out(r + 1, c), n);
                } else {
                    lemma_csum_zero(|c: int| fso(r, c), n);
                }
            }
            lemma_csum_guard_inc(out_row, fso_row, n);
            assert forall|r: int| 0 <= r < n implies #[trigger] gso_row(r) == (if r > 0 {
                out_row(r)
            } else {
                0
            }) by {
                if r > 0 {
                    lemma_csum_ext(|c: int| gso(r, c), |c: int| out(r, c), n);
                } else {
                    lemma_csum_zero(|c: int| gso(r, c), n);
                }
            }
            lemma_csum_keep_above(out_row, gso_row, n);
        },
    }
    assert(grid_sum(n, fso) == grid_sum(n, gso));

    // West and east shift within each row; rows line up one by one.
    let fwe_row = |r: int| csum(|c: int| fwe(r, c), n);
    let gwe_row = |r: int| csum(|c: int| gwe(r, c), n);
    assert forall|r: int| 0 <= r < n implies #[trigger] fwe_row(r) == gwe_row(r) by {
        match p {
            BoundaryPolicy::Wrap => {
                lemma_csum_rot_dec(|c: int| out(r, c), |c: int| fwe(r, c), n);
                lemma_csum_ext(|c: int| gwe(r, c), |c: int| out(r, c), n);
            },
            BoundaryPolicy::Clamp => {
                lemma_csum_guard_dec(|c: int| out(r, c), |c: int| fwe(r, c), n);
                lemma_csum_keep_below(|c: int| out(r, c), |c: int| gwe(r, c), n);
            },
        }
    }
    lemma_csum_ext(fwe_row, gwe_row, n);
    assert(grid_sum(n, fwe) == grid_sum(n, gwe));

    let fea_row = |r: int| csum(|c: int| fea(r, c), n);
    let gea_row = |r: int| csum(|c: int| gea(r, c), n);
    assert forall|r: int| 0 <= r < n implies #[trigger] fea_row(r) == gea_row(r) by {
        match p {
            BoundaryPolicy::Wrap => {
                lemma_csum_rot_inc(|c: int| out(r, c), |c: int| fea(r, c), n);
                lemma_csum_ext(|c: int| gea(r, c), |c: int| out(r, c), n);
            },
            BoundaryPolicy::Clamp => {
                lemma_csum_guard_inc(|c: int| out(r, c), |c: int| fea(r, c), n);
                lemma_csum_keep_above(|c: int| out(r, c), |c: int| gea(r, c), n);
            },
        }
    }
    lemma_csum_ext(fea_row, gea_row, n);
    assert(grid_sum(n, fea) == grid_sum(n, gea));

    // Reassemble: the five pieces sum, cell by cell, to outflow times degree.
    let dif = |r: int, c: int| diffused(p, n, w, r, c);
    let s2 = |r: int, c: int| out(r, c) + gno(r, c);
    let s3 = |r: int, c: int| s2(r, c) + gso(r, c);
    let s4 = |r: int, c: int| s3(r, c) + gwe(r, c);
    let s5 = |r: int, c: int| s4(r, c) + gea(r, c);
    let d2 = |r: int, c: int| out(r, c) + fno(r, c);
    let d3 = |r: int, c: int| d2(r, c) + fso(r, c);
    let d4 = |r: int, c: int| d3(r, c) + fwe(r, c);
    lemma_grid_sum_add(n, out, gno, s2);
    lemma_grid_sum_add(n, s2, gso, s3);
    lemma_grid_sum_add(n, s3, gwe, s4);
    lemma_grid_sum_add(n, s4, gea, s5);
    lemma_grid_sum_add(n, out, fno, d2);
    lemma_grid_sum_add(n, d2, fso, d3);
    lemma_grid_sum_add(n, d3, fwe, d4);
    lemma_grid_sum_add(n, d4, fea, dif);
    assert(grid_sum(n, s5) == grid_sum(n, dif));

    // Pointwise, the reassembled sum is the weight times DIFF_SCALE.
    let scaled = |r: int, c: int| DIFF_SCALE as int * w[idx(n, r, c)];
    assert forall|r: int, c: int| 0 <= r < n && 0 <= c < n implies #[trigger] s5(r, c) == scaled(
        r,
        c,
    ) by {
        lemma_degree_bounds(p, n, r, c);
        let d = degree(p, n, r, c);
        let k = coeff(p, n, r, c);
        let o = out(r, c);
        let a1: int = if p is Wrap || r < n - 1 {
            1
        } else {
            0
        };
        let a2: int = if p is Wrap || r > 0 {
            1
        } else {
            0
        };
        let a3: int = if p is Wrap || c < n - 1 {
            1
        } else {
            0
        };
        let a4: int = if p is Wrap || c > 0 {
            1
        } else {
            0
        };
        assert(gno(r, c) == a1 * o);
        assert(gso(r, c) == a2 * o);
        assert(gwe(r, c) == a3 * o);
        assert(gea(r, c) == a4 * o);
        assert(d == 1 + a1 + a2 + a3 + a4);
        assert(s5(r, c) == o + a1 * o + a2 * o + a3 * o + a4 * o);
        assert(o + a1 * o + a2 * o + a3 * o + a4 * o == d * o) by (nonlinear_arith)
            requires
                d == 1 + a1 + a2 + a3 + a4,
        ;
        assert(d * (w[idx(n, r, c)] * k) == DIFF_SCALE as int * w[idx(n, r, c)])
            by (nonlinear_arith)
            requires
                k * d == DIFF_SCALE as int,
        ;
    }
    lemma_grid_sum_ext(n, s5, scaled);
    lemma_grid_sum_scale(n, |r: int, c: int| w[idx(n, r, c)], scaled, DIFF_SCALE as int);
}

/// A row-major index is in range exactly when its row and column are.
proof fn lemma_idx_range(n: int, r: int, c: int)
    requires
        n >= 1,
        0 <= r < n,
        0 <= c < n,
    ensures
        0 <= idx(n, r, c) < n * n,
        idx(n, r, c) / n == r,
        idx(n, r, c) % n == c,
{
    assert(0 <= r * n + c < n * n) by (nonlinear_arith)
        requires
            n >= 1,
            0 <= r < n,
            0 <= c < n,
    ;
    vstd::arithmetic::div_mod::lemma_fundamental_div_mod_converse(r * n + c, n, r, c);
}

/// On a side of at most `MAX_SIDE`, every flat index also fits comfortably in
/// a `usize`.
proof fn lemma_idx_fits(n: int, r: int, c: int)
    requires
        1 <= n <= MAX_SIDE as int,
        0 <= r < n,
        0 <= c < n,
    ensures
        0 <= idx(n, r, c) < n * n,
        n * n <= 100_000_000,
        idx(n, r, c) / n == r,
        idx(n, r, c) % n == c,
{
    lemma_idx_range(n, r, c);
    assert(n * n <= 100_000_000) by (nonlinear_arith)
        requires
            1 <= n <= 10_000,
    ;
}

/// Coordinates recovered from a flat index.
proof fn lemma_flat_coords(n: int, i: int)
    requires
        n >= 1,
        0 <= i < n * n,
    ensures
        0 <= i / n < n,
        0 <= i % n < n,
        idx(n, i / n, i % n) == i,
{
    vstd::arithmetic::div_mod::lemma_fundamental_div_mod(i, n);
    vstd::arithmetic::div_mod::lemma_mod_division_less_than_divisor(i, n);
    assert(0 <= i / n < n) by (nonlinear_arith)
        requires
            n >= 1,
            0 <= i < n * n,
            i == n * (i / n) + i % n,
            0 <= i % n < n,
    ;
    assert((i / n) * n == n * (i / n)) by (nonlinear_arith);
}

/// A grid sum of an everywhere-zero function is zero.
proof fn lemma_grid_sum_zero(n: int, f: spec_fn(int, int) -> int)
    requires
        forall|r: int, c: int| 0 <= r < n && 0 <= c < n ==> #[trigger] f(r, c) == 0,
    ensures
        grid_sum(n, f) == 0,
{
    let fr = |r: int| csum(|c: int| f(r, c), n);
    assert forall|r: int| 0 <= r < n implies #[trigger] fr(r) == 0 by {
        lemma_csum_zero(|c: int| f(r, c), n);
    }
    lemma_csum_zero(fr, n);
}

/// The share an in-range cell hands out is nonnegative and at most twenty
/// times its weight.
proof fn lemma_outflow_bounds(p: BoundaryPolicy, n: int, w: Seq<int>, r: int, c: int)
    requires
        n >= 2,
        w.len() == n * n,
        forall|i: int| 0 <= i < w.len() ==> #[trigger] w[i] >= 0,
        0 <= r < n,
        0 <= c < n,
    ensures
        0 <= outflow(p, n, w, r, c),
{
    lemma_degree_bounds(p, n, r, c);
    lemma_idx_range(n, r, c);
    let m = w[idx(n, r, c)];
    let k = coeff(p, n, r, c);
    assert(m * k >= 0) by (nonlinear_arith)
        requires
            m >= 0,
            k >= 12,
    ;
}

/// Pointwise facts about one step's intermediate values: post-diffusion and
/// post-absorption weights are nonnegative, and absorption removes at most
/// everything.
proof fn lemma_pointwise_bounds(p: BoundaryPolicy, n: int, w: Seq<int>, a: Seq<int>)
    requires
        n >= 2,
        w.len() == n * n,
        a.len() == n * n,
        forall|i: int| 0 <= i < w.len() ==> #[trigger] w[i] >= 0,
        forall|i: int| 0 <= i < a.len() ==> 0 <= #[trigger] a[i] <= ABS_SCALE as int,
    ensures
        forall|r: int, c: int|
            0 <= r < n && 0 <= c < n ==> #[trigger] diffused(p, n, w, r, c) >= 0,
        forall|r: int, c: int|
            0 <= r < n && 0 <= c < n ==> #[trigger] survived(p, n, w, a, r, c) >= 0,
        forall|r: int, c: int|
            0 <= r < n && 0 <= c < n ==> #[trigger] survived(p, n, w, a, r, c) <= ABS_SCALE as int
                * diffused(p, n, w, r, c),
{
    assert forall|r: int, c: int|
        0 <= r < n && 0 <= c < n implies #[trigger] diffused(p, n, w, r, c) >= 0 by {
        lemma_outflow_bounds(p, n, w, r, c);
        if p is Wrap {
            lemma_outflow_bounds(p, n, w, wrap_dec(n, r), c);
            lemma_outflow_bounds(p, n, w, wrap_inc(n, r), c);
            lemma_outflow_bounds(p, n, w, r, wrap_dec(n, c));
            lemma_outflow_bounds(p, n, w, r, wrap_inc(n, c));
        } else {
            if r > 0 {
                lemma_outflow_bounds(p, n, w, r - 1, c);
            }
            if r < n - 1 {
                lemma_outflow_bounds(p, n, w, r + 1, c);
            }
            if c > 0 {
                lemma_outflow_bounds(p, n, w, r, c - 1);
            }
            if c < n - 1 {
                lemma_outflow_bounds(p, n, w, r, c + 1);
            }
        }
    }
    assert forall|r: int, c: int|
        0 <= r < n && 0 <= c < n implies #[trigger] survived(p, n, w, a, r, c) >= 0 && survived(
        p,
        n,
        w,
        a,
        r,
        c,
    ) <= ABS_SCALE as int * diffused(p, n, w, r, c) by {
        lemma_idx_range(n, r, c);
        let u = diffused(p, n, w, r, c);
        let keep = ABS_SCALE as int - a[idx(n, r, c)];
        assert(u * keep >= 0 && u * keep <= ABS_SCALE as int * u) by (nonlinear_arith)
            requires
                u >= 0,
                0 <= keep <= ABS_SCALE as int,
        ;
    }
}

/// Totals of one step's intermediate values: diffusion is conservative, and
/// absorption keeps the total between zero and the full diffused total.
proof fn lemma_step_totals(p: BoundaryPolicy, n: int, w: Seq<int>, a: Seq<int>)
    requires
        n >= 2,
        w.len() == n * n,
        a.len() == n * n,
        forall|i: int| 0 <= i < w.len() ==> #[trigger] w[i] >= 0,
        forall|i: int| 0 <= i < a.len() ==> 0 <= #[trigger] a[i] <= ABS_SCALE as int,
    ensures
        diffused_total(p, n, w) == DIFF_SCALE as int * total_mass(n, w),
        survived_total(p, n, w, a) >= 0,
        survived_total(p, n, w, a) <= ABS_SCALE as int * diffused_total(p, n, w),
{
    lemma_diffusion_conserves(p, n, w);
    lemma_pointwise_bounds(p, n, w, a);
    let sur = |r: int, c: int| survived(p, n, w, a, r, c);
    let dif = |r: int, c: int| diffused(p, n, w, r, c);
    let cap = |r: int, c: int| ABS_SCALE as int * dif(r, c);
    lemma_grid_sum_nonneg(n, sur);
    lemma_grid_sum_le(n, sur, cap);
    lemma_grid_sum_scale(n, dif, cap, ABS_SCALE as int);
}

/// The exact sum of two fractions, numerator and denominator.
pub open spec fn frac_add(x: (int, int), y: (int, int)) -> (int, int) {
    (x.0 * y.1 + y.0 * x.1, x.1 * y.1)
}

/// Equality of two fractions, by cross-multiplication.
pub open spec fn frac_eq(x: (int, int), y: (int, int)) -> bool {
    x.0 * y.1 == y.0 * x.1
}

/// The exact rational sum of the first `k` cell masses, each the fraction
/// `w[i] / t`.
pub open spec fn mass_sum(w: Seq<int>, t: int, k: int) -> (int, int)
    decreases k,
{
    if k <= 0 {
        (0int, 1int)
    } else {
        frac_add(mass_sum(w, t, k - 1), (w[k - 1], t))
    }
}

proof fn lemma_mass_sum_partial(w: Seq<int>, t: int, k: int)
    requires
        t > 0,
        0 <= k,
    ensures
        mass_sum(w, t, k).1 >= 1,
        mass_sum(w, t, k).0 * t == csum(|i: int| w[i], k) * mass_sum(w, t, k).1,
    decreases k,
{
    let f = |i: int| w[i];
    if k == 0 {
        assert(mass_sum(w, t, 0) == (0int, 1int));
        assert(0int * t == 0) by (nonlinear_arith);
        assert(csum(f, 0) == 0);
        assert(csum(f, 0) * 1 == 0) by (nonlinear_arith)
            requires
                csum(f, 0) == 0,
        ;
    } else {
        lemma_mass_sum_partial(w, t, k - 1);
        let prev = mass_sum(w, t, k - 1);
        let cur = mass_sum(w, t, k);
        assert(cur == (prev.0 * t + w[k - 1] * prev.1, prev.1 * t));
        assert(csum(f, k) == csum(f, k - 1) + f(k - 1));
        assert(cur.1 >= 1) by (nonlinear_arith)
            requires
                prev.1 >= 1,
                t > 0,
                cur.1 == prev.1 * t,
        ;
        assert((prev.0 * t + w[k - 1] * prev.1) * t == (csum(f, k - 1) + w[k - 1]) * (prev.1 * t))
            by (nonlinear_arith)
            requires
                prev.0 * t == csum(f, k - 1) * prev.1,
        ;
        assert(cur.0 * t == (csum(f, k - 1) + w[k - 1]) * cur.1);
        assert(f(k - 1) == w[k - 1]);
        assert(csum(f, k) == csum(f, k - 1) + w[k - 1]);
        assert(cur.0 * t == csum(f, k) * cur.1);
    }
}

/// Post-step normalization: in a grid with positive total weight, the cell
/// masses — each weight over the total — sum to exactly one.
pub proof fn lemma_masses_sum_to_one(n: int, w: Seq<int>)
    requires
        n >= 1,
        w.len() == n * n,
        total_mass(n, w) > 0,
    ensures
        frac_eq(mass_sum(w, total_mass(n, w), n * n), (1int, 1int)),
{
    let t = total_mass(n, w);
    let wflat = |k: int| w[k];
    assert forall|k: int| 0 <= k < n * n implies #[trigger] wflat(k) == w[idx(n, k / n, k % n)] by {
        lemma_flat_coords(n, k);
    }
    lemma_grid_sum_flat(n, |r: int, c: int| w[idx(n, r, c)], wflat);
    lemma_mass_sum_partial(w, t, n * n);
    let s = mass_sum(w, t, n * n);
    assert(s.0 * t == t * s.1);
    assert(s.0 * 1 == 1 * s.1) by (nonlinear_arith)
        requires
            s.0 * t == t * s.1,
            t > 0,
    ;
}

/// Boundary denominators: under `Clamp` a corner cell redistributes with
/// `d = 3`, a non-corner edge cell with `d = 4` and an interior cell with
/// `d = 5`; under `Wrap` every cell uses `d = 5` regardless of position.
pub proof fn lemma_boundary_denominators(p: BoundaryPolicy, n: int, r: int, c: int)
    requires
        n >= 2,
        0 <= r < n,
        0 <= c < n,
    ensures
        p is Wrap ==> degree(p, n, r, c) == 5,
        p is Clamp && (r == 0 || r == n - 1) && (c == 0 || c == n - 1) ==> degree(p, n, r, c)
            == 3,
        p is Clamp && (r == 0 || r == n - 1) && !(c == 0 || c == n - 1) ==> degree(p, n, r, c)
            == 4,
        p is Clamp && !(r == 0 || r == n - 1) && (c == 0 || c == n - 1) ==> degree(p, n, r, c)
            == 4,
        p is Clamp && !(r == 0 || r == n - 1) && !(c == 0 || c == n - 1) ==> degree(p, n, r, c)
            == 5,
{
}

/// With no absorbers anywhere, absorption removes nothing: the survived total
/// is the whole rescaled pre-step total, so the scale factor a step reports is
/// exactly one.
pub proof fn lemma_no_absorption_scale_is_one(p: BoundaryPolicy, n: int, w: Seq<int>, a: Seq<int>)
    requires
        n >= 2,
        w.len() == n * n,
        a.len() == n * n,
        forall|i: int| 0 <= i < a.len() ==> #[trigger] a[i] == 0,
    ensures
        survived_total(p, n, w, a) == DIFF_SCALE as int * ABS_SCALE as int * total_mass(n, w),
{
    lemma_diffusion_conserves(p, n, w);
    let sur = |r: int, c: int| survived(p, n, w, a, r, c);
    let dif = |r: int, c: int| diffused(p, n, w, r, c);
    let cap = |r: int, c: int| ABS_SCALE as int * dif(r, c);
    assert forall|r: int, c: int| 0 <= r < n && 0 <= c < n implies #[trigger] sur(r, c) == cap(
        r,
        c,
    ) by {
        lemma_idx_range(n, r, c);
        assert(a[idx(n, r, c)] == 0);
    }
    lemma_grid_sum_ext(n, sur, cap);
    lemma_grid_sum_scale(n, dif, cap, ABS_SCALE as int);
    assert(ABS_SCALE as int * (DIFF_SCALE as int * total_mass(n, w)) == DIFF_SCALE as int
        * ABS_SCALE as int * total_mass(n, w)) by (nonlinear_arith);
}

/// Monotonic decay under absorption: if some cell has positive absorption and
/// receives a positive post-diffusion weight, the survived total falls
/// strictly short of the no-absorption total — the scale factor a step
/// reports is strictly less than one.
pub proof fn lemma_absorption_strictly_decays(
    p: BoundaryPolicy,
    n: int,
    w: Seq<int>,
    a: Seq<int>,
    r0: int,
    c0: int,
)
    requires
        n >= 2,
        w.len() == n * n,
        a.len() == n * n,
        forall|i: int| 0 <= i < w.len() ==> #[trigger] w[i] >= 0,
        forall|i: int| 0 <= i < a.len() ==> 0 <= #[trigger] a[i] <= ABS_SCALE as int,
        0 <= r0 < n,
        0 <= c0 < n,
        a[idx(n, r0, c0)] > 0,
        diffused(p, n, w, r0, c0) > 0,
    ensures
        survived_total(p, n, w, a) < DIFF_SCALE as int * ABS_SCALE as int * total_mass(n, w),
{
    lemma_diffusion_conserves(p, n, w);
    lemma_pointwise_bounds(p, n, w, a);
    let sur = |r: int, c: int| survived(p, n, w, a, r, c);
    let dif = |r: int, c: int| diffused(p, n, w, r, c);
    let cap = |r: int, c: int| ABS_SCALE as int * dif(r, c);
    assert forall|r: int, c: int| 0 <= r < n && 0 <= c < n implies #[trigger] sur(r, c) <= cap(
        r,
        c,
    ) by {}
    lemma_idx_range(n, r0, c0);
    let u = diffused(p, n, w, r0, c0);
    assert(u * (ABS_SCALE as int - a[idx(n, r0, c0)]) < ABS_SCALE as int * u) by (nonlinear_arith)
        requires
            u > 0,
            a[idx(n, r0, c0)] > 0,
    ;
    lemma_grid_sum_lt(n, sur, cap, r0, c0);
    lemma_grid_sum_scale(n, dif, cap, ABS_SCALE as int);
    assert(ABS_SCALE as int * (DIFF_SCALE as int * total_mass(n, w)) == DIFF_SCALE as int
        * ABS_SCALE as int * total_mass(n, w)) by (nonlinear_arith);
}

/// The scale a step returns, on a grid with mass and no absorbers, is exactly
/// one.  The two scale premises are what `step` ensures of its `Ok` result.
pub proof fn lemma_step_scale_is_one(
    p: BoundaryPolicy,
    n: int,
    w: Seq<int>,
    a: Seq<int>,
    s: Scale,
)
    requires
        n >= 2,
        w.len() == n * n,
        a.len() == n * n,
        forall|i: int| 0 <= i < a.len() ==> #[trigger] a[i] == 0,
        total_mass(n, w) > 0,
        s.den as int > 0,
        s.num as int * (DIFF_SCALE as int * ABS_SCALE as int * total_mass(n, w))
            == survived_total(p, n, w, a) * s.den as int,
    ensures
        s.num == s.den,
{
    lemma_no_absorption_scale_is_one(p, n, w, a);
    let x = DIFF_SCALE as int * ABS_SCALE as int * total_mass(n, w);
    assert(x > 0) by (nonlinear_arith)
        requires
            total_mass(n, w) > 0,
            x == DIFF_SCALE as int * ABS_SCALE as int * total_mass(n, w),
    ;
    assert(s.num as int == s.den as int) by (nonlinear_arith)
        requires
            s.num as int * x == x * s.den as int,
            x > 0,
    ;
}

/// The scale a step returns is strictly below one whenever some cell with
/// positive absorption receives a positive post-diffusion weight.  The two
/// scale premises are what `step` ensures of its `Ok` result.
pub proof fn lemma_step_scale_below_one(
    p: BoundaryPolicy,
    n: int,
    w: Seq<int>,
    a: Seq<int>,
    r0: int,
    c0: int,
    s: Scale,
)
    requires
        n >= 2,
        w.len() == n * n,
        a.len() == n * n,
        forall|i: int| 0 <= i < w.len() ==> #[trigger] w[i] >= 0,
        forall|i: int| 0 <= i < a.len() ==> 0 <= #[trigger] a[i] <= ABS_SCALE as int,
        0 <= r0 < n,
        0 <= c0 < n,
        a[idx(n, r0, c0)] > 0,
        diffused(p, n, w, r0, c0) > 0,
        s.den as int > 0,
        s.num as int * (DIFF_SCALE as int * ABS_SCALE as int * total_mass(n, w))
            == survived_total(p, n, w, a) * s.den as int,
    ensures
        s.num < s.den,
{
    lemma_absorption_strictly_decays(p, n, w, a, r0, c0);
    lemma_diffusion_conserves(p, n, w);
    lemma_pointwise_bounds(p, n, w, a);
    lemma_grid_sum_elem_le(n, |r: int, c: int| diffused(p, n, w, r, c), r0, c0);
    assert(total_mass(n, w) > 0) by (nonlinear_arith)
        requires
            DIFF_SCALE as int * total_mass(n, w) > 0,
    ;
    let x = DIFF_SCALE as int * ABS_SCALE as int * total_mass(n, w);
    let st = survived_total(p, n, w, a);
    assert(x > 0) by (nonlinear_arith)
        requires
            total_mass(n, w) > 0,
            x == DIFF_SCALE as int * ABS_SCALE as int * total_mass(n, w),
    ;
    assert((s.num as int) < (s.den as int)) by (nonlinear_arith)
        requires
            s.num as int * x == st * s.den as int,
            st < x,
            x > 0,
            s.den as int > 0,
            s.num as int >= 0,
    ;
}

/// A grid holding no mass at all survives nothing: stepping it must report
/// extinction (`total = 0`) rather than normalize.
pub proof fn lemma_zero_mass_extinguishes(p: BoundaryPolicy, n: int, w: Seq<int>, a: Seq<int>)
    requires
        n >= 2,
        w.len() == n * n,
        a.len() == n * n,
        forall|i: int| 0 <= i < w.len() ==> #[trigger] w[i] >= 0,
        forall|i: int| 0 <= i < a.len() ==> 0 <= #[trigger] a[i] <= ABS_SCALE as int,
        total_mass(n, w) == 0,
    ensures
        survived_total(p, n, w, a) == 0,
{
    lemma_diffusion_conserves(p, n, w);
    lemma_pointwise_bounds(p, n, w, a);
    let sur = |r: int, c: int| survived(p, n, w, a, r, c);
    let dif = |r: int, c: int| diffused(p, n, w, r, c);
    assert forall|r: int, c: int| 0 <= r < n && 0 <= c < n implies #[trigger] sur(r, c) == 0 by {
        lemma_grid_sum_elem_le(n, dif, r, c);
        assert(dif(r, c) == 0);
        lemma_idx_range(n, r, c);
    }
    lemma_grid_sum_zero(n, sur);
}

/// The run-time diffusion coefficient of `(r, c)`, matching `coeff`.
fn coeff_at(policy: BoundaryPolicy, n: usize, r: usize, c: usize) -> (k: u64)
    requires
        2 <= n,
        r < n,
        c < n,
    ensures
        k as int == coeff(policy, n as int, r as int, c as int),
        12 <= k <= 20,
{
    proof {
        lemma_degree_bounds(policy, n as int, r as int, c as int);
    }
    match policy {
        BoundaryPolicy::Wrap => {
            proof {
                assert(60int / 5 == 12);
            }
            12
        },
        BoundaryPolicy::Clamp => {
            let mut d: u64 = 1;
            if r > 0 {
                d = d + 1;
            }
            if r < n - 1 {
                d = d + 1;
            }
            if c > 0 {
                d = d + 1;
            }
            if c < n - 1 {
                d = d + 1;
            }
            proof {
                assert(d as int == degree(policy, n as int, r as int, c as int));
            }
            60 / d
        },
    }
}

/// The square grid of cells, with its side length and boundary policy.
pub struct Grid {
    n: usize,
    cells: Vec<Cell>,
    policy: BoundaryPolicy,
}

impl Grid {
    /// The side length `N`.
    pub closed spec fn side(&self) -> int {
        self.n as int
    }

    /// The active boundary policy.
    pub closed spec fn boundary(&self) -> BoundaryPolicy {
        self.policy
    }

    /// The mass weight of each cell, row-major: cell `(x, y)` is at index
    /// `idx(side, y, x)`, and its mass is its weight over the weights' sum.
    pub closed spec fn weights(&self) -> Seq<int> {
        Seq::new(self.cells@.len(), |i: int| self.cells@[i].mass as int)
    }

    /// The absorption numerator of each cell, row-major.
    pub closed spec fn absorbs(&self) -> Seq<int> {
        Seq::new(self.cells@.len(), |i: int| self.cells@[i].absorb as int)
    }

    /// The total weight: the common denominator of all cell masses.
    pub open spec fn total(&self) -> int {
        total_mass(self.side(), self.weights())
    }

    /// Well-formedness: a legal side length, one cell per grid position,
    /// nonnegative weights and absorption efficiencies of at most one.
    pub open spec fn wf(&self) -> bool {
        &&& 2 <= self.side() <= MAX_SIDE as int
        &&& self.weights().len() == self.side() * self.side()
        &&& self.absorbs().len() == self.weights().len()
        &&& (forall|i: int|
            0 <= i < self.weights().len() ==> #[trigger] self.weights()[i] >= 0)
        &&& (forall|i: int|
            0 <= i < self.absorbs().len() ==> 0 <= #[trigger] self.absorbs()[i]
                <= ABS_SCALE as int)
    }

    /// A fresh grid: every weight zero, every absorption zero.
    pub fn new(n: usize, policy: BoundaryPolicy) -> (g: Grid)
        requires
            2 <= n <= MAX_SIDE,
        ensures
            g.wf(),
            g.side() == n,
            g.boundary() == policy,
            forall|i: int| 0 <= i < g.weights().len() ==> #[trigger] g.weights()[i] == 0,
            forall|i: int| 0 <= i < g.absorbs().len() ==> #[trigger] g.absorbs()[i] == 0,
    {
        proof {
            assert(n * n <= MAX_SIDE * MAX_SIDE) by (nonlinear_arith)
                requires
                    2 <= n <= MAX_SIDE,
            ;
        }
        let count: usize = n * n;
        let mut cells: Vec<Cell> = Vec::new();
        let mut i: usize = 0;
        while i < count
            invariant
                i <= count,
                cells@.len() == i,
                forall|j: int| 0 <= j < i ==> #[trigger] cells@[j] == (Cell { mass: 0, absorb: 0 }),
            decreases count - i,
        {
            cells.push(Cell { mass: 0, absorb: 0 });
            i += 1;
        }
        Grid { n, cells, policy }
    }

    /// An executable well-formedness check, for callers outside the proof
    /// world; `new` establishes `wf` and every operation preserves it.
    pub fn is_well_formed(&self) -> (r: bool)
        ensures
            r == self.wf(),
    {
        if self.n < 2 || self.n > MAX_SIDE {
            return false;
        }
        if self.cells.len() / self.n != self.n || self.cells.len() % self.n != 0 {
            proof {
                if self.cells@.len() == self.n * self.n {
                    lemma_idx_range(self.n as int, self.n as int - 1, self.n as int - 1);
                    vstd::arithmetic::div_mod::lemma_fundamental_div_mod_converse(
                        (self.n * self.n) as int,
                        self.n as int,
                        self.n as int,
                        0,
                    );
                }
            }
            return false;
        }
        proof {
            vstd::arithmetic::div_mod::lemma_fundamental_div_mod(
                self.cells@.len() as int,
                self.n as int,
            );
        }
        let mut i: usize = 0;
        while i < self.cells.len()
            invariant
                i <= self.cells@.len(),
                forall|j: int| 0 <= j < i ==> #[trigger] self.cells@[j].absorb <= ABS_SCALE,
            decreases self.cells@.len() - i,
        {
            if self.cells[i].absorb > ABS_SCALE {
                proof {
                    assert(self.absorbs()[i as int] > ABS_SCALE as int);
                }
                return false;
            }
            i += 1;
        }
        true
    }

    /// The side length.
    pub fn side_len(&self) -> (r: usize)
        ensures
            r as int == self.side(),
    {
        self.n
    }

    /// The active boundary policy.
    pub fn policy(&self) -> (r: BoundaryPolicy)
        ensures
            r == self.boundary(),
    {
        self.policy
    }

    /// The weight at `(x, y)`.
    pub fn mass_weight(&self, x: usize, y: usize) -> (r: u64)
        requires
            self.wf(),
            x < self.side(),
            y < self.side(),
        ensures
            r as int == self.weights()[idx(self.side(), y as int, x as int)],
    {
        proof {
            lemma_idx_fits(self.side(), y as int, x as int);
        }
        self.cells[y * self.n + x].mass
    }

    /// The absorption numerator at `(x, y)`.
    pub fn absorption(&self, x: usize, y: usize) -> (r: u64)
        requires
            self.wf(),
            x < self.side(),
            y < self.side(),
        ensures
            r as int == self.absorbs()[idx(self.side(), y as int, x as int)],
    {
        proof {
            lemma_idx_fits(self.side(), y as int, x as int);
        }
        self.cells[y * self.n + x].absorb
    }

    /// Sets the weight at `(x, y)` to `amount` (not additive).  Out-of-range
    /// coordinates are a caller bug, excluded by precondition.
    pub fn place_mass(&mut self, x: usize, y: usize, amount: u64)
        requires
            old(self).wf(),
            x < old(self).side(),
            y < old(self).side(),
        ensures
            final(self).wf(),
            final(self).side() == old(self).side(),
            final(self).boundary() == old(self).boundary(),
            final(self).absorbs() == old(self).absorbs(),
            final(self).weights() == old(self).weights().update(
                idx(old(self).side(), y as int, x as int),
                amount as int,
            ),
    {
        proof {
            lemma_idx_fits(self.side(), y as int, x as int);
        }
        let i: usize = y * self.n + x;
        let a: u64 = self.cells[i].absorb;
        self.cells.set(i, Cell { mass: amount, absorb: a });
        proof {
            assert(self.absorbs() =~= old(self).absorbs());
            assert(self.weights() =~= old(self).weights().update(
                idx(old(self).side(), y as int, x as int),
                amount as int,
            ));
        }
    }

    /// Sets the absorption numerator at `(x, y)` to `efficiency`.
    pub fn set_absorber(&mut self, x: usize, y: usize, efficiency: u64)
        requires
            old(self).wf(),
            x < old(self).side(),
            y < old(self).side(),
            efficiency <= ABS_SCALE,
        ensures
            final(self).wf(),
            final(self).side() == old(self).side(),
            final(self).boundary() == old(self).boundary(),
            final(self).weights() == old(self).weights(),
            final(self).absorbs() == old(self).absorbs().update(
                idx(old(self).side(), y as int, x as int),
                efficiency as int,
            ),
    {
        proof {
            lemma_idx_fits(self.side(), y as int, x as int);
        }
        let i: usize = y * self.n + x;
        let m: u64 = self.cells[i].mass;
        self.cells.set(i, Cell { mass: m, absorb: efficiency });
        proof {
            assert(self.weights() =~= old(self).weights());
            assert(self.absorbs() =~= old(self).absorbs().update(
                idx(old(self).side(), y as int, x as int),
                efficiency as int,
            ));
        }
    }

    /// For every cell, independently with probability `prob_num / PROB_SCALE`,
    /// sets its absorption to `efficiency`; other cells keep theirs.  May be
    /// called repeatedly to layer absorbers.  Weights are untouched.
    pub fn seed_absorbers(
        &mut self,
        rng: &mut rand::rngs::ThreadRng,
        prob_num: u64,
        efficiency: u64,
    )
        requires
            old(self).wf(),
            prob_num <= PROB_SCALE,
            efficiency <= ABS_SCALE,
        ensures
            final(self).wf(),
            final(self).side() == old(self).side(),
            final(self).boundary() == old(self).boundary(),
            final(self).weights() == old(self).weights(),
            final(self).absorbs().len() == old(self).absorbs().len(),
            forall|i: int|
                0 <= i < final(self).absorbs().len() ==> #[trigger] final(self).absorbs()[i]
                    == old(self).absorbs()[i] || final(self).absorbs()[i] == efficiency as int,
            prob_num == PROB_SCALE ==> forall|i: int|
                0 <= i < final(self).absorbs().len() ==> #[trigger] final(self).absorbs()[i]
                    == efficiency as int,
            prob_num == 0 ==> final(self).absorbs() == old(self).absorbs(),
    {
        let count: usize = self.cells.len();
        let mut i: usize = 0;
        while i < count
            invariant
                i <= count,
                count == self.cells@.len(),
                self.n == old(self).n,
                self.policy == old(self).policy,
                self.cells@.len() == old(self).cells@.len(),
                efficiency <= ABS_SCALE,
                prob_num <= PROB_SCALE,
                forall|j: int| 0 <= j < count ==> #[trigger] self.cells@[j].mass == old(
                    self,
                ).cells@[j].mass,
                forall|j: int| i <= j < count ==> #[trigger] self.cells@[j].absorb == old(
                    self,
                ).cells@[j].absorb,
                forall|j: int| 0 <= j < i ==> #[trigger] self.cells@[j].absorb == old(
                    self,
                ).cells@[j].absorb || self.cells@[j].absorb == efficiency,
                prob_num == PROB_SCALE ==> forall|j: int|
                    0 <= j < i ==> #[trigger] self.cells@[j].absorb == efficiency,
                prob_num == 0 ==> forall|j: int|
                    0 <= j < i ==> #[trigger] self.cells@[j].absorb == old(self).cells@[j].absorb,
            decreases count - i,
        {
            let draw: u64 = draw_below(rng, PROB_SCALE);
            if draw < prob_num {
                let m: u64 = self.cells[i].mass;
                self.cells.set(i, Cell { mass: m, absorb: efficiency });
            }
            i += 1;
        }
        proof {
            assert(self.weights() =~= old(self).weights());
            assert forall|j: int| 0 <= j < self.absorbs().len() implies 0 <= #[trigger] self.absorbs()[j]
                <= ABS_SCALE as int by {
                assert(self.cells@[j].absorb == old(self).cells@[j].absorb
                    || self.cells@[j].absorb == efficiency);
                assert(old(self).absorbs()[j] == old(self).cells@[j].absorb as int);
            }
            assert forall|j: int| 0 <= j < self.absorbs().len() implies #[trigger] self.absorbs()[j]
                == old(self).absorbs()[j] || self.absorbs()[j] == efficiency as int by {
                assert(old(self).absorbs()[j] == old(self).cells@[j].absorb as int);
            }
            if prob_num == 0 {
                assert(self.absorbs() =~= old(self).absorbs());
            }
        }
    }

    /// The total weight, when it is within stepping range: `Some(total)` when
    /// the total is at most `TOTAL_LIMIT`, `None` when a step would report
    /// `Overflow`.
    #[verifier::loop_isolation(false)]
    pub fn bounded_total(&self) -> (r: Option<u64>)
        requires
            self.wf(),
        ensures
            r matches Some(t) ==> t as int == self.total() && t <= TOTAL_LIMIT,
            r is None ==> self.total() > TOTAL_LIMIT as int,
    {
        let ghost nn = self.side();
        let ghost w0 = self.weights();
        let ghost wflat = |k: int| w0[k];
        proof {
            assert(nn * nn <= 100_000_000) by (nonlinear_arith)
                requires
                    2 <= nn <= 10_000,
            ;
            assert forall|k: int| 0 <= k < nn * nn implies #[trigger] wflat(k) == w0[idx(
                nn,
                k / nn,
                k % nn,
            )] by {
                lemma_flat_coords(nn, k);
            }
            lemma_grid_sum_flat(nn, |r: int, c: int| w0[idx(nn, r, c)], wflat);
        }
        let count: usize = self.n * self.n;
        let mut t: u64 = 0;
        let mut i: usize = 0;
        while i < count
            invariant
                i <= count,
                t as int == csum(wflat, i as int),
                t <= TOTAL_LIMIT,
            decreases count - i,
        {
            let m: u64 = self.cells[i].mass;
            proof {
                assert(m as int == wflat(i as int));
                assert(csum(wflat, i as int + 1) == csum(wflat, i as int) + wflat(i as int));
                if m > TOTAL_LIMIT - t {
                    lemma_csum_prefix_le(wflat, i as int + 1, count as int);
                }
            }
            if m > TOTAL_LIMIT - t {
                return None;
            }
            t = t + m;
            i = i + 1;
        }
        Some(t)
    }

    /// The total weight, whenever it fits a `u64` at all.
    #[verifier::loop_isolation(false)]
    pub fn total_weight(&self) -> (r: Option<u64>)
        requires
            self.wf(),
        ensures
            r matches Some(t) ==> t as int == self.total(),
            r is None ==> self.total() > u64::MAX as int,
    {
        let ghost nn = self.side();
        let ghost w0 = self.weights();
        let ghost wflat = |k: int| w0[k];
        proof {
            assert(nn * nn <= 100_000_000) by (nonlinear_arith)
                requires
                    2 <= nn <= 10_000,
            ;
            assert forall|k: int| 0 <= k < nn * nn implies #[trigger] wflat(k) == w0[idx(
                nn,
                k / nn,
                k % nn,
            )] by {
                lemma_flat_coords(nn, k);
            }
            lemma_grid_sum_flat(nn, |r: int, c: int| w0[idx(nn, r, c)], wflat);
        }
        let count: usize = self.n * self.n;
        let mut t: u64 = 0;
        let mut i: usize = 0;
        while i < count
            invariant
                i <= count,
                t as int == csum(wflat, i as int),
            decreases count - i,
        {
            let m: u64 = self.cells[i].mass;
            proof {
                assert(m as int == wflat(i as int));
                assert(csum(wflat, i as int + 1) == csum(wflat, i as int) + wflat(i as int));
                if m > u64::MAX - t {
                    lemma_csum_prefix_le(wflat, i as int + 1, count as int);
                }
            }
            if m > u64::MAX - t {
                return None;
            }
            t = t + m;
            i = i + 1;
        }
        Some(t)
    }

    /// Re-expresses the unit-mass distribution at a fixed resolution: every
    /// weight becomes `weight * resolution / total`, rounded down.  The
    /// masses stay within `1 / resolution` of their exact values (a cell
    /// whose share is below that is dropped), and the new total is at most
    /// `resolution`, so a long run can keep stepping after the exact weights
    /// have outgrown the stepping range.
    #[verifier::loop_isolation(false)]
    pub fn requantize(&mut self, resolution: u64) -> (res: Result<(), StepError>)
        requires
            old(self).wf(),
            1 <= resolution <= TOTAL_LIMIT,
        ensures
            final(self).wf(),
            final(self).side() == old(self).side(),
            final(self).boundary() == old(self).boundary(),
            final(self).absorbs() == old(self).absorbs(),
            final(self).weights().len() == old(self).weights().len(),
            res == Err::<(), StepError>(StepError::Overflow) <==> old(self).total()
                > u64::MAX as int,
            res == Err::<(), StepError>(StepError::Extinguished) <==> old(self).total() == 0,
            res is Err ==> final(self).weights() == old(self).weights(),
            res is Ok ==> forall|i: int|
                0 <= i < final(self).weights().len() ==> #[trigger] final(self).weights()[i]
                    == old(self).weights()[i] * resolution as int / old(self).total(),
            res is Ok ==> final(self).total() <= resolution as int,
    {
        let ghost nn = self.side();
        let ghost w0 = self.weights();
        let ghost wflat = |k: int| w0[k];
        proof {
            assert(nn * nn <= 100_000_000) by (nonlinear_arith)
                requires
                    2 <= nn <= 10_000,
            ;
            assert forall|k: int| 0 <= k < nn * nn implies #[trigger] wflat(k) == w0[idx(
                nn,
                k / nn,
                k % nn,
            )] by {
                lemma_flat_coords(nn, k);
            }
            lemma_grid_sum_flat(nn, |r: int, c: int| w0[idx(nn, r, c)], wflat);
        }
        let count: usize = self.n * self.n;
        let mut t: u64 = 0;
        let mut i: usize = 0;
        while i < count
            invariant
                i <= count,
                t as int == csum(wflat, i as int),
            decreases count - i,
        {
            let m: u64 = self.cells[i].mass;
            proof {
                assert(m as int == wflat(i as int));
                assert(csum(wflat, i as int + 1) == csum(wflat, i as int) + wflat(i as int));
                if m > u64::MAX - t {
                    lemma_csum_prefix_le(wflat, i as int + 1, count as int);
                }
            }
            if m > u64::MAX - t {
                return Err(StepError::Overflow);
            }
            t = t + m;
            i = i + 1;
        }
        if t == 0 {
            return Err(StepError::Extinguished);
        }
        let ghost qflat = |k: int| w0[k] * resolution as int / t as int;
        i = 0;
        while i < count
            invariant
                i <= count,
                self.n == old(self).n,
                self.policy == old(self).policy,
                self.cells@.len() == count,
                forall|k: int|
                    i <= k < count ==> #[trigger] self.cells@[k] == old(self).cells@[k],
                forall|k: int|
                    0 <= k < count ==> #[trigger] self.cells@[k].absorb == old(
                        self,
                    ).cells@[k].absorb,
                forall|k: int| 0 <= k < i ==> #[trigger] self.cells@[k].mass as int == qflat(k),
            decreases count - i,
        {
            let w: u64 = self.cells[i].mass;
            proof {
                assert(w as int == wflat(i as int));
                lemma_csum_elem_le(wflat, count as int, i as int);
                assert(w as int * resolution as int <= u64::MAX as int * u64::MAX as int)
                    by (nonlinear_arith)
                    requires
                        0 <= w as int <= u64::MAX as int,
                        0 <= resolution as int <= u64::MAX as int,
                ;
                assert(w as int * resolution as int <= t as int * resolution as int)
                    by (nonlinear_arith)
                    requires
                        0 <= w as int <= t as int,
                        resolution as int >= 0,
                ;
                vstd::arithmetic::div_mod::lemma_div_is_ordered(
                    w as int * resolution as int,
                    t as int * resolution as int,
                    t as int,
                );
                vstd::arithmetic::div_mod::lemma_div_multiples_vanish(
                    resolution as int,
                    t as int,
                );
                assert((t as int * resolution as int) / t as int == resolution as int);
                assert(w as int * resolution as int >= 0) by (nonlinear_arith)
                    requires
                        w as int >= 0,
                        resolution as int >= 0,
                ;
                vstd::arithmetic::div_mod::lemma_div_pos_is_pos(
                    w as int * resolution as int,
                    t as int,
                );
            }
            let prod: u128 = (w as u128) * (resolution as u128);
            let q128: u128 = prod / (t as u128);
            proof {
                assert(q128 as int == qflat(i as int));
                assert(q128 <= u64::MAX as u128);
            }
            let q: u64 = q128 as u64;
            let ab: u64 = self.cells[i].absorb;
            self.cells.set(i, Cell { mass: q, absorb: ab });
            i = i + 1;
        }
        let ghost w1 = self.weights();
        proof {
            assert(self.absorbs() =~= old(self).absorbs());
            let w1flat = |k: int| w1[k];
            assert forall|k: int| 0 <= k < nn * nn implies #[trigger] w1flat(k) == w1[idx(
                nn,
                k / nn,
                k % nn,
            )] by {
                lemma_flat_coords(nn, k);
            }
            lemma_grid_sum_flat(nn, |r: int, c: int| w1[idx(nn, r, c)], w1flat);
            let scaled = |k: int| w0[k] * resolution as int;
            assert forall|k: int| 0 <= k < count implies #[trigger] scaled(k) == resolution as int
                * wflat(k) by {
                assert(w0[k] * resolution as int == resolution as int * w0[k])
                    by (nonlinear_arith);
            }
            lemma_csum_scale(wflat, scaled, resolution as int, count as int);
            assert forall|k: int| 0 <= k < count implies #[trigger] scaled(k) >= 0 by {
                assert(w0[k] * resolution as int >= 0) by (nonlinear_arith)
                    requires
                        w0[k] >= 0,
                        resolution as int >= 0,
                ;
            }
            assert forall|k: int| 0 <= k < count implies #[trigger] w1flat(k) == scaled(k)
                / t as int by {
                assert(w1flat(k) == self.cells@[k].mass as int);
            }
            lemma_csum_div_le(scaled, w1flat, t as int, count as int);
            assert(csum(scaled, count as int) == resolution as int * (t as int));
            vstd::arithmetic::div_mod::lemma_div_multiples_vanish(resolution as int, t as int);
            assert((t as int * resolution as int) / t as int == resolution as int);
            assert(resolution as int * (t as int) == t as int * resolution as int)
                by (nonlinear_arith);
        }
        Ok(())
    }

    /// The outflow of `(r, c)` at run time: its weight times its coefficient.
    fn weight_times_coeff(&self, r: usize, c: usize) -> (v: u64)
        requires
            self.wf(),
            r < self.side(),
            c < self.side(),
            forall|k: int|
                0 <= k < self.weights().len() ==> #[trigger] self.weights()[k]
                    <= TOTAL_LIMIT as int,
        ensures
            v as int == outflow(self.boundary(), self.side(), self.weights(), r as int, c as int),
            v <= 20 * TOTAL_LIMIT,
    {
        proof {
            lemma_idx_fits(self.side(), r as int, c as int);
        }
        let m: u64 = self.cells[r * self.n + c].mass;
        let k: u64 = coeff_at(self.policy, self.n, r, c);
        proof {
            assert(m as int == self.weights()[idx(self.side(), r as int, c as int)]);
            assert(self.weights()[idx(self.side(), r as int, c as int)] <= TOTAL_LIMIT as int);
            assert(m as int * k as int <= 20 * TOTAL_LIMIT as int) by (nonlinear_arith)
                requires
                    0 <= m as int <= TOTAL_LIMIT as int,
                    0 <= k as int <= 20,
            ;
        }
        m * k
    }

    /// The post-diffusion weight of `(r, c)` at run time: its own retained
    /// share plus the share of each present neighbor.
    fn diffused_at(&self, r: usize, c: usize) -> (u: u64)
        requires
            self.wf(),
            r < self.side(),
            c < self.side(),
            forall|k: int|
                0 <= k < self.weights().len() ==> #[trigger] self.weights()[k]
                    <= TOTAL_LIMIT as int,
        ensures
            u as int == diffused(self.boundary(), self.side(), self.weights(), r as int, c as int),
    {
        let n = self.n;
        let own: u64 = self.weight_times_coeff(r, c);
        let north: u64 = match self.policy {
            BoundaryPolicy::Wrap => {
                let rr = if r == 0 {
                    n - 1
                } else {
                    r - 1
                };
                self.weight_times_coeff(rr, c)
            },
            BoundaryPolicy::Clamp => {
                if r > 0 {
                    self.weight_times_coeff(r - 1, c)
                } else {
                    0
                }
            },
        };
        let south: u64 = match self.policy {
            BoundaryPolicy::Wrap => {
                let rr = if r == n - 1 {
                    0
                } else {
                    r + 1
                };
                self.weight_times_coeff(rr, c)
            },
            BoundaryPolicy::Clamp => {
                if r < n - 1 {
                    self.weight_times_coeff(r + 1, c)
                } else {
                    0
                }
            },
        };
        let west: u64 = match self.policy {
            BoundaryPolicy::Wrap => {
                let cc = if c == 0 {
                    n - 1
                } else {
                    c - 1
                };
                self.weight_times_coeff(r, cc)
            },
            BoundaryPolicy::Clamp => {
                if c > 0 {
                    self.weight_times_coeff(r, c - 1)
                } else {
                    0
                }
            },
        };
        let east: u64 = match self.policy {
            BoundaryPolicy::Wrap => {
                let cc = if c == n - 1 {
                    0
                } else {
                    c + 1
                };
                self.weight_times_coeff(r, cc)
            },
            BoundaryPolicy::Clamp => {
                if c < n - 1 {
                    self.weight_times_coeff(r, c + 1)
                } else {
                    0
                }
            },
        };
        proof {
            assert(north as int == from_north(
                self.boundary(),
                self.side(),
                self.weights(),
                r as int,
                c as int,
            ));
            assert(south as int == from_south(
                self.boundary(),
                self.side(),
                self.weights(),
                r as int,
                c as int,
            ));
            assert(west as int == from_west(
                self.boundary(),
                self.side(),
                self.weights(),
                r as int,
                c as int,
            ));
            assert(east as int == from_east(
                self.boundary(),
                self.side(),
                self.weights(),
                r as int,
                c as int,
            ));
        }
        own + north + south + west + east
    }

    /// One full transition: diffusion, absorption, scale extraction and
    /// normalization.  Returns the pre-normalization total mass of the step,
    /// as the exact fraction of the pre-step total that absorption let
    /// survive.  Fails with `Extinguished` when nothing survives, and with
    /// `Overflow` when the stored weights are too large for an exact step;
    /// in both cases the grid is unchanged.
    #[verifier::loop_isolation(false)]
    pub fn step(&mut self) -> (res: Result<Scale, StepError>)
        requires
            old(self).wf(),
        ensures
            final(self).wf(),
            final(self).side() == old(self).side(),
            final(self).boundary() == old(self).boundary(),
            final(self).absorbs() == old(self).absorbs(),
            final(self).weights().len() == old(self).weights().len(),
            res == Err::<Scale, StepError>(StepError::Overflow) <==> old(self).total()
                > TOTAL_LIMIT as int,
            res == Err::<Scale, StepError>(StepError::Extinguished) <==> (old(self).total()
                <= TOTAL_LIMIT as int && survived_total(
                old(self).boundary(),
                old(self).side(),
                old(self).weights(),
                old(self).absorbs(),
            ) == 0),
            res is Err ==> final(self).weights() == old(self).weights(),
            res is Ok ==> survived_total(
                old(self).boundary(),
                old(self).side(),
                old(self).weights(),
                old(self).absorbs(),
            ) > 0,
            res is Ok ==> (exists|g: int|
                weights_rescaled(
                    old(self).boundary(),
                    old(self).side(),
                    old(self).weights(),
                    old(self).absorbs(),
                    final(self).weights(),
                    g,
                )),
            res is Ok ==> final(self).total() > 0,
            res matches Ok(s) ==> 1 <= s.num <= s.den,
            res matches Ok(s) ==> s.num as int * (DIFF_SCALE as int * ABS_SCALE as int * old(
                self,
            ).total()) == survived_total(
                old(self).boundary(),
                old(self).side(),
                old(self).weights(),
                old(self).absorbs(),
            ) * s.den as int,
    {
        let ghost p = self.boundary();
        let ghost nn = self.side();
        let ghost w0 = self.weights();
        let ghost a0 = self.absorbs();
        let ghost wflat = |k: int| w0[k];
        let ghost difflat = |k: int| diffused(p, nn, w0, k / nn, k % nn);
        let ghost surflat = |k: int| survived(p, nn, w0, a0, k / nn, k % nn);
        proof {
            assert(nn * nn <= 100_000_000) by (nonlinear_arith)
                requires
                    2 <= nn <= 10_000,
            ;
            assert forall|k: int| 0 <= k < nn * nn implies #[trigger] wflat(k) == w0[idx(
                nn,
                k / nn,
                k % nn,
            )] by {
                lemma_flat_coords(nn, k);
            }
            lemma_grid_sum_flat(nn, |r: int, c: int| w0[idx(nn, r, c)], wflat);
            lemma_pointwise_bounds(p, nn, w0, a0);
            lemma_step_totals(p, nn, w0, a0);
            lemma_grid_sum_flat(nn, |r: int, c: int| diffused(p, nn, w0, r, c), difflat);
            lemma_grid_sum_flat(nn, |r: int, c: int| survived(p, nn, w0, a0, r, c), surflat);
            assert forall|k: int| 0 <= k < nn * nn implies #[trigger] difflat(k) >= 0 by {
                lemma_flat_coords(nn, k);
            }
            assert forall|k: int| 0 <= k < nn * nn implies #[trigger] surflat(k) >= 0 by {
                lemma_flat_coords(nn, k);
            }
        }
        let n = self.n;
        let count: usize = n * n;

        // Total weight, watching the overflow limit.
        let mut t: u64 = 0;
        let mut i: usize = 0;
        while i < count
            invariant
                i <= count,
                t as int == csum(wflat, i as int),
                t <= TOTAL_LIMIT,
            decreases count - i,
        {
            let m: u64 = self.cells[i].mass;
            proof {
                assert(m as int == wflat(i as int));
                assert(csum(wflat, i as int + 1) == csum(wflat, i as int) + wflat(i as int));
                if m > TOTAL_LIMIT - t {
                    lemma_csum_prefix_le(wflat, i as int + 1, count as int);
                }
            }
            if m > TOTAL_LIMIT - t {
                return Err(StepError::Overflow);
            }
            t = t + m;
            i = i + 1;
        }
        proof {
            assert(t as int == old(self).total());
        }

        // Diffusion into a scratch buffer, then absorption in place, summing
        // the surviving weights.
        proof {
            assert forall|k: int|
                0 <= k < self.weights().len() implies #[trigger] self.weights()[k]
                <= TOTAL_LIMIT as int by {
                lemma_csum_elem_le(wflat, count as int, k);
            }
        }
        let mut next: Vec<u64> = Vec::new();
        i = 0;
        while i < count
            invariant
                i <= count,
                next@.len() == i,
                forall|k: int| 0 <= k < i ==> #[trigger] next@[k] as int == difflat(k),
            decreases count - i,
        {
            proof {
                lemma_flat_coords(nn, i as int);
            }
            let r: usize = i / n;
            let c: usize = i % n;
            let u: u64 = self.diffused_at(r, c);
            next.push(u);
            i = i + 1;
        }

        let ghost dt = diffused_total(p, nn, w0);
        let ghost st = survived_total(p, nn, w0, a0);
        proof {
            assert(dt == DIFF_SCALE as int * (t as int));
            assert(st <= ABS_SCALE as int * dt);
            assert(ABS_SCALE as int * (DIFF_SCALE as int * (t as int)) == 60_000_000 * (t as int))
                by (nonlinear_arith);
            assert(60_000_000 * (t as int) <= 60_000_000 * (TOTAL_LIMIT as int))
                by (nonlinear_arith)
                requires
                    t as int <= TOTAL_LIMIT as int,
            ;
        }
        let mut acc: u64 = 0;
        i = 0;
        while i < count
            invariant
                i <= count,
                next@.len() == count,
                forall|k: int| i <= k < count ==> #[trigger] next@[k] as int == difflat(k),
                forall|k: int| 0 <= k < i ==> #[trigger] next@[k] as int == surflat(k),
                acc as int == csum(surflat, i as int),
            decreases count - i,
        {
            proof {
                lemma_flat_coords(nn, i as int);
                lemma_grid_sum_elem_le(
                    nn,
                    |r: int, c: int| diffused(p, nn, w0, r, c),
                    i as int / nn,
                    i as int % nn,
                );
                assert(difflat(i as int) <= dt);
            }
            let u: u64 = next[i];
            let a: u64 = self.cells[i].absorb;
            proof {
                assert(a0[i as int] == self.cells@[i as int].absorb as int);
                assert(u as int * (ABS_SCALE as int - a as int) == surflat(i as int) && surflat(
                    i as int,
                ) <= ABS_SCALE as int * (u as int)) by (nonlinear_arith)
                    requires
                        u as int == diffused(p, nn, w0, i as int / nn, i as int % nn),
                        surflat(i as int) == diffused(p, nn, w0, i as int / nn, i as int % nn) * (
                        ABS_SCALE as int - a0[i as int]),
                        a as int == a0[i as int],
                        0 <= a as int <= ABS_SCALE as int,
                        u as int >= 0,
                ;
                assert(ABS_SCALE as int * (u as int) <= ABS_SCALE as int * dt)
                    by (nonlinear_arith)
                    requires
                        u as int <= dt,
                        ABS_SCALE as int > 0,
                ;
                assert(ABS_SCALE as int * dt == 60_000_000 * (t as int)) by (nonlinear_arith)
                    requires
                        dt == DIFF_SCALE as int * (t as int),
                ;
                assert(60_000_000 * (t as int) <= 60_000_000 * (TOTAL_LIMIT as int))
                    by (nonlinear_arith)
                    requires
                        t as int <= TOTAL_LIMIT as int,
                ;
                lemma_csum_prefix_le(surflat, i as int + 1, count as int);
                assert(csum(surflat, i as int + 1) == csum(surflat, i as int) + surflat(i as int));
            }
            let v: u64 = u * (ABS_SCALE - a);
            next.set(i, v);
            acc = acc + v;
            i = i + 1;
        }
        proof {
            assert(acc as int == st);
        }
        if acc == 0 {
            return Err(StepError::Extinguished);
        }

        // Normalization: the surviving weights, divided by their gcd, already
        // describe the renormalized unit-mass grid.
        let mut g: u64 = 0;
        i = 0;
        while i < count
            invariant
                i <= count,
                forall|k: int| 0 <= k < i ==> divides(g as int, #[trigger] next@[k] as int),
            decreases count - i,
        {
            let v: u64 = next[i];
            let g2: u64 = gcd(g, v);
            proof {
                lemma_gcd_properties(g as nat, v as nat);
                assert forall|k: int| 0 <= k < i + 1 implies divides(
                    g2 as int,
                    #[trigger] next@[k] as int,
                ) by {
                    if k < i {
                        lemma_divides_transitive(g2 as int, g as int, next@[k] as int);
                    }
                }
            }
            g = g2;
            i = i + 1;
        }
        proof {
            if g == 0 {
                assert forall|k: int| 0 <= k < count implies #[trigger] surflat(k) == 0 by {
                    let q = choose|q: int| next@[k] as int == #[trigger] (0int * q);
                    assert(next@[k] as int == 0);
                }
                lemma_csum_zero(surflat, count as int);
                assert(false);
            }
        }

        i = 0;
        while i < count
            invariant
                i <= count,
                self.n == old(self).n,
                self.policy == old(self).policy,
                self.cells@.len() == count,
                forall|k: int|
                    i <= k < count ==> #[trigger] self.cells@[k] == old(self).cells@[k],
                forall|k: int|
                    0 <= k < count ==> #[trigger] self.cells@[k].absorb == old(
                        self,
                    ).cells@[k].absorb,
                forall|k: int|
                    0 <= k < i ==> #[trigger] self.cells@[k].mass as int == surflat(k) / g as int,
            decreases count - i,
        {
            let v: u64 = next[i];
            let cur_absorb: u64 = self.cells[i].absorb;
            self.cells.set(i, Cell { mass: v / g, absorb: cur_absorb });
            i = i + 1;
        }
        let ghost w1 = self.weights();
        proof {
            assert(self.absorbs() =~= old(self).absorbs());
            assert forall|k: int| 0 <= k < count implies #[trigger] surflat(k) == g as int * w1[k]
                by {
                assert(next@[k] as int == surflat(k));
                assert(divides(g as int, next@[k] as int));
                lemma_div_exact(surflat(k), g as int);
                assert(w1[k] == self.cells@[k].mass as int);
            }
            // The new weights are the old survived values over g; their total
            // is positive because some survived value is positive.
            assert forall|r: int, c: int|
                0 <= r < nn && 0 <= c < nn implies survived(p, nn, w0, a0, r, c) == g as int
                * #[trigger] w1[idx(nn, r, c)] by {
                lemma_idx_range(nn, r, c);
                assert(surflat(idx(nn, r, c)) == survived(p, nn, w0, a0, r, c));
            }
            assert(weights_rescaled(p, nn, w0, a0, w1, g as int));
            let j0 = lemma_csum_pos_witness(surflat, count as int);
            let w1flat = |k: int| w1[k];
            assert forall|k: int| 0 <= k < nn * nn implies #[trigger] w1flat(k) == w1[idx(
                nn,
                k / nn,
                k % nn,
            )] by {
                lemma_flat_coords(nn, k);
            }
            lemma_grid_sum_flat(nn, |r: int, c: int| w1[idx(nn, r, c)], w1flat);
            assert(w1flat(j0) > 0) by (nonlinear_arith)
                requires
                    surflat(j0) == g as int * w1flat(j0),
                    surflat(j0) > 0,
                    g as int >= 1,
            ;
            assert forall|k: int| 0 <= k < count implies #[trigger] w1flat(k) >= 0 by {}
            lemma_csum_elem_le(w1flat, count as int, j0);
            assert(self.total() > 0);
        }

        // The scale factor, reduced.
        let den0: u64 = t * (DIFF_SCALE * ABS_SCALE);
        proof {
            assert(t as int * 60_000_000 <= TOTAL_LIMIT as int * 60_000_000) by (nonlinear_arith)
                requires
                    0 <= t as int <= TOTAL_LIMIT as int,
            ;
        }
        let sg: u64 = gcd(acc, den0);
        proof {
            lemma_gcd_properties(acc as nat, den0 as nat);
            lemma_div_exact(acc as int, sg as int);
            lemma_div_exact(den0 as int, sg as int);
        }
        let s_num: u64 = acc / sg;
        let s_den: u64 = den0 / sg;
        proof {
            let qn = acc as int / sg as int;
            let qd = den0 as int / sg as int;
            assert(qn >= 1) by (nonlinear_arith)
                requires
                    acc as int == sg as int * qn,
                    acc as int >= 1,
                    sg as int >= 1,
                    qn >= 0,
            ;
            assert(qn <= qd) by (nonlinear_arith)
                requires
                    acc as int == sg as int * qn,
                    den0 as int == sg as int * qd,
                    acc as int <= den0 as int,
                    sg as int >= 1,
            ;
            assert(qn * (den0 as int) == (acc as int) * qd) by (nonlinear_arith)
                requires
                    acc as int == sg as int * qn,
                    den0 as int == sg as int * qd,
            ;
            assert(den0 as int == DIFF_SCALE as int * ABS_SCALE as int * (t as int))
                by (nonlinear_arith)
                requires
                    den0 as int == t as int * (DIFF_SCALE as int * ABS_SCALE as int),
            ;
        }
        Ok(Scale { num: s_num, den: s_den })
    }
}

} // verus!
