//! The virtual-pipe flow kernel: per-edge flow acceleration and damping,
//! the outflow-capping worklist that keeps every cell's depth nonnegative,
//! and the depth update, all as exact integer operations over the flow and
//! depth grids.
//!
//! Pipe sign convention: a positive `pipes_x` value carries water toward
//! increasing `x`, a positive `pipes_y` value toward increasing `y`.

use vstd::prelude::*;

use crate::fixed::ACCEL_DIV;
use crate::fixed::COORD_SCALE;
use crate::fixed::DECAY_RATE;
use crate::fixed::DEPTH_LIMIT;
use crate::fixed::DIM;
use crate::fixed::DIM_M1;
use crate::fixed::DT_MAX;
use crate::fixed::EPS_DEPTH;
use crate::fixed::FLOW_LIMIT;
use crate::fixed::G;
use crate::fixed::MAX_TERRAIN;
use crate::fixed::UPWIND_CAP;
use crate::fixed::clamp;
use crate::fixed::clamp_i128;
use crate::fixed::div_i128;
use crate::fixed::div_i64;
use crate::fixed::div_tz;

verus! {

/// Row-major index of cell `(i, j)`.
pub open spec fn cell_at(i: int, j: int) -> int {
    i + j * DIM
}

/// Index of the pipe between cells `(i, j)` and `(i + 1, j)`.
pub open spec fn xedge_at(i: int, j: int) -> int {
    i + j * (DIM - 1)
}

/// Index of the pipe between cells `(i, j)` and `(i, j + 1)`.
pub open spec fn yedge_at(i: int, j: int) -> int {
    i + j * DIM
}

/// Well-formed pipe grids: full length, every flow within `FLOW_LIMIT`.
pub open spec fn flows_wf(px: Seq<i64>, py: Seq<i64>) -> bool {
    &&& px.len() == (DIM - 1) * DIM
    &&& py.len() == DIM * (DIM - 1)
    &&& forall|e: int| 0 <= e < px.len() ==> -FLOW_LIMIT <= #[trigger] px[e] <= FLOW_LIMIT
    &&& forall|e: int| 0 <= e < py.len() ==> -FLOW_LIMIT <= #[trigger] py[e] <= FLOW_LIMIT
}

/// Well-formed depth grid: full length, every depth in `[0, DEPTH_LIMIT]`.
pub open spec fn depths_wf(d: Seq<i64>) -> bool {
    &&& d.len() == DIM * DIM
    &&& forall|k: int| 0 <= k < d.len() ==> 0 <= #[trigger] d[k] <= DEPTH_LIMIT
}

/// Well-formed terrain grid, as the terrain field guarantees it.
pub open spec fn terrain_wf(t: Seq<i64>) -> bool {
    &&& t.len() == DIM * DIM
    &&& forall|k: int| 0 <= k < t.len() ==> -MAX_TERRAIN < #[trigger] t[k] < MAX_TERRAIN
}

/// Water surface height of cell `k`: terrain plus depth.
pub open spec fn surface(d: Seq<i64>, t: Seq<i64>, k: int) -> int {
    d[k] + t[k]
}

/// The flow-acceleration term of the pipe from cell `a` to cell `b`:
/// `upwind_depth * g * (surface_a - surface_b) * dt`, folded back to flow
/// scale. Positive when `a` stands higher, driving water toward `b`.
pub open spec fn accel(d: Seq<i64>, t: Seq<i64>, dt: int, a: int, b: int) -> int {
    let head = surface(d, t, a) - surface(d, t, b);
    let deeper = if d[a] > d[b] {
        d[a] as int
    } else {
        d[b] as int
    };
    let up = if deeper > UPWIND_CAP {
        UPWIND_CAP as int
    } else {
        deeper
    };
    div_tz(up * G * head * dt, ACCEL_DIV as int)
}

/// The multiplicative friction factor `min(1 - dt * DECAY_RATE, 1)`, at
/// `COORD_SCALE`.
pub open spec fn decay_factor(dt: int) -> int {
    let f = COORD_SCALE - div_tz(dt * DECAY_RATE, COORD_SCALE as int);
    if f > COORD_SCALE {
        COORD_SCALE as int
    } else {
        f
    }
}

/// What one pipe holds after the acceleration/damping step, given the two
/// adjacent cells `a` and `b` (`a` on the lower-coordinate side): wet edges
/// accelerate by the driving head and are damped by friction, clamped into
/// the flow range; an edge between two dry cells is reset to exactly zero.
pub open spec fn step_a_edge(
    f: int,
    d: Seq<i64>,
    t: Seq<i64>,
    dt: int,
    a: int,
    b: int,
) -> int {
    if d[a] > EPS_DEPTH || d[b] > EPS_DEPTH {
        let f1 = f + accel(d, t, dt, a, b);
        let f2 = div_tz(f1 * decay_factor(dt), COORD_SCALE as int);
        clamp(f2, -FLOW_LIMIT as int, FLOW_LIMIT as int)
    } else {
        0
    }
}

/// One pipe's flow update as runtime code, exactly `step_a_edge`.
fn step_a_edge_exec(f: i64, da: i64, db: i64, ta: i64, tb: i64, dt: i64, d: Ghost<Seq<i64>>, t: Ghost<Seq<i64>>, a: Ghost<int>, b: Ghost<int>) -> (nf: i64)
    requires
        0 <= a@ < d@.len(),
        0 <= b@ < d@.len(),
        t@.len() == d@.len(),
        da == d@[a@],
        db == d@[b@],
        ta == t@[a@],
        tb == t@[b@],
        0 <= da <= DEPTH_LIMIT,
        0 <= db <= DEPTH_LIMIT,
        -MAX_TERRAIN < ta < MAX_TERRAIN,
        -MAX_TERRAIN < tb < MAX_TERRAIN,
        -FLOW_LIMIT <= f <= FLOW_LIMIT,
        1 <= dt <= DT_MAX,
    ensures
        nf == step_a_edge(f as int, d@, t@, dt as int, a@, b@),
        -FLOW_LIMIT <= nf <= FLOW_LIMIT,
{
    if da > EPS_DEPTH || db > EPS_DEPTH {
        let deeper: i64 = if da > db {
            da
        } else {
            db
        };
        let up: i64 = if deeper > UPWIND_CAP {
            UPWIND_CAP
        } else {
            deeper
        };
        let head: i64 = (da + ta) - (db + tb);
        let p1: i128 = (up as i128) * (G as i128);
        proof {
            assert(0 <= p1 <= 49_050_000_000) by (nonlinear_arith)
                requires
                    0 <= up <= 5_000_000,
                    p1 == up * 9810,
            ;
            assert(-2_000_100_000_000_000 <= head <= 2_000_100_000_000_000);
            assert(-98_104_905_000_000_000_000_000_000 <= p1 * (head as i128)
                <= 98_104_905_000_000_000_000_000_000) by (nonlinear_arith)
                requires
                    0 <= p1 <= 49_050_000_000,
                    -2_000_100_000_000_000 <= head <= 2_000_100_000_000_000,
            ;
        }
        let p2: i128 = p1 * (head as i128);
        proof {
            assert(-98_104_905_000_000_000_000_000_000_000 <= p2 * (dt as i128)
                <= 98_104_905_000_000_000_000_000_000_000) by (nonlinear_arith)
                requires
                    -98_104_905_000_000_000_000_000_000 <= p2 <= 98_104_905_000_000_000_000_000_000,
                    1 <= dt <= 1000,
            ;
        }
        let p3: i128 = p2 * (dt as i128);
        let acc: i128 = div_i128(p3, ACCEL_DIV as i128);
        proof {
            assert(p3 == (up as int) * G * (head as int) * (dt as int)) by (nonlinear_arith)
                requires
                    p1 == up * 9810,
                    p2 == p1 * head,
                    p3 == p2 * dt,
                    G == 9810,
            ;
        }
        let f1: i128 = (f as i128) + acc;
        let fr: i64 = div_i64(dt * DECAY_RATE, COORD_SCALE);
        let dec: i64 = COORD_SCALE - fr;
        proof {
            assert(950 <= dec <= COORD_SCALE);
            assert(decay_factor(dt as int) == dec as int);
            assert(-98_204_905_000_000_000_000 <= f1 * (dec as i128) <= 98_204_905_000_000_000_000)
                by (nonlinear_arith)
                requires
                    -98_204_905_000_000_000 <= f1 <= 98_204_905_000_000_000,
                    0 <= dec <= 1000,
            ;
        }
        let f2: i128 = div_i128(f1 * (dec as i128), COORD_SCALE as i128);
        clamp_i128(f2, -FLOW_LIMIT, FLOW_LIMIT)
    } else {
        0
    }
}

/// Step A: accelerate and damp every pipe from the driving heads, and
/// reset pipes between dry cells to exactly zero. Depths are read only.
pub fn update_pipes_flow(
    px: &mut Vec<i64>,
    py: &mut Vec<i64>,
    d: &Vec<i64>,
    t: &Vec<i64>,
    dt: i64,
)
    requires
        flows_wf(old(px)@, old(py)@),
        depths_wf(d@),
        terrain_wf(t@),
        1 <= dt <= DT_MAX,
    ensures
        flows_wf(final(px)@, final(py)@),
        forall|i: int, j: int|
            0 <= i < DIM - 1 && 0 <= j < DIM ==> #[trigger] final(px)@[xedge_at(i, j)]
                == step_a_edge(
                old(px)@[xedge_at(i, j)] as int,
                d@,
                t@,
                dt as int,
                cell_at(i, j),
                cell_at(i + 1, j),
            ),
        forall|i: int, j: int|
            0 <= i < DIM && 0 <= j < DIM - 1 ==> #[trigger] final(py)@[yedge_at(i, j)]
                == step_a_edge(
                old(py)@[yedge_at(i, j)] as int,
                d@,
                t@,
                dt as int,
                cell_at(i, j),
                cell_at(i, j + 1),
            ),
{
    let mut i: usize = 0;
    while i < DIM_M1
        invariant
            0 <= i <= DIM - 1,
            px@.len() == (DIM - 1) * DIM,
            depths_wf(d@),
            terrain_wf(t@),
            1 <= dt <= DT_MAX,
            forall|e: int| 0 <= e < px@.len() ==> -FLOW_LIMIT <= #[trigger] px@[e] <= FLOW_LIMIT,
            forall|ii: int, jj: int|
                0 <= ii < DIM - 1 && 0 <= jj < DIM && ii < i ==> #[trigger] px@[xedge_at(ii, jj)]
                    == step_a_edge(
                    old(px)@[xedge_at(ii, jj)] as int,
                    d@,
                    t@,
                    dt as int,
                    cell_at(ii, jj),
                    cell_at(ii + 1, jj),
                ),
            forall|ii: int, jj: int|
                0 <= ii < DIM - 1 && 0 <= jj < DIM && ii >= i ==> #[trigger] px@[xedge_at(ii, jj)]
                    == old(px)@[xedge_at(ii, jj)],
        decreases DIM - 1 - i,
    {
        let mut j: usize = 0;
        while j < DIM
            invariant
                0 <= i < DIM - 1,
                0 <= j <= DIM,
                px@.len() == (DIM - 1) * DIM,
                depths_wf(d@),
                terrain_wf(t@),
                1 <= dt <= DT_MAX,
                forall|e: int|
                    0 <= e < px@.len() ==> -FLOW_LIMIT <= #[trigger] px@[e] <= FLOW_LIMIT,
                forall|ii: int, jj: int|
                    0 <= ii < DIM - 1 && 0 <= jj < DIM && (ii < i || (ii == i && jj < j))
                        ==> #[trigger] px@[xedge_at(ii, jj)] == step_a_edge(
                        old(px)@[xedge_at(ii, jj)] as int,
                        d@,
                        t@,
                        dt as int,
                        cell_at(ii, jj),
                        cell_at(ii + 1, jj),
                    ),
                forall|ii: int, jj: int|
                    0 <= ii < DIM - 1 && 0 <= jj < DIM && (ii > i || (ii == i && jj >= j))
                        ==> #[trigger] px@[xedge_at(ii, jj)] == old(px)@[xedge_at(ii, jj)],
            decreases DIM - j,
        {
            let e: usize = i + j * DIM_M1;
            let a: usize = i + j * DIM;
            let b: usize = a + 1;
            let nf = step_a_edge_exec(
                px[e],
                d[a],
                d[b],
                t[a],
                t[b],
                dt,
                Ghost(d@),
                Ghost(t@),
                Ghost(a as int),
                Ghost(b as int),
            );
            px.set(e, nf);
            j += 1;
        }
        i += 1;
    }
    let mut i: usize = 0;
    while i < DIM
        invariant
            0 <= i <= DIM,
            px@.len() == (DIM - 1) * DIM,
            py@.len() == DIM * (DIM - 1),
            depths_wf(d@),
            terrain_wf(t@),
            1 <= dt <= DT_MAX,
            forall|e: int| 0 <= e < px@.len() ==> -FLOW_LIMIT <= #[trigger] px@[e] <= FLOW_LIMIT,
            forall|e: int| 0 <= e < py@.len() ==> -FLOW_LIMIT <= #[trigger] py@[e] <= FLOW_LIMIT,
            forall|ii: int, jj: int|
                0 <= ii < DIM - 1 && 0 <= jj < DIM ==> #[trigger] px@[xedge_at(ii, jj)]
                    == step_a_edge(
                    old(px)@[xedge_at(ii, jj)] as int,
                    d@,
                    t@,
                    dt as int,
                    cell_at(ii, jj),
                    cell_at(ii + 1, jj),
                ),
            forall|ii: int, jj: int|
                0 <= ii < DIM && 0 <= jj < DIM - 1 && ii < i ==> #[trigger] py@[yedge_at(ii, jj)]
                    == step_a_edge(
                    old(py)@[yedge_at(ii, jj)] as int,
                    d@,
                    t@,
                    dt as int,
                    cell_at(ii, jj),
                    cell_at(ii, jj + 1),
                ),
            forall|ii: int, jj: int|
                0 <= ii < DIM && 0 <= jj < DIM - 1 && ii >= i ==> #[trigger] py@[yedge_at(ii, jj)]
                    == old(py)@[yedge_at(ii, jj)],
        decreases DIM - i,
    {
        let mut j: usize = 0;
        while j < DIM_M1
            invariant
                0 <= i < DIM,
                0 <= j <= DIM - 1,
                px@.len() == (DIM - 1) * DIM,
                py@.len() == DIM * (DIM - 1),
                depths_wf(d@),
                terrain_wf(t@),
                1 <= dt <= DT_MAX,
                forall|e: int|
                    0 <= e < px@.len() ==> -FLOW_LIMIT <= #[trigger] px@[e] <= FLOW_LIMIT,
                forall|e: int|
                    0 <= e < py@.len() ==> -FLOW_LIMIT <= #[trigger] py@[e] <= FLOW_LIMIT,
                forall|ii: int, jj: int|
                    0 <= ii < DIM - 1 && 0 <= jj < DIM ==> #[trigger] px@[xedge_at(ii, jj)]
                        == step_a_edge(
                        old(px)@[xedge_at(ii, jj)] as int,
                        d@,
                        t@,
                        dt as int,
                        cell_at(ii, jj),
                        cell_at(ii + 1, jj),
                    ),
                forall|ii: int, jj: int|
                    0 <= ii < DIM && 0 <= jj < DIM - 1 && (ii < i || (ii == i && jj < j))
                        ==> #[trigger] py@[yedge_at(ii, jj)] == step_a_edge(
                        old(py)@[yedge_at(ii, jj)] as int,
                        d@,
                        t@,
                        dt as int,
                        cell_at(ii, jj),
                        cell_at(ii, jj + 1),
                    ),
                forall|ii: int, jj: int|
                    0 <= ii < DIM && 0 <= jj < DIM - 1 && (ii > i || (ii == i && jj >= j))
                        ==> #[trigger] py@[yedge_at(ii, jj)] == old(py)@[yedge_at(ii, jj)],
            decreases DIM - 1 - j,
        {
            let e: usize = i + j * DIM;
            let a: usize = i + j * DIM;
            let b: usize = a + DIM;
            let nf = step_a_edge_exec(
                py[e],
                d[a],
                d[b],
                t[a],
                t[b],
                dt,
                Ghost(d@),
                Ghost(t@),
                Ghost(a as int),
                Ghost(b as int),
            );
            py.set(e, nf);
            j += 1;
        }
        i += 1;
    }
}

/// Positive part of a flow value.
pub open spec fn pos_part(f: int) -> int {
    if f > 0 {
        f
    } else {
        0
    }
}

/// Magnitude of a negative flow value.
pub open spec fn neg_part(f: int) -> int {
    if f < 0 {
        -f
    } else {
        0
    }
}

/// Total flow leaving cell `(i, j)` through its up-to-four pipes.
pub open spec fn flow_out_at(px: Seq<i64>, py: Seq<i64>, i: int, j: int) -> int {
    (if i < DIM - 1 {
        pos_part(px[xedge_at(i, j)] as int)
    } else {
        0
    }) + (if i > 0 {
        neg_part(px[xedge_at(i - 1, j)] as int)
    } else {
        0
    }) + (if j < DIM - 1 {
        pos_part(py[yedge_at(i, j)] as int)
    } else {
        0
    }) + (if j > 0 {
        neg_part(py[yedge_at(i, j - 1)] as int)
    } else {
        0
    })
}

/// Total flow entering cell `(i, j)` through its up-to-four pipes.
pub open spec fn flow_in_at(px: Seq<i64>, py: Seq<i64>, i: int, j: int) -> int {
    (if i < DIM - 1 {
        neg_part(px[xedge_at(i, j)] as int)
    } else {
        0
    }) + (if i > 0 {
        pos_part(px[xedge_at(i - 1, j)] as int)
    } else {
        0
    }) + (if j < DIM - 1 {
        neg_part(py[yedge_at(i, j)] as int)
    } else {
        0
    }) + (if j > 0 {
        pos_part(py[yedge_at(i, j - 1)] as int)
    } else {
        0
    })
}

/// Net flux into cell `(i, j)`: inflow minus outflow.
pub open spec fn net_flux(px: Seq<i64>, py: Seq<i64>, i: int, j: int) -> int {
    flow_in_at(px, py, i, j) - flow_out_at(px, py, i, j)
}

/// Applying one time step of the current flows cannot drive cell
/// `(i, j)`'s depth negative.
pub open spec fn feasible_at(d: Seq<i64>, px: Seq<i64>, py: Seq<i64>, dt: int, i: int, j: int) -> bool {
    d[cell_at(i, j)] + dt * net_flux(px, py, i, j) >= 0
}

/// Every cell of the grid is feasible.
pub open spec fn all_feasible(d: Seq<i64>, px: Seq<i64>, py: Seq<i64>, dt: int) -> bool {
    forall|i: int, j: int|
        0 <= i < DIM && 0 <= j < DIM ==> #[trigger] feasible_at(d, px, py, dt, i, j)
}

/// Magnitude.
pub open spec fn abs_i(v: int) -> int {
    if v < 0 {
        -v
    } else {
        v
    }
}

/// `n` lies between zero and `o`: the flow kept its direction and lost
/// none of its magnitude to the wrong side.
pub open spec fn shrunk(o: int, n: int) -> bool {
    if o >= 0 {
        0 <= n <= o
    } else {
        o <= n <= 0
    }
}

/// Sum of the magnitudes of all flows in one pipe grid.
pub open spec fn sum_mag(s: Seq<i64>) -> int
    decreases s.len(),
{
    if s.len() == 0 {
        0
    } else {
        sum_mag(s.drop_last()) + abs_i(s.last() as int)
    }
}

/// Magnitude sums are nonnegative.
pub proof fn lemma_sum_mag_nonneg(s: Seq<i64>)
    ensures
        sum_mag(s) >= 0,
    decreases s.len(),
{
    if s.len() > 0 {
        lemma_sum_mag_nonneg(s.drop_last());
    }
}

/// A pointwise magnitude bound carries over to the magnitude sums.
pub proof fn lemma_sum_mag_le(s1: Seq<i64>, s2: Seq<i64>)
    requires
        s1.len() == s2.len(),
        forall|e: int| 0 <= e < s1.len() ==> abs_i(#[trigger] s2[e] as int) <= abs_i(s1[e] as int),
    ensures
        sum_mag(s2) <= sum_mag(s1),
    decreases s1.len(),
{
    if s1.len() > 0 {
        assert(forall|e: int| 0 <= e < s1.len() - 1 ==> s1.drop_last()[e] == s1[e]);
        assert(forall|e: int| 0 <= e < s2.len() - 1 ==> s2.drop_last()[e] == s2[e]);
        lemma_sum_mag_le(s1.drop_last(), s2.drop_last());
        assert(abs_i(s2[s1.len() - 1] as int) <= abs_i(s1[s1.len() - 1] as int));
    }
}

/// A pointwise bound that is strict somewhere makes the sums strictly
/// ordered.
pub proof fn lemma_sum_mag_lt(s1: Seq<i64>, s2: Seq<i64>, w: int)
    requires
        s1.len() == s2.len(),
        forall|e: int| 0 <= e < s1.len() ==> abs_i(#[trigger] s2[e] as int) <= abs_i(s1[e] as int),
        0 <= w < s1.len(),
        abs_i(s2[w] as int) < abs_i(s1[w] as int),
    ensures
        sum_mag(s2) < sum_mag(s1),
    decreases s1.len(),
{
    assert(forall|e: int| 0 <= e < s1.len() - 1 ==> s1.drop_last()[e] == s1[e]);
    assert(forall|e: int| 0 <= e < s2.len() - 1 ==> s2.drop_last()[e] == s2[e]);
    if w == s1.len() - 1 {
        lemma_sum_mag_le(s1.drop_last(), s2.drop_last());
    } else {
        lemma_sum_mag_lt(s1.drop_last(), s2.drop_last(), w);
        assert(abs_i(s2[s1.len() - 1] as int) <= abs_i(s1[s1.len() - 1] as int));
    }
}

/// Rounded-down division distributes sub-additively over a sum.
proof fn lemma_div_sum_le(u: int, v: int, s: int)
    requires
        u >= 0,
        v >= 0,
        s >= 1,
    ensures
        u / s + v / s <= (u + v) / s,
{
    let q1 = u / s;
    let r1 = u % s;
    let q2 = v / s;
    let r2 = v % s;
    vstd::arithmetic::div_mod::lemma_fundamental_div_mod(u, s);
    vstd::arithmetic::div_mod::lemma_fundamental_div_mod(v, s);
    vstd::arithmetic::div_mod::lemma_mod_bound(u, s);
    vstd::arithmetic::div_mod::lemma_mod_bound(v, s);
    assert(u + v == (q1 + q2) * s + (r1 + r2)) by (nonlinear_arith)
        requires
            u == s * q1 + r1,
            v == s * q2 + r2,
    ;
    if r1 + r2 < s {
        vstd::arithmetic::div_mod::lemma_fundamental_div_mod_converse(u + v, s, q1 + q2, r1 + r2);
    } else {
        assert(u + v == (q1 + q2 + 1) * s + (r1 + r2 - s)) by (nonlinear_arith)
            requires
                u + v == (q1 + q2) * s + (r1 + r2),
        ;
        vstd::arithmetic::div_mod::lemma_fundamental_div_mod_converse(
            u + v,
            s,
            q1 + q2 + 1,
            r1 + r2 - s,
        );
    }
}

/// A cell whose depth would go negative has more outflow than it can
/// sustain: the sustainable outflow `fin + depth / dt` is exceeded.
proof fn lemma_violation_bounds(dcell: int, dt: int, fin: int, fout: int)
    requires
        dcell >= 0,
        dt >= 1,
        fin >= 0,
        fout >= 0,
        dcell + dt * (fin - fout) < 0,
    ensures
        fout > fin + dcell / dt,
        fin + dcell / dt >= 0,
        fout >= 1,
{
    let q = dcell / dt;
    vstd::arithmetic::div_mod::lemma_fundamental_div_mod(dcell, dt);
    vstd::arithmetic::div_mod::lemma_mod_bound(dcell, dt);
    vstd::arithmetic::div_mod::lemma_div_pos_is_pos(dcell, dt);
    if fout <= fin + q {
        assert(dt * (fin - fout) >= -(dt * q)) by (nonlinear_arith)
            requires
                fin - fout >= -q,
                dt >= 1,
        ;
        assert(dt * q <= dcell);
        assert(false);
    }
}

/// The capping ratio lies in `[0, COORD_SCALE)`.
proof fn lemma_ratio_range(capped: int, fout: int)
    requires
        0 <= capped < fout,
    ensures
        0 <= (capped * COORD_SCALE) / fout < COORD_SCALE,
{
    vstd::arithmetic::mul::lemma_mul_nonnegative(capped, COORD_SCALE as int);
    vstd::arithmetic::div_mod::lemma_div_pos_is_pos(capped * COORD_SCALE, fout);
    assert(capped * COORD_SCALE < fout * COORD_SCALE) by (nonlinear_arith)
        requires
            capped < fout,
    ;
    vstd::arithmetic::div_mod::lemma_multiply_divide_lt(
        capped * COORD_SCALE,
        fout,
        COORD_SCALE as int,
    );
}

/// Scaling the four outgoing magnitudes by `ratio / COORD_SCALE`, each
/// rounded down, keeps their total within the sustainable outflow.
proof fn lemma_scaled_out_bound(m1: int, m2: int, m3: int, m4: int, ratio: int, capped: int)
    requires
        m1 >= 0,
        m2 >= 0,
        m3 >= 0,
        m4 >= 0,
        m1 + m2 + m3 + m4 >= 1,
        capped >= 0,
        0 <= ratio <= (capped * COORD_SCALE) / (m1 + m2 + m3 + m4),
    ensures
        (m1 * ratio) / (COORD_SCALE as int) + (m2 * ratio) / (COORD_SCALE as int) + (m3 * ratio)
            / (COORD_SCALE as int) + (m4 * ratio) / (COORD_SCALE as int) <= capped,
{
    let s = COORD_SCALE as int;
    let out = m1 + m2 + m3 + m4;
    vstd::arithmetic::mul::lemma_mul_nonnegative(m1, ratio);
    vstd::arithmetic::mul::lemma_mul_nonnegative(m2, ratio);
    vstd::arithmetic::mul::lemma_mul_nonnegative(m3, ratio);
    vstd::arithmetic::mul::lemma_mul_nonnegative(m4, ratio);
    lemma_div_sum_le(m1 * ratio, m2 * ratio, s);
    lemma_div_sum_le(m1 * ratio + m2 * ratio, m3 * ratio, s);
    lemma_div_sum_le(m1 * ratio + m2 * ratio + m3 * ratio, m4 * ratio, s);
    assert(m1 * ratio + m2 * ratio + m3 * ratio + m4 * ratio == (m1 + m2 + m3 + m4) * ratio)
        by (nonlinear_arith);
    let q = (capped * s) / out;
    vstd::arithmetic::div_mod::lemma_fundamental_div_mod(capped * s, out);
    vstd::arithmetic::div_mod::lemma_mod_bound(capped * s, out);
    assert(out * ratio <= capped * s) by (nonlinear_arith)
        requires
            ratio <= q,
            out >= 1,
            capped * s == out * q + (capped * s) % out,
            (capped * s) % out >= 0,
    ;
    vstd::arithmetic::div_mod::lemma_div_is_ordered(out * ratio, capped * s, s);
    assert((capped * s) / s == capped) by {
        vstd::arithmetic::div_mod::lemma_div_multiples_vanish(capped, s);
        assert(capped * s == s * capped) by (nonlinear_arith);
    }
}

/// An outflow within the sustainable bound keeps the depth nonnegative.
proof fn lemma_cap_feasible(dcell: int, dt: int, fin: int, out_new: int)
    requires
        dcell >= 0,
        dt >= 1,
        fin >= 0,
        0 <= out_new <= fin + dcell / dt,
    ensures
        dcell + dt * (fin - out_new) >= 0,
{
    let q = dcell / dt;
    vstd::arithmetic::div_mod::lemma_fundamental_div_mod(dcell, dt);
    vstd::arithmetic::div_mod::lemma_mod_bound(dcell, dt);
    assert(dt * (fin - out_new) >= -(dt * q)) by (nonlinear_arith)
        requires
            fin - out_new >= -q,
            dt >= 1,
    ;
    assert(dt * q <= dcell);
}

/// A cell's net flux depends only on its own four pipes.
proof fn lemma_net_flux_local(
    px1: Seq<i64>,
    py1: Seq<i64>,
    px2: Seq<i64>,
    py2: Seq<i64>,
    ci: int,
    cj: int,
)
    requires
        px1.len() == (DIM - 1) * DIM,
        px2.len() == (DIM - 1) * DIM,
        py1.len() == DIM * (DIM - 1),
        py2.len() == DIM * (DIM - 1),
        0 <= ci < DIM,
        0 <= cj < DIM,
        ci < DIM - 1 ==> px2[xedge_at(ci, cj)] == px1[xedge_at(ci, cj)],
        ci > 0 ==> px2[xedge_at(ci - 1, cj)] == px1[xedge_at(ci - 1, cj)],
        cj < DIM - 1 ==> py2[yedge_at(ci, cj)] == py1[yedge_at(ci, cj)],
        cj > 0 ==> py2[yedge_at(ci, cj - 1)] == py1[yedge_at(ci, cj - 1)],
    ensures
        net_flux(px2, py2, ci, cj) == net_flux(px1, py1, ci, cj),
{
}

/// Inflow and outflow of one cell at runtime.
#[verifier::rlimit(60)]
fn compute_flows(px: &Vec<i64>, py: &Vec<i64>, i: usize, j: usize) -> (r: (i64, i64))
    requires
        flows_wf(px@, py@),
        i < DIM,
        j < DIM,
    ensures
        r.0 == flow_in_at(px@, py@, i as int, j as int),
        r.1 == flow_out_at(px@, py@, i as int, j as int),
        0 <= r.0 <= 4 * FLOW_LIMIT,
        0 <= r.1 <= 4 * FLOW_LIMIT,
{
    let mut fin: i64 = 0;
    let mut fout: i64 = 0;
    if i < DIM_M1 {
        let f: i64 = px[i + j * DIM_M1];
        if f > 0 {
            fout = fout + f;
        } else if f < 0 {
            fin = fin - f;
        }
    }
    if i > 0 {
        let f: i64 = px[i - 1 + j * DIM_M1];
        if f > 0 {
            fin = fin + f;
        } else if f < 0 {
            fout = fout - f;
        }
    }
    if j < DIM_M1 {
        let f: i64 = py[i + j * DIM];
        if f > 0 {
            fout = fout + f;
        } else if f < 0 {
            fin = fin - f;
        }
    }
    if j > 0 {
        let f: i64 = py[i + (j - 1) * DIM];
        if f > 0 {
            fin = fin + f;
        } else if f < 0 {
            fout = fout - f;
        }
    }
    (fin, fout)
}

/// Scale one flow toward zero by `ratio / COORD_SCALE`, rounding toward
/// zero; a nonzero flow strictly loses magnitude.
fn scale_flow(f: i64, ratio: i64) -> (nf: i64)
    requires
        -FLOW_LIMIT <= f <= FLOW_LIMIT,
        0 <= ratio < COORD_SCALE,
    ensures
        nf == div_tz(f * ratio, COORD_SCALE as int),
        shrunk(f as int, nf as int),
        f > 0 ==> 0 <= nf < f && nf == (f * ratio) / (COORD_SCALE as int),
        f < 0 ==> f < nf <= 0 && nf == -(((-f) * ratio) / (COORD_SCALE as int)),
{
    proof {
        assert(-100_000_000_000_000 <= f * ratio <= 100_000_000_000_000) by (nonlinear_arith)
            requires
                -FLOW_LIMIT <= f <= FLOW_LIMIT,
                0 <= ratio <= 1000,
                FLOW_LIMIT == 100_000_000_000i64,
        ;
    }
    let p: i64 = f * ratio;
    let nf: i64 = div_i64(p, COORD_SCALE);
    proof {
        let s = COORD_SCALE as int;
        if f > 0 {
            vstd::arithmetic::mul::lemma_mul_nonnegative(f as int, ratio as int);
            assert(f * ratio < f * s) by (nonlinear_arith)
                requires
                    f >= 1,
                    0 <= ratio < s,
            ;
            vstd::arithmetic::div_mod::lemma_multiply_divide_lt(f * ratio, s, f as int);
            assert(f * s == s * f) by (nonlinear_arith);
        } else if f < 0 {
            let m = -(f as int);
            vstd::arithmetic::mul::lemma_mul_nonnegative(m, ratio as int);
            assert(m * ratio < m * s && (f as int) * ratio == -(m * ratio)) by (nonlinear_arith)
                requires
                    m >= 1,
                    0 <= ratio < s,
                    m == -(f as int),
            ;
            vstd::arithmetic::div_mod::lemma_multiply_divide_lt(m * ratio, s, m);
            assert(m * s == s * m) by (nonlinear_arith);
        } else {
            assert(p == 0) by (nonlinear_arith)
                requires
                    f == 0,
                    p == f * ratio,
            ;
        }
    }
    nf
}

/// Append a cell to the worklist unless it is already on it.
fn push_unique(tc: &mut Vec<(usize, usize)>, ci: usize, cj: usize)
    ensures
        forall|c: (usize, usize)| old(tc)@.contains(c) ==> final(tc)@.contains(c),
        forall|c: (usize, usize)|
            final(tc)@.contains(c) ==> old(tc)@.contains(c) || c == (ci, cj),
        final(tc)@.contains((ci, cj)),
{
    let mut k: usize = 0;
    while k < tc.len()
        invariant
            0 <= k <= tc@.len(),
            tc@ == old(tc)@,
            forall|m: int| 0 <= m < k ==> #[trigger] tc@[m] != (ci, cj),
        decreases tc@.len() - k,
    {
        let c = tc[k];
        if c.0 == ci && c.1 == cj {
            proof {
                assert(tc@[k as int] == (ci, cj));
                assert(tc@.contains((ci, cj)));
            }
            return ;
        }
        k += 1;
    }
    tc.push((ci, cj));
    proof {
        assert(tc@[tc@.len() - 1] == (ci, cj));
        assert(tc@.contains((ci, cj)));
        assert forall|c: (usize, usize)| old(tc)@.contains(c) implies tc@.contains(c) by {
            let w = choose|w: int| 0 <= w < old(tc)@.len() && old(tc)@[w] == c;
            assert(tc@[w] == c);
        }
        assert forall|c: (usize, usize)| tc@.contains(c) implies old(tc)@.contains(c) || c == (
            ci,
            cj,
        ) by {
            let w = choose|w: int| 0 <= w < tc@.len() && tc@[w] == c;
            if w < tc@.len() - 1 {
                assert(old(tc)@[w] == c);
            }
        }
    }
}


/// After scaling the outgoing pipes of cell `(i, j)` by `ratio`, the cell
/// keeps its inflow, its outflow drops within the sustainable bound, and
/// one time step can no longer drive its depth negative.
#[verifier::rlimit(100)]
proof fn lemma_cap_post_feasible(
    d: Seq<i64>,
    px0: Seq<i64>,
    py0: Seq<i64>,
    pxn: Seq<i64>,
    pyn: Seq<i64>,
    dt: int,
    i: int,
    j: int,
    ratio: int,
    capped: int,
)
    requires
        px0.len() == (DIM - 1) * DIM,
        pxn.len() == px0.len(),
        py0.len() == DIM * (DIM - 1),
        pyn.len() == py0.len(),
        d.len() == DIM * DIM,
        0 <= i < DIM,
        0 <= j < DIM,
        dt >= 1,
        d[cell_at(i, j)] >= 0,
        flow_in_at(px0, py0, i, j) >= 0,
        capped == flow_in_at(px0, py0, i, j) + (d[cell_at(i, j)] as int) / dt,
        capped >= 0,
        0 <= ratio < COORD_SCALE,
        flow_out_at(px0, py0, i, j) >= 1,
        ratio <= (capped * COORD_SCALE) / flow_out_at(px0, py0, i, j),
        i < DIM - 1 ==> (if px0[xedge_at(i, j)] > 0 {
            pxn[xedge_at(i, j)] == div_tz(px0[xedge_at(i, j)] * ratio, COORD_SCALE as int)
        } else {
            pxn[xedge_at(i, j)] == px0[xedge_at(i, j)]
        }),
        i > 0 ==> (if px0[xedge_at(i - 1, j)] < 0 {
            pxn[xedge_at(i - 1, j)] == div_tz(px0[xedge_at(i - 1, j)] * ratio, COORD_SCALE as int)
        } else {
            pxn[xedge_at(i - 1, j)] == px0[xedge_at(i - 1, j)]
        }),
        j < DIM - 1 ==> (if py0[yedge_at(i, j)] > 0 {
            pyn[yedge_at(i, j)] == div_tz(py0[yedge_at(i, j)] * ratio, COORD_SCALE as int)
        } else {
            pyn[yedge_at(i, j)] == py0[yedge_at(i, j)]
        }),
        j > 0 ==> (if py0[yedge_at(i, j - 1)] < 0 {
            pyn[yedge_at(i, j - 1)] == div_tz(py0[yedge_at(i, j - 1)] * ratio, COORD_SCALE as int)
        } else {
            pyn[yedge_at(i, j - 1)] == py0[yedge_at(i, j - 1)]
        }),
    ensures
        flow_in_at(pxn, pyn, i, j) == flow_in_at(px0, py0, i, j),
        0 <= flow_out_at(pxn, pyn, i, j) <= capped,
        feasible_at(d, pxn, pyn, dt, i, j),
{
    let s = COORD_SCALE as int;
    let e1 = xedge_at(i, j);
    let e2 = xedge_at(i - 1, j);
    let e3 = yedge_at(i, j);
    let e4 = yedge_at(i, j - 1);
    let m1: int = if i < DIM - 1 {
        pos_part(px0[e1] as int)
    } else {
        0
    };
    let m2: int = if i > 0 {
        neg_part(px0[e2] as int)
    } else {
        0
    };
    let m3: int = if j < DIM - 1 {
        pos_part(py0[e3] as int)
    } else {
        0
    };
    let m4: int = if j > 0 {
        neg_part(py0[e4] as int)
    } else {
        0
    };
    let n1 = (m1 * ratio) / s;
    let n2 = (m2 * ratio) / s;
    let n3 = (m3 * ratio) / s;
    let n4 = (m4 * ratio) / s;
    vstd::arithmetic::mul::lemma_mul_nonnegative(m1, ratio);
    vstd::arithmetic::mul::lemma_mul_nonnegative(m2, ratio);
    vstd::arithmetic::mul::lemma_mul_nonnegative(m3, ratio);
    vstd::arithmetic::mul::lemma_mul_nonnegative(m4, ratio);
    vstd::arithmetic::div_mod::lemma_div_pos_is_pos(m1 * ratio, s);
    vstd::arithmetic::div_mod::lemma_div_pos_is_pos(m2 * ratio, s);
    vstd::arithmetic::div_mod::lemma_div_pos_is_pos(m3 * ratio, s);
    vstd::arithmetic::div_mod::lemma_div_pos_is_pos(m4 * ratio, s);
    assert((0 * ratio) / s == 0) by {
        vstd::arithmetic::div_mod::lemma_div_of0(s);
    }
    assert(i < DIM - 1 ==> pos_part(pxn[e1] as int) == n1 && neg_part(pxn[e1] as int) == neg_part(
        px0[e1] as int,
    )) by {
        if i < DIM - 1 && px0[e1] > 0 {
            vstd::arithmetic::mul::lemma_mul_nonnegative(px0[e1] as int, ratio);
        }
    }
    assert(i > 0 ==> neg_part(pxn[e2] as int) == n2 && pos_part(pxn[e2] as int) == pos_part(
        px0[e2] as int,
    )) by {
        if i > 0 && px0[e2] < 0 {
            assert(px0[e2] * ratio == -(m2 * ratio)) by (nonlinear_arith)
                requires
                    m2 == -(px0[e2] as int),
            ;
        }
    }
    assert(j < DIM - 1 ==> pos_part(pyn[e3] as int) == n3 && neg_part(pyn[e3] as int) == neg_part(
        py0[e3] as int,
    )) by {
        if j < DIM - 1 && py0[e3] > 0 {
            vstd::arithmetic::mul::lemma_mul_nonnegative(py0[e3] as int, ratio);
        }
    }
    assert(j > 0 ==> neg_part(pyn[e4] as int) == n4 && pos_part(pyn[e4] as int) == pos_part(
        py0[e4] as int,
    )) by {
        if j > 0 && py0[e4] < 0 {
            assert(py0[e4] * ratio == -(m4 * ratio)) by (nonlinear_arith)
                requires
                    m4 == -(py0[e4] as int),
            ;
        }
    }
    assert(flow_out_at(pxn, pyn, i, j) == n1 + n2 + n3 + n4);
    assert(flow_in_at(pxn, pyn, i, j) == flow_in_at(px0, py0, i, j));
    assert(flow_out_at(px0, py0, i, j) == m1 + m2 + m3 + m4);
    lemma_scaled_out_bound(m1, m2, m3, m4, ratio, capped);
    lemma_cap_feasible(d[cell_at(i, j)] as int, dt, flow_in_at(px0, py0, i, j), n1 + n2 + n3 + n4);
}

/// A cell other than `(i, j)` whose feasibility was broken by the scaling
/// sits behind one of the scaled pipes, and those neighbours are all on
/// the worklist.
#[verifier::rlimit(100)]
proof fn lemma_cap_lost_pushed(
    d: Seq<i64>,
    px0: Seq<i64>,
    py0: Seq<i64>,
    pxn: Seq<i64>,
    pyn: Seq<i64>,
    tcn: Seq<(usize, usize)>,
    dt: int,
    i: int,
    j: int,
)
    requires
        px0.len() == (DIM - 1) * DIM,
        pxn.len() == px0.len(),
        py0.len() == DIM * (DIM - 1),
        pyn.len() == py0.len(),
        0 <= i < DIM,
        0 <= j < DIM,
        forall|e: int|
            0 <= e < px0.len() && !(i < DIM - 1 && e == xedge_at(i, j)) && !(i > 0 && e
                == xedge_at(i - 1, j)) ==> #[trigger] pxn[e] == px0[e],
        forall|e: int|
            0 <= e < py0.len() && !(j < DIM - 1 && e == yedge_at(i, j)) && !(j > 0 && e
                == yedge_at(i, j - 1)) ==> #[trigger] pyn[e] == py0[e],
        i < DIM - 1 && px0[xedge_at(i, j)] > 0 ==> tcn.contains(((i + 1) as usize, j as usize)),
        i < DIM - 1 && px0[xedge_at(i, j)] <= 0 ==> pxn[xedge_at(i, j)] == px0[xedge_at(i, j)],
        i > 0 && px0[xedge_at(i - 1, j)] < 0 ==> tcn.contains(((i - 1) as usize, j as usize)),
        i > 0 && px0[xedge_at(i - 1, j)] >= 0 ==> pxn[xedge_at(i - 1, j)] == px0[xedge_at(
            i - 1,
            j,
        )],
        j < DIM - 1 && py0[yedge_at(i, j)] > 0 ==> tcn.contains((i as usize, (j + 1) as usize)),
        j < DIM - 1 && py0[yedge_at(i, j)] <= 0 ==> pyn[yedge_at(i, j)] == py0[yedge_at(i, j)],
        j > 0 && py0[yedge_at(i, j - 1)] < 0 ==> tcn.contains((i as usize, (j - 1) as usize)),
        j > 0 && py0[yedge_at(i, j - 1)] >= 0 ==> pyn[yedge_at(i, j - 1)] == py0[yedge_at(
            i,
            j - 1,
        )],
    ensures
        forall|ci: int, cj: int|
            0 <= ci < DIM && 0 <= cj < DIM && !(ci == i && cj == j) && feasible_at(
                d,
                px0,
                py0,
                dt,
                ci,
                cj,
            ) && !feasible_at(d, pxn, pyn, dt, ci, cj) ==> tcn.contains(
                (ci as usize, cj as usize),
            ),
{
    assert forall|ci: int, cj: int|
        0 <= ci < DIM && 0 <= cj < DIM && !(ci == i && cj == j) && feasible_at(
            d,
            px0,
            py0,
            dt,
            ci,
            cj,
        ) && !feasible_at(d, pxn, pyn, dt, ci, cj) implies tcn.contains(
        (ci as usize, cj as usize),
    ) by {
        let sc1 = i < DIM - 1 && px0[xedge_at(i, j)] > 0;
        let sc2 = i > 0 && px0[xedge_at(i - 1, j)] < 0;
        let sc3 = j < DIM - 1 && py0[yedge_at(i, j)] > 0;
        let sc4 = j > 0 && py0[yedge_at(i, j - 1)] < 0;
        if ci == i + 1 && cj == j && sc1 {
        } else if ci == i - 1 && cj == j && sc2 {
        } else if ci == i && cj == j + 1 && sc3 {
        } else if ci == i && cj == j - 1 && sc4 {
        } else {
            assert(ci < DIM - 1 ==> pxn[xedge_at(ci, cj)] == px0[xedge_at(ci, cj)]);
            assert(ci > 0 ==> pxn[xedge_at(ci - 1, cj)] == px0[xedge_at(ci - 1, cj)]);
            assert(cj < DIM - 1 ==> pyn[yedge_at(ci, cj)] == py0[yedge_at(ci, cj)]);
            assert(cj > 0 ==> pyn[yedge_at(ci, cj - 1)] == py0[yedge_at(ci, cj - 1)]);
            lemma_net_flux_local(px0, py0, pxn, pyn, ci, cj);
            assert(false);
        }
    }
}

/// Scale every outgoing pipe of cell `(i, j)` by `ratio / COORD_SCALE`
/// and queue the neighbour behind each scaled pipe.
#[verifier::rlimit(100)]
fn scale_outgoing(
    px: &mut Vec<i64>,
    py: &mut Vec<i64>,
    ratio: i64,
    i: usize,
    j: usize,
    tc: &mut Vec<(usize, usize)>,
)
    requires
        flows_wf(old(px)@, old(py)@),
        0 <= ratio < COORD_SCALE,
        i < DIM,
        j < DIM,
    ensures
        flows_wf(final(px)@, final(py)@),
        forall|e: int|
            0 <= e < old(px)@.len() && !(i < DIM - 1 && e == xedge_at(i as int, j as int)) && !(i
                > 0 && e == xedge_at(i as int - 1, j as int)) ==> #[trigger] final(px)@[e] == old(
                px,
            )@[e],
        forall|e: int|
            0 <= e < old(py)@.len() && !(j < DIM - 1 && e == yedge_at(i as int, j as int)) && !(j
                > 0 && e == yedge_at(i as int, j as int - 1)) ==> #[trigger] final(py)@[e] == old(
                py,
            )@[e],
        i < DIM - 1 ==> (if old(px)@[xedge_at(i as int, j as int)] > 0 {
            final(px)@[xedge_at(i as int, j as int)] == div_tz(
                old(px)@[xedge_at(i as int, j as int)] * ratio,
                COORD_SCALE as int,
            ) && final(px)@[xedge_at(i as int, j as int)] < old(px)@[xedge_at(i as int, j as int)]
                && final(px)@[xedge_at(i as int, j as int)] >= 0 && final(tc)@.contains(
                ((i + 1) as usize, j),
            )
        } else {
            final(px)@[xedge_at(i as int, j as int)] == old(px)@[xedge_at(i as int, j as int)]
        }),
        i > 0 ==> (if old(px)@[xedge_at(i as int - 1, j as int)] < 0 {
            final(px)@[xedge_at(i as int - 1, j as int)] == div_tz(
                old(px)@[xedge_at(i as int - 1, j as int)] * ratio,
                COORD_SCALE as int,
            ) && final(px)@[xedge_at(i as int - 1, j as int)] > old(px)@[xedge_at(
                i as int - 1,
                j as int,
            )] && final(px)@[xedge_at(i as int - 1, j as int)] <= 0 && final(tc)@.contains(
                ((i - 1) as usize, j),
            )
        } else {
            final(px)@[xedge_at(i as int - 1, j as int)] == old(px)@[xedge_at(
                i as int - 1,
                j as int,
            )]
        }),
        j < DIM - 1 ==> (if old(py)@[yedge_at(i as int, j as int)] > 0 {
            final(py)@[yedge_at(i as int, j as int)] == div_tz(
                old(py)@[yedge_at(i as int, j as int)] * ratio,
                COORD_SCALE as int,
            ) && final(py)@[yedge_at(i as int, j as int)] < old(py)@[yedge_at(i as int, j as int)]
                && final(py)@[yedge_at(i as int, j as int)] >= 0 && final(tc)@.contains(
                (i, (j + 1) as usize),
            )
        } else {
            final(py)@[yedge_at(i as int, j as int)] == old(py)@[yedge_at(i as int, j as int)]
        }),
        j > 0 ==> (if old(py)@[yedge_at(i as int, j as int - 1)] < 0 {
            final(py)@[yedge_at(i as int, j as int - 1)] == div_tz(
                old(py)@[yedge_at(i as int, j as int - 1)] * ratio,
                COORD_SCALE as int,
            ) && final(py)@[yedge_at(i as int, j as int - 1)] > old(py)@[yedge_at(
                i as int,
                j as int - 1,
            )] && final(py)@[yedge_at(i as int, j as int - 1)] <= 0 && final(tc)@.contains(
                (i, (j - 1) as usize),
            )
        } else {
            final(py)@[yedge_at(i as int, j as int - 1)] == old(py)@[yedge_at(
                i as int,
                j as int - 1,
            )]
        }),
        forall|e: int|
            0 <= e < old(px)@.len() ==> shrunk(
                old(px)@[e] as int,
                #[trigger] final(px)@[e] as int,
            ),
        forall|e: int|
            0 <= e < old(py)@.len() ==> shrunk(
                old(py)@[e] as int,
                #[trigger] final(py)@[e] as int,
            ),
        forall|c: (usize, usize)| old(tc)@.contains(c) ==> final(tc)@.contains(c),
        forall|c: (usize, usize)|
            final(tc)@.contains(c) ==> old(tc)@.contains(c) || (c.0 < DIM && c.1 < DIM),
{
    if i < DIM_M1 {
        let ex: usize = i + j * DIM_M1;
        let f: i64 = px[ex];
        if f > 0 {
            let nf = scale_flow(f, ratio);
            px.set(ex, nf);
            push_unique(tc, i + 1, j);
        }
    }
    if i > 0 {
        let ex: usize = i - 1 + j * DIM_M1;
        let f: i64 = px[ex];
        if f < 0 {
            let nf = scale_flow(f, ratio);
            px.set(ex, nf);
            push_unique(tc, i - 1, j);
        }
    }
    if j < DIM_M1 {
        let ey: usize = i + j * DIM;
        let f: i64 = py[ey];
        if f > 0 {
            let nf = scale_flow(f, ratio);
            py.set(ey, nf);
            push_unique(tc, i, j + 1);
        }
    }
    if j > 0 {
        let ey: usize = i + (j - 1) * DIM;
        let f: i64 = py[ey];
        if f < 0 {
            let nf = scale_flow(f, ratio);
            py.set(ey, nf);
            push_unique(tc, i, j - 1);
        }
    }
}

/// Cap the outflow of cell `(i, j)`: when one time step of the current
/// flows would drive its depth negative, every outgoing pipe is scaled
/// down by the sustainable-outflow ratio (clamped to `[0, 1)`, rounding
/// toward zero) and each neighbour behind a scaled pipe is queued for
/// re-checking. Flows only ever shrink toward zero, and a violating cell
/// strictly reduces the total flow magnitude, which bounds the worklist.
#[verifier::rlimit(100)]
fn cap_flow(
    px: &mut Vec<i64>,
    py: &mut Vec<i64>,
    d: &Vec<i64>,
    dt: i64,
    i: usize,
    j: usize,
    tc: &mut Vec<(usize, usize)>,
)
    requires
        flows_wf(old(px)@, old(py)@),
        depths_wf(d@),
        1 <= dt <= DT_MAX,
        i < DIM,
        j < DIM,
    ensures
        flows_wf(final(px)@, final(py)@),
        forall|e: int|
            0 <= e < old(px)@.len() ==> shrunk(
                old(px)@[e] as int,
                #[trigger] final(px)@[e] as int,
            ),
        forall|e: int|
            0 <= e < old(py)@.len() ==> shrunk(
                old(py)@[e] as int,
                #[trigger] final(py)@[e] as int,
            ),
        feasible_at(d@, final(px)@, final(py)@, dt as int, i as int, j as int),
        forall|c: (usize, usize)| old(tc)@.contains(c) ==> final(tc)@.contains(c),
        forall|c: (usize, usize)|
            final(tc)@.contains(c) ==> old(tc)@.contains(c) || (c.0 < DIM && c.1 < DIM),
        forall|ci: int, cj: int|
            0 <= ci < DIM && 0 <= cj < DIM && !(ci == i && cj == j) && feasible_at(
                d@,
                old(px)@,
                old(py)@,
                dt as int,
                ci,
                cj,
            ) && !feasible_at(d@, final(px)@, final(py)@, dt as int, ci, cj)
                ==> final(tc)@.contains((ci as usize, cj as usize)),
        feasible_at(d@, old(px)@, old(py)@, dt as int, i as int, j as int) ==> final(px)@ == old(px)@
            && final(py)@ == old(py)@ && final(tc)@ == old(tc)@,
        !feasible_at(d@, old(px)@, old(py)@, dt as int, i as int, j as int) ==> sum_mag(
            final(px)@,
        ) + sum_mag(final(py)@) < sum_mag(old(px)@) + sum_mag(old(py)@),
{
    let ghost ii: int = i as int;
    let ghost jj: int = j as int;
    let ghost dtt: int = dt as int;
    let r = compute_flows(px, py, i, j);
    let fin: i64 = r.0;
    let fout: i64 = r.1;
    let k: usize = i + j * DIM;
    let dcell: i64 = d[k];
    let net: i64 = fin - fout;
    proof {
        assert(-1_000_000_000_000_000 <= dt * net <= 1_000_000_000_000_000) by (nonlinear_arith)
            requires
                1 <= dt <= 1000,
                -400_000_000_000 <= net <= 400_000_000_000,
        ;
    }
    let delta: i64 = dt * net;
    if dcell + delta < 0 {
        proof {
            assert(!feasible_at(d@, px@, py@, dtt, ii, jj));
            lemma_violation_bounds(dcell as int, dtt, fin as int, fout as int);
        }
        let qd: i64 = div_i64(dcell, dt);
        let capped: i64 = fin + qd;
        proof {
            assert(0 <= capped * COORD_SCALE <= 1_000_400_000_000_000_000) by (nonlinear_arith)
                requires
                    0 <= capped <= 1_000_400_000_000_000,
            ;
        }
        let ratio0: i64 = div_i64(capped * COORD_SCALE, fout);
        proof {
            lemma_ratio_range(capped as int, fout as int);
        }
        let ratio: i64 = if ratio0 >= COORD_SCALE {
            0
        } else {
            ratio0
        };
        let ghost px0 = px@;
        let ghost py0 = py@;
        let ghost m1: int = if ii < DIM - 1 {
            pos_part(px0[xedge_at(ii, jj)] as int)
        } else {
            0
        };
        let ghost m2: int = if ii > 0 {
            neg_part(px0[xedge_at(ii - 1, jj)] as int)
        } else {
            0
        };
        let ghost m3: int = if jj < DIM - 1 {
            pos_part(py0[yedge_at(ii, jj)] as int)
        } else {
            0
        };
        let ghost m4: int = if jj > 0 {
            neg_part(py0[yedge_at(ii, jj - 1)] as int)
        } else {
            0
        };
        proof {
            assert(fout == m1 + m2 + m3 + m4);
        }
        scale_outgoing(px, py, ratio, i, j, tc);
        proof {
            let pxn = px@;
            let pyn = py@;
            lemma_cap_post_feasible(d@, px0, py0, pxn, pyn, dtt, ii, jj, ratio as int, capped as int);
            lemma_cap_lost_pushed(d@, px0, py0, pxn, pyn, tc@, dtt, ii, jj);
            if m1 >= 1 {
                lemma_sum_mag_lt(px0, pxn, xedge_at(ii, jj));
                lemma_sum_mag_le(py0, pyn);
            } else if m2 >= 1 {
                lemma_sum_mag_lt(px0, pxn, xedge_at(ii - 1, jj));
                lemma_sum_mag_le(py0, pyn);
            } else if m3 >= 1 {
                lemma_sum_mag_le(px0, pxn);
                lemma_sum_mag_lt(py0, pyn, yedge_at(ii, jj));
            } else {
                assert(m4 >= 1);
                lemma_sum_mag_le(px0, pxn);
                lemma_sum_mag_lt(py0, pyn, yedge_at(ii, jj - 1));
            }
        }
    }
}


/// Shrinking toward zero is transitive, pointwise over the pipe grids.
proof fn lemma_shrunk_trans(a: Seq<i64>, b: Seq<i64>, c: Seq<i64>)
    requires
        a.len() == b.len(),
        b.len() == c.len(),
        forall|e: int| 0 <= e < a.len() ==> shrunk(a[e] as int, #[trigger] b[e] as int),
        forall|e: int| 0 <= e < b.len() ==> shrunk(b[e] as int, #[trigger] c[e] as int),
    ensures
        forall|e: int| 0 <= e < a.len() ==> shrunk(a[e] as int, #[trigger] c[e] as int),
{
    assert forall|e: int| 0 <= e < a.len() implies shrunk(a[e] as int, #[trigger] c[e] as int) by {
        assert(shrunk(a[e] as int, b[e] as int));
        assert(shrunk(b[e] as int, c[e] as int));
    }
}

/// Step B: the outflow-capping relaxation. Starting from one sweep over
/// all cells, every cell whose depth one time step would drive negative
/// has its outgoing pipes scaled down, and neighbours behind scaled pipes
/// are re-checked until no violation remains. On return every cell is
/// feasible: applying `dt` to the corrected flows keeps all depths
/// nonnegative. Flows only ever shrink toward zero, so pipes between dry
/// cells that step A reset to zero stay exactly zero.
#[verifier::rlimit(100)]
pub fn limit_flows(px: &mut Vec<i64>, py: &mut Vec<i64>, d: &Vec<i64>, dt: i64)
    requires
        flows_wf(old(px)@, old(py)@),
        depths_wf(d@),
        1 <= dt <= DT_MAX,
    ensures
        flows_wf(final(px)@, final(py)@),
        forall|e: int|
            0 <= e < old(px)@.len() ==> shrunk(
                old(px)@[e] as int,
                #[trigger] final(px)@[e] as int,
            ),
        forall|e: int|
            0 <= e < old(py)@.len() ==> shrunk(
                old(py)@[e] as int,
                #[trigger] final(py)@[e] as int,
            ),
        all_feasible(d@, final(px)@, final(py)@, dt as int),
{
    let mut tc: Vec<(usize, usize)> = Vec::new();
    let mut i: usize = 0;
    while i < DIM
        invariant
            0 <= i <= DIM,
            flows_wf(px@, py@),
            depths_wf(d@),
            1 <= dt <= DT_MAX,
            old(px)@.len() == (DIM - 1) * DIM,
            old(py)@.len() == DIM * (DIM - 1),
            forall|e: int|
                0 <= e < old(px)@.len() ==> shrunk(old(px)@[e] as int, #[trigger] px@[e] as int),
            forall|e: int|
                0 <= e < old(py)@.len() ==> shrunk(old(py)@[e] as int, #[trigger] py@[e] as int),
            forall|m: int| 0 <= m < tc@.len() ==> (#[trigger] tc@[m]).0 < DIM && tc@[m].1 < DIM,
            forall|ci: int, cj: int|
                0 <= ci < i && 0 <= cj < DIM ==> #[trigger] feasible_at(
                    d@,
                    px@,
                    py@,
                    dt as int,
                    ci,
                    cj,
                ) || tc@.contains((ci as usize, cj as usize)),
        decreases DIM - i,
    {
        let mut j: usize = 0;
        while j < DIM
            invariant
                0 <= i < DIM,
                0 <= j <= DIM,
                flows_wf(px@, py@),
                depths_wf(d@),
                1 <= dt <= DT_MAX,
                old(px)@.len() == (DIM - 1) * DIM,
                old(py)@.len() == DIM * (DIM - 1),
                forall|e: int|
                    0 <= e < old(px)@.len() ==> shrunk(
                        old(px)@[e] as int,
                        #[trigger] px@[e] as int,
                    ),
                forall|e: int|
                    0 <= e < old(py)@.len() ==> shrunk(
                        old(py)@[e] as int,
                        #[trigger] py@[e] as int,
                    ),
                forall|m: int|
                    0 <= m < tc@.len() ==> (#[trigger] tc@[m]).0 < DIM && tc@[m].1 < DIM,
                forall|ci: int, cj: int|
                    0 <= ci < DIM && 0 <= cj < DIM && (ci < i || (ci == i && cj < j))
                        ==> #[trigger] feasible_at(d@, px@, py@, dt as int, ci, cj)
                        || tc@.contains((ci as usize, cj as usize)),
            decreases DIM - j,
        {
            let ghost px_pre = px@;
            let ghost py_pre = py@;
            let ghost tc_pre = tc@;
            cap_flow(px, py, d, dt, i, j, &mut tc);
            proof {
                lemma_shrunk_trans(old(px)@, px_pre, px@);
                lemma_shrunk_trans(old(py)@, py_pre, py@);
                assert forall|m: int| 0 <= m < tc@.len() implies (#[trigger] tc@[m]).0 < DIM
                    && (tc@[m]).1 < DIM by {
                    let cc = tc@[m];
                    assert(tc@.contains(cc));
                    if tc_pre.contains(cc) {
                        let w = choose|w: int| 0 <= w < tc_pre.len() && tc_pre[w] == cc;
                        assert((tc_pre[w]).0 < DIM && (tc_pre[w]).1 < DIM);
                    }
                }
                assert forall|ci: int, cj: int|
                    0 <= ci < DIM && 0 <= cj < DIM && (ci < i || (ci == i && cj < j + 1)) implies
                    #[trigger] feasible_at(d@, px@, py@, dt as int, ci, cj) || tc@.contains(
                    (ci as usize, cj as usize),
                ) by {
                    if ci == i && cj == j {
                    } else if ci < i || (ci == i && cj < j) {
                        if feasible_at(d@, px_pre, py_pre, dt as int, ci, cj) {
                        } else {
                            assert(tc_pre.contains((ci as usize, cj as usize)));
                        }
                    }
                }
            }
            j += 1;
        }
        i += 1;
    }
    proof {
        lemma_sum_mag_nonneg(px@);
        lemma_sum_mag_nonneg(py@);
    }
    while tc.len() > 0
        invariant
            flows_wf(px@, py@),
            depths_wf(d@),
            1 <= dt <= DT_MAX,
            old(px)@.len() == (DIM - 1) * DIM,
            old(py)@.len() == DIM * (DIM - 1),
            forall|e: int|
                0 <= e < old(px)@.len() ==> shrunk(old(px)@[e] as int, #[trigger] px@[e] as int),
            forall|e: int|
                0 <= e < old(py)@.len() ==> shrunk(old(py)@[e] as int, #[trigger] py@[e] as int),
            forall|m: int| 0 <= m < tc@.len() ==> (#[trigger] tc@[m]).0 < DIM && tc@[m].1 < DIM,
            forall|ci: int, cj: int|
                0 <= ci < DIM && 0 <= cj < DIM ==> #[trigger] feasible_at(
                    d@,
                    px@,
                    py@,
                    dt as int,
                    ci,
                    cj,
                ) || tc@.contains((ci as usize, cj as usize)),
        decreases sum_mag(px@) + sum_mag(py@), tc@.len(),
    {
        let ghost tc0 = tc@;
        let ghost px_pre = px@;
        let ghost py_pre = py@;
        let c = tc.pop().unwrap();
        let ghost tc_mid = tc@;
        proof {
            assert(tc0[tc0.len() - 1] == c);
            assert(c.0 < DIM && c.1 < DIM);
        }
        cap_flow(px, py, d, dt, c.0, c.1, &mut tc);
        proof {
            lemma_sum_mag_nonneg(px@);
            lemma_sum_mag_nonneg(py@);
            lemma_shrunk_trans(old(px)@, px_pre, px@);
            lemma_shrunk_trans(old(py)@, py_pre, py@);
            assert forall|m: int| 0 <= m < tc_mid.len() implies (#[trigger] tc_mid[m]).0 < DIM
                && (tc_mid[m]).1 < DIM by {
                assert(tc_mid[m] == tc0[m]);
            }
            assert forall|m: int| 0 <= m < tc@.len() implies (#[trigger] tc@[m]).0 < DIM
                && (tc@[m]).1 < DIM by {
                let cc = tc@[m];
                assert(tc@.contains(cc));
                if tc_mid.contains(cc) {
                    let w = choose|w: int| 0 <= w < tc_mid.len() && tc_mid[w] == cc;
                    assert((tc_mid[w]).0 < DIM && (tc_mid[w]).1 < DIM);
                }
            }
            assert forall|ci: int, cj: int| 0 <= ci < DIM && 0 <= cj < DIM implies
                #[trigger] feasible_at(d@, px@, py@, dt as int, ci, cj) || tc@.contains(
                (ci as usize, cj as usize),
            ) by {
                if ci == c.0 && cj == c.1 {
                } else {
                    let cc = (ci as usize, cj as usize);
                    if feasible_at(d@, px_pre, py_pre, dt as int, ci, cj) {
                    } else {
                        assert(tc0.contains(cc));
                        let w = choose|w: int| 0 <= w < tc0.len() && tc0[w] == cc;
                        if w == tc0.len() - 1 {
                            assert(cc == c);
                            assert(false);
                        } else {
                            assert(tc_mid[w] == cc);
                            assert(tc_mid.contains(cc));
                        }
                    }
                }
            }
        }
    }
    proof {
        assert forall|i: int, j: int| 0 <= i < DIM && 0 <= j < DIM implies #[trigger] feasible_at(
            d@,
            px@,
            py@,
            dt as int,
            i,
            j,
        ) by {
            assert(!tc@.contains((i as usize, j as usize)));
        }
    }
}

/// Sum of the first `n` cells of the depth grid.
pub open spec fn sum_prefix(d: Seq<i64>, n: int) -> int
    decreases n,
{
    if n <= 0 {
        0
    } else {
        sum_prefix(d, n - 1) + d[n - 1]
    }
}

/// Total water volume: the sum of all cell depths.
pub open spec fn depth_sum(d: Seq<i64>) -> int {
    sum_prefix(d, d.len() as int)
}

/// Prefix sums only read the prefix.
pub proof fn lemma_sum_prefix_congruence(s1: Seq<i64>, s2: Seq<i64>, n: int)
    requires
        0 <= n <= s1.len(),
        n <= s2.len(),
        forall|k: int| 0 <= k < n ==> #[trigger] s1[k] == s2[k],
    ensures
        sum_prefix(s1, n) == sum_prefix(s2, n),
    decreases n,
{
    if n > 0 {
        lemma_sum_prefix_congruence(s1, s2, n - 1);
    }
}

/// What a cell's depth becomes in step C: the old depth plus one time step
/// of net flux, held below the machine depth bound.
pub open spec fn depth_after(d: Seq<i64>, px: Seq<i64>, py: Seq<i64>, dt: int, i: int, j: int) -> int {
    let nd = d[cell_at(i, j)] + dt * net_flux(px, py, i, j);
    if nd > DEPTH_LIMIT {
        DEPTH_LIMIT as int
    } else {
        nd
    }
}

/// Step C: apply one time step of the corrected flows to every cell and
/// recompute the average depth. Feasibility from step B makes every new
/// depth nonnegative, exactly.
#[verifier::rlimit(100)]
pub fn update_depths(d: &mut Vec<i64>, px: &Vec<i64>, py: &Vec<i64>, dt: i64) -> (avg: i64)
    requires
        depths_wf(old(d)@),
        flows_wf(px@, py@),
        1 <= dt <= DT_MAX,
        all_feasible(old(d)@, px@, py@, dt as int),
    ensures
        depths_wf(final(d)@),
        forall|i: int, j: int|
            0 <= i < DIM && 0 <= j < DIM ==> final(d)@[cell_at(i, j)] == #[trigger] depth_after(
                old(d)@,
                px@,
                py@,
                dt as int,
                i,
                j,
            ),
        avg == depth_sum(final(d)@) / ((DIM * DIM) as int),
        0 <= avg <= DEPTH_LIMIT,
{
    let mut sum: i128 = 0;
    let mut j: usize = 0;
    while j < DIM
        invariant
            0 <= j <= DIM,
            d@.len() == DIM * DIM,
            old(d)@.len() == DIM * DIM,
            depths_wf(old(d)@),
            flows_wf(px@, py@),
            1 <= dt <= DT_MAX,
            all_feasible(old(d)@, px@, py@, dt as int),
            forall|ci: int, cj: int|
                0 <= ci < DIM && 0 <= cj < DIM && cj < j ==> d@[cell_at(ci, cj)]
                    == #[trigger] depth_after(old(d)@, px@, py@, dt as int, ci, cj),
            forall|k: int| j * DIM <= k < DIM * DIM ==> #[trigger] d@[k] == old(d)@[k],
            forall|k: int| 0 <= k < DIM * DIM ==> 0 <= #[trigger] d@[k] <= DEPTH_LIMIT,
            sum == sum_prefix(d@, (j * DIM) as int),
            0 <= sum <= (j * DIM) * DEPTH_LIMIT,
        decreases DIM - j,
    {
        let mut i: usize = 0;
        while i < DIM
            invariant
                0 <= j < DIM,
                0 <= i <= DIM,
                d@.len() == DIM * DIM,
                old(d)@.len() == DIM * DIM,
                depths_wf(old(d)@),
                flows_wf(px@, py@),
                1 <= dt <= DT_MAX,
                all_feasible(old(d)@, px@, py@, dt as int),
                forall|ci: int, cj: int|
                    0 <= ci < DIM && 0 <= cj < DIM && (cj < j || (cj == j && ci < i))
                        ==> d@[cell_at(ci, cj)] == #[trigger] depth_after(
                        old(d)@,
                        px@,
                        py@,
                        dt as int,
                        ci,
                        cj,
                    ),
                forall|k: int| j * DIM + i <= k < DIM * DIM ==> #[trigger] d@[k] == old(d)@[k],
                forall|k: int| 0 <= k < DIM * DIM ==> 0 <= #[trigger] d@[k] <= DEPTH_LIMIT,
                sum == sum_prefix(d@, (j * DIM + i) as int),
                0 <= sum <= (j * DIM + i) * DEPTH_LIMIT,
            decreases DIM - i,
        {
            let k: usize = i + j * DIM;
            let r = compute_flows(px, py, i, j);
            let net: i64 = r.0 - r.1;
            proof {
                assert(-1_000_000_000_000_000 <= dt * net <= 1_000_000_000_000_000)
                    by (nonlinear_arith)
                    requires
                        1 <= dt <= 1000,
                        -400_000_000_000 <= net <= 400_000_000_000,
                ;
            }
            let delta: i64 = dt * net;
            let old_v: i64 = d[k];
            proof {
                assert(old_v == old(d)@[k as int]);
                assert(feasible_at(old(d)@, px@, py@, dt as int, i as int, j as int));
            }
            let nd0: i64 = old_v + delta;
            let nd: i64 = if nd0 > DEPTH_LIMIT {
                DEPTH_LIMIT
            } else {
                nd0
            };
            proof {
                assert(nd == depth_after(old(d)@, px@, py@, dt as int, i as int, j as int));
                assert(0 <= nd <= DEPTH_LIMIT);
            }
            let ghost d_mid = d@;
            d.set(k, nd);
            sum = sum + nd as i128;
            proof {
                lemma_sum_prefix_congruence(d_mid, d@, k as int);
                assert(sum == sum_prefix(d@, k as int + 1));
            }
            i += 1;
        }
        j += 1;
    }
    proof {
        assert(sum == depth_sum(d@));
        assert(sum <= (DIM * DIM) * DEPTH_LIMIT);
        vstd::arithmetic::div_mod::lemma_div_pos_is_pos(sum as int, (DIM * DIM) as int);
        vstd::arithmetic::div_mod::lemma_div_is_ordered(
            sum as int,
            (DIM * DIM) * DEPTH_LIMIT,
            (DIM * DIM) as int,
        );
        assert(((DIM * DIM) * DEPTH_LIMIT) / ((DIM * DIM) as int) == DEPTH_LIMIT) by {
            vstd::arithmetic::div_mod::lemma_div_multiples_vanish(
                DEPTH_LIMIT as int,
                (DIM * DIM) as int,
            );
            assert((DIM * DIM) * DEPTH_LIMIT == ((DIM * DIM) as int) * (DEPTH_LIMIT as int))
                by (nonlinear_arith);
        }
    }
    let total: usize = DIM * DIM;
    let avg: i64 = div_i128(sum, total as i128) as i64;
    avg
}

/// The value of the pipe right of cell `(i, j)`, or zero where no such
/// pipe exists.
pub open spec fn xflow_term(px: Seq<i64>, i: int, j: int) -> int {
    if 0 <= i && i < DIM - 1 {
        px[xedge_at(i, j)] as int
    } else {
        0
    }
}

/// The value of the pipe above cell `(i, j)` (toward increasing `y`), or
/// zero where no such pipe exists.
pub open spec fn yflow_term(py: Seq<i64>, j: int, i: int) -> int {
    if 0 <= j && j < DIM - 1 {
        py[yedge_at(i, j)] as int
    } else {
        0
    }
}

/// Sum of the `yflow_term`s of row `j` over the first `i` columns.
pub open spec fn yrow_sum(py: Seq<i64>, j: int, i: int) -> int
    decreases i,
{
    if i <= 0 {
        0
    } else {
        yrow_sum(py, j, i - 1) + yflow_term(py, j, i - 1)
    }
}

/// Sum over the first `n` cells (row-major) of the net flux.
pub open spec fn nsum(px: Seq<i64>, py: Seq<i64>, n: int) -> int
    decreases n,
{
    if n <= 0 {
        0
    } else {
        nsum(px, py, n - 1) + net_flux(px, py, (n - 1) % (DIM as int), (n - 1) / (DIM as int))
    }
}

/// A cell's net flux is what its left and lower pipes carry in minus what
/// its right and upper pipes carry out: the positive/negative parts of
/// each pipe cancel.
proof fn lemma_net_split(px: Seq<i64>, py: Seq<i64>, i: int, j: int)
    requires
        px.len() == (DIM - 1) * DIM,
        py.len() == DIM * (DIM - 1),
        0 <= i < DIM,
        0 <= j < DIM,
    ensures
        net_flux(px, py, i, j) == xflow_term(px, i - 1, j) - xflow_term(px, i, j) + yflow_term(
            py,
            j - 1,
            i,
        ) - yflow_term(py, j, i),
{
}

/// Rows outside the pipe grid contribute nothing.
proof fn lemma_yrow_sum_zero(py: Seq<i64>, j: int, i: int)
    requires
        j < 0 || j >= DIM - 1,
        i <= DIM,
    ensures
        yrow_sum(py, j, i) == 0,
    decreases i,
{
    if i > 0 {
        lemma_yrow_sum_zero(py, j, i - 1);
    }
}

/// Closed form of the running net-flux sum: only the pipe just left of
/// the current cell and the vertical pipes of the current and previous
/// row remain; everything else telescopes away.
proof fn lemma_nsum_formula(px: Seq<i64>, py: Seq<i64>, n: int)
    requires
        px.len() == (DIM - 1) * DIM,
        py.len() == DIM * (DIM - 1),
        0 <= n <= DIM * DIM,
    ensures
        nsum(px, py, n) == (if n % (DIM as int) == 0 {
            0
        } else {
            -xflow_term(px, n % (DIM as int) - 1, n / (DIM as int))
        }) - yrow_sum(py, n / (DIM as int) - 1, DIM as int) + yrow_sum(
            py,
            n / (DIM as int) - 1,
            n % (DIM as int),
        ) - yrow_sum(py, n / (DIM as int), n % (DIM as int)),
    decreases n,
{
    let dim: int = DIM as int;
    if n == 0 {
        assert(0int % dim == 0 && 0int / dim == 0) by {
            vstd::arithmetic::div_mod::lemma_fundamental_div_mod_converse(0, dim, 0, 0);
        }
        lemma_yrow_sum_zero(py, -1, dim);
    } else {
        lemma_nsum_formula(px, py, n - 1);
        let i = (n - 1) % dim;
        let j = (n - 1) / dim;
        vstd::arithmetic::div_mod::lemma_fundamental_div_mod(n - 1, dim);
        vstd::arithmetic::div_mod::lemma_mod_bound(n - 1, dim);
        assert(0 <= j) by {
            vstd::arithmetic::div_mod::lemma_div_pos_is_pos(n - 1, dim);
        }
        assert(j < dim) by (nonlinear_arith)
            requires
                n - 1 == dim * j + i,
                0 <= i < dim,
                n <= dim * dim,
                dim >= 1,
        ;
        lemma_net_split(px, py, i, j);
        if i < dim - 1 {
            assert(n == j * dim + (i + 1)) by (nonlinear_arith)
                requires
                    n - 1 == dim * j + i,
            ;
            vstd::arithmetic::div_mod::lemma_fundamental_div_mod_converse(n, dim, j, i + 1);
            assert(n % dim == i + 1 && n / dim == j);
        } else {
            assert(n == (j + 1) * dim + 0) by (nonlinear_arith)
                requires
                    n - 1 == dim * j + i,
                    i == dim - 1,
            ;
            vstd::arithmetic::div_mod::lemma_fundamental_div_mod_converse(n, dim, j + 1, 0);
            assert(n % dim == 0 && n / dim == j + 1);
        }
    }
}

/// The net fluxes of the whole grid sum to exactly zero: every pipe
/// carries out of one cell exactly what it carries into the other.
pub proof fn lemma_net_total_zero(px: Seq<i64>, py: Seq<i64>)
    requires
        px.len() == (DIM - 1) * DIM,
        py.len() == DIM * (DIM - 1),
    ensures
        nsum(px, py, (DIM * DIM) as int) == 0,
{
    let dim: int = DIM as int;
    lemma_nsum_formula(px, py, dim * dim);
    assert(dim * dim == dim * dim + 0);
    vstd::arithmetic::div_mod::lemma_fundamental_div_mod_converse(dim * dim, dim, dim, 0);
    assert((dim * dim) % dim == 0 && (dim * dim) / dim == dim);
    lemma_yrow_sum_zero(py, dim - 1, dim);
    lemma_yrow_sum_zero(py, dim, 0);
    lemma_yrow_sum_zero(py, dim - 1, 0);
}

/// Step C conserves the total water volume exactly, as long as every
/// depth sits below `SAFE_DEPTH` so the machine clamp cannot engage.
pub proof fn lemma_volume_conserved(
    d_old: Seq<i64>,
    d_new: Seq<i64>,
    px: Seq<i64>,
    py: Seq<i64>,
    dt: int,
)
    requires
        depths_wf(d_old),
        flows_wf(px, py),
        1 <= dt <= DT_MAX,
        d_new.len() == DIM * DIM,
        forall|i: int, j: int|
            0 <= i < DIM && 0 <= j < DIM ==> d_new[cell_at(i, j)] == #[trigger] depth_after(
                d_old,
                px,
                py,
                dt,
                i,
                j,
            ),
        forall|k: int| 0 <= k < d_old.len() ==> #[trigger] d_old[k] <= crate::fixed::SAFE_DEPTH,
    ensures
        depth_sum(d_new) == depth_sum(d_old),
{
    lemma_volume_prefix(d_old, d_new, px, py, dt, (DIM * DIM) as int);
    lemma_net_total_zero(px, py);
    assert(dt * 0 == 0) by (nonlinear_arith);
}

/// Induction core for volume conservation: prefix sums differ by `dt`
/// times the running net-flux sum.
#[verifier::rlimit(100)]
proof fn lemma_volume_prefix(
    d_old: Seq<i64>,
    d_new: Seq<i64>,
    px: Seq<i64>,
    py: Seq<i64>,
    dt: int,
    n: int,
)
    requires
        depths_wf(d_old),
        flows_wf(px, py),
        1 <= dt <= DT_MAX,
        d_new.len() == DIM * DIM,
        forall|i: int, j: int|
            0 <= i < DIM && 0 <= j < DIM ==> d_new[cell_at(i, j)] == #[trigger] depth_after(
                d_old,
                px,
                py,
                dt,
                i,
                j,
            ),
        forall|k: int| 0 <= k < d_old.len() ==> #[trigger] d_old[k] <= crate::fixed::SAFE_DEPTH,
        0 <= n <= DIM * DIM,
    ensures
        sum_prefix(d_new, n) == sum_prefix(d_old, n) + dt * nsum(px, py, n),
    decreases n,
{
    let dim: int = DIM as int;
    if n == 0 {
        assert(dt * 0 == 0) by (nonlinear_arith);
    } else {
        lemma_volume_prefix(d_old, d_new, px, py, dt, n - 1);
        let i = (n - 1) % dim;
        let j = (n - 1) / dim;
        vstd::arithmetic::div_mod::lemma_fundamental_div_mod(n - 1, dim);
        vstd::arithmetic::div_mod::lemma_mod_bound(n - 1, dim);
        assert(0 <= j) by {
            vstd::arithmetic::div_mod::lemma_div_pos_is_pos(n - 1, dim);
        }
        assert(j < dim) by (nonlinear_arith)
            requires
                n - 1 == dim * j + i,
                0 <= i < dim,
                n <= dim * dim,
                dim >= 1,
        ;
        assert(cell_at(i, j) == n - 1) by (nonlinear_arith)
            requires
                n - 1 == dim * j + i,
                cell_at(i, j) == i + j * dim,
        ;
        assert(d_new[n - 1] == depth_after(d_old, px, py, dt, i, j));
        // the clamp cannot engage: one tick of inflow fits under the bound
        let net = net_flux(px, py, i, j);
        assert(net <= 4 * FLOW_LIMIT && net >= -(4 * FLOW_LIMIT));
        assert(dt * net <= 400_000_000_000_000 && dt * net >= -400_000_000_000_000)
            by (nonlinear_arith)
            requires
                1 <= dt <= 1000,
                -(4 * FLOW_LIMIT) <= net <= 4 * FLOW_LIMIT,
                FLOW_LIMIT == 100_000_000_000i64,
        ;
        assert(d_old[n - 1] + dt * net <= DEPTH_LIMIT);
        assert(d_new[n - 1] == d_old[n - 1] + dt * net);
        assert(dt * nsum(px, py, n) == dt * nsum(px, py, n - 1) + dt * net) by (nonlinear_arith)
            requires
                nsum(px, py, n) == nsum(px, py, n - 1) + net,
        ;
    }
}

} // verus!
