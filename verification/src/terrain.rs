//! Terrain height field: a dense `DIM x DIM` grid built once from sparse
//! elevation samples by inverse-distance weighting (IDW), with zero-height
//! anchor points forced onto the whole grid border.
//!
//! A cell that coincides exactly with a sample copies that sample's height
//! (the last such sample wins); every other cell takes the weighted average
//! of all samples with weight `1 / distance^5`, carried out in exact integer
//! arithmetic over a common numerator `IDW_NUMER`.

use vstd::prelude::*;

use crate::fixed::COORD_SCALE;
use crate::fixed::DIM;
use crate::fixed::MAX_TERRAIN;
use crate::fixed::div_i128;
use crate::fixed::div_tz;

verus! {

/// Machine bound on how many samples one build accepts, so the weighted
/// sums stay far from `i128` overflow.
pub const MAX_POINTS: usize = 10_000;

/// Common numerator of the integer IDW weights: a weight is
/// `IDW_NUMER / distance^5` (coordinates in `COORD_SCALE` steps).
pub const IDW_NUMER: i128 = 10_000_000_000_000_000_000_000_000;

/// Number of zero-height border anchors: 4 corners plus `DIM - 2` interior
/// steps along each of the four edges.
pub const ANCHOR_COUNT: usize = 396;

/// One elevation sample: grid coordinates at `COORD_SCALE` steps per cell,
/// height at `HEIGHT_SCALE` steps per world unit.
#[derive(Clone, Copy, Debug, PartialEq, Eq, Structural)]
pub struct SamplePoint {
    pub x: i64,
    pub y: i64,
    pub h: i64,
}

/// Why a sample set or a point file was refused. Line and field positions
/// are 1-based; `token` holds the offending bytes.
#[derive(Clone, Debug, PartialEq, Eq)]
pub enum InvalidPointError {
    TooManyPoints,
    PointOutOfRange { index: usize },
    NotEnoughValues { line: usize },
    TooManyValues { line: usize },
    BadNumber { line: usize, pos: usize, token: Vec<u8> },
    CoordOutOfRange { line: usize, pos: usize, token: Vec<u8> },
    HeightOutOfRange { line: usize, pos: usize, token: Vec<u8> },
}

/// Largest coordinate on the grid, in `COORD_SCALE` steps.
pub open spec fn coord_max() -> int {
    (DIM - 1) * COORD_SCALE
}

/// A sample the builder accepts: coordinates on the grid, height strictly
/// inside `(-MAX_TERRAIN, MAX_TERRAIN)`.
pub open spec fn valid_point(p: SamplePoint) -> bool {
    &&& 0 <= p.x <= coord_max()
    &&& 0 <= p.y <= coord_max()
    &&& -MAX_TERRAIN < p.h < MAX_TERRAIN
}

/// The `k`-th zero-height border anchor: the four corners, then the
/// interior steps of the bottom, left, top and right edges.
pub open spec fn anchor_at(k: int) -> SamplePoint {
    if k == 0 {
        SamplePoint { x: 0, y: 0, h: 0 }
    } else if k == 1 {
        SamplePoint { x: 0, y: coord_max() as i64, h: 0 }
    } else if k == 2 {
        SamplePoint { x: coord_max() as i64, y: 0, h: 0 }
    } else if k == 3 {
        SamplePoint { x: coord_max() as i64, y: coord_max() as i64, h: 0 }
    } else if 4 <= k < 4 + (DIM - 2) {
        SamplePoint { x: ((k - 3) * COORD_SCALE) as i64, y: 0, h: 0 }
    } else if 4 + (DIM - 2) <= k < 4 + 2 * (DIM - 2) {
        SamplePoint { x: 0, y: ((k - 3 - (DIM - 2)) * COORD_SCALE) as i64, h: 0 }
    } else if 4 + 2 * (DIM - 2) <= k < 4 + 3 * (DIM - 2) {
        SamplePoint {
            x: ((k - 3 - 2 * (DIM - 2)) * COORD_SCALE) as i64,
            y: coord_max() as i64,
            h: 0,
        }
    } else {
        SamplePoint {
            x: coord_max() as i64,
            y: ((k - 3 - 3 * (DIM - 2)) * COORD_SCALE) as i64,
            h: 0,
        }
    }
}

/// The anchors in build order.
pub open spec fn anchors() -> Seq<SamplePoint> {
    Seq::new(ANCHOR_COUNT as nat, |k: int| anchor_at(k))
}

/// The sample list the grid is interpolated from: the caller's points
/// followed by the border anchors (so an anchor wins at its own cell).
pub open spec fn full_points(ps: Seq<SamplePoint>) -> Seq<SamplePoint> {
    ps + anchors()
}

/// Does sample `p` sit exactly on cell `(cx, cy)`?
pub open spec fn matches_cell(p: SamplePoint, cx: int, cy: int) -> bool {
    p.x == cx * COORD_SCALE && p.y == cy * COORD_SCALE
}

/// Is there a sample exactly on cell `(cx, cy)`?
pub open spec fn has_match(ps: Seq<SamplePoint>, cx: int, cy: int) -> bool {
    exists|k: int| 0 <= k < ps.len() && matches_cell(#[trigger] ps[k], cx, cy)
}

/// Height of the last sample sitting exactly on cell `(cx, cy)`
/// (meaningful only when `has_match` holds).
pub open spec fn match_height(ps: Seq<SamplePoint>, cx: int, cy: int) -> int
    decreases ps.len(),
{
    if ps.len() == 0 {
        0
    } else if matches_cell(ps.last(), cx, cy) {
        ps.last().h as int
    } else {
        match_height(ps.drop_last(), cx, cy)
    }
}

/// Squared distance from sample `p` to cell `(cx, cy)`, in squared
/// `COORD_SCALE` steps.
pub open spec fn dist2(p: SamplePoint, cx: int, cy: int) -> int {
    (p.x - cx * COORD_SCALE) * (p.x - cx * COORD_SCALE) + (p.y - cy * COORD_SCALE) * (p.y - cy
        * COORD_SCALE)
}

/// Integer square root, rounded down.
pub open spec fn sqrt_floor(n: int) -> int
    decreases n,
{
    if n <= 0 {
        0
    } else if (sqrt_floor(n - 1) + 1) * (sqrt_floor(n - 1) + 1) <= n {
        sqrt_floor(n - 1) + 1
    } else {
        sqrt_floor(n - 1)
    }
}

/// Fifth power.
pub open spec fn pow5(d: int) -> int {
    d * d * d * d * d
}

/// Integer IDW weight of sample `p` at cell `(cx, cy)`:
/// `IDW_NUMER / distance^5` rounded down (distance rounded down too).
pub open spec fn weight(p: SamplePoint, cx: int, cy: int) -> int {
    (IDW_NUMER as int) / pow5(sqrt_floor(dist2(p, cx, cy)))
}

/// Sum of the weights of all samples at cell `(cx, cy)`.
pub open spec fn wsum(ps: Seq<SamplePoint>, cx: int, cy: int) -> int
    decreases ps.len(),
{
    if ps.len() == 0 {
        0
    } else {
        wsum(ps.drop_last(), cx, cy) + weight(ps.last(), cx, cy)
    }
}

/// Sum of weight times height of all samples at cell `(cx, cy)`.
pub open spec fn whsum(ps: Seq<SamplePoint>, cx: int, cy: int) -> int
    decreases ps.len(),
{
    if ps.len() == 0 {
        0
    } else {
        whsum(ps.drop_last(), cx, cy) + weight(ps.last(), cx, cy) * ps.last().h
    }
}

/// The inverse-distance weighted average height at cell `(cx, cy)`
/// (meaningful only when no sample matches the cell exactly).
pub open spec fn idw_height(ps: Seq<SamplePoint>, cx: int, cy: int) -> int {
    div_tz(whsum(ps, cx, cy), wsum(ps, cx, cy))
}

/// What the built grid holds at cell `(cx, cy)`: the last exactly-matching
/// sample's height if one exists, else the IDW average over all samples.
pub open spec fn cell_height(ps: Seq<SamplePoint>, cx: int, cy: int) -> int {
    if has_match(ps, cx, cy) {
        match_height(ps, cx, cy)
    } else {
        idw_height(ps, cx, cy)
    }
}

/// Row-major index of cell `(x, y)`.
pub open spec fn grid_index(x: int, y: int) -> int {
    x + y * DIM
}

/// The immutable terrain height field.
#[derive(Clone, Debug)]
pub struct HeightMap {
    heights: Vec<i64>,
}

impl View for HeightMap {
    type V = Seq<i64>;

    closed spec fn view(&self) -> Seq<i64> {
        self.heights@
    }
}

impl HeightMap {
    /// Well-formed: a full grid of heights strictly inside
    /// `(-MAX_TERRAIN, MAX_TERRAIN)`.
    pub open spec fn wf(&self) -> bool {
        &&& self@.len() == DIM * DIM
        &&& forall|k: int| 0 <= k < self@.len() ==> -MAX_TERRAIN < #[trigger] self@[k] < MAX_TERRAIN
    }

    /// The grid is exactly the interpolation of `ps` plus the border
    /// anchors.
    pub open spec fn models(&self, ps: Seq<SamplePoint>) -> bool {
        forall|x: int, y: int|
            0 <= x < DIM && 0 <= y < DIM ==> self@[grid_index(x, y)] == #[trigger] cell_height(
                full_points(ps),
                x,
                y,
            )
    }

    /// Build the height field from the given samples. Rejects a sample set
    /// larger than `MAX_POINTS` and any sample off the grid or out of the
    /// height range; otherwise the grid equals the IDW interpolation of the
    /// samples plus the border anchors, exactly.
    pub fn new(points: &Vec<SamplePoint>) -> (r: Result<HeightMap, InvalidPointError>)
        ensures
            points@.len() > MAX_POINTS ==> r == Err::<HeightMap, _>(
                InvalidPointError::TooManyPoints,
            ),
            points@.len() <= MAX_POINTS ==> ((r is Ok) <==> (forall|k: int|
                0 <= k < points@.len() ==> valid_point(#[trigger] points@[k]))),
            r matches Ok(hm) ==> hm.wf() && hm.models(points@),
            points@.len() <= MAX_POINTS && (r is Err) ==> exists|i: int|
                0 <= i < points@.len() && !valid_point(#[trigger] points@[i]) && (forall|m: int|
                    0 <= m < i ==> valid_point(#[trigger] points@[m])) && r == Err::<HeightMap, _>(
                    InvalidPointError::PointOutOfRange { index: i as usize },
                ),
    {
        if points.len() > MAX_POINTS {
            return Err(InvalidPointError::TooManyPoints);
        }
        let mut i: usize = 0;
        while i < points.len()
            invariant
                0 <= i <= points@.len(),
                points@.len() <= MAX_POINTS,
                forall|m: int| 0 <= m < i ==> valid_point(#[trigger] points@[m]),
            decreases points@.len() - i,
        {
            let p = points[i];
            let cmax: i64 = (DIM as i64 - 1) * COORD_SCALE;
            if !(0 <= p.x && p.x <= cmax && 0 <= p.y && p.y <= cmax && -MAX_TERRAIN < p.h && p.h
                < MAX_TERRAIN) {
                assert(!valid_point(points@[i as int]));
                return Err(InvalidPointError::PointOutOfRange { index: i });
            }
            i += 1;
        }
        let full = full_sample_list(points);
        let heights = interpolate_grid(&full, Ghost(points@));
        Ok(HeightMap { heights })
    }

    /// Adopt an already-computed grid (for callers that synthesise terrain
    /// directly); accepted exactly when it is a well-formed grid.
    pub fn from_grid(heights: Vec<i64>) -> (r: Option<HeightMap>)
        ensures
            (r is Some) <==> (heights@.len() == DIM * DIM && forall|k: int|
                0 <= k < heights@.len() ==> -MAX_TERRAIN < #[trigger] heights@[k] < MAX_TERRAIN),
            r matches Some(hm) ==> hm.wf() && hm@ == heights@,
    {
        if heights.len() != DIM * DIM {
            return None;
        }
        let mut k: usize = 0;
        while k < heights.len()
            invariant
                0 <= k <= heights@.len(),
                forall|m: int| 0 <= m < k ==> -MAX_TERRAIN < #[trigger] heights@[m] < MAX_TERRAIN,
            decreases heights@.len() - k,
        {
            let h = heights[k];
            if !(-MAX_TERRAIN < h && h < MAX_TERRAIN) {
                return None;
            }
            k += 1;
        }
        Some(HeightMap { heights })
    }

    /// The dense height grid, row-major by `(x, y)`.
    pub fn height_points(&self) -> (r: &Vec<i64>)
        ensures
            r@ == self@,
    {
        &self.heights
    }

    /// Terrain height at cell `(x, y)`; `None` exactly when the cell is off
    /// the grid.
    pub fn height_at(&self, x: usize, y: usize) -> (r: Option<i64>)
        requires
            self.wf(),
        ensures
            x < DIM && y < DIM ==> r == Some(self@[grid_index(x as int, y as int)]),
            !(x < DIM && y < DIM) ==> r is None,
    {
        if x < DIM && y < DIM {
            Some(self.heights[x + y * DIM])
        } else {
            None
        }
    }
}

/// The `k`-th border anchor as a runtime value.
fn anchor_point(k: usize) -> (p: SamplePoint)
    requires
        k < ANCHOR_COUNT,
    ensures
        p == anchor_at(k as int),
{
    let m: i64 = (DIM as i64 - 1) * COORD_SCALE;
    if k == 0 {
        SamplePoint { x: 0, y: 0, h: 0 }
    } else if k == 1 {
        SamplePoint { x: 0, y: m, h: 0 }
    } else if k == 2 {
        SamplePoint { x: m, y: 0, h: 0 }
    } else if k == 3 {
        SamplePoint { x: m, y: m, h: 0 }
    } else if k < 4 + (DIM - 2) {
        SamplePoint { x: (k as i64 - 3) * COORD_SCALE, y: 0, h: 0 }
    } else if k < 4 + 2 * (DIM - 2) {
        SamplePoint { x: 0, y: (k as i64 - 3 - (DIM as i64 - 2)) * COORD_SCALE, h: 0 }
    } else if k < 4 + 3 * (DIM - 2) {
        SamplePoint { x: (k as i64 - 3 - 2 * (DIM as i64 - 2)) * COORD_SCALE, y: m, h: 0 }
    } else {
        SamplePoint { x: m, y: (k as i64 - 3 - 3 * (DIM as i64 - 2)) * COORD_SCALE, h: 0 }
    }
}

/// Every border anchor is a valid sample with height zero.
proof fn lemma_anchor_valid(k: int)
    requires
        0 <= k < ANCHOR_COUNT,
    ensures
        valid_point(anchor_at(k)),
        anchor_at(k).h == 0,
{
}

/// The caller's samples followed by the border anchors.
fn full_sample_list(points: &Vec<SamplePoint>) -> (full: Vec<SamplePoint>)
    requires
        forall|m: int| 0 <= m < points@.len() ==> valid_point(#[trigger] points@[m]),
    ensures
        full@ == full_points(points@),
        forall|m: int| 0 <= m < full@.len() ==> valid_point(#[trigger] full@[m]),
{
    let mut full: Vec<SamplePoint> = Vec::new();
    let mut i: usize = 0;
    while i < points.len()
        invariant
            0 <= i <= points@.len(),
            full@ == points@.take(i as int),
            forall|m: int| 0 <= m < points@.len() ==> valid_point(#[trigger] points@[m]),
        decreases points@.len() - i,
    {
        full.push(points[i]);
        proof {
            assert(points@.take(i + 1) =~= points@.take(i as int).push(points@[i as int]));
        }
        i += 1;
    }
    proof {
        assert(points@.take(points@.len() as int) =~= points@);
    }
    let mut k: usize = 0;
    while k < ANCHOR_COUNT
        invariant
            0 <= k <= ANCHOR_COUNT,
            full@ == points@ + anchors().take(k as int),
            forall|m: int| 0 <= m < points@.len() ==> valid_point(#[trigger] points@[m]),
        decreases ANCHOR_COUNT - k,
    {
        let p = anchor_point(k);
        proof {
            assert(anchors()[k as int] == anchor_at(k as int));
            assert((points@ + anchors().take(k + 1)) =~= (points@ + anchors().take(k as int)).push(
                anchor_at(k as int),
            ));
        }
        full.push(p);
        k += 1;
    }
    proof {
        assert(anchors().take(ANCHOR_COUNT as int) =~= anchors());
        assert forall|m: int| 0 <= m < full@.len() implies valid_point(#[trigger] full@[m]) by {
            if m < points@.len() {
            } else {
                assert(full@[m] == anchors()[m - points@.len()]);
                lemma_anchor_valid(m - points@.len());
            }
        }
    }
    full
}

/// `sqrt_floor(n)` really is the rounded-down square root.
pub proof fn lemma_sqrt_floor_bounds(n: int)
    requires
        n >= 0,
    ensures
        sqrt_floor(n) >= 0,
        sqrt_floor(n) * sqrt_floor(n) <= n,
        (sqrt_floor(n) + 1) * (sqrt_floor(n) + 1) > n,
    decreases n,
{
    if n > 0 {
        lemma_sqrt_floor_bounds(n - 1);
        let s = sqrt_floor(n - 1);
        if (s + 1) * (s + 1) <= n {
            assert((s + 2) * (s + 2) > n) by (nonlinear_arith)
                requires
                    s >= 0,
                    (s + 1) * (s + 1) <= n,
                    (s + 1) * (s + 1) > n - 1,
            ;
        }
    }
}

/// Any integer with the rounded-down-square-root bounds equals
/// `sqrt_floor(n)`.
pub proof fn lemma_sqrt_floor_unique(n: int, r: int)
    requires
        n >= 0,
        r >= 0,
        r * r <= n,
        (r + 1) * (r + 1) > n,
    ensures
        r == sqrt_floor(n),
{
    lemma_sqrt_floor_bounds(n);
    let s = sqrt_floor(n);
    if r < s {
        assert((r + 1) * (r + 1) <= s * s) by (nonlinear_arith)
            requires
                0 <= r + 1 <= s,
        ;
        assert(false);
    }
    if r > s {
        assert((s + 1) * (s + 1) <= r * r) by (nonlinear_arith)
            requires
                0 <= s + 1 <= r,
        ;
        assert(false);
    }
}

/// Exact rounded-down square root on `u64`, for inputs up to the largest
/// squared grid distance.
fn isqrt_u64(n: u64) -> (r: u64)
    requires
        n <= 19_602_000_000,
    ensures
        r == sqrt_floor(n as int),
        r <= 140_100,
{
    let mut lo: u64 = 0;
    let mut hi: u64 = 140_200;
    while lo + 1 < hi
        invariant
            0 <= lo < hi <= 140_200,
            n <= 19_602_000_000,
            lo * lo <= n,
            hi * hi > n,
        decreases hi - lo,
    {
        let mid: u64 = lo + (hi - lo) / 2;
        assert(lo < mid < hi);
        assert(mid * mid <= 19_656_040_000) by (nonlinear_arith)
            requires
                mid <= 140_200u64,
        ;
        if mid * mid <= n {
            lo = mid;
        } else {
            hi = mid;
        }
    }
    proof {
        lemma_sqrt_floor_unique(n as int, lo as int);
        assert(lo <= 140_100) by (nonlinear_arith)
            requires
                lo * lo <= n <= 19_602_000_000u64,
        ;
    }
    lo
}

/// A sample that does not sit exactly on the cell is at squared distance at
/// least one coordinate step.
proof fn lemma_dist2_pos(p: SamplePoint, cx: int, cy: int)
    requires
        !matches_cell(p, cx, cy),
    ensures
        dist2(p, cx, cy) >= 1,
{
    let dx = p.x - cx * COORD_SCALE;
    let dy = p.y - cy * COORD_SCALE;
    assert(dx * dx >= 0 && dy * dy >= 0 && (dx != 0 ==> dx * dx >= 1) && (dy != 0 ==> dy * dy >= 1))
        by (nonlinear_arith);
}

/// Weights are nonnegative and at most `IDW_NUMER`; off an exact match the
/// divisor is at least one.
proof fn lemma_weight_bounds(p: SamplePoint, cx: int, cy: int)
    requires
        !matches_cell(p, cx, cy),
    ensures
        1 <= pow5(sqrt_floor(dist2(p, cx, cy))),
        0 <= weight(p, cx, cy) <= IDW_NUMER,
{
    lemma_dist2_pos(p, cx, cy);
    let d2 = dist2(p, cx, cy);
    lemma_sqrt_floor_bounds(d2);
    let s = sqrt_floor(d2);
    assert(s >= 1) by (nonlinear_arith)
        requires
            s >= 0,
            (s + 1) * (s + 1) > d2,
            d2 >= 1,
    ;
    assert(pow5(s) >= 1) by (nonlinear_arith)
        requires
            s >= 1,
    ;
    vstd::arithmetic::div_mod::lemma_div_pos_is_pos(IDW_NUMER as int, pow5(s));
    vstd::arithmetic::div_mod::lemma_div_nonincreasing(IDW_NUMER as int, pow5(s));
}

/// Striking the last sample off a list with no exact match leaves no exact
/// match behind, and the struck sample is no match either.
proof fn lemma_no_match_prefix(ps: Seq<SamplePoint>, cx: int, cy: int)
    requires
        !has_match(ps, cx, cy),
        ps.len() > 0,
    ensures
        !has_match(ps.drop_last(), cx, cy),
        !matches_cell(ps.last(), cx, cy),
{
    if has_match(ps.drop_last(), cx, cy) {
        let w = choose|w: int|
            0 <= w < ps.drop_last().len() && matches_cell(#[trigger] ps.drop_last()[w], cx, cy);
        assert(matches_cell(ps[w], cx, cy));
        assert(has_match(ps, cx, cy));
        assert(false);
    }
    if matches_cell(ps.last(), cx, cy) {
        assert(matches_cell(ps[ps.len() - 1], cx, cy));
        assert(has_match(ps, cx, cy));
        assert(false);
    }
}

/// A prefix of a list with no exact match has none either.
proof fn lemma_no_match_take(ps: Seq<SamplePoint>, k: int, cx: int, cy: int)
    requires
        !has_match(ps, cx, cy),
        0 <= k <= ps.len(),
    ensures
        !has_match(ps.take(k), cx, cy),
{
    if has_match(ps.take(k), cx, cy) {
        let w = choose|w: int|
            0 <= w < ps.take(k).len() && matches_cell(#[trigger] ps.take(k)[w], cx, cy);
        assert(matches_cell(ps[w], cx, cy));
        assert(has_match(ps, cx, cy));
        assert(false);
    }
}

/// Bounds for the running weighted sums: weights accumulate at most
/// `IDW_NUMER` each, and the height-weighted sum is bounded by the plain
/// weight sum times the height bound.
proof fn lemma_sums_bounded(ps: Seq<SamplePoint>, cx: int, cy: int)
    requires
        forall|m: int| 0 <= m < ps.len() ==> valid_point(#[trigger] ps[m]),
        !has_match(ps, cx, cy),
    ensures
        0 <= wsum(ps, cx, cy) <= ps.len() * IDW_NUMER,
        -(wsum(ps, cx, cy) * (MAX_TERRAIN - 1)) <= whsum(ps, cx, cy) <= wsum(ps, cx, cy) * (
        MAX_TERRAIN - 1),
    decreases ps.len(),
{
    if ps.len() == 0 {
    } else {
        let prefix = ps.drop_last();
        let p = ps.last();
        lemma_no_match_prefix(ps, cx, cy);
        assert(forall|m: int| 0 <= m < prefix.len() ==> valid_point(#[trigger] prefix[m])) by {
            assert(forall|m: int| 0 <= m < prefix.len() ==> prefix[m] == ps[m]);
        }
        lemma_sums_bounded(prefix, cx, cy);
        lemma_weight_bounds(p, cx, cy);
        let w = weight(p, cx, cy);
        assert(valid_point(ps[ps.len() - 1]));
        assert(-(w * (MAX_TERRAIN - 1)) <= w * p.h <= w * (MAX_TERRAIN - 1)) by (nonlinear_arith)
            requires
                w >= 0,
                -(MAX_TERRAIN - 1) <= p.h <= MAX_TERRAIN - 1,
        ;
        assert(wsum(ps, cx, cy) * (MAX_TERRAIN - 1) == wsum(prefix, cx, cy) * (MAX_TERRAIN - 1) + w
            * (MAX_TERRAIN - 1)) by (nonlinear_arith)
            requires
                wsum(ps, cx, cy) == wsum(prefix, cx, cy) + w,
        ;
    }
}

/// The weight sum dominates the weight of any single sample.
proof fn lemma_wsum_element_lower(ps: Seq<SamplePoint>, cx: int, cy: int, k: int)
    requires
        !has_match(ps, cx, cy),
        0 <= k < ps.len(),
    ensures
        wsum(ps, cx, cy) >= weight(ps[k], cx, cy),
    decreases ps.len(),
{
    let prefix = ps.drop_last();
    let p = ps.last();
    lemma_no_match_prefix(ps, cx, cy);
    lemma_weight_bounds(p, cx, cy);
    lemma_wsum_nonneg(prefix, cx, cy);
    if k == ps.len() - 1 {
    } else {
        lemma_wsum_element_lower(prefix, cx, cy, k);
    }
}

/// The weight sum alone is nonnegative.
proof fn lemma_wsum_nonneg(ps: Seq<SamplePoint>, cx: int, cy: int)
    requires
        !has_match(ps, cx, cy),
    ensures
        wsum(ps, cx, cy) >= 0,
    decreases ps.len(),
{
    if ps.len() > 0 {
        lemma_no_match_prefix(ps, cx, cy);
        lemma_wsum_nonneg(ps.drop_last(), cx, cy);
        lemma_weight_bounds(ps.last(), cx, cy);
    }
}

/// Every cell has an anchor on its own column (the one at `(x, 0)`) close
/// enough to earn a positive weight, so the weight sum is at least one.
proof fn lemma_cell_has_near_anchor(ps: Seq<SamplePoint>, x: int, y: int)
    requires
        0 <= x < DIM,
        0 <= y < DIM,
        !has_match(full_points(ps), x, y),
    ensures
        wsum(full_points(ps), x, y) >= 1,
{
    let full = full_points(ps);
    let a: int = if x == 0 {
        0
    } else if x == DIM - 1 {
        2
    } else {
        x + 3
    };
    assert(anchor_at(a).x == x * COORD_SCALE && anchor_at(a).y == 0 && anchor_at(a).h == 0);
    let k = ps.len() + a;
    assert(full[k] == anchors()[a]);
    assert(anchors()[a] == anchor_at(a));
    let p = full[k];
    assert(!matches_cell(p, x, y)) by {
        if matches_cell(p, x, y) {
            assert(has_match(full, x, y));
        }
    }
    let dy = 0 - y * COORD_SCALE;
    assert(dist2(p, x, y) == dy * dy);
    assert(dy * dy <= 9_801_000_000) by (nonlinear_arith)
        requires
            -99_000 <= dy <= 0,
    ;
    lemma_dist2_pos(p, x, y);
    lemma_sqrt_floor_bounds(dist2(p, x, y));
    let s = sqrt_floor(dist2(p, x, y));
    assert(s <= 99_000) by (nonlinear_arith)
        requires
            s >= 0,
            s * s <= 9_801_000_000,
    ;
    assert(s >= 1) by {
        lemma_weight_bounds(p, x, y);
        if s == 0 {
            assert(pow5(0) == 0);
            assert(false);
        }
    }
    assert(pow5(s) <= 9_509_900_499_000_000_000_000_000) by (nonlinear_arith)
        requires
            1 <= s <= 99_000,
    ;
    assert(weight(p, x, y) >= 1) by {
        lemma_weight_bounds(p, x, y);
        vstd::arithmetic::div_mod::lemma_div_is_ordered(pow5(s), IDW_NUMER as int, pow5(s));
        vstd::arithmetic::div_mod::lemma_div_by_self(pow5(s));
    }
    lemma_wsum_element_lower(full, x, y, k);
}

/// The IDW average stays strictly inside the terrain height range.
proof fn lemma_idw_in_range(ps: Seq<SamplePoint>, cx: int, cy: int)
    requires
        forall|m: int| 0 <= m < ps.len() ==> valid_point(#[trigger] ps[m]),
        !has_match(ps, cx, cy),
        wsum(ps, cx, cy) >= 1,
    ensures
        -MAX_TERRAIN < idw_height(ps, cx, cy) < MAX_TERRAIN,
{
    lemma_sums_bounded(ps, cx, cy);
    let ws = wsum(ps, cx, cy);
    let whs = whsum(ps, cx, cy);
    let c = MAX_TERRAIN - 1;
    assert(ws * c >= 0) by (nonlinear_arith)
        requires
            ws >= 1,
            c > 0,
    ;
    if whs >= 0 {
        assert(div_tz(whs, ws) == whs / ws);
        vstd::arithmetic::div_mod::lemma_div_pos_is_pos(whs, ws);
        vstd::arithmetic::div_mod::lemma_div_is_ordered(whs, ws * c, ws);
        vstd::arithmetic::div_mod::lemma_div_multiples_vanish(c, ws);
    } else {
        assert(div_tz(whs, ws) == -((-whs) / ws));
        vstd::arithmetic::div_mod::lemma_div_pos_is_pos(-whs, ws);
        vstd::arithmetic::div_mod::lemma_div_is_ordered(-whs, ws * c, ws);
        vstd::arithmetic::div_mod::lemma_div_multiples_vanish(c, ws);
    }
}

/// When a match exists, `match_height` returns the height of an actual
/// matching sample, so it inherits the samples' height bounds.
proof fn lemma_match_height_is_matched(ps: Seq<SamplePoint>, cx: int, cy: int)
    requires
        has_match(ps, cx, cy),
    ensures
        exists|k: int|
            0 <= k < ps.len() && matches_cell(#[trigger] ps[k], cx, cy) && match_height(ps, cx, cy)
                == ps[k].h,
    decreases ps.len(),
{
    if matches_cell(ps.last(), cx, cy) {
        assert(matches_cell(ps[ps.len() - 1], cx, cy));
    } else {
        let prefix = ps.drop_last();
        assert(has_match(prefix, cx, cy)) by {
            let w = choose|w: int| 0 <= w < ps.len() && matches_cell(#[trigger] ps[w], cx, cy);
            assert(w < ps.len() - 1);
            assert(matches_cell(prefix[w], cx, cy));
        }
        lemma_match_height_is_matched(prefix, cx, cy);
        let k = choose|k: int|
            0 <= k < prefix.len() && matches_cell(#[trigger] prefix[k], cx, cy) && match_height(
                prefix,
                cx,
                cy,
            ) == prefix[k].h;
        assert(matches_cell(ps[k], cx, cy));
    }
}

/// When sample `k` matches the cell and no later sample does, the last
/// matching sample is sample `k` itself.
proof fn lemma_match_height_last(ps: Seq<SamplePoint>, cx: int, cy: int, k: int)
    requires
        0 <= k < ps.len(),
        matches_cell(ps[k], cx, cy),
        forall|m: int| k < m < ps.len() ==> !matches_cell(#[trigger] ps[m], cx, cy),
    ensures
        has_match(ps, cx, cy),
        match_height(ps, cx, cy) == ps[k].h,
    decreases ps.len(),
{
    if k == ps.len() - 1 {
        assert(matches_cell(ps.last(), cx, cy));
    } else {
        assert(ps.last() == ps[ps.len() - 1]);
        assert(!matches_cell(ps.last(), cx, cy));
        let prefix = ps.drop_last();
        assert(forall|m: int| 0 <= m < prefix.len() ==> prefix[m] == ps[m]);
        lemma_match_height_last(prefix, cx, cy, k);
    }
}

/// Every anchor lies on the grid border.
proof fn lemma_anchor_on_border(a: int)
    requires
        0 <= a < ANCHOR_COUNT,
    ensures
        anchor_at(a).x == 0 || anchor_at(a).x == coord_max() || anchor_at(a).y == 0 || anchor_at(
            a,
        ).y == coord_max(),
{
}

/// No two anchors share their coordinates.
proof fn lemma_anchor_coords_distinct(a: int, b: int)
    requires
        0 <= a < ANCHOR_COUNT,
        0 <= b < ANCHOR_COUNT,
        a != b,
    ensures
        anchor_at(a).x != anchor_at(b).x || anchor_at(a).y != anchor_at(b).y,
{
}

/// The index of the border anchor sitting on border cell `(x, y)`.
spec fn anchor_index(x: int, y: int) -> int {
    if x == 0 && y == 0 {
        0
    } else if x == 0 && y == DIM - 1 {
        1
    } else if x == DIM - 1 && y == 0 {
        2
    } else if x == DIM - 1 && y == DIM - 1 {
        3
    } else if y == 0 {
        x + 3
    } else if x == 0 {
        (DIM - 2) + y + 3
    } else if y == DIM - 1 {
        2 * (DIM - 2) + x + 3
    } else {
        3 * (DIM - 2) + y + 3
    }
}

/// The anchor at `anchor_index(x, y)` really sits on cell `(x, y)`.
proof fn lemma_anchor_index(x: int, y: int)
    requires
        0 <= x < DIM,
        0 <= y < DIM,
        x == 0 || x == DIM - 1 || y == 0 || y == DIM - 1,
    ensures
        0 <= anchor_index(x, y) < ANCHOR_COUNT,
        matches_cell(anchor_at(anchor_index(x, y)), x, y),
        anchor_at(anchor_index(x, y)).h == 0,
{
}

/// Exact interpolation law: a sample lying exactly on an interior grid
/// cell, with no later sample on the same cell, is reproduced exactly by
/// the built terrain.
pub proof fn lemma_exact_interpolation(
    hm: HeightMap,
    points: Seq<SamplePoint>,
    k: int,
    x: int,
    y: int,
)
    requires
        hm.models(points),
        0 <= k < points.len(),
        1 <= x <= DIM - 2,
        1 <= y <= DIM - 2,
        points[k].x == x * COORD_SCALE,
        points[k].y == y * COORD_SCALE,
        forall|m: int| k < m < points.len() ==> !matches_cell(#[trigger] points[m], x, y),
    ensures
        hm@[grid_index(x, y)] == points[k].h,
{
    let full = full_points(points);
    assert forall|m: int| k < m < full.len() implies !matches_cell(#[trigger] full[m], x, y) by {
        if m < points.len() {
            assert(full[m] == points[m]);
        } else {
            let a = m - points.len();
            assert(full[m] == anchors()[a]);
            assert(anchors()[a] == anchor_at(a));
            lemma_anchor_on_border(a);
            assert(1000 <= x * COORD_SCALE <= 98_000 && 1000 <= y * COORD_SCALE <= 98_000);
        }
    }
    assert(full[k] == points[k]);
    lemma_match_height_last(full, x, y, k);
    assert(hm@[grid_index(x, y)] == cell_height(full, x, y));
}

/// Border damping law: the border anchors force every border cell of the
/// built terrain (the four corners among them) to height exactly zero.
pub proof fn lemma_border_zero(hm: HeightMap, points: Seq<SamplePoint>, x: int, y: int)
    requires
        hm.models(points),
        0 <= x < DIM,
        0 <= y < DIM,
        x == 0 || x == DIM - 1 || y == 0 || y == DIM - 1,
    ensures
        hm@[grid_index(x, y)] == 0,
{
    let full = full_points(points);
    let a = anchor_index(x, y);
    lemma_anchor_index(x, y);
    let k = points.len() + a;
    assert(full[k] == anchors()[a]);
    assert(anchors()[a] == anchor_at(a));
    assert forall|m: int| k < m < full.len() implies !matches_cell(#[trigger] full[m], x, y) by {
        let b = m - points.len();
        assert(full[m] == anchors()[b]);
        assert(anchors()[b] == anchor_at(b));
        lemma_anchor_coords_distinct(a, b);
    }
    lemma_match_height_last(full, x, y, k);
    assert(hm@[grid_index(x, y)] == cell_height(full, x, y));
}

/// Interpolate the whole grid from the combined sample list.
fn interpolate_grid(full: &Vec<SamplePoint>, user: Ghost<Seq<SamplePoint>>) -> (heights: Vec<i64>)
    requires
        full@ == full_points(user@),
        forall|m: int| 0 <= m < full@.len() ==> valid_point(#[trigger] full@[m]),
        full@.len() <= MAX_POINTS + ANCHOR_COUNT,
    ensures
        heights@.len() == DIM * DIM,
        forall|k: int|
            0 <= k < heights@.len() ==> -MAX_TERRAIN < #[trigger] heights@[k] < MAX_TERRAIN,
        forall|x: int, y: int|
            0 <= x < DIM && 0 <= y < DIM ==> heights@[grid_index(x, y)] == #[trigger] cell_height(
                full@,
                x,
                y,
            ),
{
    let mut heights: Vec<i64> = Vec::new();
    let mut y: usize = 0;
    while y < DIM
        invariant
            0 <= y <= DIM,
            heights@.len() == y * DIM,
            full@ == full_points(user@),
            forall|m: int| 0 <= m < full@.len() ==> valid_point(#[trigger] full@[m]),
            full@.len() <= MAX_POINTS + ANCHOR_COUNT,
            forall|k: int|
                0 <= k < heights@.len() ==> -MAX_TERRAIN < #[trigger] heights@[k] < MAX_TERRAIN,
            forall|cx: int, cy: int|
                0 <= cx < DIM && 0 <= cy < y ==> heights@[grid_index(cx, cy)]
                    == #[trigger] cell_height(full@, cx, cy),
        decreases DIM - y,
    {
        let mut x: usize = 0;
        while x < DIM
            invariant
                0 <= y < DIM,
                0 <= x <= DIM,
                heights@.len() == y * DIM + x,
                full@ == full_points(user@),
                forall|m: int| 0 <= m < full@.len() ==> valid_point(#[trigger] full@[m]),
                full@.len() <= MAX_POINTS + ANCHOR_COUNT,
                forall|k: int|
                    0 <= k < heights@.len() ==> -MAX_TERRAIN < #[trigger] heights@[k] < MAX_TERRAIN,
                forall|cx: int, cy: int|
                    0 <= cx < DIM && 0 <= cy < y ==> heights@[grid_index(cx, cy)]
                        == #[trigger] cell_height(full@, cx, cy),
                forall|cx: int|
                    0 <= cx < x ==> heights@[grid_index(cx, y as int)] == #[trigger] cell_height(
                        full@,
                        cx,
                        y as int,
                    ),
            decreases DIM - x,
        {
            proof {
                if !has_match(full@, x as int, y as int) {
                    lemma_cell_has_near_anchor(user@, x as int, y as int);
                }
            }
            let v = cell_value(full, x, y);
            heights.push(v);
            x += 1;
        }
        y += 1;
    }
    heights
}

/// Compute one cell of the grid.
fn cell_value(full: &Vec<SamplePoint>, x: usize, y: usize) -> (v: i64)
    requires
        x < DIM,
        y < DIM,
        forall|m: int| 0 <= m < full@.len() ==> valid_point(#[trigger] full@[m]),
        full@.len() <= MAX_POINTS + ANCHOR_COUNT,
        wsum(full@, x as int, y as int) >= 1 || has_match(full@, x as int, y as int),
    ensures
        v == cell_height(full@, x as int, y as int),
        -MAX_TERRAIN < v < MAX_TERRAIN,
{
    let ghost cxi: int = x as int;
    let ghost cyi: int = y as int;
    let cx: i64 = (x as i64) * COORD_SCALE;
    let cy: i64 = (y as i64) * COORD_SCALE;
    let mut found: bool = false;
    let mut fh: i64 = 0;
    let mut k: usize = 0;
    while k < full.len()
        invariant
            0 <= k <= full@.len(),
            cx == cxi * COORD_SCALE,
            cy == cyi * COORD_SCALE,
            forall|m: int| 0 <= m < full@.len() ==> valid_point(#[trigger] full@[m]),
            found <==> has_match(full@.take(k as int), cxi, cyi),
            found ==> fh == match_height(full@.take(k as int), cxi, cyi),
            found ==> -MAX_TERRAIN < fh < MAX_TERRAIN,
        decreases full@.len() - k,
    {
        let p = full[k];
        proof {
            assert(full@.take(k + 1).drop_last() =~= full@.take(k as int));
            assert(full@.take(k + 1).last() == full@[k as int]);
        }
        if p.x == cx && p.y == cy {
            proof {
                assert(matches_cell(full@.take(k + 1)[k as int], cxi, cyi));
            }
            found = true;
            fh = p.h;
        } else {
            proof {
                if has_match(full@.take(k + 1), cxi, cyi) {
                    let w = choose|w: int|
                        0 <= w < full@.take(k + 1).len() && matches_cell(
                            #[trigger] full@.take(k + 1)[w],
                            cxi,
                            cyi,
                        );
                    assert(w < k);
                    assert(matches_cell(full@.take(k as int)[w], cxi, cyi));
                    assert(has_match(full@.take(k as int), cxi, cyi));
                }
                if has_match(full@.take(k as int), cxi, cyi) {
                    let w = choose|w: int|
                        0 <= w < full@.take(k as int).len() && matches_cell(
                            #[trigger] full@.take(k as int)[w],
                            cxi,
                            cyi,
                        );
                    assert(matches_cell(full@.take(k + 1)[w], cxi, cyi));
                    assert(has_match(full@.take(k + 1), cxi, cyi));
                }
            }
        }
        k += 1;
    }
    proof {
        assert(full@.take(full@.len() as int) =~= full@);
    }
    if found {
        proof {
            lemma_match_height_is_matched(full@, cxi, cyi);
        }
        fh
    } else {
        let mut ws: i128 = 0;
        let mut whs: i128 = 0;
        let mut k: usize = 0;
        while k < full.len()
            invariant
                0 <= k <= full@.len(),
                cx == cxi * COORD_SCALE,
                cy == cyi * COORD_SCALE,
                0 <= cxi < DIM,
                0 <= cyi < DIM,
                forall|m: int| 0 <= m < full@.len() ==> valid_point(#[trigger] full@[m]),
                full@.len() <= MAX_POINTS + ANCHOR_COUNT,
                !has_match(full@, cxi, cyi),
                ws == wsum(full@.take(k as int), cxi, cyi),
                whs == whsum(full@.take(k as int), cxi, cyi),
            decreases full@.len() - k,
        {
            proof {
                lemma_no_match_take(full@, k as int, cxi, cyi);
                lemma_no_match_take(full@, k + 1, cxi, cyi);
                assert(forall|m: int|
                    0 <= m < full@.take(k as int).len() ==> valid_point(
                        #[trigger] full@.take(k as int)[m],
                    ));
                assert(forall|m: int|
                    0 <= m < full@.take(k + 1).len() ==> valid_point(
                        #[trigger] full@.take(k + 1)[m],
                    ));
                lemma_sums_bounded(full@.take(k as int), cxi, cyi);
                lemma_sums_bounded(full@.take(k + 1), cxi, cyi);
            }
            let p = full[k];
            proof {
                assert(full@.take(k + 1).drop_last() =~= full@.take(k as int));
                assert(full@.take(k + 1).last() == full@[k as int]);
                assert(!matches_cell(p, cxi, cyi)) by {
                    if matches_cell(p, cxi, cyi) {
                        assert(matches_cell(full@[k as int], cxi, cyi));
                        assert(has_match(full@, cxi, cyi));
                    }
                }
                lemma_dist2_pos(p, cxi, cyi);
                lemma_weight_bounds(p, cxi, cyi);
            }
            let dx: i64 = p.x - cx;
            let dy: i64 = p.y - cy;
            proof {
                assert(-99_000 <= dx <= 99_000 && -99_000 <= dy <= 99_000);
                assert(dx * dx + dy * dy <= 19_602_000_000 && dx * dx >= 0 && dy * dy >= 0)
                    by (nonlinear_arith)
                    requires
                        -99_000 <= dx <= 99_000,
                        -99_000 <= dy <= 99_000,
                ;
            }
            let d2: i64 = dx * dx + dy * dy;
            proof {
                assert(d2 == dist2(p, cxi, cyi));
            }
            let d: u64 = isqrt_u64(d2 as u64);
            let di: i128 = d as i128;
            proof {
                lemma_sqrt_floor_bounds(d2 as int);
                assert(di >= 1) by {
                    if sqrt_floor(d2 as int) == 0 {
                        assert((0 + 1) * (0 + 1) > d2);
                        assert(false);
                    }
                }
            }
            proof {
                assert(1 <= di * di <= 19_628_010_000) by (nonlinear_arith)
                    requires
                        1 <= di <= 140_100i128,
                ;
            }
            let dsq: i128 = di * di;
            proof {
                assert(1 <= dsq * dsq <= 385_258_776_626_100_000_000) by (nonlinear_arith)
                    requires
                        1 <= dsq <= 19_628_010_000i128,
                ;
            }
            let d4: i128 = dsq * dsq;
            proof {
                assert(1 <= d4 * di <= 53_974_754_605_516_610_000_000_000) by (nonlinear_arith)
                    requires
                        1 <= d4 <= 385_258_776_626_100_000_000i128,
                        1 <= di <= 140_100i128,
                ;
            }
            let d5: i128 = d4 * di;
            proof {
                assert(d5 == pow5(di as int)) by (nonlinear_arith)
                    requires
                        dsq == di * di,
                        d4 == dsq * dsq,
                        d5 == d4 * di,
                        pow5(di as int) == di * di * di * di * di,
                ;
            }
            let w: i128 = div_i128(IDW_NUMER, d5);
            proof {
                assert(w == weight(p, cxi, cyi));
                assert(w <= IDW_NUMER);
            }
            ws = ws + w;
            whs = whs + w * (p.h as i128);
            proof {
                assert(-(IDW_NUMER as int * (MAX_TERRAIN - 1)) <= w * p.h <= IDW_NUMER as int * (
                MAX_TERRAIN - 1)) by (nonlinear_arith)
                    requires
                        0 <= w <= IDW_NUMER,
                        -MAX_TERRAIN < p.h < MAX_TERRAIN,
                ;
            }
            k += 1;
        }
        proof {
            assert(full@.take(full@.len() as int) =~= full@);
            lemma_sums_bounded(full@, cxi, cyi);
            lemma_idw_in_range(full@, cxi, cyi);
        }
        let q: i128 = div_i128(whs, ws);
        q as i64
    }
}

} // verus!
