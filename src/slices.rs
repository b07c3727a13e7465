use vstd::prelude::*;
use crate::geometry::{Point, Circle, COORD_LIMIT};
use crate::section::{Layer, Geometry, polyline_points};
use crate::bishop::{Slice, SCALE, MAX_SLICES, floor_div, slices_wf};
use vstd::arithmetic::div_mod::{lemma_div_is_ordered, lemma_fundamental_div_mod_converse_div};

verus! {

/// Largest unit weight, cohesion or friction tangent a layer may carry.
pub const MATERIAL_LIMIT: i64 = 100_000;

/// Most layers a cross-section may hold.
pub const MAX_LAYERS: usize = 1000;

/// floor(√n).
pub open spec fn sqrt_floor(n: int) -> int {
    choose|s: int| 0 <= s && #[trigger] (s * s) <= n < (s + 1) * (s + 1)
}

proof fn lemma_sqrt_unique(n: int, s: int)
    requires
        0 <= s,
        s * s <= n < (s + 1) * (s + 1),
    ensures
        sqrt_floor(n) == s,
{
    let t = sqrt_floor(n);
    assert(exists|s: int| 0 <= s && #[trigger] (s * s) <= n < (s + 1) * (s + 1));
    assert(0 <= t && t * t <= n < (t + 1) * (t + 1));
    if t < s {
        assert((t + 1) * (t + 1) <= s * s) by (nonlinear_arith)
            requires 0 <= t < s;
    } else if s < t {
        assert((s + 1) * (s + 1) <= t * t) by (nonlinear_arith)
            requires 0 <= s < t;
    }
}

/// floor(√n) for 0 ≤ n < 2^122.
fn isqrt(n: i128) -> (r: i128)
    requires
        0 <= n < 0x0400_0000_0000_0000_0000_0000_0000_0000,
    ensures
        r == sqrt_floor(n as int),
        r * r <= n < (r + 1) * (r + 1),
        0 <= r < 0x2000_0000_0000_0000,
{
    let mut lo: i128 = 0;
    let mut hi: i128 = 0x2000_0000_0000_0000;
    assert(hi * hi == 0x0400_0000_0000_0000_0000_0000_0000_0000);
    while hi - lo > 1
        invariant
            0 <= lo < hi <= 0x2000_0000_0000_0000,
            lo * lo <= n < hi * hi,
        decreases hi - lo,
    {
        let mid: i128 = lo + (hi - lo) / 2;
        assert(mid * mid <= 0x0400_0000_0000_0000_0000_0000_0000_0000) by (nonlinear_arith)
            requires 0 <= mid <= 0x2000_0000_0000_0000;
        if mid * mid <= n {
            lo = mid;
        } else {
            hi = mid;
        }
    }
    assert(hi == lo + 1);
    proof {
        lemma_sqrt_unique(n as int, lo as int);
    }
    lo
}

/// The height of the edge from a to b above x, rounded down.
pub open spec fn edge_y(a: Point, b: Point, x: int) -> int {
    a.y + ((b.y - a.y) * (x - a.x)) / (b.x - a.x)
}

/// Elevation of a polyline at x, searched from edge i on: the first edge
/// that spans x from left to right gives it.
pub open spec fn boundary_from(pts: Seq<Point>, x: int, i: int) -> Option<int>
    decreases pts.len() - i,
{
    if i < 1 || i >= pts.len() {
        None
    } else if pts[i - 1].x < pts[i].x && pts[i - 1].x <= x <= pts[i].x {
        Some(edge_y(pts[i - 1], pts[i], x))
    } else {
        boundary_from(pts, x, i + 1)
    }
}

pub open spec fn boundary_at(pts: Seq<Point>, x: int) -> Option<int> {
    boundary_from(pts, x, 1)
}

/// The elevation of boundary k at x; a layer absent there, and the bottom
/// of the last layer, count as the slip surface itself.
pub open spec fn level(ls: Seq<Layer>, k: int, x: int, base: int) -> int {
    if 0 <= k < ls.len() {
        match boundary_at(ls[k].points@, x) {
            Some(y) => y,
            None => base,
        }
    } else {
        base
    }
}

pub open spec fn min_int(a: int, b: int) -> int {
    if a <= b { a } else { b }
}

pub open spec fn max_int(a: int, b: int) -> int {
    if a >= b { a } else { b }
}

/// How much of layer k lies between the ground and the slip surface at x.
pub open spec fn thickness(ls: Seq<Layer>, k: int, x: int, ground: int, base: int) -> int {
    max_int(0, min_int(level(ls, k, x, base), ground) - max_int(level(ls, k + 1, x, base), base))
}

/// How much of that part of layer k lies below the water level hw.
pub open spec fn wet_thickness(ls: Seq<Layer>, k: int, x: int, ground: int, base: int, hw: int) -> int {
    max_int(0, min_int(min_int(level(ls, k, x, base), ground), hw) - max_int(level(ls, k + 1, x, base), base))
}

/// Σ over the first n layers of the dry unit weight times the thickness
/// above the water level and the saturated one times that below it.
pub open spec fn column_weight(ls: Seq<Layer>, n: int, x: int, ground: int, base: int, hw: int) -> int
    decreases n,
{
    if n <= 0 {
        0
    } else {
        column_weight(ls, n - 1, x, ground, base, hw)
            + ls[n - 1].y_dry * (thickness(ls, n - 1, x, ground, base) - wet_thickness(ls, n - 1, x, ground, base, hw))
            + ls[n - 1].y_sat * wet_thickness(ls, n - 1, x, ground, base, hw)
    }
}

/// Unit weight of water, in kN/m³.
pub const GAMMA_W: i64 = 10;

/// Elevation of the phreatic surface at x where it lies above the slip
/// surface; the slip surface itself where there is none above it.
pub open spec fn water_of(wat: Seq<Point>, x: int, base: int) -> int {
    match boundary_at(wat, x) {
        Some(h) => if h > base { h } else { base },
        None => base,
    }
}

/// The deepest of the first n layers whose boundary at x lies above the
/// slip surface: the layer in which the base of the slice lies.
pub open spec fn base_layer(ls: Seq<Layer>, n: int, x: int, base: int) -> int
    decreases n,
{
    if n <= 1 {
        0
    } else if level(ls, n - 1, x, base) > base {
        n - 1
    } else {
        base_layer(ls, n - 1, x, base)
    }
}

impl Layer {
    pub open spec fn material_ok(&self) -> bool {
        &&& 0 <= self.y_dry <= MATERIAL_LIMIT
        &&& 0 <= self.y_sat <= MATERIAL_LIMIT
        &&& 0 <= self.c <= MATERIAL_LIMIT
        &&& 0 <= self.tan_phi <= MATERIAL_LIMIT
    }
}

/// Where both polylines are defined at x, `lower` is not above `upper`.
pub open spec fn not_above_at(upper: Seq<Point>, lower: Seq<Point>, x: int) -> bool {
    boundary_at(upper, x) is Some && boundary_at(lower, x) is Some
        ==> boundary_at(lower, x)->Some_0 <= boundary_at(upper, x)->Some_0
}

/// `lower` nowhere rises above `upper`: both are piecewise linear, so it is
/// enough to look at the vertices of each.
pub open spec fn boundaries_ordered(upper: Seq<Point>, lower: Seq<Point>) -> bool {
    &&& forall|i: int| 0 <= i < upper.len() ==> not_above_at(upper, lower, (#[trigger] upper[i]).x as int)
    &&& forall|i: int| 0 <= i < lower.len() ==> not_above_at(upper, lower, (#[trigger] lower[i]).x as int)
}

impl Geometry {
    /// At least one layer, not too many, each with at least two points in
    /// range and a material in range, and no layer boundary crossing the one
    /// above it.
    pub open spec fn wf(&self) -> bool {
        &&& 1 <= self.layers.len() <= MAX_LAYERS
        &&& forall|k: int| 0 <= k < self.layers.len() ==> {
            &&& (#[trigger] self.layers@[k]).wf()
            &&& self.layers@[k].material_ok()
            &&& self.layers@[k].points.len() >= 2
        }
        &&& forall|k: int| 0 <= k < self.layers.len() - 1 ==> boundaries_ordered(
            (#[trigger] self.layers@[k]).points@, self.layers@[k + 1].points@)
        &&& forall|i: int| 0 <= i < self.water.len() ==> (#[trigger] self.water@[i]).wf()
    }
}

pub open spec fn widen_opt(o: Option<i128>) -> Option<int> {
    match o {
        Some(v) => Some(v as int),
        None => None,
    }
}

/// Elevation of the polyline at x, if an edge spans x.
fn boundary_y(pts: &Vec<Point>, x: i128) -> (r: Option<i128>)
    requires
        forall|i: int| 0 <= i < pts.len() ==> (#[trigger] pts@[i]).wf(),
        -0x4000_0000 <= x <= 0x4000_0000,
    ensures
        widen_opt(r) == boundary_at(pts@, x as int),
        r matches Some(y) ==> -0x1000_0000_0000_0000 <= y <= 0x1000_0000_0000_0000,
{
    let mut i: usize = 1;
    while i < pts.len()
        invariant
            forall|i: int| 0 <= i < pts.len() ==> (#[trigger] pts@[i]).wf(),
            -0x4000_0000 <= x <= 0x4000_0000,
            1 <= i,
            boundary_at(pts@, x as int) == boundary_from(pts@, x as int, i as int),
        decreases pts.len() - i,
    {
        let a = pts[i - 1];
        let b = pts[i];
        assert(pts@[i - 1].wf() && pts@[i as int].wf());
        if a.x < b.x && a.x as i128 <= x && x <= b.x as i128 {
            let dy: i128 = b.y as i128 - a.y as i128;
            let run: i128 = x - a.x as i128;
            proof {
                assert(-0x0800_0000_0000_0000 <= dy * run <= 0x0800_0000_0000_0000) by (nonlinear_arith)
                    requires -0x2000_0000 <= dy <= 0x2000_0000, 0 <= run <= 0x4000_0000;
            }
            let q = floor_div(dy * run, b.x as i128 - a.x as i128);
            return Some(a.y as i128 + q);
        }
        i += 1;
    }
    None
}

/// The elevation of boundary k at x, as `level` gives it.
fn level_at(ls: &Vec<Layer>, k: usize, x: i128, base: i128) -> (r: i128)
    requires
        forall|j: int| 0 <= j < ls.len() ==> (#[trigger] ls@[j]).wf(),
        -0x4000_0000 <= x <= 0x4000_0000,
        -0x1000_0000_0000_0000 <= base <= 0x1000_0000_0000_0000,
    ensures
        r == level(ls@, k as int, x as int, base as int),
        -0x1000_0000_0000_0000 <= r <= 0x1000_0000_0000_0000,
{
    if k < ls.len() {
        assert(ls@[k as int].wf());
        match boundary_y(&ls[k].points, x) {
            Some(y) => y,
            None => base,
        }
    } else {
        base
    }
}

/// The weight of the soil column above the slip surface at x (per unit
/// width) and the layer in which the slip surface lies there.
fn column(ls: &Vec<Layer>, x: i128, ground: i128, base: i128, hw: i128) -> (r: (i128, usize))
    requires
        1 <= ls.len() <= MAX_LAYERS,
        forall|j: int| 0 <= j < ls.len() ==> (#[trigger] ls@[j]).wf() && ls@[j].material_ok(),
        -0x4000_0000 <= x <= 0x4000_0000,
        -0x1000_0000_0000_0000 <= ground <= 0x1000_0000_0000_0000,
        -0x1000_0000_0000_0000 <= base <= 0x1000_0000_0000_0000,
        base <= hw <= 0x1000_0000_0000_0000,
    ensures
        r.0 == column_weight(ls@, ls.len() as int, x as int, ground as int, base as int, hw as int),
        0 <= r.0 <= 0x0400_0000_0000_0000_0000_0000,
        r.1 == base_layer(ls@, ls.len() as int, x as int, base as int),
        r.1 < ls.len(),
{
    let mut w: i128 = 0;
    let mut deepest: usize = 0;
    let mut k: usize = 0;
    let mut upper: i128 = level_at(ls, 0, x, base);
    while k < ls.len()
        invariant
            1 <= ls.len() <= MAX_LAYERS,
            forall|j: int| 0 <= j < ls.len() ==> (#[trigger] ls@[j]).wf() && ls@[j].material_ok(),
            -0x4000_0000 <= x <= 0x4000_0000,
            -0x1000_0000_0000_0000 <= ground <= 0x1000_0000_0000_0000,
            -0x1000_0000_0000_0000 <= base <= 0x1000_0000_0000_0000,
            base <= hw <= 0x1000_0000_0000_0000,
            k <= ls.len(),
            upper == level(ls@, k as int, x as int, base as int),
            -0x1000_0000_0000_0000 <= upper <= 0x1000_0000_0000_0000,
            w == column_weight(ls@, k as int, x as int, ground as int, base as int, hw as int),
            0 <= w <= k * 0x1_0000_0000_0000_0000_0000,
            deepest == base_layer(ls@, if k == 0 { 1 } else { k as int }, x as int, base as int),
            deepest < ls.len(),
        decreases ls.len() - k,
    {
        let lower = level_at(ls, k + 1, x, base);
        let top: i128 = if upper <= ground { upper } else { ground };
        let bottom: i128 = if lower >= base { lower } else { base };
        let t: i128 = if top - bottom >= 0 { top - bottom } else { 0 };
        assert(ls@[k as int].material_ok());
        let top_wet: i128 = if top <= hw { top } else { hw };
        let wt: i128 = if top_wet - bottom >= 0 { top_wet - bottom } else { 0 };
        let g: i128 = ls[k].y_dry as i128;
        let gs: i128 = ls[k].y_sat as i128;
        proof {
            assert(0 <= g * (t - wt) <= 0x8000_0000_0000_0000_0000) by (nonlinear_arith)
                requires 0 <= g <= 100_000, 0 <= t - wt <= 0x2000_0000_0000_0000;
            assert(0 <= gs * wt <= 0x8000_0000_0000_0000_0000) by (nonlinear_arith)
                requires 0 <= gs <= 100_000, 0 <= wt <= 0x2000_0000_0000_0000;
            assert((k + 1) * 0x1_0000_0000_0000_0000_0000 == k * 0x1_0000_0000_0000_0000_0000 + 0x1_0000_0000_0000_0000_0000) by (nonlinear_arith);
        }
        w = w + g * (t - wt) + gs * wt;
        if k >= 1 && upper > base {
            deepest = k;
        }
        upper = lower;
        k += 1;
    }
    proof {
        assert(k * 0x1_0000_0000_0000_0000_0000 <= 0x0400_0000_0000_0000_0000_0000) by (nonlinear_arith)
            requires k <= 1000;
    }
    (w, deepest)
}

fn not_above(upper: &Vec<Point>, lower: &Vec<Point>, x: i64) -> (r: bool)
    requires
        forall|i: int| 0 <= i < upper.len() ==> (#[trigger] upper@[i]).wf(),
        forall|i: int| 0 <= i < lower.len() ==> (#[trigger] lower@[i]).wf(),
        -COORD_LIMIT <= x <= COORD_LIMIT,
    ensures
        r == not_above_at(upper@, lower@, x as int),
{
    match (boundary_y(upper, x as i128), boundary_y(lower, x as i128)) {
        (Some(u), Some(l)) => l <= u,
        _ => true,
    }
}

/// Whether `lower` nowhere rises above `upper`, as `boundaries_ordered`.
fn ordered(upper: &Vec<Point>, lower: &Vec<Point>) -> (r: bool)
    requires
        forall|i: int| 0 <= i < upper.len() ==> (#[trigger] upper@[i]).wf(),
        forall|i: int| 0 <= i < lower.len() ==> (#[trigger] lower@[i]).wf(),
    ensures
        r == boundaries_ordered(upper@, lower@),
{
    let mut i: usize = 0;
    while i < upper.len()
        invariant
            forall|i: int| 0 <= i < upper.len() ==> (#[trigger] upper@[i]).wf(),
            forall|i: int| 0 <= i < lower.len() ==> (#[trigger] lower@[i]).wf(),
            i <= upper.len(),
            forall|j: int| 0 <= j < i ==> not_above_at(upper@, lower@, (#[trigger] upper@[j]).x as int),
        decreases upper.len() - i,
    {
        assert(upper@[i as int].wf());
        if !not_above(upper, lower, upper[i].x) {
            return false;
        }
        i += 1;
    }
    let mut j: usize = 0;
    while j < lower.len()
        invariant
            forall|i: int| 0 <= i < upper.len() ==> (#[trigger] upper@[i]).wf(),
            forall|i: int| 0 <= i < lower.len() ==> (#[trigger] lower@[i]).wf(),
            j <= lower.len(),
            forall|i: int| 0 <= i < upper.len() ==> not_above_at(upper@, lower@, (#[trigger] upper@[i]).x as int),
            forall|i: int| 0 <= i < j ==> not_above_at(upper@, lower@, (#[trigger] lower@[i]).x as int),
        decreases lower.len() - j,
    {
        assert(lower@[j as int].wf());
        if !not_above(upper, lower, lower[j].x) {
            return false;
        }
        j += 1;
    }
    true
}

fn point_ok(p: Point) -> (r: bool)
    ensures
        r == p.wf(),
{
    -COORD_LIMIT <= p.x && p.x <= COORD_LIMIT && -COORD_LIMIT <= p.y && p.y <= COORD_LIMIT
}

impl Geometry {
    /// Whether the cross-section is one the library takes: see `wf`.
    pub fn is_valid(&self) -> (r: bool)
        ensures
            r == self.wf(),
    {
        if self.layers.len() < 1 || self.layers.len() > MAX_LAYERS {
            return false;
        }
        let mut k: usize = 0;
        while k < self.layers.len()
            invariant
                k <= self.layers.len(),
                forall|j: int| 0 <= j < k ==> {
                    &&& (#[trigger] self.layers@[j]).wf()
                    &&& self.layers@[j].material_ok()
                    &&& self.layers@[j].points.len() >= 2
                },
            decreases self.layers.len() - k,
        {
            let l = &self.layers[k];
            if !(0 <= l.y_dry && l.y_dry <= MATERIAL_LIMIT && 0 <= l.y_sat && l.y_sat <= MATERIAL_LIMIT
                && 0 <= l.c && l.c <= MATERIAL_LIMIT && 0 <= l.tan_phi && l.tan_phi <= MATERIAL_LIMIT) {
                return false;
            }
            if l.points.len() < 2 {
                return false;
            }
            let mut i: usize = 0;
            while i < l.points.len()
                invariant
                    k < self.layers.len(),
                    *l == self.layers@[k as int],
                    i <= l.points.len(),
                    forall|j: int| 0 <= j < i ==> (#[trigger] l.points@[j]).wf(),
                decreases l.points.len() - i,
            {
                if !point_ok(l.points[i]) {
                    assert(!self.layers@[k as int].wf());
                    return false;
                }
                i += 1;
            }
            k += 1;
        }
        let mut k: usize = 0;
        while k + 1 < self.layers.len()
            invariant
                1 <= self.layers.len(),
                forall|j: int| 0 <= j < self.layers.len() ==> (#[trigger] self.layers@[j]).wf(),
                forall|j: int| 0 <= j < k ==> boundaries_ordered(
                    (#[trigger] self.layers@[j]).points@, self.layers@[j + 1].points@),
                k < self.layers.len(),
            decreases self.layers.len() - k,
        {
            assert(self.layers@[k as int].wf() && self.layers@[k + 1].wf());
            if !ordered(&self.layers[k].points, &self.layers[k + 1].points) {
                return false;
            }
            k += 1;
        }
        let mut i: usize = 0;
        while i < self.water.len()
            invariant
                i <= self.water.len(),
                forall|j: int| 0 <= j < i ==> (#[trigger] self.water@[j]).wf(),
            decreases self.water.len() - i,
        {
            if !point_ok(self.water[i]) {
                return false;
            }
            i += 1;
        }
        true
    }
}

/// Why one trial circle gave no factor of safety.
#[derive(Clone, Copy, Debug, PartialEq, Eq, Structural)]
pub enum TrialError {
    /// The circle meets the ground surface in fewer than two distinct
    /// points, or no
    /// slice of the sliding mass remains.
    GeometryDegenerate,
    /// The iteration did not settle, or a denominator vanished.
    SolverDiverged,
    /// The iteration settled on a factor of safety that is not positive.
    InvalidResult,
    /// The slice count is zero or too large for the circle, or a slice is
    /// wider or heavier than the solver takes.
    InputInvalid,
}

/// Elevation of the slip surface at x: the lower half of the circle.
pub open spec fn base_of(c: Circle, x: int) -> int {
    c.my - sqrt_floor(c.r * c.r - (x - c.mx) * (x - c.mx))
}

pub open spec fn ground_of(ls: Seq<Layer>, x: int) -> int {
    boundary_at(ls[0].points@, x)->Some_0
}

/// Whether the slice centred at x belongs to the sliding mass: the circle
/// spans x, runs below the ground there, and its base is not vertical.
pub open spec fn slice_kept(ls: Seq<Layer>, c: Circle, x: int) -> bool {
    &&& (x - c.mx) * (x - c.mx) <= c.r * c.r
    &&& boundary_at(ls[0].points@, x) is Some
    &&& ground_of(ls, x) > base_of(c, x)
    &&& (c.my - base_of(c, x)) * SCALE / (c.r as int) > 0
}

/// Weight of the slice of width b centred at x.
pub open spec fn slice_weight(ls: Seq<Layer>, wat: Seq<Point>, c: Circle, x: int, b: int) -> int {
    b * column_weight(ls, ls.len() as int, x, ground_of(ls, x), base_of(c, x), water_of(wat, x, base_of(c, x)))
}

/// Pore pressure at the base of the slice centred at x.
pub open spec fn pore_pressure(wat: Seq<Point>, c: Circle, x: int) -> int {
    GAMMA_W * (water_of(wat, x, base_of(c, x)) - base_of(c, x))
}

pub open spec fn slice_fits(ls: Seq<Layer>, wat: Seq<Point>, c: Circle, x: int, b: int) -> bool {
    &&& b <= 1_000_000
    &&& slice_weight(ls, wat, c, x, b) <= 1_000_000_000
    &&& pore_pressure(wat, c, x) <= 1_000_000
}

/// The slice of width b centred at x, with the material of the layer its
/// base lies in and the pore pressure of the water above its base.
pub open spec fn slice_at(ls: Seq<Layer>, wat: Seq<Point>, c: Circle, x: int, b: int) -> Slice {
    let base = base_of(c, x);
    let k = base_layer(ls, ls.len() as int, x, base);
    Slice {
        b: b as i64,
        w: slice_weight(ls, wat, c, x, b) as i64,
        c: ls[k].c,
        tan_phi: ls[k].tan_phi,
        u: pore_pressure(wat, c, x) as i64,
        sin_a: ((x - c.mx) * SCALE / c.r as int) as i64,
        cos_a: ((c.my - base) * SCALE / c.r as int) as i64,
    }
}

/// Centre of slice k when slices of width b are laid from mx − r on.
pub open spec fn midpoint(c: Circle, b: int, k: int) -> int {
    c.mx - c.r + k * b + b / 2
}

pub open spec fn slices_upto(ls: Seq<Layer>, wat: Seq<Point>, c: Circle, b: int, k: int) -> Seq<Slice>
    decreases k,
{
    if k <= 0 {
        seq![]
    } else if slice_kept(ls, c, midpoint(c, b, k - 1)) {
        slices_upto(ls, wat, c, b, k - 1).push(slice_at(ls, wat, c, midpoint(c, b, k - 1), b))
    } else {
        slices_upto(ls, wat, c, b, k - 1)
    }
}

pub open spec fn all_fit(ls: Seq<Layer>, wat: Seq<Point>, c: Circle, b: int, n: int) -> bool {
    forall|k: int| 0 <= k < n && #[trigger] slice_kept(ls, c, midpoint(c, b, k))
        ==> slice_fits(ls, wat, c, midpoint(c, b, k), b)
}

/// What `decompose` returns for n slices.
pub open spec fn decomposition(g: Geometry, c: Circle, n: int) -> Result<Seq<Slice>, TrialError> {
    let ls = g.layers@;
    let wat = g.water@;
    let b = (2 * c.r + n - 1) / n;
    if polyline_points(ls[0].points@, c, ls[0].points.len() as int) < 2 {
        Err(TrialError::GeometryDegenerate)
    } else if n <= 0 || n > MAX_SLICES || b == 0 {
        Err(TrialError::InputInvalid)
    } else if !all_fit(ls, wat, c, b, n) {
        Err(TrialError::InputInvalid)
    } else if slices_upto(ls, wat, c, b, n).len() == 0 {
        Err(TrialError::GeometryDegenerate)
    } else {
        Ok(slices_upto(ls, wat, c, b, n))
    }
}

pub open spec fn widen_slices(r: Result<Vec<Slice>, TrialError>) -> Result<Seq<Slice>, TrialError> {
    match r {
        Ok(v) => Ok(v@),
        Err(e) => Err(e),
    }
}

proof fn lemma_scaled_ratio(a: int, r: int)
    requires
        0 < r,
        -r <= a <= r,
    ensures
        -SCALE <= a * SCALE / r <= SCALE,
{
    lemma_fundamental_div_mod_converse_div(r * SCALE, r, SCALE as int, 0);
    lemma_fundamental_div_mod_converse_div(-r * SCALE, r, -SCALE, 0);
    assert(a * SCALE <= r * SCALE && -r * SCALE <= a * SCALE) by (nonlinear_arith)
        requires -r <= a <= r;
    lemma_div_is_ordered(a * SCALE, r * SCALE, r);
    lemma_div_is_ordered(-r * SCALE, a * SCALE, r);
}

/// Cuts the sliding mass above the circle into slices: n slices of width
/// ⌈2r / n⌉ laid from mx − r on, so that they cover the circle's span, of
/// which those whose centre lies within the circle, under the ground, with a
/// base that is not vertical remain, left to right. A circle that meets the
/// ground in fewer than two distinct points gives no sliding mass. The mass slides
/// towards decreasing x, so the base angle has sin α = (x − mx) / r and
/// cos α = (my − y) / r at the base point (x, y).
pub fn decompose(g: &Geometry, c: Circle, n: usize) -> (res: Result<Vec<Slice>, TrialError>)
    requires
        g.wf(),
        c.wf(),
    ensures
        widen_slices(res) == decomposition(*g, c, n as int),
        res matches Ok(v) ==> slices_wf(v@),
{
    let ghost ls = g.layers@;
    let ghost wat = g.water@;
    assert(g.layers@[0].wf() && g.layers@[0].points.len() >= 2);
    if !g.layers[0].meets_twice(c.mx, c.my, c.r) {
        return Err(TrialError::GeometryDegenerate);
    }
    let ghost hits = polyline_points(ls[0].points@, c, ls[0].points.len() as int);
    assert(hits >= 2);
    if n == 0 || n > MAX_SLICES {
        return Err(TrialError::InputInvalid);
    }
    let r: i128 = c.r as i128;
    let b: i128 = (2 * r + n as i128 - 1) / n as i128;
    proof {
        let m = 2 * r + n - 1;
        vstd::arithmetic::div_mod::lemma_fundamental_div_mod(m, n as int);
        vstd::arithmetic::div_mod::lemma_mod_pos_bound(m, n as int);
        assert(n * b <= 2 * r + n && b >= 1) by (nonlinear_arith)
            requires b == m / (n as int), m == n * (m / (n as int)) + m % (n as int), 0 <= m % (n as int) < n,
                n > 0, r > 0, m == 2 * r + n - 1;
    }
    if b == 0 {
        return Err(TrialError::InputInvalid);
    }
    let mut out: Vec<Slice> = Vec::new();
    let mut k: usize = 0;
    while k < n
        invariant
            g.wf(),
            c.wf(),
            ls == g.layers@,
            r == c.r,
            0 < b,
            n * b <= 2 * r + n,
            b == (2 * c.r + n - 1) / (n as int),
            0 < n <= MAX_SLICES,
            k <= n,
            wat == g.water@,
            out@ == slices_upto(ls, wat, c, b as int, k as int),
            all_fit(ls, wat, c, b as int, k as int),
            slices_wf(out@),
            out.len() <= k,
            hits >= 2,
            hits == polyline_points(ls[0].points@, c, ls[0].points.len() as int),
        decreases n - k,
    {
        proof {
            assert(0 <= k * b + b / 2 <= n * b) by (nonlinear_arith)
                requires 0 <= k < n, b > 0;
            assert(n <= 10_000);
        }
        let x: i128 = c.mx as i128 - r + k as i128 * b + b / 2;
        assert(x == midpoint(c, b as int, k as int));
        let dxm: i128 = x - c.mx as i128;
        assert(ls[0].wf() && ls[0].material_ok());
        let ghost kept = slice_kept(ls, c, x as int);
        let mut keep = false;
        proof {
            assert(0 <= dxm * dxm <= (r + 10_000) * (r + 10_000)) by (nonlinear_arith)
                requires -r <= dxm <= r + 10_000, r > 0;
            assert((r + 10_000) * (r + 10_000) <= 0x0200_0000_0000_0000) by (nonlinear_arith)
                requires 0 < r <= 0x1000_0000;
            assert(0 < r * r <= 0x0100_0000_0000_0000) by (nonlinear_arith)
                requires 0 < r <= 0x1000_0000;
        }
        if dxm * dxm > r * r {
            assert(!kept);
            proof {
                assert forall|j: int| 0 <= j < k + 1 && #[trigger] slice_kept(ls, c, midpoint(c, b as int, j))
                    implies slice_fits(ls, wat, c, midpoint(c, b as int, j), b as int) by {
                    if j < k {
                        assert(slice_kept(ls, c, midpoint(c, b as int, j)));
                    }
                }
            }
            k += 1;
            continue;
        }
        proof {
            assert(-r <= dxm <= r) by (nonlinear_arith)
                requires dxm * dxm <= r * r, r > 0;
        }
        let rad = isqrt(r * r - dxm * dxm);
        let base: i128 = c.my as i128 - rad;
        proof {
            assert(rad <= r) by (nonlinear_arith)
                requires rad * rad <= r * r - dxm * dxm, 0 <= rad, 0 < r;
        }
        match boundary_y(&g.layers[0].points, x) {
            None => {},
            Some(ground) => {
                if ground > base {
                    let cos: i128 = floor_div(rad * 1000, r);
                    if cos > 0 {
                        keep = true;
                        proof {
                            lemma_scaled_ratio(rad as int, r as int);
                            lemma_scaled_ratio(dxm as int, r as int);
                        }
                        let sin: i128 = floor_div(dxm * 1000, r);
                        let hw: i128 = match boundary_y(&g.water, x) {
                            Some(h) => if h > base { h } else { base },
                            None => base,
                        };
                        let (wcol, kb) = column(&g.layers, x, ground, base, hw);
                        assert(base == base_of(c, x as int));
                        assert(ground == ground_of(ls, x as int));
                        assert(hw == water_of(wat, x as int, base as int));
                        assert(slice_kept(ls, c, x as int));
                        assert(slice_weight(ls, wat, c, x as int, b as int) == b * wcol);
                        assert(slice_kept(ls, c, midpoint(c, b as int, k as int)));
                        if b > 1_000_000 {
                            assert(!all_fit(ls, wat, c, b as int, n as int));
                            return Err(TrialError::InputInvalid);
                        }
                        proof {
                            assert(b * wcol <= 1_000_000 * 0x0400_0000_0000_0000_0000_0000) by (nonlinear_arith)
                                requires 0 < b <= 1_000_000, 0 <= wcol <= 0x0400_0000_0000_0000_0000_0000;
                        }
                        let w: i128 = b * wcol;
                        if w > 1_000_000_000 {
                            assert(!all_fit(ls, wat, c, b as int, n as int));
                            return Err(TrialError::InputInvalid);
                        }
                        if hw - base > 100_000 {
                            assert(!all_fit(ls, wat, c, b as int, n as int));
                            return Err(TrialError::InputInvalid);
                        }
                        assert(g.layers@[kb as int].material_ok());
                        let s = Slice {
                            b: b as i64,
                            w: w as i64,
                            c: g.layers[kb].c,
                            tan_phi: g.layers[kb].tan_phi,
                            u: (10 * (hw - base)) as i64,
                            sin_a: sin as i64,
                            cos_a: cos as i64,
                        };
                        proof {
                            assert(0 <= w) by (nonlinear_arith) requires w == b * wcol, b > 0, wcol >= 0;
                        }
                        out.push(s);
                    }
                }
            },
        }
        assert(keep == kept);
        proof {
            assert forall|j: int| 0 <= j < k + 1 && #[trigger] slice_kept(ls, c, midpoint(c, b as int, j))
                implies slice_fits(ls, wat, c, midpoint(c, b as int, j), b as int) by {
                if j < k {
                    assert(slice_kept(ls, c, midpoint(c, b as int, j)));
                }
            }
        }
        k += 1;
    }
    if out.len() == 0 {
        return Err(TrialError::GeometryDegenerate);
    }
    Ok(out)
}

} // verus!
