use vstd::prelude::*;
use crate::geometry::{Circle, COORD_LIMIT};
use crate::section::Geometry;
use crate::bishop::{Slice, SolveError, SCALE, solve, solution, driving, driving_sum, slices_wf};
use crate::slices::{TrialError, decompose, decomposition};

verus! {

/// Settings of the iteration: slice count, tolerance (in units of
/// 1 / SCALE) and most steps.
#[derive(Clone, Copy, Debug, PartialEq, Eq, Structural)]
pub struct SolverConfig {
    pub slices: usize,
    pub tol: i128,
    pub max_iter: u32,
}

/// Why the search found no critical circle.
#[derive(Clone, Copy, Debug, PartialEq, Eq, Structural)]
pub enum SearchError {
    /// A candidate circle has a radius that is not positive, or a centre or
    /// radius out of range.
    InputInvalid,
    /// Every candidate failed.
    NoFeasibleTrial,
}

pub open spec fn trial_error(e: SolveError) -> TrialError {
    match e {
        SolveError::Diverged => TrialError::SolverDiverged,
        SolveError::InvalidResult => TrialError::InvalidResult,
    }
}

/// The slices seen in a mirror: every base angle changes sign.
pub open spec fn mirrored(ss: Seq<Slice>) -> Seq<Slice> {
    Seq::new(ss.len(), |i: int| Slice { sin_a: (-ss[i].sin_a) as i64, ..ss[i] })
}

/// The slices turned so that the mass slides towards decreasing x: a
/// section whose driving sum Σ W·sin α is negative slopes the other way.
pub open spec fn oriented(ss: Seq<Slice>) -> Seq<Slice> {
    if driving(ss, ss.len() as int) < 0 { mirrored(ss) } else { ss }
}

/// The factor of safety of one trial circle, in units of 1 / SCALE,
/// starting the iteration from F = 1.
pub open spec fn trial_factor(g: Geometry, c: Circle, cfg: SolverConfig) -> Result<int, TrialError> {
    match decomposition(g, c, cfg.slices as int) {
        Err(e) => Err(e),
        Ok(ss) => match solution(oriented(ss), SCALE as int, cfg.tol as int, cfg.max_iter as nat) {
            Ok(f) => Ok(f),
            Err(e) => Err(trial_error(e)),
        },
    }
}

pub open spec fn widen_trial(r: Result<i128, TrialError>) -> Result<int, TrialError> {
    match r {
        Ok(v) => Ok(v as int),
        Err(e) => Err(e),
    }
}

/// The slices as `oriented` gives them.
fn orient(ss: Vec<Slice>) -> (res: Vec<Slice>)
    requires
        slices_wf(ss@),
    ensures
        res@ == oriented(ss@),
        slices_wf(res@),
{
    if driving_sum(&ss) >= 0 {
        return ss;
    }
    let mut out: Vec<Slice> = Vec::new();
    let mut i: usize = 0;
    while i < ss.len()
        invariant
            slices_wf(ss@),
            i <= ss.len(),
            out.len() == i,
            forall|j: int| 0 <= j < i ==> #[trigger] out@[j] == (Slice { sin_a: (-ss@[j].sin_a) as i64, ..ss@[j] }),
        decreases ss.len() - i,
    {
        let s = ss[i];
        assert(ss@[i as int].wf());
        out.push(Slice { sin_a: -s.sin_a, ..s });
        i += 1;
    }
    assert(out@ =~= mirrored(ss@));
    out
}

/// Factor of safety of the slip circle centred at (mx, my) with radius r,
/// by Bishop's simplified method, whichever way the slope faces.
pub fn bishop(geometry: &Geometry, mx: i64, my: i64, r: i64, cfg: SolverConfig) -> (res: Result<i128, TrialError>)
    requires
        geometry.wf(),
        (Circle { mx, my, r }).wf(),
    ensures
        widen_trial(res) == trial_factor(*geometry, Circle { mx, my, r }, cfg),
{
    let c = Circle { mx, my, r };
    let ss = match decompose(geometry, c, cfg.slices) {
        Err(e) => {
            return Err(e);
        },
        Ok(ss) => ss,
    };
    let ss = orient(ss);
    match solve(&ss, 1000, cfg.tol, cfg.max_iter) {
        Ok(f) => Ok(f),
        Err(SolveError::Diverged) => Err(TrialError::SolverDiverged),
        Err(SolveError::InvalidResult) => Err(TrialError::InvalidResult),
    }
}

/// Whether a circle's centre and radius are in range, the radius positive.
pub fn circle_ok(c: Circle) -> (r: bool)
    ensures
        r == c.wf(),
{
    -COORD_LIMIT <= c.mx && c.mx <= COORD_LIMIT && -COORD_LIMIT <= c.my && c.my <= COORD_LIMIT
        && 0 < c.r && c.r <= COORD_LIMIT
}

/// The outcome of a search: the critical circle, its factor of safety, and
/// how many candidates failed.
#[derive(Clone, Copy, Debug, PartialEq, Eq, Structural)]
pub struct Critical {
    pub circle: Circle,
    pub factor: i128,
    pub failed: usize,
}

/// The number of the first n candidates that give no factor of safety.
pub open spec fn failures(g: Geometry, cs: Seq<Circle>, cfg: SolverConfig, n: int) -> int
    decreases n,
{
    if n <= 0 {
        0
    } else {
        failures(g, cs, cfg, n - 1) + if trial_factor(g, cs[n - 1], cfg) is Err { 1int } else { 0int }
    }
}

/// Evaluates every candidate circle and returns the one with the least
/// factor of safety (the first of equals), with the number of candidates
/// that failed.
pub fn critical_circle(geometry: &Geometry, candidates: &Vec<Circle>, cfg: SolverConfig) -> (res: Result<Critical, SearchError>)
    requires
        geometry.wf(),
    ensures
        res == Err::<Critical, SearchError>(SearchError::InputInvalid)
            <==> exists|i: int| 0 <= i < candidates.len() && !(#[trigger] candidates@[i]).wf(),
        res == Err::<Critical, SearchError>(SearchError::NoFeasibleTrial) <==> (
            (forall|i: int| 0 <= i < candidates.len() ==> (#[trigger] candidates@[i]).wf())
            && forall|i: int| 0 <= i < candidates.len()
                ==> trial_factor(*geometry, #[trigger] candidates@[i], cfg) is Err),
        res matches Ok(best) ==> {
            &&& exists|i: int| 0 <= i < candidates.len() && candidates@[i] == best.circle
                && #[trigger] trial_factor(*geometry, candidates@[i], cfg) == Ok::<int, TrialError>(best.factor as int)
            &&& forall|i: int| 0 <= i < candidates.len() && #[trigger] trial_factor(*geometry, candidates@[i], cfg) is Ok
                ==> best.factor <= trial_factor(*geometry, candidates@[i], cfg)->Ok_0
            &&& best.failed == failures(*geometry, candidates@, cfg, candidates.len() as int)
        },
{
    let mut i: usize = 0;
    while i < candidates.len()
        invariant
            i <= candidates.len(),
            forall|j: int| 0 <= j < i ==> (#[trigger] candidates@[j]).wf(),
        decreases candidates.len() - i,
    {
        if !circle_ok(candidates[i]) {
            return Err(SearchError::InputInvalid);
        }
        i += 1;
    }
    let mut best: Option<(Circle, i128)> = None;
    let mut failed: usize = 0;
    let mut k: usize = 0;
    while k < candidates.len()
        invariant
            geometry.wf(),
            k <= candidates.len(),
            forall|j: int| 0 <= j < candidates.len() ==> (#[trigger] candidates@[j]).wf(),
            failed == failures(*geometry, candidates@, cfg, k as int),
            failed <= k,
            best is None <==> forall|j: int| 0 <= j < k ==> trial_factor(*geometry, #[trigger] candidates@[j], cfg) is Err,
            best matches Some(b) ==> {
                &&& exists|j: int| 0 <= j < k && candidates@[j] == b.0
                    && #[trigger] trial_factor(*geometry, candidates@[j], cfg) == Ok::<int, TrialError>(b.1 as int)
                &&& forall|j: int| 0 <= j < k && #[trigger] trial_factor(*geometry, candidates@[j], cfg) is Ok
                    ==> b.1 <= trial_factor(*geometry, candidates@[j], cfg)->Ok_0
            },
        decreases candidates.len() - k,
    {
        let c = candidates[k];
        assert(candidates@[k as int].wf());
        let outcome = bishop(geometry, c.mx, c.my, c.r, cfg);
        match outcome {
            Err(_) => {
                failed = failed + 1;
            },
            Ok(f) => {
                let better = match best {
                    None => true,
                    Some((_, bf)) => f < bf,
                };
                if better {
                    best = Some((c, f));
                }
            },
        }
        k += 1;
    }
    match best {
        None => Err(SearchError::NoFeasibleTrial),
        Some((c, f)) => Ok(Critical { circle: c, factor: f, failed }),
    }
}

/// The outcome of every candidate circle, in order: its factor of safety
/// or the reason it failed.
pub fn evaluate_trials(geometry: &Geometry, candidates: &Vec<Circle>, cfg: SolverConfig) -> (res: Result<Vec<Result<i128, TrialError>>, SearchError>)
    requires
        geometry.wf(),
    ensures
        res is Err <==> exists|i: int| 0 <= i < candidates.len() && !(#[trigger] candidates@[i]).wf(),
        res matches Err(e) ==> e == SearchError::InputInvalid,
        res matches Ok(v) ==> v.len() == candidates.len() && forall|i: int| 0 <= i < v.len()
            ==> widen_trial(#[trigger] v@[i]) == trial_factor(*geometry, candidates@[i], cfg),
{
    let mut out: Vec<Result<i128, TrialError>> = Vec::new();
    let mut k: usize = 0;
    while k < candidates.len()
        invariant
            geometry.wf(),
            k <= candidates.len(),
            out.len() == k,
            forall|j: int| 0 <= j < k ==> (#[trigger] candidates@[j]).wf(),
            forall|j: int| 0 <= j < k ==> widen_trial(#[trigger] out@[j]) == trial_factor(*geometry, candidates@[j], cfg),
        decreases candidates.len() - k,
    {
        let c = candidates[k];
        if !circle_ok(c) {
            return Err(SearchError::InputInvalid);
        }
        out.push(bishop(geometry, c.mx, c.my, c.r, cfg));
        k += 1;
    }
    Ok(out)
}

/// A grid of trial circles: nx centres across, ny up, nr radii, from
/// (x0, y0, r0) in steps of (dx, dy, dr).
#[derive(Clone, Copy, Debug, PartialEq, Eq, Structural)]
pub struct SearchGrid {
    pub x0: i64,
    pub y0: i64,
    pub r0: i64,
    pub dx: i64,
    pub dy: i64,
    pub dr: i64,
    pub nx: u32,
    pub ny: u32,
    pub nr: u32,
}

/// Most points along one axis of a grid.
pub const MAX_GRID_AXIS: u32 = 1000;

impl SearchGrid {
    pub open spec fn wf(self) -> bool {
        &&& self.nx <= MAX_GRID_AXIS && self.ny <= MAX_GRID_AXIS && self.nr <= MAX_GRID_AXIS
        &&& -COORD_LIMIT <= self.x0 <= COORD_LIMIT && -COORD_LIMIT <= self.dx <= COORD_LIMIT
        &&& -COORD_LIMIT <= self.y0 <= COORD_LIMIT && -COORD_LIMIT <= self.dy <= COORD_LIMIT
        &&& -COORD_LIMIT <= self.r0 <= COORD_LIMIT && -COORD_LIMIT <= self.dr <= COORD_LIMIT
    }

    pub open spec fn len(self) -> int {
        self.nx * self.ny * self.nr
    }

    /// All circles of the grid, in the order of `circle_at`.
    pub open spec fn circles(self) -> Seq<Circle> {
        Seq::new(self.len() as nat, |i: int| self.circle_at(i))
    }

    /// The i-th circle, radius varying fastest, then centre height.
    pub open spec fn circle_at(self, i: int) -> Circle {
        Circle {
            mx: (self.x0 + (i / (self.ny * self.nr)) * self.dx) as i64,
            my: (self.y0 + ((i / (self.nr as int)) % (self.ny as int)) * self.dy) as i64,
            r: (self.r0 + (i % (self.nr as int)) * self.dr) as i64,
        }
    }
}

proof fn lemma_axis_value(a0: int, d: int, k: int, n: int)
    requires
        -COORD_LIMIT <= a0 <= COORD_LIMIT,
        -COORD_LIMIT <= d <= COORD_LIMIT,
        0 <= k < n <= 1000,
    ensures
        -0x100_0000_0000 <= a0 + k * d <= 0x100_0000_0000,
{
    assert(-1000 * COORD_LIMIT <= k * d <= 1000 * COORD_LIMIT) by (nonlinear_arith)
        requires -COORD_LIMIT <= d <= COORD_LIMIT, 0 <= k < 1000;
}

/// Every circle of the grid, in the order of `circle_at`.
pub fn grid_circles(grid: SearchGrid) -> (res: Vec<Circle>)
    requires
        grid.wf(),
    ensures
        res.len() == grid.len(),
        forall|i: int| 0 <= i < res.len() ==> #[trigger] res@[i] == grid.circle_at(i),
{
    let ghost g = grid;
    proof {
        assert(grid.ny * grid.nr <= 1_000_000) by (nonlinear_arith)
            requires grid.ny <= 1000, grid.nr <= 1000;
    }
    let nyr: u64 = grid.ny as u64 * grid.nr as u64;
    proof {
        assert(grid.nx * nyr <= 1_000_000_000) by (nonlinear_arith)
            requires grid.nx <= 1000, nyr <= 1_000_000;
    }
    let total: u64 = grid.nx as u64 * nyr;
    proof {
        assert(nyr <= 1_000_000) by (nonlinear_arith)
            requires nyr == grid.ny * grid.nr, grid.ny <= 1000, grid.nr <= 1000;
        assert(total <= 1_000_000_000) by (nonlinear_arith)
            requires total == grid.nx * nyr, grid.nx <= 1000, nyr <= 1_000_000;
        let (a, b, c) = (g.nx as int, g.ny as int, g.nr as int);
        assert(a * (b * c) == a * b * c) by (nonlinear_arith);
        assert(total == g.len());
    }
    let mut res: Vec<Circle> = Vec::new();
    let mut i: u64 = 0;
    while i < total
        invariant
            grid == g,
            g.wf(),
            nyr == g.ny * g.nr,
            total == g.nx * nyr,
            total == g.len(),
            total <= 1_000_000_000,
            i <= total,
            res.len() == i,
            forall|j: int| 0 <= j < i ==> #[trigger] res@[j] == g.circle_at(j),
        decreases total - i,
    {
        proof {
            assert(nyr > 0) by (nonlinear_arith)
                requires i < total, total == g.nx * nyr, g.nx >= 0, nyr >= 0;
            assert(g.ny > 0 && g.nr > 0) by (nonlinear_arith)
                requires nyr == g.ny * g.nr, nyr > 0;
        }
        let ix: u64 = i / nyr;
        let iy: u64 = (i / grid.nr as u64) % grid.ny as u64;
        let ir: u64 = i % grid.nr as u64;
        proof {
            assert(ix < g.nx) by (nonlinear_arith)
                requires ix == i / nyr, i < total, total == g.nx * nyr, nyr > 0;
            lemma_axis_value(g.x0 as int, g.dx as int, ix as int, g.nx as int);
            lemma_axis_value(g.y0 as int, g.dy as int, iy as int, g.ny as int);
            lemma_axis_value(g.r0 as int, g.dr as int, ir as int, g.nr as int);
        }
        let c = Circle {
            mx: (grid.x0 as i128 + ix as i128 * grid.dx as i128) as i64,
            my: (grid.y0 as i128 + iy as i128 * grid.dy as i128) as i64,
            r: (grid.r0 as i128 + ir as i128 * grid.dr as i128) as i64,
        };
        res.push(c);
        i += 1;
    }
    res
}

/// Searches the grid for the circle with the least factor of safety.
pub fn search(geometry: &Geometry, grid: SearchGrid, cfg: SolverConfig) -> (res: Result<Critical, SearchError>)
    requires
        geometry.wf(),
        grid.wf(),
    ensures
        res == Err::<Critical, SearchError>(SearchError::InputInvalid)
            <==> exists|i: int| 0 <= i < grid.len() && !(#[trigger] grid.circle_at(i)).wf(),
        res == Err::<Critical, SearchError>(SearchError::NoFeasibleTrial) <==> (
            (forall|i: int| 0 <= i < grid.len() ==> (#[trigger] grid.circle_at(i)).wf())
            && forall|i: int| 0 <= i < grid.len()
                ==> trial_factor(*geometry, #[trigger] grid.circle_at(i), cfg) is Err),
        res matches Ok(best) ==> {
            &&& exists|i: int| 0 <= i < grid.len() && grid.circle_at(i) == best.circle
                && #[trigger] trial_factor(*geometry, grid.circle_at(i), cfg) == Ok::<int, TrialError>(best.factor as int)
            &&& forall|i: int| 0 <= i < grid.len() && #[trigger] trial_factor(*geometry, grid.circle_at(i), cfg) is Ok
                ==> best.factor <= trial_factor(*geometry, grid.circle_at(i), cfg)->Ok_0
            &&& best.failed == failures(*geometry, grid.circles(), cfg, grid.len())
        },
{
    let candidates = grid_circles(grid);
    let res = critical_circle(geometry, &candidates, cfg);
    proof {
        assert(candidates@ =~= grid.circles());
        if res == Err::<Critical, SearchError>(SearchError::InputInvalid) {
            let i = choose|i: int| 0 <= i < candidates.len() && !(#[trigger] candidates@[i]).wf();
            assert(!grid.circle_at(i).wf());
        }
        if exists|i: int| 0 <= i < grid.len() && !(#[trigger] grid.circle_at(i)).wf() {
            let i = choose|i: int| 0 <= i < grid.len() && !(#[trigger] grid.circle_at(i)).wf();
            assert(!candidates@[i].wf());
        }
        if res == Err::<Critical, SearchError>(SearchError::NoFeasibleTrial) {
            assert forall|i: int| 0 <= i < grid.len() implies (#[trigger] grid.circle_at(i)).wf()
                && trial_factor(*geometry, grid.circle_at(i), cfg) is Err by {
                assert(candidates@[i] == grid.circle_at(i));
            }
        }
        if (forall|i: int| 0 <= i < grid.len() ==> (#[trigger] grid.circle_at(i)).wf())
            && forall|i: int| 0 <= i < grid.len() ==> trial_factor(*geometry, #[trigger] grid.circle_at(i), cfg) is Err {
            assert forall|i: int| 0 <= i < candidates.len() implies (#[trigger] candidates@[i]).wf()
                && trial_factor(*geometry, candidates@[i], cfg) is Err by {
                assert(candidates@[i] == grid.circle_at(i));
            }
        }
        if let Ok(best) = res {
            let j = choose|j: int| 0 <= j < candidates.len() && candidates@[j] == best.circle
                && #[trigger] trial_factor(*geometry, candidates@[j], cfg) == Ok::<int, TrialError>(best.factor as int);
            assert(grid.circle_at(j) == candidates@[j]);
            assert forall|i: int| 0 <= i < grid.len() && #[trigger] trial_factor(*geometry, grid.circle_at(i), cfg) is Ok
                implies best.factor <= trial_factor(*geometry, grid.circle_at(i), cfg)->Ok_0 by {
                assert(candidates@[i] == grid.circle_at(i));
            }
        }
    }
    res
}

} // verus!
