use vstd::prelude::*;
use vstd::arithmetic::div_mod::{
    lemma_div_pos_is_pos, lemma_fundamental_div_mod, lemma_fundamental_div_mod_converse_div,
    lemma_mod_pos_bound, lemma_div_is_ordered,
};

verus! {

/// Fixed-point unit of sines, cosines, tangents and factors of safety: a
/// value v stands for v / SCALE.
pub const SCALE: i64 = 1000;

/// Most slices one trial may hold.
pub const MAX_SLICES: usize = 10_000;

/// One vertical slice of the sliding mass. Width in m, weight in kN per m
/// run, cohesion and pore pressure in kPa; the tangent of the friction
/// angle and the sine and cosine of the base angle in units of 1 / SCALE.
#[derive(Clone, Copy, Debug, PartialEq, Eq, Structural)]
pub struct Slice {
    pub b: i64,
    pub w: i64,
    pub c: i64,
    pub tan_phi: i64,
    pub u: i64,
    pub sin_a: i64,
    pub cos_a: i64,
}

/// Why the iteration for one trial circle gave no factor of safety.
#[derive(Clone, Copy, Debug, PartialEq, Eq, Structural)]
pub enum SolveError {
    /// The driving sum Σ W·sin α is not positive, a base term mα is not
    /// positive, or the iteration did not settle within its budget.
    Diverged,
    /// The iteration reached a factor of safety that is not positive.
    InvalidResult,
}

impl Slice {
    pub open spec fn wf(self) -> bool {
        &&& 0 < self.b <= 1_000_000
        &&& 0 <= self.w <= 1_000_000_000
        &&& 0 <= self.c <= 1_000_000
        &&& 0 <= self.tan_phi <= 100_000
        &&& 0 <= self.u <= 1_000_000
        &&& -SCALE <= self.sin_a <= SCALE
        &&& -SCALE <= self.cos_a <= SCALE
    }
}

pub open spec fn slices_wf(ss: Seq<Slice>) -> bool {
    &&& ss.len() <= MAX_SLICES
    &&& forall|i: int| 0 <= i < ss.len() ==> (#[trigger] ss[i]).wf()
}

/// mα = cos α + sin α · tan φ / F, scaled.
pub open spec fn m_alpha(s: Slice, f: int) -> int {
    s.cos_a + (s.sin_a * s.tan_phi) / f
}

/// c·b + (W − u·b)·tan φ, scaled.
pub open spec fn resisting(s: Slice) -> int {
    s.c * s.b * SCALE + (s.w - s.u * s.b) * s.tan_phi
}

/// The slice's share of the numerator of Bishop's equation, scaled.
pub open spec fn term(s: Slice, f: int) -> int {
    resisting(s) * SCALE / m_alpha(s, f)
}

pub open spec fn sum_terms(ss: Seq<Slice>, f: int, n: int) -> int
    decreases n,
{
    if n <= 0 { 0 } else { sum_terms(ss, f, n - 1) + term(ss[n - 1], f) }
}

/// Σ W·sin α, scaled.
pub open spec fn driving(ss: Seq<Slice>, n: int) -> int
    decreases n,
{
    if n <= 0 { 0 } else { driving(ss, n - 1) + ss[n - 1].w * ss[n - 1].sin_a }
}

pub open spec fn m_alpha_positive(ss: Seq<Slice>, f: int) -> bool {
    forall|i: int| 0 <= i < ss.len() ==> m_alpha(#[trigger] ss[i], f) > 0
}

/// One fixed-point step: the right-hand side of Bishop's equation at F = f.
pub open spec fn next_factor(ss: Seq<Slice>, f: int) -> int {
    SCALE * sum_terms(ss, f, ss.len() as int) / driving(ss, ss.len() as int)
}

/// The iteration from the estimate f, with `fuel` more steps allowed after
/// this one.
pub open spec fn iterate(ss: Seq<Slice>, f: int, tol: int, fuel: nat) -> Result<int, SolveError>
    decreases fuel,
{
    if !m_alpha_positive(ss, f) {
        Err(SolveError::Diverged)
    } else {
        let g = next_factor(ss, f);
        if g <= 0 {
            Err(SolveError::InvalidResult)
        } else if -tol < g - f < tol {
            Ok(g)
        } else if fuel == 0 {
            Err(SolveError::Diverged)
        } else {
            iterate(ss, g, tol, (fuel - 1) as nat)
        }
    }
}

/// What `solve` returns: the converged factor of safety, scaled.
pub open spec fn solution(ss: Seq<Slice>, f0: int, tol: int, max_iter: nat) -> Result<int, SolveError> {
    if driving(ss, ss.len() as int) <= 0 || max_iter == 0 {
        Err(SolveError::Diverged)
    } else {
        iterate(ss, f0, tol, (max_iter - 1) as nat)
    }
}

/// An executable result read as a mathematical one.
pub open spec fn widen(r: Result<i128, SolveError>) -> Result<int, SolveError> {
    match r {
        Ok(v) => Ok(v as int),
        Err(e) => Err(e),
    }
}

proof fn lemma_term_bound(s: Slice, f: int)
    requires
        s.wf(),
        f > 0,
        m_alpha(s, f) > 0,
    ensures
        -200_000_000_000_000_000_000 <= term(s, f) <= 200_000_000_000_000_000_000,
{
    let r = resisting(s);
    assert(0 <= s.c * s.b <= 1_000_000_000_000) by (nonlinear_arith)
        requires 0 <= s.c <= 1_000_000, 0 < s.b <= 1_000_000;
    assert(0 <= s.u * s.b <= 1_000_000_000_000) by (nonlinear_arith)
        requires 0 <= s.u <= 1_000_000, 0 < s.b <= 1_000_000;
    let e = s.w - s.u * s.b;
    assert(-1_000_000_000_000 * 100_000 <= e * s.tan_phi <= 1_000_000_000 * 100_000) by (nonlinear_arith)
        requires -1_000_000_000_000 <= e <= 1_000_000_000, 0 <= s.tan_phi <= 100_000;
    assert(-200_000_000_000_000_000 <= r <= 200_000_000_000_000_000);
    let m = m_alpha(s, f);
    let n = r * SCALE;
    assert(-200_000_000_000_000_000_000 <= n / m <= 200_000_000_000_000_000_000) by (nonlinear_arith)
        requires -200_000_000_000_000_000_000 <= n <= 200_000_000_000_000_000_000, m >= 1;
}

proof fn lemma_sum_bound(ss: Seq<Slice>, f: int, n: int)
    requires
        slices_wf(ss),
        0 <= n <= ss.len(),
        f > 0,
        m_alpha_positive(ss, f),
    ensures
        -200_000_000_000_000_000_000 * n <= sum_terms(ss, f, n) <= 200_000_000_000_000_000_000 * n,
    decreases n,
{
    if n > 0 {
        lemma_sum_bound(ss, f, n - 1);
        lemma_term_bound(ss[n - 1], f);
    }
}

proof fn lemma_driving_bound(ss: Seq<Slice>, n: int)
    requires
        slices_wf(ss),
        0 <= n <= ss.len(),
    ensures
        -1_000_000_000_000 * n <= driving(ss, n) <= 1_000_000_000_000 * n,
    decreases n,
{
    if n > 0 {
        lemma_driving_bound(ss, n - 1);
        let s = ss[n - 1];
        assert(s.wf());
        assert(-1_000_000_000_000 <= s.w * s.sin_a <= 1_000_000_000_000) by (nonlinear_arith)
            requires 0 <= s.w <= 1_000_000_000, -1000 <= s.sin_a <= 1000;
    }
}

/// Σ W·sin α over the slices, scaled.
pub(crate) fn driving_sum(ss: &Vec<Slice>) -> (d: i128)
    requires
        slices_wf(ss@),
    ensures
        d == driving(ss@, ss.len() as int),
{
    let mut d: i128 = 0;
    let mut i: usize = 0;
    while i < ss.len()
        invariant
            slices_wf(ss@),
            i <= ss.len(),
            d == driving(ss@, i as int),
        decreases ss.len() - i,
    {
        proof {
            lemma_driving_bound(ss@, i + 1);
            lemma_driving_bound(ss@, i as int);
        }
        let s = ss[i];
        d = d + s.w as i128 * s.sin_a as i128;
        i += 1;
    }
    d
}

/// floor(n / d) for a positive divisor.
pub(crate) fn floor_div(n: i128, d: i128) -> (q: i128)
    requires
        d > 0,
        n > i128::MIN,
    ensures
        q == n / d,
        n >= 0 ==> 0 <= q <= n,
        n < 0 ==> n <= q < 0,
{
    if n >= 0 {
        proof {
            lemma_div_pos_is_pos(n as int, d as int);
            lemma_fundamental_div_mod(n as int, d as int);
            lemma_mod_pos_bound(n as int, d as int);
            assert((n / d) * d <= n) by (nonlinear_arith)
                requires n == d * (n / d) + (n % d), 0 <= n % d;
            assert(n / d <= n) by (nonlinear_arith)
                requires (n / d) * d <= n, d >= 1, n / d >= 0;
        }
        n / d
    } else {
        let m: i128 = -n;
        let q0: i128 = m / d;
        let r0: i128 = m % d;
        proof {
            lemma_div_pos_is_pos(m as int, d as int);
            lemma_fundamental_div_mod(m as int, d as int);
            lemma_mod_pos_bound(m as int, d as int);
            assert(q0 * d <= m) by (nonlinear_arith)
                requires m == d * q0 + r0, 0 <= r0;
            assert(q0 <= m) by (nonlinear_arith)
                requires q0 * d <= m, d >= 1, q0 >= 0;
        }
        if r0 == 0 {
            proof {
                assert(n == (-q0) * d + 0) by (nonlinear_arith)
                    requires m == d * q0 + r0, r0 == 0, n == -m;
                lemma_fundamental_div_mod_converse_div(n as int, d as int, -q0, 0);
                assert(q0 > 0) by (nonlinear_arith)
                    requires m == d * q0, m > 0, d > 0, q0 >= 0;
            }
            -q0
        } else {
            proof {
                assert(n == (-q0 - 1) * d + (d - r0)) by (nonlinear_arith)
                    requires m == d * q0 + r0, n == -m;
                lemma_fundamental_div_mod_converse_div(n as int, d as int, -q0 - 1, d - r0);
                assert(q0 * d <= m - 1) by (nonlinear_arith)
                    requires m == d * q0 + r0, r0 >= 1;
                assert(q0 <= m - 1) by (nonlinear_arith)
                    requires q0 * d <= m - 1, d >= 1, q0 >= 0;
            }
            -q0 - 1
        }
    }
}

/// Right-hand side of Bishop's equation at the estimate f, or `None` where
/// some mα is not positive.
fn step(ss: &Vec<Slice>, f: i128, d: i128) -> (g: Option<i128>)
    requires
        slices_wf(ss@),
        f > 0,
        d > 0,
        d == driving(ss@, ss.len() as int),
    ensures
        m_alpha_positive(ss@, f as int) <==> g.is_some(),
        g matches Some(v) ==> v == next_factor(ss@, f as int),
{
    let mut sum: i128 = 0;
    let mut i: usize = 0;
    while i < ss.len()
        invariant
            slices_wf(ss@),
            f > 0,
            i <= ss.len(),
            forall|k: int| 0 <= k < i ==> m_alpha(#[trigger] ss@[k], f as int) > 0,
            sum == sum_terms(ss@, f as int, i as int),
            -200_000_000_000_000_000_000 * i <= sum <= 200_000_000_000_000_000_000 * i,
        decreases ss.len() - i,
    {
        let s = ss[i];
        assert(s.wf());
        proof {
            assert(-100_000_000 <= s.sin_a * s.tan_phi <= 100_000_000) by (nonlinear_arith)
                requires -1000 <= s.sin_a <= 1000, 0 <= s.tan_phi <= 100_000;
        }
        let m: i128 = s.cos_a as i128 + floor_div(s.sin_a as i128 * s.tan_phi as i128, f);
        if m <= 0 {
            return None;
        }
        proof {
            lemma_term_bound(s, f as int);
            assert(0 <= s.c * s.b <= 1_000_000_000_000) by (nonlinear_arith)
                requires 0 <= s.c <= 1_000_000, 0 < s.b <= 1_000_000;
            assert(0 <= s.u * s.b <= 1_000_000_000_000) by (nonlinear_arith)
                requires 0 <= s.u <= 1_000_000, 0 < s.b <= 1_000_000;
            let e = s.w - s.u * s.b;
            assert(-1_000_000_000_000 * 100_000 <= e * s.tan_phi <= 1_000_000_000 * 100_000) by (nonlinear_arith)
                requires -1_000_000_000_000 <= e <= 1_000_000_000, 0 <= s.tan_phi <= 100_000;
        }
        let res: i128 = s.c as i128 * s.b as i128 * 1000 + (s.w as i128 - s.u as i128 * s.b as i128) * s.tan_phi as i128;
        let t = floor_div(res * 1000, m);
        sum = sum + t;
        i += 1;
    }
    assert(-2_000_000_000_000_000_000_000_000 <= sum <= 2_000_000_000_000_000_000_000_000) by (nonlinear_arith)
        requires
            -200_000_000_000_000_000_000 * i <= sum <= 200_000_000_000_000_000_000 * i,
            i <= 10_000;
    Some(floor_div(1000 * sum, d))
}

/// Iterates Bishop's simplified equation from the estimate `f0` until two
/// successive factors of safety differ by less than `tol`, for at most
/// `max_iter` steps. All factors are in units of 1 / SCALE.
pub fn solve(ss: &Vec<Slice>, f0: i128, tol: i128, max_iter: u32) -> (res: Result<i128, SolveError>)
    requires
        slices_wf(ss@),
        f0 > 0,
    ensures
        widen(res) == solution(ss@, f0 as int, tol as int, max_iter as nat),
{
    let d = driving_sum(ss);
    if d <= 0 || max_iter == 0 {
        return Err(SolveError::Diverged);
    }
    let mut f: i128 = f0;
    let mut left: u32 = max_iter - 1;
    loop
        invariant
            slices_wf(ss@),
            f > 0,
            d > 0,
            d == driving(ss@, ss.len() as int),
            solution(ss@, f0 as int, tol as int, max_iter as nat) == iterate(ss@, f as int, tol as int, left as nat),
        decreases left,
    {
        match step(ss, f, d) {
            None => {
                return Err(SolveError::Diverged);
            },
            Some(g) => {
                if g <= 0 {
                    return Err(SolveError::InvalidResult);
                }
                if g - f < tol && f - g < tol {
                    return Ok(g);
                }
                if left == 0 {
                    return Err(SolveError::Diverged);
                }
                f = g;
                left = left - 1;
            },
        }
    }
}

/// The iteration is deterministic: the same slices, first estimate,
/// tolerance and budget always give the same outcome.
pub proof fn lemma_solution_deterministic(
    ss1: Seq<Slice>,
    ss2: Seq<Slice>,
    f0: int,
    tol: int,
    max_iter: nat,
)
    requires
        ss1 == ss2,
    ensures
        solution(ss1, f0, tol, max_iter) == solution(ss2, f0, tol, max_iter),
{
}

/// `ss2` differs from `ss1` only in that no slice has less cohesion.
pub open spec fn more_cohesive(ss1: Seq<Slice>, ss2: Seq<Slice>) -> bool {
    &&& ss1.len() == ss2.len()
    &&& forall|i: int| 0 <= i < ss1.len() ==> #[trigger] ss2[i] == (Slice { c: ss2[i].c, ..ss1[i] })
        && ss1[i].c <= ss2[i].c
}

proof fn lemma_sum_terms_cohesion(ss1: Seq<Slice>, ss2: Seq<Slice>, f: int, n: int)
    requires
        slices_wf(ss1),
        more_cohesive(ss1, ss2),
        f > 0,
        m_alpha_positive(ss1, f),
        0 <= n <= ss1.len(),
    ensures
        sum_terms(ss1, f, n) <= sum_terms(ss2, f, n),
    decreases n,
{
    if n > 0 {
        lemma_sum_terms_cohesion(ss1, ss2, f, n - 1);
        let (a, b) = (ss1[n - 1], ss2[n - 1]);
        assert(b == (Slice { c: b.c, ..a }) && a.c <= b.c);
        assert(m_alpha(a, f) == m_alpha(b, f));
        assert(m_alpha(a, f) > 0);
        assert(a.wf());
        assert(a.c * a.b <= b.c * a.b) by (nonlinear_arith)
            requires a.c <= b.c, a.b >= 0;
        assert(resisting(a) * SCALE <= resisting(b) * SCALE);
        lemma_div_is_ordered(resisting(a) * SCALE, resisting(b) * SCALE, m_alpha(a, f));
    }
}

/// Raising the cohesion of slices, all else held, never lowers one step of
/// the iteration: at every estimate the right-hand side of Bishop's
/// equation is at least what it was.
pub proof fn lemma_cohesion_raises_next_factor(ss1: Seq<Slice>, ss2: Seq<Slice>, f: int)
    requires
        slices_wf(ss1),
        more_cohesive(ss1, ss2),
        f > 0,
        m_alpha_positive(ss1, f),
        driving(ss1, ss1.len() as int) > 0,
    ensures
        m_alpha_positive(ss2, f),
        driving(ss2, ss2.len() as int) == driving(ss1, ss1.len() as int),
        next_factor(ss1, f) <= next_factor(ss2, f),
{
    lemma_sum_terms_cohesion(ss1, ss2, f, ss1.len() as int);
    assert forall|i: int| 0 <= i < ss2.len() implies m_alpha(#[trigger] ss2[i], f) > 0 by {
        assert(ss2[i] == (Slice { c: ss2[i].c, ..ss1[i] }));
        assert(m_alpha(ss1[i], f) > 0);
    }
    lemma_driving_same(ss1, ss2, ss1.len() as int);
    let d = driving(ss1, ss1.len() as int);
    lemma_div_is_ordered(SCALE * sum_terms(ss1, f, ss1.len() as int), SCALE * sum_terms(ss2, f, ss1.len() as int), d);
}

proof fn lemma_driving_same(ss1: Seq<Slice>, ss2: Seq<Slice>, n: int)
    requires
        more_cohesive(ss1, ss2),
        0 <= n <= ss1.len(),
    ensures
        driving(ss1, n) == driving(ss2, n),
    decreases n,
{
    if n > 0 {
        lemma_driving_same(ss1, ss2, n - 1);
        assert(ss2[n - 1] == (Slice { c: ss2[n - 1].c, ..ss1[n - 1] }));
    }
}

} // verus!
