use vstd::prelude::*;

verus! {

/// Largest magnitude allowed for a coordinate or a radius, so that the
/// quadratic of a line–circle intersection fits in `i128`.
pub const COORD_LIMIT: i64 = 0x1000_0000;

pub open spec fn coord_ok(v: int) -> bool {
    -COORD_LIMIT <= v <= COORD_LIMIT
}

/// A point of the cross-section: horizontal distance and elevation.
#[derive(Clone, Copy, Debug, PartialEq, Eq, Structural)]
pub struct Point {
    pub x: i64,
    pub y: i64,
}

/// A directed segment from `p1` to `p2`.
#[derive(Clone, Copy, Debug, PartialEq, Eq, Structural)]
pub struct Line {
    pub p1: Point,
    pub p2: Point,
}

/// A trial slip circle.
#[derive(Clone, Copy, Debug, PartialEq, Eq, Structural)]
pub struct Circle {
    pub mx: i64,
    pub my: i64,
    pub r: i64,
}

impl Point {
    pub open spec fn wf(self) -> bool {
        coord_ok(self.x as int) && coord_ok(self.y as int)
    }
}

impl Line {
    pub open spec fn wf(self) -> bool {
        self.p1.wf() && self.p2.wf()
    }

    pub open spec fn dx(self) -> int {
        self.p2.x - self.p1.x
    }

    pub open spec fn dy(self) -> int {
        self.p2.y - self.p1.y
    }

    /// The same segment, walked the other way.
    pub open spec fn reversed(self) -> Line {
        Line { p1: self.p2, p2: self.p1 }
    }
}

impl Circle {
    pub open spec fn wf(self) -> bool {
        coord_ok(self.mx as int) && coord_ok(self.my as int) && 0 < self.r <= COORD_LIMIT
    }
}

/// Along the line P(t) = p1 + t·(p2 − p1), the circle equation
/// |P(t) − M|² = r² reads qa·t² + qb·t + qc = 0 with these coefficients.
pub open spec fn quad_a(l: Line) -> int {
    l.dx() * l.dx() + l.dy() * l.dy()
}

pub open spec fn quad_b(l: Line, c: Circle) -> int {
    2 * (l.dx() * (l.p1.x - c.mx) + l.dy() * (l.p1.y - c.my))
}

pub open spec fn quad_c(l: Line, c: Circle) -> int {
    (l.p1.x - c.mx) * (l.p1.x - c.mx) + (l.p1.y - c.my) * (l.p1.y - c.my) - c.r * c.r
}

pub open spec fn discriminant(l: Line, c: Circle) -> int {
    quad_b(l, c) * quad_b(l, c) - 4 * quad_a(l) * quad_c(l, c)
}

/// A point where a line meets a circle, held exactly. It lies at the
/// parameter t = (p + s·√disc) / den of the line, where t = 0 is `p1` and
/// t = 1 is `p2`, and s is −1, 0 or 1.
#[derive(Clone, Copy, Debug, PartialEq, Eq, Structural)]
pub struct Crossing {
    pub line: Line,
    pub p: i128,
    pub s: i8,
    pub disc: i128,
    pub den: i128,
}

/// The crossing given by the root with sign `s` of the line's quadratic.
pub open spec fn root(l: Line, c: Circle, s: i8) -> Crossing {
    Crossing {
        line: l,
        p: (-quad_b(l, c)) as i128,
        s,
        disc: discriminant(l, c) as i128,
        den: (2 * quad_a(l)) as i128,
    }
}

/// Whether p + s·√d ≥ 0, for d ≥ 0 and s in {−1, 0, 1}.
pub open spec fn surd_nonneg(p: int, s: int, d: int) -> bool {
    if s > 0 {
        p >= 0 || d >= p * p
    } else if s < 0 {
        p >= 0 && p * p >= d
    } else {
        p >= 0
    }
}

/// Whether p + s·√d = 0, for d ≥ 0 and s in {−1, 0, 1}.
pub open spec fn surd_zero(p: int, s: int, d: int) -> bool {
    if s == 0 {
        p == 0
    } else {
        p * p == d && s * p <= 0
    }
}

impl Crossing {
    /// Field ranges of every crossing that `Line::circle_intersections`
    /// returns.
    pub open spec fn bounded(self) -> bool {
        &&& -0x1000_0000_0000_0000 <= self.p <= 0x1000_0000_0000_0000
        &&& 0 <= self.den <= 0x1000_0000_0000_0000
        &&& -1 <= self.s <= 1
    }

    /// t = 0: the crossing is the segment's first point.
    pub open spec fn at_start(self) -> bool {
        surd_zero(self.p as int, self.s as int, self.disc as int)
    }

    /// t = 1: the crossing is the segment's last point.
    pub open spec fn at_end(self) -> bool {
        surd_zero(self.p - self.den, self.s as int, self.disc as int)
    }

    /// 0 ≤ t ≤ 1: the point lies on the finite segment. For a point of the
    /// line this is |p1 p2| = |p1 P| + |P p2|.
    pub open spec fn on_segment(self) -> bool {
        surd_nonneg(self.p as int, self.s as int, self.disc as int)
            && surd_nonneg(self.den - self.p, -self.s, self.disc as int)
    }

    /// den·x = rat_x + irr_x·√disc.
    pub open spec fn rat_x(self) -> int {
        self.line.p1.x * self.den + self.line.dx() * self.p
    }

    pub open spec fn irr_x(self) -> int {
        self.line.dx() * self.s
    }

    /// den·y = rat_y + irr_y·√disc.
    pub open spec fn rat_y(self) -> int {
        self.line.p1.y * self.den + self.line.dy() * self.p
    }

    pub open spec fn irr_y(self) -> int {
        self.line.dy() * self.s
    }

    /// For two crossings of one line with one circle, which share p, disc
    /// and den: the x of the first is at most that of the second, as
    /// x = p1.x + dx·(p + s·√disc) / den with den > 0.
    pub open spec fn x_le(self, other: Crossing) -> bool {
        self.disc == 0 || self.line.dx() * (self.s - other.s) <= 0
    }

    /// Both stand for the same point of the plane.
    pub open spec fn same_point(self, other: Crossing) -> bool {
        &&& self.den == other.den
        &&& self.disc == other.disc
        &&& self.line.p1.x * self.den + self.line.dx() * self.p
            == other.line.p1.x * other.den + other.line.dx() * other.p
        &&& self.line.p1.y * self.den + self.line.dy() * self.p
            == other.line.p1.y * other.den + other.line.dy() * other.p
        &&& (self.disc == 0 || (self.line.dx() * self.s == other.line.dx() * other.s
            && self.line.dy() * self.s == other.line.dy() * other.s))
    }
}

/// All points where the infinite line through `l` meets the circle, in
/// ascending x: none where they miss (or `l` has no length), one where they
/// touch, two where they cut.
pub open spec fn line_circle_roots(l: Line, c: Circle) -> Seq<Crossing> {
    if quad_a(l) == 0 || discriminant(l, c) < 0 {
        seq![]
    } else if discriminant(l, c) == 0 {
        seq![root(l, c, 0i8)]
    } else if l.dx() >= 0 {
        seq![root(l, c, -1i8), root(l, c, 1i8)]
    } else {
        seq![root(l, c, 1i8), root(l, c, -1i8)]
    }
}

/// The intersections that `Line::circle_intersections` returns.
pub open spec fn line_circle_crossings(l: Line, c: Circle, segment: bool) -> Seq<Crossing> {
    if segment {
        line_circle_roots(l, c).filter(|x: Crossing| x.on_segment())
    } else {
        line_circle_roots(l, c)
    }
}

proof fn lemma_mul_abs_le(a: int, b: int, ka: int, kb: int)
    requires
        -ka <= a <= ka,
        -kb <= b <= kb,
    ensures
        -(ka * kb) <= a * b <= ka * kb,
{
    assert(-(ka * kb) <= a * b <= ka * kb) by (nonlinear_arith)
        requires -ka <= a <= ka, -kb <= b <= kb;
}

proof fn lemma_quad_bounds(l: Line, c: Circle)
    requires
        l.wf(),
        c.wf(),
    ensures
        0 <= quad_a(l) <= 0x0800_0000_0000_0000,
        -0x1000_0000_0000_0000 <= quad_b(l, c) <= 0x1000_0000_0000_0000,
        -0x0900_0000_0000_0000 <= quad_c(l, c) <= 0x0800_0000_0000_0000,
        -0x0400_0000_0000_0000_0000_0000_0000_0000 <= discriminant(l, c)
            <= 0x0400_0000_0000_0000_0000_0000_0000_0000,
{
    let k: int = 0x2000_0000;
    lemma_mul_abs_le(l.dx(), l.dx(), k, k);
    lemma_mul_abs_le(l.dy(), l.dy(), k, k);
    lemma_mul_abs_le(l.dx(), l.p1.x - c.mx, k, k);
    lemma_mul_abs_le(l.dy(), l.p1.y - c.my, k, k);
    lemma_mul_abs_le(l.p1.x - c.mx, l.p1.x - c.mx, k, k);
    lemma_mul_abs_le(l.p1.y - c.my, l.p1.y - c.my, k, k);
    lemma_mul_abs_le(c.r as int, c.r as int, 0x1000_0000, 0x1000_0000);
    assert(0 <= l.dx() * l.dx()) by (nonlinear_arith);
    assert(0 <= l.dy() * l.dy()) by (nonlinear_arith);
    assert(0 <= (l.p1.x - c.mx) * (l.p1.x - c.mx)) by (nonlinear_arith);
    assert(0 <= (l.p1.y - c.my) * (l.p1.y - c.my)) by (nonlinear_arith);
    let qb = quad_b(l, c);
    let qa = quad_a(l);
    let qc = quad_c(l, c);
    lemma_mul_abs_le(qb, qb, 0x1000_0000_0000_0000, 0x1000_0000_0000_0000);
    lemma_mul_abs_le(qa, qc, 0x0900_0000_0000_0000, 0x0900_0000_0000_0000);
    assert(4 * qa * qc == 4 * (qa * qc)) by (nonlinear_arith);
}

/// Whether p + s·√d ≥ 0.
fn surd_is_nonneg(p: i128, s: i8, d: i128) -> (r: bool)
    requires
        -0x2000_0000_0000_0000 <= p <= 0x2000_0000_0000_0000,
    ensures
        r == surd_nonneg(p as int, s as int, d as int),
{
    proof {
        lemma_mul_abs_le(p as int, p as int, 0x2000_0000_0000_0000, 0x2000_0000_0000_0000);
    }
    let pp: i128 = p * p;
    if s > 0 {
        p >= 0 || d >= pp
    } else if s < 0 {
        p >= 0 && pp >= d
    } else {
        p >= 0
    }
}

fn surd_is_zero(p: i128, s: i8, d: i128) -> (r: bool)
    requires
        -0x2000_0000_0000_0000 <= p <= 0x2000_0000_0000_0000,
    ensures
        r == surd_zero(p as int, s as int, d as int),
{
    proof {
        lemma_mul_abs_le(p as int, p as int, 0x2000_0000_0000_0000, 0x2000_0000_0000_0000);
    }
    if s == 0 {
        p == 0
    } else {
        proof {
            assert((s * p <= 0) == ((s > 0 && p <= 0) || (s < 0 && p >= 0))) by (nonlinear_arith)
                requires s != 0;
        }
        p * p == d && ((s > 0 && p <= 0) || (s < 0 && p >= 0))
    }
}

impl Crossing {
    /// Whether the crossing is the segment's first point.
    pub fn is_at_start(&self) -> (r: bool)
        requires
            self.bounded(),
        ensures
            r == self.at_start(),
    {
        surd_is_zero(self.p, self.s, self.disc)
    }

    /// Whether the crossing is the segment's last point.
    pub fn is_at_end(&self) -> (r: bool)
        requires
            self.bounded(),
        ensures
            r == self.at_end(),
    {
        surd_is_zero(self.p - self.den, self.s, self.disc)
    }

    /// Whether the crossing lies on the finite segment.
    pub fn is_on_segment(&self) -> (r: bool)
        requires
            -0x1000_0000_0000_0000 <= self.p <= 0x1000_0000_0000_0000,
            0 <= self.den <= 0x1000_0000_0000_0000,
            -1 <= self.s <= 1,
        ensures
            r == self.on_segment(),
    {
        surd_is_nonneg(self.p, self.s, self.disc) && surd_is_nonneg(self.den - self.p, -self.s, self.disc)
    }
}

impl Line {
    /// The points where this line meets the circle centred at (mx, my) with
    /// radius r, in ascending x. With `segment` only those on the finite
    /// segment remain.
    pub fn circle_intersections(&self, mx: i64, my: i64, r: i64, segment: bool) -> (res: Vec<Crossing>)
        requires
            self.wf(),
            (Circle { mx, my, r }).wf(),
        ensures
            res@ == line_circle_crossings(*self, Circle { mx, my, r }, segment),
            forall|i: int| 0 <= i < res.len() ==> (#[trigger] res@[i]).bounded(),
    {
        let ghost circle = Circle { mx, my, r };
        proof {
            lemma_quad_bounds(*self, circle);
        }
        let dx: i128 = self.p2.x as i128 - self.p1.x as i128;
        let dy: i128 = self.p2.y as i128 - self.p1.y as i128;
        let ex: i128 = self.p1.x as i128 - mx as i128;
        let ey: i128 = self.p1.y as i128 - my as i128;
        proof {
            let k: int = 0x2000_0000;
            lemma_mul_abs_le(dx as int, dx as int, k, k);
            lemma_mul_abs_le(dy as int, dy as int, k, k);
            lemma_mul_abs_le(dx as int, ex as int, k, k);
            lemma_mul_abs_le(dy as int, ey as int, k, k);
            lemma_mul_abs_le(ex as int, ex as int, k, k);
            lemma_mul_abs_le(ey as int, ey as int, k, k);
            lemma_mul_abs_le(r as int, r as int, k, k);
        }
        let qa: i128 = dx * dx + dy * dy;
        let qb: i128 = 2 * (dx * ex + dy * ey);
        let qc: i128 = ex * ex + ey * ey - r as i128 * r as i128;
        proof {
            lemma_mul_abs_le(qb as int, qb as int, 0x1000_0000_0000_0000, 0x1000_0000_0000_0000);
            lemma_mul_abs_le(qa as int, qc as int, 0x0900_0000_0000_0000, 0x0900_0000_0000_0000);
            lemma_mul_abs_le(4, qa as int, 4, 0x0900_0000_0000_0000);
            assert(4 * qa * qc == 4 * (qa * qc)) by (nonlinear_arith);
        }
        let disc: i128 = qb * qb - 4 * qa * qc;
        let mut all: Vec<Crossing> = Vec::new();
        if qa == 0 || disc < 0 {
        } else if disc == 0 {
            all.push(Crossing { line: *self, p: -qb, s: 0, disc, den: 2 * qa });
        } else {
            let (first, second): (i8, i8) = if dx >= 0 { (-1, 1) } else { (1, -1) };
            all.push(Crossing { line: *self, p: -qb, s: first, disc, den: 2 * qa });
            all.push(Crossing { line: *self, p: -qb, s: second, disc, den: 2 * qa });
        }
        assert(all@ == line_circle_roots(*self, circle));
        if !segment {
            return all;
        }
        let mut res: Vec<Crossing> = Vec::new();
        let mut i: usize = 0;
        while i < all.len()
            invariant
                i <= all.len(),
                all@ == line_circle_roots(*self, circle),
                -0x1000_0000_0000_0000 <= qb <= 0x1000_0000_0000_0000,
                0 <= qa <= 0x0800_0000_0000_0000,
                forall|k: int| 0 <= k < all.len() ==> (#[trigger] all@[k]).p == -qb && all@[k].den == 2 * qa
                    && -1 <= all@[k].s <= 1,
                res@ == all@.subrange(0, i as int).filter(|x: Crossing| x.on_segment()),
                forall|k: int| 0 <= k < res.len() ==> (#[trigger] res@[k]).bounded(),
            decreases all.len() - i,
        {
            let c = all[i];
            proof {
                reveal(Seq::filter);
                assert(all@.subrange(0, i + 1).drop_last() == all@.subrange(0, i as int));
            }
            if c.is_on_segment() {
                res.push(c);
            }
            i += 1;
        }
        assert(all@.subrange(0, all.len() as int) == all@);
        res
    }
}

pub open spec fn on_segment_count(rs: Seq<Crossing>) -> int {
    (if rs.len() >= 1 && rs[0].on_segment() { 1int } else { 0int })
        + (if rs.len() >= 2 && rs[1].on_segment() { 1int } else { 0int })
}

/// The segment's intersections are exactly those of the infinite line that
/// lie within the segment, in the same order.
pub proof fn lemma_segment_crossings_subset(l: Line, c: Circle)
    ensures
        line_circle_crossings(l, c, true).len() == on_segment_count(line_circle_roots(l, c)),
        line_circle_crossings(l, c, true).len() <= line_circle_crossings(l, c, false).len(),
        line_circle_crossings(l, c, true).len() == line_circle_crossings(l, c, false).len()
            ==> line_circle_crossings(l, c, true) == line_circle_crossings(l, c, false),
        forall|x: Crossing| #[trigger] line_circle_crossings(l, c, true).contains(x)
            <==> line_circle_roots(l, c).contains(x) && x.on_segment(),
{
    let rs = line_circle_roots(l, c);
    let pred = |x: Crossing| x.on_segment();
    reveal(Seq::filter);
    if rs.len() == 1 {
        assert(rs.drop_last() == Seq::<Crossing>::empty());
    } else if rs.len() == 2 {
        assert(rs.drop_last() == seq![rs[0]]);
        assert(rs.drop_last().drop_last() == Seq::<Crossing>::empty());
        let f1 = seq![rs[0]].filter(pred);
        assert(seq![rs[0]].drop_last() == Seq::<Crossing>::empty());
        assert(Seq::<Crossing>::empty().filter(pred) == Seq::<Crossing>::empty());
        assert(f1 == (if rs[0].on_segment() { seq![rs[0]] } else { Seq::<Crossing>::empty() }));
        let f = rs.filter(pred);
        if rs[1].on_segment() {
            assert(f == f1.push(rs[1]));
        } else {
            assert(f == f1);
        }
        assert(rs.contains(rs[0]) && rs.contains(rs[1]));
        assert(f.contains(rs[0]) == rs[0].on_segment()) by {
            if rs[0].on_segment() { assert(f[0] == rs[0]); }
        }
        assert(f.contains(rs[1]) == rs[1].on_segment()) by {
            if rs[1].on_segment() { assert(f[f.len() - 1] == rs[1]); }
        }
    } else if rs.len() == 0 {
        assert(rs.filter(pred) == Seq::<Crossing>::empty());
    }
    if rs.len() == 1 {
        let f = rs.filter(pred);
        assert(Seq::<Crossing>::empty().filter(pred) == Seq::<Crossing>::empty());
        assert(rs.drop_last() == Seq::<Crossing>::empty());
        assert(rs.contains(rs[0]));
        assert(f.contains(rs[0]) == rs[0].on_segment()) by {
            if rs[0].on_segment() { assert(f[0] == rs[0]); }
        }
    }
}

proof fn lemma_square_of_sum(p: int, q: int)
    ensures
        (p + q) * (p + q) == p * p + 2 * p * q + q * q,
{
    assert((p + q) * (p + q) == p * p + 2 * p * q + q * q) by (nonlinear_arith);
}

proof fn lemma_mul_swap(a: int, b: int, c: int, d: int)
    ensures
        (a * b) * (c * d) == (a * c) * (b * d),
        (a * b) * (c * d) == (c * d) * (a * b),
{
    assert((a * b) * (c * d) == (a * c) * (b * d)) by (nonlinear_arith);
    assert((a * b) * (c * d) == (c * d) * (a * b)) by (nonlinear_arith);
}

/// (den·ex + dx·u)² + (den·ey + dy·u)² − r²·den² for u = p + s·q.
proof fn lemma_circle_residual(dx: int, dy: int, ex: int, ey: int, r: int, s: int, q: int)
    ensures ({
        let qa = dx * dx + dy * dy;
        let qb = 2 * (dx * ex + dy * ey);
        let qc = ex * ex + ey * ey - r * r;
        let den = 2 * qa;
        let u = -qb + s * q;
        (den * ex + dx * u) * (den * ex + dx * u) + (den * ey + dy * u) * (den * ey + dy * u)
            - r * r * (den * den) == qa * (s * s * (q * q) - (qb * qb - 4 * qa * qc))
    }),
{
    let qa = dx * dx + dy * dy;
    let qb = 2 * (dx * ex + dy * ey);
    let qc = ex * ex + ey * ey - r * r;
    let den = 2 * qa;
    let u = -qb + s * q;
    let a = den * ex + dx * u;
    let b = den * ey + dy * u;
    lemma_square_of_sum(den * ex, dx * u);
    lemma_mul_swap(den, ex, den, ex);
    lemma_mul_swap(dx, u, dx, u);
    assert(2 * (den * ex) * (dx * u) == 2 * den * u * (dx * ex)) by (nonlinear_arith);
    lemma_square_of_sum(den * ey, dy * u);
    lemma_mul_swap(den, ey, den, ey);
    lemma_mul_swap(dy, u, dy, u);
    assert(2 * (den * ey) * (dy * u) == 2 * den * u * (dy * ey)) by (nonlinear_arith);
    assert(2 * den * u * (dx * ex) + 2 * den * u * (dy * ey) == den * u * qb) by (nonlinear_arith)
        requires qb == 2 * (dx * ex + dy * ey);
    assert(u * u * (dx * dx) + u * u * (dy * dy) == u * u * qa) by (nonlinear_arith)
        requires qa == dx * dx + dy * dy;
    assert(den * den * (ex * ex) + den * den * (ey * ey) == den * den * (qc + r * r)) by (nonlinear_arith)
        requires qc == ex * ex + ey * ey - r * r;
    assert(a * a + b * b - r * r * (den * den) == den * den * qc + den * u * qb + u * u * qa) by (nonlinear_arith)
        requires
            a * a == den * den * (ex * ex) + 2 * den * u * (dx * ex) + u * u * (dx * dx),
            b * b == den * den * (ey * ey) + 2 * den * u * (dy * ey) + u * u * (dy * dy),
            2 * den * u * (dx * ex) + 2 * den * u * (dy * ey) == den * u * qb,
            u * u * (dx * dx) + u * u * (dy * dy) == u * u * qa,
            den * den * (ex * ex) + den * den * (ey * ey) == den * den * (qc + r * r);
    assert(den * den * qc + den * u * qb + u * u * qa == qa * (4 * qa * qc + 2 * u * qb + u * u)) by (nonlinear_arith)
        requires den == 2 * qa;
    assert(2 * u * qb + u * u == s * s * (q * q) - qb * qb) by (nonlinear_arith)
        requires u == -qb + s * q;
}

/// Every intersection with the infinite line lies on the circle and on the
/// line. Its coordinates are (rat_x + irr_x·√disc) / den and
/// (rat_y + irr_y·√disc) / den; the circle equation, multiplied by den²,
/// holds in its rational part and in its √disc part, and so does the line
/// equation.
pub proof fn lemma_crossings_on_circle_and_line(l: Line, c: Circle)
    requires
        l.wf(),
        c.wf(),
    ensures
        forall|x: Crossing| #[trigger] line_circle_crossings(l, c, false).contains(x) ==> {
            &&& (x.rat_x() - c.mx * x.den) * (x.rat_x() - c.mx * x.den)
                + (x.rat_y() - c.my * x.den) * (x.rat_y() - c.my * x.den)
                + (x.irr_x() * x.irr_x() + x.irr_y() * x.irr_y()) * x.disc
                == c.r * c.r * (x.den * x.den)
            &&& (x.rat_x() - c.mx * x.den) * x.irr_x() + (x.rat_y() - c.my * x.den) * x.irr_y() == 0
            &&& (x.rat_x() - l.p1.x * x.den) * l.dy() == (x.rat_y() - l.p1.y * x.den) * l.dx()
            &&& x.irr_x() * l.dy() == x.irr_y() * l.dx()
        },
{
    lemma_quad_bounds(l, c);
    assert forall|x: Crossing| #[trigger] line_circle_crossings(l, c, false).contains(x) implies {
        &&& (x.rat_x() - c.mx * x.den) * (x.rat_x() - c.mx * x.den)
            + (x.rat_y() - c.my * x.den) * (x.rat_y() - c.my * x.den)
            + (x.irr_x() * x.irr_x() + x.irr_y() * x.irr_y()) * x.disc
            == c.r * c.r * (x.den * x.den)
        &&& (x.rat_x() - c.mx * x.den) * x.irr_x() + (x.rat_y() - c.my * x.den) * x.irr_y() == 0
        &&& (x.rat_x() - l.p1.x * x.den) * l.dy() == (x.rat_y() - l.p1.y * x.den) * l.dx()
        &&& x.irr_x() * l.dy() == x.irr_y() * l.dx()
    } by {
        let rs = line_circle_roots(l, c);
        let k = choose|k: int| 0 <= k < rs.len() && rs[k] == x;
        let s = x.s as int;
        assert(x == root(l, c, x.s));
        let (dx, dy, ex, ey) = (l.dx(), l.dy(), l.p1.x - c.mx, l.p1.y - c.my);
        let den = x.den as int;
        let p = x.p as int;
        let d = x.disc as int;
        let qa = quad_a(l);
        let ax = den * ex + dx * p;
        let ay = den * ey + dy * p;
        let bx = dx * s;
        let by = dy * s;
        assert(x.rat_x() - c.mx * x.den == ax) by (nonlinear_arith)
            requires x.rat_x() == l.p1.x * den + dx * p, ex == l.p1.x - c.mx, den == x.den, ax == den * ex + dx * p;
        assert(x.rat_y() - c.my * x.den == ay) by (nonlinear_arith)
            requires x.rat_y() == l.p1.y * den + dy * p, ey == l.p1.y - c.my, den == x.den, ay == den * ey + dy * p;
        // the residual of the circle equation at q, for q = 0, 1 and −1
        lemma_circle_residual(dx, dy, ex, ey, c.r as int, s, 0);
        lemma_circle_residual(dx, dy, ex, ey, c.r as int, s, 1);
        lemma_circle_residual(dx, dy, ex, ey, c.r as int, s, -1);
        assert(ax * ax + ay * ay - c.r * c.r * (den * den) == qa * (0 - d)) by (nonlinear_arith)
            requires
                (den * ex + dx * (-quad_b(l, c) + s * 0)) * (den * ex + dx * (-quad_b(l, c) + s * 0))
                    + (den * ey + dy * (-quad_b(l, c) + s * 0)) * (den * ey + dy * (-quad_b(l, c) + s * 0))
                    - c.r * c.r * (den * den) == qa * (s * s * (0 * 0) - d),
                p == -quad_b(l, c), ax == den * ex + dx * p, ay == den * ey + dy * p;
        let r1 = (ax + bx) * (ax + bx) + (ay + by) * (ay + by);
        let r2 = (ax - bx) * (ax - bx) + (ay - by) * (ay - by);
        assert(r1 == r2) by (nonlinear_arith)
            requires
                (den * ex + dx * (-quad_b(l, c) + s * 1)) * (den * ex + dx * (-quad_b(l, c) + s * 1))
                    + (den * ey + dy * (-quad_b(l, c) + s * 1)) * (den * ey + dy * (-quad_b(l, c) + s * 1))
                    - c.r * c.r * (den * den) == qa * (s * s * (1 * 1) - d),
                (den * ex + dx * (-quad_b(l, c) + s * -1)) * (den * ex + dx * (-quad_b(l, c) + s * -1))
                    + (den * ey + dy * (-quad_b(l, c) + s * -1)) * (den * ey + dy * (-quad_b(l, c) + s * -1))
                    - c.r * c.r * (den * den) == qa * (s * s * (-1 * -1) - d),
                p == -quad_b(l, c), ax == den * ex + dx * p, ay == den * ey + dy * p, bx == dx * s, by == dy * s,
                r1 == (ax + bx) * (ax + bx) + (ay + by) * (ay + by),
                r2 == (ax - bx) * (ax - bx) + (ay - by) * (ay - by);
        assert(ax * bx + ay * by == 0) by (nonlinear_arith)
            requires r1 == r2,
                r1 == (ax + bx) * (ax + bx) + (ay + by) * (ay + by),
                r2 == (ax - bx) * (ax - bx) + (ay - by) * (ay - by);
        assert(bx * bx + by * by == s * s * qa) by (nonlinear_arith)
            requires bx == dx * s, by == dy * s, qa == dx * dx + dy * dy;
        assert((bx * bx + by * by) * d == qa * d) by (nonlinear_arith)
            requires bx * bx + by * by == s * s * qa, -1 <= s <= 1, s == 0 ==> d == 0;
        assert(bx * dy == by * dx) by (nonlinear_arith)
            requires bx == dx * s, by == dy * s;
        assert((x.rat_x() - l.p1.x * x.den) * dy == (x.rat_y() - l.p1.y * x.den) * dx) by (nonlinear_arith)
            requires x.rat_x() == l.p1.x * den + dx * p, x.rat_y() == l.p1.y * den + dy * p, den == x.den;
        assert(x.irr_x() == bx && x.irr_y() == by);
        assert((x.rat_x() - c.mx * x.den) * (x.rat_x() - c.mx * x.den) == ax * ax);
        assert((x.rat_y() - c.my * x.den) * (x.rat_y() - c.my * x.den) == ay * ay);
        assert((x.irr_x() * x.irr_x() + x.irr_y() * x.irr_y()) * x.disc == qa * d);
        assert(c.r * c.r * (x.den * x.den) == c.r * c.r * (den * den));
        assert((x.rat_x() - c.mx * x.den) * x.irr_x() == ax * bx);
        assert((x.rat_y() - c.my * x.den) * x.irr_y() == ay * by);
        assert(qa * (0 - d) == -(qa * d)) by (nonlinear_arith);
        assert(ax * ax + ay * ay + qa * d == c.r * c.r * (den * den));
    }
}

/// Intersections come in ascending x; a line that touches the circle gives
/// one point, and one that misses it gives none.
pub proof fn lemma_crossings_order_and_count(l: Line, c: Circle, segment: bool)
    ensures
        forall|i: int, j: int| 0 <= i < j < line_circle_crossings(l, c, segment).len() ==>
            (#[trigger] line_circle_crossings(l, c, segment)[i]).x_le(
                #[trigger] line_circle_crossings(l, c, segment)[j]),
        quad_a(l) > 0 && discriminant(l, c) == 0 ==> line_circle_crossings(l, c, false).len() == 1,
        discriminant(l, c) < 0 ==> line_circle_crossings(l, c, segment).len() == 0,
{
    lemma_segment_crossings_subset(l, c);
    let xs = line_circle_crossings(l, c, segment);
    let rs = line_circle_roots(l, c);
    assert forall|i: int, j: int| 0 <= i < j < xs.len() implies (#[trigger] xs[i]).x_le(#[trigger] xs[j]) by {
        assert(rs.len() <= 2);
        assert(xs.len() == 2 && i == 0 && j == 1);
        assert(xs == rs);
        assert(rs[0].line == l && rs[1].line == l);
        if l.dx() >= 0 {
            assert(rs[0].s == -1 && rs[1].s == 1);
        } else {
            assert(rs[0].s == 1 && rs[1].s == -1);
        }
        assert(l.dx() * (rs[0].s - rs[1].s) <= 0) by (nonlinear_arith)
            requires
                l.dx() >= 0 ==> rs[0].s - rs[1].s == -2,
                l.dx() < 0 ==> rs[0].s - rs[1].s == 2;
    }
}

/// The three coefficients of the reversed segment, from those of `l`.
proof fn lemma_reversed_coefficients(l: Line, c: Circle)
    ensures
        quad_a(l.reversed()) == quad_a(l),
        quad_b(l.reversed(), c) == -quad_b(l, c) - 2 * quad_a(l),
        discriminant(l.reversed(), c) == discriminant(l, c),
{
    let (dx, dy, ex, ey) = (l.dx(), l.dy(), l.p1.x - c.mx, l.p1.y - c.my);
    let qa = quad_a(l);
    let qb = quad_b(l, c);
    let qc = quad_c(l, c);
    let r = l.reversed();
    assert(r.dx() == -dx && r.dy() == -dy);
    assert(quad_a(r) == qa) by (nonlinear_arith)
        requires quad_a(r) == (-dx) * (-dx) + (-dy) * (-dy), qa == dx * dx + dy * dy;
    assert(quad_b(r, c) == -qb - 2 * qa) by (nonlinear_arith)
        requires
            quad_b(r, c) == 2 * ((-dx) * (ex + dx) + (-dy) * (ey + dy)),
            qb == 2 * (dx * ex + dy * ey),
            qa == dx * dx + dy * dy;
    assert(quad_c(r, c) == qc + qb + qa) by (nonlinear_arith)
        requires
            quad_c(r, c) == (ex + dx) * (ex + dx) + (ey + dy) * (ey + dy) - c.r * c.r,
            qc == ex * ex + ey * ey - c.r * c.r,
            qb == 2 * (dx * ex + dy * ey),
            qa == dx * dx + dy * dy;
    let qb2 = quad_b(r, c);
    let qc2 = quad_c(r, c);
    assert(qb2 * qb2 - 4 * qa * qc2 == qb * qb - 4 * qa * qc) by (nonlinear_arith)
        requires qb2 == -qb - 2 * qa, qc2 == qc + qb + qa;
}

proof fn lemma_mirror_on_segment(l: Line, c: Circle, s: i8)
    requires
        l.wf(),
        c.wf(),
        -1 <= s <= 1,
    ensures
        root(l.reversed(), c, (-s) as i8).on_segment() == root(l, c, s).on_segment(),
{
    lemma_quad_bounds(l, c);
    lemma_quad_bounds(l.reversed(), c);
    lemma_reversed_coefficients(l, c);
    let x = root(l, c, s);
    let y = root(l.reversed(), c, (-s) as i8);
    assert(y.p == x.den - x.p);
}

/// Walking a segment the other way finds the same points of the plane, as
/// many of them.
pub proof fn lemma_reversed_same_crossings(l: Line, c: Circle, segment: bool)
    requires
        l.wf(),
        c.wf(),
    ensures
        line_circle_crossings(l, c, segment).len() == line_circle_crossings(l.reversed(), c, segment).len(),
        forall|x: Crossing| #[trigger] line_circle_crossings(l, c, segment).contains(x) ==>
            exists|y: Crossing| line_circle_crossings(l.reversed(), c, segment).contains(y) && x.same_point(y),
        forall|y: Crossing| #[trigger] line_circle_crossings(l.reversed(), c, segment).contains(y) ==>
            exists|x: Crossing| line_circle_crossings(l, c, segment).contains(x) && y.same_point(x),
{
    lemma_reversed_one_way(l, c, segment);
    lemma_reversed_one_way(l.reversed(), c, segment);
    assert(l.reversed().reversed() == l);
    let r = l.reversed();
    lemma_quad_bounds(l, c);
    lemma_reversed_coefficients(l, c);
    lemma_segment_crossings_subset(l, c);
    lemma_segment_crossings_subset(r, c);
    lemma_mirror_on_segment(l, c, -1i8);
    lemma_mirror_on_segment(l, c, 0i8);
    lemma_mirror_on_segment(l, c, 1i8);
    assert(line_circle_roots(l, c).len() == line_circle_roots(r, c).len());
}

proof fn lemma_reversed_one_way(l: Line, c: Circle, segment: bool)
    requires
        l.wf(),
        c.wf(),
    ensures
        forall|x: Crossing| #[trigger] line_circle_crossings(l, c, segment).contains(x) ==>
            exists|y: Crossing| line_circle_crossings(l.reversed(), c, segment).contains(y) && x.same_point(y),
{
    let r = l.reversed();
    lemma_quad_bounds(l, c);
    lemma_quad_bounds(r, c);
    lemma_reversed_coefficients(l, c);
    lemma_segment_crossings_subset(l, c);
    lemma_segment_crossings_subset(r, c);
    let rs = line_circle_roots(l, c);
    let rr = line_circle_roots(r, c);
    assert forall|x: Crossing| #[trigger] line_circle_crossings(l, c, segment).contains(x) implies
        exists|y: Crossing| line_circle_crossings(r, c, segment).contains(y) && x.same_point(y) by {
        assert(rs.contains(x));
        let y = root(r, c, (-x.s) as i8);
        assert(x == root(l, c, x.s));
        assert(rr.contains(y)) by {
            if rr.len() == 1 {
                assert(rr[0] == y);
            } else {
                if y == rr[0] {
                    assert(rr[0] == y);
                } else {
                    assert(rr[1] == y);
                }
            }
        }
        let den = x.den as int;
        let p = x.p as int;
        assert(den - p == y.p);
        assert(r.p1.x * den + r.dx() * y.p == l.p1.x * den + l.dx() * p) by (nonlinear_arith)
            requires r.p1.x == l.p1.x + l.dx(), r.dx() == -l.dx(), y.p == den - p;
        assert(r.p1.y * den + r.dy() * y.p == l.p1.y * den + l.dy() * p) by (nonlinear_arith)
            requires r.p1.y == l.p1.y + l.dy(), r.dy() == -l.dy(), y.p == den - p;
        assert(r.dx() * y.s == l.dx() * x.s) by (nonlinear_arith)
            requires r.dx() == -l.dx(), y.s == -x.s;
        assert(r.dy() * y.s == l.dy() * x.s) by (nonlinear_arith)
            requires r.dy() == -l.dy(), y.s == -x.s;
        assert(x.same_point(y));
        assert(y.on_segment() == x.on_segment());
        assert(line_circle_crossings(r, c, segment).contains(y));
    }
}

} // verus!
