use vstd::prelude::*;
use crate::geometry::{Point, Line, Circle, Crossing, line_circle_crossings};

verus! {

/// One stratum: its boundary polyline and its material. Unit weights are in
/// kN/m³, cohesion in kPa, and the friction angle is given by its tangent in
/// thousandths.
#[derive(Clone, Debug)]
pub struct Layer {
    pub y_dry: i64,
    pub y_sat: i64,
    pub c: i64,
    pub tan_phi: i64,
    pub points: Vec<Point>,
}

/// The layered cross-section, top layer first, with the phreatic surface
/// as a polyline (empty where there is no water table).
#[derive(Clone, Debug)]
pub struct Geometry {
    pub layers: Vec<Layer>,
    pub water: Vec<Point>,
}

/// The i-th edge of a polyline, from point i − 1 to point i.
pub open spec fn edge(pts: Seq<Point>, i: int) -> Line {
    Line { p1: pts[i - 1], p2: pts[i] }
}

/// The segment crossings of the first n points of a polyline, edge by edge.
pub open spec fn polyline_crossings(pts: Seq<Point>, c: Circle, n: int) -> Seq<Crossing>
    decreases n,
{
    if n <= 1 {
        seq![]
    } else {
        polyline_crossings(pts, c, n - 1) + line_circle_crossings(edge(pts, n - 1), c, true)
    }
}

pub open spec fn closed(pts: Seq<Point>) -> bool {
    pts.len() >= 2 && pts[0] == pts[pts.len() - 1]
}

/// Whether a crossing of edge i is a point not met before along the
/// polyline: a crossing at the start of any edge but the first is the
/// vertex the edge before ended on, and on a closed polyline the end of the
/// last edge is the first point.
pub open spec fn new_point(pts: Seq<Point>, i: int, x: Crossing) -> bool {
    &&& !(i > 1 && x.at_start())
    &&& !(closed(pts) && i == pts.len() - 1 && x.at_end())
}

/// How many distinct points of the first n points' polyline lie on the
/// circle.
pub open spec fn polyline_points(pts: Seq<Point>, c: Circle, n: int) -> int
    decreases n,
{
    if n <= 1 {
        0
    } else {
        polyline_points(pts, c, n - 1)
            + line_circle_crossings(edge(pts, n - 1), c, true).filter(|x: Crossing| new_point(pts, n - 1, x)).len()
    }
}

impl Layer {
    pub open spec fn wf(&self) -> bool {
        forall|i: int| 0 <= i < self.points.len() ==> (#[trigger] self.points@[i]).wf()
    }

    /// Every point where the circle centred at (mx, my) with radius r meets
    /// the boundary, edge after edge, each edge's points in ascending x.
    pub fn circle_intersections(&self, mx: i64, my: i64, r: i64) -> (res: Vec<Crossing>)
        requires
            self.wf(),
            (Circle { mx, my, r }).wf(),
        ensures
            res@ == polyline_crossings(self.points@, Circle { mx, my, r }, self.points.len() as int),
    {
        let ghost circle = Circle { mx, my, r };
        let mut res: Vec<Crossing> = Vec::new();
        if self.points.len() == 0 {
            return res;
        }
        let mut i: usize = 1;
        while i < self.points.len()
            invariant
                self.wf(),
                circle == (Circle { mx, my, r }),
                circle.wf(),
                1 <= i <= self.points.len(),
                res@ == polyline_crossings(self.points@, circle, i as int),
            decreases self.points.len() - i,
        {
            let line = Line { p1: self.points[i - 1], p2: self.points[i] };
            assert(line == edge(self.points@, i as int));
            let found = line.circle_intersections(mx, my, r, true);
            let ghost before = res@;
            let mut j: usize = 0;
            while j < found.len()
                invariant
                    j <= found.len(),
                    res@ == before + found@.subrange(0, j as int),
                decreases found.len() - j,
            {
                res.push(found[j]);
                proof {
                    assert(found@.subrange(0, j + 1) == found@.subrange(0, j as int).push(found@[j as int]));
                }
                j += 1;
            }
            assert(found@.subrange(0, found.len() as int) == found@);
            i += 1;
        }
        res
    }
}

impl Geometry {
    /// For each layer, top first, the points where the circle centred at
    /// (mx, my) with radius r meets its boundary.
    pub fn circle_intersections(&self, mx: i64, my: i64, r: i64) -> (res: Vec<Vec<Crossing>>)
        requires
            forall|k: int| 0 <= k < self.layers.len() ==> (#[trigger] self.layers@[k]).wf(),
            (Circle { mx, my, r }).wf(),
        ensures
            res.len() == self.layers.len(),
            forall|k: int| 0 <= k < res.len() ==> (#[trigger] res@[k])@ == polyline_crossings(
                self.layers@[k].points@, Circle { mx, my, r }, self.layers@[k].points.len() as int),
    {
        let mut res: Vec<Vec<Crossing>> = Vec::new();
        let mut k: usize = 0;
        while k < self.layers.len()
            invariant
                forall|k: int| 0 <= k < self.layers.len() ==> (#[trigger] self.layers@[k]).wf(),
                (Circle { mx, my, r }).wf(),
                k <= self.layers.len(),
                res.len() == k,
                forall|j: int| 0 <= j < k ==> (#[trigger] res@[j])@ == polyline_crossings(
                    self.layers@[j].points@, Circle { mx, my, r }, self.layers@[j].points.len() as int),
            decreases self.layers.len() - k,
        {
            assert(self.layers@[k as int].wf());
            res.push(self.layers[k].circle_intersections(mx, my, r));
            k += 1;
        }
        res
    }
}

impl Layer {
    /// Whether the circle centred at (mx, my) with radius r meets the
    /// boundary in at least two distinct points.
    pub fn meets_twice(&self, mx: i64, my: i64, r: i64) -> (res: bool)
        requires
            self.wf(),
            (Circle { mx, my, r }).wf(),
        ensures
            res == (polyline_points(self.points@, Circle { mx, my, r }, self.points.len() as int) >= 2),
    {
        let ghost circle = Circle { mx, my, r };
        let ghost pts = self.points@;
        let n = self.points.len();
        if n == 0 {
            return false;
        }
        let is_closed = n >= 2 && self.points[0] == self.points[n - 1];
        assert(is_closed == closed(pts));
        let mut count: usize = 0;
        let mut i: usize = 1;
        while i < n
            invariant
                self.wf(),
                circle == (Circle { mx, my, r }),
                circle.wf(),
                pts == self.points@,
                n == pts.len(),
                is_closed == closed(pts),
                1 <= i <= n,
                count < 2,
                count == polyline_points(pts, circle, i as int),
            decreases n - i,
        {
            let line = Line { p1: self.points[i - 1], p2: self.points[i] };
            assert(line == edge(pts, i as int));
            let found = line.circle_intersections(mx, my, r, true);
            let ghost pred = |x: Crossing| new_point(pts, i as int, x);
            let mut here: usize = 0;
            let mut j: usize = 0;
            while j < found.len()
                invariant
                    j <= found.len(),
                    found.len() <= 2,
                    forall|k: int| 0 <= k < found.len() ==> (#[trigger] found@[k]).bounded(),
                    pred == (|x: Crossing| new_point(pts, i as int, x)),
                    here == found@.subrange(0, j as int).filter(pred).len(),
                    here <= j,
                    1 <= i < n,
                    n == pts.len(),
                    is_closed == closed(pts),
                decreases found.len() - j,
            {
                let x = found[j];
                assert(found@[j as int].bounded());
                proof {
                    reveal(Seq::filter);
                    assert(found@.subrange(0, j + 1).drop_last() == found@.subrange(0, j as int));
                }
                let fresh = !(i > 1 && x.is_at_start()) && !(is_closed && i == n - 1 && x.is_at_end());
                assert(fresh == pred(found@[j as int]));
                if fresh {
                    here += 1;
                }
                j += 1;
            }
            assert(found@.subrange(0, found.len() as int) == found@);
            count = count + here;
            if count >= 2 {
                proof {
                    lemma_points_grow(pts, circle, i as int + 1, n as int);
                }
                return true;
            }
            i += 1;
        }
        false
    }
}

proof fn lemma_points_grow(pts: Seq<Point>, c: Circle, m: int, n: int)
    requires
        1 <= m <= n,
    ensures
        polyline_points(pts, c, m) <= polyline_points(pts, c, n),
    decreases n - m,
{
    if m < n {
        lemma_points_grow(pts, c, m, n - 1);
    }
}

} // verus!
