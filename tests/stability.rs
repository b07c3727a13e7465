use librstab::bishop::{solve, Slice, SolveError};
use librstab::geometry::Point;
use librstab::search::{
    bishop, critical_circle, evaluate_trials, grid_circles, search, Critical, SearchError, SearchGrid, SolverConfig,
};
use librstab::section::{Geometry, Layer};
use librstab::geometry::Circle;
use librstab::slices::{decompose, TrialError};

fn slope(c: i64) -> Geometry {
    let points = vec![
        Point { x: 0, y: 0 },
        Point { x: 30, y: 0 },
        Point { x: 50, y: 20 },
        Point { x: 80, y: 20 },
    ];
    Geometry { layers: vec![Layer { y_dry: 18, y_sat: 20, c, tan_phi: 577, points }], water: vec![] }
}

fn cfg() -> SolverConfig {
    SolverConfig { slices: 20, tol: 1, max_iter: 100 }
}

fn slice(b: i64, w: i64, c: i64, tan_phi: i64, u: i64, sin_a: i64, cos_a: i64) -> Slice {
    Slice { b, w, c, tan_phi, u, sin_a, cos_a }
}

#[test]
fn solver_single_slice_value() {
    let ss = vec![slice(1, 100, 10, 500, 0, 600, 800)];
    assert_eq!(solve(&ss, 1000, 1, 50), Ok(875));
}

#[test]
fn solver_two_slice_value() {
    let ss = vec![slice(2, 400, 5, 577, 0, 300, 954), slice(2, 300, 5, 577, 0, -100, 995)];
    assert_eq!(solve(&ss, 1000, 1, 50), Ok(4774));
}

#[test]
fn solver_is_deterministic() {
    let ss = vec![slice(2, 400, 5, 577, 0, 300, 954), slice(2, 300, 5, 577, 0, -100, 995)];
    assert_eq!(solve(&ss, 1000, 1, 50), solve(&ss.clone(), 1000, 1, 50));
}

#[test]
fn solver_budget_exhausted_diverges() {
    let ss = vec![slice(1, 100, 10, 500, 0, 600, 800)];
    assert_eq!(solve(&ss, 1000, 0, 50), Err(SolveError::Diverged));
    assert_eq!(solve(&ss, 1000, 1, 0), Err(SolveError::Diverged));
}

#[test]
fn solver_flat_base_diverges() {
    let ss = vec![slice(1, 100, 10, 500, 0, 300, 954), slice(1, 100, 10, 500, 0, -300, 954)];
    assert_eq!(solve(&ss, 1000, 1, 50), Err(SolveError::Diverged));
    let flat = vec![slice(1, 100, 10, 500, 0, 0, 1000)];
    assert_eq!(solve(&flat, 1000, 1, 50), Err(SolveError::Diverged));
}

#[test]
fn solver_vanishing_m_alpha_diverges() {
    let ss = vec![slice(1, 100, 10, 1000, 0, -1000, 100), slice(1, 1000, 10, 0, 0, 1000, 0)];
    assert_eq!(solve(&ss, 1000, 1, 50), Err(SolveError::Diverged));
}

#[test]
fn solver_negative_factor_is_invalid() {
    let ss = vec![slice(1, 100, 0, 500, 200, 600, 800)];
    assert_eq!(solve(&ss, 1000, 1, 50), Err(SolveError::InvalidResult));
}

#[test]
fn more_cohesion_never_lowers_factor() {
    let low = bishop(&slope(10), 40, 35, 30, cfg()).unwrap();
    let high = bishop(&slope(20), 40, 35, 30, cfg()).unwrap();
    assert_eq!(low, 1734);
    assert_eq!(high, 1969);
    assert!(high >= low);
}

#[test]
fn decompose_slope_slices() {
    let ss = decompose(&slope(10), Circle { mx: 40, my: 35, r: 30 }, 20).unwrap();
    assert_eq!(ss.len(), 10);
    assert_eq!(ss[0], slice(3, 108, 10, 577, 0, -67, 966));
    assert_eq!(ss[4], slice(3, 702, 10, 577, 0, 333, 933));
    assert_eq!(ss[9], slice(3, 54, 10, 577, 0, 833, 533));
}

#[test]
fn circle_above_ground_is_degenerate() {
    let g = Geometry {
        layers: vec![Layer {
            y_dry: 18,
            y_sat: 20,
            c: 10,
            tan_phi: 577,
            points: vec![Point { x: 0, y: 0 }, Point { x: 100, y: 0 }],
        }],
        water: vec![],
    };
    assert_eq!(bishop(&g, 50, 50, 10, cfg()), Err(TrialError::GeometryDegenerate));
}

#[test]
fn zero_slices_is_invalid_input() {
    let c = SolverConfig { slices: 0, tol: 1, max_iter: 100 };
    assert_eq!(bishop(&slope(10), 40, 35, 30, c), Err(TrialError::InputInvalid));
}

#[test]
fn search_picks_least_factor() {
    let cands = vec![
        Circle { mx: 40, my: 35, r: 30 },
        Circle { mx: 50, my: 50, r: 5 },
        Circle { mx: 40, my: 35, r: 30 },
    ];
    let best = critical_circle(&slope(10), &cands, cfg()).unwrap();
    assert_eq!(best, Critical { circle: Circle { mx: 40, my: 35, r: 30 }, factor: 1734, failed: 1 });
}

#[test]
fn search_without_feasible_trial() {
    let cands = vec![Circle { mx: 50, my: 50, r: 5 }];
    assert_eq!(critical_circle(&slope(10), &cands, cfg()), Err(SearchError::NoFeasibleTrial));
}

#[test]
fn search_rejects_non_positive_radius() {
    let cands = vec![Circle { mx: 40, my: 35, r: 30 }, Circle { mx: 40, my: 35, r: 0 }];
    assert_eq!(critical_circle(&slope(10), &cands, cfg()), Err(SearchError::InputInvalid));
}

#[test]
fn every_trial_outcome_is_kept() {
    let cands = vec![Circle { mx: 40, my: 35, r: 30 }, Circle { mx: 50, my: 50, r: 5 }];
    let out = evaluate_trials(&slope(10), &cands, cfg()).unwrap();
    assert_eq!(out, vec![Ok(1734), Err(TrialError::GeometryDegenerate)]);
    let bad = vec![Circle { mx: 40, my: 35, r: -3 }];
    assert_eq!(evaluate_trials(&slope(10), &bad, cfg()), Err(SearchError::InputInvalid));
}

#[test]
fn layer_needs_two_points() {
    assert!(slope(10).is_valid());
    let g = Geometry {
        layers: vec![Layer { y_dry: 18, y_sat: 20, c: 10, tan_phi: 577, points: vec![Point { x: 0, y: 0 }] }],
        water: vec![],
    };
    assert!(!g.is_valid());
    assert!(!Geometry { layers: vec![], water: vec![] }.is_valid());
    let mut far = slope(10);
    far.water = vec![Point { x: 0, y: 1 << 40 }];
    assert!(!far.is_valid());
}

#[test]
fn water_table_adds_pore_pressure_and_saturated_weight() {
    let mut g = slope(10);
    g.water = vec![Point { x: 0, y: 12 }, Point { x: 80, y: 12 }];
    let ss = decompose(&g, Circle { mx: 40, my: 35, r: 30 }, 20).unwrap();
    assert_eq!(ss[0], slice(3, 120, 10, 577, 60, -67, 966));
    assert_eq!(ss[4], slice(3, 732, 10, 577, 50, 333, 933));
    assert_eq!(ss[9], slice(3, 54, 10, 577, 0, 833, 533));
    assert_eq!(bishop(&g, 40, 35, 30, cfg()), Ok(1307));
}

#[test]
fn base_takes_material_of_lower_layer() {
    let mut g = slope(10);
    g.layers.push(Layer {
        y_dry: 19,
        y_sat: 21,
        c: 25,
        tan_phi: 700,
        points: vec![Point { x: 0, y: -1 }, Point { x: 30, y: -1 }, Point { x: 50, y: 8 }, Point { x: 80, y: 8 }],
    });
    let ss = decompose(&g, Circle { mx: 40, my: 35, r: 30 }, 20).unwrap();
    assert_eq!(ss[4], slice(3, 705, 25, 700, 0, 333, 933));
    assert_eq!(ss[3], slice(3, 594, 10, 577, 0, 233, 966));
    assert_eq!(bishop(&g, 40, 35, 30, cfg()), Ok(1821));
}

fn grid() -> SearchGrid {
    SearchGrid { x0: 35, y0: 35, r0: 30, dx: 5, dy: 5, dr: 5, nx: 3, ny: 2, nr: 2 }
}

#[test]
fn grid_lists_every_circle_radius_fastest() {
    let cs = grid_circles(grid());
    assert_eq!(cs.len(), 12);
    assert_eq!(cs[0], Circle { mx: 35, my: 35, r: 30 });
    assert_eq!(cs[1], Circle { mx: 35, my: 35, r: 35 });
    assert_eq!(cs[2], Circle { mx: 35, my: 40, r: 30 });
    assert_eq!(cs[11], Circle { mx: 45, my: 40, r: 35 });
}

#[test]
fn grid_search_finds_critical_circle() {
    let best = search(&slope(10), grid(), cfg()).unwrap();
    assert_eq!(best, Critical { circle: Circle { mx: 35, my: 35, r: 30 }, factor: 1371, failed: 0 });
    let mut bad = grid();
    bad.dr = -30;
    assert_eq!(search(&slope(10), bad, cfg()), Err(SearchError::InputInvalid));
}

#[test]
fn crossing_layers_are_rejected() {
    let g = Geometry {
        layers: vec![
            Layer { y_dry: 18, y_sat: 20, c: 10, tan_phi: 577, points: vec![Point { x: 0, y: 0 }, Point { x: 10, y: 0 }] },
            Layer { y_dry: 18, y_sat: 20, c: 10, tan_phi: 577, points: vec![Point { x: 0, y: -5 }, Point { x: 10, y: 5 }] },
        ],
        water: vec![],
    };
    assert!(!g.is_valid());
    let mut ok = g.clone();
    ok.layers[1].points = vec![Point { x: 0, y: -5 }, Point { x: 10, y: 0 }];
    assert!(ok.is_valid());
}

#[test]
fn circle_touching_ground_at_one_vertex_is_degenerate() {
    let g = Geometry {
        layers: vec![Layer {
            y_dry: 18,
            y_sat: 20,
            c: 10,
            tan_phi: 577,
            points: vec![Point { x: 0, y: 10 }, Point { x: 10, y: 0 }, Point { x: 20, y: 10 }],
        }],
        water: vec![],
    };
    assert!(g.is_valid());
    let one = SolverConfig { slices: 1, tol: 1, max_iter: 100 };
    assert_eq!(bishop(&g, 10, -5, 5, one), Err(TrialError::GeometryDegenerate));
    assert_eq!(bishop(&g, 10, -5, 5, cfg()), Err(TrialError::GeometryDegenerate));
}

#[test]
fn grid_search_counts_failures() {
    let mut g = grid();
    g.y0 = 60;
    g.r0 = 5;
    g.dr = 45;
    let best = search(&slope(10), g, cfg()).unwrap();
    assert_eq!(best.failed, 6);
}

#[test]
fn slope_facing_the_other_way_is_solved_in_mirror() {
    let points = vec![
        Point { x: 0, y: 20 },
        Point { x: 30, y: 20 },
        Point { x: 50, y: 0 },
        Point { x: 80, y: 0 },
    ];
    let g = Geometry { layers: vec![Layer { y_dry: 18, y_sat: 20, c: 10, tan_phi: 577, points }], water: vec![] };
    assert_eq!(bishop(&g, 40, 35, 30, cfg()), Ok(1723));
}

#[test]
fn slices_cover_the_whole_span() {
    let ss = decompose(&slope(10), Circle { mx: 40, my: 35, r: 30 }, 7).unwrap();
    assert_eq!(ss.len(), 3);
    assert_eq!(ss[0], slice(9, 810, 10, 577, 0, 33, 966));
    assert_eq!(ss[2], slice(9, 1296, 10, 577, 0, 633, 766));
    let seven = SolverConfig { slices: 7, tol: 1, max_iter: 100 };
    assert_eq!(bishop(&slope(10), 40, 35, 30, seven), Ok(1729));
    let small = decompose(&slope(10), Circle { mx: 45, my: 18, r: 4 }, 20);
    assert!(small != Err(TrialError::InputInvalid));
}
