//! Layers: strips, caps, cores, interfaces and the run of a domain.

use caso_meshing::algorithm::QualityTermination;
use caso_meshing::assess::BoundaryEdge;
use caso_meshing::canonical::{merge_boundary_points, Merging};
use caso_meshing::caps::{
    cap_seed_quality_is_better, replace_by_chain, CapComparison, SeedOutcome, SeedSearch, SeedStep,
    SeedTrial,
};
use caso_meshing::cores::{
    after_core, core_constraints, estimated_optimization_bytes, first_way, CoreOutcome, CoreStep,
    CoreWay,
};
use caso_meshing::crossings::{cell_edges, pairs_to_test, sort_boxes, EdgeBox};
use caso_meshing::error::MeshError;
use caso_meshing::generation::{
    after_optional, refine_all, transition_step, DomainRun, OptionalStep, RefineStep, Stage,
    TransitionStep,
};
use caso_meshing::graph::{validate_mesh, AreaTexts, FinalMeasure, MeshFault};
use caso_meshing::interfaces::{
    capture_shared_interfaces, install_segments, protect_ends, InterfaceHits, SharedInterface,
};
use caso_meshing::laying::{lay_groups, GroupPlan};
use caso_meshing::number::Real;
use caso_meshing::quadtree::Leaf;
use caso_meshing::resampling::{
    choose_stations, divide_contour, join_stations, station_counts, Division, StationScore,
};
use caso_meshing::retriangulation::{
    boundary_constraints, fault_error, outline, triangulation_input, validate_constraint_graph,
    TriangulationFault,
};
use caso_meshing::smoothing::{after_pass, is_good_enough, neighborhood, SmoothPass, SmoothStep};
use caso_meshing::sorted::{SortedMap, SortedSet};
use caso_meshing::strips::{name_columns, strip_constraints, strip_side};
use caso_meshing::topology::{ordered_pair, Candidate, Cell, EdgeKey, Point, PointKey};
use caso_meshing::volume::{triangulate_polygon, unique_polygons};
use caso_meshing::transitions::{plan_transition, split_at_transition, SplitMeasure};

fn num(value: f64) -> Real {
    Real { bits: value.to_bits() }
}

fn key(id: u64) -> PointKey {
    PointKey::Inserted(id)
}

fn edge(a: u64, b: u64) -> EdgeKey {
    ordered_pair(key(a), key(b))
}

fn point(x: f64, y: f64) -> Point {
    Point {
        uv: [num(x), num(y)],
        world: [num(x), num(y), num(0.0)],
        boundary: false,
        protected: false,
    }
}

const LEAF: Leaf = Leaf { level: 0, x: 0, y: 0 };

fn cell(ids: &[u64]) -> Cell {
    Cell { points: ids.iter().map(|id| key(*id)).collect(), leaf: LEAF, protected: false }
}

fn boundary(a: u64, b: u64) -> BoundaryEdge {
    BoundaryEdge { points: [key(a), key(b)], cell: 0, owner: None }
}

fn square_points() -> SortedMap<PointKey, Point> {
    let mut points = SortedMap::new();
    points.insert(key(0), point(0.0, 0.0));
    points.insert(key(1), point(1.0, 0.0));
    points.insert(key(2), point(1.0, 1.0));
    points.insert(key(3), point(0.0, 1.0));
    points
}

fn square() -> Candidate {
    Candidate {
        points: square_points(),
        cells: vec![cell(&[0, 1, 2]), cell(&[0, 2, 3])],
        construction_failures: SortedSet::new(),
        next_inserted: 4,
        layer_edge_targets: SortedMap::new(),
    }
}

#[test]
fn columns_get_names_of_their_own() {
    let columns = name_columns(&vec![key(0), key(1)], 2, 10);
    assert_eq!(columns[0], vec![key(0), key(10), key(11)]);
    assert_eq!(columns[1], vec![key(1), key(12), key(13)]);
    let side = strip_side(&columns[0], &columns[1], &vec![false, true]);
    assert_eq!(side.quads[0], [key(0), key(1), key(12), key(10)]);
    assert_eq!(side.quads[1], [key(11), key(13), key(12), key(10)]);
    assert_eq!(side.front, [key(11), key(13)]);
    let constraints = strip_constraints(&side.quads, &vec![]);
    assert_eq!(constraints.items.len(), 7);
    assert!(constraints.contains(&edge(10, 12)));
}

#[test]
fn seed_chains_are_shortened_until_one_fits() {
    let mut search = SeedSearch::new(false);
    assert_eq!(search.next(), SeedStep::Chain(0));
    search.chain(2);
    assert_eq!(search.next(), SeedStep::Try(SeedTrial { scale: 0, length: 2 }));
    search.settle(SeedOutcome::Unfit, false);
    search.settle(SeedOutcome::Refused, false);
    assert_eq!(search.next(), SeedStep::Chain(1));
    search.chain(3);
    search.settle(SeedOutcome::Fit, false);
    assert_eq!(search.next(), SeedStep::Done(Some(SeedTrial { scale: 1, length: 3 })));
}

#[test]
fn every_size_is_tried_beside_the_boundary() {
    let mut search = SeedSearch::new(true);
    for scale in 0..4 {
        assert_eq!(search.next(), SeedStep::Chain(scale));
        search.chain(1);
        search.settle(SeedOutcome::Fit, scale == 2);
    }
    assert_eq!(search.next(), SeedStep::Done(Some(SeedTrial { scale: 2, length: 1 })));
}

#[test]
fn caps_are_compared_by_target_then_worst_then_average() {
    let level = CapComparison {
        reaches_target: true,
        reached_target: true,
        better_worst: false,
        equal_worst: true,
        better_average: true,
    };
    assert!(cap_seed_quality_is_better(level));
    assert!(!cap_seed_quality_is_better(CapComparison { better_average: false, ..level }));
    assert!(!cap_seed_quality_is_better(CapComparison { reaches_target: false, ..level }));
    assert!(cap_seed_quality_is_better(CapComparison {
        reached_target: false,
        better_average: false,
        ..level
    }));
}

#[test]
fn chains_replace_an_edge() {
    let mut constraints = SortedSet::new();
    constraints.insert(edge(0, 1));
    let mut targets = SortedMap::new();
    targets.insert(edge(0, 1), num(0.5));
    let chain = vec![key(0), key(8), key(1)];
    replace_by_chain(&mut constraints, &mut targets, edge(0, 1), &chain);
    assert_eq!(constraints.items, vec![edge(0, 8), edge(1, 8)]);
    assert!(!targets.contains_key(&edge(0, 1)));
}

#[test]
fn constraints_must_have_two_known_ends() {
    let points = square_points();
    let mut constraints = SortedSet::new();
    constraints.insert(edge(0, 1));
    assert!(validate_constraint_graph("air", &points, &constraints).is_ok());
    constraints.insert(edge(1, 9));
    assert!(validate_constraint_graph("air", &points, &constraints).is_err());
}

fn area_texts() -> AreaTexts {
    let shown = |text: &str| text.to_string();
    AreaTexts {
        cells: shown("4.0e0"),
        boundary: shown("3.0e0"),
        residual: shown("1.0e0"),
        tolerance: shown("1.0e-8"),
    }
}

#[test]
fn a_final_mesh_must_close_to_its_boundary() {
    let cells = square().cells;
    let count = cells.len();
    let measure = |residual: f64, tolerance: f64| FinalMeasure {
        crossed: false,
        areas: vec![(num(1.0), num(1.0e-9)); count],
        residual: num(residual),
        tolerance: num(tolerance),
    };
    let none = SortedSet::new();
    assert_eq!(validate_mesh(&cells, &none, true, &measure(0.5, 0.5)), None);
    let fault = validate_mesh(&cells, &none, true, &measure(1.0, 0.5)).unwrap();
    assert_eq!(fault, MeshFault::OpenArea);
    let error = fault.error("air", &area_texts());
    assert!(matches!(error, MeshError::InvalidInput(_)));
    assert_eq!(
        error.message(),
        "domain \"air\" final 2D mesh audit failed: does not close to the area of its boundary \
         cycles (cells=4.0e0, boundary=3.0e0, residual=1.0e0, tolerance=1.0e-8)"
    );
    assert_eq!(validate_mesh(&cells, &none, false, &measure(0.0, 0.5)), Some(MeshFault::Invalid));
    assert_eq!(
        MeshFault::Invalid.error("air", &area_texts()).message(),
        "domain \"air\" final 2D mesh audit failed: is not topology-valid"
    );
}

#[test]
fn the_triangulation_gets_every_spot_once() {
    let mut points = square_points();
    points.insert(key(7), point(1.0, 1.0));
    let mut constraints = SortedSet::new();
    constraints.insert(edge(0, 1));
    let input = triangulation_input("air", &points, &constraints).unwrap();
    assert_eq!(input.keys, vec![key(0), key(1), key(2), key(3)]);
    assert_eq!(input.segments, vec![[0, 1]]);
}

#[test]
fn triangulation_faults_become_errors() {
    assert!(matches!(
        fault_error("air", TriangulationFault::Cancelled),
        (MeshError::Cancelled, None)
    ));
    let (error, _) = fault_error("air", TriangulationFault::Refused("bad".to_string()));
    assert!(matches!(error, MeshError::InvalidInput(_)));
    assert!(error.message().contains("bad"));
}

#[test]
fn the_outline_is_what_one_cell_has() {
    let sides = outline(&square().cells);
    assert_eq!(sides.items, vec![edge(0, 1), edge(0, 3), edge(1, 2), edge(2, 3)]);
    let mut points = square_points();
    for id in [0, 1] {
        let kept = *points.get(&key(id)).unwrap();
        points.remove(&key(id));
        points.insert(key(id), Point { boundary: true, ..kept });
    }
    assert_eq!(boundary_constraints(&points, &sides), vec![edge(0, 1)]);
}

#[test]
fn edges_are_tested_only_where_boxes_meet() {
    let edges = cell_edges(&square().cells);
    assert_eq!(edges.len(), 5);
    let span = |a: u64, b: u64, low: [f64; 2], high: [f64; 2]| EdgeBox {
        edge: edge(a, b),
        layer: false,
        low: [num(low[0]), num(low[1])],
        high: [num(high[0]), num(high[1])],
    };
    let boxes = sort_boxes(&vec![
        span(4, 5, [5.0, 0.0], [6.0, 1.0]),
        span(0, 1, [0.0, 0.0], [1.0, 1.0]),
        span(2, 3, [0.5, 0.5], [2.0, 2.0]),
    ]);
    assert_eq!(boxes[0].edge, edge(0, 1));
    assert_eq!(pairs_to_test(&boxes, false), vec![(0, 1)]);
    assert!(pairs_to_test(&boxes, true).is_empty());
}

#[test]
fn shared_interfaces_are_captured_and_installed() {
    let mut points = square_points();
    let outer = vec![boundary(0, 1), boundary(1, 2)];
    protect_ends(&mut points, &outer, &vec![true, false]);
    assert!(points.get(&key(0)).unwrap().protected);
    assert!(!points.get(&key(2)).unwrap().protected);
    let mut shared: Vec<SharedInterface> = Vec::new();
    let hits = InterfaceHits {
        domain_a: "air".to_string(),
        domain_b: "solid".to_string(),
        hits: vec![true, false],
    };
    capture_shared_interfaces("air", &vec![hits], &points, &outer, &mut shared);
    assert_eq!(shared.len(), 1);
    assert_eq!((shared[0].source.as_str(), shared[0].target.as_str()), ("air", "solid"));
    let segments = shared[0].segments.clone();
    assert_eq!(segments.len(), 1);
    let mut fresh: SortedMap<PointKey, Point> = SortedMap::new();
    let mut vertices: SortedSet<PointKey> = SortedSet::new();
    let mut edges: Vec<BoundaryEdge> = Vec::new();
    let mut next = 20;
    let spots = vec![[num(0.0), num(0.0)], [num(1.0), num(0.0)]];
    install_segments(&mut fresh, &mut next, &mut vertices, &mut edges, &segments, &spots);
    assert_eq!(next, 22);
    assert_eq!(edges[0].points, [key(20), key(21)]);
    assert_eq!(fresh.get(&key(21)).unwrap().world, [num(1.0), num(0.0), num(0.0)]);
}

#[test]
fn near_points_share_a_bucket() {
    let mut merging = Merging::new();
    merging.settle(key(4), (0, (0, 0)), None);
    assert_eq!(merging.near((1, (1, -1))), vec![key(4)]);
    assert!(merging.near((2, (0, 0))).is_empty());
    merging.settle(key(9), (1, (0, 0)), Some(key(4)));
    assert_eq!(merging.aliases.get(&key(9)), Some(&key(4)));
}

#[test]
fn merged_points_take_their_alias() {
    let mut candidate = square();
    candidate.points.insert(key(5), point(1.0, 1.0));
    candidate.cells[1] = cell(&[0, 5, 3]);
    let mut aliases = SortedMap::new();
    aliases.insert(key(5), key(2));
    assert!(merge_boundary_points("air", &mut candidate, &aliases).unwrap());
    assert_eq!(candidate.cells[1].points, vec![key(0), key(2), key(3)]);
    assert!(!candidate.points.contains_key(&key(5)));
    let mut collapsing = SortedMap::new();
    collapsing.insert(key(2), key(1));
    assert!(merge_boundary_points("air", &mut candidate, &collapsing).is_err());
}

#[test]
fn cores_are_retried_once() {
    assert_eq!(estimated_optimization_bytes(1, 1), 576);
    assert_eq!(first_way(100), (CoreWay::Graded, None));
    assert_eq!(
        first_way(usize::MAX),
        (CoreWay::Plain, Some(QualityTermination::MemoryBudget))
    );
    assert!(matches!(after_core(CoreWay::Graded, CoreOutcome::Cells(5), 5), CoreStep::Take));
    assert!(matches!(
        after_core(CoreWay::Graded, CoreOutcome::Cells(6), 5),
        CoreStep::Retry(Some(QualityTermination::MaxCells))
    ));
    assert!(matches!(
        after_core(CoreWay::Plain, CoreOutcome::Cells(6), 5),
        CoreStep::Fail(MeshError::LimitExceeded(_))
    ));
    let refused = CoreOutcome::Failed(MeshError::invalid_input("no"));
    assert!(matches!(after_core(CoreWay::Graded, refused, 5), CoreStep::Retry(None)));
    let mut controlled = SortedSet::new();
    controlled.insert(edge(0, 1));
    let mut strip = SortedSet::new();
    strip.insert(edge(8, 9));
    let kept = core_constraints(&vec![boundary(0, 1), boundary(1, 2)], &controlled, &strip);
    assert_eq!(kept.items, vec![edge(1, 2), edge(8, 9)]);
}

#[test]
fn transitions_split_the_triangle_beside_them() {
    let mut candidate = square();
    assert_eq!(plan_transition(&candidate, key(0), key(1)), Some((0, key(2))));
    assert_eq!(plan_transition(&candidate, key(0), key(2)), None);
    let measure = SplitMeasure { clockwise: [false, false], flat: [false, false] };
    assert!(split_at_transition(
        &mut candidate,
        key(0),
        key(1),
        point(0.5, 0.0),
        measure,
        100
    ));
    assert_eq!(candidate.cells.len(), 3);
    assert!(candidate.points.get(&key(4)).unwrap().protected);
    let flat = SplitMeasure { clockwise: [false, false], flat: [true, false] };
    assert!(!split_at_transition(&mut candidate, key(2), key(3), point(0.5, 1.0), flat, 100));
    assert_eq!(candidate.cells.len(), 3);
}

#[test]
fn contours_are_divided_at_fixed_points() {
    let vertices = vec![key(0), key(1), key(2), key(3)];
    match divide_contour(&vertices, &vec![false; 4], true) {
        Division::Cycle(cycle) => assert_eq!(cycle, vec![key(0), key(1), key(2), key(3), key(0)]),
        Division::Arcs(_) => panic!("nothing is fixed"),
    }
    match divide_contour(&vertices, &vec![false, true, false, false], true) {
        Division::Arcs(arcs) => {
            assert_eq!(arcs, vec![vec![key(1), key(2), key(3), key(0), key(1)]])
        }
        Division::Cycle(_) => panic!("a point is fixed"),
    }
    match divide_contour(&vertices, &vec![false, false, true, false], false) {
        Division::Arcs(arcs) => {
            assert_eq!(arcs, vec![vec![key(0), key(1), key(2)], vec![key(2), key(3)]])
        }
        Division::Cycle(_) => panic!("the contour is open"),
    }
}

#[test]
fn stations_are_chosen_by_shape() {
    assert_eq!(station_counts(5, 2), vec![5, 4, 6, 3, 7]);
    assert_eq!(station_counts(1, 1), vec![1, 2, 3]);
    let score = |skewness: f64, error: f64| StationScore {
        worst_skewness: num(skewness),
        minimum_scaled_jacobian: num(0.9),
        size_error: num(error),
        edges: 4,
    };
    let tries = vec![None, Some(score(0.4, 0.0)), Some(score(0.1, 0.5))];
    assert_eq!(choose_stations(&tries), Some(2));
    assert_eq!(choose_stations(&vec![None]), None);
    let mut targets = SortedMap::new();
    let mut edges = Vec::new();
    join_stations(&mut targets, &mut edges, &vec![key(0), key(1), key(2)], true, num(0.5), &None);
    assert_eq!(edges.len(), 3);
    assert_eq!(targets.get(&edge(0, 2)), Some(&num(0.5)));
}

#[test]
fn refinement_stops_at_the_greatest_depth() {
    let mut wanted = SortedSet::new();
    assert!(matches!(refine_all(&wanted, 3), RefineStep::Take));
    wanted.insert(Leaf { level: 3, x: 0, y: 0 });
    assert!(matches!(refine_all(&wanted, 3), RefineStep::Stuck));
    assert!(matches!(refine_all(&wanted, 4), RefineStep::Refine(_)));
    assert!(matches!(after_optional(Ok(())), OptionalStep::Keep));
    assert!(matches!(
        after_optional(Err(MeshError::Cancelled)),
        OptionalStep::Fail(MeshError::Cancelled)
    ));
    assert!(matches!(
        after_optional(Err(MeshError::invalid_input("no"))),
        OptionalStep::Restore
    ));
    assert!(matches!(transition_step(0, false), TransitionStep::Done));
    assert!(matches!(transition_step(0, true), TransitionStep::Split));
    assert!(matches!(transition_step(128, true), TransitionStep::GiveUp));
}

#[test]
fn a_domain_runs_to_its_end() {
    let mut run = DomainRun::new(true);
    let mut stages = Vec::new();
    while run.stage != Stage::Finished && run.stage != Stage::Failed {
        stages.push(run.stage);
        let well = run.stage != Stage::Gates;
        run.advance(well);
    }
    assert_eq!(run.stage, Stage::Finished);
    assert_eq!(stages.iter().filter(|stage| **stage == Stage::GrowLayers).count(), 2);
    assert!(stages.contains(&Stage::Validate));
    let mut broken = DomainRun::new(false);
    broken.advance(true);
    broken.advance(true);
    broken.advance(false);
    broken.advance(false);
    assert_eq!(broken.stage, Stage::Failed);
}

#[test]
fn smoothing_looks_at_each_vertex() {
    let around = neighborhood(&vec![[0, 1, 2, 3], [1, 2, 3, 4]], 0);
    assert_eq!(around.cells, vec![0]);
    assert_eq!(around.neighbors.items, vec![1, 2, 3]);
    let mut pass = SmoothPass::new(2);
    assert_eq!(pass.next(), SmoothStep::Look(0));
    pass.pass_over();
    assert!(pass.may_try());
    pass.settle(true);
    assert_eq!(pass.next(), SmoothStep::Over(true));
    assert_eq!(after_pass(0, false), Some(QualityTermination::Converged));
    assert_eq!(after_pass(0, true), None);
    assert_eq!(after_pass(3, true), Some(QualityTermination::IterationLimit));
    assert!(!is_good_enough(num(0.0), num(0.0)));
    assert!(is_good_enough(num(1.0), num(0.0)));
}

#[test]
fn rows_of_all_groups_are_laid_behind_the_core() {
    let keys: Vec<PointKey> = (0..6).map(PointKey::Inserted).collect();
    let mut candidate = Candidate::new();
    for key in &keys {
        let place = match key {
            PointKey::Inserted(n) => *n as f64,
            _ => 0.0,
        };
        let point = Point {
            uv: [num(place), num(0.0)],
            world: [num(place), num(0.0), num(0.0)],
            boundary: true,
            protected: true,
        };
        candidate.points.insert(*key, point);
    }
    let leaf = Leaf { level: 0, x: 0, y: 0 };
    candidate.cells.push(Cell::triangle([keys[0], keys[1], keys[2]], leaf));
    let boundary = vec![
        BoundaryEdge { points: [keys[0], keys[1]], cell: 0, owner: None },
        BoundaryEdge { points: [keys[1], keys[2]], cell: 0, owner: None },
    ];
    let columns = |pairs: [(PointKey, PointKey); 2]| {
        let mut map = SortedMap::new();
        for (wall, inner) in pairs {
            map.insert(wall, vec![wall, inner]);
        }
        map
    };
    let plan = |edge: usize, pairs: [(PointKey, PointKey); 2], turned: bool| GroupPlan {
        edges: vec![edge],
        layers: 1,
        columns: columns(pairs),
        turned: vec![vec![turned]],
    };
    let first = [(keys[0], keys[3]), (keys[1], keys[4])];
    let second = [(keys[1], keys[4]), (keys[2], keys[2])];
    let plans = vec![plan(0, first, false), plan(1, second, true)];
    lay_groups("sea", &mut candidate, &boundary, &plans).unwrap();
    assert_eq!(candidate.cells.len(), 3);
    assert_eq!(candidate.cells[1].points, vec![keys[0], keys[1], keys[4], keys[3]]);
    assert!(candidate.cells[1].protected);
    assert_eq!(candidate.cells[2].points, vec![keys[4], keys[2], keys[1]]);
    let flat = [(keys[0], keys[0]), (keys[1], keys[1])];
    let error = lay_groups("sea", &mut candidate, &boundary, &vec![plan(0, flat, false)]);
    assert!(error.unwrap_err().message().contains("collapsed at an open-patch endpoint"));
    assert_eq!(candidate.cells.len(), 3);
}

#[test]
fn far_points_have_fewer_boxes_around_them() {
    let mut merging = Merging::new();
    let edge = (i64::MAX, (0, i64::MIN));
    merging.settle(PointKey::Inserted(1), edge, None);
    assert_eq!(merging.near(edge), vec![PointKey::Inserted(1)]);
    assert_eq!(merging.near((i64::MAX - 1, (1, i64::MIN))), vec![PointKey::Inserted(1)]);
    assert!(merging.near((i64::MIN, (0, i64::MIN))).is_empty());
}

#[test]
fn a_polygon_fans_out_from_its_smallest_corner() {
    let wanted = vec![[3, 9, 5], [3, 5, 7]];
    for list in [[7, 3, 9, 5], [3, 9, 5, 7], [9, 5, 7, 3], [5, 7, 3, 9]] {
        assert_eq!(triangulate_polygon(&list.to_vec()), wanted);
    }
    assert_eq!(
        triangulate_polygon(&vec![4, 8, 6, 2, 9]),
        vec![[2, 9, 4], [2, 4, 8], [2, 8, 6]]
    );
}

#[test]
fn polygons_with_the_same_corners_are_kept_once() {
    let polygons =
        vec![vec![7, 3, 9], vec![1, 2, 8, 4, 6], vec![9, 7, 3], vec![3, 9, 7, 5], vec![1, 2, 8]];
    assert_eq!(
        unique_polygons(&polygons),
        vec![vec![1, 2, 8, 4, 6], vec![1, 2, 8], vec![3, 9, 7, 5], vec![7, 3, 9]]
    );
}
