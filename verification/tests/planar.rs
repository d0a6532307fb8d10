use std::cmp::Ordering;

use caso_meshing::edits::{
    apply_flip, apply_merge, apply_split_quad, merge_quad, QuadCuts, QuadShape,
};
use caso_meshing::marching::{clipped_polygon, dedup_polygon, ordered_lattice, Sample};
use caso_meshing::number::Real;
use caso_meshing::quadtree::{Lattice, Leaf};
use caso_meshing::score::{action_budget, compare_scores, Action, PatchScore};
use caso_meshing::sorted::SortedSet;
use caso_meshing::topology::{Candidate, Cell, Point, PointKey};

fn num(value: f64) -> Real {
    Real { bits: value.to_bits() }
}

fn sample(index: u64, sdf: f64) -> Sample {
    Sample {
        key: Lattice { x: index, y: 0 },
        uv: [num(index as f64), num(0.0)],
        world: [num(index as f64), num(0.0), num(0.0)],
        sdf: num(sdf),
    }
}

fn point(uv: [f64; 2]) -> Point {
    Point {
        uv: [num(uv[0]), num(uv[1])],
        world: [num(uv[0]), num(uv[1]), num(0.0)],
        boundary: false,
        protected: false,
    }
}

fn crossing(a: &Sample, b: &Sample) -> PointKey {
    if a.is_on_boundary() {
        PointKey::Lattice(a.key)
    } else if b.is_on_boundary() {
        PointKey::Lattice(b.key)
    } else {
        let edge = ordered_lattice(a.key, b.key);
        PointKey::Crossing(edge.0, edge.1)
    }
}

fn crossings(samples: &[Sample; 3]) -> [PointKey; 3] {
    [
        crossing(&samples[0], &samples[1]),
        crossing(&samples[1], &samples[2]),
        crossing(&samples[2], &samples[0]),
    ]
}

const LEAF: Leaf = Leaf { level: 0, x: 0, y: 0 };

fn signed_area(a: [f64; 2], b: [f64; 2], c: [f64; 2]) -> f64 {
    0.5 * ((b[0] - a[0]) * (c[1] - a[1]) - (b[1] - a[1]) * (c[0] - a[0]))
}

fn uv_of(candidate: &Candidate, key: PointKey) -> [f64; 2] {
    let point = candidate.points.get(&key).expect("known point");
    [f64::from_bits(point.uv[0].bits), f64::from_bits(point.uv[1].bits)]
}

/// Whether the quad of the first two cells over the edge of two points is
/// clockwise.
fn merged_clockwise(candidate: &Candidate, a: PointKey, b: PointKey) -> bool {
    let quad = merge_quad(candidate, 0, 1, a, b).expect("two triangles share the edge");
    let spots = quad.map(|key| uv_of(candidate, key));
    signed_area(spots[0], spots[1], spots[2]) + signed_area(spots[0], spots[2], spots[3]) < 0.0
}

fn clockwise(candidate: &Candidate, keys: [PointKey; 3]) -> bool {
    signed_area(
        uv_of(candidate, keys[0]),
        uv_of(candidate, keys[1]),
        uv_of(candidate, keys[2]),
    ) < 0.0
}

#[test]
fn marching_triangles_cover_all_sign_masks_and_zero_vertices() {
    let expected = [0, 3, 3, 4, 3, 4, 4, 3];
    for mask in 0u8..8 {
        let samples: [Sample; 3] = std::array::from_fn(|index| {
            sample(
                index as u64,
                if mask & (1 << index) != 0 { -1.0 } else { 1.0 },
            )
        });
        let polygon = clipped_polygon(&samples, crossings(&samples));
        assert_eq!(
            dedup_polygon(&polygon).len(),
            expected[mask as usize],
            "mask {mask:03b}"
        );
    }

    let samples = [sample(0, 0.0), sample(1, 1.0), sample(2, -1.0)];
    let polygon = clipped_polygon(&samples, crossings(&samples));
    assert_eq!(dedup_polygon(&polygon).len(), 3);
}

#[test]
fn common_score_and_action_ties_are_deterministic() {
    let baseline = PatchScore {
        hard_invalid: 0,
        unmet_targets: 2,
        worst_violation: num(0.5),
        worst_quality: num(0.2),
        mean_squared_log_size_error: num(0.4),
        quad_count: 0,
        triangle_count: 4,
        cell_count: 4,
    };
    let improved = PatchScore {
        unmet_targets: 1,
        worst_quality: num(0.1),
        ..baseline
    };
    assert_eq!(compare_scores(&improved, &baseline), Ordering::Less);

    let a = PointKey::Inserted(1);
    let b = PointKey::Inserted(2);
    let mut actions = SortedSet::new();
    for action in [
        Action::Split(a, b),
        Action::Flip(a, b),
        Action::RelocateInterior(a, 0),
    ] {
        actions.insert(action);
    }
    assert_eq!(actions.items.first(), Some(&Action::Flip(a, b)));
    assert_eq!(action_budget(1, 1), 32);
    assert_eq!(action_budget(10_000, u64::MAX), 64);
}

#[test]
fn invalid_trials_leave_the_seed_connectivity_unchanged() {
    let a = PointKey::Inserted(1);
    let b = PointKey::Inserted(2);
    let c = PointKey::Inserted(3);
    let mut trial = Candidate::new();
    trial.points.insert(a, point([0.0, 0.0]));
    trial.points.insert(b, point([1.0, 0.0]));
    trial.points.insert(c, point([0.0, 1.0]));
    trial.cells.push(Cell::triangle([a, b, c], LEAF));
    trial.next_inserted = 4;
    let original = trial.cells[0].points.clone();
    assert!(!apply_flip(&mut trial, a, b, [false, false]));
    assert_eq!(trial.cells[0].points, original);
}

fn unit_square() -> (Candidate, [PointKey; 4]) {
    let keys = [
        PointKey::Inserted(1),
        PointKey::Inserted(2),
        PointKey::Inserted(3),
        PointKey::Inserted(4),
    ];
    let mut candidate = Candidate::new();
    for (index, uv) in [[0.0, 0.0], [1.0, 0.0], [1.0, 1.0], [0.0, 1.0]].into_iter().enumerate() {
        candidate.points.insert(keys[index], point(uv));
    }
    candidate.cells.push(Cell::triangle([keys[0], keys[1], keys[2]], LEAF));
    candidate.cells.push(Cell::triangle([keys[0], keys[2], keys[3]], LEAF));
    candidate.next_inserted = 5;
    (candidate, keys)
}

/// The shape of the square that the two triangles make: a perfect quad, of which
/// each triangle has the Scaled Jacobian of a right isosceles triangle.
fn square_shape(clockwise: bool) -> QuadShape {
    QuadShape {
        clockwise,
        strictly_convex: true,
        self_intersecting: false,
        quality: num(1.0),
        quality_with_slack: num(1.0 + 1.0e-12),
        triangle_quality: num(0.816_496_580_927_726),
    }
}

#[test]
fn adjacent_triangles_merge_and_poor_quads_split_deterministically() {
    let (mut candidate, keys) = unit_square();
    let shape = square_shape(merged_clockwise(&candidate, keys[0], keys[2]));
    assert!(apply_merge(&mut candidate, keys[0], keys[2], &shape));
    assert_eq!(candidate.cells.len(), 1);
    assert_eq!(candidate.cells[0].points.len(), 4);
    let quad = candidate.cells[0].points.clone();
    let cuts = QuadCuts {
        clockwise: [
            clockwise(&candidate, [quad[0], quad[1], quad[2]]),
            clockwise(&candidate, [quad[0], quad[2], quad[3]]),
            clockwise(&candidate, [quad[0], quad[1], quad[3]]),
            clockwise(&candidate, [quad[1], quad[2], quad[3]]),
        ],
        first_quality: num(0.816_496_580_927_726),
        second_quality: num(0.816_496_580_927_726),
    };
    assert!(apply_split_quad(&mut candidate, 0, &cuts));
    assert_eq!(
        candidate
            .cells
            .iter()
            .map(|cell| cell.points.len())
            .collect::<Vec<_>>(),
        [3, 3]
    );

    candidate
        .cells
        .push(Cell::triangle([keys[0], keys[2], keys[1]], LEAF));
    let before = candidate
        .cells
        .iter()
        .map(|cell| cell.points.clone())
        .collect::<Vec<_>>();
    let shape = square_shape(merged_clockwise(&candidate, keys[0], keys[2]));
    assert!(!apply_merge(&mut candidate, keys[0], keys[2], &shape));
    assert_eq!(
        candidate
            .cells
            .iter()
            .map(|cell| cell.points.clone())
            .collect::<Vec<_>>(),
        before
    );
}

#[test]
fn split_quads_are_not_clockwise() {
    let (mut candidate, keys) = unit_square();
    let shape = square_shape(merged_clockwise(&candidate, keys[0], keys[2]));
    assert!(apply_merge(&mut candidate, keys[0], keys[2], &shape));
    let quad = candidate.cells[0].points.clone();
    let cuts = QuadCuts {
        clockwise: [
            clockwise(&candidate, [quad[0], quad[1], quad[2]]),
            clockwise(&candidate, [quad[0], quad[2], quad[3]]),
            clockwise(&candidate, [quad[0], quad[1], quad[3]]),
            clockwise(&candidate, [quad[1], quad[2], quad[3]]),
        ],
        first_quality: num(0.5),
        second_quality: num(0.75),
    };
    assert!(apply_split_quad(&mut candidate, 0, &cuts));
    for cell in &candidate.cells {
        assert!(!clockwise(&candidate, [cell.points[0], cell.points[1], cell.points[2]]));
    }
}

#[test]
fn flipping_twice_gives_back_the_triangles() {
    let (mut candidate, keys) = unit_square();
    assert!(apply_flip(&mut candidate, keys[0], keys[2], [false, false]));
    let turned = |candidate: &Candidate| {
        let mut cells = candidate
            .cells
            .iter()
            .map(|cell| {
                let mut points = cell
                    .points
                    .iter()
                    .map(|key| match key {
                        PointKey::Inserted(number) => *number,
                        _ => 0,
                    })
                    .collect::<Vec<_>>();
                points.sort_unstable();
                points
            })
            .collect::<Vec<_>>();
        cells.sort();
        cells
    };
    assert_eq!(turned(&candidate), [vec![1, 2, 4], vec![2, 3, 4]]);
    assert!(apply_flip(&mut candidate, keys[1], keys[3], [false, false]));
    assert_eq!(turned(&candidate), [vec![1, 2, 3], vec![1, 3, 4]]);
}
