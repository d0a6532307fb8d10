//! Quadtrees, octrees, space-filling orders and background grids.

use caso_meshing::algorithm::JobControl;
use caso_meshing::background::{
    check_background, cube_vertices, freudenthal_tetrahedron, morton3, next_attempt, Attempt,
};
use caso_meshing::emission::{
    cells_per_chunk, check_active_bytes, chunk_count, number_points, point_users, tile_bytes,
};
use caso_meshing::number::Real;
use caso_meshing::octree;
use caso_meshing::ordering::{morton2, sort_cells_morton};
use caso_meshing::quadtree::{balance, classify, refine_leaves, Discovery, Grid, Lattice, Leaf, LeafIndex};
use caso_meshing::sorted::SortedSet;
use caso_meshing::topology::{Cell, PointKey};

fn num(value: f64) -> Real {
    Real { bits: value.to_bits() }
}

fn leaf(level: u8, x: u32, y: u32) -> Leaf {
    Leaf { level, x, y }
}

const GRID: Grid = Grid { columns: 2, rows: 1, max_depth: 3 };

#[test]
fn children_cover_their_parent() {
    let parent = leaf(1, 1, 0);
    let bounds = GRID.fine_bounds(parent);
    assert_eq!(bounds, [4, 8, 0, 4]);
    let mut covered = 0;
    for child in parent.children() {
        let part = GRID.fine_bounds(child);
        covered += (part[1] - part[0]) * (part[3] - part[2]);
        assert!(part[0] >= bounds[0] && part[1] <= bounds[1]);
    }
    assert_eq!(covered, 16);
    assert_eq!(GRID.center(parent), Lattice { x: 12, y: 4 });
}

#[test]
fn balancing_splits_next_to_fine_leaves() {
    let mut leaves = vec![leaf(0, 1, 0)];
    let mut fine = leaf(0, 0, 0);
    for _ in 0..3 {
        let children = fine.children();
        fine = children[1];
        for child in children {
            if child != fine {
                leaves.push(child);
            }
        }
    }
    leaves.push(fine);
    balance(&JobControl::new(), 1_000, GRID, &mut leaves).unwrap();
    let index = LeafIndex::new(GRID, &leaves);
    for each in &leaves {
        assert!(!index.needs_split(*each));
    }
    let area: u64 = leaves
        .iter()
        .map(|each| {
            let b = GRID.fine_bounds(*each);
            (b[1] - b[0]) * (b[3] - b[2])
        })
        .sum();
    assert_eq!(area, 128);
    let control = JobControl::new();
    control.cancel();
    assert!(balance(&control, 1_000, GRID, &mut leaves).is_err());
}

#[test]
fn refining_is_limited() {
    let mut leaves = vec![leaf(0, 0, 0), leaf(0, 1, 0)];
    let mut split = SortedSet::<Leaf>::new();
    split.insert(leaf(0, 0, 0));
    refine_leaves(1_000, &mut leaves, &split).unwrap();
    assert_eq!(leaves.len(), 5);
    let index = LeafIndex::new(GRID, &leaves);
    assert_eq!(index.owner(0, 0), Some(leaf(1, 0, 0)));
    assert_eq!(index.owner(9, 3), Some(leaf(0, 1, 0)));
    let sides = [0, 1, 2, 3];
    let finer = sides.iter().filter(|side| index.has_finer_neighbor(leaf(0, 1, 0), **side)).count();
    assert_eq!(finer, 1);
    assert_eq!(index.fan(leaf(1, 0, 0)).len(), 4);
}

#[test]
fn leaves_are_classified_by_their_samples() {
    let samples = vec![num(-1.0), num(2.0), num(-3.0), num(0.0)];
    let class = classify(&samples, num(-0.5), num(1e-9), num(1.0));
    assert_eq!((class.negative, class.positive), (2, 1));
    assert!(class.is_mixed());
    let inside = classify(&vec![num(-5.0); 4], num(-5.0), num(1e-9), num(1.0));
    assert!(!inside.is_mixed());
}

#[test]
fn discovery_visits_every_root() {
    let mut discovery = Discovery::new(GRID);
    let mut seen = 0;
    while let Some(found) = discovery.next() {
        seen += 1;
        let class = classify(&vec![num(-5.0); 4], num(-5.0), num(1e-9), num(1.0));
        discovery.settle(1_000, found, class, false).unwrap();
    }
    assert_eq!(seen, 2);
    assert_eq!(discovery.finish().len(), 2);
}

#[test]
fn octree_children_cover_their_parent() {
    let grid = octree::Grid { columns: 1, rows: 1, layers: 1, max_depth: 2 };
    let root = octree::Leaf { level: 0, x: 0, y: 0, z: 0 };
    let mut volume = 0;
    for child in root.children() {
        let b = grid.fine_bounds(child);
        volume += (b[1] - b[0]) * (b[3] - b[2]) * (b[5] - b[4]);
    }
    assert_eq!(volume, 64);
    let mut leaves = vec![root];
    let mut split = SortedSet::<octree::Leaf>::new();
    split.insert(root);
    octree::refine_leaves(1_000, &mut leaves, &split).unwrap();
    assert_eq!(leaves.len(), 8);
    let index = octree::LeafIndex::new(grid, &leaves);
    assert_eq!(index.owner(3, 0, 0), Some(octree::Leaf { level: 1, x: 1, y: 0, z: 0 }));
    assert!(octree::balance(&JobControl::new(), 1_000, grid, &mut leaves).is_ok());
    assert_eq!(leaves.len(), 8);
}

#[test]
fn morton_codes_interleave_bits() {
    assert_eq!(morton2(0b11, 0b01), 0b0111);
    assert_eq!(morton2(0, 1), 2);
    assert_eq!(morton3(1, 1, 1), 7);
    assert_eq!(morton3(0, 0, 2), 0b100_000);
}

#[test]
fn cells_are_sorted_along_the_curve() {
    let cell = |id: u64| Cell {
        points: vec![PointKey::Inserted(id)],
        leaf: leaf(0, 0, 0),
        protected: false,
    };
    let mut cells = vec![cell(0), cell(1), cell(2)];
    sort_cells_morton(&mut cells, &vec![[3, 3], [0, 0], [1, 0]]);
    let order: Vec<PointKey> = cells.iter().map(|cell| cell.points[0]).collect();
    assert_eq!(
        order,
        vec![PointKey::Inserted(1), PointKey::Inserted(2), PointKey::Inserted(0)]
    );
}

#[test]
fn cubes_split_into_six_tetrahedra() {
    let cube = cube_vertices(0, 0, 0, &[3, 3, 3]);
    assert_eq!(cube, [0, 1, 3, 4, 9, 10, 12, 13]);
    let orders = [[0, 1, 2], [0, 2, 1], [1, 0, 2], [1, 2, 0], [2, 0, 1], [2, 1, 0]];
    for order in orders {
        let tet = freudenthal_tetrahedron(&cube, &order);
        assert!(tet.contains(&0) && tet.contains(&13));
    }
    assert!(check_background(&[4, 4, 4], 10_000).is_ok());
    assert!(check_background(&[1_000, 1_000, 1_000], 10_000).is_err());
    assert!(matches!(next_attempt(&[2, 2, 2], 0), Attempt::Build([2, 2, 2])));
    assert!(matches!(next_attempt(&[1_024, 2, 2], 1), Attempt::Build([1_024, 4, 4])));
    assert!(matches!(next_attempt(&[1_024; 3], 1), Attempt::GridExhausted));
    assert!(matches!(next_attempt(&[2, 2, 2], 4), Attempt::BudgetExhausted));
}

#[test]
fn cells_share_points_between_chunks() {
    assert_eq!(cells_per_chunk(10_240, 2_048), 5);
    assert_eq!(cells_per_chunk(1, 2_048), 1);
    assert_eq!(chunk_count(11, 5), 3);
    assert_eq!(tile_bytes(1_000, 1, 1, 1), 1_288);
    assert!(check_active_bytes(1, 100, 100).is_ok());
    assert!(check_active_bytes(1, 101, 100).is_err());
    let users = point_users(&vec![vec![4u64, 5], vec![5, 6]]);
    assert_eq!(users.keys, vec![4, 5, 6]);
    assert_eq!(users.values, vec![0, 0, 1]);
    let ids = number_points(2, &users.values, &vec![None, None, None], &vec![10, 11]).unwrap();
    assert_eq!(ids[0].owner_chunk(), 10);
    assert_eq!(ids[2].owner_chunk(), 11);
    assert_ne!(ids[0], ids[1]);
}
