use caso_meshing::faces::subdivide_quad;
use caso_meshing::number::Real;
use caso_meshing::octree::Lattice;
use caso_meshing::solid::Sample;
use caso_meshing::solid_assess::PoorCell;
use caso_meshing::solid_repair::pop_worst;
use caso_meshing::sorted::SortedSet;
use caso_meshing::tetrahedra::{inside_mask, marching_edges};

fn num(value: f64) -> Real {
    Real { bits: value.to_bits() }
}

fn lattice(x: u64, y: u64, z: u64) -> Lattice {
    Lattice { x, y, z }
}

fn sample(key: Lattice, world: [f64; 3], sdf: f64) -> Sample {
    Sample { key, world: world.map(num), sdf: num(sdf) }
}

#[test]
fn marching_tetrahedra_cover_all_sixteen_sign_masks() {
    let expected_crossings = [0, 3, 3, 4, 3, 4, 4, 3, 3, 4, 4, 3, 4, 3, 3, 0];
    for mask in 0u8..16 {
        let edges = marching_edges(mask);
        assert_eq!(
            edges.len(),
            expected_crossings[mask as usize],
            "mask {mask:04b}"
        );
        assert!(edges
            .iter()
            .all(|&(a, b)| { ((mask >> a) & 1) != ((mask >> b) & 1) }));
    }
}

#[test]
fn zero_values_are_retained_by_the_marching_sign_rule() {
    let samples = [
        sample(lattice(0, 0, 0), [0.0; 3], 0.0),
        sample(lattice(1, 0, 0), [1.0, 0.0, 0.0], 1.0),
        sample(lattice(0, 1, 0), [0.0, 1.0, 0.0], 1.0),
        sample(lattice(0, 0, 1), [0.0, 0.0, 1.0], 1.0),
    ];
    let mask = inside_mask(&samples);
    assert_eq!(mask, 1);
    assert_eq!(marching_edges(mask).len(), 3);
}

#[test]
fn poor_cell_order_is_deterministic() {
    let mut queue = SortedSet::new();
    queue.insert(PoorCell { quality: num(0.04), index: 3 });
    queue.insert(PoorCell { quality: num(0.01), index: 8 });
    queue.insert(PoorCell { quality: num(0.01), index: 2 });
    assert_eq!(pop_worst(&mut queue).unwrap().index, 2);
    assert_eq!(pop_worst(&mut queue).unwrap().index, 8);
    assert_eq!(pop_worst(&mut queue).unwrap().index, 3);
    assert!(pop_worst(&mut queue).is_none());
}

#[test]
fn face_subdivision_is_conforming_and_complete() {
    let quad = [
        lattice(0, 0, 0),
        lattice(2, 0, 0),
        lattice(2, 2, 0),
        lattice(0, 2, 0),
    ];
    let children = subdivide_quad(&quad);
    assert_eq!(children.len(), 4);
    let center = lattice(1, 1, 0);
    assert!(children.iter().all(|child| child.contains(&center)));
}
