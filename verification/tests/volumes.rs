//! Layers in space, their cells, and the chunks of a solid mesh.

use caso_meshing::checks::parse_u32;
use caso_meshing::chunk::MeshId;
use caso_meshing::chunking::place_points;
use caso_meshing::emission::{points_in_range, SharedPoint};
use caso_meshing::number::{Real, Vector3};
use caso_meshing::schema::Bounds3;
use caso_meshing::solid_emission::{build_solid_chunk, TaggedFace};
use caso_meshing::sorted::{SortedMap, SortedSet};
use caso_meshing::su2::su2_code;
use caso_meshing::volume::{Sign, VolumeMesh};
use caso_meshing::volume_layers::{
    assign_columns, attach, gather_edges, install_columns, install_layers, is_rim, oriented_prism,
    oriented_pyramid, positive_tet, replace_cells, SelectedFace,
};

fn vector(x: f64, y: f64, z: f64) -> Vector3 {
    [x, y, z].map(|part| Real { bits: part.to_bits() })
}

fn face(vertices: [usize; 3], control: usize) -> SelectedFace {
    SelectedFace { vertices, control }
}

fn tetrahedron() -> VolumeMesh {
    VolumeMesh {
        points: vec![
            vector(0.0, 0.0, 0.0),
            vector(1.0, 0.0, 0.0),
            vector(0.0, 1.0, 0.0),
            vector(0.0, 0.0, 1.0),
        ],
        boundary_points: SortedSet::new(),
        cells: vec![[0, 1, 2, 3]],
        prisms: Vec::new(),
        pyramids: Vec::new(),
        boundary_faces: Vec::new(),
        lattice_vertices: SortedMap::new(),
        crossings: SortedMap::new(),
    }
}

#[test]
fn points_take_the_control_of_their_faces() {
    let columns = assign_columns("air", &vec![face([4, 2, 1], 0), face([2, 4, 9], 0)]).unwrap();
    assert_eq!(columns.keys, vec![1, 2, 4, 9]);
    assert_eq!(columns.values, vec![0, 0, 0, 0]);
    assert_eq!(
        assign_columns("air", &vec![face([4, 2, 1], 0), face([2, 4, 9], 1)]).unwrap_err().message(),
        "domain \"air\" boundary layer controlled regions request incompatible columns at a shared \
         seam"
    );
}

#[test]
fn columns_get_the_points_behind_the_mesh() {
    let mut mesh = tetrahedron();
    let columns = assign_columns("air", &vec![face([0, 1, 2], 0)]).unwrap();
    let inner: Vec<Vector3> = (0..6).map(|place| vector(0.1, 0.1, place as f64)).collect();
    let names = install_columns(&mut mesh, &columns, &vec![2], &inner);
    assert_eq!(mesh.points.len(), 10);
    assert_eq!(mesh.points[4..], inner[..]);
    assert_eq!(names.keys.len(), 6);
    let mut numbers = names.values.clone();
    numbers.sort();
    assert_eq!(numbers, vec![4, 5, 6, 7, 8, 9]);
}

#[test]
fn a_face_is_attached_to_its_first_cell() {
    let cells = vec![[0, 1, 2, 3], [1, 2, 3, 4]];
    assert_eq!(attach(&cells, &[3, 1, 2]), Some((0, 0)));
    assert_eq!(attach(&cells, &[4, 1, 2]), Some((1, 3)));
    assert_eq!(attach(&cells, &[0, 1, 4]), None);
}

#[test]
fn layer_cells_are_turned_until_they_are_sound() {
    assert_eq!(oriented_prism(&[0, 1, 2], &[3, 4, 5], true, true), Some([0, 1, 2, 3, 4, 5]));
    assert_eq!(oriented_prism(&[0, 1, 2], &[3, 4, 5], false, true), Some([0, 2, 1, 3, 5, 4]));
    assert_eq!(oriented_prism(&[0, 1, 2], &[3, 4, 5], false, false), None);
    assert_eq!(oriented_pyramid(&[0, 1, 2, 3], 4, true, false), Some([0, 1, 2, 3, 4]));
    assert_eq!(oriented_pyramid(&[0, 1, 2, 3], 4, false, true), Some([3, 2, 1, 0, 4]));
    assert_eq!(oriented_pyramid(&[0, 1, 2, 3], 4, false, false), None);
    assert_eq!(positive_tet([0, 1, 2, 3], Sign::Positive).unwrap(), [0, 1, 2, 3]);
    assert_eq!(positive_tet([0, 1, 2, 3], Sign::Negative).unwrap(), [1, 0, 2, 3]);
    assert_eq!(
        positive_tet([0, 1, 2, 3], Sign::Zero).unwrap_err().message(),
        "3D boundary layer produced a degenerate core transition; a finer surface is required"
    );
}

#[test]
fn an_edge_of_one_selected_face_is_on_the_rim() {
    let faces = vec![face([0, 1, 2], 0), face([1, 3, 2], 0)];
    let edges = gather_edges(&faces);
    assert!(is_rim(&edges, &faces, 0, 1));
    assert!(is_rim(&edges, &faces, 3, 1));
    assert!(!is_rim(&edges, &faces, 2, 1));
    assert!(!is_rim(&edges, &faces, 0, 3));
}

#[test]
fn replaced_cells_give_way_in_place() {
    let mut replacements = SortedMap::new();
    replacements.insert(1, vec![[4, 5, 6, 7], [5, 6, 7, 8]]);
    let cells = vec![[0, 1, 2, 3], [1, 2, 3, 4], [2, 3, 4, 5]];
    assert_eq!(
        replace_cells(&cells, &replacements),
        vec![[0, 1, 2, 3], [4, 5, 6, 7], [5, 6, 7, 8], [2, 3, 4, 5]]
    );
}

#[test]
fn layers_count_against_the_cell_limit() {
    let mut mesh = tetrahedron();
    let cells = vec![[0, 1, 2, 3]];
    let pyramids = vec![[0, 1, 2, 3, 0]];
    assert!(install_layers(&mut mesh, cells.clone(), &Vec::new(), &pyramids, 2).is_ok());
    assert_eq!(mesh.pyramids, pyramids);
    assert_eq!(
        install_layers(&mut mesh, cells, &Vec::new(), &pyramids, 2).unwrap_err().message(),
        "3D boundary layers exceed the configured 2 cell limit"
    );
}

#[test]
fn the_same_solid_cells_give_the_same_chunk() {
    let cells: Vec<Vec<usize>> = vec![vec![0, 1, 2, 3]];
    let corners = tetrahedron().points;
    let ids: Vec<MeshId> = (1..5).map(|place| MeshId::new(2, 0, place).unwrap()).collect();
    let spots: Vec<Option<SharedPoint>> = vec![None; 4];
    let placed = place_points(&vec![0usize, 1, 2, 3], &ids, &corners, &spots);
    let boundary = SortedSet::new();
    let faces = vec![TaggedFace { points: [0usize, 1, 2], cell: 0, tag: 3 }];
    let bounds = Bounds3 { min: vector(0.0, 0.0, 0.0), max: vector(1.0, 1.0, 1.0) };
    let used = points_in_range(&cells, 0, 1);
    let build =
        || build_solid_chunk(2, bounds, &cells, 0, 1, &used, &placed, &boundary, &faces, 1, 4);
    let chunk = build().unwrap();
    assert_eq!(chunk.cells.len(), 1);
    assert_eq!(chunk.cells[0].element_type, "tet4");
    assert_eq!(chunk.cells[0].point_ids, ids);
    assert_eq!(chunk.faces.len(), 1);
    assert_eq!(chunk.faces[0].tag_ids, vec![3]);
    assert!(chunk.faces[0].boundary);
    assert_eq!(format!("{:?}", build().unwrap()), format!("{chunk:?}"));
    let narrow = Bounds3 { min: vector(0.0, 0.0, 0.0), max: vector(0.5, 1.0, 1.0) };
    let outside =
        build_solid_chunk(2, narrow, &cells, 0, 1, &used, &placed, &boundary, &faces, 1, 4);
    assert!(outside.is_err());
}

#[test]
fn versions_and_element_types_are_read_from_text() {
    assert_eq!(parse_u32("3"), Some(3));
    assert_eq!(parse_u32("+12"), Some(12));
    assert_eq!(parse_u32("4294967295"), Some(u32::MAX));
    assert_eq!(parse_u32("4294967296"), None);
    assert_eq!(parse_u32("+"), None);
    assert_eq!(parse_u32(""), None);
    assert_eq!(parse_u32("-3"), None);
    for (name, code) in [("edge3", 3), ("tri6", 5), ("quad9", 9), ("tet10", 10), ("hex27", 12)] {
        assert_eq!(su2_code(name), Some(code));
    }
    assert_eq!(su2_code("prism15"), Some(13));
    assert_eq!(su2_code("pyramid13"), Some(14));
    assert_eq!(su2_code("polygon"), None);
}
