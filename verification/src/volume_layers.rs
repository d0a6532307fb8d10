//! Prism layers on the boundary of a volume mesh.

use vstd::prelude::*;

use crate::error::{MeshError, MeshResult};
#[allow(unused_imports)]
use crate::error::{fails_input, fails_limit};
use crate::grouping::Grouping;
#[allow(unused_imports)]
use crate::grouping::places_of;
use crate::number::Vector3;
use crate::sorted::SortedMap;
#[allow(unused_imports)]
use crate::sorted::increasing_has_no_duplicates;
use crate::text::{around, join, quoted, sentence};
#[allow(unused_imports)]
use crate::text::{debug_text, decimal};
use crate::volume::{ordered_pair, Sign, VolumeMesh};
#[allow(unused_imports)]
use crate::volume::{all_below, more_points, pair, turned_cell};

verus! {

/// What is said of layers that a domain cannot take.
pub open spec fn layer_message(domain: Seq<char>, reason: Seq<char>) -> Seq<char> {
    "domain "@ + debug_text(domain) + " boundary layer "@ + reason
}

pub fn layer_error(domain: &str, reason: &str) -> (result: MeshError)
    ensures
        result is InvalidInput,
        result.text() == layer_message(domain@, reason@),
{
    let text = around("domain ", quoted(domain).as_str(), " boundary layer ");
    MeshError::InvalidInput(join(text.as_str(), reason))
}

/// A boundary face on which layers grow, and the control that asks for them.
#[derive(Debug, Clone, Copy)]
pub struct SelectedFace {
    pub vertices: [usize; 3],
    pub control: usize,
}

/// Two faces with different controls meet at a point.
pub open spec fn seams_clash(faces: Seq<SelectedFace>) -> bool {
    exists|i: int, j: int, a: int, b: int|
        #![trigger faces[i].vertices@[a], faces[j].vertices@[b]]
        0 <= i < faces.len() && 0 <= j < faces.len() && 0 <= a < 3 && 0 <= b < 3
            && faces[i].vertices@[a] == faces[j].vertices@[b] && faces[i].control
            != faces[j].control
}

/// A face has the point.
pub open spec fn has_vertex(face: SelectedFace, vertex: usize) -> bool {
    face.vertices@.contains(vertex)
}

/// The control of each point of the first faces.
pub open spec fn controls_of(faces: Seq<SelectedFace>, count: int, map: Map<usize, usize>) -> bool {
    &&& forall|vertex: usize| #[trigger]
        map.dom().contains(vertex) <==> exists|i: int|
            0 <= i < count && has_vertex(#[trigger] faces[i], vertex)
    &&& forall|i: int, a: int|
        0 <= i < count && 0 <= a < 3 ==> map[#[trigger] faces[i].vertices@[a]] == faces[i].control
}

fn assign_vertex(map: &mut SortedMap<usize, usize>, vertex: usize, control: usize) -> (result: bool)
    requires
        old(map).wf(),
    ensures
        final(map).wf(),
        result == (old(map)@.dom().contains(vertex) ==> old(map)@[vertex] == control),
        result ==> final(map)@ == old(map)@.insert(vertex, control),
{
    match map.get(&vertex) {
        Some(other) => {
            if *other != control {
                return false;
            }
        },
        None => {},
    }
    map.insert(vertex, control);
    true
}

/// The control of each point, where the faces at a point agree on it.
pub fn assign_columns(domain: &str, faces: &Vec<SelectedFace>) -> (result: MeshResult<
    SortedMap<usize, usize>,
>)
    ensures
        seams_clash(faces@) ==> fails_input(
            result,
            layer_message(
                domain@,
                "controlled regions request incompatible columns at a shared seam"@,
            ),
        ),
        !seams_clash(faces@) ==> (result matches Ok(map) && map.wf() && controls_of(
            faces@,
            faces@.len() as int,
            map@,
        )),
{
    let mut map: SortedMap<usize, usize> = SortedMap::new();
    let mut f: usize = 0;
    while f < faces.len()
        invariant
            f <= faces.len(),
            map.wf(),
            controls_of(faces@, f as int, map@),
        decreases faces.len() - f,
    {
        let face = faces[f];
        let ghost before = map@;
        let ghost v = face.vertices@;
        let first = assign_vertex(&mut map, face.vertices[0], face.control);
        let ghost after_first = map@;
        let second = first && assign_vertex(&mut map, face.vertices[1], face.control);
        let ghost after_second = map@;
        let third = second && assign_vertex(&mut map, face.vertices[2], face.control);
        if !third {
            proof {
                let a: int = if !first {
                    0
                } else if !second {
                    1
                } else {
                    2
                };
                let bad = v[a];
                assert(before.dom().contains(bad) && before[bad] != face.control);
                let i = choose|i: int| 0 <= i < f && has_vertex(#[trigger] faces@[i], bad);
                let b = faces@[i].vertices@.index_of(bad);
                assert(faces@[i].vertices@[b] == bad);
                assert(before[faces@[i].vertices@[b]] == faces@[i].control);
                assert(faces@[f as int].vertices@[a] == faces@[i].vertices@[b]);
                assert(seams_clash(faces@));
            }
            return Err(
                layer_error(
                    domain,
                    "controlled regions request incompatible columns at a shared seam",
                ),
            );
        }
        proof {
            assert(map@ =~= before.insert(v[0], face.control).insert(v[1], face.control).insert(
                v[2],
                face.control,
            ));
            assert forall|vertex: usize| #[trigger]
                map@.dom().contains(vertex) <==> exists|i: int|
                    0 <= i < f + 1 && has_vertex(#[trigger] faces@[i], vertex) by {
                assert(before.dom().contains(vertex) <==> exists|i: int|
                    0 <= i < f && has_vertex(#[trigger] faces@[i], vertex));
                assert(v.contains(v[0]) && v.contains(v[1]) && v.contains(v[2]));
                if v.contains(vertex) {
                    let p = v.index_of(vertex);
                    assert(p == 0 || p == 1 || p == 2);
                    assert(has_vertex(faces@[f as int], vertex));
                }
                if before.dom().contains(vertex) {
                    let i = choose|i: int| 0 <= i < f && has_vertex(#[trigger] faces@[i], vertex);
                    assert(has_vertex(faces@[i], vertex));
                }
                if exists|i: int| 0 <= i < f + 1 && has_vertex(#[trigger] faces@[i], vertex) {
                    let i = choose|i: int|
                        0 <= i < f + 1 && has_vertex(#[trigger] faces@[i], vertex);
                    if i < f {
                        assert(before.dom().contains(vertex));
                    } else {
                        assert(v.contains(vertex));
                    }
                }
            }
            assert forall|i: int, a: int| 0 <= i < f + 1 && 0 <= a < 3 implies map@[
            #[trigger] faces@[i].vertices@[a]] == faces@[i].control by {
                let vertex = faces@[i].vertices@[a];
                if i < f {
                    assert(before[faces@[i].vertices@[a]] == faces@[i].control);
                    assert(has_vertex(faces@[i], vertex)) by {
                        assert(faces@[i].vertices@[a] == vertex);
                    }
                    assert(before.dom().contains(vertex));
                }
            }
        }
        f = f + 1;
    }
    proof {
        assert forall|i: int, j: int, a: int, b: int|
            0 <= i < faces@.len() && 0 <= j < faces@.len() && 0 <= a < 3 && 0 <= b < 3
                && #[trigger] faces@[i].vertices@[a] == #[trigger] faces@[j].vertices@[b] implies
            faces@[i].control == faces@[j].control by {
            assert(map@[faces@[i].vertices@[a]] == faces@[i].control);
            assert(map@[faces@[j].vertices@[b]] == faces@[j].control);
        }
    }
    Ok(map)
}

/// How many layer points stand before those of the column at a place.
pub open spec fn column_start(controls: Seq<usize>, layers: Seq<usize>, place: int) -> nat
    decreases place,
{
    if place <= 0 {
        0
    } else {
        column_start(controls, layers, place - 1) + layers[controls[place - 1] as int] as nat
    }
}

/// The columns are numbered one after the other from `base` on, each from the
/// boundary inwards.
pub open spec fn columns_numbered(
    keys: Seq<usize>,
    controls: Seq<usize>,
    layers: Seq<usize>,
    base: int,
    count: int,
    columns: Map<(usize, usize), usize>,
) -> bool {
    &&& forall|spot: (usize, usize)| #[trigger]
        columns.dom().contains(spot) <==> exists|p: int|
            0 <= p < count && #[trigger] keys[p] == spot.0 && spot.1 < layers[controls[p] as int]
    &&& forall|p: int, level: usize|
        0 <= p < count && level < layers[controls[p] as int] ==> #[trigger] columns[(
            keys[p],
            level,
        )] == base + column_start(controls, layers, p) + level
}

/// Adds the points of the layers, column by column, and numbers them.
pub fn install_columns(
    mesh: &mut VolumeMesh,
    controls: &SortedMap<usize, usize>,
    layers: &Vec<usize>,
    positions: &Vec<Vector3>,
) -> (result: SortedMap<(usize, usize), usize>)
    requires
        old(mesh).wf(),
        controls.wf(),
        forall|p: int|
            0 <= p < controls.values@.len() ==> #[trigger] controls.values@[p] < layers@.len(),
        positions@.len() == column_start(
            controls.values@,
            layers@,
            controls.values@.len() as int,
        ),
        old(mesh).points@.len() + positions@.len() <= usize::MAX,
    ensures
        final(mesh).wf(),
        final(mesh).same_cells(*old(mesh)),
        final(mesh).boundary_points == old(mesh).boundary_points,
        final(mesh).lattice_vertices == old(mesh).lattice_vertices,
        final(mesh).crossings == old(mesh).crossings,
        final(mesh).points@ == old(mesh).points@ + positions@,
        result.wf(),
        columns_numbered(
            controls.keys@,
            controls.values@,
            layers@,
            old(mesh).points@.len() as int,
            controls.keys@.len() as int,
            result@,
        ),
{
    let base: usize = mesh.points.len();
    let ghost start = *mesh;
    let ghost keys = controls.keys@;
    let ghost chosen = controls.values@;
    let mut columns: SortedMap<(usize, usize), usize> = SortedMap::new();
    let mut next: usize = 0;
    let mut p: usize = 0;
    while p < controls.keys.len()
        invariant
            p <= keys.len(),
            keys == controls.keys@,
            chosen == controls.values@,
            controls.wf(),
            forall|q: int| 0 <= q < chosen.len() ==> #[trigger] chosen[q] < layers@.len(),
            positions@.len() == column_start(chosen, layers@, chosen.len() as int),
            base + positions@.len() <= usize::MAX,
            next == column_start(chosen, layers@, p as int),
            columns.wf(),
            columns_numbered(keys, chosen, layers@, base as int, p as int, columns@),
        decreases keys.len() - p,
    {
        let vertex: usize = controls.keys[p];
        let control: usize = controls.values[p];
        assert(chosen[p as int] < layers@.len());
        let depth: usize = layers[control];
        proof {
            starts_grow(chosen, layers@, p + 1, chosen.len() as int);
        }
        let ghost before = columns@;
        let mut level: usize = 0;
        while level < depth
            invariant
                level <= depth,
                next + depth <= positions@.len(),
                base + positions@.len() <= usize::MAX,
                columns.wf(),
                forall|spot: (usize, usize)| #[trigger]
                    columns@.dom().contains(spot) <==> before.dom().contains(spot) || (spot.0
                        == vertex && spot.1 < level),
                forall|spot: (usize, usize)| #[trigger]
                    columns@.dom().contains(spot) ==> columns@[spot] == (if spot.0 == vertex
                        && spot.1 < level {
                        (base + next + spot.1) as usize
                    } else {
                        before[spot]
                    }),
            decreases depth - level,
        {
            columns.insert((vertex, level), base + next + level);
            level = level + 1;
        }
        proof {
            increasing_has_no_duplicates(keys);
            assert forall|spot: (usize, usize)| #[trigger]
                columns@.dom().contains(spot) <==> exists|q: int|
                    0 <= q < p + 1 && #[trigger] keys[q] == spot.0 && spot.1
                        < layers@[chosen[q] as int] by {
                assert(before.dom().contains(spot) <==> exists|q: int|
                    0 <= q < p && #[trigger] keys[q] == spot.0 && spot.1
                        < layers@[chosen[q] as int]);
                if before.dom().contains(spot) {
                    let q = choose|q: int|
                        0 <= q < p && #[trigger] keys[q] == spot.0 && spot.1
                            < layers@[chosen[q] as int];
                    assert(keys[q] == spot.0);
                }
                assert(keys[p as int] == vertex);
            }
            assert forall|q: int, l: usize|
                0 <= q < p + 1 && l < layers@[chosen[q] as int] implies #[trigger] columns@[(
                keys[q],
                l,
            )] == base + column_start(chosen, layers@, q) + l by {
                let spot = (keys[q], l);
                if q < p {
                    assert(keys[q] != keys[p as int]);
                    assert(before[(keys[q], l)] == base + column_start(chosen, layers@, q) + l);
                    assert(before.dom().contains(spot)) by {
                        assert(keys[q] == spot.0);
                    }
                    assert(columns@.dom().contains(spot));
                } else {
                    assert(columns@.dom().contains(spot));
                }
            }
        }
        next = next + depth;
        p = p + 1;
    }
    let mut i: usize = 0;
    while i < positions.len()
        invariant
            i <= positions.len(),
            start.wf(),
            mesh.same_cells(start),
            mesh.boundary_points == start.boundary_points,
            mesh.lattice_vertices == start.lattice_vertices,
            mesh.crossings == start.crossings,
            start.points@.len() + positions@.len() <= usize::MAX,
            mesh.points@ == start.points@ + positions@.take(i as int),
        decreases positions.len() - i,
    {
        mesh.points.push(positions[i]);
        assert(mesh.points@ =~= start.points@ + positions@.take(i as int + 1));
        i = i + 1;
    }
    proof {
        assert(positions@.take(i as int) =~= positions@);
        more_points(start, *mesh);
        assert forall|key: usize| #[trigger]
            mesh.lattice_vertices@.dom().contains(key) implies mesh.lattice_vertices@[key]
            < mesh.points@.len() by {
            assert(start.lattice_vertices@.dom().contains(key));
        }
        assert forall|key: (usize, usize)| #[trigger]
            mesh.crossings@.dom().contains(key) implies mesh.crossings@[key]
            < mesh.points@.len() by {
            assert(start.crossings@.dom().contains(key));
        }
    }
    columns
}

proof fn starts_grow(controls: Seq<usize>, layers: Seq<usize>, from: int, to: int)
    requires
        0 <= from <= to,
    ensures
        column_start(controls, layers, from) <= column_start(controls, layers, to),
    decreases to - from,
{
    if from < to {
        starts_grow(controls, layers, from, to - 1);
    }
}

/// Different layer points have different numbers.
pub proof fn layer_points_are_distinct(
    keys: Seq<usize>,
    controls: Seq<usize>,
    layers: Seq<usize>,
    base: int,
    columns: Map<(usize, usize), usize>,
    p: int,
    level: usize,
    q: int,
    other: usize,
)
    requires
        keys.no_duplicates(),
        columns_numbered(keys, controls, layers, base, keys.len() as int, columns),
        0 <= p < keys.len(),
        0 <= q < keys.len(),
        level < layers[controls[p] as int],
        other < layers[controls[q] as int],
        p != q || level != other,
    ensures
        columns[(keys[p], level)] != columns[(keys[q], other)],
{
    assert(columns[(keys[p], level)] == base + column_start(controls, layers, p) + level);
    assert(columns[(keys[q], other)] == base + column_start(controls, layers, q) + other);
    if p < q {
        starts_grow(controls, layers, p + 1, q);
    } else if q < p {
        starts_grow(controls, layers, q + 1, p);
    }
}

/// The first cell, from a place on, that has all corners of the face.
pub open spec fn attached(cells: Seq<[usize; 4]>, face: Seq<usize>, from: int) -> Option<int>
    decreases cells.len() - from,
{
    if from < 0 || from >= cells.len() {
        None
    } else if cells[from]@.contains(face[0]) && cells[from]@.contains(face[1])
        && cells[from]@.contains(face[2]) {
        Some(from)
    } else {
        attached(cells, face, from + 1)
    }
}

/// The first corner of a cell, from a place on, that is not on the face.
pub open spec fn apex_of(cell: Seq<usize>, face: Seq<usize>, from: int) -> Option<usize>
    decreases 4 - from,
{
    if from < 0 || from >= 4 {
        None
    } else if !face.contains(cell[from]) {
        Some(cell[from])
    } else {
        apex_of(cell, face, from + 1)
    }
}

fn cell_has(cell: &[usize; 4], vertex: usize) -> (result: bool)
    ensures
        result == cell@.contains(vertex),
{
    let result = cell[0] == vertex || cell[1] == vertex || cell[2] == vertex || cell[3] == vertex;
    proof {
        if cell@.contains(vertex) {
            let p = cell@.index_of(vertex);
            assert(p == 0 || p == 1 || p == 2 || p == 3);
        }
        assert(cell@.contains(cell@[0]) && cell@.contains(cell@[1]) && cell@.contains(cell@[2])
            && cell@.contains(cell@[3]));
    }
    result
}

fn face_has(face: &[usize; 3], vertex: usize) -> (result: bool)
    ensures
        result == face@.contains(vertex),
{
    let result = face[0] == vertex || face[1] == vertex || face[2] == vertex;
    proof {
        if face@.contains(vertex) {
            let p = face@.index_of(vertex);
            assert(p == 0 || p == 1 || p == 2);
        }
        assert(face@.contains(face@[0]) && face@.contains(face@[1]) && face@.contains(face@[2]));
    }
    result
}

/// The cell that a boundary face belongs to, and its corner off the face.
pub fn attach(cells: &Vec<[usize; 4]>, face: &[usize; 3]) -> (result: Option<(usize, usize)>)
    ensures
        match attached(cells@, face@, 0) {
            Some(cell) => match apex_of(cells@[cell]@, face@, 0) {
                Some(apex) => (result matches Some((found, corner)) && found == cell && corner
                    == apex),
                None => result is None,
            },
            None => result is None,
        },
{
    let mut c: usize = 0;
    while c < cells.len()
        invariant
            c <= cells.len(),
            attached(cells@, face@, 0) == attached(cells@, face@, c as int),
        decreases cells.len() - c,
    {
        let cell = cells[c];
        if cell_has(&cell, face[0]) && cell_has(&cell, face[1]) && cell_has(&cell, face[2]) {
            let mut i: usize = 0;
            while i < 4
                invariant
                    i <= 4,
                    c < cells@.len(),
                    attached(cells@, face@, 0) == Some(c as int),
                    cell == cells@[c as int],
                    apex_of(cell@, face@, 0) == apex_of(cell@, face@, i as int),
                decreases 4 - i,
            {
                if !face_has(face, cell[i]) {
                    return Some((c, cell[i]));
                }
                i = i + 1;
            }
            return None;
        }
        c = c + 1;
    }
    None
}

/// A prism between two triangles, with both turned where that is needed.
pub open spec fn prism_of(outer: Seq<usize>, inner: Seq<usize>, flipped: bool) -> Seq<usize> {
    if flipped {
        seq![outer[0], outer[2], outer[1], inner[0], inner[2], inner[1]]
    } else {
        seq![outer[0], outer[1], outer[2], inner[0], inner[1], inner[2]]
    }
}

/// The first orientation of a prism that is sound; `None` where neither is.
pub fn oriented_prism(outer: &[usize; 3], inner: &[usize; 3], sound: bool, flipped_sound: bool) -> (result:
    Option<[usize; 6]>)
    ensures
        sound ==> (result matches Some(prism) && prism@ == prism_of(outer@, inner@, false)),
        !sound && flipped_sound ==> (result matches Some(prism) && prism@ == prism_of(
            outer@,
            inner@,
            true,
        )),
        !sound && !flipped_sound ==> result is None,
{
    if sound {
        let prism = [outer[0], outer[1], outer[2], inner[0], inner[1], inner[2]];
        assert(prism@ =~= prism_of(outer@, inner@, false));
        Some(prism)
    } else if flipped_sound {
        let prism = [outer[0], outer[2], outer[1], inner[0], inner[2], inner[1]];
        assert(prism@ =~= prism_of(outer@, inner@, true));
        Some(prism)
    } else {
        None
    }
}

/// A pyramid, with its base turned where that is needed.
pub open spec fn pyramid_of(base: Seq<usize>, apex: usize, flipped: bool) -> Seq<usize> {
    if flipped {
        seq![base[3], base[2], base[1], base[0], apex]
    } else {
        seq![base[0], base[1], base[2], base[3], apex]
    }
}

/// The first orientation of a pyramid that is sound; `None` where neither is.
pub fn oriented_pyramid(base: &[usize; 4], apex: usize, sound: bool, flipped_sound: bool) -> (result:
    Option<[usize; 5]>)
    ensures
        sound ==> (result matches Some(pyramid) && pyramid@ == pyramid_of(base@, apex, false)),
        !sound && flipped_sound ==> (result matches Some(pyramid) && pyramid@ == pyramid_of(
            base@,
            apex,
            true,
        )),
        !sound && !flipped_sound ==> result is None,
{
    if sound {
        let pyramid = [base[0], base[1], base[2], base[3], apex];
        assert(pyramid@ =~= pyramid_of(base@, apex, false));
        Some(pyramid)
    } else if flipped_sound {
        let pyramid = [base[3], base[2], base[1], base[0], apex];
        assert(pyramid@ =~= pyramid_of(base@, apex, true));
        Some(pyramid)
    } else {
        None
    }
}

/// A tetrahedron of positive volume; a flat one is an error.
pub fn positive_tet(cell: [usize; 4], sign: Sign) -> (result: MeshResult<[usize; 4]>)
    ensures
        sign == Sign::Zero ==> fails_input(
            result,
            "3D boundary layer produced a degenerate core transition; a finer surface is required"@,
        ),
        sign != Sign::Zero ==> (result matches Ok(tet) && tet@ == turned_cell(cell@, sign)),
{
    match sign {
        Sign::Positive => Ok(cell),
        Sign::Negative => {
            let turned = [cell[1], cell[0], cell[2], cell[3]];
            assert(turned@ =~= turned_cell(cell@, sign));
            Ok(turned)
        },
        Sign::Zero => Err(
            MeshError::invalid_input(
                "3D boundary layer produced a degenerate core transition; a finer surface is required",
            ),
        ),
    }
}

/// The edges of the faces, three to a face.
pub open spec fn face_edge_list(faces: Seq<SelectedFace>) -> Seq<(usize, usize)> {
    Seq::new(
        3 * faces.len(),
        |i: int|
            pair(faces[i / 3].vertices@[i % 3], faces[i / 3].vertices@[(i % 3 + 1) % 3]),
    )
}

/// Gathers the edges of the faces.
pub fn gather_edges(faces: &Vec<SelectedFace>) -> (result: Grouping<(usize, usize)>)
    ensures
        result.gathers(face_edge_list(faces@)),
{
    let mut list: Vec<(usize, usize)> = Vec::new();
    let mut f: usize = 0;
    while f < faces.len()
        invariant
            f <= faces.len(),
            list.len() == 3 * f,
            forall|i: int| 0 <= i < 3 * f ==> #[trigger] list@[i] == face_edge_list(faces@)[i],
        decreases faces.len() - f,
    {
        let v = faces[f].vertices;
        let ghost before = list@;
        list.push(ordered_pair(v[0], v[1]));
        list.push(ordered_pair(v[1], v[2]));
        list.push(ordered_pair(v[2], v[0]));
        proof {
            assert forall|i: int| 0 <= i < 3 * (f + 1) implies #[trigger] list@[i]
                == face_edge_list(faces@)[i] by {
                if i < 3 * f {
                    assert(list@[i] == before[i]);
                } else {
                    assert(i / 3 == f);
                    assert(i == 3 * f || i == 3 * f + 1 || i == 3 * f + 2);
                }
            }
        }
        f = f + 1;
    }
    assert(list@ =~= face_edge_list(faces@));
    Grouping::gather(&list)
}

/// Whether one of the faces only has the edge, so that the layers end there.
pub fn is_rim(edges: &Grouping<(usize, usize)>, faces: &Vec<SelectedFace>, a: usize, b: usize) -> (result:
    bool)
    requires
        edges.gathers(face_edge_list(faces@)),
    ensures
        result == (places_of(face_edge_list(faces@), pair(a, b)).len() == 1),
{
    match edges.groups.get(&ordered_pair(a, b)) {
        Some(places) => places.len() == 1,
        None => false,
    }
}

/// The cells with the replaced ones exchanged for others.
pub open spec fn with_replacements(
    cells: Seq<[usize; 4]>,
    replacements: Map<usize, Vec<[usize; 4]>>,
    count: int,
) -> Seq<[usize; 4]>
    decreases count,
{
    if count <= 0 {
        Seq::empty()
    } else {
        let rest = with_replacements(cells, replacements, count - 1);
        let place = (count - 1) as usize;
        if replacements.dom().contains(place) {
            rest + replacements[place]@
        } else {
            rest.push(cells[count - 1])
        }
    }
}

pub fn replace_cells(cells: &Vec<[usize; 4]>, replacements: &SortedMap<usize, Vec<[usize; 4]>>) -> (result:
    Vec<[usize; 4]>)
    requires
        replacements.wf(),
    ensures
        result@ == with_replacements(cells@, replacements@, cells@.len() as int),
{
    let mut list: Vec<[usize; 4]> = Vec::new();
    let mut c: usize = 0;
    while c < cells.len()
        invariant
            c <= cells.len(),
            replacements.wf(),
            list@ == with_replacements(cells@, replacements@, c as int),
        decreases cells.len() - c,
    {
        match replacements.get(&c) {
            Some(others) => {
                let ghost start = list@;
                let mut i: usize = 0;
                while i < others.len()
                    invariant
                        i <= others.len(),
                        list@ == start + others@.take(i as int),
                    decreases others.len() - i,
                {
                    list.push(others[i]);
                    assert(list@ =~= start + others@.take(i as int + 1));
                    i = i + 1;
                }
                assert(others@.take(i as int) =~= others@);
            },
            None => {
                list.push(cells[c]);
            },
        }
        c = c + 1;
    }
    list
}

/// Installs the layers: the core cells that were replaced, the prisms and the
/// pyramids. A mesh with too many elements is refused.
pub fn install_layers(
    mesh: &mut VolumeMesh,
    cells: Vec<[usize; 4]>,
    prisms: &Vec<[usize; 6]>,
    pyramids: &Vec<[usize; 5]>,
    max_cells: u64,
) -> (result: MeshResult<()>)
    requires
        old(mesh).wf(),
        forall|c: int|
            0 <= c < cells@.len() ==> all_below(
                (#[trigger] cells@[c])@,
                old(mesh).points@.len() as int,
            ),
        forall|c: int|
            0 <= c < prisms@.len() ==> all_below(
                (#[trigger] prisms@[c])@,
                old(mesh).points@.len() as int,
            ),
        forall|c: int|
            0 <= c < pyramids@.len() ==> all_below(
                (#[trigger] pyramids@[c])@,
                old(mesh).points@.len() as int,
            ),
    ensures
        final(mesh).wf(),
        final(mesh).points == old(mesh).points,
        final(mesh).boundary_points == old(mesh).boundary_points,
        final(mesh).boundary_faces == old(mesh).boundary_faces,
        final(mesh).cells == cells,
        final(mesh).prisms@ == old(mesh).prisms@ + prisms@,
        final(mesh).pyramids@ == old(mesh).pyramids@ + pyramids@,
        ({
            let total = cells@.len() + old(mesh).prisms@.len() + prisms@.len() + old(
                mesh,
            ).pyramids@.len() + pyramids@.len();
            &&& total > max_cells ==> fails_limit(
                result,
                "3D boundary layers exceed the configured "@ + decimal(max_cells as nat)
                    + " cell limit"@,
            )
            &&& total <= max_cells ==> result is Ok
        }),
{
    let ghost start = *mesh;
    mesh.cells = cells;
    let mut i: usize = 0;
    while i < prisms.len()
        invariant
            i <= prisms.len(),
            start == *old(mesh),
            mesh.points == start.points,
            mesh.boundary_points == start.boundary_points,
            mesh.boundary_faces == start.boundary_faces,
            mesh.lattice_vertices == start.lattice_vertices,
            mesh.crossings == start.crossings,
            mesh.cells == cells,
            mesh.pyramids == start.pyramids,
            mesh.prisms@ == start.prisms@ + prisms@.take(i as int),
        decreases prisms.len() - i,
    {
        mesh.prisms.push(prisms[i]);
        assert(mesh.prisms@ =~= start.prisms@ + prisms@.take(i as int + 1));
        i = i + 1;
    }
    assert(prisms@.take(i as int) =~= prisms@);
    let mut j: usize = 0;
    while j < pyramids.len()
        invariant
            j <= pyramids.len(),
            start == *old(mesh),
            mesh.points == start.points,
            mesh.boundary_points == start.boundary_points,
            mesh.boundary_faces == start.boundary_faces,
            mesh.lattice_vertices == start.lattice_vertices,
            mesh.crossings == start.crossings,
            mesh.cells == cells,
            mesh.prisms@ == start.prisms@ + prisms@,
            mesh.pyramids@ == start.pyramids@ + pyramids@.take(j as int),
        decreases pyramids.len() - j,
    {
        mesh.pyramids.push(pyramids[j]);
        assert(mesh.pyramids@ =~= start.pyramids@ + pyramids@.take(j as int + 1));
        j = j + 1;
    }
    proof {
        assert(pyramids@.take(j as int) =~= pyramids@);
        let count = start.points@.len() as int;
        assert forall|c: int| 0 <= c < mesh.prisms@.len() implies all_below(
            (#[trigger] mesh.prisms@[c])@,
            count,
        ) by {
            if c < start.prisms@.len() {
                assert(mesh.prisms@[c] == start.prisms@[c]);
            } else {
                assert(mesh.prisms@[c] == prisms@[c - start.prisms@.len()]);
            }
        }
        assert forall|c: int| 0 <= c < mesh.pyramids@.len() implies all_below(
            (#[trigger] mesh.pyramids@[c])@,
            count,
        ) by {
            if c < start.pyramids@.len() {
                assert(mesh.pyramids@[c] == start.pyramids@[c]);
            } else {
                assert(mesh.pyramids@[c] == pyramids@[c - start.pyramids@.len()]);
            }
        }
    }
    let total: u128 = mesh.cells.len() as u128 + mesh.prisms.len() as u128 + mesh.pyramids.len()
        as u128;
    if total > max_cells as u128 {
        return Err(
            MeshError::LimitExceeded(
                sentence("3D boundary layers exceed the configured ", max_cells, " cell limit"),
            ),
        );
    }
    Ok(())
}

/// The cells after replacement: those that are not replaced stay in order, each replaced
/// one gives way to its own, and nothing else comes in.
pub proof fn replaced_cells_give_way(
    cells: Seq<[usize; 4]>,
    replacements: Map<usize, Vec<[usize; 4]>>,
    count: int,
    cell: [usize; 4],
)
    requires
        0 <= count <= cells.len(),
        cells.len() <= usize::MAX,
    ensures
        with_replacements(cells, replacements, count).contains(cell) <==> exists|i: int|
            0 <= i < count && comes_from(cells, replacements, i, cell),
        (forall|i: int| 0 <= i < count ==> !replacements.dom().contains(#[trigger] (i as usize)))
            ==> with_replacements(cells, replacements, count) == cells.take(count),
    decreases count,
{
    if count > 0 {
        replaced_cells_give_way(cells, replacements, count - 1, cell);
        let rest = with_replacements(cells, replacements, count - 1);
        let now = with_replacements(cells, replacements, count);
        let last = count - 1;
        let place = last as usize;
        if now.contains(cell) {
            let k = now.index_of(cell);
            if k < rest.len() {
                assert(rest[k] == cell);
                assert(rest.contains(cell));
                let i = choose|i: int|
                    0 <= i < count - 1 && comes_from(cells, replacements, i, cell);
                assert(comes_from(cells, replacements, i, cell));
            } else {
                if replacements.dom().contains(place) {
                    assert(replacements[place]@[k - rest.len()] == cell);
                }
                assert(comes_from(cells, replacements, last, cell));
            }
        }
        if exists|i: int| 0 <= i < count && comes_from(cells, replacements, i, cell) {
            let i = choose|i: int| 0 <= i < count && comes_from(cells, replacements, i, cell);
            if i < last {
                assert(rest.contains(cell));
                let k = rest.index_of(cell);
                assert(now[k] == cell);
            } else if replacements.dom().contains(place) {
                let k = replacements[place]@.index_of(cell);
                assert(now[rest.len() + k] == cell);
            } else {
                assert(now[rest.len() as int] == cell);
            }
        }
        if forall|i: int| 0 <= i < count ==> !replacements.dom().contains(#[trigger] (i as usize)) {
            assert(!replacements.dom().contains(last as usize));
            assert(cells.take(count) =~= cells.take(count - 1).push(cells[count - 1]));
        }
    } else {
        assert(cells.take(0) =~= Seq::empty());
    }
}

/// The cell stands at the place, or replaces the one that did.
pub open spec fn comes_from(
    cells: Seq<[usize; 4]>,
    replacements: Map<usize, Vec<[usize; 4]>>,
    place: int,
    cell: [usize; 4],
) -> bool {
    if replacements.dom().contains(place as usize) {
        replacements[place as usize]@.contains(cell)
    } else {
        cells[place] == cell
    }
}

/// The edges of the faces are, for every face, the pairs of its corners, and no others.
pub proof fn faces_have_three_edges(faces: Seq<SelectedFace>, face: int, a: int, b: int)
    requires
        0 <= face < faces.len(),
        0 <= a < 3,
        0 <= b < 3,
        a != b,
    ensures
        face_edge_list(faces).len() == 3 * faces.len(),
        exists|i: int|
            3 * face <= i < 3 * face + 3 && #[trigger] face_edge_list(faces)[i] == pair(
                faces[face].vertices@[a],
                faces[face].vertices@[b],
            ),
{
    let list = face_edge_list(faces);
    let side = if (a == 0 && b == 1) || (a == 1 && b == 0) {
        0
    } else if (a == 1 && b == 2) || (a == 2 && b == 1) {
        1
    } else {
        2int
    };
    let i = 3 * face + side;
    assert(i / 3 == face && i % 3 == side);
    assert(list[i] == pair(faces[face].vertices@[a], faces[face].vertices@[b]));
}

} // verus!
