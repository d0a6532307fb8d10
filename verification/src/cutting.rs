//! The polyhedron that remains of a cut tetrahedron, and the tetrahedra it is
//! filled with.

use vstd::prelude::*;

use crate::error::MeshResult;
#[allow(unused_imports)]
use crate::error::fails_input;
use crate::faces::{triangulate_face, Diagonal};
#[allow(unused_imports)]
use crate::faces::quad_cut;
use crate::marching::dedup_polygon;
#[allow(unused_imports)]
use crate::marching::ring_without_repeats;
use crate::solid::{PointKey, Sample};
use crate::sorted::SortedSet;
#[allow(unused_imports)]
use crate::sorted::increasing;
use crate::tetrahedra::{
    clipped_triangle, edge_between, find_links, is_marked, tet_faces, trace_cycle, EdgeCrossings,
};
#[allow(unused_imports)]
use crate::tetrahedra::{
    corner_edge, cut_links, cycle_of, face_polygon, face_ready, marked, tet_face,
};
#[allow(unused_imports)]
use crate::tetrahedra::marked_count;

verus! {

pub open spec fn lists(faces: Seq<Vec<PointKey>>) -> Seq<Seq<PointKey>> {
    faces.map_values(|face: Vec<PointKey>| face@)
}

/// What remains of a face of the tetrahedron.
pub open spec fn remaining_face(
    samples: Seq<Sample>,
    crossings: Map<(usize, usize), PointKey>,
    face: int,
) -> Seq<PointKey> {
    ring_without_repeats(face_polygon(samples, crossings, tet_face(face)))
}

/// What remains of the first faces, without those that shrank to a line.
pub open spec fn remaining_faces(
    samples: Seq<Sample>,
    crossings: Map<(usize, usize), PointKey>,
    count: int,
) -> Seq<Seq<PointKey>>
    decreases count,
{
    if count <= 0 {
        Seq::empty()
    } else {
        let rest = remaining_faces(samples, crossings, count - 1);
        let face = remaining_face(samples, crossings, count - 1);
        if face.len() >= 3 {
            rest.push(face)
        } else {
            rest
        }
    }
}

/// The faces of the remaining polyhedron: what remains of the faces of the
/// tetrahedron, then the cut.
pub open spec fn polyhedron(
    samples: Seq<Sample>,
    crossings: Map<(usize, usize), PointKey>,
    links: Seq<(PointKey, PointKey)>,
) -> Seq<Seq<PointKey>> {
    let faces = remaining_faces(samples, crossings, 4);
    if cycle_of(links).len() >= 3 {
        faces.push(cycle_of(links))
    } else {
        faces
    }
}

/// Every crossing of the tetrahedron is known.
pub open spec fn tet_ready(samples: Seq<Sample>, crossings: Map<(usize, usize), PointKey>) -> bool {
    face_ready(samples, crossings, tet_face(0)) && face_ready(samples, crossings, tet_face(1))
        && face_ready(samples, crossings, tet_face(2)) && face_ready(
        samples,
        crossings,
        tet_face(3),
    )
}

/// The faces of what remains of a tetrahedron inside the domain.
pub fn cut_faces(samples: &[Sample; 4], crossings: &EdgeCrossings) -> (result: MeshResult<
    Vec<Vec<PointKey>>,
>)
    requires
        crossings.wf(),
    ensures
        tet_ready(samples@, crossings@) ==> (result matches Ok(faces) && exists|
            links: Seq<(PointKey, PointKey)>,
        |
            #![trigger polyhedron(samples@, crossings@, links)]
            increasing(links) && links.to_set() == cut_links(crossings@) && lists(faces@)
                == polyhedron(samples@, crossings@, links)),
        !tet_ready(samples@, crossings@) ==> fails_input(
            result,
            "marching-tetrahedron face is missing a cached crossing"@,
        ),
{
    let table = tet_faces();
    let mut faces: Vec<Vec<PointKey>> = Vec::new();
    let mut f: usize = 0;
    assert(lists(faces@) =~= remaining_faces(samples@, crossings@, 0));
    while f < 4
        invariant
            f <= 4,
            crossings.wf(),
            forall|k: int| 0 <= k < 4 ==> (#[trigger] table[k])@ == tet_face(k),
            forall|k: int, i: int| 0 <= k < 4 && 0 <= i < 3 ==> #[trigger] table[k][i] < 4,
            f > 0 ==> face_ready(samples@, crossings@, tet_face(0)),
            f > 1 ==> face_ready(samples@, crossings@, tet_face(1)),
            f > 2 ==> face_ready(samples@, crossings@, tet_face(2)),
            f > 3 ==> face_ready(samples@, crossings@, tet_face(3)),
            lists(faces@) == remaining_faces(samples@, crossings@, f as int),
        decreases 4 - f,
    {
        let face = table[f];
        assert(face@ == tet_face(f as int));
        assert forall|i: int| 0 <= i < 3 implies #[trigger] face[i] < 4 by {
            assert(table[f as int][i] < 4);
        }
        let polygon = clipped_triangle(samples, crossings, &face)?;
        let ring = dedup_polygon(&polygon);
        let ghost before = faces@;
        if ring.len() >= 3 {
            faces.push(ring);
            assert(lists(faces@) =~= lists(before).push(ring@));
        }
        f = f + 1;
    }
    let links = find_links(crossings);
    let cut = trace_cycle(&links);
    let ghost before = faces@;
    proof {
        assert(links.items@.to_set() =~= links@);
    }
    if cut.len() >= 3 {
        faces.push(cut);
        assert(lists(faces@) =~= lists(before).push(cut@));
    }
    assert(lists(faces@) == polyhedron(samples@, crossings@, links.items@));
    Ok(faces)
}

/// The points that the faces use.
pub open spec fn used_by(faces: Seq<Seq<PointKey>>) -> Set<PointKey> {
    Set::new(|key: PointKey| exists|f: int| 0 <= f < faces.len() && (#[trigger] faces[f]).contains(key))
}

/// The points that the faces use, in order.
pub fn face_vertices(faces: &Vec<Vec<PointKey>>) -> (result: SortedSet<PointKey>)
    ensures
        result.wf(),
        result@ == used_by(lists(faces@)),
{
    let mut set: SortedSet<PointKey> = SortedSet::new();
    let mut f: usize = 0;
    assert(set@ =~= used_by(lists(faces@).take(0)));
    while f < faces.len()
        invariant
            f <= faces.len(),
            set.wf(),
            set@ == used_by(lists(faces@).take(f as int)),
        decreases faces.len() - f,
    {
        let ghost before = set@;
        let mut i: usize = 0;
        while i < faces[f].len()
            invariant
                f < faces.len(),
                i <= faces@[f as int].len(),
                set.wf(),
                forall|key: PointKey| #[trigger]
                    set@.contains(key) <==> before.contains(key) || faces@[f as int]@.take(
                        i as int,
                    ).contains(key),
            decreases faces@[f as int].len() - i,
        {
            let key = faces[f][i];
            let ghost face = faces@[f as int]@;
            let ghost held = set@;
            set.insert(key);
            proof {
                assert(face.take(i as int + 1) =~= face.take(i as int).push(key));
                assert forall|k: PointKey| #[trigger]
                    set@.contains(k) <==> before.contains(k) || face.take(i as int + 1).contains(
                        k,
                    ) by {
                    assert(held.contains(k) <==> before.contains(k) || face.take(
                        i as int,
                    ).contains(k));
                    let longer = face.take(i as int).push(key);
                    assert(longer[i as int] == key);
                    if face.take(i as int).contains(k) {
                        let p = face.take(i as int).index_of(k);
                        assert(longer[p] == k);
                    }
                    if longer.contains(k) && k != key {
                        let p = longer.index_of(k);
                        assert(face.take(i as int)[p] == k);
                    }
                }
            }
            i = i + 1;
        }
        proof {
            let old_list = lists(faces@).take(f as int);
            let new_list = lists(faces@).take(f as int + 1);
            let face = faces@[f as int]@;
            assert(face.take(i as int) =~= face);
            assert(new_list =~= old_list.push(face));
            assert forall|k: PointKey| #[trigger] set@.contains(k) <==> used_by(new_list).contains(
                k,
            ) by {
                if before.contains(k) {
                    let p = choose|p: int|
                        0 <= p < old_list.len() && (#[trigger] old_list[p]).contains(k);
                    assert(new_list[p].contains(k));
                }
                assert(new_list[f as int] == face);
                if used_by(new_list).contains(k) {
                    let p = choose|p: int|
                        0 <= p < new_list.len() && (#[trigger] new_list[p]).contains(k);
                    if p < f {
                        assert(old_list[p].contains(k));
                    }
                }
            }
            assert(set@ =~= used_by(new_list));
        }
        f = f + 1;
    }
    assert(lists(faces@).take(f as int) =~= lists(faces@));
    set
}

/// The corners that the mask marks, or those that it does not, in order.
pub open spec fn corners_where(mask: int, on: bool) -> Seq<usize> {
    seq![0usize, 1, 2, 3].filter(|corner: usize| marked(mask, corner as int) == on)
}

fn list_corners(mask: u8, on: bool) -> (result: Vec<usize>)
    ensures
        result@ == corners_where(mask as int, on),
        forall|i: int| 0 <= i < result.len() ==> #[trigger] result[i] < 4,
        forall|i: int|
            0 <= i < result.len() ==> marked(mask as int, #[trigger] result[i] as int) == on,
{
    let ghost all = seq![0usize, 1, 2, 3];
    let ghost test = |corner: usize| marked(mask as int, corner as int) == on;
    let mut list: Vec<usize> = Vec::new();
    let mut corner: usize = 0;
    proof {
        assert(all.take(0) =~= Seq::empty());
        reveal(Seq::filter);
    }
    while corner < 4
        invariant
            corner <= 4,
            all == seq![0usize, 1, 2, 3],
            test == (|corner: usize| marked(mask as int, corner as int) == on),
            list@ == all.take(corner as int).filter(test),
            forall|i: int| 0 <= i < list.len() ==> #[trigger] list[i] < 4,
            forall|i: int|
                0 <= i < list.len() ==> marked(mask as int, #[trigger] list[i] as int) == on,
        decreases 4 - corner,
    {
        proof {
            reveal(Seq::filter);
            assert(all.take(corner as int + 1).drop_last() =~= all.take(corner as int));
            assert(all.take(corner as int + 1).last() == corner);
        }
        if is_marked(mask, corner) == on {
            list.push(corner);
        }
        corner = corner + 1;
    }
    assert(all.take(4) =~= all);
    list
}

/// The two triangles of the prism that remains where three corners are
/// inside, or two; `None` elsewhere.
pub open spec fn prism_of(
    mask: int,
    samples: Seq<Sample>,
    crossings: Map<(usize, usize), PointKey>,
) -> Option<(Seq<PointKey>, Seq<PointKey>)> {
    let on = corners_where(mask, true);
    let off = corners_where(mask, false);
    let corner = |k: int| PointKey::Lattice(samples[on[k] as int].key);
    let crossing = |k: int, l: int| crossings[corner_edge(on[k], off[l])];
    if on.len() == 3 {
        Some(
            (
                seq![corner(0), corner(1), corner(2)],
                seq![crossing(0, 0), crossing(1, 0), crossing(2, 0)],
            ),
        )
    } else if on.len() == 2 {
        Some(
            (
                seq![corner(0), crossing(0, 0), crossing(0, 1)],
                seq![corner(1), crossing(1, 0), crossing(1, 1)],
            ),
        )
    } else {
        None
    }
}

/// The corners that are marked and those that are not make up four.
proof fn corners_split(mask: int)
    ensures
        corners_where(mask, true).len() + corners_where(mask, false).len() == 4,
{
    reveal_with_fuel(Seq::filter, 6);
    let all = seq![0usize, 1, 2, 3];
    assert(all.drop_last() =~= all.take(3));
    assert(all.take(3).drop_last() =~= all.take(2));
    assert(all.take(2).drop_last() =~= all.take(1));
    assert(all.take(1).drop_last() =~= all.take(0));
}

/// Where every face is ready, every edge is.
proof fn edges_ready(samples: Seq<Sample>, crossings: Map<(usize, usize), PointKey>, a: usize, b: usize)
    requires
        tet_ready(samples, crossings),
        a < 4,
        b < 4,
        samples[a as int].inside() != samples[b as int].inside(),
    ensures
        crossings.dom().contains(corner_edge(a, b)),
{
}

/// The mask marks the samples inside.
pub open spec fn masks(mask: int, samples: Seq<Sample>) -> bool {
    forall|i: int| 0 <= i < 4 ==> marked(mask, i) == (#[trigger] samples[i]).inside()
}

fn crossing_at(mask: u8, samples: &[Sample; 4], crossings: &EdgeCrossings, a: usize, b: usize) -> (result:
    PointKey)
    requires
        crossings.wf(),
        tet_ready(samples@, crossings@),
        masks(mask as int, samples@),
        a < 4,
        b < 4,
        marked(mask as int, a as int),
        !marked(mask as int, b as int),
    ensures
        result == crossings@[corner_edge(a, b)],
{
    proof {
        assert(samples@[a as int].inside() && !samples@[b as int].inside());
        edges_ready(samples@, crossings@, a, b);
    }
    *crossings.get(&edge_between(a, b)).unwrap()
}

pub fn find_prism(mask: u8, samples: &[Sample; 4], crossings: &EdgeCrossings) -> (result: Option<
    [[PointKey; 3]; 2],
>)
    requires
        crossings.wf(),
        tet_ready(samples@, crossings@),
        masks(mask as int, samples@),
    ensures
        match prism_of(mask as int, samples@, crossings@) {
            Some((p, q)) => result matches Some(prism) && prism[0]@ == p && prism[1]@ == q,
            None => result is None,
        },
{
    let on = list_corners(mask, true);
    let off = list_corners(mask, false);
    proof {
        corners_split(mask as int);
    }
    if on.len() == 3 {
        let o: usize = off[0];
        let first = [
            PointKey::Lattice(samples[on[0]].key),
            PointKey::Lattice(samples[on[1]].key),
            PointKey::Lattice(samples[on[2]].key),
        ];
        let second = [
            crossing_at(mask, samples, crossings, on[0], o),
            crossing_at(mask, samples, crossings, on[1], o),
            crossing_at(mask, samples, crossings, on[2], o),
        ];
        proof {
            let (p, q) = prism_of(mask as int, samples@, crossings@).unwrap();
            assert(first@ =~= p);
            assert(second@ =~= q);
        }
        Some([first, second])
    } else if on.len() == 2 {
        let c: usize = off[0];
        let d: usize = off[1];
        let first = [
            PointKey::Lattice(samples[on[0]].key),
            crossing_at(mask, samples, crossings, on[0], c),
            crossing_at(mask, samples, crossings, on[0], d),
        ];
        let second = [
            PointKey::Lattice(samples[on[1]].key),
            crossing_at(mask, samples, crossings, on[1], c),
            crossing_at(mask, samples, crossings, on[1], d),
        ];
        proof {
            let (p, q) = prism_of(mask as int, samples@, crossings@).unwrap();
            assert(first@ =~= p);
            assert(second@ =~= q);
        }
        Some([first, second])
    } else {
        None
    }
}

/// What becomes of the polyhedron that remains.
pub enum SolidPlan {
    /// It shrank to a face or less.
    Empty,
    /// It is one tetrahedron.
    Tet([PointKey; 4]),
    /// It has to be filled; where it is a prism, its two triangles.
    Fill(Option<[[PointKey; 3]; 2]>),
}

pub open spec fn all_triangles(faces: Seq<Seq<PointKey>>) -> bool {
    forall|f: int| 0 <= f < faces.len() ==> (#[trigger] faces[f]).len() == 3
}

fn only_triangles(faces: &Vec<Vec<PointKey>>) -> (result: bool)
    ensures
        result == all_triangles(lists(faces@)),
{
    let mut f: usize = 0;
    while f < faces.len()
        invariant
            f <= faces.len(),
            forall|k: int| 0 <= k < f ==> (#[trigger] lists(faces@)[k]).len() == 3,
        decreases faces.len() - f,
    {
        assert(lists(faces@)[f as int] == faces@[f as int]@);
        if faces[f].len() != 3 {
            return false;
        }
        f = f + 1;
    }
    true
}

pub fn plan_solid(
    mask: u8,
    samples: &[Sample; 4],
    crossings: &EdgeCrossings,
    faces: &Vec<Vec<PointKey>>,
    vertices: &SortedSet<PointKey>,
) -> (result: SolidPlan)
    requires
        crossings.wf(),
        tet_ready(samples@, crossings@),
        masks(mask as int, samples@),
    ensures
        vertices.items@.len() < 4 || faces@.len() < 4 ==> result is Empty,
        vertices.items@.len() == 4 && faces@.len() >= 4 && all_triangles(lists(faces@)) ==> (
        result matches SolidPlan::Tet(tet) && tet@ == vertices.items@),
        vertices.items@.len() >= 4 && faces@.len() >= 4 && !(vertices.items@.len() == 4
            && all_triangles(lists(faces@))) ==> (result matches SolidPlan::Fill(found) && match prism_of(
            mask as int,
            samples@,
            crossings@,
        ) {
            Some((p, q)) => if vertices.items@.len() == 6 {
                found matches Some(prism) && prism[0]@ == p && prism[1]@ == q
            } else {
                found is None
            },
            None => found is None,
        }),
{
    let count: usize = vertices.items.len();
    if count < 4 || faces.len() < 4 {
        return SolidPlan::Empty;
    }
    if count == 4 && only_triangles(faces) {
        let tet = [vertices.items[0], vertices.items[1], vertices.items[2], vertices.items[3]];
        assert(tet@ =~= vertices.items@);
        return SolidPlan::Tet(tet);
    }
    if count == 6 {
        SolidPlan::Fill(find_prism(mask, samples, crossings))
    } else {
        SolidPlan::Fill(None)
    }
}

/// The triangles of a polygon: a quad is cut along the better diagonal, any
/// other polygon from its first point.
pub open spec fn polygon_cut(polygon: Seq<PointKey>, better: Diagonal) -> Seq<Seq<PointKey>> {
    if polygon.len() == 4 {
        quad_cut(polygon, better)
    } else if polygon.len() < 3 {
        Seq::empty()
    } else {
        Seq::new(
            (polygon.len() - 2) as nat,
            |i: int| seq![polygon[0], polygon[i + 1], polygon[i + 2]],
        )
    }
}

pub open spec fn triples(triangles: Seq<[PointKey; 3]>) -> Seq<Seq<PointKey>> {
    triangles.map_values(|triangle: [PointKey; 3]| triangle@)
}

pub fn triangulate_polygon(polygon: &Vec<PointKey>, better: Diagonal) -> (result: Vec<[PointKey; 3]>)
    ensures
        triples(result@) == polygon_cut(polygon@, better),
{
    let mut triangles: Vec<[PointKey; 3]> = Vec::new();
    if polygon.len() == 4 {
        let quad = [polygon[0], polygon[1], polygon[2], polygon[3]];
        assert(quad@ =~= polygon@);
        let pair = triangulate_face(&quad, better);
        triangles.push(pair[0]);
        triangles.push(pair[1]);
        assert(triples(triangles@) =~= polygon_cut(polygon@, better));
        return triangles;
    }
    if polygon.len() < 3 {
        assert(triples(triangles@) =~= polygon_cut(polygon@, better));
        return triangles;
    }
    let mut i: usize = 0;
    while i < polygon.len() - 2
        invariant
            3 <= polygon.len(),
            polygon.len() != 4,
            i <= polygon.len() - 2,
            triangles.len() == i,
            forall|k: int|
                0 <= k < i ==> (#[trigger] triangles@[k])@ == seq![
                    polygon@[0],
                    polygon@[k + 1],
                    polygon@[k + 2],
                ],
        decreases polygon.len() - 2 - i,
    {
        let triangle = [polygon[0], polygon[i + 1], polygon[i + 2]];
        assert(triangle@ =~= seq![polygon@[0], polygon@[i + 1], polygon@[i + 2]]);
        triangles.push(triangle);
        i = i + 1;
    }
    assert(triples(triangles@) =~= polygon_cut(polygon@, better));
    triangles
}

/// The triangles of the first faces, one face after the other.
pub open spec fn surface(faces: Seq<Seq<PointKey>>, better: Seq<Diagonal>, count: int) -> Seq<
    Seq<PointKey>,
>
    decreases count,
{
    if count <= 0 {
        Seq::empty()
    } else {
        surface(faces, better, count - 1) + polygon_cut(faces[count - 1], better[count - 1])
    }
}

/// The triangles of all faces, given which diagonal of each is better.
pub fn triangulate_surface(faces: &Vec<Vec<PointKey>>, better: &Vec<Diagonal>) -> (result: Vec<
    [PointKey; 3],
>)
    requires
        better@.len() == faces@.len(),
    ensures
        triples(result@) == surface(lists(faces@), better@, faces@.len() as int),
{
    let mut triangles: Vec<[PointKey; 3]> = Vec::new();
    let mut f: usize = 0;
    assert(triples(triangles@) =~= surface(lists(faces@), better@, 0));
    while f < faces.len()
        invariant
            f <= faces.len(),
            better@.len() == faces@.len(),
            triples(triangles@) == surface(lists(faces@), better@, f as int),
        decreases faces.len() - f,
    {
        let more = triangulate_polygon(&faces[f], better[f]);
        let ghost start = triangles@;
        let mut i: usize = 0;
        while i < more.len()
            invariant
                i <= more.len(),
                triangles@ == start + more@.take(i as int),
            decreases more.len() - i,
        {
            triangles.push(more[i]);
            assert(triangles@ =~= start + more@.take(i as int + 1));
            i = i + 1;
        }
        proof {
            assert(more@.take(i as int) =~= more@);
            assert(triples(triangles@) =~= triples(start) + triples(more@));
            assert(lists(faces@)[f as int] == faces@[f as int]@);
        }
        f = f + 1;
    }
    triangles
}

/// Of the faces of a cut tetrahedron those stay that have three corners or more, in order.
pub proof fn shrunken_faces_are_left_out(
    samples: Seq<Sample>,
    crossings: Map<(usize, usize), PointKey>,
    count: int,
) -> (places: Seq<int>)
    requires
        0 <= count,
    ensures
        remaining_faces(samples, crossings, count).len() == places.len(),
        forall|i: int, j: int|
            0 <= i < j < places.len() ==> (#[trigger] places[i]) < (#[trigger] places[j]),
        forall|k: int| #[trigger] places.contains(k) <==> 0 <= k < count && remaining_face(samples, crossings, k).len() >= 3,
        forall|i: int|
            0 <= i < places.len() ==> remaining_faces(samples, crossings, count)[i] == remaining_face(samples, crossings, (#[trigger] places[i])),
    decreases count,
{
    if count == 0 {
        Seq::empty()
    } else {
        let list = shrunken_faces_are_left_out(samples, crossings, count - 1);
        let last = count - 1;
        let takes = remaining_face(samples, crossings, last).len() >= 3;
        let places = if takes {
            list.push(last)
        } else {
            list
        };
        let rest = remaining_faces(samples, crossings, count - 1);
        let now = remaining_faces(samples, crossings, count);
        
        assert forall|i: int| 0 <= i < list.len() implies 0 <= (#[trigger] list[i]) < last by {
            assert(list.contains(list[i]));
        }
        assert forall|k: int| #[trigger] places.contains(k) <==> 0 <= k < count && remaining_face(samples, crossings, k).len() >= 3 by {
            if places.contains(k) {
                let m = places.index_of(k);
                if m < list.len() {
                    assert(list[m] == k);
                    assert(list.contains(k));
                }
            }
            if list.contains(k) {
                let m = list.index_of(k);
                assert(places[m] == k);
            }
            if k == last && takes {
                assert(places[list.len() as int] == k);
            }
        }
        assert forall|i: int| 0 <= i < places.len() implies now[i] == remaining_face(samples, crossings, (#[trigger] places[i])) by {
            if i < list.len() {
                assert(places[i] == list[i]);
                assert(now[i] == rest[i]);
            }
        }
        places
    }
}

/// The prism that remains of a tetrahedron joins its triangles along the edges that were
/// cut. With three corners inside, over each of them stands the crossing towards the
/// corner outside. With two inside, the triangles start at these two, and opposite each
/// other stand their crossings towards the same corner outside.
pub proof fn prism_joins_cut_edges(
    mask: int,
    samples: Seq<Sample>,
    crossings: Map<(usize, usize), PointKey>,
    i: usize,
    j: usize,
    o: usize,
)
    requires
        0 <= mask < 16,
        i < 4,
        j < 4,
        o < 4,
        i != j,
        marked(mask, i as int),
        marked(mask, j as int),
        !marked(mask, o as int),
    ensures
        prism_of(mask, samples, crossings) is Some,
        ({
            let (p, q) = prism_of(mask, samples, crossings)->0;
            let at = |k: usize| PointKey::Lattice(samples[k as int].key);
            let cut = |k: usize| crossings[corner_edge(k, o)];
            &&& p.len() == 3
            &&& q.len() == 3
            &&& marked_count(mask) == 3 ==> exists|k: int|
                0 <= k < 3 && #[trigger] p[k] == at(i) && #[trigger] q[k] == cut(i)
            &&& marked_count(mask) == 2 && i < j ==> p[0] == at(i) && q[0] == at(j) && exists|k: int|
                1 <= k < 3 && #[trigger] p[k] == cut(i) && #[trigger] q[k] == cut(j)
        }),
        corner_edge(i, o) == corner_edge(o, i),
{
    corners_listed(mask);
    let on = corners_where(mask, true);
    let off = corners_where(mask, false);
    let (p, q) = prism_of(mask, samples, crossings)->0;
    if marked_count(mask) == 3 {
        let k: int = if on[0] == i {
            0
        } else if on[1] == i {
            1
        } else {
            2
        };
        assert(on[k] == i && off[0] == o);
        assert(p[k] == PointKey::Lattice(samples[i as int].key));
        assert(q[k] == crossings[corner_edge(i, o)]);
    } else if i < j {
        let k: int = if off[0] == o {
            1
        } else {
            2
        };
        assert(on[0] == i && on[1] == j && off[k - 1] == o);
        assert(p[k] == crossings[corner_edge(i, o)]);
        assert(q[k] == crossings[corner_edge(j, o)]);
    }
}

/// The marked corners and the others, written out.
proof fn corners_listed(mask: int)
    requires
        0 <= mask < 16,
    ensures
        ({
            let on = corners_where(mask, true);
            let off = corners_where(mask, false);
            &&& on.len() == marked_count(mask)
            &&& off.len() == 4 - marked_count(mask)
            &&& forall|a: int, b: int| 0 <= a < b < on.len() ==> (#[trigger] on[a]) < (
            #[trigger] on[b])
            &&& forall|a: int, b: int| 0 <= a < b < off.len() ==> (#[trigger] off[a]) < (
            #[trigger] off[b])
            &&& forall|k: usize|
                k < 4 ==> (marked(mask, k as int) <==> #[trigger] on.contains(k))
            &&& forall|k: usize|
                k < 4 ==> (!marked(mask, k as int) <==> #[trigger] off.contains(k))
            &&& forall|a: int| 0 <= a < on.len() ==> (#[trigger] on[a]) < 4
            &&& forall|a: int| 0 <= a < off.len() ==> (#[trigger] off[a]) < 4
        }),
{
    chosen_corners(mask, true, 4);
    chosen_corners(mask, false, 4);
    reveal_with_fuel(wanted_count, 5);
    assert(seq![0usize, 1, 2, 3].take(4) =~= seq![0usize, 1, 2, 3]);
    assert forall|k: usize| k < 4 implies (marked(mask, k as int) <==> #[trigger] corners_where(
        mask,
        true,
    ).contains(k)) by {}
}

/// The corners among the first that are marked as wanted.
proof fn chosen_corners(mask: int, on: bool, count: int)
    requires
        0 <= count <= 4,
    ensures
        ({
            let list = seq![0usize, 1, 2, 3].take(count).filter(
                |corner: usize| marked(mask, corner as int) == on,
            );
            &&& forall|a: int, b: int| 0 <= a < b < list.len() ==> (#[trigger] list[a]) < (
            #[trigger] list[b])
            &&& forall|a: int| 0 <= a < list.len() ==> (#[trigger] list[a]) < count
            &&& forall|k: usize|
                k < count ==> ((marked(mask, k as int) == on) <==> #[trigger] list.contains(k))
            &&& list.len() == wanted_count(mask, on, count)
        }),
    decreases count,
{
    reveal(Seq::filter);
    let keep = |corner: usize| marked(mask, corner as int) == on;
    let all = seq![0usize, 1, 2, 3];
    let list = all.take(count).filter(keep);
    if count > 0 {
        chosen_corners(mask, on, count - 1);
        let rest = all.take(count - 1).filter(keep);
        assert(all.take(count).drop_last() =~= all.take(count - 1));
        assert(all.take(count).last() == count - 1);
        assert forall|k: usize| k < count implies ((marked(mask, k as int) == on)
            <==> #[trigger] list.contains(k)) by {
            if k < count - 1 {
                assert((marked(mask, k as int) == on) <==> rest.contains(k));
                if rest.contains(k) {
                    let m = rest.index_of(k);
                    assert(list[m] == k);
                }
                if list.contains(k) {
                    let m = list.index_of(k);
                    assert(m < rest.len());
                    assert(rest[m] == k);
                }
            } else {
                if marked(mask, k as int) == on {
                    assert(list[rest.len() as int] == k);
                }
                if list.contains(k) {
                    let m = list.index_of(k);
                    if m < rest.len() {
                        assert(rest[m] == k);
                    }
                }
            }
        }
    } else {
        assert(all.take(0).filter(keep) =~= Seq::empty());
    }
}

/// How many of the first corners are marked as wanted.
spec fn wanted_count(mask: int, on: bool, count: int) -> int
    decreases count,
{
    if count <= 0 {
        0
    } else {
        wanted_count(mask, on, count - 1) + if marked(mask, count - 1) == on {
            1int
        } else {
            0
        }
    }
}

} // verus!
