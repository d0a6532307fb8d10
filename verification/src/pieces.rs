//! What is kept of the pieces of a volume: clipped faces, numbered points, fans of
//! cells, and the best of several fillings.

use vstd::prelude::*;

#[allow(unused_imports)]
use crate::covering::{quad_runs, runs, triangle_runs};
#[allow(unused_imports)]
use crate::filling::{
    best_of_orders, order_fits, prism_objective, replaces, righted_cut, FaceKey, PrismMeasure,
};
#[allow(unused_imports)]
use crate::marching::without_repeats;
#[allow(unused_imports)]
use crate::number::{Real, Vector3};
#[allow(unused_imports)]
use crate::outlines::{outline_at, outline_kept};
#[allow(unused_imports)]
use crate::quadtree;
#[allow(unused_imports)]
use crate::solid::{better, worst_of, Objective, PointKey};
#[allow(unused_imports)]
use crate::solid_repair::{best_trial, SmoothTrial};
#[allow(unused_imports)]
use crate::volume::{
    after_edge, boundary_triangles, crossing_number, cut_face_of, lattice_number, on_boundary,
    pair, with_crossing, with_fan, with_lattice, Corner, PointTable, Sign,
};
#[allow(unused_imports)]
use crate::volume_layers::{apex_of, attached, prism_of, pyramid_of};

verus! {

/// The numbers of a table are those of its points, and no two names have the same.
pub open spec fn table_sound(table: PointTable) -> bool {
    let count = table.points.len();
    &&& forall|a: usize| #[trigger] table.lattice.dom().contains(a) ==> table.lattice[a] < count
    &&& forall|e: (usize, usize)| #[trigger]
        table.crossings.dom().contains(e) ==> table.crossings[e] < count
            && table.boundary.contains(table.crossings[e])
    &&& forall|a: usize, b: usize|
        #[trigger] table.lattice.dom().contains(a) && #[trigger] table.lattice.dom().contains(b)
            && table.lattice[a] == table.lattice[b] ==> a == b
    &&& forall|e: (usize, usize), f: (usize, usize)|
        #[trigger] table.crossings.dom().contains(e) && #[trigger] table.crossings.dom().contains(f)
            && table.crossings[e] == table.crossings[f] ==> e == f
    &&& forall|a: usize, e: (usize, usize)|
        #[trigger] table.lattice.dom().contains(a) && #[trigger] table.crossings.dom().contains(e)
            ==> table.lattice[a] != table.crossings[e]
}

/// A lattice point keeps its number, and a new one gets a number of its own with its
/// place. No other name and no other place changes.
pub proof fn lattice_points_are_numbered_once(table: PointTable, lattice: usize, position: Vector3)
    requires
        table_sound(table),
        table.points.len() < usize::MAX,
    ensures
        ({
            let after = with_lattice(table, lattice, position);
            let number = lattice_number(table, lattice);
            &&& table_sound(after)
            &&& after.lattice.dom().contains(lattice)
            &&& after.lattice[lattice] == number
            &&& table.lattice.dom().contains(lattice) ==> after == table
            &&& !table.lattice.dom().contains(lattice) ==> after.points[number as int] == position
                && after.points.len() == table.points.len() + 1
            &&& after.crossings == table.crossings
            &&& after.boundary == table.boundary
            &&& forall|i: int| 0 <= i < table.points.len() ==> after.points[i] == table.points[i]
            &&& forall|other: usize|
                other != lattice ==> (#[trigger] after.lattice.dom().contains(other)
                    == table.lattice.dom().contains(other)) && after.lattice[other]
                    == table.lattice[other]
        }),
{
}

/// A crossing keeps its number from whichever end its edge is met, and a new one gets a
/// number of its own on the boundary with its place.
pub proof fn crossings_are_numbered_once(table: PointTable, a: usize, b: usize, position: Vector3)
    requires
        table_sound(table),
        table.points.len() < usize::MAX,
    ensures
        ({
            let after = with_crossing(table, a, b, position);
            let number = crossing_number(table, a, b);
            &&& number == crossing_number(table, b, a)
            &&& after == with_crossing(table, b, a, position)
            &&& table_sound(after)
            &&& number == crossing_number(after, a, b)
            &&& after.boundary.contains(number)
            &&& number == crossing_number(table, a, b)
            &&& crossing_number(table, a, b) < table.points.len() ==> after == table
            &&& crossing_number(table, a, b) == table.points.len() ==> after.points[number as int]
                == position && after.points.len() == table.points.len() + 1
            &&& after.lattice == table.lattice
            &&& forall|i: int| 0 <= i < table.points.len() ==> after.points[i] == table.points[i]
        }),
{
}

/// An edge is named alike from both ends, and the name tells the ends.
pub proof fn pair_names_edge(a: usize, b: usize, c: usize, d: usize)
    ensures
        pair(a, b) == pair(b, a),
        pair(a, b) == pair(c, d) ==> (a == c && b == d) || (a == d && b == c),
{
}

/// The list walks the part of a triangle that is inside, from its first corner on: the
/// corners inside and the crossings of edges whose ends differ, each once, in order.
pub open spec fn walks_round<K>(
    corners: Seq<K>,
    crossings: Seq<K>,
    inside: Seq<bool>,
    list: Seq<K>,
    places: Seq<int>,
) -> bool {
    &&& places.len() == list.len()
    &&& forall|i: int, j: int|
        0 <= i < j < places.len() ==> (#[trigger] places[i]) < (#[trigger] places[j])
    &&& forall|place: int|
        #[trigger] places.contains(place) <==> 0 <= place < 6 && outline_kept(inside, place)
    &&& forall|i: int|
        0 <= i < list.len() ==> #[trigger] list[i] == outline_at(corners, crossings, places[i])
}

spec fn kept_upto(inside: Seq<bool>, upto: int) -> Seq<int>
    decreases upto,
{
    if upto <= 0 {
        Seq::empty()
    } else if outline_kept(inside, upto - 1) {
        kept_upto(inside, upto - 1).push(upto - 1)
    } else {
        kept_upto(inside, upto - 1)
    }
}

proof fn kept_upto_is_exact(inside: Seq<bool>, upto: int)
    requires
        0 <= upto <= 6,
    ensures
        forall|i: int, j: int|
            0 <= i < j < kept_upto(inside, upto).len() ==> (#[trigger] kept_upto(inside, upto)[i]) < (
            #[trigger] kept_upto(inside, upto)[j]),
        forall|place: int|
            #[trigger] kept_upto(inside, upto).contains(place) <==> 0 <= place < upto
                && outline_kept(inside, place),
    decreases upto,
{
    if upto > 0 {
        kept_upto_is_exact(inside, upto - 1);
        let rest = kept_upto(inside, upto - 1);
        let list = kept_upto(inside, upto);
        assert forall|i: int| 0 <= i < rest.len() implies (#[trigger] rest[i]) < upto - 1 by {
            assert(rest.contains(rest[i]));
        }
        assert forall|place: int|
            #[trigger] list.contains(place) <==> 0 <= place < upto && outline_kept(inside, place) by {
            if list.contains(place) {
                let k = list.index_of(place);
                if k < rest.len() {
                    assert(rest[k] == place);
                    assert(rest.contains(place));
                }
            }
            if rest.contains(place) {
                let k = rest.index_of(place);
                assert(list[k] == place);
            }
            if place == upto - 1 && outline_kept(inside, place) {
                assert(list[rest.len() as int] == place);
            }
        }
    }
}

/// The numbers of the corners of a face, and of the crossings of its edges.
pub open spec fn corner_numbers(table: PointTable, face: Seq<Corner>) -> Seq<usize> {
    Seq::new(3, |i: int| table.lattice[face[i].lattice])
}

pub open spec fn edge_numbers(table: PointTable, face: Seq<Corner>) -> Seq<usize> {
    seq![
        table.crossings[pair(face[0].lattice, face[1].lattice)],
        table.crossings[pair(face[1].lattice, face[2].lattice)],
        table.crossings[pair(face[2].lattice, face[0].lattice)],
    ]
}

pub open spec fn corner_signs(face: Seq<Corner>) -> Seq<bool> {
    Seq::new(3, |i: int| face[i].inside)
}

/// The numbers before an edge stay, and the edge adds those of its own.
proof fn edge_adds(
    state: (PointTable, Seq<usize>),
    a: Corner,
    b: Corner,
    crossing: Vector3,
)
    requires
        table_sound(state.0),
        state.0.points.len() + 2 <= usize::MAX,
    ensures
        ({
            let (after, list) = after_edge(state, a, b, crossing);
            let (table, polygon) = state;
            let start = if a.inside {
                polygon.push(after.lattice[a.lattice])
            } else {
                polygon
            };
            &&& table_sound(after)
            &&& after.points.len() <= table.points.len() + 2
            &&& list == (if a.inside != b.inside {
                start.push(after.crossings[pair(a.lattice, b.lattice)])
            } else {
                start
            })
            &&& forall|key: usize|
                table.lattice.dom().contains(key) ==> #[trigger] after.lattice.dom().contains(key)
                    && after.lattice[key] == table.lattice[key]
            &&& forall|key: (usize, usize)|
                table.crossings.dom().contains(key) ==> #[trigger] after.crossings.dom().contains(
                    key,
                ) && after.crossings[key] == table.crossings[key]
            &&& a.inside ==> after.lattice.dom().contains(a.lattice)
            &&& a.inside != b.inside ==> after.crossings.dom().contains(pair(a.lattice, b.lattice))
        }),
{
    let (table, polygon) = state;
    if a.inside {
        lattice_points_are_numbered_once(table, a.lattice, a.position);
    }
    let next = if a.inside {
        with_lattice(table, a.lattice, a.position)
    } else {
        table
    };
    if a.inside != b.inside {
        crossings_are_numbered_once(next, a.lattice, b.lattice, crossing);
    }
}

/// What is kept of a face walks its outline: the numbers of the corners inside and of the
/// crossings of the edges whose ends differ, each once and in order. Only repeats of a
/// number are dropped. Numbers given before stay.
pub proof fn cut_face_follows_outline(
    table: PointTable,
    face: Seq<Corner>,
    crossings: Seq<Vector3>,
) -> (places: Seq<int>)
    requires
        table_sound(table),
        table.points.len() + 6 <= usize::MAX,
        face.len() == 3,
    ensures
        ({
            let (after, polygon) = cut_face_of(table, face, crossings);
            let walked = Seq::new(
                places.len(),
                |i: int|
                    outline_at(corner_numbers(after, face), edge_numbers(after, face), places[i]),
            );
            &&& table_sound(after)
            &&& walks_round(
                corner_numbers(after, face),
                edge_numbers(after, face),
                corner_signs(face),
                walked,
                places,
            )
            &&& polygon == without_repeats(walked)
            &&& forall|key: usize|
                table.lattice.dom().contains(key) ==> #[trigger] after.lattice.dom().contains(key)
                    && after.lattice[key] == table.lattice[key]
            &&& forall|key: (usize, usize)|
                table.crossings.dom().contains(key) ==> #[trigger] after.crossings.dom().contains(
                    key,
                ) && after.crossings[key] == table.crossings[key]
        }),
{
    let inside = corner_signs(face);
    let one = after_edge((table, Seq::empty()), face[0], face[1], crossings[0]);
    let two = after_edge(one, face[1], face[2], crossings[1]);
    let three = after_edge(two, face[2], face[0], crossings[2]);
    edge_adds((table, Seq::empty()), face[0], face[1], crossings[0]);
    edge_adds(one, face[1], face[2], crossings[1]);
    edge_adds(two, face[2], face[0], crossings[2]);
    let after = three.0;
    let places = kept_upto(inside, 6);
    kept_upto_is_exact(inside, 6);
    let corners = corner_numbers(after, face);
    let edges = edge_numbers(after, face);
    let at = |list: Seq<int>| Seq::new(list.len(), |i: int| outline_at(corners, edges, list[i]));
    assert(inside[0] == face[0].inside && inside[1] == face[1].inside && inside[2]
        == face[2].inside);
    reveal_with_fuel(kept_upto, 3);
    let first = kept_upto(inside, 2);
    let second = kept_upto(inside, 4);
    assert(outline_kept(inside, 0) == face[0].inside);
    assert(outline_kept(inside, 1) == (face[0].inside != face[1].inside));
    assert(outline_kept(inside, 2) == face[1].inside);
    assert(outline_kept(inside, 3) == (face[1].inside != face[2].inside));
    assert(outline_kept(inside, 4) == face[2].inside);
    assert(outline_kept(inside, 5) == (face[2].inside != face[0].inside));
    assert(outline_at(corners, edges, 0) == corners[0]);
    assert(outline_at(corners, edges, 1) == edges[0]);
    assert(outline_at(corners, edges, 2) == corners[1]);
    assert(outline_at(corners, edges, 3) == edges[1]);
    assert(outline_at(corners, edges, 4) == corners[2]);
    assert(outline_at(corners, edges, 5) == edges[2]);
    assert(one.1 =~= at(first));
    assert(two.1 =~= at(second));
    assert(three.1 =~= at(places));
    places
}

/// The tetrahedra from a centre to triangles: those that are not flat, in order, each of
/// its centre and its triangle, with two corners exchanged where it was inverted.
pub open spec fn fans_out(
    before: Seq<Seq<usize>>,
    center: usize,
    triangles: Seq<[usize; 3]>,
    signs: Seq<Sign>,
    after: Seq<Seq<usize>>,
    places: Seq<int>,
) -> bool {
    &&& after.len() == before.len() + places.len()
    &&& forall|i: int| 0 <= i < before.len() ==> #[trigger] after[i] == before[i]
    &&& forall|i: int, j: int|
        0 <= i < j < places.len() ==> (#[trigger] places[i]) < (#[trigger] places[j])
    &&& forall|t: int|
        #[trigger] places.contains(t) <==> 0 <= t < triangles.len() && signs[t] != Sign::Zero
    &&& forall|i: int|
        0 <= i < places.len() ==> {
            let t = triangles[#[trigger] places[i]]@;
            let cell = after[before.len() + i];
            &&& cell.len() == 4
            &&& signs[places[i]] == Sign::Positive ==> cell == seq![center, t[0], t[1], t[2]]
            &&& signs[places[i]] == Sign::Negative ==> cell == seq![t[0], center, t[1], t[2]]
        }
}

/// A fan of cells has one for each triangle that is not flat with the centre.
pub proof fn fan_has_a_cell_each(
    cells: Seq<Seq<usize>>,
    center: usize,
    triangles: Seq<[usize; 3]>,
    signs: Seq<Sign>,
    count: int,
) -> (places: Seq<int>)
    requires
        0 <= count <= triangles.len(),
    ensures
        fans_out(
            cells,
            center,
            triangles.take(count),
            signs,
            with_fan(cells, center, triangles, signs, count),
            places,
        ),
    decreases count,
{
    let after = with_fan(cells, center, triangles, signs, count);
    if count == 0 {
        Seq::empty()
    } else {
        let list = fan_has_a_cell_each(cells, center, triangles, signs, count - 1);
        let rest = with_fan(cells, center, triangles, signs, count - 1);
        let places = if signs[count - 1] == Sign::Zero {
            list
        } else {
            list.push(count - 1)
        };
        let now = triangles.take(count);
        let then = triangles.take(count - 1);
        assert forall|i: int| 0 <= i < list.len() implies 0 <= (#[trigger] list[i]) < count - 1 by {
            assert(list.contains(list[i]));
        }
        assert forall|t: int|
            #[trigger] places.contains(t) <==> 0 <= t < now.len() && signs[t] != Sign::Zero by {
            if places.contains(t) {
                let k = places.index_of(t);
                if k < list.len() {
                    assert(list[k] == t);
                    assert(list.contains(t));
                }
            }
            if list.contains(t) {
                let k = list.index_of(t);
                assert(places[k] == t);
            }
            if t == count - 1 && signs[t] != Sign::Zero {
                assert(places[list.len() as int] == t);
            }
        }
        assert forall|i: int| 0 <= i < places.len() implies {
            let t = now[#[trigger] places[i]]@;
            let cell = after[cells.len() + i];
            &&& cell.len() == 4
            &&& signs[places[i]] == Sign::Positive ==> cell == seq![center, t[0], t[1], t[2]]
            &&& signs[places[i]] == Sign::Negative ==> cell == seq![t[0], center, t[1], t[2]]
        } by {
            if i < list.len() {
                assert(places[i] == list[i]);
                assert(then[list[i]] == now[list[i]]);
                assert(after[cells.len() + i] == rest[cells.len() + i]);
            } else {
                assert(now[count - 1] == triangles[count - 1]);
            }
        }
        places
    }
}

/// The boundary faces are the triangles with all corners on the boundary, in order.
pub proof fn boundary_faces_are_exact(
    boundary: Set<usize>,
    triangles: Seq<[usize; 3]>,
    count: int,
) -> (places: Seq<int>)
    requires
        0 <= count <= triangles.len(),
    ensures
        boundary_triangles(boundary, triangles, count).len() == places.len(),
        forall|i: int, j: int|
            0 <= i < j < places.len() ==> (#[trigger] places[i]) < (#[trigger] places[j]),
        forall|t: int|
            #[trigger] places.contains(t) <==> 0 <= t < count && boundary.contains(triangles[t][0])
                && boundary.contains(triangles[t][1]) && boundary.contains(triangles[t][2]),
        forall|i: int|
            0 <= i < places.len() ==> boundary_triangles(boundary, triangles, count)[i]
                == triangles[#[trigger] places[i]],
    decreases count,
{
    if count == 0 {
        Seq::empty()
    } else {
        let list = boundary_faces_are_exact(boundary, triangles, count - 1);
        let on = on_boundary(boundary, triangles[count - 1]);
        let places = if on {
            list.push(count - 1)
        } else {
            list
        };
        assert forall|i: int| 0 <= i < list.len() implies 0 <= (#[trigger] list[i]) < count - 1 by {
            assert(list.contains(list[i]));
        }
        assert forall|t: int|
            #[trigger] places.contains(t) <==> 0 <= t < count && boundary.contains(triangles[t][0])
                && boundary.contains(triangles[t][1]) && boundary.contains(triangles[t][2]) by {
            if places.contains(t) {
                let k = places.index_of(t);
                if k < list.len() {
                    assert(list[k] == t);
                    assert(list.contains(t));
                }
            }
            if list.contains(t) {
                let k = list.index_of(t);
                assert(places[k] == t);
            }
            if t == count - 1 && on {
                assert(places[list.len() as int] == t);
            }
        }
        places
    }
}

/// A prism joins its triangles corner by corner: over each outer corner stands its inner
/// one. A flipped prism walks both triangles the other way.
pub proof fn prism_joins_triangles(
    outer: Seq<usize>,
    inner: Seq<usize>,
    flipped: bool,
    p: usize,
    q: usize,
)
    requires
        outer.len() == 3,
        inner.len() == 3,
    ensures
        ({
            let prism = prism_of(outer, inner, flipped);
            &&& prism.len() == 6
            &&& forall|k: int|
                0 <= k < 3 ==> exists|i: int|
                    0 <= i < 3 && #[trigger] prism[i] == outer[k] && prism[i + 3]
                        == #[trigger] inner[k]
            &&& runs(prism.take(3), p, q) == (if flipped {
                runs(outer, q, p)
            } else {
                runs(outer, p, q)
            })
            &&& runs(prism.skip(3), p, q) == (if flipped {
                runs(inner, q, p)
            } else {
                runs(inner, p, q)
            })
        }),
{
    let prism = prism_of(outer, inner, flipped);
    assert forall|k: int| 0 <= k < 3 implies exists|i: int|
        0 <= i < 3 && #[trigger] prism[i] == outer[k] && prism[i + 3] == #[trigger] inner[k] by {
        let i: int = if !flipped || k == 0 {
            k
        } else if k == 1 {
            2
        } else {
            1
        };
        assert(prism[i] == outer[k] && prism[i + 3] == inner[k]);
    }
    triangle_runs(prism.take(3), p, q);
    triangle_runs(prism.skip(3), p, q);
    triangle_runs(outer, p, q);
    triangle_runs(outer, q, p);
    triangle_runs(inner, p, q);
    triangle_runs(inner, q, p);
}

/// A pyramid has its base and then its apex. A flipped one walks its base the other way.
pub proof fn pyramid_keeps_base(base: Seq<usize>, apex: usize, flipped: bool, p: usize, q: usize)
    requires
        base.len() == 4,
    ensures
        pyramid_of(base, apex, flipped).len() == 5,
        pyramid_of(base, apex, flipped)[4] == apex,
        runs(pyramid_of(base, apex, flipped).take(4), p, q) == (if flipped {
            runs(base, q, p)
        } else {
            runs(base, p, q)
        }),
{
    let pyramid = pyramid_of(base, apex, flipped);
    quad_runs(pyramid.take(4), p, q);
    quad_runs(base, p, q);
    quad_runs(base, q, p);
}

/// The cell behind a face is the first one that has all its corners.
pub proof fn attached_cell_has_face(cells: Seq<[usize; 4]>, face: Seq<usize>, from: int)
    requires
        0 <= from,
        face.len() == 3,
    ensures
        match attached(cells, face, from) {
            Some(place) => from <= place < cells.len() && (forall|i: int|
                0 <= i < 3 ==> cells[place]@.contains(#[trigger] face[i])) && forall|other: int|
                from <= other < place ==> exists|i: int|
                    0 <= i < 3 && !(#[trigger] cells[other])@.contains(#[trigger] face[i]),
            None => forall|other: int|
                from <= other < cells.len() ==> exists|i: int|
                    0 <= i < 3 && !(#[trigger] cells[other])@.contains(#[trigger] face[i]),
        },
    decreases cells.len() - from,
{
    if from < cells.len() {
        let cell = cells[from]@;
        if !(cell.contains(face[0]) && cell.contains(face[1]) && cell.contains(face[2])) {
            attached_cell_has_face(cells, face, from + 1);
            let i: int = if !cell.contains(face[0]) {
                0
            } else if !cell.contains(face[1]) {
                1
            } else {
                2
            };
            assert(!cells[from]@.contains(face[i]));
        }
    }
}

/// The apex of a cell over a face is its corner off the face.
pub proof fn apex_is_off_face(cell: Seq<usize>, face: Seq<usize>, from: int)
    requires
        cell.len() == 4,
        0 <= from <= 4,
    ensures
        match apex_of(cell, face, from) {
            Some(corner) => cell.contains(corner) && !face.contains(corner),
            None => forall|i: int| from <= i < 4 ==> face.contains(#[trigger] cell[i]),
        },
    decreases 4 - from,
{
    if from < 4 {
        apex_is_off_face(cell, face, from + 1);
    }
}

/// The worst of several qualities is one of them, or one; none is worse.
pub proof fn worst_is_lowest(qualities: Seq<Real>, count: int)
    requires
        0 <= count <= qualities.len(),
        forall|i: int| 0 <= i < qualities.len() ==> !(#[trigger] qualities[i]).nan(),
    ensures
        worst_of(qualities, count) == (Real { bits: 0x3ff0_0000_0000_0000 }) || exists|i: int|
            0 <= i < count && worst_of(qualities, count) == #[trigger] qualities[i],
        !worst_of(qualities, count).nan(),
        forall|i: int|
            0 <= i < count ==> !(#[trigger] qualities[i]).lt(worst_of(qualities, count)),
        !(Real { bits: 0x3ff0_0000_0000_0000 }).lt(worst_of(qualities, count)),
    decreases count,
{
    assert(!(Real { bits: 0x3ff0_0000_0000_0000 }).nan());
    if count > 0 {
        worst_is_lowest(qualities, count - 1);
        assert(!qualities[count - 1].nan());
    }
}

/// The trial that is kept is a valid one that improves on the start, and no later one
/// improves on it. Where none is kept, none is valid and improves on the start.
pub proof fn kept_smoothing_improves(before: Objective, trials: Seq<SmoothTrial>, count: int)
    requires
        0 <= count <= trials.len(),
    ensures
        match best_trial(before, trials, count) {
            Some(place) => 0 <= place < count && trials[place].valid && better(
                before,
                trials[place].objective,
            ) && forall|j: int|
                place < j < count && (#[trigger] trials[j]).valid && better(
                    before,
                    trials[j].objective,
                ) ==> !better(trials[place].objective, trials[j].objective),
            None => forall|j: int|
                0 <= j < count ==> !((#[trigger] trials[j]).valid && better(
                    before,
                    trials[j].objective,
                )),
        },
    decreases count,
{
    if count > 0 {
        kept_smoothing_improves(before, trials, count - 1);
    }
}

/// The filling of a prism that is kept is one whose order fits, and none that follows
/// would replace it. Where none is kept, no order fits.
pub proof fn kept_filling_fits(
    p: Seq<PointKey>,
    q: Seq<PointKey>,
    wanted: Set<FaceKey>,
    measures: Seq<PrismMeasure>,
    count: int,
)
    requires
        0 <= count <= measures.len(),
    ensures
        match best_of_orders(p, q, wanted, measures, count) {
            Some(kept) => exists|k: int|
                0 <= k < count && #[trigger] order_fits(p, q, wanted, k, measures[k]) && kept == (
                    prism_objective(measures[k]),
                    righted_cut(p, q, k, measures[k].inverted@),
                ) && forall|j: int|
                    k < j < count && #[trigger] order_fits(p, q, wanted, j, measures[j])
                        ==> !replaces(
                        (prism_objective(measures[j]), righted_cut(p, q, j, measures[j].inverted@)),
                        Some(kept),
                    ),
            None => forall|j: int|
                0 <= j < count ==> !#[trigger] order_fits(p, q, wanted, j, measures[j]),
        },
    decreases count,
{
    if count > 0 {
        kept_filling_fits(p, q, wanted, measures, count - 1);
        let last = count - 1;
        assert(order_fits(p, q, wanted, last, measures[last]) || !order_fits(
            p,
            q,
            wanted,
            last,
            measures[last],
        ));
        if let Some(kept) = best_of_orders(p, q, wanted, measures, count - 1) {
            let k = choose|k: int|
                0 <= k < count - 1 && #[trigger] order_fits(p, q, wanted, k, measures[k]) && kept
                    == (prism_objective(measures[k]), righted_cut(p, q, k, measures[k].inverted@))
                    && forall|j: int|
                    k < j < count - 1 && #[trigger] order_fits(p, q, wanted, j, measures[j])
                        ==> !replaces(
                        (prism_objective(measures[j]), righted_cut(p, q, j, measures[j].inverted@)),
                        Some(kept),
                    );
            assert(order_fits(p, q, wanted, k, measures[k]));
        }
    }
}

} // verus!
