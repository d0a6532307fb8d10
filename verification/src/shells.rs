//! Outlines and covers of solid pieces: cutting a polygon into triangles keeps its
//! outline, and cutting a solid into tetrahedra keeps its outer faces.

use vstd::prelude::*;

#[allow(unused_imports)]
use crate::covering::{quad_runs, runs, side_runs, triangle_runs};
#[allow(unused_imports)]
use crate::cutting::{polygon_cut, surface};
#[allow(unused_imports)]
use crate::faces::{
    cuts_first, face_cut_ok, face_ring, quad_cut, quarter_of, sorted_pair, Diagonal, FaceCut,
};
#[allow(unused_imports)]
use crate::filling::{face_keys, order_of, prism_cut, tet_face_key};
#[allow(unused_imports)]
use crate::grouping::{places_are_exact, places_of};
#[allow(unused_imports)]
use crate::octree::{middle, Lattice};
#[allow(unused_imports)]
use crate::solid::{righted, Cell, PointKey};
#[allow(unused_imports)]
use crate::solid_assess::tets_of;
#[allow(unused_imports)]
use crate::solid_repair::{apex, around_edge, cone, flipped, flips, starred, Flip};
#[allow(unused_imports)]
use crate::sorted::Key;
#[allow(unused_imports)]
use crate::tetrahedra::{tet_edges, tet_face};
#[allow(unused_imports)]
use crate::volume::{fan_of, first_minimum, turned_polygon};

verus! {

/// How often a step leads from one point to another, less how often it leads back.
pub open spec fn step<K>(a: K, b: K, p: K, q: K) -> int {
    (if a == p && b == q {
        1int
    } else {
        0
    }) - (if a == q && b == p {
        1int
    } else {
        0
    })
}

/// How often a ring leads from one point to another, less how often it leads back.
pub open spec fn net<K>(ring: Seq<K>, p: K, q: K) -> int {
    runs(ring, p, q) - runs(ring, q, p)
}

/// How often rings lead from one point to another, less how often they lead back. Sides
/// that two rings walk in opposite ways cancel, so this is the outline of them all.
pub open spec fn outline<K>(rings: Seq<Seq<K>>, p: K, q: K) -> int
    decreases rings.len(),
{
    if rings.len() == 0 {
        0
    } else {
        outline(rings.drop_last(), p, q) + net(rings.last(), p, q)
    }
}

/// The net steps of the first sides of a ring.
spec fn path<K>(ring: Seq<K>, p: K, q: K, count: int) -> int {
    side_runs(ring, p, q, count) - side_runs(ring, q, p, count)
}

proof fn triangle_net<K>(ring: Seq<K>, p: K, q: K)
    requires
        ring.len() == 3,
    ensures
        net(ring, p, q) == step(ring[0], ring[1], p, q) + step(ring[1], ring[2], p, q) + step(
            ring[2],
            ring[0],
            p,
            q,
        ),
{
    triangle_runs(ring, p, q);
    triangle_runs(ring, q, p);
}

pub(crate) proof fn quad_net<K>(ring: Seq<K>, p: K, q: K)
    requires
        ring.len() == 4,
    ensures
        net(ring, p, q) == step(ring[0], ring[1], p, q) + step(ring[1], ring[2], p, q) + step(
            ring[2],
            ring[3],
            p,
            q,
        ) + step(ring[3], ring[0], p, q),
{
    quad_runs(ring, p, q);
    quad_runs(ring, q, p);
}

pub(crate) proof fn two_outlines<K>(one: Seq<K>, two: Seq<K>, p: K, q: K)
    ensures
        outline(seq![one, two], p, q) == net(one, p, q) + net(two, p, q),
{
    reveal_with_fuel(outline, 3);
    assert(seq![one, two].drop_last() =~= seq![one]);
    assert(seq![one].drop_last() =~= Seq::empty());
}

pub(crate) proof fn outlines_add<K>(a: Seq<Seq<K>>, b: Seq<Seq<K>>, p: K, q: K)
    ensures
        outline(a + b, p, q) == outline(a, p, q) + outline(b, p, q),
    decreases b.len(),
{
    if b.len() == 0 {
        assert(a + b =~= a);
    } else {
        outlines_add(a, b.drop_last(), p, q);
        assert((a + b).drop_last() =~= a + b.drop_last());
        assert((a + b).last() == b.last());
    }
}

/// The triangles from the first corner to the sides of a ring, the first of them.
spec fn first_fan<K>(ring: Seq<K>, count: int) -> Seq<Seq<K>> {
    Seq::new(count as nat, |i: int| seq![ring[0], ring[i + 1], ring[i + 2]])
}

proof fn first_fan_outline<K>(ring: Seq<K>, p: K, q: K, count: int)
    requires
        0 <= count <= ring.len() - 2,
    ensures
        outline(first_fan(ring, count), p, q) == path(ring, p, q, count + 1) + step(
            ring[count + 1],
            ring[0],
            p,
            q,
        ),
    decreases count,
{
    let fan = first_fan(ring, count);
    if count == 0 {
        reveal_with_fuel(side_runs, 2);
        if ring.len() == 2 {
        }
    } else {
        first_fan_outline(ring, p, q, count - 1);
        assert(fan.drop_last() =~= first_fan(ring, count - 1));
        triangle_net(fan.last(), p, q);
    }
}

proof fn whole_fan_outline<K>(ring: Seq<K>, p: K, q: K)
    requires
        ring.len() >= 3,
    ensures
        outline(first_fan(ring, ring.len() - 2), p, q) == net(ring, p, q),
{
    first_fan_outline(ring, p, q, ring.len() - 2);
}

proof fn turned_by_one<K>(ring: Seq<K>, turned: Seq<K>, p: K, q: K, count: int)
    requires
        ring.len() >= 2,
        turned.len() == ring.len(),
        forall|i: int| 0 <= i < ring.len() - 1 ==> #[trigger] turned[i] == ring[i + 1],
        turned.last() == ring[0],
        0 <= count < ring.len(),
    ensures
        side_runs(turned, p, q, count) + (if ring[0] == p && ring[1] == q {
            1int
        } else {
            0
        }) == side_runs(ring, p, q, count + 1),
    decreases count,
{
    let n = ring.len() as int;
    if count == 0 {
        reveal_with_fuel(side_runs, 2);
    } else {
        turned_by_one(ring, turned, p, q, count - 1);
        assert(turned[count - 1] == ring[count]);
        if count == n - 1 {
            assert(turned[count] == ring[0]);
        } else {
            assert(turned[count] == ring[count + 1]);
        }
    }
}

/// A ring begun at another corner has the same sides.
pub proof fn turning_keeps_sides(ring: Seq<usize>, by: int, p: usize, q: usize)
    requires
        ring.len() >= 2,
        0 <= by < ring.len(),
    ensures
        runs(turned_polygon(ring, by), p, q) == runs(ring, p, q),
    decreases by,
{
    let n = ring.len() as int;
    let now = turned_polygon(ring, by);
    if by == 0 {
        assert forall|i: int| 0 <= i < n implies now[i] == ring[i] by {
            vstd::arithmetic::div_mod::lemma_small_mod(i as nat, n as nat);
        }
        assert(now =~= ring);
    } else {
        turning_keeps_sides(ring, by - 1, p, q);
        let before = turned_polygon(ring, by - 1);
        assert forall|i: int| 0 <= i < n - 1 implies #[trigger] now[i] == before[i + 1] by {
            assert(i + by == i + 1 + (by - 1));
        }
        assert((n - 1 + by) % n == by - 1) by {
            vstd::arithmetic::div_mod::lemma_mod_add_multiples_vanish(by - 1, n);
            vstd::arithmetic::div_mod::lemma_small_mod((by - 1) as nat, n as nat);
            assert(n - 1 + by == n + (by - 1));
        }
        assert((by - 1) % n == by - 1) by {
            vstd::arithmetic::div_mod::lemma_small_mod((by - 1) as nat, n as nat);
        }
        assert(now.last() == before[0]);
        turned_by_one(before, now, p, q, n - 1);
        assert(now[n - 1] == before[0]);
        assert(now[0] == before[1]);
    }
}

/// The smallest corner of a polygon is found.
pub proof fn first_minimum_is_smallest(polygon: Seq<usize>, count: int)
    requires
        0 < count <= polygon.len(),
    ensures
        0 <= first_minimum(polygon, count) < count,
        forall|i: int|
            0 <= i < count ==> polygon[first_minimum(polygon, count)] <= #[trigger] polygon[i],
        forall|i: int|
            0 <= i < first_minimum(polygon, count) ==> polygon[first_minimum(polygon, count)]
                < #[trigger] polygon[i],
    decreases count,
{
    if count > 1 {
        first_minimum_is_smallest(polygon, count - 1);
    }
}

/// The triangles of a polygon have its outline: a side of the polygon is walked as the
/// polygon walks it, a side between two triangles once each way. There are two
/// fewer than corners, and all meet in the smallest corner.
pub proof fn fan_has_outline(polygon: Seq<usize>, p: usize, q: usize)
    requires
        polygon.len() >= 3,
    ensures
        outline(fan_of(polygon), p, q) == net(polygon, p, q),
        fan_of(polygon).len() == polygon.len() - 2,
        forall|t: int, i: int|
            0 <= t < fan_of(polygon).len() && 0 <= i < polygon.len() ==> (#[trigger] fan_of(
                polygon,
            )[t])[0] <= #[trigger] polygon[i],
{
    let n = polygon.len() as int;
    first_minimum_is_smallest(polygon, n);
    let first = first_minimum(polygon, n);
    let ring = turned_polygon(polygon, first);
    let fan = fan_of(polygon);
    vstd::arithmetic::div_mod::lemma_small_mod(first as nat, n as nat);
    assert forall|i: int| 0 <= i < n - 2 implies #[trigger] fan[i] == first_fan(ring, n - 2)[i] by {
        assert(first + i + 1 == i + 1 + first);
        assert(first + i + 2 == i + 2 + first);
        assert(fan[i] =~= first_fan(ring, n - 2)[i]);
    }
    assert(fan =~= first_fan(ring, n - 2));
    whole_fan_outline(ring, p, q);
    turning_keeps_sides(polygon, first, p, q);
    turning_keeps_sides(polygon, first, q, p);
}

/// The triangles of a face have its outline, whichever diagonal is better.
pub proof fn polygon_cut_has_outline(
    polygon: Seq<PointKey>,
    better: Diagonal,
    p: PointKey,
    q: PointKey,
)
    requires
        polygon.len() >= 3,
    ensures
        outline(polygon_cut(polygon, better), p, q) == net(polygon, p, q),
        polygon_cut(polygon, better).len() == polygon.len() - 2,
        forall|t: int|
            0 <= t < polygon_cut(polygon, better).len() ==> (#[trigger] polygon_cut(
                polygon,
                better,
            )[t]).len() == 3,
{
    if polygon.len() == 4 {
        quad_cut_has_outline(polygon, better, p, q);
    } else {
        assert(polygon_cut(polygon, better) =~= first_fan(polygon, polygon.len() - 2));
        whole_fan_outline(polygon, p, q);
    }
}

/// The two triangles of a quad have its outline.
pub proof fn quad_cut_has_outline<K: Key>(quad: Seq<K>, better: Diagonal, p: K, q: K)
    requires
        quad.len() == 4,
    ensures
        outline(quad_cut(quad, better), p, q) == net(quad, p, q),
        quad_cut(quad, better).len() == 2,
        quad_cut(quad, better)[0].len() == 3,
        quad_cut(quad, better)[1].len() == 3,
{
    let cut = quad_cut(quad, better);
    two_outlines(cut[0], cut[1], p, q);
    assert(cut =~= seq![cut[0], cut[1]]);
    triangle_net(cut[0], p, q);
    triangle_net(cut[1], p, q);
    quad_net(quad, p, q);
}

/// A quad is cut along the better diagonal. Where neither is better, the same diagonal
/// is found from either side of the quad and from whichever corner it is begun.
pub proof fn tie_is_settled_alike<K: Key>(quad: Seq<K>)
    requires
        quad.len() == 4,
        quad.no_duplicates(),
    ensures
        cuts_first(quad, Diagonal::First),
        !cuts_first(quad, Diagonal::Second),
        cuts_first(seq![quad[0], quad[3], quad[2], quad[1]], Diagonal::Tie) == cuts_first(
            quad,
            Diagonal::Tie,
        ),
        cuts_first(seq![quad[1], quad[2], quad[3], quad[0]], Diagonal::Tie) == !cuts_first(
            quad,
            Diagonal::Tie,
        ),
        cuts_first(quad, Diagonal::Tie) == (sorted_pair(quad[0], quad[2]).0.before(
            sorted_pair(quad[1], quad[3]).0,
        )),
{
    let (a, b, c, d) = (quad[0], quad[1], quad[2], quad[3]);
    assert(a != b && a != c && a != d && b != c && b != d && c != d);
    pair_order(a, c);
    pair_order(b, d);
    let x = sorted_pair(a, c).0;
    let y = sorted_pair(b, d).0;
    K::total(x, y);
    if x.before(y) && y.before(x) {
        K::transitive(x, y, x);
        K::irreflexive(x);
    }
}

proof fn pair_order<K: Key>(a: K, b: K)
    requires
        a != b,
    ensures
        sorted_pair(a, b) == sorted_pair(b, a),
        sorted_pair(a, b).0 == a || sorted_pair(a, b).0 == b,
        sorted_pair(a, b).1 == a || sorted_pair(a, b).1 == b,
        sorted_pair(a, b).0.before(sorted_pair(a, b).1),
{
    K::total(a, b);
    if a.before(b) && b.before(a) {
        K::transitive(a, b, a);
        K::irreflexive(a);
    }
}

/// A triangulated surface has the outline of its faces.
pub proof fn surface_has_outline(
    faces: Seq<Seq<PointKey>>,
    better: Seq<Diagonal>,
    count: int,
    p: PointKey,
    q: PointKey,
)
    requires
        0 <= count <= faces.len(),
        forall|f: int| 0 <= f < faces.len() ==> (#[trigger] faces[f]).len() >= 3,
    ensures
        outline(surface(faces, better, count), p, q) == outline(faces.take(count), p, q),
    decreases count,
{
    if count > 0 {
        surface_has_outline(faces, better, count - 1, p, q);
        assert(faces.take(count).drop_last() =~= faces.take(count - 1));
        assert(faces.take(count).last() == faces[count - 1]);
        let more = polygon_cut(faces[count - 1], better[count - 1]);
        outlines_add(surface(faces, better, count - 1), more, p, q);
        polygon_cut_has_outline(faces[count - 1], better[count - 1], p, q);
    } else {
        assert(faces.take(0) =~= Seq::empty());
    }
}

/// The triangles from a centre to the first sides of a ring.
proof fn center_fan<K>(center: K, ring: Seq<K>, fan: Seq<Seq<K>>, p: K, q: K, count: int)
    requires
        ring.len() >= 1,
        fan.len() == ring.len(),
        forall|i: int|
            0 <= i < ring.len() ==> (#[trigger] fan[i]) == seq![
                center,
                ring[i],
                ring[(i + 1) % (ring.len() as int)],
            ],
        0 <= count <= ring.len(),
    ensures
        outline(fan.take(count), p, q) == path(ring, p, q, count) + (if count == ring.len() {
            0
        } else {
            step(center, ring[0], p, q) - step(center, ring[count], p, q)
        }),
    decreases count,
{
    let n = ring.len() as int;
    if count > 0 {
        center_fan(center, ring, fan, p, q, count - 1);
        assert(fan.take(count).drop_last() =~= fan.take(count - 1));
        assert(fan.take(count).last() == fan[count - 1]);
        triangle_net(fan[count - 1], p, q);
        if count == n {
            assert(count % n == 0) by {
                vstd::arithmetic::div_mod::lemma_mod_self_0(n);
            }
        } else {
            vstd::arithmetic::div_mod::lemma_small_mod(count as nat, n as nat);
        }
    } else {
        assert(fan.take(0) =~= Seq::empty());
    }
}

/// The cut of a side of a leaf has the outline of its ring: the corners of the side and
/// the middles of the edges that are split. Beside smaller leaves it is the quarters,
/// whose outline has the middle of every edge.
pub proof fn face_cut_has_outline(
    face: Seq<Lattice>,
    finer: bool,
    split: Seq<bool>,
    cut: FaceCut,
    p: Lattice,
    q: Lattice,
)
    requires
        face.len() == 4,
        split.len() == 4,
        face_cut_ok(face, finer, split, cut),
    ensures
        match cut {
            FaceCut::Quads(quads) => outline(
                quads@.map_values(|quad: [Lattice; 4]| quad@),
                p,
                q,
            ) == if finer {
                net(face_ring(face, seq![true, true, true, true]), p, q)
            } else {
                net(face_ring(face, split), p, q)
            },
            FaceCut::Fan(fan) => outline(
                fan@.map_values(|triangle: [Lattice; 3]| triangle@),
                p,
                q,
            ) == net(face_ring(face, split), p, q),
        },
{
    let ring = face_ring(face, split);
    match cut {
        FaceCut::Quads(quads) => {
            let lists = quads@.map_values(|quad: [Lattice; 4]| quad@);
            if finer {
                assert(lists =~= seq![
                    quarter_of(face, 0),
                    quarter_of(face, 1),
                    quarter_of(face, 2),
                    quarter_of(face, 3),
                ]);
                quarters_have_outline(face, p, q);
            } else {
                assert(lists =~= seq![face]);
                assert(ring =~= face);
                reveal_with_fuel(outline, 2);
                assert(lists.drop_last() =~= Seq::empty());
            }
        },
        FaceCut::Fan(fan) => {
            let lists = fan@.map_values(|triangle: [Lattice; 3]| triangle@);
            let center = middle(face[0], face[2]);
            let n = ring.len() as int;
            assert forall|i: int| 0 <= i < n implies (#[trigger] lists[i]) == seq![
                center,
                ring[i],
                ring[(i + 1) % n],
            ] by {
                assert(lists[i] == fan@[i]@);
            }
            center_fan(center, ring, lists, p, q, n);
            assert(lists.take(n) =~= lists);
        },
    }
}

/// The four quarters of a side have its outline with the middle of every edge. A quarter
/// keeps the corner of its place.
pub proof fn quarters_have_outline(face: Seq<Lattice>, p: Lattice, q: Lattice)
    requires
        face.len() == 4,
    ensures
        outline(
            seq![quarter_of(face, 0), quarter_of(face, 1), quarter_of(face, 2), quarter_of(face, 3)],
            p,
            q,
        ) == net(face_ring(face, seq![true, true, true, true]), p, q),
        quarter_of(face, 0)[0] == face[0],
        quarter_of(face, 1)[1] == face[1],
        quarter_of(face, 2)[2] == face[2],
        quarter_of(face, 3)[3] == face[3],
{
    let a = quarter_of(face, 0);
    let b = quarter_of(face, 1);
    let c = quarter_of(face, 2);
    let d = quarter_of(face, 3);
    quad_net(a, p, q);
    quad_net(b, p, q);
    quad_net(c, p, q);
    quad_net(d, p, q);
    two_outlines(a, b, p, q);
    two_outlines(c, d, p, q);
    outlines_add(seq![a, b], seq![c, d], p, q);
    assert(seq![a, b] + seq![c, d] =~= seq![a, b, c, d]);
    let ring = face_ring(face, seq![true, true, true, true]);
    assert(ring =~= seq![
        face[0],
        middle(face[0], face[1]),
        face[1],
        middle(face[1], face[2]),
        face[2],
        middle(face[2], face[3]),
        face[3],
        middle(face[3], face[0]),
    ]);
    eight_net(ring, p, q);
    let (ab, bc, cd, da) = (ring[1], ring[3], ring[5], ring[7]);
    let m = middle(ab, cd);
    step_back(ab, m, p, q);
    step_back(bc, m, p, q);
    step_back(cd, m, p, q);
    step_back(da, m, p, q);
}

/// A step back undoes a step.
pub(crate) proof fn step_back<K>(a: K, b: K, p: K, q: K)
    ensures
        step(a, b, p, q) == -step(b, a, p, q),
{
}

proof fn path_grows<K>(ring: Seq<K>, p: K, q: K, count: int)
    requires
        0 < count < ring.len(),
    ensures
        path(ring, p, q, count) == path(ring, p, q, count - 1) + step(
            ring[count - 1],
            ring[count],
            p,
            q,
        ),
{
}

proof fn eight_net<K>(ring: Seq<K>, p: K, q: K)
    requires
        ring.len() == 8,
    ensures
        net(ring, p, q) == step(ring[0], ring[1], p, q) + step(ring[1], ring[2], p, q) + step(
            ring[2],
            ring[3],
            p,
            q,
        ) + step(ring[3], ring[4], p, q) + step(ring[4], ring[5], p, q) + step(
            ring[5],
            ring[6],
            p,
            q,
        ) + step(ring[6], ring[7], p, q) + step(ring[7], ring[0], p, q),
{
    path_grows(ring, p, q, 1);
    path_grows(ring, p, q, 2);
    path_grows(ring, p, q, 3);
    path_grows(ring, p, q, 4);
    path_grows(ring, p, q, 5);
    path_grows(ring, p, q, 6);
    path_grows(ring, p, q, 7);
    assert(path(ring, p, q, 0) == 0);
    assert(net(ring, p, q) == path(ring, p, q, 7) + step(ring[7], ring[0], p, q));
}

/// The faces of a tetrahedron, as rings of its points.
pub open spec fn rings_of<K>(tet: Seq<K>) -> Seq<Seq<K>> {
    Seq::new(
        4,
        |f: int|
            seq![
                tet[tet_face(f)[0] as int],
                tet[tet_face(f)[1] as int],
                tet[tet_face(f)[2] as int],
            ],
    )
}

/// The faces of a tetrahedron close: each edge is walked once each way. Each face has
/// three corners, and every corner is missing from one of them.
pub proof fn tet_faces_close<K>(tet: Seq<K>, p: K, q: K)
    requires
        tet.len() == 4,
    ensures
        outline(rings_of(tet), p, q) == 0,
        forall|f: int|
            0 <= f < 4 ==> (#[trigger] tet_face(f)).len() == 3 && tet_face(f).no_duplicates()
                && tet_face(f)[0] < 4 && tet_face(f)[1] < 4 && tet_face(f)[2] < 4,
        !tet_face(0).contains(3),
        !tet_face(1).contains(2),
        !tet_face(2).contains(0),
        !tet_face(3).contains(1),
{
    let rings = rings_of(tet);
    let (a, b, c, d) = (rings[0], rings[1], rings[2], rings[3]);
    assert(rings =~= seq![a, b] + seq![c, d]);
    two_outlines(a, b, p, q);
    two_outlines(c, d, p, q);
    outlines_add(seq![a, b], seq![c, d], p, q);
    triangle_net(a, p, q);
    triangle_net(b, p, q);
    triangle_net(c, p, q);
    triangle_net(d, p, q);
}

/// The edges of a tetrahedron are its six pairs of corners, each once.
pub proof fn tet_edges_are_pairs(a: usize, b: usize)
    requires
        a < b < 4,
    ensures
        tet_edges().len() == 6,
        tet_edges().contains((a, b)),
        tet_edges().no_duplicates(),
        forall|e: int|
            0 <= e < 6 ==> (#[trigger] tet_edges()[e]).0 < tet_edges()[e].1 && tet_edges()[e].1 < 4,
{
    let list = tet_edges();
    let k: int = if a == 0 {
        b - 1
    } else if a == 1 {
        b + 1
    } else {
        5
    };
    assert(list[k] == (a, b));
}

/// An inverted tetrahedron is righted by exchanging two of its corners.
pub proof fn righting_exchanges_two(tet: Seq<PointKey>, key: PointKey)
    requires
        tet.len() == 4,
    ensures
        righted(tet, false) == tet,
        righted(tet, true).len() == 4,
        righted(tet, true).contains(key) <==> tet.contains(key),
        righted(righted(tet, true), true) == tet,
        tet.no_duplicates() ==> righted(tet, true) != tet,
{
    let back = righted(tet, true);
    if tet.contains(key) {
        let i = tet.index_of(key);
        let j: int = if i == 2 {
            3
        } else if i == 3 {
            2
        } else {
            i
        };
        assert(back[j] == key);
    }
    if back.contains(key) {
        let i = back.index_of(key);
        let j: int = if i == 2 {
            3
        } else if i == 3 {
            2
        } else {
            i
        };
        assert(tet[j] == key);
    }
    assert(righted(back, true) =~= tet);
    if tet.no_duplicates() {
        assert(back[2] != tet[2]);
    }
}

/// 1 where the tetrahedron has the three points, 0 elsewhere.
pub open spec fn has_face<K>(tet: Seq<K>, x: K, y: K, z: K) -> int {
    if tet.contains(x) && tet.contains(y) && tet.contains(z) {
        1
    } else {
        0
    }
}

/// How many tetrahedra have the three points.
pub open spec fn face_uses<K>(tets: Seq<Seq<K>>, x: K, y: K, z: K) -> int
    decreases tets.len(),
{
    if tets.len() == 0 {
        0
    } else {
        face_uses(tets.drop_last(), x, y, z) + has_face(tets.last(), x, y, z)
    }
}

/// 1 where the three points are the three others, 0 elsewhere.
pub open spec fn same_face<K>(x: K, y: K, z: K, a: K, b: K, c: K) -> int {
    if (x == a || x == b || x == c) && (y == a || y == b || y == c) && (z == a || z == b || z == c) {
        1
    } else {
        0
    }
}

proof fn four_only<K>(a: K, b: K, c: K, d: K, x: K)
    ensures
        seq![a, b, c, d].contains(x) <==> x == a || x == b || x == c || x == d,
{
    let list = seq![a, b, c, d];
    if list.contains(x) {
        let i = list.index_of(x);
        assert(i == 0 || i == 1 || i == 2 || i == 3);
    }
    assert(list[0] == a && list[1] == b && list[2] == c && list[3] == d);
}

pub(crate) proof fn only_four<K>(tet: Seq<K>, a: K, b: K, c: K, d: K)
    requires
        tet == seq![a, b, c, d],
    ensures
        forall|k: K| #[trigger] tet.contains(k) <==> k == a || k == b || k == c || k == d,
{
    assert forall|k: K| #[trigger] tet.contains(k) <==> k == a || k == b || k == c || k == d by {
        four_only(a, b, c, d, k);
    }
}

proof fn three_uses<K>(one: Seq<K>, two: Seq<K>, three: Seq<K>, x: K, y: K, z: K)
    ensures
        face_uses(seq![one, two, three], x, y, z) == has_face(one, x, y, z) + has_face(two, x, y, z)
            + has_face(three, x, y, z),
{
    reveal_with_fuel(face_uses, 4);
    assert(seq![one, two, three].drop_last() =~= seq![one, two]);
    assert(seq![one, two].drop_last() =~= seq![one]);
    assert(seq![one].drop_last() =~= Seq::empty());
}

proof fn two_uses<K>(one: Seq<K>, two: Seq<K>, x: K, y: K, z: K)
    ensures
        face_uses(seq![one, two], x, y, z) == has_face(one, x, y, z) + has_face(two, x, y, z),
{
    reveal_with_fuel(face_uses, 3);
    assert(seq![one, two].drop_last() =~= seq![one]);
    assert(seq![one].drop_last() =~= Seq::empty());
}

/// The flip of a face keeps the cover: the three cells round the new edge have the outer
/// faces of the two that shared the face, each once. The face is gone, and the three
/// faces at the new edge are shared.
pub proof fn face_flip_keeps_cover(
    d: PointKey,
    e: PointKey,
    face: (PointKey, (PointKey, PointKey)),
    x: PointKey,
    y: PointKey,
    z: PointKey,
)
    requires
        ({
            let (a, (b, c)) = face;
            seq![a, b, c, d, e].no_duplicates()
        }),
        x != y,
        y != z,
        x != z,
    ensures
        ({
            let (a, (b, c)) = face;
            let before = seq![seq![a, b, c, d], seq![a, b, c, e]];
            &&& around_edge(d, e, face).len() == 3
            &&& face_uses(around_edge(d, e, face), x, y, z) + 2 * same_face(x, y, z, a, b, c)
                == face_uses(before, x, y, z) + 2 * same_face(x, y, z, d, e, a) + 2 * same_face(
                x,
                y,
                z,
                d,
                e,
                b,
            ) + 2 * same_face(x, y, z, d, e, c)
        }),
{
    let (a, (b, c)) = face;
    let five = seq![a, b, c, d, e];
    assert(five[0] == a && five[1] == b && five[2] == c && five[3] == d && five[4] == e);
    assert(a != b && a != c && a != d && a != e && b != c && b != d && b != e && c != d && c != e
        && d != e);
    three_uses(seq![d, e, a, b], seq![d, e, b, c], seq![d, e, c, a], x, y, z);
    two_uses(seq![a, b, c, d], seq![a, b, c, e], x, y, z);
    only_four(seq![d, e, a, b], d, e, a, b);
    only_four(seq![d, e, b, c], d, e, b, c);
    only_four(seq![d, e, c, a], d, e, c, a);
    only_four(seq![a, b, c, d], a, b, c, d);
    only_four(seq![a, b, c, e], a, b, c, e);
}

/// A cell starred from a point inside keeps the cover: the four cones have the faces of
/// the cell, each once, and every face at the new point is shared by two.
pub proof fn star_keeps_cover(points: Seq<PointKey>, key: PointKey, x: PointKey, y: PointKey, z: PointKey)
    requires
        points.len() == 4,
        points.no_duplicates(),
        !points.contains(key),
        x != y,
        y != z,
        x != z,
    ensures
        ({
            let cones = seq![
                cone(points, key, 0),
                cone(points, key, 1),
                cone(points, key, 2),
                cone(points, key, 3),
            ];
            &&& x != key && y != key && z != key ==> face_uses(cones, x, y, z) == has_face(
                points,
                x,
                y,
                z,
            )
            &&& x == key && points.contains(y) && points.contains(z) ==> face_uses(cones, x, y, z)
                == 2
            &&& x == key && !(points.contains(y) && points.contains(z)) ==> face_uses(
                cones,
                x,
                y,
                z,
            ) == 0
        }),
{
    let (a, b, c, d) = (points[0], points[1], points[2], points[3]);
    assert(points =~= seq![a, b, c, d]);
    assert(points.contains(a) && points.contains(b) && points.contains(c) && points.contains(d));
    assert(a != b && a != c && a != d && b != c && b != d && c != d);
    let cones = seq![
        cone(points, key, 0),
        cone(points, key, 1),
        cone(points, key, 2),
        cone(points, key, 3),
    ];
    let front = seq![cone(points, key, 0), cone(points, key, 1), cone(points, key, 2)];
    assert(cones.drop_last() =~= front);
    three_uses(front[0], front[1], front[2], x, y, z);
    assert(face_uses(cones, x, y, z) == face_uses(front, x, y, z) + has_face(cones[3], x, y, z));
    only_four(cones[0], key, a, c, b);
    only_four(cones[1], key, a, b, d);
    only_four(cones[2], key, b, c, d);
    only_four(cones[3], key, c, a, d);
    only_four(points, a, b, c, d);
}

/// The six orders of three places are all there are, each once.
pub proof fn orders_are_all(i: int, j: int)
    requires
        0 <= i < 6,
        0 <= j < 6,
    ensures
        order_of(i).len() == 3,
        order_of(i).no_duplicates(),
        forall|k: int| 0 <= k < 3 ==> 0 <= #[trigger] order_of(i)[k] < 3,
        i != j ==> order_of(i) != order_of(j),
{
    if i != j {
        assert(order_of(i)[0] != order_of(j)[0] || order_of(i)[1] != order_of(j)[1]);
    }
}

/// The three tetrahedra of a prism fill it: the triangle at either end is a face of one
/// of them, each side is cut along one diagonal into faces of one each, and the two
/// faces between them are shared.
pub proof fn prism_cut_fills_prism(p: Seq<PointKey>, q: Seq<PointKey>, permutation: int)
    requires
        p.len() == 3,
        q.len() == 3,
        (p + q).no_duplicates(),
        0 <= permutation < 6,
    ensures
        ({
            let cut = prism_cut(p, q, permutation);
            let order = order_of(permutation);
            let (a, b, c) = (p[order[0]], p[order[1]], p[order[2]]);
            let (x, y, z) = (q[order[0]], q[order[1]], q[order[2]]);
            &&& cut.len() == 3
            &&& face_uses(cut, p[0], p[1], p[2]) == 1
            &&& face_uses(cut, q[0], q[1], q[2]) == 1
            &&& face_uses(cut, a, b, x) == 1
            &&& face_uses(cut, b, x, y) == 1
            &&& face_uses(cut, a, c, x) == 1
            &&& face_uses(cut, c, x, z) == 1
            &&& face_uses(cut, b, c, y) == 1
            &&& face_uses(cut, c, y, z) == 1
            &&& face_uses(cut, b, c, x) == 2
            &&& face_uses(cut, c, x, y) == 2
            &&& forall|t: int| 0 <= t < 3 ==> (#[trigger] cut[t]).len() == 4
                && cut[t].no_duplicates()
        }),
{
    orders_are_all(permutation, permutation);
    let cut = prism_cut(p, q, permutation);
    let order = order_of(permutation);
    let (a, b, c) = (p[order[0]], p[order[1]], p[order[2]]);
    let (x, y, z) = (q[order[0]], q[order[1]], q[order[2]]);
    let all = p + q;
    assert forall|i: int, j: int| 0 <= i < 3 && 0 <= j < 3 implies #[trigger] p[i]
        != #[trigger] q[j] by {
        assert(all[i] == p[i] && all[j + 3] == q[j]);
    }
    assert forall|i: int, j: int| 0 <= i < 3 && 0 <= j < 3 && i != j implies #[trigger] p[i]
        != #[trigger] p[j] by {
        assert(all[i] == p[i] && all[j] == p[j]);
    }
    assert forall|i: int, j: int| 0 <= i < 3 && 0 <= j < 3 && i != j implies #[trigger] q[i]
        != #[trigger] q[j] by {
        assert(all[i + 3] == q[i] && all[j + 3] == q[j]);
    }
    assert(cut =~= seq![seq![a, b, c, x], seq![b, c, x, y], seq![c, x, y, z]]);
    only_four(seq![a, b, c, x], a, b, c, x);
    only_four(seq![b, c, x, y], b, c, x, y);
    only_four(seq![c, x, y, z], c, x, y, z);
    let (one, two, three) = (seq![a, b, c, x], seq![b, c, x, y], seq![c, x, y, z]);
    three_uses(one, two, three, p[0], p[1], p[2]);
    three_uses(one, two, three, q[0], q[1], q[2]);
    three_uses(one, two, three, a, b, x);
    three_uses(one, two, three, b, x, y);
    three_uses(one, two, three, a, c, x);
    three_uses(one, two, three, c, x, z);
    three_uses(one, two, three, b, c, y);
    three_uses(one, two, three, c, y, z);
    three_uses(one, two, three, b, c, x);
    three_uses(one, two, three, c, x, y);
}

/// A face of a cell leaves one corner out, and that is its apex.
proof fn face_leaves_apex(points: Seq<PointKey>, face: int)
    requires
        points.len() == 4,
        points.no_duplicates(),
        0 <= face < 4,
    ensures
        ({
            let (a, (b, c)) = tet_face_key(points, face);
            let top = apex(points, tet_face_key(points, face), 0);
            &&& top matches Some(d) && seq![a, b, c, d].no_duplicates() && forall|k: PointKey|
                #[trigger] points.contains(k) <==> k == a || k == b || k == c || k == d
        }),
{
    let (p, q, r, s) = (points[0], points[1], points[2], points[3]);
    assert(p != q && p != r && p != s && q != r && q != s && r != s);
    assert(points =~= seq![p, q, r, s]);
    only_four(points, p, q, r, s);
    reveal_with_fuel(apex, 5);
    let (a, (b, c)) = tet_face_key(points, face);
    let d = apex(points, tet_face_key(points, face), 0)->0;
    let list = seq![a, b, c, d];
    assert(list[0] == a && list[1] == b && list[2] == c && list[3] == d);
}

/// The flip across a face shared by two cells of one leaf keeps the cover: the outer faces
/// of the two cells are those of the three that replace them, the shared face is gone,
/// and the three faces at the new edge are shared by two each.
pub proof fn solid_flip_keeps_cover(
    cells: Seq<Cell>,
    cell: usize,
    face: int,
    flip: Flip,
    x: PointKey,
    y: PointKey,
    z: PointKey,
)
    requires
        cell < cells.len(),
        4 * cells.len() <= usize::MAX,
        0 <= face < 4,
        forall|i: int| 0 <= i < cells.len() ==> (#[trigger] cells[i]).points@.no_duplicates(),
        flips(cells, cell, face, Some(flip)),
        x != y,
        y != z,
        x != z,
    ensures
        ({
            let near = cells[cell as int].points@;
            let far = cells[flip.other as int].points@;
            let (a, (b, c)) = tet_face_key(near, face);
            let after = seq![flip.tets[0]@, flip.tets[1]@, flip.tets[2]@];
            &&& flip.cell == cell
            &&& flip.other < cells.len()
            &&& flip.other != cell
            &&& cells[flip.other as int].leaf == cells[cell as int].leaf
            &&& near.contains(a) && near.contains(b) && near.contains(c)
            &&& far.contains(a) && far.contains(b) && far.contains(c)
            &&& exists|d: PointKey, e: PointKey|
                near.contains(d) && far.contains(e) && d != e && !far.contains(d) && !near.contains(e)
                    && face_uses(after, x, y, z) + 2 * same_face(x, y, z, a, b, c) == has_face(
                    near,
                    x,
                    y,
                    z,
                ) + has_face(far, x, y, z) + 2 * same_face(x, y, z, d, e, a) + 2 * #[trigger] same_face(
                    x,
                    y,
                    z,
                    d,
                    e,
                    b,
                ) + 2 * same_face(x, y, z, d, e, c)
        }),
{
    let near = cells[cell as int].points@;
    let shared = tet_face_key(near, face);
    let (a, (b, c)) = shared;
    let keys = face_keys(tets_of(cells));
    places_are_exact(keys, shared);
    let places = places_of(keys, shared);
    let own = 4 * cell + face;
    assert(keys[own] == shared) by {
        assert(own / 4 == cell && own % 4 == face);
        assert(tets_of(cells)[cell as int] == cells[cell as int].points);
    }
    assert(places.contains(own as usize));
    let other = flip.other;
    let far = cells[other as int].points@;
    let k: int = if places[0] / 4 == cell {
        1
    } else {
        0
    };
    let side = places[k] as int;
    assert(side / 4 == other);
    let g = side % 4;
    assert(keys[side] == shared);
    assert(tets_of(cells)[other as int] == cells[other as int].points);
    assert(tet_face_key(far, g) == shared);
    assert(cells[cell as int].points@.no_duplicates());
    assert(cells[other as int].points@.no_duplicates());
    face_leaves_apex(near, face);
    face_leaves_apex(far, g);
    let d = apex(near, shared, 0)->0;
    let e = apex(far, shared, 0)->0;
    let five = seq![a, b, c, d, e];
    let four = seq![a, b, c, d];
    let more = seq![a, b, c, e];
    assert(four[0] == a && four[1] == b && four[2] == c && four[3] == d);
    assert(more[0] == a && more[1] == b && more[2] == c && more[3] == e);
    assert(d != e);
    assert(five.no_duplicates());
    face_flip_keeps_cover(d, e, shared, x, y, z);
    only_four(four, a, b, c, d);
    only_four(more, a, b, c, e);
    two_uses(four, more, x, y, z);
    let after = seq![flip.tets[0]@, flip.tets[1]@, flip.tets[2]@];
    assert(after =~= around_edge(d, e, shared));
    assert(same_face(x, y, z, d, e, b) >= 0);
    assert(other != cell) by {
        if other == cell {
            let back = apex(near, shared, 0);
            assert(d == e);
        }
    }
}

/// After a flip the two cells and one more hold the new tetrahedra, in the leaf of the two
/// and no longer known to lie inside; no other cell changes.
pub proof fn flipped_cells_are_replaced(cells: Seq<Cell>, flip: Flip, tets: Seq<[PointKey; 4]>)
    requires
        flip.cell < cells.len(),
        flip.other < cells.len(),
        flip.cell != flip.other,
        cells[flip.other as int].leaf == cells[flip.cell as int].leaf,
    ensures
        ({
            let after = flipped(cells, flip, tets);
            &&& after.len() == cells.len() + 1
            &&& after[flip.cell as int].points == tets[0]
            &&& after[flip.other as int].points == tets[1]
            &&& after.last().points == tets[2]
            &&& forall|i: int|
                0 <= i < after.len() && (i == flip.cell || i == flip.other || i == cells.len())
                    ==> (#[trigger] after[i]).leaf == cells[flip.cell as int].leaf
                    && !after[i].certified_interior
            &&& forall|i: int|
                0 <= i < cells.len() && i != flip.cell && i != flip.other ==> after[i]
                    == #[trigger] cells[i]
        }),
{
}

/// A starred cell is replaced by its four cones, in its leaf and no longer known to lie
/// inside; no other cell changes.
pub proof fn starred_cell_is_replaced(cells: Seq<Cell>, cell: usize, tets: Seq<[PointKey; 4]>)
    requires
        cell < cells.len(),
        tets.len() == 4,
    ensures
        ({
            let after = starred(cells, cell, tets);
            let n = cells.len() as int;
            &&& after.len() == n + 3
            &&& after[cell as int].points == tets[0]
            &&& forall|i: int| 1 <= i < 4 ==> after[n + i - 1].points == #[trigger] tets[i]
            &&& forall|i: int|
                0 <= i < after.len() && (i == cell || i >= n) ==> (#[trigger] after[i]).leaf
                    == cells[cell as int].leaf && !after[i].certified_interior
            &&& forall|i: int| 0 <= i < n && i != cell ==> after[i] == #[trigger] cells[i]
        }),
{
}

} // verus!
