//! Cutting tetrahedra along the boundary of the domain.

use vstd::prelude::*;

use crate::error::{MeshError, MeshResult};
#[allow(unused_imports)]
use crate::error::fails_input;
use crate::faces::sort_pair;
#[allow(unused_imports)]
use crate::faces::sorted_pair;
use crate::number::{Real, Vector3};
use crate::octree::Lattice;
#[allow(unused_imports)]
use crate::outlines::{edges_walk_outline, walks_outline};
use crate::solid::{Point, PointKey, Sample};
use crate::sorted::{same_key, SortedMap, SortedSet};
#[allow(unused_imports)]
use crate::sorted::increasing_has_no_duplicates;
#[allow(unused_imports)]
use crate::sorted::Key;

verus! {

/// The edges of a tetrahedron.
pub open spec fn tet_edges() -> Seq<(usize, usize)> {
    seq![(0usize, 1usize), (0, 2), (0, 3), (1, 2), (1, 3), (2, 3)]
}

/// The faces of a tetrahedron, counterclockwise from outside.
pub open spec fn tet_face(face: int) -> Seq<usize> {
    if face == 0 {
        seq![0usize, 2, 1]
    } else if face == 1 {
        seq![0usize, 1, 3]
    } else if face == 2 {
        seq![1usize, 2, 3]
    } else {
        seq![2usize, 0, 3]
    }
}

pub fn tet_faces() -> (result: [[usize; 3]; 4])
    ensures
        forall|f: int| 0 <= f < 4 ==> (#[trigger] result[f])@ == tet_face(f),
        forall|f: int, i: int| 0 <= f < 4 && 0 <= i < 3 ==> #[trigger] result[f][i] < 4,
{
    let first: [usize; 3] = [0, 2, 1];
    let second: [usize; 3] = [0, 1, 3];
    let third: [usize; 3] = [1, 2, 3];
    let fourth: [usize; 3] = [2, 0, 3];
    assert(first@ =~= tet_face(0));
    assert(second@ =~= tet_face(1));
    assert(third@ =~= tet_face(2));
    assert(fourth@ =~= tet_face(3));
    [first, second, third, fourth]
}

/// The mask marks the corner.
pub open spec fn marked(mask: int, corner: int) -> bool {
    if corner == 0 {
        mask % 2 == 1
    } else if corner == 1 {
        (mask / 2) % 2 == 1
    } else if corner == 2 {
        (mask / 4) % 2 == 1
    } else {
        (mask / 8) % 2 == 1
    }
}

pub(crate) fn is_marked(mask: u8, corner: usize) -> (result: bool)
    ensures
        result == marked(mask as int, corner as int),
{
    if corner == 0 {
        mask % 2 == 1
    } else if corner == 1 {
        (mask / 2) % 2 == 1
    } else if corner == 2 {
        (mask / 4) % 2 == 1
    } else {
        (mask / 8) % 2 == 1
    }
}

/// Marks the samples in the domain or on its boundary.
pub fn inside_mask(samples: &[Sample; 4]) -> (result: u8)
    ensures
        result < 16,
        forall|i: int| 0 <= i < 4 ==> marked(result as int, i) == (#[trigger] samples[i]).inside(),
{
    let mut mask: u8 = 0;
    if samples[0].is_inside() {
        mask = mask + 1;
    }
    if samples[1].is_inside() {
        mask = mask + 2;
    }
    if samples[2].is_inside() {
        mask = mask + 4;
    }
    if samples[3].is_inside() {
        mask = mask + 8;
    }
    assert(marked(mask as int, 0) == samples[0].inside());
    assert(marked(mask as int, 1) == samples[1].inside());
    assert(marked(mask as int, 2) == samples[2].inside());
    assert(marked(mask as int, 3) == samples[3].inside());
    mask
}

/// The edge joins a marked corner and an unmarked one.
pub open spec fn crosses(mask: int, edge: (usize, usize)) -> bool {
    marked(mask, edge.0 as int) != marked(mask, edge.1 as int)
}

/// The edges that the boundary crosses, in order.
pub open spec fn crossing_edges(mask: int) -> Seq<(usize, usize)> {
    tet_edges().filter(|edge: (usize, usize)| crosses(mask, edge))
}

/// The edges that join a marked corner and an unmarked one.
pub fn marching_edges(mask: u8) -> (result: Vec<(usize, usize)>)
    ensures
        result@ == crossing_edges(mask as int),
{
    let table: [(usize, usize); 6] = [(0, 1), (0, 2), (0, 3), (1, 2), (1, 3), (2, 3)];
    assert(table@ =~= tet_edges());
    let ghost test = |edge: (usize, usize)| crosses(mask as int, edge);
    let mut edges: Vec<(usize, usize)> = Vec::new();
    let mut i: usize = 0;
    proof {
        assert(tet_edges().take(0) =~= Seq::empty());
        reveal(Seq::filter);
    }
    while i < 6
        invariant
            i <= 6,
            table@ == tet_edges(),
            test == (|edge: (usize, usize)| crosses(mask as int, edge)),
            edges@ == tet_edges().take(i as int).filter(test),
        decreases 6 - i,
    {
        let edge = table[i];
        proof {
            reveal(Seq::filter);
            assert(tet_edges().take(i as int + 1).drop_last() =~= tet_edges().take(i as int));
            assert(tet_edges().take(i as int + 1).last() == edge);
        }
        if is_marked(mask, edge.0) != is_marked(mask, edge.1) {
            edges.push(edge);
        }
        i = i + 1;
    }
    assert(tet_edges().take(6) =~= tet_edges());
    edges
}

/// How many corners are marked.
pub open spec fn marked_count(mask: int) -> int {
    mask % 2 + (mask / 2) % 2 + (mask / 4) % 2 + (mask / 8) % 2
}

/// The boundary crosses three edges around a corner that is alone on its
/// side, four edges between two corners and two, and none where all corners
/// are on one side.
pub proof fn crossing_count(mask: int)
    requires
        0 <= mask < 16,
    ensures
        crossing_edges(mask).len() == marked_count(mask) * (4 - marked_count(mask)),
{
    reveal_with_fuel(Seq::filter, 8);
    let test = |edge: (usize, usize)| crosses(mask, edge);
    let all = tet_edges();
    assert(all.drop_last() =~= all.take(5));
    assert(all.take(5).drop_last() =~= all.take(4));
    assert(all.take(4).drop_last() =~= all.take(3));
    assert(all.take(3).drop_last() =~= all.take(2));
    assert(all.take(2).drop_last() =~= all.take(1));
    assert(all.take(1).drop_last() =~= all.take(0));
    assert(all.take(0).filter(test).len() == 0);
    let m = marked_count(mask);
    assert(m == 0 || m == 1 || m == 2 || m == 3 || m == 4);
}

pub type EdgeCrossings = SortedMap<(usize, usize), PointKey>;

/// The edge between two corners, the smaller one first.
pub open spec fn corner_edge(a: usize, b: usize) -> (usize, usize) {
    if b < a {
        (b, a)
    } else {
        (a, b)
    }
}

pub(crate) fn edge_between(a: usize, b: usize) -> (result: (usize, usize))
    ensures
        result == corner_edge(a, b),
{
    if b < a {
        (b, a)
    } else {
        (a, b)
    }
}

/// What one edge of a face adds to the polygon inside the domain.
pub open spec fn edge_piece(a: Sample, b: Sample, crossing: PointKey) -> Seq<PointKey> {
    match (a.inside(), b.inside()) {
        (true, true) => seq![PointKey::Lattice(b.key)],
        (true, false) => seq![crossing],
        (false, true) => seq![crossing, PointKey::Lattice(b.key)],
        (false, false) => Seq::empty(),
    }
}

/// The crossing that the edge needs is known.
pub open spec fn crossing_known(
    samples: Seq<Sample>,
    crossings: Map<(usize, usize), PointKey>,
    a: usize,
    b: usize,
) -> bool {
    samples[a as int].inside() == samples[b as int].inside() || crossings.dom().contains(
        corner_edge(a, b),
    )
}

/// Every crossing of the face is known.
pub open spec fn face_ready(
    samples: Seq<Sample>,
    crossings: Map<(usize, usize), PointKey>,
    face: Seq<usize>,
) -> bool {
    crossing_known(samples, crossings, face[0], face[1]) && crossing_known(
        samples,
        crossings,
        face[1],
        face[2],
    ) && crossing_known(samples, crossings, face[2], face[0])
}

/// The part of an edge of a face inside the domain.
pub open spec fn face_piece(
    samples: Seq<Sample>,
    crossings: Map<(usize, usize), PointKey>,
    a: usize,
    b: usize,
) -> Seq<PointKey> {
    edge_piece(samples[a as int], samples[b as int], crossings[corner_edge(a, b)])
}

/// The part of a face inside the domain.
pub open spec fn face_polygon(
    samples: Seq<Sample>,
    crossings: Map<(usize, usize), PointKey>,
    face: Seq<usize>,
) -> Seq<PointKey> {
    face_piece(samples, crossings, face[0], face[1]) + face_piece(
        samples,
        crossings,
        face[1],
        face[2],
    ) + face_piece(samples, crossings, face[2], face[0])
}

/// Adds what an edge of a face contributes; false where its crossing is
/// missing.
fn push_piece(
    polygon: &mut Vec<PointKey>,
    samples: &[Sample; 4],
    crossings: &EdgeCrossings,
    a: usize,
    b: usize,
) -> (result: bool)
    requires
        crossings.wf(),
        a < 4,
        b < 4,
    ensures
        result == crossing_known(samples@, crossings@, a, b),
        result ==> final(polygon)@ == old(polygon)@ + face_piece(samples@, crossings@, a, b),
{
    let from = samples[a].is_inside();
    let to = samples[b].is_inside();
    if from == to {
        if to {
            polygon.push(PointKey::Lattice(samples[b].key));
        }
    } else {
        match crossings.get(&edge_between(a, b)) {
            Some(key) => {
                polygon.push(*key);
            },
            None => {
                return false;
            },
        }
        if to {
            polygon.push(PointKey::Lattice(samples[b].key));
        }
    }
    assert(polygon@ =~= old(polygon)@ + face_piece(samples@, crossings@, a, b));
    true
}

/// The part of a face inside the domain, as its corners in order.
pub fn clipped_triangle(samples: &[Sample; 4], crossings: &EdgeCrossings, face: &[usize; 3]) -> (result:
    MeshResult<Vec<PointKey>>)
    requires
        crossings.wf(),
        forall|i: int| 0 <= i < 3 ==> #[trigger] face[i] < 4,
    ensures
        face_ready(samples@, crossings@, face@) ==> (result matches Ok(polygon) && polygon@
            == face_polygon(samples@, crossings@, face@) && walks_outline(
            face_points(samples@, face@),
            edge_points(crossings@, face@),
            face_signs(samples@, face@),
            polygon@,
        )),
        !face_ready(samples@, crossings@, face@) ==> fails_input(
            result,
            "marching-tetrahedron face is missing a cached crossing"@,
        ),
{
    assert(face[0] < 4 && face[1] < 4 && face[2] < 4);
    let mut polygon: Vec<PointKey> = Vec::new();
    if push_piece(&mut polygon, samples, crossings, face[0], face[1]) && push_piece(
        &mut polygon,
        samples,
        crossings,
        face[1],
        face[2],
    ) && push_piece(&mut polygon, samples, crossings, face[2], face[0]) {
        assert(polygon@ =~= face_polygon(samples@, crossings@, face@));
        proof {
            clipped_face_follows_outline(samples@, crossings@, face@);
        }
        Ok(polygon)
    } else {
        Err(MeshError::invalid_input("marching-tetrahedron face is missing a cached crossing"))
    }
}

/// The lattice points at the corners of a face.
pub open spec fn face_points(samples: Seq<Sample>, face: Seq<usize>) -> Seq<PointKey> {
    seq![
        PointKey::Lattice(samples[face[0] as int].key),
        PointKey::Lattice(samples[face[1] as int].key),
        PointKey::Lattice(samples[face[2] as int].key),
    ]
}

/// The crossings that are known on the edges of a face, from its first corner on.
pub open spec fn edge_points(crossings: Map<(usize, usize), PointKey>, face: Seq<usize>) -> Seq<
    PointKey,
> {
    seq![
        crossings[corner_edge(face[0], face[1])],
        crossings[corner_edge(face[1], face[2])],
        crossings[corner_edge(face[2], face[0])],
    ]
}

/// Of the corners of a face, whether the distance is at most zero.
pub open spec fn face_signs(samples: Seq<Sample>, face: Seq<usize>) -> Seq<bool> {
    seq![
        samples[face[0] as int].sdf.le(Real { bits: 0 }),
        samples[face[1] as int].sdf.le(Real { bits: 0 }),
        samples[face[2] as int].sdf.le(Real { bits: 0 }),
    ]
}

/// The clipped face follows the outline of the face: it holds exactly the corners
/// inside the domain and the crossings of the edges whose ends differ in sign, each
/// once, in the order in which they follow one another round the face.
pub proof fn clipped_face_follows_outline(
    samples: Seq<Sample>,
    crossings: Map<(usize, usize), PointKey>,
    face: Seq<usize>,
)
    requires
        face.len() == 3,
    ensures
        walks_outline(
            face_points(samples, face),
            edge_points(crossings, face),
            face_signs(samples, face),
            face_polygon(samples, crossings, face),
        ),
{
    edges_walk_outline(
        face_points(samples, face),
        edge_points(crossings, face),
        face_signs(samples, face),
        face_piece(samples, crossings, face[0], face[1]),
        face_piece(samples, crossings, face[1], face[2]),
        face_piece(samples, crossings, face[2], face[0]),
    );
}

/// The crossings on the edges of a face.
pub open spec fn face_crossings(crossings: Map<(usize, usize), PointKey>, face: Seq<usize>) -> Set<
    PointKey,
> {
    Set::new(
        |key: PointKey|
            on_edge(crossings, face[0], face[1], key) || on_edge(crossings, face[1], face[2], key)
                || on_edge(crossings, face[2], face[0], key),
    )
}

pub open spec fn on_edge(
    crossings: Map<(usize, usize), PointKey>,
    a: usize,
    b: usize,
    key: PointKey,
) -> bool {
    crossings.dom().contains(corner_edge(a, b)) && crossings[corner_edge(a, b)] == key
}

/// Two crossings are the only ones on a face: the cut runs between them.
pub open spec fn linked_on(
    crossings: Map<(usize, usize), PointKey>,
    face: Seq<usize>,
    a: PointKey,
    b: PointKey,
) -> bool {
    a != b && face_crossings(crossings, face) == set![a, b]
}

/// The cut runs between the two crossings, on one of the first faces.
pub open spec fn linked_below(
    crossings: Map<(usize, usize), PointKey>,
    count: int,
    pair: (PointKey, PointKey),
) -> bool {
    exists|f: int|
        0 <= f < count && #[trigger] linked_on(crossings, tet_face(f), pair.0, pair.1)
}

/// The pairs of crossings between which the cut runs, each both ways.
pub open spec fn cut_links(crossings: Map<(usize, usize), PointKey>) -> Set<(PointKey, PointKey)> {
    Set::new(|pair: (PointKey, PointKey)| linked_below(crossings, 4, pair))
}

fn note_edge(keys: &mut SortedSet<PointKey>, crossings: &EdgeCrossings, a: usize, b: usize)
    requires
        old(keys).wf(),
        crossings.wf(),
    ensures
        final(keys).wf(),
        forall|key: PointKey| #[trigger]
            final(keys)@.contains(key) <==> old(keys)@.contains(key) || on_edge(
                crossings@,
                a,
                b,
                key,
            ),
{
    if let Some(key) = crossings.get(&edge_between(a, b)) {
        keys.insert(*key);
    }
}

/// The two crossings of a face, where there are exactly two.
fn face_link(crossings: &EdgeCrossings, face: &[usize; 3]) -> (result: Option<(PointKey, PointKey)>)
    requires
        crossings.wf(),
    ensures
        match result {
            Some((a, b)) => linked_on(crossings@, face@, a, b),
            None => forall|a: PointKey, b: PointKey| !linked_on(crossings@, face@, a, b),
        },
{
    let mut keys: SortedSet<PointKey> = SortedSet::new();
    note_edge(&mut keys, crossings, face[0], face[1]);
    note_edge(&mut keys, crossings, face[1], face[2]);
    note_edge(&mut keys, crossings, face[2], face[0]);
    assert(keys@ =~= face_crossings(crossings@, face@));
    proof {
        increasing_has_no_duplicates(keys.items@);
        keys.items@.unique_seq_to_set();
        assert(keys@ =~= keys.items@.to_set());
    }
    if keys.items.len() == 2 {
        let a = keys.items[0];
        let b = keys.items[1];
        proof {
            assert(keys@ =~= set![a, b]) by {
                assert forall|k: PointKey| keys@.contains(k) implies k == a || k == b by {
                    let i = choose|i: int| 0 <= i < 2 && keys.items@[i] == k;
                }
                assert(keys.items@.contains(a));
                assert(keys.items@.contains(b));
            }
        }
        Some((a, b))
    } else {
        proof {
            assert forall|a: PointKey, b: PointKey| !linked_on(crossings@, face@, a, b) by {
                if linked_on(crossings@, face@, a, b) {
                    assert(set![a, b].len() == 2);
                }
            }
        }
        None
    }
}

/// The pairs of crossings between which the cut runs.
pub fn find_links(crossings: &EdgeCrossings) -> (result: SortedSet<(PointKey, PointKey)>)
    requires
        crossings.wf(),
    ensures
        result.wf(),
        result@ == cut_links(crossings@),
{
    let faces = tet_faces();
    let mut links: SortedSet<(PointKey, PointKey)> = SortedSet::new();
    let mut f: usize = 0;
    while f < 4
        invariant
            f <= 4,
            crossings.wf(),
            links.wf(),
            forall|k: int| 0 <= k < 4 ==> (#[trigger] faces[k])@ == tet_face(k),
            forall|pair: (PointKey, PointKey)| #[trigger]
                links@.contains(pair) <==> linked_below(crossings@, f as int, pair),
        decreases 4 - f,
    {
        let ghost before = links@;
        let face = faces[f];
        assert(face@ == tet_face(f as int));
        let link = face_link(crossings, &face);
        if let Some((a, b)) = link {
            links.insert((a, b));
            links.insert((b, a));
        }
        proof {
            assert forall|pair: (PointKey, PointKey)| #[trigger]
                links@.contains(pair) <==> linked_below(crossings@, f + 1, pair) by {
                assert(before.contains(pair) <==> linked_below(crossings@, f as int, pair));
                if let Some((a, b)) = link {
                    let keys = face_crossings(crossings@, tet_face(f as int));
                    assert(set![a, b] =~= set![b, a]);
                    if pair == (a, b) || pair == (b, a) {
                        assert(linked_on(crossings@, tet_face(f as int), pair.0, pair.1));
                    }
                    if linked_on(crossings@, tet_face(f as int), pair.0, pair.1) {
                        assert(keys.contains(pair.0) && keys.contains(pair.1));
                        assert(set![a, b].contains(pair.0) && set![a, b].contains(pair.1));
                    }
                }
                if linked_below(crossings@, f as int, pair) {
                    let k = choose|k: int|
                        0 <= k < f && #[trigger] linked_on(
                            crossings@,
                            tet_face(k),
                            pair.0,
                            pair.1,
                        );
                    assert(linked_on(crossings@, tet_face(k), pair.0, pair.1));
                }
                if linked_below(crossings@, f + 1, pair) {
                    let k = choose|k: int|
                        0 <= k < f + 1 && #[trigger] linked_on(
                            crossings@,
                            tet_face(k),
                            pair.0,
                            pair.1,
                        );
                    if k < f {
                        assert(linked_below(crossings@, f as int, pair));
                    }
                }
            }
        }
        f = f + 1;
    }
    assert(links@ =~= cut_links(crossings@));
    links
}

/// The first link, from a place on, that leads from the point to another one
/// than the previous.
pub open spec fn next_from(
    links: Seq<(PointKey, PointKey)>,
    place: int,
    current: PointKey,
    previous: Option<PointKey>,
) -> Option<PointKey>
    decreases links.len() - place,
{
    if place < 0 || place >= links.len() {
        None
    } else if links[place].0 == current && Some(links[place].1) != previous {
        Some(links[place].1)
    } else {
        next_from(links, place + 1, current, previous)
    }
}

/// The path extended along the links until it returns to its start; empty
/// where it does not in that many steps.
pub open spec fn walk(
    links: Seq<(PointKey, PointKey)>,
    path: Seq<PointKey>,
    previous: Option<PointKey>,
    steps: nat,
) -> Seq<PointKey>
    decreases steps,
{
    if steps == 0 {
        Seq::empty()
    } else {
        match next_from(links, 0, path.last(), previous) {
            None => Seq::empty(),
            Some(next) => if next == path[0] {
                path
            } else {
                walk(links, path.push(next), Some(path.last()), (steps - 1) as nat)
            },
        }
    }
}

/// How many points the first links lead from.
pub open spec fn start_count(links: Seq<(PointKey, PointKey)>, count: int) -> nat
    decreases count,
{
    if count <= 0 {
        0
    } else if count == 1 || links[count - 2].0 != links[count - 1].0 {
        start_count(links, count - 1) + 1
    } else {
        start_count(links, count - 1)
    }
}

/// The cycle that the links form, from the first point on.
pub open spec fn cycle_of(links: Seq<(PointKey, PointKey)>) -> Seq<PointKey> {
    if links.len() == 0 {
        Seq::empty()
    } else {
        walk(links, seq![links[0].0], None, start_count(links, links.len() as int))
    }
}

fn find_next(links: &Vec<(PointKey, PointKey)>, current: PointKey, previous: Option<PointKey>) -> (result:
    Option<PointKey>)
    ensures
        result == next_from(links@, 0, current, previous),
{
    let mut i: usize = 0;
    while i < links.len()
        invariant
            i <= links.len(),
            next_from(links@, 0, current, previous) == next_from(
                links@,
                i as int,
                current,
                previous,
            ),
        decreases links.len() - i,
    {
        if same_key(&links[i].0, &current) {
            let back = match previous {
                Some(key) => same_key(&key, &links[i].1),
                None => false,
            };
            if !back {
                return Some(links[i].1);
            }
        }
        i = i + 1;
    }
    None
}

fn count_starts(links: &Vec<(PointKey, PointKey)>) -> (result: usize)
    ensures
        result == start_count(links@, links@.len() as int),
{
    let mut count: usize = 0;
    let mut i: usize = 0;
    while i < links.len()
        invariant
            i <= links.len(),
            count <= i,
            count == start_count(links@, i as int),
        decreases links.len() - i,
    {
        if i == 0 || !same_key(&links[i - 1].0, &links[i].0) {
            count = count + 1;
        }
        i = i + 1;
    }
    count
}

/// Follows the links around the cut, from the first point on; empty where
/// they do not close.
pub fn trace_cycle(links: &SortedSet<(PointKey, PointKey)>) -> (result: Vec<PointKey>)
    ensures
        result@ == cycle_of(links.items@),
{
    let items = &links.items;
    let mut path: Vec<PointKey> = Vec::new();
    if items.len() == 0 {
        return path;
    }
    path.push(items[0].0);
    assert(path@ =~= seq![items@[0].0]);
    let mut previous: Option<PointKey> = None;
    let mut steps: usize = count_starts(items);
    while steps > 0
        invariant
            items@ == links.items@,
            path@.len() > 0,
            cycle_of(items@) == walk(items@, path@, previous, steps as nat),
        decreases steps,
    {
        let current = path[path.len() - 1];
        match find_next(items, current, previous) {
            None => {
                return Vec::new();
            },
            Some(next) => {
                if same_key(&next, &path[0]) {
                    return path;
                }
                path.push(next);
                previous = Some(current);
            },
        }
        steps = steps - 1;
    }
    Vec::new()
}

proof fn next_is_linked(
    links: Seq<(PointKey, PointKey)>,
    place: int,
    current: PointKey,
    previous: Option<PointKey>,
)
    requires
        0 <= place,
    ensures
        next_from(links, place, current, previous) matches Some(next) ==> links.contains(
            (current, next),
        ) && Some(next) != previous,
    decreases links.len() - place,
{
    if place < links.len() {
        if links[place].0 == current && Some(links[place].1) != previous {
            assert(links[place] == (current, links[place].1));
        } else {
            next_is_linked(links, place + 1, current, previous);
        }
    }
}

/// Each point of the path is linked to the next one.
pub open spec fn path_linked(links: Seq<(PointKey, PointKey)>, path: Seq<PointKey>) -> bool {
    forall|i: int|
        0 <= i < path.len() - 1 ==> links.contains((#[trigger] path[i], path[i + 1]))
}

proof fn walk_is_linked(
    links: Seq<(PointKey, PointKey)>,
    path: Seq<PointKey>,
    previous: Option<PointKey>,
    steps: nat,
)
    requires
        path.len() > 0,
        path_linked(links, path),
    ensures
        path_linked(links, walk(links, path, previous, steps)),
        walk(links, path, previous, steps).len() > 0 ==> walk(links, path, previous, steps)[0]
            == path[0] && links.contains((walk(links, path, previous, steps).last(), path[0])),
    decreases steps,
{
    if steps > 0 {
        next_is_linked(links, 0, path.last(), previous);
        if let Some(next) = next_from(links, 0, path.last(), previous) {
            if next != path[0] {
                let longer = path.push(next);
                assert forall|i: int| 0 <= i < longer.len() - 1 implies links.contains(
                    (#[trigger] longer[i], longer[i + 1]),
                ) by {
                    if i < path.len() - 1 {
                        assert(links.contains((path[i], path[i + 1])));
                    }
                }
                walk_is_linked(links, longer, Some(path.last()), (steps - 1) as nat);
            }
        }
    }
}

/// A traced cycle runs along the links, and a link leads from its last point
/// back to its first.
pub proof fn traced_cycle_is_closed(links: Seq<(PointKey, PointKey)>)
    ensures
        path_linked(links, cycle_of(links)),
        cycle_of(links).len() > 0 ==> links.contains((cycle_of(links).last(), cycle_of(links)[0])),
{
    if links.len() > 0 {
        walk_is_linked(
            links,
            seq![links[0].0],
            None,
            start_count(links, links.len() as int),
        );
    }
}

/// The part of an edge at its start within which a crossing moves onto the
/// end point: `0.04`.
pub const SNAP_LOW_BITS: u64 = 0x3fa4_7ae1_47ae_147b;

/// The part of an edge from which on a crossing moves onto the far end point:
/// the least number that lies within `0.04` of one.
pub const SNAP_HIGH_BITS: u64 = 0x3fee_b851_eb85_1eb9;

pub type LatticeEdge = (Lattice, Lattice);

/// The name of a crossing that needs no search.
pub open spec fn settled_crossing(
    crossings: Map<LatticeEdge, PointKey>,
    a: Sample,
    b: Sample,
) -> Option<PointKey> {
    let edge = sorted_pair(a.key, b.key);
    if crossings.dom().contains(edge) {
        Some(crossings[edge])
    } else if a.on_boundary() {
        Some(PointKey::Lattice(a.key))
    } else if b.on_boundary() {
        Some(PointKey::Lattice(b.key))
    } else {
        None
    }
}

/// Looks a crossing up; `None` where it has to be searched for. Where a sample
/// lies on the boundary, that sample is the crossing, and is noted as such.
pub fn start_crossing(
    a: &Sample,
    b: &Sample,
    points: &mut SortedMap<PointKey, Point>,
    crossings: &mut SortedMap<LatticeEdge, PointKey>,
) -> (result: Option<PointKey>)
    requires
        old(points).wf(),
        old(crossings).wf(),
    ensures
        final(points).wf(),
        final(crossings).wf(),
        result == settled_crossing(old(crossings)@, *a, *b),
        match result {
            Some(key) => {
                let edge = sorted_pair(a.key, b.key);
                &&& final(crossings)@ == old(crossings)@.insert(edge, key)
                &&& final(points)@ == (if old(crossings)@.dom().contains(edge) {
                    old(points)@
                } else if a.on_boundary() {
                    old(points)@.insert(key, a.point())
                } else {
                    old(points)@.insert(key, b.point())
                })
            },
            None => *final(points) == *old(points) && *final(crossings) == *old(crossings),
        },
{
    let edge = sort_pair(a.key, b.key);
    if let Some(key) = crossings.get(&edge) {
        assert(crossings@ =~= crossings@.insert(edge, *key));
        return Some(*key);
    }
    if a.is_on_boundary() {
        let key = PointKey::Lattice(a.key);
        points.insert(key, Point { world: a.world, boundary: true });
        crossings.insert(edge, key);
        return Some(key);
    }
    if b.is_on_boundary() {
        let key = PointKey::Lattice(b.key);
        points.insert(key, Point { world: b.world, boundary: true });
        crossings.insert(edge, key);
        return Some(key);
    }
    None
}

/// The name of a crossing found at part `t` of the way from `a` to `b`: close
/// to an end it is that end.
pub open spec fn crossing_key(a: Sample, b: Sample, t: Real) -> PointKey {
    let edge = sorted_pair(a.key, b.key);
    if t.le(Real { bits: SNAP_LOW_BITS }) {
        PointKey::Lattice(a.key)
    } else if (Real { bits: SNAP_HIGH_BITS }).le(t) {
        PointKey::Lattice(b.key)
    } else {
        PointKey::Crossing(edge.0, edge.1)
    }
}

/// Notes a crossing that was searched for. A point already on the boundary
/// stays where it is.
pub fn finish_crossing(
    a: &Sample,
    b: &Sample,
    t: Real,
    world: Vector3,
    points: &mut SortedMap<PointKey, Point>,
    crossings: &mut SortedMap<LatticeEdge, PointKey>,
) -> (result: PointKey)
    requires
        old(points).wf(),
        old(crossings).wf(),
    ensures
        final(points).wf(),
        final(crossings).wf(),
        result == crossing_key(*a, *b, t),
        final(crossings)@ == old(crossings)@.insert(sorted_pair(a.key, b.key), result),
        final(points)@ == (if old(points)@.dom().contains(result) && old(points)@[result].boundary {
            old(points)@
        } else {
            old(points)@.insert(result, (Point { world, boundary: true }))
        }),
{
    let edge = sort_pair(a.key, b.key);
    let key = if t.at_most(Real { bits: SNAP_LOW_BITS }) {
        PointKey::Lattice(a.key)
    } else if (Real { bits: SNAP_HIGH_BITS }).at_most(t) {
        PointKey::Lattice(b.key)
    } else {
        PointKey::Crossing(edge.0, edge.1)
    };
    let settled = match points.get(&key) {
        Some(existing) => existing.boundary,
        None => false,
    };
    if !settled {
        points.insert(key, Point { world, boundary: true });
    }
    crossings.insert(edge, key);
    key
}

/// The points with a sample added, if it is inside and new.
pub open spec fn with_sample(points: Map<PointKey, Point>, sample: Sample) -> Map<PointKey, Point> {
    let key = PointKey::Lattice(sample.key);
    if sample.inside() && !points.dom().contains(key) {
        points.insert(key, sample.point())
    } else {
        points
    }
}

fn note_sample(points: &mut SortedMap<PointKey, Point>, sample: &Sample)
    requires
        old(points).wf(),
    ensures
        final(points).wf(),
        final(points)@ == with_sample(old(points)@, *sample),
{
    let key = PointKey::Lattice(sample.key);
    if sample.is_inside() && !points.contains_key(&key) {
        points.insert(key, Point { world: sample.world, boundary: sample.is_on_boundary() });
    }
}

/// Adds the samples inside the domain to the points, unless they are there.
pub fn note_samples(points: &mut SortedMap<PointKey, Point>, samples: &[Sample; 4])
    requires
        old(points).wf(),
    ensures
        final(points).wf(),
        final(points)@ == with_sample(
            with_sample(
                with_sample(with_sample(old(points)@, samples[0]), samples[1]),
                samples[2],
            ),
            samples[3],
        ),
{
    note_sample(points, &samples[0]);
    note_sample(points, &samples[1]);
    note_sample(points, &samples[2]);
    note_sample(points, &samples[3]);
}

/// A crossing has one name from both ends of its edge. Within the snapping distance of an
/// end it is that end.
pub proof fn crossing_is_named_alike(a: Sample, b: Sample, t: Real, u: Real)
    requires
        a.key != b.key,
    ensures
        ({
            let low = Real { bits: SNAP_LOW_BITS };
            let high = Real { bits: SNAP_HIGH_BITS };
            &&& low.lt(high)
            &&& t.le(low) ==> crossing_key(a, b, t) == PointKey::Lattice(a.key)
            &&& high.le(t) ==> crossing_key(a, b, t) == PointKey::Lattice(b.key)
            &&& !t.le(low) && !high.le(t) && !u.le(low) && !high.le(u) ==> crossing_key(a, b, t)
                == crossing_key(b, a, u)
            &&& !t.le(low) && !high.le(t) ==> (crossing_key(a, b, t) matches PointKey::Crossing(x, y)
                && (x == a.key && y == b.key || x == b.key && y == a.key))
        }),
{
    Lattice::total(a.key, b.key);
    if a.key.before(b.key) && b.key.before(a.key) {
        Lattice::transitive(a.key, b.key, a.key);
        Lattice::irreflexive(a.key);
    }
}

/// A crossing that needs no search is found alike from both ends, unless both lie on the
/// boundary and its edge is new. A known crossing keeps its name, and an end on the
/// boundary is the crossing.
pub proof fn settled_crossing_is_alike(
    crossings: Map<LatticeEdge, PointKey>,
    a: Sample,
    b: Sample,
)
    requires
        a.key != b.key,
    ensures
        !(a.on_boundary() && b.on_boundary()) ==> settled_crossing(crossings, a, b)
            == settled_crossing(crossings, b, a),
        crossings.dom().contains((a.key, b.key)) && a.key.before(b.key) ==> settled_crossing(
            crossings,
            a,
            b,
        ) == Some(crossings[(a.key, b.key)]) && settled_crossing(crossings, b, a) == Some(
            crossings[(a.key, b.key)],
        ),
        settled_crossing(crossings, a, b) is None ==> !a.on_boundary() && !b.on_boundary(),
        settled_crossing(Map::empty(), a, b) is Some <==> a.on_boundary() || b.on_boundary(),
        a.on_boundary() ==> settled_crossing(Map::empty(), a, b) == Some(PointKey::Lattice(a.key)),
{
    Lattice::total(a.key, b.key);
    if a.key.before(b.key) && b.key.before(a.key) {
        Lattice::transitive(a.key, b.key, a.key);
        Lattice::irreflexive(a.key);
    }
}

/// A sample becomes a point exactly where it is inside and new; a point that is there
/// stays as it is.
pub proof fn inside_samples_become_points(points: Map<PointKey, Point>, sample: Sample, key: PointKey)
    ensures
        with_sample(points, sample).dom().contains(key) <==> points.dom().contains(key) || (key
            == PointKey::Lattice(sample.key) && sample.sdf.le(Real { bits: 0 })),
        points.dom().contains(key) ==> with_sample(points, sample)[key] == points[key],
        sample.sdf.le(Real { bits: 0 }) && !points.dom().contains(PointKey::Lattice(sample.key))
            ==> with_sample(points, sample)[PointKey::Lattice(sample.key)].world == sample.world
            && with_sample(points, sample)[PointKey::Lattice(sample.key)].boundary
            == sample.sdf.same_value(Real { bits: 0 }),
{
}

/// The cut runs both ways between two crossings, both lie on edges of one face, and no third
/// crossing does.
pub proof fn links_run_both_ways(
    crossings: Map<(usize, usize), PointKey>,
    face: Seq<usize>,
    a: PointKey,
    b: PointKey,
    key: PointKey,
)
    ensures
        linked_on(crossings, face, a, b) == linked_on(crossings, face, b, a),
        cut_links(crossings).contains((a, b)) == cut_links(crossings).contains((b, a)),
        linked_on(crossings, face, a, b) ==> a != b && (key == a || key == b <==> exists|i: int|
            0 <= i < 3 && crossings.dom().contains(#[trigger] face_side(face, i))
                && crossings[face_side(face, i)] == key),
{
    assert(set![a, b] =~= set![b, a]);
    if linked_below(crossings, 4, (a, b)) {
        let f = choose|f: int| 0 <= f < 4 && #[trigger] linked_on(crossings, tet_face(f), a, b);
        assert(set![a, b] =~= set![b, a]);
        assert(linked_on(crossings, tet_face(f), b, a));
        let back = (b, a);
        assert(linked_on(crossings, tet_face(f), back.0, back.1));
        assert(0 <= f < 4);
        assert(linked_below(crossings, 4, back));
    }
    if linked_below(crossings, 4, (b, a)) {
        let f = choose|f: int| 0 <= f < 4 && #[trigger] linked_on(crossings, tet_face(f), b, a);
        assert(linked_on(crossings, tet_face(f), a, b));
        let back = (a, b);
        assert(linked_on(crossings, tet_face(f), back.0, back.1));
        assert(0 <= f < 4);
        assert(linked_below(crossings, 4, back));
    }
    assert(cut_links(crossings).contains((a, b)) == linked_below(crossings, 4, (a, b)));
    assert(cut_links(crossings).contains((b, a)) == linked_below(crossings, 4, (b, a)));
    if linked_on(crossings, face, a, b) {
        assert(face_crossings(crossings, face).contains(key) == set![a, b].contains(key));
        assert(face_side(face, 0) == corner_edge(face[0], face[1]));
        assert(face_side(face, 1) == corner_edge(face[1], face[2]));
        assert(face_side(face, 2) == corner_edge(face[2], face[0]));
    }
}

/// The edge of a face from a corner to the next, the smaller number first.
pub open spec fn face_side(face: Seq<usize>, side: int) -> (usize, usize) {
    let (x, y) = if side == 0 {
        (face[0], face[1])
    } else if side == 1 {
        (face[1], face[2])
    } else {
        (face[2], face[0])
    };
    if x <= y {
        (x, y)
    } else {
        (y, x)
    }
}

} // verus!
