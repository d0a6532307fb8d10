//! Filling the polyhedron that remains of a cut tetrahedron: as a prism, or
//! around a point inside.

use vstd::prelude::*;

use crate::faces::sort_triple;
#[allow(unused_imports)]
use crate::faces::sorted_triple;
use crate::number::{Real, Vector3};
#[allow(unused_imports)]
use crate::number::total_rank_injective;
use crate::octree::Leaf;
use crate::solid::{improves, objective, orient_tet, Candidate, Cell, Objective, Point, PointKey, Sample};
#[allow(unused_imports)]
use crate::solid::{below_floor, better, righted, tet_known, worst_of};
use crate::sorted::{same_key, Key, SortedSet};
#[allow(unused_imports)]
use crate::sorted::increasing_sequence_is_unique;
use crate::tetrahedra::{inside_mask, marching_edges, note_samples};
#[allow(unused_imports)]
use crate::cutting::masks;
#[allow(unused_imports)]
use crate::tetrahedra::{crossing_edges, marked, tet_face, with_sample};
use crate::topology::VALID_QUALITY_BITS;

verus! {

/// Three points, the smallest first.
pub type FaceKey = (PointKey, (PointKey, PointKey));

pub open spec fn face_key(a: PointKey, b: PointKey, c: PointKey) -> FaceKey {
    sorted_triple(a, b, c)
}

pub fn sorted3(a: PointKey, b: PointKey, c: PointKey) -> (result: FaceKey)
    ensures
        result == face_key(a, b, c),
{
    sort_triple(a, b, c)
}

/// A face has one name, in whichever order its points are given, and the name
/// tells the points.
pub proof fn face_key_names_points(a: PointKey, b: PointKey, c: PointKey)
    ensures
        face_key(a, b, c) == face_key(b, a, c),
        face_key(a, b, c) == face_key(b, c, a),
        ({
            let (x, (y, z)) = face_key(a, b, c);
            &&& !y.before(x)
            &&& !z.before(y)
            &&& seq![x, y, z].to_multiset() == seq![a, b, c].to_multiset()
        }),
{
    PointKey::total(a, b);
    PointKey::total(b, c);
    PointKey::total(a, c);
    PointKey::irreflexive(a);
    PointKey::irreflexive(b);
    PointKey::irreflexive(c);
    let list = seq![a, b, c];
    let (x, (y, z)) = face_key(a, b, c);
    let sorted = seq![x, y, z];
    broadcast use vstd::seq_lib::group_to_multiset_ensures;

    let empty = Seq::<PointKey>::empty();
    assert(list =~= empty.push(a).push(b).push(c));
    assert(sorted =~= empty.push(x).push(y).push(z));
    assert(sorted.to_multiset() =~= list.to_multiset());
    assert(face_key(a, b, c) == face_key(b, a, c));
    assert(face_key(a, b, c) == face_key(b, c, a));
}

/// The name of a face of a tetrahedron.
pub open spec fn tet_face_key(tet: Seq<PointKey>, face: int) -> FaceKey {
    face_key(
        tet[tet_face(face)[0] as int],
        tet[tet_face(face)[1] as int],
        tet[tet_face(face)[2] as int],
    )
}

/// The names of the faces of tetrahedra, four for each.
pub open spec fn face_keys(tets: Seq<[PointKey; 4]>) -> Seq<FaceKey> {
    Seq::new(4 * tets.len(), |i: int| tet_face_key(tets[i / 4]@, i % 4))
}

pub(crate) fn list_face_keys(tets: &Vec<[PointKey; 4]>) -> (result: Vec<FaceKey>)
    ensures
        result@ == face_keys(tets@),
{
    let mut keys: Vec<FaceKey> = Vec::new();
    let mut t: usize = 0;
    assert(keys@ =~= face_keys(tets@.take(0)));
    while t < tets.len()
        invariant
            t <= tets.len(),
            keys@ == face_keys(tets@.take(t as int)),
        decreases tets.len() - t,
    {
        let tet = tets[t];
        let first = sorted3(tet[0], tet[2], tet[1]);
        let second = sorted3(tet[0], tet[1], tet[3]);
        let third = sorted3(tet[1], tet[2], tet[3]);
        let fourth = sorted3(tet[2], tet[0], tet[3]);
        let ghost before = keys@;
        keys.push(first);
        keys.push(second);
        keys.push(third);
        keys.push(fourth);
        proof {
            let longer = tets@.take(t as int + 1);
            assert(first == tet_face_key(tet@, 0));
            assert(second == tet_face_key(tet@, 1));
            assert(third == tet_face_key(tet@, 2));
            assert(fourth == tet_face_key(tet@, 3));
            assert forall|i: int| 0 <= i < keys@.len() implies keys@[i] == #[trigger] face_keys(
                longer,
            )[i] by {
                if i < 4 * t {
                    assert(before[i] == face_keys(tets@.take(t as int))[i]);
                    assert(i / 4 < t);
                } else {
                    assert(i / 4 == t);
                    assert(longer[i / 4] == tet);
                }
            }
            assert(keys@ =~= face_keys(longer));
        }
        t = t + 1;
    }
    assert(tets@.take(t as int) =~= tets@);
    keys
}

/// How often the key stands among the first of the list.
pub open spec fn occurrences(keys: Seq<FaceKey>, key: FaceKey, count: int) -> int
    decreases count,
{
    if count <= 0 {
        0
    } else {
        occurrences(keys, key, count - 1) + (if keys[count - 1] == key {
            1int
        } else {
            0
        })
    }
}

/// The faces that belong to one tetrahedron only.
pub open spec fn exposed(tets: Seq<[PointKey; 4]>) -> Set<FaceKey> {
    Set::new(|key: FaceKey| occurrences(face_keys(tets), key, 4 * tets.len() as int) == 1)
}

proof fn occurrences_bound(keys: Seq<FaceKey>, key: FaceKey, count: int)
    requires
        0 <= count <= keys.len(),
    ensures
        0 <= occurrences(keys, key, count) <= count,
        occurrences(keys, key, count) > 0 <==> exists|i: int| 0 <= i < count && keys[i] == key,
    decreases count,
{
    if count > 0 {
        occurrences_bound(keys, key, count - 1);
        if occurrences(keys, key, count) > 0 {
            if keys[count - 1] != key {
                let i = choose|i: int| 0 <= i < count - 1 && keys[i] == key;
                assert(keys[i] == key);
            }
        }
    }
}

fn count_key(keys: &Vec<FaceKey>, key: &FaceKey) -> (result: usize)
    ensures
        result == occurrences(keys@, *key, keys@.len() as int),
{
    let mut count: usize = 0;
    let mut i: usize = 0;
    while i < keys.len()
        invariant
            i <= keys.len(),
            count <= i,
            count == occurrences(keys@, *key, i as int),
        decreases keys.len() - i,
    {
        if same_key(&keys[i], key) {
            count = count + 1;
        }
        i = i + 1;
    }
    count
}

/// The faces that belong to one tetrahedron only.
pub fn exposed_faces(tets: &Vec<[PointKey; 4]>) -> (result: SortedSet<FaceKey>)
    ensures
        result.wf(),
        result@ == exposed(tets@),
{
    let keys = list_face_keys(tets);
    let mut set: SortedSet<FaceKey> = SortedSet::new();
    let mut i: usize = 0;
    while i < keys.len()
        invariant
            i <= keys.len(),
            keys@ == face_keys(tets@),
            set.wf(),
            forall|key: FaceKey| #[trigger]
                set@.contains(key) <==> keys@.take(i as int).contains(key) && occurrences(
                    keys@,
                    key,
                    keys@.len() as int,
                ) == 1,
        decreases keys.len() - i,
    {
        let key = keys[i];
        let ghost before = set@;
        if count_key(&keys, &key) == 1 {
            set.insert(key);
        }
        proof {
            let shorter = keys@.take(i as int);
            let longer = keys@.take(i as int + 1);
            assert(longer =~= shorter.push(key));
            assert forall|k: FaceKey| #[trigger]
                set@.contains(k) <==> longer.contains(k) && occurrences(
                    keys@,
                    k,
                    keys@.len() as int,
                ) == 1 by {
                assert(before.contains(k) <==> shorter.contains(k) && occurrences(
                    keys@,
                    k,
                    keys@.len() as int,
                ) == 1);
                assert(longer[i as int] == key);
                if shorter.contains(k) {
                    let p = shorter.index_of(k);
                    assert(longer[p] == k);
                }
                if longer.contains(k) && k != key {
                    let p = longer.index_of(k);
                    assert(shorter[p] == k);
                }
            }
        }
        i = i + 1;
    }
    proof {
        assert(keys@.take(i as int) =~= keys@);
        assert forall|k: FaceKey| #[trigger] set@.contains(k) <==> exposed(tets@).contains(k) by {
            occurrences_bound(keys@, k, keys@.len() as int);
            if exposed(tets@).contains(k) {
                let p = choose|p: int| 0 <= p < keys@.len() && keys@[p] == k;
                assert(keys@.contains(k));
            }
        }
        assert(set@ =~= exposed(tets@));
    }
    set
}

/// The six orders of three places.
pub open spec fn order_of(permutation: int) -> Seq<int> {
    if permutation == 0 {
        seq![0int, 1, 2]
    } else if permutation == 1 {
        seq![0int, 2, 1]
    } else if permutation == 2 {
        seq![1int, 0, 2]
    } else if permutation == 3 {
        seq![1int, 2, 0]
    } else if permutation == 4 {
        seq![2int, 0, 1]
    } else {
        seq![2int, 1, 0]
    }
}

/// The three tetrahedra of a prism, by the order in which its sides are cut.
pub open spec fn prism_cut(p: Seq<PointKey>, q: Seq<PointKey>, permutation: int) -> Seq<
    Seq<PointKey>,
> {
    let order = order_of(permutation);
    let a = |k: int| p[order[k]];
    let b = |k: int| q[order[k]];
    seq![
        seq![a(0), a(1), a(2), b(0)],
        seq![a(1), a(2), b(0), b(1)],
        seq![a(2), b(0), b(1), b(2)],
    ]
}

/// The three tetrahedra of a prism, before they are turned the right way.
pub fn prism_tets(prism: &[[PointKey; 3]; 2], permutation: usize) -> (result: [[PointKey; 4]; 3])
    requires
        permutation < 6,
    ensures
        forall|t: int|
            0 <= t < 3 ==> (#[trigger] result[t])@ == prism_cut(
                prism[0]@,
                prism[1]@,
                permutation as int,
            )[t],
{
    let order: [usize; 3] = if permutation == 0 {
        [0, 1, 2]
    } else if permutation == 1 {
        [0, 2, 1]
    } else if permutation == 2 {
        [1, 0, 2]
    } else if permutation == 3 {
        [1, 2, 0]
    } else if permutation == 4 {
        [2, 0, 1]
    } else {
        [2, 1, 0]
    };
    assert(order[0] < 3 && order[1] < 3 && order[2] < 3);
    let p = prism[0];
    let q = prism[1];
    let first = [p[order[0]], p[order[1]], p[order[2]], q[order[0]]];
    let second = [p[order[1]], p[order[2]], q[order[0]], q[order[1]]];
    let third = [p[order[2]], q[order[0]], q[order[1]], q[order[2]]];
    proof {
        let cut = prism_cut(prism[0]@, prism[1]@, permutation as int);
        assert(first@ =~= cut[0]);
        assert(second@ =~= cut[1]);
        assert(third@ =~= cut[2]);
    }
    [first, second, third]
}

/// What was measured of the tetrahedra of a prism, in one of its orders.
#[derive(Debug, Clone, Copy)]
pub struct PrismMeasure {
    /// Which tetrahedra had to be turned.
    pub inverted: [bool; 3],
    /// One of them, once turned, has too little volume.
    pub degenerate: bool,
    pub qualities: [Real; 3],
    /// The worst quality and what counts as better.
    pub bar: Real,
}

/// A prism filled with tetrahedra.
pub struct PrismFill {
    pub objective: Objective,
    pub tets: Vec<[PointKey; 4]>,
}

pub open spec fn quads(tets: Seq<[PointKey; 4]>) -> Seq<Seq<PointKey>> {
    tets.map_values(|tet: [PointKey; 4]| tet@)
}

/// The tetrahedra of a prism in an order, turned the right way.
pub open spec fn righted_cut(
    p: Seq<PointKey>,
    q: Seq<PointKey>,
    permutation: int,
    inverted: Seq<bool>,
) -> Seq<Seq<PointKey>> {
    let cut = prism_cut(p, q, permutation);
    seq![
        righted(cut[0], inverted[0]),
        righted(cut[1], inverted[1]),
        righted(cut[2], inverted[2]),
    ]
}

fn oriented_tets(prism: &[[PointKey; 3]; 2], permutation: usize, inverted: &[bool; 3]) -> (result:
    Vec<[PointKey; 4]>)
    requires
        permutation < 6,
    ensures
        quads(result@) == righted_cut(prism[0]@, prism[1]@, permutation as int, inverted@),
        result@.len() == 3,
{
    let raw = prism_tets(prism, permutation);
    let mut tets: Vec<[PointKey; 4]> = Vec::new();
    tets.push(orient_tet(raw[0], inverted[0]));
    tets.push(orient_tet(raw[1], inverted[1]));
    tets.push(orient_tet(raw[2], inverted[2]));
    assert(quads(tets@) =~= righted_cut(prism[0]@, prism[1]@, permutation as int, inverted@));
    tets
}

/// The first list comes before the second: at the first place where they
/// differ it has the smaller point.
pub open spec fn list_before(a: Seq<Seq<PointKey>>, b: Seq<Seq<PointKey>>) -> bool {
    exists|place: int| #[trigger] differ_at(a, b, place)
}

/// Two lists of three tetrahedra agree before a place and the first is
/// smaller there.
pub open spec fn differ_at(a: Seq<Seq<PointKey>>, b: Seq<Seq<PointKey>>, place: int) -> bool {
    0 <= place < 12 && a[place / 4][place % 4].before(b[place / 4][place % 4]) && forall|k: int|
        0 <= k < place ==> #[trigger] a[k / 4][k % 4] == b[k / 4][k % 4]
}

fn comes_before(a: &Vec<[PointKey; 4]>, b: &Vec<[PointKey; 4]>) -> (result: bool)
    requires
        a@.len() == 3,
        b@.len() == 3,
    ensures
        result == list_before(quads(a@), quads(b@)),
{
    let ghost x = quads(a@);
    let ghost y = quads(b@);
    let mut place: usize = 0;
    while place < 12
        invariant
            place <= 12,
            a@.len() == 3,
            b@.len() == 3,
            x == quads(a@),
            y == quads(b@),
            forall|k: int| 0 <= k < place ==> #[trigger] x[k / 4][k % 4] == y[k / 4][k % 4],
        decreases 12 - place,
    {
        let left = a[place / 4][place % 4];
        let right = b[place / 4][place % 4];
        proof {
            assert(x[place as int / 4][place as int % 4] == left);
            assert(y[place as int / 4][place as int % 4] == right);
            PointKey::total(left, right);
        }
        if left.precedes(&right) {
            assert(differ_at(x, y, place as int));
            return true;
        }
        if right.precedes(&left) {
            proof {
                assert forall|p: int| !differ_at(x, y, p) by {
                    if differ_at(x, y, p) {
                        if p < place {
                            PointKey::irreflexive(x[p / 4][p % 4]);
                            assert(x[p / 4][p % 4] == y[p / 4][p % 4]);
                        } else if p == place {
                            PointKey::transitive(left, right, left);
                            PointKey::irreflexive(left);
                        } else {
                            assert(x[place as int / 4][place as int % 4] == y[place as int / 4][
                            place as int % 4]);
                            PointKey::irreflexive(left);
                        }
                    }
                }
            }
            return false;
        }
        place = place + 1;
    }
    proof {
        assert forall|p: int| !differ_at(x, y, p) by {
            if differ_at(x, y, p) {
                assert(x[p / 4][p % 4] == y[p / 4][p % 4]);
                PointKey::irreflexive(x[p / 4][p % 4]);
            }
        }
    }
    false
}

/// The objective and the tetrahedra of a filled prism.
pub open spec fn fill_view(fill: Option<PrismFill>) -> Option<(Objective, Seq<Seq<PointKey>>)> {
    match fill {
        Some(fill) => Some((fill.objective, quads(fill.tets@))),
        None => None,
    }
}

pub open spec fn prism_objective(measure: PrismMeasure) -> Objective {
    Objective {
        below: below_floor(measure.qualities@, 3) as usize,
        worst: worst_of(measure.qualities@, 3),
        bar: measure.bar,
    }
}

/// The order is of use: no tetrahedron is flat, and together they show
/// exactly the wanted faces.
pub open spec fn order_fits(
    p: Seq<PointKey>,
    q: Seq<PointKey>,
    wanted: Set<FaceKey>,
    permutation: int,
    measure: PrismMeasure,
) -> bool {
    !measure.degenerate && shown(righted_cut(p, q, permutation, measure.inverted@)) == wanted
}

/// The faces that belong to one of three tetrahedra only.
pub open spec fn shown(tets: Seq<Seq<PointKey>>) -> Set<FaceKey> {
    Set::new(
        |key: FaceKey|
            occurrences(
                Seq::new(4 * tets.len(), |i: int| tet_face_key(tets[i / 4], i % 4)),
                key,
                4 * tets.len() as int,
            ) == 1,
    )
}

/// The first filling replaces the second: it is better, or as good and comes
/// first.
pub open spec fn replaces(
    fresh: (Objective, Seq<Seq<PointKey>>),
    held: Option<(Objective, Seq<Seq<PointKey>>)>,
) -> bool {
    match held {
        None => true,
        Some((objective, tets)) => better(objective, fresh.0) || (fresh.0.below == objective.below
            && fresh.0.worst.same_value(objective.worst) && list_before(fresh.1, tets)),
    }
}

/// The best filling among the first orders.
pub open spec fn best_of_orders(
    p: Seq<PointKey>,
    q: Seq<PointKey>,
    wanted: Set<FaceKey>,
    measures: Seq<PrismMeasure>,
    count: int,
) -> Option<(Objective, Seq<Seq<PointKey>>)>
    decreases count,
{
    if count <= 0 {
        None
    } else {
        let held = best_of_orders(p, q, wanted, measures, count - 1);
        let measure = measures[count - 1];
        let fresh = (
            prism_objective(measure),
            righted_cut(p, q, count - 1, measure.inverted@),
        );
        if order_fits(p, q, wanted, count - 1, measure) && replaces(fresh, held) {
            Some(fresh)
        } else {
            held
        }
    }
}

fn same_faces(a: &SortedSet<FaceKey>, b: &SortedSet<FaceKey>) -> (result: bool)
    requires
        a.wf(),
        b.wf(),
    ensures
        result == (a@ == b@),
{
    proof {
        assert(a.items@.to_set() =~= a@);
        assert(b.items@.to_set() =~= b@);
        if a@ == b@ {
            increasing_sequence_is_unique(a.items@, b.items@);
        }
    }
    if a.items.len() != b.items.len() {
        return false;
    }
    let mut i: usize = 0;
    while i < a.items.len()
        invariant
            i <= a.items.len(),
            a.items.len() == b.items.len(),
            a@ == b@ ==> a.items@ == b.items@,
            forall|k: int| 0 <= k < i ==> a.items@[k] == b.items@[k],
        decreases a.items.len() - i,
    {
        if !same_key(&a.items[i], &b.items[i]) {
            return false;
        }
        i = i + 1;
    }
    assert(a.items@ =~= b.items@);
    assert(a@ =~= b@);
    true
}

fn measured_objective(measure: &PrismMeasure) -> (result: Objective)
    ensures
        result == prism_objective(*measure),
{
    let mut list: Vec<Real> = Vec::new();
    list.push(measure.qualities[0]);
    list.push(measure.qualities[1]);
    list.push(measure.qualities[2]);
    assert(list@ =~= measure.qualities@);
    objective(&list, measure.bar)
}

/// The best way to fill a prism so that it shows the wanted faces, given what
/// was measured of each order.
pub fn best_prism_template(
    prism: &[[PointKey; 3]; 2],
    wanted: &SortedSet<FaceKey>,
    measures: &[PrismMeasure; 6],
) -> (result: Option<PrismFill>)
    requires
        wanted.wf(),
    ensures
        fill_view(result) == best_of_orders(prism[0]@, prism[1]@, wanted@, measures@, 6),
        result matches Some(fill) ==> fill.tets@.len() == 3,
{
    let mut best: Option<PrismFill> = None;
    let mut i: usize = 0;
    while i < 6
        invariant
            i <= 6,
            wanted.wf(),
            fill_view(best) == best_of_orders(prism[0]@, prism[1]@, wanted@, measures@, i as int),
            best matches Some(fill) ==> fill.tets@.len() == 3,
        decreases 6 - i,
    {
        let measure = measures[i];
        let tets = oriented_tets(prism, i, &measure.inverted);
        let shows = exposed_faces(&tets);
        proof {
            let list = quads(tets@);
            assert(face_keys(tets@) =~= Seq::new(
                4 * list.len(),
                |i: int| tet_face_key(list[i / 4], i % 4),
            ));
            assert(shows@ =~= shown(list));
        }
        if !measure.degenerate && same_faces(&shows, wanted) {
            let fresh = measured_objective(&measure);
            let replace = match &best {
                None => true,
                Some(held) => improves(&held.objective, &fresh) || (fresh.below
                    == held.objective.below && fresh.worst.equal(held.objective.worst)
                    && comes_before(&tets, &held.tets)),
            };
            if replace {
                best = Some(PrismFill { objective: fresh, tets });
            }
        }
        i = i + 1;
    }
    best
}

/// The faces of a triangulated surface.
pub open spec fn surface_keys(triangles: Seq<[PointKey; 3]>) -> Set<FaceKey> {
    Set::new(
        |key: FaceKey|
            exists|i: int| 0 <= i < triangles.len() && #[trigger] triangle_key(triangles[i]) == key,
    )
}

pub open spec fn triangle_key(triangle: [PointKey; 3]) -> FaceKey {
    face_key(triangle[0], triangle[1], triangle[2])
}

pub fn wanted_faces(triangles: &Vec<[PointKey; 3]>) -> (result: SortedSet<FaceKey>)
    ensures
        result.wf(),
        result@ == surface_keys(triangles@),
{
    let mut set: SortedSet<FaceKey> = SortedSet::new();
    let mut i: usize = 0;
    while i < triangles.len()
        invariant
            i <= triangles.len(),
            set.wf(),
            forall|key: FaceKey| #[trigger]
                set@.contains(key) <==> exists|k: int|
                    0 <= k < i && #[trigger] triangle_key(triangles@[k]) == key,
        decreases triangles.len() - i,
    {
        let triangle = triangles[i];
        let ghost before = set@;
        set.insert(sorted3(triangle[0], triangle[1], triangle[2]));
        proof {
            assert forall|key: FaceKey| #[trigger]
                set@.contains(key) <==> exists|k: int|
                    0 <= k < i + 1 && #[trigger] triangle_key(triangles@[k]) == key by {
                assert(before.contains(key) <==> exists|k: int|
                    0 <= k < i && #[trigger] triangle_key(triangles@[k]) == key);
                if before.contains(key) {
                    let k = choose|k: int|
                        0 <= k < i && #[trigger] triangle_key(triangles@[k]) == key;
                    assert(triangle_key(triangles@[k]) == key);
                }
                if exists|k: int| 0 <= k < i + 1 && #[trigger] triangle_key(triangles@[k]) == key {
                    let k = choose|k: int|
                        0 <= k < i + 1 && #[trigger] triangle_key(triangles@[k]) == key;
                    if k < i {
                        assert(before.contains(key));
                    }
                }
                assert(triangle_key(triangles@[i as int]) == face_key(
                    triangle[0],
                    triangle[1],
                    triangle[2],
                ));
            }
        }
        i = i + 1;
    }
    assert(set@ =~= surface_keys(triangles@));
    set
}

/// What was measured of the tetrahedron between a point and a triangle.
#[derive(Debug, Clone, Copy)]
pub struct FanMeasure {
    /// It has too little volume.
    pub flat: bool,
    pub quality: Option<Real>,
}

/// The tetrahedron is of use.
pub open spec fn usable(measure: FanMeasure) -> bool {
    !measure.flat && (measure.quality matches Some(quality) && (Real {
        bits: VALID_QUALITY_BITS,
    }).lt(quality))
}

pub open spec fn fan_qualities(measures: Seq<FanMeasure>) -> Seq<Real> {
    Seq::new(measures.len(), |i: int| measures[i].quality.unwrap())
}

/// Sums up the tetrahedra around a point; `None` where one is of no use.
pub fn fan_objective(measures: &Vec<FanMeasure>, bar: Real) -> (result: Option<Objective>)
    ensures
        result is Some <==> forall|i: int| 0 <= i < measures@.len() ==> usable(#[trigger] measures@[i]),
        result matches Some(sum) ==> sum.below == below_floor(
            fan_qualities(measures@),
            measures@.len() as int,
        ) && sum.worst == worst_of(fan_qualities(measures@), measures@.len() as int) && sum.bar
            == bar,
{
    let mut list: Vec<Real> = Vec::new();
    let mut i: usize = 0;
    while i < measures.len()
        invariant
            i <= measures.len(),
            list.len() == i,
            forall|k: int| 0 <= k < i ==> usable(#[trigger] measures@[k]),
            forall|k: int| 0 <= k < i ==> list@[k] == (#[trigger] measures@[k]).quality.unwrap(),
        decreases measures.len() - i,
    {
        let measure = measures[i];
        if measure.flat {
            return None;
        }
        match measure.quality {
            None => {
                return None;
            },
            Some(quality) => {
                if !(Real { bits: VALID_QUALITY_BITS }).less(quality) {
                    return None;
                }
                list.push(quality);
            },
        }
        i = i + 1;
    }
    assert(list@ =~= fan_qualities(measures@));
    Some(objective(&list, bar))
}

/// A place for the point in the middle, and how good the tetrahedra around it
/// are.
#[derive(Debug, Clone, Copy)]
pub struct ScoredCenter {
    pub objective: Objective,
    pub center: Vector3,
}

/// The first place at which two positions differ puts the first one before.
pub open spec fn position_before(a: Vector3, b: Vector3) -> bool {
    a[0].total_rank() < b[0].total_rank() || (a[0] == b[0] && (a[1].total_rank() < b[1].total_rank()
        || (a[1] == b[1] && a[2].total_rank() < b[2].total_rank())))
}

/// The first centre is worse: more tetrahedra lie below the floor, or as many
/// and the worst is worse; else its position decides.
pub open spec fn center_worse(a: ScoredCenter, b: ScoredCenter) -> bool {
    a.objective.below > b.objective.below || (a.objective.below == b.objective.below && (
    a.objective.worst.total_rank() < b.objective.worst.total_rank() || (a.objective.worst
        == b.objective.worst && position_before(a.center, b.center))))
}

fn is_before(a: &Vector3, b: &Vector3) -> (result: bool)
    ensures
        result == position_before(*a, *b),
{
    a[0].total_less(b[0]) || (a[0].bits == b[0].bits && (a[1].total_less(b[1]) || (a[1].bits
        == b[1].bits && a[2].total_less(b[2]))))
}

fn is_worse(a: &ScoredCenter, b: &ScoredCenter) -> (result: bool)
    ensures
        result == center_worse(*a, *b),
{
    a.objective.below > b.objective.below || (a.objective.below == b.objective.below && (
    a.objective.worst.total_less(b.objective.worst) || (a.objective.worst.bits
        == b.objective.worst.bits && is_before(&a.center, &b.center))))
}

/// Centres are totally ordered: of two that differ in their numbers or their
/// position one is worse, never both, and the order is transitive.
pub proof fn centers_are_ordered(a: ScoredCenter, b: ScoredCenter, c: ScoredCenter)
    ensures
        !(center_worse(a, b) && center_worse(b, a)),
        center_worse(a, b) && center_worse(b, c) ==> center_worse(a, c),
        center_worse(a, b) || center_worse(b, a) || (a.objective.below == b.objective.below
            && a.objective.worst == b.objective.worst && a.center@ == b.center@),
{
    total_rank_injective(a.objective.worst, b.objective.worst);
    total_rank_injective(a.center[0], b.center[0]);
    total_rank_injective(a.center[1], b.center[1]);
    total_rank_injective(a.center[2], b.center[2]);
    if !center_worse(a, b) && !center_worse(b, a) {
        assert(a.center@ =~= b.center@);
    }
}

proof fn worse_or_same(a: ScoredCenter, b: ScoredCenter, c: ScoredCenter)
    requires
        !center_worse(b, a),
        center_worse(b, c),
    ensures
        center_worse(a, c),
{
    total_rank_injective(a.objective.worst, b.objective.worst);
    total_rank_injective(a.center[0], b.center[0]);
    total_rank_injective(a.center[1], b.center[1]);
    total_rank_injective(a.center[2], b.center[2]);
}

/// The place of the best centre, the last of equals.
pub open spec fn is_best(centers: Seq<ScoredCenter>, place: int) -> bool {
    0 <= place < centers.len() && (forall|i: int|
        0 <= i < centers.len() ==> !center_worse(centers[place], #[trigger] centers[i])) && (
    forall|i: int|
        place < i < centers.len() ==> center_worse(#[trigger] centers[i], centers[place]))
}

/// The best centre of a list; `None` where it is empty.
pub fn best_center(centers: &Vec<ScoredCenter>) -> (result: Option<ScoredCenter>)
    ensures
        match result {
            Some(best) => exists|place: int| #[trigger]
                is_best(centers@, place) && centers@[place] == best,
            None => centers@.len() == 0,
        },
{
    if centers.len() == 0 {
        return None;
    }
    let mut place: usize = 0;
    let mut i: usize = 1;
    assert(centers@.take(1)[0] == centers@[0]);
    while i < centers.len()
        invariant
            place < i <= centers.len(),
            forall|k: int| 0 <= k < i ==> !center_worse(centers@[place as int], #[trigger] centers@[k]),
            forall|k: int|
                place < k < i ==> center_worse(#[trigger] centers@[k], centers@[place as int]),
        decreases centers.len() - i,
    {
        if !is_worse(&centers[i], &centers[place]) {
            proof {
                let fresh = centers@[i as int];
                let held = centers@[place as int];
                assert forall|k: int| 0 <= k < i + 1 implies !center_worse(
                    fresh,
                    #[trigger] centers@[k],
                ) by {
                    if k < i && center_worse(fresh, centers@[k]) {
                        worse_or_same(held, fresh, centers@[k]);
                    }
                }
            }
            place = i;
        }
        i = i + 1;
    }
    assert(is_best(centers@, place as int));
    Some(centers[place])
}

/// One step of the search for the point in the middle: the best trial is
/// taken where it improves.
pub fn advance_center(held: ScoredCenter, trials: &Vec<ScoredCenter>) -> (result: ScoredCenter)
    ensures
        trials@.len() == 0 ==> result == held,
        trials@.len() > 0 ==> exists|place: int| #[trigger]
            is_best(trials@, place) && result == (if better(
                held.objective,
                trials@[place].objective,
            ) {
                trials@[place]
            } else {
                held
            }),
{
    match best_center(trials) {
        None => held,
        Some(trial) => {
            if improves(&held.objective, &trial.objective) {
                trial
            } else {
                held
            }
        },
    }
}

/// The prism is taken unless the fan is better.
pub fn prism_preferred(prism: Option<&Objective>, fan: Option<&Objective>) -> (result: bool)
    ensures
        result == match (prism, fan) {
            (Some(direct), Some(around)) => !better(*direct, *around),
            (Some(_), None) => true,
            (None, _) => false,
        },
{
    match prism {
        None => false,
        Some(direct) => match fan {
            None => true,
            Some(around) => !improves(direct, around),
        },
    }
}

/// A tetrahedron of a leaf that was cut.
pub open spec fn cut_cell(points: [PointKey; 4], leaf: Leaf) -> Cell {
    Cell { points, leaf, certified_interior: false }
}

/// Adds the tetrahedra of a filled prism.
pub fn place_prism(candidate: &mut Candidate, tets: &Vec<[PointKey; 4]>, leaf: Leaf)
    requires
        old(candidate).wf(),
        forall|i: int|
            0 <= i < tets@.len() ==> tet_known((#[trigger] tets@[i])@, old(candidate).points@),
    ensures
        final(candidate).wf(),
        final(candidate).points == old(candidate).points,
        final(candidate).construction_failures == old(candidate).construction_failures,
        final(candidate).next_steiner == old(candidate).next_steiner,
        final(candidate).cells@ == old(candidate).cells@ + tets@.map_values(
            |tet: [PointKey; 4]| cut_cell(tet, leaf),
        ),
{
    let ghost start = candidate.cells@;
    let ghost added = tets@.map_values(|tet: [PointKey; 4]| cut_cell(tet, leaf));
    let ghost points = candidate.points;
    let mut i: usize = 0;
    assert(candidate.cells@ =~= start + added.take(0));
    while i < tets.len()
        invariant
            i <= tets.len(),
            candidate.wf(),
            points == old(candidate).points,
            candidate.points == points,
            candidate.construction_failures == old(candidate).construction_failures,
            candidate.next_steiner == old(candidate).next_steiner,
            added == tets@.map_values(|tet: [PointKey; 4]| cut_cell(tet, leaf)),
            candidate.cells@ == start + added.take(i as int),
            forall|k: int| 0 <= k < tets@.len() ==> tet_known((#[trigger] tets@[k])@, points@),
        decreases tets.len() - i,
    {
        candidate.push_cell(tets[i], leaf, false);
        assert(candidate.cells@ =~= start + added.take(i as int + 1));
        i = i + 1;
    }
    assert(added.take(i as int) =~= added);
}

/// The tetrahedron from the point in the middle to a triangle.
pub open spec fn fan_tet(center: PointKey, triangle: [PointKey; 3], inverted: bool) -> Seq<PointKey> {
    righted(seq![center, triangle[0], triangle[1], triangle[2]], inverted)
}

/// Adds a point in the middle and the tetrahedra from it to each triangle.
pub fn place_fan(
    candidate: &mut Candidate,
    center: Vector3,
    triangles: &Vec<[PointKey; 3]>,
    inverted: &Vec<bool>,
    leaf: Leaf,
)
    requires
        old(candidate).wf(),
        old(candidate).fresh(),
        inverted@.len() == triangles@.len(),
        forall|i: int|
            0 <= i < triangles@.len() ==> tet_known(
                (#[trigger] triangles@[i])@,
                old(candidate).points@,
            ),
    ensures
        final(candidate).wf(),
        final(candidate).next_steiner == old(candidate).next_steiner + 1,
        final(candidate).points@ == old(candidate).points@.insert(
            PointKey::Steiner(old(candidate).next_steiner),
            (Point { world: center, boundary: false }),
        ),
        final(candidate).construction_failures == old(candidate).construction_failures,
        final(candidate).cells@.len() == old(candidate).cells@.len() + triangles@.len(),
        final(candidate).cells@.take(old(candidate).cells@.len() as int) == old(candidate).cells@,
        forall|i: int|
            0 <= i < triangles@.len() ==> {
                let cell = #[trigger] final(candidate).cells@[old(candidate).cells@.len() + i];
                cell.leaf == leaf && !cell.certified_interior && cell.points@ == fan_tet(
                    PointKey::Steiner(old(candidate).next_steiner),
                    triangles@[i],
                    inverted@[i],
                )
            },
{
    let key = PointKey::Steiner(candidate.next_steiner);
    candidate.next_steiner = candidate.next_steiner + 1;
    let ghost held = candidate.points@;
    candidate.points.insert(key, Point { world: center, boundary: false });
    let ghost points = candidate.points@;
    let ghost start = candidate.cells@;
    proof {
        assert forall|c: int| 0 <= c < start.len() implies tet_known(
            (#[trigger] start[c]).points@,
            points,
        ) by {
            assert(tet_known(start[c].points@, held));
        }
        assert forall|i: int| 0 <= i < triangles@.len() implies tet_known(
            (#[trigger] triangles@[i])@,
            points,
        ) by {
            assert(tet_known(triangles@[i]@, held));
        }
    }
    let mut i: usize = 0;
    while i < triangles.len()
        invariant
            i <= triangles.len(),
            inverted@.len() == triangles@.len(),
            candidate.wf(),
            key == PointKey::Steiner(old(candidate).next_steiner),
            candidate.points@ == points,
            points.dom().contains(key),
            candidate.construction_failures == old(candidate).construction_failures,
            candidate.next_steiner == old(candidate).next_steiner + 1,
            start == old(candidate).cells@,
            forall|k: int|
                0 <= k < triangles@.len() ==> tet_known((#[trigger] triangles@[k])@, points),
            candidate.cells@.len() == start.len() + i,
            candidate.cells@.take(start.len() as int) == start,
            forall|k: int|
                0 <= k < i ==> {
                    let cell = #[trigger] candidate.cells@[start.len() + k];
                    cell.leaf == leaf && !cell.certified_interior && cell.points@ == fan_tet(
                        key,
                        triangles@[k],
                        inverted@[k],
                    )
                },
        decreases triangles.len() - i,
    {
        let triangle = triangles[i];
        let raw = [key, triangle[0], triangle[1], triangle[2]];
        assert(raw@ =~= seq![key, triangle[0], triangle[1], triangle[2]]);
        let tet = orient_tet(raw, inverted[i]);
        proof {
            assert(tet_known(triangle@, points));
            assert(points.dom().contains(triangle@[0]));
            assert(points.dom().contains(triangle@[1]));
            assert(points.dom().contains(triangle@[2]));
            assert(tet_known(tet@, points));
        }
        let ghost before = candidate.cells@;
        candidate.push_cell(tet, leaf, false);
        proof {
            assert(candidate.cells@.take(start.len() as int) =~= before.take(start.len() as int));
            assert forall|k: int| 0 <= k < i + 1 implies ({
                let cell = #[trigger] candidate.cells@[start.len() + k];
                cell.leaf == leaf && !cell.certified_interior && cell.points@ == fan_tet(
                    key,
                    triangles@[k],
                    inverted@[k],
                )
            }) by {
                if k < i {
                    assert(candidate.cells@[start.len() + k] == before[start.len() + k]);
                }
            }
        }
        i = i + 1;
    }
    assert(candidate.points@ == points);
}

/// Notes a leaf that could not be filled.
pub fn refuse_leaf(candidate: &mut Candidate, leaf: Leaf)
    requires
        old(candidate).wf(),
    ensures
        final(candidate).wf(),
        final(candidate).points == old(candidate).points,
        final(candidate).cells == old(candidate).cells,
        final(candidate).next_steiner == old(candidate).next_steiner,
        final(candidate).construction_failures@ == old(candidate).construction_failures@.insert(
            leaf,
        ),
{
    candidate.construction_failures.insert(leaf);
}

/// Adds the one tetrahedron that remains, unless it is flat.
pub fn place_tet(
    candidate: &mut Candidate,
    tet: [PointKey; 4],
    inverted: bool,
    flat: bool,
    leaf: Leaf,
)
    requires
        old(candidate).wf(),
        tet_known(tet@, old(candidate).points@),
    ensures
        final(candidate).wf(),
        final(candidate).points == old(candidate).points,
        final(candidate).construction_failures == old(candidate).construction_failures,
        final(candidate).next_steiner == old(candidate).next_steiner,
        flat ==> final(candidate).cells == old(candidate).cells,
        !flat ==> final(candidate).cells@.len() == old(candidate).cells@.len() + 1
            && final(candidate).cells@.drop_last() == old(candidate).cells@
            && final(candidate).cells@.last().points@ == righted(tet@, inverted)
            && final(candidate).cells@.last().leaf == leaf
            && !final(candidate).cells@.last().certified_interior,
{
    if !flat {
        let turned = orient_tet(tet, inverted);
        assert(tet_known(turned@, candidate.points@)) by {
            assert(candidate.points@.dom().contains(tet@[2]));
            assert(candidate.points@.dom().contains(tet@[3]));
        }
        candidate.push_cell(turned, leaf, false);
        assert(candidate.cells@.drop_last() =~= old(candidate).cells@);
    }
}

/// How a tetrahedron lies.
pub enum ClipStart {
    /// Outside the domain.
    Outside,
    /// Inside the domain as a whole.
    Whole([PointKey; 4]),
    /// Across the boundary, which crosses these edges.
    Cut(u8, Vec<(usize, usize)>),
}

pub open spec fn sample_points(samples: Seq<Sample>) -> Seq<PointKey> {
    Seq::new(4, |i: int| PointKey::Lattice(samples[i].key))
}

pub open spec fn none_inside(samples: Seq<Sample>) -> bool {
    !samples[0].inside() && !samples[1].inside() && !samples[2].inside() && !samples[3].inside()
}

pub open spec fn all_inside(samples: Seq<Sample>) -> bool {
    samples[0].inside() && samples[1].inside() && samples[2].inside() && samples[3].inside()
}

/// Starts to clip a tetrahedron: notes the samples inside the domain and
/// tells which edges the boundary crosses.
pub fn begin_clip(candidate: &mut Candidate, samples: &[Sample; 4]) -> (result: ClipStart)
    requires
        old(candidate).wf(),
    ensures
        final(candidate).wf(),
        final(candidate).cells == old(candidate).cells,
        final(candidate).construction_failures == old(candidate).construction_failures,
        final(candidate).next_steiner == old(candidate).next_steiner,
        final(candidate).points@ == with_sample(
            with_sample(
                with_sample(with_sample(old(candidate).points@, samples[0]), samples[1]),
                samples[2],
            ),
            samples[3],
        ),
        match result {
            ClipStart::Outside => none_inside(samples@),
            ClipStart::Whole(tet) => all_inside(samples@) && tet@ == sample_points(samples@)
                && tet_known(tet@, final(candidate).points@),
            ClipStart::Cut(mask, edges) => !none_inside(samples@) && !all_inside(samples@) && mask
                < 16 && masks(mask as int, samples@) && edges@ == crossing_edges(mask as int),
        },
{
    let mask: u8 = inside_mask(samples);
    let ghost held = candidate.points@;
    proof {
        assert(marked(mask as int, 0) == samples[0].inside());
        assert(marked(mask as int, 1) == samples[1].inside());
        assert(marked(mask as int, 2) == samples[2].inside());
        assert(marked(mask as int, 3) == samples[3].inside());
        assert(mask == mask % 2 + 2 * ((mask / 2) % 2) + 4 * ((mask / 4) % 2) + 8 * ((mask / 8)
            % 2));
        assert forall|i: int| 0 <= i < 4 implies marked(mask as int, i) == (
        #[trigger] samples@[i]).inside() by {
            assert(samples@[i] == samples[i]);
        }
    }
    note_samples(&mut candidate.points, samples);
    proof {
        assert forall|c: int| 0 <= c < candidate.cells@.len() implies tet_known(
            (#[trigger] candidate.cells@[c]).points@,
            candidate.points@,
        ) by {
            assert(tet_known(candidate.cells@[c].points@, held));
        }
    }
    if mask == 0 {
        return ClipStart::Outside;
    }
    if mask == 15 {
        let tet = [
            PointKey::Lattice(samples[0].key),
            PointKey::Lattice(samples[1].key),
            PointKey::Lattice(samples[2].key),
            PointKey::Lattice(samples[3].key),
        ];
        assert(tet@ =~= sample_points(samples@));
        return ClipStart::Whole(tet);
    }
    ClipStart::Cut(mask, marching_edges(mask))
}

/// Adds a tetrahedron that lies inside the domain as a whole.
pub fn place_whole(
    candidate: &mut Candidate,
    tet: [PointKey; 4],
    inverted: bool,
    leaf: Leaf,
    certified_interior: bool,
)
    requires
        old(candidate).wf(),
        tet_known(tet@, old(candidate).points@),
    ensures
        final(candidate).wf(),
        final(candidate).points == old(candidate).points,
        final(candidate).construction_failures == old(candidate).construction_failures,
        final(candidate).next_steiner == old(candidate).next_steiner,
        final(candidate).cells@.len() == old(candidate).cells@.len() + 1,
        final(candidate).cells@.drop_last() == old(candidate).cells@,
        final(candidate).cells@.last().points@ == righted(tet@, inverted),
        final(candidate).cells@.last().leaf == leaf,
        final(candidate).cells@.last().certified_interior == certified_interior,
{
    let turned = orient_tet(tet, inverted);
    assert(tet_known(turned@, candidate.points@)) by {
        assert(candidate.points@.dom().contains(tet@[2]));
        assert(candidate.points@.dom().contains(tet@[3]));
    }
    candidate.push_cell(turned, leaf, certified_interior);
    assert(candidate.cells@.drop_last() =~= old(candidate).cells@);
}

/// The tetrahedron of a fan has the point in the middle and the three corners of its triangle,
/// each once where they differ, whichever way round it is put.
pub proof fn fan_tet_has_its_points(center: PointKey, triangle: [PointKey; 3], inverted: bool, key: PointKey)
    ensures
        fan_tet(center, triangle, inverted).len() == 4,
        fan_tet(center, triangle, inverted).contains(key) <==> key == center || key == triangle@[0]
            || key == triangle@[1] || key == triangle@[2],
        fan_tet(center, triangle, inverted)[0] == center,
{
    let tet = fan_tet(center, triangle, inverted);
    if tet.contains(key) {
        let m = tet.index_of(key);
        assert(tet[m] == key);
        assert(m == 0 || m == 1 || m == 2 || m == 3);
    }
    assert(tet.contains(tet[0]) && tet.contains(tet[1]) && tet.contains(tet[2]) && tet.contains(tet[3]));
}

/// Of the centres of a fan only one is the best, and none is better: it leaves no more poor
/// tetrahedra than any other, and of as many a worst one that is no worse.
pub proof fn best_center_is_best(centers: Seq<ScoredCenter>, place: int, other: int)
    requires
        is_best(centers, place),
        0 <= other < centers.len(),
    ensures
        is_best(centers, other) ==> other == place,
        centers[place].objective.below <= centers[other].objective.below,
        centers[place].objective.below == centers[other].objective.below
            ==> centers[place].objective.worst.total_rank()
            >= centers[other].objective.worst.total_rank(),
{
    assert(!center_worse(centers[place], centers[other]));
    if is_best(centers, other) {
        assert(!center_worse(centers[other], centers[place]));
    }
}

} // verus!
