//! Walks round a triangle: what a cut along the boundary keeps of its outline.

use vstd::prelude::*;

verus! {

/// What stands at a place of a triangle's outline. The places are counted on from
/// the first corner: the crossing behind it is place 1, the second corner place 2,
/// and so on, until place 6 is the first corner again.
pub open spec fn outline_at<K>(corners: Seq<K>, crossings: Seq<K>, place: int) -> K {
    if place % 2 == 0 {
        corners[(place / 2) % 3]
    } else {
        crossings[place / 2]
    }
}

/// A corner is kept where it is inside, a crossing where the ends of its edge
/// differ.
pub open spec fn outline_kept(inside: Seq<bool>, place: int) -> bool {
    if place % 2 == 0 {
        inside[(place / 2) % 3]
    } else {
        inside[place / 2] != inside[(place / 2 + 1) % 3]
    }
}

/// The places are those that are kept, each once, in the order of the outline, and
/// the list holds what stands there.
pub open spec fn walks_by<K>(
    places: Seq<int>,
    corners: Seq<K>,
    crossings: Seq<K>,
    inside: Seq<bool>,
    list: Seq<K>,
) -> bool {
    &&& places.len() == list.len()
    &&& forall|i: int| 0 <= i < places.len() ==> 1 <= #[trigger] places[i] <= 6
    &&& forall|i: int, j: int|
        0 <= i < j < places.len() ==> (#[trigger] places[i]) < (#[trigger] places[j])
    &&& forall|place: int|
        1 <= place <= 6 ==> (#[trigger] places.contains(place) <==> outline_kept(inside, place))
    &&& forall|i: int|
        0 <= i < list.len() ==> #[trigger] list[i] == outline_at(corners, crossings, places[i])
}

/// The list is the part of a triangle that is inside, walked round its outline: the
/// corners that are inside and the crossings of the edges whose ends differ, each
/// once and in order.
pub open spec fn walks_outline<K>(
    corners: Seq<K>,
    crossings: Seq<K>,
    inside: Seq<bool>,
    list: Seq<K>,
) -> bool {
    exists|places: Seq<int>| #[trigger] walks_by(places, corners, crossings, inside, list)
}

/// How many of three corners are inside.
pub open spec fn count_inside(inside: Seq<bool>) -> int {
    (if inside[0] {
        1int
    } else {
        0
    }) + (if inside[1] {
        1int
    } else {
        0
    }) + (if inside[2] {
        1int
    } else {
        0
    })
}

/// The places up to one that are kept, in order.
spec fn kept_from(inside: Seq<bool>, upto: int) -> Seq<int>
    decreases upto,
{
    if upto <= 0 {
        Seq::empty()
    } else if outline_kept(inside, upto) {
        kept_from(inside, upto - 1).push(upto)
    } else {
        kept_from(inside, upto - 1)
    }
}

proof fn places_are_kept(inside: Seq<bool>, upto: int)
    requires
        0 <= upto,
    ensures
        forall|i: int|
            0 <= i < kept_from(inside, upto).len() ==> 1 <= #[trigger] kept_from(inside, upto)[i]
                <= upto,
        forall|i: int, j: int|
            0 <= i < j < kept_from(inside, upto).len() ==> (#[trigger] kept_from(inside, upto)[i])
                < (#[trigger] kept_from(inside, upto)[j]),
        forall|place: int|
            1 <= place <= upto ==> (#[trigger] kept_from(inside, upto).contains(place)
                <==> outline_kept(inside, place)),
    decreases upto,
{
    if upto > 0 {
        places_are_kept(inside, upto - 1);
        let before = kept_from(inside, upto - 1);
        let all = kept_from(inside, upto);
        assert forall|place: int| 1 <= place <= upto implies (#[trigger] all.contains(place)
            <==> outline_kept(inside, place)) by {
            if before.contains(place) {
                let k = before.index_of(place);
                assert(all[k] == place);
            }
            if all.contains(place) {
                let k = all.index_of(place);
                if k < before.len() {
                    assert(before[k] == place);
                }
            }
            if place == upto && outline_kept(inside, upto) {
                assert(all[all.len() - 1] == place);
            }
        }
    }
}

/// What stands at some places.
spec fn stand_at<K>(corners: Seq<K>, crossings: Seq<K>, places: Seq<int>) -> Seq<K> {
    places.map_values(|place: int| outline_at(corners, crossings, place))
}

/// What is kept of one edge stands at its two places.
proof fn edge_stands<K>(
    corners: Seq<K>,
    crossings: Seq<K>,
    inside: Seq<bool>,
    edge: int,
    list: Seq<K>,
)
    requires
        0 <= edge < 3,
        corners.len() == 3,
        crossings.len() == 3,
        inside.len() == 3,
        edge_kept(corners, crossings, inside, edge, list),
    ensures
        stand_at(corners, crossings, kept_from(inside, 2 * edge + 2)) == stand_at(
            corners,
            crossings,
            kept_from(inside, 2 * edge),
        ) + list,
{
    let before = kept_from(inside, 2 * edge);
    let middle = kept_from(inside, 2 * edge + 1);
    let after = kept_from(inside, 2 * edge + 2);
    let start = stand_at(corners, crossings, before);
    assert((2 * edge + 1) % 2 == 1 && (2 * edge + 1) / 2 == edge);
    assert((2 * edge + 2) % 2 == 0 && (2 * edge + 2) / 2 == edge + 1);
    let crossed = outline_kept(inside, 2 * edge + 1);
    let reached = outline_kept(inside, 2 * edge + 2);
    if crossed && reached {
        assert(list =~= seq![crossings[edge], corners[(edge + 1) % 3]]);
    } else if crossed {
        assert(list =~= seq![crossings[edge]]);
    } else if reached {
        assert(list =~= seq![corners[(edge + 1) % 3]]);
    }
    assert(stand_at(corners, crossings, after) =~= start + list);
}

/// A list put together edge by edge, of each edge its crossing and the corner
/// behind it where they are kept, walks round the outline.
pub(crate) proof fn edges_walk_outline<K>(
    corners: Seq<K>,
    crossings: Seq<K>,
    inside: Seq<bool>,
    first: Seq<K>,
    second: Seq<K>,
    third: Seq<K>,
)
    requires
        corners.len() == 3,
        crossings.len() == 3,
        inside.len() == 3,
        edge_kept(corners, crossings, inside, 0, first),
        edge_kept(corners, crossings, inside, 1, second),
        edge_kept(corners, crossings, inside, 2, third),
    ensures
        walks_outline(corners, crossings, inside, first + second + third),
{
    let list = first + second + third;
    let places = kept_from(inside, 6);
    places_are_kept(inside, 6);
    edge_stands(corners, crossings, inside, 0, first);
    edge_stands(corners, crossings, inside, 1, second);
    edge_stands(corners, crossings, inside, 2, third);
    assert(stand_at(corners, crossings, kept_from(inside, 0)) =~= Seq::<K>::empty());
    assert(stand_at(corners, crossings, places) =~= list);
    assert forall|i: int| 0 <= i < list.len() implies #[trigger] list[i] == outline_at(
        corners,
        crossings,
        places[i],
    ) by {
        assert(stand_at(corners, crossings, places)[i] == list[i]);
    }
    assert(walks_by(places, corners, crossings, inside, list));
}

/// The list is what is kept of one edge.
pub open spec fn edge_kept<K>(
    corners: Seq<K>,
    crossings: Seq<K>,
    inside: Seq<bool>,
    edge: int,
    list: Seq<K>,
) -> bool {
    let crossed = inside[edge] != inside[(edge + 1) % 3];
    let reached = inside[(edge + 1) % 3];
    if crossed && reached {
        list == seq![crossings[edge], corners[(edge + 1) % 3]]
    } else if crossed {
        list == seq![crossings[edge]]
    } else if reached {
        list == seq![corners[(edge + 1) % 3]]
    } else {
        list.len() == 0
    }
}

/// The part of a triangle that is inside has a point for every corner inside and,
/// unless all or none are, two crossings.
pub proof fn outline_size<K>(
    corners: Seq<K>,
    crossings: Seq<K>,
    inside: Seq<bool>,
    list: Seq<K>,
)
    requires
        walks_outline(corners, crossings, inside, list),
    ensures
        list.len() == count_inside(inside) + (if 0 < count_inside(inside) < 3 {
            2int
        } else {
            0int
        }),
{
    let places = choose|places: Seq<int>| #[trigger]
        walks_by(places, corners, crossings, inside, list);
    let all = Set::new(|place: int| 1 <= place <= 6 && outline_kept(inside, place));
    assert(places.no_duplicates());
    assert(places.to_set() =~= all) by {
        assert forall|place: int| places.to_set().contains(place) == all.contains(place) by {
            if places.contains(place) {
                let k = places.index_of(place);
                assert(places[k] == place);
            }
        }
    }
    places.unique_seq_to_set();
    let n0 = Set::<int>::empty();
    let n1 = if outline_kept(inside, 1) {
        n0.insert(1)
    } else {
        n0
    };
    let n2 = if outline_kept(inside, 2) {
        n1.insert(2)
    } else {
        n1
    };
    let n3 = if outline_kept(inside, 3) {
        n2.insert(3)
    } else {
        n2
    };
    let n4 = if outline_kept(inside, 4) {
        n3.insert(4)
    } else {
        n3
    };
    let n5 = if outline_kept(inside, 5) {
        n4.insert(5)
    } else {
        n4
    };
    let n6 = if outline_kept(inside, 6) {
        n5.insert(6)
    } else {
        n5
    };
    assert(n6 =~= all);
}

} // verus!
