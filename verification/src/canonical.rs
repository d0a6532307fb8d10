//! Merging boundary points that lie together.

use vstd::prelude::*;

use crate::edits::all_distinct;
use crate::error::{MeshError, MeshResult};
#[allow(unused_imports)]
use crate::error::fails_input;
use crate::sorted::{same_key, Key, SortedMap};
use crate::text::{around, join, quoted};
#[allow(unused_imports)]
use crate::text::debug_text;
use crate::topology::{Candidate, Cell, Point, PointKey};
#[allow(unused_imports)]
use crate::topology::{cell_known, cell_views, CellView};

verus! {

impl Key for i64 {
    open spec fn before(self, other: Self) -> bool {
        self < other
    }

    proof fn irreflexive(a: Self) {
    }

    proof fn transitive(a: Self, b: Self, c: Self) {
    }

    proof fn total(a: Self, b: Self) {
    }

    fn precedes(&self, other: &Self) -> (result: bool) {
        *self < *other
    }
}

/// A box of space as wide as the distance at which points are merged.
pub type Bucket = (i64, (i64, i64));

/// The number is one that a box can have.
pub open spec fn is_coordinate(value: int) -> bool {
    i64::MIN <= value <= i64::MAX
}

/// The box at a place among the 27 around a box, the last coordinate fastest.
/// At the end of the numbers there is none behind the last one.
pub open spec fn bucket_near(bucket: Bucket, place: int) -> Option<Bucket> {
    let x = bucket.0 + place / 9 - 1;
    let y = bucket.1.0 + (place / 3) % 3 - 1;
    let z = bucket.1.1 + place % 3 - 1;
    if is_coordinate(x) && is_coordinate(y) && is_coordinate(z) {
        Some((x as i64, (y as i64, z as i64)))
    } else {
        None
    }
}

/// The points kept so far, by their boxes, and the points that are merged into
/// others.
#[derive(Debug)]
pub struct Merging {
    pub buckets: SortedMap<Bucket, Vec<PointKey>>,
    pub aliases: SortedMap<PointKey, PointKey>,
}

/// What a box holds, where there is one.
pub open spec fn bucket_list(
    buckets: Map<Bucket, Vec<PointKey>>,
    bucket: Option<Bucket>,
) -> Seq<PointKey> {
    match bucket {
        Some(place) => if buckets.dom().contains(place) {
            buckets[place]@
        } else {
            Seq::empty()
        },
        None => Seq::empty(),
    }
}

/// The points in the first of the boxes around a box, in order.
pub open spec fn points_near(
    buckets: Map<Bucket, Vec<PointKey>>,
    bucket: Bucket,
    count: int,
) -> Seq<PointKey>
    decreases count,
{
    if count <= 0 {
        Seq::empty()
    } else {
        points_near(buckets, bucket, count - 1) + bucket_list(
            buckets,
            bucket_near(bucket, count - 1),
        )
    }
}

impl Merging {
    pub open spec fn wf(self) -> bool {
        self.buckets.wf() && self.aliases.wf()
    }

    pub fn new() -> (result: Merging)
        ensures
            result.wf(),
            result.buckets@ == Map::<Bucket, Vec<PointKey>>::empty(),
            result.aliases@ == Map::<PointKey, PointKey>::empty(),
    {
        Merging { buckets: SortedMap::new(), aliases: SortedMap::new() }
    }

    /// The kept points that may lie close to a point in this box, in the order
    /// in which they are tried.
    pub fn near(&self, bucket: Bucket) -> (result: Vec<PointKey>)
        requires
            self.wf(),
        ensures
            result@ == points_near(self.buckets@, bucket, 27),
    {
        let mut list: Vec<PointKey> = Vec::new();
        let mut place: i64 = 0;
        while place < 27
            invariant
                0 <= place <= 27,
                self.wf(),
                list@ == points_near(self.buckets@, bucket, place as int),
            decreases 27 - place,
        {
            let ghost before = list@;
            let x = bucket.0.checked_add(place / 9 - 1);
            let y = bucket.1.0.checked_add((place / 3) % 3 - 1);
            let z = bucket.1.1.checked_add(place % 3 - 1);
            if let (Some(x), Some(y), Some(z)) = (x, y, z) {
                let key = (x, (y, z));
                assert(bucket_near(bucket, place as int) == Some(key));
                if let Some(found) = self.buckets.get(&key) {
                    let mut i: usize = 0;
                    while i < found.len()
                        invariant
                            i <= found@.len(),
                            list@ == before + found@.take(i as int),
                        decreases found@.len() - i,
                    {
                        list.push(found[i]);
                        assert(list@ =~= before + found@.take(i + 1));
                        i = i + 1;
                    }
                    assert(found@.take(i as int) =~= found@);
                } else {
                    assert(list@ =~= before + Seq::<PointKey>::empty());
                }
            } else {
                assert(bucket_near(bucket, place as int) is None);
                assert(list@ =~= before + Seq::<PointKey>::empty());
            }
            place = place + 1;
        }
        list
    }

    /// Notes a point: merged into the kept point that was found close to it, or
    /// else kept in its box.
    pub fn settle(&mut self, key: PointKey, bucket: Bucket, found: Option<PointKey>)
        requires
            old(self).wf(),
        ensures
            final(self).wf(),
            match found {
                Some(other) => final(self).buckets == old(self).buckets && final(self).aliases@
                    == (if other == key {
                    old(self).aliases@
                } else {
                    old(self).aliases@.insert(key, other)
                }),
                None => final(self).aliases == old(self).aliases && (forall|b: Bucket|
                    #[trigger] bucket_list(final(self).buckets@, Some(b)) == (if b == bucket {
                        bucket_list(old(self).buckets@, Some(b)).push(key)
                    } else {
                        bucket_list(old(self).buckets@, Some(b))
                    })),
            },
    {
        match found {
            Some(other) => {
                if !same_key(&other, &key) {
                    self.aliases.insert(key, other);
                }
            },
            None => {
                let mut list: Vec<PointKey> = match self.buckets.get(&bucket) {
                    Some(held) => {
                        let copy = held.clone();
                        assert(copy@ =~= held@);
                        copy
                    },
                    None => Vec::new(),
                };
                list.push(key);
                self.buckets.insert(bucket, list);
            },
        }
    }
}

/// What a point is called once points are merged.
pub open spec fn merged_name(aliases: Map<PointKey, PointKey>, key: PointKey) -> PointKey {
    if aliases.dom().contains(key) {
        aliases[key]
    } else {
        key
    }
}

/// A cell, once points are merged.
pub open spec fn merged_cell(aliases: Map<PointKey, PointKey>, cell: CellView) -> CellView {
    CellView {
        points: cell.points.map_values(|key: PointKey| merged_name(aliases, key)),
        ..cell
    }
}

/// The cell has a point twice.
pub open spec fn collapsed(cell: CellView) -> bool {
    !cell.points.no_duplicates()
}

/// Some cell collapses once points are merged.
pub open spec fn some_collapse(aliases: Map<PointKey, PointKey>, cells: Seq<CellView>) -> bool {
    exists|i: int| 0 <= i < cells.len() && collapsed(merged_cell(aliases, #[trigger] cells[i]))
}

/// Points are merged into known points that are not merged themselves.
pub open spec fn sound_aliases(aliases: Map<PointKey, PointKey>, points: Map<PointKey, Point>) -> bool {
    forall|key: PointKey| #[trigger]
        aliases.dom().contains(key) ==> points.dom().contains(aliases[key])
            && !aliases.dom().contains(aliases[key])
}

fn merge_cell(aliases: &SortedMap<PointKey, PointKey>, cell: &Cell) -> (result: Cell)
    requires
        aliases.wf(),
    ensures
        result@ == merged_cell(aliases@, cell@),
{
    let mut points: Vec<PointKey> = Vec::new();
    let mut i: usize = 0;
    while i < cell.points.len()
        invariant
            i <= cell.points@.len(),
            aliases.wf(),
            points@ == merged_cell(aliases@, cell@).points.take(i as int),
        decreases cell.points@.len() - i,
    {
        let key = cell.points[i];
        let name = match aliases.get(&key) {
            Some(other) => *other,
            None => key,
        };
        points.push(name);
        assert(points@ =~= merged_cell(aliases@, cell@).points.take(i + 1));
        i = i + 1;
    }
    assert(points@ =~= merged_cell(aliases@, cell@).points);
    Cell { points, leaf: cell.leaf, protected: cell.protected }
}

/// A point that must stay is merged into this one.
pub open spec fn takes_protected(
    aliases: Map<PointKey, PointKey>,
    points: Map<PointKey, Point>,
    key: PointKey,
) -> bool {
    exists|other: PointKey| #[trigger]
        aliases.dom().contains(other) && aliases[other] == key && points.dom().contains(other)
            && points[other].protected
}

/// The points, once points are merged: one that another point that must stay is
/// merged into must stay too.
pub open spec fn merged_points(
    aliases: Map<PointKey, PointKey>,
    points: Map<PointKey, Point>,
) -> Map<PointKey, Point> {
    Map::new(
        |key: PointKey| points.dom().contains(key) && !aliases.dom().contains(key),
        |key: PointKey|
            if takes_protected(aliases, points, key) {
                Point { protected: true, ..points[key] }
            } else {
                points[key]
            },
    )
}

pub open spec fn graph_message(domain: Seq<char>, reason: Seq<char>) -> Seq<char> {
    "domain "@ + debug_text(domain) + " planar constraint graph "@ + reason
}

/// The error of a constraint graph that cannot be used.
pub fn graph_error(domain: &str, reason: &str) -> (result: MeshError)
    ensures
        result is InvalidInput,
        result.text() == graph_message(domain@, reason@),
{
    let text = around("domain ", quoted(domain).as_str(), " planar constraint graph ");
    MeshError::InvalidInput(join(text.as_str(), reason))
}

fn merge_points(points: &mut SortedMap<PointKey, Point>, aliases: &SortedMap<PointKey, PointKey>)
    requires
        old(points).wf(),
        aliases.wf(),
        sound_aliases(aliases@, old(points)@),
    ensures
        final(points).wf(),
        final(points)@ == merged_points(aliases@, old(points)@),
{
    let ghost start = points@;
    let mut i: usize = 0;
    while i < aliases.keys.len()
        invariant
            i <= aliases.keys@.len(),
            start == old(points)@,
            aliases.wf(),
            sound_aliases(aliases@, start),
            points.wf(),
            forall|key: PointKey| #[trigger]
                points@.dom().contains(key) <==> start.dom().contains(key),
            forall|key: PointKey|
                start.dom().contains(key) ==> #[trigger] points@[key] == (if exists|p: int|
                    0 <= p < i && aliases.values@[p] == key && start.dom().contains(
                        #[trigger] aliases.keys@[p],
                    ) && start[aliases.keys@[p]].protected {
                    Point { protected: true, ..start[key] }
                } else {
                    start[key]
                }),
        decreases aliases.keys@.len() - i,
    {
        let ghost before = points@;
        let key = aliases.keys[i];
        let other = aliases.values[i];
        proof {
            aliases.entry_at(i as int);
            assert(!aliases@.dom().contains(other));
        }
        let held = match points.get(&key) {
            Some(point) => point.protected,
            None => false,
        };
        proof {
            // The point is merged into another, so it has not been changed.
            if start.dom().contains(key) {
                assert forall|p: int| 0 <= p < i implies aliases.values@[p] != key by {
                    aliases.entry_at(p);
                    assert(!aliases@.dom().contains(aliases@[aliases.keys@[p]]));
                }
                assert(before[key] == start[key]);
            }
        }
        if held {
            let found = match points.get(&other) {
                Some(point) => Some(*point),
                None => None,
            };
            match found {
                Some(point) => {
                    points.insert(
                        other,
                        Point {
                            uv: point.uv,
                            world: point.world,
                            boundary: point.boundary,
                            protected: true,
                        },
                    );
                },
                None => {},
            }
        }
        assert forall|k: PointKey| start.dom().contains(k) implies #[trigger] points@[k] == (
        if exists|p: int|
            0 <= p < i + 1 && aliases.values@[p] == k && start.dom().contains(
                #[trigger] aliases.keys@[p],
            ) && start[aliases.keys@[p]].protected {
            Point { protected: true, ..start[k] }
        } else {
            start[k]
        }) by {
            assert(before[k] == (if exists|p: int|
                0 <= p < i && aliases.values@[p] == k && start.dom().contains(
                    #[trigger] aliases.keys@[p],
                ) && start[aliases.keys@[p]].protected {
                Point { protected: true, ..start[k] }
            } else {
                start[k]
            }));
            if k == other && held {
                assert(aliases.values@[i as int] == k && start.dom().contains(
                    aliases.keys@[i as int],
                ) && start[aliases.keys@[i as int]].protected);
            }
        }
        i = i + 1;
    }
    assert forall|key: PointKey| start.dom().contains(key) implies #[trigger] points@[key] == (
    if takes_protected(aliases@, start, key) {
        Point { protected: true, ..start[key] }
    } else {
        start[key]
    }) by {
        if takes_protected(aliases@, start, key) {
            let other = choose|other: PointKey| #[trigger]
                aliases@.dom().contains(other) && aliases@[other] == key && start.dom().contains(
                    other,
                ) && start[other].protected;
            let p = aliases.keys@.index_of(other);
            assert(aliases.keys@[p] == other);
            assert(aliases.values@[p] == key);
        }
        if exists|p: int|
            0 <= p < i && aliases.values@[p] == key && start.dom().contains(
                #[trigger] aliases.keys@[p],
            ) && start[aliases.keys@[p]].protected {
            let p = choose|p: int|
                0 <= p < i && aliases.values@[p] == key && start.dom().contains(
                    #[trigger] aliases.keys@[p],
                ) && start[aliases.keys@[p]].protected;
            aliases.entry_at(p);
            assert(takes_protected(aliases@, start, key));
        }
    }
    let ghost marked = points@;
    let mut k: usize = 0;
    while k < aliases.keys.len()
        invariant
            k <= aliases.keys@.len(),
            aliases.wf(),
            points.wf(),
            forall|key: PointKey| #[trigger]
                points@.dom().contains(key) <==> marked.dom().contains(key) && !(exists|p: int|
                    0 <= p < k && #[trigger] aliases.keys@[p] == key),
            forall|key: PointKey| #[trigger]
                points@.dom().contains(key) ==> points@[key] == marked[key],
        decreases aliases.keys@.len() - k,
    {
        let ghost before = points@;
        points.remove(&aliases.keys[k]);
        assert forall|key: PointKey| #[trigger] points@.dom().contains(key)
            <==> marked.dom().contains(key) && !(exists|p: int|
            0 <= p < k + 1 && #[trigger] aliases.keys@[p] == key) by {
            assert(before.dom().contains(key) <==> marked.dom().contains(key) && !(exists|p: int|
                0 <= p < k && #[trigger] aliases.keys@[p] == key));
            if key == aliases.keys@[k as int] {
                assert(!points@.dom().contains(key));
            }
        }
        k = k + 1;
    }
    proof {
        let wanted = merged_points(aliases@, start);
        assert forall|key: PointKey|
            #![trigger points@.dom().contains(key)]
            #![trigger wanted.dom().contains(key)]
            points@.dom().contains(key) == wanted.dom().contains(key) by {
            if aliases@.dom().contains(key) {
                let p = aliases.keys@.index_of(key);
                assert(aliases.keys@[p] == key);
            }
            if exists|p: int| 0 <= p < k && #[trigger] aliases.keys@[p] == key {
                assert(aliases.keys@.contains(key));
            }
        }
        assert(points@ =~= wanted);
    }
}

/// Merges points: cells are made of the points that are kept, and the others
/// go. Refused where a cell would have a point twice. True where anything was
/// merged.
pub fn merge_boundary_points(
    domain: &str,
    candidate: &mut Candidate,
    aliases: &SortedMap<PointKey, PointKey>,
) -> (result: MeshResult<bool>)
    requires
        old(candidate).wf(),
        aliases.wf(),
        sound_aliases(aliases@, old(candidate).points@),
    ensures
        final(candidate).wf(),
        aliases.keys@.len() == 0 ==> result == Ok::<bool, MeshError>(false) && *final(candidate)
            == *old(candidate),
        aliases.keys@.len() > 0 && some_collapse(aliases@, old(candidate).cells_view())
            ==> fails_input(
            result,
            graph_message(
                domain@,
                "coincident boundary vertices collapse a mandatory cell"@,
            ),
        ) && *final(candidate) == *old(candidate),
        aliases.keys@.len() > 0 && !some_collapse(aliases@, old(candidate).cells_view()) ==> result
            == Ok::<bool, MeshError>(true) && final(candidate).cells_view() == old(
            candidate).cells_view().map_values(|cell: CellView| merged_cell(aliases@, cell))
            && final(candidate).points@ == merged_points(aliases@, old(candidate).points@),
        final(candidate).next_inserted == old(candidate).next_inserted,
        final(candidate).construction_failures == old(candidate).construction_failures,
        final(candidate).layer_edge_targets == old(candidate).layer_edge_targets,
{
    if aliases.keys.len() == 0 {
        return Ok(false);
    }
    let ghost start = *candidate;
    let ghost views = candidate.cells_view();
    let ghost merged = views.map_values(|cell: CellView| merged_cell(aliases@, cell));
    let mut cells: Vec<Cell> = Vec::new();
    let mut i: usize = 0;
    assert(cell_views(cells@) =~= merged.take(0));
    while i < candidate.cells.len()
        invariant
            i <= candidate.cells@.len(),
            *candidate == start,
            start == *old(candidate),
            views == start.cells_view(),
            merged == views.map_values(|cell: CellView| merged_cell(aliases@, cell)),
            aliases.wf(),
            aliases.keys@.len() > 0,
            start.wf(),
            cell_views(cells@) == merged.take(i as int),
            forall|k: int|
                0 <= k < i ==> !collapsed(merged_cell(aliases@, #[trigger] views[k])),
        decreases candidate.cells@.len() - i,
    {
        let ghost so_far = cells@;
        assert(views[i as int] == candidate.cells@[i as int]@);
        let cell = merge_cell(aliases, &candidate.cells[i]);
        if !all_distinct(&cell.points) {
            assert(collapsed(merged_cell(aliases@, views[i as int])));
            return Err(
                graph_error(domain, "coincident boundary vertices collapse a mandatory cell"),
            );
        }
        cells.push(cell);
        assert(cell_views(cells@) =~= cell_views(so_far).push(cell@));
        assert(cell_views(cells@) =~= merged.take(i + 1));
        i = i + 1;
    }
    assert(merged.take(i as int) =~= merged);
    candidate.cells = cells;
    merge_points(&mut candidate.points, aliases);
    assert forall|k: int| 0 <= k < merged.len() implies cell_known(
        #[trigger] merged[k],
        candidate.points@,
    ) by {
        assert(cell_known(views[k], start.points@));
        assert forall|p: int| 0 <= p < merged[k].points.len() implies candidate.points@.dom().contains(
            #[trigger] merged[k].points[p],
        ) by {
            let key = views[k].points[p];
            assert(start.points@.dom().contains(key));
            assert(merged[k].points[p] == merged_name(aliases@, key));
        }
    }
    Ok(true)
}

/// The boxes around a box are those whose coordinates differ from its own by at most one,
/// each at one place.
pub proof fn near_boxes_are_all(bucket: Bucket, x: int, y: int, z: int)
    requires
        -1 <= x <= 1,
        -1 <= y <= 1,
        -1 <= z <= 1,
    ensures
        ({
            let place = 9 * (x + 1) + 3 * (y + 1) + (z + 1);
            &&& 0 <= place < 27
            &&& is_coordinate(bucket.0 + x) && is_coordinate(bucket.1.0 + y) && is_coordinate(
                bucket.1.1 + z,
            ) ==> (bucket_near(bucket, place) matches Some(found) && found.0 == bucket.0 + x
                && found.1.0 == bucket.1.0 + y && found.1.1 == bucket.1.1 + z)
        }),
        forall|p: int, q: int|
            0 <= p < 27 && 0 <= q < 27 && p != q && (#[trigger] bucket_near(bucket, p)) is Some
                ==> bucket_near(bucket, p) != #[trigger] bucket_near(bucket, q),
        forall|p: int|
            0 <= p < 27 ==> ((#[trigger] bucket_near(bucket, p)) matches Some(found) ==> -1
                <= found.0 - bucket.0 <= 1 && -1 <= found.1.0 - bucket.1.0 <= 1 && -1
                <= found.1.1 - bucket.1.1 <= 1),
{
}

/// The points near a box are those in the boxes around it.
pub proof fn near_points_are_exact(
    buckets: Map<Bucket, Vec<PointKey>>,
    bucket: Bucket,
    count: int,
    key: PointKey,
)
    requires
        0 <= count,
    ensures
        points_near(buckets, bucket, count).contains(key) <==> exists|p: int|
            0 <= p < count && bucket_list(buckets, #[trigger] bucket_near(bucket, p)).contains(key),
    decreases count,
{
    if count > 0 {
        near_points_are_exact(buckets, bucket, count - 1, key);
        let rest = points_near(buckets, bucket, count - 1);
        let more = bucket_list(buckets, bucket_near(bucket, count - 1));
        let all = points_near(buckets, bucket, count);
        if all.contains(key) {
            let k = all.index_of(key);
            if k < rest.len() {
                assert(rest[k] == key);
                let p = choose|p: int|
                    0 <= p < count - 1 && bucket_list(
                        buckets,
                        #[trigger] bucket_near(bucket, p),
                    ).contains(key);
                assert(bucket_list(buckets, bucket_near(bucket, p)).contains(key));
            } else {
                assert(more[k - rest.len()] == key);
                assert(more.contains(key));
            }
        }
        if exists|p: int|
            0 <= p < count && bucket_list(buckets, #[trigger] bucket_near(bucket, p)).contains(key) {
            let p = choose|p: int|
                0 <= p < count && bucket_list(buckets, #[trigger] bucket_near(bucket, p)).contains(
                    key,
                );
            if p < count - 1 {
                assert(rest.contains(key));
                let k = rest.index_of(key);
                assert(all[k] == key);
            } else {
                let k = more.index_of(key);
                assert(all[rest.len() + k] == key);
            }
        }
    }
}

/// Merging keeps cells in place: every point of a cell is renamed to the one that it is
/// merged into, or kept, and a merged point is gone from the points.
pub proof fn merged_cells_use_kept_points(
    aliases: Map<PointKey, PointKey>,
    points: Map<PointKey, Point>,
    cell: CellView,
    i: int,
)
    requires
        sound_aliases(aliases, points),
        0 <= i < cell.points.len(),
        points.dom().contains(cell.points[i]),
    ensures
        merged_cell(aliases, cell).points.len() == cell.points.len(),
        merged_cell(aliases, cell).leaf == cell.leaf,
        merged_cell(aliases, cell).protected == cell.protected,
        aliases.dom().contains(cell.points[i]) ==> merged_cell(aliases, cell).points[i]
            == aliases[cell.points[i]],
        !aliases.dom().contains(cell.points[i]) ==> merged_cell(aliases, cell).points[i]
            == cell.points[i],
        merged_points(aliases, points).dom().contains(merged_cell(aliases, cell).points[i]),
        merged_points(aliases, points)[merged_cell(aliases, cell).points[i]].world
            == points[merged_cell(aliases, cell).points[i]].world,
        points[cell.points[i]].protected ==> merged_points(aliases, points)[merged_cell(
            aliases,
            cell,
        ).points[i]].protected,
{
    let key = cell.points[i];
    if aliases.dom().contains(key) && points[key].protected {
        assert(takes_protected(aliases, points, aliases[key]));
    }
}

/// Merging takes away exactly the points that are merged into others. The rest stay where they
/// are, none is set free, and one that is made to stay has taken in a point that must stay.
pub proof fn merging_keeps_the_rest(
    aliases: Map<PointKey, PointKey>,
    points: Map<PointKey, Point>,
    key: PointKey,
)
    ensures
        merged_points(aliases, points).dom().contains(key) <==> points.dom().contains(key)
            && !aliases.dom().contains(key),
        merged_points(aliases, points).dom().contains(key) ==> {
            let after = merged_points(aliases, points)[key];
            &&& after.uv == points[key].uv
            &&& after.world == points[key].world
            &&& after.boundary == points[key].boundary
            &&& after.protected <==> points[key].protected || exists|other: PointKey|
                #[trigger] aliases.dom().contains(other) && aliases[other] == key
                    && points.dom().contains(other) && points[other].protected
        },
{
}

} // verus!
