//! Dividing the boundary anew where layers grow from it: which edges are
//! divided together, where a contour stays fixed, how many stations are tried
//! and which of the tries is kept.

use vstd::prelude::*;

use crate::assess::{copy_owner, BoundaryEdge};
#[allow(unused_imports)]
use crate::assess::owner_view;
use crate::controls::BoundaryLayerControl;
#[allow(unused_imports)]
use crate::edits::cell_capacity;
use crate::edits::cell_limit;
#[allow(unused_imports)]
use crate::error::{fails_input, fails_limit};
use crate::error::{MeshError, MeshResult};
#[allow(unused_imports)]
use crate::interfaces::{boundary_view, boundary_views, BoundaryView};
use crate::layers::{disagreement, layer_error, LayerKey};
#[allow(unused_imports)]
use crate::layers::{layer_message, members_disagree, overlap_message};
use crate::number::Real;
use crate::sorted::{SortedMap, SortedSet};
use crate::stations::INFINITE_BITS;
use crate::text::{around, join, quoted, sentence};
#[allow(unused_imports)]
use crate::text::decimal;
#[allow(unused_imports)]
use crate::topology::edge_key;
use crate::topology::{ordered_pair, EdgeKey, Point, PointKey};

verus! {

/// What is divided together: the rows that grow there, the bits of the wanted
/// length along the wall, and the place of the owner's name among the names in
/// order.
pub type ContourKey = (LayerKey, (u64, usize));

/// The least of the lengths along the wall that the first of an edge's controls
/// ask for.
pub open spec fn least_size(
    controls: Seq<BoundaryLayerControl>,
    members: Seq<usize>,
    count: int,
) -> Real
    decreases count,
{
    if count <= 0 {
        Real { bits: INFINITE_BITS }
    } else {
        let rest = least_size(controls, members, count - 1);
        let size = controls[members[count - 1] as int].hwall_t;
        if size.lt(rest) {
            size
        } else {
            rest
        }
    }
}

/// The contour that an edge belongs to; `None` where no control applies to it.
/// `ranks[c]` is the place of the name of control `c`'s region.
pub open spec fn contour_of(
    controls: Seq<BoundaryLayerControl>,
    ranks: Seq<usize>,
    members: Seq<usize>,
) -> Option<ContourKey> {
    if members.len() == 0 {
        None
    } else {
        Some(
            (
                LayerKey::of(controls[members[0] as int]),
                (
                    least_size(controls, members, members.len() as int).bits,
                    ranks[members[0] as int],
                ),
            ),
        )
    }
}

/// The first edges that belong to a contour.
pub open spec fn contour_edges(
    controls: Seq<BoundaryLayerControl>,
    ranks: Seq<usize>,
    members: Seq<Vec<usize>>,
    key: ContourKey,
    count: int,
) -> Seq<usize>
    decreases count,
{
    if count <= 0 {
        Seq::empty()
    } else {
        let rest = contour_edges(controls, ranks, members, key, count - 1);
        if contour_of(controls, ranks, members[count - 1]@) == Some(key) {
            rest.push((count - 1) as usize)
        } else {
            rest
        }
    }
}

fn contour_for_edge(
    controls: &Vec<BoundaryLayerControl>,
    ranks: &Vec<usize>,
    members: &Vec<usize>,
) -> (result: Option<ContourKey>)
    requires
        ranks@.len() == controls@.len(),
        forall|i: int| 0 <= i < members@.len() ==> (#[trigger] members@[i]) < controls@.len(),
    ensures
        result == contour_of(controls@, ranks@, members@),
{
    if members.len() == 0 {
        return None;
    }
    let mut least = Real { bits: INFINITE_BITS };
    let mut i: usize = 0;
    while i < members.len()
        invariant
            i <= members@.len(),
            forall|k: int| 0 <= k < members@.len() ==> (#[trigger] members@[k]) < controls@.len(),
            least == least_size(controls@, members@, i as int),
        decreases members@.len() - i,
    {
        assert(members@[i as int] < controls@.len());
        let size = controls[members[i]].hwall_t;
        if size.less(least) {
            least = size;
        }
        i = i + 1;
    }
    assert(members@[0] < controls@.len());
    let first: usize = members[0];
    Some((LayerKey::from_control(&controls[first]), (least.bits, ranks[first])))
}

/// The edges of the boundary on which layers grow, gathered by contour. Refused
/// where the controls of an edge ask for different rows.
pub fn contour_groups(
    domain: &str,
    terms: &str,
    controls: &Vec<BoundaryLayerControl>,
    ranks: &Vec<usize>,
    members: &Vec<Vec<usize>>,
) -> (result: MeshResult<SortedMap<ContourKey, Vec<usize>>>)
    requires
        ranks@.len() == controls@.len(),
        forall|i: int, k: int|
            0 <= i < members@.len() && 0 <= k < members@[i]@.len() ==> (#[trigger] members@[i]@[k])
                < controls@.len(),
    ensures
        ({
            let clash = exists|i: int|
                0 <= i < members@.len() && members_disagree(controls@, (#[trigger] members@[i])@);
            &&& clash ==> fails_input(result, overlap_message(domain@, terms@))
            &&& !clash ==> (result matches Ok(groups) && groups.wf() && (forall|key: ContourKey|
                #[trigger]
                groups@.dom().contains(key) <==> contour_edges(
                    controls@,
                    ranks@,
                    members@,
                    key,
                    members@.len() as int,
                ).len() > 0) && (forall|key: ContourKey| #[trigger]
                groups@.dom().contains(key) ==> groups@[key]@ == contour_edges(
                    controls@,
                    ranks@,
                    members@,
                    key,
                    members@.len() as int,
                )))
        }),
{
    let mut groups = SortedMap::<ContourKey, Vec<usize>>::new();
    let mut i: usize = 0;
    while i < members.len()
        invariant
            i <= members@.len(),
            ranks@.len() == controls@.len(),
            forall|p: int, k: int|
                0 <= p < members@.len() && 0 <= k < members@[p]@.len() ==> (
                #[trigger] members@[p]@[k]) < controls@.len(),
            groups.wf(),
            forall|p: int|
                0 <= p < i ==> !members_disagree(controls@, (#[trigger] members@[p])@),
            forall|key: ContourKey| #[trigger]
                groups@.dom().contains(key) <==> contour_edges(
                    controls@,
                    ranks@,
                    members@,
                    key,
                    i as int,
                ).len() > 0,
            forall|key: ContourKey| #[trigger]
                groups@.dom().contains(key) ==> groups@[key]@ == contour_edges(
                    controls@,
                    ranks@,
                    members@,
                    key,
                    i as int,
                ),
        decreases members@.len() - i,
    {
        let list = &members[i];
        assert forall|k: int| 0 <= k < list@.len() implies (#[trigger] list@[k])
            < controls@.len() by {
            assert(members@[i as int]@[k] < controls@.len());
        }
        if disagreement(controls, list) {
            let reason = join(
                " has overlapping boundary-layer controls with incompatible ",
                terms,
            );
            let text = around("domain ", quoted(domain).as_str(), reason.as_str());
            return Err(MeshError::InvalidInput(text));
        }
        let ghost before = groups@;
        match contour_for_edge(controls, ranks, list) {
            None => {},
            Some(key) => {
                let mut edges: Vec<usize> = match groups.get(&key) {
                    Some(held) => {
                        let copy = held.clone();
                        assert(copy@ =~= held@);
                        copy
                    },
                    None => Vec::new(),
                };
                assert(edges@ =~= contour_edges(controls@, ranks@, members@, key, i as int)) by {
                    assert(before.dom().contains(key) <==> contour_edges(
                        controls@,
                        ranks@,
                        members@,
                        key,
                        i as int,
                    ).len() > 0);
                }
                edges.push(i);
                groups.insert(key, edges);
            },
        }
        assert forall|key: ContourKey| #[trigger] groups@.dom().contains(key) <==> contour_edges(
            controls@,
            ranks@,
            members@,
            key,
            i + 1,
        ).len() > 0 by {
            assert(before.dom().contains(key) <==> contour_edges(
                controls@,
                ranks@,
                members@,
                key,
                i as int,
            ).len() > 0);
        }
        assert forall|key: ContourKey| #[trigger] groups@.dom().contains(key) implies groups@[key]@
            == contour_edges(controls@, ranks@, members@, key, i + 1) by {
            if contour_of(controls@, ranks@, list@) != Some(key) {
                assert(before.dom().contains(key));
            }
        }
        i = i + 1;
    }
    Ok(groups)
}

/// The places of the first flags that are set.
pub open spec fn cuts(flags: Seq<bool>, count: int) -> Seq<int>
    decreases count,
{
    if count <= 0 {
        Seq::empty()
    } else if flags[count - 1] {
        cuts(flags, count - 1).push(count - 1)
    } else {
        cuts(flags, count - 1)
    }
}

/// Cuts a line at its flagged points, the first and last of which are flagged.
fn cut_line(line: &Vec<PointKey>, flags: &Vec<bool>) -> (result: Vec<Vec<PointKey>>)
    requires
        line@.len() >= 2,
        flags@.len() == line@.len(),
        flags@[0],
        flags@[line@.len() - 1],
    ensures
        arcs_between(result@, line@, cuts(flags@, flags@.len() as int)),
{
    let mut arcs: Vec<Vec<PointKey>> = Vec::new();
    let mut current: Vec<PointKey> = Vec::new();
    current.push(line[0]);
    let mut i: usize = 1;
    proof {
        reveal_with_fuel(cuts, 2);
        assert(cuts(flags@, 1) =~= seq![0int]);
        assert(current@ =~= line@.subrange(0, 1));
    }
    while i < line.len()
        invariant
            1 <= i <= line@.len(),
            flags@.len() == line@.len(),
            cuts(flags@, i as int).len() > 0,
            arcs_between(arcs@, line@, cuts(flags@, i as int)),
            current@ == line@.subrange(cuts(flags@, i as int).last(), i as int),
            0 <= cuts(flags@, i as int).last() < i,
        decreases line@.len() - i,
    {
        let ghost before = cuts(flags@, i as int);
        let ghost held = arcs@;
        current.push(line[i]);
        assert(current@ =~= line@.subrange(before.last(), i + 1));
        if flags[i] {
            let ghost after = cuts(flags@, i + 1);
            assert(after =~= before.push(i as int));
            arcs.push(current);
            current = Vec::new();
            current.push(line[i]);
            assert(current@ =~= line@.subrange(i as int, i + 1));
            assert forall|k: int| 0 <= k < arcs@.len() implies (#[trigger] arcs@[k])@
                == line@.subrange(after[k], after[k + 1] + 1) by {
                if k < held.len() {
                    assert(held[k]@ == line@.subrange(before[k], before[k + 1] + 1));
                }
            }
        }
        i = i + 1;
    }
    arcs
}

/// The arcs run along the line from each cut to the next.
pub open spec fn arcs_between(arcs: Seq<Vec<PointKey>>, line: Seq<PointKey>, cuts: Seq<int>) -> bool {
    &&& arcs.len() + 1 == cuts.len()
    &&& forall|k: int|
        0 <= k < arcs.len() ==> (#[trigger] arcs[k])@ == line.subrange(cuts[k], cuts[k + 1] + 1)
}

/// How a contour is divided: as one closed curve, or arc by arc.
#[derive(Debug)]
pub enum Division {
    Cycle(Vec<PointKey>),
    Arcs(Vec<Vec<PointKey>>),
}

/// The first flag that is set, from a place on.
pub open spec fn first_set(flags: Seq<bool>, from: int) -> int
    decreases flags.len() - from,
{
    if from < 0 || from >= flags.len() || flags[from] {
        from
    } else {
        first_set(flags, from + 1)
    }
}

/// A closed contour, begun and ended at a place.
pub open spec fn opened_at<T>(list: Seq<T>, place: int) -> Seq<T> {
    Seq::new((list.len() + 1) as nat, |i: int| list[(i + place) % list.len() as int])
}

/// An open contour with its ends flagged.
pub open spec fn ends_flagged(flags: Seq<bool>) -> Seq<bool> {
    Seq::new(flags.len(), |i: int| flags[i] || i == 0 || i == flags.len() - 1)
}

/// Divides a contour at its fixed points. A closed contour without any is one
/// curve; one with some begins at the first. An open one is fixed at its ends.
pub fn divide_contour(vertices: &Vec<PointKey>, fixed: &Vec<bool>, closed: bool) -> (result: Division)
    requires
        vertices@.len() >= 2,
        vertices@.len() < usize::MAX,
        fixed@.len() == vertices@.len(),
    ensures
        ({
            let none = first_set(fixed@, 0) == fixed@.len();
            &&& closed && none ==> (result matches Division::Cycle(cycle) && cycle@ == opened_at(
                vertices@,
                0,
            ))
            &&& closed && !none ==> (result matches Division::Arcs(arcs) && arcs_between(
                arcs@,
                opened_at(vertices@, first_set(fixed@, 0)),
                cuts(
                    opened_at(fixed@, first_set(fixed@, 0)),
                    (fixed@.len() + 1) as int,
                ),
            ))
            &&& !closed ==> (result matches Division::Arcs(arcs) && arcs_between(
                arcs@,
                vertices@,
                cuts(ends_flagged(fixed@), fixed@.len() as int),
            ))
        }),
{
    let count: usize = vertices.len();
    if !closed {
        let mut flags: Vec<bool> = Vec::new();
        let mut i: usize = 0;
        while i < count
            invariant
                i <= count,
                count == fixed@.len(),
                flags@ == ends_flagged(fixed@).take(i as int),
            decreases count - i,
        {
            flags.push(fixed[i] || i == 0 || i == count - 1);
            assert(flags@ =~= ends_flagged(fixed@).take(i + 1));
            i = i + 1;
        }
        assert(flags@ =~= ends_flagged(fixed@));
        return Division::Arcs(cut_line(vertices, &flags));
    }
    let mut first: usize = 0;
    while first < count && !fixed[first]
        invariant
            first <= count,
            count == fixed@.len(),
            first_set(fixed@, 0) == first_set(fixed@, first as int),
        decreases count - first,
    {
        first = first + 1;
    }
    let none = first == count;
    assert(first_set(fixed@, 0) == first);
    let start: usize = if none {
        0
    } else {
        first
    };
    let mut line: Vec<PointKey> = Vec::new();
    let mut flags: Vec<bool> = Vec::new();
    let mut place: usize = start;
    let mut i: usize = 0;
    proof {
        vstd::arithmetic::div_mod::lemma_small_mod(start as nat, count as nat);
    }
    while i < count + 1
        invariant
            i <= count + 1,
            count == fixed@.len(),
            count == vertices@.len(),
            2 <= count < usize::MAX,
            start < count,
            place < count,
            place == (i + start) % count as int,
            line@ == opened_at(vertices@, start as int).take(i as int),
            flags@ == opened_at(fixed@, start as int).take(i as int),
        decreases count + 1 - i,
    {
        line.push(vertices[place]);
        flags.push(fixed[place]);
        assert(line@ =~= opened_at(vertices@, start as int).take(i + 1));
        assert(flags@ =~= opened_at(fixed@, start as int).take(i + 1));
        proof {
            vstd::arithmetic::div_mod::lemma_add_mod_noop((i + start) as int, 1, count as int);
            vstd::arithmetic::div_mod::lemma_small_mod(1, count as nat);
            if place + 1 < count {
                vstd::arithmetic::div_mod::lemma_small_mod((place + 1) as nat, count as nat);
            } else {
                vstd::arithmetic::div_mod::lemma_mod_self_0(count as int);
            }
        }
        place = if place + 1 == count {
            0
        } else {
            place + 1
        };
        i = i + 1;
    }
    assert(line@ =~= opened_at(vertices@, start as int));
    assert(flags@ =~= opened_at(fixed@, start as int));
    if none {
        return Division::Cycle(line);
    }
    proof {
        assert(fixed@[first as int]);
        vstd::arithmetic::div_mod::lemma_small_mod(first as nat, count as nat);
        vstd::arithmetic::div_mod::lemma_mod_add_multiples_vanish(first as int, count as int);
        assert((count + first) % count as int == first);
        assert(flags@[0]);
        assert(flags@[count as int]);
    }
    Division::Arcs(cut_line(&line, &flags))
}

/// The numbers, each where it comes first.
pub open spec fn distinct(list: Seq<usize>) -> Seq<usize>
    decreases list.len(),
{
    if list.len() == 0 {
        list
    } else {
        let rest = distinct(list.drop_last());
        if rest.contains(list.last()) {
            rest
        } else {
            rest.push(list.last())
        }
    }
}

/// A number of edges near another, but not less than the minimum.
pub open spec fn count_near(nominal: usize, delta: int, minimum: usize) -> usize {
    let moved = nominal + delta;
    if moved < minimum {
        minimum
    } else if moved > usize::MAX {
        usize::MAX
    } else {
        moved as usize
    }
}

/// The numbers of edges to try, nearest first.
pub open spec fn counts_near(nominal: usize, minimum: usize) -> Seq<usize> {
    seq![
        count_near(nominal, 0, minimum),
        count_near(nominal, -1, minimum),
        count_near(nominal, 1, minimum),
        count_near(nominal, -2, minimum),
        count_near(nominal, 2, minimum),
    ]
}

fn add_count(counts: &mut Vec<usize>, count: usize)
    ensures
        final(counts)@ == (if old(counts)@.contains(count) {
            old(counts)@
        } else {
            old(counts)@.push(count)
        }),
{
    let mut i: usize = 0;
    while i < counts.len()
        invariant
            i <= counts@.len(),
            counts@ == old(counts)@,
            forall|k: int| 0 <= k < i ==> counts@[k] != count,
        decreases counts@.len() - i,
    {
        if counts[i] == count {
            assert(counts@.contains(counts@[i as int]));
            return;
        }
        i = i + 1;
    }
    counts.push(count);
}

/// The numbers of edges that an arc is divided into by way of trial.
pub fn station_counts(nominal: usize, minimum: usize) -> (result: Vec<usize>)
    ensures
        result@ == distinct(counts_near(nominal, minimum)),
{
    let middle: usize = if nominal < minimum {
        minimum
    } else {
        nominal
    };
    let below: usize = if nominal >= 1 && nominal - 1 >= minimum {
        nominal - 1
    } else {
        minimum
    };
    let up: usize = nominal.saturating_add(1);
    let above: usize = if up < minimum {
        minimum
    } else {
        up
    };
    let far_below: usize = if nominal >= 2 && nominal - 2 >= minimum {
        nominal - 2
    } else {
        minimum
    };
    let far_up: usize = nominal.saturating_add(2);
    let far_above: usize = if far_up < minimum {
        minimum
    } else {
        far_up
    };
    let ghost all = counts_near(nominal, minimum);
    proof {
        assert(all =~= seq![middle, below, above, far_below, far_above]);
        reveal_with_fuel(distinct, 6);
        let four = all.drop_last();
        let three = four.drop_last();
        let two = three.drop_last();
        let one = two.drop_last();
        let none = one.drop_last();
        assert(none =~= Seq::<usize>::empty());
        assert(four.last() == far_below);
        assert(three.last() == above);
        assert(two.last() == below);
        assert(one.last() == middle);
    }
    let mut counts: Vec<usize> = Vec::new();
    assert(counts@ =~= distinct(all.drop_last().drop_last().drop_last().drop_last().drop_last()));
    add_count(&mut counts, middle);
    assert(counts@ == distinct(all.drop_last().drop_last().drop_last().drop_last()));
    add_count(&mut counts, below);
    assert(counts@ == distinct(all.drop_last().drop_last().drop_last()));
    add_count(&mut counts, above);
    assert(counts@ == distinct(all.drop_last().drop_last()));
    add_count(&mut counts, far_below);
    assert(counts@ == distinct(all.drop_last()));
    add_count(&mut counts, far_above);
    counts
}

/// How a division of an arc was judged: the greatest skewness and the least
/// Scaled Jacobian of the quads that grow from it, by how much its edges miss
/// their length, and how many they are.
#[derive(Debug, Clone, Copy, PartialEq, Eq, Structural)]
pub struct StationScore {
    pub worst_skewness: Real,
    pub minimum_scaled_jacobian: Real,
    pub size_error: Real,
    pub edges: usize,
}

impl StationScore {
    /// The criteria in order; the first one that differs decides, and less is
    /// better.
    pub open spec fn criterion(self, index: int) -> int {
        if index == 0 {
            self.worst_skewness.total_rank()
        } else if index == 1 {
            -self.minimum_scaled_jacobian.total_rank()
        } else if index == 2 {
            self.size_error.total_rank()
        } else {
            self.edges as int
        }
    }

    pub fn better_than(self, other: StationScore) -> (result: bool)
        ensures
            result == better_stations(self, other, 0),
    {
        proof {
            reveal_with_fuel(better_stations, 5);
        }
        if self.worst_skewness.total_less(other.worst_skewness) {
            return true;
        }
        if other.worst_skewness.total_less(self.worst_skewness) {
            return false;
        }
        if other.minimum_scaled_jacobian.total_less(self.minimum_scaled_jacobian) {
            return true;
        }
        if self.minimum_scaled_jacobian.total_less(other.minimum_scaled_jacobian) {
            return false;
        }
        if self.size_error.total_less(other.size_error) {
            return true;
        }
        if other.size_error.total_less(self.size_error) {
            return false;
        }
        self.edges < other.edges
    }
}

/// From the given criterion on, `a` is better than `b`.
pub open spec fn better_stations(a: StationScore, b: StationScore, index: int) -> bool
    decreases 4 - index,
{
    if index >= 4 {
        false
    } else {
        a.criterion(index) < b.criterion(index) || (a.criterion(index) == b.criterion(index)
            && better_stations(a, b, index + 1))
    }
}

/// The best of the first tries that succeeded: the first of those that none is
/// better than.
pub open spec fn best_try(scores: Seq<Option<StationScore>>, count: int) -> Option<int>
    decreases count,
{
    if count <= 0 {
        None
    } else {
        let rest = best_try(scores, count - 1);
        match scores[count - 1] {
            None => rest,
            Some(score) => match rest {
                None => Some(count - 1),
                Some(place) => if better_stations(score, scores[place]->0, 0) {
                    Some(count - 1)
                } else {
                    rest
                },
            },
        }
    }
}

/// The best of the tries to divide an arc, by its place.
pub fn choose_stations(scores: &Vec<Option<StationScore>>) -> (result: Option<usize>)
    ensures
        match result {
            Some(place) => best_try(scores@, scores@.len() as int) == Some(place as int) && place
                < scores@.len() && scores@[place as int] is Some,
            None => best_try(scores@, scores@.len() as int) is None,
        },
{
    let mut best: Option<usize> = None;
    let mut i: usize = 0;
    while i < scores.len()
        invariant
            i <= scores@.len(),
            match best {
                Some(place) => best_try(scores@, i as int) == Some(place as int) && place < i
                    && scores@[place as int] is Some,
                None => best_try(scores@, i as int) is None,
            },
        decreases scores@.len() - i,
    {
        match scores[i] {
            None => {},
            Some(score) => {
                let replace = match best {
                    None => true,
                    Some(place) => match scores[place] {
                        Some(held) => score.better_than(held),
                        None => true,
                    },
                };
                if replace {
                    best = Some(i);
                }
            },
        }
        i = i + 1;
    }
    best
}

/// The targets with those between the first stations added.
pub open spec fn station_targets(
    targets: Map<EdgeKey, Real>,
    stations: Seq<PointKey>,
    size: Real,
    count: int,
) -> Map<EdgeKey, Real>
    decreases count,
{
    if count <= 0 {
        targets
    } else {
        station_targets(targets, stations, size, count - 1).insert(
            edge_key(stations[count - 1], stations[count % stations.len() as int]),
            size,
        )
    }
}

/// The number of edges between stations.
pub open spec fn station_edges(stations: Seq<PointKey>, closed: bool) -> int {
    if closed {
        stations.len() as int
    } else if stations.len() == 0 {
        0
    } else {
        stations.len() - 1
    }
}

/// Adds the edges between stations to the boundary, with the length that they
/// should have. Round a closed curve the last is joined to the first.
pub fn join_stations(
    targets: &mut SortedMap<EdgeKey, Real>,
    boundary: &mut Vec<BoundaryEdge>,
    stations: &Vec<PointKey>,
    closed: bool,
    size: Real,
    owner: &Option<String>,
)
    requires
        old(targets).wf(),
    ensures
        final(targets).wf(),
        final(targets)@ == station_targets(
            old(targets)@,
            stations@,
            size,
            station_edges(stations@, closed),
        ),
        boundary_views(final(boundary)@) == boundary_views(old(boundary)@) + Seq::new(
            station_edges(stations@, closed) as nat,
            |k: int|
                BoundaryView {
                    points: seq![stations@[k], stations@[(k + 1) % stations@.len() as int]],
                    cell: 0,
                    owner: owner_view(*owner),
                },
        ),
{
    let ghost start = targets@;
    let ghost held = boundary_views(boundary@);
    let count: usize = if closed {
        stations.len()
    } else if stations.len() == 0 {
        0
    } else {
        stations.len() - 1
    };
    let ghost added = Seq::new(
        count as nat,
        |k: int|
            BoundaryView {
                points: seq![stations@[k], stations@[(k + 1) % stations@.len() as int]],
                cell: 0,
                owner: owner_view(*owner),
            },
    );
    assert(held =~= held + added.take(0));
    let mut i: usize = 0;
    while i < count
        invariant
            i <= count <= stations@.len(),
            start == old(targets)@,
            targets.wf(),
            targets@ == station_targets(start, stations@, size, i as int),
            added == Seq::new(
                count as nat,
                |k: int|
                    BoundaryView {
                        points: seq![stations@[k], stations@[(k + 1) % stations@.len() as int]],
                        cell: 0,
                        owner: owner_view(*owner),
                    },
            ),
            boundary_views(boundary@) == held + added.take(i as int),
        decreases count - i,
    {
        let ghost before = boundary@;
        let next: usize = if i + 1 == stations.len() {
            0
        } else {
            i + 1
        };
        proof {
            if i + 1 < stations@.len() {
                vstd::arithmetic::div_mod::lemma_small_mod((i + 1) as nat, stations@.len());
            } else {
                vstd::arithmetic::div_mod::lemma_mod_self_0(stations@.len() as int);
            }
        }
        assert(next == (i + 1) % stations@.len() as int);
        targets.insert(ordered_pair(stations[i], stations[next]), size);
        let edge = BoundaryEdge {
            points: [stations[i], stations[next]],
            cell: 0,
            owner: copy_owner(owner),
        };
        boundary.push(edge);
        assert(boundary_view(edge) =~= added[i as int]);
        assert(boundary_views(boundary@) =~= boundary_views(before).push(boundary_view(edge)));
        assert(boundary_views(boundary@) =~= held + added.take(i + 1));
        i = i + 1;
    }
    assert(added.take(i as int) =~= added);
}

/// The point is an end of a boundary edge.
pub open spec fn boundary_end(boundary: Seq<BoundaryEdge>, key: PointKey) -> bool {
    exists|i: int|
        0 <= i < boundary.len() && ((#[trigger] boundary[i]).points[0] == key
            || boundary[i].points[1] == key)
}

/// The vertices of a new boundary. Points of the old boundary that are not among
/// them go.
pub fn settle_boundary(
    points: &mut SortedMap<PointKey, Point>,
    before: &SortedSet<PointKey>,
    boundary: &Vec<BoundaryEdge>,
) -> (result: SortedSet<PointKey>)
    requires
        old(points).wf(),
    ensures
        result.wf(),
        final(points).wf(),
        forall|key: PointKey| #[trigger]
            result@.contains(key) <==> boundary_end(boundary@, key),
        forall|key: PointKey| #[trigger]
            final(points)@.dom().contains(key) <==> old(points)@.dom().contains(key) && !(
            before@.contains(key) && !boundary_end(boundary@, key)),
        forall|key: PointKey| #[trigger]
            final(points)@.dom().contains(key) ==> final(points)@[key] == old(points)@[key],
{
    let mut kept = SortedSet::<PointKey>::new();
    let mut i: usize = 0;
    while i < boundary.len()
        invariant
            i <= boundary@.len(),
            kept.wf(),
            forall|key: PointKey| #[trigger]
                kept@.contains(key) <==> boundary_end(boundary@.take(i as int), key),
        decreases boundary@.len() - i,
    {
        let ghost so_far = kept@;
        let first = boundary[i].points[0];
        let second = boundary[i].points[1];
        kept.insert(first);
        kept.insert(second);
        assert forall|key: PointKey| #[trigger] kept@.contains(key) <==> boundary_end(
            boundary@.take(i + 1),
            key,
        ) by {
            let less = boundary@.take(i as int);
            let more = boundary@.take(i + 1);
            assert(more[i as int] == boundary@[i as int]);
            assert(so_far.contains(key) <==> boundary_end(less, key));
            if boundary_end(less, key) {
                let p = choose|p: int|
                    0 <= p < less.len() && ((#[trigger] less[p]).points[0] == key
                        || less[p].points[1] == key);
                assert(more[p] == less[p]);
            }
            if boundary_end(more, key) {
                let p = choose|p: int|
                    0 <= p < more.len() && ((#[trigger] more[p]).points[0] == key
                        || more[p].points[1] == key);
                if p < i {
                    assert(less[p] == more[p]);
                }
            }
        }
        i = i + 1;
    }
    assert(boundary@.take(i as int) =~= boundary@);
    let ghost known = points@;
    let mut k: usize = 0;
    while k < before.items.len()
        invariant
            k <= before.items@.len(),
            known == old(points)@,
            kept.wf(),
            forall|key: PointKey| #[trigger]
                kept@.contains(key) <==> boundary_end(boundary@, key),
            points.wf(),
            forall|key: PointKey| #[trigger]
                points@.dom().contains(key) <==> known.dom().contains(key) && !((exists|p: int|
                    0 <= p < k && #[trigger] before.items@[p] == key) && !boundary_end(
                    boundary@,
                    key,
                )),
            forall|key: PointKey| #[trigger]
                points@.dom().contains(key) ==> points@[key] == known[key],
        decreases before.items@.len() - k,
    {
        let ghost held = points@;
        let key = before.items[k];
        assert(kept@.contains(key) <==> boundary_end(boundary@, key));
        if !kept.contains(&key) {
            points.remove(&key);
        }
        assert forall|other: PointKey| #[trigger] points@.dom().contains(other)
            <==> known.dom().contains(other) && !((exists|p: int|
            0 <= p < k + 1 && #[trigger] before.items@[p] == other) && !boundary_end(
            boundary@,
            other,
        )) by {
            assert(held.dom().contains(other) <==> known.dom().contains(other) && !((exists|p: int|
                0 <= p < k && #[trigger] before.items@[p] == other) && !boundary_end(
                boundary@,
                other,
            )));
            if other == key {
                assert(before.items@[k as int] == other);
            }
        }
        k = k + 1;
    }
    assert forall|key: PointKey| #[trigger] points@.dom().contains(key) <==> known.dom().contains(
        key,
    ) && !(before@.contains(key) && !boundary_end(boundary@, key)) by {
        if before@.contains(key) {
            let p = before.items@.index_of(key);
            assert(before.items@[p] == key);
        }
        if exists|p: int| 0 <= p < k && #[trigger] before.items@[p] == key {
            assert(before.items@.contains(key));
        }
    }
    kept
}

pub open spec fn resampled_message(max_cells: u64) -> Seq<char> {
    "uniform boundary rediscretization exceeds the configured "@ + decimal(max_cells as nat)
        + " cell limit"@
}

/// Whether a mesh on a newly divided boundary can be used: it must be sound and
/// not too large.
pub fn check_resampled(domain: &str, sound: bool, cells: usize, max_cells: u64) -> (result: MeshResult<
    (),
>)
    ensures
        !sound ==> fails_input(
            result,
            layer_message(
                domain@,
                "could not retriangulate the core after uniform boundary rediscretization"@,
            ),
        ),
        sound && cells > cell_capacity(max_cells) ==> fails_limit(
            result,
            resampled_message(max_cells),
        ),
        sound && cells <= cell_capacity(max_cells) ==> result is Ok,
{
    if !sound {
        return Err(
            layer_error(
                domain,
                "could not retriangulate the core after uniform boundary rediscretization",
            ),
        );
    }
    if cells > cell_limit(max_cells) {
        return Err(
            MeshError::LimitExceeded(
                sentence(
                    "uniform boundary rediscretization exceeds the configured ",
                    max_cells,
                    " cell limit",
                ),
            ),
        );
    }
    Ok(())
}

/// The edges of a contour are those that belong to it, in order.
pub proof fn contour_has_its_edges(
    controls: Seq<BoundaryLayerControl>,
    ranks: Seq<usize>,
    members: Seq<Vec<usize>>,
    key: ContourKey,
    count: int,
) -> (places: Seq<int>)
    requires
        0 <= count <= usize::MAX,
    ensures
        contour_edges(controls, ranks, members, key, count).len() == places.len(),
        forall|i: int, j: int|
            0 <= i < j < places.len() ==> (#[trigger] places[i]) < (#[trigger] places[j]),
        forall|k: int| #[trigger] places.contains(k) <==> 0 <= k < count && contour_of(controls, ranks, members[k]@) == Some(key),
        forall|i: int|
            0 <= i < places.len() ==> contour_edges(controls, ranks, members, key, count)[i] == ((#[trigger] places[i]) as usize),
    decreases count,
{
    if count == 0 {
        Seq::empty()
    } else {
        let list = contour_has_its_edges(controls, ranks, members, key, count - 1);
        let last = count - 1;
        let takes = contour_of(controls, ranks, members[last]@) == Some(key);
        let places = if takes {
            list.push(last)
        } else {
            list
        };
        let rest = contour_edges(controls, ranks, members, key, count - 1);
        let now = contour_edges(controls, ranks, members, key, count);
        
        assert forall|i: int| 0 <= i < list.len() implies 0 <= (#[trigger] list[i]) < last by {
            assert(list.contains(list[i]));
        }
        assert forall|k: int| #[trigger] places.contains(k) <==> 0 <= k < count && contour_of(controls, ranks, members[k]@) == Some(key) by {
            if places.contains(k) {
                let m = places.index_of(k);
                if m < list.len() {
                    assert(list[m] == k);
                    assert(list.contains(k));
                }
            }
            if list.contains(k) {
                let m = list.index_of(k);
                assert(places[m] == k);
            }
            if k == last && takes {
                assert(places[list.len() as int] == k);
            }
        }
        assert forall|i: int| 0 <= i < places.len() implies now[i] == ((#[trigger] places[i]) as usize) by {
            if i < list.len() {
                assert(places[i] == list[i]);
                assert(now[i] == rest[i]);
            }
        }
        places
    }
}

/// The cuts of a line are the places of its flags, in order.
pub proof fn cuts_are_flags(
    flags: Seq<bool>,
    count: int,
) -> (places: Seq<int>)
    requires
        0 <= count,
    ensures
        cuts(flags, count).len() == places.len(),
        forall|i: int, j: int|
            0 <= i < j < places.len() ==> (#[trigger] places[i]) < (#[trigger] places[j]),
        forall|k: int| #[trigger] places.contains(k) <==> 0 <= k < count && flags[k],
        forall|i: int|
            0 <= i < places.len() ==> cuts(flags, count)[i] == (#[trigger] places[i]),
    decreases count,
{
    if count == 0 {
        Seq::empty()
    } else {
        let list = cuts_are_flags(flags, count - 1);
        let last = count - 1;
        let takes = flags[last];
        let places = if takes {
            list.push(last)
        } else {
            list
        };
        let rest = cuts(flags, count - 1);
        let now = cuts(flags, count);
        
        assert forall|i: int| 0 <= i < list.len() implies 0 <= (#[trigger] list[i]) < last by {
            assert(list.contains(list[i]));
        }
        assert forall|k: int| #[trigger] places.contains(k) <==> 0 <= k < count && flags[k] by {
            if places.contains(k) {
                let m = places.index_of(k);
                if m < list.len() {
                    assert(list[m] == k);
                    assert(list.contains(k));
                }
            }
            if list.contains(k) {
                let m = list.index_of(k);
                assert(places[m] == k);
            }
            if k == last && takes {
                assert(places[list.len() as int] == k);
            }
        }
        assert forall|i: int| 0 <= i < places.len() implies now[i] == (#[trigger] places[i]) by {
            if i < list.len() {
                assert(places[i] == list[i]);
                assert(now[i] == rest[i]);
            }
        }
        places
    }
}

/// The least size is one that a control asks for, and none asks for less.
pub proof fn least_size_is_least(
    controls: Seq<BoundaryLayerControl>,
    members: Seq<usize>,
    count: int,
)
    requires
        0 <= count <= members.len(),
    ensures
        !least_size(controls, members, count).nan(),
        least_size(controls, members, count) == (Real { bits: INFINITE_BITS }) || exists|i: int|
            0 <= i < count && least_size(controls, members, count) == controls[(
            #[trigger] members[i]) as int].hwall_t,
        forall|i: int|
            0 <= i < count ==> !controls[(#[trigger] members[i]) as int].hwall_t.lt(
                least_size(controls, members, count),
            ),
    decreases count,
{
    assert(!(Real { bits: INFINITE_BITS }).nan());
    if count > 0 {
        least_size_is_least(controls, members, count - 1);
        assert(members[count - 1] == members[count - 1]);
    }
}

/// The first set flag from a place on is found.
pub proof fn first_set_is_first(flags: Seq<bool>, from: int)
    requires
        0 <= from <= flags.len(),
    ensures
        from <= first_set(flags, from) <= flags.len(),
        first_set(flags, from) < flags.len() ==> flags[first_set(flags, from)],
        forall|i: int| from <= i < first_set(flags, from) ==> !#[trigger] flags[i],
    decreases flags.len() - from,
{
    if from < flags.len() && !flags[from] {
        first_set_is_first(flags, from + 1);
    }
}

/// A closed contour begun at another place goes once round it and back.
pub proof fn opened_contour_goes_round<T>(list: Seq<T>, place: int, i: int)
    requires
        0 <= place < list.len(),
        0 <= i < list.len(),
    ensures
        opened_at(list, place).len() == list.len() + 1,
        opened_at(list, place)[0] == list[place],
        opened_at(list, place).last() == list[place],
        opened_at(list, place).contains(list[i]),
        i + place < list.len() ==> opened_at(list, place)[i] == list[i + place],
        i + place >= list.len() ==> opened_at(list, place)[i] == list[i + place - list.len()],
{
    let n = list.len() as int;
    let open = opened_at(list, place);
    vstd::arithmetic::div_mod::lemma_small_mod(place as nat, n as nat);
    vstd::arithmetic::div_mod::lemma_mod_add_multiples_vanish(place, n);
    if i + place < n {
        vstd::arithmetic::div_mod::lemma_small_mod((i + place) as nat, n as nat);
    } else {
        vstd::arithmetic::div_mod::lemma_mod_add_multiples_vanish(i + place - n, n);
        vstd::arithmetic::div_mod::lemma_small_mod((i + place - n) as nat, n as nat);
        assert(i + place == n + (i + place - n));
    }
    assert(open[n] == list[place]) by {
        assert(n + place == n + place);
    }
    let k = if i >= place {
        i - place
    } else {
        i - place + n
    };
    if i >= place {
        vstd::arithmetic::div_mod::lemma_small_mod(i as nat, n as nat);
        assert(k + place == i);
    } else {
        vstd::arithmetic::div_mod::lemma_mod_add_multiples_vanish(i, n);
        vstd::arithmetic::div_mod::lemma_small_mod(i as nat, n as nat);
        assert(k + place == n + i);
    }
    assert(open[k] == list[i]);
}

/// The numbers without repeats are the same numbers, each once.
pub proof fn distinct_numbers_are_the_same(list: Seq<usize>, value: usize)
    ensures
        distinct(list).no_duplicates(),
        distinct(list).contains(value) <==> list.contains(value),
    decreases list.len(),
{
    if list.len() > 0 {
        let front = list.drop_last();
        distinct_numbers_are_the_same(front, value);
        let rest = distinct(front);
        let now = distinct(list);
        if list.contains(value) {
            let k = list.index_of(value);
            if k < front.len() {
                assert(front[k] == value);
                let m = rest.index_of(value);
                assert(now[m] == value);
            } else if rest.contains(value) {
                let m = rest.index_of(value);
                assert(now[m] == value);
            } else {
                assert(now[rest.len() as int] == value);
            }
        }
        if now.contains(value) {
            let k = now.index_of(value);
            if k < rest.len() {
                assert(rest[k] == value);
                let m = front.index_of(value);
                assert(list[m] == value);
            } else {
                assert(list[list.len() - 1] == value);
            }
        }
    }
}

/// The numbers of edges to try lie at most two from the wanted one, or are the least
/// allowed; none is less, and the wanted one comes first.
pub proof fn counts_lie_near(nominal: usize, minimum: usize, i: int)
    requires
        0 <= i < 5,
        2 <= nominal < usize::MAX - 2,
        minimum <= nominal,
    ensures
        counts_near(nominal, minimum).len() == 5,
        counts_near(nominal, minimum)[0] == nominal,
        counts_near(nominal, minimum)[i] >= minimum,
        nominal - 2 <= counts_near(nominal, minimum)[i] <= nominal + 2,
        minimum + 2 <= nominal ==> counts_near(nominal, minimum).no_duplicates(),
{
}

/// Scores are compared one way only, and the comparison carries over.
pub proof fn better_stations_are_ordered(a: StationScore, b: StationScore, c: StationScore, index: int)
    requires
        0 <= index <= 4,
    ensures
        !better_stations(a, a, index),
        better_stations(a, b, index) ==> !better_stations(b, a, index),
        better_stations(a, b, index) && better_stations(b, c, index) ==> better_stations(a, c, index),
        a.worst_skewness.total_rank() < b.worst_skewness.total_rank() ==> better_stations(a, b, 0),
        a.worst_skewness == b.worst_skewness && a.minimum_scaled_jacobian.total_rank()
            > b.minimum_scaled_jacobian.total_rank() ==> better_stations(a, b, 0),
    decreases 4 - index,
{
    reveal_with_fuel(better_stations, 3);
    if index < 4 {
        better_stations_are_ordered(a, b, c, index + 1);
    }
}

/// The try that is kept succeeded, and none that succeeded is better.
pub proof fn kept_try_is_best(scores: Seq<Option<StationScore>>, count: int)
    requires
        0 <= count <= scores.len(),
    ensures
        match best_try(scores, count) {
            Some(place) => 0 <= place < count && scores[place] is Some && forall|i: int|
                0 <= i < count && (#[trigger] scores[i]) is Some ==> !better_stations(
                    scores[i]->0,
                    scores[place]->0,
                    0,
                ),
            None => forall|i: int| 0 <= i < count ==> (#[trigger] scores[i]) is None,
        },
    decreases count,
{
    if count > 0 {
        kept_try_is_best(scores, count - 1);
        if let Some(place) = best_try(scores, count) {
            assert forall|i: int| 0 <= i < count && (#[trigger] scores[i]) is Some implies
                !better_stations(scores[i]->0, scores[place]->0, 0) by {
                better_stations_are_ordered(scores[i]->0, scores[i]->0, scores[place]->0, 0);
                if place == count - 1 && i < count - 1 {
                    let held = best_try(scores, count - 1)->0;
                    assert(scores[held] is Some);
                    better_stations_are_ordered(
                        scores[i]->0,
                        scores[place]->0,
                        scores[held]->0,
                        0,
                    );
                }
            }
        }
    }
}

/// Every edge between stations next to one another gets the size, round to the first one where
/// the count says so, and every other edge keeps its target.
pub proof fn station_edges_get_size(
    targets: Map<EdgeKey, Real>,
    stations: Seq<PointKey>,
    size: Real,
    count: int,
    edge: EdgeKey,
)
    requires
        0 <= count <= stations.len(),
    ensures
        (exists|i: int| 0 <= i < count && #[trigger] station_side(stations, i) == edge)
            ==> station_targets(targets, stations, size, count).dom().contains(edge)
            && station_targets(targets, stations, size, count)[edge] == size,
        !(exists|i: int| 0 <= i < count && #[trigger] station_side(stations, i) == edge)
            ==> station_targets(targets, stations, size, count).dom().contains(edge)
            == targets.dom().contains(edge) && station_targets(targets, stations, size, count)[edge]
            == targets[edge],
    decreases count,
{
    if count > 0 {
        station_edges_get_size(targets, stations, size, count - 1, edge);
        let last = count - 1;
        assert(count % stations.len() as int == if count == stations.len() {
            0int
        } else {
            count
        }) by (nonlinear_arith)
            requires
                0 < count <= stations.len(),
        ;
        if station_side(stations, last) == edge {
            assert(0 <= last < count);
        } else if exists|i: int| 0 <= i < count && #[trigger] station_side(stations, i) == edge {
            let i = choose|i: int| 0 <= i < count && #[trigger] station_side(stations, i) == edge;
            assert(i < last);
            assert(station_side(stations, i) == edge);
        }
    }
}

/// The edge from a station to the next, and from the last one back to the first.
pub open spec fn station_side(stations: Seq<PointKey>, place: int) -> EdgeKey {
    if place == stations.len() - 1 {
        edge_key(stations[place], stations[0])
    } else {
        edge_key(stations[place], stations[place + 1])
    }
}

/// An open line of stations has one edge less than stations, a closed one as many.
pub proof fn closed_line_has_one_more(stations: Seq<PointKey>)
    ensures
        stations.len() > 0 ==> station_edges(stations, true) == station_edges(stations, false) + 1,
        stations.len() > 0 ==> station_edges(stations, true) == stations.len(),
        stations.len() == 0 ==> station_edges(stations, true) == 0 && station_edges(stations, false)
            == 0,
{
}

} // verus!
