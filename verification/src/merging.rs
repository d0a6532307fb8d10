//! Pairing triangles into quads, one pass over the edges in order.

use vstd::prelude::*;

#[allow(unused_imports)]
use crate::covering::{
    cells_join, corners_join, found_corner, joins, quad_joins, same_ends,
};
use crate::edits::{merged_cell, QuadShape};
#[allow(unused_imports)]
use crate::edits::{free_triangle, merge_corners, merged_points};
use crate::incidence::{cell_sides, EdgeMap, Side};
#[allow(unused_imports)]
use crate::incidence::{all_sides, side_in, sides_on, sides_on_are_sides};
use crate::number::Real;
use crate::topology::{Candidate, Cell, EdgeKey};
#[allow(unused_imports)]
use crate::topology::{cell_views, holds_both, CellView, PointKey};

verus! {

/// Two free triangles that share an edge.
#[derive(Debug, Clone, Copy)]
pub struct MergeSite {
    pub edge: EdgeKey,
    pub first: usize,
    pub second: usize,
}

/// What was measured of a site: the size error of the edge that would go, with
/// the comparison slack added, and the shape of the quad.
#[derive(Debug, Clone, Copy)]
pub struct MergeMeasure {
    pub diagonal_error: Real,
    pub shape: QuadShape,
}

/// The sides of the free triangles.
pub open spec fn free_sides(sides: Seq<Side>, cells: Seq<CellView>) -> Seq<Side>
    decreases sides.len(),
{
    if sides.len() == 0 {
        Seq::empty()
    } else {
        let rest = free_sides(sides.drop_last(), cells);
        if free_triangle(cells[sides.last().cell as int]) {
            rest.push(sides.last())
        } else {
            rest
        }
    }
}

/// The sites among the first `count` edges.
pub open spec fn sites_of(sides: Seq<Side>, keys: Seq<EdgeKey>, count: int) -> Seq<MergeSite>
    decreases count,
{
    if count <= 0 {
        Seq::empty()
    } else {
        let rest = sites_of(sides, keys, count - 1);
        let here = sides_on(sides, keys[count - 1]);
        if here.len() == 2 {
            rest.push(
                MergeSite { edge: keys[count - 1], first: here[0].cell, second: here[1].cell },
            )
        } else {
            rest
        }
    }
}

fn gather_free(cells: &Vec<Cell>) -> (result: Vec<Side>)
    ensures
        result@ == free_sides(all_sides(cell_views(cells@)), cell_views(cells@)),
        forall|i: int| 0 <= i < result.len() ==> (#[trigger] result[i]).cell < cells.len(),
{
    let ghost views = cell_views(cells@);
    let sides = cell_sides(cells);
    let mut list: Vec<Side> = Vec::new();
    let mut i: usize = 0;
    while i < sides.len()
        invariant
            i <= sides.len(),
            views == cell_views(cells@),
            forall|k: int| 0 <= k < sides.len() ==> side_in(#[trigger] sides[k], views),
            list@ == free_sides(sides@.take(i as int), views),
            forall|k: int| 0 <= k < list.len() ==> (#[trigger] list[k]).cell < cells.len(),
        decreases sides.len() - i,
    {
        let side = sides[i];
        assert(side_in(sides[i as int], views));
        assert(views[side.cell as int] == cells[side.cell as int]@);
        assert(sides@.take(i as int + 1).drop_last() =~= sides@.take(i as int));
        if !cells[side.cell].protected && cells[side.cell].points.len() == 3 {
            list.push(side);
        }
        i = i + 1;
    }
    assert(sides@.take(i as int) =~= sides@);
    list
}

/// The edges between two free triangles, in increasing order.
pub fn merge_sites(cells: &Vec<Cell>) -> (result: (Vec<MergeSite>, EdgeMap))
    ensures
        result.1.gathers(free_sides(all_sides(cell_views(cells@)), cell_views(cells@))),
        result.0@ == sites_of(
            free_sides(all_sides(cell_views(cells@)), cell_views(cells@)),
            result.1.groups.keys@,
            result.1.groups.keys@.len() as int,
        ),
        forall|i: int|
            0 <= i < result.0.len() ==> (#[trigger] result.0[i]).first < cells.len()
                && result.0[i].second < cells.len(),
{
    let sides = gather_free(cells);
    let edges = EdgeMap::gather(&sides);
    let ghost keys = edges.groups.keys@;
    let mut list: Vec<MergeSite> = Vec::new();
    let mut i: usize = 0;
    while i < edges.groups.keys.len()
        invariant
            i <= keys.len(),
            keys == edges.groups.keys@,
            edges.gathers(sides@),
            forall|k: int| 0 <= k < sides.len() ==> (#[trigger] sides[k]).cell < cells.len(),
            list@ == sites_of(sides@, keys, i as int),
            forall|k: int|
                0 <= k < list.len() ==> (#[trigger] list[k]).first < cells.len() && list[k].second
                    < cells.len(),
        decreases keys.len() - i,
    {
        proof {
            edges.groups.entry_at(i as int);
            sides_on_are_sides(sides@, keys[i as int]);
        }
        let here = &edges.groups.values[i];
        assert(here@ == sides_on(sides@, keys[i as int]));
        if here.len() == 2 {
            proof {
                let a = sides@.index_of(here@[0]);
                let b = sides@.index_of(here@[1]);
                assert(sides@.contains(here@[0]) && sides@.contains(here@[1]));
                assert(sides[a].cell < cells.len());
                assert(sides[b].cell < cells.len());
            }
            list.push(
                MergeSite {
                    edge: edges.groups.keys[i],
                    first: here[0].cell,
                    second: here[1].cell,
                },
            );
        }
        i = i + 1;
    }
    (list, edges)
}

/// What becomes of a cell: it stays, turns into the quad of a site, or goes.
#[derive(Debug, Clone, Copy, PartialEq, Eq, Structural)]
pub enum Role {
    Keep,
    Merge(usize),
    Drop,
}

/// What becomes of a cell once the chosen sites are merged.
pub open spec fn role_of(sites: Seq<MergeSite>, chosen: Seq<usize>, cell: int) -> Role
    decreases chosen.len(),
{
    if chosen.len() == 0 {
        Role::Keep
    } else if sites[chosen.last() as int].first == cell {
        Role::Merge(chosen.last())
    } else if sites[chosen.last() as int].second == cell {
        Role::Drop
    } else {
        role_of(sites, chosen.drop_last(), cell)
    }
}

/// The site's triangles are still free, its edge is not one of the better ones,
/// and the quad is accepted.
pub open spec fn worth_merging(
    cells: Seq<CellView>,
    sites: Seq<MergeSite>,
    measures: Seq<MergeMeasure>,
    mean_error: Real,
    chosen: Seq<usize>,
    index: int,
) -> bool {
    let site = sites[index];
    &&& role_of(sites, chosen, site.first as int) is Keep
    &&& role_of(sites, chosen, site.second as int) is Keep
    &&& !measures[index].diagonal_error.lt(mean_error)
    &&& merge_corners(
        cells[site.first as int],
        cells[site.second as int],
        site.edge.0,
        site.edge.1,
    ) is Some
    &&& measures[index].shape.accepted()
}

/// The sites chosen among the first `count`.
pub open spec fn chosen_sites(
    cells: Seq<CellView>,
    sites: Seq<MergeSite>,
    measures: Seq<MergeMeasure>,
    mean_error: Real,
    count: int,
) -> Seq<usize>
    decreases count,
{
    if count <= 0 {
        Seq::empty()
    } else {
        let rest = chosen_sites(cells, sites, measures, mean_error, count - 1);
        if worth_merging(cells, sites, measures, mean_error, rest, count - 1) {
            rest.push((count - 1) as usize)
        } else {
            rest
        }
    }
}

/// The quad of a site.
pub open spec fn site_quad(cells: Seq<CellView>, site: MergeSite, measure: MergeMeasure) -> CellView {
    CellView {
        points: merged_points(
            merge_corners(
                cells[site.first as int],
                cells[site.second as int],
                site.edge.0,
                site.edge.1,
            )->0,
            site.edge.0,
            site.edge.1,
            measure.shape.clockwise,
        ),
        leaf: cells[site.first as int].leaf,
        protected: false,
    }
}

/// The first `count` cells after the chosen sites were merged.
pub open spec fn merged_list(
    cells: Seq<CellView>,
    sites: Seq<MergeSite>,
    measures: Seq<MergeMeasure>,
    chosen: Seq<usize>,
    count: int,
) -> Seq<CellView>
    decreases count,
{
    if count <= 0 {
        Seq::empty()
    } else {
        let rest = merged_list(cells, sites, measures, chosen, count - 1);
        match role_of(sites, chosen, count - 1) {
            Role::Keep => rest.push(cells[count - 1]),
            Role::Merge(index) => rest.push(
                site_quad(cells, sites[index as int], measures[index as int]),
            ),
            Role::Drop => rest,
        }
    }
}

/// Pairs triangles greedily. `None` where nothing was merged.
pub fn merge_triangles(
    candidate: &Candidate,
    sites: &Vec<MergeSite>,
    measures: &Vec<MergeMeasure>,
    mean_error: Real,
) -> (result: Option<Vec<Cell>>)
    requires
        forall|i: int|
            0 <= i < sites.len() ==> (#[trigger] sites[i]).first < candidate.cells.len()
                && sites[i].second < candidate.cells.len(),
        measures.len() == sites.len(),
    ensures
        ({
            let cells = candidate.cells_view();
            let chosen = chosen_sites(cells, sites@, measures@, mean_error, sites@.len() as int);
            &&& chosen.len() == 0 ==> result is None
            &&& chosen.len() > 0 ==> (result matches Some(list) && cell_views(list@)
                == merged_list(cells, sites@, measures@, chosen, cells.len() as int))
        }),
{
    let ghost views = candidate.cells_view();
    let mut roles: Vec<Role> = Vec::new();
    let mut quads: Vec<Option<Cell>> = Vec::new();
    let mut i: usize = 0;
    let ghost mut chosen: Seq<usize> = Seq::empty();
    while i < candidate.cells.len()
        invariant
            i <= candidate.cells.len(),
            chosen.len() == 0,
            roles.len() == i,
            quads.len() == i,
            forall|k: int| 0 <= k < i ==> #[trigger] roles[k] == role_of(sites@, chosen, k),
        decreases candidate.cells.len() - i,
    {
        roles.push(Role::Keep);
        quads.push(None);
        i = i + 1;
    }
    let mut any = false;
    let mut s: usize = 0;
    while s < sites.len()
        invariant
            s <= sites.len(),
            views == candidate.cells_view(),
            measures.len() == sites.len(),
            roles.len() == candidate.cells.len(),
            quads.len() == candidate.cells.len(),
            forall|k: int|
                0 <= k < sites.len() ==> (#[trigger] sites[k]).first < candidate.cells.len()
                    && sites[k].second < candidate.cells.len(),
            chosen == chosen_sites(views, sites@, measures@, mean_error, s as int),
            any == (chosen.len() > 0),
            forall|k: int| 0 <= k < roles.len() ==> #[trigger] roles[k] == role_of(sites@, chosen, k),
            forall|k: int|
                0 <= k < roles.len() ==> match #[trigger] roles[k] {
                    Role::Merge(index) => index < sites.len() && (quads[k] matches Some(cell)
                        && cell@ == site_quad(views, sites[index as int], measures[index as int])),
                    _ => true,
                },
        decreases sites.len() - s,
    {
        let site = sites[s];
        let first: usize = site.first;
        let second: usize = site.second;
        let free = match (roles[first], roles[second]) {
            (Role::Keep, Role::Keep) => true,
            _ => false,
        };
        assert(roles[first as int] == role_of(sites@, chosen, first as int));
        assert(roles[second as int] == role_of(sites@, chosen, second as int));
        if free && !measures[s].diagonal_error.less(mean_error) {
            assert(views[first as int] == candidate.cells[first as int]@);
            assert(views[second as int] == candidate.cells[second as int]@);
            match merged_cell(
                candidate,
                first,
                second,
                site.edge.0,
                site.edge.1,
                &measures[s].shape,
            ) {
                Some(quad) => {
                    let ghost before = roles@;
                    let ghost next = chosen.push(s);
                    let ghost quad_view = quad@;
                    roles.set(second, Role::Drop);
                    roles.set(first, Role::Merge(s));
                    quads.set(first, Some(quad));
                    proof {
                        assert(next.drop_last() =~= chosen);
                        assert forall|k: int| 0 <= k < roles.len() implies #[trigger] roles[k]
                            == role_of(sites@, next, k) by {
                            if k != first && k != second {
                                assert(roles[k] == before[k]);
                            }
                        }
                        assert(quad_view == site_quad(views, sites[s as int], measures[s as int]));
                        assert forall|k: int| 0 <= k < roles.len() implies match #[trigger] roles[k] {
                            Role::Merge(index) => index < sites.len() && (
                            quads[k] matches Some(cell) && cell@ == site_quad(
                                views,
                                sites[index as int],
                                measures[index as int],
                            )),
                            _ => true,
                        } by {
                            if k != first && k != second {
                                assert(roles[k] == before[k]);
                            }
                        }
                        chosen = next;
                    }
                    any = true;
                },
                None => {},
            }
        }
        s = s + 1;
    }
    if !any {
        return None;
    }
    let mut list: Vec<Cell> = Vec::new();
    let mut c: usize = 0;
    while c < candidate.cells.len()
        invariant
            c <= candidate.cells.len(),
            views == candidate.cells_view(),
            roles.len() == candidate.cells.len(),
            quads.len() == candidate.cells.len(),
            forall|k: int| 0 <= k < roles.len() ==> #[trigger] roles[k] == role_of(sites@, chosen, k),
            forall|k: int|
                0 <= k < roles.len() ==> match #[trigger] roles[k] {
                    Role::Merge(index) => index < sites.len() && (quads[k] matches Some(cell)
                        && cell@ == site_quad(views, sites[index as int], measures[index as int])),
                    _ => true,
                },
            cell_views(list@) == merged_list(views, sites@, measures@, chosen, c as int),
        decreases candidate.cells.len() - c,
    {
        let ghost done = list@;
        assert(views[c as int] == candidate.cells[c as int]@);
        assert(roles[c as int] == role_of(sites@, chosen, c as int));
        match roles[c] {
            Role::Keep => {
                let cell = candidate.cells[c].copy();
                list.push(cell);
                assert(cell_views(list@) =~= cell_views(done).push(cell@));
            },
            Role::Merge(index) => {
                match &quads[c] {
                    Some(quad) => {
                        let cell = quad.copy();
                        list.push(cell);
                        assert(cell_views(list@) =~= cell_views(done).push(cell@));
                    },
                    None => {},
                }
            },
            Role::Drop => {},
        }
        c = c + 1;
    }
    Some(list)
}

/// No triangle is merged twice: the chosen sites have no cell in common.
pub proof fn chosen_sites_are_disjoint(
    cells: Seq<CellView>,
    sites: Seq<MergeSite>,
    measures: Seq<MergeMeasure>,
    mean_error: Real,
    count: int,
)
    requires
        0 <= count <= sites.len(),
        sites.len() <= usize::MAX,
    ensures
        ({
            let chosen = chosen_sites(cells, sites, measures, mean_error, count);
            &&& forall|i: int| 0 <= i < chosen.len() ==> (#[trigger] chosen[i]) < count
            &&& forall|i: int, j: int|
                0 <= i < j < chosen.len() ==> {
                    let a = sites[(#[trigger] chosen[i]) as int];
                    let b = sites[(#[trigger] chosen[j]) as int];
                    a.first != b.first && a.first != b.second && a.second != b.first && a.second
                        != b.second
                }
        }),
    decreases count,
{
    if count > 0 {
        chosen_sites_are_disjoint(cells, sites, measures, mean_error, count - 1);
        let rest = chosen_sites(cells, sites, measures, mean_error, count - 1);
        let all = chosen_sites(cells, sites, measures, mean_error, count);
        if worth_merging(cells, sites, measures, mean_error, rest, count - 1) {
            let site = sites[count - 1];
            kept_means_unused(sites, rest, site.first as int);
            kept_means_unused(sites, rest, site.second as int);
            assert forall|i: int, j: int| 0 <= i < j < all.len() implies {
                let a = sites[(#[trigger] all[i]) as int];
                let b = sites[(#[trigger] all[j]) as int];
                a.first != b.first && a.first != b.second && a.second != b.first && a.second
                    != b.second
            } by {
                assert(all[i] == rest[i]);
                if j < rest.len() {
                    assert(all[j] == rest[j]);
                }
            }
        }
    }
}

proof fn kept_means_unused(sites: Seq<MergeSite>, chosen: Seq<usize>, cell: int)
    requires
        role_of(sites, chosen, cell) is Keep,
    ensures
        forall|i: int|
            0 <= i < chosen.len() ==> sites[(#[trigger] chosen[i]) as int].first != cell
                && sites[chosen[i] as int].second != cell,
    decreases chosen.len(),
{
    if chosen.len() > 0 {
        let front = chosen.drop_last();
        kept_means_unused(sites, front, cell);
        assert forall|i: int| 0 <= i < chosen.len() implies sites[(#[trigger] chosen[i]) as int].first
            != cell && sites[chosen[i] as int].second != cell by {
            if i < front.len() {
                assert(front[i] == chosen[i]);
            }
        }
    }
}

/// How many of the chosen sites have their edge between two points.
pub open spec fn chosen_on(sites: Seq<MergeSite>, chosen: Seq<usize>, p: PointKey, q: PointKey) -> nat
    decreases chosen.len(),
{
    if chosen.len() == 0 {
        0
    } else {
        let edge = sites[chosen.last() as int].edge;
        chosen_on(sites, chosen.drop_last(), p, q) + same_ends(p, q, edge.0, edge.1)
    }
}

/// The site's two cells are different triangles that both have its edge, and their far
/// corners are found.
pub open spec fn site_stands(cells: Seq<CellView>, site: MergeSite) -> bool {
    let (a, b) = site.edge;
    &&& site.first < cells.len()
    &&& site.second < cells.len()
    &&& site.first != site.second
    &&& a != b
    &&& cells[site.first as int].points.len() == 3
    &&& cells[site.second as int].points.len() == 3
    &&& holds_both(cells[site.first as int], a, b)
    &&& holds_both(cells[site.second as int], a, b)
    &&& merge_corners(cells[site.first as int], cells[site.second as int], a, b) is Some
}

/// A merge joins what its two triangles joined, less the edge between them.
proof fn site_quad_joins(
    cells: Seq<CellView>,
    site: MergeSite,
    measure: MergeMeasure,
    p: PointKey,
    q: PointKey,
)
    requires
        site_stands(cells, site),
        p != q,
    ensures
        joins(site_quad(cells, site, measure).points, p, q) + 2 * same_ends(
            p,
            q,
            site.edge.0,
            site.edge.1,
        ) == joins(cells[site.first as int].points, p, q) + joins(
            cells[site.second as int].points,
            p,
            q,
        ),
{
    let (a, b) = site.edge;
    let first = cells[site.first as int].points;
    let second = cells[site.second as int].points;
    let (c, d) = merge_corners(cells[site.first as int], cells[site.second as int], a, b)->0;
    found_corner(first, a, b);
    found_corner(second, a, b);
    corners_join(first, a, b, c, p, q);
    corners_join(second, a, b, d, p, q);
    quad_joins(site_quad(cells, site, measure).points, p, q);
}

/// What one more chosen site changes among the first cells.
proof fn one_more_site(
    cells: Seq<CellView>,
    sites: Seq<MergeSite>,
    measures: Seq<MergeMeasure>,
    chosen: Seq<usize>,
    count: int,
    p: PointKey,
    q: PointKey,
)
    requires
        0 <= count <= cells.len(),
        chosen.len() > 0,
        site_stands(cells, sites[chosen.last() as int]),
        role_of(sites, chosen.drop_last(), sites[chosen.last() as int].first as int) is Keep,
        role_of(sites, chosen.drop_last(), sites[chosen.last() as int].second as int) is Keep,
    ensures
        ({
            let site = sites[chosen.last() as int];
            let now = merged_list(cells, sites, measures, chosen, count);
            let before = merged_list(cells, sites, measures, chosen.drop_last(), count);
            cells_join(now, p, q) + (if site.first < count {
                joins(cells[site.first as int].points, p, q)
            } else {
                0
            }) + (if site.second < count {
                joins(cells[site.second as int].points, p, q)
            } else {
                0
            }) == cells_join(before, p, q) + (if site.first < count {
                joins(
                    site_quad(cells, site, measures[chosen.last() as int]).points,
                    p,
                    q,
                )
            } else {
                0
            })
        }),
    decreases count,
{
    if count > 0 {
        one_more_site(cells, sites, measures, chosen, count - 1, p, q);
        let rest = chosen.drop_last();
        let now = merged_list(cells, sites, measures, chosen, count);
        let before = merged_list(cells, sites, measures, rest, count);
        let less_now = merged_list(cells, sites, measures, chosen, count - 1);
        let less_before = merged_list(cells, sites, measures, rest, count - 1);
        if now.len() > less_now.len() {
            assert(now.drop_last() =~= less_now);
        } else {
            assert(now =~= less_now);
        }
        if before.len() > less_before.len() {
            assert(before.drop_last() =~= less_before);
        } else {
            assert(before =~= less_before);
        }
    }
}

/// Merging keeps the cover: each chosen edge is joined twice less, every other pair of
/// points as often as before, and there is one cell fewer for each.
pub proof fn merging_keeps_cover(
    cells: Seq<CellView>,
    sites: Seq<MergeSite>,
    measures: Seq<MergeMeasure>,
    chosen: Seq<usize>,
    p: PointKey,
    q: PointKey,
)
    requires
        p != q,
        forall|i: int|
            0 <= i < chosen.len() ==> site_stands(cells, sites[(#[trigger] chosen[i]) as int]),
        forall|i: int, j: int|
            0 <= i < j < chosen.len() ==> {
                let a = sites[(#[trigger] chosen[i]) as int];
                let b = sites[(#[trigger] chosen[j]) as int];
                a.first != b.first && a.first != b.second && a.second != b.first && a.second
                    != b.second
            },
    ensures
        cells_join(merged_list(cells, sites, measures, chosen, cells.len() as int), p, q) + 2
            * chosen_on(sites, chosen, p, q) == cells_join(cells, p, q),
    decreases chosen.len(),
{
    let n = cells.len() as int;
    if chosen.len() == 0 {
        all_kept(cells, sites, measures, chosen, n);
        assert(cells.take(n) =~= cells);
    } else {
        let rest = chosen.drop_last();
        let last = chosen.len() - 1;
        let site = sites[chosen[last] as int];
        merging_keeps_cover(cells, sites, measures, rest, p, q);
        untouched(sites, chosen, site.first as int);
        untouched(sites, chosen, site.second as int);
        one_more_site(cells, sites, measures, chosen, n, p, q);
        site_quad_joins(cells, site, measures[chosen[last] as int], p, q);
    }
}

/// A cell that no site but the last has keeps its place until then.
proof fn untouched(sites: Seq<MergeSite>, chosen: Seq<usize>, cell: int)
    requires
        chosen.len() > 0,
        forall|i: int|
            0 <= i < chosen.len() - 1 ==> sites[(#[trigger] chosen[i]) as int].first != cell
                && sites[chosen[i] as int].second != cell,
    ensures
        role_of(sites, chosen.drop_last(), cell) is Keep,
    decreases chosen.len(),
{
    let rest = chosen.drop_last();
    if rest.len() > 0 {
        assert forall|i: int| 0 <= i < rest.len() - 1 implies sites[(#[trigger] rest[i]) as int].first
            != cell && sites[rest[i] as int].second != cell by {
            assert(rest[i] == chosen[i]);
        }
        assert(rest.last() == chosen[chosen.len() - 2]);
        untouched(sites, rest, cell);
    }
}

proof fn all_kept(
    cells: Seq<CellView>,
    sites: Seq<MergeSite>,
    measures: Seq<MergeMeasure>,
    chosen: Seq<usize>,
    count: int,
)
    requires
        chosen.len() == 0,
        0 <= count <= cells.len(),
    ensures
        merged_list(cells, sites, measures, chosen, count) == cells.take(count),
    decreases count,
{
    if count > 0 {
        all_kept(cells, sites, measures, chosen, count - 1);
        assert(cells.take(count - 1).push(cells[count - 1]) =~= cells.take(count));
    } else {
        assert(cells.take(0) =~= Seq::empty());
    }
}

/// Which sites are chosen: in order, each one that can be merged, is accepted, has a
/// diagonal no better than the mean, and shares no cell with one chosen before.
pub proof fn chosen_sites_are_exact(
    cells: Seq<CellView>,
    sites: Seq<MergeSite>,
    measures: Seq<MergeMeasure>,
    mean_error: Real,
    count: int,
    index: int,
)
    requires
        0 <= index < count <= sites.len(),
        sites.len() <= usize::MAX,
    ensures
        chosen_sites(cells, sites, measures, mean_error, count).contains(index as usize) <==> {
            let site = sites[index];
            let before = chosen_sites(cells, sites, measures, mean_error, index);
            &&& measures[index].shape.accepted()
            &&& !measures[index].diagonal_error.lt(mean_error)
            &&& merge_corners(
                cells[site.first as int],
                cells[site.second as int],
                site.edge.0,
                site.edge.1,
            ) is Some
            &&& forall|k: int|
                0 <= k < before.len() ==> {
                    let other = sites[(#[trigger] before[k]) as int];
                    other.first != site.first && other.first != site.second && other.second
                        != site.first && other.second != site.second
                }
        },
    decreases count,
{
    let now = chosen_sites(cells, sites, measures, mean_error, count);
    let less = chosen_sites(cells, sites, measures, mean_error, count - 1);
    chosen_sites_are_disjoint(cells, sites, measures, mean_error, count - 1);
    if index == count - 1 {
        if now.contains(index as usize) {
            let k = now.index_of(index as usize);
            if k < less.len() {
                assert(less[k] < count - 1);
            }
            assert(worth_merging(cells, sites, measures, mean_error, less, index));
        }
        if worth_merging(cells, sites, measures, mean_error, less, index) {
            assert(now[less.len() as int] == index as usize);
        }
        kept_means_apart(sites, less, sites[index].first as int);
        kept_means_apart(sites, less, sites[index].second as int);
    } else {
        chosen_sites_are_exact(cells, sites, measures, mean_error, count - 1, index);
        if less.contains(index as usize) {
            let k = less.index_of(index as usize);
            assert(now[k] == index as usize);
        }
        if now.contains(index as usize) {
            let k = now.index_of(index as usize);
            if k < less.len() {
                assert(less[k] == index as usize);
            }
        }
    }
}

proof fn kept_means_apart(sites: Seq<MergeSite>, chosen: Seq<usize>, cell: int)
    ensures
        role_of(sites, chosen, cell) is Keep <==> forall|k: int|
            0 <= k < chosen.len() ==> sites[(#[trigger] chosen[k]) as int].first != cell
                && sites[chosen[k] as int].second != cell,
    decreases chosen.len(),
{
    if chosen.len() > 0 {
        let rest = chosen.drop_last();
        kept_means_apart(sites, rest, cell);
        if role_of(sites, chosen, cell) is Keep {
            assert forall|k: int| 0 <= k < chosen.len() implies sites[(
            #[trigger] chosen[k]) as int].first != cell && sites[chosen[k] as int].second
                != cell by {
                if k < rest.len() {
                    assert(rest[k] == chosen[k]);
                }
            }
        } else if forall|k: int|
            0 <= k < chosen.len() ==> sites[(#[trigger] chosen[k]) as int].first != cell
                && sites[chosen[k] as int].second != cell {
            assert(sites[chosen[chosen.len() - 1] as int].first != cell);
            assert forall|k: int| 0 <= k < rest.len() implies sites[(
            #[trigger] rest[k]) as int].first != cell && sites[rest[k] as int].second != cell by {
                assert(rest[k] == chosen[k]);
            }
        }
    }
}

/// The sites are the edges that two free triangles share, in order, with these two.
pub proof fn sites_lie_between_two(
    sides: Seq<Side>,
    keys: Seq<EdgeKey>,
    count: int,
) -> (places: Seq<int>)
    requires
        0 <= count,
    ensures
        sites_of(sides, keys, count).len() == places.len(),
        forall|i: int, j: int|
            0 <= i < j < places.len() ==> (#[trigger] places[i]) < (#[trigger] places[j]),
        forall|k: int| #[trigger] places.contains(k) <==> 0 <= k < count && sides_on(sides, keys[k]).len() == 2,
        forall|i: int|
            0 <= i < places.len() ==> sites_of(sides, keys, count)[i] == (MergeSite { edge: keys[(#[trigger] places[i])], first: sides_on(sides, keys[(#[trigger] places[i])])[0].cell, second: sides_on(sides, keys[(#[trigger] places[i])])[1].cell }),
    decreases count,
{
    if count == 0 {
        Seq::empty()
    } else {
        let list = sites_lie_between_two(sides, keys, count - 1);
        let last = count - 1;
        let takes = sides_on(sides, keys[last]).len() == 2;
        let places = if takes {
            list.push(last)
        } else {
            list
        };
        let rest = sites_of(sides, keys, count - 1);
        let now = sites_of(sides, keys, count);
        
        assert forall|i: int| 0 <= i < list.len() implies 0 <= (#[trigger] list[i]) < last by {
            assert(list.contains(list[i]));
        }
        assert forall|k: int| #[trigger] places.contains(k) <==> 0 <= k < count && sides_on(sides, keys[k]).len() == 2 by {
            if places.contains(k) {
                let m = places.index_of(k);
                if m < list.len() {
                    assert(list[m] == k);
                    assert(list.contains(k));
                }
            }
            if list.contains(k) {
                let m = list.index_of(k);
                assert(places[m] == k);
            }
            if k == last && takes {
                assert(places[list.len() as int] == k);
            }
        }
        assert forall|i: int| 0 <= i < places.len() implies now[i] == (MergeSite { edge: keys[(#[trigger] places[i])], first: sides_on(sides, keys[(#[trigger] places[i])])[0].cell, second: sides_on(sides, keys[(#[trigger] places[i])])[1].cell }) by {
            if i < list.len() {
                assert(places[i] == list[i]);
                assert(now[i] == rest[i]);
            }
        }
        places
    }
}

/// The sides of free triangles are, in order, exactly those of the sides whose triangle may be
/// changed.
pub proof fn free_sides_are_exact(sides: Seq<Side>, cells: Seq<CellView>) -> (places: Seq<int>)
    ensures
        free_sides(sides, cells).len() == places.len(),
        forall|i: int, j: int|
            0 <= i < j < places.len() ==> (#[trigger] places[i]) < (#[trigger] places[j]),
        forall|k: int| #[trigger]
            places.contains(k) <==> 0 <= k < sides.len() && !cells[sides[k].cell as int].protected
                && cells[sides[k].cell as int].points.len() == 3,
        forall|i: int|
            0 <= i < places.len() ==> free_sides(sides, cells)[i] == sides[#[trigger] places[i]],
    decreases sides.len(),
{
    if sides.len() == 0 {
        Seq::empty()
    } else {
        let front = sides.drop_last();
        let last = sides.len() - 1;
        let list = free_sides_are_exact(front, cells);
        let takes = !cells[sides[last].cell as int].protected
            && cells[sides[last].cell as int].points.len() == 3;
        let places = if takes {
            list.push(last)
        } else {
            list
        };
        let rest = free_sides(front, cells);
        let now = free_sides(sides, cells);
        assert forall|i: int| 0 <= i < list.len() implies 0 <= (#[trigger] list[i]) < last by {
            assert(list.contains(list[i]));
        }
        assert forall|k: int| #[trigger]
            places.contains(k) <==> 0 <= k < sides.len() && !cells[sides[k].cell as int].protected
                && cells[sides[k].cell as int].points.len() == 3 by {
            if places.contains(k) {
                let m = places.index_of(k);
                if m < list.len() {
                    assert(list[m] == k);
                    assert(list.contains(k));
                    assert(front[k] == sides[k]);
                }
            }
            if list.contains(k) {
                let m = list.index_of(k);
                assert(places[m] == k);
            }
            if 0 <= k < last {
                assert(front[k] == sides[k]);
            }
            if k == last && takes {
                assert(places[list.len() as int] == k);
            }
        }
        assert forall|i: int| 0 <= i < places.len() implies now[i] == sides[#[trigger] places[i]] by {
            if i < list.len() {
                assert(places[i] == list[i]);
                assert(now[i] == rest[i]);
                assert(front[list[i]] == sides[list[i]]);
            }
        }
        places
    }
}

} // verus!
