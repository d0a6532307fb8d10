//! Running the sweeps: trying edits one after another on triangles that no
//! earlier edit has touched, and deciding after each pass how to go on.

use vstd::prelude::*;

use crate::algorithm::QualityTermination;
use crate::faces::sort_triple;
use crate::grouping::Grouping;
#[allow(unused_imports)]
use crate::grouping::{places_are_exact, places_of};
#[allow(unused_imports)]
use crate::incidence::{all_sides, sides_on};
use crate::incidence::{cell_sides, next_place, EdgeMap, Side};
#[allow(unused_imports)]
use crate::sorted::Key;
use crate::sorted::{same_key, SortedMap, SortedSet};
use crate::sweeps::{is_open_triangle, Signature};
#[allow(unused_imports)]
use crate::sweeps::{open_triangle, side_key, signature};
#[allow(unused_imports)]
use crate::topology::{cell_views, CellView};
use crate::topology::{ordered_pair, Cell, EdgeKey};
#[allow(unused_imports)]
use crate::topology::edge_key;

verus! {

/// An edit to try: an edge and the cells beside it.
#[derive(Debug)]
pub struct Turn {
    pub edge: EdgeKey,
    pub cells: Vec<usize>,
}

/// None of the cells has been touched.
pub open spec fn untouched(cells: Seq<usize>, touched: Set<usize>) -> bool {
    forall|i: int| 0 <= i < cells.len() ==> !touched.contains(#[trigger] cells[i])
}

/// The cells of a list.
pub open spec fn cells_in(cells: Seq<usize>) -> Set<usize> {
    cells.to_set()
}

/// What to do next in a run of edits.
#[derive(Debug, Clone, Copy, PartialEq, Eq, Structural)]
pub enum TurnStep {
    /// No edit is left.
    Done,
    /// The mesh may not grow any more.
    Limited,
    /// The edit at this place is to be tried.
    Try(usize),
}

/// A run of edits, in order, each on cells that no earlier edit has touched.
#[derive(Debug)]
pub struct TurnRun {
    pub turns: Vec<Turn>,
    pub place: usize,
    pub touched: SortedSet<usize>,
    pub changed: bool,
}

fn is_untouched(cells: &Vec<usize>, touched: &SortedSet<usize>) -> (result: bool)
    requires
        touched.wf(),
    ensures
        result == untouched(cells@, touched@),
{
    let mut i: usize = 0;
    while i < cells.len()
        invariant
            i <= cells.len(),
            touched.wf(),
            forall|k: int| 0 <= k < i ==> !touched@.contains(#[trigger] cells@[k]),
        decreases cells.len() - i,
    {
        if touched.contains(&cells[i]) {
            assert(touched@.contains(cells@[i as int]));
            return false;
        }
        i += 1;
    }
    true
}

impl TurnRun {
    pub open spec fn wf(self) -> bool {
        self.touched.wf() && self.place <= self.turns@.len()
    }

    pub fn new(turns: Vec<Turn>) -> (result: TurnRun)
        ensures
            result.wf(),
            result.turns@ == turns@,
            result.place == 0,
            result.touched@ == Set::<usize>::empty(),
            !result.changed,
    {
        TurnRun { turns, place: 0, touched: SortedSet::new(), changed: false }
    }

    /// Passes on to the next edit whose cells are untouched. Where an edit is
    /// left and the mesh is full, the run is at its limit.
    pub fn next(&mut self, full: bool) -> (result: TurnStep)
        requires
            old(self).wf(),
        ensures
            final(self).wf(),
            final(self).turns@ == old(self).turns@,
            final(self).touched@ == old(self).touched@,
            final(self).changed == old(self).changed,
            match result {
                TurnStep::Limited => full && old(self).place < old(self).turns@.len(),
                TurnStep::Done => old(self).place == old(self).turns@.len() || (!full && forall|
                    k: int,
                |
                    old(self).place <= k < old(self).turns@.len() ==> !untouched(
                        (#[trigger] old(self).turns@[k]).cells@,
                        old(self).touched@,
                    )),
                TurnStep::Try(place) => {
                    &&& !full
                    &&& final(self).place == place
                    &&& old(self).place <= place < old(self).turns@.len()
                    &&& untouched(old(self).turns@[place as int].cells@, old(self).touched@)
                    &&& forall|k: int|
                        old(self).place <= k < place ==> !untouched(
                            (#[trigger] old(self).turns@[k]).cells@,
                            old(self).touched@,
                        )
                },
            },
    {
        let count: usize = self.turns.len();
        if self.place < count && full {
            return TurnStep::Limited;
        }
        while self.place < count
            invariant
                self.wf(),
                count == self.turns@.len(),
                self.turns@ == old(self).turns@,
                self.touched@ == old(self).touched@,
                self.changed == old(self).changed,
                old(self).place <= self.place,
                self.place < count ==> !full,
                forall|k: int|
                    old(self).place <= k < self.place ==> !untouched(
                        (#[trigger] self.turns@[k]).cells@,
                        self.touched@,
                    ),
                old(self).place < self.place ==> !full,
            decreases count - self.place,
        {
            if is_untouched(&self.turns[self.place].cells, &self.touched) {
                return TurnStep::Try(self.place);
            }
            assert(!untouched(self.turns@[self.place as int].cells@, self.touched@));
            self.place = self.place + 1;
        }
        TurnStep::Done
    }

    /// Notes whether the edit at the current place was kept: its cells are
    /// touched then.
    pub fn settle(&mut self, kept: bool)
        requires
            old(self).wf(),
            old(self).place < old(self).turns@.len(),
        ensures
            final(self).wf(),
            final(self).turns@ == old(self).turns@,
            final(self).place == old(self).place + 1,
            final(self).changed == (old(self).changed || kept),
            final(self).touched@ == if kept {
                old(self).touched@.union(
                    cells_in(old(self).turns@[old(self).place as int].cells@),
                )
            } else {
                old(self).touched@
            },
    {
        let place: usize = self.place;
        let total: usize = self.turns.len();
        let ghost before = self.touched@;
        if kept {
            let ghost cells = self.turns@[place as int].cells@;
            let count: usize = self.turns[place].cells.len();
            let mut i: usize = 0;
            assert(before.union(cells_in(cells.take(0))) =~= before);
            while i < count
                invariant
                    i <= count,
                    count == cells.len(),
                    place < self.turns@.len(),
                    cells == self.turns@[place as int].cells@,
                    self.turns@ == old(self).turns@,
                    self.place == place,
                    self.changed == old(self).changed,
                    self.touched.wf(),
                    self.touched@ == before.union(cells_in(cells.take(i as int))),
                decreases count - i,
            {
                let cell: usize = self.turns[place].cells[i];
                self.touched.insert(cell);
                proof {
                    let less = cells.take(i as int);
                    let more = cells.take(i + 1);
                    assert(more =~= less.push(cell));
                    assert forall|other: usize| self.touched@.contains(other) <==> before.union(
                        cells_in(more),
                    ).contains(other) by {
                        assert(more[i as int] == cell);
                        if less.contains(other) {
                            let p = less.index_of(other);
                            assert(more[p] == other);
                        }
                        if more.contains(other) {
                            let p = more.index_of(other);
                            if p < i {
                                assert(less[p] == other);
                            }
                        }
                    }
                    assert(self.touched@ =~= before.union(cells_in(more)));
                }
                i += 1;
            }
            assert(cells.take(i as int) =~= cells);
            self.changed = true;
        }
        self.place = place + 1;
    }
}

/// No room is left for two more cells.
pub open spec fn mesh_full(cells: usize, max_cells: u64) -> bool {
    (if cells + 2 <= usize::MAX {
        cells + 2
    } else {
        usize::MAX as int
    }) > max_cells
}

pub fn is_mesh_full(cells: usize, max_cells: u64) -> (result: bool)
    ensures
        result == mesh_full(cells, max_cells),
{
    cells.saturating_add(2) as u64 > max_cells
}

/// The sides of the open triangles, each with its triangle, in order.
pub open spec fn open_sides_of(cells: Seq<CellView>) -> Seq<(EdgeKey, usize)>
    decreases cells.len(),
{
    if cells.len() == 0 {
        Seq::empty()
    } else {
        let rest = open_sides_of(cells.drop_last());
        let points = cells.last().points;
        let place = (cells.len() - 1) as usize;
        if open_triangle(cells.last()) {
            rest.push((side_key(points, 0), place)).push((side_key(points, 1), place)).push(
                (side_key(points, 2), place),
            )
        } else {
            rest
        }
    }
}

/// The edges of sides.
pub open spec fn side_edges(sides: Seq<(EdgeKey, usize)>) -> Seq<EdgeKey> {
    Seq::new(sides.len(), |i: int| sides[i].0)
}

/// The open triangles beside an edge, in order.
pub open spec fn open_beside(cells: Seq<CellView>, edge: EdgeKey) -> Seq<usize> {
    let sides = open_sides_of(cells);
    let places = places_of(side_edges(sides), edge);
    Seq::new(places.len(), |i: int| sides[places[i] as int].1)
}

/// The edge may be flipped: two open triangles lie beside it, and no constraint
/// holds it.
pub open spec fn flippable(
    cells: Seq<CellView>,
    constraints: Set<EdgeKey>,
    edge: EdgeKey,
) -> bool {
    open_beside(cells, edge).len() == 2 && !constraints.contains(edge)
}

/// The turn tries a flippable edge.
pub open spec fn flip_turn(cells: Seq<CellView>, constraints: Set<EdgeKey>, turn: Turn) -> bool {
    flippable(cells, constraints, turn.edge) && turn.cells@ == open_beside(cells, turn.edge)
}

/// The edges to try to flip, in order, each with the two triangles beside it.
pub fn flip_turns(cells: &Vec<Cell>, constraints: &SortedSet<EdgeKey>) -> (result: Vec<Turn>)
    requires
        constraints.wf(),
    ensures
        forall|i: int|
            0 <= i < result@.len() ==> flip_turn(
                cell_views(cells@),
                constraints@,
                #[trigger] result@[i],
            ),
        forall|i: int, j: int|
            0 <= i < j < result@.len() ==> (#[trigger] result@[i]).edge.before(
                (#[trigger] result@[j]).edge,
            ),
        forall|edge: EdgeKey| #[trigger]
            flippable(cell_views(cells@), constraints@, edge) ==> exists|i: int|
                0 <= i < result@.len() && (#[trigger] result@[i]).edge == edge,
{
    let ghost views = cell_views(cells@);
    let mut owners: Vec<usize> = Vec::new();
    let mut edges: Vec<EdgeKey> = Vec::new();
    let mut i: usize = 0;
    while i < cells.len()
        invariant
            i <= cells.len(),
            views == cell_views(cells@),
            owners@.len() == edges@.len(),
            owners@.len() == open_sides_of(views.take(i as int)).len(),
            forall|k: int|
                0 <= k < owners@.len() ==> (#[trigger] open_sides_of(views.take(i as int))[k]) == (
                    edges@[k],
                    owners@[k],
                ),
        decreases cells.len() - i,
    {
        proof {
            assert(views.take(i + 1).drop_last() =~= views.take(i as int));
            assert(views.take(i + 1).last() == cells@[i as int]@);
        }
        let cell = &cells[i];
        if is_open_triangle(cell) {
            owners.push(i);
            owners.push(i);
            owners.push(i);
            edges.push(ordered_pair(cell.points[0], cell.points[next_place(0, 3)]));
            edges.push(ordered_pair(cell.points[1], cell.points[next_place(1, 3)]));
            edges.push(ordered_pair(cell.points[2], cell.points[next_place(2, 3)]));
        }
        i += 1;
    }
    assert(views.take(i as int) =~= views);
    let ghost sides = open_sides_of(views);
    assert(edges@ =~= side_edges(sides));
    let total: usize = edges.len();
    let groups = Grouping::gather(&edges);
    let mut turns: Vec<Turn> = Vec::new();
    let mut g: usize = 0;
    while g < groups.groups.keys.len()
        invariant
            g <= groups.groups.keys@.len(),
            sides == open_sides_of(views),
            sides.len() == total,
            total <= usize::MAX,
            edges@ == side_edges(sides),
            owners@.len() == sides.len(),
            forall|k: int| 0 <= k < sides.len() ==> (#[trigger] sides[k]).1 == owners@[k],
            groups.gathers(side_edges(sides)),
            constraints.wf(),
            forall|k: int|
                0 <= k < turns@.len() ==> flip_turn(views, constraints@, #[trigger] turns@[k]),
            forall|k: int|
                0 <= k < turns@.len() ==> groups.groups.keys@.take(g as int).contains(
                    (#[trigger] turns@[k]).edge,
                ),
            forall|a: int, b: int|
                0 <= a < b < turns@.len() ==> (#[trigger] turns@[a]).edge.before(
                    (#[trigger] turns@[b]).edge,
                ),
            forall|k: int|
                0 <= k < g && flippable(
                    views,
                    constraints@,
                    #[trigger] groups.groups.keys@[k],
                ) ==> exists|t: int|
                    0 <= t < turns@.len() && (#[trigger] turns@[t]).edge == groups.groups.keys@[k],
        decreases groups.groups.keys@.len() - g,
    {
        let edge = groups.groups.keys[g];
        let places = &groups.groups.values[g];
        let ghost before = turns@;
        proof {
            groups.group_at(side_edges(sides), g as int);
            places_are_exact(side_edges(sides), edge);
            assert(places@ == places_of(side_edges(sides), edge));
            assert(open_beside(views, edge).len() == places@.len());
        }
        if places.len() == 2 && !constraints.contains(&edge) {
            let mut pair: Vec<usize> = Vec::new();
            pair.push(owners[places[0]]);
            pair.push(owners[places[1]]);
            assert(pair@ =~= open_beside(views, edge)) by {
                assert(sides[places@[0] as int].1 == owners@[places@[0] as int]);
                assert(sides[places@[1] as int].1 == owners@[places@[1] as int]);
            }
            turns.push(Turn { edge, cells: pair });
        }
        proof {
            let keys = groups.groups.keys@;
            assert forall|k: int| 0 <= k < turns@.len() implies keys.take(g + 1).contains(
                (#[trigger] turns@[k]).edge,
            ) by {
                if k < before.len() {
                    assert(before[k] == turns@[k]);
                    let p = keys.take(g as int).index_of(before[k].edge);
                    assert(keys.take(g as int).contains(before[k].edge));
                    assert(keys.take(g + 1)[p] == before[k].edge);
                } else {
                    assert(keys.take(g + 1)[g as int] == edge);
                }
            }
            assert forall|a: int, b: int| 0 <= a < b < turns@.len() implies (
            #[trigger] turns@[a]).edge.before((#[trigger] turns@[b]).edge) by {
                if b == before.len() {
                    assert(before[a] == turns@[a]);
                    let p = keys.take(g as int).index_of(before[a].edge);
                    assert(keys.take(g as int).contains(before[a].edge));
                    assert(keys[p] == before[a].edge);
                    assert(keys[p].before(keys[g as int]));
                } else {
                    assert(before[a] == turns@[a] && before[b] == turns@[b]);
                }
            }
            assert forall|k: int| 0 <= k < g + 1 && flippable(
                views,
                constraints@,
                #[trigger] keys[k],
            ) implies exists|t: int| 0 <= t < turns@.len() && (#[trigger] turns@[t]).edge
                == keys[k] by {
                if k < g {
                    let t = choose|t: int|
                        0 <= t < before.len() && (#[trigger] before[t]).edge == keys[k];
                    assert(turns@[t].edge == keys[k]);
                } else {
                    assert(turns@[before.len() as int].edge == edge);
                }
            }
        }
        g += 1;
    }
    proof {
        assert forall|edge: EdgeKey| #[trigger] flippable(views, constraints@, edge) implies exists|
            t: int,
        |
            0 <= t < turns@.len() && (#[trigger] turns@[t]).edge == edge by {
            assert(places_of(side_edges(sides), edge).len() > 0);
            assert(groups.groups@.dom().contains(edge));
            let k = groups.groups.keys@.index_of(edge);
            assert(groups.groups.keys@.contains(edge));
            assert(groups.groups.keys@[k] == edge);
        }
    }
    turns
}

/// The cells of sides.
pub open spec fn cells_of_sides(sides: Seq<Side>) -> Seq<usize> {
    Seq::new(sides.len(), |i: int| sides[i].cell)
}

/// The edges to try to split, in order, each with all cells beside it.
pub fn split_turns(cells: &Vec<Cell>, splits: &SortedSet<EdgeKey>) -> (result: Vec<Turn>)
    requires
        splits.wf(),
    ensures
        result@.len() == splits.items@.len(),
        forall|i: int|
            0 <= i < result@.len() ==> (#[trigger] result@[i]).edge == splits.items@[i]
                && result@[i].cells@ == cells_of_sides(
                sides_on(all_sides(cell_views(cells@)), splits.items@[i]),
            ),
{
    let ghost sides = all_sides(cell_views(cells@));
    let list = cell_sides(cells);
    let edges = EdgeMap::gather(&list);
    let mut turns: Vec<Turn> = Vec::new();
    let mut i: usize = 0;
    while i < splits.items.len()
        invariant
            i <= splits.items.len(),
            edges.gathers(sides),
            turns@.len() == i,
            forall|k: int|
                0 <= k < i ==> (#[trigger] turns@[k]).edge == splits.items@[k] && turns@[k].cells@
                    == cells_of_sides(sides_on(sides, splits.items@[k])),
        decreases splits.items.len() - i,
    {
        let edge = splits.items[i];
        let mut around: Vec<usize> = Vec::new();
        match edges.groups.get(&edge) {
            Some(found) => {
                let mut k: usize = 0;
                while k < found.len()
                    invariant
                        k <= found.len(),
                        around@ == cells_of_sides(found@).take(k as int),
                    decreases found.len() - k,
                {
                    around.push(found[k].cell);
                    assert(around@ =~= cells_of_sides(found@).take(k + 1));
                    k += 1;
                }
                assert(around@ =~= cells_of_sides(found@));
            },
            None => {
                assert(!edges.groups@.dom().contains(edge));
                assert(around@ =~= cells_of_sides(sides_on(sides, edge)));
            },
        }
        turns.push(Turn { edge, cells: around });
        i += 1;
    }
    turns
}

/// The place of the last triangle of that name among the first cells.
pub open spec fn last_named(cells: Seq<CellView>, name: Signature) -> Option<usize>
    decreases cells.len(),
{
    if cells.len() == 0 {
        None
    } else if cells.last().points.len() == 3 && signature(cells.last().points) == name {
        Some((cells.len() - 1) as usize)
    } else {
        last_named(cells.drop_last(), name)
    }
}

/// The places of triangles by name.
pub fn triangle_places(cells: &Vec<Cell>) -> (result: SortedMap<Signature, usize>)
    ensures
        result.wf(),
        forall|name: Signature| #[trigger]
            result@.dom().contains(name) <==> last_named(cell_views(cells@), name) is Some,
        forall|name: Signature| #[trigger]
            result@.dom().contains(name) ==> last_named(cell_views(cells@), name) == Some(
                result@[name],
            ),
{
    let ghost views = cell_views(cells@);
    let mut places = SortedMap::<Signature, usize>::new();
    let mut i: usize = 0;
    while i < cells.len()
        invariant
            i <= cells.len(),
            views == cell_views(cells@),
            places.wf(),
            forall|name: Signature| #[trigger]
                places@.dom().contains(name) <==> last_named(views.take(i as int), name) is Some,
            forall|name: Signature| #[trigger]
                places@.dom().contains(name) ==> last_named(views.take(i as int), name) == Some(
                    places@[name],
                ),
        decreases cells.len() - i,
    {
        let cell = &cells[i];
        let ghost before = places@;
        proof {
            assert(views.take(i + 1).drop_last() =~= views.take(i as int));
            assert(views.take(i + 1).last() == cell@);
        }
        if cell.points.len() == 3 {
            places.insert(sort_triple(cell.points[0], cell.points[1], cell.points[2]), i);
        }
        proof {
            assert forall|name: Signature| #[trigger] places@.dom().contains(name) <==> last_named(
                views.take(i + 1),
                name,
            ) is Some by {
                assert(before.dom().contains(name) <==> last_named(
                    views.take(i as int),
                    name,
                ) is Some);
            }
            assert forall|name: Signature| #[trigger] places@.dom().contains(name) implies
                last_named(views.take(i + 1), name) == Some(places@[name]) by {
                assert(before.dom().contains(name) ==> last_named(views.take(i as int), name)
                    == Some(before[name]));
            }
        }
        i += 1;
    }
    assert(views.take(i as int) =~= views);
    places
}

/// Whether a cell still is the triangle of that name.
pub fn still_named(cell: &Cell, name: Signature) -> (result: bool)
    ensures
        result == (cell@.points.len() == 3 && signature(cell@.points) == name),
{
    if cell.points.len() != 3 {
        return false;
    }
    let current = sort_triple(cell.points[0], cell.points[1], cell.points[2]);
    same_key(&current, &name)
}

/// The most passes of an optimisation.
pub const MAX_QUALITY_PASSES: usize = 64;

/// The most passes of them that may be outlier sweeps.
pub const MAX_OUTLIER_PASSES: usize = 10;

/// The most bytes that an optimisation may need.
pub const MAX_OPTIMIZATION_BYTES: usize = 536_870_912;

/// Where an optimisation stands: the passes made, and those of them that were
/// outlier sweeps.
#[derive(Debug, Clone, Copy, PartialEq, Eq, Structural)]
pub struct OptimizeRun {
    pub passes: usize,
    pub outlier_passes: usize,
    /// Passes that changed the mesh.
    pub quality_passes: usize,
}

/// What an optimisation does next.
#[derive(Debug, Clone, Copy, PartialEq, Eq, Structural)]
pub enum OptimizeStep {
    /// The size, flip and smoothing sweeps, one after the other.
    Sweep,
    /// An outlier sweep because the other sweeps changed nothing.
    Repair,
    /// An outlier sweep after the last full pass.
    Finish,
    Stop(QualityTermination),
}

/// The full passes that an optimisation may make.
pub open spec fn full_passes() -> int {
    MAX_QUALITY_PASSES - MAX_OUTLIER_PASSES
}

/// What a run does at the beginning of a pass.
pub open spec fn pass_step(run: OptimizeRun, bytes: usize) -> OptimizeStep {
    if run.passes >= full_passes() {
        if run.outlier_passes < MAX_OUTLIER_PASSES {
            OptimizeStep::Finish
        } else {
            OptimizeStep::Stop(QualityTermination::IterationLimit)
        }
    } else if bytes > MAX_OPTIMIZATION_BYTES {
        OptimizeStep::Stop(QualityTermination::MemoryBudget)
    } else {
        OptimizeStep::Sweep
    }
}

/// How an optimisation ends that changes nothing any more.
pub open spec fn settled_end(limited: bool, full: bool) -> QualityTermination {
    if limited || full {
        QualityTermination::MaxCells
    } else {
        QualityTermination::Converged
    }
}

impl OptimizeRun {
    pub open spec fn wf(self) -> bool {
        &&& self.passes <= full_passes()
        &&& self.outlier_passes <= MAX_OUTLIER_PASSES
        &&& self.quality_passes <= self.passes + self.outlier_passes
    }

    pub fn new() -> (result: OptimizeRun)
        ensures
            result.wf(),
            result == (OptimizeRun { passes: 0, outlier_passes: 0, quality_passes: 0 }),
    {
        OptimizeRun { passes: 0, outlier_passes: 0, quality_passes: 0 }
    }

    /// What to do at the beginning of a pass, given the bytes it would need.
    pub fn begin(&self, bytes: usize) -> (result: OptimizeStep)
        requires
            self.wf(),
        ensures
            result == pass_step(*self, bytes),
    {
        if self.passes >= MAX_QUALITY_PASSES - MAX_OUTLIER_PASSES {
            if self.outlier_passes < MAX_OUTLIER_PASSES {
                OptimizeStep::Finish
            } else {
                OptimizeStep::Stop(QualityTermination::IterationLimit)
            }
        } else if bytes > MAX_OPTIMIZATION_BYTES {
            OptimizeStep::Stop(QualityTermination::MemoryBudget)
        } else {
            OptimizeStep::Sweep
        }
    }

    /// What to do after the three sweeps of a pass: `None` where the pass is
    /// over and another may begin.
    pub fn after_sweeps(&mut self, changed: bool, limited: bool, full: bool) -> (result: Option<
        OptimizeStep,
    >)
        requires
            old(self).wf(),
            old(self).passes < full_passes(),
        ensures
            final(self).wf(),
            changed ==> result is None && *final(self) == (OptimizeRun {
                passes: (old(self).passes + 1) as usize,
                quality_passes: (old(self).quality_passes + 1) as usize,
                ..*old(self)
            }),
            !changed ==> *final(self) == *old(self),
            !changed && old(self).outlier_passes < MAX_OUTLIER_PASSES ==> result == Some(
                OptimizeStep::Repair,
            ),
            !changed && old(self).outlier_passes >= MAX_OUTLIER_PASSES ==> result == Some(
                OptimizeStep::Stop(settled_end(limited, full)),
            ),
    {
        if changed {
            self.passes = self.passes + 1;
            self.quality_passes = self.quality_passes + 1;
            None
        } else if self.outlier_passes < MAX_OUTLIER_PASSES {
            Some(OptimizeStep::Repair)
        } else if limited || full {
            Some(OptimizeStep::Stop(QualityTermination::MaxCells))
        } else {
            Some(OptimizeStep::Stop(QualityTermination::Converged))
        }
    }

    /// What to do after the outlier sweep of a pass whose other sweeps changed
    /// nothing: `None` where another pass may begin.
    pub fn after_repair(&mut self, repaired: bool, limited: bool, full: bool) -> (result: Option<
        OptimizeStep,
    >)
        requires
            old(self).wf(),
            old(self).passes < full_passes(),
            old(self).outlier_passes < MAX_OUTLIER_PASSES,
        ensures
            final(self).wf(),
            repaired ==> result is None && *final(self) == (OptimizeRun {
                passes: (old(self).passes + 1) as usize,
                outlier_passes: (old(self).outlier_passes + 1) as usize,
                quality_passes: (old(self).quality_passes + 1) as usize,
            }),
            !repaired ==> *final(self) == *old(self) && result == Some(
                OptimizeStep::Stop(settled_end(limited, full)),
            ),
    {
        if repaired {
            self.passes = self.passes + 1;
            self.outlier_passes = self.outlier_passes + 1;
            self.quality_passes = self.quality_passes + 1;
            None
        } else if limited || full {
            Some(OptimizeStep::Stop(QualityTermination::MaxCells))
        } else {
            Some(OptimizeStep::Stop(QualityTermination::Converged))
        }
    }

    /// What to do after an outlier sweep behind the last full pass: `None`
    /// where another may follow.
    pub fn after_finish(&mut self, repaired: bool) -> (result: Option<OptimizeStep>)
        requires
            old(self).wf(),
            old(self).passes == full_passes(),
            old(self).outlier_passes < MAX_OUTLIER_PASSES,
        ensures
            final(self).wf(),
            repaired ==> result is None && *final(self) == (OptimizeRun {
                outlier_passes: (old(self).outlier_passes + 1) as usize,
                quality_passes: (old(self).quality_passes + 1) as usize,
                ..*old(self)
            }),
            !repaired ==> *final(self) == *old(self) && result == Some(
                OptimizeStep::Stop(QualityTermination::IterationLimit),
            ),
    {
        if repaired {
            self.outlier_passes = self.outlier_passes + 1;
            self.quality_passes = self.quality_passes + 1;
            None
        } else {
            Some(OptimizeStep::Stop(QualityTermination::IterationLimit))
        }
    }
}

/// An optimisation ends: its passes of either kind are counted, and no run has
/// counted more than it may make.
pub proof fn optimisation_ends(run: OptimizeRun)
    requires
        run.wf(),
    ensures
        run.quality_passes <= MAX_QUALITY_PASSES,
        run.passes <= full_passes(),
        run.outlier_passes <= MAX_OUTLIER_PASSES,
{
}

/// The open triangles beside an edge are those that have it as a side.
pub proof fn triangles_beside_edge_are_open(cells: Seq<CellView>, edge: EdgeKey, k: int)
    requires
        3 * cells.len() <= usize::MAX,
        0 <= k < open_beside(cells, edge).len(),
    ensures
        ({
            let place = open_beside(cells, edge)[k];
            &&& place < cells.len()
            &&& !cells[place as int].protected
            &&& cells[place as int].points.len() == 3
            &&& exists|side: int|
                0 <= side < 3 && edge_key(
                    cells[place as int].points[side],
                    #[trigger] cells[place as int].points[(side + 1) % 3],
                ) == edge
        }),
{
    let sides = open_sides_of(cells);
    open_sides_stand(cells);
    places_are_exact(side_edges(sides), edge);
    let places = places_of(side_edges(sides), edge);
    let at = places[k] as int;
    assert(side_edges(sides)[at] == edge);
    let (key, place) = sides[at];
    let side = choose|side: int|
        0 <= side < 3 && #[trigger] side_key(cells[place as int].points, side) == key;
    assert(cells[place as int].points[(side + 1) % 3] == cells[place as int].points[(side + 1) % 3]);
}

proof fn open_sides_stand(cells: Seq<CellView>)
    requires
        3 * cells.len() <= usize::MAX,
    ensures
        open_sides_of(cells).len() <= 3 * cells.len(),
        forall|i: int|
            0 <= i < open_sides_of(cells).len() ==> {
                let (key, place) = #[trigger] open_sides_of(cells)[i];
                &&& place < cells.len()
                &&& open_triangle(cells[place as int])
                &&& exists|side: int|
                    0 <= side < 3 && #[trigger] side_key(cells[place as int].points, side) == key
            },
    decreases cells.len(),
{
    if cells.len() > 0 {
        let front = cells.drop_last();
        open_sides_stand(front);
        let rest = open_sides_of(front);
        let sides = open_sides_of(cells);
        let n = front.len() as int;
        assert forall|i: int| 0 <= i < sides.len() implies {
            let (key, place) = #[trigger] sides[i];
            &&& place < cells.len()
            &&& open_triangle(cells[place as int])
            &&& exists|side: int|
                0 <= side < 3 && #[trigger] side_key(cells[place as int].points, side) == key
        } by {
            if i < rest.len() {
                assert(sides[i] == rest[i]);
                let (key, place) = rest[i];
                assert(front[place as int] == cells[place as int]);
                let side = choose|side: int|
                    0 <= side < 3 && #[trigger] side_key(front[place as int].points, side) == key;
                assert(side_key(cells[place as int].points, side) == key);
            } else {
                let side = i - rest.len();
                assert(cells[n] == cells.last());
                assert(side_key(cells[n].points, side) == sides[i].0);
            }
        }
    }
}

/// The last triangle of a name is found.
pub proof fn last_named_is_last(cells: Seq<CellView>, name: Signature)
    requires
        cells.len() <= usize::MAX,
    ensures
        match last_named(cells, name) {
            Some(place) => place < cells.len() && cells[place as int].points.len() == 3
                && signature(cells[place as int].points) == name && forall|i: int|
                place < i < cells.len() ==> !((#[trigger] cells[i]).points.len() == 3 && signature(
                    cells[i].points,
                ) == name),
            None => forall|i: int|
                0 <= i < cells.len() ==> !((#[trigger] cells[i]).points.len() == 3 && signature(
                    cells[i].points,
                ) == name),
        },
    decreases cells.len(),
{
    if cells.len() > 0 {
        let front = cells.drop_last();
        let n = front.len() as int;
        last_named_is_last(front, name);
        assert(cells[n] == cells.last());
        if !(cells[n].points.len() == 3 && signature(cells[n].points) == name) {
            if let Some(place) = last_named(front, name) {
                assert(front[place as int] == cells[place as int]);
                assert forall|i: int| place < i < cells.len() implies !((
                #[trigger] cells[i]).points.len() == 3 && signature(cells[i].points) == name) by {
                    if i < n {
                        assert(front[i] == cells[i]);
                    }
                }
            } else {
                assert forall|i: int| 0 <= i < cells.len() implies !((
                #[trigger] cells[i]).points.len() == 3 && signature(cells[i].points) == name) by {
                    if i < n {
                        assert(front[i] == cells[i]);
                    }
                }
            }
        }
    }
}

/// The mesh is full exactly where two more cells would pass the limit.
pub proof fn full_mesh_has_no_room(cells: usize, max_cells: u64)
    ensures
        !mesh_full(cells, max_cells) ==> cells + 2 <= max_cells || usize::MAX <= max_cells,
        cells + 2 <= usize::MAX ==> (mesh_full(cells, max_cells) <==> cells + 2 > max_cells),
        max_cells < 2 ==> mesh_full(cells, max_cells),
{
}

/// A run sweeps while it has passes left and the mesh fits the memory, and otherwise comes to an
/// end: passes that are used up end it before memory does.
pub proof fn run_sweeps_while_it_may(run: OptimizeRun, bytes: usize)
    ensures
        pass_step(run, bytes) is Sweep <==> run.passes < full_passes() && bytes
            <= MAX_OPTIMIZATION_BYTES,
        pass_step(run, bytes) == OptimizeStep::Stop(QualityTermination::MemoryBudget) <==> run.passes
            < full_passes() && bytes > MAX_OPTIMIZATION_BYTES,
        pass_step(run, bytes) is Finish <==> run.passes >= full_passes() && run.outlier_passes
            < MAX_OUTLIER_PASSES,
        pass_step(run, bytes) == OptimizeStep::Stop(QualityTermination::IterationLimit) <==> run.passes
            >= full_passes() && run.outlier_passes >= MAX_OUTLIER_PASSES,
{
}

} // verus!
