//! Points, cells and the edits that keep a 2D mesh connected.

use vstd::prelude::*;

use crate::number::{Real, Vector3};
use crate::quadtree::{Lattice, Leaf};
use crate::sorted::{same_key, Key, SortedMap, SortedSet};

verus! {

/// The Scaled Jacobian below which a cell is not valid: `1.0e-8`.
pub const VALID_QUALITY_BITS: u64 = 0x3e45_798e_e230_8c3a;

/// What names a point: a lattice point, the crossing of the boundary with a
/// lattice edge, or a point inserted later.
#[derive(Debug, Clone, Copy, PartialEq, Eq, Structural)]
pub enum PointKey {
    Lattice(Lattice),
    Crossing(Lattice, Lattice),
    Inserted(u64),
}

impl Key for PointKey {
    /// Lattice points come first, then crossings, then inserted points.
    open spec fn before(self, other: Self) -> bool {
        match (self, other) {
            (PointKey::Lattice(a), PointKey::Lattice(b)) => a.before(b),
            (PointKey::Lattice(_), _) => true,
            (PointKey::Crossing(a, b), PointKey::Crossing(c, d)) => a.before(c) || (a == c
                && b.before(d)),
            (PointKey::Crossing(_, _), PointKey::Inserted(_)) => true,
            (PointKey::Inserted(a), PointKey::Inserted(b)) => a < b,
            _ => false,
        }
    }

    proof fn irreflexive(a: Self) {
    }

    proof fn transitive(a: Self, b: Self, c: Self) {
    }

    proof fn total(a: Self, b: Self) {
    }

    fn precedes(&self, other: &Self) -> (result: bool) {
        match (self, other) {
            (PointKey::Lattice(a), PointKey::Lattice(b)) => a.precedes(b),
            (PointKey::Lattice(_), _) => true,
            (PointKey::Crossing(a, b), PointKey::Crossing(c, d)) => a.precedes(c) || (same_key(a, c)
                && b.precedes(d)),
            (PointKey::Crossing(_, _), PointKey::Inserted(_)) => true,
            (PointKey::Inserted(a), PointKey::Inserted(b)) => *a < *b,
            _ => false,
        }
    }
}

pub type EdgeKey = (PointKey, PointKey);

/// The two ends of an edge, the smaller one first.
pub open spec fn edge_key(a: PointKey, b: PointKey) -> EdgeKey {
    if b.before(a) {
        (b, a)
    } else {
        (a, b)
    }
}

pub fn ordered_pair(a: PointKey, b: PointKey) -> (result: EdgeKey)
    ensures
        result == edge_key(a, b),
{
    if b.precedes(&a) {
        (b, a)
    } else {
        (a, b)
    }
}

/// An edge has one name, whichever end is named first.
pub proof fn edge_key_is_symmetric(a: PointKey, b: PointKey)
    ensures
        edge_key(a, b) == edge_key(b, a),
{
    PointKey::total(a, b);
    if a.before(b) && b.before(a) {
        PointKey::transitive(a, b, a);
        PointKey::irreflexive(a);
    }
}

/// An edge's name tells its ends.
pub proof fn edge_key_tells_ends(a: PointKey, b: PointKey, c: PointKey, d: PointKey)
    ensures
        edge_key(a, b) == edge_key(c, d) ==> (a == c && b == d) || (a == d && b == c),
{
}

/// A point of a 2D mesh.
#[derive(Debug, Clone, Copy)]
pub struct Point {
    pub uv: [Real; 2],
    pub world: Vector3,
    pub boundary: bool,
    pub protected: bool,
}

/// A triangle or a quad.
#[derive(Debug)]
pub struct Cell {
    pub points: Vec<PointKey>,
    pub leaf: Leaf,
    pub protected: bool,
}

/// What a cell is: its points in order, the leaf it came from, and whether
/// edits must leave it alone.
#[verifier::ext_equal]
pub struct CellView {
    pub points: Seq<PointKey>,
    pub leaf: Leaf,
    pub protected: bool,
}

impl View for Cell {
    type V = CellView;

    open spec fn view(&self) -> CellView {
        CellView { points: self.points@, leaf: self.leaf, protected: self.protected }
    }
}

impl Cell {
    pub fn triangle(points: [PointKey; 3], leaf: Leaf) -> (result: Cell)
        ensures
            result@ == (CellView { points: points@, leaf, protected: false }),
    {
        let mut list: Vec<PointKey> = Vec::new();
        list.push(points[0]);
        list.push(points[1]);
        list.push(points[2]);
        assert(list@ =~= points@);
        Cell { points: list, leaf, protected: false }
    }

    pub fn quad(points: [PointKey; 4], leaf: Leaf, protected: bool) -> (result: Cell)
        ensures
            result@ == (CellView { points: points@, leaf, protected }),
    {
        let mut list: Vec<PointKey> = Vec::new();
        list.push(points[0]);
        list.push(points[1]);
        list.push(points[2]);
        list.push(points[3]);
        assert(list@ =~= points@);
        Cell { points: list, leaf, protected }
    }

    pub fn copy(&self) -> (result: Cell)
        ensures
            result@ == self@,
    {
        let points = self.points.clone();
        assert(points@ =~= self.points@);
        Cell { points, leaf: self.leaf, protected: self.protected }
    }

    pub fn element_type(&self) -> (result: &'static str)
        requires
            self.points@.len() == 3 || self.points@.len() == 4,
        ensures
            result@ == (if self.points@.len() == 3 {
                "tri3"@
            } else {
                "quad4"@
            }),
    {
        if self.points.len() == 3 {
            "tri3"
        } else {
            "quad4"
        }
    }
}

/// The cells of a list, by what they are.
pub open spec fn cell_views(cells: Seq<Cell>) -> Seq<CellView> {
    cells.map_values(|cell: Cell| cell@)
}

/// A mesh in the making.
#[derive(Debug)]
pub struct Candidate {
    pub points: SortedMap<PointKey, Point>,
    pub cells: Vec<Cell>,
    pub construction_failures: SortedSet<Leaf>,
    pub next_inserted: u64,
    pub layer_edge_targets: SortedMap<EdgeKey, Real>,
}

/// The cell has three or four points, each of them known.
pub open spec fn cell_known(cell: CellView, points: Map<PointKey, Point>) -> bool {
    &&& cell.points.len() == 3 || cell.points.len() == 4
    &&& forall|i: int| 0 <= i < cell.points.len() ==> points.dom().contains(#[trigger] cell.points[i])
}

/// Every cell of the list is a triangle or a quad of known points.
pub open spec fn cells_known(cells: Seq<CellView>, points: Map<PointKey, Point>) -> bool {
    forall|i: int| 0 <= i < cells.len() ==> cell_known(#[trigger] cells[i], points)
}

impl Candidate {
    pub open spec fn wf(self) -> bool {
        &&& self.points.wf()
        &&& self.construction_failures.wf()
        &&& self.layer_edge_targets.wf()
        &&& cells_known(self.cells_view(), self.points@)
    }

    pub open spec fn cells_view(self) -> Seq<CellView> {
        cell_views(self.cells@)
    }

    /// The next insertion finds a fresh name.
    pub open spec fn fresh(self) -> bool {
        self.next_inserted < u64::MAX && forall|n: u64|
            n >= self.next_inserted ==> !(#[trigger] self.points@.dom().contains(
                PointKey::Inserted(n),
            ))
    }

    pub fn new() -> (result: Candidate)
        ensures
            result.wf(),
            result.fresh(),
            result.points@ == Map::<PointKey, Point>::empty(),
            result.cells@.len() == 0,
            result.construction_failures@ == Set::<Leaf>::empty(),
            result.next_inserted == 1,
            result.layer_edge_targets@ == Map::<EdgeKey, Real>::empty(),
    {
        Candidate {
            points: SortedMap::new(),
            cells: Vec::new(),
            construction_failures: SortedSet::new(),
            next_inserted: 1,
            layer_edge_targets: SortedMap::new(),
        }
    }
}

pub fn contains_point(points: &Vec<PointKey>, key: PointKey) -> (result: bool)
    ensures
        result == points@.contains(key),
{
    let mut i: usize = 0;
    while i < points.len()
        invariant
            i <= points.len(),
            forall|k: int| 0 <= k < i ==> points[k] != key,
        decreases points.len() - i,
    {
        if same_key(&points[i], &key) {
            assert(points@[i as int] == key);
            return true;
        }
        i = i + 1;
    }
    false
}

pub open spec fn holds_both(cell: CellView, a: PointKey, b: PointKey) -> bool {
    cell.points.contains(a) && cell.points.contains(b)
}

/// The places of the cells that hold both points, in order.
pub open spec fn cells_on_edge(cells: Seq<CellView>, a: PointKey, b: PointKey) -> Seq<usize>
    decreases cells.len(),
{
    if cells.len() == 0 {
        Seq::empty()
    } else {
        let rest = cells_on_edge(cells.drop_last(), a, b);
        if holds_both(cells.last(), a, b) {
            rest.push((cells.len() - 1) as usize)
        } else {
            rest
        }
    }
}

/// The places are in range, in order, and exactly those of the cells on the
/// edge.
pub proof fn cells_on_edge_places(cells: Seq<CellView>, a: PointKey, b: PointKey)
    requires
        cells.len() <= usize::MAX,
    ensures
        forall|i: int|
            0 <= i < cells_on_edge(cells, a, b).len() ==> (#[trigger] cells_on_edge(cells, a, b)[i])
                < cells.len() && holds_both(cells[cells_on_edge(cells, a, b)[i] as int], a, b),
        forall|i: int, j: int|
            0 <= i < j < cells_on_edge(cells, a, b).len() ==> (#[trigger] cells_on_edge(
                cells,
                a,
                b,
            )[i]) < (#[trigger] cells_on_edge(cells, a, b)[j]),
        forall|k: int|
            0 <= k < cells.len() && holds_both(#[trigger] cells[k], a, b) ==> cells_on_edge(
                cells,
                a,
                b,
            ).contains(k as usize),
    decreases cells.len(),
{
    if cells.len() > 0 {
        let front = cells.drop_last();
        let rest = cells_on_edge(front, a, b);
        let all = cells_on_edge(cells, a, b);
        cells_on_edge_places(front, a, b);
        assert forall|i: int| 0 <= i < all.len() implies (#[trigger] all[i]) < cells.len()
            && holds_both(cells[all[i] as int], a, b) by {
            if i < rest.len() {
                assert(all[i] == rest[i]);
                assert(front[rest[i] as int] == cells[rest[i] as int]);
            }
        }
        assert forall|k: int| 0 <= k < cells.len() && holds_both(#[trigger] cells[k], a, b) implies all.contains(
            k as usize,
        ) by {
            if k < front.len() {
                assert(front[k] == cells[k]);
                assert(rest.contains(k as usize));
                let i = rest.index_of(k as usize);
                assert(all[i] == k as usize);
            } else {
                assert(all[all.len() - 1] == k as usize);
            }
        }
    }
}

/// The cells that hold both ends of an edge.
pub fn edge_cells(cells: &Vec<Cell>, a: PointKey, b: PointKey) -> (result: Vec<usize>)
    ensures
        result@ == cells_on_edge(cell_views(cells@), a, b),
        forall|i: int|
            0 <= i < result.len() ==> (#[trigger] result[i]) < cells.len() && holds_both(
                cell_views(cells@)[result[i] as int],
                a,
                b,
            ),
        forall|i: int, j: int|
            0 <= i < j < result.len() ==> (#[trigger] result[i]) < (#[trigger] result[j]),
{
    let mut list: Vec<usize> = Vec::new();
    let mut i: usize = 0;
    let ghost views = cell_views(cells@);
    while i < cells.len()
        invariant
            i <= cells.len(),
            views == cell_views(cells@),
            list@ == cells_on_edge(views.take(i as int), a, b),
        decreases cells.len() - i,
    {
        assert(views.take(i as int + 1).drop_last() =~= views.take(i as int));
        assert(views[i as int] == cells[i as int]@);
        if contains_point(&cells[i].points, a) && contains_point(&cells[i].points, b) {
            list.push(i);
        }
        i = i + 1;
    }
    assert(views.take(i as int) =~= views);
    proof {
        cells_on_edge_places(views, a, b);
    }
    list
}

/// The first point at or after a place that is neither of the two.
pub open spec fn other_from(points: Seq<PointKey>, a: PointKey, b: PointKey, from: int) -> Option<
    PointKey,
>
    decreases points.len() - from,
{
    if from < 0 || from >= points.len() {
        None
    } else if points[from] != a && points[from] != b {
        Some(points[from])
    } else {
        other_from(points, a, b, from + 1)
    }
}

/// The first point of a cell that is neither of the two.
pub open spec fn other_point(points: Seq<PointKey>, a: PointKey, b: PointKey) -> Option<PointKey> {
    other_from(points, a, b, 0)
}

pub(crate) proof fn other_from_is_there(points: Seq<PointKey>, a: PointKey, b: PointKey, from: int)
    requires
        0 <= from,
    ensures
        other_from(points, a, b, from) matches Some(c) ==> points.contains(c) && c != a && c != b,
    decreases points.len() - from,
{
    if from < points.len() {
        other_from_is_there(points, a, b, from + 1);
    }
}

pub fn find_other(points: &Vec<PointKey>, a: PointKey, b: PointKey) -> (result: Option<PointKey>)
    ensures
        result == other_point(points@, a, b),
        result matches Some(c) ==> points@.contains(c) && c != a && c != b,
{
    proof {
        other_from_is_there(points@, a, b, 0);
    }
    let mut i: usize = 0;
    while i < points.len()
        invariant
            i <= points.len(),
            other_point(points@, a, b) == other_from(points@, a, b, i as int),
            other_point(points@, a, b) matches Some(c) ==> points@.contains(c) && c != a && c != b,
        decreases points.len() - i,
    {
        if !same_key(&points[i], &a) && !same_key(&points[i], &b) {
            return Some(points[i]);
        }
        i = i + 1;
    }
    None
}

/// The triangle, or its mirror image.
pub open spec fn turned(triangle: Seq<PointKey>, reversed: bool) -> Seq<PointKey> {
    if reversed {
        seq![triangle[0], triangle[2], triangle[1]]
    } else {
        triangle
    }
}

/// Swaps the last two points where the triangle was found to be clockwise.
pub fn orient_triangle(triangle: [PointKey; 3], clockwise: bool) -> (result: [PointKey; 3])
    ensures
        result@ == turned(triangle@, clockwise),
{
    if clockwise {
        let result = [triangle[0], triangle[2], triangle[1]];
        assert(result@ =~= turned(triangle@, clockwise));
        result
    } else {
        triangle
    }
}

} // verus!
