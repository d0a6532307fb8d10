//! How an octree leaf is cut into tetrahedra that meet those of its neighbours.

use vstd::prelude::*;

#[allow(unused_imports)]
use crate::octree::{
    deeper, inner_leaf_divides, middle, neighbor_of, owner_of, side_deeper, upper_half, within,
};
use crate::octree::{midpoint, Grid, Lattice, Leaf, LeafIndex};
use crate::quadtree::power;
use crate::sorted::Key;

verus! {

/// The coordinate of the fine cell just below the middle of two corners.
pub open spec fn below_middle(p: int, q: int) -> int {
    (p + q - 1) / 2
}

/// The value is that of a fine cell on one side of the plane.
pub open spec fn beside(value: int, plane: int, limit: int) -> bool {
    (value == plane - 1 && plane > 0) || (value == plane && plane < limit)
}

/// The fine cell lies at the middle of the edge from `a` to `b`: along the
/// edge just below its middle, across it on either side.
pub open spec fn touches_edge(grid: Grid, a: Lattice, b: Lattice, cell: (int, int, int)) -> bool {
    let (x, y, z) = cell;
    let beside_x = beside(x, a.x as int / 2, grid.width());
    let beside_y = beside(y, a.y as int / 2, grid.height());
    let beside_z = beside(z, a.z as int / 2, grid.depth());
    if a.x / 2 != b.x / 2 {
        x == below_middle(a.x as int / 2, b.x as int / 2) && beside_y && beside_z
    } else if a.y / 2 != b.y / 2 {
        y == below_middle(a.y as int / 2, b.y as int / 2) && beside_x && beside_z
    } else if a.z / 2 != b.z / 2 {
        z == below_middle(a.z as int / 2, b.z as int / 2) && beside_x && beside_y
    } else {
        false
    }
}

/// Some leaf deeper than the level lies at the middle of the edge.
pub open spec fn edge_deeper(grid: Grid, leaves: Set<Leaf>, a: Lattice, b: Lattice, level: int) -> bool {
    exists|x: int, y: int, z: int|
        touches_edge(grid, a, b, (x, y, z)) && deeper(
            #[trigger] owner_of(grid, leaves, x, y, z),
            level,
        )
}

/// The point lies in the grid.
pub open spec fn lies_in(grid: Grid, a: Lattice) -> bool {
    a.x / 2 <= grid.width() && a.y / 2 <= grid.height() && a.z / 2 <= grid.depth()
}

impl LeafIndex {
    fn deeper_at(&self, x: u64, y: u64, z: u64, level: u8) -> (result: bool)
        requires
            self.wf(),
            x < self.grid.width(),
            y < self.grid.height(),
            z < self.grid.depth(),
        ensures
            result == deeper(
                owner_of(self.grid, self.leaves@, x as int, y as int, z as int),
                level as int,
            ),
    {
        match self.owner(x, y, z) {
            Some(leaf) => leaf.level > level,
            None => false,
        }
    }

    /// Whether a smaller leaf lies at the middle of an edge of the leaf.
    pub fn edge_has_finer(&self, leaf: Leaf, a: Lattice, b: Lattice) -> (result: bool)
        requires
            self.wf(),
            lies_in(self.grid, a),
            lies_in(self.grid, b),
        ensures
            result == edge_deeper(self.grid, self.leaves@, a, b, leaf.level as int),
    {
        let fine: u64 = power(self.grid.max_depth);
        let width: u64 = self.grid.columns as u64 * fine;
        let height: u64 = self.grid.rows as u64 * fine;
        let depth: u64 = self.grid.layers as u64 * fine;
        let level: u8 = leaf.level;
        let (ax, ay, az): (u64, u64, u64) = (a.x / 2, a.y / 2, a.z / 2);
        let (bx, by, bz): (u64, u64, u64) = (b.x / 2, b.y / 2, b.z / 2);
        if ax != bx {
            let x: u64 = (ax + bx - 1) / 2;
            let near = ay > 0 && ((az > 0 && self.deeper_at(x, ay - 1, az - 1, level)) || (az < depth
                && self.deeper_at(x, ay - 1, az, level)));
            let far = ay < height && ((az > 0 && self.deeper_at(x, ay, az - 1, level)) || (az
                < depth && self.deeper_at(x, ay, az, level)));
            near || far
        } else if ay != by {
            let y: u64 = (ay + by - 1) / 2;
            let near = ax > 0 && ((az > 0 && self.deeper_at(ax - 1, y, az - 1, level)) || (az < depth
                && self.deeper_at(ax - 1, y, az, level)));
            let far = ax < width && ((az > 0 && self.deeper_at(ax, y, az - 1, level)) || (az < depth
                && self.deeper_at(ax, y, az, level)));
            near || far
        } else if az != bz {
            let z: u64 = (az + bz - 1) / 2;
            let near = ax > 0 && ((ay > 0 && self.deeper_at(ax - 1, ay - 1, z, level)) || (ay
                < height && self.deeper_at(ax - 1, ay, z, level)));
            let far = ax < width && ((ay > 0 && self.deeper_at(ax, ay - 1, z, level)) || (ay < height
                && self.deeper_at(ax, ay, z, level)));
            near || far
        } else {
            false
        }
    }
}

/// The corners of a side of a leaf, counterclockwise from outside.
pub open spec fn face_of(corners: Seq<Lattice>, side: int) -> Seq<Lattice> {
    if side == 0 {
        seq![corners[0], corners[3], corners[2], corners[1]]
    } else if side == 1 {
        seq![corners[4], corners[5], corners[6], corners[7]]
    } else if side == 2 {
        seq![corners[0], corners[1], corners[5], corners[4]]
    } else if side == 3 {
        seq![corners[1], corners[2], corners[6], corners[5]]
    } else if side == 4 {
        seq![corners[2], corners[3], corners[7], corners[6]]
    } else {
        seq![corners[3], corners[0], corners[4], corners[7]]
    }
}

pub fn leaf_faces(corners: &[Lattice; 8]) -> (result: [[Lattice; 4]; 6])
    ensures
        forall|side: int| 0 <= side < 6 ==> (#[trigger] result[side])@ == face_of(corners@, side),
{
    let bottom = [corners[0], corners[3], corners[2], corners[1]];
    let top = [corners[4], corners[5], corners[6], corners[7]];
    let front = [corners[0], corners[1], corners[5], corners[4]];
    let right = [corners[1], corners[2], corners[6], corners[5]];
    let back = [corners[2], corners[3], corners[7], corners[6]];
    let left = [corners[3], corners[0], corners[4], corners[7]];
    assert(bottom@ =~= face_of(corners@, 0));
    assert(top@ =~= face_of(corners@, 1));
    assert(front@ =~= face_of(corners@, 2));
    assert(right@ =~= face_of(corners@, 3));
    assert(back@ =~= face_of(corners@, 4));
    assert(left@ =~= face_of(corners@, 5));
    [bottom, top, front, right, back, left]
}

/// The tetrahedra of a leaf whose neighbours all have its size: six around
/// one diagonal.
pub open spec fn regular_cut(corners: Seq<Lattice>) -> Seq<Seq<Lattice>> {
    seq![
        seq![corners[0], corners[1], corners[2], corners[6]],
        seq![corners[0], corners[2], corners[3], corners[6]],
        seq![corners[0], corners[3], corners[7], corners[6]],
        seq![corners[0], corners[7], corners[4], corners[6]],
        seq![corners[0], corners[4], corners[5], corners[6]],
        seq![corners[0], corners[5], corners[1], corners[6]],
    ]
}

pub fn regular_tetrahedra(corners: &[Lattice; 8]) -> (result: [[Lattice; 4]; 6])
    ensures
        forall|i: int| 0 <= i < 6 ==> (#[trigger] result[i])@ == regular_cut(corners@)[i],
{
    let first = [corners[0], corners[1], corners[2], corners[6]];
    let second = [corners[0], corners[2], corners[3], corners[6]];
    let third = [corners[0], corners[3], corners[7], corners[6]];
    let fourth = [corners[0], corners[7], corners[4], corners[6]];
    let fifth = [corners[0], corners[4], corners[5], corners[6]];
    let sixth = [corners[0], corners[5], corners[1], corners[6]];
    assert(first@ =~= regular_cut(corners@)[0]);
    assert(second@ =~= regular_cut(corners@)[1]);
    assert(third@ =~= regular_cut(corners@)[2]);
    assert(fourth@ =~= regular_cut(corners@)[3]);
    assert(fifth@ =~= regular_cut(corners@)[4]);
    assert(sixth@ =~= regular_cut(corners@)[5]);
    [first, second, third, fourth, fifth, sixth]
}

/// A side meets a leaf of another size.
pub open spec fn uneven(grid: Grid, leaves: Set<Leaf>, leaf: Leaf, side: int) -> bool {
    exists|place: int|
        0 <= place < 4 && (#[trigger] neighbor_of(grid, leaves, leaf, side, place) matches Some(
            other,
        ) && other.level != leaf.level)
}

/// A smaller leaf lies at the middle of an edge of the face.
pub open spec fn rim_deeper(grid: Grid, leaves: Set<Leaf>, face: Seq<Lattice>, level: int) -> bool {
    edge_deeper(grid, leaves, face[0], face[1], level) || edge_deeper(
        grid,
        leaves,
        face[1],
        face[2],
        level,
    ) || edge_deeper(grid, leaves, face[2], face[3], level) || edge_deeper(
        grid,
        leaves,
        face[3],
        face[0],
        level,
    )
}

/// A side meets a leaf of another size, across the face or at its rim.
pub open spec fn side_transition(grid: Grid, leaves: Set<Leaf>, leaf: Leaf, side: int) -> bool {
    uneven(grid, leaves, leaf, side) || rim_deeper(
        grid,
        leaves,
        face_of(grid.corner_points(leaf), side),
        leaf.level as int,
    )
}

/// The leaf meets a leaf of another size across a side or at an edge.
pub open spec fn transition(grid: Grid, leaves: Set<Leaf>, leaf: Leaf) -> bool {
    exists|side: int| 0 <= side < 6 && #[trigger] side_transition(grid, leaves, leaf, side)
}

impl LeafIndex {
    fn side_uneven(&self, leaf: Leaf, side: usize) -> (result: bool)
        requires
            self.wf(),
            self.grid.has(leaf),
        ensures
            result == uneven(self.grid, self.leaves@, leaf, side as int),
    {
        let around = self.neighbors(leaf, side);
        let mut place: usize = 0;
        while place < 4
            invariant
                place <= 4,
                forall|p: int|
                    0 <= p < 4 ==> #[trigger] around[p] == neighbor_of(
                        self.grid,
                        self.leaves@,
                        leaf,
                        side as int,
                        p,
                    ),
                forall|p: int|
                    0 <= p < place ==> !(#[trigger] neighbor_of(
                        self.grid,
                        self.leaves@,
                        leaf,
                        side as int,
                        p,
                    ) matches Some(other) && other.level != leaf.level),
            decreases 4 - place,
        {
            assert(around[place as int] == neighbor_of(
                self.grid,
                self.leaves@,
                leaf,
                side as int,
                place as int,
            ));
            if let Some(other) = around[place] {
                if other.level != leaf.level {
                    return true;
                }
            }
            place = place + 1;
        }
        false
    }

    /// Which edges of a face have a smaller leaf at their middle.
    pub fn split_edges(&self, leaf: Leaf, face: &[Lattice; 4]) -> (result: [bool; 4])
        requires
            self.wf(),
            forall|i: int| 0 <= i < 4 ==> lies_in(self.grid, #[trigger] face[i]),
        ensures
            forall|i: int|
                0 <= i < 4 ==> #[trigger] result[i] == edge_deeper(
                    self.grid,
                    self.leaves@,
                    face[i],
                    face[(i + 1) % 4],
                    leaf.level as int,
                ),
    {
        let first = self.edge_has_finer(leaf, face[0], face[1]);
        let second = self.edge_has_finer(leaf, face[1], face[2]);
        let third = self.edge_has_finer(leaf, face[2], face[3]);
        let fourth = self.edge_has_finer(leaf, face[3], face[0]);
        let split = [first, second, third, fourth];
        assert(split[0] == first && split[1] == second && split[2] == third && split[3] == fourth);
        assert((0int + 1) % 4 == 1 && (1int + 1) % 4 == 2 && (2int + 1) % 4 == 3 && (3int + 1) % 4
            == 0);
        split
    }

    /// The corners of a side of a leaf.
    fn side_corners(&self, leaf: Leaf, side: usize) -> (result: [Lattice; 4])
        requires
            self.wf(),
            self.grid.has(leaf),
            side < 6,
        ensures
            result@ == face_of(self.grid.corner_points(leaf), side as int),
            forall|i: int|
                0 <= i < 4 ==> lies_in(self.grid, #[trigger] result[i]) && within(result[i]),
    {
        let corners = self.grid.corners(leaf);
        let faces = leaf_faces(&corners);
        let face = faces[side];
        proof {
            corners_lie_in(self.grid, leaf);
            let spots = face_of(self.grid.corner_points(leaf), side as int);
            assert(face@ == spots);
            assert forall|i: int| 0 <= i < 4 implies lies_in(self.grid, #[trigger] face[i])
                && within(face[i]) by {
                assert(face[i] == spots[i]);
            }
        }
        face
    }

    fn rim_split(&self, leaf: Leaf, face: &[Lattice; 4]) -> (result: bool)
        requires
            self.wf(),
            forall|i: int| 0 <= i < 4 ==> lies_in(self.grid, #[trigger] face[i]),
        ensures
            result == rim_deeper(self.grid, self.leaves@, face@, leaf.level as int),
    {
        self.edge_has_finer(leaf, face[0], face[1]) || self.edge_has_finer(leaf, face[1], face[2])
            || self.edge_has_finer(leaf, face[2], face[3]) || self.edge_has_finer(
            leaf,
            face[3],
            face[0],
        )
    }

    fn meets_other_size(&self, leaf: Leaf, side: usize) -> (result: bool)
        requires
            self.wf(),
            self.grid.has(leaf),
            side < 6,
        ensures
            result == side_transition(self.grid, self.leaves@, leaf, side as int),
    {
        let face = self.side_corners(leaf, side);
        self.side_uneven(leaf, side) || self.rim_split(leaf, &face)
    }

    /// Whether the leaf meets a leaf of another size.
    pub fn is_transition(&self, leaf: Leaf) -> (result: bool)
        requires
            self.wf(),
            self.grid.has(leaf),
        ensures
            result == transition(self.grid, self.leaves@, leaf),
    {
        let mut side: usize = 0;
        while side < 6
            invariant
                side <= 6,
                self.wf(),
                self.grid.has(leaf),
                forall|s: int|
                    0 <= s < side ==> !#[trigger] side_transition(
                        self.grid,
                        self.leaves@,
                        leaf,
                        s,
                    ),
            decreases 6 - side,
        {
            if self.meets_other_size(leaf, side) {
                return true;
            }
            side = side + 1;
        }
        false
    }
}

proof fn corners_lie_in(grid: Grid, leaf: Leaf)
    requires
        grid.wf(),
        grid.has(leaf),
    ensures
        forall|i: int|
            0 <= i < 8 ==> lies_in(grid, #[trigger] grid.corner_points(leaf)[i]) && within(
                grid.corner_points(leaf)[i],
            ),
{
    grid.scale_facts(leaf);
}

/// The four quarters of a face; the quarter at a place keeps the face's
/// corner of that place.
pub open spec fn quarter_of(quad: Seq<Lattice>, place: int) -> Seq<Lattice> {
    let ab = middle(quad[0], quad[1]);
    let bc = middle(quad[1], quad[2]);
    let cd = middle(quad[2], quad[3]);
    let da = middle(quad[3], quad[0]);
    let center = middle(ab, cd);
    if place == 0 {
        seq![quad[0], ab, center, da]
    } else if place == 1 {
        seq![ab, quad[1], bc, center]
    } else if place == 2 {
        seq![center, bc, quad[2], cd]
    } else {
        seq![da, center, cd, quad[3]]
    }
}

/// The coordinates of two points can be added.
pub open spec fn adds_up(a: Lattice, b: Lattice) -> bool {
    a.x + b.x <= u64::MAX && a.y + b.y <= u64::MAX && a.z + b.z <= u64::MAX
}

pub fn subdivide_quad(quad: &[Lattice; 4]) -> (result: [[Lattice; 4]; 4])
    requires
        adds_up(quad[0], quad[1]),
        adds_up(quad[1], quad[2]),
        adds_up(quad[2], quad[3]),
        adds_up(quad[3], quad[0]),
    ensures
        forall|i: int| 0 <= i < 4 ==> (#[trigger] result[i])@ == quarter_of(quad@, i),
{
    let ab = midpoint(quad[0], quad[1]);
    let bc = midpoint(quad[1], quad[2]);
    let cd = midpoint(quad[2], quad[3]);
    let da = midpoint(quad[3], quad[0]);
    let center = midpoint(ab, cd);
    let first = [quad[0], ab, center, da];
    let second = [ab, quad[1], bc, center];
    let third = [center, bc, quad[2], cd];
    let fourth = [da, center, cd, quad[3]];
    assert(first@ =~= quarter_of(quad@, 0));
    assert(second@ =~= quarter_of(quad@, 1));
    assert(third@ =~= quarter_of(quad@, 2));
    assert(fourth@ =~= quarter_of(quad@, 3));
    [first, second, third, fourth]
}

/// Which of the two ways to cut a quad along a diagonal scores better.
#[derive(Debug, Clone, Copy, PartialEq, Eq, Structural)]
pub enum Diagonal {
    First,
    Second,
    Tie,
}

/// The pair, smaller point first.
pub open spec fn sorted_pair<K: Key>(a: K, b: K) -> (K, K) {
    if b.before(a) {
        (b, a)
    } else {
        (a, b)
    }
}

/// Three keys in order.
pub open spec fn sorted_triple<K: Key>(a: K, b: K, c: K) -> (K, (K, K)) {
    let (x, y) = sorted_pair(a, b);
    if c.before(x) {
        (c, (x, y))
    } else if c.before(y) {
        (x, (c, y))
    } else {
        (x, (y, c))
    }
}

pub(crate) fn sort_triple<K: Key + Copy>(a: K, b: K, c: K) -> (result: (K, (K, K)))
    ensures
        result == sorted_triple(a, b, c),
{
    let (x, y) = sort_pair(a, b);
    if c.precedes(&x) {
        (c, (x, y))
    } else if c.precedes(&y) {
        (x, (c, y))
    } else {
        (x, (y, c))
    }
}

/// The first pair does not come after the second.
pub open spec fn pair_not_after<K: Key>(a: (K, K), b: (K, K)) -> bool {
    a.0.before(b.0) || (a.0 == b.0 && !b.1.before(a.1))
}

/// The quad is cut from its first to its third corner.
pub open spec fn cuts_first<K: Key>(quad: Seq<K>, better: Diagonal) -> bool {
    better == Diagonal::First || (better == Diagonal::Tie && pair_not_after(
        sorted_pair(quad[0], quad[2]),
        sorted_pair(quad[1], quad[3]),
    ))
}

/// The triangles of a quad cut along a diagonal; a tie goes to the diagonal
/// whose ends come first.
pub open spec fn quad_cut<K: Key>(quad: Seq<K>, better: Diagonal) -> Seq<Seq<K>> {
    if cuts_first(quad, better) {
        seq![seq![quad[0], quad[1], quad[2]], seq![quad[0], quad[2], quad[3]]]
    } else {
        seq![seq![quad[0], quad[1], quad[3]], seq![quad[1], quad[2], quad[3]]]
    }
}

pub(crate) fn sort_pair<K: Key + Copy>(a: K, b: K) -> (result: (K, K))
    ensures
        result == sorted_pair(a, b),
{
    if b.precedes(&a) {
        (b, a)
    } else {
        (a, b)
    }
}

fn first_diagonal<K: Key + Copy>(quad: &[K; 4], better: Diagonal) -> (result: bool)
    ensures
        result == cuts_first(quad@, better),
{
    match better {
        Diagonal::First => true,
        Diagonal::Second => false,
        Diagonal::Tie => {
            let p = sort_pair(quad[0], quad[2]);
            let q = sort_pair(quad[1], quad[3]);
            proof {
                K::total(p.0, q.0);
                K::irreflexive(p.0);
                if p.0.before(q.0) && q.0.before(p.0) {
                    K::transitive(p.0, q.0, p.0);
                }
            }
            if p.0.precedes(&q.0) {
                true
            } else if q.0.precedes(&p.0) {
                false
            } else {
                !q.1.precedes(&p.1)
            }
        },
    }
}

/// Cuts a quad along the better diagonal.
pub fn triangulate_face<K: Key + Copy>(quad: &[K; 4], better: Diagonal) -> (result: [[K; 3]; 2])
    ensures
        result[0]@ == quad_cut(quad@, better)[0],
        result[1]@ == quad_cut(quad@, better)[1],
{
    if first_diagonal(quad, better) {
        let first = [quad[0], quad[1], quad[2]];
        let second = [quad[0], quad[2], quad[3]];
        assert(first@ =~= quad_cut(quad@, better)[0]);
        assert(second@ =~= quad_cut(quad@, better)[1]);
        [first, second]
    } else {
        let first = [quad[0], quad[1], quad[3]];
        let second = [quad[1], quad[2], quad[3]];
        assert(first@ =~= quad_cut(quad@, better)[0]);
        assert(second@ =~= quad_cut(quad@, better)[1]);
        [first, second]
    }
}

/// How a face is cut so that it meets the cuts of its neighbours: into quads,
/// each then cut along a diagonal, or into triangles around its centre.
pub enum FaceCut {
    Quads(Vec<[Lattice; 4]>),
    Fan(Vec<[Lattice; 3]>),
}

/// The corners of a face, each followed by the middle of its edge where that
/// is split.
pub open spec fn face_ring(face: Seq<Lattice>, split: Seq<bool>) -> Seq<Lattice> {
    let with = |edge: int, next: int|
        if split[edge] {
            seq![face[edge], middle(face[edge], face[next])]
        } else {
            seq![face[edge]]
        };
    with(0, 1) + with(1, 2) + with(2, 3) + with(3, 0)
}

/// The cut of a face: in quarters beside smaller leaves, whole where nothing
/// is smaller, else from its centre to each edge of the ring.
pub open spec fn face_cut_ok(
    face: Seq<Lattice>,
    finer: bool,
    split: Seq<bool>,
    cut: FaceCut,
) -> bool {
    let plain = !split[0] && !split[1] && !split[2] && !split[3];
    let ring = face_ring(face, split);
    match cut {
        FaceCut::Quads(quads) => if finer {
            quads@.len() == 4 && forall|i: int|
                0 <= i < 4 ==> (#[trigger] quads@[i])@ == quarter_of(face, i)
        } else {
            plain && quads@.len() == 1 && quads@[0]@ == face
        },
        FaceCut::Fan(fan) => !finer && !plain && fan@.len() == ring.len() && forall|i: int|
            0 <= i < ring.len() ==> (#[trigger] fan@[i])@ == seq![
                middle(face[0], face[2]),
                ring[i],
                ring[(i + 1) % (ring.len() as int)],
            ],
    }
}

fn fan_from_ring(center: Lattice, ring: &Vec<Lattice>) -> (result: Vec<[Lattice; 3]>)
    requires
        0 < ring.len() <= 8,
    ensures
        result.len() == ring.len(),
        forall|i: int|
            0 <= i < ring.len() ==> (#[trigger] result@[i])@ == seq![
                center,
                ring@[i],
                ring@[(i + 1) % (ring@.len() as int)],
            ],
{
    let mut fan: Vec<[Lattice; 3]> = Vec::new();
    let mut edge: usize = 0;
    while edge < ring.len()
        invariant
            edge <= ring.len() <= 8,
            fan.len() == edge,
            forall|i: int|
                0 <= i < edge ==> (#[trigger] fan@[i])@ == seq![
                    center,
                    ring@[i],
                    ring@[(i + 1) % (ring@.len() as int)],
                ],
        decreases ring.len() - edge,
    {
        let triangle = [center, ring[edge], ring[(edge + 1) % ring.len()]];
        assert(triangle@ =~= seq![
            center,
            ring@[edge as int],
            ring@[(edge + 1) % (ring@.len() as int)],
        ]);
        fan.push(triangle);
        edge = edge + 1;
    }
    fan
}

/// Cuts a face, given whether its neighbours are smaller and which of its
/// edges smaller leaves split.
pub fn cut_face(face: &[Lattice; 4], finer: bool, split: &[bool; 4]) -> (result: FaceCut)
    requires
        forall|i: int| 0 <= i < 4 ==> within(#[trigger] face[i]),
    ensures
        face_cut_ok(face@, finer, split@, result),
{
    assert(within(face[0]) && within(face[1]) && within(face[2]) && within(face[3]));
    if finer {
        let quarters = subdivide_quad(face);
        let mut quads: Vec<[Lattice; 4]> = Vec::new();
        quads.push(quarters[0]);
        quads.push(quarters[1]);
        quads.push(quarters[2]);
        quads.push(quarters[3]);
        assert forall|i: int| 0 <= i < 4 implies (#[trigger] quads@[i])@ == quarter_of(
            face@,
            i,
        ) by {
            assert(quads@[i] == quarters[i]);
        }
        return FaceCut::Quads(quads);
    }
    if !split[0] && !split[1] && !split[2] && !split[3] {
        let mut quads: Vec<[Lattice; 4]> = Vec::new();
        quads.push(*face);
        return FaceCut::Quads(quads);
    }
    let mut ring: Vec<Lattice> = Vec::new();
    ring.push(face[0]);
    if split[0] {
        ring.push(midpoint(face[0], face[1]));
    }
    ring.push(face[1]);
    if split[1] {
        ring.push(midpoint(face[1], face[2]));
    }
    ring.push(face[2]);
    if split[2] {
        ring.push(midpoint(face[2], face[3]));
    }
    ring.push(face[3]);
    if split[3] {
        ring.push(midpoint(face[3], face[0]));
    }
    assert(ring@ =~= face_ring(face@, split@));
    let fan = fan_from_ring(midpoint(face[0], face[2]), &ring);
    FaceCut::Fan(fan)
}

impl LeafIndex {
    /// Cuts a side of a leaf so that it meets the cuts of its neighbours.
    pub fn conforming_face(&self, leaf: Leaf, side: usize) -> (result: FaceCut)
        requires
            self.wf(),
            self.grid.has(leaf),
            side < 6,
        ensures
            face_cut_ok(
                face_of(self.grid.corner_points(leaf), side as int),
                side_deeper(self.grid, self.leaves@, leaf, side as int, leaf.level as int),
                split_rim(
                    self.grid,
                    self.leaves@,
                    face_of(self.grid.corner_points(leaf), side as int),
                    leaf.level as int,
                ),
                result,
            ),
    {
        let face = self.side_corners(leaf, side);
        let finer = self.has_finer_neighbor(leaf, side);
        let split = self.split_edges(leaf, &face);
        assert(split@ =~= split_rim(self.grid, self.leaves@, face@, leaf.level as int));
        cut_face(&face, finer, &split)
    }
}

/// Which edges of a face have a smaller leaf at their middle.
pub open spec fn split_rim(grid: Grid, leaves: Set<Leaf>, face: Seq<Lattice>, level: int) -> Seq<bool> {
    Seq::new(4, |i: int| edge_deeper(grid, leaves, face[i], face[(i + 1) % 4], level))
}

/// The ordered edge is an edge of the triangle, in that direction.
pub open spec fn runs_along<K>(triangle: Seq<K>, a: K, b: K) -> bool {
    (triangle[0] == a && triangle[1] == b) || (triangle[1] == a && triangle[2] == b) || (triangle[2]
        == a && triangle[0] == b)
}

/// However a quad is cut, each of its edges stays the edge of a triangle, in
/// the same direction, and the two triangles share the diagonal in opposite
/// directions.
pub proof fn quad_cut_keeps_rim<K: Key>(quad: Seq<K>, better: Diagonal)
    requires
        quad.len() == 4,
    ensures
        quad_cut(quad, better).len() == 2,
        forall|i: int|
            0 <= i < 4 ==> runs_along(quad_cut(quad, better)[0], #[trigger] quad[i], quad[(i + 1) % 4])
                || runs_along(quad_cut(quad, better)[1], quad[i], quad[(i + 1) % 4]),
        exists|a: int, b: int|
            0 <= a < 4 && 0 <= b < 4 && (b - a == 2 || a - b == 2) && runs_along(
                quad_cut(quad, better)[0],
                #[trigger] quad[a],
                #[trigger] quad[b],
            ) && runs_along(quad_cut(quad, better)[1], quad[b], quad[a]),
{
    let cut = quad_cut(quad, better);
    if cuts_first(quad, better) {
        assert(runs_along(cut[0], quad[2], quad[0]));
        assert(runs_along(cut[1], quad[0], quad[2]));
    } else {
        assert(runs_along(cut[0], quad[1], quad[3]));
        assert(runs_along(cut[1], quad[3], quad[1]));
    }
}

/// The part of a leaf that holds the leaf's corner of that number.
pub open spec fn part_at_corner(corner: int) -> int {
    if corner == 2 {
        3
    } else if corner == 3 {
        2
    } else if corner == 6 {
        7
    } else if corner == 7 {
        6
    } else {
        corner
    }
}

/// The number of the corner at a place of a side.
pub open spec fn face_corner(side: int, place: int) -> int {
    face_numbers(side)[place]
}

pub open spec fn face_numbers(side: int) -> Seq<int> {
    if side == 0 {
        seq![0int, 3, 2, 1]
    } else if side == 1 {
        seq![4int, 5, 6, 7]
    } else if side == 2 {
        seq![0int, 1, 5, 4]
    } else if side == 3 {
        seq![1int, 2, 6, 5]
    } else if side == 4 {
        seq![2int, 3, 7, 6]
    } else {
        seq![3int, 0, 4, 7]
    }
}

/// The lattice point some half sides away from the lower corner of the leaf.
spec fn half_step(grid: Grid, leaf: Leaf, i: int, j: int, k: int) -> Lattice {
    let half = grid.scale((leaf.level + 1) as u8);
    Lattice {
        x: (2 * ((2 * leaf.x + i) * half)) as u64,
        y: (2 * ((2 * leaf.y + j) * half)) as u64,
        z: (2 * ((2 * leaf.z + k) * half)) as u64,
    }
}

proof fn axis_steps(a: int, half: int, limit: int)
    requires
        a >= 0,
        half >= 1,
        (a + 1) * (2 * half) <= limit,
        limit <= 0x1_0000_0000,
    ensures
        2 * (a * (2 * half)) == 2 * ((2 * a) * half),
        2 * ((a + 1) * (2 * half)) == 2 * ((2 * a + 2) * half),
        2 * ((2 * a) * half) + 2 * ((2 * a + 2) * half) == 2 * (2 * ((2 * a + 1) * half)),
        0 <= 2 * ((2 * a) * half) <= 2 * ((2 * a + 1) * half) <= 2 * ((2 * a + 2) * half)
            <= 0x2_0000_0000,
{
    assert(a * (2 * half) == (2 * a) * half) by (nonlinear_arith);
    assert((a + 1) * (2 * half) == (2 * a + 2) * half) by (nonlinear_arith);
    assert((2 * a + 1) * half == (2 * a) * half + half) by (nonlinear_arith);
    assert((2 * a + 2) * half == (2 * a) * half + 2 * half) by (nonlinear_arith);
    assert((2 * a) * half >= 0) by (nonlinear_arith)
        requires
            a >= 0,
            half >= 1,
    ;
}

proof fn corners_by_halves(grid: Grid, leaf: Leaf)
    requires
        grid.wf(),
        grid.has(leaf),
        leaf.level < grid.max_depth,
        leaf.divisible(),
    ensures
        grid.corner_points(leaf) == seq![
            half_step(grid, leaf, 0, 0, 0),
            half_step(grid, leaf, 2, 0, 0),
            half_step(grid, leaf, 2, 2, 0),
            half_step(grid, leaf, 0, 2, 0),
            half_step(grid, leaf, 0, 0, 2),
            half_step(grid, leaf, 2, 0, 2),
            half_step(grid, leaf, 2, 2, 2),
            half_step(grid, leaf, 0, 2, 2),
        ],
        forall|index: int|
            #![trigger leaf.parts()[index]]
            0 <= index < 8 ==> {
                let i = upper_half(index, 0);
                let j = upper_half(index, 1);
                let k = upper_half(index, 2);
                grid.corner_points(leaf.parts()[index]) == seq![
                    half_step(grid, leaf, i, j, k),
                    half_step(grid, leaf, i + 1, j, k),
                    half_step(grid, leaf, i + 1, j + 1, k),
                    half_step(grid, leaf, i, j + 1, k),
                    half_step(grid, leaf, i, j, k + 1),
                    half_step(grid, leaf, i + 1, j, k + 1),
                    half_step(grid, leaf, i + 1, j + 1, k + 1),
                    half_step(grid, leaf, i, j + 1, k + 1),
                ]
            },
        forall|i: int, j: int, k: int, l: int, m: int, n: int|
            #![trigger middle(half_step(grid, leaf, i, j, k), half_step(grid, leaf, l, m, n))]
            (i == l || (0 <= i <= 2 && i + l == 2)) && (j == m || (0 <= j <= 2 && j + m == 2)) && (k
                == n || (0 <= k <= 2 && k + n == 2)) && 0 <= i <= 2 && 0 <= j <= 2 && 0 <= k <= 2
                ==> middle(half_step(grid, leaf, i, j, k), half_step(grid, leaf, l, m, n))
                == half_step(grid, leaf, (i + l) / 2, (j + m) / 2, (k + n) / 2),
{
    let half = grid.scale((leaf.level + 1) as u8) as int;
    vstd::arithmetic::power2::lemma_pow2_unfold((grid.max_depth - leaf.level) as nat);
    vstd::arithmetic::power2::lemma_pow2_pos((grid.max_depth - leaf.level - 1) as nat);
    assert(grid.scale(leaf.level) == 2 * half);
    grid.scale_facts(leaf);
    axis_steps(leaf.x as int, half, grid.width());
    axis_steps(leaf.y as int, half, grid.height());
    axis_steps(leaf.z as int, half, grid.depth());
    assert(grid.corner_points(leaf) =~= seq![
        half_step(grid, leaf, 0, 0, 0),
        half_step(grid, leaf, 2, 0, 0),
        half_step(grid, leaf, 2, 2, 0),
        half_step(grid, leaf, 0, 2, 0),
        half_step(grid, leaf, 0, 0, 2),
        half_step(grid, leaf, 2, 0, 2),
        half_step(grid, leaf, 2, 2, 2),
        half_step(grid, leaf, 0, 2, 2),
    ]);
    assert forall|index: int|
        #![trigger leaf.parts()[index]]
        0 <= index < 8 implies {
        let i = upper_half(index, 0);
        let j = upper_half(index, 1);
        let k = upper_half(index, 2);
        grid.corner_points(leaf.parts()[index]) == seq![
            half_step(grid, leaf, i, j, k),
            half_step(grid, leaf, i + 1, j, k),
            half_step(grid, leaf, i + 1, j + 1, k),
            half_step(grid, leaf, i, j + 1, k),
            half_step(grid, leaf, i, j, k + 1),
            half_step(grid, leaf, i + 1, j, k + 1),
            half_step(grid, leaf, i + 1, j + 1, k + 1),
            half_step(grid, leaf, i, j + 1, k + 1),
        ]
    } by {
        let i = upper_half(index, 0);
        let j = upper_half(index, 1);
        let k = upper_half(index, 2);
        assert(grid.corner_points(leaf.parts()[index]) =~= seq![
            half_step(grid, leaf, i, j, k),
            half_step(grid, leaf, i + 1, j, k),
            half_step(grid, leaf, i + 1, j + 1, k),
            half_step(grid, leaf, i, j + 1, k),
            half_step(grid, leaf, i, j, k + 1),
            half_step(grid, leaf, i + 1, j, k + 1),
            half_step(grid, leaf, i + 1, j + 1, k + 1),
            half_step(grid, leaf, i, j + 1, k + 1),
        ]);
    }
}

/// The quarter of a side at a place is the side of the part there.
pub open spec fn quarters_match(grid: Grid, leaf: Leaf, side: int, place: int) -> bool {
    quarter_of(face_of(grid.corner_points(leaf), side), place) == face_of(
        grid.corner_points(leaf.parts()[part_at_corner(face_corner(side, place))]),
        side,
    )
}

proof fn bottom_quarters(grid: Grid, leaf: Leaf, place: int)
    requires
        grid.wf(),
        grid.has(leaf),
        leaf.level < grid.max_depth,
        0 <= place < 4,
    ensures
        quarters_match(grid, leaf, 0, place),
{
    inner_leaf_divides(grid, leaf);
    corners_by_halves(grid, leaf);
    let face = face_of(grid.corner_points(leaf), 0);
    assert(face =~= seq![half_step(grid, leaf, 0, 0, 0), half_step(grid, leaf, 0, 2, 0), half_step(grid, leaf, 2, 2, 0), half_step(grid, leaf, 2, 0, 0)]);
    assert(middle(face[0], face[1]) == half_step(grid, leaf, 0, 1, 0));
    assert(middle(face[1], face[2]) == half_step(grid, leaf, 1, 2, 0));
    assert(middle(face[2], face[3]) == half_step(grid, leaf, 2, 1, 0));
    assert(middle(face[3], face[0]) == half_step(grid, leaf, 1, 0, 0));
    assert(middle(half_step(grid, leaf, 0, 1, 0), half_step(grid, leaf, 2, 1, 0)) == half_step(grid, leaf, 1, 1, 0));
    if place == 0 {
        assert(part_at_corner(face_corner(0, 0)) == 0);
        let part = leaf.parts()[0];
        assert(quarter_of(face, 0) =~= face_of(grid.corner_points(part), 0));
    } else if place == 1 {
        assert(part_at_corner(face_corner(0, 1)) == 2);
        let part = leaf.parts()[2];
        assert(quarter_of(face, 1) =~= face_of(grid.corner_points(part), 0));
    } else if place == 2 {
        assert(part_at_corner(face_corner(0, 2)) == 3);
        let part = leaf.parts()[3];
        assert(quarter_of(face, 2) =~= face_of(grid.corner_points(part), 0));
    } else {
        assert(part_at_corner(face_corner(0, 3)) == 1);
        let part = leaf.parts()[1];
        assert(quarter_of(face, 3) =~= face_of(grid.corner_points(part), 0));
    }
}

proof fn top_quarters(grid: Grid, leaf: Leaf, place: int)
    requires
        grid.wf(),
        grid.has(leaf),
        leaf.level < grid.max_depth,
        0 <= place < 4,
    ensures
        quarters_match(grid, leaf, 1, place),
{
    inner_leaf_divides(grid, leaf);
    corners_by_halves(grid, leaf);
    let face = face_of(grid.corner_points(leaf), 1);
    assert(face =~= seq![half_step(grid, leaf, 0, 0, 2), half_step(grid, leaf, 2, 0, 2), half_step(grid, leaf, 2, 2, 2), half_step(grid, leaf, 0, 2, 2)]);
    assert(middle(face[0], face[1]) == half_step(grid, leaf, 1, 0, 2));
    assert(middle(face[1], face[2]) == half_step(grid, leaf, 2, 1, 2));
    assert(middle(face[2], face[3]) == half_step(grid, leaf, 1, 2, 2));
    assert(middle(face[3], face[0]) == half_step(grid, leaf, 0, 1, 2));
    assert(middle(half_step(grid, leaf, 1, 0, 2), half_step(grid, leaf, 1, 2, 2)) == half_step(grid, leaf, 1, 1, 2));
    if place == 0 {
        assert(part_at_corner(face_corner(1, 0)) == 4);
        let part = leaf.parts()[4];
        assert(quarter_of(face, 0) =~= face_of(grid.corner_points(part), 1));
    } else if place == 1 {
        assert(part_at_corner(face_corner(1, 1)) == 5);
        let part = leaf.parts()[5];
        assert(quarter_of(face, 1) =~= face_of(grid.corner_points(part), 1));
    } else if place == 2 {
        assert(part_at_corner(face_corner(1, 2)) == 7);
        let part = leaf.parts()[7];
        assert(quarter_of(face, 2) =~= face_of(grid.corner_points(part), 1));
    } else {
        assert(part_at_corner(face_corner(1, 3)) == 6);
        let part = leaf.parts()[6];
        assert(quarter_of(face, 3) =~= face_of(grid.corner_points(part), 1));
    }
}

proof fn front_quarters(grid: Grid, leaf: Leaf, place: int)
    requires
        grid.wf(),
        grid.has(leaf),
        leaf.level < grid.max_depth,
        0 <= place < 4,
    ensures
        quarters_match(grid, leaf, 2, place),
{
    inner_leaf_divides(grid, leaf);
    corners_by_halves(grid, leaf);
    let face = face_of(grid.corner_points(leaf), 2);
    assert(face =~= seq![half_step(grid, leaf, 0, 0, 0), half_step(grid, leaf, 2, 0, 0), half_step(grid, leaf, 2, 0, 2), half_step(grid, leaf, 0, 0, 2)]);
    assert(middle(face[0], face[1]) == half_step(grid, leaf, 1, 0, 0));
    assert(middle(face[1], face[2]) == half_step(grid, leaf, 2, 0, 1));
    assert(middle(face[2], face[3]) == half_step(grid, leaf, 1, 0, 2));
    assert(middle(face[3], face[0]) == half_step(grid, leaf, 0, 0, 1));
    assert(middle(half_step(grid, leaf, 1, 0, 0), half_step(grid, leaf, 1, 0, 2)) == half_step(grid, leaf, 1, 0, 1));
    if place == 0 {
        assert(part_at_corner(face_corner(2, 0)) == 0);
        let part = leaf.parts()[0];
        assert(quarter_of(face, 0) =~= face_of(grid.corner_points(part), 2));
    } else if place == 1 {
        assert(part_at_corner(face_corner(2, 1)) == 1);
        let part = leaf.parts()[1];
        assert(quarter_of(face, 1) =~= face_of(grid.corner_points(part), 2));
    } else if place == 2 {
        assert(part_at_corner(face_corner(2, 2)) == 5);
        let part = leaf.parts()[5];
        assert(quarter_of(face, 2) =~= face_of(grid.corner_points(part), 2));
    } else {
        assert(part_at_corner(face_corner(2, 3)) == 4);
        let part = leaf.parts()[4];
        assert(quarter_of(face, 3) =~= face_of(grid.corner_points(part), 2));
    }
}

proof fn right_quarters(grid: Grid, leaf: Leaf, place: int)
    requires
        grid.wf(),
        grid.has(leaf),
        leaf.level < grid.max_depth,
        0 <= place < 4,
    ensures
        quarters_match(grid, leaf, 3, place),
{
    inner_leaf_divides(grid, leaf);
    corners_by_halves(grid, leaf);
    let face = face_of(grid.corner_points(leaf), 3);
    assert(face =~= seq![half_step(grid, leaf, 2, 0, 0), half_step(grid, leaf, 2, 2, 0), half_step(grid, leaf, 2, 2, 2), half_step(grid, leaf, 2, 0, 2)]);
    assert(middle(face[0], face[1]) == half_step(grid, leaf, 2, 1, 0));
    assert(middle(face[1], face[2]) == half_step(grid, leaf, 2, 2, 1));
    assert(middle(face[2], face[3]) == half_step(grid, leaf, 2, 1, 2));
    assert(middle(face[3], face[0]) == half_step(grid, leaf, 2, 0, 1));
    assert(middle(half_step(grid, leaf, 2, 1, 0), half_step(grid, leaf, 2, 1, 2)) == half_step(grid, leaf, 2, 1, 1));
    if place == 0 {
        assert(part_at_corner(face_corner(3, 0)) == 1);
        let part = leaf.parts()[1];
        assert(quarter_of(face, 0) =~= face_of(grid.corner_points(part), 3));
    } else if place == 1 {
        assert(part_at_corner(face_corner(3, 1)) == 3);
        let part = leaf.parts()[3];
        assert(quarter_of(face, 1) =~= face_of(grid.corner_points(part), 3));
    } else if place == 2 {
        assert(part_at_corner(face_corner(3, 2)) == 7);
        let part = leaf.parts()[7];
        assert(quarter_of(face, 2) =~= face_of(grid.corner_points(part), 3));
    } else {
        assert(part_at_corner(face_corner(3, 3)) == 5);
        let part = leaf.parts()[5];
        assert(quarter_of(face, 3) =~= face_of(grid.corner_points(part), 3));
    }
}

proof fn back_quarters(grid: Grid, leaf: Leaf, place: int)
    requires
        grid.wf(),
        grid.has(leaf),
        leaf.level < grid.max_depth,
        0 <= place < 4,
    ensures
        quarters_match(grid, leaf, 4, place),
{
    inner_leaf_divides(grid, leaf);
    corners_by_halves(grid, leaf);
    let face = face_of(grid.corner_points(leaf), 4);
    assert(face =~= seq![half_step(grid, leaf, 2, 2, 0), half_step(grid, leaf, 0, 2, 0), half_step(grid, leaf, 0, 2, 2), half_step(grid, leaf, 2, 2, 2)]);
    assert(middle(face[0], face[1]) == half_step(grid, leaf, 1, 2, 0));
    assert(middle(face[1], face[2]) == half_step(grid, leaf, 0, 2, 1));
    assert(middle(face[2], face[3]) == half_step(grid, leaf, 1, 2, 2));
    assert(middle(face[3], face[0]) == half_step(grid, leaf, 2, 2, 1));
    assert(middle(half_step(grid, leaf, 1, 2, 0), half_step(grid, leaf, 1, 2, 2)) == half_step(grid, leaf, 1, 2, 1));
    if place == 0 {
        assert(part_at_corner(face_corner(4, 0)) == 3);
        let part = leaf.parts()[3];
        assert(quarter_of(face, 0) =~= face_of(grid.corner_points(part), 4));
    } else if place == 1 {
        assert(part_at_corner(face_corner(4, 1)) == 2);
        let part = leaf.parts()[2];
        assert(quarter_of(face, 1) =~= face_of(grid.corner_points(part), 4));
    } else if place == 2 {
        assert(part_at_corner(face_corner(4, 2)) == 6);
        let part = leaf.parts()[6];
        assert(quarter_of(face, 2) =~= face_of(grid.corner_points(part), 4));
    } else {
        assert(part_at_corner(face_corner(4, 3)) == 7);
        let part = leaf.parts()[7];
        assert(quarter_of(face, 3) =~= face_of(grid.corner_points(part), 4));
    }
}

proof fn left_quarters(grid: Grid, leaf: Leaf, place: int)
    requires
        grid.wf(),
        grid.has(leaf),
        leaf.level < grid.max_depth,
        0 <= place < 4,
    ensures
        quarters_match(grid, leaf, 5, place),
{
    inner_leaf_divides(grid, leaf);
    corners_by_halves(grid, leaf);
    let face = face_of(grid.corner_points(leaf), 5);
    assert(face =~= seq![half_step(grid, leaf, 0, 2, 0), half_step(grid, leaf, 0, 0, 0), half_step(grid, leaf, 0, 0, 2), half_step(grid, leaf, 0, 2, 2)]);
    assert(middle(face[0], face[1]) == half_step(grid, leaf, 0, 1, 0));
    assert(middle(face[1], face[2]) == half_step(grid, leaf, 0, 0, 1));
    assert(middle(face[2], face[3]) == half_step(grid, leaf, 0, 1, 2));
    assert(middle(face[3], face[0]) == half_step(grid, leaf, 0, 2, 1));
    assert(middle(half_step(grid, leaf, 0, 1, 0), half_step(grid, leaf, 0, 1, 2)) == half_step(grid, leaf, 0, 1, 1));
    if place == 0 {
        assert(part_at_corner(face_corner(5, 0)) == 2);
        let part = leaf.parts()[2];
        assert(quarter_of(face, 0) =~= face_of(grid.corner_points(part), 5));
    } else if place == 1 {
        assert(part_at_corner(face_corner(5, 1)) == 0);
        let part = leaf.parts()[0];
        assert(quarter_of(face, 1) =~= face_of(grid.corner_points(part), 5));
    } else if place == 2 {
        assert(part_at_corner(face_corner(5, 2)) == 4);
        let part = leaf.parts()[4];
        assert(quarter_of(face, 2) =~= face_of(grid.corner_points(part), 5));
    } else {
        assert(part_at_corner(face_corner(5, 3)) == 6);
        let part = leaf.parts()[6];
        assert(quarter_of(face, 3) =~= face_of(grid.corner_points(part), 5));
    }
}

/// The quarters of a side are the sides of the leaf's parts there: where the
/// neighbour across a side was divided, both cut the side the same way.
pub proof fn quarters_are_part_faces(grid: Grid, leaf: Leaf, side: int, place: int)
    requires
        grid.wf(),
        grid.has(leaf),
        leaf.level < grid.max_depth,
        0 <= side < 6,
        0 <= place < 4,
    ensures
        quarters_match(grid, leaf, side, place),
{
    if side == 0 {
        bottom_quarters(grid, leaf, place);
    } else if side == 1 {
        top_quarters(grid, leaf, place);
    } else if side == 2 {
        front_quarters(grid, leaf, place);
    } else if side == 3 {
        right_quarters(grid, leaf, place);
    } else if side == 4 {
        back_quarters(grid, leaf, place);
    } else {
        left_quarters(grid, leaf, place);
    }
}

/// Whether an edge along an axis has a smaller leaf at its middle does not depend on the end
/// from which it is looked at, so that all faces at the edge agree on it.
pub proof fn edge_is_split_alike(grid: Grid, leaves: Set<Leaf>, a: Lattice, b: Lattice, level: int)
    requires
        a.x / 2 == b.x / 2 && a.y / 2 == b.y / 2 || a.x / 2 == b.x / 2 && a.z / 2 == b.z / 2 || a.y / 2
            == b.y / 2 && a.z / 2 == b.z / 2,
    ensures
        edge_deeper(grid, leaves, a, b, level) == edge_deeper(grid, leaves, b, a, level),
        forall|x: int, y: int, z: int| #[trigger]
            touches_edge(grid, a, b, (x, y, z)) == touches_edge(grid, b, a, (x, y, z)),
{
    assert forall|x: int, y: int, z: int| #[trigger]
        touches_edge(grid, a, b, (x, y, z)) == touches_edge(grid, b, a, (x, y, z)) by {}
    if edge_deeper(grid, leaves, a, b, level) {
        let (x, y, z) = choose|x: int, y: int, z: int|
            touches_edge(grid, a, b, (x, y, z)) && deeper(
                #[trigger] owner_of(grid, leaves, x, y, z),
                level,
            );
        assert(touches_edge(grid, b, a, (x, y, z)));
        assert(deeper(owner_of(grid, leaves, x, y, z), level));
    }
    if edge_deeper(grid, leaves, b, a, level) {
        let (x, y, z) = choose|x: int, y: int, z: int|
            touches_edge(grid, b, a, (x, y, z)) && deeper(
                #[trigger] owner_of(grid, leaves, x, y, z),
                level,
            );
        assert(touches_edge(grid, a, b, (x, y, z)));
        assert(deeper(owner_of(grid, leaves, x, y, z), level));
    }
}

} // verus!
