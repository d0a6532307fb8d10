//! How squares and cubes of a grid meet, and how cubes are cut into tetrahedra.

use vstd::prelude::*;

#[allow(unused_imports)]
use crate::background::{as_face, axis_bit, cube_of, lattice_index, numbered_face, path_tet};
#[allow(unused_imports)]
use crate::faces::{face_of, regular_cut};
#[allow(unused_imports)]
use crate::octree;
#[allow(unused_imports)]
use crate::quadtree;
#[allow(unused_imports)]
use crate::quadtree::along;
#[allow(unused_imports)]
use crate::shells::{
    face_uses, has_face, net, only_four, outline, outlines_add, quad_net, step_back, two_outlines,
};

verus! {

/// The six sides of a leaf close: every edge is walked once each way.
pub proof fn cube_sides_close(corners: Seq<octree::Lattice>, p: octree::Lattice, q: octree::Lattice)
    requires
        corners.len() == 8,
    ensures
        outline(
            seq![face_of(corners, 0), face_of(corners, 1), face_of(corners, 2)] + seq![
                face_of(corners, 3),
                face_of(corners, 4),
                face_of(corners, 5),
            ],
            p,
            q,
        ) == 0,
{
    let (a, b, c) = (face_of(corners, 0), face_of(corners, 1), face_of(corners, 2));
    let (d, e, f) = (face_of(corners, 3), face_of(corners, 4), face_of(corners, 5));
    three_outlines(a, b, c, p, q);
    three_outlines(d, e, f, p, q);
    outlines_add(seq![a, b, c], seq![d, e, f], p, q);
    quad_net(a, p, q);
    quad_net(b, p, q);
    quad_net(c, p, q);
    quad_net(d, p, q);
    quad_net(e, p, q);
    quad_net(f, p, q);
    step_back(corners[0], corners[1], p, q);
    step_back(corners[1], corners[2], p, q);
    step_back(corners[2], corners[3], p, q);
    step_back(corners[3], corners[0], p, q);
    step_back(corners[4], corners[5], p, q);
    step_back(corners[5], corners[6], p, q);
    step_back(corners[6], corners[7], p, q);
    step_back(corners[7], corners[4], p, q);
    step_back(corners[0], corners[4], p, q);
    step_back(corners[1], corners[5], p, q);
    step_back(corners[2], corners[6], p, q);
    step_back(corners[3], corners[7], p, q);
}

proof fn three_outlines<K>(a: Seq<K>, b: Seq<K>, c: Seq<K>, p: K, q: K)
    ensures
        outline(seq![a, b, c], p, q) == net(a, p, q) + net(b, p, q) + net(c, p, q),
{
    two_outlines(a, b, p, q);
    assert(seq![a, b, c].drop_last() =~= seq![a, b]);
}

proof fn six_uses<K>(tets: Seq<Seq<K>>, x: K, y: K, z: K)
    requires
        tets.len() == 6,
    ensures
        face_uses(tets, x, y, z) == has_face(tets[0], x, y, z) + has_face(tets[1], x, y, z)
            + has_face(tets[2], x, y, z) + has_face(tets[3], x, y, z) + has_face(tets[4], x, y, z)
            + has_face(tets[5], x, y, z),
{
    let five = tets.drop_last();
    let four = five.drop_last();
    let three = four.drop_last();
    let two = three.drop_last();
    let one = two.drop_last();
    let none = one.drop_last();
    assert(none.len() == 0);
    assert(face_uses(none, x, y, z) == 0);
    assert(one.last() == tets[0]);
    assert(face_uses(one, x, y, z) == has_face(tets[0], x, y, z));
    assert(face_uses(two, x, y, z) == face_uses(one, x, y, z) + has_face(tets[1], x, y, z));
    assert(face_uses(three, x, y, z) == face_uses(two, x, y, z) + has_face(tets[2], x, y, z));
    assert(face_uses(four, x, y, z) == face_uses(three, x, y, z) + has_face(tets[3], x, y, z));
    assert(face_uses(five, x, y, z) == face_uses(four, x, y, z) + has_face(tets[4], x, y, z));
}

proof fn cut_uses(c: Seq<octree::Lattice>, i: int, j: int, k: int)
    requires
        c.len() == 8,
        c.no_duplicates(),
        0 <= i < 8,
        0 <= j < 8,
        0 <= k < 8,
    ensures
        ({
            let has = |a: int, b: int, n: int| n == 0 || n == 6 || n == a || n == b;
            let all = |a: int, b: int|
                if has(a, b, i) && has(a, b, j) && has(a, b, k) {
                    1int
                } else {
                    0
                };
            face_uses(regular_cut(c), c[i], c[j], c[k]) == all(1, 2) + all(2, 3) + all(3, 7) + all(
                7,
                4,
            ) + all(4, 5) + all(5, 1)
        }),
{
    let tets = regular_cut(c);
    six_uses(tets, c[i], c[j], c[k]);
    only_four(tets[0], c[0], c[1], c[2], c[6]);
    only_four(tets[1], c[0], c[2], c[3], c[6]);
    only_four(tets[2], c[0], c[3], c[7], c[6]);
    only_four(tets[3], c[0], c[7], c[4], c[6]);
    only_four(tets[4], c[0], c[4], c[5], c[6]);
    only_four(tets[5], c[0], c[5], c[1], c[6]);
}

/// The six tetrahedra of a leaf fill it: each side is cut into two faces of one
/// tetrahedron each, opposite sides along the same diagonal, and the faces at the long
/// diagonal are shared by two.
pub proof fn regular_cut_fills_cube(c: Seq<octree::Lattice>)
    requires
        c.len() == 8,
        c.no_duplicates(),
    ensures
        regular_cut(c).len() == 6,
        face_uses(regular_cut(c), c[0], c[1], c[2]) == 1,
        face_uses(regular_cut(c), c[0], c[2], c[3]) == 1,
        face_uses(regular_cut(c), c[4], c[5], c[6]) == 1,
        face_uses(regular_cut(c), c[4], c[6], c[7]) == 1,
        face_uses(regular_cut(c), c[0], c[1], c[5]) == 1,
        face_uses(regular_cut(c), c[0], c[5], c[4]) == 1,
        face_uses(regular_cut(c), c[3], c[2], c[6]) == 1,
        face_uses(regular_cut(c), c[3], c[6], c[7]) == 1,
        face_uses(regular_cut(c), c[0], c[3], c[7]) == 1,
        face_uses(regular_cut(c), c[0], c[7], c[4]) == 1,
        face_uses(regular_cut(c), c[1], c[2], c[6]) == 1,
        face_uses(regular_cut(c), c[1], c[6], c[5]) == 1,
        face_uses(regular_cut(c), c[0], c[1], c[6]) == 2,
        face_uses(regular_cut(c), c[0], c[2], c[6]) == 2,
        face_uses(regular_cut(c), c[0], c[3], c[6]) == 2,
        face_uses(regular_cut(c), c[0], c[4], c[6]) == 2,
        face_uses(regular_cut(c), c[0], c[5], c[6]) == 2,
        face_uses(regular_cut(c), c[0], c[7], c[6]) == 2,
{
    cut_uses(c, 0, 1, 2);
    cut_uses(c, 0, 2, 3);
    cut_uses(c, 4, 5, 6);
    cut_uses(c, 4, 6, 7);
    cut_uses(c, 0, 1, 5);
    cut_uses(c, 0, 5, 4);
    cut_uses(c, 3, 2, 6);
    cut_uses(c, 3, 6, 7);
    cut_uses(c, 0, 3, 7);
    cut_uses(c, 0, 7, 4);
    cut_uses(c, 1, 2, 6);
    cut_uses(c, 1, 6, 5);
    cut_uses(c, 0, 1, 6);
    cut_uses(c, 0, 2, 6);
    cut_uses(c, 0, 3, 6);
    cut_uses(c, 0, 4, 6);
    cut_uses(c, 0, 5, 6);
    cut_uses(c, 0, 7, 6);
}

/// A lattice point's number tells the point.
pub proof fn lattice_index_tells_point(
    x: int,
    y: int,
    z: int,
    u: int,
    v: int,
    w: int,
    dimensions: Seq<usize>,
)
    requires
        0 <= x < dimensions[0],
        0 <= u < dimensions[0],
        0 <= y < dimensions[1],
        0 <= v < dimensions[1],
        lattice_index(x, y, z, dimensions) == lattice_index(u, v, w, dimensions),
    ensures
        x == u,
        y == v,
        z == w,
{
    let d = dimensions[0] as int;
    let e = dimensions[1] as int;
    assert(z * d * e + y * d + x == (z * e + y) * d + x) by (nonlinear_arith);
    assert(w * d * e + v * d + u == (w * e + v) * d + u) by (nonlinear_arith);
    vstd::arithmetic::div_mod::lemma_fundamental_div_mod_converse(
        (z * e + y) * d + x,
        d,
        z * e + y,
        x,
    );
    vstd::arithmetic::div_mod::lemma_fundamental_div_mod_converse(
        (w * e + v) * d + u,
        d,
        w * e + v,
        u,
    );
    vstd::arithmetic::div_mod::lemma_fundamental_div_mod_converse(z * e + y, e, z, y);
    vstd::arithmetic::div_mod::lemma_fundamental_div_mod_converse(w * e + v, e, w, v);
}

/// Neighbouring cubes share the corners between them: one step along an axis from a
/// corner of a cube is the same corner of the next cube.
pub proof fn cubes_share_corners(x: int, y: int, z: int, dimensions: Seq<usize>, i: int)
    requires
        0 <= i < 8,
    ensures
        cube_of(x, y, z, dimensions).len() == 8,
        i % 2 == 0 ==> cube_of(x, y, z, dimensions)[i + 1] == cube_of(x + 1, y, z, dimensions)[i],
        (i / 2) % 2 == 0 ==> cube_of(x, y, z, dimensions)[i + 2] == cube_of(
            x,
            y + 1,
            z,
            dimensions,
        )[i],
        i / 4 == 0 ==> cube_of(x, y, z, dimensions)[i + 4] == cube_of(x, y, z + 1, dimensions)[i],
        cube_of(x, y, z, dimensions)[0] == lattice_index(x, y, z, dimensions),
{
}

/// Two tetrahedra of a cube whose paths take two of their steps in the other order share
/// a face, so that neighbours fit: the paths differ in one corner alone.
pub proof fn exchanged_steps_share_face(cube: Seq<usize>, order: Seq<usize>)
    requires
        cube.len() == 8,
        order.len() == 3,
        order[0] < 3,
        order[1] < 3,
        order[2] < 3,
        order[0] != order[1],
        order[1] != order[2],
        order[0] != order[2],
    ensures
        ({
            let tet = path_tet(cube, order);
            let early = path_tet(cube, seq![order[1], order[0], order[2]]);
            let late = path_tet(cube, seq![order[0], order[2], order[1]]);
            &&& tet.len() == 4
            &&& tet[0] == cube[0] && tet[3] == cube[7]
            &&& early[0] == tet[0] && early[2] == tet[2] && early[3] == tet[3]
            &&& late[0] == tet[0] && late[1] == tet[1] && late[3] == tet[3]
            &&& tet[1] == cube[axis_bit(order[0] as int)]
            &&& tet[2] == cube[7 - axis_bit(order[2] as int)]
            &&& early[1] == cube[axis_bit(order[1] as int)]
            &&& late[2] == cube[7 - axis_bit(order[1] as int)]
        }),
{
}

/// A face of a numbered tetrahedron is named by its corners but the one of its number.
pub proof fn numbered_face_lacks_corner(cell: Seq<usize>, face: int, vertex: usize)
    requires
        cell.len() == 4,
        cell.no_duplicates(),
        0 <= face < 4,
    ensures
        as_face(numbered_face(cell, face)).contains(vertex) <==> cell.contains(vertex) && vertex
            != cell[face],
        numbered_face(cell, face).0 < numbered_face(cell, face).1.0 < numbered_face(
            cell,
            face,
        ).1.1,
{
    let key = numbered_face(cell, face);
    let list = as_face(key);
    let (a, b, c, d) = (cell[0], cell[1], cell[2], cell[3]);
    assert(a != b && a != c && a != d && b != c && b != d && c != d);
    assert(cell =~= seq![a, b, c, d]);
    only_four(cell, a, b, c, d);
    assert(list[0] == key.0 && list[1] == key.1.0 && list[2] == key.1.1);
    if list.contains(vertex) {
        let i = list.index_of(vertex);
        assert(i == 0 || i == 1 || i == 2);
    }
}

/// The corners of a leaf stand where its neighbours' do: the leaf one step on along an
/// axis has the four corners between them.
pub proof fn leaves_share_corners(grid: octree::Grid, leaf: octree::Leaf, next: octree::Leaf, axis: int)
    requires
        0 <= axis < 3,
        next.level == leaf.level,
        next.x == leaf.x + (if axis == 0 {
            1int
        } else {
            0
        }),
        next.y == leaf.y + (if axis == 1 {
            1int
        } else {
            0
        }),
        next.z == leaf.z + (if axis == 2 {
            1int
        } else {
            0
        }),
    ensures
        ({
            let here = grid.corner_points(leaf);
            let there = grid.corner_points(next);
            &&& axis == 0 ==> here[1] == there[0] && here[2] == there[3] && here[5] == there[4]
                && here[6] == there[7]
            &&& axis == 1 ==> here[3] == there[0] && here[2] == there[1] && here[7] == there[4]
                && here[6] == there[5]
            &&& axis == 2 ==> here[4] == there[0] && here[5] == there[1] && here[6] == there[2]
                && here[7] == there[3]
        }),
{
}

/// The corners of a leaf bound it: the first is its lowest, the seventh its highest, and
/// its centre lies halfway between them. Corners joined by an edge differ along one
/// axis alone.
pub proof fn corners_bound_leaf(grid: octree::Grid, leaf: octree::Leaf)
    requires
        grid.wf(),
        grid.has(leaf),
    ensures
        ({
            let c = grid.corner_points(leaf);
            let center = grid.center_point(leaf);
            let side = 2 * grid.scale(leaf.level);
            &&& c.len() == 8
            &&& c[6].x == c[0].x + side && c[6].y == c[0].y + side && c[6].z == c[0].z + side
            &&& 2 * center.x == c[0].x + c[6].x
            &&& 2 * center.y == c[0].y + c[6].y
            &&& 2 * center.z == c[0].z + c[6].z
            &&& c[1] == (octree::Lattice { x: c[6].x, ..c[0] })
            &&& c[2] == (octree::Lattice { z: c[0].z, ..c[6] })
            &&& c[3] == (octree::Lattice { y: c[6].y, ..c[0] })
            &&& c[4] == (octree::Lattice { z: c[6].z, ..c[0] })
            &&& c[5] == (octree::Lattice { y: c[0].y, ..c[6] })
            &&& c[7] == (octree::Lattice { x: c[0].x, ..c[6] })
            &&& c[0].x == 2 * (leaf.x * grid.scale(leaf.level))
            &&& c[0].y == 2 * (leaf.y * grid.scale(leaf.level))
            &&& c[0].z == 2 * (leaf.z * grid.scale(leaf.level))
        }),
{
    grid.scale_facts(leaf);
    let s = grid.scale(leaf.level) as int;
    assert((leaf.x + 1) * s == leaf.x * s + s) by (nonlinear_arith);
    assert((leaf.y + 1) * s == leaf.y * s + s) by (nonlinear_arith);
    assert((leaf.z + 1) * s == leaf.z * s + s) by (nonlinear_arith);
    assert(grid.width() <= 0x1_0000_0000 && grid.height() <= 0x1_0000_0000 && grid.depth()
        <= 0x1_0000_0000);
}

/// The corners of a square bound it: counterclockwise from the lowest, with the centre
/// halfway between opposite ones; and neighbours share them.
pub proof fn corners_bound_square(grid: quadtree::Grid, leaf: quadtree::Leaf)
    requires
        grid.wf(),
        grid.has(leaf),
    ensures
        ({
            let c = grid.corner_points(leaf);
            let center = grid.center_point(leaf);
            let side = 2 * grid.scale(leaf.level);
            &&& c.len() == 4
            &&& c[2].x == c[0].x + side && c[2].y == c[0].y + side
            &&& c[1] == (quadtree::Lattice { x: c[2].x, y: c[0].y })
            &&& c[3] == (quadtree::Lattice { x: c[0].x, y: c[2].y })
            &&& 2 * center.x == c[0].x + c[2].x
            &&& 2 * center.y == c[0].y + c[2].y
            &&& c[0].x == 2 * (leaf.x * grid.scale(leaf.level))
            &&& c[0].y == 2 * (leaf.y * grid.scale(leaf.level))
            &&& forall|next: quadtree::Leaf|
                next.level == leaf.level && next.x == leaf.x + 1 && next.y == leaf.y ==> (
                #[trigger] grid.corner_points(next))[0] == c[1] && grid.corner_points(next)[3]
                    == c[2]
            &&& forall|next: quadtree::Leaf|
                next.level == leaf.level && next.x == leaf.x && next.y == leaf.y + 1 ==> (
                #[trigger] grid.corner_points(next))[0] == c[3] && grid.corner_points(next)[1]
                    == c[2]
        }),
{
    grid.scale_facts(leaf);
    let s = grid.scale(leaf.level) as int;
    assert((leaf.x + 1) * s == leaf.x * s + s) by (nonlinear_arith);
    assert((leaf.y + 1) * s == leaf.y * s + s) by (nonlinear_arith);
    assert(grid.width() <= 0x1_0000_0000 && grid.height() <= 0x1_0000_0000);
}

/// A quarter of the way lies in the lower half, three quarters in the upper.
pub proof fn quarters_of_the_way(a: int, b: int)
    requires
        a < b,
    ensures
        a <= along(a, b, false) < b,
        a <= along(a, b, true) < b,
        b - a > 1 ==> 2 * (along(a, b, false) - a) < b - a,
        b - a > 1 && (b - a) % 2 == 0 ==> 2 * (along(a, b, true) - a) >= b - a,
{
}

/// The fine cell lies just beyond a side of the square.
pub open spec fn beyond_side(grid: quadtree::Grid, leaf: quadtree::Leaf, side: int, x: int, y: int) -> bool {
    let s = grid.scale(leaf.level);
    let in_x = leaf.x * s <= x < (leaf.x + 1) * s;
    let in_y = leaf.y * s <= y < (leaf.y + 1) * s;
    ||| side == 0 && in_x && y == leaf.y * s - 1
    ||| side == 1 && in_y && x == (leaf.x + 1) * s
    ||| side == 2 && in_x && y == (leaf.y + 1) * s
    ||| side == 3 && in_y && x == leaf.x * s - 1
}

/// A neighbour across a side of a square is the leaf that holds a fine cell just beyond
/// that side; there is none where the side lies on the edge of the grid.
pub proof fn neighbor_lies_beyond_side(
    grid: quadtree::Grid,
    leaves: Set<quadtree::Leaf>,
    leaf: quadtree::Leaf,
    side: int,
    upper: bool,
)
    requires
        grid.wf(),
        grid.has(leaf),
        0 <= side < 4,
    ensures
        quadtree::neighbor_of(grid, leaves, leaf, side, upper) matches Some(other) ==> {
            &&& leaves.contains(other)
            &&& exists|x: int, y: int|
                beyond_side(grid, leaf, side, x, y) && #[trigger] grid.covers(other, x, y)
        },
        side == 0 && leaf.y == 0 ==> quadtree::neighbor_of(grid, leaves, leaf, side, upper) is None,
        side == 3 && leaf.x == 0 ==> quadtree::neighbor_of(grid, leaves, leaf, side, upper) is None,
{
    grid.scale_facts(leaf);
    let s = grid.scale(leaf.level) as int;
    let (x0, x1) = (leaf.x * s, (leaf.x + 1) * s);
    let (y0, y1) = (leaf.y * s, (leaf.y + 1) * s);
    quarters_of_the_way(x0, x1);
    quarters_of_the_way(y0, y1);
    let (x, y) = if side == 0 {
        (along(x0, x1, upper), y0 - 1)
    } else if side == 1 {
        (x1, along(y0, y1, upper))
    } else if side == 2 {
        (along(x0, x1, upper), y1)
    } else {
        (x0 - 1, along(y0, y1, upper))
    };
    if let Some(other) = quadtree::neighbor_of(grid, leaves, leaf, side, upper) {
        quadtree::owner_is_deepest_cover(grid, leaves, grid.max_depth as nat, x, y);
        assert(beyond_side(grid, leaf, side, x, y));
        assert(grid.covers(other, x, y));
    }
    assert(0int * s == 0) by (nonlinear_arith);
}

/// The fine cell lies just beyond a side of the cube.
pub open spec fn beyond_face(
    grid: octree::Grid,
    leaf: octree::Leaf,
    side: int,
    x: int,
    y: int,
    z: int,
) -> bool {
    let s = grid.scale(leaf.level);
    let in_x = leaf.x * s <= x < (leaf.x + 1) * s;
    let in_y = leaf.y * s <= y < (leaf.y + 1) * s;
    let in_z = leaf.z * s <= z < (leaf.z + 1) * s;
    ||| side == 0 && in_x && in_y && z == leaf.z * s - 1
    ||| side == 1 && in_x && in_y && z == (leaf.z + 1) * s
    ||| side == 2 && in_x && in_z && y == leaf.y * s - 1
    ||| side == 3 && in_y && in_z && x == (leaf.x + 1) * s
    ||| side == 4 && in_x && in_z && y == (leaf.y + 1) * s
    ||| side == 5 && in_y && in_z && x == leaf.x * s - 1
}

/// A neighbour across a side of a cube is the leaf that holds a fine cell just beyond
/// that side. The four places look into the four quarters of the side.
pub proof fn neighbor_lies_beyond_face(
    grid: octree::Grid,
    leaves: Set<octree::Leaf>,
    leaf: octree::Leaf,
    side: int,
    place: int,
)
    requires
        grid.wf(),
        grid.has(leaf),
        0 <= side < 6,
        0 <= place < 4,
    ensures
        octree::neighbor_of(grid, leaves, leaf, side, place) matches Some(other) ==> {
            &&& leaves.contains(other)
            &&& exists|x: int, y: int, z: int|
                beyond_face(grid, leaf, side, x, y, z) && #[trigger] grid.covers(other, x, y, z)
        },
        octree::probe(grid, leaf, side, place) matches Some((x, y, z)) ==> beyond_face(
            grid,
            leaf,
            side,
            x,
            y,
            z,
        ),
        octree::on_upper(0, false) == octree::on_upper(3, false),
        octree::on_upper(1, false) == octree::on_upper(2, false),
        octree::on_upper(0, true) == octree::on_upper(1, true),
        octree::on_upper(2, true) == octree::on_upper(3, true),
        octree::on_upper(0, false) != octree::on_upper(1, false),
        octree::on_upper(0, true) != octree::on_upper(3, true),
{
    grid.scale_facts(leaf);
    let s = grid.scale(leaf.level) as int;
    let (x0, x1) = (leaf.x * s, (leaf.x + 1) * s);
    let (y0, y1) = (leaf.y * s, (leaf.y + 1) * s);
    let (z0, z1) = (leaf.z * s, (leaf.z + 1) * s);
    quarters_of_the_way(x0, x1);
    quarters_of_the_way(y0, y1);
    quarters_of_the_way(z0, z1);
    if let Some((x, y, z)) = octree::probe(grid, leaf, side, place) {
        assert(beyond_face(grid, leaf, side, x, y, z));
        octree::owner_is_deepest_cover(grid, leaves, grid.max_depth as nat, x, y, z);
        if let Some(other) = octree::neighbor_of(grid, leaves, leaf, side, place) {
            assert(grid.covers(other, x, y, z));
        }
    }
}

/// The ring of a square is its corners in order, each followed by the point halfway to
/// the next one exactly where smaller leaves lie beyond that side.
pub proof fn ring_has_corners_and_middles(tree: quadtree::LeafIndex, leaf: quadtree::Leaf, side: int)
    requires
        tree.wf(),
        tree.grid.has(leaf),
        0 <= side < 4,
    ensures
        ({
            let ring = tree.ring_of(leaf);
            let c = tree.grid.corner_points(leaf);
            let split = |s: int| quadtree::finer_neighbor(tree.grid, tree.leaves@, leaf, s);
            let one = |s: int|
                if split(s) {
                    1int
                } else {
                    0
                };
            let at = side + (if side > 0 {
                one(0)
            } else {
                0
            }) + (if side > 1 {
                one(1)
            } else {
                0
            }) + (if side > 2 {
                one(2)
            } else {
                0
            });
            let next = c[(side + 1) % 4];
            &&& ring.len() == 4 + one(0) + one(1) + one(2) + one(3)
            &&& ring[at] == c[side]
            &&& split(side) ==> 2 * ring[at + 1].x == c[side].x + next.x && 2 * ring[at + 1].y
                == c[side].y + next.y
        }),
{
    corners_bound_square(tree.grid, leaf);
    let c = tree.grid.corner_points(leaf);
    let ring = tree.ring_of(leaf);
    let grid = tree.grid;
    let split = |s: int| quadtree::finer_neighbor(grid, tree.leaves@, leaf, s);
    assert(c[0].x % 2 == 0 && c[0].y % 2 == 0 && c[2].x % 2 == 0 && c[2].y % 2 == 0);
    assert(grid.width() <= 0x1_0000_0000 && grid.height() <= 0x1_0000_0000);
    grid.scale_facts(leaf);
    let with = |s: int, n: int|
        if split(s) {
            seq![c[s], quadtree::middle(c[s], c[n])]
        } else {
            seq![c[s]]
        };
    assert(ring =~= with(0, 1) + with(1, 2) + with(2, 3) + with(3, 0));
}

} // verus!
