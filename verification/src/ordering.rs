//! The order in which the cells of a plane mesh are written: along a Morton
//! curve.

use vstd::arithmetic::power2::pow2;
use vstd::prelude::*;

#[allow(unused_imports)]
use crate::background::interleave2;
use crate::sorted::sort_keys;
#[allow(unused_imports)]
use crate::sorted::{ordered, rearranged};
use crate::topology::Cell;
#[allow(unused_imports)]
use crate::topology::{cell_views, CellView};

verus! {

pub open spec fn pow4(exponent: nat) -> nat
    decreases exponent,
{
    if exponent == 0 {
        1
    } else {
        4 * pow4((exponent - 1) as nat)
    }
}

proof fn interleave2_bound(x: nat, y: nat, bits: nat)
    ensures
        interleave2(x, y, bits) < pow4(bits),
    decreases bits,
{
    if bits > 0 {
        interleave2_bound(x / 2, y / 2, (bits - 1) as nat);
    }
}

proof fn pow4_grows(a: nat, b: nat)
    requires
        a <= b,
    ensures
        pow4(a) <= pow4(b),
    decreases b,
{
    if a < b {
        pow4_grows(a, (b - 1) as nat);
    }
}

fn morton2_bits(x: u32, y: u32, bits: u32) -> (result: u64)
    requires
        bits <= 32,
    ensures
        result == interleave2(x as nat, y as nat, bits as nat),
    decreases bits,
{
    if bits == 0 {
        return 0;
    }
    let rest: u64 = morton2_bits(x / 2, y / 2, bits - 1);
    proof {
        interleave2_bound(x as nat / 2, y as nat / 2, (bits - 1) as nat);
        reveal_with_fuel(pow4, 32);
        pow4_grows((bits - 1) as nat, 31);
        assert(pow4(31) == 0x4000_0000_0000_0000);
    }
    (x % 2) as u64 + 2 * (y % 2) as u64 + 4 * rest
}

/// The Morton code of two coordinates: bit `i` of `x` and `y` goes to bits `2i`
/// and `2i + 1`.
pub fn morton2(x: u32, y: u32) -> (result: u64)
    ensures
        result == interleave2(x as nat, y as nat, 32),
{
    morton2_bits(x, y, 32)
}

/// The code tells the coordinates.
pub proof fn morton2_tells_coordinates(x: nat, y: nat, u: nat, v: nat, bits: nat)
    requires
        interleave2(x, y, bits) == interleave2(u, v, bits),
        x < pow2(bits),
        y < pow2(bits),
        u < pow2(bits),
        v < pow2(bits),
    ensures
        x == u,
        y == v,
    decreases bits,
{
    if bits > 0 {
        vstd::arithmetic::power2::lemma_pow2_unfold(bits);
        morton2_tells_coordinates(x / 2, y / 2, u / 2, v / 2, (bits - 1) as nat);
    } else {
        vstd::arithmetic::power2::lemma2_to64();
    }
}

/// The codes of the centers, each with its place.
pub open spec fn coded_places(centers: Seq<[u32; 2]>) -> Seq<(u64, usize)> {
    Seq::new(
        centers.len(),
        |i: int|
            (
                interleave2(centers[i][0] as nat, centers[i][1] as nat, 32) as u64,
                i as usize,
            ),
    )
}

/// The cells in the order of the coded places.
pub open spec fn placed_cells(cells: Seq<CellView>, order: Seq<(u64, usize)>) -> Seq<CellView> {
    Seq::new(order.len(), |i: int| cells[order[i].1 as int])
}

/// Sorts the cells by the Morton codes of their centers; cells with one code
/// keep their order.
pub fn sort_cells_morton(cells: &mut Vec<Cell>, centers: &Vec<[u32; 2]>)
    requires
        centers@.len() == old(cells)@.len(),
    ensures
        exists|order: Seq<(u64, usize)>|
            ordered(order) && order.to_multiset() == coded_places(centers@).to_multiset()
                && cell_views(final(cells)@) == #[trigger] placed_cells(
                cell_views(old(cells)@),
                order,
            ),
{
    let ghost views = cell_views(cells@);
    let mut order: Vec<(u64, usize)> = Vec::new();
    let mut i: usize = 0;
    while i < centers.len()
        invariant
            i <= centers@.len(),
            order@ == coded_places(centers@).take(i as int),
        decreases centers@.len() - i,
    {
        order.push((morton2(centers[i][0], centers[i][1]), i));
        assert(order@ =~= coded_places(centers@).take(i + 1));
        i = i + 1;
    }
    assert(coded_places(centers@).take(i as int) =~= coded_places(centers@));
    let ghost before = order@;
    sort_keys(&mut order);
    proof {
        rearranged(order@, before);
        assert forall|k: int| 0 <= k < order@.len() implies (#[trigger] order@[k]).1
            < cells@.len() by {
            assert(order@.contains(order@[k]));
            assert(before.contains(order@[k]));
            let p = before.index_of(order@[k]);
            assert(before[p].1 == p as usize);
        }
    }
    let mut list: Vec<Cell> = Vec::new();
    let mut k: usize = 0;
    assert(cell_views(list@) =~= placed_cells(views, order@).take(0));
    while k < order.len()
        invariant
            k <= order@.len(),
            views == cell_views(cells@),
            forall|p: int| 0 <= p < order@.len() ==> (#[trigger] order@[p]).1 < cells@.len(),
            cell_views(list@) == placed_cells(views, order@).take(k as int),
        decreases order@.len() - k,
    {
        let ghost so_far = list@;
        assert(order@[k as int].1 < cells@.len());
        let cell = cells[order[k].1].copy();
        list.push(cell);
        assert(cell@ == views[order@[k as int].1 as int]);
        assert(cell_views(list@) =~= cell_views(so_far).push(cell@));
        assert(cell_views(list@) =~= placed_cells(views, order@).take(k + 1));
        k = k + 1;
    }
    assert(placed_cells(views, order@).take(k as int) =~= placed_cells(views, order@));
    *cells = list;
}

/// Sorting keeps the cells: each is there as often as before.
pub proof fn sorting_keeps_cells(
    cells: Seq<CellView>,
    centers: Seq<[u32; 2]>,
    order: Seq<(u64, usize)>,
    place: int,
)
    requires
        centers.len() == cells.len(),
        cells.len() <= usize::MAX,
        ordered(order),
        order.to_multiset() == coded_places(centers).to_multiset(),
        0 <= place < cells.len(),
    ensures
        placed_cells(cells, order).len() == cells.len(),
        exists|k: int|
            0 <= k < order.len() && #[trigger] order[k].1 == place && placed_cells(cells, order)[k]
                == cells[place],
        forall|i: int, j: int|
            0 <= i < order.len() && 0 <= j < order.len() && (#[trigger] order[i]).1 == (
            #[trigger] order[j]).1 ==> i == j,
{
    let coded = coded_places(centers);
    rearranged(order, coded);
    assert(coded.no_duplicates()) by {
        assert forall|i: int, j: int| 0 <= i < coded.len() && 0 <= j < coded.len() && i != j implies coded[i]
            != coded[j] by {
            assert(coded[i].1 == i as usize);
            assert(coded[j].1 == j as usize);
        }
    }
    assert(coded.contains(coded[place]));
    assert(order.contains(coded[place]));
    let k = order.index_of(coded[place]);
    assert(order[k].1 == place);
    assert forall|i: int, j: int| 0 <= i < order.len() && 0 <= j < order.len() && (
    #[trigger] order[i]).1 == (#[trigger] order[j]).1 implies i == j by {
        assert(order.contains(order[i]));
        assert(order.contains(order[j]));
        let p = coded.index_of(order[i]);
        let q = coded.index_of(order[j]);
        assert(coded[p].1 == p as usize);
        assert(coded[q].1 == q as usize);
    }
}

} // verus!
