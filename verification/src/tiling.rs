//! Cutting the elements of a volume mesh into tiles that each fit a chunk.

use vstd::prelude::*;

#[allow(unused_imports)]
use crate::chunk::held;
#[allow(unused_imports)]
use crate::emission::point_lists;
#[allow(unused_imports)]
use crate::error::fails_limit;
use crate::error::MeshResult;
#[allow(unused_imports)]
use crate::partition::{exhausted_message, indivisible_message, tiles_cover};
use crate::partition::{Partition, Tile};
use crate::sorted::SortedSet;
use crate::volume_emission::volume_tile_bytes;
#[allow(unused_imports)]
use crate::volume_emission::{corner_total, faces_owned, stored_total, tile_bytes};

verus! {

/// The points that some elements use.
pub open spec fn points_used(elements: Seq<Seq<usize>>, start: int, count: int) -> Set<usize>
    decreases count,
{
    if count <= 0 {
        Set::empty()
    } else {
        points_used(elements, start, count - 1).union(elements[start + count - 1].to_set())
    }
}

/// The bytes that a tile takes, capped to what a number holds.
pub open spec fn tile_weight(elements: Seq<Seq<usize>>, owners: Seq<usize>, tile: Tile) -> nat {
    held(
        tile_bytes(
            points_used(elements, tile.start as int, tile.end - tile.start).len(),
            elements,
            owners,
            tile,
        ),
    )
}

/// What tiles are held against.
pub struct TileLimits {
    pub byte_budget: usize,
    pub row_limit: usize,
}

/// The tile may stand as it is.
pub open spec fn tile_fits(
    elements: Seq<Seq<usize>>,
    owners: Seq<usize>,
    limits: TileLimits,
    tile: Tile,
) -> bool {
    tile_weight(elements, owners, tile) <= limits.byte_budget && tile.size() <= limits.row_limit
}

/// The two halves of a tile.
pub open spec fn left_half(tile: Tile) -> Tile {
    Tile { start: tile.start, end: (tile.start + (tile.end - tile.start) / 2) as usize }
}

pub open spec fn right_half(tile: Tile) -> Tile {
    Tile { start: (tile.start + (tile.end - tile.start) / 2) as usize, end: tile.end }
}

/// The tiles into which a tile falls: itself where it fits or cannot be cut,
/// else those of its halves.
pub open spec fn pieces(
    elements: Seq<Seq<usize>>,
    owners: Seq<usize>,
    limits: TileLimits,
    tile: Tile,
) -> Seq<Tile>
    decreases tile.end - tile.start,
{
    if tile_fits(elements, owners, limits, tile) || tile.end - tile.start <= 1 {
        seq![tile]
    } else {
        pieces(elements, owners, limits, left_half(tile)) + pieces(
            elements,
            owners,
            limits,
            right_half(tile),
        )
    }
}

/// Every tile may stand as it is.
pub open spec fn all_fit(
    elements: Seq<Seq<usize>>,
    owners: Seq<usize>,
    limits: TileLimits,
    tiles: Seq<Tile>,
) -> bool {
    forall|i: int|
        0 <= i < tiles.len() ==> tile_fits(elements, owners, limits, #[trigger] tiles[i])
}

/// The pieces of all tiles, in order.
spec fn all_pieces(
    elements: Seq<Seq<usize>>,
    owners: Seq<usize>,
    limits: TileLimits,
    tiles: Seq<Tile>,
) -> Seq<Tile>
    decreases tiles.len(),
{
    if tiles.len() == 0 {
        seq![]
    } else {
        all_pieces(elements, owners, limits, tiles.drop_last()) + pieces(
            elements,
            owners,
            limits,
            tiles.last(),
        )
    }
}

proof fn pieces_join(
    elements: Seq<Seq<usize>>,
    owners: Seq<usize>,
    limits: TileLimits,
    a: Seq<Tile>,
    b: Seq<Tile>,
)
    ensures
        all_pieces(elements, owners, limits, a + b) == all_pieces(elements, owners, limits, a)
            + all_pieces(elements, owners, limits, b),
    decreases b.len(),
{
    if b.len() == 0 {
        assert(a + b =~= a);
        assert(all_pieces(elements, owners, limits, a) + all_pieces(elements, owners, limits, b)
            =~= all_pieces(elements, owners, limits, a));
    } else {
        pieces_join(elements, owners, limits, a, b.drop_last());
        assert((a + b).drop_last() =~= a + b.drop_last());
        assert((a + b).last() == b.last());
        assert(all_pieces(elements, owners, limits, a + b) =~= all_pieces(
            elements,
            owners,
            limits,
            a,
        ) + all_pieces(elements, owners, limits, b));
    }
}

proof fn pieces_of_two(
    elements: Seq<Seq<usize>>,
    owners: Seq<usize>,
    limits: TileLimits,
    a: Tile,
    b: Tile,
)
    ensures
        all_pieces(elements, owners, limits, seq![a]) == pieces(elements, owners, limits, a),
        all_pieces(elements, owners, limits, seq![a, b]) == pieces(elements, owners, limits, a)
            + pieces(elements, owners, limits, b),
{
    reveal_with_fuel(all_pieces, 2);
    assert(seq![a].drop_last() =~= Seq::<Tile>::empty());
    assert(seq![a, b].drop_last() =~= seq![a]);
    assert(all_pieces(elements, owners, limits, seq![a]) =~= pieces(elements, owners, limits, a));
}

/// There are at least as many pieces as tiles.
proof fn pieces_count(
    elements: Seq<Seq<usize>>,
    owners: Seq<usize>,
    limits: TileLimits,
    tiles: Seq<Tile>,
)
    ensures
        all_pieces(elements, owners, limits, tiles).len() >= tiles.len(),
    decreases tiles.len(),
{
    if tiles.len() > 0 {
        pieces_count(elements, owners, limits, tiles.drop_last());
        some_pieces(elements, owners, limits, tiles.last());
    }
}

proof fn some_pieces(
    elements: Seq<Seq<usize>>,
    owners: Seq<usize>,
    limits: TileLimits,
    tile: Tile,
)
    ensures
        pieces(elements, owners, limits, tile).len() >= 1,
        !tile_fits(elements, owners, limits, tile) && tile.end - tile.start > 1 ==> pieces(
            elements,
            owners,
            limits,
            tile,
        ).len() >= 2,
    decreases tile.end - tile.start,
{
    if !tile_fits(elements, owners, limits, tile) && tile.end - tile.start > 1 {
        some_pieces(elements, owners, limits, left_half(tile));
        some_pieces(elements, owners, limits, right_half(tile));
    }
}

/// Tiles that fit are their own pieces.
proof fn pieces_of_fitting(
    elements: Seq<Seq<usize>>,
    owners: Seq<usize>,
    limits: TileLimits,
    tiles: Seq<Tile>,
)
    requires
        all_fit(elements, owners, limits, tiles),
    ensures
        all_pieces(elements, owners, limits, tiles) == tiles,
    decreases tiles.len(),
{
    if tiles.len() > 0 {
        assert(all_fit(elements, owners, limits, tiles.drop_last())) by {
            assert forall|i: int| 0 <= i < tiles.drop_last().len() implies tile_fits(
                elements,
                owners,
                limits,
                #[trigger] tiles.drop_last()[i],
            ) by {
                assert(tile_fits(elements, owners, limits, tiles[i]));
            }
        }
        pieces_of_fitting(elements, owners, limits, tiles.drop_last());
        assert(tile_fits(elements, owners, limits, tiles[tiles.len() - 1]));
        assert(all_pieces(elements, owners, limits, tiles) =~= tiles);
    } else {
        assert(tiles =~= seq![]);
    }
}

/// A tile among others leaves its pieces among theirs.
proof fn piece_of_tile(
    elements: Seq<Seq<usize>>,
    owners: Seq<usize>,
    limits: TileLimits,
    tiles: Seq<Tile>,
    at: int,
)
    requires
        0 <= at < tiles.len(),
    ensures
        all_pieces(elements, owners, limits, tiles) == all_pieces(
            elements,
            owners,
            limits,
            tiles.take(at),
        ) + pieces(elements, owners, limits, tiles[at]) + all_pieces(
            elements,
            owners,
            limits,
            tiles.skip(at + 1),
        ),
{
    let one = seq![tiles[at]];
    pieces_of_two(elements, owners, limits, tiles[at], tiles[at]);
    pieces_join(elements, owners, limits, tiles.take(at), one);
    pieces_join(elements, owners, limits, tiles.take(at) + one, tiles.skip(at + 1));
    assert(tiles =~= tiles.take(at) + one + tiles.skip(at + 1));
}

/// Cutting a tile that does not fit leaves all pieces as they are.
proof fn cutting_keeps_pieces(
    elements: Seq<Seq<usize>>,
    owners: Seq<usize>,
    limits: TileLimits,
    tiles: Seq<Tile>,
    at: int,
)
    requires
        0 <= at < tiles.len(),
        !tile_fits(elements, owners, limits, tiles[at]),
        tiles[at].end - tiles[at].start > 1,
    ensures
        all_pieces(
            elements,
            owners,
            limits,
            tiles.update(at, left_half(tiles[at])).insert(at + 1, right_half(tiles[at])),
        ) == all_pieces(elements, owners, limits, tiles),
{
    let left = left_half(tiles[at]);
    let right = right_half(tiles[at]);
    let after = tiles.update(at, left).insert(at + 1, right);
    let head = tiles.take(at);
    let tail = tiles.skip(at + 1);
    assert(after =~= head + seq![left, right] + tail);
    pieces_join(elements, owners, limits, head, seq![left, right]);
    pieces_join(elements, owners, limits, head + seq![left, right], tail);
    pieces_of_two(elements, owners, limits, left, right);
    piece_of_tile(elements, owners, limits, tiles, at);
}

/// A tile that must be cut makes for more pieces than tiles.
proof fn cutting_adds_pieces(
    elements: Seq<Seq<usize>>,
    owners: Seq<usize>,
    limits: TileLimits,
    tiles: Seq<Tile>,
    at: int,
)
    requires
        0 <= at < tiles.len(),
        !tile_fits(elements, owners, limits, tiles[at]),
        tiles[at].end - tiles[at].start > 1,
    ensures
        all_pieces(elements, owners, limits, tiles).len() > tiles.len(),
{
    piece_of_tile(elements, owners, limits, tiles, at);
    pieces_count(elements, owners, limits, tiles.take(at));
    pieces_count(elements, owners, limits, tiles.skip(at + 1));
    some_pieces(elements, owners, limits, tiles[at]);
}

/// A tile of one element is among the pieces.
proof fn single_is_a_piece(
    elements: Seq<Seq<usize>>,
    owners: Seq<usize>,
    limits: TileLimits,
    tiles: Seq<Tile>,
    at: int,
)
    requires
        0 <= at < tiles.len(),
        tiles[at].end - tiles[at].start == 1,
    ensures
        all_pieces(elements, owners, limits, tiles).contains(tiles[at]),
{
    piece_of_tile(elements, owners, limits, tiles, at);
    let head = all_pieces(elements, owners, limits, tiles.take(at));
    assert(pieces(elements, owners, limits, tiles[at]) =~= seq![tiles[at]]);
    assert(all_pieces(elements, owners, limits, tiles)[head.len() as int] == tiles[at]);
}

/// No element takes no bytes.
proof fn empty_tile_fits(
    elements: Seq<Seq<usize>>,
    owners: Seq<usize>,
    limits: TileLimits,
    tile: Tile,
)
    requires
        tile.start == tile.end,
    ensures
        tile_fits(elements, owners, limits, tile),
{
    none_owned(owners, tile, owners.len() as int);
    assert(points_used(elements, tile.start as int, 0).len() == 0);
    assert(tile_bytes(0, elements, owners, tile) == 0) by (nonlinear_arith)
        requires
            stored_total(elements, tile.start as int, tile.end - tile.start) == 0,
            corner_total(elements, tile.start as int, tile.end - tile.start) == 0,
            faces_owned(owners, tile, owners.len() as int) == 0,
    ;
}

proof fn none_owned(owners: Seq<usize>, tile: Tile, count: int)
    requires
        tile.start == tile.end,
    ensures
        faces_owned(owners, tile, count) == 0,
    decreases count,
{
    if count > 0 {
        none_owned(owners, tile, count - 1);
    }
}

/// How many points the elements of a tile use.
pub fn count_points(elements: &Vec<Vec<usize>>, tile: Tile) -> (result: usize)
    requires
        tile.start <= tile.end <= elements@.len(),
    ensures
        result == points_used(
            point_lists(elements@),
            tile.start as int,
            tile.end - tile.start,
        ).len(),
{
    let ghost lists = point_lists(elements@);
    let mut set: SortedSet<usize> = SortedSet::new();
    let mut i: usize = tile.start;
    while i < tile.end
        invariant
            tile.start <= i <= tile.end <= elements@.len(),
            lists == point_lists(elements@),
            set.wf(),
            set@.finite(),
            set@ == points_used(lists, tile.start as int, i - tile.start),
            set.items@.len() == set@.len(),
        decreases tile.end - i,
    {
        assert(lists[i as int] == elements@[i as int]@);
        let ghost held = set@;
        let element = &elements[i];
        let mut k: usize = 0;
        while k < element.len()
            invariant
                k <= element@.len(),
                set.wf(),
                set@.finite(),
                set@ == held.union(element@.take(k as int).to_set()),
                set.items@.len() == set@.len(),
            decreases element@.len() - k,
        {
            let ghost before = set@;
            set.insert(element[k]);
            assert(element@.take(k + 1) =~= element@.take(k as int).push(element@[k as int]));
            assert(set@ =~= held.union(element@.take(k + 1).to_set())) by {
                assert forall|point: usize| element@.take(k + 1).to_set().contains(point) == (
                element@.take(k as int).to_set().contains(point) || point == element@[k as int]) by {
                    let head = element@.take(k as int);
                    let more = element@.take(k + 1);
                    if head.contains(point) {
                        let p = head.index_of(point);
                        assert(more[p] == point);
                    }
                    assert(more[k as int] == element@[k as int]);
                    if more.contains(point) && point != element@[k as int] {
                        let p = more.index_of(point);
                        assert(head[p] == point);
                    }
                }
            }
            k += 1;
        }
        assert(element@.take(k as int) =~= element@);
        i += 1;
    }
    set.items.len()
}

/// Cuts the elements into tiles, in order, by halving whatever does not fit.
pub fn partition_volume(
    elements: &Vec<Vec<usize>>,
    owners: &Vec<usize>,
    limits: &TileLimits,
    max_tiles: usize,
) -> (result: MeshResult<Vec<Tile>>)
    ensures
        ({
            let lists = point_lists(elements@);
            let whole = Tile { start: 0, end: elements@.len() as usize };
            let wanted = pieces(lists, owners@, *limits, whole);
            &&& max_tiles == 0 ==> fails_limit(
                result,
                "DistMesh exhausted the configured chunk limit"@,
            )
            &&& result is Ok <==> wanted.len() <= max_tiles && all_fit(
                lists,
                owners@,
                *limits,
                wanted,
            )
            &&& result matches Ok(tiles) ==> tiles@ == wanted && tiles_cover(
                tiles@,
                elements@.len() as usize,
            )
            &&& result is Err && max_tiles != 0 ==> {
                ||| fails_limit(result, exhausted_message(max_tiles)) && wanted.len() > max_tiles
                ||| exists|tile: Tile|
                    #![trigger tile_weight(lists, owners@, tile)]
                    wanted.contains(tile) && tile.size() == 1 && !tile_fits(
                        lists,
                        owners@,
                        *limits,
                        tile,
                    ) && fails_limit(
                        result,
                        indivisible_message(
                            tile_weight(lists, owners@, tile) as usize,
                            1,
                            limits.byte_budget,
                            limits.row_limit,
                        ),
                    )
            }
        }),
{
    let ghost lists = point_lists(elements@);
    let ghost whole = Tile { start: 0, end: elements@.len() as usize };
    let ghost wanted = pieces(lists, owners@, *limits, whole);
    proof {
        some_pieces(lists, owners@, *limits, whole);
    }
    let mut partition = match Partition::by_budget(
        elements.len(),
        limits.byte_budget,
        limits.row_limit,
        max_tiles,
    ) {
        Ok(partition) => partition,
        Err(error) => {
            return Err(error);
        },
    };
    proof {
        pieces_of_two(lists, owners@, *limits, whole, whole);
        assert(partition.tiles@ =~= seq![whole]);
    }
    while partition.index < partition.tiles.len()
        invariant
            lists == point_lists(elements@),
            whole == (Tile { start: 0, end: elements@.len() as usize }),
            wanted == pieces(lists, owners@, *limits, whole),
            partition.wf(),
            partition.elements == elements@.len(),
            partition.byte_budget == limits.byte_budget,
            partition.row_limit == limits.row_limit,
            partition.max_tiles == max_tiles,
            1 <= partition.tiles@.len() <= max_tiles,
            all_pieces(lists, owners@, *limits, partition.tiles@) == wanted,
            forall|k: int|
                0 <= k < partition.index ==> tile_fits(
                    lists,
                    owners@,
                    *limits,
                    #[trigger] partition.tiles@[k],
                ),
        decreases max_tiles - partition.tiles@.len(), partition.tiles@.len() - partition.index,
    {
        let ghost before = partition;
        let ghost at = partition.index as int;
        let tile = partition.tiles[partition.index];
        proof {
            tile_ends_inside(partition.tiles@, partition.elements, at);
        }
        let points: usize = count_points(elements, tile);
        let bytes: usize = volume_tile_bytes(points, elements, owners, tile);
        let rows: usize = tile.end - tile.start;
        assert(bytes == tile_weight(lists, owners@, tile));
        proof {
            if tile.start == tile.end {
                empty_tile_fits(lists, owners@, *limits, tile);
            }
            if !before.fits(bytes, rows) {
                assert(!tile_fits(lists, owners@, *limits, tile));
                if tile.end - tile.start == 1 {
                    single_is_a_piece(lists, owners@, *limits, before.tiles@, at);
                } else {
                    cutting_adds_pieces(lists, owners@, *limits, before.tiles@, at);
                    cutting_keeps_pieces(lists, owners@, *limits, before.tiles@, at);
                }
            }
        }
        let settled = partition.settle(bytes, rows);
        if let Err(error) = settled {
            proof {
                if tile.size() == 1 {
                    assert(wanted.contains(tile) && !tile_fits(lists, owners@, *limits, tile));
                    let p = wanted.index_of(tile);
                    assert(!tile_fits(lists, owners@, *limits, wanted[p]));
                }
            }
            return Err(error);
        }
        proof {
            if !before.fits(bytes, rows) {
                assert(partition.tiles@ =~= before.tiles@.update(at, left_half(tile)).insert(
                    at + 1,
                    right_half(tile),
                ));
                assert forall|k: int| 0 <= k < partition.index implies tile_fits(
                    lists,
                    owners@,
                    *limits,
                    #[trigger] partition.tiles@[k],
                ) by {
                    assert(partition.tiles@[k] == before.tiles@[k]);
                }
            }
        }
    }
    proof {
        pieces_of_fitting(lists, owners@, *limits, partition.tiles@);
    }
    Ok(partition.tiles)
}

proof fn tile_ends_inside(tiles: Seq<Tile>, elements: usize, at: int)
    requires
        tiles_cover(tiles, elements),
        0 <= at < tiles.len(),
    ensures
        tiles[at].start <= tiles[at].end <= elements,
    decreases tiles.len() - at,
{
    if at < tiles.len() - 1 {
        assert(tiles[at].end == tiles[at + 1].start);
        tile_ends_inside(tiles, elements, at + 1);
    }
}

/// A whole that fits is one tile; and where there are elements, no tile is
/// empty.
pub proof fn whole_or_nonempty_tiles(
    elements: Seq<Seq<usize>>,
    owners: Seq<usize>,
    limits: TileLimits,
    tile: Tile,
)
    requires
        tile.start <= tile.end,
    ensures
        tile_fits(elements, owners, limits, tile) ==> pieces(elements, owners, limits, tile)
            == seq![tile],
        tile.start < tile.end ==> forall|i: int|
            0 <= i < pieces(elements, owners, limits, tile).len() ==> (#[trigger] pieces(
                elements,
                owners,
                limits,
                tile,
            )[i]).start < pieces(elements, owners, limits, tile)[i].end,
    decreases tile.end - tile.start,
{
    if !tile_fits(elements, owners, limits, tile) && tile.end - tile.start > 1 {
        let left = pieces(elements, owners, limits, left_half(tile));
        let right = pieces(elements, owners, limits, right_half(tile));
        whole_or_nonempty_tiles(elements, owners, limits, left_half(tile));
        whole_or_nonempty_tiles(elements, owners, limits, right_half(tile));
        let both = pieces(elements, owners, limits, tile);
        assert(both == left + right);
        assert forall|i: int| 0 <= i < both.len() implies (#[trigger] both[i]).start
            < both[i].end by {
            if i < left.len() {
                assert(both[i] == left[i]);
            } else {
                assert(both[i] == right[i - left.len()]);
            }
        }
    }
}

/// The pieces of a tile follow one another through the whole of it without gap or
/// overlap, and each may stand as it is or holds one element.
pub proof fn pieces_cover_tile(
    elements: Seq<Seq<usize>>,
    owners: Seq<usize>,
    limits: TileLimits,
    tile: Tile,
)
    requires
        tile.start <= tile.end,
    ensures
        ({
            let list = pieces(elements, owners, limits, tile);
            &&& list.len() > 0
            &&& list[0].start == tile.start
            &&& list.last().end == tile.end
            &&& forall|i: int|
                0 <= i < list.len() - 1 ==> (#[trigger] list[i]).end == list[i + 1].start
            &&& forall|i: int|
                0 <= i < list.len() ==> (#[trigger] list[i]).start <= list[i].end && (tile_fits(
                    elements,
                    owners,
                    limits,
                    list[i],
                ) || list[i].end - list[i].start <= 1)
        }),
    decreases tile.end - tile.start,
{
    if !tile_fits(elements, owners, limits, tile) && tile.end - tile.start > 1 {
        pieces_cover_tile(elements, owners, limits, left_half(tile));
        pieces_cover_tile(elements, owners, limits, right_half(tile));
        let left = pieces(elements, owners, limits, left_half(tile));
        let right = pieces(elements, owners, limits, right_half(tile));
        let list = pieces(elements, owners, limits, tile);
        assert forall|i: int| 0 <= i < list.len() - 1 implies (#[trigger] list[i]).end == list[i
            + 1].start by {
            if i + 1 < left.len() {
                assert(list[i] == left[i] && list[i + 1] == left[i + 1]);
            } else if i + 1 == left.len() {
                assert(list[i] == left.last() && list[i + 1] == right[0]);
            } else {
                let k = i - left.len();
                assert(list[i] == right[k] && list[i + 1] == right[k + 1]);
            }
        }
        assert forall|i: int| 0 <= i < list.len() implies (#[trigger] list[i]).start <= list[i].end
            && (tile_fits(elements, owners, limits, list[i]) || list[i].end - list[i].start <= 1) by {
            if i < left.len() {
                assert(list[i] == left[i]);
            } else {
                assert(list[i] == right[i - left.len()]);
            }
        }
    }
}

/// The two halves of a tile share it out evenly.
pub proof fn halves_are_even(tile: Tile)
    requires
        tile.start <= tile.end,
    ensures
        left_half(tile).start == tile.start,
        left_half(tile).end == right_half(tile).start,
        right_half(tile).end == tile.end,
        0 <= right_half(tile).size() - left_half(tile).size() <= 1,
{
}

/// A tile uses the points of its elements and no others.
pub proof fn tile_uses_its_points(elements: Seq<Seq<usize>>, start: int, count: int, point: usize)
    requires
        0 <= count,
    ensures
        points_used(elements, start, count).contains(point) <==> exists|i: int|
            start <= i < start + count && (#[trigger] elements[i]).contains(point),
    decreases count,
{
    if count > 0 {
        tile_uses_its_points(elements, start, count - 1, point);
        let last = start + count - 1;
        if elements[last].contains(point) {
            assert(elements[last].to_set().contains(point));
        }
        if points_used(elements, start, count).contains(point) {
            if points_used(elements, start, count - 1).contains(point) {
                let i = choose|i: int|
                    start <= i < start + count - 1 && (#[trigger] elements[i]).contains(point);
                assert(elements[i].contains(point));
            } else {
                assert(elements[last].to_set().contains(point));
                assert(elements[last].contains(point));
            }
        }
    }
}

} // verus!
