//! Cutting a sorted list of elements into tiles that fit a budget.

use vstd::prelude::*;

use crate::error::{MeshError, MeshResult};
#[allow(unused_imports)]
use crate::error::fails_limit;
use crate::text::{append_decimal, sentence, sentence2};
#[allow(unused_imports)]
use crate::text::decimal;
use vstd::string::StringExecFns;

verus! {

/// A run of elements: from the first place up to, not including, the second.
#[derive(Debug, Clone, Copy, PartialEq, Eq, Structural)]
pub struct Tile {
    pub start: usize,
    pub end: usize,
}

impl Tile {
    pub open spec fn size(self) -> int {
        self.end - self.start
    }
}

/// The tiles follow one another from 0 to `elements` without gap or overlap.
pub open spec fn tiles_cover(tiles: Seq<Tile>, elements: usize) -> bool {
    &&& tiles.len() > 0
    &&& tiles[0].start == 0
    &&& tiles.last().end == elements
    &&& forall|i: int| 0 <= i < tiles.len() ==> (#[trigger] tiles[i]).start <= tiles[i].end
    &&& forall|i: int| 0 <= i < tiles.len() - 1 ==> (#[trigger] tiles[i]).end == tiles[i + 1].start
}

/// A partition in the making: the tiles before `index` are settled.
pub struct Partition {
    pub elements: usize,
    pub byte_budget: usize,
    pub row_limit: usize,
    pub max_tiles: usize,
    pub tiles: Vec<Tile>,
    pub index: usize,
}

pub open spec fn indivisible_message(bytes: usize, rows: usize, byte_budget: usize, row_limit: usize) -> Seq<
    char,
> {
    "one indivisible DistMesh element requires "@ + decimal(bytes as nat) + " bytes and "@ + decimal(
        rows as nat,
    ) + " rows, exceeding the "@ + decimal(byte_budget as nat) + " byte chunk target or "@
        + decimal(row_limit as nat) + " row limit"@
}

pub open spec fn exhausted_message(max_tiles: usize) -> Seq<char> {
    "DistMesh partitioning exhausted the configured "@ + decimal(max_tiles as nat)
        + " remaining chunks"@
}

impl Partition {
    pub open spec fn wf(self) -> bool {
        tiles_cover(self.tiles@, self.elements) && self.index <= self.tiles@.len()
    }

    /// Starts with one tile that holds everything.
    pub fn by_budget(elements: usize, byte_budget: usize, row_limit: usize, max_tiles: usize) -> (result:
        MeshResult<Partition>)
        ensures
            max_tiles == 0 ==> fails_limit(
                result,
                "DistMesh exhausted the configured chunk limit"@,
            ),
            max_tiles != 0 ==> (result matches Ok(partition) && partition.wf()
                && partition.elements == elements && partition.byte_budget == byte_budget
                && partition.row_limit == row_limit && partition.max_tiles == max_tiles
                && partition.index == 0 && partition.tiles@ == seq![
                Tile { start: 0, end: elements },
            ]),
    {
        if max_tiles == 0 {
            return Err(MeshError::limit_exceeded("DistMesh exhausted the configured chunk limit"));
        }
        let mut tiles: Vec<Tile> = Vec::new();
        tiles.push(Tile { start: 0, end: elements });
        assert(tiles@ =~= seq![Tile { start: 0, end: elements }]);
        Ok(Partition { elements, byte_budget, row_limit, max_tiles, tiles, index: 0 })
    }

    /// The tile to measure next; `None` when every tile is settled.
    pub fn current(&self) -> (result: Option<Tile>)
        requires
            self.wf(),
        ensures
            result == (if self.index < self.tiles@.len() {
                Some(self.tiles@[self.index as int])
            } else {
                None
            }),
    {
        if self.index < self.tiles.len() {
            Some(self.tiles[self.index])
        } else {
            None
        }
    }

    /// The tile fits.
    pub open spec fn fits(self, bytes: usize, rows: usize) -> bool {
        bytes <= self.byte_budget && rows <= self.row_limit
    }

    /// The tiles with the current one cut in the middle.
    pub open spec fn halved(self) -> Seq<Tile> {
        let tile = self.tiles@[self.index as int];
        let middle = (tile.start + (tile.end - tile.start) / 2) as usize;
        self.tiles@.update(self.index as int, Tile { start: tile.start, end: middle }).insert(
            self.index + 1,
            Tile { start: middle, end: tile.end },
        )
    }

    /// Takes what the current tile needs: settles it where it fits, else cuts
    /// it in two. One element cannot be cut.
    pub fn settle(&mut self, bytes: usize, rows: usize) -> (result: MeshResult<()>)
        requires
            old(self).wf(),
            old(self).index < old(self).tiles@.len(),
        ensures
            final(self).wf(),
            final(self).elements == old(self).elements,
            final(self).byte_budget == old(self).byte_budget,
            final(self).row_limit == old(self).row_limit,
            final(self).max_tiles == old(self).max_tiles,
            old(self).fits(bytes, rows) ==> result is Ok && final(self).index == old(self).index + 1
                && final(self).tiles@ == old(self).tiles@,
            !old(self).fits(bytes, rows) ==> final(self).index == old(self).index,
            !old(self).fits(bytes, rows) && old(self).tiles@[old(self).index as int].size() == 1
                ==> fails_limit(
                result,
                indivisible_message(bytes, rows, old(self).byte_budget, old(self).row_limit),
            ) && final(self).tiles@ == old(self).tiles@,
            !old(self).fits(bytes, rows) && old(self).tiles@[old(self).index as int].size() != 1
                && old(self).tiles@.len() >= old(self).max_tiles ==> fails_limit(
                result,
                exhausted_message(old(self).max_tiles),
            ) && final(self).tiles@ == old(self).tiles@,
            !old(self).fits(bytes, rows) && old(self).tiles@[old(self).index as int].size() != 1
                && old(self).tiles@.len() < old(self).max_tiles ==> result is Ok
                && final(self).tiles@ == old(self).halved(),
    {
        let count: usize = self.tiles.len();
        if bytes <= self.byte_budget && rows <= self.row_limit {
            self.index = self.index + 1;
            return Ok(());
        }
        let tile = self.tiles[self.index];
        assert(tile.start <= tile.end);
        if tile.end - tile.start == 1 {
            let mut text = sentence2(
                "one indivisible DistMesh element requires ",
                bytes as u64,
                " bytes and ",
                rows as u64,
                " rows, exceeding the ",
            );
            append_decimal(&mut text, self.byte_budget as u64);
            text.append(" byte chunk target or ");
            append_decimal(&mut text, self.row_limit as u64);
            text.append(" row limit");
            return Err(MeshError::LimitExceeded(text));
        }
        if count >= self.max_tiles {
            return Err(
                MeshError::LimitExceeded(
                    sentence(
                        "DistMesh partitioning exhausted the configured ",
                        self.max_tiles as u64,
                        " remaining chunks",
                    ),
                ),
            );
        }
        let middle: usize = tile.start + (tile.end - tile.start) / 2;
        let ghost before = self.tiles@;
        let ghost at = self.index as int;
        self.tiles.set(self.index, Tile { start: tile.start, end: middle });
        self.tiles.insert(self.index + 1, Tile { start: middle, end: tile.end });
        proof {
            let after = self.tiles@;
            assert(after =~= old(self).halved());
            assert forall|i: int| 0 <= i < after.len() implies (#[trigger] after[i]).start
                <= after[i].end by {
                if i < at {
                    assert(after[i] == before[i]);
                } else if i > at + 1 {
                    assert(after[i] == before[i - 1]);
                }
            }
            assert forall|i: int| 0 <= i < after.len() - 1 implies (#[trigger] after[i]).end
                == after[i + 1].start by {
                if i < at - 1 {
                    assert(after[i] == before[i]);
                    assert(after[i + 1] == before[i + 1]);
                } else if i == at - 1 {
                    assert(after[i] == before[i]);
                } else if i == at + 1 {
                    assert(after[i + 1] == before[i]);
                    assert(before[at].end == before[at + 1].start);
                } else if i > at + 1 {
                    assert(after[i] == before[i - 1]);
                    assert(after[i + 1] == before[i]);
                    assert(before[i - 1].end == before[i - 1 + 1].start);
                }
            }
        }
        Ok(())
    }
}

/// Every element lies in exactly one tile.
pub proof fn tiles_hold_each_element_once(tiles: Seq<Tile>, elements: usize, element: int)
    requires
        tiles_cover(tiles, elements),
        0 <= element < elements,
    ensures
        exists|i: int| 0 <= i < tiles.len() && (#[trigger] tiles[i]).start <= element < tiles[i].end,
        forall|i: int, j: int|
            0 <= i < tiles.len() && 0 <= j < tiles.len() && (#[trigger] tiles[i]).start <= element
                < tiles[i].end && (#[trigger] tiles[j]).start <= element < tiles[j].end ==> i == j,
{
    tile_of(tiles, elements, element, tiles.len() - 1);
    assert forall|i: int, j: int|
        0 <= i < tiles.len() && 0 <= j < tiles.len() && (#[trigger] tiles[i]).start <= element
            < tiles[i].end && (#[trigger] tiles[j]).start <= element < tiles[j].end implies i
        == j by {
        if i < j {
            tiles_in_order(tiles, elements, i, j);
        } else if j < i {
            tiles_in_order(tiles, elements, j, i);
        }
    }
}

proof fn tile_of(tiles: Seq<Tile>, elements: usize, element: int, last: int)
    requires
        tiles_cover(tiles, elements),
        0 <= last < tiles.len(),
        0 <= element < tiles[last].end,
    ensures
        exists|i: int| 0 <= i < tiles.len() && (#[trigger] tiles[i]).start <= element < tiles[i].end,
    decreases last,
{
    if tiles[last].start <= element {
    } else {
        assert(tiles[last - 1].end == tiles[last - 1 + 1].start);
        tile_of(tiles, elements, element, last - 1);
    }
}

proof fn tiles_in_order(tiles: Seq<Tile>, elements: usize, i: int, j: int)
    requires
        tiles_cover(tiles, elements),
        0 <= i < j < tiles.len(),
    ensures
        tiles[i].end <= tiles[j].start,
    decreases j - i,
{
    assert(tiles[j - 1].end == tiles[j - 1 + 1].start);
    if i < j - 1 {
        tiles_in_order(tiles, elements, i, j - 1);
        assert(tiles[j - 1].start <= tiles[j - 1].end);
    }
}

/// Cutting the current tile in the middle keeps the cover: the other tiles stay as they are, no
/// element gets lost or lies in two tiles, and the two halves differ by one element at most.
#[verifier::spinoff_prover]
pub proof fn halving_keeps_cover(partition: Partition)
    requires
        tiles_cover(partition.tiles@, partition.elements),
        partition.index < partition.tiles@.len(),
    ensures
        ({
            let before = partition.tiles@;
            let after = partition.halved();
            let at = partition.index as int;
            let low = after[at].end - after[at].start;
            let high = after[at + 1].end - after[at + 1].start;
            &&& tiles_cover(after, partition.elements)
            &&& after.len() == before.len() + 1
            &&& forall|i: int| 0 <= i < at ==> #[trigger] after[i] == before[i]
            &&& forall|i: int| at + 1 < i < after.len() ==> #[trigger] after[i] == before[i - 1]
            &&& after[at].start == before[at].start
            &&& after[at + 1].end == before[at].end
            &&& low + high == before[at].end - before[at].start
            &&& low <= high <= low + 1
        }),
{
    let before = partition.tiles@;
    let after = partition.halved();
    let at = partition.index as int;
    assert(before[at].start <= before[at].end);
    halved_tiles(partition);
    spliced_tiles_cover(before, after, at, partition.elements);
}

proof fn halved_tiles(partition: Partition)
    requires
        partition.index < partition.tiles@.len(),
        partition.tiles@[partition.index as int].start <= partition.tiles@[partition.index as int].end,
    ensures
        ({
            let before = partition.tiles@;
            let after = partition.halved();
            let at = partition.index as int;
            let low = after[at].end - after[at].start;
            let high = after[at + 1].end - after[at + 1].start;
            &&& after.len() == before.len() + 1
            &&& forall|i: int| 0 <= i < at ==> #[trigger] after[i] == before[i]
            &&& forall|i: int| at + 1 < i < after.len() ==> #[trigger] after[i] == before[i - 1]
            &&& after[at].start == before[at].start
            &&& after[at].end == after[at + 1].start
            &&& after[at + 1].end == before[at].end
            &&& low + high == before[at].end - before[at].start
            &&& 0 <= low <= high <= low + 1
        }),
{
    let before = partition.tiles@;
    let after = partition.halved();
    let at = partition.index as int;
    let tile = before[at];
    let middle = (tile.start + (tile.end - tile.start) / 2) as usize;
    assert(tile.start <= middle <= tile.end);
    assert(after[at] == (Tile { start: tile.start, end: middle }));
    assert(after[at + 1] == (Tile { start: middle, end: tile.end }));
}

#[verifier::spinoff_prover]
#[verifier::rlimit(40)]
proof fn spliced_tiles_cover(before: Seq<Tile>, after: Seq<Tile>, at: int, elements: usize)
    requires
        tiles_cover(before, elements),
        0 <= at < before.len(),
        after.len() == before.len() + 1,
        forall|i: int| 0 <= i < at ==> #[trigger] after[i] == before[i],
        forall|i: int| at + 1 < i < after.len() ==> #[trigger] after[i] == before[i - 1],
        after[at].start == before[at].start,
        after[at].end == after[at + 1].start,
        after[at + 1].end == before[at].end,
        after[at].start <= after[at].end,
        after[at + 1].start <= after[at + 1].end,
    ensures
        tiles_cover(after, elements),
{
    assert(after[0].start == 0) by {
        if at > 0 {
            assert(after[0] == before[0]);
        }
    }
    assert(after.last().end == elements) by {
        if at + 1 < after.len() - 1 {
            assert(after[after.len() - 1] == before[after.len() - 2]);
        }
    }
    assert forall|i: int| 0 <= i < after.len() implies (#[trigger] after[i]).start <= after[i].end by {
        if i > at + 1 {
            assert(before[i - 1].start <= before[i - 1].end);
        } else if i < at {
            assert(before[i].start <= before[i].end);
        }
    }
    assert forall|i: int| 0 <= i < after.len() - 1 implies (#[trigger] after[i]).end == after[i
        + 1].start by {
        if i > at + 1 {
            assert(after[i] == before[i - 1]);
            assert(after[i + 1] == before[i]);
            assert(before[i - 1].end == before[i - 1 + 1].start);
        } else if i == at + 1 {
            assert(after[i + 1] == before[i]);
            assert(before[at].end == before[at + 1].start);
        } else if i < at {
            assert(after[i] == before[i]);
            assert(before[i].end == before[i + 1].start);
            if i + 1 < at {
                assert(after[i + 1] == before[i + 1]);
            }
        }
    }
}

} // verus!
