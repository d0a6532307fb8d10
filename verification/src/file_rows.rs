//! What an audit of a mesh file means for the rows of the file.

use vstd::prelude::*;

#[allow(unused_imports)]
use crate::audit::{
    after_batch, after_elements, after_points, all_local, element_row_fault, element_rows,
    point_fault, point_rows, with_element, with_point, AuditFacts, ElementRow, OwnerRow, PointRow,
};
#[allow(unused_imports)]
use crate::columns::{batch_rows, bool_columns, f64_columns, u64_columns, u64_list_columns, Batch};
#[allow(unused_imports)]
use crate::file::{
    after_entries, after_leaves, audit_facts, leaf_entries, leaves_among, no_facts, of_tile,
    MeshFile,
};
#[allow(unused_imports)]
use crate::number::Real;
#[allow(unused_imports)]
use crate::session::MeshReadSession;
#[allow(unused_imports)]
use crate::schema::{BatchDirectoryEntry, RowKind};
#[allow(unused_imports)]
use crate::sorted::{Key, SortedMap};
#[allow(unused_imports)]
use crate::spatial::SpatialNodeMeta;

verus! {

/// One row of the exact batches of a leaf.
pub struct Line {
    pub leaf: u64,
    pub kind: RowKind,
    pub id: u64,
    pub ghost_row: bool,
    pub row: OwnerRow,
    pub points: Option<Seq<u64>>,
}

/// The row of a batch as its columns give it.
pub open spec fn line_of(batches: Seq<Batch>, entry: BatchDirectoryEntry, row: int) -> Line {
    let batch = batches[entry.batch_index as int];
    Line {
        leaf: entry.spatial_node_id->0,
        kind: entry.row_kind,
        id: u64_columns(batch)["entity_id"@][row].1,
        ghost_row: entry.row_kind is Point && bool_columns(batch)["ghost"@][row].1,
        row: OwnerRow {
            chunk: u64_columns(batch)["owner_chunk_id"@][row].1,
            x: Real { bits: f64_columns(batch)["x"@][row].1 },
            y: Real { bits: f64_columns(batch)["y"@][row].1 },
            z: Real { bits: f64_columns(batch)["z"@][row].1 },
        },
        points: u64_list_columns(batch)["point_ids"@][row],
    }
}

/// The batch of an entry has the columns that an audit reads.
pub open spec fn has_columns(batches: Seq<Batch>, entry: BatchDirectoryEntry) -> bool {
    let batch = batches[entry.batch_index as int];
    if entry.row_kind is Point {
        &&& u64_columns(batch).dom().contains("entity_id"@)
        &&& u64_columns(batch).dom().contains("owner_chunk_id"@)
        &&& bool_columns(batch).dom().contains("ghost"@)
        &&& f64_columns(batch).dom().contains("x"@)
        &&& f64_columns(batch).dom().contains("y"@)
        &&& f64_columns(batch).dom().contains("z"@)
    } else {
        &&& u64_columns(batch).dom().contains("entity_id"@)
        &&& u64_list_columns(batch).dom().contains("point_ids"@)
    }
}

/// A later line may follow an earlier one: an ID that both own is not the same, and a
/// ghost of the point that the earlier one owns names its chunk and its place.
pub open spec fn may_follow(earlier: Line, later: Line) -> bool {
    &&& !earlier.ghost_row && !later.ghost_row ==> earlier.id != later.id
    &&& earlier.kind is Point && !earlier.ghost_row && later.ghost_row && earlier.id == later.id ==> {
        &&& earlier.row.chunk == later.row.chunk
        &&& earlier.row.x.same_value(later.row.x)
        &&& earlier.row.y.same_value(later.row.y)
        &&& earlier.row.z.same_value(later.row.z)
    }
}

/// A point of that ID is among the first lines of the leaf.
pub open spec fn has_point(lines: Seq<Line>, count: int, leaf: u64, id: u64) -> bool {
    exists|i: int|
        0 <= i < count && (#[trigger] lines[i]).kind is Point && lines[i].leaf == leaf && lines[i].id
            == id
}

/// An element lists its points, and they are among the points read before it from the
/// same leaf.
pub open spec fn stands(lines: Seq<Line>, place: int) -> bool {
    let line = lines[place];
    !(line.kind is Point) ==> line.points is Some && forall|k: int|
        0 <= k < line.points->0.len() ==> has_point(
            lines,
            place,
            line.leaf,
            #[trigger] line.points->0[k],
        )
}

/// The lines, read one after the other, hold no fault.
pub open spec fn clean(lines: Seq<Line>) -> bool {
    &&& forall|i: int, j: int|
        0 <= i < j < lines.len() ==> may_follow(#[trigger] lines[i], #[trigger] lines[j])
    &&& forall|j: int| 0 <= j < lines.len() ==> #[trigger] stands(lines, j)
}

/// How many lines own an entity of a kind.
pub open spec fn owned(lines: Seq<Line>, kind: RowKind) -> nat
    decreases lines.len(),
{
    if lines.len() == 0 {
        0
    } else {
        owned(lines.drop_last(), kind) + if lines.last().kind == kind && !lines.last().ghost_row {
            1nat
        } else {
            0nat
        }
    }
}

proof fn owned_at_most(lines: Seq<Line>, kind: RowKind)
    ensures
        owned(lines, kind) <= lines.len(),
    decreases lines.len(),
{
    if lines.len() > 0 {
        owned_at_most(lines.drop_last(), kind);
    }
}

/// Some line owns the ID.
spec fn owns_id(lines: Seq<Line>, id: u64) -> bool {
    exists|i: int| 0 <= i < lines.len() && !(#[trigger] lines[i]).ghost_row && lines[i].id == id
}

/// Some line is the owner row of the point.
spec fn owner_at(lines: Seq<Line>, i: int, id: u64) -> bool {
    0 <= i < lines.len() && lines[i].kind is Point && !lines[i].ghost_row && lines[i].id == id
}

spec fn has_owner(lines: Seq<Line>, id: u64) -> bool {
    exists|i: int| owner_at(lines, i, id)
}

/// The facts of an audit are those of the lines.
spec fn knows(facts: AuditFacts, lines: Seq<Line>, leaf: u64) -> bool {
    &&& forall|id: u64| #[trigger] facts.ids.contains(id) <==> owns_id(lines, id)
    &&& forall|id: u64|
        #[trigger] facts.owners.dom().contains(id) <==> has_owner(lines, id)
    &&& forall|i: int|
        0 <= i < lines.len() && (#[trigger] lines[i]).kind is Point && !lines[i].ghost_row
            ==> facts.owners[lines[i].id] == lines[i].row
    &&& forall|id: u64|
        #[trigger] facts.local.contains(id) <==> has_point(lines, lines.len() as int, leaf, id)
    &&& lines.len() <= u64::MAX ==> {
        &&& facts.counts.points == owned(lines, RowKind::Point)
        &&& facts.counts.edges == owned(lines, RowKind::Edge)
        &&& facts.counts.faces == owned(lines, RowKind::Face)
        &&& facts.counts.cells == owned(lines, RowKind::Cell)
    }
}

proof fn prefix_is_clean(lines: Seq<Line>, more: Seq<Line>)
    requires
        clean(lines + more),
    ensures
        clean(lines),
{
    let all = lines + more;
    assert forall|i: int, j: int| 0 <= i < j < lines.len() implies may_follow(
        #[trigger] lines[i],
        #[trigger] lines[j],
    ) by {
        assert(all[i] == lines[i] && all[j] == lines[j]);
    }
    assert forall|j: int| 0 <= j < lines.len() implies #[trigger] stands(lines, j) by {
        assert(stands(all, j));
        assert(all[j] == lines[j]);
        stands_alike(all, lines, j);
    }
}

/// Whether an element stands depends on the lines up to it alone.
proof fn stands_alike(all: Seq<Line>, lines: Seq<Line>, j: int)
    requires
        0 <= j < all.len(),
        j < lines.len(),
        forall|i: int| 0 <= i <= j ==> #[trigger] all[i] == lines[i],
        stands(all, j),
    ensures
        stands(lines, j),
{
    let line = lines[j];
    assert(all[j] == line);
    if !(line.kind is Point) {
        assert forall|k: int| 0 <= k < line.points->0.len() implies has_point(
            lines,
            j,
            line.leaf,
            #[trigger] line.points->0[k],
        ) by {
            let id = line.points->0[k];
            assert(has_point(all, j, line.leaf, id));
            let i = choose|i: int|
                0 <= i < j && (#[trigger] all[i]).kind is Point && all[i].leaf == line.leaf
                    && all[i].id == id;
            assert(lines[i] == all[i]);
        }
    }
}

/// One more line is clean after clean ones where it may follow each and stands.
proof fn clean_with(lines: Seq<Line>, line: Line)
    requires
        clean(lines),
    ensures
        clean(lines.push(line)) <==> stands(lines.push(line), lines.len() as int) && forall|i: int|
            0 <= i < lines.len() ==> may_follow(#[trigger] lines[i], line),
{
    let all = lines.push(line);
    let n = lines.len() as int;
    assert(all[n] == line);
    if clean(all) {
        assert(stands(all, n));
        assert forall|i: int| 0 <= i < n implies may_follow(#[trigger] lines[i], line) by {
            assert(all[i] == lines[i]);
            assert(may_follow(all[i], all[n]));
        }
    }
    if stands(all, n) && forall|i: int| 0 <= i < n ==> may_follow(#[trigger] lines[i], line) {
        assert forall|i: int, j: int| 0 <= i < j < all.len() implies may_follow(
            #[trigger] all[i],
            #[trigger] all[j],
        ) by {
            assert(all[i] == lines[i]);
            if j < n {
                assert(all[j] == lines[j]);
            }
        }
        assert forall|j: int| 0 <= j < all.len() implies #[trigger] stands(all, j) by {
            if j < n {
                assert(stands(lines, j));
                stands_alike(lines, all, j);
            }
        }
    }
}

proof fn pushed_ids(lines: Seq<Line>, line: Line, leaf: u64)
    ensures
        forall|id: u64|
            #[trigger] owns_id(lines.push(line), id) <==> owns_id(lines, id) || (!line.ghost_row
                && line.id == id),
        forall|id: u64|
            #[trigger] has_point(lines.push(line), lines.push(line).len() as int, leaf, id)
                <==> has_point(
                lines,
                lines.len() as int,
                leaf,
                id,
            ) || (line.kind is Point && line.leaf == leaf && line.id == id),
        forall|id: u64|
            #[trigger] has_owner(lines.push(line), id) <==> has_owner(lines, id) || (
            line.kind is Point && !line.ghost_row && line.id == id),
        forall|kind: RowKind|
            #[trigger] owned(lines.push(line), kind) == owned(lines, kind) + (if line.kind == kind
                && !line.ghost_row {
                1nat
            } else {
                0nat
            }),
{
    let all = lines.push(line);
    let n = lines.len() as int;
    assert(all[n] == line);
    assert(all.drop_last() =~= lines);
    assert forall|id: u64|
        #[trigger] owns_id(all, id) <==> owns_id(lines, id) || (!line.ghost_row && line.id == id) by {
        if owns_id(all, id) {
            let i = choose|i: int|
                0 <= i < all.len() && !(#[trigger] all[i]).ghost_row && all[i].id == id;
            if i < n {
                assert(lines[i] == all[i]);
            }
        }
        if owns_id(lines, id) {
            let i = choose|i: int|
                0 <= i < lines.len() && !(#[trigger] lines[i]).ghost_row && lines[i].id == id;
            assert(lines[i] == all[i]);
        }
    }
    assert forall|id: u64|
        #[trigger] has_point(all, n + 1, leaf, id) <==> has_point(lines, n, leaf, id) || (
        line.kind is Point && line.leaf == leaf && line.id == id) by {
        if has_point(all, n + 1, leaf, id) {
            let i = choose|i: int|
                0 <= i < n + 1 && (#[trigger] all[i]).kind is Point && all[i].leaf == leaf
                    && all[i].id == id;
            if i < n {
                assert(lines[i] == all[i]);
            }
        }
        if has_point(lines, n, leaf, id) {
            let i = choose|i: int|
                0 <= i < n && (#[trigger] lines[i]).kind is Point && lines[i].leaf == leaf
                    && lines[i].id == id;
            assert(lines[i] == all[i]);
        }
    }
    assert forall|id: u64|
        #[trigger] has_owner(all, id) <==> has_owner(lines, id) || (line.kind is Point
            && !line.ghost_row && line.id == id) by {
        if has_owner(all, id) {
            let i = choose|i: int| owner_at(all, i, id);
            if i < n {
                assert(lines[i] == all[i]);
                assert(owner_at(lines, i, id));
            }
        }
        if has_owner(lines, id) {
            let i = choose|i: int| owner_at(lines, i, id);
            assert(lines[i] == all[i]);
            assert(owner_at(all, i, id));
        }
        if line.kind is Point && !line.ghost_row && line.id == id {
            assert(owner_at(all, n, id));
        }
    }
}

/// The next point row is at fault exactly where its line does not fit the lines before.
proof fn next_point(facts: AuditFacts, lines: Seq<Line>, line: Line, point: PointRow)
    requires
        knows(facts, lines, line.leaf),
        clean(lines),
        line.kind is Point,
        point.id == line.id,
        point.ghost_row == line.ghost_row,
        point.row == line.row,
    ensures
        point_fault(facts, point) is None <==> clean(lines.push(line)),
        point_fault(facts, point) is None ==> knows(
            with_point(facts, point),
            lines.push(line),
            line.leaf,
        ),
{
    let all = lines.push(line);
    let n = lines.len() as int;
    clean_with(lines, line);
    assert(all[n] == line);
    assert(stands(all, n));
    if line.ghost_row {
        if facts.owners.dom().contains(line.id) {
            let i = choose|i: int| owner_at(lines, i, line.id);
            assert(facts.owners[lines[i].id] == lines[i].row);
            if point_fault(facts, point) is Some {
                assert(!may_follow(lines[i], line));
            } else {
                assert forall|k: int| 0 <= k < n implies may_follow(#[trigger] lines[k], line) by {
                    if lines[k].kind is Point && !lines[k].ghost_row {
                        assert(facts.owners[lines[k].id] == lines[k].row);
                    }
                }
            }
        } else {
            assert forall|k: int| 0 <= k < n implies may_follow(#[trigger] lines[k], line) by {
                if lines[k].kind is Point && !lines[k].ghost_row && lines[k].id == line.id {
                    assert(owner_at(lines, k, line.id));
                }
            }
        }
    } else {
        if facts.ids.contains(line.id) {
            let i = choose|i: int|
                0 <= i < lines.len() && !(#[trigger] lines[i]).ghost_row && lines[i].id == line.id;
            assert(!may_follow(lines[i], line));
        } else {
            assert forall|k: int| 0 <= k < n implies may_follow(#[trigger] lines[k], line) by {
                if !lines[k].ghost_row && lines[k].id == line.id {
                    assert(owns_id(lines, line.id));
                }
            }
        }
    }
    if point_fault(facts, point) is None {
        let after = with_point(facts, point);
        pushed_ids(lines, line, line.leaf);
        owned_at_most(lines, RowKind::Point);
        assert forall|i: int|
            0 <= i < all.len() && (#[trigger] all[i]).kind is Point && !all[i].ghost_row implies
            after.owners[all[i].id] == all[i].row by {
            if i < n {
                assert(all[i] == lines[i]);
                if !line.ghost_row {
                    assert(may_follow(lines[i], line));
                }
            }
        }
        assert forall|id: u64| #[trigger] after.ids.contains(id) <==> owns_id(all, id) by {
            assert(facts.ids.contains(id) <==> owns_id(lines, id));
        }
        assert forall|id: u64|
            #[trigger] after.owners.dom().contains(id) <==> has_owner(all, id) by {
            assert(facts.owners.dom().contains(id) <==> has_owner(lines, id));
        }
        assert forall|id: u64|
            #[trigger] after.local.contains(id) <==> has_point(all, n + 1, line.leaf, id) by {
            assert(facts.local.contains(id) <==> has_point(lines, n, line.leaf, id));
        }
    }
}

/// The next element row is at fault exactly where its line does not fit the lines
/// before.
proof fn next_element(facts: AuditFacts, lines: Seq<Line>, line: Line, element: ElementRow)
    requires
        knows(facts, lines, line.leaf),
        clean(lines),
        line.kind is Edge || line.kind is Face || line.kind is Cell,
        !line.ghost_row,
        element.id == line.id,
        element.points == line.points,
    ensures
        element_row_fault(facts, element) is None <==> clean(lines.push(line)),
        element_row_fault(facts, element) is None ==> knows(
            with_element(facts, line.kind, element),
            lines.push(line),
            line.leaf,
        ),
{
    let all = lines.push(line);
    let n = lines.len() as int;
    clean_with(lines, line);
    pushed_ids(lines, line, line.leaf);
    assert(all[n] == line);
    if facts.ids.contains(line.id) {
        let i = choose|i: int|
            0 <= i < lines.len() && !(#[trigger] lines[i]).ghost_row && lines[i].id == line.id;
        assert(!may_follow(lines[i], line));
    } else {
        assert forall|k: int| 0 <= k < n implies may_follow(#[trigger] lines[k], line) by {
            if !lines[k].ghost_row && lines[k].id == line.id {
                assert(owns_id(lines, line.id));
            }
        }
        if line.points is Some {
            let list = line.points->0;
            assert forall|id: u64| has_point(all, n, line.leaf, id) == #[trigger] has_point(
                lines,
                n,
                line.leaf,
                id,
            ) by {
                if has_point(all, n, line.leaf, id) {
                    let i = choose|i: int|
                        0 <= i < n && (#[trigger] all[i]).kind is Point && all[i].leaf == line.leaf
                            && all[i].id == id;
                    assert(lines[i] == all[i]);
                }
                if has_point(lines, n, line.leaf, id) {
                    let i = choose|i: int|
                        0 <= i < n && (#[trigger] lines[i]).kind is Point && lines[i].leaf
                            == line.leaf && lines[i].id == id;
                    assert(lines[i] == all[i]);
                }
            }
            if all_local(list, facts.local) {
                assert forall|k: int| 0 <= k < list.len() implies has_point(
                    all,
                    n,
                    line.leaf,
                    #[trigger] list[k],
                ) by {
                    assert(facts.local.contains(list[k]));
                    assert(has_point(lines, n, line.leaf, list[k]));
                }
                assert(stands(all, n));
            } else {
                let k = choose|k: int|
                    0 <= k < list.len() && !facts.local.contains(#[trigger] list[k]);
                assert(!has_point(lines, n, line.leaf, list[k]));
                assert(!has_point(all, n, line.leaf, all[n].points->0[k]));
                assert(!stands(all, n));
            }
        } else {
            assert(!stands(all, n));
        }
    }
    if element_row_fault(facts, element) is None {
        let after = with_element(facts, line.kind, element);
        owned_at_most(lines, line.kind);
        assert forall|i: int|
            0 <= i < all.len() && (#[trigger] all[i]).kind is Point && !all[i].ghost_row implies
            after.owners[all[i].id] == all[i].row by {
            assert(all[i] == lines[i]);
        }
        assert forall|id: u64| #[trigger] after.ids.contains(id) <==> owns_id(all, id) by {
            assert(facts.ids.contains(id) <==> owns_id(lines, id));
        }
        assert forall|id: u64|
            #[trigger] after.owners.dom().contains(id) <==> has_owner(all, id) by {
            assert(facts.owners.dom().contains(id) <==> has_owner(lines, id));
        }
        assert forall|id: u64|
            #[trigger] after.local.contains(id) <==> has_point(all, n + 1, line.leaf, id) by {
            assert(facts.local.contains(id) <==> has_point(lines, n, line.leaf, id));
        }
    }
}

/// The result of an audit is what the lines read so far say: fine where all columns
/// were there and the lines are clean.
spec fn tells(
    result: Result<AuditFacts, Seq<char>>,
    lines: Seq<Line>,
    leaf: u64,
    whole: bool,
) -> bool {
    match result {
        Ok(facts) => whole && clean(lines) && knows(facts, lines, leaf),
        Err(_) => !(whole && clean(lines)),
    }
}

spec fn batch_lines(batches: Seq<Batch>, entry: BatchDirectoryEntry, count: int) -> Seq<Line> {
    Seq::new(count as nat, |row: int| line_of(batches, entry, row))
}

/// The first rows of a batch.
proof fn batch_tells(
    facts: AuditFacts,
    lines: Seq<Line>,
    batches: Seq<Batch>,
    entry: BatchDirectoryEntry,
    count: int,
)
    requires
        knows(facts, lines, entry.spatial_node_id->0),
        clean(lines),
        0 <= count <= batch_rows(batches[entry.batch_index as int]),
        entry.row_kind is Point || entry.row_kind is Edge || entry.row_kind is Face
            || entry.row_kind is Cell,
    ensures
        ({
            let batch = batches[entry.batch_index as int];
            let result = if entry.row_kind is Point {
                after_points(facts, point_rows(batch), count)
            } else {
                after_elements(facts, entry.row_kind, element_rows(batch), count)
            };
            tells(
                result,
                lines + batch_lines(batches, entry, count),
                entry.spatial_node_id->0,
                true,
            )
        }),
    decreases count,
{
    let batch = batches[entry.batch_index as int];
    let leaf = entry.spatial_node_id->0;
    let now = batch_lines(batches, entry, count);
    if count == 0 {
        assert(lines + now =~= lines);
    } else {
        batch_tells(facts, lines, batches, entry, count - 1);
        let before = batch_lines(batches, entry, count - 1);
        let line = line_of(batches, entry, count - 1);
        let done = lines + before;
        assert(lines + now =~= done.push(line));
        let last = if entry.row_kind is Point {
            after_points(facts, point_rows(batch), count - 1)
        } else {
            after_elements(facts, entry.row_kind, element_rows(batch), count - 1)
        };
        if let Ok(seen) = last {
            if entry.row_kind is Point {
                next_point(seen, done, line, point_rows(batch)[count - 1]);
            } else {
                next_element(seen, done, line, element_rows(batch)[count - 1]);
            }
        } else {
            if clean(lines + now) {
                assert(lines + now =~= done + seq![line]);
                prefix_is_clean(done, seq![line]);
            }
        }
    }
}

/// One kind of exact rows of a leaf.
pub open spec fn is_exact_kind(kind: RowKind) -> bool {
    kind is Point || kind is Edge || kind is Face || kind is Cell
}

/// A whole batch.
proof fn entry_tells(
    result: Result<AuditFacts, Seq<char>>,
    lines: Seq<Line>,
    whole: bool,
    batches: Seq<Batch>,
    entry: BatchDirectoryEntry,
)
    requires
        tells(result, lines, entry.spatial_node_id->0, whole),
        is_exact_kind(entry.row_kind),
    ensures
        ({
            let batch = batches[entry.batch_index as int];
            let next = match result {
                Ok(facts) => after_batch(facts, entry.row_kind, batch),
                Err(message) => Err(message),
            };
            tells(
                next,
                lines + batch_lines(batches, entry, batch_rows(batch) as int),
                entry.spatial_node_id->0,
                whole && has_columns(batches, entry),
            )
        }),
{
    let batch = batches[entry.batch_index as int];
    let more = batch_lines(batches, entry, batch_rows(batch) as int);
    if let Ok(facts) = result {
        batch_tells(facts, lines, batches, entry, batch_rows(batch) as int);
    } else {
        if clean(lines + more) {
            prefix_is_clean(lines, more);
        }
    }
}

/// A place in a file: an entry of its directory, and a row of that entry's batch.
pub type Place = (int, int);

spec fn line_at(batches: Seq<Batch>, entries: Seq<BatchDirectoryEntry>, place: Place) -> Line {
    line_of(batches, entries[place.0], place.1)
}

spec fn lines_at(
    batches: Seq<Batch>,
    entries: Seq<BatchDirectoryEntry>,
    places: Seq<Place>,
) -> Seq<Line> {
    Seq::new(places.len(), |i: int| line_at(batches, entries, places[i]))
}

/// The places of the entries of one kind of a leaf among the first.
spec fn tile_places(
    entries: Seq<BatchDirectoryEntry>,
    leaf: u64,
    kind: RowKind,
    count: int,
) -> Seq<int>
    decreases count,
{
    if count <= 0 {
        Seq::empty()
    } else if entries[count - 1].row_kind == kind && entries[count - 1].spatial_node_id == Some(
        leaf,
    ) {
        tile_places(entries, leaf, kind, count - 1).push(count - 1)
    } else {
        tile_places(entries, leaf, kind, count - 1)
    }
}

proof fn tile_places_are_exact(
    entries: Seq<BatchDirectoryEntry>,
    leaf: u64,
    kind: RowKind,
    count: int,
)
    requires
        0 <= count <= entries.len(),
    ensures
        ({
            let list = tile_places(entries, leaf, kind, count);
            &&& forall|e: int|
                #[trigger] list.contains(e) <==> 0 <= e < count && entries[e].row_kind == kind
                    && entries[e].spatial_node_id == Some(leaf)
            &&& forall|i: int, j: int|
                0 <= i < j < list.len() ==> (#[trigger] list[i]) < (#[trigger] list[j])
            &&& of_tile(entries.take(count), leaf, kind) == Seq::new(
                list.len(),
                |i: int| entries[list[i]],
            )
        }),
    decreases count,
{
    reveal(Seq::filter);
    let list = tile_places(entries, leaf, kind, count);
    if count == 0 {
        assert(of_tile(entries.take(0), leaf, kind) =~= Seq::new(
            list.len(),
            |i: int| entries[list[i]],
        ));
    } else {
        tile_places_are_exact(entries, leaf, kind, count - 1);
        let rest = tile_places(entries, leaf, kind, count - 1);
        assert(entries.take(count).drop_last() =~= entries.take(count - 1));
        assert(entries.take(count).last() == entries[count - 1]);
        assert forall|i: int| 0 <= i < rest.len() implies 0 <= (#[trigger] rest[i]) < count - 1 by {
            assert(rest.contains(rest[i]));
        }
        assert forall|e: int|
            #[trigger] list.contains(e) <==> 0 <= e < count && entries[e].row_kind == kind
                && entries[e].spatial_node_id == Some(leaf) by {
            if list.contains(e) {
                let k = list.index_of(e);
                assert(list[k] == e);
                if k < rest.len() {
                    assert(rest[k] == e);
                    assert(rest.contains(e));
                }
            }
            if rest.contains(e) {
                let k = rest.index_of(e);
                assert(list[k] == e);
            }
            if e == count - 1 && entries[e].row_kind == kind && entries[e].spatial_node_id == Some(
                leaf,
            ) {
                assert(list[rest.len() as int] == e);
            }
        }
        assert(of_tile(entries.take(count), leaf, kind) =~= Seq::new(
            list.len(),
            |i: int| entries[list[i]],
        ));
    }
}

/// In which turn the rows of a kind are read.
pub open spec fn turn(kind: RowKind) -> int {
    match kind {
        RowKind::Point => 0,
        RowKind::Edge => 1,
        RowKind::Face => 2,
        RowKind::Cell => 3,
        _ => 4,
    }
}

/// One place is read before another: leaf by leaf in the order of their IDs, in a leaf
/// the points first, then the edges, the faces and the cells, each kind in the order of
/// the directory, and a batch row by row.
pub open spec fn read_before(entries: Seq<BatchDirectoryEntry>, a: Place, b: Place) -> bool {
    let (x, y) = (entries[a.0], entries[b.0]);
    let (p, q) = (x.spatial_node_id->0, y.spatial_node_id->0);
    ||| p < q
    ||| p == q && turn(x.row_kind) < turn(y.row_kind)
    ||| p == q && turn(x.row_kind) == turn(y.row_kind) && a.0 < b.0
    ||| a.0 == b.0 && a.1 < b.1
}

spec fn ordered(entries: Seq<BatchDirectoryEntry>, places: Seq<Place>) -> bool {
    forall|i: int, j: int|
        0 <= i < j < places.len() ==> read_before(
            entries,
            #[trigger] places[i],
            #[trigger] places[j],
        )
}

proof fn joined_in_order(entries: Seq<BatchDirectoryEntry>, a: Seq<Place>, b: Seq<Place>)
    requires
        ordered(entries, a),
        ordered(entries, b),
        forall|i: int, j: int|
            0 <= i < a.len() && 0 <= j < b.len() ==> read_before(
                entries,
                #[trigger] a[i],
                #[trigger] b[j],
            ),
    ensures
        ordered(entries, a + b),
{
    let all = a + b;
    assert forall|i: int, j: int| 0 <= i < j < all.len() implies read_before(
        entries,
        #[trigger] all[i],
        #[trigger] all[j],
    ) by {
        if j < a.len() {
            assert(all[i] == a[i] && all[j] == a[j]);
        } else if i < a.len() {
            assert(all[i] == a[i] && all[j] == b[j - a.len()]);
        } else {
            assert(all[i] == b[i - a.len()] && all[j] == b[j - a.len()]);
        }
    }
}

spec fn entry_rows(batches: Seq<Batch>, entries: Seq<BatchDirectoryEntry>, e: int) -> int {
    batch_rows(batches[entries[e].batch_index as int]) as int
}

spec fn entry_places(batches: Seq<Batch>, entries: Seq<BatchDirectoryEntry>, e: int) -> Seq<Place> {
    Seq::new(entry_rows(batches, entries, e) as nat, |row: int| (e, row))
}

/// The places of the first entries of a list.
spec fn list_places(
    batches: Seq<Batch>,
    entries: Seq<BatchDirectoryEntry>,
    list: Seq<int>,
    count: int,
) -> Seq<Place>
    decreases count,
{
    if count <= 0 {
        Seq::empty()
    } else {
        list_places(batches, entries, list, count - 1) + entry_places(
            batches,
            entries,
            list[count - 1],
        )
    }
}

proof fn list_places_are_exact(
    batches: Seq<Batch>,
    entries: Seq<BatchDirectoryEntry>,
    list: Seq<int>,
    count: int,
)
    requires
        0 <= count <= list.len(),
        forall|i: int, j: int|
            0 <= i < j < list.len() ==> entries[#[trigger] list[i]].spatial_node_id
                == entries[#[trigger] list[j]].spatial_node_id && (turn(entries[list[i]].row_kind)
                < turn(entries[list[j]].row_kind) || turn(entries[list[i]].row_kind) == turn(
                entries[list[j]].row_kind,
            ) && list[i] < list[j]),
    ensures
        ordered(entries, list_places(batches, entries, list, count)),
        forall|e: int, row: int|
            #[trigger] list_places(batches, entries, list, count).contains((e, row)) <==> 0 <= row
                < entry_rows(batches, entries, e) && list.take(count).contains(e),
    decreases count,
{
    let places = list_places(batches, entries, list, count);
    if count > 0 {
        list_places_are_exact(batches, entries, list, count - 1);
        let before = list_places(batches, entries, list, count - 1);
        let last = list[count - 1];
        let more = entry_places(batches, entries, last);
        assert forall|i: int, j: int| 0 <= i < before.len() && 0 <= j < more.len() implies read_before(
            entries,
            #[trigger] before[i],
            #[trigger] more[j],
        ) by {
            let (e, row) = before[i];
            assert(before.contains((e, row)));
            let k = list.take(count - 1).index_of(e);
            assert(list[k] == e);
            assert(list.take(count - 1)[k] == e);
            assert(k < count - 1);
            let f = list[count - 1];
            assert(entries[list[k]].spatial_node_id == entries[f].spatial_node_id);
        }
        joined_in_order(entries, before, more);
        assert forall|e: int, row: int|
            #[trigger] places.contains((e, row)) <==> 0 <= row < entry_rows(batches, entries, e)
                && list.take(count).contains(e) by {
            if places.contains((e, row)) {
                let k = places.index_of((e, row));
                assert(places[k] == (e, row));
                if k < before.len() {
                    assert(before[k] == (e, row));
                    assert(before.contains((e, row)));
                    let m = list.take(count - 1).index_of(e);
                    assert(list.take(count)[m] == e);
                } else {
                    assert(more[k - before.len()] == (e, row));
                    assert(list.take(count)[count - 1] == e);
                }
            }
            if 0 <= row < entry_rows(batches, entries, e) && list.take(count).contains(e) {
                let m = list.take(count).index_of(e);
                assert(list.take(count)[m] == e);
                if m < count - 1 {
                    assert(list.take(count - 1)[m] == e);
                    assert(before.contains((e, row)));
                    let k = before.index_of((e, row));
                    assert(places[k] == (e, row));
                } else {
                    assert(more[row] == (e, row));
                    assert(places[before.len() + row] == (e, row));
                }
            }
        }
    } else {
        assert(list.take(0) =~= Seq::empty());
    }
}

/// The places of a leaf's entries, in the order in which they are read.
spec fn leaf_list(entries: Seq<BatchDirectoryEntry>, leaf: u64) -> Seq<int> {
    let n = entries.len() as int;
    tile_places(entries, leaf, RowKind::Point, n) + tile_places(entries, leaf, RowKind::Edge, n)
        + tile_places(entries, leaf, RowKind::Face, n) + tile_places(entries, leaf, RowKind::Cell, n)
}

spec fn in_leaf(entries: Seq<BatchDirectoryEntry>, leaf: u64, e: int) -> bool {
    0 <= e < entries.len() && is_exact_kind(entries[e].row_kind) && entries[e].spatial_node_id
        == Some(leaf)
}

proof fn leaf_list_is_exact(entries: Seq<BatchDirectoryEntry>, leaf: u64)
    ensures
        ({
            let list = leaf_list(entries, leaf);
            &&& forall|e: int| #[trigger] list.contains(e) <==> in_leaf(entries, leaf, e)
            &&& forall|i: int, j: int|
                0 <= i < j < list.len() ==> entries[#[trigger] list[i]].spatial_node_id
                    == entries[#[trigger] list[j]].spatial_node_id && (turn(
                    entries[list[i]].row_kind,
                ) < turn(entries[list[j]].row_kind) || turn(entries[list[i]].row_kind) == turn(
                    entries[list[j]].row_kind,
                ) && list[i] < list[j])
            &&& leaf_entries(entries, leaf) == Seq::new(list.len(), |i: int| entries[list[i]])
        }),
{
    let n = entries.len() as int;
    let a = tile_places(entries, leaf, RowKind::Point, n);
    let b = tile_places(entries, leaf, RowKind::Edge, n);
    let c = tile_places(entries, leaf, RowKind::Face, n);
    let d = tile_places(entries, leaf, RowKind::Cell, n);
    tile_places_are_exact(entries, leaf, RowKind::Point, n);
    tile_places_are_exact(entries, leaf, RowKind::Edge, n);
    tile_places_are_exact(entries, leaf, RowKind::Face, n);
    tile_places_are_exact(entries, leaf, RowKind::Cell, n);
    assert(entries.take(n) =~= entries);
    let list = leaf_list(entries, leaf);
    let (p, q, r) = (
        a.len() as int,
        (a.len() + b.len()) as int,
        (a.len() + b.len() + c.len()) as int,
    );
    assert forall|i: int| 0 <= i < list.len() implies {
        let e = #[trigger] list[i];
        &&& in_leaf(entries, leaf, e)
        &&& turn(entries[e].row_kind) == if i < p {
            0int
        } else if i < q {
            1
        } else if i < r {
            2
        } else {
            3
        }
    } by {
        if i < p {
            assert(list[i] == a[i]);
            assert(a.contains(a[i]));
        } else if i < q {
            assert(list[i] == b[i - p]);
            assert(b.contains(b[i - p]));
        } else if i < r {
            assert(list[i] == c[i - q]);
            assert(c.contains(c[i - q]));
        } else {
            assert(list[i] == d[i - r]);
            assert(d.contains(d[i - r]));
        }
    }
    assert forall|e: int| #[trigger] list.contains(e) <==> in_leaf(entries, leaf, e) by {
        if list.contains(e) {
            let k = list.index_of(e);
            assert(list[k] == e);
        }
        if in_leaf(entries, leaf, e) {
            if entries[e].row_kind is Point {
                assert(a.contains(e));
                assert(list[a.index_of(e)] == e);
            } else if entries[e].row_kind is Edge {
                assert(b.contains(e));
                assert(list[p + b.index_of(e)] == e);
            } else if entries[e].row_kind is Face {
                assert(c.contains(e));
                assert(list[q + c.index_of(e)] == e);
            } else {
                assert(d.contains(e));
                assert(list[r + d.index_of(e)] == e);
            }
        }
    }
    assert forall|i: int, j: int| 0 <= i < j < list.len() implies entries[
        #[trigger] list[i]].spatial_node_id == entries[#[trigger] list[j]].spatial_node_id && (turn(
        entries[list[i]].row_kind,
    ) < turn(entries[list[j]].row_kind) || turn(entries[list[i]].row_kind) == turn(
        entries[list[j]].row_kind,
    ) && list[i] < list[j]) by {
        assert(in_leaf(entries, leaf, list[i]) && in_leaf(entries, leaf, list[j]));
        if j < p {
            assert(list[i] == a[i] && list[j] == a[j]);
        } else if p <= i && j < q {
            assert(list[i] == b[i - p] && list[j] == b[j - p]);
        } else if q <= i && j < r {
            assert(list[i] == c[i - q] && list[j] == c[j - q]);
        } else if r <= i {
            assert(list[i] == d[i - r] && list[j] == d[j - r]);
        }
    }
    assert(leaf_entries(entries, leaf) =~= Seq::new(list.len(), |i: int| entries[list[i]])) by {
        let found = leaf_entries(entries, leaf);
        assert forall|i: int| 0 <= i < found.len() implies found[i] == entries[list[i]] by {
            if i < p {
                assert(list[i] == a[i]);
            } else if i < q {
                assert(list[i] == b[i - p]);
            } else if i < r {
                assert(list[i] == c[i - q]);
            } else {
                assert(list[i] == d[i - r]);
            }
        }
    }
}

/// The exact batches of a leaf are each read once: the points first, then the edges,
/// the faces and the cells, each kind in the order of the directory.
pub proof fn leaf_is_read_whole(entries: Seq<BatchDirectoryEntry>, leaf: u64) -> (list: Seq<int>)
    ensures
        leaf_entries(entries, leaf).len() == list.len(),
        forall|i: int|
            0 <= i < list.len() ==> leaf_entries(entries, leaf)[i] == entries[#[trigger] list[i]],
        forall|e: int|
            #[trigger] list.contains(e) <==> 0 <= e < entries.len()
                && entries[e].spatial_node_id == Some(leaf) && is_exact_kind(entries[e].row_kind),
        forall|i: int, j: int|
            0 <= i < j < list.len() ==> turn(entries[#[trigger] list[i]].row_kind) < turn(
                entries[#[trigger] list[j]].row_kind,
            ) || turn(entries[list[i]].row_kind) == turn(entries[list[j]].row_kind) && list[i]
                < list[j],
{
    leaf_list_is_exact(entries, leaf);
    let list = leaf_list(entries, leaf);
    assert forall|e: int|
        #[trigger] list.contains(e) <==> 0 <= e < entries.len() && entries[e].spatial_node_id
            == Some(leaf) && is_exact_kind(entries[e].row_kind) by {
        assert(list.contains(e) <==> in_leaf(entries, leaf, e));
    }
    list
}

spec fn columns_there(
    batches: Seq<Batch>,
    entries: Seq<BatchDirectoryEntry>,
    list: Seq<int>,
    count: int,
) -> bool {
    forall|i: int| 0 <= i < count ==> has_columns(batches, entries[#[trigger] list[i]])
}

/// The first entries of a leaf.
proof fn entries_tell(
    result: Result<AuditFacts, Seq<char>>,
    start: Seq<Place>,
    whole: bool,
    batches: Seq<Batch>,
    entries: Seq<BatchDirectoryEntry>,
    leaf: u64,
    count: int,
)
    requires
        tells(result, lines_at(batches, entries, start), leaf, whole),
        0 <= count <= leaf_list(entries, leaf).len(),
    ensures
        ({
            let list = leaf_list(entries, leaf);
            let next = match result {
                Ok(facts) => after_entries(facts, batches, leaf_entries(entries, leaf), count),
                Err(message) => Err(message),
            };
            tells(
                next,
                lines_at(batches, entries, start + list_places(batches, entries, list, count)),
                leaf,
                whole && columns_there(batches, entries, list, count),
            )
        }),
    decreases count,
{
    let list = leaf_list(entries, leaf);
    if count == 0 {
        assert(start + list_places(batches, entries, list, 0) =~= start);
    } else {
        entries_tell(result, start, whole, batches, entries, leaf, count - 1);
        leaf_list_is_exact(entries, leaf);
        let e = list[count - 1];
        let entry = entries[e];
        assert(list.contains(e));
        assert(in_leaf(entries, leaf, e));
        assert(leaf_entries(entries, leaf)[count - 1] == entry);
        let before = start + list_places(batches, entries, list, count - 1);
        let next = match result {
            Ok(facts) => after_entries(facts, batches, leaf_entries(entries, leaf), count - 1),
            Err(message) => Err(message),
        };
        let there = columns_there(batches, entries, list, count - 1);
        entry_tells(next, lines_at(batches, entries, before), whole && there, batches, entry);
        let after = start + list_places(batches, entries, list, count);
        let batch = batches[entry.batch_index as int];
        assert(lines_at(batches, entries, after) =~= lines_at(batches, entries, before)
            + batch_lines(batches, entry, batch_rows(batch) as int));
        assert(columns_there(batches, entries, list, count) <==> there && has_columns(
            batches,
            entry,
        )) by {
            if there && has_columns(batches, entry) {
                assert forall|i: int| 0 <= i < count implies has_columns(
                    batches,
                    entries[#[trigger] list[i]],
                ) by {
                    if i < count - 1 {
                        assert(has_columns(batches, entries[list[i]]));
                    }
                }
            }
        }
    }
}

/// The places of the rows of the first leaves, in the order in which they are read.
spec fn reading(
    batches: Seq<Batch>,
    entries: Seq<BatchDirectoryEntry>,
    leaves: Seq<u64>,
    count: int,
) -> Seq<Place>
    decreases count,
{
    if count <= 0 {
        Seq::empty()
    } else {
        let list = leaf_list(entries, leaves[count - 1]);
        reading(batches, entries, leaves, count - 1) + list_places(
            batches,
            entries,
            list,
            list.len() as int,
        )
    }
}

proof fn reading_is_exact(
    batches: Seq<Batch>,
    entries: Seq<BatchDirectoryEntry>,
    leaves: Seq<u64>,
    count: int,
)
    requires
        0 <= count <= leaves.len(),
        forall|i: int, j: int|
            0 <= i < j < leaves.len() ==> (#[trigger] leaves[i]) < (#[trigger] leaves[j]),
    ensures
        ordered(entries, reading(batches, entries, leaves, count)),
        forall|e: int, row: int|
            #[trigger] reading(batches, entries, leaves, count).contains((e, row)) <==> 0 <= row
                < entry_rows(batches, entries, e) && 0 <= e < entries.len() && is_exact_kind(
                entries[e].row_kind,
            ) && entries[e].spatial_node_id is Some && leaves.take(count).contains(
                entries[e].spatial_node_id->0,
            ),
    decreases count,
{
    let places = reading(batches, entries, leaves, count);
    if count > 0 {
        reading_is_exact(batches, entries, leaves, count - 1);
        let before = reading(batches, entries, leaves, count - 1);
        let leaf = leaves[count - 1];
        let list = leaf_list(entries, leaf);
        let more = list_places(batches, entries, list, list.len() as int);
        leaf_list_is_exact(entries, leaf);
        list_places_are_exact(batches, entries, list, list.len() as int);
        assert(list.take(list.len() as int) =~= list);
        assert forall|i: int, j: int| 0 <= i < before.len() && 0 <= j < more.len() implies read_before(
            entries,
            #[trigger] before[i],
            #[trigger] more[j],
        ) by {
            let (e, row) = before[i];
            assert(before.contains((e, row)));
            let k = leaves.take(count - 1).index_of(entries[e].spatial_node_id->0);
            assert(leaves.take(count - 1)[k] == leaves[k]);
            let (f, s) = more[j];
            assert(more.contains((f, s)));
            assert(list.contains(f));
            assert(in_leaf(entries, leaf, f));
            assert(leaves[k] < leaves[count - 1]);
        }
        joined_in_order(entries, before, more);
        assert forall|e: int, row: int|
            #[trigger] places.contains((e, row)) <==> 0 <= row < entry_rows(batches, entries, e)
                && 0 <= e < entries.len() && is_exact_kind(entries[e].row_kind)
                && entries[e].spatial_node_id is Some && leaves.take(count).contains(
                entries[e].spatial_node_id->0,
            ) by {
            let id = entries[e].spatial_node_id->0;
            if places.contains((e, row)) {
                let k = places.index_of((e, row));
                assert(places[k] == (e, row));
                if k < before.len() {
                    assert(before[k] == (e, row));
                    assert(before.contains((e, row)));
                    let m = leaves.take(count - 1).index_of(id);
                    assert(leaves.take(count)[m] == id);
                } else {
                    assert(more[k - before.len()] == (e, row));
                    assert(more.contains((e, row)));
                    assert(list.contains(e));
                    assert(in_leaf(entries, leaf, e));
                    assert(leaves.take(count)[count - 1] == id);
                }
            }
            if 0 <= row < entry_rows(batches, entries, e) && 0 <= e < entries.len()
                && is_exact_kind(entries[e].row_kind) && entries[e].spatial_node_id is Some
                && leaves.take(count).contains(id) {
                let m = leaves.take(count).index_of(id);
                assert(leaves.take(count)[m] == id);
                if m < count - 1 {
                    assert(leaves.take(count - 1)[m] == id);
                    assert(before.contains((e, row)));
                    let k = before.index_of((e, row));
                    assert(places[k] == (e, row));
                } else {
                    assert(in_leaf(entries, leaf, e));
                    assert(list.contains(e));
                    assert(more.contains((e, row)));
                    let k = more.index_of((e, row));
                    assert(places[before.len() + k] == (e, row));
                }
            }
        }
    } else {
        assert(leaves.take(0) =~= Seq::empty());
    }
}

/// Entering a leaf forgets the points of the one before.
proof fn next_leaf(facts: AuditFacts, lines: Seq<Line>, old_leaf: u64, leaf: u64)
    requires
        knows(facts, lines, old_leaf),
        forall|i: int| 0 <= i < lines.len() ==> (#[trigger] lines[i]).leaf != leaf,
    ensures
        knows(AuditFacts { local: Set::empty(), ..facts }, lines, leaf),
{
    let now = AuditFacts { local: Set::empty(), ..facts };
    assert forall|id: u64|
        #[trigger] now.local.contains(id) <==> has_point(lines, lines.len() as int, leaf, id) by {
        if has_point(lines, lines.len() as int, leaf, id) {
            let i = choose|i: int|
                0 <= i < lines.len() && (#[trigger] lines[i]).kind is Point && lines[i].leaf == leaf
                    && lines[i].id == id;
            assert(lines[i].leaf != leaf);
        }
    }
    assert forall|id: u64| #[trigger] now.ids.contains(id) <==> owns_id(lines, id) by {
        assert(facts.ids.contains(id) <==> owns_id(lines, id));
    }
    assert forall|id: u64| #[trigger] now.owners.dom().contains(id) <==> has_owner(lines, id) by {
        assert(facts.owners.dom().contains(id) <==> has_owner(lines, id));
    }
}

spec fn leaves_whole(
    batches: Seq<Batch>,
    entries: Seq<BatchDirectoryEntry>,
    leaves: Seq<u64>,
    count: int,
) -> bool {
    forall|k: int|
        0 <= k < count ==> columns_there(
            batches,
            entries,
            leaf_list(entries, #[trigger] leaves[k]),
            leaf_list(entries, leaves[k]).len() as int,
        )
}

/// The first leaves of a file.
proof fn leaves_tell(
    batches: Seq<Batch>,
    entries: Seq<BatchDirectoryEntry>,
    leaves: Seq<u64>,
    count: int,
)
    requires
        0 <= count <= leaves.len(),
        forall|i: int, j: int|
            0 <= i < j < leaves.len() ==> (#[trigger] leaves[i]) < (#[trigger] leaves[j]),
    ensures
        tells(
            after_leaves(no_facts(), batches, entries, leaves, count),
            lines_at(batches, entries, reading(batches, entries, leaves, count)),
            if count > 0 {
                leaves[count - 1]
            } else {
                0
            },
            leaves_whole(batches, entries, leaves, count),
        ),
    decreases count,
{
    if count == 0 {
        let lines = lines_at(batches, entries, reading(batches, entries, leaves, 0));
        assert(lines.len() == 0);
        assert(clean(lines));
        assert(knows(no_facts(), lines, 0));
    } else {
        leaves_tell(batches, entries, leaves, count - 1);
        let start = reading(batches, entries, leaves, count - 1);
        let lines = lines_at(batches, entries, start);
        let leaf = leaves[count - 1];
        let list = leaf_list(entries, leaf);
        let last = after_leaves(no_facts(), batches, entries, leaves, count - 1);
        let whole = leaves_whole(batches, entries, leaves, count - 1);
        reading_is_exact(batches, entries, leaves, count - 1);
        assert forall|i: int| 0 <= i < lines.len() implies (#[trigger] lines[i]).leaf != leaf by {
            let (e, row) = start[i];
            assert(start.contains((e, row)));
            let k = leaves.take(count - 1).index_of(entries[e].spatial_node_id->0);
            assert(leaves.take(count - 1)[k] == leaves[k]);
            assert(leaves[k] < leaves[count - 1]);
        }
        let entered: Result<AuditFacts, Seq<char>> = match last {
            Ok(facts) => Ok(AuditFacts { local: Set::empty(), ..facts }),
            Err(message) => Err(message),
        };
        if let Ok(facts) = last {
            let old_leaf = if count - 1 > 0 {
                leaves[count - 2]
            } else {
                0
            };
            next_leaf(facts, lines, old_leaf, leaf);
        }
        leaf_list_is_exact(entries, leaf);
        entries_tell(entered, start, whole, batches, entries, leaf, list.len() as int);
        let there = columns_there(batches, entries, list, list.len() as int);
        assert(leaves_whole(batches, entries, leaves, count) <==> whole && there) by {
            if leaves_whole(batches, entries, leaves, count) {
                assert(columns_there(
                    batches,
                    entries,
                    leaf_list(entries, leaves[count - 1]),
                    leaf_list(entries, leaves[count - 1]).len() as int,
                ));
            }
        }
    }
}

/// The leaves of a tree are listed once each, in the order of their IDs.
pub proof fn leaves_are_listed(nodes: SortedMap<u64, SpatialNodeMeta>, count: int)
    requires
        nodes.wf(),
        0 <= count <= nodes.keys@.len(),
    ensures
        forall|i: int, j: int|
            0 <= i < j < leaves_among(nodes, count).len() ==> (#[trigger] leaves_among(
                nodes,
                count,
            )[i]) < (#[trigger] leaves_among(nodes, count)[j]),
        forall|leaf: u64|
            #[trigger] leaves_among(nodes, count).contains(leaf) <==> exists|k: int|
                0 <= k < count && #[trigger] nodes.keys@[k] == leaf
                    && nodes.values@[k].children@.len() == 0,
    decreases count,
{
    let list = leaves_among(nodes, count);
    if count > 0 {
        leaves_are_listed(nodes, count - 1);
        let rest = leaves_among(nodes, count - 1);
        assert forall|i: int| 0 <= i < rest.len() implies (#[trigger] rest[i]) < nodes.keys@[count
            - 1] by {
            assert(rest.contains(rest[i]));
            let k = choose|k: int|
                0 <= k < count - 1 && #[trigger] nodes.keys@[k] == rest[i]
                    && nodes.values@[k].children@.len() == 0;
            assert(nodes.keys@[k].before(nodes.keys@[count - 1]));
        }
        assert forall|leaf: u64|
            #[trigger] list.contains(leaf) <==> exists|k: int|
                0 <= k < count && #[trigger] nodes.keys@[k] == leaf
                    && nodes.values@[k].children@.len() == 0 by {
            if list.contains(leaf) {
                let m = list.index_of(leaf);
                assert(list[m] == leaf);
                if m < rest.len() {
                    assert(rest[m] == leaf);
                    assert(rest.contains(leaf));
                    let k = choose|k: int|
                        0 <= k < count - 1 && #[trigger] nodes.keys@[k] == leaf
                            && nodes.values@[k].children@.len() == 0;
                    assert(nodes.keys@[k] == leaf);
                } else {
                    assert(nodes.keys@[count - 1] == leaf);
                }
            }
            if exists|k: int|
                0 <= k < count && #[trigger] nodes.keys@[k] == leaf
                    && nodes.values@[k].children@.len() == 0 {
                let k = choose|k: int|
                    0 <= k < count && #[trigger] nodes.keys@[k] == leaf
                        && nodes.values@[k].children@.len() == 0;
                if k < count - 1 {
                    assert(nodes.keys@[k] == leaf);
                    assert(rest.contains(leaf));
                    let m = rest.index_of(leaf);
                    assert(list[m] == leaf);
                } else {
                    assert(list[rest.len() as int] == leaf);
                }
            }
        }
    }
}

/// The ID is that of a leaf of the file's tree.
pub open spec fn is_leaf(file: MeshFile, id: u64) -> bool {
    file.tree()@.dom().contains(id) && file.tree()@[id].children@.len() == 0
}

/// The place is an exact row of a leaf.
pub open spec fn is_row(file: MeshFile, place: Place) -> bool {
    let entry = file.entries()[place.0];
    &&& 0 <= place.0 < file.entries().len()
    &&& is_exact_kind(entry.row_kind)
    &&& entry.spatial_node_id matches Some(id) && is_leaf(file, id)
    &&& 0 <= place.1 < batch_rows(file.batches()[entry.batch_index as int])
}

/// The row at a place of a file.
pub open spec fn row_at(file: MeshFile, place: Place) -> Line {
    line_of(file.batches(), file.entries()[place.0], place.1)
}

/// The rows of a file keep the rules of a mesh: every exact batch of a leaf has its
/// columns, no two rows own the same ID, a ghost that is read after its owner names the
/// owner's chunk and the same place, and every element stands on points of its own leaf.
pub open spec fn rows_are_sound(file: MeshFile) -> bool {
    &&& forall|e: int|
        0 <= e < file.entries().len() && is_exact_kind((#[trigger] file.entries()[e]).row_kind) && (
        file.entries()[e].spatial_node_id matches Some(id) && is_leaf(file, id)) ==> has_columns(
            file.batches(),
            file.entries()[e],
        )
    &&& forall|a: Place, b: Place|
        #[trigger] is_row(file, a) && #[trigger] is_row(file, b) && a != b && !row_at(
            file,
            a,
        ).ghost_row && !row_at(file, b).ghost_row ==> row_at(file, a).id != row_at(file, b).id
    &&& forall|a: Place, b: Place|
        #[trigger] is_row(file, a) && #[trigger] is_row(file, b) && read_before(
            file.entries(),
            a,
            b,
        ) && row_at(file, a).kind is Point && !row_at(file, a).ghost_row && row_at(
            file,
            b,
        ).ghost_row && row_at(file, a).id == row_at(file, b).id ==> {
            let (owner, copy) = (row_at(file, a).row, row_at(file, b).row);
            &&& copy.chunk == owner.chunk
            &&& owner.x.same_value(copy.x)
            &&& owner.y.same_value(copy.y)
            &&& owner.z.same_value(copy.z)
        }
    &&& forall|a: Place|
        #[trigger] is_row(file, a) && !(row_at(file, a).kind is Point) ==> row_at(
            file,
            a,
        ).points is Some && forall|k: int|
            0 <= k < row_at(file, a).points->0.len() ==> point_in_leaf(
                file,
                row_at(file, a).leaf,
                #[trigger] row_at(file, a).points->0[k],
            )
}

/// Some point row of the leaf has the ID.
pub open spec fn point_in_leaf(file: MeshFile, leaf: u64, id: u64) -> bool {
    exists|b: Place|
        #[trigger] is_row(file, b) && row_at(file, b).kind is Point && row_at(file, b).leaf == leaf
            && row_at(file, b).id == id
}

/// The rows at places of a file.
pub open spec fn rows_at(file: MeshFile, places: Seq<Place>) -> Seq<Line> {
    Seq::new(places.len(), |i: int| row_at(file, places[i]))
}

proof fn index_follows_order(entries: Seq<BatchDirectoryEntry>, places: Seq<Place>, i: int, j: int)
    requires
        ordered(entries, places),
        0 <= i < places.len(),
        0 <= j < places.len(),
        read_before(entries, places[i], places[j]),
    ensures
        i < j,
{
    if j < i {
        assert(read_before(entries, places[j], places[i]));
    }
}

/// Clean lines in the reading order are sound rows, and the other way round.
proof fn clean_is_sound(file: MeshFile, places: Seq<Place>)
    requires
        ordered(file.entries(), places),
        forall|place: Place| #[trigger] places.contains(place) <==> is_row(file, place),
        forall|e: int|
            0 <= e < file.entries().len() && is_exact_kind((#[trigger] file.entries()[e]).row_kind)
                && (file.entries()[e].spatial_node_id matches Some(id) && is_leaf(file, id))
                ==> has_columns(file.batches(), file.entries()[e]),
    ensures
        clean(rows_at(file, places)) <==> rows_are_sound(file),
{
    let lines = rows_at(file, places);
    let entries = file.entries();
    if clean(lines) {
        assert forall|a: Place, b: Place|
            #[trigger] is_row(file, a) && #[trigger] is_row(file, b) && a != b && !row_at(
                file,
                a,
            ).ghost_row && !row_at(file, b).ghost_row implies row_at(file, a).id != row_at(
            file,
            b,
        ).id by {
            let i = places.index_of(a);
            let j = places.index_of(b);
            assert(places.contains(a) && places.contains(b));
            assert(lines[i] == row_at(file, a) && lines[j] == row_at(file, b));
            if i < j {
                assert(may_follow(lines[i], lines[j]));
            } else {
                assert(may_follow(lines[j], lines[i]));
            }
        }
        assert forall|a: Place, b: Place|
            #[trigger] is_row(file, a) && #[trigger] is_row(file, b) && read_before(entries, a, b)
                && row_at(file, a).kind is Point && !row_at(file, a).ghost_row && row_at(
                file,
                b,
            ).ghost_row && row_at(file, a).id == row_at(file, b).id implies {
            let (owner, copy) = (row_at(file, a).row, row_at(file, b).row);
            &&& copy.chunk == owner.chunk
            &&& owner.x.same_value(copy.x)
            &&& owner.y.same_value(copy.y)
            &&& owner.z.same_value(copy.z)
        } by {
            let i = places.index_of(a);
            let j = places.index_of(b);
            assert(places.contains(a) && places.contains(b));
            index_follows_order(entries, places, i, j);
            assert(lines[i] == row_at(file, a) && lines[j] == row_at(file, b));
            assert(may_follow(lines[i], lines[j]));
        }
        assert forall|a: Place|
            #[trigger] is_row(file, a) && !(row_at(file, a).kind is Point) implies row_at(
            file,
            a,
        ).points is Some && forall|k: int|
            0 <= k < row_at(file, a).points->0.len() ==> point_in_leaf(
                file,
                row_at(file, a).leaf,
                #[trigger] row_at(file, a).points->0[k],
            ) by {
            let j = places.index_of(a);
            assert(places.contains(a));
            let line = row_at(file, a);
            assert(lines[j] == line);
            assert(stands(lines, j));
            assert forall|k: int| 0 <= k < line.points->0.len() implies point_in_leaf(
                file,
                line.leaf,
                #[trigger] line.points->0[k],
            ) by {
                let id = line.points->0[k];
                assert(has_point(lines, j, line.leaf, id));
                let i = choose|i: int|
                    0 <= i < j && (#[trigger] lines[i]).kind is Point && lines[i].leaf == line.leaf
                        && lines[i].id == id;
                assert(places.contains(places[i]));
                assert(is_row(file, places[i]));
            }
        }
        assert(rows_are_sound(file));
    }
    if rows_are_sound(file) {
        assert forall|i: int, j: int| 0 <= i < j < lines.len() implies may_follow(
            #[trigger] lines[i],
            #[trigger] lines[j],
        ) by {
            assert(places.contains(places[i]) && places.contains(places[j]));
            assert(is_row(file, places[i]) && is_row(file, places[j]));
            assert(read_before(entries, places[i], places[j]));
        }
        assert forall|j: int| 0 <= j < lines.len() implies #[trigger] stands(lines, j) by {
            let a = places[j];
            assert(places.contains(a));
            assert(is_row(file, a));
            let line = lines[j];
            assert(line == row_at(file, a));
            if !(line.kind is Point) {
                assert forall|k: int| 0 <= k < line.points->0.len() implies has_point(
                    lines,
                    j,
                    line.leaf,
                    #[trigger] line.points->0[k],
                ) by {
                    let id = line.points->0[k];
                    assert(point_in_leaf(file, line.leaf, row_at(file, a).points->0[k]));
                    let b = choose|b: Place|
                        #[trigger] is_row(file, b) && row_at(file, b).kind is Point && row_at(
                            file,
                            b,
                        ).leaf == line.leaf && row_at(file, b).id == id;
                    assert(places.contains(b));
                    let i = places.index_of(b);
                    assert(places[i] == b);
                    assert(read_before(entries, b, a));
                    index_follows_order(entries, places, i, j);
                    assert(lines[i] == row_at(file, b));
                }
            }
        }
    }
}

/// The audit of a file finds no fault exactly where its rows keep the rules of a mesh.
/// It then counts every owner row of a point and every edge, face and cell once. The
/// list has every exact row of a leaf once, in the order in which they are read.
pub proof fn audit_holds_rows_to_rules(file: MeshFile) -> (places: Seq<Place>)
    requires
        file.tree().wf(),
    ensures
        audit_facts(file) is Ok <==> rows_are_sound(file),
        forall|place: Place| #[trigger] places.contains(place) <==> is_row(file, place),
        forall|i: int, j: int|
            0 <= i < j < places.len() ==> read_before(
                file.entries(),
                #[trigger] places[i],
                #[trigger] places[j],
            ),
        places.len() <= u64::MAX ==> (audit_facts(file) matches Ok(facts) ==> {
            &&& facts.counts.points == owned(rows_at(file, places), RowKind::Point)
            &&& facts.counts.edges == owned(rows_at(file, places), RowKind::Edge)
            &&& facts.counts.faces == owned(rows_at(file, places), RowKind::Face)
            &&& facts.counts.cells == owned(rows_at(file, places), RowKind::Cell)
        }),
{
    let nodes = file.tree();
    let batches = file.batches();
    let entries = file.entries();
    let total = nodes.keys@.len() as int;
    let leaves = leaves_among(nodes, total);
    let n = leaves.len() as int;
    leaves_are_listed(nodes, total);
    leaves_tell(batches, entries, leaves, n);
    reading_is_exact(batches, entries, leaves, n);
    assert(leaves.take(n) =~= leaves);
    let places = reading(batches, entries, leaves, n);
    assert forall|id: u64| #[trigger] is_leaf(file, id) <==> leaves.contains(id) by {
        if is_leaf(file, id) {
            let k = nodes.keys@.index_of(id);
            assert(nodes.keys@[k] == id);
            assert(leaves.contains(id));
        }
        if leaves.contains(id) {
            let k = choose|k: int|
                0 <= k < total && #[trigger] nodes.keys@[k] == id && nodes.values@[k].children@.len()
                    == 0;
            nodes.entry_at(k);
        }
    }
    assert forall|place: Place| #[trigger] places.contains(place) <==> is_row(file, place) by {
        assert(places.contains((place.0, place.1)) <==> is_row(file, place));
    }
    assert(rows_at(file, places) =~= lines_at(batches, entries, places));
    if leaves_whole(batches, entries, leaves, n) {
        assert forall|e: int|
            0 <= e < entries.len() && is_exact_kind((#[trigger] entries[e]).row_kind) && (
            entries[e].spatial_node_id matches Some(id) && is_leaf(file, id)) implies has_columns(
            batches,
            entries[e],
        ) by {
            let id = entries[e].spatial_node_id->0;
            let k = leaves.index_of(id);
            assert(leaves[k] == id);
            leaf_list_is_exact(entries, id);
            assert(in_leaf(entries, id, e));
            let list = leaf_list(entries, leaves[k]);
            assert(list.contains(e));
            let m = list.index_of(e);
            assert(columns_there(batches, entries, list, list.len() as int));
            assert(has_columns(batches, entries[list[m]]));
        }
        clean_is_sound(file, places);
    } else {
        let k = choose|k: int|
            0 <= k < n && !columns_there(
                batches,
                entries,
                leaf_list(entries, #[trigger] leaves[k]),
                leaf_list(entries, leaves[k]).len() as int,
            );
        let list = leaf_list(entries, leaves[k]);
        let m = choose|m: int|
            0 <= m < list.len() && !has_columns(batches, entries[#[trigger] list[m]]);
        leaf_list_is_exact(entries, leaves[k]);
        assert(list.contains(list[m]));
        assert(in_leaf(entries, leaves[k], list[m]));
        assert(leaves.contains(leaves[k]));
        assert(is_leaf(file, leaves[k]));
        assert(!rows_are_sound(file));
    }
    places
}

/// The audit of a file passes exactly where the exact batches of its leaves are what
/// their entries promise, its rows keep the rules of a mesh, and there are as many
/// points, edges, faces and cells as its manifest says.
pub proof fn audit_passes_sound_files(file: MeshFile, session: MeshReadSession) -> (places: Seq<
    Place,
>)
    requires
        file.wf(),
    ensures
        forall|place: Place| #[trigger] places.contains(place) <==> is_row(file, place),
        places.no_duplicates(),
        places.len() <= u64::MAX ==> (file.audit_passes(session) <==> {
            &&& forall|id: u64|
                is_leaf(file, id) ==> file.shows_all(
                    session,
                    #[trigger] leaf_entries(file.entries(), id),
                )
            &&& rows_are_sound(file)
            &&& file.header().counts.points == owned(rows_at(file, places), RowKind::Point)
            &&& file.header().counts.edges == owned(rows_at(file, places), RowKind::Edge)
            &&& file.header().counts.faces == owned(rows_at(file, places), RowKind::Face)
            &&& file.header().counts.cells == owned(rows_at(file, places), RowKind::Cell)
        }),
{
    file.tree_is_sorted();
    let places = audit_holds_rows_to_rules(file);
    assert forall|i: int, j: int|
        0 <= i < places.len() && 0 <= j < places.len() && i != j implies places[i] != places[j] by {
        if i < j {
            assert(read_before(file.entries(), places[i], places[j]));
        } else {
            assert(read_before(file.entries(), places[j], places[i]));
        }
    }
    places
}

} // verus!
