//! The batches of a file settle what is read from them: two readings of the same
//! batches say the same and are refused alike.

use vstd::prelude::*;

#[allow(unused_imports)]
use crate::checks::{entry_fault, mesh_fields, plain_item, repeated, schema_accepted};
#[allow(unused_imports)]
use crate::columns::{batch_rows, Batch};
#[allow(unused_imports)]
use crate::file::{
    adds_nodes, batch_entries, catalog_from, directory_from, entries_given, nodes_from,
};
#[allow(unused_imports)]
use crate::names::{CatalogColumns, CatalogFact};
#[allow(unused_imports)]
use crate::rows::{BoundsColumns, DirectoryColumns};
#[allow(unused_imports)]
use crate::schema::{BatchDirectoryEntry, Bounds3, MeshManifest};
#[allow(unused_imports)]
use crate::session::{same_field, same_item, ColumnKind, FileSchema};
#[allow(unused_imports)]
use crate::spatial::{SpatialColumns, SpatialNodeMeta};
#[allow(unused_imports)]
use crate::tree::{same_node, same_nodes};

verus! {

/// Two schemas that say the same are accepted alike.
pub proof fn schema_is_settled(
    schema: FileSchema,
    other: FileSchema,
    metadata: Map<Seq<char>, Seq<char>>,
    fields: Seq<(Seq<char>, ColumnKind, bool)>,
    items: Seq<(nat, Option<(Seq<char>, bool, nat)>)>,
)
    requires
        schema.describes(metadata, fields, items),
        other.describes(metadata, fields, items),
        schema_accepted(other),
    ensures
        schema_accepted(schema),
{
    assert forall|i: int| 0 <= i < schema.fields@.len() implies same_field(
        #[trigger] schema.fields@[i],
        mesh_fields()[i],
    ) by {
        assert(same_field(other.fields@[i], fields[i]));
        assert(same_field(other.fields@[i], mesh_fields()[i]));
    }
    assert forall|i: int| 0 <= i < schema.items@.len() implies plain_item(
        #[trigger] schema.items@[i],
        mesh_fields()[i].1,
    ) by {
        assert(same_item(other.items@[i], items[i]));
        assert(plain_item(other.items@[i], mesh_fields()[i].1));
    }
}

proof fn bounds_settled(a: BoundsColumns, b: BoundsColumns, batch: Batch, row: int)
    requires
        a.of(batch),
        b.of(batch),
    ensures
        a.fault(row) == b.fault(row),
        a.all_null(row) == b.all_null(row),
        a.low(row) == b.low(row),
        a.high(row) == b.high(row),
{
    assert(a.low(row) =~= b.low(row));
    assert(a.high(row) =~= b.high(row));
    assert(a.absent() == b.absent());
    assert(a.ordered(row) == b.ordered(row));
}

/// Two readings of a directory batch find the same wrong with a row.
pub proof fn directory_rows_settled(
    a: DirectoryColumns,
    b: DirectoryColumns,
    batch: Batch,
    row: int,
)
    requires
        a.of(batch),
        b.of(batch),
        0 <= row < a.indices@.len(),
    ensures
        a.fault(row) == b.fault(row),
{
    bounds_settled(a.bounds, b.bounds, batch, row);
    let kinds = (a.kinds@[row], b.kinds@[row]);
    let types = (a.element_types@[row], b.element_types@[row]);
    let zones = (a.zone_ids@[row], b.zone_ids@[row]);
    let tags = (a.tag_ids@[row], b.tag_ids@[row]);
}

/// The entries say the same of what an entry is held to.
pub open spec fn same_entry(a: BatchDirectoryEntry, b: BatchDirectoryEntry) -> bool {
    &&& a.batch_index == b.batch_index
    &&& a.row_kind == b.row_kind
    &&& a.spatial_node_id == b.spatial_node_id
    &&& a.rows == b.rows
    &&& a.decoded_bytes == b.decoded_bytes
    &&& a.bounds is None == b.bounds is None
}

/// The lists of entries say the same, entry by entry.
pub open spec fn same_entries(a: Seq<BatchDirectoryEntry>, b: Seq<BatchDirectoryEntry>) -> bool {
    &&& a.len() == b.len()
    &&& forall|i: int| 0 <= i < a.len() ==> same_entry(#[trigger] a[i], b[i])
}

proof fn batch_entries_settled(
    batch: Batch,
    a: Seq<BatchDirectoryEntry>,
    b: Seq<BatchDirectoryEntry>,
)
    requires
        batch_entries(batch, a),
        batch_entries(batch, b),
    ensures
        same_entries(a, b),
{
    let first = choose|columns: DirectoryColumns| #[trigger]
        columns.of(batch) && entries_given(columns, a);
    let second = choose|columns: DirectoryColumns| #[trigger]
        columns.of(batch) && entries_given(columns, b);
    assert forall|i: int| 0 <= i < a.len() implies same_entry(#[trigger] a[i], b[i]) by {
        assert(first.gives(i, a[i]));
        assert(second.gives(i, b[i]));
        bounds_settled(first.bounds, second.bounds, batch, i);
        let kinds = (first.kinds@[i], second.kinds@[i]);
    }
}

/// The directory batches of a range settle what their entries say.
pub proof fn directory_is_settled(
    batches: Seq<Batch>,
    start: int,
    end: int,
    a: Seq<BatchDirectoryEntry>,
    b: Seq<BatchDirectoryEntry>,
)
    requires
        directory_from(batches, start, end, a),
        directory_from(batches, start, end, b),
    ensures
        same_entries(a, b),
    decreases end - start,
{
    if start < end {
        let batch = batches[end - 1];
        let first = a.len() - batch_rows(batch);
        let second = b.len() - batch_rows(batch);
        directory_is_settled(batches, start, end - 1, a.take(first), b.take(second));
        batch_entries_settled(batch, a.skip(first), b.skip(second));
        assert forall|i: int| 0 <= i < a.len() implies same_entry(#[trigger] a[i], b[i]) by {
            if i < first {
                assert(a.take(first)[i] == a[i] && b.take(second)[i] == b[i]);
            } else {
                assert(a.skip(first)[i - first] == a[i]);
                assert(b.skip(second)[i - first] == b[i]);
            }
        }
    }
}

/// Entries that say the same are held to the same.
pub proof fn entry_faults_settled(
    a: Seq<BatchDirectoryEntry>,
    b: Seq<BatchDirectoryEntry>,
    manifest: MeshManifest,
    place: int,
)
    requires
        same_entries(a, b),
        0 <= place < a.len(),
    ensures
        entry_fault(a, manifest, place) == entry_fault(b, manifest, place),
{
    assert(same_entry(a[place], b[place]));
    if repeated(a, place) {
        let k = choose|k: int|
            0 <= k < place && (#[trigger] a[k]).batch_index == a[place].batch_index;
        assert(same_entry(a[k], b[k]));
        assert(b[k].batch_index == b[place].batch_index);
    }
    if repeated(b, place) {
        let k = choose|k: int|
            0 <= k < place && (#[trigger] b[k]).batch_index == b[place].batch_index;
        assert(same_entry(a[k], b[k]));
        assert(a[k].batch_index == a[place].batch_index);
    }
}

proof fn catalog_columns_settled(a: CatalogColumns, b: CatalogColumns, batch: Batch)
    requires
        a.of(batch),
        b.of(batch),
    ensures
        a.facts() == b.facts(),
{
    assert forall|row: int| 0 <= row < a.facts().len() implies #[trigger] a.facts()[row]
        == b.facts()[row] by {
        let kinds = (a.kinds@[row], b.kinds@[row]);
        let labels = (a.labels@[row], b.labels@[row]);
    }
    assert(a.facts() =~= b.facts());
}

/// Two readings of a catalog batch find the same wrong with a row.
pub proof fn catalog_rows_settled(
    a: CatalogColumns,
    b: CatalogColumns,
    batch: Batch,
    facts: Seq<CatalogFact>,
    row: int,
)
    requires
        a.of(batch),
        b.of(batch),
        0 <= row < a.ids@.len(),
    ensures
        a.fault(facts, row) == b.fault(facts, row),
{
    catalog_columns_settled(a, b, batch);
    let kinds = (a.kinds@[row], b.kinds@[row]);
    let labels = (a.labels@[row], b.labels@[row]);
}

/// The catalog batches of a range settle the facts.
pub proof fn catalog_is_settled(
    batches: Seq<Batch>,
    start: int,
    end: int,
    a: Seq<CatalogFact>,
    b: Seq<CatalogFact>,
)
    requires
        catalog_from(batches, start, end, a),
        catalog_from(batches, start, end, b),
    ensures
        a == b,
    decreases end - start,
{
    if start < end {
        let batch = batches[end - 1];
        let first = a.len() - batch_rows(batch);
        let second = b.len() - batch_rows(batch);
        catalog_is_settled(batches, start, end - 1, a.take(first), b.take(second));
        let left = choose|columns: CatalogColumns| #[trigger]
            columns.of(batch) && columns.facts() == a.skip(first);
        let right = choose|columns: CatalogColumns| #[trigger]
            columns.of(batch) && columns.facts() == b.skip(second);
        catalog_columns_settled(left, right, batch);
        assert(a =~= a.take(first) + a.skip(first));
        assert(b =~= b.take(second) + b.skip(second));
    } else {
        assert(a =~= b);
    }
}

/// Two readings of a spatial batch find the same wrong with a row.
pub proof fn spatial_rows_settled(
    a: SpatialColumns,
    b: SpatialColumns,
    batch: Batch,
    known: Set<u64>,
    row: int,
)
    requires
        a.of(batch),
        b.of(batch),
        0 <= row < a.ids@.len(),
    ensures
        a.fault(known, row) == b.fault(known, row),
{
    bounds_settled(a.bounds, b.bounds, batch, row);
    let children = (a.children@[row], b.children@[row]);
    let chunks = (a.chunks@[row], b.chunks@[row]);
}

proof fn same_bounds(a: Bounds3, b: Bounds3)
    requires
        a.min@ == b.min@,
        a.max@ == b.max@,
    ensures
        a == b,
{
    assert(a.min =~= b.min) by {
        assert forall|i: int| 0 <= i < 3 implies #[trigger] a.min[i] == b.min[i] by {
            assert(a.min@[i] == b.min@[i]);
        }
    }
    assert(a.max =~= b.max) by {
        assert forall|i: int| 0 <= i < 3 implies #[trigger] a.max[i] == b.max[i] by {
            assert(a.max@[i] == b.max@[i]);
        }
    }
}

/// The spatial batches of a range settle the nodes.
pub proof fn node_ids_settled(
    batches: Seq<Batch>,
    start: int,
    end: int,
    a: Map<u64, SpatialNodeMeta>,
    b: Map<u64, SpatialNodeMeta>,
)
    requires
        nodes_from(batches, start, end, a),
        nodes_from(batches, start, end, b),
    ensures
        same_nodes(a, b),
    decreases end - start,
{
    if start < end {
        let batch = batches[end - 1];
        let first = choose|before: Map<u64, SpatialNodeMeta>|
            nodes_from(batches, start, end - 1, before) && #[trigger] adds_nodes(batch, before, a);
        let second = choose|before: Map<u64, SpatialNodeMeta>|
            nodes_from(batches, start, end - 1, before) && #[trigger] adds_nodes(batch, before, b);
        node_ids_settled(batches, start, end - 1, first, second);
        let left = choose|columns: SpatialColumns| #[trigger]
            columns.of(batch) && columns.adds(first, a);
        let right = choose|columns: SpatialColumns| #[trigger]
            columns.of(batch) && columns.adds(second, b);
        let count = left.ids@.len() as int;
        assert forall|id: u64| a.dom().contains(id) == b.dom().contains(id) by {
            if left.used(count, id) {
                let k = choose|k: int| 0 <= k < count && (#[trigger] left.ids@[k]).1 == id;
                assert(left.fault(first.dom(), k) is None);
                assert(right.fault(second.dom(), k) is None);
            }
            assert(first.dom().contains(id) == second.dom().contains(id));
            assert(left.used(count, id) == right.used(count, id));
        }
        assert(a.dom() =~= b.dom());
        assert forall|id: u64| #[trigger] a.dom().contains(id) implies same_node(
            a[id],
            b[id],
        ) by {
            if first.dom().contains(id) {
                assert(second.dom().contains(id));
                assert(same_node(first[id], second[id]));
            } else {
                let k = choose|k: int| 0 <= k < count && (#[trigger] left.ids@[k]).1 == id;
                assert(left.fault(first.dom(), k) is None);
                assert(right.fault(second.dom(), k) is None);
                assert(left.gives(k, a[id]));
                assert(right.gives(k, b[id]));
                bounds_settled(left.bounds, right.bounds, batch, k);
                same_bounds(a[id].bounds, b[id].bounds);
                let children = (left.children@[k], right.children@[k]);
                let chunks = (left.chunks@[k], right.chunks@[k]);
            }
        }
    }
}

} // verus!
