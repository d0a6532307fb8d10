//! A mesh file: opening it, finding its batches, and auditing all of it.

use std::sync::Arc;

use vstd::prelude::*;
use vstd::string::StringExecFns;

use crate::algorithm::{JobControl, MeshingPhase, MeshingProgress};
#[allow(unused_imports)]
use crate::audit::{after_batch, AuditFacts};
use crate::audit::Audit;
use crate::checks::{validate_directory, validate_manifest, validate_schema};
#[allow(unused_imports)]
use crate::checks::{
    directory_refused, directory_sound, entry_fault, manifest_identity, repeated, schema_accepted,
    schema_refused, sections_in_order,
};
use crate::columns::Batch;
#[allow(unused_imports)]
use crate::columns::{batch_rows, same_texts, text_columns};
#[allow(unused_imports)]
use crate::decoded::{batch_agrees, batch_disagrees};
use crate::decoded::validate_decoded_batch;
use crate::error::{MeshError, MeshResult};
#[allow(unused_imports)]
use crate::error::{fails_file, fails_input};
use crate::lod::{candidate_leaf_tiles, nearest_leaf_nodes, select_lod_nodes, LodMeasure, NearLeaf};
#[allow(unused_imports)]
use crate::lod::{first_ids, lod_walk, measures_by_id, meeting_leaves, LodState};
#[allow(unused_imports)]
use crate::names::{distinct, listed, CatalogFact};
use crate::names::{CatalogColumns, CatalogNames};
use crate::number::Real;
use crate::rows::{batch_kind, DirectoryColumns};
#[allow(unused_imports)]
use crate::rows::{missing_column, rows_kind};
use crate::schema::{
    BatchDirectoryEntry, BatchRange, Bounds3, MeshCounts, MeshManifest, RowKind,
};
use crate::session::MeshReadSession;
#[allow(unused_imports)]
use crate::session::{
    from_outside, ipc_batches, ipc_fields, ipc_items, ipc_metadata, ColumnKind, FileSchema,
};
#[allow(unused_imports)]
use crate::settling::{
    catalog_is_settled, catalog_rows_settled, directory_is_settled, directory_rows_settled,
    entry_faults_settled, node_ids_settled, schema_is_settled, spatial_rows_settled,
};
#[allow(unused_imports)]
use crate::sorted::ordered;
use crate::sorted::{SortedMap, SortedSet};
use crate::spatial::{SpatialColumns, SpatialNodeMeta};
#[allow(unused_imports)]
use crate::text::decimal;
use crate::text::{append_decimal, sentence};
use crate::tree::validate_spatial_tree;
#[allow(unused_imports)]
use crate::tree::{
    accepted_nodes_are_a_tree, is_tree, nodes_counted, stray_entry, tree_fault, tree_is_settled,
};

verus! {

/// The text that a manifest batch holds, or what is wrong with it.
pub open spec fn manifest_of(batch: Batch) -> Result<Seq<char>, Seq<char>> {
    if !text_columns(batch).dom().contains("row_kind"@) {
        Err(missing_column("row_kind"@))
    } else {
        match rows_kind(text_columns(batch)["row_kind"@]) {
            Err(message) => Err(message),
            Ok(kind) => if kind != RowKind::Manifest || batch_rows(batch) != 1 {
                Err("the final Arrow batch must be one manifest row"@)
            } else if !text_columns(batch).dom().contains("metadata"@) {
                Err(missing_column("metadata"@))
            } else if text_columns(batch)["metadata"@][0].0 {
                Err("manifest metadata is missing"@)
            } else {
                Ok(text_columns(batch)["metadata"@][0].1)
            },
        }
    }
}

/// The text of the manifest batch.
pub fn manifest_row(batch: &Batch) -> (result: MeshResult<String>)
    ensures
        match manifest_of(*batch) {
            Ok(text) => result matches Ok(found) && found@ == text,
            Err(message) => fails_file(result, message),
        },
{
    let kind = match batch_kind(batch) {
        Ok(kind) => kind,
        Err(error) => {
            return Err(error);
        },
    };
    if kind != RowKind::Manifest || batch.num_rows() != 1 {
        return Err(MeshError::invalid_file("the final Arrow batch must be one manifest row"));
    }
    let metadata = match batch.strings("metadata") {
        Ok(column) => column,
        Err(error) => {
            return Err(error);
        },
    };
    let slot = &metadata[0];
    assert(same_texts(metadata@, text_columns(*batch)["metadata"@]));
    assert(metadata@[0].0 == text_columns(*batch)["metadata"@][0].0);
    if slot.0 {
        return Err(MeshError::invalid_file("manifest metadata is missing"));
    }
    Ok(slot.1.clone())
}

/// A mesh file's schema is described by this metadata, these fields
/// and these item facts.
pub open spec fn is_mesh_file(
    metadata: Map<Seq<char>, Seq<char>>,
    fields: Seq<(Seq<char>, ColumnKind, bool)>,
    items: Seq<(nat, Option<(Seq<char>, bool, nat)>)>,
) -> bool {
    exists|schema: FileSchema| #[trigger]
        schema.describes(metadata, fields, items) && schema_accepted(schema)
}

/// The error with which a file of this metadata, these fields and these
/// item facts is refused.
pub open spec fn is_foreign_file(
    metadata: Map<Seq<char>, Seq<char>>,
    fields: Seq<(Seq<char>, ColumnKind, bool)>,
    items: Seq<(nat, Option<(Seq<char>, bool, nat)>)>,
    error: MeshError,
) -> bool {
    exists|schema: FileSchema| #[trigger]
        schema.describes(metadata, fields, items) && schema_refused(schema, error)
}

/// The session is on a mesh file whose manifest can be had.
pub open spec fn has_manifest(session: MeshReadSession) -> bool {
    &&& is_mesh_file(session.metadata(), session.fields(), session.items())
    &&& session.batches().len() >= 5
    &&& session.readable(session.batches().len() - 1)
    &&& manifest_of(session.batches().last()) is Ok
}

/// The error with which reading the manifest ends: the schema is not that of a
/// mesh file, batches are missing, the last batch cannot be read, or it holds
/// no manifest.
pub open spec fn manifest_fails(session: MeshReadSession, error: MeshError) -> bool {
    let last = session.batches().len() - 1;
    if !is_mesh_file(session.metadata(), session.fields(), session.items()) {
        is_foreign_file(session.metadata(), session.fields(), session.items(), error)
    } else if session.batches().len() < 5 {
        error is InvalidFile && error.text()
            == "Arrow v3 mesh is missing required batch sections"@
    } else if !session.readable(last) {
        session.read_refused(last, error)
    } else {
        error is InvalidFile && manifest_of(session.batches().last()) == Err::<
            Seq<char>,
            Seq<char>,
        >(error.text())
    }
}

/// The text of the manifest of the file that a session is on.
pub fn manifest_from(session: &mut MeshReadSession) -> (result: MeshResult<String>)
    ensures
        final(session).same_file(*old(session)),
        result is Ok <==> has_manifest(*old(session)),
        match result {
            Ok(text) => manifest_of(old(session).batches().last()) == Ok::<Seq<char>, Seq<char>>(
                text@,
            ),
            Err(error) => manifest_fails(*old(session), error),
        },
{
    let schema = session.schema();
    match validate_schema(&schema) {
        Ok(_) => {},
        Err(error) => {
            proof {
                let facts = (session.metadata(), session.fields(), session.items());
                if is_mesh_file(facts.0, facts.1, facts.2) {
                    let other = choose|other: FileSchema| #[trigger]
                        other.describes(facts.0, facts.1, facts.2) && schema_accepted(other);
                    schema_is_settled(schema, other, facts.0, facts.1, facts.2);
                }
            }
            return Err(error);
        },
    }
    let count: usize = session.num_batches();
    if count < 5 {
        return Err(MeshError::invalid_file("Arrow v3 mesh is missing required batch sections"));
    }
    match session.read_batch(count - 1) {
        Ok(batch) => manifest_row(&batch),
        Err(error) => Err(error),
    }
}

/// The text of the manifest of a mesh file. Whether the file can be opened is
/// for the outside reader to say; then it is what reading an opened file gives.
pub fn manifest_text(bytes: Arc<[u8]>) -> (result: MeshResult<String>)
    ensures
        match result {
            Ok(text) => exists|session: MeshReadSession| #[trigger]
                session.reads(bytes@) && has_manifest(session) && manifest_of(
                    session.batches().last(),
                ) == Ok::<Seq<char>, Seq<char>>(text@),
            Err(error) => from_outside(error) || exists|session: MeshReadSession| #[trigger]
                session.reads(bytes@) && manifest_fails(session, error),
        },
{
    match MeshReadSession::memory(bytes) {
        Ok(mut session) => manifest_from(&mut session),
        Err(error) => Err(error),
    }
}

/// All batches of a range can be read.
pub open spec fn all_readable(session: MeshReadSession, start: int, end: int) -> bool {
    forall|index: int| start <= index < end ==> #[trigger] session.readable(index)
}

/// The error comes of reading some batch of a range.
pub open spec fn some_unread(
    session: MeshReadSession,
    start: int,
    end: int,
    error: MeshError,
) -> bool {
    exists|index: int| start <= index < end && #[trigger] session.read_refused(index, error)
}

proof fn same_readable(a: MeshReadSession, b: MeshReadSession, range: BatchRange)
    requires
        b.same_file(a),
        all_readable(b, range.start as int, range.end as int),
    ensures
        all_readable(a, range.start as int, range.end as int),
{
    assert forall|index: int| range.start <= index < range.end implies #[trigger] a.readable(
        index,
    ) by {
        assert(b.readable(index));
    }
}

proof fn same_reading(
    a: MeshReadSession,
    b: MeshReadSession,
    range: BatchRange,
    error: MeshError,
)
    requires
        b.same_file(a),
    ensures
        some_unread(b, range.start as int, range.end as int, error) ==> some_unread(
            a,
            range.start as int,
            range.end as int,
            error,
        ),
{
    if some_unread(b, range.start as int, range.end as int, error) {
        let index = choose|index: int|
            range.start <= index < range.end && #[trigger] b.read_refused(index, error);
        assert(a.read_refused(index, error));
    }
}

/// What is said of a batch whose rows are not of the kind that its section
/// holds, if anything.
pub open spec fn kind_refusal(batch: Batch, kind: RowKind, stray: Seq<char>) -> Option<Seq<char>> {
    if !text_columns(batch).dom().contains("row_kind"@) {
        Some(missing_column("row_kind"@))
    } else {
        match rows_kind(text_columns(batch)["row_kind"@]) {
            Err(message) => Some(message),
            Ok(found) => if found == kind {
                None
            } else {
                Some(stray)
            },
        }
    }
}

/// The entries are those of a directory batch.
pub open spec fn batch_entries(batch: Batch, entries: Seq<BatchDirectoryEntry>) -> bool {
    entries.len() == batch_rows(batch) && exists|columns: DirectoryColumns| #[trigger]
        columns.of(batch) && entries_given(columns, entries)
}

/// Each entry is what its row of the columns says.
pub open spec fn entries_given(
    columns: DirectoryColumns,
    entries: Seq<BatchDirectoryEntry>,
) -> bool {
    forall|row: int| 0 <= row < entries.len() ==> columns.gives(row, #[trigger] entries[row])
}

/// The entries are those of the directory batches of a range, in order.
pub open spec fn directory_from(
    batches: Seq<Batch>,
    start: int,
    end: int,
    entries: Seq<BatchDirectoryEntry>,
) -> bool
    decreases end - start,
{
    if start >= end {
        entries.len() == 0
    } else {
        let split = entries.len() - batch_rows(batches[end - 1]);
        0 <= split && batch_entries(batches[end - 1], entries.skip(split)) && directory_from(
            batches,
            start,
            end - 1,
            entries.take(split),
        )
    }
}

/// The message says what is wrong with a directory batch.
pub open spec fn entries_refused(batch: Batch, message: Seq<char>) -> bool {
    match kind_refusal(
        batch,
        RowKind::BatchDirectory,
        "directory range contains a non-directory batch"@,
    ) {
        Some(text) => message == text,
        None => match DirectoryColumns::absent(batch) {
            Some(name) => message == missing_column(name),
            None => exists|columns: DirectoryColumns, row: int|
                #[trigger] columns.of(batch) && 0 <= row < batch_rows(batch)
                    && columns.sound_before(row) && #[trigger] columns.fault(row) == Some(message),
        },
    }
}

/// The message says what is wrong with a directory batch of a range.
pub open spec fn directory_unfit(
    batches: Seq<Batch>,
    start: int,
    end: int,
    message: Seq<char>,
) -> bool {
    exists|index: int|
        start <= index < end && index < batches.len() && #[trigger] entries_refused(
            batches[index],
            message,
        )
}

/// Nothing is wrong with the directory batches of a range.
pub open spec fn directory_fit(batches: Seq<Batch>, start: int, end: int) -> bool {
    forall|message: Seq<char>| !(#[trigger] directory_unfit(batches, start, end, message))
}

/// The entries of a directory batch.
fn batch_directory(batch: &Batch) -> (result: MeshResult<Vec<BatchDirectoryEntry>>)
    ensures
        match result {
            Ok(entries) => batch_entries(*batch, entries@) && forall|message: Seq<char>|
                !entries_refused(*batch, message),
            Err(error) => error is InvalidFile && entries_refused(*batch, error.text()),
        },
{
    match batch_kind(batch) {
        Ok(kind) => {
            if kind != RowKind::BatchDirectory {
                return Err(
                    MeshError::invalid_file("directory range contains a non-directory batch"),
                );
            }
        },
        Err(error) => {
            return Err(error);
        },
    }
    let columns = match DirectoryColumns::read(batch) {
        Ok(columns) => columns,
        Err(error) => {
            return Err(error);
        },
    };
    assert(columns.of(*batch));
    let entries = match columns.entries() {
        Ok(entries) => entries,
        Err(error) => {
            return Err(error);
        },
    };
    assert forall|row: int| 0 <= row < entries@.len() implies columns.gives(
        row,
        #[trigger] entries@[row],
    ) by {
        assert(columns.fault(row) is None);
    }
    assert(entries_given(columns, entries@));
    assert forall|message: Seq<char>| !entries_refused(*batch, message) by {
        if entries_refused(*batch, message) {
            let (other, row) = choose|other: DirectoryColumns, row: int|
                #[trigger] other.of(*batch) && 0 <= row < batch_rows(*batch) && other.sound_before(
                    row,
                ) && #[trigger] other.fault(row) == Some(message);
            directory_rows_settled(columns, other, *batch, row);
            assert(columns.fault(row) is None);
        }
    }
    Ok(entries)
}

fn append_entries(entries: &mut Vec<BatchDirectoryEntry>, more: Vec<BatchDirectoryEntry>)
    ensures
        final(entries)@ == old(entries)@ + more@,
{
    let mut more = more;
    entries.append(&mut more);
}

fn read_directory(session: &mut MeshReadSession, range: BatchRange) -> (result: MeshResult<
    Vec<BatchDirectoryEntry>,
>)
    ensures
        final(session).same_file(*old(session)),
        match result {
            Ok(entries) => directory_from(
                old(session).batches(),
                range.start as int,
                range.end as int,
                entries@,
            ) && all_readable(*old(session), range.start as int, range.end as int)
                && directory_fit(old(session).batches(), range.start as int, range.end as int),
            Err(error) => some_unread(
                *old(session),
                range.start as int,
                range.end as int,
                error,
            ) || error is InvalidFile && directory_unfit(
                old(session).batches(),
                range.start as int,
                range.end as int,
                error.text(),
            ),
        },
{
    let ghost batches = session.batches();
    let mut entries: Vec<BatchDirectoryEntry> = Vec::new();
    let mut index: usize = range.start;
    while index < range.end
        invariant
            range.start <= index,
            index <= range.end || index == range.start,
            session.same_file(*old(session)),
            batches == old(session).batches(),
            all_readable(*old(session), range.start as int, index as int),
            directory_fit(batches, range.start as int, index as int),
            directory_from(batches, range.start as int, index as int, entries@),
        decreases range.end - index,
    {
        let batch = match session.read_batch(index) {
            Ok(batch) => batch,
            Err(error) => {
                assert(old(session).read_refused(index as int, error));
                return Err(error);
            },
        };
        let more = match batch_directory(&batch) {
            Ok(more) => more,
            Err(error) => {
                assert(entries_refused(batches[index as int], error.text()));
                return Err(error);
            },
        };
        assert forall|message: Seq<char>| !(#[trigger] directory_unfit(
            batches,
            range.start as int,
            index + 1,
            message,
        )) by {
            if directory_unfit(batches, range.start as int, index + 1, message) {
                let k = choose|k: int|
                    range.start <= k < index + 1 && k < batches.len() && #[trigger] entries_refused(
                        batches[k],
                        message,
                    );
                if k < index {
                    assert(entries_refused(batches[k], message));
                    assert(directory_unfit(batches, range.start as int, index as int, message));
                }
            }
        }
        let ghost before = entries@;
        let ghost added = more@;
        append_entries(&mut entries, more);
        assert(entries@.skip(before.len() as int) =~= added);
        assert(entries@.take(before.len() as int) =~= before);
        index += 1;
    }
    Ok(entries)
}

/// The facts are those of a catalog batch.
pub open spec fn batch_facts(batch: Batch, facts: Seq<CatalogFact>) -> bool {
    exists|columns: CatalogColumns| #[trigger] columns.of(batch) && columns.facts() == facts
}

/// The facts are those of the catalog batches of a range, in order.
pub open spec fn catalog_from(
    batches: Seq<Batch>,
    start: int,
    end: int,
    facts: Seq<CatalogFact>,
) -> bool
    decreases end - start,
{
    if start >= end {
        facts.len() == 0
    } else {
        let split = facts.len() - batch_rows(batches[end - 1]);
        0 <= split && batch_facts(batches[end - 1], facts.skip(split)) && catalog_from(
            batches,
            start,
            end - 1,
            facts.take(split),
        )
    }
}

/// The message says what is wrong with a catalog batch behind these facts.
pub open spec fn facts_refused(batch: Batch, facts: Seq<CatalogFact>, message: Seq<char>) -> bool {
    match kind_refusal(batch, RowKind::Catalog, "catalog range contains a non-catalog batch"@) {
        Some(text) => message == text,
        None => match CatalogColumns::absent(batch) {
            Some(name) => message == missing_column(name),
            None => exists|columns: CatalogColumns, row: int|
                #[trigger] columns.of(batch) && 0 <= row < batch_rows(batch)
                    && #[trigger] columns.fault(facts, row) == Some(message),
        },
    }
}

/// The message says what is wrong with a catalog batch of a range.
pub open spec fn catalog_unfit(
    batches: Seq<Batch>,
    start: int,
    end: int,
    message: Seq<char>,
) -> bool {
    exists|index: int, facts: Seq<CatalogFact>|
        start <= index < end && index < batches.len() && #[trigger] catalog_from(
            batches,
            start,
            index,
            facts,
        ) && #[trigger] facts_refused(batches[index], facts, message)
}

/// Nothing is wrong with the catalog batches of a range.
pub open spec fn catalog_fit(batches: Seq<Batch>, start: int, end: int) -> bool {
    forall|message: Seq<char>| !(#[trigger] catalog_unfit(batches, start, end, message))
}

/// The catalog with the names of one more batch.
fn catalog_with(catalog: CatalogNames, batch: &Batch) -> (result: MeshResult<CatalogNames>)
    requires
        catalog.wf(),
    ensures
        match result {
            Ok(after) => after.wf() && (exists|added: Seq<CatalogFact>|
                #[trigger] batch_facts(*batch, added) && added.len() == batch_rows(*batch)
                    && after@ == catalog@ + added) && forall|message: Seq<char>|
                !facts_refused(*batch, catalog@, message),
            Err(error) => error is InvalidFile && facts_refused(*batch, catalog@, error.text()),
        },
{
    match batch_kind(batch) {
        Ok(kind) => {
            if kind != RowKind::Catalog {
                return Err(MeshError::invalid_file("catalog range contains a non-catalog batch"));
            }
        },
        Err(error) => {
            return Err(error);
        },
    }
    let columns = match CatalogColumns::read(batch) {
        Ok(columns) => columns,
        Err(error) => {
            return Err(error);
        },
    };
    assert(columns.of(*batch));
    assert(batch_facts(*batch, columns.facts()));
    let ghost facts = catalog@;
    let result = catalog.extended(&columns);
    proof {
        if result is Ok {
            assert forall|message: Seq<char>| !facts_refused(*batch, facts, message) by {
                if facts_refused(*batch, facts, message) {
                    let (other, row) = choose|other: CatalogColumns, row: int|
                        #[trigger] other.of(*batch) && 0 <= row < batch_rows(*batch)
                            && #[trigger] other.fault(facts, row) == Some(message);
                    catalog_rows_settled(columns, other, *batch, facts, row);
                    assert(columns.fault(facts, row) is None);
                }
            }
        }
    }
    result
}

fn read_catalog(session: &mut MeshReadSession, range: BatchRange) -> (result: MeshResult<
    CatalogNames,
>)
    ensures
        final(session).same_file(*old(session)),
        match result {
            Ok(catalog) => catalog.wf() && catalog_from(
                old(session).batches(),
                range.start as int,
                range.end as int,
                catalog@,
            ) && all_readable(*old(session), range.start as int, range.end as int) && catalog_fit(
                old(session).batches(),
                range.start as int,
                range.end as int,
            ),
            Err(error) => some_unread(
                *old(session),
                range.start as int,
                range.end as int,
                error,
            ) || error is InvalidFile && catalog_unfit(
                old(session).batches(),
                range.start as int,
                range.end as int,
                error.text(),
            ),
        },
{
    let ghost batches = session.batches();
    let mut catalog = CatalogNames::new();
    let mut index: usize = range.start;
    while index < range.end
        invariant
            range.start <= index,
            index <= range.end || index == range.start,
            session.same_file(*old(session)),
            batches == old(session).batches(),
            all_readable(*old(session), range.start as int, index as int),
            catalog_fit(batches, range.start as int, index as int),
            catalog.wf(),
            catalog_from(batches, range.start as int, index as int, catalog@),
        decreases range.end - index,
    {
        let batch = match session.read_batch(index) {
            Ok(batch) => batch,
            Err(error) => {
                assert(old(session).read_refused(index as int, error));
                return Err(error);
            },
        };
        let ghost before = catalog@;
        catalog = match catalog_with(catalog, &batch) {
            Ok(after) => after,
            Err(error) => {
                assert(facts_refused(batches[index as int], before, error.text()));
                return Err(error);
            },
        };
        assert forall|message: Seq<char>| !(#[trigger] catalog_unfit(
            batches,
            range.start as int,
            index + 1,
            message,
        )) by {
            if catalog_unfit(batches, range.start as int, index + 1, message) {
                let (k, facts) = choose|k: int, facts: Seq<CatalogFact>|
                    range.start <= k < index + 1 && k < batches.len() && #[trigger] catalog_from(
                        batches,
                        range.start as int,
                        k,
                        facts,
                    ) && #[trigger] facts_refused(batches[k], facts, message);
                if k < index {
                    assert(catalog_unfit(batches, range.start as int, index as int, message));
                } else {
                    catalog_is_settled(batches, range.start as int, k, facts, before);
                }
            }
        }
        let ghost added = choose|added: Seq<CatalogFact>|
            #[trigger] batch_facts(batch, added) && added.len() == batch_rows(batch) && catalog@
                == before + added;
        assert(catalog@.skip(before.len() as int) =~= added);
        assert(catalog@.take(before.len() as int) =~= before);
        index += 1;
    }
    Ok(catalog)
}

/// A spatial batch takes the first map of nodes to the second.
pub open spec fn adds_nodes(
    batch: Batch,
    before: Map<u64, SpatialNodeMeta>,
    after: Map<u64, SpatialNodeMeta>,
) -> bool {
    exists|columns: SpatialColumns| #[trigger] columns.of(batch) && columns.adds(before, after)
}

/// The nodes are those of the spatial batches of a range.
pub open spec fn nodes_from(
    batches: Seq<Batch>,
    start: int,
    end: int,
    nodes: Map<u64, SpatialNodeMeta>,
) -> bool
    decreases end - start,
{
    if start >= end {
        nodes == Map::<u64, SpatialNodeMeta>::empty()
    } else {
        let batch = batches[end - 1];
        exists|before: Map<u64, SpatialNodeMeta>|
            nodes_from(batches, start, end - 1, before) && #[trigger] adds_nodes(
                batch,
                before,
                nodes,
            )
    }
}

proof fn one_more_batch(
    batches: Seq<Batch>,
    start: int,
    index: int,
    before: Map<u64, SpatialNodeMeta>,
    after: Map<u64, SpatialNodeMeta>,
)
    requires
        start <= index,
        nodes_from(batches, start, index, before),
        adds_nodes(batches[index], before, after),
    ensures
        nodes_from(batches, start, index + 1, after),
{
    assert(batches[(index + 1) - 1] == batches[index]);
    assert(nodes_from(batches, start, (index + 1) - 1, before));
}

/// The message says what is wrong with a spatial batch beside nodes of these
/// IDs.
pub open spec fn nodes_refused(batch: Batch, known: Set<u64>, message: Seq<char>) -> bool {
    match kind_refusal(batch, RowKind::SpatialNode, "spatial range contains a non-spatial batch"@) {
        Some(text) => message == text,
        None => match SpatialColumns::absent(batch) {
            Some(name) => message == missing_column(name),
            None => exists|columns: SpatialColumns, row: int|
                #[trigger] columns.of(batch) && 0 <= row < batch_rows(batch)
                    && #[trigger] columns.fault(known, row) == Some(message),
        },
    }
}

/// The message says what is wrong with a spatial batch of a range.
pub open spec fn spatial_unfit(
    batches: Seq<Batch>,
    start: int,
    end: int,
    message: Seq<char>,
) -> bool {
    exists|index: int, nodes: Map<u64, SpatialNodeMeta>|
        start <= index < end && index < batches.len() && #[trigger] nodes_from(
            batches,
            start,
            index,
            nodes,
        ) && #[trigger] nodes_refused(batches[index], nodes.dom(), message)
}

/// Nothing is wrong with the spatial batches of a range.
pub open spec fn spatial_fit(batches: Seq<Batch>, start: int, end: int) -> bool {
    forall|message: Seq<char>| !(#[trigger] spatial_unfit(batches, start, end, message))
}

/// The nodes with those of one more batch.
fn nodes_with(nodes: SortedMap<u64, SpatialNodeMeta>, batch: &Batch) -> (result: MeshResult<
    SortedMap<u64, SpatialNodeMeta>,
>)
    requires
        nodes.wf(),
    ensures
        match result {
            Ok(after) => after.wf() && adds_nodes(*batch, nodes@, after@) && forall|
                message: Seq<char>,
            |
                !nodes_refused(*batch, nodes@.dom(), message),
            Err(error) => error is InvalidFile && nodes_refused(
                *batch,
                nodes@.dom(),
                error.text(),
            ),
        },
{
    match batch_kind(batch) {
        Ok(kind) => {
            if kind != RowKind::SpatialNode {
                return Err(MeshError::invalid_file("spatial range contains a non-spatial batch"));
            }
        },
        Err(error) => {
            return Err(error);
        },
    }
    let columns = match SpatialColumns::read(batch) {
        Ok(columns) => columns,
        Err(error) => {
            return Err(error);
        },
    };
    assert(columns.of(*batch));
    let ghost known = nodes@.dom();
    let result = columns.extended(nodes);
    proof {
        if result is Ok {
            assert forall|message: Seq<char>| !nodes_refused(*batch, known, message) by {
                if nodes_refused(*batch, known, message) {
                    let (other, row) = choose|other: SpatialColumns, row: int|
                        #[trigger] other.of(*batch) && 0 <= row < batch_rows(*batch)
                            && #[trigger] other.fault(known, row) == Some(message);
                    spatial_rows_settled(columns, other, *batch, known, row);
                    assert(columns.fault(known, row) is None);
                }
            }
        }
    }
    result
}

fn read_spatial_nodes(session: &mut MeshReadSession, range: BatchRange) -> (result: MeshResult<
    SortedMap<u64, SpatialNodeMeta>,
>)
    ensures
        final(session).same_file(*old(session)),
        match result {
            Ok(nodes) => nodes.wf() && nodes_from(
                old(session).batches(),
                range.start as int,
                range.end as int,
                nodes@,
            ) && all_readable(*old(session), range.start as int, range.end as int) && spatial_fit(
                old(session).batches(),
                range.start as int,
                range.end as int,
            ),
            Err(error) => some_unread(
                *old(session),
                range.start as int,
                range.end as int,
                error,
            ) || error is InvalidFile && spatial_unfit(
                old(session).batches(),
                range.start as int,
                range.end as int,
                error.text(),
            ),
        },
{
    let ghost batches = session.batches();
    let mut nodes = SortedMap::<u64, SpatialNodeMeta>::new();
    let mut index: usize = range.start;
    while index < range.end
        invariant
            range.start <= index,
            index <= range.end || index == range.start,
            session.same_file(*old(session)),
            batches == old(session).batches(),
            all_readable(*old(session), range.start as int, index as int),
            spatial_fit(batches, range.start as int, index as int),
            nodes.wf(),
            nodes_from(batches, range.start as int, index as int, nodes@),
        decreases range.end - index,
    {
        let batch = match session.read_batch(index) {
            Ok(batch) => batch,
            Err(error) => {
                assert(old(session).read_refused(index as int, error));
                return Err(error);
            },
        };
        let ghost before = nodes@;
        nodes = match nodes_with(nodes, &batch) {
            Ok(after) => after,
            Err(error) => {
                assert(nodes_refused(batches[index as int], before.dom(), error.text()));
                return Err(error);
            },
        };
        assert forall|message: Seq<char>| !(#[trigger] spatial_unfit(
            batches,
            range.start as int,
            index + 1,
            message,
        )) by {
            if spatial_unfit(batches, range.start as int, index + 1, message) {
                let (k, seen) = choose|k: int, seen: Map<u64, SpatialNodeMeta>|
                    range.start <= k < index + 1 && k < batches.len() && #[trigger] nodes_from(
                        batches,
                        range.start as int,
                        k,
                        seen,
                    ) && #[trigger] nodes_refused(batches[k], seen.dom(), message);
                if k < index {
                    assert(spatial_unfit(batches, range.start as int, index as int, message));
                } else {
                    node_ids_settled(batches, range.start as int, k, seen, before);
                }
            }
        }
        proof {
            one_more_batch(batches, range.start as int, index as int, before, nodes@);
        }
        index += 1;
    }
    Ok(nodes)
}

#[derive(Debug, Clone, Copy, PartialEq, Eq, Structural)]
pub enum MeshStorageKind {
    NativeFile,
    Memory,
}

/// A batch with its directory row.
#[derive(Debug)]
pub struct BatchView {
    pub entry: BatchDirectoryEntry,
    pub batch: Batch,
}

impl BatchView {
    /// The number of rows.
    pub open spec fn rows(self) -> nat {
        batch_rows(self.batch)
    }

    pub fn directory_entry(&self) -> (result: &BatchDirectoryEntry)
        ensures
            *result == self.entry,
    {
        &self.entry
    }

    pub fn record_batch(&self) -> (result: &Batch)
        ensures
            *result == self.batch,
    {
        &self.batch
    }

    pub fn row_kind(&self) -> (result: RowKind)
        ensures
            result == self.entry.row_kind,
    {
        self.entry.row_kind
    }

    pub fn len(&self) -> (result: usize)
        ensures
            result == self.rows(),
    {
        self.batch.num_rows()
    }

    pub fn is_empty(&self) -> (result: bool)
        ensures
            result == (self.rows() == 0),
    {
        self.batch.num_rows() == 0
    }
}

/// What an audit counted.
#[derive(Debug, Clone, Copy, PartialEq, Eq, Structural)]
pub struct MeshAuditReport {
    pub exact_batches: u64,
    pub entities: u64,
}

/// A mesh file, its metadata read and checked.
#[derive(Debug)]
pub struct MeshFile {
    path: Option<String>,
    content: Arc<[u8]>,
    manifest: MeshManifest,
    directory: Vec<BatchDirectoryEntry>,
    catalog: CatalogNames,
    nodes: SortedMap<u64, SpatialNodeMeta>,
}

/// The entries of one kind, in order.
pub open spec fn of_kind(entries: Seq<BatchDirectoryEntry>, kind: RowKind) -> Seq<
    BatchDirectoryEntry,
> {
    entries.filter(|entry: BatchDirectoryEntry| entry.row_kind == kind)
}

/// The entries of one kind at one spatial node, in order.
pub open spec fn of_tile(entries: Seq<BatchDirectoryEntry>, node: u64, kind: RowKind) -> Seq<
    BatchDirectoryEntry,
> {
    entries.filter(
        |entry: BatchDirectoryEntry|
            entry.row_kind == kind && entry.spatial_node_id == Some(node),
    )
}

/// What a list of references refers to.
pub open spec fn referred(entries: Seq<&BatchDirectoryEntry>) -> Seq<BatchDirectoryEntry> {
    Seq::new(entries.len(), |i: int| *entries[i])
}

/// The message says what is wrong with the sections of a mesh file.
pub open spec fn sections_unfit(
    batches: Seq<Batch>,
    manifest: MeshManifest,
    message: Seq<char>,
) -> bool {
    let listed = manifest.directory_batches;
    let named = manifest.catalog_batches;
    let placed = manifest.spatial_batches;
    ||| directory_unfit(batches, listed.start as int, listed.end as int, message)
    ||| exists|entries: Seq<BatchDirectoryEntry>| #[trigger]
        directory_from(batches, listed.start as int, listed.end as int, entries)
            && directory_refused(entries, manifest, message)
    ||| catalog_unfit(batches, named.start as int, named.end as int, message)
    ||| spatial_unfit(batches, placed.start as int, placed.end as int, message)
    ||| exists|entries: Seq<BatchDirectoryEntry>, nodes: Map<u64, SpatialNodeMeta>| #[trigger]
        directory_from(batches, listed.start as int, listed.end as int, entries) && #[trigger]
        nodes_from(batches, placed.start as int, placed.end as int, nodes) && tree_fault(
            nodes,
            manifest.spatial_root,
            manifest.counts.spatial_nodes,
            entries,
        ) == Some(message)
}

/// Nothing is wrong with the sections of a mesh file.
pub open spec fn sections_fit(batches: Seq<Batch>, manifest: MeshManifest) -> bool {
    forall|message: Seq<char>| !(#[trigger] sections_unfit(batches, manifest, message))
}

/// The batches of the sections that opening a file reads can be read.
pub open spec fn sections_readable(session: MeshReadSession, manifest: MeshManifest) -> bool {
    let listed = manifest.directory_batches;
    let named = manifest.catalog_batches;
    let placed = manifest.spatial_batches;
    &&& all_readable(session, listed.start as int, listed.end as int)
    &&& all_readable(session, named.start as int, named.end as int)
    &&& all_readable(session, placed.start as int, placed.end as int)
}

/// The error comes of reading some batch of those sections.
pub open spec fn sections_unread(
    session: MeshReadSession,
    manifest: MeshManifest,
    error: MeshError,
) -> bool {
    let listed = manifest.directory_batches;
    let named = manifest.catalog_batches;
    let placed = manifest.spatial_batches;
    ||| some_unread(session, listed.start as int, listed.end as int, error)
    ||| some_unread(session, named.start as int, named.end as int, error)
    ||| some_unread(session, placed.start as int, placed.end as int, error)
}

/// The file that the session is on opens: it has a manifest, what that is given
/// to say fits the file, and the sections that it names can be read and are
/// sound.
pub open spec fn opens(session: MeshReadSession, manifest: MeshManifest) -> bool {
    &&& has_manifest(session)
    &&& manifest_identity(manifest)
    &&& sections_in_order(manifest, session.batches().len() as int)
    &&& sections_readable(session, manifest)
    &&& sections_fit(session.batches(), manifest)
}

/// The error with which opening the file that the session is on ends.
pub open spec fn open_fails(
    session: MeshReadSession,
    manifest: MeshManifest,
    error: MeshError,
) -> bool {
    if !has_manifest(session) {
        manifest_fails(session, error)
    } else if !manifest_identity(manifest) {
        error is InvalidFile && error.text()
            == "manifest schema identity, dimension, coordinates, or bounds are invalid"@
    } else if !sections_in_order(manifest, session.batches().len() as int) {
        error is InvalidFile && error.text()
            == "manifest batch ranges are not ordered, complete, and non-overlapping"@
    } else {
        ||| sections_unread(session, manifest, error)
        ||| error is InvalidFile && sections_unfit(session.batches(), manifest, error.text())
    }
}

/// Sections that were read without a fault are fit.
proof fn sound_sections_fit(
    batches: Seq<Batch>,
    manifest: MeshManifest,
    directory: Seq<BatchDirectoryEntry>,
    nodes: Map<u64, SpatialNodeMeta>,
)
    requires
        ({
            let listed = manifest.directory_batches;
            let named = manifest.catalog_batches;
            let placed = manifest.spatial_batches;
            &&& directory_fit(batches, listed.start as int, listed.end as int)
            &&& catalog_fit(batches, named.start as int, named.end as int)
            &&& spatial_fit(batches, placed.start as int, placed.end as int)
            &&& directory_from(batches, listed.start as int, listed.end as int, directory)
            &&& nodes_from(batches, placed.start as int, placed.end as int, nodes)
        }),
        directory_sound(directory, manifest),
        nodes.dom().finite(),
        tree_fault(nodes, manifest.spatial_root, manifest.counts.spatial_nodes, directory) is None,
    ensures
        sections_fit(batches, manifest),
{
    let listed = manifest.directory_batches;
    let named = manifest.catalog_batches;
    let placed = manifest.spatial_batches;
    assert forall|message: Seq<char>| !(#[trigger] sections_unfit(batches, manifest, message)) by {
        assert(!directory_unfit(batches, listed.start as int, listed.end as int, message));
        assert(!catalog_unfit(batches, named.start as int, named.end as int, message));
        assert(!spatial_unfit(batches, placed.start as int, placed.end as int, message));
        assert forall|entries: Seq<BatchDirectoryEntry>| #[trigger]
            directory_from(
                batches,
                listed.start as int,
                listed.end as int,
                entries,
            ) implies !directory_refused(entries, manifest, message) by {
            directory_is_settled(
                batches,
                listed.start as int,
                listed.end as int,
                directory,
                entries,
            );
            assert forall|i: int| 0 <= i < entries.len() implies (#[trigger] entry_fault(
                entries,
                manifest,
                i,
            )) is None by {
                entry_faults_settled(directory, entries, manifest, i);
            }
        }
        assert forall|entries: Seq<BatchDirectoryEntry>, found: Map<u64, SpatialNodeMeta>|
            #[trigger] directory_from(
                batches,
                listed.start as int,
                listed.end as int,
                entries,
            ) && #[trigger] nodes_from(
                batches,
                placed.start as int,
                placed.end as int,
                found,
            ) implies tree_fault(
            found,
            manifest.spatial_root,
            manifest.counts.spatial_nodes,
            entries,
        ) is None by {
            directory_is_settled(
                batches,
                listed.start as int,
                listed.end as int,
                directory,
                entries,
            );
            node_ids_settled(batches, placed.start as int, placed.end as int, nodes, found);
            tree_is_settled(
                nodes,
                found,
                manifest.spatial_root,
                manifest.counts.spatial_nodes,
                directory,
                entries,
            );
        }
    }
}

/// A session on the file that these bytes are opens it.
pub open spec fn some_session_opens(bytes: Seq<u8>, manifest: MeshManifest) -> bool {
    exists|session: MeshReadSession| #[trigger] session.reads(bytes) && opens(session, manifest)
}

/// A session on the file that these bytes are fails to open it with this error.
pub open spec fn no_session_opens(
    bytes: Seq<u8>,
    manifest: MeshManifest,
    error: MeshError,
) -> bool {
    exists|session: MeshReadSession| #[trigger]
        session.reads(bytes) && open_fails(session, manifest, error)
}

/// The list has an entry for the batch.
pub open spec fn has_entry(entries: Seq<BatchDirectoryEntry>, index: usize) -> bool {
    exists|i: int| 0 <= i < entries.len() && (#[trigger] entries[i]).batch_index == index
}

/// The entry at that place is the first for the batch.
pub open spec fn is_first_entry(
    entries: Seq<BatchDirectoryEntry>,
    index: usize,
    place: int,
) -> bool {
    &&& 0 <= place < entries.len()
    &&& entries[place].batch_index == index
    &&& forall|k: int| 0 <= k < place ==> (#[trigger] entries[k]).batch_index != index
}

impl MeshFile {
    /// The bytes of the file.
    pub closed spec fn stored(self) -> Seq<u8> {
        self.content@
    }

    /// The batches of the file.
    pub open spec fn batches(self) -> Seq<Batch> {
        ipc_batches(self.stored())
    }

    pub closed spec fn origin(self) -> Option<Seq<char>> {
        match self.path {
            Some(path) => Some(path@),
            None => None,
        }
    }

    pub closed spec fn header(self) -> MeshManifest {
        self.manifest
    }

    pub closed spec fn entries(self) -> Seq<BatchDirectoryEntry> {
        self.directory@
    }

    pub closed spec fn names(self) -> Seq<CatalogFact> {
        self.catalog@
    }

    pub closed spec fn tree(self) -> SortedMap<u64, SpatialNodeMeta> {
        self.nodes
    }

    /// The parts of the file fit together: the manifest's sections, the
    /// directory, the catalog, and the spatial tree below its root.
    pub closed spec fn wf(self) -> bool {
        &&& manifest_identity(self.manifest)
        &&& directory_sound(self.directory@, self.manifest)
        &&& self.catalog.wf()
        &&& self.nodes.wf()
        &&& is_tree(self.nodes@, self.manifest.spatial_root)
        &&& !stray_entry(self.nodes@, self.directory@)
    }

    /// What a caller may rely on of an open file.
    pub proof fn open_file_is_sound(self)
        requires
            self.wf(),
        ensures
            manifest_identity(self.header()),
            directory_sound(self.entries(), self.header()),
            self.tree().wf(),
            is_tree(self.tree()@, self.header().spatial_root),
            !stray_entry(self.tree()@, self.entries()),
    {
    }

    /// The directory row of a batch.
    pub open spec fn entry_of(self, batch_index: usize) -> BatchDirectoryEntry {
        self.entries()[choose|i: int| is_first_entry(self.entries(), batch_index, i)]
    }

    /// The batch can be read and is what its directory row promises.
    pub open spec fn shows(self, session: MeshReadSession, batch_index: usize) -> bool {
        session.readable(batch_index as int) && batch_agrees(
            self.batches()[batch_index as int],
            self.entry_of(batch_index),
        )
    }

    /// The view is that of the batch and its directory row.
    pub open spec fn is_view(self, batch_index: usize, view: BatchView) -> bool {
        &&& batch_index < self.batches().len()
        &&& view.batch == self.batches()[batch_index as int]
        &&& view.entry@ == self.entry_of(batch_index)@
        &&& view.entry.batch_index == batch_index
        &&& batch_agrees(view.batch, view.entry)
    }

    /// The error with which viewing a batch ends: it cannot be read, or is not
    /// what its directory row promises.
    pub open spec fn view_fails(
        self,
        session: MeshReadSession,
        batch_index: usize,
        error: MeshError,
    ) -> bool {
        if session.readable(batch_index as int) {
            error is InvalidFile && batch_disagrees(
                self.batches()[batch_index as int],
                self.entry_of(batch_index),
                error.text(),
            )
        } else {
            session.read_refused(batch_index as int, error)
        }
    }

    /// The metadata is what the batches of these bytes say.
    pub open spec fn read_from(self, bytes: Seq<u8>, manifest: MeshManifest) -> bool {
        let batches = ipc_batches(bytes);
        &&& is_mesh_file(ipc_metadata(bytes), ipc_fields(bytes), ipc_items(bytes))
        &&& manifest_of(batches.last()) is Ok
        &&& self.stored() == bytes
        &&& self.header() == manifest
        &&& sections_in_order(manifest, batches.len() as int)
        &&& directory_from(
            batches,
            manifest.directory_batches.start as int,
            manifest.directory_batches.end as int,
            self.entries(),
        )
        &&& catalog_from(
            batches,
            manifest.catalog_batches.start as int,
            manifest.catalog_batches.end as int,
            self.names(),
        )
        &&& nodes_from(
            batches,
            manifest.spatial_batches.start as int,
            manifest.spatial_batches.end as int,
            self.tree()@,
        )
    }

    /// Opens the file that a session is on, given what its manifest says.
    pub fn open_from(
        session: &mut MeshReadSession,
        path: Option<String>,
        bytes: Arc<[u8]>,
        manifest: MeshManifest,
    ) -> (result: MeshResult<MeshFile>)
        requires
            old(session).reads(bytes@),
        ensures
            final(session).same_file(*old(session)),
            result is Ok <==> opens(*old(session), manifest),
            match result {
                Ok(file) => file.wf() && file.read_from(bytes@, manifest) && file.origin()
                    == match path {
                    Some(text) => Some(text@),
                    None => None::<Seq<char>>,
                },
                Err(error) => open_fails(*old(session), manifest, error),
            },
    {
        let ghost first = *session;
        match manifest_from(session) {
            Ok(_) => {},
            Err(error) => {
                return Err(error);
            },
        }
        let count: usize = session.num_batches();
        match validate_manifest(&manifest, count) {
            Ok(_) => {},
            Err(error) => {
                return Err(error);
            },
        }
        let ghost batches = session.batches();
        let ghost at_directory = *session;
        let directory = match read_directory(session, manifest.directory_batches) {
            Ok(directory) => directory,
            Err(error) => {
                proof {
                    same_reading(first, at_directory, manifest.directory_batches, error);
                    assert(some_unread(
                        first,
                        manifest.directory_batches.start as int,
                        manifest.directory_batches.end as int,
                        error,
                    ) || sections_unfit(batches, manifest, error.text()));
                }
                return Err(error);
            },
        };
        match validate_directory(&directory, &manifest) {
            Ok(_) => {},
            Err(error) => {
                assert(sections_unfit(batches, manifest, error.text()));
                return Err(error);
            },
        }
        let ghost at_catalog = *session;
        let catalog = match read_catalog(session, manifest.catalog_batches) {
            Ok(catalog) => catalog,
            Err(error) => {
                proof {
                    same_reading(first, at_catalog, manifest.catalog_batches, error);
                    assert(some_unread(
                        first,
                        manifest.catalog_batches.start as int,
                        manifest.catalog_batches.end as int,
                        error,
                    ) || sections_unfit(batches, manifest, error.text()));
                }
                return Err(error);
            },
        };
        let ghost at_nodes = *session;
        let nodes = match read_spatial_nodes(session, manifest.spatial_batches) {
            Ok(nodes) => nodes,
            Err(error) => {
                proof {
                    same_reading(first, at_nodes, manifest.spatial_batches, error);
                    assert(some_unread(
                        first,
                        manifest.spatial_batches.start as int,
                        manifest.spatial_batches.end as int,
                        error,
                    ) || sections_unfit(batches, manifest, error.text()));
                }
                return Err(error);
            },
        };
        assert forall|i: int|
            0 <= i < directory.len() && ((#[trigger] directory[i]).row_kind.exact()
                || directory[i].row_kind.preview()) implies directory[i].spatial_node_id is Some by {
            assert(entry_fault(directory@, manifest, i) is None);
        }
        match validate_spatial_tree(
            &nodes,
            manifest.spatial_root,
            manifest.counts.spatial_nodes,
            &directory,
        ) {
            Ok(_) => {},
            Err(error) => {
                assert(sections_unfit(batches, manifest, error.text()));
                return Err(error);
            },
        }
        proof {
            nodes_counted(nodes);
            accepted_nodes_are_a_tree(
                nodes@,
                manifest.spatial_root,
                manifest.counts.spatial_nodes,
                directory@,
            );
            sound_sections_fit(batches, manifest, directory@, nodes@);
            same_readable(first, at_directory, manifest.directory_batches);
            same_readable(first, at_catalog, manifest.catalog_batches);
            same_readable(first, at_nodes, manifest.spatial_batches);
        }
        Ok(MeshFile { path, content: bytes, manifest, directory, catalog, nodes })
    }

    fn open(path: Option<String>, bytes: Arc<[u8]>, manifest: MeshManifest) -> (result: MeshResult<
        MeshFile,
    >)
        ensures
            match result {
                Ok(file) => file.wf() && file.read_from(bytes@, manifest) && some_session_opens(
                    bytes@,
                    manifest,
                ) && file.origin() == match path {
                    Some(text) => Some(text@),
                    None => None::<Seq<char>>,
                },
                Err(error) => from_outside(error) || no_session_opens(bytes@, manifest, error),
            },
    {
        match MeshReadSession::memory(bytes.clone()) {
            Ok(mut session) => MeshFile::open_from(&mut session, path, bytes, manifest),
            Err(error) => Err(error),
        }
    }

    /// Opens a mesh held in memory, given what its manifest says. Whether the
    /// outside reader takes the file is for it to say; what follows is what
    /// opening from a session gives.
    pub fn from_memory(bytes: Arc<[u8]>, manifest: MeshManifest) -> (result: MeshResult<MeshFile>)
        ensures
            match result {
                Ok(file) => file.wf() && file.read_from(bytes@, manifest) && some_session_opens(
                    bytes@,
                    manifest,
                ) && file.origin() is None,
                Err(error) => from_outside(error) || no_session_opens(bytes@, manifest, error),
            },
    {
        MeshFile::open(None, bytes, manifest)
    }

    /// Opens a mesh that a browser holds in memory.
    pub fn from_wasm_bytes(bytes: Arc<[u8]>, manifest: MeshManifest) -> (result: MeshResult<
        MeshFile,
    >)
        ensures
            match result {
                Ok(file) => file.wf() && file.read_from(bytes@, manifest) && some_session_opens(
                    bytes@,
                    manifest,
                ) && file.origin() is None,
                Err(error) => from_outside(error) || no_session_opens(bytes@, manifest, error),
            },
    {
        MeshFile::from_memory(bytes, manifest)
    }

    /// Opens a mesh whose bytes were read from a path.
    pub fn open_native(path: &str, bytes: Arc<[u8]>, manifest: MeshManifest) -> (result: MeshResult<
        MeshFile,
    >)
        ensures
            match result {
                Ok(file) => file.wf() && file.read_from(bytes@, manifest) && some_session_opens(
                    bytes@,
                    manifest,
                ) && file.origin() == Some(path@),
                Err(error) => from_outside(error) || no_session_opens(bytes@, manifest, error),
            },
    {
        MeshFile::open(Some(path.to_owned()), bytes, manifest)
    }

    /// A session on the file. Whether the outside reader takes it is for it to
    /// say.
    pub fn session(&self) -> (result: MeshResult<MeshReadSession>)
        ensures
            match result {
                Ok(session) => session.reads(self.stored()),
                Err(error) => from_outside(error),
            },
    {
        MeshReadSession::memory(self.content.clone())
    }

    pub fn manifest(&self) -> (result: &MeshManifest)
        ensures
            *result == self.header(),
    {
        &self.manifest
    }

    fn find_entry(&self, batch_index: usize) -> (result: Option<&BatchDirectoryEntry>)
        ensures
            match result {
                Some(entry) => has_entry(self.entries(), batch_index) && *entry == self.entry_of(
                    batch_index,
                ) && entry.batch_index == batch_index,
                None => !has_entry(self.entries(), batch_index),
            },
    {
        let mut i: usize = 0;
        while i < self.directory.len()
            invariant
                i <= self.directory.len(),
                forall|k: int|
                    0 <= k < i ==> (#[trigger] self.directory@[k]).batch_index != batch_index,
            decreases self.directory.len() - i,
        {
            if self.directory[i].batch_index == batch_index {
                assert(self.entries()[i as int] == self.directory@[i as int]);
                assert(is_first_entry(self.entries(), batch_index, i as int));
                return Some(&self.directory[i]);
            }
            i += 1;
        }
        None
    }

    /// The batch of that index from a session on the file, with its directory
    /// row, checked against it.
    pub fn view_from(&self, session: &mut MeshReadSession, batch_index: usize) -> (result: MeshResult<
        BatchView,
    >)
        requires
            old(session).reads(self.stored()),
        ensures
            final(session).same_file(*old(session)),
            !has_entry(self.entries(), batch_index) ==> fails_input(
                result,
                "batch "@ + decimal(batch_index as nat) + " is not present in the v3 directory"@,
            ),
            has_entry(self.entries(), batch_index) ==> {
                &&& result is Ok <==> self.shows(*old(session), batch_index)
                &&& match result {
                    Ok(view) => self.is_view(batch_index, view),
                    Err(error) => self.view_fails(*old(session), batch_index, error),
                }
            },
    {
        let entry = match self.find_entry(batch_index) {
            Some(entry) => entry,
            None => {
                return Err(
                    MeshError::InvalidInput(
                        sentence(
                            "batch ",
                            batch_index as u64,
                            " is not present in the v3 directory",
                        ),
                    ),
                );
            },
        };
        let batch = match session.read_batch(batch_index) {
            Ok(batch) => batch,
            Err(error) => {
                return Err(error);
            },
        };
        match validate_decoded_batch(&batch, entry) {
            Ok(_) => {},
            Err(error) => {
                return Err(error);
            },
        }
        let copy = entry.duplicate();
        proof {
            assert(copy.row_kind == copy@.row_kind && copy.rows == copy@.rows);
            assert(entry.row_kind == entry@.row_kind && entry.rows == entry@.rows);
            assert(copy.batch_index == copy@.batch_index);
            assert(entry.batch_index == entry@.batch_index);
        }
        Ok(BatchView { entry: copy, batch })
    }

    /// A batch of the file with its directory row, checked against it. Whether
    /// the outside reader takes the file is for it to say; what follows is what a
    /// session gives.
    pub fn batch_view(&self, batch_index: usize) -> (result: MeshResult<BatchView>)
        ensures
            !has_entry(self.entries(), batch_index) ==> fails_input(
                result,
                "batch "@ + decimal(batch_index as nat) + " is not present in the v3 directory"@,
            ),
            has_entry(self.entries(), batch_index) ==> match result {
                Ok(view) => self.is_view(batch_index, view) && exists|session: MeshReadSession|
                    #[trigger] session.reads(self.stored()) && self.shows(session, batch_index),
                Err(error) => from_outside(error) || exists|session: MeshReadSession| #[trigger]
                    session.reads(self.stored()) && self.view_fails(session, batch_index, error),
            },
    {
        match self.find_entry(batch_index) {
            Some(_) => {},
            None => {
                return Err(
                    MeshError::InvalidInput(
                        sentence(
                            "batch ",
                            batch_index as u64,
                            " is not present in the v3 directory",
                        ),
                    ),
                );
            },
        }
        match self.session() {
            Ok(mut session) => {
                let ghost first = session;
                let result = self.view_from(&mut session, batch_index);
                assert(first.reads(self.stored()));
                assert(result is Ok ==> self.shows(first, batch_index));
                result
            },
            Err(error) => Err(error),
        }
    }

    pub fn entity_batches(&self, kind: RowKind) -> (result: Vec<&BatchDirectoryEntry>)
        ensures
            referred(result@) == of_kind(self.entries(), kind),
    {
        let mut found: Vec<&BatchDirectoryEntry> = Vec::new();
        let mut i: usize = 0;
        let ghost keep = |entry: BatchDirectoryEntry| entry.row_kind == kind;
        proof {
            reveal(Seq::filter);
            assert(referred(found@) =~= self.directory@.take(0).filter(keep));
        }
        while i < self.directory.len()
            invariant
                i <= self.directory.len(),
                keep == (|entry: BatchDirectoryEntry| entry.row_kind == kind),
                referred(found@) == self.directory@.take(i as int).filter(keep),
            decreases self.directory.len() - i,
        {
            let ghost before = referred(found@);
            let ghost more = self.directory@.take(i + 1);
            assert(more.drop_last() =~= self.directory@.take(i as int));
            proof {
                reveal(Seq::filter);
            }
            if self.directory[i].row_kind == kind {
                found.push(&self.directory[i]);
                assert(referred(found@) =~= before.push(self.directory@[i as int]));
            }
            i += 1;
        }
        assert(self.directory@.take(i as int) =~= self.directory@);
        found
    }

    pub fn tile_batches(&self, spatial_node_id: u64, kind: RowKind) -> (result: Vec<
        &BatchDirectoryEntry,
    >)
        ensures
            referred(result@) == of_tile(self.entries(), spatial_node_id, kind),
    {
        let mut found: Vec<&BatchDirectoryEntry> = Vec::new();
        let mut i: usize = 0;
        let ghost keep = |entry: BatchDirectoryEntry|
            entry.row_kind == kind && entry.spatial_node_id == Some(spatial_node_id);
        proof {
            reveal(Seq::filter);
            assert(referred(found@) =~= self.directory@.take(0).filter(keep));
        }
        while i < self.directory.len()
            invariant
                i <= self.directory.len(),
                keep == (|entry: BatchDirectoryEntry|
                    entry.row_kind == kind && entry.spatial_node_id == Some(spatial_node_id)),
                referred(found@) == self.directory@.take(i as int).filter(keep),
            decreases self.directory.len() - i,
        {
            let ghost before = referred(found@);
            let ghost more = self.directory@.take(i + 1);
            assert(more.drop_last() =~= self.directory@.take(i as int));
            proof {
                reveal(Seq::filter);
            }
            let here = match self.directory[i].spatial_node_id {
                Some(node) => node == spatial_node_id,
                None => false,
            };
            if here && self.directory[i].row_kind == kind {
                found.push(&self.directory[i]);
                assert(referred(found@) =~= before.push(self.directory@[i as int]));
            }
            i += 1;
        }
        assert(self.directory@.take(i as int) =~= self.directory@);
        found
    }

    pub fn catalog_name(&self, catalog_kind: &str, id: u64) -> (result: Option<&str>)
        requires
            self.wf(),
        ensures
            match result {
                Some(name) => exists|i: int|
                    0 <= i < self.names().len() && (#[trigger] self.names()[i]).kind
                        == catalog_kind@ && self.names()[i].id == id && self.names()[i].name
                        == name@,
                None => !listed(self.names(), catalog_kind@, id),
            },
    {
        let found = self.catalog.name(catalog_kind, id);
        proof {
            if let Some(name) = found {
                let i = choose|i: int|
                    0 <= i < self.catalog@.len() && (#[trigger] self.catalog@[i]).kind
                        == catalog_kind@ && self.catalog@[i].id == id && self.catalog@[i].name
                        == name@;
                assert(self.names()[i].kind == catalog_kind@);
            }
        }
        found
    }

    pub fn catalog_source_object(&self, catalog_kind: &str, id: u64) -> (result: Option<u64>)
        requires
            self.wf(),
        ensures
            match result {
                Some(object) => exists|i: int|
                    0 <= i < self.names().len() && (#[trigger] self.names()[i]).kind
                        == catalog_kind@ && self.names()[i].id == id && self.names()[i].source
                        == Some(object),
                None => forall|i: int|
                    0 <= i < self.names().len() && (#[trigger] self.names()[i]).kind
                        == catalog_kind@ && self.names()[i].id == id
                        ==> self.names()[i].source is None,
            },
    {
        self.catalog.source(catalog_kind, id)
    }

    /// Where the file was read from, unless it was held in memory.
    pub fn source_path(&self) -> (result: Option<&str>)
        ensures
            match result {
                Some(path) => self.origin() == Some(path@),
                None => self.origin() is None,
            },
    {
        match &self.path {
            Some(path) => Some(path.as_str()),
            None => None,
        }
    }

    /// The bytes, where the mesh was held in memory.
    pub fn memory_bytes(&self) -> (result: Option<&[u8]>)
        ensures
            match result {
                Some(bytes) => self.origin() is None && bytes@ == self.stored(),
                None => self.origin() is Some,
            },
    {
        match &self.path {
            Some(_) => None,
            None => Some(&self.content),
        }
    }

    /// The bytes of a mesh that was held in memory.
    pub fn bytes(&self) -> (result: &[u8])
        requires
            self.origin() is None,
        ensures
            result@ == self.stored(),
    {
        &self.content
    }

    pub fn storage_kind(&self) -> (result: MeshStorageKind)
        ensures
            result == if self.origin() is Some {
                MeshStorageKind::NativeFile
            } else {
                MeshStorageKind::Memory
            },
    {
        match &self.path {
            Some(_) => MeshStorageKind::NativeFile,
            None => MeshStorageKind::Memory,
        }
    }

    /// The nodes of the spatial tree, in the order of their IDs.
    pub fn spatial_nodes(&self) -> (result: &SortedMap<u64, SpatialNodeMeta>)
        ensures
            *result == self.tree(),
    {
        &self.nodes
    }

    /// The leaves whose boxes meet a box.
    pub fn candidate_leaf_tiles(&self, bounds: Bounds3) -> (result: SortedSet<u64>)
        requires
            self.wf(),
        ensures
            result.wf(),
            result@ == meeting_leaves(self.tree()@, bounds),
    {
        candidate_leaf_tiles(&self.nodes, self.manifest.spatial_root, bounds)
    }

    /// The nodes to show in a view; `measures` is in the order of the nodes'
    /// IDs.
    pub fn select_lod_nodes(
        &self,
        measures: &Vec<LodMeasure>,
        refined: &mut SortedSet<u64>,
    ) -> (result: Vec<(u64, bool)>)
        requires
            self.wf(),
            measures.len() == self.tree().keys@.len(),
            old(refined).wf(),
        ensures
            final(refined).wf(),
            ({
                let state = lod_walk(
                    self.tree()@,
                    measures_by_id(self.tree(), measures@),
                    seq![self.header().spatial_root],
                    LodState { selected: Seq::empty(), refined: old(refined)@ },
                );
                result@ == state.selected && final(refined)@ == state.refined
            }),
    {
        select_lod_nodes(&self.nodes, self.manifest.spatial_root, measures, refined)
    }
}

/// The facts after the batches of the first entries of a list, or the first
/// fault.
pub open spec fn after_entries(
    facts: AuditFacts,
    batches: Seq<Batch>,
    entries: Seq<BatchDirectoryEntry>,
    count: int,
) -> Result<AuditFacts, Seq<char>>
    decreases count,
{
    if count <= 0 {
        Ok(facts)
    } else {
        match after_entries(facts, batches, entries, count - 1) {
            Err(message) => Err(message),
            Ok(seen) => after_batch(
                seen,
                entries[count - 1].row_kind,
                batches[entries[count - 1].batch_index as int],
            ),
        }
    }
}

/// The exact batches of a leaf: points, then edges, faces and cells.
pub open spec fn leaf_entries(entries: Seq<BatchDirectoryEntry>, leaf: u64) -> Seq<
    BatchDirectoryEntry,
> {
    of_tile(entries, leaf, RowKind::Point) + of_tile(entries, leaf, RowKind::Edge) + of_tile(
        entries,
        leaf,
        RowKind::Face,
    ) + of_tile(entries, leaf, RowKind::Cell)
}

/// The facts after the first leaves, or the first fault.
pub open spec fn after_leaves(
    facts: AuditFacts,
    batches: Seq<Batch>,
    entries: Seq<BatchDirectoryEntry>,
    leaves: Seq<u64>,
    count: int,
) -> Result<AuditFacts, Seq<char>>
    decreases count,
{
    if count <= 0 {
        Ok(facts)
    } else {
        match after_leaves(facts, batches, entries, leaves, count - 1) {
            Err(message) => Err(message),
            Ok(seen) => {
                let list = leaf_entries(entries, leaves[count - 1]);
                after_entries(
                    AuditFacts { local: Set::empty(), ..seen },
                    batches,
                    list,
                    list.len() as int,
                )
            },
        }
    }
}

/// The IDs of the leaves among the first nodes, in order.
pub open spec fn leaves_among(nodes: SortedMap<u64, SpatialNodeMeta>, count: int) -> Seq<u64>
    decreases count,
{
    if count <= 0 {
        Seq::empty()
    } else if nodes.values@[count - 1].children@.len() == 0 {
        leaves_among(nodes, count - 1).push(nodes.keys@[count - 1])
    } else {
        leaves_among(nodes, count - 1)
    }
}

proof fn leaf_among(nodes: SortedMap<u64, SpatialNodeMeta>, place: int, count: int)
    requires
        0 <= place < count,
        nodes.values@[place].children@.len() == 0,
    ensures
        leaves_among(nodes, count).contains(nodes.keys@[place]),
    decreases count,
{
    let before = leaves_among(nodes, count - 1);
    if place == count - 1 {
        assert(leaves_among(nodes, count).last() == nodes.keys@[place]);
    } else {
        leaf_among(nodes, place, count - 1);
        let k = before.index_of(nodes.keys@[place]);
        assert(leaves_among(nodes, count)[k] == nodes.keys@[place]);
    }
}

proof fn place_of_leaf(nodes: SortedMap<u64, SpatialNodeMeta>, count: int, place: int) -> (k: int)
    requires
        0 <= place < leaves_among(nodes, count).len(),
    ensures
        0 <= k < count,
        nodes.keys@[k] == leaves_among(nodes, count)[place],
        nodes.values@[k].children@.len() == 0,
    decreases count,
{
    let before = leaves_among(nodes, count - 1);
    if count > 0 && place < before.len() {
        place_of_leaf(nodes, count - 1, place)
    } else {
        count - 1
    }
}

/// The facts of an audit that has seen nothing.
pub open spec fn no_facts() -> AuditFacts {
    AuditFacts {
        ids: Set::empty(),
        owners: Map::empty(),
        local: Set::empty(),
        counts: MeshCounts { points: 0, edges: 0, faces: 0, cells: 0, spatial_nodes: 0 },
    }
}

/// The counts name as many points, edges, faces and cells.
pub open spec fn same_counts(a: MeshCounts, b: MeshCounts) -> bool {
    a.points == b.points && a.edges == b.edges && a.faces == b.faces && a.cells == b.cells
}

/// What the audit of a whole file finds.
pub open spec fn audit_facts(file: MeshFile) -> Result<AuditFacts, Seq<char>> {
    let leaves = leaves_among(file.tree(), file.tree().keys@.len() as int);
    after_leaves(no_facts(), file.batches(), file.entries(), leaves, leaves.len() as int)
}

/// Counts as a message shows them.
pub open spec fn counts_text(counts: MeshCounts) -> Seq<char> {
    "MeshCounts { points: "@ + decimal(counts.points as nat) + ", edges: "@ + decimal(
        counts.edges as nat,
    ) + ", faces: "@ + decimal(counts.faces as nat) + ", cells: "@ + decimal(counts.cells as nat)
        + ", spatial_nodes: "@ + decimal(counts.spatial_nodes as nat) + " }"@
}

fn append_counts(text: &mut String, counts: &MeshCounts)
    ensures
        final(text)@ == old(text)@ + counts_text(*counts),
{
    let ghost start = text@;
    text.append("MeshCounts { points: ");
    append_decimal(text, counts.points);
    text.append(", edges: ");
    append_decimal(text, counts.edges);
    text.append(", faces: ");
    append_decimal(text, counts.faces);
    text.append(", cells: ");
    append_decimal(text, counts.cells);
    text.append(", spatial_nodes: ");
    append_decimal(text, counts.spatial_nodes);
    text.append(" }");
    assert(text@ =~= start + counts_text(*counts));
}

/// Whether an audit's counts are those of the manifest.
pub fn check_counts(counts: &MeshCounts, manifest: &MeshCounts) -> (result: MeshResult<()>)
    ensures
        if same_counts(*counts, *manifest) {
            result is Ok
        } else {
            fails_file(
                result,
                "full audit counts "@ + counts_text(*counts) + " disagree with manifest "@
                    + counts_text(*manifest),
            )
        },
{
    if counts.points != manifest.points || counts.edges != manifest.edges || counts.faces
        != manifest.faces || counts.cells != manifest.cells {
        let mut text = "full audit counts ".to_owned();
        append_counts(&mut text, counts);
        text.append(" disagree with manifest ");
        append_counts(&mut text, manifest);
        return Err(MeshError::InvalidFile(text));
    }
    Ok(())
}

proof fn tile_entries_are_of_kind(entries: Seq<BatchDirectoryEntry>, node: u64, kind: RowKind)
    ensures
        forall|i: int|
            0 <= i < of_tile(entries, node, kind).len() ==> (#[trigger] of_tile(
                entries,
                node,
                kind,
            )[i]).row_kind == kind,
{
    let keep = |entry: BatchDirectoryEntry|
        entry.row_kind == kind && entry.spatial_node_id == Some(node);
    assert forall|i: int| 0 <= i < of_tile(entries, node, kind).len() implies (#[trigger] of_tile(
        entries,
        node,
        kind,
    )[i]).row_kind == kind by {
        entries.lemma_filter_pred(keep, i);
    }
}

proof fn tile_entries_are_listed(entries: Seq<BatchDirectoryEntry>, node: u64, kind: RowKind)
    ensures
        forall|i: int|
            0 <= i < of_tile(entries, node, kind).len() ==> entries.contains(
                #[trigger] of_tile(entries, node, kind)[i],
            ),
{
    let keep = |entry: BatchDirectoryEntry|
        entry.row_kind == kind && entry.spatial_node_id == Some(node);
    let tile = of_tile(entries, node, kind);
    assert forall|i: int| 0 <= i < tile.len() implies entries.contains(#[trigger] tile[i]) by {
        assert(tile.contains(tile[i]));
        entries.lemma_filter_contains_rev(keep, tile[i]);
    }
}

proof fn fault_stays(
    facts: AuditFacts,
    batches: Seq<Batch>,
    entries: Seq<BatchDirectoryEntry>,
    few: int,
    many: int,
)
    requires
        few <= many,
        after_entries(facts, batches, entries, few) is Err,
    ensures
        after_entries(facts, batches, entries, many) == after_entries(facts, batches, entries, few),
    decreases many,
{
    if few < many && many > 0 {
        fault_stays(facts, batches, entries, few, many - 1);
    }
}

proof fn leaf_fault_stays(
    facts: AuditFacts,
    batches: Seq<Batch>,
    entries: Seq<BatchDirectoryEntry>,
    leaves: Seq<u64>,
    few: int,
    many: int,
)
    requires
        few <= many,
        after_leaves(facts, batches, entries, leaves, few) is Err,
    ensures
        after_leaves(facts, batches, entries, leaves, many) == after_leaves(
            facts,
            batches,
            entries,
            leaves,
            few,
        ),
    decreases many,
{
    if few < many && many > 0 {
        leaf_fault_stays(facts, batches, entries, leaves, few, many - 1);
    }
}

/// An audit from these facts over these entries finds this fault.
pub open spec fn audit_fault(
    facts: AuditFacts,
    batches: Seq<Batch>,
    entries: Seq<BatchDirectoryEntry>,
    message: Seq<char>,
) -> bool {
    after_entries(facts, batches, entries, entries.len() as int) == Err::<AuditFacts, Seq<char>>(
        message,
    )
}

proof fn fault_of_longer_list(
    facts: AuditFacts,
    batches: Seq<Batch>,
    list: Seq<BatchDirectoryEntry>,
    more: Seq<BatchDirectoryEntry>,
    message: Seq<char>,
)
    requires
        audit_fault(facts, batches, list, message),
    ensures
        audit_fault(facts, batches, list + more, message),
{
    same_prefix(facts, batches, list, list + more, list.len() as int);
    fault_stays(facts, batches, list + more, list.len() as int, (list + more).len() as int);
}

impl MeshFile {
    /// The batches of all these entries can be read and are what the entries
    /// promise.
    pub open spec fn shows_all(
        self,
        session: MeshReadSession,
        entries: Seq<BatchDirectoryEntry>,
    ) -> bool {
        forall|i: int|
            0 <= i < entries.len() ==> self.shows(session, (#[trigger] entries[i]).batch_index)
    }

    /// The error is that with which viewing the batch of one of these entries
    /// ends.
    pub open spec fn some_view_fails(
        self,
        session: MeshReadSession,
        entries: Seq<BatchDirectoryEntry>,
        error: MeshError,
    ) -> bool {
        exists|i: int|
            0 <= i < entries.len() && !self.shows(session, (#[trigger] entries[i]).batch_index)
                && self.view_fails(session, entries[i].batch_index, error)
    }

    /// A list of entries with a batch that cannot be viewed stays one with more
    /// entries around it.
    proof fn failing_view_stays(
        self,
        session: MeshReadSession,
        before: Seq<BatchDirectoryEntry>,
        entries: Seq<BatchDirectoryEntry>,
        after: Seq<BatchDirectoryEntry>,
        error: MeshError,
    )
        requires
            self.some_view_fails(session, entries, error),
        ensures
            self.some_view_fails(session, before + entries + after, error),
    {
        let i = choose|i: int|
            0 <= i < entries.len() && !self.shows(session, (#[trigger] entries[i]).batch_index)
                && self.view_fails(session, entries[i].batch_index, error);
        let list = before + entries + after;
        assert(list[before.len() + i] == entries[i]);
    }

    proof fn same_session_shows(
        self,
        a: MeshReadSession,
        b: MeshReadSession,
        entries: Seq<BatchDirectoryEntry>,
    )
        requires
            b.same_file(a),
        ensures
            self.shows_all(a, entries) == self.shows_all(b, entries),
    {
        assert forall|index: usize| self.shows(a, index) == self.shows(b, index) by {}
        if self.shows_all(a, entries) {
            assert(self.shows_all(b, entries));
        }
    }

    proof fn same_session_same_views(
        self,
        a: MeshReadSession,
        b: MeshReadSession,
        entries: Seq<BatchDirectoryEntry>,
        error: MeshError,
    )
        requires
            b.same_file(a),
        ensures
            self.some_view_fails(a, entries, error) == self.some_view_fails(b, entries, error),
    {
        assert forall|index: usize|
            self.shows(a, index) == self.shows(b, index) && self.view_fails(a, index, error)
                == self.view_fails(b, index, error) by {}
        if self.some_view_fails(a, entries, error) {
            let i = choose|i: int|
                0 <= i < entries.len() && !self.shows(a, (#[trigger] entries[i]).batch_index)
                    && self.view_fails(a, entries[i].batch_index, error);
            assert(!self.shows(b, entries[i].batch_index));
            assert(self.view_fails(b, entries[i].batch_index, error));
        }
        if self.some_view_fails(b, entries, error) {
            let i = choose|i: int|
                0 <= i < entries.len() && !self.shows(b, (#[trigger] entries[i]).batch_index)
                    && self.view_fails(b, entries[i].batch_index, error);
            assert(!self.shows(a, entries[i].batch_index));
            assert(self.view_fails(a, entries[i].batch_index, error));
        }
    }

    /// In an open file a batch has one entry.
    pub proof fn entry_is_its_own(self, place: int)
        requires
            self.wf(),
            0 <= place < self.entries().len(),
        ensures
            has_entry(self.entries(), self.entries()[place].batch_index),
            self.entry_of(self.entries()[place].batch_index) == self.entries()[place],
    {
        let index = self.entries()[place].batch_index;
        assert forall|k: int| 0 <= k < place implies (
        #[trigger] self.entries()[k]).batch_index != index by {
            if self.entries()[k].batch_index == index {
                self.one_entry_each(k, place);
            }
        }
        assert(is_first_entry(self.entries(), index, place));
        let first = choose|i: int| is_first_entry(self.entries(), index, i);
        self.one_entry_each(first, place);
    }

    proof fn one_entry_each(self, i: int, j: int)
        requires
            self.wf(),
            0 <= i < self.entries().len(),
            0 <= j < self.entries().len(),
            self.entries()[i].batch_index == self.entries()[j].batch_index,
        ensures
            i == j,
    {
        assert(entry_fault(self.directory@, self.manifest, i) is None);
        assert(entry_fault(self.directory@, self.manifest, j) is None);
        assert(!repeated(self.directory@, i) && !repeated(self.directory@, j));
    }

    fn audit_entries(
        &self,
        session: &mut MeshReadSession,
        audit: &mut Audit,
        kind: RowKind,
        leaf: u64,
        Ghost(start): Ghost<AuditFacts>,
        Ghost(done): Ghost<Seq<BatchDirectoryEntry>>,
    ) -> (result: MeshResult<()>)
        requires
            self.wf(),
            old(session).reads(self.stored()),
            old(audit).wf(),
            kind.exact(),
            after_entries(start, self.batches(), done, done.len() as int) == Ok::<
                AuditFacts,
                Seq<char>,
            >(old(audit)@),
        ensures
            final(session).same_file(*old(session)),
            match result {
                Ok(_) => final(audit).wf() && ({
                    let list = done + of_tile(self.entries(), leaf, kind);
                    &&& after_entries(start, self.batches(), list, list.len() as int) == Ok::<
                        AuditFacts,
                        Seq<char>,
                    >(final(audit)@)
                    &&& self.shows_all(*old(session), of_tile(self.entries(), leaf, kind))
                }),
                Err(error) => self.some_view_fails(
                    *old(session),
                    of_tile(self.entries(), leaf, kind),
                    error,
                ) || error is InvalidFile && audit_fault(
                    start,
                    self.batches(),
                    done + of_tile(self.entries(), leaf, kind),
                    error.text(),
                ),
            },
    {
        let entries = self.tile_batches(leaf, kind);
        let ghost tile = of_tile(self.entries(), leaf, kind);
        proof {
            tile_entries_are_of_kind(self.entries(), leaf, kind);
            tile_entries_are_listed(self.entries(), leaf, kind);
            assert(done + tile.take(0) =~= done);
        }
        let mut i: usize = 0;
        while i < entries.len()
            invariant
                i <= entries.len(),
                self.wf(),
                session.same_file(*old(session)),
                old(session).reads(self.stored()),
                kind.exact(),
                audit.wf(),
                forall|k: int|
                    0 <= k < tile.len() ==> self.entries().contains(#[trigger] tile[k]),
                forall|k: int|
                    0 <= k < i ==> self.shows(*old(session), (#[trigger] tile[k]).batch_index),
                tile == of_tile(self.entries(), leaf, kind),
                referred(entries@) == tile,
                forall|k: int| 0 <= k < tile.len() ==> (#[trigger] tile[k]).row_kind == kind,
                after_entries(
                    start,
                    self.batches(),
                    done + tile.take(i as int),
                    done.len() + i,
                ) == Ok::<AuditFacts, Seq<char>>(audit@),
            decreases entries.len() - i,
        {
            assert(referred(entries@)[i as int] == *entries@[i as int]);
            let ghost place = self.entries().index_of(tile[i as int]);
            assert(self.entries().contains(tile[i as int]));
            assert(self.entries()[place] == tile[i as int]);
            proof {
                self.entry_is_its_own(place);
            }
            let ghost current = *session;
            let view = match self.view_from(session, entries[i].batch_index) {
                Ok(view) => view,
                Err(error) => {
                    proof {
                        let index = tile[i as int].batch_index;
                        assert(!self.shows(current, index));
                        assert(self.view_fails(current, index, error));
                        assert(self.shows(current, index) == self.shows(*old(session), index));
                        assert(self.view_fails(*old(session), index, error));
                        assert(self.some_view_fails(*old(session), tile, error));
                    }
                    return Err(error);
                },
            };
            proof {
                assert(self.shows(*old(session), tile[i as int].batch_index));
                let less = done + tile.take(i as int);
                let more = done + tile.take(i + 1);
                same_prefix(start, self.batches(), less, more, done.len() + i);
                assert(more[done.len() + i] == tile[i as int]);
                assert(tile[i as int].row_kind == kind);
            }
            match audit.add_batch(kind, &view.batch) {
                Ok(_) => {},
                Err(error) => {
                    proof {
                        let more = done + tile.take(i + 1);
                        assert(more.len() == done.len() + i + 1);
                        assert(audit_fault(start, self.batches(), more, error.text()));
                        fault_of_longer_list(
                            start,
                            self.batches(),
                            more,
                            tile.skip(i + 1),
                            error.text(),
                        );
                        assert(more + tile.skip(i + 1) =~= done + tile);
                    }
                    return Err(error);
                },
            }
            i += 1;
        }
        assert(tile.take(i as int) =~= tile);
        Ok(())
    }

    fn audit_leaf(
        &self,
        session: &mut MeshReadSession,
        audit: &mut Audit,
        leaf: u64,
    ) -> (result: MeshResult<()>)
        requires
            self.wf(),
            old(session).reads(self.stored()),
            old(audit).wf(),
        ensures
            final(session).same_file(*old(session)),
            match result {
                Ok(_) => final(audit).wf() && ({
                    let list = leaf_entries(self.entries(), leaf);
                    &&& after_entries(
                        AuditFacts { local: Set::empty(), ..old(audit)@ },
                        self.batches(),
                        list,
                        list.len() as int,
                    ) == Ok::<AuditFacts, Seq<char>>(final(audit)@)
                    &&& self.shows_all(*old(session), list)
                }),
                Err(error) => self.some_view_fails(
                    *old(session),
                    leaf_entries(self.entries(), leaf),
                    error,
                ) || error is InvalidFile && audit_fault(
                    AuditFacts { local: Set::empty(), ..old(audit)@ },
                    self.batches(),
                    leaf_entries(self.entries(), leaf),
                    error.text(),
                ),
            },
    {
        audit.enter_chunk();
        let ghost first = *session;
        let ghost start = audit@;
        let ghost points = of_tile(self.entries(), leaf, RowKind::Point);
        let ghost edges = of_tile(self.entries(), leaf, RowKind::Edge);
        let ghost faces = of_tile(self.entries(), leaf, RowKind::Face);
        let ghost cells = of_tile(self.entries(), leaf, RowKind::Cell);
        let ghost none = Seq::<BatchDirectoryEntry>::empty();
        let ghost list = leaf_entries(self.entries(), leaf);
        assert(none + points =~= points);
        match self.audit_entries(
            session,
            audit,
            RowKind::Point,
            leaf,
            Ghost(start),
            Ghost(Seq::empty()),
        ) {
            Ok(_) => {},
            Err(error) => {
                proof {
                    let rest = edges + faces + cells;
                    assert(points + rest =~= list);
                    if audit_fault(start, self.batches(), points, error.text()) {
                        fault_of_longer_list(start, self.batches(), points, rest, error.text());
                    }
                    if self.some_view_fails(first, points, error) {
                        self.failing_view_stays(first, none, points, rest, error);
                    }
                }
                return Err(error);
            },
        }
        match self.audit_entries(session, audit, RowKind::Edge, leaf, Ghost(start), Ghost(points)) {
            Ok(_) => {},
            Err(error) => {
                proof {
                    let seen = points + edges;
                    let rest = faces + cells;
                    assert(seen + rest =~= list);
                    if audit_fault(start, self.batches(), seen, error.text()) {
                        fault_of_longer_list(start, self.batches(), seen, rest, error.text());
                    }
                    self.same_session_same_views(first, *session, edges, error);
                    if self.some_view_fails(first, edges, error) {
                        self.failing_view_stays(first, points, edges, rest, error);
                    }
                }
                return Err(error);
            },
        }
        match self.audit_entries(
            session,
            audit,
            RowKind::Face,
            leaf,
            Ghost(start),
            Ghost(points + edges),
        ) {
            Ok(_) => {},
            Err(error) => {
                proof {
                    let seen = points + edges + faces;
                    if audit_fault(start, self.batches(), seen, error.text()) {
                        fault_of_longer_list(start, self.batches(), seen, cells, error.text());
                        assert(seen + cells =~= list);
                    }
                    self.same_session_same_views(first, *session, faces, error);
                    if self.some_view_fails(first, faces, error) {
                        self.failing_view_stays(first, points + edges, faces, cells, error);
                    }
                }
                return Err(error);
            },
        }
        match self.audit_entries(
            session,
            audit,
            RowKind::Cell,
            leaf,
            Ghost(start),
            Ghost(points + edges + faces),
        ) {
            Ok(_) => {},
            Err(error) => {
                proof {
                    self.same_session_same_views(first, *session, cells, error);
                    if self.some_view_fails(first, cells, error) {
                        self.failing_view_stays(first, points + edges + faces, cells, none, error);
                        assert(points + edges + faces + cells + none =~= list);
                    }
                }
                return Err(error);
            },
        }
        assert forall|i: int| 0 <= i < list.len() implies self.shows(
            first,
            (#[trigger] list[i]).batch_index,
        ) by {
            let one = points.len();
            let two = one + edges.len();
            let three = two + faces.len();
            if i < one {
                assert(list[i] == points[i]);
            } else if i < two {
                assert(list[i] == edges[i - one]);
            } else if i < three {
                assert(list[i] == faces[i - two]);
            } else {
                assert(list[i] == cells[i - three]);
            }
        }
        Ok(())
    }

    /// The IDs of the leaves, in order.
    pub fn leaves(&self) -> (result: Vec<u64>)
        requires
            self.wf(),
        ensures
            result@ == leaves_among(self.tree(), self.tree().keys@.len() as int),
    {
        let mut leaves: Vec<u64> = Vec::new();
        let mut i: usize = 0;
        assert(leaves@ =~= leaves_among(self.nodes, 0));
        while i < self.nodes.keys.len()
            invariant
                i <= self.nodes.keys.len(),
                self.nodes.wf(),
                leaves@ == leaves_among(self.nodes, i as int),
            decreases self.nodes.keys.len() - i,
        {
            if self.nodes.values[i].children.len() == 0 {
                leaves.push(self.nodes.keys[i]);
            }
            i += 1;
        }
        leaves
    }

    fn exact_batches(&self) -> (result: u64)
        ensures
            result == self.entries().filter(
                |entry: BatchDirectoryEntry| entry.row_kind.exact(),
            ).len(),
    {
        let ghost keep = |entry: BatchDirectoryEntry| entry.row_kind.exact();
        let mut count: usize = 0;
        let mut i: usize = 0;
        proof {
            reveal(Seq::filter);
        }
        while i < self.directory.len()
            invariant
                count <= i <= self.directory.len(),
                keep == (|entry: BatchDirectoryEntry| entry.row_kind.exact()),
                count == self.directory@.take(i as int).filter(keep).len(),
            decreases self.directory.len() - i,
        {
            assert(self.directory@.take(i + 1).drop_last() =~= self.directory@.take(i as int));
            proof {
                reveal(Seq::filter);
            }
            if self.directory[i].row_kind.is_exact() {
                count += 1;
            }
            i += 1;
        }
        assert(self.directory@.take(i as int) =~= self.directory@);
        count as u64
    }

    /// A listed leaf is a leaf of the tree.
    proof fn listed_leaf(self, place: int)
        requires
            self.wf(),
            0 <= place < leaves_among(self.tree(), self.tree().keys@.len() as int).len(),
        ensures
            ({
                let id = leaves_among(self.tree(), self.tree().keys@.len() as int)[place];
                self.tree()@.dom().contains(id) && self.tree()@[id].children@.len() == 0
            }),
    {
        let k = place_of_leaf(self.nodes, self.nodes.keys@.len() as int, place);
        assert(self.nodes.keys@.contains(self.nodes.keys@[k]));
    }

    proof fn leaf_is_listed(self, id: u64)
        requires
            self.wf(),
            self.tree()@.dom().contains(id),
            self.tree()@[id].children@.len() == 0,
        ensures
            leaves_among(self.tree(), self.tree().keys@.len() as int).contains(id),
    {
        leaf_among(self.nodes, self.nodes.keys@.index_of(id), self.nodes.keys@.len() as int);
    }

    /// The nodes of a file are sorted by their IDs.
    pub proof fn tree_is_sorted(self)
        requires
            self.wf(),
        ensures
            self.tree().wf(),
    {
    }

    /// The exact batches of all leaves can be read and are what their entries
    /// promise, and the audit finds no fault and the counts of the manifest.
    pub open spec fn audit_passes(self, session: MeshReadSession) -> bool {
        &&& forall|id: u64|
            self.tree()@.dom().contains(id) && self.tree()@[id].children@.len() == 0
                ==> self.shows_all(session, #[trigger] leaf_entries(self.entries(), id))
        &&& audit_facts(self) matches Ok(facts) && same_counts(facts.counts, self.header().counts)
    }

    /// The message says what the audit of the file finds wrong.
    pub open spec fn audit_refused(self, message: Seq<char>) -> bool {
        match audit_facts(self) {
            Err(text) => message == text,
            Ok(facts) => !same_counts(facts.counts, self.header().counts) && message
                == "full audit counts "@ + counts_text(facts.counts) + " disagree with manifest "@
                + counts_text(self.header().counts),
        }
    }

    /// The error with which the audit of the file ends: that of an exact batch of
    /// a leaf that cannot be viewed, or what the audit finds wrong.
    pub open spec fn audit_fails(self, session: MeshReadSession, error: MeshError) -> bool {
        ||| exists|id: u64|
            self.tree()@.dom().contains(id) && self.tree()@[id].children@.len() == 0
                && self.some_view_fails(
                session,
                #[trigger] leaf_entries(self.entries(), id),
                error,
            )
        ||| error is InvalidFile && self.audit_refused(error.text())
    }

    /// The report of an audit that passes.
    pub open spec fn is_report(self, report: MeshAuditReport) -> bool {
        &&& report.exact_batches == self.entries().filter(
            |entry: BatchDirectoryEntry| entry.row_kind.exact(),
        ).len()
        &&& report.entities == self.header().counts.entities()
    }

    /// Reads every exact batch from a session on the file, leaf by leaf, and
    /// holds the whole mesh to its rules. The job may be cancelled between
    /// leaves; where it is not, the audit succeeds exactly where it passes.
    pub fn audit_from(&self, session: &mut MeshReadSession, control: &JobControl) -> (result: MeshResult<
        MeshAuditReport,
    >)
        requires
            self.wf(),
            old(session).reads(self.stored()),
        ensures
            final(session).same_file(*old(session)),
            match result {
                Ok(report) => self.audit_passes(*old(session)) && self.is_report(report),
                Err(error) => error is Cancelled || !self.audit_passes(*old(session))
                    && self.audit_fails(*old(session), error),
            },
    {
        let ghost first = *session;
        let mut audit = Audit::new();
        let leaves = self.leaves();
        let ghost list = leaves@;
        let mut completed: usize = 0;
        while completed < leaves.len()
            invariant
                completed <= leaves.len(),
                self.wf(),
                first == *old(session),
                session.same_file(first),
                first.reads(self.stored()),
                list == leaves@,
                list == leaves_among(self.tree(), self.tree().keys@.len() as int),
                forall|k: int|
                    0 <= k < completed ==> self.shows_all(
                        first,
                        leaf_entries(self.entries(), #[trigger] list[k]),
                    ),
                audit.wf(),
                after_leaves(
                    no_facts(),
                    self.batches(),
                    self.entries(),
                    list,
                    completed as int,
                ) == Ok::<AuditFacts, Seq<char>>(audit@),
            decreases leaves.len() - completed,
        {
            match control.check() {
                Ok(_) => {},
                Err(error) => {
                    return Err(error);
                },
            }
            let ghost leaf = list[completed as int];
            match self.audit_leaf(session, &mut audit, leaves[completed]) {
                Ok(_) => {
                    proof {
                        self.same_session_shows(
                            first,
                            *session,
                            leaf_entries(self.entries(), leaf),
                        );
                    }
                },
                Err(error) => {
                    proof {
                        let here = completed + 1;
                        let entries = leaf_entries(self.entries(), leaf);
                        self.same_session_same_views(first, *session, entries, error);
                        self.listed_leaf(completed as int);
                        if self.some_view_fails(first, entries, error) {
                            assert(!self.shows_all(first, entries));
                        } else {
                            leaf_fault_stays(
                                no_facts(),
                                self.batches(),
                                self.entries(),
                                list,
                                here,
                                list.len() as int,
                            );
                        }
                    }
                    return Err(error);
                },
            }
            completed += 1;
            control.report(
                MeshingProgress {
                    phase: MeshingPhase::Generating,
                    phase_completed: 0,
                    phase_total: 0,
                    completed_chunks: completed as u64,
                    cells_committed: audit.counts.cells,
                    active_bytes: 0,
                },
            );
        }
        match check_counts(&audit.counts, &self.manifest.counts) {
            Ok(_) => {},
            Err(error) => {
                return Err(error);
            },
        }
        assert forall|id: u64|
            self.tree()@.dom().contains(id) && self.tree()@[id].children@.len()
                == 0 implies self.shows_all(
            first,
            #[trigger] leaf_entries(self.entries(), id),
        ) by {
            self.leaf_is_listed(id);
            let k = list.index_of(id);
            assert(list.contains(id));
            assert(list[k] == id);
        }
        assert(audit.ids.items.len() == audit.ids.items@.len());
        Ok(
            MeshAuditReport {
                exact_batches: self.exact_batches(),
                entities: audit.counts.entity_count(),
            },
        )
    }

    /// Reads every exact batch and holds the whole mesh to its rules. The job may
    /// be cancelled between leaves, and whether the outside reader takes the file
    /// is for it to say; what follows is what an audit from a session gives.
    pub fn full_audit(&self, control: &JobControl) -> (result: MeshResult<MeshAuditReport>)
        requires
            self.wf(),
        ensures
            match result {
                Ok(report) => self.is_report(report) && exists|session: MeshReadSession| #[trigger]
                    session.reads(self.stored()) && self.audit_passes(session),
                Err(error) => error is Cancelled || from_outside(error) || exists|
                    session: MeshReadSession,
                | #[trigger]
                    session.reads(self.stored()) && !self.audit_passes(session)
                        && self.audit_fails(session, error),
            },
    {
        match self.session() {
            Ok(mut session) => self.audit_from(&mut session, control),
            Err(error) => Err(error),
        }
    }
}

proof fn same_prefix(
    facts: AuditFacts,
    batches: Seq<Batch>,
    a: Seq<BatchDirectoryEntry>,
    b: Seq<BatchDirectoryEntry>,
    count: int,
)
    requires
        count <= a.len(),
        count <= b.len(),
        forall|i: int| 0 <= i < count ==> a[i] == b[i],
    ensures
        after_entries(facts, batches, a, count) == after_entries(facts, batches, b, count),
    decreases count,
{
    if count > 0 {
        same_prefix(facts, batches, a, b, count - 1);
    }
}

/// Leaves with how far their box and its center are from a point.
pub open spec fn measured_leaves(leaves: Seq<u64>, distances: Seq<(Real, Real)>) -> Seq<NearLeaf> {
    Seq::new(
        leaves.len(),
        |i: int|
            NearLeaf {
                bounds_distance: distances[i].0,
                center_distance: distances[i].1,
                id: leaves[i],
            },
    )
}

impl MeshFile {
    /// The leaves nearest to a point, given for each leaf, in the order of their
    /// IDs, the squared distances of the point to its box and to its center.
    pub fn nearest_leaf_nodes(&self, distances: &Vec<(Real, Real)>, limit: usize) -> (result: Vec<
        u64,
    >)
        requires
            self.wf(),
            distances.len() == leaves_among(self.tree(), self.tree().keys@.len() as int).len(),
        ensures
            exists|order: Seq<NearLeaf>|
                ordered(order) && order.to_multiset() == measured_leaves(
                    leaves_among(self.tree(), self.tree().keys@.len() as int),
                    distances@,
                ).to_multiset() && result@ == #[trigger] first_ids(order, limit as int),
    {
        let leaves = self.leaves();
        let mut near: Vec<NearLeaf> = Vec::new();
        let mut i: usize = 0;
        while i < leaves.len()
            invariant
                i <= leaves.len(),
                distances.len() == leaves.len(),
                near@ == measured_leaves(leaves@, distances@).take(i as int),
            decreases leaves.len() - i,
        {
            near.push(
                NearLeaf {
                    bounds_distance: distances[i].0,
                    center_distance: distances[i].1,
                    id: leaves[i],
                },
            );
            assert(near@ =~= measured_leaves(leaves@, distances@).take(i + 1));
            i += 1;
        }
        assert(near@ =~= measured_leaves(leaves@, distances@));
        nearest_leaf_nodes(near, limit)
    }
}

/// No two rows of an open file's catalog share a kind and an ID.
pub proof fn names_are_distinct(mesh: MeshFile)
    requires
        mesh.wf(),
    ensures
        distinct(mesh.names()),
{
}

/// A file's manifest is read exactly where its last batch is one row that names itself the
/// manifest and holds a text, and the text is what is read.
pub proof fn manifest_is_its_row(batch: Batch, text: Seq<char>)
    ensures
        manifest_of(batch) == Ok::<Seq<char>, Seq<char>>(text) <==> {
            let columns = text_columns(batch);
            &&& batch_rows(batch) == 1
            &&& columns.dom().contains("row_kind"@)
            &&& columns.dom().contains("metadata"@)
            &&& rows_kind(columns["row_kind"@]) == Ok::<RowKind, Seq<char>>(RowKind::Manifest)
            &&& !columns["metadata"@][0].0
            &&& columns["metadata"@][0].1 == text
        },
{
}

/// A batch is taken for a section exactly where its rows are there and all of the section's
/// kind.
pub proof fn section_takes_its_own_rows(batch: Batch, kind: RowKind, stray: Seq<char>)
    ensures
        kind_refusal(batch, kind, stray) is None <==> text_columns(batch).dom().contains("row_kind"@)
            && rows_kind(text_columns(batch)["row_kind"@]) == Ok::<RowKind, Seq<char>>(kind),
{
}

} // verus!
