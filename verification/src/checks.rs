//! The rules by which a file is taken for a mesh file: its schema, its
//! manifest and its directory.

use vstd::prelude::*;

#[allow(unused_imports)]
use crate::error::fails_file;
use crate::error::{MeshError, MeshResult};
use crate::schema::{
    mesh_schema_name, BatchDirectoryEntry, BatchRange, MeshManifest, RowKind, MAX_BATCH_BYTES,
    MAX_BATCH_ROWS, MESH_SCHEMA_VERSION,
};
#[allow(unused_imports)]
use crate::session::{same_field, same_fields};
use crate::session::{ColumnKind, FileSchema};
use crate::sorted::SortedSet;
#[allow(unused_imports)]
use crate::text::decimal;
use crate::text::{join, same_text, sentence2};

verus! {

/// The character is a decimal digit.
pub open spec fn is_digit(c: char) -> bool {
    '0' <= c && c <= '9'
}

/// The number that a text of digits writes down.
pub open spec fn digits_value(text: Seq<char>) -> nat
    decreases text.len(),
{
    if text.len() == 0 {
        0
    } else {
        digits_value(text.drop_last()) * 10 + (text.last() as nat - '0' as nat) as nat
    }
}

/// The digits of a number's text: what follows a leading plus sign.
pub open spec fn unsigned_part(text: Seq<char>) -> Seq<char> {
    if text.len() > 1 && text[0] == '+' {
        text.skip(1)
    } else {
        text
    }
}

/// The 32-bit number that a text writes in decimal: one or more digits, with an
/// optional plus sign before them.
pub open spec fn parsed_u32(text: Seq<char>) -> Option<u32> {
    let digits = unsigned_part(text);
    if digits.len() > 0 && (forall|i: int| 0 <= i < digits.len() ==> is_digit(#[trigger] digits[i]))
        && digits_value(digits) <= u32::MAX {
        Some(digits_value(digits) as u32)
    } else {
        None
    }
}

proof fn longer_is_larger(digits: Seq<char>, count: int)
    requires
        0 <= count <= digits.len(),
        forall|i: int| 0 <= i < digits.len() ==> is_digit(#[trigger] digits[i]),
    ensures
        digits_value(digits.take(count)) <= digits_value(digits),
    decreases digits.len() - count,
{
    if count < digits.len() {
        longer_is_larger(digits, count + 1);
        let more = digits.take(count + 1);
        assert(more.drop_last() =~= digits.take(count));
        assert(is_digit(digits[count]));
    } else {
        assert(digits.take(count) =~= digits);
    }
}

/// Reads a 32-bit number in decimal.
pub fn parse_u32(text: &str) -> (result: Option<u32>)
    ensures
        result == parsed_u32(text@),
{
    let total: usize = text.unicode_len();
    let start: usize = if total > 1 && text.get_char(0) == '+' {
        1
    } else {
        0
    };
    let ghost digits = unsigned_part(text@);
    assert(digits.len() == total - start);
    if total == 0 {
        return None;
    }
    let mut value: u64 = 0;
    let mut i: usize = start;
    assert(digits.take(0) =~= Seq::<char>::empty());
    while i < total
        invariant
            total == text@.len(),
            start <= i <= total,
            digits == unsigned_part(text@),
            digits.len() == total - start,
            digits.len() > 0,
            forall|k: int| 0 <= k < digits.len() ==> digits[k] == text@[start + k],
            forall|k: int| 0 <= k < i - start ==> is_digit(#[trigger] digits[k]),
            value == digits_value(digits.take(i - start)),
            value <= u32::MAX,
        decreases total - i,
    {
        let c = text.get_char(i);
        assert(c == digits[i - start]);
        if !('0' <= c && c <= '9') {
            assert(!is_digit(digits[i - start]));
            return None;
        }
        let ghost more = digits.take(i - start + 1);
        assert(more.drop_last() =~= digits.take(i - start));
        value = value * 10 + (c as u64 - '0' as u64);
        assert(value == digits_value(more));
        if value > u32::MAX as u64 {
            proof {
                if forall|k: int| 0 <= k < digits.len() ==> is_digit(#[trigger] digits[k]) {
                    longer_is_larger(digits, i - start + 1);
                }
            }
            return None;
        }
        i += 1;
    }
    assert(digits.take(i - start) =~= digits);
    Some(value as u32)
}

/// The fields of a mesh file's schema, in order: name, kind, and whether it may
/// hold nulls.
pub open spec fn mesh_fields() -> Seq<(Seq<char>, ColumnKind, bool)> {
    seq![
        ("row_kind"@, ColumnKind::Text, false),
        ("entity_id"@, ColumnKind::U64, true),
        ("owner_chunk_id"@, ColumnKind::U64, true),
        ("ghost"@, ColumnKind::Bool, true),
        ("x"@, ColumnKind::F64, true),
        ("y"@, ColumnKind::F64, true),
        ("z"@, ColumnKind::F64, true),
        ("element_type"@, ColumnKind::Text, true),
        ("point_ids"@, ColumnKind::U64List, true),
        ("boundary"@, ColumnKind::Bool, true),
        ("zone_ids"@, ColumnKind::U64List, true),
        ("tag_ids"@, ColumnKind::U64List, true),
        ("catalog_kind"@, ColumnKind::Text, true),
        ("name"@, ColumnKind::Text, true),
        ("source_object_id"@, ColumnKind::U64, true),
        ("parent_id"@, ColumnKind::U64, true),
        ("child_ids"@, ColumnKind::U64List, true),
        ("chunk_ids"@, ColumnKind::U64List, true),
        ("level"@, ColumnKind::U32, true),
        ("x_min"@, ColumnKind::F64, true),
        ("x_max"@, ColumnKind::F64, true),
        ("y_min"@, ColumnKind::F64, true),
        ("y_max"@, ColumnKind::F64, true),
        ("z_min"@, ColumnKind::F64, true),
        ("z_max"@, ColumnKind::F64, true),
        ("batch_index"@, ColumnKind::U64, true),
        ("kind"@, ColumnKind::Text, true),
        ("spatial_node_id"@, ColumnKind::U64, true),
        ("rows"@, ColumnKind::U64, true),
        ("decoded_bytes"@, ColumnKind::U64, true),
        ("element_types"@, ColumnKind::TextList, true),
        ("metadata"@, ColumnKind::Text, true),
    ]
}

/// The fields of a mesh file's schema.
pub fn mesh_schema() -> (result: Vec<(&'static str, ColumnKind, bool)>)
    ensures
        result@.len() == mesh_fields().len(),
        forall|i: int|
            0 <= i < result@.len() ==> (#[trigger] result@[i]).0@ == mesh_fields()[i].0
                && result@[i].1 == mesh_fields()[i].1 && result@[i].2 == mesh_fields()[i].2,
{
    let mut fields: Vec<(&'static str, ColumnKind, bool)> = Vec::new();
    fields.push(("row_kind", ColumnKind::Text, false));
    fields.push(("entity_id", ColumnKind::U64, true));
    fields.push(("owner_chunk_id", ColumnKind::U64, true));
    fields.push(("ghost", ColumnKind::Bool, true));
    fields.push(("x", ColumnKind::F64, true));
    fields.push(("y", ColumnKind::F64, true));
    fields.push(("z", ColumnKind::F64, true));
    fields.push(("element_type", ColumnKind::Text, true));
    fields.push(("point_ids", ColumnKind::U64List, true));
    fields.push(("boundary", ColumnKind::Bool, true));
    fields.push(("zone_ids", ColumnKind::U64List, true));
    fields.push(("tag_ids", ColumnKind::U64List, true));
    fields.push(("catalog_kind", ColumnKind::Text, true));
    fields.push(("name", ColumnKind::Text, true));
    fields.push(("source_object_id", ColumnKind::U64, true));
    fields.push(("parent_id", ColumnKind::U64, true));
    fields.push(("child_ids", ColumnKind::U64List, true));
    fields.push(("chunk_ids", ColumnKind::U64List, true));
    fields.push(("level", ColumnKind::U32, true));
    fields.push(("x_min", ColumnKind::F64, true));
    fields.push(("x_max", ColumnKind::F64, true));
    fields.push(("y_min", ColumnKind::F64, true));
    fields.push(("y_max", ColumnKind::F64, true));
    fields.push(("z_min", ColumnKind::F64, true));
    fields.push(("z_max", ColumnKind::F64, true));
    fields.push(("batch_index", ColumnKind::U64, true));
    fields.push(("kind", ColumnKind::Text, true));
    fields.push(("spatial_node_id", ColumnKind::U64, true));
    fields.push(("rows", ColumnKind::U64, true));
    fields.push(("decoded_bytes", ColumnKind::U64, true));
    fields.push(("element_types", ColumnKind::TextList, true));
    fields.push(("metadata", ColumnKind::Text, true));
    fields
}

fn fields_match(fields: &Vec<(String, ColumnKind, bool)>) -> (result: bool)
    ensures
        result == same_fields(fields@, mesh_fields()),
{
    let wanted = mesh_schema();
    if fields.len() != wanted.len() {
        return false;
    }
    let mut i: usize = 0;
    while i < fields.len()
        invariant
            i <= fields.len(),
            fields.len() == wanted.len(),
            wanted@.len() == mesh_fields().len(),
            forall|k: int|
                0 <= k < wanted@.len() ==> (#[trigger] wanted@[k]).0@ == mesh_fields()[k].0
                    && wanted@[k].1 == mesh_fields()[k].1 && wanted@[k].2 == mesh_fields()[k].2,
            forall|k: int| 0 <= k < i ==> same_field(#[trigger] fields@[k], mesh_fields()[k]),
        decreases fields.len() - i,
    {
        let name = wanted[i].0;
        let kind = wanted[i].1;
        let nullable = wanted[i].2;
        assert(wanted@[i as int].0@ == mesh_fields()[i as int].0);
        if !same_text(fields[i].0.as_str(), name) || fields[i].1 != kind || fields[i].2 != nullable {
            assert(!same_field(fields@[i as int], mesh_fields()[i as int]));
            return false;
        }
        i += 1;
    }
    true
}

/// Whether the kind is a list.
pub open spec fn is_list(kind: ColumnKind) -> bool {
    kind == ColumnKind::U64List || kind == ColumnKind::TextList
}

/// The field has no metadata, and is a list of items where its kind is: the item
/// field is named `item`, may be null, and has no metadata.
pub open spec fn plain_item(
    found: (usize, Option<(String, bool, usize)>),
    kind: ColumnKind,
) -> bool {
    found.0 == 0 && match found.1 {
        Some(item) => is_list(kind) && item.0@ == "item"@ && item.1 && item.2 == 0,
        None => !is_list(kind),
    }
}

/// Every field is plain, as its kind in a mesh file asks.
pub open spec fn plain_items(found: Seq<(usize, Option<(String, bool, usize)>)>) -> bool {
    &&& found.len() == mesh_fields().len()
    &&& forall|i: int|
        0 <= i < found.len() ==> plain_item(#[trigger] found[i], mesh_fields()[i].1)
}

fn is_plain_item(found: &(usize, Option<(String, bool, usize)>), kind: ColumnKind) -> (result: bool)
    ensures
        result == plain_item(*found, kind),
{
    let list = kind == ColumnKind::U64List || kind == ColumnKind::TextList;
    found.0 == 0 && match &found.1 {
        Some(item) => list && same_text(item.0.as_str(), "item") && item.1 && item.2 == 0,
        None => !list,
    }
}

fn items_match(found: &Vec<(usize, Option<(String, bool, usize)>)>) -> (result: bool)
    ensures
        result == plain_items(found@),
{
    let wanted = mesh_schema();
    if found.len() != wanted.len() {
        return false;
    }
    let mut i: usize = 0;
    while i < found.len()
        invariant
            i <= found@.len(),
            found@.len() == wanted@.len(),
            wanted@.len() == mesh_fields().len(),
            forall|k: int|
                0 <= k < wanted@.len() ==> (#[trigger] wanted@[k]).0@ == mesh_fields()[k].0
                    && wanted@[k].1 == mesh_fields()[k].1 && wanted@[k].2 == mesh_fields()[k].2,
            forall|k: int| 0 <= k < i ==> plain_item(#[trigger] found@[k], mesh_fields()[k].1),
        decreases found@.len() - i,
    {
        let kind = wanted[i].1;
        assert(wanted@[i as int].1 == mesh_fields()[i as int].1);
        if !is_plain_item(&found[i], kind) {
            assert(!plain_item(found@[i as int], mesh_fields()[i as int].1));
            return false;
        }
        i += 1;
    }
    true
}

/// The schema version that the metadata gives.
pub open spec fn stated_version(schema: FileSchema) -> Option<u32> {
    match schema.version {
        Some(text) => parsed_u32(text@),
        None => None,
    }
}

/// The schema is that of a mesh file, but for the version.
pub open spec fn is_mesh_schema(schema: FileSchema) -> bool {
    (schema.name matches Some(name) && name@ == "casocad.mesh"@) && same_fields(
        schema.fields@,
        mesh_fields(),
    ) && plain_items(schema.items@)
}

/// The schema is that of a mesh file of the known version.
pub open spec fn schema_accepted(schema: FileSchema) -> bool {
    stated_version(schema) == Some(MESH_SCHEMA_VERSION) && is_mesh_schema(schema)
}

/// The error with which a schema is refused.
pub open spec fn schema_refused(schema: FileSchema, error: MeshError) -> bool {
    match stated_version(schema) {
        Some(version) => if version != MESH_SCHEMA_VERSION {
            error matches MeshError::UnsupportedFileVersion(found) && found == version
        } else {
            !is_mesh_schema(schema) && error is InvalidFile && error.text()
                == "Arrow schema does not match "@ + "casocad.mesh"@
        },
        None => error matches MeshError::UnsupportedFileVersion(found) && found == 0,
    }
}

/// Whether the schema is that of a mesh file of the known version.
pub fn validate_schema(schema: &FileSchema) -> (result: MeshResult<()>)
    ensures
        match result {
            Ok(_) => schema_accepted(*schema),
            Err(error) => schema_refused(*schema, error),
        },
{
    let version = match &schema.version {
        Some(text) => parse_u32(text.as_str()),
        None => None,
    };
    match version {
        Some(found) => {
            if found != MESH_SCHEMA_VERSION {
                return Err(MeshError::UnsupportedFileVersion(found));
            }
        },
        None => {
            return Err(MeshError::UnsupportedFileVersion(0));
        },
    }
    let named = match &schema.name {
        Some(name) => same_text(name.as_str(), mesh_schema_name()),
        None => false,
    };
    if !named || !fields_match(&schema.fields) || !items_match(&schema.items) {
        return Err(
            MeshError::InvalidFile(join("Arrow schema does not match ", mesh_schema_name())),
        );
    }
    Ok(())
}

/// The manifest is that of a mesh file.
pub open spec fn manifest_identity(manifest: MeshManifest) -> bool {
    &&& manifest.schema_name@ == "casocad.mesh"@
    &&& manifest.schema_version == MESH_SCHEMA_VERSION
    &&& manifest.dimension == 2 || manifest.dimension == 3
    &&& manifest.coordinate_system@ == "world_cartesian_meters"@
    &&& manifest.bounds.valid()
}

/// The five sections follow one another from the first batch up to the
/// manifest, which is the last; only the previews may be missing.
pub open spec fn sections_in_order(manifest: MeshManifest, batch_count: int) -> bool {
    &&& manifest.catalog_batches.start == 0
    &&& manifest.catalog_batches.end == manifest.exact_batches.start
    &&& manifest.exact_batches.end == manifest.preview_batches.start
    &&& manifest.preview_batches.end == manifest.spatial_batches.start
    &&& manifest.spatial_batches.end == manifest.directory_batches.start
    &&& manifest.directory_batches.end + 1 == batch_count
    &&& manifest.catalog_batches.start < manifest.catalog_batches.end
    &&& manifest.exact_batches.start < manifest.exact_batches.end
    &&& manifest.preview_batches.start <= manifest.preview_batches.end
    &&& manifest.spatial_batches.start < manifest.spatial_batches.end
    &&& manifest.directory_batches.start < manifest.directory_batches.end
}

/// Whether the manifest describes a mesh file with this many batches.
pub fn validate_manifest(manifest: &MeshManifest, batch_count: usize) -> (result: MeshResult<()>)
    ensures
        if !manifest_identity(*manifest) {
            fails_file(
                result,
                "manifest schema identity, dimension, coordinates, or bounds are invalid"@,
            )
        } else if !sections_in_order(*manifest, batch_count as int) {
            fails_file(
                result,
                "manifest batch ranges are not ordered, complete, and non-overlapping"@,
            )
        } else {
            result is Ok
        },
{
    if !same_text(manifest.schema_name.as_str(), mesh_schema_name()) || manifest.schema_version
        != MESH_SCHEMA_VERSION || (manifest.dimension != 2 && manifest.dimension != 3)
        || !same_text(manifest.coordinate_system.as_str(), "world_cartesian_meters")
        || !manifest.bounds.is_valid() {
        return Err(
            MeshError::invalid_file(
                "manifest schema identity, dimension, coordinates, or bounds are invalid",
            ),
        );
    }
    let catalog = manifest.catalog_batches;
    let exact = manifest.exact_batches;
    let preview = manifest.preview_batches;
    let spatial = manifest.spatial_batches;
    let directory = manifest.directory_batches;
    let joined = catalog.start == 0 && catalog.end == exact.start && exact.end == preview.start
        && preview.end == spatial.start && spatial.end == directory.start && batch_count > 0
        && directory.end == batch_count - 1;
    let filled = catalog.start < catalog.end && exact.start < exact.end && preview.start
        <= preview.end && spatial.start < spatial.end && directory.start < directory.end;
    if !joined || !filled {
        return Err(
            MeshError::invalid_file(
                "manifest batch ranges are not ordered, complete, and non-overlapping",
            ),
        );
    }
    Ok(())
}

/// The section in which batches of a kind lie, if any does.
pub open spec fn section_of(manifest: MeshManifest, kind: RowKind) -> Option<BatchRange> {
    if kind is Catalog {
        Some(manifest.catalog_batches)
    } else if kind.exact() {
        Some(manifest.exact_batches)
    } else if kind.preview() {
        Some(manifest.preview_batches)
    } else if kind is SpatialNode {
        Some(manifest.spatial_batches)
    } else {
        None
    }
}

/// An entry before this one names the same batch.
pub open spec fn repeated(directory: Seq<BatchDirectoryEntry>, place: int) -> bool {
    exists|k: int|
        0 <= k < place && (#[trigger] directory[k]).batch_index == directory[place].batch_index
}

/// What is wrong with a directory entry, if anything.
pub open spec fn entry_fault(
    directory: Seq<BatchDirectoryEntry>,
    manifest: MeshManifest,
    place: int,
) -> Option<Seq<char>> {
    let entry = directory[place];
    if repeated(directory, place) || entry.batch_index >= manifest.directory_batches.start
        || entry.rows == 0 || entry.rows > MAX_BATCH_ROWS || entry.decoded_bytes > MAX_BATCH_BYTES {
        Some("directory batch index, row count, or decoded size is invalid"@)
    } else {
        match section_of(manifest, entry.row_kind) {
            None => Some("directory references a forbidden row kind"@),
            Some(range) => if !range.holds(entry.batch_index) {
                Some("directory row kind disagrees with manifest ranges"@)
            } else if (entry.row_kind.exact() || entry.row_kind.preview()) && (
            entry.spatial_node_id is None || entry.bounds is None) {
                Some("spatial data batch lacks node ID or bounds"@)
            } else {
                None
            },
        }
    }
}

/// The directory has an entry for each batch before the directory's own, and
/// every entry is sound.
pub open spec fn directory_sound(
    directory: Seq<BatchDirectoryEntry>,
    manifest: MeshManifest,
) -> bool {
    &&& directory.len() == manifest.directory_batches.start
    &&& forall|i: int|
        0 <= i < directory.len() ==> (#[trigger] entry_fault(directory, manifest, i)) is None
}

/// The message says what is wrong with a directory: its length, or the first
/// entry with a fault.
pub open spec fn directory_refused(
    directory: Seq<BatchDirectoryEntry>,
    manifest: MeshManifest,
    message: Seq<char>,
) -> bool {
    if directory.len() != manifest.directory_batches.start {
        message == "directory has "@ + decimal(directory.len()) + " rows for "@ + decimal(
            manifest.directory_batches.start as nat,
        ) + " indexed batches"@
    } else {
        exists|i: int|
            0 <= i < directory.len() && (#[trigger] entry_fault(directory, manifest, i)) == Some(
                message,
            ) && forall|k: int|
                0 <= k < i ==> (#[trigger] entry_fault(directory, manifest, k)) is None
    }
}

fn section(manifest: &MeshManifest, kind: RowKind) -> (result: Option<BatchRange>)
    ensures
        result == section_of(*manifest, kind),
{
    match kind {
        RowKind::Catalog => Some(manifest.catalog_batches),
        RowKind::Point | RowKind::Edge | RowKind::Face | RowKind::Cell => Some(
            manifest.exact_batches,
        ),
        RowKind::PreviewPoint | RowKind::PreviewElement => Some(manifest.preview_batches),
        RowKind::SpatialNode => Some(manifest.spatial_batches),
        RowKind::Manifest | RowKind::BatchDirectory => None,
    }
}

/// Whether the directory describes every batch before its own exactly once.
pub fn validate_directory(directory: &Vec<BatchDirectoryEntry>, manifest: &MeshManifest) -> (result:
    MeshResult<()>)
    ensures
        match result {
            Ok(_) => directory_sound(directory@, *manifest),
            Err(error) => error is InvalidFile && directory_refused(
                directory@,
                *manifest,
                error.text(),
            ),
        },
{
    let expected: usize = manifest.directory_batches.start;
    if directory.len() != expected {
        return Err(
            MeshError::InvalidFile(
                sentence2(
                    "directory has ",
                    directory.len() as u64,
                    " rows for ",
                    expected as u64,
                    " indexed batches",
                ),
            ),
        );
    }
    let mut seen = SortedSet::<usize>::new();
    let mut i: usize = 0;
    while i < directory.len()
        invariant
            i <= directory.len(),
            expected == manifest.directory_batches.start,
            directory.len() == expected,
            seen.wf(),
            forall|index: usize| #[trigger]
                seen@.contains(index) <==> exists|k: int|
                    0 <= k < i && (#[trigger] directory@[k]).batch_index == index,
            forall|k: int| 0 <= k < i ==> (#[trigger] entry_fault(directory@, *manifest, k)) is None,
        decreases directory.len() - i,
    {
        let entry = &directory[i];
        let ghost before = seen@;
        let fresh = seen.insert(entry.batch_index);
        assert(fresh == !repeated(directory@, i as int));
        assert forall|index: usize| #[trigger] seen@.contains(index) <==> exists|k: int|
            0 <= k < i + 1 && (#[trigger] directory@[k]).batch_index == index by {
            if seen@.contains(index) {
                if index == entry.batch_index {
                    assert(directory@[i as int].batch_index == index);
                } else {
                    assert(before.contains(index));
                    let k = choose|k: int|
                        0 <= k < i && (#[trigger] directory@[k]).batch_index == index;
                    assert(directory@[k].batch_index == index);
                }
            }
            if exists|k: int| 0 <= k < i + 1 && (#[trigger] directory@[k]).batch_index == index {
                let k = choose|k: int|
                    0 <= k < i + 1 && (#[trigger] directory@[k]).batch_index == index;
                if k < i {
                    assert(before.contains(index));
                }
            }
        }
        if !fresh || entry.batch_index >= expected || entry.rows == 0 || entry.rows > MAX_BATCH_ROWS
            || entry.decoded_bytes > MAX_BATCH_BYTES {
            assert(entry_fault(directory@, *manifest, i as int) is Some);
            return Err(
                MeshError::invalid_file(
                    "directory batch index, row count, or decoded size is invalid",
                ),
            );
        }
        match section(manifest, entry.row_kind) {
            None => {
                assert(entry_fault(directory@, *manifest, i as int) is Some);
                return Err(MeshError::invalid_file("directory references a forbidden row kind"));
            },
            Some(range) => {
                if !range.contains(entry.batch_index) {
                    assert(entry_fault(directory@, *manifest, i as int) is Some);
                    return Err(
                        MeshError::invalid_file(
                            "directory row kind disagrees with manifest ranges",
                        ),
                    );
                }
            },
        }
        if (entry.row_kind.is_exact() || entry.row_kind.is_preview()) && (
        entry.spatial_node_id.is_none() || entry.bounds.is_none()) {
            assert(entry_fault(directory@, *manifest, i as int) is Some);
            return Err(MeshError::invalid_file("spatial data batch lacks node ID or bounds"));
        }
        assert(entry_fault(directory@, *manifest, i as int) is None);
        i += 1;
    }
    Ok(())
}

/// A sound directory has exactly one entry for each batch before its own.
pub proof fn sound_directory_lists_every_batch(
    directory: Seq<BatchDirectoryEntry>,
    manifest: MeshManifest,
    index: int,
)
    requires
        directory_sound(directory, manifest),
        0 <= index < manifest.directory_batches.start,
    ensures
        exists|i: int| 0 <= i < directory.len() && (#[trigger] directory[i]).batch_index == index,
        forall|i: int, j: int|
            0 <= i < j < directory.len() ==> (#[trigger] directory[i]).batch_index != (
            #[trigger] directory[j]).batch_index,
{
    let count = directory.len() as int;
    let indices = Seq::new(directory.len(), |i: int| directory[i].batch_index as int);
    assert forall|i: int, j: int| 0 <= i < j < directory.len() implies (
    #[trigger] directory[i]).batch_index != (#[trigger] directory[j]).batch_index by {
        assert(entry_fault(directory, manifest, j) is None);
    }
    assert(indices.no_duplicates()) by {
        assert forall|i: int, j: int| 0 <= i < count && 0 <= j < count && i != j implies indices[i]
            != indices[j] by {
            if i < j {
                assert(directory[i].batch_index != directory[j].batch_index);
            } else {
                assert(directory[j].batch_index != directory[i].batch_index);
            }
        }
    }
    indices.unique_seq_to_set();
    let all = vstd::set_lib::set_int_range(0, count);
    vstd::set_lib::lemma_int_range(0, count);
    assert(indices.to_set().subset_of(all)) by {
        assert forall|x: int| indices.to_set().contains(x) implies all.contains(x) by {
            let i = choose|i: int| 0 <= i < indices.len() && indices[i] == x;
            assert(entry_fault(directory, manifest, i) is None);
        }
    }
    vstd::set_lib::lemma_subset_equality(indices.to_set(), all);
    assert(indices.to_set().contains(index));
    let i = choose|i: int| 0 <= i < indices.len() && indices[i] == index;
    assert(directory[i].batch_index == index);
}

/// The digits of a number written in decimal give the number back.
pub proof fn digits_give_number_back(value: nat)
    ensures
        digits_value(decimal(value)) == value,
        decimal(value).len() > 0,
        forall|i: int| 0 <= i < decimal(value).len() ==> is_digit(#[trigger] decimal(value)[i]),
    decreases value,
{
    let text = decimal(value);
    if value < 10 {
        reveal_with_fuel(digits_value, 2);
        assert(text.drop_last() =~= Seq::empty());
    } else {
        digits_give_number_back(value / 10);
        let front = decimal(value / 10);
        assert(text.drop_last() =~= front);
        assert forall|i: int| 0 <= i < text.len() implies is_digit(#[trigger] text[i]) by {
            if i < front.len() {
                assert(text[i] == front[i]);
            }
        }
    }
}

/// A version that was written in decimal is read back, with or without a plus sign.
pub proof fn written_version_is_read_back(value: u32)
    ensures
        parsed_u32(decimal(value as nat)) == Some(value),
        parsed_u32(seq!['+'] + decimal(value as nat)) == Some(value),
        parsed_u32(Seq::empty()) is None,
        parsed_u32(seq!['+']) is None,
        parsed_u32(seq!['-'] + decimal(value as nat)) is None,
{
    digits_give_number_back(value as nat);
    let text = decimal(value as nat);
    assert(is_digit(text[0]));
    assert(unsigned_part(text) == text);
    let signed = seq!['+'] + text;
    assert(signed.skip(1) =~= text);
    let minus = seq!['-'] + text;
    assert(minus[0] == '-');
    assert(unsigned_part(minus) == minus);
    assert(!is_digit(minus[0]));
    let plus = seq!['+'];
    assert(plus[0] == '+');
    assert(unsigned_part(plus) == plus);
    assert(!is_digit(plus[0]));
}

/// Every batch but the manifest lies in exactly one of the five sections.
pub proof fn sections_share_out_batches(manifest: MeshManifest, batch_count: int, batch: usize)
    requires
        sections_in_order(manifest, batch_count),
        batch + 1 < batch_count,
    ensures
        ({
            let one = |range: BatchRange|
                if range.start <= batch < range.end {
                    1int
                } else {
                    0
                };
            one(manifest.catalog_batches) + one(manifest.exact_batches) + one(
                manifest.preview_batches,
            ) + one(manifest.spatial_batches) + one(manifest.directory_batches) == 1
        }),
        manifest.catalog_batches.start < manifest.catalog_batches.end,
        manifest.exact_batches.start < manifest.exact_batches.end,
        manifest.spatial_batches.start < manifest.spatial_batches.end,
        manifest.directory_batches.start < manifest.directory_batches.end,
{
}

/// An entry is sound exactly where no earlier entry names its batch, its sizes keep to the
/// limits, its batch lies in the section of its kind, and a batch of spatial data
/// names a node and has bounds.
pub proof fn sound_entry_has_no_fault(
    directory: Seq<BatchDirectoryEntry>,
    manifest: MeshManifest,
    place: int,
)
    ensures
        entry_fault(directory, manifest, place) is None <==> {
            let entry = directory[place];
            let at = entry.batch_index;
            &&& forall|k: int| 0 <= k < place ==> (#[trigger] directory[k]).batch_index != at
            &&& at < manifest.directory_batches.start
            &&& 0 < entry.rows <= MAX_BATCH_ROWS
            &&& entry.decoded_bytes <= MAX_BATCH_BYTES
            &&& match entry.row_kind {
                RowKind::Catalog => manifest.catalog_batches.start <= at
                    < manifest.catalog_batches.end,
                RowKind::Point | RowKind::Edge | RowKind::Face | RowKind::Cell => {
                    &&& manifest.exact_batches.start <= at < manifest.exact_batches.end
                    &&& entry.spatial_node_id is Some
                    &&& entry.bounds is Some
                },
                RowKind::PreviewPoint | RowKind::PreviewElement => {
                    &&& manifest.preview_batches.start <= at < manifest.preview_batches.end
                    &&& entry.spatial_node_id is Some
                    &&& entry.bounds is Some
                },
                RowKind::SpatialNode => manifest.spatial_batches.start <= at
                    < manifest.spatial_batches.end,
                _ => false,
            }
        },
{
    if repeated(directory, place) {
        let k = choose|k: int|
            0 <= k < place && (#[trigger] directory[k]).batch_index
                == directory[place].batch_index;
        assert(directory[k].batch_index == directory[place].batch_index);
    }
}

} // verus!
