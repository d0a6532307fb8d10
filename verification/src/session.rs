//! Reading the record batches of an Arrow IPC file that is held in memory.

use std::io::Cursor;
use std::sync::Arc;

use vstd::prelude::*;
use vstd::slice::slice_subrange;

use arrow_ipc::reader::FileReader;
use arrow_ipc::{root_as_footer, root_as_message, Block, Field};
use arrow_schema::DataType;

use crate::columns::Batch;
use crate::error::{MeshError, MeshResult};
use crate::text::{contains_text, sentence};
#[allow(unused_imports)]
use crate::text::{decimal, holds_text};

verus! {

/// `arrow_ipc::reader::FileReader`, held as an opaque value.
#[verifier::external_type_specification]
#[verifier::external_body]
#[verifier::reject_recursive_types(R)]
pub struct ExFileReader<R>(FileReader<R>);

/// `std::io::Cursor`, held as an opaque value.
#[verifier::external_type_specification]
#[verifier::external_body]
#[verifier::reject_recursive_types(T)]
pub struct ExCursor<T>(Cursor<T>);

/// The batches that a reader hands out: what reading the batch of an index
/// gives where it succeeds.
pub uninterp spec fn stored_batches(reader: FileReader<Cursor<Arc<[u8]>>>) -> Seq<Batch>;

/// The index of the batch that the reader hands out next.
pub uninterp spec fn reader_position(reader: FileReader<Cursor<Arc<[u8]>>>) -> nat;

/// The batches that a reader cannot read, by their indices: the text of its
/// error, or nothing where the message of the batch holds none. This is said of
/// the reader, not of the bytes: lengths must fit the machine's words too.
pub uninterp spec fn batch_faults(reader: FileReader<Cursor<Arc<[u8]>>>) -> Map<
    nat,
    Option<Seq<char>>,
>;

/// The key-value metadata of a reader's schema.
pub uninterp spec fn schema_metadata(reader: FileReader<Cursor<Arc<[u8]>>>) -> Map<
    Seq<char>,
    Seq<char>,
>;

/// The fields of a reader's schema, in order: name, kind, and whether it may
/// hold nulls.
pub uninterp spec fn schema_fields(reader: FileReader<Cursor<Arc<[u8]>>>) -> Seq<
    (Seq<char>, ColumnKind, bool),
>;

/// What a reader's schema says of its fields beside that, in order: how many
/// metadata entries a field has and, for a list of 64-bit offsets, the name of
/// its item field, whether an item may be null, and how many metadata entries
/// the item field has.
pub uninterp spec fn schema_items(reader: FileReader<Cursor<Arc<[u8]>>>) -> Seq<
    (nat, Option<(Seq<char>, bool, nat)>),
>;

/// The bytes that a reader reads from.
pub uninterp spec fn reader_bytes(reader: FileReader<Cursor<Arc<[u8]>>>) -> Seq<u8>;

/// The batches of the file that these bytes are.
pub uninterp spec fn ipc_batches(bytes: Seq<u8>) -> Seq<Batch>;

/// The metadata of the schema of the file that these bytes are.
pub uninterp spec fn ipc_metadata(bytes: Seq<u8>) -> Map<Seq<char>, Seq<char>>;

/// The fields of the schema of the file that these bytes are.
pub uninterp spec fn ipc_fields(bytes: Seq<u8>) -> Seq<(Seq<char>, ColumnKind, bool)>;

/// What the schema of the file that these bytes are says of its fields beside
/// that.
pub uninterp spec fn ipc_items(bytes: Seq<u8>) -> Seq<(nat, Option<(Seq<char>, bool, nat)>)>;

/// What a footer says: where the record batches are, where the dictionaries
/// are, and of every field of the schema the type's tag and its children's tags
/// and numbers of children. There is nothing where the bytes are no footer with
/// a list of record batches and a schema with a list of fields.
pub uninterp spec fn footer_parts(data: Seq<u8>) -> Option<
    (Seq<BlockPlace>, Seq<BlockPlace>, Seq<(u8, Seq<(u8, usize)>)>),
>;

/// The offsets and lengths of the buffers that a record batch message lists.
/// There are none where the bytes are no such message.
pub uninterp spec fn message_buffers(data: Seq<u8>) -> Option<Seq<(i64, i64)>>;

/// What the values of a column are.
#[derive(Debug, Clone, Copy, PartialEq, Eq, Structural)]
pub enum ColumnKind {
    Text,
    U32,
    U64,
    F64,
    Bool,
    U64List,
    TextList,
    Other,
}

/// The tag of a union among the types of a schema.
pub const UNION_TAG: u8 = 14;

/// Where a block of a file stands: its offset in the file, the length of its
/// message and the length of the body behind it.
#[derive(Debug, Clone, Copy, PartialEq, Eq, Structural)]
pub struct BlockPlace {
    pub offset: i64,
    pub message: i32,
    pub body: i64,
}

/// What a footer says of the blocks and of the shape of the fields: of each
/// field its type's tag, and of every child the tag and the number of its own
/// children.
#[derive(Debug)]
pub struct FooterParts {
    pub batches: Vec<BlockPlace>,
    pub dictionaries: Vec<BlockPlace>,
    pub fields: Vec<(u8, Vec<(u8, usize)>)>,
}

/// The shapes of some fields.
pub open spec fn shapes_of(fields: Seq<(u8, Vec<(u8, usize)>)>) -> Seq<(u8, Seq<(u8, usize)>)> {
    Seq::new(fields.len(), |i: int| (fields[i].0, fields[i].1@))
}

impl View for FooterParts {
    type V = (Seq<BlockPlace>, Seq<BlockPlace>, Seq<(u8, Seq<(u8, usize)>)>);

    open spec fn view(&self) -> (Seq<BlockPlace>, Seq<BlockPlace>, Seq<(u8, Seq<(u8, usize)>)>) {
        (self.batches@, self.dictionaries@, shapes_of(self.fields@))
    }
}

/// Calls `root_as_footer` and hands out, one for one, the blocks that the footer
/// lists and the type tags of its schema's fields and of their children. It
/// returns `None` where the call fails, or where the footer has no list of
/// record batches, no schema, or a schema without a list of fields.
#[verifier::external_body]
fn parse_footer(data: &[u8]) -> (result: Option<
    (Vec<BlockPlace>, Vec<BlockPlace>, Vec<(u8, Vec<(u8, usize)>)>),
>)
    ensures
        match result {
            Some(parts) => footer_parts(data@) == Some((parts.0@, parts.1@, shapes_of(parts.2@))),
            None => footer_parts(data@) is None,
        },
{
    let place = |b: &Block| BlockPlace { offset: b.offset(), message: b.metaDataLength(), body: b.bodyLength() };
    let child = |f: Field| (f.type_type().0, f.children().into_iter().flatten().count());
    let shape = |f: Field| (f.type_type().0, f.children().into_iter().flatten().map(child).collect());
    let footer = root_as_footer(data).ok()?;
    Some((
        footer.recordBatches()?.iter().map(place).collect(),
        footer.dictionaries().into_iter().flatten().map(place).collect(),
        footer.schema()?.fields()?.iter().map(shape).collect(),
    ))
}

/// Calls `root_as_message` and hands out, one for one, the offset and the length
/// of every buffer that the message lists. It returns `None` where the call
/// fails, or where the message has no record batch for its header or the record
/// batch has no list of buffers.
#[verifier::external_body]
fn parse_message(data: &[u8]) -> (result: Option<Vec<(i64, i64)>>)
    ensures
        match result {
            Some(buffers) => message_buffers(data@) == Some(buffers@),
            None => message_buffers(data@) is None,
        },
{
    let batch = root_as_message(data).ok()?.header_as_record_batch()?;
    Some(batch.buffers()?.iter().map(|buffer| (buffer.offset(), buffer.length())).collect())
}

/// The length that the tail of a file gives its footer: the last ten bytes are
/// that length, lowest byte first, and the word that ends every such file.
pub open spec fn footer_length(bytes: Seq<u8>) -> Option<int> {
    let end = bytes.len() - 10;
    if end >= 0 && bytes.subrange(end + 4, end + 10) == seq![65u8, 82u8, 82u8, 79u8, 87u8, 49u8]
        && bytes[end + 3] < 128 {
        let length = bytes[end] + 256 * bytes[end + 1] + 65536 * bytes[end + 2] + 16777216
            * bytes[end + 3];
        if length <= end {
            Some(length)
        } else {
            None
        }
    } else {
        None
    }
}

/// What the footer of the file that these bytes are says.
pub open spec fn file_footer(bytes: Seq<u8>) -> Option<
    (Seq<BlockPlace>, Seq<BlockPlace>, Seq<(u8, Seq<(u8, usize)>)>),
> {
    match footer_length(bytes) {
        Some(length) => footer_parts(
            bytes.subrange(bytes.len() - 10 - length, bytes.len() - 10),
        ),
        None => None,
    }
}

/// The field is no union, nor a list of unions, and no deeper than a list.
pub open spec fn is_shallow(tag: u8, children: Seq<(u8, usize)>) -> bool {
    tag != UNION_TAG && forall|j: int|
        0 <= j < children.len() ==> (#[trigger] children[j]).0 != UNION_TAG && children[j].1 == 0
}

/// The file can be handed to the reader: where its footer can be read, there
/// are no dictionaries, and every field is shallow.
pub open spec fn openable(bytes: Seq<u8>) -> bool {
    file_footer(bytes) matches Some(parts) ==> {
        &&& parts.1.len() == 0
        &&& forall|i: int|
            0 <= i < parts.2.len() ==> is_shallow((#[trigger] parts.2[i]).0, parts.2[i].1)
    }
}

/// The buffers of a column of that kind in a record batch, in order: the number
/// that divides each one's length. The offsets of text take four bytes, those
/// of a list eight.
pub open spec fn column_units(kind: ColumnKind) -> Seq<u64> {
    match kind {
        ColumnKind::Text => seq![1u64, 4u64, 1u64],
        ColumnKind::U64List => seq![1u64, 8u64, 1u64, 1u64],
        ColumnKind::TextList => seq![1u64, 8u64, 1u64, 4u64, 1u64],
        ColumnKind::Other => seq![],
        _ => seq![1u64, 1u64],
    }
}

/// The buffers of all columns, in order.
pub open spec fn batch_units(kinds: Seq<ColumnKind>) -> Seq<u64>
    decreases kinds.len(),
{
    if kinds.len() == 0 {
        seq![]
    } else {
        batch_units(kinds.drop_last()) + column_units(kinds.last())
    }
}

/// The buffer lies in a body of that length, and the unit divides its length.
pub open spec fn buffer_fits(buffer: (i64, i64), unit: u64, body: int) -> bool {
    &&& 0 <= buffer.0
    &&& 0 <= buffer.1
    &&& buffer.0 + buffer.1 <= body
    &&& buffer.1 as int % unit as int == 0
}

/// Every buffer that the columns take lies in the body, in whole units.
pub open spec fn buffers_fit(buffers: Seq<(i64, i64)>, units: Seq<u64>, body: int) -> bool {
    forall|i: int|
        0 <= i < buffers.len() && i < units.len() ==> buffer_fits(
            #[trigger] buffers[i],
            units[i],
            body,
        )
}

/// Where the message of a block starts: behind a length of four bytes, before
/// which a marker of four bytes may stand.
pub open spec fn message_start(block: Seq<u8>) -> int {
    if block.subrange(0, 4) == seq![255u8, 255u8, 255u8, 255u8] {
        8
    } else {
        4
    }
}

/// The block lies in the file, is long enough for its message, and where the
/// message is a record batch, its buffers fit.
pub open spec fn block_sound(bytes: Seq<u8>, place: BlockPlace, kinds: Seq<ColumnKind>) -> bool {
    &&& 0 <= place.offset
    &&& 0 <= place.message
    &&& 0 <= place.body
    &&& place.offset + place.message + place.body <= bytes.len()
    &&& 4 <= place.message + place.body
    &&& ({
        let block = bytes.subrange(
            place.offset as int,
            place.offset + place.message + place.body,
        );
        &&& message_start(block) <= block.len()
        &&& message_buffers(block.subrange(message_start(block), block.len() as int)) matches Some(
            buffers,
        ) ==> buffers_fit(buffers, batch_units(kinds), place.body as int)
    })
}

/// The kinds of these fields.
pub open spec fn kinds_of(fields: Seq<(Seq<char>, ColumnKind, bool)>) -> Seq<ColumnKind> {
    Seq::new(fields.len(), |i: int| fields[i].1)
}

/// The batch of that index can be handed to the reader: no column is of another
/// kind than the known ones, and the batch's block is sound.
pub open spec fn batch_sound(bytes: Seq<u8>, index: nat, kinds: Seq<ColumnKind>) -> bool {
    &&& !kinds.contains(ColumnKind::Other)
    &&& file_footer(bytes) matches Some(parts) && index < parts.0.len() && block_sound(
        bytes,
        parts.0[index as int],
        kinds,
    )
}

/// Calls `FileReader::try_new` on the bytes, without a projection. Where it
/// succeeds, the reader stands at the first batch, and its batches and its
/// schema are a function of the bytes. Whether it succeeds is left open: it
/// depends on the byte order of the machine too. An error is handed out as its
/// text, of which nothing is stated. The call reads the blocks of
/// the dictionaries, and panics on one that is damaged; it also panics on a
/// union of more than 128 fields that are not numbered.
#[verifier::external_body]
fn open_reader(bytes: Arc<[u8]>) -> (result: Result<FileReader<Cursor<Arc<[u8]>>>, String>)
    requires
        openable(bytes@),
    ensures
        result matches Ok(reader) ==> {
            &&& stored_batches(reader) == ipc_batches(bytes@)
            &&& schema_metadata(reader) == ipc_metadata(bytes@)
            &&& schema_fields(reader) == ipc_fields(bytes@)
            &&& schema_items(reader) == ipc_items(bytes@)
            &&& reader_bytes(reader) == bytes@
            &&& reader_position(reader) == 0
        },
{
    FileReader::try_new(Cursor::new(bytes), None).map_err(|error| error.to_string())
}

/// Calls `FileReader::get_ref` and `Cursor::get_ref`, which hand out the bytes
/// that the reader was made of.
#[verifier::external_body]
fn held_bytes(reader: &FileReader<Cursor<Arc<[u8]>>>) -> (result: &[u8])
    ensures
        result@ == reader_bytes(*reader),
{
    reader.get_ref().get_ref()
}

/// Calls `FileReader::num_batches`, which returns the number of batches.
#[verifier::external_body]
fn batch_count(reader: &FileReader<Cursor<Arc<[u8]>>>) -> (result: usize)
    ensures
        result == stored_batches(*reader).len(),
{
    reader.num_batches()
}

/// What the reader says of an index behind its last batch.
pub open spec fn no_such_batch(index: nat, total: nat) -> Seq<char> {
    "Invalid argument error: Cannot set batch to index "@ + decimal(index) + " from "@ + decimal(
        total,
    ) + " total batches"@
}

/// Calls `FileReader::set_index`: it moves to the batch of that index, or fails
/// exactly where there is none. The error is handed out as its text, which
/// gives the index and the number of batches.
#[verifier::external_body]
fn seek_batch(reader: &mut FileReader<Cursor<Arc<[u8]>>>, index: usize) -> (result: Result<
    (),
    String,
>)
    ensures
        stored_batches(*final(reader)) == stored_batches(*old(reader)),
        batch_faults(*final(reader)) == batch_faults(*old(reader)),
        schema_metadata(*final(reader)) == schema_metadata(*old(reader)),
        schema_fields(*final(reader)) == schema_fields(*old(reader)),
        schema_items(*final(reader)) == schema_items(*old(reader)),
        reader_bytes(*final(reader)) == reader_bytes(*old(reader)),
        result is Ok <==> index < stored_batches(*old(reader)).len(),
        result is Ok ==> reader_position(*final(reader)) == index,
        result matches Err(text) ==> reader_position(*final(reader)) == reader_position(
            *old(reader),
        ) && text@ == no_such_batch(index as nat, stored_batches(*old(reader)).len()),
{
    reader.set_index(index).map_err(|error| error.to_string())
}

/// Calls `Iterator::next` of `FileReader`. Behind the last batch it returns
/// `None`. Elsewhere it moves on by one batch. It returns the batch at the
/// reader's position, unless that is one that the reader cannot read: then it
/// returns its error, which is handed out as its text, or `None` for a message
/// without a batch. It panics on a block whose lengths are negative, on one too
/// short for its message, on a buffer outside the block's body, on offsets that
/// are no whole number of integers, and on some damaged columns of other kinds
/// than the known ones.
#[verifier::external_body]
fn next_batch(reader: &mut FileReader<Cursor<Arc<[u8]>>>) -> (result: Option<
    Result<Batch, String>,
>)
    requires
        reader_position(*old(reader)) < stored_batches(*old(reader)).len() ==> batch_sound(
            reader_bytes(*old(reader)),
            reader_position(*old(reader)),
            kinds_of(schema_fields(*old(reader))),
        ),
    ensures
        stored_batches(*final(reader)) == stored_batches(*old(reader)),
        batch_faults(*final(reader)) == batch_faults(*old(reader)),
        schema_metadata(*final(reader)) == schema_metadata(*old(reader)),
        schema_fields(*final(reader)) == schema_fields(*old(reader)),
        schema_items(*final(reader)) == schema_items(*old(reader)),
        reader_bytes(*final(reader)) == reader_bytes(*old(reader)),
        ({
            let place = reader_position(*old(reader));
            let total = stored_batches(*old(reader)).len();
            let faults = batch_faults(*old(reader));
            &&& place >= total ==> result is None && reader_position(*final(reader)) == place
            &&& place < total ==> reader_position(*final(reader)) == place + 1 && match result {
                Some(Ok(batch)) => !faults.dom().contains(place) && batch == stored_batches(
                    *old(reader),
                )[place as int],
                Some(Err(text)) => faults.dom().contains(place) && faults[place] == Some(text@),
                None => faults.dom().contains(place) && faults[place] is None,
            }
        }),
{
    reader.next().map(|batch| batch.map(|batch| Batch { batch }).map_err(|error| error.to_string()))
}

/// Calls `FileReader::schema` and looks a key up in its metadata.
#[verifier::external_body]
fn metadata_entry(reader: &FileReader<Cursor<Arc<[u8]>>>, key: &str) -> (result: Option<String>)
    ensures
        match result {
            Some(text) => schema_metadata(*reader).dom().contains(key@) && text@
                == schema_metadata(*reader)[key@],
            None => !schema_metadata(*reader).dom().contains(key@),
        },
{
    reader.schema().metadata().get(key).cloned()
}

/// The field's name, kind and nullability are these.
pub open spec fn same_field(
    field: (String, ColumnKind, bool),
    wanted: (Seq<char>, ColumnKind, bool),
) -> bool {
    field.0@ == wanted.0 && field.1 == wanted.1 && field.2 == wanted.2
}

/// The list of fields is this one.
pub open spec fn same_fields(
    fields: Seq<(String, ColumnKind, bool)>,
    wanted: Seq<(Seq<char>, ColumnKind, bool)>,
) -> bool {
    &&& fields.len() == wanted.len()
    &&& forall|i: int| 0 <= i < fields.len() ==> same_field(#[trigger] fields[i], wanted[i])
}

/// Calls `FileReader::schema` and lists its fields: the name, the data type as
/// a [`ColumnKind`], and `is_nullable`.
#[verifier::external_body]
fn list_fields(reader: &FileReader<Cursor<Arc<[u8]>>>) -> (result: Vec<(String, ColumnKind, bool)>)
    ensures
        same_fields(result@, schema_fields(*reader)),
{
    let schema = reader.schema();
    let kind = |data: &DataType| match data {
        DataType::Utf8 => ColumnKind::Text,
        DataType::UInt32 => ColumnKind::U32,
        DataType::UInt64 => ColumnKind::U64,
        DataType::Float64 => ColumnKind::F64,
        DataType::Boolean => ColumnKind::Bool,
        DataType::LargeList(item) => match item.data_type() {
            DataType::UInt64 => ColumnKind::U64List,
            DataType::Utf8 => ColumnKind::TextList,
            _ => ColumnKind::Other,
        },
        _ => ColumnKind::Other,
    };
    schema.fields().iter().map(|f| (f.name().clone(), kind(f.data_type()), f.is_nullable())).collect()
}

/// The item facts are these.
pub open spec fn same_item(
    found: (usize, Option<(String, bool, usize)>),
    wanted: (nat, Option<(Seq<char>, bool, nat)>),
) -> bool {
    found.0 == wanted.0 && match (found.1, wanted.1) {
        (Some(a), Some(b)) => a.0@ == b.0 && a.1 == b.1 && a.2 == b.2,
        (None, None) => true,
        _ => false,
    }
}

/// The list of item facts is this one.
pub open spec fn same_items(
    found: Seq<(usize, Option<(String, bool, usize)>)>,
    wanted: Seq<(nat, Option<(Seq<char>, bool, nat)>)>,
) -> bool {
    &&& found.len() == wanted.len()
    &&& forall|i: int| 0 <= i < found.len() ==> same_item(#[trigger] found[i], wanted[i])
}

/// Calls `FileReader::schema` and lists, for every field, how many metadata
/// entries it has and, where it is a `LargeList`, the name, the nullability and
/// the number of metadata entries of the item field.
#[verifier::external_body]
fn list_items(reader: &FileReader<Cursor<Arc<[u8]>>>) -> (result: Vec<
    (usize, Option<(String, bool, usize)>),
>)
    ensures
        same_items(result@, schema_items(*reader)),
{
    let schema = reader.schema();
    let item = |data: &DataType| match data {
        DataType::LargeList(i) => Some((i.name().clone(), i.is_nullable(), i.metadata().len())),
        _ => None,
    };
    schema.fields().iter().map(|f| (f.metadata().len(), item(f.data_type()))).collect()
}

/// The schema of a mesh file, as far as it tells one mesh file from another
/// file.
#[derive(Debug)]
pub struct FileSchema {
    pub name: Option<String>,
    pub version: Option<String>,
    pub fields: Vec<(String, ColumnKind, bool)>,
    pub items: Vec<(usize, Option<(String, bool, usize)>)>,
}

/// An optional string holds the map's entry.
pub open spec fn holds_entry(
    found: Option<String>,
    entries: Map<Seq<char>, Seq<char>>,
    key: Seq<char>,
) -> bool {
    match found {
        Some(text) => entries.dom().contains(key) && text@ == entries[key],
        None => !entries.dom().contains(key),
    }
}

impl FileSchema {
    /// The schema says what this metadata and these fields say.
    pub open spec fn describes(
        self,
        metadata: Map<Seq<char>, Seq<char>>,
        fields: Seq<(Seq<char>, ColumnKind, bool)>,
        items: Seq<(nat, Option<(Seq<char>, bool, nat)>)>,
    ) -> bool {
        &&& holds_entry(self.name, metadata, "casocad.schema"@)
        &&& holds_entry(self.version, metadata, "casocad.schema_version"@)
        &&& same_fields(self.fields@, fields)
        &&& same_items(self.items@, items)
    }
}

/// What is said of a batch that the reader skipped.
pub open spec fn missing_batch(index: nat) -> Seq<char> {
    "Arrow batch "@ + decimal(index) + " is missing"@
}

/// What is said of a batch whose block is not sound, or whose columns are of
/// other kinds than the known ones.
pub open spec fn damaged_batch(index: nat) -> Seq<char> {
    "Arrow batch "@ + decimal(index) + " is damaged"@
}

/// The error that an outside error with this text becomes: a mesh held in
/// memory that outgrew its limit is told from other failures.
pub open spec fn is_arrow_failure(error: MeshError, text: Seq<char>) -> bool {
    if holds_text(text, "configured memory mesh cap exceeded"@) {
        error is LimitExceeded && error.text() == "configured memory mesh cap exceeded"@
    } else {
        error matches MeshError::Arrow(message) && message@ == text
    }
}

/// The error comes from outside.
pub open spec fn from_outside(error: MeshError) -> bool {
    exists|text: Seq<char>| is_arrow_failure(error, text)
}

/// The error that an outside error with this text becomes.
pub fn arrow_failure(text: String) -> (result: MeshError)
    ensures
        is_arrow_failure(result, text@),
{
    if contains_text(text.as_str(), "configured memory mesh cap exceeded") {
        MeshError::limit_exceeded("configured memory mesh cap exceeded")
    } else {
        MeshError::Arrow(text)
    }
}

/// What the footer of the file says, where there is one.
pub fn read_footer(bytes: &[u8]) -> (result: Option<FooterParts>)
    ensures
        match result {
            Some(parts) => file_footer(bytes@) == Some(parts@),
            None => file_footer(bytes@) is None,
        },
{
    if bytes.len() < 10 {
        return None;
    }
    let end: usize = bytes.len() - 10;
    let word = slice_subrange(bytes, end + 4, end + 10);
    assert(word@ == bytes@.subrange(end + 4, end + 10));
    if !(word[0] == 65 && word[1] == 82 && word[2] == 82 && word[3] == 79 && word[4] == 87 && word[5]
        == 49 && bytes[end + 3] < 128) {
        assert(word@ == seq![65u8, 82u8, 82u8, 79u8, 87u8, 49u8] ==> word@[0] == 65 && word@[1] == 82
            && word@[2] == 82 && word@[3] == 79 && word@[4] == 87 && word@[5] == 49);
        return None;
    }
    assert(word@ =~= seq![65u8, 82u8, 82u8, 79u8, 87u8, 49u8]);
    let length: u64 = bytes[end] as u64 + 256 * bytes[end + 1] as u64 + 65536 * bytes[end + 2] as u64
        + 16777216 * bytes[end + 3] as u64;
    if length > end as u64 {
        return None;
    }
    match parse_footer(slice_subrange(bytes, end - length as usize, end)) {
        Some((batches, dictionaries, fields)) => Some(FooterParts { batches, dictionaries, fields }),
        None => None,
    }
}

fn is_field_shallow(shape: &(u8, Vec<(u8, usize)>)) -> (result: bool)
    ensures
        result == is_shallow(shape.0, shape.1@),
{
    if shape.0 == UNION_TAG {
        return false;
    }
    let mut j: usize = 0;
    while j < shape.1.len()
        invariant
            j <= shape.1@.len(),
            forall|k: int|
                0 <= k < j ==> (#[trigger] shape.1@[k]).0 != UNION_TAG
                    && shape.1@[k].1 == 0,
        decreases shape.1@.len() - j,
    {
        if shape.1[j].0 == UNION_TAG || shape.1[j].1 != 0 {
            return false;
        }
        j += 1;
    }
    true
}

/// Whether the file can be handed to the reader.
pub fn is_openable(bytes: &[u8]) -> (result: bool)
    ensures
        result == openable(bytes@),
{
    let parts = match read_footer(bytes) {
        Some(parts) => parts,
        None => {
            return true;
        },
    };
    if parts.dictionaries.len() > 0 {
        return false;
    }
    let mut i: usize = 0;
    while i < parts.fields.len()
        invariant
            i <= parts.fields@.len(),
            file_footer(bytes@) == Some(parts@),
            parts.dictionaries@.len() == 0,
            forall|k: int| 0 <= k < i ==> is_shallow((#[trigger] parts@.2[k]).0, parts@.2[k].1),
        decreases parts.fields@.len() - i,
    {
        if !is_field_shallow(&parts.fields[i]) {
            assert(!is_shallow(parts@.2[i as int].0, parts@.2[i as int].1));
            return false;
        }
        i += 1;
    }
    true
}

fn field_kinds(fields: &Vec<(String, ColumnKind, bool)>) -> (result: Vec<ColumnKind>)
    ensures
        result@ == Seq::new(fields@.len(), |i: int| fields@[i].1),
{
    let mut kinds: Vec<ColumnKind> = Vec::new();
    let mut i: usize = 0;
    while i < fields.len()
        invariant
            i <= fields@.len(),
            kinds@ == Seq::new(i as nat, |k: int| fields@[k].1),
        decreases fields@.len() - i,
    {
        kinds.push(fields[i].1);
        i += 1;
    }
    kinds
}

fn list_units(kinds: &Vec<ColumnKind>) -> (result: Vec<u64>)
    ensures
        result@ == batch_units(kinds@),
{
    let mut units: Vec<u64> = Vec::new();
    let mut i: usize = 0;
    while i < kinds.len()
        invariant
            i <= kinds@.len(),
            units@ == batch_units(kinds@.take(i as int)),
        decreases kinds@.len() - i,
    {
        let mut more: Vec<u64> = match kinds[i] {
            ColumnKind::Text => vec![1u64, 4u64, 1u64],
            ColumnKind::U64List => vec![1u64, 8u64, 1u64, 1u64],
            ColumnKind::TextList => vec![1u64, 8u64, 1u64, 4u64, 1u64],
            ColumnKind::Other => Vec::new(),
            _ => vec![1u64, 1u64],
        };
        assert(more@ =~= column_units(kinds@[i as int]));
        assert(kinds@.take(i + 1).drop_last() =~= kinds@.take(i as int));
        units.append(&mut more);
        i += 1;
    }
    assert(kinds@.take(i as int) =~= kinds@);
    units
}

proof fn units_positive(kinds: Seq<ColumnKind>)
    ensures
        forall|i: int| 0 <= i < batch_units(kinds).len() ==> #[trigger] batch_units(kinds)[i] > 0,
    decreases kinds.len(),
{
    if kinds.len() > 0 {
        units_positive(kinds.drop_last());
        let head = batch_units(kinds.drop_last());
        let tail = column_units(kinds.last());
        assert forall|i: int| 0 <= i < batch_units(kinds).len() implies #[trigger] batch_units(
            kinds,
        )[i] > 0 by {
            if i < head.len() {
                assert(batch_units(kinds)[i] == head[i]);
            } else {
                assert(batch_units(kinds)[i] == tail[i - head.len()]);
            }
        }
    }
}

fn do_buffers_fit(buffers: &Vec<(i64, i64)>, units: &Vec<u64>, body: u64) -> (result: bool)
    requires
        forall|i: int| 0 <= i < units@.len() ==> #[trigger] units@[i] > 0,
    ensures
        result == buffers_fit(buffers@, units@, body as int),
{
    let mut i: usize = 0;
    while i < buffers.len() && i < units.len()
        invariant
            i <= buffers@.len(),
            i <= units@.len(),
            forall|i: int| 0 <= i < units@.len() ==> #[trigger] units@[i] > 0,
            forall|k: int|
                0 <= k < i ==> buffer_fits(#[trigger] buffers@[k], units@[k], body as int),
        decreases buffers@.len() - i,
    {
        let buffer = buffers[i];
        let unit: u64 = units[i];
        if buffer.0 < 0 || buffer.1 < 0 || buffer.0 as u64 > body || buffer.1 as u64 > body
            - buffer.0 as u64 || buffer.1 as u64 % unit != 0 {
            assert(!buffer_fits(buffers@[i as int], units@[i as int], body as int));
            return false;
        }
        i += 1;
    }
    true
}

fn is_block_sound(bytes: &[u8], place: BlockPlace, kinds: &Vec<ColumnKind>) -> (result: bool)
    ensures
        result == block_sound(bytes@, place, kinds@),
{
    if place.offset < 0 || place.message < 0 || place.body < 0 {
        return false;
    }
    let total: u64 = bytes.len() as u64;
    let offset: u64 = place.offset as u64;
    let length: u64 = place.message as u64 + place.body as u64;
    if offset > total || length > total - offset || length < 4 {
        return false;
    }
    let block = slice_subrange(bytes, offset as usize, (offset + length) as usize);
    assert(block@ == bytes@.subrange(
        place.offset as int,
        place.offset + place.message + place.body,
    ));
    let marked = block[0] == 255 && block[1] == 255 && block[2] == 255 && block[3] == 255;
    proof {
        let head = block@.subrange(0, 4);
        let marker = seq![255u8, 255u8, 255u8, 255u8];
        if marked {
            assert(head =~= marker);
        } else {
            assert(head[0] == block@[0] && head[1] == block@[1] && head[2] == block@[2] && head[3]
                == block@[3]);
            assert(head == marker ==> head[0] == 255 && head[1] == 255 && head[2] == 255 && head[3]
                == 255);
        }
    }
    let start: usize = if marked {
        8
    } else {
        4
    };
    assert(start == message_start(block@));
    if start > block.len() {
        return false;
    }
    match parse_message(slice_subrange(block, start, block.len())) {
        Some(buffers) => {
            proof {
                units_positive(kinds@);
            }
            do_buffers_fit(&buffers, &list_units(kinds), place.body as u64)
        },
        None => true,
    }
}

/// Whether the batch of that index can be handed to the reader.
pub fn is_batch_sound(bytes: &[u8], index: usize, kinds: &Vec<ColumnKind>) -> (result: bool)
    ensures
        result == batch_sound(bytes@, index as nat, kinds@),
{
    let mut i: usize = 0;
    while i < kinds.len()
        invariant
            i <= kinds@.len(),
            forall|k: int| 0 <= k < i ==> kinds@[k] != ColumnKind::Other,
        decreases kinds@.len() - i,
    {
        if kinds[i] == ColumnKind::Other {
            assert(kinds@.contains(kinds@[i as int]));
            return false;
        }
        i += 1;
    }
    match read_footer(bytes) {
        Some(parts) => index < parts.batches.len() && is_block_sound(
            bytes,
            parts.batches[index],
            kinds,
        ),
        None => false,
    }
}

/// An Arrow IPC file open for reading.
pub struct MeshReadSession {
    reader: FileReader<Cursor<Arc<[u8]>>>,
}

impl MeshReadSession {
    /// The batches of the file.
    pub closed spec fn batches(self) -> Seq<Batch> {
        stored_batches(self.reader)
    }

    /// The metadata of the file's schema.
    pub closed spec fn metadata(self) -> Map<Seq<char>, Seq<char>> {
        schema_metadata(self.reader)
    }

    /// The fields of the file's schema.
    pub closed spec fn fields(self) -> Seq<(Seq<char>, ColumnKind, bool)> {
        schema_fields(self.reader)
    }

    /// What the file's schema says of its fields beside that.
    pub closed spec fn items(self) -> Seq<(nat, Option<(Seq<char>, bool, nat)>)> {
        schema_items(self.reader)
    }

    /// The bytes of the file.
    pub closed spec fn source(self) -> Seq<u8> {
        reader_bytes(self.reader)
    }

    /// The batches that the reader cannot read.
    pub closed spec fn faults(self) -> Map<nat, Option<Seq<char>>> {
        batch_faults(self.reader)
    }

    /// The two sessions are on the same file, and read the same of it.
    pub open spec fn same_file(self, other: MeshReadSession) -> bool {
        &&& self.batches() == other.batches()
        &&& self.faults() == other.faults()
        &&& self.metadata() == other.metadata()
        &&& self.fields() == other.fields()
        &&& self.items() == other.items()
        &&& self.source() == other.source()
    }

    /// The batch of that index can be read: it is there, its block is sound, and
    /// the reader has no fault to find with it.
    pub open spec fn readable(self, index: int) -> bool {
        &&& 0 <= index < self.batches().len()
        &&& batch_sound(self.source(), index as nat, kinds_of(self.fields()))
        &&& !self.faults().dom().contains(index as nat)
    }

    /// The error with which reading the batch of that index ends: there is none,
    /// its block is not sound, or the reader's own fault.
    pub open spec fn read_refused(self, index: int, error: MeshError) -> bool {
        &&& !self.readable(index)
        &&& if index >= self.batches().len() {
            is_arrow_failure(error, no_such_batch(index as nat, self.batches().len()))
        } else if !batch_sound(self.source(), index as nat, kinds_of(self.fields())) {
            is_arrow_failure(error, damaged_batch(index as nat))
        } else {
            match self.faults()[index as nat] {
                Some(text) => is_arrow_failure(error, text),
                None => error is InvalidFile && error.text() == missing_batch(index as nat),
            }
        }
    }

    /// The session reads the file that these bytes are.
    pub open spec fn reads(self, bytes: Seq<u8>) -> bool {
        &&& self.batches() == ipc_batches(bytes)
        &&& self.metadata() == ipc_metadata(bytes)
        &&& self.fields() == ipc_fields(bytes)
        &&& self.items() == ipc_items(bytes)
        &&& self.source() == bytes
    }

    /// A session on the file that these bytes are. A file whose footer lists
    /// dictionaries, or a field that is not shallow, is refused; of the others
    /// the outside reader decides. A mesh file has neither: the fields of its
    /// schema are shallow, and the outside reader too fails on a dictionary that
    /// no field uses.
    pub fn memory(bytes: Arc<[u8]>) -> (result: MeshResult<MeshReadSession>)
        ensures
            !openable(bytes@) ==> (result matches Err(error) && is_arrow_failure(
                error,
                "Arrow file holds dictionaries or nested columns"@,
            )),
            match result {
                Ok(session) => session.reads(bytes@),
                Err(error) => from_outside(error),
            },
    {
        if !is_openable(&bytes) {
            return Err(arrow_failure("Arrow file holds dictionaries or nested columns".to_owned()));
        }
        match open_reader(bytes) {
            Ok(reader) => Ok(MeshReadSession { reader }),
            Err(text) => Err(arrow_failure(text)),
        }
    }

    pub fn schema(&self) -> (result: FileSchema)
        ensures
            result.describes(self.metadata(), self.fields(), self.items()),
    {
        FileSchema {
            name: metadata_entry(&self.reader, "casocad.schema"),
            version: metadata_entry(&self.reader, "casocad.schema_version"),
            fields: list_fields(&self.reader),
            items: list_items(&self.reader),
        }
    }

    pub fn num_batches(&self) -> (result: usize)
        ensures
            result == self.batches().len(),
    {
        batch_count(&self.reader)
    }

    /// The batch of that index, exactly where it can be read.
    pub fn read_batch(&mut self, index: usize) -> (result: MeshResult<Batch>)
        ensures
            final(self).same_file(*old(self)),
            result is Ok <==> old(self).readable(index as int),
            match result {
                Ok(batch) => batch == old(self).batches()[index as int],
                Err(error) => old(self).read_refused(index as int, error),
            },
    {
        match seek_batch(&mut self.reader, index) {
            Ok(_) => {},
            Err(text) => {
                return Err(arrow_failure(text));
            },
        }
        let kinds = field_kinds(&list_fields(&self.reader));
        assert(kinds@ =~= kinds_of(self.fields()));
        if !is_batch_sound(held_bytes(&self.reader), index, &kinds) {
            return Err(arrow_failure(sentence("Arrow batch ", index as u64, " is damaged")));
        }
        match next_batch(&mut self.reader) {
            Some(Ok(batch)) => Ok(batch),
            Some(Err(text)) => Err(arrow_failure(text)),
            None => Err(MeshError::InvalidFile(sentence("Arrow batch ", index as u64, " is missing"))),
        }
    }
}

} // verus!
