//! Reading, auditing and exporting mesh files written with the Arrow writer.

use std::collections::HashMap;
use std::sync::Arc;

use arrow_array::builder::{
    LargeListBuilder, StringBuilder, StringDictionaryBuilder, UInt64Builder,
};
use arrow_array::types::Int32Type;
use arrow_array::{
    new_null_array, Array, ArrayRef, BooleanArray, Float64Array, Int8Array, RecordBatch, StringArray, UInt32Array,
    UInt64Array,
};
use arrow_ipc::writer::FileWriter;
use arrow_schema::{DataType, Field, Schema};

use caso_meshing::algorithm::JobControl;
use caso_meshing::checks::mesh_schema;
use caso_meshing::convert::{
    converter, converters, su2_text, su2_text_from, write_from, write_to, write_to_from,
};
use caso_meshing::error::MeshError;
use caso_meshing::file::{manifest_from, manifest_text, MeshFile, MeshStorageKind};
use caso_meshing::lod::LodMeasure;
use caso_meshing::number::Real;
use caso_meshing::schema::{BatchRange, Bounds3, MeshCounts, MeshManifest, RowKind};
use caso_meshing::session::{
    arrow_failure, is_openable, read_footer, BlockPlace, ColumnKind, MeshReadSession,
};
use caso_meshing::sorted::SortedSet;

fn num(value: f64) -> Real {
    Real { bits: value.to_bits() }
}

fn data_type(kind: ColumnKind) -> DataType {
    match kind {
        ColumnKind::Text => DataType::Utf8,
        ColumnKind::U32 => DataType::UInt32,
        ColumnKind::U64 => DataType::UInt64,
        ColumnKind::F64 => DataType::Float64,
        ColumnKind::Bool => DataType::Boolean,
        ColumnKind::U64List => {
            DataType::LargeList(Arc::new(Field::new("item", DataType::UInt64, true)))
        }
        ColumnKind::TextList => {
            DataType::LargeList(Arc::new(Field::new("item", DataType::Utf8, true)))
        }
        ColumnKind::Other => DataType::Int8,
    }
}

fn schema(version: &str) -> Arc<Schema> {
    let fields: Vec<Field> = mesh_schema()
        .into_iter()
        .map(|(name, kind, nullable)| Field::new(name, data_type(kind), nullable))
        .collect();
    let mut metadata = HashMap::new();
    metadata.insert("casocad.schema".to_string(), "casocad.mesh".to_string());
    metadata.insert("casocad.schema_version".to_string(), version.to_string());
    Arc::new(Schema::new_with_metadata(fields, metadata))
}

fn batch(kind: &str, rows: usize, columns: Vec<(&str, ArrayRef)>) -> RecordBatch {
    let schema = schema("3");
    let mut arrays: Vec<ArrayRef> = Vec::new();
    for field in schema.fields() {
        let given = columns.iter().find(|(name, _)| name == field.name());
        arrays.push(match given {
            Some((_, array)) => array.clone(),
            None if field.name() == "row_kind" => Arc::new(StringArray::from(vec![kind; rows])),
            None => new_null_array(field.data_type(), rows),
        });
    }
    RecordBatch::try_new(schema, arrays).unwrap()
}

fn u64s(values: Vec<u64>) -> ArrayRef {
    Arc::new(UInt64Array::from(values))
}

fn f64s(values: Vec<f64>) -> ArrayRef {
    Arc::new(Float64Array::from(values))
}

fn texts(values: Vec<&str>) -> ArrayRef {
    Arc::new(StringArray::from(values))
}

fn lists(values: Vec<Vec<u64>>) -> ArrayRef {
    let mut builder = LargeListBuilder::new(UInt64Builder::new());
    for list in values {
        for value in list {
            builder.values().append_value(value);
        }
        builder.append(true);
    }
    Arc::new(builder.finish())
}

fn text_lists(values: Vec<Vec<&str>>) -> ArrayRef {
    let mut builder = LargeListBuilder::new(StringBuilder::new());
    for list in values {
        for value in list {
            builder.values().append_value(value);
        }
        builder.append(true);
    }
    Arc::new(builder.finish())
}

fn box_columns(rows: usize) -> Vec<(&'static str, ArrayRef)> {
    vec![
        ("x_min", f64s(vec![0.0; rows])),
        ("x_max", f64s(vec![1.0; rows])),
        ("y_min", f64s(vec![0.0; rows])),
        ("y_max", f64s(vec![1.0; rows])),
        ("z_min", f64s(vec![0.0; rows])),
        ("z_max", f64s(vec![0.0; rows])),
    ]
}

fn catalog_batch() -> RecordBatch {
    batch(
        "catalog",
        2,
        vec![
            ("entity_id", u64s(vec![5, 9])),
            ("catalog_kind", texts(vec!["tag", "zone"])),
            ("name", texts(vec!["wall", "fluid"])),
            ("source_object_id", Arc::new(UInt64Array::from(vec![None, Some(42)]))),
        ],
    )
}

fn point_batch(ids: Vec<u64>) -> RecordBatch {
    batch(
        "point",
        4,
        vec![
            ("entity_id", u64s(ids)),
            ("owner_chunk_id", u64s(vec![7; 4])),
            ("ghost", Arc::new(BooleanArray::from(vec![false; 4]))),
            ("x", f64s(vec![0.0, 1.0, 1.0, 0.0])),
            ("y", f64s(vec![0.0, 0.0, 1.0, 1.0])),
            ("z", f64s(vec![0.0; 4])),
        ],
    )
}

fn edge_batch() -> RecordBatch {
    batch(
        "edge",
        4,
        vec![
            ("entity_id", u64s(vec![11, 12, 13, 14])),
            ("element_type", texts(vec!["edge2"; 4])),
            ("point_ids", lists(vec![vec![1, 2], vec![2, 3], vec![3, 4], vec![4, 1]])),
            ("boundary", Arc::new(BooleanArray::from(vec![true; 4]))),
            ("tag_ids", lists(vec![vec![5], vec![6], vec![6], vec![]])),
        ],
    )
}

fn cell_batch(points: Vec<Vec<u64>>, kind: &str) -> RecordBatch {
    let rows = points.len();
    batch(
        "cell",
        rows,
        vec![
            ("entity_id", u64s((21..21 + rows as u64).collect())),
            ("element_type", texts(vec![kind; rows])),
            ("point_ids", lists(points)),
        ],
    )
}

fn spatial_batch(children: Vec<u64>) -> RecordBatch {
    let mut columns = vec![
        ("entity_id", u64s(vec![100])),
        ("child_ids", lists(vec![children])),
        ("chunk_ids", lists(vec![vec![7]])),
        ("level", Arc::new(UInt32Array::from(vec![0])) as ArrayRef),
    ];
    columns.extend(box_columns(1));
    batch("spatial_node", 1, columns)
}

fn directory_batch(kinds: Vec<&str>, rows: Vec<u64>) -> RecordBatch {
    let count = kinds.len();
    let mut columns = vec![
        ("batch_index", u64s((0..count as u64).collect())),
        ("kind", texts(kinds)),
        ("spatial_node_id", u64s(vec![100; count])),
        ("rows", u64s(rows)),
        ("decoded_bytes", u64s(vec![64; count])),
        ("element_types", text_lists(vec![vec!["tri3"]; count])),
    ];
    columns.extend(box_columns(count));
    batch("batch_directory", count, columns)
}

fn manifest_batch(text: &str) -> RecordBatch {
    batch("manifest", 1, vec![("metadata", texts(vec![text]))])
}

fn manifest() -> MeshManifest {
    MeshManifest {
        schema_name: "casocad.mesh".to_string(),
        schema_version: 3,
        dimension: 2,
        coordinate_system: "world_cartesian_meters".to_string(),
        bounds: Bounds3 {
            min: [num(0.0), num(0.0), num(0.0)],
            max: [num(1.0), num(1.0), num(0.0)],
        },
        catalog_batches: BatchRange { start: 0, end: 1 },
        exact_batches: BatchRange { start: 1, end: 4 },
        preview_batches: BatchRange { start: 4, end: 4 },
        spatial_batches: BatchRange { start: 4, end: 5 },
        directory_batches: BatchRange { start: 5, end: 6 },
        spatial_root: 100,
        counts: MeshCounts { points: 4, edges: 4, faces: 0, cells: 2, spatial_nodes: 1 },
    }
}

fn triangles() -> Vec<Vec<u64>> {
    vec![vec![1, 2, 3], vec![1, 3, 4]]
}

fn mesh_batches() -> Vec<RecordBatch> {
    vec![
        catalog_batch(),
        point_batch(vec![1, 2, 3, 4]),
        edge_batch(),
        cell_batch(triangles(), "tri3"),
        spatial_batch(vec![]),
        directory_batch(
            vec!["catalog", "point", "edge", "cell", "spatial_node"],
            vec![2, 4, 4, 2, 1],
        ),
        manifest_batch("{}"),
    ]
}

fn write_file(version: &str, batches: &[RecordBatch]) -> Arc<[u8]> {
    let mut bytes: Vec<u8> = Vec::new();
    let schema = schema(version);
    let mut writer = FileWriter::try_new(&mut bytes, &schema).unwrap();
    for batch in batches {
        let batch = RecordBatch::try_new(schema.clone(), batch.columns().to_vec()).unwrap();
        writer.write(&batch).unwrap();
    }
    writer.finish().unwrap();
    drop(writer);
    bytes.into()
}

fn mesh_bytes() -> Arc<[u8]> {
    write_file("3", &mesh_batches())
}

fn refusal(bytes: Arc<[u8]>, manifest: MeshManifest) -> String {
    match MeshFile::from_memory(bytes, manifest) {
        Ok(_) => panic!("the file was accepted"),
        Err(error) => error.message(),
    }
}

fn refusal_with(place: usize, changed: RecordBatch) -> String {
    let mut batches = mesh_batches();
    batches[place] = changed;
    refusal(write_file("3", &batches), manifest())
}

#[test]
fn a_written_mesh_opens_with_what_was_written() {
    let bytes = mesh_bytes();
    assert_eq!(manifest_text(bytes.clone()).unwrap(), "{}");
    let file = MeshFile::from_memory(bytes.clone(), manifest()).unwrap();
    assert_eq!(file.storage_kind(), MeshStorageKind::Memory);
    assert!(file.source_path().is_none());
    assert_eq!(file.memory_bytes().unwrap(), &bytes[..]);
    assert_eq!(file.bytes(), &bytes[..]);
    assert_eq!(file.catalog_name("tag", 5), Some("wall"));
    assert_eq!(file.catalog_name("tag", 9), None);
    assert_eq!(file.catalog_source_object("zone", 9), Some(42));
    assert_eq!(file.catalog_source_object("tag", 5), None);
    assert_eq!(file.leaves(), vec![100]);
    let cells = file.tile_batches(100, RowKind::Cell);
    assert_eq!(cells.len(), 1);
    assert_eq!(cells[0].batch_index, 3);
    assert_eq!(cells[0].rows, 2);
    assert_eq!(cells[0].element_types, vec!["tri3".to_string()]);
    assert!(file.tile_batches(101, RowKind::Cell).is_empty());
    assert_eq!(file.entity_batches(RowKind::Edge).len(), 1);
    let view = file.batch_view(1).unwrap();
    assert_eq!(view.row_kind(), RowKind::Point);
    assert_eq!(view.len(), 4);
    assert!(!view.is_empty());
    assert_eq!(view.directory_entry().batch_index, 1);
    let xs = view.record_batch().f64s("x").unwrap();
    assert_eq!(xs[1], (false, 1.0f64.to_bits()));
    let points = file.batch_view(3).unwrap().record_batch().lists("point_ids").unwrap();
    assert_eq!(points[1], Some(vec![1, 3, 4]));
    assert_eq!(
        file.batch_view(6).unwrap_err().message(),
        "batch 6 is not present in the v3 directory"
    );
}

#[test]
fn a_native_mesh_keeps_its_path() {
    let file = MeshFile::open_native("part.arrow", mesh_bytes(), manifest()).unwrap();
    assert_eq!(file.storage_kind(), MeshStorageKind::NativeFile);
    assert_eq!(file.source_path(), Some("part.arrow"));
    assert!(file.memory_bytes().is_none());
    assert!(MeshFile::from_wasm_bytes(mesh_bytes(), manifest()).is_ok());
}

#[test]
fn a_session_reads_batches_by_index() {
    let mut session = MeshReadSession::memory(mesh_bytes()).unwrap();
    assert_eq!(session.num_batches(), 7);
    assert_eq!(session.read_batch(3).unwrap().u64s("entity_id").unwrap().len(), 2);
    assert_eq!(session.read_batch(0).unwrap().u64s("entity_id").unwrap().len(), 2);
    assert_eq!(
        session.read_batch(7).err().unwrap().message(),
        "Arrow IPC error: Invalid argument error: Cannot set batch to index 7 from 7 total batches"
    );
    let schema = session.schema();
    assert_eq!(schema.version, Some("3".to_string()));
    assert_eq!(schema.fields.len(), 32);
    assert_eq!(schema.fields[8], ("point_ids".to_string(), ColumnKind::U64List, true));
    assert_eq!(schema.fields[30], ("element_types".to_string(), ColumnKind::TextList, true));
    let noise: Arc<[u8]> = vec![1u8, 2, 3].into();
    assert!(matches!(MeshReadSession::memory(noise), Err(MeshError::Arrow(_))));
}

#[test]
fn an_outgrown_memory_limit_is_told_apart() {
    let capped = arrow_failure("External: configured memory mesh cap exceeded (8)".to_string());
    assert!(matches!(capped, MeshError::LimitExceeded(_)));
    assert_eq!(capped.message(), "configured memory mesh cap exceeded");
    let other = arrow_failure("Ipc error: short".to_string());
    assert_eq!(other.message(), "Arrow IPC error: Ipc error: short");
}

#[test]
fn files_of_another_schema_are_refused() {
    let bytes = write_file("4", &mesh_batches());
    assert!(matches!(
        MeshFile::from_memory(bytes, manifest()),
        Err(MeshError::UnsupportedFileVersion(4))
    ));
    let bytes = write_file("new", &mesh_batches());
    assert!(matches!(
        MeshFile::from_memory(bytes, manifest()),
        Err(MeshError::UnsupportedFileVersion(0))
    ));
    let few = write_file("3", &mesh_batches()[..4]);
    assert_eq!(refusal(few, manifest()), "Arrow v3 mesh is missing required batch sections");
}

#[test]
fn an_unfit_manifest_is_refused() {
    let mut other = manifest();
    other.dimension = 4;
    assert_eq!(
        refusal(mesh_bytes(), other),
        "manifest schema identity, dimension, coordinates, or bounds are invalid"
    );
    let mut other = manifest();
    other.exact_batches.end = 3;
    assert_eq!(
        refusal(mesh_bytes(), other),
        "manifest batch ranges are not ordered, complete, and non-overlapping"
    );
    let mut batches = mesh_batches();
    batches[6] = batch("manifest", 1, vec![]);
    assert_eq!(refusal(write_file("3", &batches), manifest()), "manifest metadata is missing");
    batches[6] = cell_batch(triangles(), "tri3");
    assert_eq!(
        refusal(write_file("3", &batches), manifest()),
        "the final Arrow batch must be one manifest row"
    );
}

#[test]
fn an_unfit_directory_is_refused() {
    assert_eq!(
        refusal_with(5, directory_batch(vec!["catalog", "point"], vec![2, 4])),
        "directory has 2 rows for 5 indexed batches"
    );
    let kinds = vec!["catalog", "point", "edge", "mesh", "spatial_node"];
    assert_eq!(
        refusal_with(5, directory_batch(kinds, vec![2, 4, 4, 2, 1])),
        "directory contains an unknown row kind"
    );
    let kinds = vec!["catalog", "point", "edge", "cell", "spatial_node"];
    assert_eq!(
        refusal_with(5, directory_batch(kinds, vec![2, 4, 0, 2, 1])),
        "directory batch index, row count, or decoded size is invalid"
    );
    let kinds = vec!["point", "point", "edge", "cell", "spatial_node"];
    assert_eq!(
        refusal_with(5, directory_batch(kinds, vec![2, 4, 4, 2, 1])),
        "directory row kind disagrees with manifest ranges"
    );
    assert_eq!(
        refusal_with(5, catalog_batch()),
        "directory range contains a non-directory batch"
    );
}

#[test]
fn an_unfit_catalog_or_tree_is_refused() {
    assert_eq!(
        refusal_with(0, spatial_batch(vec![])),
        "catalog range contains a non-catalog batch"
    );
    let twice = batch(
        "catalog",
        2,
        vec![
            ("entity_id", u64s(vec![5, 5])),
            ("catalog_kind", texts(vec!["tag", "tag"])),
            ("name", texts(vec!["wall", "inlet"])),
        ],
    );
    assert_eq!(refusal_with(0, twice), "catalog IDs must be unique within each kind");
    assert_eq!(
        refusal_with(4, catalog_batch()),
        "spatial range contains a non-spatial batch"
    );
    assert_eq!(
        refusal_with(4, spatial_batch(vec![101])),
        "spatial node bounds or leaf payload is invalid"
    );
    let mut other = manifest();
    other.spatial_root = 99;
    assert_eq!(refusal(mesh_bytes(), other), "spatial tree count or root is invalid");
}

fn audit_refusal(place: usize, changed: RecordBatch) -> String {
    let mut batches = mesh_batches();
    batches[place] = changed;
    let file = MeshFile::from_memory(write_file("3", &batches), manifest()).unwrap();
    file.full_audit(&JobControl::new()).unwrap_err().message()
}

#[test]
fn an_audit_counts_a_sound_mesh() {
    let file = MeshFile::from_memory(mesh_bytes(), manifest()).unwrap();
    let report = file.full_audit(&JobControl::new()).unwrap();
    assert_eq!(report.exact_batches, 3);
    assert_eq!(report.entities, 10);
    let control = JobControl::new();
    control.cancel();
    assert!(matches!(file.full_audit(&control), Err(MeshError::Cancelled)));
}

#[test]
fn an_audit_finds_faults() {
    assert_eq!(
        audit_refusal(1, point_batch(vec![1, 2, 3, 3])),
        "point 3 has duplicate owner rows"
    );
    assert_eq!(
        audit_refusal(1, point_batch(vec![1, 2, 3, 11])),
        "entity ID 11 is not globally unique"
    );
    assert_eq!(
        audit_refusal(3, cell_batch(vec![vec![1, 2, 3], vec![1, 3, 8]], "tri3")),
        "entity 22 references a point absent from its exact chunk"
    );
    assert_eq!(
        audit_refusal(3, cell_batch(triangles(), "quad4")),
        "quad4 row has invalid arity 3"
    );
    assert_eq!(
        audit_refusal(3, cell_batch(vec![vec![1, 2, 3]], "tri3")),
        "decoded batch 3 disagrees with its directory row"
    );
    let mut other = manifest();
    other.counts.cells = 3;
    let file = MeshFile::from_memory(mesh_bytes(), other).unwrap();
    assert_eq!(
        file.full_audit(&JobControl::new()).unwrap_err().message(),
        "full audit counts MeshCounts { points: 4, edges: 4, faces: 0, cells: 2, \
         spatial_nodes: 0 } disagree with manifest MeshCounts { points: 4, edges: 4, faces: 0, \
         cells: 3, spatial_nodes: 1 }"
    );
}

#[test]
fn leaves_are_found_by_box_distance_and_view() {
    let file = MeshFile::from_memory(mesh_bytes(), manifest()).unwrap();
    let near = Bounds3 {
        min: [num(0.5), num(0.5), num(-1.0)],
        max: [num(2.0), num(2.0), num(1.0)],
    };
    assert_eq!(file.candidate_leaf_tiles(near).items, vec![100]);
    let far = Bounds3 {
        min: [num(5.0), num(0.5), num(-1.0)],
        max: [num(6.0), num(2.0), num(1.0)],
    };
    assert!(file.candidate_leaf_tiles(far).items.is_empty());
    let distances = vec![(num(0.25), num(1.0))];
    assert_eq!(file.nearest_leaf_nodes(&distances, 4), vec![100]);
    assert!(file.nearest_leaf_nodes(&distances, 0).is_empty());
    let mut refined = SortedSet::<u64>::new();
    let hidden = vec![LodMeasure::Hidden];
    assert!(file.select_lod_nodes(&hidden, &mut refined).is_empty());
}

#[test]
fn a_mesh_exports_to_su2() {
    let file = MeshFile::from_memory(mesh_bytes(), manifest()).unwrap();
    let bytes = write_to("su2", &file).unwrap();
    let text = String::from_utf8(bytes).unwrap();
    let expected = format!(
        "NDIME= 2\nNPOIN= 4\n{z} {z} 0\n{o} {z} 1\n{o} {o} 2\n{z} {o} 3\nNELEM= 2\n5 0 1 2 0\n\
         5 0 2 3 1\nNMARK= 3\nMARKER_TAG= boundary\nMARKER_ELEMS= 1\n3 3 0\n\
         MARKER_TAG= wall\nMARKER_ELEMS= 1\n3 0 1\nMARKER_TAG= boundary\nMARKER_ELEMS= 2\n\
         3 1 2\n3 2 3\n",
        z = format!("{:.17e}", 0.0f64),
        o = format!("{:.17e}", 1.0f64),
    );
    assert_eq!(text, expected);
    assert_eq!(
        write_to("stl", &file).unwrap_err().message(),
        "unknown mesh converter \"stl\""
    );
    assert_eq!(converters().len(), 1);
    assert_eq!(converter("su2").unwrap().extension, "su2");
    assert!(converter("stl").is_none());
}

fn export_refusal(place: usize, changed: RecordBatch) -> String {
    let mut batches = mesh_batches();
    batches[place] = changed;
    let file = MeshFile::from_memory(write_file("3", &batches), manifest()).unwrap();
    write_to("su2", &file).unwrap_err().message()
}

#[test]
fn an_export_finds_faults() {
    assert_eq!(
        export_refusal(1, point_batch(vec![1, 2, 3, 3])),
        "point 3 has more than one owner row"
    );
    assert_eq!(
        export_refusal(3, cell_batch(vec![vec![1, 2, 3], vec![1, 3, 8]], "tri3")),
        "element references missing point 8"
    );
    assert_eq!(
        export_refusal(3, cell_batch(triangles(), "polygon")),
        "SU2 export does not support \"polygon\""
    );
    assert_eq!(
        export_refusal(1, point_batch(vec![8, 2, 3, 1])),
        "element references missing point 4"
    );
}

fn place_bytes(place: BlockPlace) -> Vec<u8> {
    let mut bytes = place.offset.to_le_bytes().to_vec();
    bytes.extend(place.message.to_le_bytes());
    bytes.extend([0u8; 4]);
    bytes.extend(place.body.to_le_bytes());
    bytes
}

/// The mesh file with the footer's entry for one batch changed.
fn with_block(index: usize, change: fn(BlockPlace) -> BlockPlace) -> Arc<[u8]> {
    let mut bytes = mesh_bytes().to_vec();
    let place = read_footer(&bytes).unwrap().batches[index];
    let old = place_bytes(place);
    let at = (0..bytes.len() - old.len())
        .rev()
        .find(|at| bytes[*at..*at + old.len()] == old[..])
        .expect("the footer lists the block");
    bytes[at..at + old.len()].copy_from_slice(&place_bytes(change(place)));
    bytes.into()
}

fn damage(bytes: Arc<[u8]>, index: usize) -> String {
    let mut session = MeshReadSession::memory(bytes).unwrap();
    match session.read_batch(index) {
        Ok(_) => panic!("the batch was read"),
        Err(error) => error.message(),
    }
}

#[test]
fn damaged_blocks_are_refused() {
    let sound = with_block(1, |place| place);
    assert!(MeshReadSession::memory(sound).unwrap().read_batch(1).is_ok());
    let wanted = "Arrow IPC error: Arrow batch 1 is damaged";
    assert_eq!(damage(with_block(1, |p| BlockPlace { body: -1, ..p }), 1), wanted);
    assert_eq!(damage(with_block(1, |p| BlockPlace { message: -8, ..p }), 1), wanted);
    assert_eq!(damage(with_block(1, |p| BlockPlace { offset: -1, ..p }), 1), wanted);
    assert_eq!(damage(with_block(1, |p| BlockPlace { offset: 1 << 40, ..p }), 1), wanted);
    assert_eq!(damage(with_block(1, |p| BlockPlace { body: i64::MAX, ..p }), 1), wanted);
    assert_eq!(damage(with_block(1, |p| BlockPlace { message: 1, body: 2, ..p }), 1), wanted);
    assert_eq!(damage(with_block(1, |p| BlockPlace { message: 4, body: 2, ..p }), 1), wanted);
    assert_eq!(damage(with_block(1, |p| BlockPlace { body: 8, ..p }), 1), wanted);
    let broken = with_block(1, |p| BlockPlace { body: 8, ..p });
    let file = MeshFile::from_memory(broken, manifest()).unwrap();
    assert_eq!(file.batch_view(1).unwrap_err().message(), wanted);
    assert!(file.batch_view(2).is_ok());
}

#[test]
fn buffers_outside_the_body_are_refused() {
    let mut bytes = mesh_bytes().to_vec();
    let place = read_footer(&bytes).unwrap().batches[1];
    let start = place.offset as usize;
    let mut odd = bytes.clone();
    let head = &bytes[start..start + place.message as usize];
    let offsets = (0..head.len() - 16).find(|at| {
        let offset = i64::from_le_bytes(head[*at..*at + 8].try_into().unwrap());
        let length = i64::from_le_bytes(head[*at + 8..*at + 16].try_into().unwrap());
        length == 20 && offset >= 0 && offset < place.body
    });
    let at = start + offsets.expect("the offsets of four texts take twenty bytes");
    odd[at + 8] = 21;
    let wanted = "Arrow IPC error: Arrow batch 1 is damaged";
    assert_eq!(damage(odd.into(), 1), wanted);
    bytes[at..at + 8].copy_from_slice(&(place.body - 8).to_le_bytes());
    assert_eq!(damage(bytes.clone().into(), 1), wanted);
    bytes[at..at + 8].copy_from_slice(&(-8i64).to_le_bytes());
    assert_eq!(damage(bytes.into(), 1), wanted);
}

#[test]
fn one_session_opens_views_audits_and_exports() {
    let bytes = mesh_bytes();
    let mut session = MeshReadSession::memory(bytes.clone()).unwrap();
    assert_eq!(manifest_from(&mut session).unwrap(), manifest_text(bytes.clone()).unwrap());
    let file = MeshFile::open_from(&mut session, None, bytes, manifest()).unwrap();
    assert!(file.source_path().is_none());
    let view = file.view_from(&mut session, 3).unwrap();
    assert_eq!(view.row_kind(), RowKind::Cell);
    assert_eq!(view.len(), 2);
    assert_eq!(
        file.view_from(&mut session, 5).unwrap_err().message(),
        file.batch_view(5).unwrap_err().message()
    );
    let report = file.audit_from(&mut session, &JobControl::new()).unwrap();
    assert_eq!(report, file.full_audit(&JobControl::new()).unwrap());
    let written = write_from(&file, &mut session).unwrap();
    assert_eq!(su2_text_from(&file, &mut session).unwrap().as_bytes(), &written[..]);
    assert_eq!(su2_text(&file).unwrap().as_bytes(), &written[..]);
    assert_eq!(write_to_from("su2", &file, &mut session).unwrap(), written);
    assert_eq!(caso_meshing::convert::write(&file).unwrap(), written);
    assert_eq!(write_to("su2", &file).unwrap(), written);
    assert_eq!(
        write_to_from("stl", &file, &mut session).unwrap_err().message(),
        "unknown mesh converter \"stl\""
    );
}

#[test]
fn a_batch_that_cannot_be_read_stops_the_audit_and_the_export() {
    let wanted = "Arrow IPC error: Arrow batch 1 is damaged";
    let broken = with_block(1, |p| BlockPlace { body: 8, ..p });
    let mut session = MeshReadSession::memory(broken.clone()).unwrap();
    let file = MeshFile::open_from(&mut session, None, broken, manifest()).unwrap();
    assert_eq!(file.view_from(&mut session, 1).unwrap_err().message(), wanted);
    assert!(file.view_from(&mut session, 3).is_ok());
    let audit = file.audit_from(&mut session, &JobControl::new());
    assert_eq!(audit.unwrap_err().message(), wanted);
    assert_eq!(write_from(&file, &mut session).unwrap_err().message(), wanted);
    assert_eq!(write_to_from("su2", &file, &mut session).unwrap_err().message(), wanted);
    assert_eq!(caso_meshing::convert::write(&file).unwrap_err().message(), wanted);
}

#[test]
fn a_directory_that_cannot_be_read_stops_the_opening() {
    let broken = with_block(5, |p| BlockPlace { body: -1, ..p });
    assert_eq!(refusal(broken, manifest()), "Arrow IPC error: Arrow batch 5 is damaged");
    let broken = with_block(6, |p| BlockPlace { body: -1, ..p });
    let mut session = MeshReadSession::memory(broken).unwrap();
    assert_eq!(
        manifest_from(&mut session).unwrap_err().message(),
        "Arrow IPC error: Arrow batch 6 is damaged"
    );
}

#[test]
fn the_first_thing_in_the_way_of_an_export_is_named() {
    let mut batches = mesh_batches();
    batches[1] = point_batch(vec![1, 2, 3, 3]);
    batches[3] = cell_batch(triangles(), "polygon");
    let file = MeshFile::from_memory(write_file("3", &batches), manifest()).unwrap();
    let first = caso_meshing::convert::write(&file).unwrap_err();
    assert_eq!(first.message(), "point 3 has more than one owner row");
    assert_eq!(write_to("su2", &file).unwrap_err().message(), first.message());
}

fn file_of(fields: Vec<Field>, arrays: Vec<ArrayRef>) -> Arc<[u8]> {
    let schema = Arc::new(Schema::new(fields));
    let mut bytes: Vec<u8> = Vec::new();
    let mut writer = FileWriter::try_new(&mut bytes, &schema).unwrap();
    writer.write(&RecordBatch::try_new(schema.clone(), arrays).unwrap()).unwrap();
    writer.finish().unwrap();
    drop(writer);
    bytes.into()
}

#[test]
fn files_with_dictionaries_or_foreign_columns_are_refused() {
    let mut words = StringDictionaryBuilder::<Int32Type>::new();
    words.append_value("edge");
    words.append_value("edge");
    let array: ArrayRef = Arc::new(words.finish());
    let bytes = file_of(vec![Field::new("word", array.data_type().clone(), true)], vec![array]);
    assert!(!is_openable(&bytes));
    assert_eq!(
        MeshReadSession::memory(bytes).err().unwrap().message(),
        "Arrow IPC error: Arrow file holds dictionaries or nested columns"
    );
    let small: ArrayRef = Arc::new(Int8Array::from(vec![1i8, 2]));
    let bytes = file_of(vec![Field::new("small", DataType::Int8, false)], vec![small]);
    assert_eq!(damage(bytes.clone(), 0), "Arrow IPC error: Arrow batch 0 is damaged");
    assert!(matches!(
        MeshFile::from_memory(bytes, manifest()),
        Err(MeshError::UnsupportedFileVersion(0))
    ));
    assert!(is_openable(&[]));
    assert!(read_footer(b"\0\0\0\0ARROW2").is_none());
}

/// The mesh file with its fields changed, and no batches.
fn with_fields(change: fn(Field) -> Field) -> Arc<[u8]> {
    let schema = schema("3");
    let fields: Vec<Field> =
        schema.fields().iter().map(|field| change(field.as_ref().clone())).collect();
    let schema = Schema::new_with_metadata(fields, schema.metadata().clone());
    let mut bytes: Vec<u8> = Vec::new();
    let mut writer = FileWriter::try_new(&mut bytes, &schema).unwrap();
    writer.finish().unwrap();
    drop(writer);
    bytes.into()
}

#[test]
fn a_schema_is_compared_down_to_the_items_and_the_field_metadata() {
    let wanted = "Arrow schema does not match casocad.mesh";
    let list = |name: &str, nullable: bool| {
        DataType::LargeList(Arc::new(Field::new(name, DataType::UInt64, nullable)))
    };
    assert_eq!(list("item", true), data_type(ColumnKind::U64List));
    assert_eq!(
        refusal(with_fields(|field| field), manifest()),
        "Arrow v3 mesh is missing required batch sections"
    );
    let renamed = with_fields(|field| match field.name().as_str() {
        "point_ids" => Field::new(
            "point_ids",
            DataType::LargeList(Arc::new(Field::new("element", DataType::UInt64, true))),
            true,
        ),
        _ => field,
    });
    assert_eq!(refusal(renamed, manifest()), wanted);
    let required = with_fields(|field| match field.name().as_str() {
        "point_ids" => Field::new(
            "point_ids",
            DataType::LargeList(Arc::new(Field::new("item", DataType::UInt64, false))),
            true,
        ),
        _ => field,
    });
    assert_eq!(refusal(required, manifest()), wanted);
    let noted = with_fields(|field| match field.name().as_str() {
        "x" => field.with_metadata(HashMap::from([("unit".to_string(), "m".to_string())])),
        _ => field,
    });
    assert_eq!(refusal(noted, manifest()), wanted);
}
