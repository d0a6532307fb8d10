//! Numbers, names, controls, catalogs, requests and chunks.

use std::sync::{Arc, Mutex};

use caso_meshing::algorithm::{
    builder_for, record_quality_termination, GenerationLimits, JobControl, MeshingPhase,
    MeshingProgress, MeshingRequest, MeshingStatistics, ProgressListener, QualityTermination,
    RequestFault,
};
use caso_meshing::catalog::MeshCatalog;
use caso_meshing::chunk::{MeshChunkBuilder, MeshId};
use caso_meshing::chunking::{chunk_range, owning_chunks, place_points};
use caso_meshing::controls::{ControlFault, ControlRegion, ControlSet};
use caso_meshing::domains::{find_domain, region_known, DomainSummary, RegionSummary};
use caso_meshing::emission::{
    build_chunk, chunk_count, points_in_range, record_chunk, SharedPoint, TaggedEdge,
};
use caso_meshing::error::MeshError;
use caso_meshing::fronts::{require_dimension, AdvancingFront, DistMesh, FrontKind};
use caso_meshing::number::Real;
use caso_meshing::partition::{Partition, Tile};
use caso_meshing::schema::{element_dimension, expected_points, Bounds3, RowKind};
use caso_meshing::sorted::{sort_keys, SortedMap, SortedSet};
use caso_meshing::smoothing::{is_patch_better, PatchComparison};
use caso_meshing::stations::{StripQuad, StripScore};
use caso_meshing::sweeps::{
    is_split_kept, local_quality_is_better, quality_gates_met, LocalComparison,
};
use caso_meshing::tiling::{count_points, partition_volume, TileLimits};
use caso_meshing::volume_emission::volume_tile_bytes;

fn num(value: f64) -> Real {
    Real { bits: value.to_bits() }
}

fn vector(x: f64, y: f64, z: f64) -> [Real; 3] {
    [num(x), num(y), num(z)]
}

fn unit_box() -> Bounds3 {
    Bounds3 { min: vector(0.0, 0.0, 0.0), max: vector(1.0, 1.0, 1.0) }
}

fn region(name: &str, tag: Option<&str>) -> RegionSummary {
    RegionSummary {
        name: name.to_string(),
        tag: tag.map(|text| text.to_string()),
        owner_object_id: 3,
    }
}

fn domain(name: &str, dimension: u8) -> DomainSummary {
    DomainSummary {
        name: name.to_string(),
        kind: "fluid".to_string(),
        dimension,
        source_object_id: Some(8),
        boundary_regions: vec![region("inlet", Some("in")), region("outlet", None)],
    }
}

#[test]
fn numbers_order_as_doubles_do() {
    assert!(num(-1.0).less(num(0.0)));
    assert!(num(-0.0).equal(num(0.0)));
    assert!(!num(-0.0).less(num(0.0)));
    assert!(num(-0.0).total_less(num(0.0)));
    assert!(!num(f64::NAN).at_most(num(1.0)));
    assert!(!num(1.0).less(num(f64::NAN)));
    assert!(num(f64::NAN).is_nan());
    assert!(!num(f64::INFINITY).is_finite());
    assert!(num(f64::MIN_POSITIVE).is_positive_finite());
    assert!(!num(0.0).is_positive_finite());
    assert_eq!(num(2.5).negated(), num(-2.5));
    let mut values = vec![num(3.0), num(-1.0), num(0.0), num(-2.0)];
    sort_keys(&mut values);
    assert_eq!(values, vec![num(-2.0), num(-1.0), num(0.0), num(3.0)]);
}

#[test]
fn sorted_sets_and_maps_keep_their_order() {
    let mut set = SortedSet::<u64>::new();
    assert!(set.insert(5));
    assert!(set.insert(2));
    assert!(!set.insert(5));
    assert_eq!(set.items, vec![2, 5]);
    assert!(set.remove(&2));
    assert!(!set.contains(&2));
    let mut map = SortedMap::<u64, u64>::new();
    assert!(map.insert(9, 1));
    assert!(map.insert(4, 2));
    assert_eq!(map.get(&9), Some(&1));
    assert_eq!(map.find(&4), Some(0));
    map.restrict(&set);
    assert_eq!(map.len(), 0);
}

#[test]
fn strip_quality_precedes_tangential_size_error() {
    let lower_skew = StripScore {
        valid: true,
        worst_skewness: num(0.2),
        percentile_skewness: num(0.15),
        minimum_scaled_jacobian: num(0.8),
        tangential_error: num(0.4),
    };
    let closer_size = StripScore {
        valid: true,
        worst_skewness: num(0.3),
        percentile_skewness: num(0.2),
        minimum_scaled_jacobian: num(0.9),
        tangential_error: num(0.0),
    };
    assert!(lower_skew.better_than(closer_size));
    assert!(!closer_size.better_than(lower_skew));
}

#[test]
fn strip_scores_sum_their_quads_up() {
    let quads: Vec<StripQuad> = (0..200)
        .map(|i| StripQuad { scaled_jacobian: num(0.5 + i as f64 / 1000.0), skewness: num(i as f64) })
        .collect();
    let score = StripScore::from_quads(&quads, num(0.25));
    assert!(score.is_valid());
    assert_eq!(score.worst_skewness, num(199.0));
    assert_eq!(score.percentile_skewness, num(197.0));
    assert_eq!(score.minimum_scaled_jacobian, num(0.5));
    assert_eq!(score.tangential_error, num(0.25));
    assert!(!StripScore::from_quads(&vec![], num(0.0)).is_valid());
    assert!(score.better_than(StripScore::invalid()));
    assert!(!StripScore::invalid().better_than(score));
}

#[test]
fn row_kinds_and_elements_have_names() {
    assert_eq!(RowKind::parse("preview_point"), Some(RowKind::PreviewPoint));
    assert_eq!(RowKind::parse("node"), None);
    assert_eq!(RowKind::BatchDirectory.as_str(), "batch_directory");
    assert!(RowKind::Cell.is_exact());
    assert!(RowKind::PreviewElement.is_preview());
    assert_eq!(element_dimension("prism6"), Some(3));
    assert_eq!(element_dimension("edge3"), Some(1));
    assert_eq!(expected_points("pyramid5"), Some((5, 5)));
    assert_eq!(expected_points("line"), None);
}

#[test]
fn errors_are_worded() {
    let error = MeshError::UnsupportedDimension { domain: "a\"b".to_string(), dimension: 1 };
    assert_eq!(
        error.message(),
        "built-in meshing supports only 2D and 3D domains; \"a\\\"b\" is 1D"
    );
    assert_eq!(MeshError::Cancelled.message(), "meshing cancelled");
    assert_eq!(MeshError::Io("gone".to_string()).message(), "mesh I/O failed: gone");
    assert_eq!(MeshError::Arrow("bad".to_string()).message(), "Arrow IPC error: bad");
    assert_eq!(MeshError::invalid_input("no").message(), "no");
    assert_eq!(MeshError::limit_exceeded("much").message(), "much");
    assert_eq!(
        MeshError::UnsupportedFileVersion(2).message(),
        "unsupported mesh schema version 2; expected 3"
    );
    let error = MeshError::AtomicPublication {
        destination: "mesh.arrow".to_string(),
        reason: "full".to_string(),
    };
    assert_eq!(error.message(), "could not publish mesh.arrow atomically: full");
}

#[test]
fn control_regions_are_checked() {
    let refused = ControlRegion::box_region(vector(1.0, 0.0, 0.0), vector(0.0, 1.0, 1.0));
    assert_eq!(refused.unwrap_err(), "control box minima must not exceed maxima");
    assert!(ControlRegion::box_region(vector(0.0, 0.0, 0.0), vector(1.0, 1.0, 1.0)).is_ok());
    assert_eq!(
        ControlRegion::sphere(vector(0.0, 0.0, 0.0), num(0.0)).unwrap_err(),
        "sphere radius must be positive and finite"
    );
    let same = vector(1.0, 1.0, 1.0);
    assert_eq!(
        ControlRegion::cylinder(same, same, num(0.0), num(1.0)).unwrap_err(),
        "control cylinder endpoints must be distinct"
    );
    assert_eq!(
        ControlRegion::polyline_tube(vec![same], num(1.0)).unwrap_err(),
        "polyline_tube requires at least two points"
    );
    let ball = ControlRegion::sphere(same, num(1.0)).unwrap();
    let other = ControlRegion::sphere(vector(0.0, 0.0, 0.0), num(2.0)).unwrap();
    assert!(matches!(ball.difference(other), ControlRegion::Difference(_, _)));
}

#[test]
fn controls_are_checked() {
    let mut controls = ControlSet::new();
    assert!(controls.is_empty());
    assert_eq!(
        controls.require_target_size().unwrap_err(),
        "controls.target_size(...) is required exactly once"
    );
    controls.target_size(num(0.5)).unwrap();
    assert_eq!(controls.require_target_size().unwrap(), num(0.5));
    assert_eq!(
        controls.target_size(num(0.5)).unwrap_err(),
        "controls.target_size(...) must be called exactly once"
    );
    let ball = ControlRegion::sphere(vector(0.0, 0.0, 0.0), num(1.0)).unwrap();
    assert_eq!(
        controls.refinement("air".to_string(), ball, num(0.1), num(-1.0)).unwrap_err(),
        "refinement gradation must be finite and non-negative"
    );
    let refused = controls.boundary_layer(
        "air".to_string(),
        "inlet".to_string(),
        num(0.1),
        num(0.1),
        num(0.5),
        num(1.0),
        &vec![num(0.1), num(0.15)],
    );
    assert_eq!(refused.unwrap_err(), "boundary-layer ratio must be at least 1");
    controls
        .boundary_layer(
            "air".to_string(),
            "side".to_string(),
            num(0.1),
            num(0.1),
            num(1.2),
            num(1.0),
            &vec![num(0.1), num(0.22), num(0.364), num(1.2)],
        )
        .unwrap();
    match controls.validate(&vec![domain("air", 2)]) {
        Err(ControlFault::Message(text)) => {
            assert_eq!(text, "domain \"air\" has no boundary region \"side\"; available: inlet, outlet")
        }
        _ => panic!("the layer was accepted"),
    }
    match controls.validate(&vec![domain("water", 2)]) {
        Err(ControlFault::UnknownDomain(name)) => assert_eq!(name, "air"),
        _ => panic!("the domain was found"),
    }
}

#[test]
fn domains_are_found_by_name() {
    let domains = vec![domain("air", 2), domain("solid", 2)];
    assert_eq!(find_domain(&domains, "solid"), Some(1));
    assert_eq!(find_domain(&domains, "none"), None);
    assert!(region_known(&domains[0], "outlet"));
    assert!(!region_known(&domains[0], "side"));
}

#[test]
fn catalogs_number_domains_and_regions() {
    let domains = vec![domain("air", 2), domain("solid", 2)];
    let catalog = MeshCatalog::from_domains(&domains, "advancing_front");
    let air = catalog.domain("air").unwrap();
    let solid = catalog.domain("solid").unwrap();
    assert_eq!((air.zone, air.source, air.wall_tag), (1, 1, 3));
    assert_eq!((solid.zone, solid.source, solid.wall_tag), (2, 2, 6));
    assert_eq!(catalog.boundary_tag("air", "inlet"), Some(1));
    assert_eq!(catalog.boundary_tag("solid", "outlet"), Some(5));
    assert_eq!(catalog.boundary_tag("solid", "side"), None);
    assert_eq!(
        catalog.domain("none").unwrap_err().message(),
        "no catalog entry for meshing domain \"none\""
    );
}

fn request(domains: Vec<DomainSummary>) -> MeshingRequest {
    MeshingRequest {
        domains,
        algorithm_id: "advancing_front".to_string(),
        controls: ControlSet::new(),
        limits: GenerationLimits::default(),
        job_control: JobControl::new(),
    }
}

fn request_fault(request: MeshingRequest) -> String {
    match request.validate() {
        Err(RequestFault::Mesh(error)) => error.message(),
        _ => panic!("another outcome"),
    }
}

#[test]
fn requests_are_checked() {
    let mut sized = request(vec![domain("air", 2)]);
    sized.controls.target_size(num(0.1)).unwrap();
    assert!(matches!(sized.validate(), Ok(2)));
    assert_eq!(request_fault(request(vec![])), "meshing requires at least one declared domain");
    let mut mixed = request(vec![domain("air", 2), domain("solid", 3)]);
    mixed.controls.target_size(num(0.1)).unwrap();
    assert_eq!(request_fault(mixed), "one mesh artifact cannot mix domain dimensions");
    let mut limited = request(vec![domain("air", 2)]);
    limited.controls.target_size(num(0.1)).unwrap();
    limited.limits.max_cells = 0;
    assert_eq!(request_fault(limited), "meshing limits must be positive");
}

struct Heard(Mutex<Vec<u64>>);

impl ProgressListener for Heard {
    fn progress(&self, progress: MeshingProgress) {
        self.0.lock().unwrap().push(progress.completed_chunks);
    }
}

#[test]
fn jobs_report_and_stop() {
    let heard = Arc::new(Heard(Mutex::new(Vec::new())));
    let control = JobControl::new().with_progress(Some(heard.clone()));
    let mut progress = MeshingProgress::default();
    assert_eq!(progress.phase, MeshingPhase::Generating);
    progress.completed_chunks = 4;
    control.report(progress);
    assert_eq!(*heard.0.lock().unwrap(), vec![4]);
    assert!(control.check().is_ok());
    let shared = control.clone();
    shared.cancel();
    assert!(control.is_cancelled());
    assert!(matches!(control.check(), Err(MeshError::Cancelled)));
}

#[test]
fn the_gravest_termination_is_recorded() {
    let mut statistics = MeshingStatistics::default();
    record_quality_termination(&mut statistics, QualityTermination::MemoryBudget);
    assert_eq!(statistics.quality_termination, QualityTermination::MemoryBudget);
    record_quality_termination(&mut statistics, QualityTermination::Converged);
    assert_eq!(statistics.quality_termination, QualityTermination::MemoryBudget);
    assert_eq!(QualityTermination::MaxCells.as_str(), "max cells");
}

#[test]
fn fronts_serve_planes_and_solids() {
    let front = AdvancingFront::default();
    assert_eq!(front.descriptor().id, "advancing_front");
    assert!(front.descriptor().supports_dimension(3));
    assert!(matches!(front.front(&vec![domain("air", 2)]), Ok(FrontKind::Plane)));
    assert!(matches!(front.front(&vec![domain("part", 3)]), Ok(FrontKind::Solid)));
    assert!(front.front(&vec![]).is_err());
    assert!(DistMesh::default().descriptor().supports_dimension(2));
    assert!(require_dimension(&vec![domain("air", 2)], 2).is_ok());
    assert!(matches!(
        require_dimension(&vec![domain("part", 3)], 2),
        Err(MeshError::UnsupportedDimension { dimension: 3, .. })
    ));
}

#[test]
fn chunks_number_their_entities() {
    let mut builder = MeshChunkBuilder::new(2, unit_box()).unwrap();
    assert_eq!(builder.id(), 2);
    let a = builder.point(vector(0.0, 0.0, 0.0)).unwrap();
    let b = builder.point(vector(1.0, 0.0, 0.0)).unwrap();
    let c = builder.point(vector(0.0, 1.0, 0.0)).unwrap();
    assert_eq!(a.owner_chunk(), 2);
    assert_eq!(MeshId::from_raw(b.raw()), b);
    assert_eq!(
        builder.point(vector(2.0, 0.0, 0.0)).unwrap_err().message(),
        "chunk point must be finite and inside chunk bounds"
    );
    let ghost = MeshId::from_raw(7u64 << 32);
    builder.point_copy(ghost, vector(1.0, 1.0, 0.0), "inside".to_string(), vec![]).unwrap();
    builder.boundary_edge([a, b], vec![5]).unwrap();
    builder.tri3([a, b, c], 1, 1).unwrap();
    let chunk = builder.build(2).unwrap();
    assert_eq!(chunk.points.len(), 4);
    assert_eq!(chunk.edges[0].tag_ids, vec![5]);
    assert_eq!(chunk.cells[0].point_ids, vec![a, b, c]);
    assert_eq!(chunk.top_dimensional_elements(2), 1);
    assert!(chunk.points[3].is_ghost_in(2));
    assert!(chunk.validate(2).is_ok());
    let mut broken = MeshChunkBuilder::new(2, unit_box()).unwrap();
    let lone = broken.point(vector(0.0, 0.0, 0.0)).unwrap();
    broken.tri3([lone, lone, ghost], 1, 1).unwrap();
    assert!(broken.build(2).is_err());
    assert!(MeshChunkBuilder::new(0, unit_box()).is_err());
    assert!(builder_for(Ok(3), unit_box()).is_ok());
    assert!(matches!(builder_for(Err(MeshError::Cancelled), unit_box()), Err(MeshError::Cancelled)));
}

#[test]
fn partitions_cover_all_elements_in_order() {
    let mut partition = Partition::by_budget(10, 100, 1_000, 8).unwrap();
    let mut taken = Vec::new();
    while let Some(tile) = partition.current() {
        let rows = tile.end - tile.start;
        let before = partition.tiles.len();
        partition.settle(rows * 30, rows).unwrap();
        if partition.tiles.len() == before {
            taken.push((tile.start, tile.end));
        }
    }
    assert_eq!(taken.first().unwrap().0, 0);
    assert_eq!(taken.last().unwrap().1, 10);
    for pair in taken.windows(2) {
        assert_eq!(pair[0].1, pair[1].0);
    }
    let mut single = Partition::by_budget(1, 10, 1_000, 8).unwrap();
    assert_eq!(
        single.settle(30, 1).unwrap_err().message(),
        "one indivisible DistMesh element requires 30 bytes and 1 rows, exceeding the 10 byte \
         chunk target or 1000 row limit"
    );
}

/// The heights of the first row, of the first two together, and so on.
fn totals(first: f64, ratio: f64, rows: usize) -> Vec<Real> {
    let (mut total, mut height) = (0.0, first);
    let mut heights = Vec::new();
    for _ in 0..rows {
        total += height;
        height *= ratio;
        heights.push(num(total));
    }
    heights
}

fn add_layer(controls: &mut ControlSet, sizes: [f64; 4]) -> Result<(), String> {
    let [hwall_n, hwall_t, ratio, thickness] = sizes;
    controls.boundary_layer(
        "sea".to_string(),
        "wall".to_string(),
        num(hwall_n),
        num(hwall_t),
        num(ratio),
        num(thickness),
        &totals(hwall_n, ratio, 9),
    )
}

#[test]
fn boundary_layer_derives_complete_layers_without_exceeding_thickness() {
    let mut controls = ControlSet::default();
    add_layer(&mut controls, [0.01, 0.05, 1.2, 0.05]).unwrap();
    let layer = &controls.boundary_layers[0];
    assert_eq!(layer.layers, 3);
    let hwall_n = f64::from_bits(layer.hwall_n.bits);
    let ratio = f64::from_bits(layer.ratio.bits);
    let total = f64::from_bits(totals(hwall_n, ratio, 9)[layer.layers - 1].bits);
    assert!((total - 0.0364).abs() < 1.0e-12);
    assert!(total + hwall_n * ratio.powi(3) > f64::from_bits(layer.thickness.bits));

    assert!(add_layer(&mut controls, [0.02, 0.05, 1.2, 0.01]).is_err());
    assert!(add_layer(&mut controls, [0.01, 0.05, 0.9, 0.05]).is_err());
    assert_eq!(controls.boundary_layers.len(), 1);
}

#[test]
fn layers_are_counted_up_to_the_thickness() {
    let mut controls = ControlSet::default();
    let heights = vec![num(0.25), num(0.5), num(0.75), num(1.0)];
    for (thickness, rows) in [(0.25, 1), (0.74, 2), (0.75, 3), (9.0, 4)] {
        let added = controls.boundary_layer(
            "sea".to_string(),
            "wall".to_string(),
            num(0.25),
            num(0.1),
            num(1.0),
            num(thickness),
            &heights,
        );
        assert!(added.is_ok());
        assert_eq!(controls.boundary_layers.last().unwrap().layers, rows);
    }
}

#[test]
fn tiles_are_halved_until_they_fit() {
    let elements: Vec<Vec<usize>> = (0..8).map(|i| vec![i, i + 1, i + 2, i + 3]).collect();
    let owners: Vec<usize> = Vec::new();
    let whole = Tile { start: 0, end: 8 };
    assert_eq!(count_points(&elements, whole), 11);
    let total = volume_tile_bytes(11, &elements, &owners, whole);
    let roomy = TileLimits { byte_budget: total, row_limit: 8 };
    assert_eq!(partition_volume(&elements, &owners, &roomy, 1).unwrap(), vec![whole]);
    let halves = partition_volume(&elements, &owners, &TileLimits { byte_budget: total, row_limit: 4 }, 8);
    assert_eq!(halves.unwrap(), vec![Tile { start: 0, end: 4 }, Tile { start: 4, end: 8 }]);
    let narrow = TileLimits { byte_budget: total - 1, row_limit: 8 };
    let tiles = partition_volume(&elements, &owners, &narrow, 8).unwrap();
    assert_eq!(tiles, vec![Tile { start: 0, end: 4 }, Tile { start: 4, end: 8 }]);
    assert_eq!(
        partition_volume(&elements, &owners, &narrow, 1).unwrap_err().message(),
        "DistMesh partitioning exhausted the configured 1 remaining chunks"
    );
    assert_eq!(
        partition_volume(&elements, &owners, &narrow, 0).unwrap_err().message(),
        "DistMesh exhausted the configured chunk limit"
    );
    let tiny = TileLimits { byte_budget: 1, row_limit: 8 };
    let message = partition_volume(&elements, &owners, &tiny, 100).unwrap_err().message();
    assert!(message.starts_with("one indivisible DistMesh element requires "));
    let nothing = partition_volume(&Vec::new(), &owners, &tiny, 1).unwrap();
    assert_eq!(nothing, vec![Tile { start: 0, end: 0 }]);
}

#[test]
fn chunks_cut_the_cells_into_ranges() {
    assert_eq!(chunk_range(10, 4, 0), (0, 4));
    assert_eq!(chunk_range(10, 4, 2), (8, 10));
    assert_eq!(chunk_range(8, 4, 1), (4, 8));
    assert_eq!(owning_chunks(&vec![0, 3, 4, 9], 4), vec![0, 0, 1, 2]);
    let ids = vec![MeshId::from_raw(11), MeshId::from_raw(12)];
    let spots = vec![vector(0.0, 0.0, 0.0), vector(1.0, 0.0, 0.0)];
    let known = SharedPoint { id: MeshId::from_raw(12), position: vector(1.0, 0.5, 0.0) };
    let placed = place_points(&vec![3usize, 7], &ids, &spots, &vec![None, Some(known)]);
    assert_eq!(placed.get(&3).unwrap().id.raw(), 11);
    assert_eq!(placed.get(&3).unwrap().position, spots[0]);
    assert_eq!(placed.get(&7).unwrap().position, vector(1.0, 0.5, 0.0));
}

#[test]
fn recorded_chunks_add_up_to_the_mesh() {
    let mut statistics = MeshingStatistics::default();
    let (cells, per_chunk) = (10, 4);
    let chunks = chunk_count(cells, per_chunk);
    for place in 0..chunks {
        let (start, end) = chunk_range(cells, per_chunk, place);
        record_chunk(&mut statistics, 6, (end - start) as u64, 100 * place as u64);
    }
    assert_eq!(statistics.chunks, 3);
    assert_eq!(statistics.cells, 10);
    assert_eq!(statistics.points, 18);
    assert_eq!(statistics.peak_active_bytes, 200);
}

#[test]
fn the_same_cells_give_the_same_chunk() {
    let cells: Vec<Vec<usize>> = vec![vec![0, 1, 2], vec![0, 2, 3]];
    let spots: Vec<Option<SharedPoint>> = vec![None; 4];
    let corners = vec![
        vector(0.0, 0.0, 0.0),
        vector(1.0, 0.0, 0.0),
        vector(1.0, 1.0, 0.0),
        vector(0.0, 1.0, 0.0),
    ];
    let ids: Vec<MeshId> = (1..5).map(|place| MeshId::new(1, 0, place).unwrap()).collect();
    let placed = place_points(&vec![0usize, 1, 2, 3], &ids, &corners, &spots);
    let mut boundary = SortedSet::new();
    boundary.insert(0usize);
    let edges = vec![TaggedEdge { points: [0usize, 1], cell: 0, tag: 5 }];
    let bounds = Bounds3 { min: vector(0.0, 0.0, 0.0), max: vector(1.0, 1.0, 0.0) };
    let used = points_in_range(&cells, 0, 2);
    let build = || build_chunk(1, bounds, &cells, 0, 2, &used, &placed, &boundary, &edges, 7, 9);
    let chunk = build().unwrap();
    assert_eq!(chunk.points.len(), 4);
    assert_eq!(chunk.points[0].classification, "boundary");
    assert_eq!(chunk.cells.len(), 2);
    assert_eq!(chunk.cells[1].point_ids, vec![ids[0], ids[2], ids[3]]);
    assert_eq!(chunk.cells[1].zone_id, Some(7));
    assert_eq!(chunk.edges.len(), 1);
    assert_eq!(chunk.edges[0].tag_ids, vec![5]);
    assert_eq!(format!("{:?}", build().unwrap()), format!("{chunk:?}"));
}

#[test]
fn entity_numbers_tell_chunk_kind_and_place() {
    let id = MeshId::new(2, 0x4000_0000, 3).unwrap();
    assert_eq!(id.raw(), 0x2_4000_0003);
    assert_eq!(id.owner_chunk(), 2);
    assert!(MeshId::new(0, 0, 1).is_err());
    assert!(MeshId::new(1, 0, 0).is_err());
    assert!(MeshId::new(1, 0, 0x4000_0000).is_err());
    assert!(MeshId::new(1, 0, 0x3fff_ffff).is_ok());
    assert!(MeshId::from_raw(5) < MeshId::from_raw(6));
    assert!(MeshId::new(1, 0xc000_0000, 9).unwrap() < MeshId::new(2, 0, 1).unwrap());
    assert_eq!(MeshId::from_raw(5).partial_cmp(&MeshId::from_raw(5)), Some(std::cmp::Ordering::Equal));
}

#[test]
fn a_new_point_is_numbered_behind_all_others() {
    let mut builder = MeshChunkBuilder::new(2, unit_box()).unwrap();
    let spot = vector(0.5, 0.5, 0.5);
    let given = MeshId::new(2, 0, 40).unwrap();
    builder.point_copy(given, spot, "interior".to_string(), Vec::new()).unwrap();
    let ghost = MeshId::new(9, 0, 90).unwrap();
    builder.point_copy(ghost, spot, "interior".to_string(), Vec::new()).unwrap();
    let fresh = builder.point(spot).unwrap();
    assert_eq!(fresh, MeshId::new(2, 0, 41).unwrap());
    assert_eq!(
        builder.point_copy(fresh, spot, "interior".to_string(), Vec::new()).unwrap_err().message(),
        "point 8589934633 is already present in chunk 2"
    );
}

#[test]
fn regions_of_distinct_names_have_tags_of_their_own() {
    let domain = |name: &str, regions: Vec<RegionSummary>| DomainSummary {
        name: name.to_string(),
        kind: "sdf".to_string(),
        dimension: 2,
        source_object_id: None,
        boundary_regions: regions,
    };
    let domains = vec![
        domain("sea", vec![region("inlet", None), region("outlet", None)]),
        domain("air", vec![region("inlet", Some("flow"))]),
    ];
    let catalog = MeshCatalog::from_domains(&domains, "front");
    let walls: Vec<u64> =
        ["sea", "air"].iter().map(|name| catalog.domain(name).unwrap().wall_tag).collect();
    let mut tags = vec![
        catalog.boundary_tag("sea", "inlet").unwrap(),
        catalog.boundary_tag("sea", "outlet").unwrap(),
        catalog.boundary_tag("air", "inlet").unwrap(),
    ];
    assert_eq!(tags, vec![1, 2, 4]);
    assert_eq!(walls, vec![3, 5]);
    tags.extend(walls);
    sort_keys(&mut tags);
    assert_eq!(tags, vec![1, 2, 3, 4, 5]);
    assert_eq!(catalog.boundary_tag("air", "outlet"), None);
    assert_eq!(catalog.boundary_tag("fire", "inlet"), None);
}

#[test]
fn a_job_and_its_copies_share_one_flag() {
    let job = JobControl::default();
    let copy = job.clone();
    assert!(!copy.is_cancelled());
    job.cancel();
    assert!(copy.is_cancelled());
    assert!(matches!(copy.check(), Err(MeshError::Cancelled)));
}

#[test]
fn comparisons_around_an_edit_go_from_the_worst_down() {
    assert!(quality_gates_met(num(0.9), num(0.1), num(0.9)));
    assert!(!quality_gates_met(num(0.1), num(0.1), num(0.9)));
    assert!(!quality_gates_met(num(0.9), num(0.99), num(0.9)));
    assert!(!quality_gates_met(num(0.9), num(0.1), num(0.01)));
    let same = LocalComparison {
        jacobian_kept: true,
        skewness_kept: true,
        violation_less: false,
        violation_equal: true,
        skewness_less: false,
        skewness_equal: true,
        distortion_less: false,
    };
    assert!(!local_quality_is_better(same));
    assert!(!is_split_kept(same));
    assert!(local_quality_is_better(LocalComparison { distortion_less: true, ..same }));
    assert!(is_split_kept(LocalComparison { distortion_less: true, ..same }));
    assert!(local_quality_is_better(LocalComparison { violation_less: true, ..same }));
    assert!(!local_quality_is_better(LocalComparison {
        violation_less: true,
        jacobian_kept: false,
        ..same
    }));
    let level = PatchComparison {
        worst_more: false,
        worst_equal: true,
        skewness_less: false,
        skewness_equal: true,
        mean_more: false,
    };
    assert!(!is_patch_better(level));
    assert!(is_patch_better(PatchComparison { mean_more: true, ..level }));
    assert!(!is_patch_better(PatchComparison { mean_more: true, worst_equal: false, ..level }));
    assert!(is_patch_better(PatchComparison { worst_more: true, ..level }));
}
