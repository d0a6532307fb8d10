//! The vocabulary of a mesh file: row kinds, element types, bounds, the
//! manifest and the batch directory.

use vstd::prelude::*;

use crate::number::{is_finite_vector, Vector3};
#[allow(unused_imports)]
use crate::number::all_finite;
use crate::text::same_text;
#[allow(unused_imports)]
use crate::text::{decimal, digit};

verus! {

pub const MESH_SCHEMA_VERSION: u32 = 3;

/// The most rows that one record batch may hold.
pub const MAX_BATCH_ROWS: usize = 65_536;

/// The most bytes that one record batch may decode to.
pub const MAX_BATCH_BYTES: usize = 67_108_864;

pub fn mesh_schema_name() -> (result: &'static str)
    ensures
        result@ == "casocad.mesh"@,
{
    "casocad.mesh"
}

/// An axis-aligned box.
#[derive(Debug, Clone, Copy)]
pub struct Bounds3 {
    pub min: Vector3,
    pub max: Vector3,
}

impl Bounds3 {
    /// Finite corners with `min <= max` on every axis.
    pub open spec fn valid(self) -> bool {
        &&& all_finite(self.min)
        &&& all_finite(self.max)
        &&& forall|axis: int| 0 <= axis < 3 ==> (#[trigger] self.min[axis]).le(self.max[axis])
    }

    /// The closed box holds the point.
    pub open spec fn holds(self, point: Vector3) -> bool {
        forall|axis: int|
            0 <= axis < 3 ==> self.min[axis].le(#[trigger] point[axis]) && point[axis].le(
                self.max[axis],
            )
    }

    /// The closed boxes share a point on every axis.
    pub open spec fn meets(self, other: Bounds3) -> bool {
        forall|axis: int|
            0 <= axis < 3 ==> (#[trigger] self.min[axis]).le(other.max[axis])
                && other.min[axis].le(self.max[axis])
    }

    pub fn is_valid(self) -> (result: bool)
        ensures
            result == self.valid(),
    {
        let ordered = self.min[0].at_most(self.max[0]) && self.min[1].at_most(self.max[1])
            && self.min[2].at_most(self.max[2]);
        is_finite_vector(self.min) && is_finite_vector(self.max) && ordered
    }

    pub fn contains(self, point: Vector3) -> (result: bool)
        ensures
            result == self.holds(point),
    {
        let low = self.min[0].at_most(point[0]) && self.min[1].at_most(point[1])
            && self.min[2].at_most(point[2]);
        let high = point[0].at_most(self.max[0]) && point[1].at_most(self.max[1])
            && point[2].at_most(self.max[2]);
        low && high
    }

    pub fn intersects(self, other: Bounds3) -> (result: bool)
        ensures
            result == self.meets(other),
    {
        let left = self.min[0].at_most(other.max[0]) && self.min[1].at_most(other.max[1])
            && self.min[2].at_most(other.max[2]);
        let right = other.min[0].at_most(self.max[0]) && other.min[1].at_most(self.max[1])
            && other.min[2].at_most(self.max[2]);
        left && right
    }
}

/// What the rows of a record batch are.
#[derive(Debug, Clone, Copy, PartialEq, Eq, Structural)]
pub enum RowKind {
    Manifest,
    Catalog,
    Point,
    Edge,
    Face,
    Cell,
    PreviewPoint,
    PreviewElement,
    SpatialNode,
    BatchDirectory,
}

impl RowKind {
    pub open spec fn name(self) -> Seq<char> {
        match self {
            RowKind::Manifest => "manifest"@,
            RowKind::Catalog => "catalog"@,
            RowKind::Point => "point"@,
            RowKind::Edge => "edge"@,
            RowKind::Face => "face"@,
            RowKind::Cell => "cell"@,
            RowKind::PreviewPoint => "preview_point"@,
            RowKind::PreviewElement => "preview_element"@,
            RowKind::SpatialNode => "spatial_node"@,
            RowKind::BatchDirectory => "batch_directory"@,
        }
    }

    /// Rows of the mesh itself, as against previews and bookkeeping.
    pub open spec fn exact(self) -> bool {
        self is Point || self is Edge || self is Face || self is Cell
    }

    pub open spec fn preview(self) -> bool {
        self is PreviewPoint || self is PreviewElement
    }

    pub fn as_str(self) -> (result: &'static str)
        ensures
            result@ == self.name(),
    {
        match self {
            RowKind::Manifest => "manifest",
            RowKind::Catalog => "catalog",
            RowKind::Point => "point",
            RowKind::Edge => "edge",
            RowKind::Face => "face",
            RowKind::Cell => "cell",
            RowKind::PreviewPoint => "preview_point",
            RowKind::PreviewElement => "preview_element",
            RowKind::SpatialNode => "spatial_node",
            RowKind::BatchDirectory => "batch_directory",
        }
    }

    pub fn is_exact(self) -> (result: bool)
        ensures
            result == self.exact(),
    {
        match self {
            RowKind::Point | RowKind::Edge | RowKind::Face | RowKind::Cell => true,
            _ => false,
        }
    }

    pub fn is_preview(self) -> (result: bool)
        ensures
            result == self.preview(),
    {
        match self {
            RowKind::PreviewPoint | RowKind::PreviewElement => true,
            _ => false,
        }
    }

    /// The kind of that name, if there is one.
    pub open spec fn named(name: Seq<char>) -> Option<RowKind> {
        if exists|kind: RowKind| (#[trigger] kind.name()) == name {
            Some(choose|kind: RowKind| (#[trigger] kind.name()) == name)
        } else {
            None
        }
    }

    /// The kind of that name, if there is one.
    pub fn parse(name: &str) -> (result: Option<RowKind>)
        ensures
            result == RowKind::named(name@),
    {
        let result = RowKind::find(name);
        proof {
            if let Some(kind) = result {
                row_kind_names_are_distinct(kind, RowKind::named(name@).unwrap());
            }
        }
        result
    }

    fn find(name: &str) -> (result: Option<RowKind>)
        ensures
            match result {
                Some(kind) => kind.name() == name@,
                None => forall|kind: RowKind| (#[trigger] kind.name()) != name@,
            },
    {
        if same_text(name, "manifest") {
            Some(RowKind::Manifest)
        } else if same_text(name, "catalog") {
            Some(RowKind::Catalog)
        } else if same_text(name, "point") {
            Some(RowKind::Point)
        } else if same_text(name, "edge") {
            Some(RowKind::Edge)
        } else if same_text(name, "face") {
            Some(RowKind::Face)
        } else if same_text(name, "cell") {
            Some(RowKind::Cell)
        } else if same_text(name, "preview_point") {
            Some(RowKind::PreviewPoint)
        } else if same_text(name, "preview_element") {
            Some(RowKind::PreviewElement)
        } else if same_text(name, "spatial_node") {
            Some(RowKind::SpatialNode)
        } else if same_text(name, "batch_directory") {
            Some(RowKind::BatchDirectory)
        } else {
            None
        }
    }
}

/// No two row kinds share a name.
pub proof fn row_kind_names_are_distinct(a: RowKind, b: RowKind)
    ensures
        a.name() == b.name() ==> a == b,
{
    reveal_strlit("manifest");
    reveal_strlit("catalog");
    reveal_strlit("point");
    reveal_strlit("edge");
    reveal_strlit("face");
    reveal_strlit("cell");
    reveal_strlit("preview_point");
    reveal_strlit("preview_element");
    reveal_strlit("spatial_node");
    reveal_strlit("batch_directory");
    let x = a.name();
    let y = b.name();
    if x == y {
        assert(x.len() == y.len());
        assert(x[0] == y[0]);
        assert(x[1] == y[1]);
    }
}

/// The dimension of an element type; `None` for an unknown one.
pub open spec fn dimension_of(element_type: Seq<char>) -> Option<u8> {
    if element_type == "edge2"@ || element_type == "edge3"@ {
        Some(1u8)
    } else if element_type == "tri3"@ || element_type == "tri6"@ || element_type == "quad4"@
        || element_type == "quad8"@ || element_type == "quad9"@ || element_type == "polygon"@ {
        Some(2u8)
    } else if element_type == "tet4"@ || element_type == "tet10"@ || element_type == "pyramid5"@
        || element_type == "pyramid13"@ || element_type == "prism6"@ || element_type == "prism15"@
        || element_type == "hex8"@ || element_type == "hex20"@ || element_type == "hex27"@
        || element_type == "polyhedron"@ {
        Some(3u8)
    } else {
        None
    }
}

/// The least and the greatest number of points of an element type.
pub open spec fn points_of(element_type: Seq<char>) -> Option<(usize, usize)> {
    if element_type == "edge2"@ {
        Some((2usize, 2usize))
    } else if element_type == "edge3"@ {
        Some((3usize, 3usize))
    } else if element_type == "tri3"@ {
        Some((3usize, 3usize))
    } else if element_type == "tri6"@ {
        Some((6usize, 6usize))
    } else if element_type == "quad4"@ {
        Some((4usize, 4usize))
    } else if element_type == "quad8"@ {
        Some((8usize, 8usize))
    } else if element_type == "quad9"@ {
        Some((9usize, 9usize))
    } else if element_type == "polygon"@ {
        Some((3usize, usize::MAX))
    } else if element_type == "tet4"@ {
        Some((4usize, 4usize))
    } else if element_type == "tet10"@ {
        Some((10usize, 10usize))
    } else if element_type == "pyramid5"@ {
        Some((5usize, 5usize))
    } else if element_type == "pyramid13"@ {
        Some((13usize, 13usize))
    } else if element_type == "prism6"@ {
        Some((6usize, 6usize))
    } else if element_type == "prism15"@ {
        Some((15usize, 15usize))
    } else if element_type == "hex8"@ {
        Some((8usize, 8usize))
    } else if element_type == "hex20"@ {
        Some((20usize, 20usize))
    } else if element_type == "hex27"@ {
        Some((27usize, 27usize))
    } else if element_type == "polyhedron"@ {
        Some((4usize, usize::MAX))
    } else {
        None
    }
}

pub fn element_dimension(element_type: &str) -> (result: Option<u8>)
    ensures
        result == dimension_of(element_type@),
{
    if same_text(element_type, "edge2") || same_text(element_type, "edge3") {
        Some(1)
    } else if same_text(element_type, "tri3") || same_text(element_type, "tri6") || same_text(
        element_type,
        "quad4",
    ) || same_text(element_type, "quad8") || same_text(element_type, "quad9") || same_text(
        element_type,
        "polygon",
    ) {
        Some(2)
    } else if same_text(element_type, "tet4") || same_text(element_type, "tet10") || same_text(
        element_type,
        "pyramid5",
    ) || same_text(element_type, "pyramid13") || same_text(element_type, "prism6") || same_text(
        element_type,
        "prism15",
    ) || same_text(element_type, "hex8") || same_text(element_type, "hex20") || same_text(
        element_type,
        "hex27",
    ) || same_text(element_type, "polyhedron") {
        Some(3)
    } else {
        None
    }
}

pub fn expected_points(element_type: &str) -> (result: Option<(usize, usize)>)
    ensures
        result == points_of(element_type@),
{
    if same_text(element_type, "edge2") {
        Some((2, 2))
    } else if same_text(element_type, "edge3") {
        Some((3, 3))
    } else if same_text(element_type, "tri3") {
        Some((3, 3))
    } else if same_text(element_type, "tri6") {
        Some((6, 6))
    } else if same_text(element_type, "quad4") {
        Some((4, 4))
    } else if same_text(element_type, "quad8") {
        Some((8, 8))
    } else if same_text(element_type, "quad9") {
        Some((9, 9))
    } else if same_text(element_type, "polygon") {
        Some((3, usize::MAX))
    } else if same_text(element_type, "tet4") {
        Some((4, 4))
    } else if same_text(element_type, "tet10") {
        Some((10, 10))
    } else if same_text(element_type, "pyramid5") {
        Some((5, 5))
    } else if same_text(element_type, "pyramid13") {
        Some((13, 13))
    } else if same_text(element_type, "prism6") {
        Some((6, 6))
    } else if same_text(element_type, "prism15") {
        Some((15, 15))
    } else if same_text(element_type, "hex8") {
        Some((8, 8))
    } else if same_text(element_type, "hex20") {
        Some((20, 20))
    } else if same_text(element_type, "hex27") {
        Some((27, 27))
    } else if same_text(element_type, "polyhedron") {
        Some((4, usize::MAX))
    } else {
        None
    }
}

/// Whether a number of points suits an element type.
pub open spec fn arity_ok(element_type: Seq<char>, count: nat) -> bool {
    points_of(element_type) matches Some(range) && range.0 <= count <= range.1
}

/// Exactly the element types with a dimension have a number of points.
pub proof fn element_tables_agree(element_type: Seq<char>)
    ensures
        dimension_of(element_type) is Some <==> points_of(element_type) is Some,
{
}

/// A run of record batches, from `start` up to but not including `end`.
#[derive(Debug, Clone, Copy, PartialEq, Eq, Structural)]
pub struct BatchRange {
    pub start: usize,
    pub end: usize,
}

impl BatchRange {
    pub open spec fn holds(self, index: usize) -> bool {
        self.start <= index < self.end
    }

    pub open spec fn empty(self) -> bool {
        self.start == self.end
    }

    pub fn contains(&self, index: usize) -> (result: bool)
        ensures
            result == self.holds(index),
    {
        self.start <= index && index < self.end
    }
}

/// How many entities of each kind a mesh has.
#[derive(Debug, Clone, Copy, PartialEq, Eq, Structural)]
pub struct MeshCounts {
    pub points: u64,
    pub edges: u64,
    pub faces: u64,
    pub cells: u64,
    pub spatial_nodes: u64,
}

impl Default for MeshCounts {
    fn default() -> (result: Self)
        ensures
            result == (MeshCounts { points: 0, edges: 0, faces: 0, cells: 0, spatial_nodes: 0 }),
    {
        MeshCounts { points: 0, edges: 0, faces: 0, cells: 0, spatial_nodes: 0 }
    }
}

impl MeshCounts {
    /// Points, edges, faces and cells together.
    pub open spec fn entities(self) -> int {
        self.points + self.edges + self.faces + self.cells
    }

    pub fn entity_count(&self) -> (result: u64)
        requires
            self.entities() <= u64::MAX,
        ensures
            result == self.entities(),
    {
        self.points + self.edges + self.faces + self.cells
    }
}

/// What the last batch of a mesh file says of the rest.
#[derive(Debug)]
pub struct MeshManifest {
    pub schema_name: String,
    pub schema_version: u32,
    pub dimension: u8,
    pub coordinate_system: String,
    pub bounds: Bounds3,
    pub catalog_batches: BatchRange,
    pub exact_batches: BatchRange,
    pub preview_batches: BatchRange,
    pub spatial_batches: BatchRange,
    pub directory_batches: BatchRange,
    pub spatial_root: u64,
    pub counts: MeshCounts,
}

/// One row of the batch directory.
#[derive(Debug)]
pub struct BatchDirectoryEntry {
    pub batch_index: usize,
    pub row_kind: RowKind,
    pub spatial_node_id: Option<u64>,
    pub bounds: Option<Bounds3>,
    pub rows: usize,
    pub decoded_bytes: usize,
    pub element_types: Vec<String>,
    pub zone_ids: Vec<u64>,
    pub tag_ids: Vec<u64>,
}

/// The texts that a vector of strings holds.
pub open spec fn texts(strings: Seq<String>) -> Seq<Seq<char>> {
    Seq::new(strings.len(), |i: int| strings[i]@)
}

/// What a directory row says, as plain values.
#[verifier::ext_equal]
pub struct DirectoryRow {
    pub batch_index: usize,
    pub row_kind: RowKind,
    pub spatial_node_id: Option<u64>,
    pub bounds: Option<Bounds3>,
    pub rows: usize,
    pub decoded_bytes: usize,
    pub element_types: Seq<Seq<char>>,
    pub zone_ids: Seq<u64>,
    pub tag_ids: Seq<u64>,
}

impl View for BatchDirectoryEntry {
    type V = DirectoryRow;

    open spec fn view(&self) -> DirectoryRow {
        DirectoryRow {
            batch_index: self.batch_index,
            row_kind: self.row_kind,
            spatial_node_id: self.spatial_node_id,
            bounds: self.bounds,
            rows: self.rows,
            decoded_bytes: self.decoded_bytes,
            element_types: texts(self.element_types@),
            zone_ids: self.zone_ids@,
            tag_ids: self.tag_ids@,
        }
    }
}

/// Copies a list of strings.
pub fn copy_texts(strings: &Vec<String>) -> (result: Vec<String>)
    ensures
        texts(result@) == texts(strings@),
{
    let mut out: Vec<String> = Vec::new();
    let mut i: usize = 0;
    while i < strings.len()
        invariant
            i <= strings.len(),
            out.len() == i,
            forall|k: int| 0 <= k < i ==> (#[trigger] out[k])@ == strings[k]@,
        decreases strings.len() - i,
    {
        out.push(strings[i].clone());
        i += 1;
    }
    assert(texts(out@) =~= texts(strings@));
    out
}

fn copy_numbers(numbers: &Vec<u64>) -> (result: Vec<u64>)
    ensures
        result@ == numbers@,
{
    let mut out: Vec<u64> = Vec::new();
    let mut i: usize = 0;
    while i < numbers.len()
        invariant
            i <= numbers.len(),
            out@ == numbers@.take(i as int),
        decreases numbers.len() - i,
    {
        out.push(numbers[i]);
        assert(out@ =~= numbers@.take(i + 1));
        i += 1;
    }
    assert(numbers@.take(i as int) =~= numbers@);
    out
}

impl BatchDirectoryEntry {
    /// A copy of the row.
    pub fn duplicate(&self) -> (result: BatchDirectoryEntry)
        ensures
            result@ == self@,
    {
        BatchDirectoryEntry {
            batch_index: self.batch_index,
            row_kind: self.row_kind,
            spatial_node_id: self.spatial_node_id,
            bounds: self.bounds,
            rows: self.rows,
            decoded_bytes: self.decoded_bytes,
            element_types: copy_texts(&self.element_types),
            zone_ids: copy_numbers(&self.zone_ids),
            tag_ids: copy_numbers(&self.tag_ids),
        }
    }
}

/// The text ends in the other one.
pub open spec fn ends_in(text: Seq<char>, end: Seq<char>) -> bool {
    end.len() <= text.len() && text.subrange(text.len() - end.len(), text.len() as int) == end
}

/// The name of an element type with a fixed number of points ends in that number.
pub proof fn names_tell_points(element_type: Seq<char>)
    ensures
        points_of(element_type) matches Some((least, most)) ==> (least == most ==> ends_in(
            element_type,
            decimal(least as nat),
        )),
        points_of(element_type) is Some <==> dimension_of(element_type) is Some,
        points_of(element_type) matches Some((least, most)) ==> (least != most ==> most
            == usize::MAX && dimension_of(element_type) == Some((least - 1) as u8)),
{
    reveal_strlit("edge2");
    reveal_strlit("edge3");
    reveal_strlit("tri3");
    reveal_strlit("tri6");
    reveal_strlit("quad4");
    reveal_strlit("quad8");
    reveal_strlit("quad9");
    reveal_strlit("polygon");
    reveal_strlit("tet4");
    reveal_strlit("tet10");
    reveal_strlit("pyramid5");
    reveal_strlit("pyramid13");
    reveal_strlit("prism6");
    reveal_strlit("prism15");
    reveal_strlit("hex8");
    reveal_strlit("hex20");
    reveal_strlit("hex27");
    reveal_strlit("polyhedron");
    if let Some((least, most)) = points_of(element_type) {
        if least == most {
            short_decimal(least as nat);
            assert(ends_in(element_type, decimal(least as nat))) by {
                let end = decimal(least as nat);
                assert(element_type.subrange(element_type.len() - end.len(), element_type.len() as int)
                    =~= end);
            }
        }
    }
}

proof fn short_decimal(n: nat)
    requires
        n < 100,
    ensures
        n < 10 ==> decimal(n) == seq![digit(n)],
        n >= 10 ==> decimal(n) == seq![digit(n / 10), digit(n % 10)],
{
    reveal_with_fuel(decimal, 3);
    if n < 10 {
        assert(decimal(n) =~= seq![digit(n)]);
    } else {
        assert(decimal(n) =~= seq![digit(n / 10), digit(n % 10)]);
    }
}

} // verus!
