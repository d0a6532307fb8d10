//! The SU2 text format: numbered points, elements over their numbers, and the
//! boundary elements under their markers.

use vstd::prelude::*;
use vstd::string::StringExecFns;

#[allow(unused_imports)]
use crate::error::{fails_file, fails_input};
use crate::error::{MeshError, MeshResult};
#[allow(unused_imports)]
use crate::schema::{dimension_of, points_of};
use crate::sorted::{SortedMap, SortedSet};
#[allow(unused_imports)]
use crate::text::{debug_text, decimal};
use crate::text::{append_decimal, join, quoted, same_text, sentence};

verus! {

/// SU2's code of an element type; `None` for a type that it does not know.
pub open spec fn code_of(element_type: Seq<char>) -> Option<u64> {
    if element_type == "edge2"@ || element_type == "edge3"@ {
        Some(3u64)
    } else if element_type == "tri3"@ || element_type == "tri6"@ {
        Some(5u64)
    } else if element_type == "quad4"@ || element_type == "quad8"@ || element_type == "quad9"@ {
        Some(9u64)
    } else if element_type == "tet4"@ || element_type == "tet10"@ {
        Some(10u64)
    } else if element_type == "hex8"@ || element_type == "hex20"@ || element_type == "hex27"@ {
        Some(12u64)
    } else if element_type == "prism6"@ || element_type == "prism15"@ {
        Some(13u64)
    } else if element_type == "pyramid5"@ || element_type == "pyramid13"@ {
        Some(14u64)
    } else {
        None
    }
}

pub fn su2_code(element_type: &str) -> (result: Option<u64>)
    ensures
        result == code_of(element_type@),
{
    if same_text(element_type, "edge2") || same_text(element_type, "edge3") {
        Some(3)
    } else if same_text(element_type, "tri3") || same_text(element_type, "tri6") {
        Some(5)
    } else if same_text(element_type, "quad4") || same_text(element_type, "quad8") || same_text(
        element_type,
        "quad9",
    ) {
        Some(9)
    } else if same_text(element_type, "tet4") || same_text(element_type, "tet10") {
        Some(10)
    } else if same_text(element_type, "hex8") || same_text(element_type, "hex20") || same_text(
        element_type,
        "hex27",
    ) {
        Some(12)
    } else if same_text(element_type, "prism6") || same_text(element_type, "prism15") {
        Some(13)
    } else if same_text(element_type, "pyramid5") || same_text(element_type, "pyramid13") {
        Some(14)
    } else {
        None
    }
}

/// One point row: its ID, whether it is a ghost, its coordinates as text.
#[derive(Debug)]
pub struct PointLine {
    pub id: u64,
    pub ghost_row: bool,
    pub x: String,
    pub y: String,
    pub z: String,
}

/// The points written so far: the text, and the number of each point's ID.
#[verifier::ext_equal]
pub struct Numbering {
    pub text: Seq<char>,
    pub numbers: Map<u64, usize>,
    pub next: nat,
}

/// The line of a point.
pub open spec fn point_line(dimension: u8, point: PointLine, number: nat) -> Seq<char> {
    if dimension == 2 {
        point.x@ + " "@ + point.y@ + " "@ + decimal(number) + "\n"@
    } else {
        point.x@ + " "@ + point.y@ + " "@ + point.z@ + " "@ + decimal(number) + "\n"@
    }
}

/// The points written so far and one more row. Ghosts are passed over.
pub open spec fn with_point(dimension: u8, seen: Numbering, point: PointLine) -> Numbering {
    if point.ghost_row {
        seen
    } else {
        Numbering {
            text: seen.text + point_line(dimension, point, seen.next),
            numbers: seen.numbers.insert(point.id, seen.next as usize),
            next: seen.next + 1,
        }
    }
}

/// The row gives a point that has its number a second owner.
pub open spec fn second_owner(seen: Numbering, point: PointLine) -> bool {
    !point.ghost_row && seen.numbers.dom().contains(point.id)
}

/// The points written after the first rows of a list, or the first fault.
pub open spec fn with_points(
    dimension: u8,
    seen: Numbering,
    points: Seq<PointLine>,
    rows: int,
) -> Result<Numbering, Seq<char>>
    decreases rows,
{
    if rows <= 0 {
        Ok(seen)
    } else {
        match with_points(dimension, seen, points, rows - 1) {
            Err(message) => Err(message),
            Ok(last) => if second_owner(last, points[rows - 1]) {
                Err(
                    "point "@ + decimal(points[rows - 1].id as nat)
                        + " has more than one owner row"@,
                )
            } else {
                Ok(with_point(dimension, last, points[rows - 1]))
            },
        }
    }
}

proof fn point_fault_stays(
    dimension: u8,
    seen: Numbering,
    points: Seq<PointLine>,
    rows: int,
    all: int,
)
    requires
        rows <= all,
        with_points(dimension, seen, points, rows) is Err,
    ensures
        with_points(dimension, seen, points, all) == with_points(dimension, seen, points, rows),
    decreases all - rows,
{
    if rows < all {
        point_fault_stays(dimension, seen, points, rows, all - 1);
    }
}

/// The points written so far.
#[derive(Debug)]
pub struct PointNumbers {
    pub text: String,
    pub numbers: SortedMap<u64, usize>,
}

impl View for PointNumbers {
    type V = Numbering;

    open spec fn view(&self) -> Numbering {
        Numbering {
            text: self.text@,
            numbers: self.numbers@,
            next: self.numbers.keys@.len(),
        }
    }
}

impl PointNumbers {
    pub open spec fn wf(self) -> bool {
        self.numbers.wf()
    }

    /// Starts with a text and no points.
    pub fn new(text: String) -> (result: PointNumbers)
        ensures
            result.wf(),
            result@ == (Numbering { text: text@, numbers: Map::empty(), next: 0 }),
    {
        PointNumbers { text, numbers: SortedMap::new() }
    }

    /// Writes the rows of a list.
    pub fn write(&mut self, dimension: u8, points: &Vec<PointLine>) -> (result: MeshResult<()>)
        requires
            old(self).wf(),
        ensures
            match with_points(dimension, old(self)@, points@, points@.len() as int) {
                Ok(last) => result is Ok && final(self).wf() && final(self)@ == last,
                Err(message) => fails_file(result, message),
            },
    {
        let ghost start = self@;
        let ghost all = points@.len() as int;
        let mut row: usize = 0;
        while row < points.len()
            invariant
                row <= points.len(),
                all == points@.len(),
                self.wf(),
                start == old(self)@,
                with_points(dimension, start, points@, row as int) == Ok::<Numbering, Seq<char>>(
                    self@,
                ),
            decreases points.len() - row,
        {
            let ghost before = self@;
            let point = &points[row];
            if !point.ghost_row {
                let number: usize = self.numbers.len();
                if !self.numbers.insert(point.id, number) {
                    proof {
                        assert(with_points(dimension, start, points@, row + 1) is Err);
                        point_fault_stays(dimension, start, points@, row + 1, all);
                    }
                    return Err(
                        MeshError::InvalidFile(
                            sentence("point ", point.id, " has more than one owner row"),
                        ),
                    );
                }
                self.text.append(point.x.as_str());
                self.text.append(" ");
                self.text.append(point.y.as_str());
                self.text.append(" ");
                if dimension != 2 {
                    self.text.append(point.z.as_str());
                    self.text.append(" ");
                }
                append_decimal(&mut self.text, number as u64);
                self.text.append("\n");
                assert(self.text@ =~= before.text + point_line(dimension, *point, before.next));
            }
            assert(self@ =~= with_point(dimension, before, points@[row as int]));
            row += 1;
        }
        Ok(())
    }
}

/// Numbered points have different numbers, each below the next one.
pub open spec fn numbers_distinct(seen: Numbering) -> bool {
    &&& seen.next <= usize::MAX
    &&& forall|a: u64| #[trigger] seen.numbers.dom().contains(a) ==> seen.numbers[a] < seen.next
    &&& forall|a: u64, b: u64|
        #![trigger seen.numbers[a], seen.numbers[b]]
        seen.numbers.dom().contains(a) && seen.numbers.dom().contains(b) && seen.numbers[a]
            == seen.numbers[b] ==> a == b
}

/// Writing points keeps their numbers distinct and below the next one.
pub proof fn numbers_stay_distinct(
    dimension: u8,
    seen: Numbering,
    points: Seq<PointLine>,
    rows: int,
    last: Numbering,
)
    requires
        numbers_distinct(seen),
        0 <= rows <= points.len(),
        seen.next + rows <= usize::MAX,
        with_points(dimension, seen, points, rows) == Ok::<Numbering, Seq<char>>(last),
    ensures
        numbers_distinct(last),
        last.next <= seen.next + rows,
    decreases rows,
{
    if rows > 0 {
        let less = with_points(dimension, seen, points, rows - 1)->Ok_0;
        numbers_stay_distinct(dimension, seen, points, rows - 1, less);
    }
}

/// The numbers of an element's points, each after a space; or the first point
/// without a number.
pub open spec fn numbers_text(numbers: Map<u64, usize>, points: Seq<u64>, count: int) -> Result<
    Seq<char>,
    u64,
>
    decreases count,
{
    if count <= 0 {
        Ok(Seq::empty())
    } else {
        match numbers_text(numbers, points, count - 1) {
            Err(point) => Err(point),
            Ok(text) => if numbers.dom().contains(points[count - 1]) {
                Ok(text + " "@ + decimal(numbers[points[count - 1]] as nat))
            } else {
                Err(points[count - 1])
            },
        }
    }
}

proof fn missing_point_stays(numbers: Map<u64, usize>, points: Seq<u64>, count: int, all: int)
    requires
        count <= all,
        numbers_text(numbers, points, count) is Err,
    ensures
        numbers_text(numbers, points, all) == numbers_text(numbers, points, count),
    decreases all - count,
{
    if count < all {
        missing_point_stays(numbers, points, count, all - 1);
    }
}

/// Appends the numbers of an element's points, or returns the first point
/// without one.
fn append_numbers(text: &mut String, numbers: &SortedMap<u64, usize>, points: &Vec<u64>) -> (result:
    Option<u64>)
    requires
        numbers.wf(),
    ensures
        match numbers_text(numbers@, points@, points@.len() as int) {
            Ok(line) => result is None && final(text)@ == old(text)@ + line,
            Err(point) => result == Some(point),
        },
{
    let ghost start = text@;
    let ghost all = points@.len() as int;
    let mut i: usize = 0;
    assert(start + Seq::<char>::empty() =~= start);
    while i < points.len()
        invariant
            i <= points.len(),
            all == points@.len(),
            numbers.wf(),
            start == old(text)@,
            numbers_text(numbers@, points@, i as int) matches Ok(line) && text@ == start + line,
        decreases points.len() - i,
    {
        let ghost line = numbers_text(numbers@, points@, i as int)->Ok_0;
        match numbers.get(&points[i]) {
            Some(number) => {
                text.append(" ");
                append_decimal(text, *number as u64);
                assert(text@ =~= start + (line + " "@ + decimal(*number as nat)));
            },
            None => {
                proof {
                    assert(numbers_text(numbers@, points@, i + 1) is Err);
                    missing_point_stays(numbers@, points@, i + 1, all);
                }
                return Some(points[i]);
            },
        }
        i += 1;
    }
    None
}

/// One element row: its type and the IDs of its points.
#[derive(Debug)]
pub struct ElementLine {
    pub element_type: String,
    pub points: Vec<u64>,
}

/// Why an element cannot be written.
pub enum ElementFault {
    UnknownType,
    MissingPoint(u64),
}

/// The code and the numbers of an element, or why it cannot be written.
pub open spec fn element_text(numbers: Map<u64, usize>, element: ElementLine) -> Result<
    Seq<char>,
    ElementFault,
> {
    match code_of(element.element_type@) {
        None => Err(ElementFault::UnknownType),
        Some(code) => match numbers_text(numbers, element.points@, element.points@.len() as int) {
            Ok(text) => Ok(decimal(code as nat) + text),
            Err(point) => Err(ElementFault::MissingPoint(point)),
        },
    }
}

fn append_element(
    text: &mut String,
    numbers: &SortedMap<u64, usize>,
    element: &ElementLine,
) -> (result: Option<ElementFault>)
    requires
        numbers.wf(),
    ensures
        match element_text(numbers@, *element) {
            Ok(line) => result is None && final(text)@ == old(text)@ + line,
            Err(fault) => result == Some(fault),
        },
{
    let ghost start = text@;
    match su2_code(element.element_type.as_str()) {
        None => Some(ElementFault::UnknownType),
        Some(code) => {
            append_decimal(text, code);
            match append_numbers(text, numbers, &element.points) {
                None => {
                    proof {
                        let line = numbers_text(
                            numbers@,
                            element.points@,
                            element.points@.len() as int,
                        )->Ok_0;
                        assert(text@ =~= start + (decimal(code as nat) + line));
                    }
                    None
                },
                Some(point) => Some(ElementFault::MissingPoint(point)),
            }
        },
    }
}

/// The cells written after the first rows of a list: the text and the number
/// of the next cell; or the row and the fault of the first that cannot be
/// written.
pub open spec fn with_cells(
    numbers: Map<u64, usize>,
    text: Seq<char>,
    first: nat,
    cells: Seq<ElementLine>,
    rows: int,
) -> Result<Seq<char>, (int, ElementFault)>
    decreases rows,
{
    if rows <= 0 {
        Ok(text)
    } else {
        match with_cells(numbers, text, first, cells, rows - 1) {
            Err(fault) => Err(fault),
            Ok(last) => match element_text(numbers, cells[rows - 1]) {
                Ok(line) => Ok(last + line + " "@ + decimal((first + rows - 1) as nat) + "\n"@),
                Err(fault) => Err((rows - 1, fault)),
            },
        }
    }
}

proof fn cell_fault_stays(
    numbers: Map<u64, usize>,
    text: Seq<char>,
    first: nat,
    cells: Seq<ElementLine>,
    rows: int,
    all: int,
)
    requires
        rows <= all,
        with_cells(numbers, text, first, cells, rows) is Err,
    ensures
        with_cells(numbers, text, first, cells, all) == with_cells(numbers, text, first, cells, rows),
    decreases all - rows,
{
    if rows < all {
        cell_fault_stays(numbers, text, first, cells, rows, all - 1);
    }
}

/// The result is the error that a fault of a cell gives.
pub open spec fn cell_error<T>(
    result: MeshResult<T>,
    cell: ElementLine,
    fault: ElementFault,
) -> bool {
    match fault {
        ElementFault::UnknownType => fails_input(
            result,
            "SU2 export does not support "@ + debug_text(cell.element_type@),
        ),
        ElementFault::MissingPoint(point) => fails_file(
            result,
            "element references missing point "@ + decimal(point as nat) + ""@,
        ),
    }
}

pub(crate) proof fn cell_fault_is_there(
    numbers: Map<u64, usize>,
    text: Seq<char>,
    first: nat,
    cells: Seq<ElementLine>,
    rows: int,
)
    requires
        rows <= cells.len(),
    ensures
        with_cells(numbers, text, first, cells, rows) matches Err(fault) ==> 0 <= fault.0 < rows
            && element_text(numbers, cells[fault.0]) == Err::<Seq<char>, ElementFault>(fault.1),
    decreases rows,
{
    if rows > 0 {
        cell_fault_is_there(numbers, text, first, cells, rows - 1);
    }
}

/// Writes cells, numbered from `first` on.
pub fn write_cells(
    text: &mut String,
    numbers: &SortedMap<u64, usize>,
    first: usize,
    cells: &Vec<ElementLine>,
) -> (result: MeshResult<()>)
    requires
        numbers.wf(),
        first + cells@.len() <= usize::MAX,
    ensures
        match with_cells(numbers@, old(text)@, first as nat, cells@, cells@.len() as int) {
            Ok(last) => result is Ok && final(text)@ == last,
            Err(fault) => cell_error(result, cells@[fault.0], fault.1),
        },
{
    let ghost start = text@;
    let ghost all = cells@.len() as int;
    let mut row: usize = 0;
    while row < cells.len()
        invariant
            row <= cells.len(),
            all == cells@.len(),
            numbers.wf(),
            first + cells@.len() <= usize::MAX,
            start == old(text)@,
            with_cells(numbers@, start, first as nat, cells@, row as int) == Ok::<
                Seq<char>,
                (int, ElementFault),
            >(text@),
        decreases cells.len() - row,
    {
        let ghost before = text@;
        let cell = &cells[row];
        match append_element(text, numbers, cell) {
            None => {},
            Some(fault) => {
                proof {
                    assert(with_cells(numbers@, start, first as nat, cells@, row + 1) is Err);
                    cell_fault_stays(numbers@, start, first as nat, cells@, row + 1, all);
                }
                return Err(
                    match fault {
                        ElementFault::UnknownType => MeshError::InvalidInput(
                            join(
                                "SU2 export does not support ",
                                quoted(cell.element_type.as_str()).as_str(),
                            ),
                        ),
                        ElementFault::MissingPoint(point) => MeshError::InvalidFile(
                            sentence("element references missing point ", point, ""),
                        ),
                    },
                );
            },
        }
        text.append(" ");
        append_decimal(text, (first + row) as u64);
        text.append("\n");
        row += 1;
    }
    Ok(())
}

/// One boundary element: its marker's tag, its type and its points.
#[derive(Debug)]
pub struct BoundaryLine {
    pub tag: u64,
    pub element: ElementLine,
}

/// The tags of the boundary elements.
pub open spec fn tags_of(lines: Seq<BoundaryLine>) -> Set<u64> {
    Set::new(|tag: u64| exists|i: int| 0 <= i < lines.len() && (#[trigger] lines[i]).tag == tag)
}

/// How many of the first boundary elements have a tag.
pub open spec fn tag_count(lines: Seq<BoundaryLine>, tag: u64, rows: int) -> nat
    decreases rows,
{
    if rows <= 0 {
        0
    } else {
        tag_count(lines, tag, rows - 1) + if lines[rows - 1].tag == tag {
            1nat
        } else {
            0nat
        }
    }
}

/// The text with the first boundary elements of a tag, one to a line; or the
/// row and the fault of the first that cannot be written.
pub open spec fn with_marked(
    numbers: Map<u64, usize>,
    text: Seq<char>,
    lines: Seq<BoundaryLine>,
    tag: u64,
    rows: int,
) -> Result<Seq<char>, (int, ElementFault)>
    decreases rows,
{
    if rows <= 0 {
        Ok(text)
    } else {
        match with_marked(numbers, text, lines, tag, rows - 1) {
            Err(fault) => Err(fault),
            Ok(last) => if lines[rows - 1].tag != tag {
                Ok(last)
            } else {
                match element_text(numbers, lines[rows - 1].element) {
                    Ok(line) => Ok(last + line + "\n"@),
                    Err(fault) => Err((rows - 1, fault)),
                }
            },
        }
    }
}

proof fn marked_fault_stays(
    numbers: Map<u64, usize>,
    text: Seq<char>,
    lines: Seq<BoundaryLine>,
    tag: u64,
    rows: int,
    all: int,
)
    requires
        rows <= all,
        with_marked(numbers, text, lines, tag, rows) is Err,
    ensures
        with_marked(numbers, text, lines, tag, all) == with_marked(numbers, text, lines, tag, rows),
    decreases all - rows,
{
    if rows < all {
        marked_fault_stays(numbers, text, lines, tag, rows, all - 1);
    }
}

/// The result is the error that a fault of a boundary element gives.
pub open spec fn boundary_error<T>(
    result: MeshResult<T>,
    line: BoundaryLine,
    fault: ElementFault,
) -> bool {
    match fault {
        ElementFault::UnknownType => fails_input(
            result,
            "SU2 export does not support boundary type "@ + debug_text(
                line.element.element_type@,
            ),
        ),
        ElementFault::MissingPoint(point) => fails_file(
            result,
            "boundary element references missing point "@ + decimal(point as nat) + ""@,
        ),
    }
}

fn count_tag(lines: &Vec<BoundaryLine>, tag: u64) -> (result: usize)
    ensures
        result == tag_count(lines@, tag, lines@.len() as int),
{
    let mut count: usize = 0;
    let mut row: usize = 0;
    while row < lines.len()
        invariant
            count <= row <= lines.len(),
            count == tag_count(lines@, tag, row as int),
        decreases lines.len() - row,
    {
        if lines[row].tag == tag {
            count += 1;
        }
        row += 1;
    }
    count
}

fn write_marked(
    text: &mut String,
    numbers: &SortedMap<u64, usize>,
    lines: &Vec<BoundaryLine>,
    tag: u64,
) -> (result: MeshResult<()>)
    requires
        numbers.wf(),
    ensures
        match with_marked(numbers@, old(text)@, lines@, tag, lines@.len() as int) {
            Ok(last) => result is Ok && final(text)@ == last,
            Err(fault) => boundary_error(result, lines@[fault.0], fault.1),
        },
{
    let ghost start = text@;
    let ghost all = lines@.len() as int;
    let mut row: usize = 0;
    while row < lines.len()
        invariant
            row <= lines.len(),
            all == lines@.len(),
            numbers.wf(),
            start == old(text)@,
            with_marked(numbers@, start, lines@, tag, row as int) == Ok::<
                Seq<char>,
                (int, ElementFault),
            >(text@),
        decreases lines.len() - row,
    {
        let line = &lines[row];
        if line.tag == tag {
            match append_element(text, numbers, &line.element) {
                None => {
                    text.append("\n");
                },
                Some(fault) => {
                    proof {
                        assert(with_marked(numbers@, start, lines@, tag, row + 1) is Err);
                        marked_fault_stays(numbers@, start, lines@, tag, row + 1, all);
                    }
                    return Err(
                        match fault {
                            ElementFault::UnknownType => MeshError::InvalidInput(
                                join(
                                    "SU2 export does not support boundary type ",
                                    quoted(line.element.element_type.as_str()).as_str(),
                                ),
                            ),
                            ElementFault::MissingPoint(point) => MeshError::InvalidFile(
                                sentence("boundary element references missing point ", point, ""),
                            ),
                        },
                    );
                },
            }
        }
        row += 1;
    }
    Ok(())
}

/// The tags of the boundary elements, in order.
pub fn marker_tags(lines: &Vec<BoundaryLine>) -> (result: SortedSet<u64>)
    ensures
        result.wf(),
        result@ == tags_of(lines@),
{
    let mut tags = SortedSet::<u64>::new();
    let mut row: usize = 0;
    assert(tags@ =~= tags_of(lines@.take(0)));
    while row < lines.len()
        invariant
            row <= lines.len(),
            tags.wf(),
            tags@ == tags_of(lines@.take(row as int)),
        decreases lines.len() - row,
    {
        let ghost before = lines@.take(row as int);
        let ghost after = lines@.take(row + 1);
        tags.insert(lines[row].tag);
        assert(tags@ =~= tags_of(after)) by {
            assert forall|tag: u64| tags@.contains(tag) <==> tags_of(after).contains(tag) by {
                if tags_of(before).contains(tag) {
                    let i = choose|i: int| 0 <= i < before.len() && (#[trigger] before[i]).tag == tag;
                    assert(after[i].tag == tag);
                }
                if tag == lines@[row as int].tag {
                    assert(after[row as int].tag == tag);
                }
                if tags_of(after).contains(tag) {
                    let i = choose|i: int| 0 <= i < after.len() && (#[trigger] after[i]).tag == tag;
                    if i < row {
                        assert(before[i].tag == tag);
                    }
                }
            }
        }
        row += 1;
    }
    assert(lines@.take(row as int) =~= lines@);
    tags
}

/// A marker's tag with its label.
#[derive(Debug)]
pub struct Marker {
    pub tag: u64,
    pub label: String,
}

/// The text with one marker and its elements.
pub open spec fn with_marker(
    numbers: Map<u64, usize>,
    text: Seq<char>,
    lines: Seq<BoundaryLine>,
    marker: Marker,
) -> Result<Seq<char>, (int, ElementFault)> {
    with_marked(
        numbers,
        text + "MARKER_TAG= "@ + marker.label@ + "\nMARKER_ELEMS= "@ + decimal(
            tag_count(lines, marker.tag, lines.len() as int),
        ) + "\n"@,
        lines,
        marker.tag,
        lines.len() as int,
    )
}

/// The text with the first markers, or the row and the fault of the first
/// boundary element that cannot be written.
pub open spec fn with_markers(
    numbers: Map<u64, usize>,
    text: Seq<char>,
    lines: Seq<BoundaryLine>,
    markers: Seq<Marker>,
    count: int,
) -> Result<Seq<char>, (int, ElementFault)>
    decreases count,
{
    if count <= 0 {
        Ok(text)
    } else {
        match with_markers(numbers, text, lines, markers, count - 1) {
            Err(fault) => Err(fault),
            Ok(last) => with_marker(numbers, last, lines, markers[count - 1]),
        }
    }
}

proof fn marker_fault_stays(
    numbers: Map<u64, usize>,
    text: Seq<char>,
    lines: Seq<BoundaryLine>,
    markers: Seq<Marker>,
    count: int,
    all: int,
)
    requires
        count <= all,
        with_markers(numbers, text, lines, markers, count) is Err,
    ensures
        with_markers(numbers, text, lines, markers, all) == with_markers(
            numbers,
            text,
            lines,
            markers,
            count,
        ),
    decreases all - count,
{
    if count < all {
        marker_fault_stays(numbers, text, lines, markers, count, all - 1);
    }
}

proof fn marked_fault_is_there(
    numbers: Map<u64, usize>,
    text: Seq<char>,
    lines: Seq<BoundaryLine>,
    tag: u64,
    rows: int,
)
    requires
        rows <= lines.len(),
    ensures
        with_marked(numbers, text, lines, tag, rows) matches Err(fault) ==> 0 <= fault.0 < rows
            && element_text(numbers, lines[fault.0].element) == Err::<Seq<char>, ElementFault>(
            fault.1,
        ),
    decreases rows,
{
    if rows > 0 {
        marked_fault_is_there(numbers, text, lines, tag, rows - 1);
    }
}

pub(crate) proof fn marker_fault_is_there(
    numbers: Map<u64, usize>,
    text: Seq<char>,
    lines: Seq<BoundaryLine>,
    markers: Seq<Marker>,
    count: int,
)
    requires
        count <= markers.len(),
    ensures
        with_markers(numbers, text, lines, markers, count) matches Err(fault) ==> 0 <= fault.0
            < lines.len() && element_text(numbers, lines[fault.0].element) == Err::<
            Seq<char>,
            ElementFault,
        >(fault.1),
    decreases count,
{
    if count > 0 {
        marker_fault_is_there(numbers, text, lines, markers, count - 1);
        if let Ok(last) = with_markers(numbers, text, lines, markers, count - 1) {
            let marker = markers[count - 1];
            let headed = last + "MARKER_TAG= "@ + marker.label@ + "\nMARKER_ELEMS= "@ + decimal(
                tag_count(lines, marker.tag, lines.len() as int),
            ) + "\n"@;
            marked_fault_is_there(numbers, headed, lines, marker.tag, lines.len() as int);
        }
    }
}

/// Writes the markers, each with the boundary elements of its tag.
pub fn write_markers(
    text: &mut String,
    numbers: &SortedMap<u64, usize>,
    lines: &Vec<BoundaryLine>,
    markers: &Vec<Marker>,
) -> (result: MeshResult<()>)
    requires
        numbers.wf(),
    ensures
        match with_markers(
            numbers@,
            old(text)@ + "NMARK= "@ + decimal(markers@.len()) + "\n"@,
            lines@,
            markers@,
            markers@.len() as int,
        ) {
            Ok(last) => result is Ok && final(text)@ == last,
            Err(fault) => boundary_error(result, lines@[fault.0], fault.1),
        },
{
    text.append("NMARK= ");
    append_decimal(text, markers.len() as u64);
    text.append("\n");
    let ghost start = text@;
    let ghost all = markers@.len() as int;
    let mut i: usize = 0;
    while i < markers.len()
        invariant
            i <= markers.len(),
            all == markers@.len(),
            numbers.wf(),
            start == old(text)@ + "NMARK= "@ + decimal(markers@.len()) + "\n"@,
            with_markers(numbers@, start, lines@, markers@, i as int) == Ok::<
                Seq<char>,
                (int, ElementFault),
            >(text@),
        decreases markers.len() - i,
    {
        let ghost before = text@;
        let marker = &markers[i];
        text.append("MARKER_TAG= ");
        text.append(marker.label.as_str());
        text.append("\nMARKER_ELEMS= ");
        append_decimal(text, count_tag(lines, marker.tag) as u64);
        text.append("\n");
        match write_marked(text, numbers, lines, marker.tag) {
            Ok(_) => {},
            Err(error) => {
                proof {
                    assert(with_markers(numbers@, start, lines@, markers@, i + 1) is Err);
                    marker_fault_stays(numbers@, start, lines@, markers@, i + 1, all);
                }
                return Err(error);
            },
        }
        i += 1;
    }
    Ok(())
}

/// Which element types have a code: those with a fixed number of points. The code
/// tells the dimension, and types of one shape, which differ in the number at the end of
/// their names alone, share a code.
pub proof fn codes_tell_shapes(a: Seq<char>, b: Seq<char>)
    ensures
        code_of(a) is Some <==> (points_of(a) matches Some((least, most)) && least == most),
        code_of(a) matches Some(code) ==> dimension_of(a) == Some(
            if code == 3 {
                1u8
            } else if code < 10 {
                2u8
            } else {
                3u8
            },
        ),
        code_of(a) is Some && code_of(b) is Some ==> (code_of(a) == code_of(b) <==> a[0] == b[0]
            && a[1] == b[1]),
{
    reveal_strlit("edge2");
    reveal_strlit("edge3");
    reveal_strlit("tri3");
    reveal_strlit("tri6");
    reveal_strlit("quad4");
    reveal_strlit("quad8");
    reveal_strlit("quad9");
    reveal_strlit("polygon");
    reveal_strlit("tet4");
    reveal_strlit("tet10");
    reveal_strlit("pyramid5");
    reveal_strlit("pyramid13");
    reveal_strlit("prism6");
    reveal_strlit("prism15");
    reveal_strlit("hex8");
    reveal_strlit("hex20");
    reveal_strlit("hex27");
    reveal_strlit("polyhedron");
    assert("edge2"@[0] == 'e' && "edge2"@[1] == 'd' && "edge2"@[4] == '2');
    assert("edge3"@[0] == 'e' && "edge3"@[1] == 'd' && "edge3"@[4] == '3');
    assert("tri3"@[0] == 't' && "tri3"@[1] == 'r' && "tri3"@[3] == '3');
    assert("tri6"@[0] == 't' && "tri6"@[1] == 'r' && "tri6"@[3] == '6');
    assert("quad4"@[0] == 'q' && "quad4"@[1] == 'u' && "quad4"@[4] == '4');
    assert("quad8"@[0] == 'q' && "quad8"@[1] == 'u' && "quad8"@[4] == '8');
    assert("quad9"@[0] == 'q' && "quad9"@[1] == 'u' && "quad9"@[4] == '9');
    assert("polygon"@[0] == 'p' && "polygon"@[1] == 'o' && "polygon"@[6] == 'n');
    assert("tet4"@[0] == 't' && "tet4"@[1] == 'e' && "tet4"@[3] == '4');
    assert("tet10"@[0] == 't' && "tet10"@[1] == 'e' && "tet10"@[4] == '0');
    assert("pyramid5"@[0] == 'p' && "pyramid5"@[1] == 'y' && "pyramid5"@[7] == '5');
    assert("pyramid13"@[0] == 'p' && "pyramid13"@[1] == 'y' && "pyramid13"@[8] == '3');
    assert("prism6"@[0] == 'p' && "prism6"@[1] == 'r' && "prism6"@[5] == '6');
    assert("prism15"@[0] == 'p' && "prism15"@[1] == 'r' && "prism15"@[6] == '5');
    assert("hex8"@[0] == 'h' && "hex8"@[1] == 'e' && "hex8"@[3] == '8');
    assert("hex20"@[0] == 'h' && "hex20"@[1] == 'e' && "hex20"@[4] == '0');
    assert("hex27"@[0] == 'h' && "hex27"@[1] == 'e' && "hex27"@[4] == '7');
    assert("polyhedron"@[0] == 'p' && "polyhedron"@[1] == 'o' && "polyhedron"@[9] == 'n');
}

/// How many of the first rows own their point.
pub open spec fn owners_among(points: Seq<PointLine>, rows: int) -> nat
    decreases rows,
{
    if rows <= 0 {
        0
    } else {
        owners_among(points, rows - 1) + if points[rows - 1].ghost_row {
            0nat
        } else {
            1nat
        }
    }
}

/// The points are numbered in the order of their owner rows, without a gap; ghosts take
/// no number. A list is refused exactly where an owner row repeats a point that has its
/// number.
pub proof fn points_are_numbered_in_order(
    dimension: u8,
    seen: Numbering,
    points: Seq<PointLine>,
    rows: int,
)
    requires
        numbers_distinct(seen),
        0 <= rows <= points.len(),
        seen.next + rows <= usize::MAX,
    ensures
        match with_points(dimension, seen, points, rows) {
            Ok(last) => {
                &&& last.next == seen.next + owners_among(points, rows)
                &&& forall|i: int|
                    0 <= i < rows && !points[i].ghost_row ==> last.numbers.dom().contains(
                        (#[trigger] points[i]).id,
                    ) && last.numbers[points[i].id] == seen.next + owners_among(points, i)
                &&& forall|id: u64|
                    #[trigger] last.numbers.dom().contains(id) <==> seen.numbers.dom().contains(id)
                        || exists|i: int|
                        0 <= i < rows && !(#[trigger] points[i]).ghost_row && points[i].id == id
                &&& forall|id: u64|
                    seen.numbers.dom().contains(id) ==> #[trigger] last.numbers[id]
                        == seen.numbers[id]
                &&& forall|i: int, j: int|
                    0 <= i < j < rows && !(#[trigger] points[i]).ghost_row && !(
                    #[trigger] points[j]).ghost_row ==> points[i].id != points[j].id
            },
            Err(_) => exists|j: int|
                0 <= j < rows && !(#[trigger] points[j]).ghost_row && (seen.numbers.dom().contains(
                    points[j].id,
                ) || exists|i: int|
                    0 <= i < j && !(#[trigger] points[i]).ghost_row && points[i].id == points[j].id),
        },
    decreases rows,
{
    if rows > 0 {
        points_are_numbered_in_order(dimension, seen, points, rows - 1);
        let row = rows - 1;
        let point = points[row];
        if let Ok(less) = with_points(dimension, seen, points, rows - 1) {
            numbers_stay_distinct(dimension, seen, points, rows - 1, less);
            if second_owner(less, point) {
                assert(less.numbers.dom().contains(point.id));
                assert(!points[row].ghost_row);
            } else {
                let last = with_point(dimension, less, point);
                assert forall|i: int| 0 <= i < rows && !points[i].ghost_row implies
                    last.numbers.dom().contains((#[trigger] points[i]).id)
                    && last.numbers[points[i].id] == seen.next + owners_among(points, i) by {
                    if i < row {
                        assert(less.numbers.dom().contains(points[i].id));
                    }
                }
                assert forall|id: u64|
                    #[trigger] last.numbers.dom().contains(id) <==> seen.numbers.dom().contains(id)
                        || exists|i: int|
                        0 <= i < rows && !(#[trigger] points[i]).ghost_row && points[i].id == id by {
                    if last.numbers.dom().contains(id) && !less.numbers.dom().contains(id) {
                        assert(!points[row].ghost_row && points[row].id == id);
                    }
                    if exists|i: int|
                        0 <= i < rows && !(#[trigger] points[i]).ghost_row && points[i].id == id {
                        let i = choose|i: int|
                            0 <= i < rows && !(#[trigger] points[i]).ghost_row && points[i].id == id;
                        if i < row {
                            assert(less.numbers.dom().contains(id));
                        }
                    }
                }
                assert forall|i: int, j: int|
                    0 <= i < j < rows && !(#[trigger] points[i]).ghost_row && !(
                    #[trigger] points[j]).ghost_row implies points[i].id != points[j].id by {
                    if j == row {
                        assert(less.numbers.dom().contains(points[i].id));
                    }
                }
            }
        }
    }
}

/// The numbers of an element's points can be written exactly where each has one.
pub proof fn numbered_points_are_written(numbers: Map<u64, usize>, points: Seq<u64>, count: int)
    requires
        0 <= count <= points.len(),
    ensures
        numbers_text(numbers, points, count) is Ok <==> forall|i: int|
            0 <= i < count ==> numbers.dom().contains(#[trigger] points[i]),
        numbers_text(numbers, points, count) matches Err(point) ==> !numbers.dom().contains(point)
            && exists|i: int| 0 <= i < count && #[trigger] points[i] == point,
    decreases count,
{
    if count > 0 {
        numbered_points_are_written(numbers, points, count - 1);
        if let Err(point) = numbers_text(numbers, points, count - 1) {
            let i = choose|i: int| 0 <= i < count - 1 && #[trigger] points[i] == point;
            assert(!numbers.dom().contains(points[i]));
        } else {
            assert(points[count - 1] == points[count - 1]);
        }
    }
}

/// Cells written in two lists are written as in one: the numbers go on.
pub proof fn cells_are_written_in_a_row(
    numbers: Map<u64, usize>,
    text: Seq<char>,
    first: nat,
    cells: Seq<ElementLine>,
    more: Seq<ElementLine>,
    rows: int,
)
    requires
        0 <= rows <= more.len(),
        with_cells(numbers, text, first, cells, cells.len() as int) is Ok,
    ensures
        match with_cells(
            numbers,
            with_cells(numbers, text, first, cells, cells.len() as int)->Ok_0,
            first + cells.len(),
            more,
            rows,
        ) {
            Ok(last) => with_cells(numbers, text, first, cells + more, cells.len() + rows) == Ok::<
                Seq<char>,
                (int, ElementFault),
            >(last),
            Err(fault) => with_cells(numbers, text, first, cells + more, cells.len() + rows) == Err::<
                Seq<char>,
                (int, ElementFault),
            >((cells.len() + fault.0, fault.1)),
        },
    decreases rows,
{
    let all = cells + more;
    let n = cells.len() as int;
    if rows == 0 {
        same_cells_same_text(numbers, text, first, cells, all, n);
    } else {
        cells_are_written_in_a_row(numbers, text, first, cells, more, rows - 1);
        assert(all[n + rows - 1] == more[rows - 1]);
    }
}

proof fn same_cells_same_text(
    numbers: Map<u64, usize>,
    text: Seq<char>,
    first: nat,
    a: Seq<ElementLine>,
    b: Seq<ElementLine>,
    rows: int,
)
    requires
        0 <= rows <= a.len(),
        rows <= b.len(),
        forall|i: int| 0 <= i < rows ==> #[trigger] a[i] == b[i],
    ensures
        with_cells(numbers, text, first, a, rows) == with_cells(numbers, text, first, b, rows),
    decreases rows,
{
    if rows > 0 {
        same_cells_same_text(numbers, text, first, a, b, rows - 1);
        assert(a[rows - 1] == b[rows - 1]);
    }
}

/// The cells can be written exactly where each has a known type and numbered points.
pub proof fn known_cells_are_written(
    numbers: Map<u64, usize>,
    text: Seq<char>,
    first: nat,
    cells: Seq<ElementLine>,
    rows: int,
)
    requires
        0 <= rows <= cells.len(),
    ensures
        with_cells(numbers, text, first, cells, rows) is Ok <==> forall|i: int|
            0 <= i < rows ==> #[trigger] element_text(numbers, cells[i]) is Ok,
        with_cells(numbers, text, first, cells, rows) matches Err((row, fault)) ==> 0 <= row < rows
            && element_text(numbers, cells[row]) == Err::<Seq<char>, ElementFault>(fault)
            && forall|i: int| 0 <= i < row ==> #[trigger] element_text(numbers, cells[i]) is Ok,
    decreases rows,
{
    if rows > 0 {
        known_cells_are_written(numbers, text, first, cells, rows - 1);
        if let Err((row, fault)) = with_cells(numbers, text, first, cells, rows - 1) {
            assert(!(element_text(numbers, cells[row]) is Ok));
        } else {
            assert(element_text(numbers, cells[rows - 1]) is Ok || element_text(
                numbers,
                cells[rows - 1],
            ) is Err);
        }
    }
}

/// An element can be written exactly where its type has a code and its points have
/// numbers; else the fault says which is missing.
pub proof fn known_elements_are_written(numbers: Map<u64, usize>, element: ElementLine)
    ensures
        element_text(numbers, element) is Ok <==> code_of(element.element_type@) is Some && forall|
            i: int,
        |
            0 <= i < element.points@.len() ==> numbers.dom().contains(#[trigger] element.points@[i]),
        element_text(numbers, element) == Err::<Seq<char>, ElementFault>(ElementFault::UnknownType)
            <==> code_of(element.element_type@) is None,
        element_text(numbers, element) matches Err(ElementFault::MissingPoint(point))
            ==> element.points@.contains(point) && !numbers.dom().contains(point),
{
    numbered_points_are_written(numbers, element.points@, element.points@.len() as int);
}

/// How many lines of a text are ended.
pub open spec fn ended_lines(text: Seq<char>) -> nat
    decreases text.len(),
{
    if text.len() == 0 {
        0
    } else {
        ended_lines(text.drop_last()) + if text.last() == '\n' {
            1nat
        } else {
            0nat
        }
    }
}

proof fn ended_lines_add(a: Seq<char>, b: Seq<char>)
    ensures
        ended_lines(a + b) == ended_lines(a) + ended_lines(b),
    decreases b.len(),
{
    if b.len() == 0 {
        assert(a + b =~= a);
    } else {
        ended_lines_add(a, b.drop_last());
        assert((a + b).drop_last() =~= a + b.drop_last());
        assert((a + b).last() == b.last());
    }
}

proof fn decimal_ends_no_line(value: nat)
    ensures
        ended_lines(decimal(value)) == 0,
    decreases value,
{
    let text = decimal(value);
    if value < 10 {
        reveal_with_fuel(ended_lines, 2);
        assert(text.drop_last() =~= Seq::empty());
        assert(text.last() as int == 48 + value);
    } else {
        decimal_ends_no_line(value / 10);
        assert(text.drop_last() =~= decimal(value / 10));
        assert(text.last() as int == 48 + value % 10);
    }
}

proof fn short_texts_end_lines()
    ensures
        ended_lines(" "@) == 0,
        ended_lines("\n"@) == 1,
{
    reveal_strlit(" ");
    reveal_strlit("\n");
    reveal_with_fuel(ended_lines, 2);
    assert(" "@.drop_last() =~= Seq::empty());
    assert("\n"@.drop_last() =~= Seq::empty());
}

proof fn numbers_end_no_line(numbers: Map<u64, usize>, points: Seq<u64>, count: int)
    ensures
        numbers_text(numbers, points, count) matches Ok(text) ==> ended_lines(text) == 0,
    decreases count,
{
    if count > 0 {
        numbers_end_no_line(numbers, points, count - 1);
        if let Ok(text) = numbers_text(numbers, points, count - 1) {
            let number = decimal(numbers[points[count - 1]] as nat);
            short_texts_end_lines();
            decimal_ends_no_line(numbers[points[count - 1]] as nat);
            ended_lines_add(text, " "@);
            ended_lines_add(text + " "@, number);
        }
    }
}

proof fn element_ends_no_line(numbers: Map<u64, usize>, element: ElementLine)
    ensures
        element_text(numbers, element) matches Ok(text) ==> ended_lines(text) == 0,
{
    numbers_end_no_line(numbers, element.points@, element.points@.len() as int);
    if let Some(code) = code_of(element.element_type@) {
        if let Ok(text) = numbers_text(numbers, element.points@, element.points@.len() as int) {
            decimal_ends_no_line(code as nat);
            ended_lines_add(decimal(code as nat), text);
        }
    }
}

/// Every cell takes one line.
pub proof fn cells_take_a_line_each(
    numbers: Map<u64, usize>,
    text: Seq<char>,
    first: nat,
    cells: Seq<ElementLine>,
    rows: int,
)
    requires
        0 <= rows <= cells.len(),
    ensures
        with_cells(numbers, text, first, cells, rows) matches Ok(last) ==> ended_lines(last)
            == ended_lines(text) + rows,
    decreases rows,
{
    if rows > 0 {
        cells_take_a_line_each(numbers, text, first, cells, rows - 1);
        if let Ok(less) = with_cells(numbers, text, first, cells, rows - 1) {
            if let Ok(line) = element_text(numbers, cells[rows - 1]) {
                let number = decimal((first + rows - 1) as nat);
                element_ends_no_line(numbers, cells[rows - 1]);
                short_texts_end_lines();
                decimal_ends_no_line((first + rows - 1) as nat);
                ended_lines_add(less, line);
                ended_lines_add(less + line, " "@);
                ended_lines_add(less + line + " "@, number);
                ended_lines_add(less + line + " "@ + number, "\n"@);
            }
        }
    }
}

/// A marker is followed by as many lines as it announces: one for each boundary element
/// of its tag.
pub proof fn marker_has_its_lines(
    numbers: Map<u64, usize>,
    text: Seq<char>,
    lines: Seq<BoundaryLine>,
    tag: u64,
    rows: int,
)
    requires
        0 <= rows <= lines.len(),
    ensures
        with_marked(numbers, text, lines, tag, rows) matches Ok(last) ==> ended_lines(last)
            == ended_lines(text) + tag_count(lines, tag, rows),
    decreases rows,
{
    if rows > 0 {
        marker_has_its_lines(numbers, text, lines, tag, rows - 1);
        if let Ok(less) = with_marked(numbers, text, lines, tag, rows - 1) {
            if lines[rows - 1].tag == tag {
                if let Ok(line) = element_text(numbers, lines[rows - 1].element) {
                    element_ends_no_line(numbers, lines[rows - 1].element);
                    short_texts_end_lines();
                    ended_lines_add(less, line);
                    ended_lines_add(less + line, "\n"@);
                }
            }
        }
    }
}

/// The point's coordinates hold no end of line.
pub open spec fn plain_point(point: PointLine) -> bool {
    ended_lines(point.x@) == 0 && ended_lines(point.y@) == 0 && ended_lines(point.z@) == 0
}

/// Every point that is not a ghost takes one line.
pub proof fn points_take_a_line_each(
    dimension: u8,
    seen: Numbering,
    points: Seq<PointLine>,
    rows: int,
)
    requires
        0 <= rows <= points.len(),
        forall|i: int| 0 <= i < points.len() ==> plain_point(#[trigger] points[i]),
    ensures
        with_points(dimension, seen, points, rows) matches Ok(last) ==> ended_lines(last.text)
            == ended_lines(seen.text) + owners_among(points, rows),
    decreases rows,
{
    if rows > 0 {
        points_take_a_line_each(dimension, seen, points, rows - 1);
        let point = points[rows - 1];
        if let Ok(less) = with_points(dimension, seen, points, rows - 1) {
            assert(plain_point(point));
            short_texts_end_lines();
            decimal_ends_no_line(less.next);
            let number = decimal(less.next);
            let start = point.x@ + " "@ + point.y@;
            ended_lines_add(point.x@, " "@);
            ended_lines_add(point.x@ + " "@, point.y@);
            ended_lines_add(start, " "@);
            ended_lines_add(start + " "@, number);
            ended_lines_add(start + " "@ + number, "\n"@);
            ended_lines_add(start + " "@, point.z@);
            ended_lines_add(start + " "@ + point.z@, " "@);
            ended_lines_add(start + " "@ + point.z@ + " "@, number);
            ended_lines_add(start + " "@ + point.z@ + " "@ + number, "\n"@);
            ended_lines_add(less.text, point_line(dimension, point, less.next));
        }
    }
}

/// The elements that a tag counts are those that have it, and the counts of all different
/// tags add up to no more than the elements.
pub proof fn tag_counts_its_elements(lines: Seq<BoundaryLine>, tag: u64, other: u64, rows: int)
    requires
        0 <= rows <= lines.len(),
        tag != other,
    ensures
        tag_count(lines, tag, rows) + tag_count(lines, other, rows) <= rows,
        tag_count(lines, tag, rows) == 0 <==> forall|i: int|
            0 <= i < rows ==> (#[trigger] lines[i]).tag != tag,
        tag_count(lines, tag, rows) == rows <==> forall|i: int|
            0 <= i < rows ==> (#[trigger] lines[i]).tag == tag,
    decreases rows,
{
    if rows > 0 {
        tag_counts_its_elements(lines, tag, other, rows - 1);
        assert(lines[rows - 1].tag == tag || lines[rows - 1].tag != tag);
    }
}

} // verus!
