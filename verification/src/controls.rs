//! Typed, platform-neutral meshing controls.

use vstd::prelude::*;
use vstd::string::StringExecFns;

use crate::domains::{find_domain, region_known, DomainSummary, RegionSummary};
#[allow(unused_imports)]
use crate::domains::{domain_from, has_domain, has_region};
use crate::number::{Real, Vector3};
use crate::text::{join, quoted, same_text};
#[allow(unused_imports)]
use crate::text::debug_text;

verus! {

/// The bits of the difference between 1 and the next larger double.
pub const EPSILON_BITS: u64 = 0x3cb0_0000_0000_0000;

/// The bits of `1.0`.
pub const UNIT_BITS: u64 = 0x3ff0_0000_0000_0000;

/// A region of space that a control applies to.
#[derive(Debug)]
pub enum ControlRegion {
    Box { min: Vector3, max: Vector3 },
    Sphere { center: Vector3, radius: Real },
    Cylinder { a: Vector3, b: Vector3, radius: Real },
    PolylineTube { points: Vec<Vector3>, radius: Real },
    Union(Box<ControlRegion>, Box<ControlRegion>),
    Intersection(Box<ControlRegion>, Box<ControlRegion>),
    Difference(Box<ControlRegion>, Box<ControlRegion>),
}

/// The result is this message.
pub open spec fn says<T>(result: Result<T, String>, message: Seq<char>) -> bool {
    result matches Err(text) && text@ == message
}

/// Refuses a number that is not positive and finite.
pub fn positive_finite(value: Real, name: &str) -> (result: Result<(), String>)
    ensures
        value.positive_finite() ==> result is Ok,
        !value.positive_finite() ==> says(result, name@ + " must be positive and finite"@),
{
    if value.is_positive_finite() {
        Ok(())
    } else {
        Err(join(name, " must be positive and finite"))
    }
}

impl ControlRegion {
    pub fn box_region(min: Vector3, max: Vector3) -> (result: Result<ControlRegion, String>)
        ensures
            max[0].lt(min[0]) || max[1].lt(min[1]) || max[2].lt(min[2]) ==> says(
                result,
                "control box minima must not exceed maxima"@,
            ),
            !(max[0].lt(min[0]) || max[1].lt(min[1]) || max[2].lt(min[2])) ==> result
                == Ok::<ControlRegion, String>(ControlRegion::Box { min, max }),
    {
        if max[0].less(min[0]) || max[1].less(min[1]) || max[2].less(min[2]) {
            return Err("control box minima must not exceed maxima".to_owned());
        }
        Ok(ControlRegion::Box { min, max })
    }

    pub fn sphere(center: Vector3, radius: Real) -> (result: Result<ControlRegion, String>)
        ensures
            radius.positive_finite() ==> result == Ok::<ControlRegion, String>(
                ControlRegion::Sphere { center, radius },
            ),
            !radius.positive_finite() ==> says(
                result,
                "sphere radius"@ + " must be positive and finite"@,
            ),
    {
        match positive_finite(radius, "sphere radius") {
            Ok(()) => Ok(ControlRegion::Sphere { center, radius }),
            Err(text) => Err(text),
        }
    }

    /// `length` is the distance between the two ends.
    pub fn cylinder(a: Vector3, b: Vector3, length: Real, radius: Real) -> (result: Result<
        ControlRegion,
        String,
    >)
        ensures
            !radius.positive_finite() ==> says(
                result,
                "cylinder radius"@ + " must be positive and finite"@,
            ),
            radius.positive_finite() && length.le(Real { bits: EPSILON_BITS }) ==> says(
                result,
                "control cylinder endpoints must be distinct"@,
            ),
            radius.positive_finite() && !length.le(Real { bits: EPSILON_BITS }) ==> result
                == Ok::<ControlRegion, String>(ControlRegion::Cylinder { a, b, radius }),
    {
        match positive_finite(radius, "cylinder radius") {
            Ok(()) => {},
            Err(text) => {
                return Err(text);
            },
        }
        if length.at_most(Real { bits: EPSILON_BITS }) {
            return Err("control cylinder endpoints must be distinct".to_owned());
        }
        Ok(ControlRegion::Cylinder { a, b, radius })
    }

    pub fn polyline_tube(points: Vec<Vector3>, radius: Real) -> (result: Result<
        ControlRegion,
        String,
    >)
        ensures
            !radius.positive_finite() ==> says(
                result,
                "polyline-tube radius"@ + " must be positive and finite"@,
            ),
            radius.positive_finite() && points@.len() < 2 ==> says(
                result,
                "polyline_tube requires at least two points"@,
            ),
            radius.positive_finite() && points@.len() >= 2 ==> result
                == Ok::<ControlRegion, String>(ControlRegion::PolylineTube { points, radius }),
    {
        match positive_finite(radius, "polyline-tube radius") {
            Ok(()) => {},
            Err(text) => {
                return Err(text);
            },
        }
        if points.len() < 2 {
            return Err("polyline_tube requires at least two points".to_owned());
        }
        Ok(ControlRegion::PolylineTube { points, radius })
    }

    pub fn union(self, other: ControlRegion) -> (result: ControlRegion)
        ensures
            result == ControlRegion::Union(Box::new(self), Box::new(other)),
    {
        ControlRegion::Union(Box::new(self), Box::new(other))
    }

    pub fn intersection(self, other: ControlRegion) -> (result: ControlRegion)
        ensures
            result == ControlRegion::Intersection(Box::new(self), Box::new(other)),
    {
        ControlRegion::Intersection(Box::new(self), Box::new(other))
    }

    pub fn difference(self, other: ControlRegion) -> (result: ControlRegion)
        ensures
            result == ControlRegion::Difference(Box::new(self), Box::new(other)),
    {
        ControlRegion::Difference(Box::new(self), Box::new(other))
    }
}

/// A cell size wanted in and around a region.
#[derive(Debug)]
pub struct RefinementControl {
    pub domain: String,
    pub region: ControlRegion,
    pub size: Real,
    pub gradation: Real,
}

/// Layers of flat cells wanted along a boundary region.
#[derive(Debug)]
pub struct BoundaryLayerControl {
    pub domain: String,
    pub boundary_region: String,
    pub hwall_n: Real,
    /// Soft tangential station-size target. Validity and element quality take
    /// precedence, so the mesher may locally split, merge, or move stations.
    pub hwall_t: Real,
    pub ratio: Real,
    pub thickness: Real,
    pub layers: usize,
}

/// The largest number of rows of a layer.
pub const MAX_LAYERS: usize = 1_000_000;

/// How many totals from the first on a thickness holds, given that it holds those
/// before a place: no more than a layer has rows.
pub open spec fn rows_within(totals: Seq<Real>, thickness: Real, place: nat) -> nat
    decreases totals.len() - place,
{
    if place >= totals.len() || place >= MAX_LAYERS || !totals[place as int].le(thickness) {
        place
    } else {
        rows_within(totals, thickness, place + 1)
    }
}

fn count_rows(totals: &Vec<Real>, thickness: Real) -> (result: usize)
    ensures
        result == rows_within(totals@, thickness, 0),
{
    let mut rows: usize = 0;
    while rows < totals.len() && rows < MAX_LAYERS && totals[rows].at_most(thickness)
        invariant
            rows <= totals@.len(),
            rows_within(totals@, thickness, 0) == rows_within(totals@, thickness, rows as nat),
        decreases totals@.len() - rows,
    {
        rows = rows + 1;
    }
    rows
}

/// A thickness holds each of the counted totals, and not the next one: the rows
/// are complete, and one more would exceed the thickness.
pub proof fn rows_are_complete(totals: Seq<Real>, thickness: Real, place: nat)
    requires
        place <= totals.len(),
    ensures
        ({
            let rows = rows_within(totals, thickness, place);
            &&& place <= rows <= totals.len()
            &&& forall|k: int| place <= k < rows ==> (#[trigger] totals[k]).le(thickness)
            &&& rows < totals.len() && rows < MAX_LAYERS ==> !totals[rows as int].le(thickness)
        }),
    decreases totals.len() - place,
{
    if place < totals.len() && place < MAX_LAYERS && totals[place as int].le(thickness) {
        rows_are_complete(totals, thickness, place + 1);
    }
}

/// Why controls do not suit the domains.
#[derive(Debug)]
pub enum ControlFault {
    /// A control names a domain that is not there.
    UnknownDomain(String),
    /// Any other fault, in words.
    Message(String),
}

impl BoundaryLayerControl {
    /// Both controls ask for the same rows.
    pub open spec fn same_rows(self, other: BoundaryLayerControl) -> bool {
        self.hwall_n.same_value(other.hwall_n) && self.ratio.same_value(other.ratio) && self.layers
            == other.layers
    }

    /// Both controls are for the same region.
    pub open spec fn same_place(self, other: BoundaryLayerControl) -> bool {
        self.domain@ == other.domain@ && self.boundary_region@ == other.boundary_region@
    }

    fn conflicts(&self, other: &BoundaryLayerControl) -> (result: bool)
        ensures
            result == (self.same_place(*other) && !self.same_rows(*other)),
    {
        same_text(self.domain.as_str(), other.domain.as_str()) && same_text(
            self.boundary_region.as_str(),
            other.boundary_region.as_str(),
        ) && (!self.hwall_n.equal(other.hwall_n) || !self.ratio.equal(other.ratio) || self.layers
            != other.layers)
    }
}

/// All controls of a meshing job.
#[derive(Debug)]
pub struct ControlSet {
    pub target_size: Option<Real>,
    pub refinements: Vec<RefinementControl>,
    pub boundary_layers: Vec<BoundaryLayerControl>,
}

/// The names of the domain's regions, with commas between.
pub open spec fn region_list(regions: Seq<RegionSummary>) -> Seq<char>
    decreases regions.len(),
{
    if regions.len() == 0 {
        Seq::empty()
    } else if regions.len() == 1 {
        regions[0].name@
    } else {
        region_list(regions.drop_last()) + ", "@ + regions.last().name@
    }
}

fn list_regions(regions: &Vec<RegionSummary>) -> (result: String)
    ensures
        result@ == region_list(regions@),
{
    let mut text = String::new();
    let mut i: usize = 0;
    while i < regions.len()
        invariant
            i <= regions.len(),
            text@ == region_list(regions@.take(i as int)),
        decreases regions.len() - i,
    {
        assert(regions@.take(i as int + 1).drop_last() =~= regions@.take(i as int));
        if i > 0 {
            text.append(", ");
        } else {
            assert(regions@.take(1)[0] == regions@[0]);
            assert(text@ + regions@[0].name@ =~= regions@[0].name@);
        }
        text.append(regions[i].name.as_str());
        i = i + 1;
    }
    assert(regions@.take(i as int) =~= regions@);
    text
}

/// The domain that the control at a place names: refinements come first, then
/// boundary layers.
pub open spec fn named_domain(controls: ControlSet, place: int) -> Seq<char> {
    let count = controls.refinements@.len();
    if place < count {
        controls.refinements@[place].domain@
    } else {
        controls.boundary_layers@[place - count].domain@
    }
}

/// The first control that names an unknown domain.
pub open spec fn first_unknown(controls: ControlSet, domains: Seq<DomainSummary>, place: int) -> bool {
    &&& 0 <= place < controls.refinements@.len() + controls.boundary_layers@.len()
    &&& !has_domain(domains, named_domain(controls, place))
    &&& forall|k: int| 0 <= k < place ==> has_domain(domains, #[trigger] named_domain(controls, k))
}

/// The first layer on an unknown region.
pub open spec fn first_stray(
    layers: Seq<BoundaryLayerControl>,
    domains: Seq<DomainSummary>,
    place: int,
) -> bool {
    &&& 0 <= place < layers.len()
    &&& !layer_region_known(layers[place], domains)
    &&& forall|k: int| 0 <= k < place ==> layer_region_known(#[trigger] layers[k], domains)
}

/// The first layer that disagrees with one before it.
pub open spec fn first_conflict(layers: Seq<BoundaryLayerControl>, place: int) -> bool {
    &&& 0 <= place < layers.len()
    &&& layer_conflicts(layers, place)
    &&& forall|k: int| 0 <= k < place ==> !#[trigger] layer_conflicts(layers, k)
}

/// Every layer's region is known.
pub open spec fn regions_known(layers: Seq<BoundaryLayerControl>, domains: Seq<DomainSummary>) -> bool {
    forall|i: int| 0 <= i < layers.len() ==> layer_region_known(#[trigger] layers[i], domains)
}

/// Every refinement and every layer names a known domain.
pub open spec fn domains_known(controls: ControlSet, domains: Seq<DomainSummary>) -> bool {
    &&& forall|i: int|
        0 <= i < controls.refinements@.len() ==> has_domain(
            domains,
            (#[trigger] controls.refinements@[i]).domain@,
        )
    &&& forall|i: int|
        0 <= i < controls.boundary_layers@.len() ==> has_domain(
            domains,
            (#[trigger] controls.boundary_layers@[i]).domain@,
        )
}

/// The layer's region is one of its domain's.
pub open spec fn layer_region_known(layer: BoundaryLayerControl, domains: Seq<DomainSummary>) -> bool {
    domain_from(domains, layer.domain@, 0) matches Some(place) && has_region(
        domains[place],
        layer.boundary_region@,
    )
}

/// The layer disagrees with one before it on the same region.
pub open spec fn layer_conflicts(layers: Seq<BoundaryLayerControl>, index: int) -> bool {
    exists|earlier: int|
        0 <= earlier < index && (#[trigger] layers[earlier]).same_place(layers[index])
            && !layers[earlier].same_rows(layers[index])
}

/// The controls suit the domains.
pub open spec fn controls_valid(controls: ControlSet, domains: Seq<DomainSummary>) -> bool {
    &&& controls.target_size matches Some(size) && size.positive_finite()
    &&& domains_known(controls, domains)
    &&& forall|i: int|
        0 <= i < controls.boundary_layers@.len() ==> layer_region_known(
            #[trigger] controls.boundary_layers@[i],
            domains,
        )
    &&& forall|i: int|
        0 <= i < controls.boundary_layers@.len() ==> !layer_conflicts(controls.boundary_layers@, i)
}

pub open spec fn fault_says(result: Result<(), ControlFault>, message: Seq<char>) -> bool {
    result matches Err(ControlFault::Message(text)) && text@ == message
}

/// What is said of a layer on an unknown region.
pub open spec fn region_message(layer: BoundaryLayerControl, domains: Seq<DomainSummary>) -> Seq<char> {
    "domain "@ + debug_text(layer.domain@) + " has no boundary region "@ + debug_text(
        layer.boundary_region@,
    ) + "; available: "@ + region_list(
        domains[domain_from(domains, layer.domain@, 0)->0].boundary_regions@,
    )
}

/// What is said of layers that disagree.
pub open spec fn conflict_message(layer: BoundaryLayerControl) -> Seq<char> {
    "domain "@ + debug_text(layer.domain@) + " boundary region "@ + debug_text(
        layer.boundary_region@,
    ) + " has incompatible normal layer controls"@
}

/// The fault that is found first when the controls are held against the
/// domains: no target size, one that is no size, an unknown domain, a layer on
/// a region that its domain has not, or two layers on one region.
pub open spec fn is_control_fault(
    controls: ControlSet,
    domains: Seq<DomainSummary>,
    fault: ControlFault,
) -> bool {
    let result: Result<(), ControlFault> = Err(fault);
    match controls.target_size {
        None => fault_says(result, "controls.target_size(...) is required exactly once"@),
        Some(size) => if !size.positive_finite() {
            fault_says(result, "target size"@ + " must be positive and finite"@)
        } else if !domains_known(controls, domains) {
            fault matches ControlFault::UnknownDomain(name) && exists|place: int| #[trigger]
                first_unknown(controls, domains, place) && named_domain(controls, place) == name@
        } else if !regions_known(controls.boundary_layers@, domains) {
            exists|place: int| #[trigger]
                first_stray(controls.boundary_layers@, domains, place) && fault_says(
                    result,
                    region_message(controls.boundary_layers@[place], domains),
                )
        } else {
            exists|place: int| #[trigger]
                first_conflict(controls.boundary_layers@, place) && fault_says(
                    result,
                    conflict_message(controls.boundary_layers@[place]),
                )
        },
    }
}

impl Default for ControlSet {
    /// No controls.
    fn default() -> (result: ControlSet)
        ensures
            result.target_size is None,
            result.refinements@.len() == 0,
            result.boundary_layers@.len() == 0,
    {
        ControlSet::new()
    }
}

impl ControlSet {
    pub fn new() -> (result: ControlSet)
        ensures
            result.target_size is None,
            result.refinements@.len() == 0,
            result.boundary_layers@.len() == 0,
    {
        ControlSet { target_size: None, refinements: Vec::new(), boundary_layers: Vec::new() }
    }

    pub fn is_empty(&self) -> (result: bool)
        ensures
            result == (self.target_size is None && self.refinements@.len() == 0
                && self.boundary_layers@.len() == 0),
    {
        self.target_size.is_none() && self.refinements.len() == 0 && self.boundary_layers.len() == 0
    }

    /// Sets the target size, once.
    pub fn target_size(&mut self, size: Real) -> (result: Result<(), String>)
        ensures
            !size.positive_finite() ==> says(
                result,
                "target size"@ + " must be positive and finite"@,
            ) && *final(self) == *old(self),
            size.positive_finite() && old(self).target_size is Some ==> says(
                result,
                "controls.target_size(...) must be called exactly once"@,
            ) && *final(self) == *old(self),
            size.positive_finite() && old(self).target_size is None ==> result is Ok
                && *final(self) == (ControlSet { target_size: Some(size), ..*old(self) }),
    {
        match positive_finite(size, "target size") {
            Ok(()) => {},
            Err(text) => {
                return Err(text);
            },
        }
        if self.target_size.is_some() {
            return Err("controls.target_size(...) must be called exactly once".to_owned());
        }
        self.target_size = Some(size);
        Ok(())
    }

    pub fn require_target_size(&self) -> (result: Result<Real, String>)
        ensures
            match self.target_size {
                None => says(result, "controls.target_size(...) is required exactly once"@),
                Some(size) => if size.positive_finite() {
                    result == Ok::<Real, String>(size)
                } else {
                    says(result, "target size"@ + " must be positive and finite"@)
                },
            },
    {
        match self.target_size {
            None => Err("controls.target_size(...) is required exactly once".to_owned()),
            Some(size) => match positive_finite(size, "target size") {
                Ok(()) => Ok(size),
                Err(text) => Err(text),
            },
        }
    }

    pub fn refinement(&mut self, domain: String, region: ControlRegion, size: Real, gradation: Real) -> (result:
        Result<(), String>)
        ensures
            !size.positive_finite() ==> says(
                result,
                "refinement size"@ + " must be positive and finite"@,
            ) && *final(self) == *old(self),
            size.positive_finite() && !(gradation.finite() && gradation.rank() >= 0) ==> says(
                result,
                "refinement gradation must be finite and non-negative"@,
            ) && *final(self) == *old(self),
            size.positive_finite() && gradation.finite() && gradation.rank() >= 0 ==> result is Ok
                && final(self).target_size == old(self).target_size && final(
                self).boundary_layers == old(self).boundary_layers && final(self).refinements@ == old(
                self,
            ).refinements@.push(RefinementControl { domain, region, size, gradation }),
    {
        match positive_finite(size, "refinement size") {
            Ok(()) => {},
            Err(text) => {
                return Err(text);
            },
        }
        if !gradation.is_finite() || gradation.less(Real::zero()) {
            return Err("refinement gradation must be finite and non-negative".to_owned());
        }
        self.refinements.push(RefinementControl { domain, region, size, gradation });
        Ok(())
    }

    pub fn refinement_box(
        &mut self,
        domain: String,
        min: Vector3,
        max: Vector3,
        size: Real,
        gradation: Real,
    ) -> (result: Result<(), String>)
        ensures
            max[0].lt(min[0]) || max[1].lt(min[1]) || max[2].lt(min[2]) ==> says(
                result,
                "control box minima must not exceed maxima"@,
            ) && *final(self) == *old(self),
            !(max[0].lt(min[0]) || max[1].lt(min[1]) || max[2].lt(min[2])) && !(
            size.positive_finite() && gradation.finite() && gradation.rank() >= 0) ==> result is Err
                && *final(self) == *old(self),
            !(max[0].lt(min[0]) || max[1].lt(min[1]) || max[2].lt(min[2])) && !size.positive_finite()
                ==> says(result, "refinement size"@ + " must be positive and finite"@),
            !(max[0].lt(min[0]) || max[1].lt(min[1]) || max[2].lt(min[2])) && size.positive_finite()
                && !(gradation.finite() && gradation.rank() >= 0) ==> says(
                result,
                "refinement gradation must be finite and non-negative"@,
            ),
            !(max[0].lt(min[0]) || max[1].lt(min[1]) || max[2].lt(min[2])) && size.positive_finite()
                && gradation.finite() && gradation.rank() >= 0 ==> result is Ok && final(
                self).target_size == old(self).target_size && final(self).boundary_layers == old(
                self,
            ).boundary_layers && final(self).refinements@ == old(self).refinements@.push(
                RefinementControl {
                    domain,
                    region: ControlRegion::Box { min, max },
                    size,
                    gradation,
                },
            ),
    {
        match ControlRegion::box_region(min, max) {
            Ok(region) => self.refinement(domain, region, size, gradation),
            Err(text) => Err(text),
        }
    }

    /// Adds a boundary layer of as many rows as fit into the thickness. `totals`
    /// holds the height of the first row, of the first two together, and so on,
    /// up to one that the thickness does not hold.
    pub fn boundary_layer(
        &mut self,
        domain: String,
        boundary_region: String,
        hwall_n: Real,
        hwall_t: Real,
        ratio: Real,
        thickness: Real,
        totals: &Vec<Real>,
    ) -> (result: Result<(), String>)
        ensures
            !hwall_n.positive_finite() ==> says(
                result,
                "boundary-layer hwall_n"@ + " must be positive and finite"@,
            ),
            hwall_n.positive_finite() && !hwall_t.positive_finite() ==> says(
                result,
                "boundary-layer hwall_t"@ + " must be positive and finite"@,
            ),
            hwall_n.positive_finite() && hwall_t.positive_finite() && !ratio.positive_finite()
                ==> says(result, "boundary-layer ratio"@ + " must be positive and finite"@),
            hwall_n.positive_finite() && hwall_t.positive_finite() && ratio.positive_finite()
                && !thickness.positive_finite() ==> says(
                result,
                "boundary-layer thickness"@ + " must be positive and finite"@,
            ),
            hwall_n.positive_finite() && hwall_t.positive_finite() && ratio.positive_finite()
                && thickness.positive_finite() && ratio.lt(Real { bits: UNIT_BITS }) ==> says(
                result,
                "boundary-layer ratio must be at least 1"@,
            ),
            hwall_n.positive_finite() && hwall_t.positive_finite() && ratio.positive_finite()
                && thickness.positive_finite() && !ratio.lt(Real { bits: UNIT_BITS })
                && thickness.lt(hwall_n) ==> says(
                result,
                "boundary-layer thickness must fit at least hwall_n"@,
            ),
            result is Ok == (hwall_n.positive_finite() && hwall_t.positive_finite()
                && ratio.positive_finite() && thickness.positive_finite() && !ratio.lt(
                Real { bits: UNIT_BITS },
            ) && !thickness.lt(hwall_n)),
            result is Err ==> *final(self) == *old(self),
            result is Ok ==> final(self).target_size == old(self).target_size && final(
                self).refinements == old(self).refinements && final(self).boundary_layers@ == old(
                self,
            ).boundary_layers@.push(
                BoundaryLayerControl {
                    domain,
                    boundary_region,
                    hwall_n,
                    hwall_t,
                    ratio,
                    thickness,
                    layers: rows_within(totals@, thickness, 0) as usize,
                },
            ),
    {
        match positive_finite(hwall_n, "boundary-layer hwall_n") {
            Ok(()) => {},
            Err(text) => {
                return Err(text);
            },
        }
        match positive_finite(hwall_t, "boundary-layer hwall_t") {
            Ok(()) => {},
            Err(text) => {
                return Err(text);
            },
        }
        match positive_finite(ratio, "boundary-layer ratio") {
            Ok(()) => {},
            Err(text) => {
                return Err(text);
            },
        }
        match positive_finite(thickness, "boundary-layer thickness") {
            Ok(()) => {},
            Err(text) => {
                return Err(text);
            },
        }
        if ratio.less(Real { bits: UNIT_BITS }) {
            return Err("boundary-layer ratio must be at least 1".to_owned());
        }
        if thickness.less(hwall_n) {
            return Err("boundary-layer thickness must fit at least hwall_n".to_owned());
        }
        let layers: usize = count_rows(totals, thickness);
        self.boundary_layers.push(
            BoundaryLayerControl {
                domain,
                boundary_region,
                hwall_n,
                hwall_t,
                ratio,
                thickness,
                layers,
            },
        );
        Ok(())
    }

    fn first_unknown_domain(&self, domains: &Vec<DomainSummary>) -> (result: Option<String>)
        ensures
            match result {
                None => domains_known(*self, domains@),
                Some(name) => !domains_known(*self, domains@) && exists|place: int| #[trigger]
                    first_unknown(*self, domains@, place) && named_domain(*self, place) == name@,
            },
    {
        let mut i: usize = 0;
        while i < self.refinements.len()
            invariant
                i <= self.refinements@.len(),
                forall|k: int|
                    0 <= k < i ==> has_domain(
                        domains@,
                        (#[trigger] self.refinements@[k]).domain@,
                    ),
            decreases self.refinements@.len() - i,
        {
            if find_domain(domains, self.refinements[i].domain.as_str()).is_none() {
                assert(first_unknown(*self, domains@, i as int));
                return Some(self.refinements[i].domain.clone());
            }
            i = i + 1;
        }
        let mut j: usize = 0;
        while j < self.boundary_layers.len()
            invariant
                j <= self.boundary_layers@.len(),
                forall|k: int|
                    0 <= k < self.refinements@.len() ==> has_domain(
                        domains@,
                        (#[trigger] self.refinements@[k]).domain@,
                    ),
                forall|k: int|
                    0 <= k < j ==> has_domain(
                        domains@,
                        (#[trigger] self.boundary_layers@[k]).domain@,
                    ),
            decreases self.boundary_layers@.len() - j,
        {
            if find_domain(domains, self.boundary_layers[j].domain.as_str()).is_none() {
                proof {
                    let count = self.refinements@.len();
                    assert forall|k: int| 0 <= k < count + j implies has_domain(
                        domains@,
                        #[trigger] named_domain(*self, k),
                    ) by {
                        if k < count {
                            assert(has_domain(domains@, self.refinements@[k].domain@));
                        } else {
                            assert(has_domain(
                                domains@,
                                self.boundary_layers@[k - count].domain@,
                            ));
                        }
                    }
                    assert(first_unknown(*self, domains@, count + j));
                }
                return Some(self.boundary_layers[j].domain.clone());
            }
            j = j + 1;
        }
        None
    }

    /// Holds the controls against the domains.
    pub fn validate(&self, domains: &Vec<DomainSummary>) -> (result: Result<(), ControlFault>)
        ensures
            result is Ok <==> controls_valid(*self, domains@),
            result matches Err(fault) ==> is_control_fault(*self, domains@, fault),
    {
        match self.require_target_size() {
            Ok(_) => {},
            Err(text) => {
                return Err(ControlFault::Message(text));
            },
        }
        if let Some(name) = self.first_unknown_domain(domains) {
            return Err(ControlFault::UnknownDomain(name));
        }
        let mut i: usize = 0;
        while i < self.boundary_layers.len()
            invariant
                i <= self.boundary_layers@.len(),
                self.target_size matches Some(size) && size.positive_finite(),
                domains_known(*self, domains@),
                forall|k: int|
                    0 <= k < i ==> layer_region_known(#[trigger] self.boundary_layers@[k], domains@),
            decreases self.boundary_layers@.len() - i,
        {
            let layer = &self.boundary_layers[i];
            assert(has_domain(domains@, self.boundary_layers@[i as int].domain@));
            if let Some(place) = find_domain(domains, layer.domain.as_str()) {
                if !region_known(&domains[place], layer.boundary_region.as_str()) {
                    let mut text = join("domain ", quoted(layer.domain.as_str()).as_str());
                    text.append(" has no boundary region ");
                    text.append(quoted(layer.boundary_region.as_str()).as_str());
                    text.append("; available: ");
                    text.append(list_regions(&domains[place].boundary_regions).as_str());
                    assert(first_stray(self.boundary_layers@, domains@, i as int));
                    return Err(ControlFault::Message(text));
                }
            }
            i = i + 1;
        }
        let mut j: usize = 0;
        while j < self.boundary_layers.len()
            invariant
                j <= self.boundary_layers@.len(),
                self.target_size matches Some(size) && size.positive_finite(),
                domains_known(*self, domains@),
                regions_known(self.boundary_layers@, domains@),
                forall|k: int| 0 <= k < j ==> !#[trigger] layer_conflicts(self.boundary_layers@, k),
            decreases self.boundary_layers@.len() - j,
        {
            let layer = &self.boundary_layers[j];
            let mut k: usize = 0;
            while k < j
                invariant
                    k <= j < self.boundary_layers@.len(),
                    *layer == self.boundary_layers@[j as int],
                    self.target_size matches Some(size) && size.positive_finite(),
                    domains_known(*self, domains@),
                    regions_known(self.boundary_layers@, domains@),
                    forall|p: int|
                        0 <= p < j ==> !#[trigger] layer_conflicts(self.boundary_layers@, p),
                    forall|p: int|
                        0 <= p < k ==> !((#[trigger] self.boundary_layers@[p]).same_place(*layer)
                            && !self.boundary_layers@[p].same_rows(*layer)),
                decreases j - k,
            {
                if self.boundary_layers[k].conflicts(layer) {
                    let mut text = join("domain ", quoted(layer.domain.as_str()).as_str());
                    text.append(" boundary region ");
                    text.append(quoted(layer.boundary_region.as_str()).as_str());
                    text.append(" has incompatible normal layer controls");
                    assert(self.boundary_layers@[k as int].same_place(*layer));
                    assert(first_conflict(self.boundary_layers@, j as int));
                    return Err(ControlFault::Message(text));
                }
                k = k + 1;
            }
            j = j + 1;
        }
        Ok(())
    }
}

/// Controls that suit the domains name only domains and regions that there are, and any two
/// layers on one region ask for the same rows.
pub proof fn sound_controls_agree(controls: ControlSet, domains: Seq<DomainSummary>)
    requires
        controls_valid(controls, domains),
    ensures
        controls.target_size matches Some(size) && size.positive_finite(),
        forall|i: int|
            0 <= i < controls.refinements@.len() ==> exists|d: int|
                0 <= d < domains.len() && (#[trigger] domains[d]).name@ == (
                #[trigger] controls.refinements@[i]).domain@,
        forall|i: int|
            0 <= i < controls.boundary_layers@.len() ==> lies_on_region(
                #[trigger] controls.boundary_layers@[i],
                domains,
            ),
        forall|i: int, j: int|
            0 <= i < j < controls.boundary_layers@.len() && (#[trigger] controls.boundary_layers@[i]).domain@
                == (#[trigger] controls.boundary_layers@[j]).domain@
                && controls.boundary_layers@[i].boundary_region@
                == controls.boundary_layers@[j].boundary_region@ ==> {
                let (a, b) = (controls.boundary_layers@[i], controls.boundary_layers@[j]);
                &&& a.hwall_n.same_value(b.hwall_n)
                &&& a.ratio.same_value(b.ratio)
                &&& a.layers == b.layers
            },
{
    assert forall|i: int| 0 <= i < controls.refinements@.len() implies exists|d: int|
        0 <= d < domains.len() && (#[trigger] domains[d]).name@ == (
        #[trigger] controls.refinements@[i]).domain@ by {
        assert(has_domain(domains, controls.refinements@[i].domain@));
    }
    assert forall|i: int| 0 <= i < controls.boundary_layers@.len() implies lies_on_region(
        #[trigger] controls.boundary_layers@[i],
        domains,
    ) by {
        let layer = controls.boundary_layers@[i];
        assert(layer_region_known(layer, domains));
        first_domain_has_name(domains, layer.domain@, 0);
        let d = domain_from(domains, layer.domain@, 0)->0;
        assert(has_region(domains[d], layer.boundary_region@));
        let r = choose|r: int|
            0 <= r < domains[d].boundary_regions@.len() && (
            #[trigger] domains[d].boundary_regions@[r]).name@ == layer.boundary_region@;
        assert(domains[d].boundary_regions@[r].name@ == layer.boundary_region@);
    }
    assert forall|i: int, j: int|
        0 <= i < j < controls.boundary_layers@.len() && (#[trigger] controls.boundary_layers@[i]).domain@
            == (#[trigger] controls.boundary_layers@[j]).domain@
            && controls.boundary_layers@[i].boundary_region@
            == controls.boundary_layers@[j].boundary_region@ implies {
        let (a, b) = (controls.boundary_layers@[i], controls.boundary_layers@[j]);
        &&& a.hwall_n.same_value(b.hwall_n)
        &&& a.ratio.same_value(b.ratio)
        &&& a.layers == b.layers
    } by {
        assert(!layer_conflicts(controls.boundary_layers@, j));
        assert(controls.boundary_layers@[i].same_place(controls.boundary_layers@[j]));
    }
}

/// Some domain has the layer's name, and a region with the name of the layer's region.
pub open spec fn lies_on_region(layer: BoundaryLayerControl, domains: Seq<DomainSummary>) -> bool {
    exists|d: int, r: int|
        0 <= d < domains.len() && 0 <= r < domains[d].boundary_regions@.len() && domains[d].name@
            == layer.domain@ && (#[trigger] domains[d].boundary_regions@[r]).name@
            == layer.boundary_region@
}

proof fn first_domain_has_name(domains: Seq<DomainSummary>, name: Seq<char>, from: int)
    requires
        0 <= from,
    ensures
        domain_from(domains, name, from) matches Some(place) ==> from <= place < domains.len()
            && domains[place].name@ == name,
    decreases domains.len() - from,
{
    if from < domains.len() {
        first_domain_has_name(domains, name, from + 1);
    }
}

} // verus!
