//! The meshing algorithms on offer, and which of them meshes what.

use vstd::prelude::*;

use crate::algorithm::{MeshAlgorithmCapabilities, MeshAlgorithmDescriptor};
use crate::domains::DomainSummary;
#[allow(unused_imports)]
use crate::error::fails_input;
use crate::error::{MeshError, MeshResult};

verus! {

/// Advancing fronts, in the plane and in space.
#[derive(Debug, Clone, Copy, PartialEq, Eq, Structural)]
pub struct AdvancingFront;

/// Distance meshes of plane domains, written chunk by chunk.
#[derive(Debug, Clone, Copy, PartialEq, Eq, Structural)]
pub struct DistMesh;

/// Which of the fronts meshes the domains.
#[derive(Debug, Clone, Copy, PartialEq, Eq, Structural)]
pub enum FrontKind {
    Plane,
    Solid,
}

/// The result is the error of a domain with a dimension that cannot be meshed.
pub open spec fn fails_dimension<T>(result: MeshResult<T>, domain: DomainSummary) -> bool {
    result matches Err(MeshError::UnsupportedDimension { domain: name, dimension }) && name@
        == domain.name@ && dimension == domain.dimension
}

fn dimension_error(domain: &DomainSummary) -> (result: MeshError)
    ensures
        result matches MeshError::UnsupportedDimension { domain: name, dimension } && name@
            == domain.name@ && dimension == domain.dimension,
{
    MeshError::UnsupportedDimension { domain: domain.name.clone(), dimension: domain.dimension }
}

/// Every domain has the dimension.
pub open spec fn all_of_dimension(domains: Seq<DomainSummary>, dimension: u8) -> bool {
    forall|i: int| 0 <= i < domains.len() ==> (#[trigger] domains[i]).dimension == dimension
}

/// The first domain from a place on with another dimension.
pub open spec fn first_other(domains: Seq<DomainSummary>, dimension: u8, from: int) -> int
    decreases domains.len() - from,
{
    if from < 0 || from >= domains.len() || domains[from].dimension != dimension {
        from
    } else {
        first_other(domains, dimension, from + 1)
    }
}

/// Refuses the first domain that does not have the dimension.
pub fn require_dimension(domains: &Vec<DomainSummary>, dimension: u8) -> (result: MeshResult<()>)
    ensures
        all_of_dimension(domains@, dimension) ==> result is Ok,
        !all_of_dimension(domains@, dimension) ==> fails_dimension(
            result,
            domains@[first_other(domains@, dimension, 0)],
        ),
{
    let mut i: usize = 0;
    while i < domains.len()
        invariant
            i <= domains@.len(),
            first_other(domains@, dimension, 0) == first_other(domains@, dimension, i as int),
            forall|k: int| 0 <= k < i ==> (#[trigger] domains@[k]).dimension == dimension,
        decreases domains@.len() - i,
    {
        if domains[i].dimension != dimension {
            return Err(dimension_error(&domains[i]));
        }
        i = i + 1;
    }
    Ok(())
}

impl AdvancingFront {
    pub fn descriptor(&self) -> (result: MeshAlgorithmDescriptor)
        ensures
            result.id@ == "advancing_front"@,
            result.label@ == "Advancing Front"@,
            result.dimensions@ == seq![2u8, 3u8],
            result.capabilities == (MeshAlgorithmCapabilities {
                refinement: true,
                boundary_layers: false,
            }),
    {
        let mut dimensions: Vec<u8> = Vec::new();
        dimensions.push(2);
        dimensions.push(3);
        assert(dimensions@ =~= seq![2u8, 3u8]);
        MeshAlgorithmDescriptor {
            id: "advancing_front",
            label: "Advancing Front",
            dimensions,
            capabilities: MeshAlgorithmCapabilities { refinement: true, boundary_layers: false },
        }
    }

    /// Picks the front by the dimension of the first domain.
    pub fn front(&self, domains: &Vec<DomainSummary>) -> (result: MeshResult<FrontKind>)
        ensures
            domains@.len() == 0 ==> fails_input(result, "meshing requires at least one domain"@),
            domains@.len() > 0 && domains@[0].dimension == 2 ==> result == Ok::<
                FrontKind,
                MeshError,
            >(FrontKind::Plane),
            domains@.len() > 0 && domains@[0].dimension == 3 ==> result == Ok::<
                FrontKind,
                MeshError,
            >(FrontKind::Solid),
            domains@.len() > 0 && domains@[0].dimension != 2 && domains@[0].dimension != 3
                ==> fails_dimension(result, domains@[0]),
    {
        if domains.len() == 0 {
            return Err(MeshError::invalid_input("meshing requires at least one domain"));
        }
        if domains[0].dimension == 2 {
            Ok(FrontKind::Plane)
        } else if domains[0].dimension == 3 {
            Ok(FrontKind::Solid)
        } else {
            Err(dimension_error(&domains[0]))
        }
    }
}

impl Default for AdvancingFront {
    fn default() -> (result: Self)
        ensures
            result == AdvancingFront,
    {
        AdvancingFront
    }
}

impl DistMesh {
    pub fn descriptor(&self) -> (result: MeshAlgorithmDescriptor)
        ensures
            result.id@ == "distmesh"@,
            result.label@ == "DistMesh (Out-of-Core)"@,
            result.dimensions@ == seq![2u8],
            result.capabilities == (MeshAlgorithmCapabilities {
                refinement: false,
                boundary_layers: true,
            }),
    {
        let mut dimensions: Vec<u8> = Vec::new();
        dimensions.push(2);
        assert(dimensions@ =~= seq![2u8]);
        MeshAlgorithmDescriptor {
            id: "distmesh",
            label: "DistMesh (Out-of-Core)",
            dimensions,
            capabilities: MeshAlgorithmCapabilities { refinement: false, boundary_layers: true },
        }
    }
}

impl Default for DistMesh {
    fn default() -> (result: Self)
        ensures
            result == DistMesh,
    {
        DistMesh
    }
}

/// The first domain of another dimension is found: all before it have the dimension, and it
/// does not, unless all have it.
pub proof fn other_dimension_is_found(domains: Seq<DomainSummary>, dimension: u8, from: int)
    requires
        0 <= from <= domains.len(),
    ensures
        from <= first_other(domains, dimension, from) <= domains.len(),
        forall|i: int|
            from <= i < first_other(domains, dimension, from) ==> (#[trigger] domains[i]).dimension
                == dimension,
        first_other(domains, dimension, from) < domains.len() ==> domains[first_other(
            domains,
            dimension,
            from,
        )].dimension != dimension,
    decreases domains.len() - from,
{
    if from < domains.len() && domains[from].dimension == dimension {
        other_dimension_is_found(domains, dimension, from + 1);
    }
}

} // verus!
