//! What the mesher knows of the domains it is to mesh.

use vstd::prelude::*;

use crate::text::same_text;

verus! {

/// A named part of a domain's boundary.
#[derive(Debug)]
pub struct RegionSummary {
    pub name: String,
    pub tag: Option<String>,
    pub owner_object_id: u32,
}

/// A domain.
#[derive(Debug)]
pub struct DomainSummary {
    pub name: String,
    pub kind: String,
    pub dimension: u8,
    pub source_object_id: Option<u32>,
    pub boundary_regions: Vec<RegionSummary>,
}

/// The first place at or after `from` where a domain of that name stands.
pub open spec fn domain_from(domains: Seq<DomainSummary>, name: Seq<char>, from: int) -> Option<int>
    decreases domains.len() - from,
{
    if from < 0 || from >= domains.len() {
        None
    } else if domains[from].name@ == name {
        Some(from)
    } else {
        domain_from(domains, name, from + 1)
    }
}

pub open spec fn has_domain(domains: Seq<DomainSummary>, name: Seq<char>) -> bool {
    exists|i: int| 0 <= i < domains.len() && (#[trigger] domains[i]).name@ == name
}

pub open spec fn has_region(domain: DomainSummary, name: Seq<char>) -> bool {
    exists|i: int|
        0 <= i < domain.boundary_regions@.len() && (#[trigger] domain.boundary_regions@[i]).name@
            == name
}

pub proof fn found_domain(domains: Seq<DomainSummary>, name: Seq<char>, from: int)
    requires
        0 <= from,
    ensures
        match domain_from(domains, name, from) {
            Some(place) => from <= place < domains.len() && domains[place].name@ == name,
            None => forall|i: int| from <= i < domains.len() ==> (#[trigger] domains[i]).name@ != name,
        },
    decreases domains.len() - from,
{
    if from < domains.len() {
        found_domain(domains, name, from + 1);
    }
}

/// Finds a domain by name.
pub fn find_domain(domains: &Vec<DomainSummary>, name: &str) -> (result: Option<usize>)
    ensures
        match result {
            Some(place) => domain_from(domains@, name@, 0) == Some(place as int) && place
                < domains.len() && domains[place as int].name@ == name@,
            None => domain_from(domains@, name@, 0) is None,
        },
        result is Some <==> has_domain(domains@, name@),
{
    proof {
        found_domain(domains@, name@, 0);
    }
    let mut i: usize = 0;
    while i < domains.len()
        invariant
            i <= domains.len(),
            domain_from(domains@, name@, 0) == domain_from(domains@, name@, i as int),
            forall|k: int| 0 <= k < i ==> (#[trigger] domains[k]).name@ != name@,
        decreases domains.len() - i,
    {
        if same_text(domains[i].name.as_str(), name) {
            return Some(i);
        }
        i = i + 1;
    }
    None
}

/// Whether the domain has a boundary region of that name.
pub fn region_known(domain: &DomainSummary, name: &str) -> (result: bool)
    ensures
        result == has_region(*domain, name@),
{
    let mut i: usize = 0;
    while i < domain.boundary_regions.len()
        invariant
            i <= domain.boundary_regions@.len(),
            forall|k: int|
                0 <= k < i ==> (#[trigger] domain.boundary_regions@[k]).name@ != name@,
        decreases domain.boundary_regions@.len() - i,
    {
        if same_text(domain.boundary_regions[i].name.as_str(), name) {
            return true;
        }
        i = i + 1;
    }
    false
}

} // verus!
