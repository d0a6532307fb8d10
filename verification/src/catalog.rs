//! The names and numbers of zones, sources and boundary tags.

use vstd::prelude::*;
use vstd::string::StringExecFns;

use crate::domains::{DomainSummary, RegionSummary};
use crate::error::{MeshError, MeshResult};
#[allow(unused_imports)]
use crate::error::fails_input;
use crate::text::{join, quoted, same_text};
#[allow(unused_imports)]
use crate::text::debug_text;

verus! {

#[derive(Debug, Clone, Copy, PartialEq, Eq, Structural)]
pub enum CatalogKind {
    Zone,
    Tag,
    Source,
    Provenance,
}

impl CatalogKind {
    pub open spec fn name(self) -> Seq<char> {
        match self {
            CatalogKind::Zone => "zone"@,
            CatalogKind::Tag => "tag"@,
            CatalogKind::Source => "source"@,
            CatalogKind::Provenance => "provenance"@,
        }
    }

    pub fn as_str(self) -> (result: &'static str)
        ensures
            result@ == self.name(),
    {
        match self {
            CatalogKind::Zone => "zone",
            CatalogKind::Tag => "tag",
            CatalogKind::Source => "source",
            CatalogKind::Provenance => "provenance",
        }
    }
}

#[derive(Debug)]
pub struct CatalogEntry {
    pub catalog_kind: CatalogKind,
    pub id: u64,
    pub name: String,
    pub kind: String,
    pub dimension: Option<u8>,
    pub source_object_id: Option<u64>,
    pub source_region_id: Option<u64>,
}

/// What an entry says.
#[verifier::ext_equal]
pub struct EntryView {
    pub catalog_kind: CatalogKind,
    pub id: u64,
    pub name: Seq<char>,
    pub kind: Seq<char>,
    pub dimension: Option<u8>,
    pub source_object_id: Option<u64>,
    pub source_region_id: Option<u64>,
}

impl View for CatalogEntry {
    type V = EntryView;

    open spec fn view(&self) -> EntryView {
        EntryView {
            catalog_kind: self.catalog_kind,
            id: self.id,
            name: self.name@,
            kind: self.kind@,
            dimension: self.dimension,
            source_object_id: self.source_object_id,
            source_region_id: self.source_region_id,
        }
    }
}

pub open spec fn entry_views(entries: Seq<CatalogEntry>) -> Seq<EntryView> {
    entries.map_values(|entry: CatalogEntry| entry@)
}

#[derive(Debug, Clone, Copy, PartialEq, Eq, Structural)]
pub struct DomainCatalogIds {
    pub zone: u64,
    pub source: u64,
    pub wall_tag: u64,
}

/// The number of a boundary region's tag.
#[derive(Debug)]
pub struct TagName {
    pub domain: String,
    pub region: String,
    pub id: u64,
}

/// The numbers under a domain's name.
#[derive(Debug)]
pub struct DomainName {
    pub domain: String,
    pub ids: DomainCatalogIds,
}

#[derive(Debug)]
pub struct MeshCatalog {
    pub list: Vec<CatalogEntry>,
    pub domain_names: Vec<DomainName>,
    pub tag_names: Vec<TagName>,
}

/// The first tag of a domain: each domain before it has a tag for every
/// region and one for its wall.
pub open spec fn first_tag(domains: Seq<DomainSummary>, index: int) -> nat
    decreases index,
{
    if index <= 0 {
        1
    } else {
        first_tag(domains, index - 1) + domains[index - 1].boundary_regions@.len() + 1
    }
}

pub open spec fn wide(id: Option<u32>) -> Option<u64> {
    match id {
        Some(value) => Some(value as u64),
        None => None,
    }
}

/// One less than the domain's dimension.
pub open spec fn side_dimension(dimension: u8) -> u8 {
    if dimension == 0 {
        0
    } else {
        (dimension - 1) as u8
    }
}

pub open spec fn region_kind(region: RegionSummary) -> Seq<char> {
    match region.tag {
        Some(tag) => tag@,
        None => "boundary"@,
    }
}

/// The entry of the region at a place of a domain.
pub open spec fn region_entry(domain: DomainSummary, first: int, place: int) -> EntryView {
    let region = domain.boundary_regions@[place];
    EntryView {
        catalog_kind: CatalogKind::Tag,
        id: (first + place) as u64,
        name: region.name@,
        kind: region_kind(region),
        dimension: Some(side_dimension(domain.dimension)),
        source_object_id: Some(region.owner_object_id as u64),
        source_region_id: Some((place + 1) as u64),
    }
}

/// The entries of a domain: its zone, its source, its regions and its wall.
pub open spec fn domain_entries(domain: DomainSummary, index: int, first: int) -> Seq<EntryView> {
    let zone = EntryView {
        catalog_kind: CatalogKind::Zone,
        id: (index + 1) as u64,
        name: domain.name@,
        kind: domain.kind@,
        dimension: Some(domain.dimension),
        source_object_id: wide(domain.source_object_id),
        source_region_id: None,
    };
    let source = EntryView {
        catalog_kind: CatalogKind::Source,
        id: (index + 1) as u64,
        name: domain.name@,
        kind: "sdf_domain"@,
        dimension: Some(domain.dimension),
        source_object_id: wide(domain.source_object_id),
        source_region_id: None,
    };
    let count = domain.boundary_regions@.len();
    let wall = EntryView {
        catalog_kind: CatalogKind::Tag,
        id: (first + count) as u64,
        name: domain.name@ + "_wall"@,
        kind: "wall"@,
        dimension: Some(side_dimension(domain.dimension)),
        source_object_id: wide(domain.source_object_id),
        source_region_id: None,
    };
    seq![zone, source] + Seq::new(count, |place: int| region_entry(domain, first, place)) + seq![
        wall,
    ]
}

/// The entries of the first domains.
pub open spec fn entries_of(domains: Seq<DomainSummary>, count: int) -> Seq<EntryView>
    decreases count,
{
    if count <= 0 {
        Seq::empty()
    } else {
        entries_of(domains, count - 1) + domain_entries(
            domains[count - 1],
            count - 1,
            first_tag(domains, count - 1) as int,
        )
    }
}

/// The greatest dimension of the first domains.
pub open spec fn greatest_dimension(domains: Seq<DomainSummary>, count: int) -> Option<u8>
    decreases count,
{
    if count <= 0 {
        None
    } else {
        match greatest_dimension(domains, count - 1) {
            None => Some(domains[count - 1].dimension),
            Some(held) => if held > domains[count - 1].dimension {
                Some(held)
            } else {
                Some(domains[count - 1].dimension)
            },
        }
    }
}

pub open spec fn provenance_entry(domains: Seq<DomainSummary>, generator: Seq<char>) -> EntryView {
    EntryView {
        catalog_kind: CatalogKind::Provenance,
        id: 1,
        name: generator,
        kind: "generator"@,
        dimension: greatest_dimension(domains, domains.len() as int),
        source_object_id: None,
        source_region_id: None,
    }
}

/// The numbers of the domain at a place.
pub open spec fn ids_of(domains: Seq<DomainSummary>, index: int) -> DomainCatalogIds {
    DomainCatalogIds {
        zone: (index + 1) as u64,
        source: (index + 1) as u64,
        wall_tag: (first_tag(domains, index) + domains[index].boundary_regions@.len()) as u64,
    }
}

/// The last of the first domains with that name.
pub open spec fn last_domain(domains: Seq<DomainSummary>, name: Seq<char>, count: int) -> Option<int>
    decreases count,
{
    if count <= 0 {
        None
    } else if domains[count - 1].name@ == name {
        Some(count - 1)
    } else {
        last_domain(domains, name, count - 1)
    }
}

/// The last of the first regions with that name.
pub open spec fn last_region(regions: Seq<RegionSummary>, name: Seq<char>, count: int) -> Option<int>
    decreases count,
{
    if count <= 0 {
        None
    } else if regions[count - 1].name@ == name {
        Some(count - 1)
    } else {
        last_region(regions, name, count - 1)
    }
}

/// The tag of a region: where names repeat, that of the last one.
pub open spec fn tag_of(domains: Seq<DomainSummary>, domain: Seq<char>, region: Seq<char>, count: int) -> Option<
    u64,
>
    decreases count,
{
    if count <= 0 {
        None
    } else {
        let here = domains[count - 1];
        let regions = here.boundary_regions@;
        match last_region(regions, region, regions.len() as int) {
            Some(place) => if here.name@ == domain {
                Some((first_tag(domains, count - 1) + place) as u64)
            } else {
                tag_of(domains, domain, region, count - 1)
            },
            None => tag_of(domains, domain, region, count - 1),
        }
    }
}

/// The numbers under the last of the first names that match.
pub open spec fn named_ids(names: Seq<DomainName>, name: Seq<char>, count: int) -> Option<
    DomainCatalogIds,
>
    decreases count,
{
    if count <= 0 {
        None
    } else if names[count - 1].domain@ == name {
        Some(names[count - 1].ids)
    } else {
        named_ids(names, name, count - 1)
    }
}

/// The number under the last of the first tags that match.
pub open spec fn named_tag(tags: Seq<TagName>, domain: Seq<char>, region: Seq<char>, count: int) -> Option<
    u64,
>
    decreases count,
{
    if count <= 0 {
        None
    } else if tags[count - 1].domain@ == domain && tags[count - 1].region@ == region {
        Some(tags[count - 1].id)
    } else {
        named_tag(tags, domain, region, count - 1)
    }
}

impl MeshCatalog {
    pub open spec fn domain_ids(self, name: Seq<char>) -> Option<DomainCatalogIds> {
        named_ids(self.domain_names@, name, self.domain_names@.len() as int)
    }

    pub open spec fn tag_id(self, domain: Seq<char>, region: Seq<char>) -> Option<u64> {
        named_tag(self.tag_names@, domain, region, self.tag_names@.len() as int)
    }

    /// The catalog is that of the domains.
    pub open spec fn describes(self, domains: Seq<DomainSummary>, generator: Seq<char>) -> bool {
        let count = domains.len() as int;
        &&& entry_views(self.list@) == entries_of(domains, count).push(
            provenance_entry(domains, generator),
        )
        &&& forall|name: Seq<char>| #[trigger]
            self.domain_ids(name) == match last_domain(domains, name, count) {
                Some(index) => Some(ids_of(domains, index)),
                None => None,
            }
        &&& forall|domain: Seq<char>, region: Seq<char>| #[trigger]
            self.tag_id(domain, region) == tag_of(domains, domain, region, count)
    }

    pub fn entries(&self) -> (result: &Vec<CatalogEntry>)
        ensures
            *result == self.list,
    {
        &self.list
    }

    pub fn domain(&self, name: &str) -> (result: MeshResult<DomainCatalogIds>)
        ensures
            match self.domain_ids(name@) {
                Some(ids) => result == Ok::<DomainCatalogIds, MeshError>(ids),
                None => fails_input(
                    result,
                    "no catalog entry for meshing domain "@ + debug_text(name@),
                ),
            },
    {
        let mut i: usize = self.domain_names.len();
        while i > 0
            invariant
                i <= self.domain_names@.len(),
                self.domain_ids(name@) == named_ids(self.domain_names@, name@, i as int),
            decreases i,
        {
            if same_text(self.domain_names[i - 1].domain.as_str(), name) {
                return Ok(self.domain_names[i - 1].ids);
            }
            i = i - 1;
        }
        Err(
            MeshError::InvalidInput(
                join("no catalog entry for meshing domain ", quoted(name).as_str()),
            ),
        )
    }

    pub fn boundary_tag(&self, domain: &str, region: &str) -> (result: Option<u64>)
        ensures
            result == self.tag_id(domain@, region@),
    {
        let mut i: usize = self.tag_names.len();
        while i > 0
            invariant
                i <= self.tag_names@.len(),
                self.tag_id(domain@, region@) == named_tag(
                    self.tag_names@,
                    domain@,
                    region@,
                    i as int,
                ),
            decreases i,
        {
            let tag = &self.tag_names[i - 1];
            if same_text(tag.domain.as_str(), domain) && same_text(tag.region.as_str(), region) {
                return Some(tag.id);
            }
            i = i - 1;
        }
        None
    }
}

/// The names hold those of the first domains.
spec fn names_match(domains: Seq<DomainSummary>, names: Seq<DomainName>, count: int) -> bool {
    names.len() == count && forall|i: int|
        0 <= i < count ==> (#[trigger] names[i]).domain@ == domains[i].name@ && names[i].ids
            == ids_of(domains, i)
}

proof fn names_are_found(domains: Seq<DomainSummary>, names: Seq<DomainName>, name: Seq<char>, count: int)
    requires
        names_match(domains, names, names.len() as int),
        0 <= count <= names.len(),
    ensures
        named_ids(names, name, count) == match last_domain(domains, name, count) {
            Some(index) => Some(ids_of(domains, index)),
            None => None,
        },
    decreases count,
{
    if count > 0 {
        assert(names[count - 1].domain@ == domains[count - 1].name@);
        names_are_found(domains, names, name, count - 1);
    }
}

/// Looking a tag up gives the same where it was not added.
proof fn older_tags(tags: Seq<TagName>, more: Seq<TagName>, domain: Seq<char>, region: Seq<char>, count: int)
    requires
        0 <= count <= tags.len() <= more.len(),
        forall|i: int| 0 <= i < tags.len() ==> more[i] == tags[i],
    ensures
        named_tag(tags, domain, region, count) == named_tag(more, domain, region, count),
    decreases count,
{
    if count > 0 {
        older_tags(tags, more, domain, region, count - 1);
    }
}

/// The tags are those of the first domains and the first regions of the next.
spec fn tags_match(
    domains: Seq<DomainSummary>,
    tags: Seq<TagName>,
    index: int,
    regions: int,
) -> bool {
    forall|domain: Seq<char>, region: Seq<char>| #[trigger]
        named_tag(tags, domain, region, tags.len() as int) == {
            let held = tag_of(domains, domain, region, index);
            if regions > 0 && domains[index].name@ == domain {
                match last_region(domains[index].boundary_regions@, region, regions) {
                    Some(place) => Some((first_tag(domains, index) + place) as u64),
                    None => held,
                }
            } else {
                held
            }
        }
}

fn copy_text(text: &String) -> (result: String)
    ensures
        result@ == text@,
{
    text.clone()
}

fn widened(id: Option<u32>) -> (result: Option<u64>)
    ensures
        result == wide(id),
{
    match id {
        Some(value) => Some(value as u64),
        None => None,
    }
}

fn lower(dimension: u8) -> (result: u8)
    ensures
        result == side_dimension(dimension),
{
    if dimension == 0 {
        0
    } else {
        dimension - 1
    }
}

fn push_entry(list: &mut Vec<CatalogEntry>, entry: CatalogEntry)
    ensures
        entry_views(final(list)@) == entry_views(old(list)@).push(entry@),
{
    list.push(entry);
    assert(entry_views(list@) =~= entry_views(old(list)@).push(entry@));
}

/// Adds the entries and tags of a domain's regions.
fn push_regions(
    list: &mut Vec<CatalogEntry>,
    tags: &mut Vec<TagName>,
    domains: &Vec<DomainSummary>,
    index: usize,
    first: u64,
)
    requires
        index < domains@.len(),
        first == first_tag(domains@, index as int),
        first + domains@[index as int].boundary_regions@.len() <= u64::MAX,
        tags_match(domains@, old(tags)@, index as int, 0),
    ensures
        entry_views(final(list)@) == entry_views(old(list)@) + Seq::new(
            domains@[index as int].boundary_regions@.len(),
            |place: int| region_entry(domains@[index as int], first as int, place),
        ),
        tags_match(
            domains@,
            final(tags)@,
            index as int,
            domains@[index as int].boundary_regions@.len() as int,
        ),
{
    let domain = &domains[index];
    let ghost start = entry_views(list@);
    let ghost added = Seq::new(
        domain.boundary_regions@.len(),
        |place: int| region_entry(*domain, first as int, place),
    );
    let mut r: usize = 0;
    assert(entry_views(list@) =~= start + added.take(0));
    while r < domain.boundary_regions.len()
        invariant
            index < domains@.len(),
            *domain == domains@[index as int],
            first == first_tag(domains@, index as int),
            first + domain.boundary_regions@.len() <= u64::MAX,
            r <= domain.boundary_regions@.len(),
            added == Seq::new(
                domain.boundary_regions@.len(),
                |place: int| region_entry(*domain, first as int, place),
            ),
            entry_views(list@) == start + added.take(r as int),
            tags_match(domains@, tags@, index as int, r as int),
        decreases domain.boundary_regions@.len() - r,
    {
        let region = &domain.boundary_regions[r];
        let id: u64 = first + r as u64;
        let kind = match &region.tag {
            Some(tag) => copy_text(tag),
            None => "boundary".to_owned(),
        };
        let ghost before = tags@;
        tags.push(
            TagName { domain: copy_text(&domain.name), region: copy_text(&region.name), id },
        );
        push_entry(
            list,
            CatalogEntry {
                catalog_kind: CatalogKind::Tag,
                id,
                name: copy_text(&region.name),
                kind,
                dimension: Some(lower(domain.dimension)),
                source_object_id: Some(region.owner_object_id as u64),
                source_region_id: Some(r as u64 + 1),
            },
        );
        proof {
            assert(entry_views(list@) =~= start + added.take(r as int + 1));
            assert forall|d: Seq<char>, name: Seq<char>| #[trigger]
                named_tag(tags@, d, name, tags@.len() as int) == {
                    let held = tag_of(domains@, d, name, index as int);
                    if r + 1 > 0 && domains@[index as int].name@ == d {
                        match last_region(
                            domains@[index as int].boundary_regions@,
                            name,
                            r + 1,
                        ) {
                            Some(place) => Some((first_tag(domains@, index as int) + place) as u64),
                            None => held,
                        }
                    } else {
                        held
                    }
                } by {
                older_tags(before, tags@, d, name, before.len() as int);
                assert(named_tag(before, d, name, before.len() as int) == named_tag(
                    tags@,
                    d,
                    name,
                    before.len() as int,
                ));
            }
        }
        r = r + 1;
    }
    assert(added.take(r as int) =~= added);
}

impl MeshCatalog {
    /// The catalog of the domains that a mesh is made of.
    pub fn from_domains(domains: &Vec<DomainSummary>, generator: &str) -> (result: MeshCatalog)
        requires
            first_tag(domains@, domains@.len() as int) <= u64::MAX,
        ensures
            result.describes(domains@, generator@),
    {
        let mut list: Vec<CatalogEntry> = Vec::new();
        let mut names: Vec<DomainName> = Vec::new();
        let mut tags: Vec<TagName> = Vec::new();
        let mut next: u64 = 1;
        let mut greatest: Option<u8> = None;
        let mut i: usize = 0;
        assert(entry_views(list@) =~= entries_of(domains@, 0));
        while i < domains.len()
            invariant
                i <= domains@.len(),
                first_tag(domains@, domains@.len() as int) <= u64::MAX,
                next == first_tag(domains@, i as int),
                greatest == greatest_dimension(domains@, i as int),
                entry_views(list@) == entries_of(domains@, i as int),
                names_match(domains@, names@, i as int),
                tags_match(domains@, tags@, i as int, 0),
            decreases domains@.len() - i,
        {
            proof {
                tags_grow(domains@, i + 1, domains@.len() as int);
            }
            let domain = &domains[i];
            let zone: u64 = i as u64 + 1;
            let ghost before = entry_views(list@);
            push_entry(
                &mut list,
                CatalogEntry {
                    catalog_kind: CatalogKind::Zone,
                    id: zone,
                    name: copy_text(&domain.name),
                    kind: copy_text(&domain.kind),
                    dimension: Some(domain.dimension),
                    source_object_id: widened(domain.source_object_id),
                    source_region_id: None,
                },
            );
            push_entry(
                &mut list,
                CatalogEntry {
                    catalog_kind: CatalogKind::Source,
                    id: zone,
                    name: copy_text(&domain.name),
                    kind: "sdf_domain".to_owned(),
                    dimension: Some(domain.dimension),
                    source_object_id: widened(domain.source_object_id),
                    source_region_id: None,
                },
            );
            push_regions(&mut list, &mut tags, domains, i, next);
            let count: usize = domain.boundary_regions.len();
            let wall_tag: u64 = next + count as u64;
            push_entry(
                &mut list,
                CatalogEntry {
                    catalog_kind: CatalogKind::Tag,
                    id: wall_tag,
                    name: join(domain.name.as_str(), "_wall"),
                    kind: "wall".to_owned(),
                    dimension: Some(lower(domain.dimension)),
                    source_object_id: widened(domain.source_object_id),
                    source_region_id: None,
                },
            );
            names.push(
                DomainName {
                    domain: copy_text(&domain.name),
                    ids: DomainCatalogIds { zone, source: zone, wall_tag },
                },
            );
            greatest = match greatest {
                None => Some(domain.dimension),
                Some(held) => if held > domain.dimension {
                    Some(held)
                } else {
                    Some(domain.dimension)
                },
            };
            proof {
                assert(entry_views(list@) =~= before + domain_entries(
                    *domain,
                    i as int,
                    next as int,
                ));
                assert forall|d: Seq<char>, name: Seq<char>| #[trigger]
                    named_tag(tags@, d, name, tags@.len() as int) == tag_of(
                        domains@,
                        d,
                        name,
                        i + 1,
                    ) by {}
            }
            next = wall_tag + 1;
            i = i + 1;
        }
        push_entry(
            &mut list,
            CatalogEntry {
                catalog_kind: CatalogKind::Provenance,
                id: 1,
                name: generator.to_owned(),
                kind: "generator".to_owned(),
                dimension: greatest,
                source_object_id: None,
                source_region_id: None,
            },
        );
        let catalog = MeshCatalog { list, domain_names: names, tag_names: tags };
        proof {
            let count = domains@.len() as int;
            assert forall|name: Seq<char>| #[trigger]
                catalog.domain_ids(name) == match last_domain(domains@, name, count) {
                    Some(index) => Some(ids_of(domains@, index)),
                    None => None,
                } by {
                names_are_found(domains@, catalog.domain_names@, name, count);
            }
            assert forall|d: Seq<char>, name: Seq<char>| #[trigger]
                catalog.tag_id(d, name) == tag_of(domains@, d, name, count) by {}
        }
        catalog
    }
}

proof fn tags_grow(domains: Seq<DomainSummary>, from: int, to: int)
    requires
        0 <= from <= to,
    ensures
        first_tag(domains, from) + (to - from) <= first_tag(domains, to),
    decreases to - from,
{
    if from < to {
        tags_grow(domains, from, to - 1);
    }
}

/// The domains have distinct names, and so have the regions of each.
pub open spec fn distinct_names(domains: Seq<DomainSummary>) -> bool {
    &&& forall|i: int, j: int|
        0 <= i < j < domains.len() ==> (#[trigger] domains[i]).name@ != (
        #[trigger] domains[j]).name@
    &&& forall|i: int, p: int, q: int|
        0 <= i < domains.len() && 0 <= p < q < domains[i].boundary_regions@.len() ==> (
        #[trigger] domains[i].boundary_regions@[p]).name@ != (
        #[trigger] domains[i].boundary_regions@[q]).name@
}

/// The region stands in a domain.
pub open spec fn region_stands(domains: Seq<DomainSummary>, i: int, p: int) -> bool {
    0 <= i < domains.len() && 0 <= p < domains[i].boundary_regions@.len()
}

/// The tag of the region at a place of a domain.
pub open spec fn region_tag(domains: Seq<DomainSummary>, i: int, p: int) -> int {
    first_tag(domains, i) + p
}

proof fn tags_rise(domains: Seq<DomainSummary>, i: int, j: int)
    requires
        0 <= i < j <= domains.len(),
    ensures
        first_tag(domains, i) + domains[i].boundary_regions@.len() < first_tag(domains, j),
    decreases j - i,
{
    if i < j - 1 {
        tags_rise(domains, i, j - 1);
    }
}

proof fn region_is_found(regions: Seq<RegionSummary>, name: Seq<char>, count: int)
    requires
        0 <= count <= regions.len(),
    ensures
        match last_region(regions, name, count) {
            Some(place) => 0 <= place < count && regions[place].name@ == name,
            None => forall|p: int| 0 <= p < count ==> (#[trigger] regions[p]).name@ != name,
        },
    decreases count,
{
    if count > 0 {
        region_is_found(regions, name, count - 1);
    }
}

proof fn tag_is_found(domains: Seq<DomainSummary>, i: int, p: int, count: int)
    requires
        distinct_names(domains),
        region_stands(domains, i, p),
        i < count <= domains.len(),
    ensures
        tag_of(domains, domains[i].name@, domains[i].boundary_regions@[p].name@, count) == Some(
            region_tag(domains, i, p) as u64,
        ),
    decreases count,
{
    let region = domains[i].boundary_regions@[p].name@;
    let here = domains[count - 1].boundary_regions@;
    region_is_found(here, region, here.len() as int);
    if i < count - 1 {
        assert(domains[i].name@ != domains[count - 1].name@);
        tag_is_found(domains, i, p, count - 1);
    } else {
        let place = last_region(here, region, here.len() as int)->0;
        assert(here[p].name@ == region);
        if place < p {
            assert(domains[i].boundary_regions@[place].name@
                != domains[i].boundary_regions@[p].name@);
        } else if p < place {
            assert(domains[i].boundary_regions@[p].name@
                != domains[i].boundary_regions@[place].name@);
        }
    }
}

proof fn no_tag_is_found(
    domains: Seq<DomainSummary>,
    domain: Seq<char>,
    region: Seq<char>,
    count: int,
)
    requires
        0 <= count <= domains.len(),
        forall|i: int, p: int|
            region_stands(domains, i, p) ==> domains[i].name@ != domain || (
            #[trigger] domains[i].boundary_regions@[p]).name@ != region,
    ensures
        tag_of(domains, domain, region, count) is None,
    decreases count,
{
    if count > 0 {
        let here = domains[count - 1].boundary_regions@;
        region_is_found(here, region, here.len() as int);
        if last_region(here, region, here.len() as int) is Some {
            let place = last_region(here, region, here.len() as int)->0;
            assert(region_stands(domains, count - 1, place));
            assert(domains[count - 1].boundary_regions@[place].name@ == region);
        }
        no_tag_is_found(domains, domain, region, count - 1);
    }
}

proof fn entry_is_listed(domains: Seq<DomainSummary>, i: int, p: int, count: int)
    requires
        region_stands(domains, i, p),
        i < count <= domains.len(),
    ensures
        entries_of(domains, count).contains(
            region_entry(domains[i], first_tag(domains, i) as int, p),
        ),
    decreases count,
{
    let all = entries_of(domains, count);
    let head = entries_of(domains, count - 1);
    let wanted = region_entry(domains[i], first_tag(domains, i) as int, p);
    if i < count - 1 {
        entry_is_listed(domains, i, p, count - 1);
        let k = head.index_of(wanted);
        assert(all[k] == wanted);
    } else {
        let own = domain_entries(domains[i], i, first_tag(domains, i) as int);
        assert(own[2 + p] == wanted);
        assert(all[head.len() + 2 + p] == wanted);
    }
}

/// In the catalog of domains with distinct names, whose regions have distinct
/// names, every region has its own tag: the look-up by the two names gives it,
/// and an entry of the catalog has that number and the region's name.
pub proof fn region_has_its_tag(
    catalog: MeshCatalog,
    domains: Seq<DomainSummary>,
    generator: Seq<char>,
    i: int,
    p: int,
)
    requires
        catalog.describes(domains, generator),
        distinct_names(domains),
        region_stands(domains, i, p),
        first_tag(domains, domains.len() as int) <= u64::MAX,
    ensures
        catalog.tag_id(domains[i].name@, domains[i].boundary_regions@[p].name@) == Some(
            region_tag(domains, i, p) as u64,
        ),
        exists|k: int|
            0 <= k < catalog.list@.len() && (#[trigger] catalog.list@[k]).catalog_kind
                == CatalogKind::Tag && catalog.list@[k].id == region_tag(domains, i, p)
                && catalog.list@[k].name@ == domains[i].boundary_regions@[p].name@,
{
    let count = domains.len() as int;
    tag_is_found(domains, i, p, count);
    entry_is_listed(domains, i, p, count);
    tags_rise(domains, i, count);
    let wanted = region_entry(domains[i], first_tag(domains, i) as int, p);
    let all = entries_of(domains, count);
    let k = all.index_of(wanted);
    let views = entry_views(catalog.list@);
    assert(views == all.push(provenance_entry(domains, generator)));
    assert(views[k] == wanted);
    assert(views.len() == catalog.list@.len());
    assert(views[k] == catalog.list@[k]@);
}

/// Names that no region of a domain has give no tag.
pub proof fn other_names_have_no_tag(
    catalog: MeshCatalog,
    domains: Seq<DomainSummary>,
    generator: Seq<char>,
    domain: Seq<char>,
    region: Seq<char>,
)
    requires
        catalog.describes(domains, generator),
        forall|i: int, p: int|
            region_stands(domains, i, p) ==> domains[i].name@ != domain || (
            #[trigger] domains[i].boundary_regions@[p]).name@ != region,
    ensures
        catalog.tag_id(domain, region) is None,
{
    no_tag_is_found(domains, domain, region, domains.len() as int);
}

/// Two regions never share a tag, and none has the tag of a wall.
pub proof fn tags_tell_regions_apart(domains: Seq<DomainSummary>, i: int, p: int, j: int, q: int)
    requires
        region_stands(domains, i, p),
        0 <= j < domains.len(),
        first_tag(domains, domains.len() as int) <= u64::MAX,
    ensures
        region_stands(domains, j, q) && (i != j || p != q) ==> region_tag(domains, i, p) as u64
            != region_tag(domains, j, q) as u64,
        region_tag(domains, i, p) as u64 != ids_of(domains, j).wall_tag,
{
    let count = domains.len() as int;
    tags_rise(domains, i, count);
    tags_rise(domains, j, count);
    if i < j {
        tags_rise(domains, i, j);
    } else if j < i {
        tags_rise(domains, j, i);
    }
}

/// The last of the first domains with a name is found.
pub proof fn last_domain_is_last(domains: Seq<DomainSummary>, name: Seq<char>, count: int)
    requires
        0 <= count <= domains.len(),
    ensures
        match last_domain(domains, name, count) {
            Some(place) => 0 <= place < count && domains[place].name@ == name && forall|i: int|
                place < i < count ==> (#[trigger] domains[i]).name@ != name,
            None => forall|i: int| 0 <= i < count ==> (#[trigger] domains[i]).name@ != name,
        },
    decreases count,
{
    if count > 0 {
        last_domain_is_last(domains, name, count - 1);
    }
}

/// The dimension of a mesh is that of one of its domains, and none has a greater one.
pub proof fn greatest_dimension_is_greatest(domains: Seq<DomainSummary>, count: int)
    requires
        0 <= count <= domains.len(),
    ensures
        match greatest_dimension(domains, count) {
            Some(dimension) => count > 0 && (exists|i: int|
                0 <= i < count && (#[trigger] domains[i]).dimension == dimension) && forall|i: int|
                0 <= i < count ==> (#[trigger] domains[i]).dimension <= dimension,
            None => count == 0,
        },
    decreases count,
{
    if count > 0 {
        greatest_dimension_is_greatest(domains, count - 1);
        assert(domains[count - 1].dimension == domains[count - 1].dimension);
        if let Some(held) = greatest_dimension(domains, count - 1) {
            let i = choose|i: int|
                0 <= i < count - 1 && (#[trigger] domains[i]).dimension == held;
            assert(domains[i].dimension == held);
        }
    }
}

/// The entries of a catalog are numbered: a domain's zone and source by its place, from 1
/// on, and the tags of all domains one after the other, from 1 on. So no two entries of
/// one kind have the same number.
pub proof fn catalog_numbers_are_distinct(domains: Seq<DomainSummary>, count: int)
    requires
        0 <= count <= domains.len(),
        first_tag(domains, count) <= u64::MAX,
        count < u64::MAX,
    ensures
        ({
            let list = entries_of(domains, count);
            &&& first_tag(domains, count) >= 1
            &&& forall|i: int|
                0 <= i < list.len() ==> 1 <= (#[trigger] list[i]).id && if list[i].catalog_kind
                    is Tag {
                    list[i].id < first_tag(domains, count)
                } else {
                    list[i].id <= count && !(list[i].catalog_kind is Provenance)
                }
            &&& forall|i: int, j: int|
                0 <= i < j < list.len() && (#[trigger] list[i]).catalog_kind == (
                #[trigger] list[j]).catalog_kind ==> list[i].id != list[j].id
        }),
    decreases count,
{
    if count > 0 {
        catalog_numbers_are_distinct(domains, count - 1);
        let domain = domains[count - 1];
        let first = first_tag(domains, count - 1) as int;
        let rest = entries_of(domains, count - 1);
        let more = domain_entries(domain, count - 1, first);
        let list = entries_of(domains, count);
        let n = domain.boundary_regions@.len() as int;
        assert(more.len() == n + 3);
        assert(more[0].catalog_kind is Zone && more[0].id == count);
        assert(more[1].catalog_kind is Source && more[1].id == count);
        assert forall|k: int| 2 <= k < n + 3 implies (#[trigger] more[k]).catalog_kind is Tag
            && more[k].id == first + k - 2 by {
            if k < n + 2 {
                assert(more[k] == region_entry(domain, first, k - 2));
            }
        }
        assert forall|i: int| 0 <= i < list.len() implies 1 <= (#[trigger] list[i]).id
            && if list[i].catalog_kind is Tag {
            list[i].id < first_tag(domains, count)
        } else {
            list[i].id <= count && !(list[i].catalog_kind is Provenance)
        } by {
            if i < rest.len() {
                assert(list[i] == rest[i]);
            } else {
                assert(list[i] == more[i - rest.len()]);
            }
        }
        assert forall|i: int, j: int|
            0 <= i < j < list.len() && (#[trigger] list[i]).catalog_kind == (
            #[trigger] list[j]).catalog_kind implies list[i].id != list[j].id by {
            if j < rest.len() {
                assert(list[i] == rest[i] && list[j] == rest[j]);
            } else if i < rest.len() {
                assert(list[i] == rest[i] && list[j] == more[j - rest.len()]);
            } else {
                assert(list[i] == more[i - rest.len()] && list[j] == more[j - rest.len()]);
            }
        }
    }
}

/// The catalog of a domain names its zone, its source, each of its regions under the
/// region's own name and its wall, and what they come from.
pub proof fn domain_has_its_entries(domain: DomainSummary, index: int, first: int, place: int)
    requires
        0 <= place < domain.boundary_regions@.len(),
    ensures
        ({
            let list = domain_entries(domain, index, first);
            let n = domain.boundary_regions@.len() as int;
            let region = domain.boundary_regions@[place];
            &&& list.len() == n + 3
            &&& list[0].name == domain.name@ && list[0].kind == domain.kind@
            &&& list[1].name == domain.name@
            &&& list[2 + place].name == region.name@
            &&& list[2 + place].source_object_id == Some(region.owner_object_id as u64)
            &&& region.tag matches Some(tag) ==> list[2 + place].kind == tag@
            &&& list[n + 2].name == domain.name@ + "_wall"@
            &&& list[0].dimension == Some(domain.dimension)
            &&& domain.dimension > 0 ==> list[2 + place].dimension == Some(
                (domain.dimension - 1) as u8,
            ) && list[n + 2].dimension == Some((domain.dimension - 1) as u8)
        }),
{
    let list = domain_entries(domain, index, first);
    assert(list[2 + place] == region_entry(domain, first, place));
}

} // verus!
