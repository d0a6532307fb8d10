//! The order of entity numbers.

use std::cmp::Ordering;

use vstd::prelude::*;
#[allow(unused_imports)]
use vstd::std_specs::cmp::PartialOrdSpec;

use crate::chunk::MeshId;

verus! {

/// Entity numbers come in the order of the numbers that they hold: by chunk,
/// then by kind, then by place.
impl PartialOrd for MeshId {
    fn partial_cmp(&self, other: &MeshId) -> (result: Option<Ordering>) {
        if self.bits < other.bits {
            Some(Ordering::Less)
        } else if self.bits == other.bits {
            Some(Ordering::Equal)
        } else {
            Some(Ordering::Greater)
        }
    }
}

impl vstd::std_specs::cmp::PartialOrdSpecImpl for MeshId {
    open spec fn obeys_partial_cmp_spec() -> bool {
        true
    }

    open spec fn partial_cmp_spec(&self, other: &MeshId) -> Option<Ordering> {
        if self.bits < other.bits {
            Some(Ordering::Less)
        } else if self.bits == other.bits {
            Some(Ordering::Equal)
        } else {
            Some(Ordering::Greater)
        }
    }
}

/// A number made of raw bits holds them, and two such numbers are equal exactly
/// where their bits are. One comes before another where its bits are the lesser
/// number; where the chunks differ, that is the chunks' order.
pub proof fn raw_numbers_keep_their_order(x: u64, y: u64)
    ensures
        (MeshId { bits: x }).bits == x,
        (MeshId { bits: x }) == (MeshId { bits: y }) <==> x == y,
        (MeshId { bits: x }).partial_cmp_spec(&(MeshId { bits: y })) == Some(Ordering::Less) <==> x
            < y,
        (MeshId { bits: x }).chunk() < (MeshId { bits: y }).chunk() ==> x < y,
        (MeshId { bits: x }).chunk() * 0x1_0000_0000 + (MeshId { bits: x }).low() == x,
{
}

} // verus!
