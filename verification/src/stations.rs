//! How well stations along a boundary serve the strip that grows from it.

use vstd::prelude::*;

use crate::assess::ONE_BITS;
use crate::number::Real;
#[allow(unused_imports)]
use crate::number::total_rank_injective;
use crate::sorted::{sort_keys, Key};
#[allow(unused_imports)]
use crate::sorted::{ordered, rearranged};
use crate::topology::VALID_QUALITY_BITS;

verus! {

/// The bits of positive and negative infinity.
pub const INFINITE_BITS: u64 = 0x7ff0_0000_0000_0000;

pub const MINUS_INFINITE_BITS: u64 = 0xfff0_0000_0000_0000;

impl Key for Real {
    /// The total order of all numbers.
    open spec fn before(self, other: Self) -> bool {
        self.total_rank() < other.total_rank()
    }

    proof fn irreflexive(a: Self) {
    }

    proof fn transitive(a: Self, b: Self, c: Self) {
    }

    proof fn total(a: Self, b: Self) {
        total_rank_injective(a, b);
    }

    fn precedes(&self, other: &Self) -> (result: bool) {
        self.total_less(*other)
    }
}

/// What was measured of a quad of the strip.
#[derive(Debug, Clone, Copy)]
pub struct StripQuad {
    pub scaled_jacobian: Real,
    pub skewness: Real,
}

/// How good a strip is.
#[derive(Debug, Clone, Copy, PartialEq, Eq, Structural)]
pub struct StripScore {
    pub valid: bool,
    pub worst_skewness: Real,
    pub percentile_skewness: Real,
    pub minimum_scaled_jacobian: Real,
    pub tangential_error: Real,
}

/// Every quad is valid.
pub open spec fn valid_quads(quads: Seq<StripQuad>) -> bool {
    forall|i: int| 0 <= i < quads.len() ==> valid_quad(#[trigger] quads[i])
}

pub open spec fn valid_quad(quad: StripQuad) -> bool {
    (Real { bits: VALID_QUALITY_BITS }).lt(quad.scaled_jacobian) && quad.skewness.finite()
}

/// The least Scaled Jacobian of the first quads, at most one.
pub open spec fn least_jacobian(quads: Seq<StripQuad>, count: int) -> Real
    decreases count,
{
    if count <= 0 {
        Real { bits: ONE_BITS }
    } else {
        let rest = least_jacobian(quads, count - 1);
        if quads[count - 1].scaled_jacobian.lt(rest) {
            quads[count - 1].scaled_jacobian
        } else {
            rest
        }
    }
}

/// The skewness of the quads.
pub open spec fn skews(quads: Seq<StripQuad>) -> Seq<Real> {
    Seq::new(quads.len(), |i: int| quads[i].skewness)
}

/// The place of the 99th percentile in a sorted list.
pub open spec fn percentile_place(count: int) -> int {
    (count - 1) * 99 / 100
}

impl StripScore {
    /// The score of a strip that cannot be built.
    pub fn invalid() -> (result: StripScore)
        ensures
            result == (StripScore {
                valid: false,
                worst_skewness: Real { bits: INFINITE_BITS },
                percentile_skewness: Real { bits: INFINITE_BITS },
                minimum_scaled_jacobian: Real { bits: MINUS_INFINITE_BITS },
                tangential_error: Real { bits: INFINITE_BITS },
            }),
    {
        StripScore {
            valid: false,
            worst_skewness: Real { bits: INFINITE_BITS },
            percentile_skewness: Real { bits: INFINITE_BITS },
            minimum_scaled_jacobian: Real { bits: MINUS_INFINITE_BITS },
            tangential_error: Real { bits: INFINITE_BITS },
        }
    }

    pub fn is_valid(self) -> (result: bool)
        ensures
            result == self.valid,
    {
        self.valid
    }

    /// The score of the quads of a strip.
    pub fn from_quads(quads: &Vec<StripQuad>, tangential_error: Real) -> (result: StripScore)
        ensures
            result.valid == (quads@.len() > 0 && valid_quads(quads@)),
            result.minimum_scaled_jacobian == least_jacobian(quads@, quads@.len() as int),
            result.tangential_error == tangential_error,
            quads@.len() == 0 ==> result.worst_skewness.bits == INFINITE_BITS
                && result.percentile_skewness.bits == INFINITE_BITS,
            quads@.len() > 0 ==> exists|sorted: Seq<Real>|
                #![trigger ordered(sorted)]
                ordered(sorted) && sorted.to_multiset() == skews(quads@).to_multiset()
                    && result.worst_skewness == sorted[quads@.len() - 1]
                    && result.percentile_skewness == sorted[percentile_place(
                    quads@.len() as int,
                )],
    {
        let limit = Real { bits: VALID_QUALITY_BITS };
        let mut list: Vec<Real> = Vec::new();
        let mut least = Real { bits: ONE_BITS };
        let mut valid = quads.len() > 0;
        let mut i: usize = 0;
        while i < quads.len()
            invariant
                i <= quads@.len(),
                limit == (Real { bits: VALID_QUALITY_BITS }),
                list@ == skews(quads@).take(i as int),
                least == least_jacobian(quads@, i as int),
                valid == (quads@.len() > 0 && valid_quads(quads@.take(i as int))),
            decreases quads@.len() - i,
        {
            let quad = quads[i];
            let fine = limit.less(quad.scaled_jacobian) && quad.skewness.is_finite();
            proof {
                let less = quads@.take(i as int);
                let more = quads@.take(i + 1);
                assert(more[i as int] == quad);
                assert(fine == valid_quad(quad));
                if valid_quads(more) {
                    assert forall|k: int| 0 <= k < less.len() implies valid_quad(
                        #[trigger] less[k],
                    ) by {
                        assert(more[k] == less[k]);
                    }
                }
                if valid_quads(less) && fine {
                    assert forall|k: int| 0 <= k < more.len() implies valid_quad(
                        #[trigger] more[k],
                    ) by {
                        if k < i {
                            assert(less[k] == more[k]);
                        }
                    }
                }
            }
            valid = valid && fine;
            if quad.scaled_jacobian.less(least) {
                least = quad.scaled_jacobian;
            }
            list.push(quad.skewness);
            assert(list@ =~= skews(quads@).take(i + 1));
            i = i + 1;
        }
        assert(quads@.take(i as int) =~= quads@);
        assert(list@ =~= skews(quads@));
        let ghost before = list@;
        sort_keys(&mut list);
        proof {
            rearranged(list@, before);
        }
        let count: usize = list.len();
        if count == 0 {
            return StripScore {
                valid,
                worst_skewness: Real { bits: INFINITE_BITS },
                percentile_skewness: Real { bits: INFINITE_BITS },
                minimum_scaled_jacobian: least,
                tangential_error,
            };
        }
        let place: usize = ((count - 1) as u128 * 99 / 100) as usize;
        StripScore {
            valid,
            worst_skewness: list[count - 1],
            percentile_skewness: list[place],
            minimum_scaled_jacobian: least,
            tangential_error,
        }
    }

    /// The criteria in order; the first one that differs decides, and more is
    /// better.
    pub open spec fn criterion(self, index: int) -> int {
        if index == 0 {
            if self.valid {
                1
            } else {
                0
            }
        } else if index == 1 {
            -self.worst_skewness.total_rank()
        } else if index == 2 {
            -self.percentile_skewness.total_rank()
        } else if index == 3 {
            self.minimum_scaled_jacobian.total_rank()
        } else {
            -self.tangential_error.total_rank()
        }
    }

    /// A valid strip is better than an invalid one, then the one with the lesser
    /// worst skewness, then with the lesser 99th percentile, then with the
    /// greater least Scaled Jacobian, then with the lesser error along the wall.
    pub fn better_than(self, other: StripScore) -> (result: bool)
        ensures
            result == better_strip(self, other, 0),
    {
        proof {
            reveal_with_fuel(better_strip, 6);
        }
        if self.valid != other.valid {
            return self.valid;
        }
        if self.worst_skewness.total_less(other.worst_skewness) {
            return true;
        }
        if other.worst_skewness.total_less(self.worst_skewness) {
            return false;
        }
        if self.percentile_skewness.total_less(other.percentile_skewness) {
            return true;
        }
        if other.percentile_skewness.total_less(self.percentile_skewness) {
            return false;
        }
        if other.minimum_scaled_jacobian.total_less(self.minimum_scaled_jacobian) {
            return true;
        }
        if self.minimum_scaled_jacobian.total_less(other.minimum_scaled_jacobian) {
            return false;
        }
        self.tangential_error.total_less(other.tangential_error)
    }
}

/// From the given criterion on, `a` is better than `b`.
pub open spec fn better_strip(a: StripScore, b: StripScore, index: int) -> bool
    decreases 5 - index,
{
    if index >= 5 {
        false
    } else {
        a.criterion(index) > b.criterion(index) || (a.criterion(index) == b.criterion(index)
            && better_strip(a, b, index + 1))
    }
}

/// Of two strips at most one is better.
pub proof fn better_strip_is_one_way(a: StripScore, b: StripScore, index: int)
    requires
        better_strip(a, b, index),
    ensures
        !better_strip(b, a, index),
    decreases 5 - index,
{
    if index < 5 && a.criterion(index) == b.criterion(index) {
        better_strip_is_one_way(a, b, index + 1);
    }
}

/// A strip that is better than a better one is better.
pub proof fn better_strip_carries_over(a: StripScore, b: StripScore, c: StripScore, index: int)
    requires
        better_strip(a, b, index),
        better_strip(b, c, index),
    ensures
        better_strip(a, c, index),
    decreases 5 - index,
{
    if index < 5 && a.criterion(index) == b.criterion(index) && b.criterion(index) == c.criterion(
        index,
    ) {
        better_strip_carries_over(a, b, c, index + 1);
    }
}

/// The shape of the quads comes before the error along the wall: of two valid
/// strips the one with the lesser worst skewness is better, whatever the errors.
pub proof fn shape_precedes_size(a: StripScore, b: StripScore)
    requires
        a.valid == b.valid,
        a.worst_skewness.total_rank() < b.worst_skewness.total_rank(),
    ensures
        better_strip(a, b, 0),
        !better_strip(b, a, 0),
{
    reveal_with_fuel(better_strip, 3);
}

/// The least Scaled Jacobian is a number, at most one, no greater than that of any of the
/// quads, and one of theirs unless it is one.
pub proof fn least_jacobian_is_least(quads: Seq<StripQuad>, count: int)
    requires
        0 <= count <= quads.len(),
    ensures
        !least_jacobian(quads, count).nan(),
        !(Real { bits: 0x3ff0_0000_0000_0000 }).lt(least_jacobian(quads, count)),
        forall|i: int|
            0 <= i < count ==> !(#[trigger] quads[i]).scaled_jacobian.lt(
                least_jacobian(quads, count),
            ),
        least_jacobian(quads, count) == (Real { bits: 0x3ff0_0000_0000_0000 }) || exists|i: int|
            0 <= i < count && least_jacobian(quads, count) == (#[trigger] quads[i]).scaled_jacobian,
    decreases count,
{
    assert(!(Real { bits: 0x3ff0_0000_0000_0000 }).nan());
    if count > 0 {
        least_jacobian_is_least(quads, count - 1);
        assert(least_jacobian(quads, count) == quads[count - 1].scaled_jacobian || least_jacobian(
            quads,
            count,
        ) == least_jacobian(quads, count - 1));
    }
}

/// The place of the percentile is one of the list, and at least 99 of every 100 steps to the
/// last place lie up to the place after it.
pub proof fn percentile_is_in_list(count: int)
    requires
        1 <= count,
    ensures
        0 <= percentile_place(count) < count,
        100 * percentile_place(count) <= 99 * (count - 1) < 100 * (percentile_place(count) + 1),
        count == 1 ==> percentile_place(count) == 0,
{
}

} // verus!
