//! Small numeric helpers.
use vstd::prelude::*;
use vstd::std_specs::cmp::PartialOrdIs;
use vstd::std_specs::cmp::PartialOrdSpec;

verus! {

/// Restricts `val` to the range between `min` and `max`: values below
/// `min` give `min`, values above `max` give `max`, all others themselves.
/// `min` has to be smaller than `max`.
pub fn clamp<T: PartialOrd>(val: T, min: T, max: T) -> (r: T)
    requires
        T::obeys_partial_cmp_spec(),
        min.is_lt(&max),
    ensures
        val.is_lt(&min) ==> r == min,
        !val.is_lt(&min) && val.is_gt(&max) ==> r == max,
        !val.is_lt(&min) && !val.is_gt(&max) ==> r == val,
{
    if val < min {
        min
    } else if val > max {
        max
    } else {
        val
    }
}

/// On integers, any result that `clamp` may give lies between `min` and
/// `max`, and a value that already does stays as it is.
pub proof fn lemma_clamp_within(val: i64, min: i64, max: i64, r: i64)
    requires
        min.is_lt(&max),
        val.is_lt(&min) ==> r == min,
        !val.is_lt(&min) && val.is_gt(&max) ==> r == max,
        !val.is_lt(&min) && !val.is_gt(&max) ==> r == val,
    ensures
        min <= r <= max,
        min <= val <= max ==> r == val,
{
}

} // verus!
