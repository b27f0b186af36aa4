use vstd::prelude::*;
use crate::random::random_chance;

verus! {

/// Decides whether a placed mine is negative: true about half of the time.
pub fn roll_negative() -> bool {
    random_chance(1, 2)
}

} // verus!
