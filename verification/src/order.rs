//! Whether a relation between two quantities has turned round.
use vstd::prelude::*;
use vstd::std_specs::cmp::{PartialEqIs, PartialEqSpec, PartialOrdIs, PartialOrdSpec};

verus! {

/// Whether the order of the current pair is the reverse of the order of the initial pair: an
/// initial "less than" needs a current "greater than" and an initial "greater than" (or
/// incomparable pair) needs a current "less than"; an initial equality always counts as turned.
pub fn relativ_change<T: PartialOrd>(
    initial_relation_1: T,
    initial_relation_2: T,
    current_relation_1: T,
    current_relation_2: T,
) -> (changed: bool)
    ensures
        T::obeys_partial_cmp_spec() && T::obeys_eq_spec() ==> changed == if initial_relation_1.is_lt(
            &initial_relation_2,
        ) {
            current_relation_1.is_gt(&current_relation_2)
        } else if initial_relation_1.is_eq(&initial_relation_2) {
            true
        } else {
            current_relation_1.is_lt(&current_relation_2)
        },
{
    if initial_relation_1 < initial_relation_2 {
        current_relation_1 > current_relation_2
    } else if initial_relation_1 == initial_relation_2 {
        true
    } else {
        current_relation_1 < current_relation_2
    }
}

} // verus!
