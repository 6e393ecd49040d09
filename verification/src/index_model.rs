//! The mathematical model of the index translation, over natural numbers.
//!
//! A domain of `2^log_domain_size` points is stored in bit-reversed order, in
//! blocks ("cosets") of `2^collapsing_factor` adjacent slots.

use crate::bit_reversal::bit_reverse;
use vstd::arithmetic::power2::*;
use vstd::prelude::*;

verus! {

/// The two ways in which the arguments of a translation can be unusable.
#[derive(Clone, Copy, Debug, PartialEq, Eq, Structural)]
pub enum CosetIndexError {
    /// The index is not below the domain size.
    IndexOutOfRange,
    /// The domain size is not two to the power of its stated logarithm.
    DomainSizeMismatch,
}

/// What is wrong with `index` in a domain of `domain_size` points whose
/// logarithm is said to be `log_domain_size`, if anything. The index is looked
/// at first.
pub open spec fn violation(index: nat, domain_size: nat, log_domain_size: nat) -> Option<
    CosetIndexError,
> {
    if index >= domain_size {
        Some(CosetIndexError::IndexOutOfRange)
    } else if domain_size != pow2(log_domain_size) {
        Some(CosetIndexError::DomainSizeMismatch)
    } else {
        None
    }
}

/// The storage slot of the point with natural index `natural_index`, and
/// equally the natural index of the point kept in slot `natural_index`.
pub open spec fn permuted_index(natural_index: nat, log_domain_size: nat) -> nat {
    bit_reverse(natural_index, log_domain_size)
}

/// The first storage slot of the coset that holds `natural_index`: the
/// permuted index of `natural_index` with its top `collapsing_factor` digits
/// cleared.
pub open spec fn coset_start(natural_index: nat, log_domain_size: nat, collapsing_factor: nat) -> nat {
    permuted_index(
        natural_index % pow2((log_domain_size - collapsing_factor) as nat),
        log_domain_size,
    )
}

/// The place of `natural_index` within its coset: the low `collapsing_factor`
/// digits of its permuted index.
pub open spec fn coset_offset(natural_index: nat, log_domain_size: nat, collapsing_factor: nat) -> nat {
    permuted_index(natural_index, log_domain_size) % pow2(collapsing_factor)
}

/// The storage index that a query lands on in the next folding layer: the
/// previous layer's index without the `collapsing_factor` digits that the fold
/// used up.
pub open spec fn next_layer_index(index: nat, collapsing_factor: nat) -> nat {
    index / pow2(collapsing_factor)
}

/// The place of `next_layer_index` within its coset.
pub open spec fn next_layer_offset(index: nat, collapsing_factor: nat) -> nat {
    next_layer_index(index, collapsing_factor) % pow2(collapsing_factor)
}

/// Where the coset of `next_layer_index` begins in the next layer's storage.
pub open spec fn next_layer_start(index: nat, collapsing_factor: nat) -> nat {
    (next_layer_index(index, collapsing_factor) - next_layer_offset(index, collapsing_factor)) as nat
}

/// The sum of the collapsing factors of a run of folding rounds.
pub open spec fn total_shift(factors: Seq<nat>) -> nat
    decreases factors.len(),
{
    if factors.len() == 0 {
        0
    } else {
        total_shift(factors.drop_last()) + factors.last()
    }
}

/// The storage index reached from `index` by following the query through one
/// folding round per entry of `factors`, each round resolving the coset start
/// and offset of the next layer and adding them up.
pub open spec fn layer_index(index: nat, factors: Seq<nat>) -> nat
    decreases factors.len(),
{
    if factors.len() == 0 {
        index
    } else {
        let previous = layer_index(index, factors.drop_last());
        next_layer_start(previous, factors.last()) + next_layer_offset(previous, factors.last())
    }
}

} // verus!
