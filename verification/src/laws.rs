//! What holds of the index translation for every domain, collapsing factor and
//! index.

use crate::bit_reversal::{
    bit_reverse, lemma_bit_reverse_bound, lemma_bit_reverse_involution, lemma_bit_reverse_split,
    lemma_bit_reverse_zero,
};
use crate::index_model::{
    coset_offset, coset_start, layer_index, next_layer_index, next_layer_offset, next_layer_start,
    permuted_index, total_shift,
};
use vstd::arithmetic::div_mod::*;
use vstd::arithmetic::mul::*;
use vstd::arithmetic::power2::*;
use vstd::prelude::*;

verus! {

/// A coset start is a multiple of the coset size, an offset is below the coset
/// size, the two add up to the permuted index, and the coset lies within the
/// domain.
pub proof fn lemma_coset_decomposition(natural_index: nat, log_domain_size: nat, collapsing_factor: nat)
    requires
        collapsing_factor <= log_domain_size,
    ensures
        coset_start(natural_index, log_domain_size, collapsing_factor) % pow2(collapsing_factor)
            == 0,
        coset_offset(natural_index, log_domain_size, collapsing_factor) < pow2(collapsing_factor),
        coset_start(natural_index, log_domain_size, collapsing_factor) + coset_offset(
            natural_index,
            log_domain_size,
            collapsing_factor,
        ) == permuted_index(natural_index, log_domain_size),
        coset_start(natural_index, log_domain_size, collapsing_factor) + pow2(collapsing_factor)
            <= pow2(log_domain_size),
{
    let kept = (log_domain_size - collapsing_factor) as nat;
    let size = pow2(collapsing_factor);
    let cut = natural_index % pow2(kept);
    lemma_pow2_pos(kept);
    lemma_pow2_pos(collapsing_factor);
    lemma_pow2_adds(kept, collapsing_factor);
    lemma_mod_pos_bound(natural_index as int, pow2(kept) as int);
    lemma_div_pos_is_pos(natural_index as int, pow2(kept) as int);
    let upper = bit_reverse(cut, kept);
    let lower = bit_reverse(natural_index / pow2(kept), collapsing_factor);
    lemma_bit_reverse_bound(cut, kept);
    lemma_bit_reverse_bound(natural_index / pow2(kept), collapsing_factor);

    // the start: only the kept digits, reversed into the upper part
    lemma_bit_reverse_split(cut, kept, collapsing_factor);
    lemma_small_mod(cut, pow2(kept));
    lemma_basic_div(cut as int, pow2(kept) as int);
    lemma_bit_reverse_zero(collapsing_factor);
    assert(coset_start(natural_index, log_domain_size, collapsing_factor) == upper * size);

    // the permuted index: the same upper part, and the cleared digits below it
    lemma_bit_reverse_split(natural_index, kept, collapsing_factor);
    assert(permuted_index(natural_index, log_domain_size) == upper * size + lower);
    lemma_fundamental_div_mod_converse(
        (upper * size + lower) as int,
        size as int,
        upper as int,
        lower as int,
    );
    lemma_mod_multiples_basic(upper as int, size as int);
    assert(upper * size + size <= pow2(kept) * size) by (nonlinear_arith)
        requires
            upper < pow2(kept),
    ;
}

/// Forward, then inverse: the slot found for a natural index holds that index.
pub proof fn lemma_forward_then_inverse(natural_index: nat, log_domain_size: nat, collapsing_factor: nat)
    requires
        collapsing_factor <= log_domain_size,
        natural_index < pow2(log_domain_size),
    ensures
        permuted_index(
            coset_start(natural_index, log_domain_size, collapsing_factor) + coset_offset(
                natural_index,
                log_domain_size,
                collapsing_factor,
            ),
            log_domain_size,
        ) == natural_index,
{
    lemma_coset_decomposition(natural_index, log_domain_size, collapsing_factor);
    lemma_bit_reverse_involution(natural_index, log_domain_size);
}

/// Inverse, then forward: the natural index kept in a slot is found again in
/// that slot.
pub proof fn lemma_inverse_then_forward(coset_index: nat, log_domain_size: nat, collapsing_factor: nat)
    requires
        collapsing_factor <= log_domain_size,
        coset_index < pow2(log_domain_size),
    ensures
        permuted_index(coset_index, log_domain_size) < pow2(log_domain_size),
        coset_start(
            permuted_index(coset_index, log_domain_size),
            log_domain_size,
            collapsing_factor,
        ) + coset_offset(
            permuted_index(coset_index, log_domain_size),
            log_domain_size,
            collapsing_factor,
        ) == coset_index,
{
    let natural_index = permuted_index(coset_index, log_domain_size);
    lemma_bit_reverse_bound(coset_index, log_domain_size);
    lemma_coset_decomposition(natural_index, log_domain_size, collapsing_factor);
    lemma_bit_reverse_involution(coset_index, log_domain_size);
}

/// With a collapsing factor of zero every coset is a single slot: the start is
/// the permuted index itself, and the offset is zero.
pub proof fn lemma_single_slot_cosets(natural_index: nat, log_domain_size: nat)
    ensures
        pow2(0) == 1,
        coset_start(natural_index, log_domain_size, 0) == permuted_index(
            natural_index,
            log_domain_size,
        ),
        coset_offset(natural_index, log_domain_size, 0) == 0,
{
    lemma2_to64();
    lemma_coset_decomposition(natural_index, log_domain_size, 0);
}

/// In the next layer too, the start is a multiple of the coset size, the
/// offset is below the coset size, and the two add up to the shifted index.
pub proof fn lemma_next_layer_decomposition(index: nat, collapsing_factor: nat)
    ensures
        next_layer_start(index, collapsing_factor) % pow2(collapsing_factor) == 0,
        next_layer_offset(index, collapsing_factor) < pow2(collapsing_factor),
        next_layer_start(index, collapsing_factor) + next_layer_offset(index, collapsing_factor)
            == next_layer_index(index, collapsing_factor),
{
    let size = pow2(collapsing_factor) as int;
    let shifted = next_layer_index(index, collapsing_factor) as int;
    lemma_pow2_pos(collapsing_factor);
    lemma_div_pos_is_pos(index as int, size);
    lemma_mod_pos_bound(shifted, size);
    lemma_fundamental_div_mod(shifted, size);
    lemma_mod_multiples_basic(shifted / size, size);
    lemma_mul_is_commutative(shifted / size, size);
}

/// Following a query through several folding rounds, one call per round, ends
/// where a single shift by the sum of the collapsing factors ends; and the last
/// round's coset start and offset are that shifted index, split by the last
/// round's coset size.
pub proof fn lemma_layers_compose(index: nat, factors: Seq<nat>)
    ensures
        layer_index(index, factors) == index / pow2(total_shift(factors)),
        factors.len() > 0 ==> {
            let previous = layer_index(index, factors.drop_last());
            let shifted = index / pow2(total_shift(factors));
            &&& next_layer_offset(previous, factors.last()) == shifted % pow2(factors.last())
            &&& next_layer_start(previous, factors.last()) == shifted - shifted % pow2(
                factors.last(),
            )
        },
    decreases factors.len(),
{
    if factors.len() == 0 {
        lemma2_to64();
        assert(index / 1 == index);
    } else {
        let earlier = factors.drop_last();
        let last = factors.last();
        lemma_layers_compose(index, earlier);
        let previous = layer_index(index, earlier);
        lemma_next_layer_decomposition(previous, last);
        lemma_pow2_pos(total_shift(earlier));
        lemma_pow2_pos(last);
        lemma_pow2_adds(total_shift(earlier), last);
        lemma_div_denominator(index as int, pow2(total_shift(earlier)) as int, pow2(last) as int);
    }
}

} // verus!
