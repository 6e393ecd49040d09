//! The coset index translator: from a natural index to the storage range of its
//! coset and back, and from one folding layer to the next.

use crate::bit_reversal::{bitreverse, lemma_bit_reverse_bound, lemma_usize_range};
use crate::index_model::{
    coset_offset, coset_start, next_layer_index, next_layer_offset, next_layer_start,
    permuted_index, violation, CosetIndexError,
};
use crate::laws::{lemma_coset_decomposition, lemma_next_layer_decomposition};
use std::ops::Range;
use vstd::arithmetic::power2::*;
use vstd::bits::*;
use vstd::prelude::*;

verus! {

/// Shifting one to the left by `bits` gives `2^bits`, which a machine word holds.
proof fn lemma_one_shifted(bits: u32)
    requires
        bits < usize::BITS,
    ensures
        (1usize << bits) == pow2(bits as nat),
        0 < pow2(bits as nat) <= usize::MAX,
{
    lemma_usize_pow2_no_overflow(bits as nat);
    lemma_usize_shl_is_mul(1, bits as usize);
}

/// A power of two that a machine word holds has an exponent below the word's
/// width.
proof fn lemma_domain_fits(domain_size: usize, log_domain_size: u32)
    requires
        domain_size == pow2(log_domain_size as nat),
    ensures
        log_domain_size < usize::BITS,
{
    lemma_usize_range();
    if log_domain_size > usize::BITS {
        lemma_pow2_strictly_increases(usize::BITS as nat, log_domain_size as nat);
    }
}

/// Clearing the top `collapsing_factor` bits of a word of
/// `kept + collapsing_factor` bits leaves its remainder modulo `2^kept`.
proof fn lemma_top_bits_cleared(index: usize, kept: u32, collapsing_factor: u32, mask: usize)
    requires
        kept + collapsing_factor < usize::BITS,
        index < pow2((kept + collapsing_factor) as nat),
        mask == !((((1usize << collapsing_factor) - 1) as usize) << kept),
    ensures
        index & mask == index as nat % pow2(kept as nat),
{
    let width: u32 = (kept + collapsing_factor) as u32;
    lemma_one_shifted(width);
    lemma_one_shifted(kept);
    let low: usize = ((1usize << kept) - 1) as usize;
    assert(index & mask == index & low) by (bit_vector)
        requires
            kept + collapsing_factor < usize::BITS,
            width == kept + collapsing_factor,
            index < (1usize << width),
            mask == !((((1usize << collapsing_factor) - 1) as usize) << kept),
            low == ((1usize << kept) - 1) as usize,
    ;
    lemma_usize_low_bits_mask_is_mod(index, kept as nat);
}

/// The translator between natural indices and storage indices. It holds no
/// state: every operation is a function of its arguments.
pub struct CosetCombiner {}

impl CosetCombiner {
    /// Whether `index` can be translated in a domain of `domain_size` points
    /// whose logarithm is said to be `log_domain_size`, and if not, why not.
    pub fn check_index(index: usize, domain_size: usize, log_domain_size: u32) -> (checked: Result<
        (),
        CosetIndexError,
    >)
        ensures
            checked == match violation(index as nat, domain_size as nat, log_domain_size as nat) {
                Some(error) => Err::<(), CosetIndexError>(error),
                None => Ok::<(), CosetIndexError>(()),
            },
    {
        if index >= domain_size {
            return Err(CosetIndexError::IndexOutOfRange);
        }
        if log_domain_size >= usize::BITS {
            proof {
                if domain_size == pow2(log_domain_size as nat) {
                    lemma_domain_fits(domain_size, log_domain_size);
                }
            }
            return Err(CosetIndexError::DomainSizeMismatch);
        }
        proof {
            lemma_one_shifted(log_domain_size);
        }
        if (1usize << log_domain_size) != domain_size {
            return Err(CosetIndexError::DomainSizeMismatch);
        }
        Ok(())
    }

    /// The storage range of the coset that holds the point with natural index
    /// `natural_index`.
    pub fn get_coset_idx_for_natural_index(
        natural_index: usize,
        domain_size: usize,
        log_domain_size: u32,
        collapsing_factor: u32,
    ) -> (range: Range<usize>)
        requires
            natural_index < domain_size,
            domain_size == pow2(log_domain_size as nat),
            collapsing_factor <= log_domain_size,
        ensures
            range.start == coset_start(
                natural_index as nat,
                log_domain_size as nat,
                collapsing_factor as nat,
            ),
            range.end == range.start + pow2(collapsing_factor as nat),
            range.start as nat % pow2(collapsing_factor as nat) == 0,
            range.start <= permuted_index(natural_index as nat, log_domain_size as nat) < range.end
                <= domain_size,
    {
        proof {
            lemma_domain_fits(domain_size, log_domain_size);
            lemma_one_shifted(collapsing_factor);
            lemma_coset_decomposition(
                natural_index as nat,
                log_domain_size as nat,
                collapsing_factor as nat,
            );
        }
        let endpoint_mask: usize = (1usize << collapsing_factor) - 1;
        let kept: u32 = log_domain_size - collapsing_factor;
        let mask: usize = !(endpoint_mask << kept);
        proof {
            lemma_top_bits_cleared(natural_index, kept, collapsing_factor, mask);
        }
        let start_idx: usize = bitreverse(natural_index & mask, log_domain_size as usize);
        let coset_size: usize = 1usize << collapsing_factor;
        start_idx..(start_idx + coset_size)
    }

    /// The storage range of the coset that holds the point with natural index
    /// `natural_index`, and the place of that point within the range.
    pub fn get_coset_idx_for_natural_index_extended(
        natural_index: usize,
        domain_size: usize,
        log_domain_size: u32,
        collapsing_factor: u32,
    ) -> (found: (Range<usize>, usize))
        requires
            natural_index < domain_size,
            domain_size == pow2(log_domain_size as nat),
            collapsing_factor <= log_domain_size,
        ensures
            found.0.start == coset_start(
                natural_index as nat,
                log_domain_size as nat,
                collapsing_factor as nat,
            ),
            found.0.end == found.0.start + pow2(collapsing_factor as nat),
            found.1 == coset_offset(
                natural_index as nat,
                log_domain_size as nat,
                collapsing_factor as nat,
            ),
            found.0.start as nat % pow2(collapsing_factor as nat) == 0,
            found.1 < pow2(collapsing_factor as nat),
            found.0.start + found.1 == permuted_index(
                natural_index as nat,
                log_domain_size as nat,
            ),
            found.0.end <= domain_size,
    {
        let coset_idx_range = Self::get_coset_idx_for_natural_index(
            natural_index,
            domain_size,
            log_domain_size,
            collapsing_factor,
        );
        proof {
            lemma_domain_fits(domain_size, log_domain_size);
            lemma_one_shifted(collapsing_factor);
            lemma_coset_decomposition(
                natural_index as nat,
                log_domain_size as nat,
                collapsing_factor as nat,
            );
        }
        let endpoint_mask: usize = (1usize << collapsing_factor) - 1;
        let permuted: usize = bitreverse(natural_index, log_domain_size as usize);
        let shift: usize = permuted & endpoint_mask;
        proof {
            lemma_usize_low_bits_mask_is_mod(permuted, collapsing_factor as nat);
        }
        (coset_idx_range, shift)
    }

    /// The natural index of the point kept in storage slot `coset_index`, which
    /// may be any slot of the domain. The collapsing factor plays no part.
    pub fn get_natural_idx_for_coset_index(
        coset_index: usize,
        domain_size: usize,
        log_domain_size: u32,
        _collapsing_factor: u32,
    ) -> (natural_index: usize)
        requires
            coset_index < domain_size,
            domain_size == pow2(log_domain_size as nat),
        ensures
            natural_index == permuted_index(coset_index as nat, log_domain_size as nat),
            natural_index < domain_size,
    {
        proof {
            lemma_domain_fits(domain_size, log_domain_size);
            lemma_bit_reverse_bound(coset_index as nat, log_domain_size as nat);
        }
        bitreverse(coset_index, log_domain_size as usize)
    }

    /// As `get_coset_idx_for_natural_index`, for callers that cannot vouch for
    /// the index or the domain: the arguments are checked first, and nothing is
    /// computed where they are unusable.
    pub fn try_get_coset_idx_for_natural_index(
        natural_index: usize,
        domain_size: usize,
        log_domain_size: u32,
        collapsing_factor: u32,
    ) -> (found: Result<Range<usize>, CosetIndexError>)
        requires
            collapsing_factor <= log_domain_size,
        ensures
            match found {
                Ok(range) => {
                    &&& violation(natural_index as nat, domain_size as nat, log_domain_size as nat)
                        is None
                    &&& range.start == coset_start(
                        natural_index as nat,
                        log_domain_size as nat,
                        collapsing_factor as nat,
                    )
                    &&& range.end == range.start + pow2(collapsing_factor as nat)
                    &&& range.start as nat % pow2(collapsing_factor as nat) == 0
                    &&& range.start <= permuted_index(natural_index as nat, log_domain_size as nat)
                        < range.end <= domain_size
                },
                Err(error) => violation(
                    natural_index as nat,
                    domain_size as nat,
                    log_domain_size as nat,
                ) == Some(error),
            },
    {
        match Self::check_index(natural_index, domain_size, log_domain_size) {
            Ok(()) => Ok(
                Self::get_coset_idx_for_natural_index(
                    natural_index,
                    domain_size,
                    log_domain_size,
                    collapsing_factor,
                ),
            ),
            Err(error) => Err(error),
        }
    }

    /// As `get_coset_idx_for_natural_index_extended`, with the arguments
    /// checked first.
    pub fn try_get_coset_idx_for_natural_index_extended(
        natural_index: usize,
        domain_size: usize,
        log_domain_size: u32,
        collapsing_factor: u32,
    ) -> (found: Result<(Range<usize>, usize), CosetIndexError>)
        requires
            collapsing_factor <= log_domain_size,
        ensures
            match found {
                Ok((range, offset)) => {
                    &&& violation(natural_index as nat, domain_size as nat, log_domain_size as nat)
                        is None
                    &&& range.start == coset_start(
                        natural_index as nat,
                        log_domain_size as nat,
                        collapsing_factor as nat,
                    )
                    &&& range.end == range.start + pow2(collapsing_factor as nat)
                    &&& offset == coset_offset(
                        natural_index as nat,
                        log_domain_size as nat,
                        collapsing_factor as nat,
                    )
                    &&& range.start as nat % pow2(collapsing_factor as nat) == 0
                    &&& offset < pow2(collapsing_factor as nat)
                    &&& range.start + offset == permuted_index(
                        natural_index as nat,
                        log_domain_size as nat,
                    )
                    &&& range.end <= domain_size
                },
                Err(error) => violation(
                    natural_index as nat,
                    domain_size as nat,
                    log_domain_size as nat,
                ) == Some(error),
            },
    {
        match Self::check_index(natural_index, domain_size, log_domain_size) {
            Ok(()) => Ok(
                Self::get_coset_idx_for_natural_index_extended(
                    natural_index,
                    domain_size,
                    log_domain_size,
                    collapsing_factor,
                ),
            ),
            Err(error) => Err(error),
        }
    }

    /// As `get_natural_idx_for_coset_index`, with the arguments checked first.
    pub fn try_get_natural_idx_for_coset_index(
        coset_index: usize,
        domain_size: usize,
        log_domain_size: u32,
        collapsing_factor: u32,
    ) -> (found: Result<usize, CosetIndexError>)
        ensures
            match found {
                Ok(natural_index) => {
                    &&& violation(coset_index as nat, domain_size as nat, log_domain_size as nat)
                        is None
                    &&& natural_index == permuted_index(
                        coset_index as nat,
                        log_domain_size as nat,
                    )
                    &&& natural_index < domain_size
                },
                Err(error) => violation(
                    coset_index as nat,
                    domain_size as nat,
                    log_domain_size as nat,
                ) == Some(error),
            },
    {
        match Self::check_index(coset_index, domain_size, log_domain_size) {
            Ok(()) => Ok(
                Self::get_natural_idx_for_coset_index(
                    coset_index,
                    domain_size,
                    log_domain_size,
                    collapsing_factor,
                ),
            ),
            Err(error) => Err(error),
        }
    }

    /// The storage range and offset, in the next folding layer, of the query
    /// that was resolved to `coset_index_start` in this one.
    pub fn get_next_layer_coset_idx_extended(coset_index_start: usize, collapsing_factor: u32) -> (found: (
        Range<usize>,
        usize,
    ))
        requires
            collapsing_factor < usize::BITS,
            collapsing_factor > 0 || coset_index_start < usize::MAX,
        ensures
            found.0.start == next_layer_start(coset_index_start as nat, collapsing_factor as nat),
            found.0.end == found.0.start + pow2(collapsing_factor as nat),
            found.1 == next_layer_offset(coset_index_start as nat, collapsing_factor as nat),
            found.0.start as nat % pow2(collapsing_factor as nat) == 0,
            found.1 < pow2(collapsing_factor as nat),
            found.0.start + found.1 == next_layer_index(
                coset_index_start as nat,
                collapsing_factor as nat,
            ),
    {
        proof {
            lemma_one_shifted(collapsing_factor);
            lemma_next_layer_decomposition(coset_index_start as nat, collapsing_factor as nat);
        }
        let coset_size: usize = 1usize << collapsing_factor;
        let temp: usize = coset_index_start >> collapsing_factor;
        let endpoint_mask: usize = (1usize << collapsing_factor) - 1;

        let new_coset_start: usize = temp & !endpoint_mask;
        let offset: usize = temp & endpoint_mask;
        proof {
            lemma_usize_shr_is_div(coset_index_start, collapsing_factor as usize);
            lemma_usize_low_bits_mask_is_mod(temp, collapsing_factor as nat);
            assert(temp & !endpoint_mask == temp - (temp & endpoint_mask)) by (bit_vector);
            if collapsing_factor > 0 {
                let high: usize = 1usize << ((usize::BITS - 1) as u32);
                lemma_one_shifted((usize::BITS - 1) as u32);
                assert((temp & !endpoint_mask) + endpoint_mask + 1 <= high) by (bit_vector)
                    requires
                        0 < collapsing_factor < usize::BITS,
                        temp == coset_index_start >> collapsing_factor,
                        endpoint_mask == (1usize << collapsing_factor) - 1,
                        high == 1usize << ((usize::BITS - 1) as u32),
                ;
            } else {
                lemma2_to64();
            }
        }
        let coset_range = new_coset_start..(new_coset_start + coset_size);

        (coset_range, offset)
    }
}

} // verus!
