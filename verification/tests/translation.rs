use coset_combiner::bit_reversal::bitreverse;
use coset_combiner::combiner::CosetCombiner;
use coset_combiner::index_model::CosetIndexError;

fn reversed_by_hand(value: usize, width: u32) -> usize {
    let mut reversed = 0usize;
    for bit in 0..width {
        if (value >> bit) & 1 == 1 {
            reversed |= 1usize << (width - 1 - bit);
        }
    }
    reversed
}

#[test]
fn bitreverse_exact_values() {
    assert_eq!(bitreverse(13, 4), 11);
    assert_eq!(bitreverse(0b110, 3), 0b011);
    assert_eq!(bitreverse(837, 16), 41664);
    assert_eq!(bitreverse(12345, 16), 39948);
    assert_eq!(bitreverse(23, 16), 59392);
    assert_eq!(bitreverse(1, 1), 1);
}

#[test]
fn bitreverse_of_width_zero_is_zero() {
    assert_eq!(bitreverse(0, 0), 0);
    assert_eq!(bitreverse(12345, 0), 0);
}

#[test]
fn bitreverse_ignores_bits_above_the_width() {
    assert_eq!(bitreverse(0xff05, 8), 160);
    assert_eq!(bitreverse(0xff05, 8), bitreverse(0x05, 8));
}

#[test]
fn bitreverse_over_the_whole_word() {
    let width = usize::BITS as usize;
    assert_eq!(bitreverse(1, width), 1usize << (usize::BITS - 1));
    assert_eq!(bitreverse(usize::MAX, width), usize::MAX);
    assert_eq!(bitreverse(0xdead_beef, width), 0xdead_beef_usize.reverse_bits());
}

#[test]
fn bitreverse_agrees_with_bit_by_bit_reversal() {
    for width in 0..=10u32 {
        for value in 0..(1usize << width) {
            assert_eq!(bitreverse(value, width as usize), reversed_by_hand(value, width));
        }
    }
}

#[test]
fn bitreverse_twice_is_the_identity() {
    for width in 0..=10u32 {
        for value in 0..(1usize << width) {
            assert_eq!(bitreverse(bitreverse(value, width as usize), width as usize), value);
        }
    }
}

#[test]
fn forward_exact_values() {
    let range = CosetCombiner::get_coset_idx_for_natural_index(13, 16, 4, 2);
    assert_eq!(range, 8..12);
    let (range, offset) = CosetCombiner::get_coset_idx_for_natural_index_extended(13, 16, 4, 2);
    assert_eq!(range, 8..12);
    assert_eq!(offset, 3);

    let (range, offset) =
        CosetCombiner::get_coset_idx_for_natural_index_extended(837, 65536, 16, 4);
    assert_eq!(range, 41664..41680);
    assert_eq!(offset, 0);

    let (range, offset) =
        CosetCombiner::get_coset_idx_for_natural_index_extended(59392, 65536, 16, 4);
    assert_eq!(range, 16..32);
    assert_eq!(offset, 7);
}

#[test]
fn inverse_exact_values() {
    assert_eq!(CosetCombiner::get_natural_idx_for_coset_index(11, 16, 4, 2), 13);
    assert_eq!(CosetCombiner::get_natural_idx_for_coset_index(23, 65536, 16, 4), 59392);
    assert_eq!(CosetCombiner::get_natural_idx_for_coset_index(41664, 65536, 16, 4), 837);
}

#[test]
fn inverse_does_not_depend_on_the_collapsing_factor() {
    for collapsing_factor in 0..=16u32 {
        assert_eq!(
            CosetCombiner::get_natural_idx_for_coset_index(23, 65536, 16, collapsing_factor),
            59392
        );
    }
}

#[test]
fn forward_then_inverse_is_the_identity() {
    for log_domain_size in 0..=8u32 {
        let domain_size = 1usize << log_domain_size;
        for collapsing_factor in 0..=log_domain_size {
            for natural_index in 0..domain_size {
                let (range, offset) = CosetCombiner::get_coset_idx_for_natural_index_extended(
                    natural_index,
                    domain_size,
                    log_domain_size,
                    collapsing_factor,
                );
                assert_eq!(
                    CosetCombiner::get_natural_idx_for_coset_index(
                        range.start + offset,
                        domain_size,
                        log_domain_size,
                        collapsing_factor
                    ),
                    natural_index
                );
            }
        }
    }
}

#[test]
fn inverse_then_forward_is_the_identity() {
    for log_domain_size in 0..=8u32 {
        let domain_size = 1usize << log_domain_size;
        for collapsing_factor in 0..=log_domain_size {
            for coset_index in 0..domain_size {
                let natural_index = CosetCombiner::get_natural_idx_for_coset_index(
                    coset_index,
                    domain_size,
                    log_domain_size,
                    collapsing_factor,
                );
                let (range, offset) = CosetCombiner::get_coset_idx_for_natural_index_extended(
                    natural_index,
                    domain_size,
                    log_domain_size,
                    collapsing_factor,
                );
                assert_eq!(range.start + offset, coset_index);
            }
        }
    }
}

#[test]
fn cosets_are_aligned_and_offsets_bounded() {
    for log_domain_size in 0..=8u32 {
        let domain_size = 1usize << log_domain_size;
        for collapsing_factor in 0..=log_domain_size {
            let coset_size = 1usize << collapsing_factor;
            for natural_index in 0..domain_size {
                let plain = CosetCombiner::get_coset_idx_for_natural_index(
                    natural_index,
                    domain_size,
                    log_domain_size,
                    collapsing_factor,
                );
                let (range, offset) = CosetCombiner::get_coset_idx_for_natural_index_extended(
                    natural_index,
                    domain_size,
                    log_domain_size,
                    collapsing_factor,
                );
                assert_eq!(plain, range);
                assert_eq!(range.end - range.start, coset_size);
                assert_eq!(range.start % coset_size, 0);
                assert!(offset < coset_size);
                assert!(range.end <= domain_size);
            }
        }
    }
}

#[test]
fn members_of_one_coset_share_their_low_natural_digits() {
    // natural indices that differ only in their top two digits are stored side by side
    let mut offsets = Vec::new();
    for top in 0..4usize {
        let (range, offset) =
            CosetCombiner::get_coset_idx_for_natural_index_extended(top * 4 + 1, 16, 4, 2);
        assert_eq!(range, 8..12);
        offsets.push(offset);
    }
    assert_eq!(offsets, vec![0, 2, 1, 3]);
}

#[test]
fn collapsing_factor_zero_is_plain_bit_reversal() {
    for natural_index in 0..64usize {
        let (range, offset) =
            CosetCombiner::get_coset_idx_for_natural_index_extended(natural_index, 64, 6, 0);
        assert_eq!(offset, 0);
        assert_eq!(range.start, bitreverse(natural_index, 6));
        assert_eq!(range.end, range.start + 1);
        assert_eq!(
            CosetCombiner::get_coset_idx_for_natural_index(natural_index, 64, 6, 0),
            range
        );
    }
}

#[test]
fn collapsing_factor_equal_to_the_logarithm_gives_one_coset() {
    for natural_index in 0..16usize {
        let (range, offset) =
            CosetCombiner::get_coset_idx_for_natural_index_extended(natural_index, 16, 4, 4);
        assert_eq!(range, 0..16);
        assert_eq!(offset, bitreverse(natural_index, 4));
    }
}

#[test]
fn domain_of_one_point() {
    let (range, offset) = CosetCombiner::get_coset_idx_for_natural_index_extended(0, 1, 0, 0);
    assert_eq!(range, 0..1);
    assert_eq!(offset, 0);
    assert_eq!(CosetCombiner::get_natural_idx_for_coset_index(0, 1, 0, 0), 0);
}

#[test]
fn largest_domain_of_the_machine() {
    let log_domain_size = usize::BITS - 1;
    let domain_size = 1usize << log_domain_size;
    let (range, offset) = CosetCombiner::get_coset_idx_for_natural_index_extended(
        domain_size - 1,
        domain_size,
        log_domain_size,
        3,
    );
    assert_eq!(range, (domain_size - 8)..domain_size);
    assert_eq!(offset, 7);
    assert_eq!(
        CosetCombiner::get_natural_idx_for_coset_index(
            domain_size - 1,
            domain_size,
            log_domain_size,
            3
        ),
        domain_size - 1
    );
}

#[test]
fn next_layer_exact_values() {
    let (range, offset) = CosetCombiner::get_next_layer_coset_idx_extended(837, 4);
    assert_eq!(range, 48..64);
    assert_eq!(offset, 4);

    let (range, offset) = CosetCombiner::get_next_layer_coset_idx_extended(41664, 4);
    assert_eq!(range, 2592..2608);
    assert_eq!(offset, 12);

    let (range, offset) = CosetCombiner::get_next_layer_coset_idx_extended(5, 3);
    assert_eq!(range, 0..8);
    assert_eq!(offset, 0);
}

#[test]
fn next_layer_with_collapsing_factor_zero() {
    let (range, offset) = CosetCombiner::get_next_layer_coset_idx_extended(837, 0);
    assert_eq!(range, 837..838);
    assert_eq!(offset, 0);
}

#[test]
fn next_layer_at_the_top_of_the_word() {
    let (range, offset) = CosetCombiner::get_next_layer_coset_idx_extended(usize::MAX, 1);
    assert_eq!(range, (usize::MAX >> 1) - 1..(usize::MAX >> 1) + 1);
    assert_eq!(offset, 1);

    let (range, offset) =
        CosetCombiner::get_next_layer_coset_idx_extended(usize::MAX, usize::BITS - 1);
    assert_eq!(range, 0..(1usize << (usize::BITS - 1)));
    assert_eq!(offset, 1);
}

#[test]
fn next_layer_is_aligned_and_bounded() {
    for collapsing_factor in 0..=5u32 {
        let coset_size = 1usize << collapsing_factor;
        for index in 0..2048usize {
            let (range, offset) =
                CosetCombiner::get_next_layer_coset_idx_extended(index, collapsing_factor);
            assert_eq!(range.end - range.start, coset_size);
            assert_eq!(range.start % coset_size, 0);
            assert!(offset < coset_size);
            assert_eq!(range.start + offset, index >> collapsing_factor);
        }
    }
}

#[test]
fn next_layer_chain_equals_one_shift() {
    let factors = [3u32, 1, 4, 2, 0, 5];
    for start in [0usize, 1, 837, 41664, 65535, 0xdead_beef, usize::MAX - 1] {
        let mut index = start;
        let mut shifted_by = 0u32;
        for factor in factors {
            let (range, offset) = CosetCombiner::get_next_layer_coset_idx_extended(index, factor);
            shifted_by += factor;
            let direct = start >> shifted_by;
            let mask = (1usize << factor) - 1;
            assert_eq!(range.start, direct & !mask);
            assert_eq!(range.end, (direct & !mask) + (1usize << factor));
            assert_eq!(offset, direct & mask);
            index = range.start + offset;
            assert_eq!(index, direct);
        }
    }
}

#[test]
fn check_index_accepts_a_valid_index() {
    assert_eq!(CosetCombiner::check_index(837, 65536, 16), Ok(()));
    assert_eq!(CosetCombiner::check_index(0, 1, 0), Ok(()));
    assert_eq!(CosetCombiner::check_index(65535, 65536, 16), Ok(()));
}

#[test]
fn index_equal_to_the_domain_size_is_out_of_range() {
    assert_eq!(
        CosetCombiner::check_index(65536, 65536, 16),
        Err(CosetIndexError::IndexOutOfRange)
    );
    assert_eq!(
        CosetCombiner::try_get_coset_idx_for_natural_index(65536, 65536, 16, 4),
        Err(CosetIndexError::IndexOutOfRange)
    );
    assert_eq!(
        CosetCombiner::try_get_coset_idx_for_natural_index_extended(65536, 65536, 16, 4),
        Err(CosetIndexError::IndexOutOfRange)
    );
    assert_eq!(
        CosetCombiner::try_get_natural_idx_for_coset_index(65536, 65536, 16, 4),
        Err(CosetIndexError::IndexOutOfRange)
    );
}

#[test]
fn domain_size_must_match_its_logarithm() {
    assert_eq!(
        CosetCombiner::check_index(3, 65536, 15),
        Err(CosetIndexError::DomainSizeMismatch)
    );
    assert_eq!(
        CosetCombiner::check_index(3, 1000, 10),
        Err(CosetIndexError::DomainSizeMismatch)
    );
    assert_eq!(
        CosetCombiner::check_index(3, 65536, usize::BITS),
        Err(CosetIndexError::DomainSizeMismatch)
    );
    assert_eq!(
        CosetCombiner::check_index(3, 65536, u32::MAX),
        Err(CosetIndexError::DomainSizeMismatch)
    );
    assert_eq!(
        CosetCombiner::try_get_coset_idx_for_natural_index(3, 65536, 17, 4),
        Err(CosetIndexError::DomainSizeMismatch)
    );
    assert_eq!(
        CosetCombiner::try_get_coset_idx_for_natural_index_extended(3, 65536, 17, 4),
        Err(CosetIndexError::DomainSizeMismatch)
    );
    assert_eq!(
        CosetCombiner::try_get_natural_idx_for_coset_index(3, 65536, 17, 4),
        Err(CosetIndexError::DomainSizeMismatch)
    );
}

#[test]
fn the_index_is_checked_before_the_domain_size() {
    assert_eq!(
        CosetCombiner::check_index(70000, 65536, 15),
        Err(CosetIndexError::IndexOutOfRange)
    );
    assert_eq!(CosetCombiner::check_index(0, 0, 0), Err(CosetIndexError::IndexOutOfRange));
}

#[test]
fn checked_operations_agree_with_the_unchecked_ones() {
    assert_eq!(
        CosetCombiner::try_get_coset_idx_for_natural_index(837, 65536, 16, 4),
        Ok(41664..41680)
    );
    assert_eq!(
        CosetCombiner::try_get_coset_idx_for_natural_index_extended(59392, 65536, 16, 4),
        Ok((16..32, 7))
    );
    assert_eq!(CosetCombiner::try_get_natural_idx_for_coset_index(23, 65536, 16, 4), Ok(59392));
}
