//! Reversal of the low bits of a machine word, and the arithmetic facts about
//! it that the index translation rests on.

use vstd::prelude::*;
use vstd::arithmetic::div_mod::*;
use vstd::arithmetic::power2::*;

verus! {

/// The number whose `width` binary digits are the lowest `width` digits of `x`
/// written in the opposite order: digit `i` of `x` becomes digit
/// `width - 1 - i` of the result. Digits of `x` at or above `width` play no part.
pub open spec fn bit_reverse(x: nat, width: nat) -> nat
    decreases width,
{
    if width == 0 {
        0
    } else {
        (x % 2) * pow2((width - 1) as nat) + bit_reverse(x / 2, (width - 1) as nat)
    }
}

/// A machine word holds exactly the numbers below `2^usize::BITS`.
pub proof fn lemma_usize_range()
    ensures
        usize::MAX + 1 == pow2(usize::BITS as nat),
{
    lemma2_to64();
}

/// A reversal over `width` bits is a number of `width` bits.
pub proof fn lemma_bit_reverse_bound(x: nat, width: nat)
    ensures
        bit_reverse(x, width) < pow2(width),
    decreases width,
{
    if width == 0 {
        lemma2_to64();
    } else {
        let rest = (width - 1) as nat;
        lemma_bit_reverse_bound(x / 2, rest);
        lemma_pow2_unfold(width);
        assert((x % 2) * pow2(rest) <= pow2(rest)) by (nonlinear_arith)
            requires
                x % 2 <= 1,
        ;
    }
}

/// Nothing but zeros comes out of reversing zero.
pub proof fn lemma_bit_reverse_zero(width: nat)
    ensures
        bit_reverse(0, width) == 0,
    decreases width,
{
    if width > 0 {
        lemma_bit_reverse_zero((width - 1) as nat);
        assert(0 * pow2((width - 1) as nat) == 0);
    }
}

/// Halving a number and cutting it to `low` digits can be done in either order:
/// the three facts about `x mod 2^low` that the induction below unfolds.
proof fn lemma_low_digits_halved(x: nat, low: nat)
    requires
        low > 0,
    ensures
        (x % pow2(low)) % 2 == x % 2,
        (x % pow2(low)) / 2 == (x / 2) % pow2((low - 1) as nat),
        (x / 2) / pow2((low - 1) as nat) == x / pow2(low),
{
    let half = pow2((low - 1) as nat) as int;
    lemma_pow2_pos((low - 1) as nat);
    lemma_pow2_unfold(low);
    assert(pow2(low) == 2 * half);
    lemma_mod_breakdown(x as int, 2, half);
    lemma_div_denominator(x as int, 2, half);
}

/// Reversing `low + high` digits reverses the lowest `low` digits into the upper
/// part of the result and the next `high` digits into its lower part.
pub proof fn lemma_bit_reverse_split(x: nat, low: nat, high: nat)
    ensures
        bit_reverse(x, low + high) == bit_reverse(x % pow2(low), low) * pow2(high) + bit_reverse(
            x / pow2(low),
            high,
        ),
    decreases low,
{
    if low == 0 {
        lemma2_to64();
        assert(x / 1 == x);
        assert(bit_reverse(x % pow2(low), low) == 0);
        assert(0 * pow2(high) == 0);
    } else {
        let less = (low - 1) as nat;
        let cut = x % pow2(low);
        lemma_pow2_pos(low);
        lemma_pow2_pos(less);
        lemma_mod_pos_bound(x as int, pow2(low) as int);
        lemma_mod_pos_bound((x / 2) as int, pow2(less) as int);
        lemma_div_pos_is_pos((x / 2) as int, pow2(less) as int);
        let a = x % 2;
        let b = bit_reverse((x / 2) % pow2(less), less);
        let c = bit_reverse((x / 2) / pow2(less), high);
        let p = pow2(less);
        let q = pow2(high);
        assert(bit_reverse(x, low + high) == a * pow2(less + high) + bit_reverse(
            x / 2,
            less + high,
        ));
        assert(bit_reverse(cut, low) == (cut % 2) * p + bit_reverse(cut / 2, less));
        lemma_bit_reverse_split(x / 2, less, high);
        assert(bit_reverse(x / 2, less + high) == b * q + c);
        lemma_low_digits_halved(x, low);
        assert(bit_reverse(cut, low) == a * p + b);
        lemma_pow2_adds(less, high);
        assert(a * (p * q) + b * q == (a * p + b) * q) by (nonlinear_arith);
    }
}

/// Digits at or above `width` do not reach the result.
pub proof fn lemma_bit_reverse_ignores_high_digits(x: nat, width: nat)
    ensures
        bit_reverse(x, width) == bit_reverse(x % pow2(width), width),
{
    lemma_bit_reverse_split(x, width, 0);
    lemma2_to64();
    let low = bit_reverse(x % pow2(width), width);
    assert(low * pow2(0) == low) by (nonlinear_arith)
        requires
            pow2(0) == 1,
    ;
    lemma_pow2_pos(width);
    lemma_div_pos_is_pos(x as int, pow2(width) as int);
    assert(bit_reverse(x / pow2(width), 0) == 0);
}

/// Reversing twice over the same width gives back the low `width` digits.
pub proof fn lemma_bit_reverse_twice(x: nat, width: nat)
    ensures
        bit_reverse(bit_reverse(x, width), width) == x % pow2(width),
    decreases width,
{
    lemma2_to64();
    if width == 0 {
        assert(x % 1 == 0);
    } else {
        let less = (width - 1) as nat;
        let once = bit_reverse(x, width);
        let head = x % 2;
        let tail = bit_reverse(x / 2, less);
        assert(once == head * pow2(less) + tail);
        lemma_bit_reverse_bound(x / 2, less);
        lemma_pow2_pos(less);
        // `once` has `tail` as its low digits and `head` above them
        lemma_fundamental_div_mod_converse(
            once as int,
            pow2(less) as int,
            head as int,
            tail as int,
        );
        lemma_bit_reverse_split(once, less, 1);
        lemma_bit_reverse_twice(x / 2, less);
        assert(bit_reverse(head, 1) == head) by {
            assert(bit_reverse(head / 2, 0) == 0);
            assert(head % 2 == head);
            assert((head % 2) * pow2(0) == head);
        }
        assert(less + 1 == width);
        lemma_pow2_unfold(width);
        lemma_mod_breakdown(x as int, 2, pow2(less) as int);
    }
}

/// On numbers of `width` digits, reversal over `width` digits is its own inverse.
pub proof fn lemma_bit_reverse_involution(x: nat, width: nat)
    requires
        x < pow2(width),
    ensures
        bit_reverse(bit_reverse(x, width), width) == x,
{
    lemma_bit_reverse_twice(x, width);
    lemma_small_mod(x, pow2(width));
}

/// Reverses the order of the lowest `width` bits of `value`.
pub fn bitreverse(value: usize, width: usize) -> (reversed: usize)
    requires
        width <= usize::BITS,
    ensures
        reversed == bit_reverse(value as nat, width as nat),
{
    let mut reversed: usize = 0;
    let mut rest: usize = value;
    let mut done: usize = 0;
    proof {
        lemma2_to64();
    }
    while done < width
        invariant
            done <= width <= usize::BITS,
            reversed < pow2(done as nat),
            bit_reverse(value as nat, width as nat) == reversed * pow2((width - done) as nat)
                + bit_reverse(rest as nat, (width - done) as nat),
        decreases width - done,
    {
        proof {
            let left = (width - done - 1) as nat;
            let top = usize::MAX;
            // the next bit fits: `reversed` has fewer digits than the word
            lemma_usize_range();
            lemma_pow2_unfold(usize::BITS as nat);
            if done + 1 < usize::BITS {
                lemma_pow2_strictly_increases(done as nat, (usize::BITS - 1) as nat);
            }
            assert(((reversed << 1) | (rest & 1)) == 2 * reversed + rest % 2) by (bit_vector)
                requires
                    2 * reversed + 1 <= top,
            ;
            assert(rest >> 1 == rest / 2) by (bit_vector);
            lemma_pow2_unfold((done + 1) as nat);
            lemma_pow2_unfold((width - done) as nat);
            assert(reversed * (2 * pow2(left)) + (rest % 2) * pow2(left) == (2 * reversed + rest
                % 2) * pow2(left)) by (nonlinear_arith);
        }
        reversed = (reversed << 1) | (rest & 1);
        rest = rest >> 1;
        done += 1;
    }
    proof {
        lemma2_to64();
        assert(reversed * pow2(0) == reversed);
    }
    reversed
}

} // verus!
