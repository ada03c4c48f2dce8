//! Reversal of the low bits of an index.

use vstd::prelude::*;
use vstd::arithmetic::power2::{
    lemma2_to64_rest, pow2, lemma_pow2_unfold, lemma_pow2_pos, lemma2_to64, lemma_pow2_strictly_increases,
};
use vstd::string::StringExecFns;
use crate::error::InterpolationError;

verus! {

/// The number whose `width` low bits are those of `index` in opposite order:
/// bit `k` of `index` becomes bit `width - 1 - k`. Higher bits of `index` are
/// ignored.
pub open spec fn reverse_bits(index: nat, width: nat) -> nat
    decreases width,
{
    if width == 0 {
        0
    } else {
        (index % 2) * pow2((width - 1) as nat) + reverse_bits(index / 2, (width - 1) as nat)
    }
}

/// A reversal over `width` bits is itself a `width`-bit number.
pub proof fn lemma_reverse_bits_bound(index: nat, width: nat)
    ensures
        reverse_bits(index, width) < pow2(width),
    decreases width,
{
    if width == 0 {
        lemma2_to64();
    } else {
        let below = (width - 1) as nat;
        lemma_reverse_bits_bound(index / 2, below);
        lemma_pow2_unfold(width);
        let bit = index % 2;
        assert(bit * pow2(below) <= pow2(below)) by (nonlinear_arith)
            requires
                bit <= 1,
        ;
    }
}

/// Reversing a number whose top bit is `top` and whose lower `width` bits are
/// `low` gives the reversal of `low`, shifted up by one, with `top` as the
/// lowest bit.
pub proof fn lemma_reverse_bits_top(low: nat, top: nat, width: nat)
    requires
        low < pow2(width),
        top < 2,
    ensures
        reverse_bits(low + pow2(width) * top, width + 1) == 2 * reverse_bits(low, width) + top,
    decreases width,
{
    let whole = low + pow2(width) * top;
    if width == 0 {
        lemma2_to64();
        assert(whole == top);
        assert(reverse_bits(whole / 2, 0) == 0);
        assert(reverse_bits(low, 0) == 0);
    } else {
        let below = (width - 1) as nat;
        lemma_pow2_unfold(width);
        let part = pow2(below) * top;
        assert(pow2(width) * top == 2 * part) by (nonlinear_arith)
            requires
                pow2(width) == 2 * pow2(below),
                part == pow2(below) * top,
        ;
        assert(whole % 2 == low % 2);
        assert(whole / 2 == low / 2 + part);
        lemma_reverse_bits_top(low / 2, top, below);
        let bit = low % 2;
        assert(bit * pow2(width) == 2 * (bit * pow2(below))) by (nonlinear_arith)
            requires
                pow2(width) == 2 * pow2(below),
        ;
    }
}

/// Bit reversal is its own inverse on every index that fits in `width` bits.
pub proof fn lemma_reverse_bits_involution(index: nat, width: nat)
    requires
        index < pow2(width),
    ensures
        reverse_bits(reverse_bits(index, width), width) == index,
    decreases width,
{
    if width == 0 {
        lemma2_to64();
    } else {
        let below = (width - 1) as nat;
        lemma_pow2_unfold(width);
        let rest = reverse_bits(index / 2, below);
        let bit = index % 2;
        lemma_reverse_bits_bound(index / 2, below);
        lemma_reverse_bits_involution(index / 2, below);
        lemma_reverse_bits_top(rest, bit, below);
        assert(bit * pow2(below) == pow2(below) * bit) by (nonlinear_arith);
        assert(reverse_bits(index, width) == rest + pow2(below) * bit);
    }
}

/// Bit reversal over `width` bits maps the indices below `2^width` one to one.
pub proof fn lemma_reverse_bits_injective(a: nat, b: nat, width: nat)
    requires
        a < pow2(width),
        b < pow2(width),
        reverse_bits(a, width) == reverse_bits(b, width),
    ensures
        a == b,
{
    lemma_reverse_bits_involution(a, width);
    lemma_reverse_bits_involution(b, width);
}

/// Reverses the low `log_n` bits of `index`.
///
/// The reversal is computed in 64 bits. It is an error only when the result
/// does not fit the native index type, which cannot happen while `log_n` is
/// within the width of that type.
pub fn bit_reverse(index: usize, log_n: usize) -> (result: Result<usize, InterpolationError>)
    requires
        log_n < 64,
    ensures
        match result {
            Ok(reversed) => reversed == reverse_bits(index as nat, log_n as nat),
            Err(e) => (e matches InterpolationError::InvalidParameters(text) && text@
                == "the reversed index does not fit the native index type"@) && reverse_bits(
                index as nat,
                log_n as nat,
            ) > usize::MAX,
        },
{
    let mut reversed: u64 = 0;
    let mut rest: u64 = index as u64;
    let mut done: usize = 0;
    proof {
        lemma2_to64();
    }
    while done < log_n
        invariant
            done <= log_n < 64,
            reversed < pow2(done as nat),
            reverse_bits(index as nat, log_n as nat) == reversed * pow2((log_n - done) as nat)
                + reverse_bits(rest as nat, (log_n - done) as nat),
        decreases log_n - done,
    {
        proof {
            let left = (log_n - done) as nat;
            let below = (left - 1) as nat;
            lemma_pow2_unfold(left);
            lemma_pow2_unfold((done + 1) as nat);
            lemma_pow2_strictly_increases((done + 1) as nat, 64);
            lemma2_to64();
            lemma2_to64_rest();
            assert(reversed * pow2(left) + (rest % 2) * pow2(below) == (2 * reversed + rest % 2)
                * pow2(below)) by (nonlinear_arith)
                requires
                    pow2(left) == 2 * pow2(below),
            ;
        }
        reversed = 2 * reversed + rest % 2;
        rest = rest / 2;
        done = done + 1;
    }
    proof {
        lemma_pow2_pos(0);
        assert(reverse_bits(rest as nat, 0) == 0);
        assert(reversed * pow2(0) == reversed) by (nonlinear_arith)
            requires
                pow2(0) == 1,
        ;
    }
    if reversed > usize::MAX as u64 {
        Err(InterpolationError::InvalidParameters(String::from_str(
            "the reversed index does not fit the native index type",
        )))
    } else {
        Ok(reversed as usize)
    }
}

/// Two raised to `exponent`, where that fits the native index type.
pub fn power_of_two(exponent: usize) -> (power: usize)
    requires
        pow2(exponent as nat) <= usize::MAX,
    ensures
        power == pow2(exponent as nat),
{
    let mut power: usize = 1;
    let mut done: usize = 0;
    proof {
        lemma2_to64();
    }
    while done < exponent
        invariant
            done <= exponent,
            power == pow2(done as nat),
            pow2(exponent as nat) <= usize::MAX,
        decreases exponent - done,
    {
        proof {
            lemma_pow2_unfold((done + 1) as nat);
            if done + 1 < exponent {
                lemma_pow2_strictly_increases(
                    (done + 1) as nat,
                    exponent as nat,
                );
            }
        }
        power = 2 * power;
        done = done + 1;
    }
    power
}

/// The position of `block * size + offset` within its block of `size`, and
/// the number of that block.
pub proof fn lemma_block_position(block: int, size: int, offset: int)
    requires
        0 <= offset < size,
    ensures
        (block * size + offset) % size == offset,
        (block * size + offset) / size == block,
{
    vstd::arithmetic::div_mod::lemma_fundamental_div_mod_converse(
        block * size + offset,
        size,
        block,
        offset,
    );
}

/// `n` is two raised to some exponent.
pub open spec fn is_power_of_two(n: nat) -> bool {
    exists|k: nat| pow2(k) == n
}

/// Two raised to different exponents gives different numbers.
pub proof fn lemma_pow2_injective(a: nat, b: nat)
    requires
        pow2(a) == pow2(b),
    ensures
        a == b,
{
    if a < b {
        lemma_pow2_strictly_increases(a, b);
    }
    if b < a {
        lemma_pow2_strictly_increases(b, a);
    }
}

/// The exponent `k` with `2^k == n`, or nothing where `n` is no power of two
/// (zero is none).
pub fn exact_log2(n: usize) -> (log: Option<usize>)
    ensures
        match log {
            Some(k) => pow2(k as nat) == n && k < 64,
            None => !is_power_of_two(n as nat),
        },
{
    let mut size: usize = 1;
    let mut log: usize = 0;
    proof {
        lemma2_to64();
    }
    while size < n && size <= usize::MAX / 2
        invariant
            size == pow2(log as nat),
            size >= 1,
            log < 64,
            forall|k: nat| k < log ==> #[trigger] pow2(k) < n,
        decreases usize::MAX - size,
    {
        proof {
            lemma_pow2_unfold((log + 1) as nat);
            lemma2_to64_rest();
            if log + 1 >= 64 {
                if log + 1 > 64 {
                    lemma_pow2_strictly_increases(64, (log + 1) as nat);
                }
                assert(false);
            }
        }
        size = 2 * size;
        log = log + 1;
    }
    if size == n {
        Some(log)
    } else {
        proof {
            assert forall|k: nat| pow2(k) != n by {
                if k > log {
                    lemma_pow2_unfold((log + 1) as nat);
                    if k > log + 1 {
                        lemma_pow2_strictly_increases((log + 1) as nat, k);
                    }
                }
            }
        }
        None
    }
}

} // verus!
