//! Conversion of a structured reference string over the BN254 G1 group from
//! the monomial basis into the Lagrange basis of a power-of-two evaluation
//! domain, with machine-checked contracts.

use vstd::prelude::*;
use vstd::arithmetic::power2::{pow2, lemma_pow2_unfold, lemma_pow2_adds, lemma_pow2_pos, lemma2_to64};
use vstd::arithmetic::div_mod::lemma_fundamental_div_mod_converse;
use vstd::slice::slice_to_vec;
use vstd::string::StringExecFns;
use crate::bits::{
    bit_reverse, exact_log2, is_power_of_two, reverse_bits, lemma_pow2_injective,
    lemma_reverse_bits_bound, lemma_reverse_bits_involution,
};
use crate::curve::{
    Point, PointValue, all_wf, values, scaled, point_scaled, lemma_values_determine_points,
};
use crate::domain::{domain_generator_inverse, evaluation_domain, max_domain_size};
use crate::error::InterpolationError;
use crate::field::{mod_inverse, mod_pow, scalar_modulus, scalar_power, scalar_inverse, lemma_mod_inverse_is};
use crate::round::{fft_round, round_outcome};

pub mod error;
pub mod bits;
pub mod field;
pub mod curve;
pub mod domain;
pub mod round;

verus! {

/// The points in bit-reversed order: position `i` holds the point whose index
/// is `i` with its `log_n` bits reversed.
pub open spec fn bit_reversed(points: Seq<PointValue>, log_n: nat) -> Seq<PointValue> {
    Seq::new(points.len(), |i: int| points[reverse_bits(i as nat, log_n) as int])
}

/// Putting `2^log_n` points in bit-reversed order twice gives them back in
/// their first order.
pub proof fn lemma_bit_reversed_twice(points: Seq<PointValue>, log_n: nat)
    requires
        points.len() == pow2(log_n),
    ensures
        bit_reversed(bit_reversed(points, log_n), log_n) == points,
{
    let once = bit_reversed(points, log_n);
    assert forall|i: int| 0 <= i < points.len() implies bit_reversed(once, log_n)[i]
        == points[i] by {
        lemma_reverse_bits_bound(i as nat, log_n);
        lemma_reverse_bits_involution(i as nat, log_n);
    }
    assert(bit_reversed(once, log_n) =~= points);
}

/// The scalar that round number `round` twists by, in a transform of
/// `2^log_n` points: the inverse of the domain's generator raised to
/// `2^(log_n - round)`.
pub open spec fn round_root(log_n: nat, round: nat) -> nat {
    mod_pow(
        domain_generator_inverse(pow2(log_n)),
        pow2((log_n - round) as nat),
        scalar_modulus(),
    )
}

/// The points after the first `rounds` butterfly rounds, or nothing where one
/// of these rounds fails.
pub open spec fn after_rounds(points: Seq<PointValue>, log_n: nat, rounds: nat) -> Option<
    Seq<PointValue>,
>
    decreases rounds,
{
    if rounds == 0 {
        Some(bit_reversed(points, log_n))
    } else {
        match after_rounds(points, log_n, (rounds - 1) as nat) {
            None => None,
            Some(previous) => round_outcome(
                previous,
                round_root(log_n, rounds),
                rounds,
                rounds == 1,
            ),
        }
    }
}

/// Every point multiplied by `factor`.
pub open spec fn rescaled(points: Seq<PointValue>, factor: nat) -> Seq<PointValue> {
    Seq::new(points.len(), |i: int| scaled(points[i], factor))
}

/// The Lagrange basis that belongs to `2^log_n` points in the monomial
/// basis: the bit-reversed points after `log_n` rounds, each multiplied by
/// the inverse of their number. A single point is its own basis. There is no
/// basis where a round fails.
pub open spec fn lagrange_basis(points: Seq<PointValue>, log_n: nat) -> Option<Seq<PointValue>> {
    if log_n == 0 {
        Some(points)
    } else {
        match after_rounds(points, log_n, log_n) {
            None => None,
            Some(transformed) => Some(
                rescaled(transformed, mod_inverse(pow2(log_n), scalar_modulus())),
            ),
        }
    }
}

/// Once a round has failed, all later rounds have failed too.
pub proof fn lemma_failure_persists(points: Seq<PointValue>, log_n: nat, failed: nat, later: nat)
    requires
        failed <= later,
        after_rounds(points, log_n, failed) is None,
    ensures
        after_rounds(points, log_n, later) is None,
    decreases later,
{
    if failed < later {
        lemma_failure_persists(points, log_n, failed, (later - 1) as nat);
    }
}

/// The transform is a function of its input: whatever two calls on the same
/// points return as the basis of `2^log_n` points, point for point it is the
/// same.
pub proof fn lemma_basis_is_determined(
    points: Seq<Point>,
    log_n: nat,
    first: Seq<Point>,
    second: Seq<Point>,
)
    requires
        lagrange_basis(values(points), log_n) == Some(values(first)),
        lagrange_basis(values(points), log_n) == Some(values(second)),
    ensures
        first == second,
{
    lemma_values_determine_points(first, second);
}

/// Converts a reference string from the monomial basis into the Lagrange
/// basis of the evaluation domain of the same size.
///
/// The length must be a power of two for which the scalar field has a
/// domain, else the size is refused. A single point is returned as it is.
/// Otherwise the points are put in bit-reversed order, taken through one
/// butterfly round per bit of the length, and multiplied by the inverse of
/// their number. A round fails, and with it the call, where the product of
/// its x-coordinate differences is zero.
pub fn srs_to_lagrange(points: &[Point]) -> (result: Result<Vec<Point>, InterpolationError>)
    requires
        all_wf(points@),
    ensures
        result matches Err(InterpolationError::SizeError) <==> !is_power_of_two(
            points.len() as nat,
        ) || points.len() > max_domain_size(),
        !(result matches Err(InterpolationError::InvalidParameters(_))),
        points.len() == 1 ==> (result matches Ok(basis) && basis@ == points@),
        forall|log_n: nat|
            #[trigger] pow2(log_n) == points.len() && points.len() <= max_domain_size()
                ==> match result {
                Ok(basis) => all_wf(basis@) && lagrange_basis(values(points@), log_n) == Some(
                    values(basis@),
                ),
                Err(e) => (e matches InterpolationError::FieldError(text) && text@
                    == "Could not invert batch inversion accumulator"@) && lagrange_basis(
                    values(points@),
                    log_n,
                ) is None,
            },
{
    let n = points.len();
    proof {
        lemma2_to64();
    }
    let log_n = match exact_log2(n) {
        None => {
            return Err(InterpolationError::SizeError);
        },
        Some(k) => k,
    };
    proof {
        assert forall|k: nat| #[trigger] pow2(k) == n implies k == log_n by {
            lemma_pow2_injective(k, log_n as nat);
        }
        lemma2_to64();
    }
    if n == 1 {
        let same = slice_to_vec(points);
        assert(values(same@) =~= values(points@));
        return Ok(same);
    }
    let ghost given = values(points@);
    proof {
        assert forall|k: nat| k < n implies #[trigger] reverse_bits(k, log_n as nat) < n by {
            lemma_reverse_bits_bound(k, log_n as nat);
        }
    }
    let mut ordered: Vec<Point> = Vec::new();
    let mut i: usize = 0;
    while i < n
        invariant
            i <= n,
            n == points.len(),
            n == pow2(log_n as nat),
            log_n < 64,
            all_wf(points@),
            ordered.len() == i,
            all_wf(ordered@),
            forall|k: nat| k < n ==> #[trigger] reverse_bits(k, log_n as nat) < n,
            forall|k: int|
                0 <= k < i ==> (#[trigger] ordered[k]) == points[reverse_bits(
                    k as nat,
                    log_n as nat,
                ) as int],
        decreases n - i,
    {
        let source = match bit_reverse(i, log_n) {
            Ok(s) => s,
            Err(e) => {
                return Err(e);
            },
        };
        ordered.push(points[source]);
        i = i + 1;
    }
    proof {
        assert(values(ordered@) =~= bit_reversed(given, log_n as nat));
        lemma_pow2_unfold(log_n as nat);
    }
    let domain = match evaluation_domain(n) {
        None => {
            return Err(InterpolationError::SizeError);
        },
        Some(d) => d,
    };
    let mut round: usize = 1;
    let mut step: usize = n / 2;
    while round <= log_n
        invariant
            1 <= round <= log_n + 1,
            log_n < 64,
            n == pow2(log_n as nat),
            n == points.len(),
            2 <= n <= max_domain_size(),
            given == values(points@),
            forall|k: nat| #[trigger] pow2(k) == n ==> k == log_n,
            ordered.len() == n,
            all_wf(ordered@),
            domain.generator_inverse.wf(),
            domain.generator_inverse@ == domain_generator_inverse(n as nat),
            after_rounds(given, log_n as nat, (round - 1) as nat) == Some(values(ordered@)),
            round <= log_n ==> step == pow2((log_n - round) as nat),
        decreases log_n + 1 - round,
    {
        proof {
            lemma_pow2_adds((log_n - round) as nat, round as nat);
            lemma_pow2_pos((log_n - round) as nat);
            lemma_pow2_pos(round as nat);
            let parts = pow2((log_n - round) as nat) as int;
            let size = pow2(round as nat) as int;
            assert(size <= parts * size) by (nonlinear_arith)
                requires
                    parts >= 1,
                    size >= 1,
            ;
            lemma_fundamental_div_mod_converse(n as int, size, parts, 0);
            if round < log_n {
                lemma_pow2_unfold((log_n - round) as nat);
            }
        }
        let root = scalar_power(&domain.generator_inverse, step as u64);
        let outcome = if round == 1 {
            fft_round::<true>(ordered.as_mut_slice(), root, round)
        } else {
            fft_round::<false>(ordered.as_mut_slice(), root, round)
        };
        match outcome {
            Err(e) => {
                proof {
                    lemma_failure_persists(given, log_n as nat, round as nat, log_n as nat);
                }
                return Err(e);
            },
            Ok(()) => {},
        }
        step = step / 2;
        round = round + 1;
    }
    let factor = match scalar_inverse(&domain.size) {
        None => {
            return Err(
                InterpolationError::FieldError(String::from_str("Could not invert domain size")),
            );
        },
        Some(f) => f,
    };
    proof {
        lemma_mod_inverse_is(n as nat, factor@, scalar_modulus());
    }
    let mut basis: Vec<Point> = Vec::new();
    let mut i: usize = 0;
    while i < n
        invariant
            i <= n,
            ordered.len() == n,
            all_wf(ordered@),
            factor.wf(),
            basis.len() == i,
            all_wf(basis@),
            forall|k: int| 0 <= k < i ==> (#[trigger] basis[k])@ == scaled(ordered[k]@, factor@),
        decreases n - i,
    {
        let moved = point_scaled(&ordered[i], &factor);
        basis.push(moved);
        i = i + 1;
    }
    assert(values(basis@) =~= rescaled(values(ordered@), factor@));
    Ok(basis)
}

} // verus!
