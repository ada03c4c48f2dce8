//! One butterfly round of the transform: every pair of points that lie half
//! a block apart is replaced by its sum and its difference, with a single
//! field inversion for the whole round.

use vstd::prelude::*;
use vstd::arithmetic::power2::{pow2, lemma_pow2_unfold, lemma_pow2_pos};
use vstd::arithmetic::div_mod::{lemma_fundamental_div_mod, lemma_small_mod};
use vstd::string::StringExecFns;
use crate::bits::{power_of_two, lemma_block_position};
use crate::curve::{Point, PointValue, all_wf, values, scaled, distribute_powers, powers_distributed};
use crate::error::InterpolationError;
use crate::field::{
    BaseElement, ScalarElement, base_modulus, scalar_modulus, mod_add, mod_sub, mod_neg, mod_mul,
    mod_pow, mod_product, mod_inverse, is_mod_inverse, base_sum, base_difference, base_product,
    base_negation, base_inverse, lemma_mod_mul_commutes, lemma_mod_mul_associates,
    lemma_mod_inverse_is, lemma_mod_product_push, lemma_zero_factor,
};

verus! {

/// Every element of the sequence is below the order of the base field.
pub open spec fn all_elements_wf(elements: Seq<BaseElement>) -> bool {
    forall|i: int| 0 <= i < elements.len() ==> (#[trigger] elements[i]).wf()
}

/// The numbers that a sequence of base-field elements stands for.
pub open spec fn element_values(elements: Seq<BaseElement>) -> Seq<nat> {
    Seq::new(elements.len(), |i: int| elements[i]@)
}

/// Inverts all of `elements` with one field inversion: the running products
/// are kept, the product of all is inverted, and the single inverses are
/// unwound from it back to front.
///
/// There is a result exactly when the product of all elements is not zero.
pub fn batch_inverse(elements: &Vec<BaseElement>) -> (inverses: Option<Vec<BaseElement>>)
    requires
        all_elements_wf(elements@),
    ensures
        inverses is None <==> mod_product(element_values(elements@), base_modulus()) == 0,
        inverses matches Some(v) ==> v.len() == elements.len() && all_elements_wf(v@) && forall|
            i: int,
        |
            0 <= i < v.len() ==> is_mod_inverse(
                (#[trigger] elements[i])@,
                v[i]@,
                base_modulus(),
            ),
{
    let n = elements.len();
    let ghost m = base_modulus();
    let ghost numbers = element_values(elements@);
    let mut partial: Vec<BaseElement> = Vec::new();
    let mut product = BaseElement::one();
    let mut i: usize = 0;
    proof {
        lemma_small_mod(1, m);
        assert(numbers.take(0) =~= Seq::<nat>::empty());
    }
    while i < n
        invariant
            i <= n,
            n == elements.len(),
            m == base_modulus(),
            numbers == element_values(elements@),
            all_elements_wf(elements@),
            product.wf(),
            product@ == mod_product(numbers.take(i as int), m),
            partial.len() == i,
            forall|k: int|
                0 <= k < i ==> (#[trigger] partial[k]).wf() && partial[k]@ == mod_product(
                    numbers.take(k),
                    m,
                ),
        decreases n - i,
    {
        partial.push(product);
        proof {
            assert(numbers.take(i + 1) =~= numbers.take(i as int).push(numbers[i as int]));
            lemma_mod_product_push(numbers.take(i as int), numbers[i as int], m);
        }
        product = base_product(&product, &elements[i]);
        i = i + 1;
    }
    proof {
        assert(numbers.take(n as int) =~= numbers);
    }
    let mut running = match base_inverse(&product) {
        None => {
            return None;
        },
        Some(e) => e,
    };
    proof {
        lemma_mod_mul_commutes(product@, running@, m);
    }
    let mut j: usize = n;
    while j > 0
        invariant
            j <= n,
            n == elements.len(),
            m == base_modulus(),
            numbers == element_values(elements@),
            all_elements_wf(elements@),
            running.wf(),
            mod_mul(mod_product(numbers.take(j as int), m), running@, m) == 1,
            partial.len() == n,
            forall|k: int|
                0 <= k < j ==> (#[trigger] partial[k]).wf() && partial[k]@ == mod_product(
                    numbers.take(k),
                    m,
                ),
            forall|k: int|
                j <= k < n ==> (#[trigger] partial[k]).wf() && is_mod_inverse(
                    elements[k]@,
                    partial[k]@,
                    m,
                ),
        decreases j,
    {
        j = j - 1;
        let before = partial[j];
        let inverse = base_product(&before, &running);
        let next = base_product(&running, &elements[j]);
        proof {
            let d = numbers[j as int];
            let p = mod_product(numbers.take(j as int), m);
            assert(numbers.take(j + 1) =~= numbers.take(j as int).push(d));
            lemma_mod_product_push(numbers.take(j as int), d, m);
            lemma_mod_mul_associates(d, p, running@, m);
            lemma_mod_mul_commutes(d, p, m);
            lemma_mod_mul_commutes(running@, d, m);
            lemma_mod_mul_associates(p, d, running@, m);
        }
        partial.set(j, inverse);
        running = next;
    }
    Some(partial)
}

/// The points before the pairs are combined. In every round but the first,
/// the upper half of each block is multiplied by ascending powers of `g`,
/// its first point by `g^0`.
pub open spec fn twisted(points: Seq<PointValue>, g: nat, block: int, first: bool) -> Seq<
    PointValue,
> {
    Seq::new(
        points.len(),
        |i: int|
            {
                let offset = i % block;
                if first || offset <= block / 2 {
                    points[i]
                } else {
                    scaled(points[i], mod_pow(g, (offset - block / 2) as nat, scalar_modulus()))
                }
            },
    )
}

/// Where the lower point of pair number `pair` stands: pairs are counted
/// block by block, `half` of them in each.
pub open spec fn pair_start(pair: int, half: int) -> int {
    (pair / half) * (2 * half) + pair % half
}

/// For each pair, the x-coordinate of its upper point minus that of its
/// lower point.
pub open spec fn pair_differences(points: Seq<PointValue>, half: int) -> Seq<nat> {
    Seq::new(
        (points.len() / 2) as nat,
        |pair: int|
            mod_sub(
                points[pair_start(pair, half) + half].x,
                points[pair_start(pair, half)].x,
                base_modulus(),
            ),
    )
}

/// The sum of two points by the chord rule, on coordinates alone.
pub open spec fn chord_sum(p: PointValue, q: PointValue) -> PointValue {
    let m = base_modulus();
    let slope = mod_mul(mod_sub(q.y, p.y, m), mod_inverse(mod_sub(q.x, p.x, m), m), m);
    let x = mod_sub(mod_mul(slope, slope, m), mod_add(p.x, q.x, m), m);
    let y = mod_sub(mod_mul(slope, mod_sub(p.x, x, m), m), p.y, m);
    PointValue { x, y, infinity: p.infinity }
}

/// The difference `p - q` of two points by the chord rule, on coordinates
/// alone.
pub open spec fn chord_difference(p: PointValue, q: PointValue) -> PointValue {
    let m = base_modulus();
    let slope = mod_mul(
        mod_neg(mod_add(q.y, p.y, m), m),
        mod_inverse(mod_sub(q.x, p.x, m), m),
        m,
    );
    let x = mod_sub(mod_mul(slope, slope, m), mod_add(p.x, q.x, m), m);
    let y = mod_sub(mod_mul(slope, mod_sub(p.x, x, m), m), p.y, m);
    PointValue { x, y, infinity: q.infinity }
}

/// Every pair replaced by its sum, in the lower place, and its difference,
/// in the upper place.
pub open spec fn butterflied(points: Seq<PointValue>, block: int) -> Seq<PointValue> {
    Seq::new(
        points.len(),
        |i: int|
            {
                let half = block / 2;
                if i % block < half {
                    chord_sum(points[i], points[i + half])
                } else {
                    chord_difference(points[i - half], points[i])
                }
            },
    )
}

/// What one round makes of `points`: nothing where the product of the pairs'
/// x-coordinate differences is zero, else the twisted points with every pair
/// combined.
pub open spec fn round_outcome(points: Seq<PointValue>, g: nat, round: nat, first: bool) -> Option<
    Seq<PointValue>,
> {
    let block = pow2(round) as int;
    let prepared = twisted(points, g, block, first);
    if mod_product(pair_differences(prepared, block / 2), base_modulus()) == 0 {
        None
    } else {
        Some(butterflied(prepared, block))
    }
}

/// A round fails where, after the twist, the two points of some pair have the
/// same x-coordinate.
pub proof fn lemma_shared_x_fails(
    points: Seq<PointValue>,
    g: nat,
    round: nat,
    first: bool,
    pair: int,
)
    requires
        round >= 1,
        0 <= pair < points.len() / 2,
        ({
            let half = pow2(round) as int / 2;
            let prepared = twisted(points, g, pow2(round) as int, first);
            prepared[pair_start(pair, half) + half].x == prepared[pair_start(pair, half)].x
        }),
    ensures
        round_outcome(points, g, round, first) is None,
{
    let half = pow2(round) as int / 2;
    let prepared = twisted(points, g, pow2(round) as int, first);
    let differences = pair_differences(prepared, half);
    let x = prepared[pair_start(pair, half)].x;
    assert(differences[pair] == mod_sub(x, x, base_modulus()));
    assert(mod_sub(x, x, base_modulus()) == 0);
    lemma_zero_factor(differences, pair, base_modulus());
}

/// The sum and the difference of the pair `(p, q)`, given the inverse of the
/// difference of their x-coordinates.
fn combine(p: &Point, q: &Point, inverse: &BaseElement) -> (pair: (Point, Point))
    requires
        p.wf(),
        q.wf(),
        inverse.wf(),
        is_mod_inverse(mod_sub(q@.x, p@.x, base_modulus()), inverse@, base_modulus()),
    ensures
        pair.0.wf(),
        pair.1.wf(),
        pair.0@ == chord_sum(p@, q@),
        pair.1@ == chord_difference(p@, q@),
{
    proof {
        lemma_mod_inverse_is(mod_sub(q@.x, p@.x, base_modulus()), inverse@, base_modulus());
    }
    let x_total = base_sum(&p.x, &q.x);
    let rise = base_difference(&q.y, &p.y);
    let slope = base_product(&rise, inverse);
    let square = base_product(&slope, &slope);
    let sum_x = base_difference(&square, &x_total);
    let run = base_difference(&p.x, &sum_x);
    let climb = base_product(&slope, &run);
    let sum_y = base_difference(&climb, &p.y);
    let y_total = base_sum(&q.y, &p.y);
    let fall = base_negation(&y_total);
    let down = base_product(&fall, inverse);
    let down_square = base_product(&down, &down);
    let difference_x = base_difference(&down_square, &x_total);
    let down_run = base_difference(&p.x, &difference_x);
    let down_climb = base_product(&down, &down_run);
    let difference_y = base_difference(&down_climb, &p.y);
    (
        Point { x: sum_x, y: sum_y, infinity: p.infinity },
        Point { x: difference_x, y: difference_y, infinity: q.infinity },
    )
}

/// Applies one butterfly round in place, on blocks of `2^round_number`
/// points.
///
/// Unless this is the first round, the upper half of every block is first
/// multiplied by ascending powers of `g`. Then every point `P` of a lower
/// half and the point `Q` half a block above it are replaced by `P + Q` and
/// `P - Q`. All the inversions that the chord rule needs are taken from one
/// inversion of the product of the differences; where that product is zero
/// the round fails.
pub fn fft_round<const IS_FIRST_ROUND: bool>(
    points: &mut [Point],
    g: ScalarElement,
    round_number: usize,
) -> (result: Result<(), InterpolationError>)
    requires
        round_number >= 1,
        pow2(round_number as nat) <= usize::MAX,
        (old(points).len() as int) % (pow2(round_number as nat) as int) == 0,
        all_wf(old(points)@),
        g.wf(),
    ensures
        final(points).len() == old(points).len(),
        all_wf(final(points)@),
        match result {
            Ok(()) => round_outcome(values(old(points)@), g@, round_number as nat, IS_FIRST_ROUND)
                == Some(values(final(points)@)),
            Err(e) => (e matches InterpolationError::FieldError(text) && text@
                == "Could not invert batch inversion accumulator"@) && round_outcome(
                values(old(points)@),
                g@,
                round_number as nat,
                IS_FIRST_ROUND,
            ) is None,
        },
{
    let block = power_of_two(round_number);
    proof {
        lemma_pow2_pos(round_number as nat);
    }
    let half = block / 2;
    let n = points.len();
    let blocks = n / block;
    let ghost initial = values(points@);
    let ghost prepared = twisted(initial, g@, block as int, IS_FIRST_ROUND);
    proof {
        lemma_pow2_unfold(round_number as nat);
        lemma_pow2_pos((round_number - 1) as nat);
        lemma_fundamental_div_mod(n as int, block as int);
        assert(block * blocks == blocks * block) by (nonlinear_arith);
        assert(blocks * block == 2 * (blocks * half)) by (nonlinear_arith)
            requires
                block == 2 * half,
        ;
    }
    if !IS_FIRST_ROUND {
        let mut b: usize = 0;
        while b < blocks
            invariant
                b <= blocks,
                points.len() == n,
                n == blocks * block,
                block == 2 * half,
                half >= 1,
                all_wf(points@),
                g.wf(),
                initial.len() == n,
                forall|i: int|
                    0 <= i < n ==> (#[trigger] points[i])@ == if i < b * block {
                        twisted(initial, g@, block as int, false)[i]
                    } else {
                        initial[i]
                    },
            decreases blocks - b,
        {
            proof {
                assert((b + 1) * block <= blocks * block && (b + 1) * block == b * block + block)
                    by (nonlinear_arith)
                    requires
                        b < blocks,
                ;
            }
            let base = b * block;
            let ghost earlier = points@;
            let (_, rest) = points.split_at_mut(base + half);
            let (upper, _) = rest.split_at_mut(half);
            let ghost taken = upper@;
            distribute_powers(upper, g);
            proof {
                let given = powers_distributed(values(taken), g@);
                assert forall|i: int| 0 <= i < n implies (#[trigger] points[i])@ == if i < (b + 1)
                    * block {
                    twisted(initial, g@, block as int, false)[i]
                } else {
                    initial[i]
                } by {
                    if base <= i < base + block {
                        lemma_block_position(b as int, block as int, i - base);
                    }
                    if base + half <= i < base + block {
                        let k = i - base - half;
                        assert(points[i] == upper[k]);
                        assert(values(upper@)[k] == upper[k]@);
                        assert(given[k] == values(upper@)[k]);
                        assert(values(taken)[k] == taken[k]@);
                        assert(taken[k] == earlier[i]);
                    } else {
                        assert(points[i] == earlier[i]);
                    }
                }
            }
            b = b + 1;
        }
    }
    assert(values(points@) =~= prepared);
    let mut differences: Vec<BaseElement> = Vec::new();
    let mut b: usize = 0;
    while b < blocks
        invariant
            b <= blocks,
            points.len() == n,
            n == blocks * block,
            block == 2 * half,
            half >= 1,
            all_wf(points@),
            values(points@) == prepared,
            prepared.len() == n,
            n == 2 * (blocks * half),
            differences.len() == b * half,
            all_elements_wf(differences@),
            forall|pair: int|
                0 <= pair < differences.len() ==> (#[trigger] differences[pair])@
                    == pair_differences(prepared, half as int)[pair],
        decreases blocks - b,
    {
        proof {
            assert((b + 1) * block <= blocks * block && (b + 1) * block == b * block + block && (b
                + 1) * half == b * half + half && b * block == b * (2 * half)) by (nonlinear_arith)
                requires
                    b < blocks,
                    block == 2 * half,
            ;
        }
        let base = b * block;
        let mut j: usize = 0;
        while j < half
            invariant
                j <= half,
                b < blocks,
                base == b * block,
                base + block <= n,
                b * block == b * (2 * half),
                points.len() == n,
                n == blocks * block,
                n == 2 * (blocks * half),
                block == 2 * half,
                all_wf(points@),
                values(points@) == prepared,
                prepared.len() == n,
                differences.len() == b * half + j,
                all_elements_wf(differences@),
                forall|pair: int|
                    0 <= pair < differences.len() ==> (#[trigger] differences[pair])@
                        == pair_differences(prepared, half as int)[pair],
            decreases half - j,
        {
            let low = points[base + j];
            let high = points[base + j + half];
            let difference = base_difference(&high.x, &low.x);
            proof {
                lemma_block_position(b as int, half as int, j as int);
                assert(b * half + j < blocks * half) by (nonlinear_arith)
                    requires
                        b < blocks,
                        j < half,
                ;
                assert(values(points@)[base + j] == points[base + j]@);
                assert(values(points@)[base + j + half] == points[base + j + half]@);
                assert(pair_start(b * half + j, half as int) == base + j);
            }
            differences.push(difference);
            j = j + 1;
        }
        b = b + 1;
    }
    assert(element_values(differences@) =~= pair_differences(prepared, half as int));
    let inverses = match batch_inverse(&differences) {
        None => {
            return Err(
                InterpolationError::FieldError(
                    String::from_str("Could not invert batch inversion accumulator"),
                ),
            );
        },
        Some(v) => v,
    };
    let ghost combined = butterflied(prepared, block as int);
    let mut b: usize = 0;
    while b < blocks
        invariant
            b <= blocks,
            points.len() == n,
            prepared.len() == n,
            n == blocks * block,
            n == 2 * (blocks * half),
            block == 2 * half,
            half >= 1,
            all_wf(points@),
            combined == butterflied(prepared, block as int),
            inverses.len() == blocks * half,
            differences.len() == blocks * half,
            all_elements_wf(inverses@),
            forall|pair: int|
                0 <= pair < differences.len() ==> (#[trigger] differences[pair])@
                    == pair_differences(prepared, half as int)[pair],
            forall|pair: int|
                0 <= pair < inverses.len() ==> is_mod_inverse(
                    (#[trigger] differences[pair])@,
                    inverses[pair]@,
                    base_modulus(),
                ),
            forall|i: int|
                0 <= i < n ==> (#[trigger] points[i])@ == if i < b * block {
                    combined[i]
                } else {
                    prepared[i]
                },
        decreases blocks - b,
    {
        proof {
            assert((b + 1) * block <= blocks * block && (b + 1) * block == b * block + block && (b
                + 1) * half <= blocks * half && b * block == b * (2 * half) && (b + 1) * half == b
                * half + half && b * half <= b * block) by (nonlinear_arith)
                requires
                    b < blocks,
                    block == 2 * half,
            ;
        }
        let base = b * block;
        let first_pair = b * half;
        let mut j: usize = 0;
        while j < half
            invariant
                j <= half,
                b < blocks,
                base == b * block,
                first_pair == b * half,
                first_pair + half <= blocks * half,
                base + block <= n,
                b * block == b * (2 * half),
                points.len() == n,
                prepared.len() == n,
                n == blocks * block,
                n == 2 * (blocks * half),
                block == 2 * half,
                all_wf(points@),
                combined == butterflied(prepared, block as int),
                inverses.len() == blocks * half,
                differences.len() == blocks * half,
                all_elements_wf(inverses@),
                forall|pair: int|
                    0 <= pair < differences.len() ==> (#[trigger] differences[pair])@
                        == pair_differences(prepared, half as int)[pair],
                forall|pair: int|
                    0 <= pair < inverses.len() ==> is_mod_inverse(
                        (#[trigger] differences[pair])@,
                        inverses[pair]@,
                        base_modulus(),
                    ),
                forall|i: int|
                    0 <= i < n ==> (#[trigger] points[i])@ == if i < base + j || (base + half <= i
                        < base + half + j) {
                        combined[i]
                    } else {
                        prepared[i]
                    },
            decreases half - j,
        {
            let low = points[base + j];
            let high = points[base + j + half];
            let inverse = inverses[first_pair + j];
            proof {
                lemma_block_position(b as int, half as int, j as int);
                lemma_block_position(b as int, block as int, j as int);
                lemma_block_position(b as int, block as int, j + half);
                assert(pair_start(first_pair + j, half as int) == base + j);
                assert(points[base + j]@ == prepared[base + j]);
                assert(points[base + j + half]@ == prepared[base + j + half]);
                assert(differences[first_pair + j]@ == pair_differences(
                    prepared,
                    half as int,
                )[first_pair + j]);
                assert(differences[first_pair + j]@ == mod_sub(
                    high@.x,
                    low@.x,
                    base_modulus(),
                ));
            }
            let pair = combine(&low, &high, &inverse);
            points[base + j] = pair.0;
            points[base + j + half] = pair.1;
            j = j + 1;
        }
        b = b + 1;
    }
    assert(values(points@) =~= combined);
    Ok(())
}

} // verus!
