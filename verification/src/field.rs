//! The two prime fields of BN254, held as four 64-bit limbs, and the modular
//! arithmetic that the contracts of this library are stated in.

use vstd::prelude::*;
use vstd::arithmetic::div_mod::{lemma_mul_mod_noop_left, lemma_mul_mod_noop_right, lemma_small_mod};
use vstd::arithmetic::mul::lemma_mul_is_associative;
use ark_bn254::{Fq, Fr};
use ark_ff::{BigInt, Field, PrimeField};

verus! {

/// The order of the base field, over which point coordinates are taken.
pub open spec fn base_modulus() -> nat {
    21888242871839275222246405745257275088696311157297823662689037894645226208583nat
}

/// The order of the scalar field, which is also the order of the group.
pub open spec fn scalar_modulus() -> nat {
    21888242871839275222246405745257275088548364400416034343698204186575808495617nat
}

/// The number that four limbs stand for, least significant limb first.
pub open spec fn limbs_value(limbs: Seq<u64>) -> nat {
    (limbs[0] as nat) + (limbs[1] as nat) * 0x1_0000_0000_0000_0000nat + (limbs[2] as nat)
        * 0x1_0000_0000_0000_0000_0000_0000_0000_0000nat + (limbs[3] as nat)
        * 0x1_0000_0000_0000_0000_0000_0000_0000_0000_0000_0000_0000_0000nat
}

/// `a + b` modulo `m`.
pub open spec fn mod_add(a: nat, b: nat, m: nat) -> nat {
    (a + b) % m
}

/// `a - b` modulo `m`, for `b` below `m`.
pub open spec fn mod_sub(a: nat, b: nat, m: nat) -> nat {
    ((a + m - b) % (m as int)) as nat
}

/// `-a` modulo `m`, for `a` up to `m`.
pub open spec fn mod_neg(a: nat, m: nat) -> nat {
    ((m - a) % (m as int)) as nat
}

/// `a * b` modulo `m`.
pub open spec fn mod_mul(a: nat, b: nat, m: nat) -> nat {
    (a * b) % m
}

/// `inverse` is below `m` and multiplies with `a` to one.
pub open spec fn is_mod_inverse(a: nat, inverse: nat, m: nat) -> bool {
    inverse < m && mod_mul(a, inverse, m) == 1
}

/// The inverse of `a` modulo `m`, where one exists.
pub open spec fn mod_inverse(a: nat, m: nat) -> nat {
    choose|inverse: nat| is_mod_inverse(a, inverse, m)
}

/// `a` raised to `exponent`, modulo `m`.
pub open spec fn mod_pow(a: nat, exponent: nat, m: nat) -> nat
    decreases exponent,
{
    if exponent == 0 {
        1nat % m
    } else {
        mod_mul(mod_pow(a, (exponent - 1) as nat, m), a, m)
    }
}

/// The product of all of `factors`, modulo `m`.
pub open spec fn mod_product(factors: Seq<nat>, m: nat) -> nat
    decreases factors.len(),
{
    if factors.len() == 0 {
        1nat % m
    } else {
        mod_mul(mod_product(factors.drop_last(), m), factors.last(), m)
    }
}

/// Multiplication modulo `m` does not depend on the order of its factors.
pub proof fn lemma_mod_mul_commutes(a: nat, b: nat, m: nat)
    ensures
        mod_mul(a, b, m) == mod_mul(b, a, m),
{
    assert(a * b == b * a) by (nonlinear_arith);
}

/// Multiplication modulo `m` does not depend on how its factors are grouped.
pub proof fn lemma_mod_mul_associates(a: nat, b: nat, c: nat, m: nat)
    requires
        m > 0,
    ensures
        mod_mul(mod_mul(a, b, m), c, m) == mod_mul(a, mod_mul(b, c, m), m),
{
    lemma_mul_mod_noop_left((a * b) as int, c as int, m as int);
    lemma_mul_mod_noop_right(a as int, (b * c) as int, m as int);
    lemma_mul_is_associative(a as int, b as int, c as int);
}

/// Modulo `m`, a number has at most one inverse.
pub proof fn lemma_mod_inverse_unique(a: nat, first: nat, second: nat, m: nat)
    requires
        m > 1,
        is_mod_inverse(a, first, m),
        is_mod_inverse(a, second, m),
    ensures
        first == second,
{
    lemma_mod_mul_associates(first, a, second, m);
    lemma_mod_mul_commutes(first, a, m);
    assert(first * 1 == first && 1 * second == second) by (nonlinear_arith);
    lemma_small_mod(first, m);
    lemma_small_mod(second, m);
}

/// Whatever inverts `a` modulo `m` is the inverse of `a`.
pub proof fn lemma_mod_inverse_is(a: nat, inverse: nat, m: nat)
    requires
        m > 1,
        is_mod_inverse(a, inverse, m),
    ensures
        mod_inverse(a, m) == inverse,
{
    lemma_mod_inverse_unique(a, mod_inverse(a, m), inverse, m);
}

/// A product with a zero among its factors is zero.
pub proof fn lemma_zero_factor(factors: Seq<nat>, at: int, m: nat)
    requires
        m > 0,
        0 <= at < factors.len(),
        factors[at] == 0,
    ensures
        mod_product(factors, m) == 0,
    decreases factors.len(),
{
    let rest = mod_product(factors.drop_last(), m);
    if at == factors.len() - 1 {
        assert(rest * 0 == 0) by (nonlinear_arith);
    } else {
        lemma_zero_factor(factors.drop_last(), at, m);
        assert(0 * factors.last() == 0) by (nonlinear_arith);
    }
}

/// Four limbs are determined by the number that they stand for.
pub proof fn lemma_limbs_value_injective(a: Seq<u64>, b: Seq<u64>)
    requires
        a.len() == 4,
        b.len() == 4,
        limbs_value(a) == limbs_value(b),
    ensures
        a == b,
{
    assert(a[3] == b[3]);
    assert(a[2] == b[2]);
    assert(a[1] == b[1]);
    assert(a[0] == b[0]);
    assert(a =~= b);
}

/// The product of a sequence with one more factor at its end.
pub proof fn lemma_mod_product_push(factors: Seq<nat>, last: nat, m: nat)
    ensures
        mod_product(factors.push(last), m) == mod_mul(mod_product(factors, m), last, m),
{
    assert(factors.push(last).drop_last() =~= factors);
}

/// Whether the number of the first four limbs is below that of the second.
pub fn limbs_below(a: &[u64; 4], b: &[u64; 4]) -> (below: bool)
    ensures
        below == (limbs_value(a@) < limbs_value(b@)),
{
    if a[3] != b[3] {
        a[3] < b[3]
    } else if a[2] != b[2] {
        a[2] < b[2]
    } else if a[1] != b[1] {
        a[1] < b[1]
    } else {
        a[0] < b[0]
    }
}

/// An element of the base field: a number below the field's order.
#[derive(Clone, Copy, Debug, PartialEq, Eq)]
pub struct BaseElement {
    pub limbs: [u64; 4],
}

impl View for BaseElement {
    type V = nat;

    open spec fn view(&self) -> nat {
        limbs_value(self.limbs@)
    }
}

impl BaseElement {
    /// The limbs stand for a number below the order of the base field.
    pub open spec fn wf(&self) -> bool {
        self@ < base_modulus()
    }

    /// Whether the limbs stand for a number below the order of the base
    /// field, compared limb by limb from the most significant one.
    pub fn in_field(&self) -> (b: bool)
        ensures
            b == self.wf(),
    {
        limbs_below(
            &self.limbs,
            &[0x3c208c16d87cfd47, 0x97816a916871ca8d, 0xb85045b68181585d, 0x30644e72e131a029],
        )
    }

    /// The element one.
    pub fn one() -> (e: BaseElement)
        ensures
            e.wf(),
            e@ == 1,
    {
        BaseElement { limbs: [1, 0, 0, 0] }
    }
}

/// An element of the scalar field: a number below the field's order.
#[derive(Clone, Copy, Debug, PartialEq, Eq)]
pub struct ScalarElement {
    pub limbs: [u64; 4],
}

impl View for ScalarElement {
    type V = nat;

    open spec fn view(&self) -> nat {
        limbs_value(self.limbs@)
    }
}

impl ScalarElement {
    /// The limbs stand for a number below the order of the scalar field.
    pub open spec fn wf(&self) -> bool {
        self@ < scalar_modulus()
    }

    /// Whether the limbs stand for a number below the order of the scalar
    /// field, compared limb by limb from the most significant one.
    pub fn in_field(&self) -> (b: bool)
        ensures
            b == self.wf(),
    {
        limbs_below(
            &self.limbs,
            &[0x43e1f593f0000001, 0x2833e84879b97091, 0xb85045b68181585d, 0x30644e72e131a029],
        )
    }
}

/// Addition in `ark_bn254::Fq` (the `+` of `ark_ff::Fp`): the sum of the two
/// numbers, reduced modulo the order of the base field.
#[verifier::external_body]
pub(crate) fn base_sum(a: &BaseElement, b: &BaseElement) -> (e: BaseElement)
    requires
        a.wf(),
        b.wf(),
    ensures
        e.wf(),
        e@ == mod_add(a@, b@, base_modulus()),
{
    let x = Fq::from_bigint(BigInt::new(a.limbs)).unwrap();
    let y = Fq::from_bigint(BigInt::new(b.limbs)).unwrap();
    BaseElement { limbs: (x + y).into_bigint().0 }
}

/// Subtraction in `ark_bn254::Fq` (the `-` of `ark_ff::Fp`): the difference
/// of the two numbers, reduced modulo the order of the base field.
#[verifier::external_body]
pub(crate) fn base_difference(a: &BaseElement, b: &BaseElement) -> (e: BaseElement)
    requires
        a.wf(),
        b.wf(),
    ensures
        e.wf(),
        e@ == mod_sub(a@, b@, base_modulus()),
{
    let x = Fq::from_bigint(BigInt::new(a.limbs)).unwrap();
    let y = Fq::from_bigint(BigInt::new(b.limbs)).unwrap();
    BaseElement { limbs: (x - y).into_bigint().0 }
}

/// Multiplication in `ark_bn254::Fq` (the `*` of `ark_ff::Fp`): the product
/// of the two numbers, reduced modulo the order of the base field.
#[verifier::external_body]
pub(crate) fn base_product(a: &BaseElement, b: &BaseElement) -> (e: BaseElement)
    requires
        a.wf(),
        b.wf(),
    ensures
        e.wf(),
        e@ == mod_mul(a@, b@, base_modulus()),
{
    let x = Fq::from_bigint(BigInt::new(a.limbs)).unwrap();
    let y = Fq::from_bigint(BigInt::new(b.limbs)).unwrap();
    BaseElement { limbs: (x * y).into_bigint().0 }
}

/// Negation in `ark_bn254::Fq` (the unary `-` of `ark_ff::Fp`): the order of
/// the base field minus the number, and zero for zero.
#[verifier::external_body]
pub(crate) fn base_negation(a: &BaseElement) -> (e: BaseElement)
    requires
        a.wf(),
    ensures
        e.wf(),
        e@ == mod_neg(a@, base_modulus()),
{
    let x = Fq::from_bigint(BigInt::new(a.limbs)).unwrap();
    BaseElement { limbs: (-x).into_bigint().0 }
}

/// `ark_ff::Field::inverse` on `ark_bn254::Fq`: nothing for zero, and for any
/// other number the element of the base field that multiplies with it to one.
#[verifier::external_body]
pub(crate) fn base_inverse(a: &BaseElement) -> (inverse: Option<BaseElement>)
    requires
        a.wf(),
    ensures
        inverse is None <==> a@ == 0,
        inverse matches Some(e) ==> e.wf() && is_mod_inverse(a@, e@, base_modulus()),
{
    let x = Fq::from_bigint(BigInt::new(a.limbs)).unwrap();
    match x.inverse() {
        Some(r) => Some(BaseElement { limbs: r.into_bigint().0 }),
        None => None,
    }
}

/// Multiplication in `ark_bn254::Fr` (the `*` of `ark_ff::Fp`): the product
/// of the two numbers, reduced modulo the order of the scalar field.
#[verifier::external_body]
pub(crate) fn scalar_product(a: &ScalarElement, b: &ScalarElement) -> (e: ScalarElement)
    requires
        a.wf(),
        b.wf(),
    ensures
        e.wf(),
        e@ == mod_mul(a@, b@, scalar_modulus()),
{
    let x = Fr::from_bigint(BigInt::new(a.limbs)).unwrap();
    let y = Fr::from_bigint(BigInt::new(b.limbs)).unwrap();
    ScalarElement { limbs: (x * y).into_bigint().0 }
}

/// `ark_ff::Field::pow` on `ark_bn254::Fr` with an exponent of one limb: the
/// number multiplied with itself `exponent` times in the scalar field, and
/// one for the exponent zero.
#[verifier::external_body]
pub(crate) fn scalar_power(a: &ScalarElement, exponent: u64) -> (e: ScalarElement)
    requires
        a.wf(),
    ensures
        e.wf(),
        e@ == mod_pow(a@, exponent as nat, scalar_modulus()),
{
    let x = Fr::from_bigint(BigInt::new(a.limbs)).unwrap();
    ScalarElement { limbs: x.pow([exponent]).into_bigint().0 }
}

/// `ark_ff::Field::inverse` on `ark_bn254::Fr`: nothing for zero, and for any
/// other number the element of the scalar field that multiplies with it to
/// one.
#[verifier::external_body]
pub(crate) fn scalar_inverse(a: &ScalarElement) -> (inverse: Option<ScalarElement>)
    requires
        a.wf(),
    ensures
        inverse is None <==> a@ == 0,
        inverse matches Some(e) ==> e.wf() && is_mod_inverse(a@, e@, scalar_modulus()),
{
    let x = Fr::from_bigint(BigInt::new(a.limbs)).unwrap();
    match x.inverse() {
        Some(r) => Some(ScalarElement { limbs: r.into_bigint().0 }),
        None => None,
    }
}

} // verus!
