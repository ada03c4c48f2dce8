//! Points of the BN254 G1 group in affine coordinates, and their
//! multiplication by powers of a scalar.

use vstd::prelude::*;
use vstd::arithmetic::div_mod::lemma_small_mod;
use ark_bn254::{Fq, Fr, G1Affine};
use ark_ec::CurveGroup;
use ark_ff::{BigInt, PrimeField};
use crate::field::{
    BaseElement, ScalarElement, scalar_product, mod_pow, mod_mul, scalar_modulus,
    lemma_limbs_value_injective,
};

verus! {

/// What a point is to the contracts: its two coordinates as numbers, and the
/// mark of the point at infinity.
pub ghost struct PointValue {
    pub x: nat,
    pub y: nat,
    pub infinity: bool,
}

/// A point in affine coordinates. The transform works on the coordinates
/// alone and carries the mark of the point at infinity along.
#[derive(Clone, Copy, Debug, PartialEq, Eq)]
pub struct Point {
    pub x: BaseElement,
    pub y: BaseElement,
    pub infinity: bool,
}

impl View for Point {
    type V = PointValue;

    open spec fn view(&self) -> PointValue {
        PointValue { x: self.x@, y: self.y@, infinity: self.infinity }
    }
}

impl Point {
    /// Both coordinates are elements of the base field.
    pub open spec fn wf(&self) -> bool {
        self.x.wf() && self.y.wf()
    }

    /// Whether both coordinates are elements of the base field.
    pub fn in_field(&self) -> (b: bool)
        ensures
            b == self.wf(),
    {
        self.x.in_field() && self.y.in_field()
    }
}

/// Every point of the sequence has coordinates in the base field.
pub open spec fn all_wf(points: Seq<Point>) -> bool {
    forall|i: int| 0 <= i < points.len() ==> (#[trigger] points[i]).wf()
}

/// The values of a sequence of points, position by position.
pub open spec fn values(points: Seq<Point>) -> Seq<PointValue> {
    Seq::new(points.len(), |i: int| points[i]@)
}

/// Points are determined by their values: two sequences of points with the
/// same coordinates and marks are the same sequence.
pub proof fn lemma_values_determine_points(first: Seq<Point>, second: Seq<Point>)
    requires
        values(first) == values(second),
    ensures
        first == second,
{
    assert(first.len() == values(first).len());
    assert(second.len() == values(second).len());
    assert forall|i: int| 0 <= i < first.len() implies first[i] == second[i] by {
        assert(values(first)[i] == first[i]@);
        assert(values(second)[i] == second[i]@);
        lemma_limbs_value_injective(first[i].x.limbs@, second[i].x.limbs@);
        lemma_limbs_value_injective(first[i].y.limbs@, second[i].y.limbs@);
        assert(first[i].x.limbs =~= second[i].x.limbs);
        assert(first[i].y.limbs =~= second[i].y.limbs);
    }
    assert(first =~= second);
}

/// The coordinates and the mark that the group's scalar multiplication gives
/// for the point `(x, y, infinity)` and the number `scalar`.
pub uninterp spec fn curve_scale(x: nat, y: nat, infinity: bool, scalar: nat) -> (nat, nat, bool);

/// The point `p` multiplied by `scalar`.
pub open spec fn scaled(p: PointValue, scalar: nat) -> PointValue {
    let (x, y, infinity) = curve_scale(p.x, p.y, p.infinity, scalar);
    PointValue { x, y, infinity }
}

/// Multiplication of an `ark_ec::short_weierstrass::Affine` point of BN254 G1
/// by an element of `ark_bn254::Fr`, followed by
/// `ark_ec::CurveGroup::into_affine`. The product is a function of the
/// point's three fields and the scalar, and its coordinates are elements of
/// the base field.
#[verifier::external_body]
pub(crate) fn point_scaled(p: &Point, scalar: &ScalarElement) -> (r: Point)
    requires
        p.wf(),
        scalar.wf(),
    ensures
        r.wf(),
        (r@.x, r@.y, r@.infinity) == curve_scale(p@.x, p@.y, p@.infinity, scalar@),
{
    let x = Fq::from_bigint(BigInt::new(p.x.limbs)).unwrap();
    let y = Fq::from_bigint(BigInt::new(p.y.limbs)).unwrap();
    let k = Fr::from_bigint(BigInt::new(scalar.limbs)).unwrap();
    let q = (G1Affine { x, y, infinity: p.infinity } * k).into_affine();
    Point {
        x: BaseElement { limbs: q.x.into_bigint().0 },
        y: BaseElement { limbs: q.y.into_bigint().0 },
        infinity: q.infinity,
    }
}

/// The points multiplied by ascending powers of `g`: the point at position
/// `i` by `g^i`, with the first point as it is.
pub open spec fn powers_distributed(before: Seq<PointValue>, g: nat) -> Seq<PointValue> {
    Seq::new(
        before.len(),
        |i: int|
            if i == 0 {
                before[i]
            } else {
                scaled(before[i], mod_pow(g, i as nat, scalar_modulus()))
            },
    )
}

/// Multiplies the point at each position `i` but the first by `g^i`, in
/// place.
pub fn distribute_powers(coeffs: &mut [Point], g: ScalarElement)
    requires
        all_wf(old(coeffs)@),
        g.wf(),
    ensures
        final(coeffs).len() == old(coeffs).len(),
        all_wf(final(coeffs)@),
        values(final(coeffs)@) == powers_distributed(values(old(coeffs)@), g@),
        old(coeffs).len() > 0 ==> final(coeffs)[0] == old(coeffs)[0],
{
    let n = coeffs.len();
    if n == 0 {
        assert(values(coeffs@) =~= powers_distributed(values(coeffs@), g@));
        return ;
    }
    let ghost before = coeffs@;
    let mut power = g;
    let mut i: usize = 1;
    proof {
        lemma_small_mod(1, scalar_modulus());
        lemma_small_mod(g@, scalar_modulus());
        assert(mod_pow(g@, 0, scalar_modulus()) == 1);
        assert(1 * g@ == g@) by (nonlinear_arith);
        assert(mod_pow(g@, 1, scalar_modulus()) == mod_mul(1, g@, scalar_modulus()));
    }
    while i < n
        invariant
            1 <= i <= n,
            coeffs.len() == n,
            before.len() == n,
            all_wf(coeffs@),
            g.wf(),
            power.wf(),
            power@ == mod_pow(g@, i as nat, scalar_modulus()),
            coeffs[0] == before[0],
            forall|k: int| i <= k < n ==> #[trigger] coeffs[k] == before[k],
            forall|k: int|
                1 <= k < i ==> (#[trigger] coeffs[k])@ == scaled(
                    before[k]@,
                    mod_pow(g@, k as nat, scalar_modulus()),
                ),
        decreases n - i,
    {
        let p = coeffs[i];
        let q = point_scaled(&p, &power);
        coeffs[i] = q;
        power = scalar_product(&power, &g);
        i = i + 1;
    }
    assert(values(coeffs@) =~= powers_distributed(values(before), g@));
}

} // verus!
