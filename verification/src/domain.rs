//! The power-of-two evaluation domains of the scalar field.

use vstd::prelude::*;
use ark_bn254::Fr;
use ark_ff::PrimeField;
use ark_poly::{EvaluationDomain, Radix2EvaluationDomain};
use crate::bits::is_power_of_two;
use crate::field::ScalarElement;

verus! {

/// What the transform reads of an evaluation domain.
#[derive(Clone, Copy, Debug)]
pub struct Domain {
    /// The inverse of the domain's primitive root of unity.
    pub generator_inverse: ScalarElement,
    /// The number of elements of the domain, as a scalar.
    pub size: ScalarElement,
}

/// The largest domain that the scalar field has: two raised to the number of
/// times that two divides the order of its multiplicative group.
pub open spec fn max_domain_size() -> nat {
    0x1000_0000
}

/// The inverse of the primitive root of unity that generates the domain of
/// `size` elements.
pub uninterp spec fn domain_generator_inverse(size: nat) -> nat;

/// `ark_poly::Radix2EvaluationDomain::new` over `ark_bn254::Fr`, for a size
/// that is a power of two, with the fields `group_gen_inv` and
/// `size_as_field_element` of the domain it returns. There is a domain
/// exactly for the sizes up to `2^28`; its generator's inverse is a function
/// of the size, and its size as a scalar is the size itself.
#[verifier::external_body]
pub(crate) fn evaluation_domain(size: usize) -> (domain: Option<Domain>)
    requires
        is_power_of_two(size as nat),
    ensures
        domain is Some <==> size <= max_domain_size(),
        domain matches Some(d) ==> d.generator_inverse.wf() && d.size.wf()
            && d.generator_inverse@ == domain_generator_inverse(size as nat) && d.size@
            == size as nat,
{
    match Radix2EvaluationDomain::<Fr>::new(size) {
        Some(d) => Some(
            Domain {
                generator_inverse: ScalarElement { limbs: d.group_gen_inv.into_bigint().0 },
                size: ScalarElement { limbs: d.size_as_field_element.into_bigint().0 },
            },
        ),
        None => None,
    }
}

} // verus!
