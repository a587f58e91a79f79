//! Samplers for mask and error vectors (uniform box and centered binomial).
use vstd::prelude::*;
use rand::rngs::ThreadRng;
use crate::mlwe::{MLWEParameters, Polynomial, PolynomialVector, coeffs_within, vec_coeffs_within, vec_uniform};

verus! {

/// Metadata describing a sampler invocation used by tests and audits.
#[derive(Debug, Clone, PartialEq, Eq)]
pub struct SamplerMetadata {
    /// Human-readable sampler name.
    pub sampler_name: String,
    /// Distribution label.
    pub distribution: String,
}

/// `width` polynomials of `params.n` coefficients drawn uniformly from `[-|bound|, |bound|]`.
pub fn sample_bounded_mask_vector(params: &MLWEParameters, width: usize, bound: i32, rng: &mut ThreadRng) -> (v: PolynomialVector)
    requires
        -0x4000_0000 < bound < 0x4000_0000,
    ensures
        v@.len() == width,
        vec_uniform(v@, params.n as int),
        vec_coeffs_within(v@, -(if bound < 0 { -bound } else { bound as int }), if bound < 0 { -bound } else { bound as int }),
{
    let b: u32 = if bound < 0 { (-bound) as u32 } else { bound as u32 };
    let mut elements: Vec<Polynomial> = Vec::with_capacity(width);
    let mut j: usize = 0;
    while j < width
        invariant
            b < 0x4000_0000,
            b == (if bound < 0 { -bound } else { bound as int }),
            j <= width,
            elements@.len() == j,
            forall|t: int| 0 <= t < j ==> (#[trigger] elements@[t])@.len() == params.n,
            forall|t: int| 0 <= t < j ==> coeffs_within((#[trigger] elements@[t])@, -(b as int), b as int),
        decreases width - j,
    {
        elements.push(Polynomial::rand_poly_uniform(params.n, b, rng));
        j += 1;
    }
    let v = PolynomialVector { elements };
    assert forall|t: int| 0 <= t < v@.len() implies (#[trigger] v@[t]) == v.elements@[t]@ by {}
    v
}

/// `width` polynomials of `params.n` coefficients drawn from CBD(`eta`).
pub fn sample_small_vector(params: &MLWEParameters, width: usize, eta: i32, rng: &mut ThreadRng) -> (v: PolynomialVector)
    requires
        eta >= 0,
    ensures
        v@.len() == width,
        vec_uniform(v@, params.n as int),
        vec_coeffs_within(v@, -(eta as int), eta as int),
{
    let mut elements: Vec<Polynomial> = Vec::with_capacity(width);
    let mut j: usize = 0;
    while j < width
        invariant
            eta >= 0,
            j <= width,
            elements@.len() == j,
            forall|t: int| 0 <= t < j ==> (#[trigger] elements@[t])@.len() == params.n,
            forall|t: int| 0 <= t < j ==> coeffs_within((#[trigger] elements@[t])@, -(eta as int), eta as int),
        decreases width - j,
    {
        elements.push(Polynomial::rand_poly(params.n, eta, rng));
        j += 1;
    }
    let v = PolynomialVector { elements };
    assert forall|t: int| 0 <= t < v@.len() implies (#[trigger] v@[t]) == v.elements@[t]@ by {}
    v
}

} // verus!
