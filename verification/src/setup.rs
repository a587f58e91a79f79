//! System setup: the public matrix `A = [A' | G - A'R]` (with `A'` expanded
//! from a public seed) and the master trapdoor `R`.
use vstd::prelude::*;
use crate::errors::PabsCrfResult;
use crate::mlwe::{MLWEKeyPair, MLWEParameters, PolynomialMatrix, mat_shape, matrix_from_flat, a_prime_seed_input};
use crate::parameter_sets::{TopTierParameterModel, model_ok};
use crate::trapdoor::{StrictTrapdoor, TrapdoorMode, full_matrix_spec, trapdoor_params_ok};

verus! {

/// Canonical serialization key for public parameters.
pub const PP_STRUCT_KEY: &'static str = "pp_struct";
/// Legacy serialization key for public parameters.
pub const LEGACY_PP_STRUCT_KEY: &'static str = "matrix_a_struct";
/// Canonical serialization key for the master secret key.
pub const MSK_STRUCT_KEY: &'static str = "msk_struct";

/// Public parameters for the PABS-CRF scheme
#[derive(Debug, Clone, PartialEq)]
pub struct PublicParameters {
    /// MLWE parameters.
    pub params: MLWEParameters,
    /// Formal parameter model.
    pub parameter_model: TopTierParameterModel,
    /// Version string of the transport formats.
    pub transport_version: String,
    /// Domain separator of the firewall transcript.
    pub firewall_domain_separator: String,
    /// Public matrix `A`.
    pub matrix_a: PolynomialMatrix,
    /// Seed from which `A'` (the first `k - 1` columns of `A`) is expanded.
    pub matrix_a_seed: [u8; 32],
}

/// Master secret key for the PABS-CRF scheme
#[derive(Debug, Clone)]
pub struct MasterSecretKey {
    /// MLWE parameters
    pub params: MLWEParameters,
    /// Formal top-tier parameter model.
    pub parameter_model: TopTierParameterModel,
    /// Trapdoor mode label for auditability.
    pub trapdoor_mode: TrapdoorMode,
    /// Public matrix A
    pub matrix_a: PolynomialMatrix,
    /// Trapdoor basis T for matrix A
    pub trapdoor_t: PolynomialMatrix,
}

impl MasterSecretKey {
    /// Wipe the matrix and the trapdoor basis: every polynomial is overwritten
    /// with zeros and both matrices are emptied. The parameters are kept.
    pub fn zeroize(&mut self)
        ensures
            final(self).matrix_a.elements@.len() == 0,
            final(self).matrix_a.rows == 0,
            final(self).matrix_a.cols == 0,
            final(self).trapdoor_t.elements@.len() == 0,
            final(self).trapdoor_t.rows == 0,
            final(self).trapdoor_t.cols == 0,
            final(self).params == old(self).params,
    {
        crate::keygen::wipe_matrix(&mut self.matrix_a);
        crate::keygen::wipe_matrix(&mut self.trapdoor_t);
    }
}

/// `A'` expanded from the public seed (as `generate_a_prime_from_seed` computes it).
pub open spec fn a_prime_spec(seed: Seq<u8>, params: MLWEParameters) -> Seq<Seq<Seq<i32>>> {
    matrix_from_flat(
        crate::hashing::xof_values(
            a_prime_seed_input(seed, params.k, params.n),
            crate::hashing::WordRule::ModLimit(params.q),
            (params.k * (params.k - 1) * params.n) as nat,
        ),
        params.k as int,
        params.k - 1,
        params.n as int,
        params.q as int,
    )
}

/// Parameters setup can work with: a trapdoor can be built, and `A'` fits in memory.
pub open spec fn setup_params_ok(params: MLWEParameters) -> bool {
    &&& trapdoor_params_ok(params)
    &&& params.k * params.k * params.n <= usize::MAX
}

/// The relation between the public parameters and the master key of one setup.
pub open spec fn setup_relation(pp: PublicParameters, msk: MasterSecretKey, model: TopTierParameterModel) -> bool {
    let params = model.protocol.mlwe;
    &&& pp.params == params
    &&& msk.params == params
    &&& crate::parameter_sets::same_model(pp.parameter_model, model)
    &&& crate::parameter_sets::same_model(msk.parameter_model, model)
    &&& pp.transport_version@ == model.protocol.transport_version@
    &&& pp.firewall_domain_separator@ == model.protocol.firewall_domain_separator@
    &&& msk.trapdoor_mode == TrapdoorMode::Strict
    &&& pp.matrix_a@ == msk.matrix_a@
    &&& pp.matrix_a.rows == params.k && pp.matrix_a.cols == params.m
    &&& msk.matrix_a.rows == params.k && msk.matrix_a.cols == params.m
    &&& msk.trapdoor_t.rows == params.k - 1 && msk.trapdoor_t.cols == params.k * params.ell
    &&& mat_shape(msk.trapdoor_t@, params.k - 1, (params.k * params.ell) as int, params.n as int)
    &&& pp.matrix_a@ == full_matrix_spec(a_prime_spec(pp.matrix_a_seed@, params), msk.trapdoor_t@, params)
}

/// The built-in parameter sets (whatever their Gaussian width) can be set up.
pub proof fn lemma_builtin_params_ok(p: MLWEParameters, t: crate::parameter_sets::SecurityTarget)
    requires
        p == (MLWEParameters { sigma_bits: p.sigma_bits, ..crate::parameter_sets::mlwe_of_target(t) }),
    ensures
        setup_params_ok(p),
{
    reveal_with_fuel(vstd::arithmetic::power::pow, 7);
    assert(vstd::arithmetic::power::pow(256, 3) == 0x100_0000);
    assert(vstd::arithmetic::power::pow(256, 4) == 0x1_0000_0000);
    assert(vstd::arithmetic::power::pow(256, 5) == 0x100_0000_0000);
    match t {
        crate::parameter_sets::SecurityTarget::Bits128 => {
            assert(p.k == 4 && p.ell == 4 && p.n == 256 && p.m == 19);
        },
        crate::parameter_sets::SecurityTarget::Bits192 => {
            assert(p.k == 6 && p.ell == 5 && p.n == 256 && p.m == 35);
        },
        crate::parameter_sets::SecurityTarget::Bits256 => {
            assert(p.k == 8 && p.ell == 6 && p.n == 256 && p.m == 55);
        },
    }
}

/// Setup for a given parameter model: draw the public seed, expand `A'`,
/// and build the trapdoor over it with fresh, independent randomness.
pub fn try_setup_structured_with_model(model: TopTierParameterModel) -> (r: PabsCrfResult<(PublicParameters, MasterSecretKey)>)
    requires
        setup_params_ok(model.protocol.mlwe),
    ensures
        r matches Ok(pair) ==> setup_relation(pair.0, pair.1, model),
        r is Ok,
{
    let params = model.protocol.mlwe;
    let mut rng = crate::rng::thread_rng();
    let mut seed_buf: Vec<u8> = vec![0u8; 32];
    crate::rng::fill_bytes(&mut rng, seed_buf.as_mut_slice());
    let mut matrix_a_seed = [0u8; 32];
    let mut i: usize = 0;
    while i < 32
        invariant
            seed_buf@.len() == 32,
            i <= 32,
        decreases 32 - i,
    {
        matrix_a_seed[i] = seed_buf[i];
        i += 1;
    }
    let a_prime = MLWEKeyPair::generate_a_prime_from_seed(&matrix_a_seed, &params);
    let strict = StrictTrapdoor::new(&params);
    let mut trapdoor_rng = crate::rng::thread_rng();
    let ghost ap = a_prime@;
    let (matrix_a, trapdoor_t) = match strict.generate_with_a_prime(a_prime, &mut trapdoor_rng) {
        Ok(pair) => pair,
        Err(e) => {
            return Err(e);
        },
    };
    let ghost a_full = matrix_a@;
    let pp = PublicParameters {
        params,
        parameter_model: model.clone(),
        transport_version: model.protocol.transport_version.clone(),
        firewall_domain_separator: model.protocol.firewall_domain_separator.clone(),
        matrix_a: matrix_a.clone(),
        matrix_a_seed,
    };
    let msk = MasterSecretKey {
        params,
        parameter_model: model,
        trapdoor_mode: TrapdoorMode::Strict,
        matrix_a,
        trapdoor_t,
    };
    Ok((pp, msk))
}

/// Setup for a security level (Gaussian width 100).
pub fn try_setup_structured(security_level: u32) -> (r: PabsCrfResult<(PublicParameters, MasterSecretKey)>)
    ensures
        r matches Ok(pair) ==> setup_relation(pair.0, pair.1, pair.0.parameter_model)
            && model_ok(pair.0.parameter_model, security_level, crate::mlwe::SIGMA_100_BITS),
        r is Ok,
{
    let model = TopTierParameterModel::for_security_level(security_level);
    proof {
        lemma_builtin_params_ok(model.protocol.mlwe, crate::parameter_sets::target_of_level(security_level));
    }
    try_setup_structured_with_model(model)
}

/// Setup for a security level; setup cannot fail for the built-in parameter sets.
pub fn setup_structured(security_level: u32) -> (r: (PublicParameters, MasterSecretKey))
    ensures
        setup_relation(r.0, r.1, r.0.parameter_model),
        model_ok(r.0.parameter_model, security_level, crate::mlwe::SIGMA_100_BITS),
{
    match try_setup_structured(security_level) {
        Ok(pair) => pair,
        Err(_) => vstd::pervasive::unreached(),
    }
}

/// Convenience wrapper for system setup.
pub struct Setup;

impl Setup {
    /// Create a setup facade.
    pub fn new() -> Self {
        Setup
    }

    /// Generate structured public parameters and the master secret key with explicit errors.
    pub fn try_generate_structured(&self, security_level: u32) -> (r: PabsCrfResult<(PublicParameters, MasterSecretKey)>)
        ensures
            r matches Ok(pair) ==> setup_relation(pair.0, pair.1, pair.0.parameter_model)
                && model_ok(pair.0.parameter_model, security_level, crate::mlwe::SIGMA_100_BITS),
            r is Ok,
    {
        try_setup_structured(security_level)
    }
}

} // verus!
