//! User key generation: one trapdoor preimage of the attribute's target
//! vector (bound to a fresh user GID) per attribute, plus a puncture tree.
use vstd::prelude::*;
use rand::rngs::ThreadRng;
use crate::errors::{PabsCrfError, PabsCrfResult};
use crate::gaussian::CdtGaussianSampler;
use crate::mlwe::{MLWEParameters, PolynomialMatrix, PolynomialVector, mat_shape};
use crate::parameter_sets::TopTierParameterModel;
use crate::puncture_tree::{PunctureTree, MAX_PUNCTURE_DEPTH, leaf_of};
use crate::setup::{MasterSecretKey, PublicParameters};
use crate::trapdoor::{StrictTrapdoor, TrapdoorMode, trapdoor_params_ok, witness_relation_ok, zeros};
use crate::utils::target_vector_spec;
use vstd::arithmetic::power2::pow2;
use vstd::string::StringSliceAdditionalSpecFns;

verus! {

/// User secret key for the PABS-CRF scheme
#[derive(Debug, Clone)]
pub struct UserSecretKey {
    /// MLWE parameters.
    pub params: MLWEParameters,
    /// Formal parameter model.
    pub parameter_model: TopTierParameterModel,
    /// Trapdoor mode of the issuing authority.
    pub trapdoor_mode: TrapdoorMode,
    /// User GID bound into every target vector.
    pub gid: [u8; 32],
    /// Attributes held, in key order.
    pub attributes: Vec<String>,
    /// One preimage per attribute.
    pub preimages: Vec<PolynomialVector>,
    /// Public matrix `A`.
    pub matrix_a: PolynomialMatrix,
    /// Signer-local revocation tree.
    pub puncture_tree: PunctureTree,
    /// Number of punctured tags.
    pub puncture_count: u64,
    /// Label of the witness layout.
    pub witness_schema: String,
}

/// `Zeroize::zeroize` of the `zeroize` crate on a coefficient vector: the
/// entries (and spare capacity) are overwritten with zeros, then the vector
/// is cleared.
#[verifier::external_body]
pub(crate) fn wipe_coeffs(c: &mut Vec<i32>)
    ensures
        final(c)@.len() == 0,
{
    zeroize::Zeroize::zeroize(c)
}

/// `Zeroize::zeroize` of the `zeroize` crate on a string: its bytes are
/// overwritten with zeros, then the string is cleared.
#[verifier::external_body]
pub(crate) fn wipe_string(s: &mut String)
    ensures
        final(s)@.len() == 0,
{
    zeroize::Zeroize::zeroize(s)
}

/// Wipe every polynomial of `v` and empty it.
pub(crate) fn wipe_vector(v: &mut PolynomialVector)
    ensures
        final(v).elements@.len() == 0,
{
    while v.elements.len() > 0
        decreases v.elements@.len(),
    {
        match v.elements.pop() {
            Some(mut p) => wipe_coeffs(&mut p.coeffs),
            None => {},
        }
    }
}

/// Wipe every polynomial of `m`, empty it and set its dimensions to zero.
pub(crate) fn wipe_matrix(m: &mut PolynomialMatrix)
    ensures
        final(m).elements@.len() == 0,
        final(m).rows == 0,
        final(m).cols == 0,
{
    while m.elements.len() > 0
        decreases m.elements@.len(),
    {
        match m.elements.pop() {
            Some(mut row) => {
                while row.len() > 0
                    decreases row@.len(),
                {
                    match row.pop() {
                        Some(mut p) => wipe_coeffs(&mut p.coeffs),
                        None => {},
                    }
                }
            },
            None => {},
        }
    }
    m.rows = 0;
    m.cols = 0;
}

impl UserSecretKey {
    /// Wipe the secret material: the attribute names, the preimages and the
    /// matrix are overwritten with zeros and emptied, the puncture tree and
    /// count are erased and the witness label is wiped. The parameters and
    /// the GID are kept.
    pub fn zeroize(&mut self)
        ensures
            final(self).attributes@.len() == 0,
            final(self).preimages@.len() == 0,
            final(self).matrix_a.elements@.len() == 0,
            final(self).matrix_a.rows == 0,
            final(self).matrix_a.cols == 0,
            final(self).puncture_tree.max_depth == 0,
            final(self).puncture_tree.nodes@ == Map::<u64, crate::puncture_tree::TreeNode>::empty(),
            final(self).puncture_tree.punctured_leaves@ == Set::<u64>::empty(),
            final(self).puncture_tree.puncture_count == 0,
            final(self).puncture_count == 0,
            final(self).witness_schema@.len() == 0,
            final(self).params == old(self).params,
            final(self).gid == old(self).gid,
    {
        while self.attributes.len() > 0
            invariant
                self.params == old(self).params,
                self.gid == old(self).gid,
            decreases self.attributes@.len(),
        {
            match self.attributes.pop() {
                Some(mut a) => wipe_string(&mut a),
                None => {},
            }
        }
        while self.preimages.len() > 0
            invariant
                self.params == old(self).params,
                self.gid == old(self).gid,
                self.attributes@.len() == 0,
            decreases self.preimages@.len(),
        {
            match self.preimages.pop() {
                Some(mut v) => wipe_vector(&mut v),
                None => {},
            }
        }
        wipe_matrix(&mut self.matrix_a);
        self.puncture_tree.zeroize();
        self.puncture_count = 0;
        wipe_string(&mut self.witness_schema);
    }

    /// Whether the tag `tau` has been punctured.
    pub fn is_punctured(&self, tau: u64) -> (r: PabsCrfResult<bool>)
        requires
            self.puncture_tree.max_depth <= MAX_PUNCTURE_DEPTH,
        ensures
            r is Ok <==> tau < pow2(self.puncture_tree.max_depth as nat),
            r matches Ok(b) ==> b == self.puncture_tree.punctured_leaves@.contains(
                leaf_of(tau, self.puncture_tree.max_depth) as u64,
            ),
            r matches Err(e) ==> e is InvalidInput,
    {
        self.puncture_tree.is_punctured(tau)
    }

    /// Puncture the tag `tau`, preventing future signing under it; returns
    /// whether it was newly punctured (and then counts it).
    pub fn puncture(&mut self, tau: u64) -> (r: PabsCrfResult<bool>)
        requires
            old(self).puncture_tree.max_depth <= MAX_PUNCTURE_DEPTH,
            old(self).puncture_tree.puncture_count < usize::MAX,
            old(self).puncture_count < u64::MAX,
        ensures
            r is Ok <==> tau < pow2(old(self).puncture_tree.max_depth as nat),
            r matches Err(e) ==> e is InvalidInput,
            final(self).puncture_tree.max_depth == old(self).puncture_tree.max_depth,
            r matches Ok(b) ==> ({
                let leaf = leaf_of(tau, old(self).puncture_tree.max_depth) as u64;
                &&& b == !old(self).puncture_tree.punctured_leaves@.contains(leaf)
                &&& final(self).puncture_tree.punctured_leaves@ == old(self).puncture_tree.punctured_leaves@.insert(leaf)
                &&& final(self).puncture_count == old(self).puncture_count + if b { 1int } else { 0int }
            }),
            r is Err ==> final(self).puncture_count == old(self).puncture_count,
    {
        let was_new = match self.puncture_tree.puncture(tau) {
            Ok(b) => b,
            Err(e) => {
                return Err(e);
            },
        };
        if was_new {
            self.puncture_count = self.puncture_count + 1;
        }
        Ok(was_new)
    }
}

/// What key generation needs of the public parameters, the master key and the sampler.
pub open spec fn keygen_inputs_ok(pp: PublicParameters, msk: MasterSecretKey, sampler: CdtGaussianSampler) -> bool {
    let p = pp.params;
    &&& trapdoor_params_ok(p)
    &&& p.base <= i32::MAX
    &&& p.k * p.n <= usize::MAX
    &&& sampler.wf()
    &&& sampler.spec_table().len() - 1 <= i32::MAX - p.q
    &&& mat_shape(msk.matrix_a@, msk.matrix_a.rows as int, msk.matrix_a.cols as int, p.n as int)
    &&& msk.matrix_a.rows == p.k
    &&& msk.matrix_a.cols == p.m
    &&& mat_shape(msk.trapdoor_t@, p.k - 1, (p.k * p.ell) as int, p.n as int)
    &&& msk.trapdoor_t.rows == p.k - 1
    &&& msk.trapdoor_t.cols == p.k * p.ell
}

/// Derive a user secret key for `attributes`: a fresh random GID, every
/// attribute name validated, and for each attribute a short preimage of its
/// GID-bound target vector that passed the witness-relation check.
pub fn keygen_structured(
    pp: &PublicParameters,
    msk: &MasterSecretKey,
    attributes: &[&str],
    sampler: &CdtGaussianSampler,
    rng: &mut ThreadRng,
) -> (r: PabsCrfResult<UserSecretKey>)
    requires
        keygen_inputs_ok(*pp, *msk, *sampler),
    ensures
        r matches Ok(sk) ==> ({
            let p = pp.params;
            &&& sk.params == p
            &&& crate::parameter_sets::same_model(sk.parameter_model, pp.parameter_model)
            &&& sk.trapdoor_mode == msk.trapdoor_mode
            &&& sk.matrix_a@ == pp.matrix_a@
            &&& sk.attributes@.len() == attributes@.len()
            &&& forall|i: int| 0 <= i < attributes@.len() ==> (#[trigger] sk.attributes@[i])@ == attributes@[i]@
            &&& forall|i: int| 0 <= i < attributes@.len() ==> crate::policy::attribute_name_ok(#[trigger] attributes@[i]@)
            &&& sk.preimages@.len() == attributes@.len()
            &&& forall|i: int| 0 <= i < attributes@.len() ==> witness_relation_ok(
                p,
                msk.matrix_a,
                (#[trigger] sk.preimages@[i])@,
                target_vector_spec(attributes@[i].spec_bytes(), sk.gid@, p.k as nat, p.n as nat, p.q),
            )
            &&& sk.puncture_tree.max_depth == pp.parameter_model.implementation.revocation_tree_depth
            &&& sk.puncture_tree.punctured_leaves@.is_empty()
            &&& sk.puncture_count == 0
        }),
        r matches Err(e) ==> e is PolicyError || e is TrapdoorError || e is InvalidParameters,
        (exists|i: int| 0 <= i < attributes@.len() && !crate::policy::attribute_name_ok(#[trigger] attributes@[i]@))
            ==> (r matches Err(e) && e is PolicyError),
        r matches Err(e) && e is PolicyError ==> exists|i: int| 0 <= i < attributes@.len()
            && !crate::policy::attribute_name_ok(#[trigger] attributes@[i]@),
        pp.parameter_model.implementation.revocation_tree_depth > MAX_PUNCTURE_DEPTH ==> r is Err,
        r matches Err(e) && e is InvalidParameters ==> pp.parameter_model.implementation.revocation_tree_depth > MAX_PUNCTURE_DEPTH,
{
    let params = pp.params;
    let trapdoor = StrictTrapdoor::new(&params);
    let mut gid_buf: Vec<u8> = vec![0u8; 32];
    crate::rng::fill_bytes(rng, gid_buf.as_mut_slice());
    let mut gid = [0u8; 32];
    let mut g: usize = 0;
    while g < 32
        invariant
            gid_buf@.len() == 32,
            g <= 32,
        decreases 32 - g,
    {
        gid[g] = gid_buf[g];
        g += 1;
    }
    let mut attr_strings: Vec<String> = Vec::with_capacity(attributes.len());
    let mut i: usize = 0;
    while i < attributes.len()
        invariant
            i <= attributes@.len(),
            attr_strings@.len() == i,
            forall|t: int| 0 <= t < i ==> (#[trigger] attr_strings@[t])@ == attributes@[t]@,
            forall|t: int| 0 <= t < i ==> crate::policy::attribute_name_ok(#[trigger] attributes@[t]@),
        decreases attributes@.len() - i,
    {
        match crate::policy::Policy::validate_attribute_name(attributes[i]) {
            Ok(()) => {},
            Err(e) => {
                return Err(e);
            },
        }
        attr_strings.push(attributes[i].to_string());
        i += 1;
    }
    let mut preimages: Vec<PolynomialVector> = Vec::with_capacity(attributes.len());
    let mut j: usize = 0;
    while j < attributes.len()
        invariant
            keygen_inputs_ok(*pp, *msk, *sampler),
            params == pp.params,
            trapdoor.spec_params() == params,
            forall|t: int| 0 <= t < attributes@.len() ==> crate::policy::attribute_name_ok(#[trigger] attributes@[t]@),
            j <= attributes@.len(),
            preimages@.len() == j,
            forall|t: int| 0 <= t < j ==> witness_relation_ok(
                params,
                msk.matrix_a,
                (#[trigger] preimages@[t])@,
                target_vector_spec(attributes@[t].spec_bytes(), gid@, params.k as nat, params.n as nat, params.q),
            ),
        decreases attributes@.len() - j,
    {
        let u_target = crate::utils::hash_to_target_vector_with_gid(attributes[j], &gid, &params);
        proof {
            crate::hashing::lemma_xof_values_range(
                attributes@[j as int].spec_bytes() + gid@,
                params.q,
                (params.k * params.n) as nat,
            );
            crate::utils::lemma_split_rows_range(
                crate::hashing::xof_values(
                    attributes@[j as int].spec_bytes() + gid@,
                    crate::hashing::WordRule::Mask23(params.q),
                    (params.k * params.n) as nat,
                ),
                params.k as int,
                params.n as int,
                params.q as int,
            );
        }
        let s_i = match trapdoor.sample_preimage(&msk.matrix_a, &msk.trapdoor_t, &u_target, sampler, rng) {
            Ok(w) => w,
            Err(e) => {
                return Err(e);
            },
        };
        preimages.push(s_i);
        j += 1;
    }
    let revocation_depth = pp.parameter_model.implementation.revocation_tree_depth;
    if revocation_depth > MAX_PUNCTURE_DEPTH {
        return Err(PabsCrfError::InvalidParameters("revocation_tree_depth exceeds MAX_PUNCTURE_DEPTH".to_string()));
    }
    let tree = PunctureTree::new(revocation_depth);
    Ok(UserSecretKey {
        params,
        parameter_model: pp.parameter_model.clone(),
        trapdoor_mode: msk.trapdoor_mode,
        gid,
        attributes: attr_strings,
        preimages,
        matrix_a: pp.matrix_a.clone(),
        puncture_tree: tree,
        puncture_count: 0,
        witness_schema: "attribute-preimage/v4".to_string(),
    })
}

/// Convenience wrapper for attribute key generation.
pub struct KeyGen;

impl KeyGen {
    /// Create a key generation facade.
    pub fn new() -> Self {
        KeyGen
    }

    /// Generate a structured user key.
    pub fn try_generate_structured(
        &self,
        pp: &PublicParameters,
        msk: &MasterSecretKey,
        attributes: &[&str],
        sampler: &CdtGaussianSampler,
        rng: &mut ThreadRng,
    ) -> (r: PabsCrfResult<UserSecretKey>)
        requires
            keygen_inputs_ok(*pp, *msk, *sampler),
        ensures
            r matches Ok(sk) ==> ({
                let p = pp.params;
                &&& sk.params == p
                &&& crate::parameter_sets::same_model(sk.parameter_model, pp.parameter_model)
                &&& sk.trapdoor_mode == msk.trapdoor_mode
                &&& sk.matrix_a@ == pp.matrix_a@
                &&& sk.attributes@.len() == attributes@.len()
                &&& forall|i: int| 0 <= i < attributes@.len() ==> (#[trigger] sk.attributes@[i])@ == attributes@[i]@
                &&& forall|i: int| 0 <= i < attributes@.len() ==> crate::policy::attribute_name_ok(#[trigger] attributes@[i]@)
                &&& sk.preimages@.len() == attributes@.len()
                &&& forall|i: int| 0 <= i < attributes@.len() ==> witness_relation_ok(
                    p,
                    msk.matrix_a,
                    (#[trigger] sk.preimages@[i])@,
                    target_vector_spec(attributes@[i].spec_bytes(), sk.gid@, p.k as nat, p.n as nat, p.q),
                )
                &&& sk.puncture_tree.max_depth == pp.parameter_model.implementation.revocation_tree_depth
                &&& sk.puncture_tree.punctured_leaves@.is_empty()
                &&& sk.puncture_count == 0
            }),
            r matches Err(e) ==> e is PolicyError || e is TrapdoorError || e is InvalidParameters,
            (exists|i: int| 0 <= i < attributes@.len() && !crate::policy::attribute_name_ok(#[trigger] attributes@[i]@))
                ==> (r matches Err(e) && e is PolicyError),
            r matches Err(e) && e is PolicyError ==> exists|i: int| 0 <= i < attributes@.len()
                && !crate::policy::attribute_name_ok(#[trigger] attributes@[i]@),
            pp.parameter_model.implementation.revocation_tree_depth > MAX_PUNCTURE_DEPTH ==> r is Err,
            r matches Err(e) && e is InvalidParameters ==> pp.parameter_model.implementation.revocation_tree_depth
                > MAX_PUNCTURE_DEPTH,
    {
        keygen_structured(pp, msk, attributes, sampler, rng)
    }
}

} // verus!
