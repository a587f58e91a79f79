//! The formal parameter model: protocol, implementation and analysis settings per security level.
use vstd::prelude::*;
use crate::mlwe::{MLWEParameters, param_set};

verus! {

/// Default signer-local revocation tree depth used by the benchmark configuration.
pub const DEFAULT_REVOCATION_TREE_DEPTH: usize = 31;

/// Bits of the `f64` Gaussian width 360 used by the strict profile.
pub const SIGMA_360_BITS: u64 = 0x4076_8000_0000_0000;

/// Security target label used by the formal protocol path.
#[derive(Debug, Clone, Copy, PartialEq, Eq)]
pub enum SecurityTarget {
    /// Nominal 128-bit target.
    Bits128,
    /// Nominal 192-bit target.
    Bits192,
    /// Nominal 256-bit target.
    Bits256,
}

/// The target for a setup level: 256 and 192 select themselves, anything else 128.
pub open spec fn target_of_level(level: u32) -> SecurityTarget {
    if level == 256 {
        SecurityTarget::Bits256
    } else if level == 192 {
        SecurityTarget::Bits192
    } else {
        SecurityTarget::Bits128
    }
}

/// The nominal security level, in bits, of a target.
pub open spec fn nominal_bits(t: SecurityTarget) -> u32 {
    match t {
        SecurityTarget::Bits128 => 128,
        SecurityTarget::Bits192 => 192,
        SecurityTarget::Bits256 => 256,
    }
}

/// A setup level selects the target of that many bits: asking for the level
/// of any target gives that target back, and a level that names no target
/// falls back to the 128-bit one.
pub proof fn lemma_level_selects_target(level: u32, t: SecurityTarget)
    ensures
        target_of_level(nominal_bits(t)) == t,
        nominal_bits(target_of_level(level)) == level || (target_of_level(level) == SecurityTarget::Bits128
            && level != 192 && level != 256),
{
}

/// The MLWE parameter set of a target.
pub open spec fn mlwe_of_target(t: SecurityTarget) -> MLWEParameters {
    match t {
        SecurityTarget::Bits256 => param_set(8, 6, 60, 95232),
        SecurityTarget::Bits192 => param_set(6, 5, 49, 95232),
        SecurityTarget::Bits128 => param_set(4, 4, 39, 95232),
    }
}

/// The stable identifier of a target.
pub open spec fn target_label(t: SecurityTarget) -> Seq<char> {
    match t {
        SecurityTarget::Bits128 => "top-tier-128"@,
        SecurityTarget::Bits192 => "top-tier-192"@,
        SecurityTarget::Bits256 => "top-tier-256"@,
    }
}

impl SecurityTarget {
    /// Parse a security target from the public setup level.
    pub fn from_level(level: u32) -> (t: Self)
        ensures
            t == target_of_level(level),
    {
        if level == 256 {
            SecurityTarget::Bits256
        } else if level == 192 {
            SecurityTarget::Bits192
        } else {
            SecurityTarget::Bits128
        }
    }

    /// Stable identifier used in serialized artifacts.
    pub fn as_str(&self) -> (s: &'static str)
        ensures
            s@ == target_label(*self),
    {
        match self {
            SecurityTarget::Bits128 => "top-tier-128",
            SecurityTarget::Bits192 => "top-tier-192",
            SecurityTarget::Bits256 => "top-tier-256",
        }
    }
}

/// Protocol-facing parameter set shared by setup, signing, verification and compression.
#[derive(Debug, PartialEq)]
pub struct ProtocolParameterSet {
    /// Security label.
    pub security_target: SecurityTarget,
    /// Underlying MLWE parameter set reused by the implementation.
    pub mlwe: MLWEParameters,
    /// Version string for structured transport formats.
    pub transport_version: String,
    /// Domain separation label for transcript hashing.
    pub firewall_domain_separator: String,
}

/// Implementation knobs that do not change the protocol semantics.
#[derive(Debug, Clone, Copy, PartialEq)]
pub struct ImplementationParameterSet {
    /// Maximum number of firewall rejection retries.
    pub firewall_max_attempts: usize,
    /// Whether verification should assert matrix/vector dimension matches.
    pub enforce_dimension_checks: bool,
    /// Depth of the signer-local revocation tree.
    pub revocation_tree_depth: usize,
}

/// Analysis-facing knobs and identifiers used by tests and evaluation scripts.
#[derive(Debug, PartialEq)]
pub struct AnalysisParameterSet {
    /// Label emitted in reports.
    pub report_label: String,
    /// Whether tests should record witness norm distributions.
    pub collect_witness_norm_stats: bool,
}

/// Aggregated formal parameter model used by the v4 structured path.
#[derive(Debug, PartialEq)]
pub struct TopTierParameterModel {
    /// Protocol semantics.
    pub protocol: ProtocolParameterSet,
    /// Implementation-only settings.
    pub implementation: ImplementationParameterSet,
    /// Analysis-only settings.
    pub analysis: AnalysisParameterSet,
}

/// Two models with the same settings (strings compared by their characters).
pub open spec fn same_model(a: TopTierParameterModel, b: TopTierParameterModel) -> bool {
    &&& a.protocol.security_target == b.protocol.security_target
    &&& a.protocol.mlwe == b.protocol.mlwe
    &&& a.protocol.transport_version@ == b.protocol.transport_version@
    &&& a.protocol.firewall_domain_separator@ == b.protocol.firewall_domain_separator@
    &&& a.implementation == b.implementation
    &&& a.analysis.report_label@ == b.analysis.report_label@
    &&& a.analysis.collect_witness_norm_stats == b.analysis.collect_witness_norm_stats
}

impl Clone for ProtocolParameterSet {
    fn clone(&self) -> (r: Self)
        ensures
            r.security_target == self.security_target,
            r.mlwe == self.mlwe,
            r.transport_version@ == self.transport_version@,
            r.firewall_domain_separator@ == self.firewall_domain_separator@,
    {
        ProtocolParameterSet {
            security_target: self.security_target,
            mlwe: self.mlwe,
            transport_version: self.transport_version.clone(),
            firewall_domain_separator: self.firewall_domain_separator.clone(),
        }
    }
}

impl Clone for AnalysisParameterSet {
    fn clone(&self) -> (r: Self)
        ensures
            r.report_label@ == self.report_label@,
            r.collect_witness_norm_stats == self.collect_witness_norm_stats,
    {
        AnalysisParameterSet {
            report_label: self.report_label.clone(),
            collect_witness_norm_stats: self.collect_witness_norm_stats,
        }
    }
}

impl Clone for TopTierParameterModel {
    fn clone(&self) -> (r: Self)
        ensures
            same_model(r, *self),
    {
        TopTierParameterModel {
            protocol: self.protocol.clone(),
            implementation: self.implementation,
            analysis: self.analysis.clone(),
        }
    }
}

/// The model of a level for the Gaussian width whose bits are given (the
/// report label is passed in, as it prints the width).
pub open spec fn model_ok(m: TopTierParameterModel, level: u32, sigma_bits: u64) -> bool {
    let t = target_of_level(level);
    &&& m.protocol.security_target == t
    &&& m.protocol.mlwe == (MLWEParameters { sigma_bits, ..mlwe_of_target(t) })
    &&& m.protocol.transport_version@ == "firewall-signature/v4"@
    &&& m.protocol.firewall_domain_separator@ == "PABS-CRF::Firewall::v4"@
    &&& m.implementation.firewall_max_attempts == 128
    &&& m.implementation.enforce_dimension_checks
    &&& m.implementation.revocation_tree_depth == DEFAULT_REVOCATION_TREE_DEPTH
    &&& m.analysis.collect_witness_norm_stats
}

impl TopTierParameterModel {
    /// The model for a level with a given Gaussian width (as `f64` bits) and report label.
    pub fn for_level_with_width(level: u32, sigma_bits: u64, report_label: String) -> (m: Self)
        ensures
            model_ok(m, level, sigma_bits),
            m.analysis.report_label == report_label,
    {
        let security_target = SecurityTarget::from_level(level);
        let base = match security_target {
            SecurityTarget::Bits256 => MLWEParameters::new_256(),
            SecurityTarget::Bits192 => MLWEParameters::new_192(),
            SecurityTarget::Bits128 => MLWEParameters::new_128(),
        };
        let mut mlwe = base;
        mlwe.sigma_bits = sigma_bits;
        TopTierParameterModel {
            protocol: ProtocolParameterSet {
                security_target,
                mlwe,
                transport_version: "firewall-signature/v4".to_string(),
                firewall_domain_separator: "PABS-CRF::Firewall::v4".to_string(),
            },
            implementation: ImplementationParameterSet {
                firewall_max_attempts: 128,
                enforce_dimension_checks: true,
                revocation_tree_depth: DEFAULT_REVOCATION_TREE_DEPTH,
            },
            analysis: AnalysisParameterSet { report_label, collect_witness_norm_stats: true },
        }
    }

    /// The formal parameter model for a requested setup level (Gaussian width 100).
    pub fn for_security_level(level: u32) -> (m: Self)
        ensures
            model_ok(m, level, crate::mlwe::SIGMA_100_BITS),
    {
        let label = if level == 256 {
            "pabs-crf-top-tier-256-sigma-100.0"
        } else if level == 192 {
            "pabs-crf-top-tier-192-sigma-100.0"
        } else {
            "pabs-crf-top-tier-128-sigma-100.0"
        };
        Self::for_level_with_width(level, crate::mlwe::SIGMA_100_BITS, label.to_string())
    }

    /// The strict profile: Gaussian width 360 (`gamma1` is already capped at `q/2 - 1`).
    pub fn for_security_level_strict(level: u32) -> (m: Self)
        ensures
            model_ok(m, level, SIGMA_360_BITS),
    {
        let label = if level == 256 {
            "pabs-crf-top-tier-256-sigma-360.0"
        } else if level == 192 {
            "pabs-crf-top-tier-192-sigma-360.0"
        } else {
            "pabs-crf-top-tier-128-sigma-360.0"
        };
        Self::for_level_with_width(level, SIGMA_360_BITS, label.to_string())
    }
}

} // verus!
