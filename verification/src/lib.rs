//! PABS-CRF: lattice-based predicate attribute-based signatures with a
//! cryptographic reverse firewall, built on Module-LWE.
use vstd::prelude::*;

pub mod algebra;
pub mod authorization;
pub mod bitpack;
pub mod canonical;
pub mod codec;
pub mod compression;
pub mod errors;
pub mod firewall;
pub mod gauss;
pub mod gaussian;
pub mod hardware_root;
pub mod hashing;
pub mod keygen;
pub mod lsss;
pub mod mlwe;
pub mod mlwe_sig;
pub mod modarith;
pub mod pabs;
pub mod parameter_sets;
pub mod policy;
pub mod puncture_tree;
pub mod serialization;
pub mod setup;
pub mod sign;
pub mod text;
pub mod trapdoor;
pub mod utils;
pub mod verify;
pub mod rng;
pub mod samplers;

pub use errors::{PabsCrfError, PabsCrfResult};

verus! {
} // verus!
