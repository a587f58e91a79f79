//! Canonical byte encoding of the high-bits commitment `w1`, the form that is
//! hashed into the challenge.
use vstd::prelude::*;
use crate::bitpack::{bit_len, bit_length, bytes_for_bits, le_bytes, lemma_bit_len, pack_values, packed_int};
use crate::compression::{flat, shift_ok, shift_seq, shifted_coeffs};
use crate::mlwe::PolynomialVector;
use vstd::arithmetic::power2::pow2;

verus! {

/// Bits per coefficient for values in `[0, m)`: `max(ceil(log2(m)), 1)`.
pub open spec fn w1_bits(m: u32) -> nat {
    if m <= 1 { 1 } else { bit_len((m - 1) as nat) }
}

/// Every coefficient lies in `[0, m)`.
pub open spec fn w1_in_range(w1: Seq<Seq<i32>>, m: u32) -> bool {
    forall|i: int, j: int| 0 <= i < w1.len() && 0 <= j < w1[i].len() ==> 0 <= #[trigger] w1[i][j] < m
}

/// The canonical bytes of `w1`: its coefficients, one polynomial after another,
/// as `w1_bits(m)`-bit values, least significant bits first.
pub open spec fn canonical_w1_bytes(w1: Seq<Seq<i32>>, m: u32) -> Seq<u8> {
    let w = w1_bits(m);
    le_bytes(packed_int(shift_seq(flat(w1), 0), w), bytes_for_bits((w * flat(w1).len()) as int))
}

/// Serialize `w1` (coefficients in `[0, m)`) in its canonical packed form.
pub fn canonical_serialize_w1(w1: &PolynomialVector, m: u32) -> (out: Vec<u8>)
    requires
        w1@.len() > 0,
        w1_in_range(w1@, m),
    ensures
        out@ == canonical_w1_bytes(w1@, m),
{
    let bits: u32 = if m <= 1 { 1 } else { bit_length((m - 1) as u64) };
    proof {
        vstd::arithmetic::power2::lemma2_to64();
        if m > 1 {
            lemma_bit_len((m - 1) as nat, 32);
        }
        assert(shift_ok(w1@, 0)) by {
            assert forall|i: int, j: int| 0 <= i < w1@.len() && 0 <= j < w1@[i].len() implies 0 <= #[trigger] w1@[i][j]
                + 0 <= i32::MAX by {
                assert(0 <= w1@[i][j] < m);
            }
        }
    }
    let vals = shifted_coeffs(w1, 0);
    proof {
        let f = flat(w1@);
        assert forall|t: int| 0 <= t < vals@.len() implies (#[trigger] vals@[t]) < pow2(bits as nat) by {
            crate::compression::lemma_flat_index(w1@, t);
            let (i, j) = choose|i: int, j: int| 0 <= i < w1@.len() && 0 <= j < w1@[i].len() && f[t] == #[trigger] w1@[i][j];
            assert(0 <= w1@[i][j] < m);
        }
    }
    pack_values(&vals, bits)
}

} // verus!
