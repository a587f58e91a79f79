//! Shared algebra helpers used by the structured path.
use vstd::prelude::*;
use crate::errors::{PabsCrfError, PabsCrfResult};
use crate::mlwe::{
    center_i32_seq, coeffs_within, first_entry_len, fits_i32, mat_vec_ok, max_abs, negacyclic_coeff,
    row_dot, valid_q, vec_coeffs_within, MLWEKeyPair, Polynomial, PolynomialMatrix, PolynomialVector,
};
use crate::modarith::center;

pub use crate::mlwe::{
    Polynomial as RingPolynomial, PolynomialMatrix as RingMatrix, PolynomialVector as RingVector,
};

verus! {

/// Which coefficient-wise operation a vector helper applies.
pub open spec fn pairwise_fits(a: Seq<Seq<i32>>, b: Seq<Seq<i32>>, sub: bool) -> bool {
    forall|j: int, i: int| 0 <= j < a.len() && j < b.len() && 0 <= i < a[j].len() && i < b[j].len()
        ==> fits_i32(if sub { a[j][i] - b[j][i] } else { #[trigger] a[j][i] + #[trigger] b[j][i] })
}

/// Length of the coefficient-wise combination of two polynomials.
pub open spec fn min_len(a: Seq<i32>, b: Seq<i32>) -> int {
    if a.len() < b.len() { a.len() as int } else { b.len() as int }
}

/// Result of combining two equal-length vectors coefficient-wise:
/// `sub` selects subtraction, `modular` selects reduction into `[0, q)`.
pub open spec fn combined(a: Seq<Seq<i32>>, b: Seq<Seq<i32>>, r: Seq<Seq<i32>>, q: int, sub: bool, modular: bool) -> bool {
    &&& r.len() == a.len()
    &&& forall|j: int| 0 <= j < r.len() ==> (#[trigger] r[j]).len() == min_len(a[j], b[j])
    &&& forall|j: int, i: int| 0 <= j < r.len() && 0 <= i < r[j].len() ==> {
        let x = if sub { a[j][i] - b[j][i] } else { a[j][i] + b[j][i] };
        #[trigger] r[j][i] == if modular { x % q } else { x }
    }
}

fn combine(lhs: &PolynomialVector, rhs: &PolynomialVector, q: u32, sub: bool, modular: bool) -> (r: PolynomialVector)
    requires
        lhs@.len() == rhs@.len(),
        modular ==> valid_q(q),
        pairwise_fits(lhs@, rhs@, sub),
    ensures
        combined(lhs@, rhs@, r@, q as int, sub, modular),
        modular ==> vec_coeffs_within(r@, 0, q - 1),
{
    let mut elements: Vec<Polynomial> = Vec::with_capacity(lhs.elements.len());
    let mut j: usize = 0;
    while j < lhs.elements.len()
        invariant
            lhs@.len() == rhs@.len(),
            modular ==> valid_q(q),
            pairwise_fits(lhs@, rhs@, sub),
            j <= lhs@.len(),
            elements@.len() == j,
            forall|t: int| 0 <= t < j ==> (#[trigger] elements@[t])@.len() == min_len(lhs@[t], rhs@[t]),
            forall|t: int, i: int| 0 <= t < j && 0 <= i < elements@[t]@.len() ==> {
                let x = if sub { lhs@[t][i] - rhs@[t][i] } else { lhs@[t][i] + rhs@[t][i] };
                #[trigger] elements@[t]@[i] == if modular { x % (q as int) } else { x }
            },
            modular ==> forall|t: int| 0 <= t < j ==> coeffs_within((#[trigger] elements@[t])@, 0, q - 1),
        decreases lhs@.len() - j,
    {
        let l = &lhs.elements[j];
        let r = &rhs.elements[j];
        assert(l@ == lhs@[j as int] && r@ == rhs@[j as int]);
        proof {
            assert forall|i: int| 0 <= i < l@.len() && i < r@.len() implies
                fits_i32(if sub { l@[i] - r@[i] } else { #[trigger] l@[i] + #[trigger] r@[i] }) by {
                assert(lhs@[j as int][i] == l@[i] && rhs@[j as int][i] == r@[i]);
            }
        }
        let p = if sub {
            if modular { l.sub(r, q) } else { l.sub_integer(r) }
        } else {
            if modular { l.add(r, q) } else { l.add_integer(r) }
        };
        elements.push(p);
        j += 1;
    }
    let r = PolynomialVector { elements };
    assert forall|t: int| 0 <= t < r@.len() implies (#[trigger] r@[t]) == r.elements@[t]@ by {}
    r
}

fn dimension_error() -> (e: PabsCrfError)
    ensures
        e is InvalidInput,
{
    PabsCrfError::InvalidInput("Vector dimension mismatch".to_string())
}

/// Subtract two polynomial vectors coefficient-wise modulo `q`.
pub fn vector_sub(lhs: &PolynomialVector, rhs: &PolynomialVector, q: u32) -> (r: PabsCrfResult<PolynomialVector>)
    requires
        valid_q(q),
        pairwise_fits(lhs@, rhs@, true),
    ensures
        r is Err <==> lhs@.len() != rhs@.len(),
        r matches Err(e) ==> e is InvalidInput,
        r matches Ok(v) ==> combined(lhs@, rhs@, v@, q as int, true, true) && vec_coeffs_within(v@, 0, q - 1),
{
    if lhs.elements.len() != rhs.elements.len() {
        return Err(dimension_error());
    }
    Ok(combine(lhs, rhs, q, true, true))
}

/// Add two polynomial vectors coefficient-wise modulo `q`.
pub fn vector_add(lhs: &PolynomialVector, rhs: &PolynomialVector, q: u32) -> (r: PabsCrfResult<PolynomialVector>)
    requires
        valid_q(q),
        pairwise_fits(lhs@, rhs@, false),
    ensures
        r is Err <==> lhs@.len() != rhs@.len(),
        r matches Err(e) ==> e is InvalidInput,
        r matches Ok(v) ==> combined(lhs@, rhs@, v@, q as int, false, true) && vec_coeffs_within(v@, 0, q - 1),
{
    if lhs.elements.len() != rhs.elements.len() {
        return Err(dimension_error());
    }
    Ok(combine(lhs, rhs, q, false, true))
}

/// Add two polynomial vectors in the integer domain (no reduction mod `q`).
pub fn vector_add_integer(lhs: &PolynomialVector, rhs: &PolynomialVector) -> (r: PabsCrfResult<PolynomialVector>)
    requires
        pairwise_fits(lhs@, rhs@, false),
    ensures
        r is Err <==> lhs@.len() != rhs@.len(),
        r matches Err(e) ==> e is InvalidInput,
        r matches Ok(v) ==> combined(lhs@, rhs@, v@, 0, false, false),
{
    if lhs.elements.len() != rhs.elements.len() {
        return Err(dimension_error());
    }
    Ok(combine(lhs, rhs, 1, false, false))
}

/// Subtract two polynomial vectors in the integer domain (no reduction mod `q`).
pub fn vector_sub_integer(lhs: &PolynomialVector, rhs: &PolynomialVector) -> (r: PabsCrfResult<PolynomialVector>)
    requires
        pairwise_fits(lhs@, rhs@, true),
    ensures
        r is Err <==> lhs@.len() != rhs@.len(),
        r matches Err(e) ==> e is InvalidInput,
        r matches Ok(v) ==> combined(lhs@, rhs@, v@, 0, true, false),
{
    if lhs.elements.len() != rhs.elements.len() {
        return Err(dimension_error());
    }
    Ok(combine(lhs, rhs, 1, true, false))
}

/// Multiply a matrix by a vector modulo `q`.
pub fn matrix_vector_mul(a: &PolynomialMatrix, v: &PolynomialVector, q: u32) -> (r: PolynomialVector)
    requires
        valid_q(q),
        mat_vec_ok(*a, v@, first_entry_len(a@)),
    ensures
        r@.len() == a.rows,
        forall|i: int| 0 <= i < a.rows ==> (#[trigger] r@[i]).len() == first_entry_len(a@),
        forall|i: int, k: int| 0 <= i < a.rows && 0 <= k < first_entry_len(a@) ==> #[trigger] r@[i][k]
            == row_dot(a@[i], v@, k, a.cols as int) % (q as int),
        vec_coeffs_within(r@, 0, q - 1),
{
    MLWEKeyPair::matrix_vector_mul(a, v, q)
}

/// Compute `A * z - c * t` modulo `q`.
pub fn matrix_vector_mul_sub_poly_mul_ntt(
    a: &PolynomialMatrix,
    z: &PolynomialVector,
    t: &PolynomialVector,
    c: &Polynomial,
    q: u32,
) -> (r: PolynomialVector)
    requires
        valid_q(q),
        mat_vec_ok(*a, z@, first_entry_len(a@)),
        t@.len() >= a.rows,
        forall|i: int| 0 <= i < a.rows ==> (#[trigger] t@[i]).len() == first_entry_len(a@),
        c@.len() == first_entry_len(a@),
    ensures
        r@.len() == a.rows,
        forall|i: int| 0 <= i < a.rows ==> (#[trigger] r@[i]).len() == first_entry_len(a@),
        forall|i: int, k: int| 0 <= i < a.rows && 0 <= k < first_entry_len(a@) ==> #[trigger] r@[i][k]
            == (row_dot(a@[i], z@, k, a.cols as int) - negacyclic_coeff(t@[i], c@, k)) % (q as int),
        vec_coeffs_within(r@, 0, q - 1),
{
    MLWEKeyPair::matrix_vector_mul_sub_poly_mul_ntt(a, z, t, c, q)
}

/// Every coefficient, centered into `(-q/2, q/2]`, is strictly below `bound` in absolute value.
pub open spec fn within_infinity_bound(v: Seq<Seq<i32>>, q: int, bound: int) -> bool {
    forall|j: int| 0 <= j < v.len() ==> max_abs(center_i32_seq(#[trigger] v[j], q)) < bound
}

/// Check that all centered coefficients stay strictly within an infinity bound.
pub fn vector_within_infinity_bound(v: &PolynomialVector, q: u32, bound: i64) -> (ok: bool)
    requires
        q >= 1,
    ensures
        ok == within_infinity_bound(v@, q as int, bound as int),
{
    let mut j: usize = 0;
    while j < v.elements.len()
        invariant
            q >= 1,
            j <= v@.len(),
            forall|t: int| 0 <= t < j ==> max_abs(center_i32_seq(#[trigger] v@[t], q as int)) < bound,
        decreases v@.len() - j,
    {
        let centered = v.elements[j].center_coefficients(q);
        assert(centered@ =~= center_i32_seq(v@[j as int], q as int)) by {
            assert(v@[j as int] == v.elements@[j as int]@);
            assert forall|i: int| 0 <= i < centered@.len() implies centered@[i] == center_i32_seq(v@[j as int], q as int)[i] by {
                crate::modarith::lemma_center(v@[j as int][i] as int, q as int);
            }
        }
        if centered.infinity_norm_integer() >= bound {
            return false;
        }
        j += 1;
    }
    true
}

} // verus!
