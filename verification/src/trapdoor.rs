//! Gadget-based lattice trapdoor.
//!
//! The public matrix is `A = [A' | G - A'R]` with a small secret `R` and the
//! gadget matrix `G = I_k ⊗ (1, b, b^2, ...)`. A preimage of `u` under `A` is
//! `e = [R e2 + e1' | e2]` with `e2 = G^-1(u - A' e1')` for a short noise `e1'`.
use vstd::prelude::*;
use rand::rngs::ThreadRng;
use vstd::arithmetic::power::pow;
use crate::errors::{PabsCrfError, PabsCrfResult};
use crate::gaussian::CdtGaussianSampler;
use crate::mlwe::{
    MLWEKeyPair, MLWEParameters, Polynomial, PolynomialMatrix, PolynomialVector, coeffs_within, fits_i32,
    mat_shape, negacyclic_coeff, valid_q, vec_coeffs_within, vec_uniform,
};
use crate::modarith::trem;

verus! {

// ---------------------------------------------------------------------------
// Matrix algebra over R_q
// ---------------------------------------------------------------------------

/// `sum_{t < upto} row[t] * b[t][j]`, coefficient `k`, over the integers.
pub open spec fn col_dot(row: Seq<Seq<i32>>, b: Seq<Seq<Seq<i32>>>, j: int, k: int, upto: int) -> int
    decreases upto,
{
    if upto <= 0 {
        0
    } else {
        col_dot(row, b, j, k, upto - 1) + negacyclic_coeff(row[upto - 1], b[upto - 1][j], k)
    }
}

/// The product `a b mod q` of a `rows x inner` and an `inner x cols` matrix.
pub open spec fn mat_mul_spec(
    a: Seq<Seq<Seq<i32>>>,
    b: Seq<Seq<Seq<i32>>>,
    rows: int,
    inner: int,
    cols: int,
    n: int,
    q: int,
) -> Seq<Seq<Seq<i32>>> {
    Seq::new(
        rows as nat,
        |i: int| Seq::new(cols as nat, |j: int| Seq::new(n as nat, |k: int| (col_dot(a[i], b, j, k, inner) % q) as i32)),
    )
}

proof fn lemma_mod_add_step(r: int, s: int, t: int, q: int)
    requires
        q > 0,
        r == s % q,
    ensures
        (r + t % q) % q == (s + t) % q,
{
    vstd::arithmetic::div_mod::lemma_add_mod_noop(s, t, q);
    vstd::arithmetic::div_mod::lemma_mod_twice(s, q);
    vstd::arithmetic::div_mod::lemma_add_mod_noop(s % q, t, q);
}

/// The matrix product `a b mod q`.
fn matrix_mul(a: &PolynomialMatrix, b: &PolynomialMatrix, n: usize, q: u32) -> (r: PolynomialMatrix)
    requires
        valid_q(q),
        mat_shape(a@, a.rows as int, a.cols as int, n as int),
        mat_shape(b@, a.cols as int, b.cols as int, n as int),
    ensures
        r.rows == a.rows,
        r.cols == b.cols,
        r@ == mat_mul_spec(a@, b@, a.rows as int, a.cols as int, b.cols as int, n as int, q as int),
        mat_shape(r@, a.rows as int, b.cols as int, n as int),
        forall|i: int, j: int| 0 <= i < a.rows && 0 <= j < b.cols ==> coeffs_within(#[trigger] r@[i][j], 0, q - 1),
{
    let ghost spec = mat_mul_spec(a@, b@, a.rows as int, a.cols as int, b.cols as int, n as int, q as int);
    let mut elements: Vec<Vec<Polynomial>> = Vec::with_capacity(a.rows);
    let mut i: usize = 0;
    while i < a.rows
        invariant
            valid_q(q),
            mat_shape(a@, a.rows as int, a.cols as int, n as int),
            mat_shape(b@, a.cols as int, b.cols as int, n as int),
            spec == mat_mul_spec(a@, b@, a.rows as int, a.cols as int, b.cols as int, n as int, q as int),
            i <= a.rows,
            elements@.len() == i,
            forall|r: int| 0 <= r < i ==> (#[trigger] elements@[r])@.map_values(|p: Polynomial| p@) == spec[r],
            forall|r: int, c: int| 0 <= r < i && 0 <= c < b.cols ==> coeffs_within((#[trigger] elements@[r]@[c])@, 0, q - 1),
        decreases a.rows - i,
    {
        let mut row: Vec<Polynomial> = Vec::with_capacity(b.cols);
        let mut j: usize = 0;
        while j < b.cols
            invariant
                valid_q(q),
                mat_shape(a@, a.rows as int, a.cols as int, n as int),
                mat_shape(b@, a.cols as int, b.cols as int, n as int),
                spec == mat_mul_spec(a@, b@, a.rows as int, a.cols as int, b.cols as int, n as int, q as int),
                i < a.rows,
                j <= b.cols,
                row@.len() == j,
                forall|c: int| 0 <= c < j ==> (#[trigger] row@[c])@ == spec[i as int][c],
                forall|c: int| 0 <= c < j ==> coeffs_within((#[trigger] row@[c])@, 0, q - 1),
            decreases b.cols - j,
        {
            let mut sum = Polynomial::new(n);
            proof {
                assert forall|k: int| 0 <= k < n implies #[trigger] sum@[k] == col_dot(a@[i as int], b@, j as int, k, 0) % (q as int) by {
                    vstd::arithmetic::div_mod::lemma_small_mod(0, q as nat);
                }
            }
            let mut t: usize = 0;
            while t < a.cols
                invariant
                    valid_q(q),
                    mat_shape(a@, a.rows as int, a.cols as int, n as int),
                    mat_shape(b@, a.cols as int, b.cols as int, n as int),
                    i < a.rows,
                    j < b.cols,
                    t <= a.cols,
                    sum@.len() == n,
                    forall|k: int| 0 <= k < n ==> #[trigger] sum@[k] == col_dot(a@[i as int], b@, j as int, k, t as int) % (q as int),
                    coeffs_within(sum@, 0, q - 1),
                decreases a.cols - t,
            {
                assert(a.elements@[i as int]@[t as int]@ == a@[i as int][t as int]);
                assert(b.elements@[t as int]@[j as int]@ == b@[t as int][j as int]);
                let prod = a.elements[i][t].mul(&b.elements[t][j], q);
                proof {
                    assert forall|k: int| 0 <= k < n implies #[trigger] ((sum@[k] + prod@[k]) % (q as int))
                        == col_dot(a@[i as int], b@, j as int, k, t + 1) % (q as int) by {
                        lemma_mod_add_step(sum@[k] as int, col_dot(a@[i as int], b@, j as int, k, t as int),
                            negacyclic_coeff(a@[i as int][t as int], b@[t as int][j as int], k), q as int);
                    }
                }
                sum = sum.add(&prod, q);
                t += 1;
            }
            assert(sum@ =~= spec[i as int][j as int]);
            row.push(sum);
            j += 1;
        }
        assert(row@.map_values(|p: Polynomial| p@) =~= spec[i as int]);
        elements.push(row);
        i += 1;
    }
    let r = PolynomialMatrix { rows: a.rows, cols: b.cols, elements };
    assert(r@ =~= spec);
    proof {
        assert forall|x: int, y: int| 0 <= x < a.rows && 0 <= y < b.cols implies coeffs_within(#[trigger] r@[x][y], 0, q - 1) by {
            assert(r@[x][y] == r.elements@[x]@[y]@);
        }
    }
    r
}

// ---------------------------------------------------------------------------
// Gadget matrix and decomposition
// ---------------------------------------------------------------------------

/// Entry `(i, c)` of the gadget matrix `G` (`k x k ell`): the constant
/// `base^(c - i ell) mod q` when `c` lies in block `i`, else zero.
pub open spec fn gadget_entry(i: int, c: int, ell: int, base: int, q: int, n: int) -> Seq<i32> {
    Seq::new(
        n as nat,
        |l: int| if l == 0 && i * ell <= c < i * ell + ell { (pow(base, (c - i * ell) as nat) % q) as i32 } else { 0i32 },
    )
}

/// Parameters under which the gadget matrix can be built: `b^(ell - 1)` fits a `u64`.
pub open spec fn gadget_ok(params: MLWEParameters) -> bool {
    &&& valid_q(params.q)
    &&& params.n >= 1
    &&& params.ell >= 1
    &&& params.base >= 1
    &&& pow(params.base as int, (params.ell - 1) as nat) <= u64::MAX
}

proof fn lemma_pow_step(b: int, j: nat)
    requires
        b >= 1,
    ensures
        pow(b, j + 1) == pow(b, j) * b,
        pow(b, j) >= 1,
        pow(b, j) <= pow(b, j + 1),
{
    vstd::arithmetic::power::lemma_pow_adds(b, j, 1);
    vstd::arithmetic::power::lemma_pow1(b);
    vstd::arithmetic::power::lemma_pow_positive(b, j);
    assert(pow(b, j) <= pow(b, j) * b) by (nonlinear_arith)
        requires pow(b, j) >= 1, b >= 1;
}

proof fn lemma_pow_mono(b: int, i: nat, j: nat)
    requires
        b >= 1,
        i <= j,
    ensures
        pow(b, i) <= pow(b, j),
    decreases j - i,
{
    if i < j {
        lemma_pow_mono(b, i, (j - 1) as nat);
        lemma_pow_step(b, (j - 1) as nat);
    }
}

/// The gadget matrix `G`.
fn gadget_matrix(k: usize, ell: usize, n: usize, base: u32, q: u32) -> (g: PolynomialMatrix)
    requires
        valid_q(q),
        n >= 1,
        ell >= 1,
        base >= 1,
        k * ell <= usize::MAX,
        pow(base as int, (ell - 1) as nat) <= u64::MAX,
    ensures
        g.rows == k,
        g.cols == k * ell,
        mat_shape(g@, k as int, (k * ell) as int, n as int),
        forall|i: int, c: int| 0 <= i < k && 0 <= c < k * ell ==> #[trigger] g@[i][c] == gadget_entry(
            i,
            c,
            ell as int,
            base as int,
            q as int,
            n as int,
        ),
{
    let cols = k * ell;
    let mut elements: Vec<Vec<Polynomial>> = Vec::with_capacity(k);
    let mut i: usize = 0;
    while i < k
        invariant
            valid_q(q),
            n >= 1,
            ell >= 1,
            base >= 1,
            cols == k * ell,
            pow(base as int, (ell - 1) as nat) <= u64::MAX,
            i <= k,
            elements@.len() == i,
            forall|r: int| 0 <= r < i ==> (#[trigger] elements@[r])@.len() == cols,
            forall|r: int, c: int| 0 <= r < i && 0 <= c < cols ==> (#[trigger] elements@[r]@[c])@ == gadget_entry(
                r,
                c,
                ell as int,
                base as int,
                q as int,
                n as int,
            ),
        decreases k - i,
    {
        assert(i * ell + ell <= cols) by (nonlinear_arith)
            requires i < k, cols == k * ell;
        let mut row: Vec<Polynomial> = Vec::with_capacity(cols);
        let mut c: usize = 0;
        let mut p: u64 = 1;
        proof {
            vstd::arithmetic::power::lemma_pow0(base as int);
        }
        while c < cols
            invariant
                valid_q(q),
                n >= 1,
                ell >= 1,
                base >= 1,
                cols == k * ell,
                i < k,
                i * ell + ell <= cols,
                pow(base as int, (ell - 1) as nat) <= u64::MAX,
                c <= cols,
                row@.len() == c,
                c <= i * ell ==> p == 1,
                i * ell <= c < i * ell + ell ==> p == pow(base as int, (c - i * ell) as nat),
                forall|t: int| 0 <= t < c ==> (#[trigger] row@[t])@ == gadget_entry(
                    i as int,
                    t,
                    ell as int,
                    base as int,
                    q as int,
                    n as int,
                ),
            decreases cols - c,
        {
            let mut coeffs: Vec<i32> = Vec::with_capacity(n);
            let mut l: usize = 0;
            while l < n
                invariant
                    l <= n,
                    coeffs@.len() == l,
                    forall|t: int| 0 <= t < l ==> #[trigger] coeffs@[t] == 0,
                decreases n - l,
            {
                coeffs.push(0);
                l += 1;
            }
            let in_block = i * ell <= c && c < i * ell + ell;
            if in_block {
                let v = (p % q as u64) as i32;
                coeffs.set(0, v);
            }
            let poly = Polynomial { coeffs };
            assert(poly@ =~= gadget_entry(i as int, c as int, ell as int, base as int, q as int, n as int));
            row.push(poly);
            if in_block && c + 1 < i * ell + ell {
                proof {
                    lemma_pow_step(base as int, (c - i * ell) as nat);
                    lemma_pow_mono(base as int, (c + 1 - i * ell) as nat, (ell - 1) as nat);
                }
                p = p * base as u64;
            }
            c += 1;
            proof {
                if c == i * ell {
                    vstd::arithmetic::power::lemma_pow0(base as int);
                }
            }
        }
        elements.push(row);
        i += 1;
    }
    let g = PolynomialMatrix { rows: k, cols, elements };
    proof {
        assert forall|r: int, c: int| 0 <= r < k && 0 <= c < cols implies #[trigger] g@[r][c] == gadget_entry(
            r,
            c,
            ell as int,
            base as int,
            q as int,
            n as int,
        ) by {
            assert(g@[r][c] == g.elements@[r]@[c]@);
        }
    }
    g
}

// ---------------------------------------------------------------------------
// Trapdoor generation
// ---------------------------------------------------------------------------

/// MLWE trapdoor: the parameters, and after generation the trapdoor `R`
/// (`(k - 1) x k ell`) and the public matrix `A` (`k x m`).
pub struct MLWETrapdoor {
    /// MLWE parameter set used by trapdoor generation and preimage sampling.
    pub params: MLWEParameters,
    /// Trapdoor matrix R
    pub trapdoor_r: Option<PolynomialMatrix>,
    /// Public matrix A
    pub public_matrix: Option<PolynomialMatrix>,
}

/// What trapdoor generation publishes: the matrix `A`, the trapdoor `T = R`
/// and the parameters they were made for.
pub struct TrapdoorMaterial {
    /// Public matrix `A = [A' | G - A'R]`.
    pub matrix_a: PolynomialMatrix,
    /// Trapdoor `R`.
    pub trapdoor_t: PolynomialMatrix,
    /// Parameters of the construction.
    pub params: MLWEParameters,
}

/// Parameters for which the trapdoor can be built: `k >= 2`, and `m` has room
/// for the `k - 1` columns of `A'` and the `k ell` gadget columns.
pub open spec fn trapdoor_params_ok(params: MLWEParameters) -> bool {
    &&& gadget_ok(params)
    &&& params.k >= 2
    &&& (params.k - 1) + params.k * params.ell <= params.m
}

/// Two matrices with the same dimensions and entries.
pub open spec fn same_matrix(a: PolynomialMatrix, b: PolynomialMatrix) -> bool {
    a@ == b@ && a.rows == b.rows && a.cols == b.cols
}

/// The zero polynomial of `n` coefficients.
pub open spec fn zeros(n: int) -> Seq<i32> {
    Seq::new(n as nat, |l: int| 0i32)
}

/// `A = [A' | G - A'R]` padded with zero columns up to `m`, every coefficient
/// of the right block reduced into `[0, q)`.
pub open spec fn full_matrix_spec(a_prime: Seq<Seq<Seq<i32>>>, r: Seq<Seq<Seq<i32>>>, params: MLWEParameters) -> Seq<
    Seq<Seq<i32>>,
> {
    let k = params.k as int;
    let ell = params.ell as int;
    let n = params.n as int;
    let q = params.q as int;
    let ar = mat_mul_spec(a_prime, r, k, k - 1, k * ell, n, q);
    Seq::new(
        k as nat,
        |i: int| Seq::new(
            params.m as nat,
            |j: int| if j < k - 1 {
                a_prime[i][j]
            } else if j < k - 1 + k * ell {
                Seq::new(
                    n as nat,
                    |l: int| ((gadget_entry(i, j - (k - 1), ell, params.base as int, q, n)[l] - ar[i][j - (k - 1)][l]) % q) as i32,
                )
            } else {
                zeros(n)
            },
        ),
    )
}

/// A `rows x cols` matrix with coefficients drawn from CBD(1): the difference of two random bits.
fn sample_trapdoor_matrix(rows: usize, cols: usize, n: usize, rng: &mut ThreadRng) -> (r: PolynomialMatrix)
    ensures
        r.rows == rows,
        r.cols == cols,
        mat_shape(r@, rows as int, cols as int, n as int),
        forall|i: int, j: int| 0 <= i < rows && 0 <= j < cols ==> coeffs_within(#[trigger] r@[i][j], -1, 1),
{
    let mut elements: Vec<Vec<Polynomial>> = Vec::with_capacity(rows);
    let mut i: usize = 0;
    while i < rows
        invariant
            i <= rows,
            elements@.len() == i,
            forall|a: int| 0 <= a < i ==> (#[trigger] elements@[a])@.len() == cols,
            forall|a: int, b: int| 0 <= a < i && 0 <= b < cols ==> (#[trigger] elements@[a]@[b])@.len() == n,
            forall|a: int, b: int| 0 <= a < i && 0 <= b < cols ==> coeffs_within((#[trigger] elements@[a]@[b])@, -1, 1),
        decreases rows - i,
    {
        let mut row: Vec<Polynomial> = Vec::with_capacity(cols);
        let mut j: usize = 0;
        while j < cols
            invariant
                j <= cols,
                row@.len() == j,
                forall|b: int| 0 <= b < j ==> (#[trigger] row@[b])@.len() == n,
                forall|b: int| 0 <= b < j ==> coeffs_within((#[trigger] row@[b])@, -1, 1),
            decreases cols - j,
        {
            let mut coeffs: Vec<i32> = Vec::with_capacity(n);
            let mut l: usize = 0;
            while l < n
                invariant
                    l <= n,
                    coeffs@.len() == l,
                    coeffs_within(coeffs@, -1, 1),
                decreases n - l,
            {
                let x = crate::rng::next_u32(rng);
                let y = crate::rng::next_u32(rng);
                let a = (x >> 1) & 1;
                let b = (y >> 1) & 1;
                assert(a <= 1) by (bit_vector)
                    requires a == (x >> 1) & 1;
                assert(b <= 1) by (bit_vector)
                    requires b == (y >> 1) & 1;
                coeffs.push(a as i32 - b as i32);
                l += 1;
            }
            row.push(Polynomial { coeffs });
            j += 1;
        }
        elements.push(row);
        i += 1;
    }
    let r = PolynomialMatrix { rows, cols, elements };
    assert forall|a: int, b: int| 0 <= a < rows && 0 <= b < cols implies (#[trigger] r@[a][b]).len() == n && coeffs_within(
        r@[a][b],
        -1,
        1,
    ) by {
        assert(r@[a][b] == r.elements@[a]@[b]@);
    }
    r
}

/// A `rows x cols` matrix with coefficients uniform in `[0, q)`, by rejecting 23-bit words at or above `q`.
fn sample_uniform_matrix(rows: usize, cols: usize, n: usize, q: u32, rng: &mut ThreadRng) -> (r: PolynomialMatrix)
    requires
        valid_q(q),
    ensures
        r.rows == rows,
        r.cols == cols,
        mat_shape(r@, rows as int, cols as int, n as int),
        forall|i: int, j: int| 0 <= i < rows && 0 <= j < cols ==> coeffs_within(#[trigger] r@[i][j], 0, q - 1),
{
    let mut elements: Vec<Vec<Polynomial>> = Vec::with_capacity(rows);
    let mut i: usize = 0;
    while i < rows
        invariant
            valid_q(q),
            i <= rows,
            elements@.len() == i,
            forall|a: int| 0 <= a < i ==> (#[trigger] elements@[a])@.len() == cols,
            forall|a: int, b: int| 0 <= a < i && 0 <= b < cols ==> (#[trigger] elements@[a]@[b])@.len() == n,
            forall|a: int, b: int| 0 <= a < i && 0 <= b < cols ==> coeffs_within((#[trigger] elements@[a]@[b])@, 0, q - 1),
        decreases rows - i,
    {
        let mut row: Vec<Polynomial> = Vec::with_capacity(cols);
        let mut j: usize = 0;
        while j < cols
            invariant
                valid_q(q),
                j <= cols,
                row@.len() == j,
                forall|b: int| 0 <= b < j ==> (#[trigger] row@[b])@.len() == n,
                forall|b: int| 0 <= b < j ==> coeffs_within((#[trigger] row@[b])@, 0, q - 1),
            decreases cols - j,
        {
            let mut coeffs: Vec<i32> = Vec::with_capacity(n);
            let mut l: usize = 0;
            while l < n
                invariant
                    valid_q(q),
                    l <= n,
                    coeffs@.len() == l,
                    coeffs_within(coeffs@, 0, q - 1),
                decreases n - l,
            {
                let mut rounds: u64 = 0;
                let mut val: u32 = crate::rng::next_u32(rng) & 0x7F_FFFF;
                while val >= q && rounds < crate::mlwe::MAX_REJECTION_ROUNDS
                    invariant
                        valid_q(q),
                    decreases crate::mlwe::MAX_REJECTION_ROUNDS - rounds,
                {
                    val = crate::rng::next_u32(rng) & 0x7F_FFFF;
                    rounds += 1;
                }
                let v = if val < q { val } else { val % q };
                coeffs.push(v as i32);
                l += 1;
            }
            row.push(Polynomial { coeffs });
            j += 1;
        }
        elements.push(row);
        i += 1;
    }
    let r = PolynomialMatrix { rows, cols, elements };
    assert forall|a: int, b: int| 0 <= a < rows && 0 <= b < cols implies (#[trigger] r@[a][b]).len() == n && coeffs_within(
        r@[a][b],
        0,
        q - 1,
    ) by {
        assert(r@[a][b] == r.elements@[a]@[b]@);
    }
    r
}

impl MLWETrapdoor {
    /// A trapdoor generator for `params`, with nothing generated yet.
    pub fn new(params: &MLWEParameters) -> (t: Self)
        ensures
            t.params == *params,
            t.trapdoor_r is None,
            t.public_matrix is None,
    {
        MLWETrapdoor { params: *params, trapdoor_r: None, public_matrix: None }
    }

    /// Generate the trapdoor over a given `A'` (`k x (k - 1)`): sample `R`
    /// from CBD(1) and set `A = [A' | G - A'R]`; both are stored and returned.
    pub fn generate_trapdoor_with_a_prime(&mut self, a_prime: PolynomialMatrix, rng: &mut ThreadRng) -> (out: TrapdoorMaterial)
        requires
            trapdoor_params_ok(old(self).params),
            a_prime.rows == old(self).params.k,
            a_prime.cols == old(self).params.k - 1,
            mat_shape(a_prime@, old(self).params.k as int, old(self).params.k - 1, old(self).params.n as int),
        ensures
            final(self).params == old(self).params,
            out.params == old(self).params,
            final(self).trapdoor_r matches Some(t) && same_matrix(t, out.trapdoor_t),
            final(self).public_matrix matches Some(a) && same_matrix(a, out.matrix_a),
            out.trapdoor_t.rows == old(self).params.k - 1,
            out.trapdoor_t.cols == old(self).params.k * old(self).params.ell,
            mat_shape(
                out.trapdoor_t@,
                old(self).params.k - 1,
                (old(self).params.k * old(self).params.ell) as int,
                old(self).params.n as int,
            ),
            forall|i: int, j: int| 0 <= i < old(self).params.k - 1 && 0 <= j < old(self).params.k * old(self).params.ell
                ==> coeffs_within(#[trigger] out.trapdoor_t@[i][j], -1, 1),
            out.matrix_a.rows == old(self).params.k,
            out.matrix_a.cols == old(self).params.m,
            out.matrix_a@ == full_matrix_spec(a_prime@, out.trapdoor_t@, old(self).params),
    {
        let params = self.params;
        let q = params.q;
        let n = params.n;
        let k = params.k;
        let ell = params.ell;
        let m = params.m;
        let kl = k * ell;
        let r_matrix = sample_trapdoor_matrix(k - 1, kl, n, rng);
        let g = gadget_matrix(k, ell, n, params.base, q);
        let ar = matrix_mul(&a_prime, &r_matrix, n, q);
        let ghost spec = full_matrix_spec(a_prime@, r_matrix@, params);
        let mut elements: Vec<Vec<Polynomial>> = Vec::with_capacity(k);
        let mut i: usize = 0;
        while i < k
            invariant
                trapdoor_params_ok(params),
                q == params.q,
                n == params.n,
                k == params.k,
                ell == params.ell,
                m == params.m,
                kl == k * ell,
                a_prime.rows == k,
                a_prime.cols == k - 1,
                mat_shape(a_prime@, k as int, k - 1, n as int),
                mat_shape(g@, k as int, kl as int, n as int),
                forall|i: int, c: int| 0 <= i < k && 0 <= c < kl ==> #[trigger] g@[i][c] == gadget_entry(
                    i,
                    c,
                    ell as int,
                    params.base as int,
                    q as int,
                    n as int,
                ),
                ar@ == mat_mul_spec(a_prime@, r_matrix@, k as int, k - 1, kl as int, n as int, q as int),
                mat_shape(ar@, k as int, kl as int, n as int),
                forall|i: int, j: int| 0 <= i < k && 0 <= j < kl ==> coeffs_within(#[trigger] ar@[i][j], 0, q - 1),
                spec == full_matrix_spec(a_prime@, r_matrix@, params),
                i <= k,
                elements@.len() == i,
                forall|r: int| 0 <= r < i ==> (#[trigger] elements@[r])@.map_values(|p: Polynomial| p@) == spec[r],
            decreases k - i,
        {
            let mut row: Vec<Polynomial> = Vec::with_capacity(m);
            let mut j: usize = 0;
            while j < m
                invariant
                    trapdoor_params_ok(params),
                    q == params.q,
                    n == params.n,
                    k == params.k,
                    ell == params.ell,
                    m == params.m,
                    kl == k * ell,
                    a_prime.rows == k,
                    a_prime.cols == k - 1,
                    mat_shape(a_prime@, k as int, k - 1, n as int),
                    mat_shape(g@, k as int, kl as int, n as int),
                    forall|i: int, c: int| 0 <= i < k && 0 <= c < kl ==> #[trigger] g@[i][c] == gadget_entry(
                        i,
                        c,
                        ell as int,
                        params.base as int,
                        q as int,
                        n as int,
                    ),
                    ar@ == mat_mul_spec(a_prime@, r_matrix@, k as int, k - 1, kl as int, n as int, q as int),
                    mat_shape(ar@, k as int, kl as int, n as int),
                    forall|i: int, j: int| 0 <= i < k && 0 <= j < kl ==> coeffs_within(#[trigger] ar@[i][j], 0, q - 1),
                    spec == full_matrix_spec(a_prime@, r_matrix@, params),
                    i < k,
                    j <= m,
                    row@.len() == j,
                    forall|c: int| 0 <= c < j ==> (#[trigger] row@[c])@ == spec[i as int][c],
                decreases m - j,
            {
                if j < k - 1 {
                    assert(a_prime.elements@[i as int]@[j as int]@ == a_prime@[i as int][j as int]);
                    row.push(a_prime.elements[i][j].clone());
                } else if j < k - 1 + kl {
                    let c = j - (k - 1);
                    assert(g.elements@[i as int]@[c as int]@ == g@[i as int][c as int]);
                    assert(ar.elements@[i as int]@[c as int]@ == ar@[i as int][c as int]);
                    let ge = &g.elements[i][c];
                    let are = &ar.elements[i][c];
                    proof {
                        assert forall|l: int| 0 <= l < ge@.len() && l < are@.len() implies fits_i32(#[trigger] ge@[l] - are@[l]) by {
                            assert(coeffs_within(ar@[i as int][c as int], 0, q - 1));
                            if l == 0 {
                                vstd::arithmetic::div_mod::lemma_mod_bound(
                                    pow(params.base as int, (c - i * ell) as nat),
                                    q as int,
                                );
                            }
                        }
                    }
                    let entry = ge.sub(are, q);
                    assert(entry@ =~= spec[i as int][j as int]);
                    row.push(entry);
                } else {
                    let z = Polynomial::new(n);
                    assert(z@ =~= spec[i as int][j as int]);
                    row.push(z);
                }
                j += 1;
            }
            assert(row@.map_values(|p: Polynomial| p@) =~= spec[i as int]);
            elements.push(row);
            i += 1;
        }
        let a_full = PolynomialMatrix { rows: k, cols: m, elements };
        assert(a_full@ =~= spec);
        self.public_matrix = Some(a_full.clone());
        self.trapdoor_r = Some(r_matrix.clone());
        TrapdoorMaterial { matrix_a: a_full, trapdoor_t: r_matrix, params }
    }

    /// Generate a trapdoor: a uniformly random `A'` (`k x (k - 1)`), then
    /// [`Self::generate_trapdoor_with_a_prime`].
    pub fn generate_trapdoor(&mut self, rng: &mut ThreadRng) -> (out: TrapdoorMaterial)
        requires
            trapdoor_params_ok(old(self).params),
        ensures
            final(self).params == old(self).params,
            out.params == old(self).params,
            final(self).trapdoor_r matches Some(t) && same_matrix(t, out.trapdoor_t),
            final(self).public_matrix matches Some(a) && same_matrix(a, out.matrix_a),
            out.trapdoor_t.rows == old(self).params.k - 1,
            out.trapdoor_t.cols == old(self).params.k * old(self).params.ell,
            forall|i: int, j: int| 0 <= i < old(self).params.k - 1 && 0 <= j < old(self).params.k * old(self).params.ell
                ==> coeffs_within(#[trigger] out.trapdoor_t@[i][j], -1, 1),
            out.matrix_a.rows == old(self).params.k,
            out.matrix_a.cols == old(self).params.m,
            exists|a_prime: Seq<Seq<Seq<i32>>>|
                mat_shape(a_prime, old(self).params.k as int, old(self).params.k - 1, old(self).params.n as int)
                    && (forall|i: int, j: int| 0 <= i < old(self).params.k && 0 <= j < old(self).params.k - 1
                        ==> coeffs_within(#[trigger] a_prime[i][j], 0, old(self).params.q - 1))
                    && #[trigger] full_matrix_spec(a_prime, out.trapdoor_t@, old(self).params) == out.matrix_a@,
    {
        let k = self.params.k;
        let a_prime = sample_uniform_matrix(k, k - 1, self.params.n, self.params.q, rng);
        let ghost ap = a_prime@;
        let out = self.generate_trapdoor_with_a_prime(a_prime, rng);
        assert(full_matrix_spec(ap, out.trapdoor_t@, self.params) == out.matrix_a@);
        out
    }
}

// ---------------------------------------------------------------------------
// Gadget decomposition and preimages
// ---------------------------------------------------------------------------

/// Rust's truncating division for a positive divisor.
pub open spec fn tdiv(v: int, b: int) -> int {
    if v >= 0 { v / b } else { -((-v) / b) }
}

/// What is left of `v` after `j` base-`b` digits have been taken off.
pub open spec fn gadget_rest(v: int, b: int, j: nat) -> int
    decreases j,
{
    if j == 0 { v } else { tdiv(gadget_rest(v, b, (j - 1) as nat), b) }
}

/// Digit `j` of the signed base-`b` expansion of `v` (each digit has the sign of `v`).
pub open spec fn gadget_digit(v: int, b: int, j: nat) -> int {
    trem(gadget_rest(v, b, j), b)
}

/// `sum_{j < len} digit_j * b^j`.
pub open spec fn gadget_sum(v: int, b: int, len: nat) -> int
    decreases len,
{
    if len == 0 { 0 } else { gadget_sum(v, b, (len - 1) as nat) + gadget_digit(v, b, (len - 1) as nat) * pow(b, (len - 1) as nat) }
}

/// A coefficient above `q/2` moved down by `q` (the centering applied before decomposition).
pub open spec fn center_half(v: int, q: int) -> int {
    if v > q / 2 { v - q } else { v }
}

/// `G^-1(u)`: polynomial `i ell + j` holds digit `j` of the centered coefficients of `u_i`.
pub open spec fn gadget_decompose_spec(u: Seq<Seq<i32>>, k: int, ell: int, n: int, b: int, q: int) -> Seq<Seq<i32>> {
    Seq::new(
        (k * ell) as nat,
        |c: int| Seq::new(n as nat, |l: int| gadget_digit(center_half(u[c / ell][l] as int, q), b, (c % ell) as nat) as i32),
    )
}

proof fn lemma_tdiv_trem(x: int, b: int)
    requires
        b > 0,
    ensures
        x == trem(x, b) + b * tdiv(x, b),
        x >= 0 ==> 0 <= tdiv(x, b) <= x,
        x < 0 ==> x <= tdiv(x, b) <= 0,
{
    if x >= 0 {
        vstd::arithmetic::div_mod::lemma_fundamental_div_mod(x, b);
        vstd::arithmetic::div_mod::lemma_div_pos_is_pos(x, b);
        vstd::arithmetic::div_mod::lemma_div_is_ordered_by_denominator(x, 1, b);
        vstd::arithmetic::div_mod::lemma_div_basics(x);
    } else {
        vstd::arithmetic::div_mod::lemma_fundamental_div_mod(-x, b);
        vstd::arithmetic::div_mod::lemma_div_pos_is_pos(-x, b);
        vstd::arithmetic::div_mod::lemma_div_is_ordered_by_denominator(-x, 1, b);
        vstd::arithmetic::div_mod::lemma_div_basics(-x);
        assert(b * (-((-x) / b)) == -(b * ((-x) / b))) by (nonlinear_arith);
    }
}

proof fn lemma_mul_split(p: int, r: int, m: int, t: int, b: int)
    by (nonlinear_arith)
    requires
        r == m + b * t,
    ensures
        p * r == m * p + (p * b) * t,
{
}

/// The gadget digits recompose the value: `sum_j digit_j b^j + b^len rest_len == v`.
pub proof fn lemma_gadget_recompose(v: int, b: int, len: nat)
    requires
        b >= 1,
    ensures
        gadget_sum(v, b, len) + pow(b, len) * gadget_rest(v, b, len) == v,
    decreases len,
{
    if len == 0 {
        vstd::arithmetic::power::lemma_pow0(b);
    } else {
        let j = (len - 1) as nat;
        lemma_gadget_recompose(v, b, j);
        let r = gadget_rest(v, b, j);
        lemma_tdiv_trem(r, b);
        vstd::arithmetic::power::lemma_pow_adds(b, j, 1);
        vstd::arithmetic::power::lemma_pow1(b);
        let p = pow(b, j);
        lemma_mul_split(p, r, trem(r, b), tdiv(r, b), b);
    }
}

proof fn lemma_gadget_rest_bound(v: int, b: int, j: nat)
    requires
        b >= 1,
    ensures
        v >= 0 ==> 0 <= gadget_rest(v, b, j) <= v,
        v < 0 ==> v <= gadget_rest(v, b, j) <= 0,
    decreases j,
{
    if j > 0 {
        lemma_gadget_rest_bound(v, b, (j - 1) as nat);
        lemma_tdiv_trem(gadget_rest(v, b, (j - 1) as nat), b);
    }
}

/// Digit `j` of the signed base-`b` expansion of `v`.
fn gadget_digit_exec(v: i32, b: i32, j: usize) -> (d: i32)
    requires
        b >= 1,
        v > i32::MIN,
    ensures
        d == gadget_digit(v as int, b as int, j as nat),
{
    let mut val = v;
    let mut t: usize = 0;
    while t < j
        invariant
            b >= 1,
            v > i32::MIN,
            t <= j,
            val == gadget_rest(v as int, b as int, t as nat),
        decreases j - t,
    {
        proof {
            lemma_gadget_rest_bound(v as int, b as int, t as nat);
            lemma_tdiv_trem(val as int, b as int);
        }
        val = if val >= 0 { val / b } else { -((-val) / b) };
        t += 1;
    }
    proof {
        lemma_gadget_rest_bound(v as int, b as int, j as nat);
    }
    if val >= 0 { val % b } else { -((-val) % b) }
}

/// `u - A' noise mod q` on the first `k` polynomials, where `A'` is the first `k - 1` columns of `A`.
pub open spec fn shifted_target(a: Seq<Seq<Seq<i32>>>, u: Seq<Seq<i32>>, noise: Seq<Seq<i32>>, k: int, n: int, q: int) -> Seq<
    Seq<i32>,
> {
    Seq::new(
        k as nat,
        |i: int| Seq::new(n as nat, |l: int| ((u[i][l] - crate::mlwe::row_dot(a[i].take(k - 1), noise, l, k - 1) % q) % q) as i32),
    )
}

/// The preimage `e = [R e2 + noise | e2 | 0...]` with `e2 = G^-1(u - A' noise)`.
pub open spec fn preimage_spec(
    a: Seq<Seq<Seq<i32>>>,
    r: Seq<Seq<Seq<i32>>>,
    u: Seq<Seq<i32>>,
    noise: Seq<Seq<i32>>,
    params: MLWEParameters,
) -> Seq<Seq<i32>> {
    let k = params.k as int;
    let ell = params.ell as int;
    let n = params.n as int;
    let q = params.q as int;
    let e2 = gadget_decompose_spec(shifted_target(a, u, noise, k, n, q), k, ell, n, params.base as int, q);
    Seq::new(
        params.m as nat,
        |c: int| if c < k - 1 {
            Seq::new(n as nat, |l: int| (((crate::mlwe::row_dot(r[c], e2, l, k * ell) % q) + noise[c][l]) % q) as i32)
        } else if c < k - 1 + k * ell {
            e2[c - (k - 1)]
        } else {
            zeros(n)
        },
    )
}

/// Shapes for preimage sampling: `A` is `k x m`, `R` is `(k - 1) x k ell`, all with
/// `n`-coefficient entries; `u` has `k` polynomials whose coefficients
/// survive subtracting a reduced value; the noise has `k - 1` polynomials
/// whose coefficients survive adding one.
pub open spec fn preimage_inputs_ok(
    params: MLWEParameters,
    a: PolynomialMatrix,
    r: PolynomialMatrix,
    u: Seq<Seq<i32>>,
    noise: Seq<Seq<i32>>,
) -> bool {
    let k = params.k as int;
    let n = params.n as int;
    let q = params.q as int;
    &&& trapdoor_params_ok(params)
    &&& params.base <= i32::MAX
    &&& mat_shape(a@, a.rows as int, a.cols as int, n)
    &&& a.rows == k
    &&& a.cols >= k - 1
    &&& mat_shape(r@, k - 1, k * params.ell, n)
    &&& r.rows == k - 1
    &&& r.cols == k * params.ell
    &&& u.len() >= k
    &&& forall|i: int| 0 <= i < k ==> (#[trigger] u[i]).len() == n
    &&& forall|i: int, l: int| 0 <= i < k && 0 <= l < n ==> #[trigger] u[i][l] >= i32::MIN + q
    &&& noise.len() == k - 1
    &&& vec_uniform(noise, n)
    &&& forall|i: int, l: int| 0 <= i < k - 1 && 0 <= l < n ==> #[trigger] noise[i][l] <= i32::MAX - q
}

impl MLWETrapdoor {
    /// `G^-1(u)`: every coefficient of the first `k` polynomials of `u`, moved
    /// into `(-q/2, q/2]` when above `q/2`, split into `ell` signed base-`b`
    /// digits; digit `j` of `u_i` goes to polynomial `i ell + j`.
    pub fn gadget_decompose(&self, u: &PolynomialVector) -> (d: PolynomialVector)
        requires
            valid_q(self.params.q),
            1 <= self.params.base <= i32::MAX,
            self.params.ell >= 1,
            self.params.k * self.params.ell <= usize::MAX,
            u@.len() >= self.params.k,
            forall|i: int| 0 <= i < self.params.k ==> (#[trigger] u@[i]).len() >= self.params.n,
            forall|i: int, l: int| 0 <= i < self.params.k && 0 <= l < self.params.n ==> #[trigger] u@[i][l] > i32::MIN,
        ensures
            d@ == gadget_decompose_spec(
                u@,
                self.params.k as int,
                self.params.ell as int,
                self.params.n as int,
                self.params.base as int,
                self.params.q as int,
            ),
    {
        let k = self.params.k;
        let ell = self.params.ell;
        let n = self.params.n;
        let base = self.params.base as i32;
        let q = self.params.q;
        let half = q as i32 / 2;
        let ghost spec = gadget_decompose_spec(u@, k as int, ell as int, n as int, base as int, q as int);
        let mut elements: Vec<Polynomial> = Vec::with_capacity(k * ell);
        let mut i: usize = 0;
        while i < k
            invariant
                valid_q(q),
                1 <= base,
                ell >= 1,
                k * ell <= usize::MAX,
                half == q / 2,
                u@.len() >= k,
                forall|i: int| 0 <= i < k ==> (#[trigger] u@[i]).len() >= n,
                forall|i: int, l: int| 0 <= i < k && 0 <= l < n ==> #[trigger] u@[i][l] > i32::MIN,
                spec == gadget_decompose_spec(u@, k as int, ell as int, n as int, base as int, q as int),
                i <= k,
                elements@.len() == i * ell,
                forall|c: int| 0 <= c < i * ell ==> (#[trigger] elements@[c])@ == spec[c],
            decreases k - i,
        {
            let mut j: usize = 0;
            while j < ell
                invariant
                    valid_q(q),
                    1 <= base,
                    ell >= 1,
                    k * ell <= usize::MAX,
                    half == q / 2,
                    u@.len() >= k,
                    forall|i: int| 0 <= i < k ==> (#[trigger] u@[i]).len() >= n,
                    forall|i: int, l: int| 0 <= i < k && 0 <= l < n ==> #[trigger] u@[i][l] > i32::MIN,
                    spec == gadget_decompose_spec(u@, k as int, ell as int, n as int, base as int, q as int),
                    i < k,
                    j <= ell,
                    elements@.len() == i * ell + j,
                    forall|c: int| 0 <= c < i * ell + j ==> (#[trigger] elements@[c])@ == spec[c],
                decreases ell - j,
            {
                let ghost c = i * ell + j;
                proof {
                    assert(c < k * ell) by (nonlinear_arith)
                        requires c == i * ell + j, i < k, j < ell;
                    vstd::arithmetic::div_mod::lemma_fundamental_div_mod_converse(c, ell as int, i as int, j as int);
                }
                let ui = &u.elements[i];
                assert(ui@ == u@[i as int]);
                let mut coeffs: Vec<i32> = Vec::with_capacity(n);
                let mut l: usize = 0;
                while l < n
                    invariant
                        valid_q(q),
                        1 <= base,
                        half == q / 2,
                        i < k,
                        ui@.len() >= n,
                        forall|l: int| 0 <= l < n ==> #[trigger] ui@[l] > i32::MIN,
                        l <= n,
                        coeffs@.len() == l,
                        forall|t: int| 0 <= t < l ==> #[trigger] coeffs@[t] == gadget_digit(
                            center_half(ui@[t] as int, q as int),
                            base as int,
                            j as nat,
                        ),
                    decreases n - l,
                {
                    let v = ui.coeffs[l];
                    let centered = if v > half { v - q as i32 } else { v };
                    coeffs.push(gadget_digit_exec(centered, base, j));
                    l += 1;
                }
                let p = Polynomial { coeffs };
                assert(p@ =~= spec[c]);
                elements.push(p);
                j += 1;
            }
            assert((i + 1) * ell == i * ell + ell) by (nonlinear_arith);
            i += 1;
        }
        let d = PolynomialVector { elements };
        assert(d@ =~= spec) by {
            assert forall|c: int| 0 <= c < spec.len() implies #[trigger] d@[c] == spec[c] by {
                assert(d@[c] == d.elements@[c]@);
            }
        }
        d
    }

    /// The preimage for a given noise vector: `e2 = G^-1(u - A' noise)` and
    /// `e = [R e2 + noise | e2]`, padded with zero polynomials up to `m`.
    pub fn preimage_from_noise(
        &self,
        a_matrix: &PolynomialMatrix,
        r_matrix: &PolynomialMatrix,
        u_target: &PolynomialVector,
        noise: &PolynomialVector,
    ) -> (e: PolynomialVector)
        requires
            preimage_inputs_ok(self.params, *a_matrix, *r_matrix, u_target@, noise@),
        ensures
            e@ == preimage_spec(a_matrix@, r_matrix@, u_target@, noise@, self.params),
            e@.len() == self.params.m,
    {
        let params = self.params;
        let q = params.q;
        let n = params.n;
        let k = params.k;
        let ell = params.ell;
        let m = params.m;
        let kl = k * ell;
        // A' = the first k - 1 columns of A.
        let mut ap_rows: Vec<Vec<Polynomial>> = Vec::with_capacity(k);
        let mut i: usize = 0;
        while i < k
            invariant
                preimage_inputs_ok(params, *a_matrix, *r_matrix, u_target@, noise@),
                k == params.k,
                n == params.n,
                i <= k,
                ap_rows@.len() == i,
                forall|r: int| 0 <= r < i ==> (#[trigger] ap_rows@[r])@.map_values(|p: Polynomial| p@) == a_matrix@[r].take(k - 1),
            decreases k - i,
        {
            let mut row: Vec<Polynomial> = Vec::with_capacity(k - 1);
            let mut j: usize = 0;
            while j < k - 1
                invariant
                    preimage_inputs_ok(params, *a_matrix, *r_matrix, u_target@, noise@),
                    k == params.k,
                    i < k,
                    j <= k - 1,
                    row@.len() == j,
                    forall|c: int| 0 <= c < j ==> (#[trigger] row@[c])@ == a_matrix@[i as int][c],
                decreases k - 1 - j,
            {
                assert(a_matrix.elements@[i as int]@[j as int]@ == a_matrix@[i as int][j as int]);
                row.push(a_matrix.elements[i][j].clone());
                j += 1;
            }
            assert(row@.map_values(|p: Polynomial| p@) =~= a_matrix@[i as int].take(k - 1));
            ap_rows.push(row);
            i += 1;
        }
        let a_prime = PolynomialMatrix { rows: k, cols: k - 1, elements: ap_rows };
        assert(a_prime@ =~= Seq::new(k as nat, |r: int| a_matrix@[r].take(k - 1)));
        assert(crate::mlwe::first_entry_len(a_prime@) == n);
        let ape = MLWEKeyPair::matrix_vector_mul(&a_prime, noise, q);
        // u' = u - A' noise
        let ghost up = shifted_target(a_matrix@, u_target@, noise@, k as int, n as int, q as int);
        let mut up_elems: Vec<Polynomial> = Vec::with_capacity(k);
        let mut i: usize = 0;
        while i < k
            invariant
                preimage_inputs_ok(params, *a_matrix, *r_matrix, u_target@, noise@),
                k == params.k,
                n == params.n,
                q == params.q,
                a_prime@ == Seq::new(k as nat, |r: int| a_matrix@[r].take(k - 1)),
                ape@.len() == k,
                forall|r: int| 0 <= r < k ==> (#[trigger] ape@[r]).len() == n,
                forall|r: int, l: int| 0 <= r < k && 0 <= l < n ==> #[trigger] ape@[r][l]
                    == crate::mlwe::row_dot(a_prime@[r], noise@, l, k - 1) % (q as int),
                vec_coeffs_within(ape@, 0, q - 1),
                up == shifted_target(a_matrix@, u_target@, noise@, k as int, n as int, q as int),
                i <= k,
                up_elems@.len() == i,
                forall|r: int| 0 <= r < i ==> (#[trigger] up_elems@[r])@ == up[r],
                forall|r: int| 0 <= r < i ==> coeffs_within((#[trigger] up_elems@[r])@, 0, q - 1),
            decreases k - i,
        {
            let ui = &u_target.elements[i];
            let ai = &ape.elements[i];
            assert(ui@ == u_target@[i as int]);
            assert(ai@ == ape@[i as int]);
            proof {
                assert forall|l: int| 0 <= l < ui@.len() && l < ai@.len() implies fits_i32(#[trigger] ui@[l] - ai@[l]) by {
                    assert(coeffs_within(ape@[i as int], 0, q - 1));
                }
            }
            let d = ui.sub(ai, q);
            assert(d@ =~= up[i as int]);
            up_elems.push(d);
            i += 1;
        }
        let u_prime = PolynomialVector { elements: up_elems };
        assert(u_prime@ =~= up) by {
            assert forall|r: int| 0 <= r < k implies #[trigger] u_prime@[r] == up[r] by {
                assert(u_prime@[r] == u_prime.elements@[r]@);
            }
        }
        proof {
            assert forall|r: int, l: int| 0 <= r < k && 0 <= l < n implies #[trigger] u_prime@[r][l] > i32::MIN by {
                assert(coeffs_within(u_prime.elements@[r]@, 0, q - 1));
            }
        }
        let e2 = self.gadget_decompose(&u_prime);
        let ghost e2s = e2@;
        proof {
            assert forall|c: int| 0 <= c < kl implies (#[trigger] e2s[c]).len() == n by {}
        }
        proof {
            assert(kl >= 1) by (nonlinear_arith)
                requires kl == k * params.ell, k >= 2, params.ell >= 1;
            assert(r_matrix@[0].len() == kl);
            assert(r_matrix@[0][0].len() == n);
        }
        assert(crate::mlwe::first_entry_len(r_matrix@) == n);
        let re2 = MLWEKeyPair::matrix_vector_mul(r_matrix, &e2, q);
        let ghost spec = preimage_spec(a_matrix@, r_matrix@, u_target@, noise@, params);
        let mut out: Vec<Polynomial> = Vec::with_capacity(m);
        let mut c: usize = 0;
        while c < m
            invariant
                preimage_inputs_ok(params, *a_matrix, *r_matrix, u_target@, noise@),
                k == params.k,
                n == params.n,
                q == params.q,
                m == params.m,
                kl == k * params.ell,
                e2@ == gadget_decompose_spec(up, k as int, params.ell as int, n as int, params.base as int, q as int),
                e2@.len() == kl,
                up == shifted_target(a_matrix@, u_target@, noise@, k as int, n as int, q as int),
                re2@.len() == k - 1,
                forall|r: int| 0 <= r < k - 1 ==> (#[trigger] re2@[r]).len() == n,
                forall|r: int, l: int| 0 <= r < k - 1 && 0 <= l < n ==> #[trigger] re2@[r][l]
                    == crate::mlwe::row_dot(r_matrix@[r], e2@, l, kl as int) % (q as int),
                vec_coeffs_within(re2@, 0, q - 1),
                spec == preimage_spec(a_matrix@, r_matrix@, u_target@, noise@, params),
                c <= m,
                out@.len() == c,
                forall|t: int| 0 <= t < c ==> (#[trigger] out@[t])@ == spec[t],
            decreases m - c,
        {
            if c < k - 1 {
                let ri = &re2.elements[c];
                let ni = &noise.elements[c];
                assert(ri@ == re2@[c as int]);
                assert(ni@ == noise@[c as int]);
                proof {
                    assert forall|l: int| 0 <= l < ri@.len() && l < ni@.len() implies fits_i32(#[trigger] ri@[l] + ni@[l]) by {
                        assert(coeffs_within(re2@[c as int], 0, q - 1));
                    }
                }
                let s = ri.add(ni, q);
                assert(s@ =~= spec[c as int]);
                out.push(s);
            } else if c < k - 1 + kl {
                assert(e2.elements@[(c - (k - 1)) as int]@ == e2@[(c - (k - 1)) as int]);
                out.push(e2.elements[c - (k - 1)].clone());
            } else {
                let z = Polynomial::new(n);
                assert(z@ =~= spec[c as int]);
                out.push(z);
            }
            c += 1;
        }
        let e = PolynomialVector { elements: out };
        assert(e@ =~= spec) by {
            assert forall|t: int| 0 <= t < m implies #[trigger] e@[t] == spec[t] by {
                assert(e@[t] == e.elements@[t]@);
            }
        }
        e
    }

    /// Sample a preimage of `u_target`: draw the `k - 1` noise polynomials
    /// from the discrete Gaussian sampler and apply [`Self::preimage_from_noise`].
    pub fn sample_preimage_structured(
        &self,
        a_matrix: &PolynomialMatrix,
        r_matrix: &PolynomialMatrix,
        u_target: &PolynomialVector,
        sampler: &CdtGaussianSampler,
        rng: &mut ThreadRng,
    ) -> (e: PolynomialVector)
        requires
            sampler.wf(),
            sampler.spec_table().len() - 1 <= i32::MAX - self.params.q,
            preimage_inputs_ok(self.params, *a_matrix, *r_matrix, u_target@, Seq::new((self.params.k - 1) as nat, |i: int| zeros(self.params.n as int))),
        ensures
            exists|noise: Seq<Seq<i32>>|
                vec_coeffs_within(noise, -(sampler.spec_table().len() - 1), sampler.spec_table().len() - 1)
                    && noise.len() == self.params.k - 1 && vec_uniform(noise, self.params.n as int)
                    && e@ == #[trigger] preimage_spec(a_matrix@, r_matrix@, u_target@, noise, self.params),
    {
        let k = self.params.k;
        let n = self.params.n;
        let mut elems: Vec<Polynomial> = Vec::with_capacity(k - 1);
        let mut i: usize = 0;
        while i < k - 1
            invariant
                sampler.wf(),
                k == self.params.k,
                k >= 2,
                n == self.params.n,
                i <= k - 1,
                elems@.len() == i,
                forall|t: int| 0 <= t < i ==> (#[trigger] elems@[t])@.len() == n,
                forall|t: int| 0 <= t < i ==> coeffs_within(
                    (#[trigger] elems@[t])@,
                    -(sampler.spec_table().len() - 1),
                    sampler.spec_table().len() - 1,
                ),
            decreases k - 1 - i,
        {
            elems.push(sampler.sample_poly(n, rng));
            i += 1;
        }
        let noise = PolynomialVector { elements: elems };
        proof {
            assert forall|t: int| 0 <= t < noise@.len() implies (#[trigger] noise@[t]).len() == n && coeffs_within(
                noise@[t],
                -(sampler.spec_table().len() - 1),
                sampler.spec_table().len() - 1,
            ) by {
                assert(noise@[t] == noise.elements@[t]@);
            }
        }
        let e = self.preimage_from_noise(a_matrix, r_matrix, u_target, &noise);
        assert(vec_coeffs_within(noise@, -(sampler.spec_table().len() - 1), sampler.spec_table().len() - 1));
        e
    }
}

// ---------------------------------------------------------------------------
// Checked wrappers
// ---------------------------------------------------------------------------

/// Explicit trapdoor mode labels kept in the structured key material.
#[derive(Debug, Clone, Copy, PartialEq, Eq)]
pub enum TrapdoorMode {
    /// Prototype-only trapdoor path retained for comparison.
    Prototype,
    /// Strict structured trapdoor path used by the v4 mainline.
    Strict,
}

/// Transitional wrapper for the original prototype trapdoor.
#[derive(Debug, Clone)]
pub struct PrototypeTrapdoor {
    params: MLWEParameters,
}

/// Structured trapdoor wrapper with explicit contract checks.
#[derive(Debug, Clone)]
pub struct StrictTrapdoor {
    params: MLWEParameters,
}

/// Coefficient-wise equality of two polynomial vectors.
pub fn vectors_equal(a: &PolynomialVector, b: &PolynomialVector) -> (r: bool)
    ensures
        r == (a@ == b@),
{
    if a.elements.len() != b.elements.len() {
        return false;
    }
    let mut j: usize = 0;
    while j < a.elements.len()
        invariant
            a@.len() == b@.len(),
            j <= a@.len(),
            forall|t: int| 0 <= t < j ==> #[trigger] a@[t] == b@[t],
        decreases a@.len() - j,
    {
        let pa = &a.elements[j];
        let pb = &b.elements[j];
        assert(pa@ == a@[j as int] && pb@ == b@[j as int]);
        if pa.coeffs.len() != pb.coeffs.len() {
            assert(a@[j as int].len() != b@[j as int].len());
            return false;
        }
        let mut i: usize = 0;
        while i < pa.coeffs.len()
            invariant
                pa@.len() == pb@.len(),
                j < a@.len(),
                a@.len() == b@.len(),
                pa@ == a@[j as int],
                pb@ == b@[j as int],
                i <= pa@.len(),
                forall|t: int| 0 <= t < i ==> #[trigger] pa@[t] == pb@[t],
            decreases pa@.len() - i,
        {
            if pa.coeffs[i] != pb.coeffs[i] {
                assert(a@[j as int][i as int] != b@[j as int][i as int]);
                return false;
            }
            i += 1;
        }
        assert(pa@ =~= pb@);
        j += 1;
    }
    assert(a@ =~= b@);
    true
}

/// The witness relation checked before a preimage is released: the widths
/// match, `A w = u mod q`, and every centered coefficient of `w` is at most `gamma1`.
pub open spec fn witness_relation_ok(params: MLWEParameters, a: PolynomialMatrix, w: Seq<Seq<i32>>, u: Seq<Seq<i32>>) -> bool {
    &&& w.len() == a.cols
    &&& u.len() == a.rows
    &&& u == Seq::new(
        a.rows as nat,
        |i: int| Seq::new(
            crate::mlwe::first_entry_len(a@) as nat,
            |k: int| (crate::mlwe::row_dot(a@[i], w, k, a.cols as int) % (params.q as int)) as i32,
        ),
    )
    &&& crate::mlwe::vec_max_abs(Seq::new(w.len(), |j: int| crate::mlwe::center_i32_seq(w[j], params.q as int)))
        <= params.gamma1
}

impl PrototypeTrapdoor {
    /// Construct the legacy-compatible prototype trapdoor.
    pub fn new(params: &MLWEParameters) -> (t: Self)
        ensures
            t.spec_params() == *params,
    {
        PrototypeTrapdoor { params: *params }
    }

    /// The parameters of this trapdoor.
    pub closed spec fn spec_params(&self) -> MLWEParameters {
        self.params
    }

    /// Generate the public matrix and trapdoor.
    pub fn generate(&self, rng: &mut ThreadRng) -> (r: PabsCrfResult<(PolynomialMatrix, PolynomialMatrix)>)
        requires
            trapdoor_params_ok(self.spec_params()),
        ensures
            r matches Ok(pair) ==> ({
                let (a, t) = pair;
                let p = self.spec_params();
                &&& a.rows == p.k && a.cols == p.m
                &&& t.rows == p.k - 1 && t.cols == p.k * p.ell
                &&& forall|i: int, j: int| 0 <= i < p.k - 1 && 0 <= j < p.k * p.ell ==> coeffs_within(#[trigger] t@[i][j], -1, 1)
                &&& exists|a_prime: Seq<Seq<Seq<i32>>>|
                    mat_shape(a_prime, p.k as int, p.k - 1, p.n as int) && #[trigger] full_matrix_spec(a_prime, t@, p) == a@
            }),
            r is Ok,
    {
        let mut inner = MLWETrapdoor::new(&self.params);
        let out = inner.generate_trapdoor(rng);
        Ok((out.matrix_a, out.trapdoor_t))
    }
}

impl StrictTrapdoor {
    /// Construct the strict trapdoor wrapper.
    pub fn new(params: &MLWEParameters) -> (t: Self)
        ensures
            t.spec_params() == *params,
    {
        StrictTrapdoor { params: *params }
    }

    /// The parameters of this trapdoor.
    pub closed spec fn spec_params(&self) -> MLWEParameters {
        self.params
    }

    /// Generate a structured trapdoor pair and validate the resulting dimensions.
    pub fn generate(&self, rng: &mut ThreadRng) -> (r: PabsCrfResult<(PolynomialMatrix, PolynomialMatrix)>)
        requires
            trapdoor_params_ok(self.spec_params()),
        ensures
            r matches Ok(pair) ==> ({
                let (a, t) = pair;
                let p = self.spec_params();
                &&& a.rows == p.k && a.cols == p.m
                &&& t.rows == p.k - 1 && t.cols == p.k * p.ell
                &&& exists|a_prime: Seq<Seq<Seq<i32>>>|
                    mat_shape(a_prime, p.k as int, p.k - 1, p.n as int) && #[trigger] full_matrix_spec(a_prime, t@, p) == a@
            }),
            r is Ok,
    {
        let prototype = PrototypeTrapdoor::new(&self.params);
        let (matrix_a, trapdoor_t) = match prototype.generate(rng) {
            Ok(pair) => pair,
            Err(e) => {
                return Err(e);
            },
        };
        if matrix_a.rows != self.params.k || matrix_a.cols != self.params.m {
            return Err(PabsCrfError::TrapdoorError("Structured matrix dimensions mismatch".to_string()));
        }
        if trapdoor_t.rows != self.params.k - 1 {
            return Err(PabsCrfError::TrapdoorError("Trapdoor row mismatch".to_string()));
        }
        Ok((matrix_a, trapdoor_t))
    }

    /// Generate the trapdoor over a given `A'`, rejecting an `A'` that is not `k x (k - 1)`.
    pub fn generate_with_a_prime(&self, a_prime: PolynomialMatrix, rng: &mut ThreadRng) -> (r: PabsCrfResult<
        (PolynomialMatrix, PolynomialMatrix),
    >)
        requires
            trapdoor_params_ok(self.spec_params()),
            (a_prime.rows == self.spec_params().k && a_prime.cols == self.spec_params().k - 1) ==> mat_shape(
                a_prime@,
                self.spec_params().k as int,
                self.spec_params().k - 1,
                self.spec_params().n as int,
            ),
        ensures
            r is Ok <==> (a_prime.rows == self.spec_params().k && a_prime.cols == self.spec_params().k - 1),
            r matches Err(e) ==> e is TrapdoorError,
            r matches Ok(pair) ==> ({
                let (a, t) = pair;
                let p = self.spec_params();
                &&& a.rows == p.k && a.cols == p.m
                &&& t.rows == p.k - 1 && t.cols == p.k * p.ell
                &&& mat_shape(t@, p.k - 1, (p.k * p.ell) as int, p.n as int)
                &&& forall|i: int, j: int| 0 <= i < p.k - 1 && 0 <= j < p.k * p.ell ==> coeffs_within(#[trigger] t@[i][j], -1, 1)
                &&& a@ == full_matrix_spec(a_prime@, t@, p)
            }),
    {
        if a_prime.rows != self.params.k || a_prime.cols != self.params.k - 1 {
            return Err(PabsCrfError::TrapdoorError("A-prime dimensions mismatch".to_string()));
        }
        let ghost ap = a_prime@;
        let mut inner = MLWETrapdoor::new(&self.params);
        let out = inner.generate_trapdoor_with_a_prime(a_prime, rng);
        let matrix_a = out.matrix_a;
        let trapdoor_t = out.trapdoor_t;
        if matrix_a.rows != self.params.k || matrix_a.cols != self.params.m {
            return Err(PabsCrfError::TrapdoorError("Structured matrix dimensions mismatch".to_string()));
        }
        if trapdoor_t.rows != self.params.k - 1 {
            return Err(PabsCrfError::TrapdoorError("Trapdoor row mismatch".to_string()));
        }
        Ok((matrix_a, trapdoor_t))
    }

    /// Check that `witness` is a short preimage of `u_target` under `A`.
    pub fn verify_witness_relation(
        &self,
        matrix_a: &PolynomialMatrix,
        witness: &PolynomialVector,
        u_target: &PolynomialVector,
    ) -> (r: PabsCrfResult<()>)
        requires
            valid_q(self.spec_params().q),
            witness@.len() == matrix_a.cols ==> crate::mlwe::mat_vec_ok(*matrix_a, witness@, crate::mlwe::first_entry_len(matrix_a@)),
        ensures
            r is Ok <==> witness_relation_ok(self.spec_params(), *matrix_a, witness@, u_target@),
            r matches Err(e) ==> e is TrapdoorError,
    {
        if witness.elements.len() != matrix_a.cols {
            return Err(PabsCrfError::TrapdoorError("Witness width mismatch".to_string()));
        }
        if u_target.elements.len() != matrix_a.rows {
            return Err(PabsCrfError::TrapdoorError("Target height mismatch".to_string()));
        }
        let lhs = crate::algebra::matrix_vector_mul(matrix_a, witness, self.params.q);
        let ghost expect = Seq::new(
            matrix_a.rows as nat,
            |i: int| Seq::new(
                crate::mlwe::first_entry_len(matrix_a@) as nat,
                |k: int| (crate::mlwe::row_dot(matrix_a@[i], witness@, k, matrix_a.cols as int) % (self.params.q as int)) as i32,
            ),
        );
        assert(lhs@ =~= expect) by {
            assert forall|i: int| 0 <= i < matrix_a.rows implies #[trigger] lhs@[i] =~= expect[i] by {}
        }
        if !vectors_equal(&lhs, u_target) {
            return Err(PabsCrfError::TrapdoorError("Witness relation check failed: A*witness != target".to_string()));
        }
        let b_witness = self.params.gamma1 as i64;
        let centered = witness.center_coefficients(self.params.q);
        let ghost cs = Seq::new(witness@.len(), |j: int| crate::mlwe::center_i32_seq(witness@[j], self.params.q as int));
        assert(centered@ =~= cs) by {
            assert forall|j: int| 0 <= j < witness@.len() implies #[trigger] centered@[j] =~= cs[j] by {
                assert forall|i: int| 0 <= i < centered@[j].len() implies centered@[j][i] == cs[j][i] by {
                    crate::modarith::lemma_center(witness@[j][i] as int, self.params.q as int);
                }
            }
        }
        let norm = centered.infinity_norm_integer();
        if norm > b_witness {
            return Err(PabsCrfError::TrapdoorError("Witness norm exceeds bound (gamma1)".to_string()));
        }
        Ok(())
    }

    /// Sample a preimage of `u_target` and check the witness relation before returning it.
    pub fn sample_preimage(
        &self,
        matrix_a: &PolynomialMatrix,
        trapdoor_t: &PolynomialMatrix,
        u_target: &PolynomialVector,
        sampler: &CdtGaussianSampler,
        rng: &mut ThreadRng,
    ) -> (r: PabsCrfResult<PolynomialVector>)
        requires
            sampler.wf(),
            sampler.spec_table().len() - 1 <= i32::MAX - self.spec_params().q,
            preimage_inputs_ok(
                self.spec_params(),
                *matrix_a,
                *trapdoor_t,
                u_target@,
                Seq::new((self.spec_params().k - 1) as nat, |i: int| zeros(self.spec_params().n as int)),
            ),
            matrix_a.cols == self.spec_params().m,
        ensures
            r matches Ok(w) ==> witness_relation_ok(self.spec_params(), *matrix_a, w@, u_target@),
            r matches Ok(w) ==> exists|noise: Seq<Seq<i32>>| #[trigger] preimage_spec(matrix_a@, trapdoor_t@, u_target@, noise, self.spec_params()) == w@,
            r matches Err(e) ==> e is TrapdoorError,
    {
        let inner = MLWETrapdoor::new(&self.params);
        let witness = inner.sample_preimage_structured(matrix_a, trapdoor_t, u_target, sampler, rng);
        proof {
            let p = self.spec_params();
            assert forall|j: int| 0 <= j < p.m implies (#[trigger] witness@[j]).len() == p.n by {
                let noise = choose|noise: Seq<Seq<i32>>|
                    vec_coeffs_within(noise, -(sampler.spec_table().len() - 1), sampler.spec_table().len() - 1)
                        && noise.len() == p.k - 1 && vec_uniform(noise, p.n as int)
                        && witness@ == #[trigger] preimage_spec(matrix_a@, trapdoor_t@, u_target@, noise, p);
                assert(witness@ == preimage_spec(matrix_a@, trapdoor_t@, u_target@, noise, p));
            }
            assert(crate::mlwe::first_entry_len(matrix_a@) == p.n) by {
                assert(matrix_a@[0].len() == matrix_a.cols);
                assert(matrix_a.cols >= 1) by (nonlinear_arith)
                    requires matrix_a.cols == p.m, (p.k - 1) + p.k * p.ell <= p.m, p.k >= 2, p.ell >= 1;
            }
        }
        match self.verify_witness_relation(matrix_a, &witness, u_target) {
            Ok(()) => Ok(witness),
            Err(e) => Err(e),
        }
    }
}

} // verus!
