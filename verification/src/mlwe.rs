//! Module-LWE ring arithmetic and the Dilithium-style signature core.
//!
//! Polynomials live in `R_q = Z_q[X]/(X^n + 1)`; vectors and matrices of
//! polynomials carry the module structure.
use vstd::prelude::*;
use rand::rngs::ThreadRng;
use crate::modarith::{center, lemma_acc_step, lemma_center, lemma_i32_product, lemma_trem, trem};

verus! {

/// Largest modulus for which the mod-`q` helpers of this module cannot overflow `i32`.
pub const Q_MAX: u32 = 0x4000_0000;

/// `q` is usable as a coefficient modulus: positive, and small enough that
/// the sum of two reduced coefficients still fits in an `i32`.
pub open spec fn valid_q(q: u32) -> bool {
    1 <= q <= Q_MAX
}

/// A value fits in an `i32`.
pub open spec fn fits_i32(x: int) -> bool {
    i32::MIN <= x <= i32::MAX
}

/// Represents a polynomial in the ring R_q = Z_q[X]/(X^n + 1).
#[derive(Debug, PartialEq, Eq)]
pub struct Polynomial {
    /// Coefficients in range [0, q-1]
    pub coeffs: Vec<i32>,
}

/// A vector of k polynomials in R_q.
#[derive(Debug, PartialEq, Eq)]
pub struct PolynomialVector {
    /// Vector elements
    pub elements: Vec<Polynomial>,
}

/// Matrix of polynomials for MLWE public key generation.
#[derive(Debug, PartialEq, Eq)]
pub struct PolynomialMatrix {
    /// Number of row polynomials
    pub rows: usize,
    /// Number of column polynomials
    pub cols: usize,
    /// 2D grid of polynomial elements
    pub elements: Vec<Vec<Polynomial>>,
}

impl Clone for Polynomial {
    fn clone(&self) -> (r: Self)
        ensures
            r@ == self@,
    {
        Polynomial { coeffs: self.coeffs.clone() }
    }
}

impl Clone for PolynomialVector {
    fn clone(&self) -> (r: Self)
        ensures
            r@ == self@,
    {
        let mut out: Vec<Polynomial> = Vec::with_capacity(self.elements.len());
        let mut i: usize = 0;
        while i < self.elements.len()
            invariant
                i <= self.elements@.len(),
                out@.len() == i,
                forall|j: int| 0 <= j < i ==> (#[trigger] out@[j])@ == self.elements@[j]@,
            decreases self.elements@.len() - i,
        {
            out.push(self.elements[i].clone());
            i += 1;
        }
        let r = PolynomialVector { elements: out };
        assert(r@ =~= self@);
        r
    }
}

impl Clone for PolynomialMatrix {
    fn clone(&self) -> (r: Self)
        ensures
            r@ == self@,
            r.rows == self.rows,
            r.cols == self.cols,
    {
        let mut out: Vec<Vec<Polynomial>> = Vec::with_capacity(self.elements.len());
        let mut i: usize = 0;
        while i < self.elements.len()
            invariant
                i <= self.elements@.len(),
                out@.len() == i,
                forall|j: int| 0 <= j < i ==> (#[trigger] out@[j])@.map_values(|p: Polynomial| p@)
                    == self.elements@[j]@.map_values(|p: Polynomial| p@),
            decreases self.elements@.len() - i,
        {
            let row = &self.elements[i];
            let mut new_row: Vec<Polynomial> = Vec::with_capacity(row.len());
            let mut j: usize = 0;
            while j < row.len()
                invariant
                    j <= row@.len(),
                    new_row@.len() == j,
                    forall|t: int| 0 <= t < j ==> (#[trigger] new_row@[t])@ == row@[t]@,
                decreases row@.len() - j,
            {
                new_row.push(row[j].clone());
                j += 1;
            }
            assert(new_row@.map_values(|p: Polynomial| p@) =~= row@.map_values(|p: Polynomial| p@));
            out.push(new_row);
            i += 1;
        }
        let r = PolynomialMatrix { rows: self.rows, cols: self.cols, elements: out };
        assert(r@ =~= self@);
        r
    }
}

impl View for Polynomial {
    type V = Seq<i32>;

    open spec fn view(&self) -> Seq<i32> {
        self.coeffs@
    }
}

impl View for PolynomialVector {
    type V = Seq<Seq<i32>>;

    open spec fn view(&self) -> Seq<Seq<i32>> {
        self.elements@.map_values(|p: Polynomial| p@)
    }
}

impl View for PolynomialMatrix {
    type V = Seq<Seq<Seq<i32>>>;

    open spec fn view(&self) -> Seq<Seq<Seq<i32>>> {
        self.elements@.map_values(|row: Vec<Polynomial>| row@.map_values(|p: Polynomial| p@))
    }
}

/// Every coefficient of `p` lies in `[lo, hi]`.
pub open spec fn coeffs_within(p: Seq<i32>, lo: int, hi: int) -> bool {
    forall|i: int| 0 <= i < p.len() ==> lo <= #[trigger] p[i] <= hi
}

/// Every coefficient of every polynomial of `v` lies in `[lo, hi]`.
pub open spec fn vec_coeffs_within(v: Seq<Seq<i32>>, lo: int, hi: int) -> bool {
    forall|j: int| 0 <= j < v.len() ==> coeffs_within(#[trigger] v[j], lo, hi)
}

/// All polynomials of `v` have `n` coefficients.
pub open spec fn vec_uniform(v: Seq<Seq<i32>>, n: int) -> bool {
    forall|j: int| 0 <= j < v.len() ==> (#[trigger] v[j]).len() == n
}

/// The matrix has `rows x cols` entries, each with `n` coefficients.
pub open spec fn mat_shape(a: Seq<Seq<Seq<i32>>>, rows: int, cols: int, n: int) -> bool {
    &&& a.len() == rows
    &&& forall|i: int| 0 <= i < rows ==> (#[trigger] a[i]).len() == cols
    &&& forall|i: int, j: int| 0 <= i < rows && 0 <= j < cols ==> (#[trigger] a[i][j]).len() == n
}

/// Largest absolute value among the coefficients (0 for an empty polynomial).
pub open spec fn max_abs(p: Seq<i32>) -> int
    decreases p.len(),
{
    if p.len() == 0 {
        0
    } else {
        let rest = max_abs(p.drop_last());
        let last = if p.last() < 0 { -(p.last() as int) } else { p.last() as int };
        if last > rest { last } else { rest }
    }
}

/// Largest `max_abs` over the polynomials of a vector (0 when empty).
pub open spec fn vec_max_abs(v: Seq<Seq<i32>>) -> int
    decreases v.len(),
{
    if v.len() == 0 {
        0
    } else {
        let rest = vec_max_abs(v.drop_last());
        let last = max_abs(v.last());
        if last > rest { last } else { rest }
    }
}

pub proof fn lemma_max_abs_bound(p: Seq<i32>, b: int)
    ensures
        max_abs(p) >= 0,
        (max_abs(p) < b) <==> (b > 0 && forall|i: int| 0 <= i < p.len() ==> -b < #[trigger] p[i] < b),
    decreases p.len(),
{
    if p.len() > 0 {
        lemma_max_abs_bound(p.drop_last(), b);
        assert forall|i: int| 0 <= i < p.len() - 1 implies #[trigger] p[i] == p.drop_last()[i] by {}
        if forall|i: int| 0 <= i < p.len() ==> -b < #[trigger] p[i] < b {
            assert(-b < p[p.len() - 1] < b);
        }
    }
}

pub proof fn lemma_vec_max_abs_bound(v: Seq<Seq<i32>>, b: int)
    ensures
        vec_max_abs(v) >= 0,
        (vec_max_abs(v) < b) <==> (b > 0 && forall|j: int| 0 <= j < v.len() ==> max_abs(#[trigger] v[j]) < b),
    decreases v.len(),
{
    if v.len() > 0 {
        lemma_vec_max_abs_bound(v.drop_last(), b);
        lemma_max_abs_bound(v.last(), b);
        assert forall|j: int| 0 <= j < v.len() - 1 implies #[trigger] v[j] == v.drop_last()[j] by {}
        if forall|j: int| 0 <= j < v.len() ==> max_abs(#[trigger] v[j]) < b {
            assert(max_abs(v[v.len() - 1]) < b);
        }
    }
}

/// Coefficient-wise centered representatives of `p` modulo `q`.
pub open spec fn center_seq(p: Seq<i32>, q: int) -> Seq<int> {
    Seq::new(p.len(), |i: int| center(p[i] as int, q))
}

/// Centered absolute value used by [`Polynomial::infinity_norm`].
pub open spec fn centered_abs(c: int, q: int) -> int {
    let r = c % q;
    if r > q / 2 { q - r } else { r }
}

/// Largest centered absolute value of the coefficients.
pub open spec fn max_centered_abs(p: Seq<i32>, q: int) -> int
    decreases p.len(),
{
    if p.len() == 0 {
        0
    } else {
        let rest = max_centered_abs(p.drop_last(), q);
        let last = centered_abs(p.last() as int, q);
        if last > rest { last } else { rest }
    }
}

pub(crate) fn mod_reduce(c: i32, q: u32) -> (r: i32)
    requires
        valid_q(q),
    ensures
        r == (c as int) % (q as int),
        0 <= r < q,
{
    proof {
        lemma_trem(c as int, q as int);
    }
    let qi = q as i32;
    let t = c % qi;
    (t + qi) % qi
}

impl Polynomial {
    /// Create a new zero polynomial with `n` coefficients.
    pub fn new(n: usize) -> (p: Self)
        ensures
            p@ == Seq::new(n as nat, |i: int| 0i32),
    {
        let mut coeffs: Vec<i32> = Vec::with_capacity(n);
        let mut i: usize = 0;
        while i < n
            invariant
                i <= n,
                coeffs@ == Seq::new(i as nat, |j: int| 0i32),
            decreases n - i,
        {
            coeffs.push(0);
            i += 1;
        }
        Polynomial { coeffs }
    }

    /// Create a polynomial from a coefficient array, reducing each coefficient mod `q`.
    pub fn from_coeffs(coeffs: &[i32], q: u32) -> (p: Self)
        requires
            valid_q(q),
        ensures
            p@.len() == coeffs@.len(),
            forall|i: int| 0 <= i < coeffs@.len() ==> #[trigger] p@[i] == (coeffs@[i] as int) % (q as int),
            coeffs_within(p@, 0, q - 1),
    {
        let mut out: Vec<i32> = Vec::with_capacity(coeffs.len());
        let mut i: usize = 0;
        while i < coeffs.len()
            invariant
                i <= coeffs@.len(),
                valid_q(q),
                out@.len() == i,
                forall|j: int| 0 <= j < i ==> #[trigger] out@[j] == (coeffs@[j] as int) % (q as int),
                coeffs_within(out@, 0, q - 1),
            decreases coeffs.len() - i,
        {
            out.push(mod_reduce(coeffs[i], q));
            i += 1;
        }
        Polynomial { coeffs: out }
    }

    /// Add two polynomials mod `q` (over the common prefix of their coefficients).
    pub fn add(&self, other: &Self, q: u32) -> (r: Self)
        requires
            valid_q(q) || self@.len() == 0 || other@.len() == 0,
            forall|i: int| 0 <= i < self@.len() && i < other@.len()
                ==> fits_i32(#[trigger] self@[i] + other@[i]),
        ensures
            r@.len() == if self@.len() < other@.len() { self@.len() } else { other@.len() },
            forall|i: int| 0 <= i < r@.len() ==> #[trigger] r@[i] == (self@[i] + other@[i]) % (q as int),
            coeffs_within(r@, 0, q - 1),
    {
        let len = if self.coeffs.len() < other.coeffs.len() { self.coeffs.len() } else { other.coeffs.len() };
        let mut out: Vec<i32> = Vec::with_capacity(len);
        let mut i: usize = 0;
        while i < len
            invariant
                i <= len,
                len <= self@.len(),
                len <= other@.len(),
                len > 0 ==> valid_q(q),
                forall|i: int| 0 <= i < self@.len() && i < other@.len()
                    ==> fits_i32(#[trigger] self@[i] + other@[i]),
                out@.len() == i,
                forall|j: int| 0 <= j < i ==> #[trigger] out@[j] == (self@[j] + other@[j]) % (q as int),
                coeffs_within(out@, 0, q - 1),
            decreases len - i,
        {
            assert(fits_i32(self@[i as int] + other@[i as int]));
            out.push(mod_reduce(self.coeffs[i] + other.coeffs[i], q));
            i += 1;
        }
        Polynomial { coeffs: out }
    }

    /// Subtract two polynomials mod `q` (over the common prefix of their coefficients).
    pub fn sub(&self, other: &Self, q: u32) -> (r: Self)
        requires
            valid_q(q) || self@.len() == 0 || other@.len() == 0,
            forall|i: int| 0 <= i < self@.len() && i < other@.len()
                ==> fits_i32(#[trigger] self@[i] - other@[i]),
        ensures
            r@.len() == if self@.len() < other@.len() { self@.len() } else { other@.len() },
            forall|i: int| 0 <= i < r@.len() ==> #[trigger] r@[i] == (self@[i] - other@[i]) % (q as int),
            coeffs_within(r@, 0, q - 1),
    {
        let len = if self.coeffs.len() < other.coeffs.len() { self.coeffs.len() } else { other.coeffs.len() };
        let mut out: Vec<i32> = Vec::with_capacity(len);
        let mut i: usize = 0;
        while i < len
            invariant
                i <= len,
                len <= self@.len(),
                len <= other@.len(),
                len > 0 ==> valid_q(q),
                forall|i: int| 0 <= i < self@.len() && i < other@.len()
                    ==> fits_i32(#[trigger] self@[i] - other@[i]),
                out@.len() == i,
                forall|j: int| 0 <= j < i ==> #[trigger] out@[j] == (self@[j] - other@[j]) % (q as int),
                coeffs_within(out@, 0, q - 1),
            decreases len - i,
        {
            assert(fits_i32(self@[i as int] - other@[i as int]));
            out.push(mod_reduce(self.coeffs[i] - other.coeffs[i], q));
            i += 1;
        }
        Polynomial { coeffs: out }
    }

    /// Multiply a polynomial by a scalar mod `q`.
    pub fn scalar_mul(&self, scalar: i32, q: u32) -> (r: Self)
        requires
            valid_q(q),
            forall|i: int| 0 <= i < self@.len() ==> fits_i32(#[trigger] self@[i] * scalar),
        ensures
            r@.len() == self@.len(),
            forall|i: int| 0 <= i < r@.len() ==> #[trigger] r@[i] == (self@[i] * scalar) % (q as int),
            coeffs_within(r@, 0, q - 1),
    {
        let mut out: Vec<i32> = Vec::with_capacity(self.coeffs.len());
        let mut i: usize = 0;
        while i < self.coeffs.len()
            invariant
                i <= self@.len(),
                valid_q(q),
                forall|i: int| 0 <= i < self@.len() ==> fits_i32(#[trigger] self@[i] * scalar),
                out@.len() == i,
                forall|j: int| 0 <= j < i ==> #[trigger] out@[j] == (self@[j] * scalar) % (q as int),
                coeffs_within(out@, 0, q - 1),
            decreases self@.len() - i,
        {
            assert(fits_i32(self@[i as int] * scalar));
            out.push(mod_reduce(self.coeffs[i] * scalar, q));
            i += 1;
        }
        Polynomial { coeffs: out }
    }

    /// Add two polynomials in the integer domain (no reduction mod `q`).
    pub fn add_integer(&self, other: &Self) -> (r: Self)
        requires
            forall|i: int| 0 <= i < self@.len() && i < other@.len()
                ==> fits_i32(#[trigger] self@[i] + other@[i]),
        ensures
            r@.len() == if self@.len() < other@.len() { self@.len() } else { other@.len() },
            forall|i: int| 0 <= i < r@.len() ==> #[trigger] r@[i] == self@[i] + other@[i],
    {
        let len = if self.coeffs.len() < other.coeffs.len() { self.coeffs.len() } else { other.coeffs.len() };
        let mut out: Vec<i32> = Vec::with_capacity(len);
        let mut i: usize = 0;
        while i < len
            invariant
                i <= len,
                len <= self@.len(),
                len <= other@.len(),
                forall|i: int| 0 <= i < self@.len() && i < other@.len()
                    ==> fits_i32(#[trigger] self@[i] + other@[i]),
                out@.len() == i,
                forall|j: int| 0 <= j < i ==> #[trigger] out@[j] == self@[j] + other@[j],
            decreases len - i,
        {
            assert(fits_i32(self@[i as int] + other@[i as int]));
            let sum: i64 = self.coeffs[i] as i64 + other.coeffs[i] as i64;
            out.push(sum as i32);
            i += 1;
        }
        Polynomial { coeffs: out }
    }

    /// Subtract two polynomials in the integer domain (no reduction mod `q`).
    pub fn sub_integer(&self, other: &Self) -> (r: Self)
        requires
            forall|i: int| 0 <= i < self@.len() && i < other@.len()
                ==> fits_i32(#[trigger] self@[i] - other@[i]),
        ensures
            r@.len() == if self@.len() < other@.len() { self@.len() } else { other@.len() },
            forall|i: int| 0 <= i < r@.len() ==> #[trigger] r@[i] == self@[i] - other@[i],
    {
        let len = if self.coeffs.len() < other.coeffs.len() { self.coeffs.len() } else { other.coeffs.len() };
        let mut out: Vec<i32> = Vec::with_capacity(len);
        let mut i: usize = 0;
        while i < len
            invariant
                i <= len,
                len <= self@.len(),
                len <= other@.len(),
                forall|i: int| 0 <= i < self@.len() && i < other@.len()
                    ==> fits_i32(#[trigger] self@[i] - other@[i]),
                out@.len() == i,
                forall|j: int| 0 <= j < i ==> #[trigger] out@[j] == self@[j] - other@[j],
            decreases len - i,
        {
            assert(fits_i32(self@[i as int] - other@[i as int]));
            let diff: i64 = self.coeffs[i] as i64 - other.coeffs[i] as i64;
            out.push(diff as i32);
            i += 1;
        }
        Polynomial { coeffs: out }
    }

    /// Infinity norm in the integer domain: the largest absolute coefficient.
    pub fn infinity_norm_integer(&self) -> (r: i64)
        ensures
            r == max_abs(self@),
    {
        let mut best: i64 = 0;
        let mut i: usize = 0;
        while i < self.coeffs.len()
            invariant
                i <= self@.len(),
                best == max_abs(self@.subrange(0, i as int)),
                0 <= best <= 0x8000_0000,
            decreases self@.len() - i,
        {
            let c = self.coeffs[i] as i64;
            let a = if c < 0 { -c } else { c };
            assert(self@.subrange(0, i + 1).drop_last() == self@.subrange(0, i as int));
            if a > best {
                best = a;
            }
            i += 1;
        }
        assert(self@.subrange(0, self@.len() as int) == self@);
        best
    }

    /// Center coefficients modulo `q` into `(-q/2, q/2]`.
    pub fn center_coefficients(&self, q: u32) -> (r: Self)
        requires
            q >= 1,
        ensures
            r@.len() == self@.len(),
            forall|i: int| 0 <= i < r@.len() ==> #[trigger] r@[i] == center(self@[i] as int, q as int),
    {
        let q_i64 = q as i64;
        let half_q = q_i64 / 2;
        let mut out: Vec<i32> = Vec::with_capacity(self.coeffs.len());
        let mut i: usize = 0;
        while i < self.coeffs.len()
            invariant
                i <= self@.len(),
                q >= 1,
                q_i64 == q,
                half_q == q / 2,
                out@.len() == i,
                forall|j: int| 0 <= j < i ==> #[trigger] out@[j] == center(self@[j] as int, q as int),
            decreases self@.len() - i,
        {
            let c = self.coeffs[i];
            proof {
                lemma_trem(c as int, q as int);
                lemma_center(c as int, q as int);
            }
            let c_mod = ((c as i64 % q_i64) + q_i64) % q_i64;
            let centered = if c_mod > half_q { c_mod - q_i64 } else { c_mod };
            out.push(centered as i32);
            i += 1;
        }
        Polynomial { coeffs: out }
    }

    /// Infinity norm with centered modular reduction: `max_i min(c_i mod q, q - c_i mod q)`.
    pub fn infinity_norm(&self, q: u32) -> (r: i32)
        requires
            q >= 1,
        ensures
            r == max_centered_abs(self@, q as int),
    {
        let q_i64 = q as i64;
        let q_half = q_i64 / 2;
        let mut best: i32 = 0;
        let mut i: usize = 0;
        while i < self.coeffs.len()
            invariant
                i <= self@.len(),
                q >= 1,
                q_i64 == q,
                q_half == q / 2,
                best == max_centered_abs(self@.subrange(0, i as int), q as int),
                best >= 0,
            decreases self@.len() - i,
        {
            let c = self.coeffs[i];
            proof {
                lemma_trem(c as int, q as int);
            }
            let c_mod = ((c as i64 % q_i64) + q_i64) % q_i64;
            let centered = if c_mod > q_half { q_i64 - c_mod } else { c_mod };
            assert(self@.subrange(0, i + 1).drop_last() == self@.subrange(0, i as int));
            let centered = centered as i32;
            if centered > best {
                best = centered;
            }
            i += 1;
        }
        assert(self@.subrange(0, self@.len() as int) == self@);
        best
    }
}


/// Bit pattern of the default Gaussian width 100.0 (an IEEE-754 double).
pub const SIGMA_100_BITS: u64 = 0x4059_0000_0000_0000;

/// Base value of `gamma1` before Gaussian-width scaling.
pub const BASE_GAMMA1: u32 = 0x8_0000;

/// Core parameters for the Module-LWE based signature scheme.
///
/// The Gaussian width is carried as the bit pattern of its IEEE-754 double
/// (`f64::to_bits`); the library only stores and compares it.
#[derive(Debug, Clone, Copy, PartialEq)]
pub struct MLWEParameters {
    /// Module dimension (number of polynomials in vector/matrix)
    pub k: usize,
    /// Polynomial degree (ring dimension)
    pub n: usize,
    /// Modulus for coefficient arithmetic
    pub q: u32,
    /// Binomial distribution parameter for the secret key
    pub eta1: i32,
    /// Binomial distribution parameter for signatures
    pub eta2: i32,
    /// Bound on norm of signature components
    pub beta: i32,
    /// Coefficient range parameter
    pub gamma1: u32,
    /// Decomposition parameter for hint-based verification
    pub gamma2: i32,
    /// Number of columns in the public matrix A
    pub m: usize,
    /// Number of columns per row in the gadget matrix G
    pub ell: usize,
    /// Base for gadget decomposition (e.g., 256)
    pub base: u32,
    /// Gaussian noise standard deviation, as the bits of an `f64`
    pub sigma_bits: u64,
    /// Challenge Hamming weight (number of ±1 coefficients in sparse challenge)
    pub tau: i32,
}

/// The consistency conditions checked by `validate_parameter_consistency`.
pub open spec fn params_consistent(p: MLWEParameters) -> bool {
    let eta_max = if p.eta1 >= p.eta2 { p.eta1 as int } else { p.eta2 as int };
    &&& p.beta == p.tau * eta_max
    &&& p.gamma1 < p.q / 2
    &&& ((p.gamma1 as int - p.beta as int) as i32) > 0
}

/// `gamma1` after scaling by `scale`, capped below `q/2`.
pub open spec fn scaled_gamma1(q: u32, scale: u32) -> u32 {
    let s = if BASE_GAMMA1 * scale > u32::MAX { u32::MAX as int } else { BASE_GAMMA1 * scale };
    if s < q / 2 - 1 { s as u32 } else { (q / 2 - 1) as u32 }
}

/// Parameters for `decompose` keep every intermediate value inside `i32`.
pub open spec fn decompose_ok(gamma2: i32, q: u32) -> bool {
    &&& valid_q(q)
    &&& 1 <= gamma2
    &&& 2 * gamma2 <= i32::MAX
    &&& q - 1 + gamma2 <= i32::MAX
}

/// `use_hint` additionally needs at least one high-bits bucket.
pub open spec fn hint_ok(gamma2: i32, q: u32) -> bool {
    decompose_ok(gamma2, q) && 2 * gamma2 <= q - 1
}

/// Decompose `r mod q = r1 * 2*gamma2 + r0` (result `(r0, r1)`).
pub open spec fn spec_decompose(r: int, gamma2: int, q: int) -> (int, int) {
    let r_mod = r % q;
    let alpha = 2 * gamma2;
    let r1 = (r_mod + gamma2) / alpha;
    let r0 = r_mod - r1 * alpha;
    if r0 > gamma2 { (r0 - alpha, r1 + 1) } else { (r0, r1) }
}

/// `MakeHint(z, r)`: 1 iff adding `z` changes the high bits of `r`.
pub open spec fn spec_make_hint(z: int, r: int, gamma2: int, q: int) -> int {
    let r_mod = r % q;
    let z_mod = z % q;
    let rz_mod = (r_mod + z_mod) % q;
    if spec_decompose(r_mod, gamma2, q).1 != spec_decompose(rz_mod, gamma2, q).1 { 1 } else { 0 }
}

/// `UseHint(h, r)`: the high bits of `r`, moved one bucket when the hint is set.
pub open spec fn spec_use_hint(h: int, r: int, gamma2: int, q: int) -> int {
    let r_mod = r % q;
    let alpha = 2 * gamma2;
    let m = (q - 1) / alpha;
    let (r0, r1) = spec_decompose(r_mod, gamma2, q);
    if h == 0 {
        r1
    } else if r0 > 0 {
        (r1 + 1) % m
    } else {
        (r1 - 1 + m) % m
    }
}

/// Facts about `spec_decompose`: the parts recombine to `r mod q`,
/// the low part is at most `gamma2` in absolute value, the high part is non-negative.
pub proof fn lemma_decompose(r: int, gamma2: int, q: int)
    requires
        q >= 1,
        gamma2 >= 1,
    ensures
        spec_decompose(r, gamma2, q).1 * (2 * gamma2) + spec_decompose(r, gamma2, q).0 == r % q,
        -gamma2 <= spec_decompose(r, gamma2, q).0 < gamma2,
        spec_decompose(r, gamma2, q).1 >= 0,
        spec_decompose(r, gamma2, q).1 * (2 * gamma2) <= r % q + gamma2,
        spec_decompose(r % q, gamma2, q) == spec_decompose(r, gamma2, q),
{
    let r_mod = r % q;
    let alpha = 2 * gamma2;
    vstd::arithmetic::div_mod::lemma_mod_bound(r, q);
    vstd::arithmetic::div_mod::lemma_mod_twice(r, q);
    vstd::arithmetic::div_mod::lemma_fundamental_div_mod(r_mod + gamma2, alpha);
    vstd::arithmetic::div_mod::lemma_mod_bound(r_mod + gamma2, alpha);
    vstd::arithmetic::div_mod::lemma_div_pos_is_pos(r_mod + gamma2, alpha);
    let r1 = (r_mod + gamma2) / alpha;
    assert(r1 * alpha == alpha * r1) by (nonlinear_arith);
}

/// Decomposition recombines to the input modulo `q`, with a small low part.
pub proof fn lemma_decompose_roundtrip(r: int, gamma2: int, q: int)
    requires
        q >= 1,
        gamma2 >= 1,
    ensures
        ({
            let (r0, r1) = spec_decompose(r, gamma2, q);
            &&& (r1 * 2 * gamma2 + r0) % q == r % q
            &&& -gamma2 <= r0 <= gamma2
        }),
{
    lemma_decompose(r, gamma2, q);
    let (r0, r1) = spec_decompose(r, gamma2, q);
    assert(r1 * 2 * gamma2 == r1 * (2 * gamma2)) by (nonlinear_arith);
    vstd::arithmetic::div_mod::lemma_mod_twice(r, q);
}

/// A hint is a single bit.
pub proof fn lemma_make_hint_is_bit(z: int, r: int, gamma2: int, q: int)
    ensures
        spec_make_hint(z, r, gamma2, q) == 0 || spec_make_hint(z, r, gamma2, q) == 1,
{
}

/// The hint is set exactly when the high bits of `r` and of `z + r mod q` differ.
pub proof fn lemma_make_hint_decompose(z: int, r: int, gamma2: int, q: int)
    requires
        q >= 1,
    ensures
        spec_make_hint(z, r, gamma2, q) == (if spec_decompose(r, gamma2, q).1 != spec_decompose((z + r) % q, gamma2, q).1 {
            1int
        } else {
            0int
        }),
{
    vstd::arithmetic::div_mod::lemma_mod_twice(r, q);
    vstd::arithmetic::div_mod::lemma_add_mod_noop(r, z, q);
    vstd::arithmetic::div_mod::lemma_mod_twice(z + r, q);
    assert(r + z == z + r);
}

/// Coefficient-wise addition modulo `q` is commutative, and subtracting the
/// second operand again gives the first back (coefficients in `[0, q)`).
pub proof fn lemma_add_commutes_and_sub_cancels(a: Seq<i32>, b: Seq<i32>, q: int)
    requires
        q >= 1,
        coeffs_within(a, 0, q - 1),
        coeffs_within(b, 0, q - 1),
    ensures
        forall|i: int| 0 <= i < a.len() && i < b.len() ==> (#[trigger] a[i] + b[i]) % q == (b[i] + a[i]) % q,
        forall|i: int| 0 <= i < a.len() && i < b.len() ==> ((#[trigger] a[i] + b[i]) % q - b[i]) % q == a[i],
{
    assert forall|i: int| 0 <= i < a.len() && i < b.len() implies ((#[trigger] a[i] + b[i]) % q - b[i]) % q == a[i] by {
        let x = a[i] as int;
        let y = b[i] as int;
        vstd::arithmetic::div_mod::lemma_add_mod_noop(x + y, -y, q);
        vstd::arithmetic::div_mod::lemma_mod_twice(x + y, q);
        vstd::arithmetic::div_mod::lemma_add_mod_noop((x + y) % q, -y, q);
        vstd::arithmetic::div_mod::lemma_small_mod(x as nat, q as nat);
        assert(x + y + -y == x);
        assert((x + y) % q - y == (x + y) % q + -y);
    }
}

/// With a zero hint, `use_hint` returns the high bits of the decomposition.
pub proof fn lemma_use_hint_zero(r: int, gamma2: int, q: int)
    requires
        q >= 1,
        gamma2 >= 1,
    ensures
        spec_use_hint(0, r, gamma2, q) == spec_decompose(r, gamma2, q).1,
{
    lemma_decompose(r, gamma2, q);
}

impl MLWEParameters {
    /// Apply a Gaussian width and scale `gamma1` by `scale` (the rounded-up
    /// ratio `sigma / 3`), capping it at `q/2 - 1`.
    pub fn with_sigma_scaled(self, sigma_bits: u64, scale: u32) -> (r: Self)
        requires
            self.q >= 2,
            params_consistent(MLWEParameters { sigma_bits, gamma1: scaled_gamma1(self.q, scale), ..self }),
        ensures
            r == (MLWEParameters { sigma_bits, gamma1: scaled_gamma1(self.q, scale), ..self }),
    {
        let mut p = self;
        p.sigma_bits = sigma_bits;
        let wide = BASE_GAMMA1 as u64 * scale as u64;
        let scaled: u32 = if wide > u32::MAX as u64 { u32::MAX } else { wide as u32 };
        let cap = self.q / 2 - 1;
        p.gamma1 = if scaled < cap { scaled } else { cap };
        p
    }

    /// Check the relations between `beta`, `gamma1` and `q` that signing relies on.
    pub fn validate_parameter_consistency(&self) -> (r: Result<(), crate::errors::PabsCrfError>)
        requires
            fits_i32(self.tau * (if self.eta1 >= self.eta2 { self.eta1 as int } else { self.eta2 as int })),
        ensures
            r is Ok <==> params_consistent(*self),
            r matches Err(e) ==> e is InvalidInput,
    {
        let eta_max = if self.eta1 >= self.eta2 { self.eta1 } else { self.eta2 };
        if self.beta != self.tau * eta_max {
            return Err(crate::errors::PabsCrfError::InvalidInput(
                "Parameter inconsistency: beta != tau * eta_max".to_string(),
            ));
        }
        if self.gamma1 >= self.q / 2 {
            return Err(crate::errors::PabsCrfError::InvalidInput(
                "Parameter inconsistency: gamma1 >= q/2".to_string(),
            ));
        }
        let z_bound = (self.gamma1 as i64 - self.beta as i64) as i32;
        if z_bound <= 0 {
            return Err(crate::errors::PabsCrfError::InvalidInput(
                "Parameter inconsistency: z_bound = gamma1 - beta must be positive".to_string(),
            ));
        }
        Ok(())
    }

    /// Decompose `r` into `(r0, r1)` with `r mod q = r1 * 2*gamma2 + r0` and `|r0| <= gamma2`.
    pub fn decompose(r: i32, gamma2: i32, q: u32) -> (res: (i32, i32))
        requires
            decompose_ok(gamma2, q),
        ensures
            res.0 == spec_decompose(r as int, gamma2 as int, q as int).0,
            res.1 == spec_decompose(r as int, gamma2 as int, q as int).1,
    {
        let r_mod = mod_reduce(r, q);
        let alpha = 2 * gamma2;
        proof {
            lemma_decompose(r as int, gamma2 as int, q as int);
        }
        let mut r1 = (r_mod + gamma2) / alpha;
        let mut r0 = r_mod - r1 * alpha;
        if r0 > gamma2 {
            r1 += 1;
            r0 -= alpha;
        }
        (r0, r1)
    }

    /// MakeHint: 1 if the high bits of `r` and `r + z` differ, else 0.
    pub fn make_hint(z: i32, r: i32, gamma2: i32, q: u32) -> (h: i32)
        requires
            decompose_ok(gamma2, q),
        ensures
            h == spec_make_hint(z as int, r as int, gamma2 as int, q as int),
            h == 0 || h == 1,
    {
        let r_mod = mod_reduce(r, q);
        let z_mod = mod_reduce(z, q);
        let rz_mod = mod_reduce(r_mod + z_mod, q);
        let (_, r1) = Self::decompose(r_mod, gamma2, q);
        let (_, rz1) = Self::decompose(rz_mod, gamma2, q);
        if r1 != rz1 {
            1
        } else {
            0
        }
    }

    /// UseHint: reconstruct the high bits of `r`, adjusted by the hint bit `h`.
    pub fn use_hint(h: i32, r: i32, gamma2: i32, q: u32) -> (res: i32)
        requires
            hint_ok(gamma2, q),
        ensures
            res == spec_use_hint(h as int, r as int, gamma2 as int, q as int),
    {
        let q_i = q as i32;
        let r_mod = mod_reduce(r, q);
        let alpha = 2 * gamma2;
        let m = (q_i - 1) / alpha;
        proof {
            lemma_decompose(r_mod as int, gamma2 as int, q as int);
            vstd::arithmetic::div_mod::lemma_div_pos_is_pos((q - 1) as int, alpha as int);
            vstd::arithmetic::div_mod::lemma_div_is_ordered_by_denominator((q - 1) as int, alpha as int, alpha as int);
            vstd::arithmetic::div_mod::lemma_div_by_self(alpha as int);
            vstd::arithmetic::div_mod::lemma_div_is_ordered(alpha as int, (q - 1) as int, alpha as int);
            vstd::arithmetic::div_mod::lemma_div_is_ordered(0, (q - 1) as int, alpha as int);
            vstd::arithmetic::div_mod::lemma_fundamental_div_mod((q - 1) as int, alpha as int);
            vstd::arithmetic::div_mod::lemma_mod_bound((q - 1) as int, alpha as int);
        }
        let (r0, r1) = Self::decompose(r_mod, gamma2, q);
        proof {
            assert(2 * r1 <= q) by (nonlinear_arith)
                requires r1 * (2 * gamma2) <= q - 1 + gamma2, gamma2 >= 1, r1 >= 0, q >= 1;
            assert(m == ((q - 1) as int) / (alpha as int));
            let rem = ((q - 1) as int) % (alpha as int);
            assert(m * alpha <= q - 1) by (nonlinear_arith)
                requires (q - 1) as int == alpha * m + rem, rem >= 0;
            assert(m <= m * alpha) by (nonlinear_arith)
                requires m >= 0, alpha >= 1;
        }
        if h == 0 {
            r1
        } else {
            if r0 > 0 {
                (r1 + 1) % m
            } else {
                (r1 - 1 + m) % m
            }
        }
    }
}


impl MLWEParameters {
    /// Power2Round: split `r` into `(r0, r1)` with `r0 = r & (2^d - 1)` and `r1 = (r - r0) >> d`,
    /// so that `r1 * 2^d + r0 == r`.
    pub fn power2round(r: i32, d: u32) -> (res: (i32, i32))
        requires
            d <= 30,
        ensures
            res.0 == r & (((1i32 << d) - 1) as i32),
            res.1 == ((r - res.0) as i32) >> d,
            0 <= res.0 < (1i32 << d),
            res.1 * (1i32 << d) + res.0 == r,
    {
        assert(1i32 << d >= 1 && 1i32 << d <= 0x4000_0000) by (bit_vector)
            requires d <= 30;
        let mask = (1i32 << d) - 1;
        let r0 = r & mask;
        assert(0 <= r0 <= mask && r - r0 >= i32::MIN) by (bit_vector)
            requires mask == ((1i32 << d) - 1) as i32, d <= 30, r0 == r & mask;
        let r1 = (r - r0) >> d;
        assert((((r - r0) as i32) >> d) * (1i32 << d) + r0 == r) by (bit_vector)
            requires mask == ((1i32 << d) - 1) as i32, d <= 30, r0 == r & mask;
        (r0, r1)
    }

    /// HighBits: `((r + gamma) >> d) mod (q >> d)` with `gamma = (q - 1) / 2^(d+1)`
    /// (remainder taken with the sign of the dividend, as in Rust).
    pub fn high_bits(r: i32, d: u32, q: u32) -> (res: i32)
        requires
            d <= 29,
            q <= i32::MAX,
            q >> d >= 1,
            fits_i32(r + (q - 1) / (2 * (1i32 << d))),
        ensures
            res == trem(((r + (q - 1) / (2 * (1i32 << d))) as i32 >> d) as int, (q >> d) as int),
    {
        assert(1i32 << d >= 1 && 1i32 << d <= 0x2000_0000) by (bit_vector)
            requires d <= 29;
        assert(q >> d <= q) by (bit_vector);
        let two_d = 2 * (1i32 << d);
        let gamma = ((q as i32) - 1) / two_d;
        assert(gamma == (q - 1) / (2 * (1i32 << d)));
        let qd = (q >> d) as i32;
        let shifted = (r + gamma) >> d;
        shifted % qd
    }

    /// LowBits: the low `d` bits of `r`.
    pub fn low_bits(r: i32, d: u32) -> (res: i32)
        requires
            d <= 30,
        ensures
            res == r & (((1i32 << d) - 1) as i32),
    {
        assert(1i32 << d >= 1 && 1i32 << d <= 0x4000_0000) by (bit_vector)
            requires d <= 30;
        let mask = (1i32 << d) - 1;
        r & mask
    }
}


impl Polynomial {
    /// Decompose every coefficient into its low and high parts (`(low, high)`).
    pub fn decompose(&self, gamma2: i32, q: u32) -> (res: (Self, Self))
        requires
            decompose_ok(gamma2, q),
        ensures
            res.0@.len() == self@.len(),
            res.1@.len() == self@.len(),
            forall|i: int| 0 <= i < self@.len() ==> #[trigger] res.0@[i]
                == spec_decompose(self@[i] as int, gamma2 as int, q as int).0,
            forall|i: int| 0 <= i < self@.len() ==> #[trigger] res.1@[i]
                == spec_decompose(self@[i] as int, gamma2 as int, q as int).1,
    {
        let mut high: Vec<i32> = Vec::with_capacity(self.coeffs.len());
        let mut low: Vec<i32> = Vec::with_capacity(self.coeffs.len());
        let mut i: usize = 0;
        while i < self.coeffs.len()
            invariant
                i <= self@.len(),
                decompose_ok(gamma2, q),
                low@.len() == i,
                high@.len() == i,
                forall|j: int| 0 <= j < i ==> #[trigger] low@[j]
                    == spec_decompose(self@[j] as int, gamma2 as int, q as int).0,
                forall|j: int| 0 <= j < i ==> #[trigger] high@[j]
                    == spec_decompose(self@[j] as int, gamma2 as int, q as int).1,
            decreases self@.len() - i,
        {
            let (r0, r1) = MLWEParameters::decompose(self.coeffs[i], gamma2, q);
            low.push(r0);
            high.push(r1);
            i += 1;
        }
        (Polynomial { coeffs: low }, Polynomial { coeffs: high })
    }

    /// Coefficient-wise MakeHint of `a0` (the perturbation) against `a1`.
    pub fn make_hint(a0: &Self, a1: &Self, gamma2: i32, q: u32) -> (h: Self)
        requires
            decompose_ok(gamma2, q),
            a1@.len() >= a0@.len(),
        ensures
            h@.len() == a0@.len(),
            forall|i: int| 0 <= i < a0@.len() ==> #[trigger] h@[i]
                == spec_make_hint(a0@[i] as int, a1@[i] as int, gamma2 as int, q as int),
            coeffs_within(h@, 0, 1),
    {
        let mut hints: Vec<i32> = Vec::with_capacity(a0.coeffs.len());
        let mut i: usize = 0;
        while i < a0.coeffs.len()
            invariant
                i <= a0@.len(),
                a1@.len() >= a0@.len(),
                decompose_ok(gamma2, q),
                hints@.len() == i,
                forall|j: int| 0 <= j < i ==> #[trigger] hints@[j]
                    == spec_make_hint(a0@[j] as int, a1@[j] as int, gamma2 as int, q as int),
                coeffs_within(hints@, 0, 1),
            decreases a0@.len() - i,
        {
            hints.push(MLWEParameters::make_hint(a0.coeffs[i], a1.coeffs[i], gamma2, q));
            i += 1;
        }
        Polynomial { coeffs: hints }
    }

    /// Coefficient-wise UseHint: reconstruct the high bits of `self` under `hints`.
    pub fn use_hint(&self, hints: &Self, gamma2: i32, q: u32) -> (r: Self)
        requires
            hint_ok(gamma2, q),
            hints@.len() >= self@.len(),
        ensures
            r@.len() == self@.len(),
            forall|i: int| 0 <= i < self@.len() ==> #[trigger] r@[i]
                == spec_use_hint(hints@[i] as int, self@[i] as int, gamma2 as int, q as int),
    {
        let mut high: Vec<i32> = Vec::with_capacity(self.coeffs.len());
        let mut i: usize = 0;
        while i < self.coeffs.len()
            invariant
                i <= self@.len(),
                hints@.len() >= self@.len(),
                hint_ok(gamma2, q),
                high@.len() == i,
                forall|j: int| 0 <= j < i ==> #[trigger] high@[j]
                    == spec_use_hint(hints@[j] as int, self@[j] as int, gamma2 as int, q as int),
            decreases self@.len() - i,
        {
            high.push(MLWEParameters::use_hint(hints.coeffs[i], self.coeffs[i], gamma2, q));
            i += 1;
        }
        Polynomial { coeffs: high }
    }
}

impl PolynomialVector {
    /// Create a vector of `num_polys` zero polynomials of `n` coefficients each.
    pub fn new(num_polys: usize, n: usize) -> (v: Self)
        ensures
            v@.len() == num_polys,
            forall|j: int| 0 <= j < num_polys ==> #[trigger] v@[j] == Seq::new(n as nat, |i: int| 0i32),
    {
        let mut elements: Vec<Polynomial> = Vec::with_capacity(num_polys);
        let mut j: usize = 0;
        while j < num_polys
            invariant
                j <= num_polys,
                elements@.len() == j,
                forall|t: int| 0 <= t < j ==> (#[trigger] elements@[t])@ == Seq::new(n as nat, |i: int| 0i32),
            decreases num_polys - j,
        {
            elements.push(Polynomial::new(n));
            j += 1;
        }
        PolynomialVector { elements }
    }

    /// Decompose every polynomial into low and high parts (`(low, high)`).
    pub fn decompose(&self, gamma2: i32, q: u32) -> (res: (Self, Self))
        requires
            decompose_ok(gamma2, q),
        ensures
            res.0@.len() == self@.len(),
            res.1@.len() == self@.len(),
            forall|j: int| 0 <= j < self@.len() ==> (#[trigger] res.0@[j]).len() == self@[j].len(),
            forall|j: int| 0 <= j < self@.len() ==> (#[trigger] res.1@[j]).len() == self@[j].len(),
            forall|j: int, i: int| 0 <= j < self@.len() && 0 <= i < self@[j].len() ==> #[trigger] res.0@[j][i]
                == spec_decompose(self@[j][i] as int, gamma2 as int, q as int).0,
            forall|j: int, i: int| 0 <= j < self@.len() && 0 <= i < self@[j].len() ==> #[trigger] res.1@[j][i]
                == spec_decompose(self@[j][i] as int, gamma2 as int, q as int).1,
    {
        let mut high_elements: Vec<Polynomial> = Vec::with_capacity(self.elements.len());
        let mut low_elements: Vec<Polynomial> = Vec::with_capacity(self.elements.len());
        let mut j: usize = 0;
        while j < self.elements.len()
            invariant
                j <= self@.len(),
                decompose_ok(gamma2, q),
                low_elements@.len() == j,
                high_elements@.len() == j,
                forall|t: int| 0 <= t < j ==> (#[trigger] low_elements@[t])@.len() == self@[t].len(),
                forall|t: int| 0 <= t < j ==> (#[trigger] high_elements@[t])@.len() == self@[t].len(),
                forall|t: int, i: int| 0 <= t < j && 0 <= i < self@[t].len() ==> #[trigger] low_elements@[t]@[i]
                    == spec_decompose(self@[t][i] as int, gamma2 as int, q as int).0,
                forall|t: int, i: int| 0 <= t < j && 0 <= i < self@[t].len() ==> #[trigger] high_elements@[t]@[i]
                    == spec_decompose(self@[t][i] as int, gamma2 as int, q as int).1,
            decreases self@.len() - j,
        {
            let (low, high) = self.elements[j].decompose(gamma2, q);
            low_elements.push(low);
            high_elements.push(high);
            j += 1;
        }
        (PolynomialVector { elements: low_elements }, PolynomialVector { elements: high_elements })
    }

    /// Make a hint vector from the perturbation `a0` and the vector `a1`.
    pub fn make_hint(a0: &Self, a1: &Self, gamma2: i32, q: u32) -> (h: Self)
        requires
            decompose_ok(gamma2, q),
            forall|j: int| 0 <= j < a0@.len() && j < a1@.len() ==> (#[trigger] a1@[j]).len() >= a0@[j].len(),
        ensures
            h@.len() == if a0@.len() < a1@.len() { a0@.len() } else { a1@.len() },
            forall|j: int| 0 <= j < h@.len() ==> (#[trigger] h@[j]).len() == a0@[j].len(),
            forall|j: int, i: int| 0 <= j < h@.len() && 0 <= i < a0@[j].len() ==> #[trigger] h@[j][i]
                == spec_make_hint(a0@[j][i] as int, a1@[j][i] as int, gamma2 as int, q as int),
            vec_coeffs_within(h@, 0, 1),
    {
        let len = if a0.elements.len() < a1.elements.len() { a0.elements.len() } else { a1.elements.len() };
        let mut elements: Vec<Polynomial> = Vec::with_capacity(len);
        let mut j: usize = 0;
        while j < len
            invariant
                j <= len,
                len <= a0@.len(),
                len <= a1@.len(),
                decompose_ok(gamma2, q),
                forall|j: int| 0 <= j < a0@.len() && j < a1@.len() ==> (#[trigger] a1@[j]).len() >= a0@[j].len(),
                elements@.len() == j,
                forall|t: int| 0 <= t < j ==> (#[trigger] elements@[t])@.len() == a0@[t].len(),
                forall|t: int, i: int| 0 <= t < j && 0 <= i < a0@[t].len() ==> #[trigger] elements@[t]@[i]
                    == spec_make_hint(a0@[t][i] as int, a1@[t][i] as int, gamma2 as int, q as int),
                forall|t: int| 0 <= t < j ==> coeffs_within((#[trigger] elements@[t])@, 0, 1),
            decreases len - j,
        {
            assert(a1@[j as int].len() >= a0@[j as int].len());
            elements.push(Polynomial::make_hint(&a0.elements[j], &a1.elements[j], gamma2, q));
            j += 1;
        }
        let h = PolynomialVector { elements };
        assert forall|t: int| 0 <= t < h@.len() implies coeffs_within(#[trigger] h@[t], 0, 1) by {
            assert(h@[t] == h.elements@[t]@);
        }
        h
    }

    /// Use a hint vector to reconstruct high bits.
    pub fn use_hint(&self, hints: &Self, gamma2: i32, q: u32) -> (r: Self)
        requires
            hint_ok(gamma2, q),
            forall|j: int| 0 <= j < self@.len() && j < hints@.len() ==> (#[trigger] hints@[j]).len() >= self@[j].len(),
        ensures
            r@.len() == if self@.len() < hints@.len() { self@.len() } else { hints@.len() },
            forall|j: int| 0 <= j < r@.len() ==> (#[trigger] r@[j]).len() == self@[j].len(),
            forall|j: int, i: int| 0 <= j < r@.len() && 0 <= i < self@[j].len() ==> #[trigger] r@[j][i]
                == spec_use_hint(hints@[j][i] as int, self@[j][i] as int, gamma2 as int, q as int),
    {
        let len = if self.elements.len() < hints.elements.len() { self.elements.len() } else { hints.elements.len() };
        let mut elements: Vec<Polynomial> = Vec::with_capacity(len);
        let mut j: usize = 0;
        while j < len
            invariant
                j <= len,
                len <= self@.len(),
                len <= hints@.len(),
                hint_ok(gamma2, q),
                forall|j: int| 0 <= j < self@.len() && j < hints@.len() ==> (#[trigger] hints@[j]).len() >= self@[j].len(),
                elements@.len() == j,
                forall|t: int| 0 <= t < j ==> (#[trigger] elements@[t])@.len() == self@[t].len(),
                forall|t: int, i: int| 0 <= t < j && 0 <= i < self@[t].len() ==> #[trigger] elements@[t]@[i]
                    == spec_use_hint(hints@[t][i] as int, self@[t][i] as int, gamma2 as int, q as int),
            decreases len - j,
        {
            assert(hints@[j as int].len() >= self@[j as int].len());
            elements.push(self.elements[j].use_hint(&hints.elements[j], gamma2, q));
            j += 1;
        }
        PolynomialVector { elements }
    }

    /// Infinity norm in the integer domain: the largest absolute coefficient of any polynomial.
    pub fn infinity_norm_integer(&self) -> (r: i64)
        ensures
            r == vec_max_abs(self@),
    {
        let mut best: i64 = 0;
        let mut j: usize = 0;
        while j < self.elements.len()
            invariant
                j <= self@.len(),
                best == vec_max_abs(self@.subrange(0, j as int)),
                0 <= best <= 0x8000_0000,
            decreases self@.len() - j,
        {
            let x = self.elements[j].infinity_norm_integer();
            proof {
                lemma_max_abs_bound(self@[j as int], 0x8000_0001);
                assert(self@.subrange(0, j + 1).drop_last() == self@.subrange(0, j as int));
                assert(self@.subrange(0, j + 1).last() == self@[j as int]);
            }
            if x > best {
                best = x;
            }
            j += 1;
        }
        assert(self@.subrange(0, self@.len() as int) == self@);
        best
    }

    /// Center every coefficient modulo `q` into `(-q/2, q/2]`.
    pub fn center_coefficients(&self, q: u32) -> (r: Self)
        requires
            q >= 1,
        ensures
            r@.len() == self@.len(),
            forall|j: int| 0 <= j < r@.len() ==> (#[trigger] r@[j]).len() == self@[j].len(),
            forall|j: int, i: int| 0 <= j < r@.len() && 0 <= i < self@[j].len() ==> #[trigger] r@[j][i]
                == center(self@[j][i] as int, q as int),
    {
        let mut elements: Vec<Polynomial> = Vec::with_capacity(self.elements.len());
        let mut j: usize = 0;
        while j < self.elements.len()
            invariant
                j <= self@.len(),
                q >= 1,
                elements@.len() == j,
                forall|t: int| 0 <= t < j ==> (#[trigger] elements@[t])@.len() == self@[t].len(),
                forall|t: int, i: int| 0 <= t < j && 0 <= i < self@[t].len() ==> #[trigger] elements@[t]@[i]
                    == center(self@[t][i] as int, q as int),
            decreases self@.len() - j,
        {
            elements.push(self.elements[j].center_coefficients(q));
            j += 1;
        }
        PolynomialVector { elements }
    }
}

impl PolynomialMatrix {
    /// Create a `rows x cols` matrix of zero polynomials with `n` coefficients.
    pub fn new(rows: usize, cols: usize, n: usize) -> (a: Self)
        ensures
            a.rows == rows,
            a.cols == cols,
            mat_shape(a@, rows as int, cols as int, n as int),
            forall|i: int, j: int| 0 <= i < rows && 0 <= j < cols ==> #[trigger] a@[i][j] == Seq::new(n as nat, |t: int| 0i32),
    {
        let mut elements: Vec<Vec<Polynomial>> = Vec::with_capacity(rows);
        let mut i: usize = 0;
        while i < rows
            invariant
                i <= rows,
                elements@.len() == i,
                forall|r: int| 0 <= r < i ==> (#[trigger] elements@[r])@.len() == cols,
                forall|r: int, c: int| 0 <= r < i && 0 <= c < cols ==> (#[trigger] elements@[r]@[c])@ == Seq::new(n as nat, |t: int| 0i32),
            decreases rows - i,
        {
            let mut row: Vec<Polynomial> = Vec::with_capacity(cols);
            let mut j: usize = 0;
            while j < cols
                invariant
                    j <= cols,
                    row@.len() == j,
                    forall|c: int| 0 <= c < j ==> (#[trigger] row@[c])@ == Seq::new(n as nat, |t: int| 0i32),
                decreases cols - j,
            {
                row.push(Polynomial::new(n));
                j += 1;
            }
            elements.push(row);
            i += 1;
        }
        PolynomialMatrix { rows, cols, elements }
    }
}


/// Contribution of `a[i]` to coefficient `k` of the negacyclic product `a * b mod (X^n + 1)`.
pub open spec fn nega_term(a: Seq<i32>, b: Seq<i32>, k: int, i: int) -> int {
    if i <= k { a[i] * b[k - i] } else { -(a[i] * b[k - i + a.len()]) }
}

/// Sum of the first `upto` contributions to coefficient `k`.
pub open spec fn nega_sum(a: Seq<i32>, b: Seq<i32>, k: int, upto: int) -> int
    decreases upto,
{
    if upto <= 0 { 0 } else { nega_sum(a, b, k, upto - 1) + nega_term(a, b, k, upto - 1) }
}

/// Coefficient `k` of the product of `a` and `b` in `Z[X]/(X^n + 1)` (`n = |a|`).
pub open spec fn negacyclic_coeff(a: Seq<i32>, b: Seq<i32>, k: int) -> int {
    nega_sum(a, b, k, a.len() as int)
}

/// Contribution of challenge coefficient `idx` and secret coefficient `i` to coefficient `t`
/// of the integer product computed by `mul_challenge_integer`.
pub open spec fn mci_term(s: Seq<i32>, c: Seq<i32>, t: int, idx: int, i: int) -> int {
    let n = s.len() as int;
    if (idx + i) % n == t {
        if idx + i >= n { -(s[i] * c[idx]) } else { s[i] * c[idx] }
    } else {
        0
    }
}

/// Sum over the first `upto` secret coefficients for challenge index `idx`.
pub open spec fn mci_inner(s: Seq<i32>, c: Seq<i32>, t: int, idx: int, upto: int) -> int
    decreases upto,
{
    if upto <= 0 { 0 } else { mci_inner(s, c, t, idx, upto - 1) + mci_term(s, c, t, idx, upto - 1) }
}

/// Sum over the first `upto` challenge coefficients (zero coefficients contribute nothing).
pub open spec fn mci_outer(s: Seq<i32>, c: Seq<i32>, t: int, upto: int) -> int
    decreases upto,
{
    if upto <= 0 {
        0
    } else {
        mci_outer(s, c, t, upto - 1) + if c[upto - 1] == 0 { 0 } else { mci_inner(s, c, t, upto - 1, s.len() as int) }
    }
}

proof fn lemma_mci_inner_bound(s: Seq<i32>, c: Seq<i32>, t: int, idx: int, upto: int)
    requires
        -1 <= c[idx] <= 1,
        0 <= upto <= s.len(),
    ensures
        -upto * 0x8000_0000 <= mci_inner(s, c, t, idx, upto) <= upto * 0x8000_0000,
    decreases upto,
{
    if upto > 0 {
        lemma_mci_inner_bound(s, c, t, idx, upto - 1);
        let i = upto - 1;
        assert(-0x8000_0000 <= s[i] * c[idx] <= 0x8000_0000) by (nonlinear_arith)
            requires -0x8000_0000 <= s[i] <= 0x8000_0000, -1 <= c[idx] <= 1;
    }
}

proof fn lemma_mci_outer_bound(s: Seq<i32>, c: Seq<i32>, t: int, upto: int)
    requires
        forall|j: int| 0 <= j < c.len() ==> -1 <= #[trigger] c[j] <= 1,
        0 <= upto <= c.len(),
    ensures
        -upto * (s.len() * 0x8000_0000) <= mci_outer(s, c, t, upto) <= upto * (s.len() * 0x8000_0000),
    decreases upto,
{
    if upto > 0 {
        lemma_mci_outer_bound(s, c, t, upto - 1);
        lemma_mci_inner_bound(s, c, t, upto - 1, s.len() as int);
        let l = s.len() * 0x8000_0000;
        assert(upto * l == (upto - 1) * l + l) by (nonlinear_arith);
        assert(-upto * l == -((upto - 1) * l) - l) by (nonlinear_arith);
        assert(-(upto - 1) * l == -((upto - 1) * l)) by (nonlinear_arith);
        assert(-1 <= c[upto - 1] <= 1);
    }
}

impl Polynomial {
    /// Multiply two polynomials in `Z_q[X]/(X^n + 1)`; coefficients of the result are in `[0, q)`.
    pub fn mul(&self, other: &Self, q: u32) -> (r: Self)
        requires
            valid_q(q),
            self@.len() == other@.len(),
        ensures
            r@.len() == self@.len(),
            forall|k: int| 0 <= k < r@.len() ==> #[trigger] r@[k] == negacyclic_coeff(self@, other@, k) % (q as int),
            coeffs_within(r@, 0, q - 1),
    {
        let n = self.coeffs.len();
        let q64 = q as i64;
        let mut out: Vec<i32> = Vec::with_capacity(n);
        let mut k: usize = 0;
        while k < n
            invariant
                n == self@.len(),
                n == other@.len(),
                valid_q(q),
                q64 == q,
                k <= n,
                out@.len() == k,
                forall|t: int| 0 <= t < k ==> #[trigger] out@[t] == negacyclic_coeff(self@, other@, t) % (q as int),
                coeffs_within(out@, 0, q - 1),
            decreases n - k,
        {
            let mut acc: i64 = 0;
            let mut i: usize = 0;
            while i < n
                invariant
                    n == self@.len(),
                    n == other@.len(),
                    valid_q(q),
                    q64 == q,
                    k < n,
                    i <= n,
                    -q64 < acc < q64,
                    (acc as int) % (q as int) == nega_sum(self@, other@, k as int, i as int) % (q as int),
                decreases n - i,
            {
                let term: i64 = if i <= k {
                    proof { lemma_i32_product(self@[i as int] as int, other@[k - i] as int); }
                    self.coeffs[i] as i64 * other.coeffs[k - i] as i64
                } else {
                    proof { lemma_i32_product(self@[i as int] as int, other@[k - i + n] as int); }
                    -(self.coeffs[i] as i64 * other.coeffs[n - (i - k)] as i64)
                };
                assert(term == nega_term(self@, other@, k as int, i as int));
                proof {
                    lemma_acc_step(acc as int, term as int, nega_sum(self@, other@, k as int, i as int), q as int);
                    lemma_trem(term as int, q as int);
                }
                acc = (acc + term % q64) % q64;
                i += 1;
            }
            proof {
                lemma_trem(acc as int, q as int);
            }
            let c = ((acc % q64) + q64) % q64;
            out.push(c as i32);
            k += 1;
        }
        Polynomial { coeffs: out }
    }

    /// Multiply by a sparse ternary challenge in the integer domain (no reduction mod `q`).
    pub fn mul_challenge_integer(&self, challenge: &Polynomial) -> (r: Self)
        requires
            forall|j: int| 0 <= j < challenge@.len() ==> -1 <= #[trigger] challenge@[j] <= 1,
            challenge@.len() * self@.len() <= 0x8000_0000,
            forall|t: int| 0 <= t < self@.len() ==> fits_i32(#[trigger] mci_outer(self@, challenge@, t, challenge@.len() as int)),
        ensures
            r@.len() == self@.len(),
            forall|t: int| 0 <= t < r@.len() ==> #[trigger] r@[t] == mci_outer(self@, challenge@, t, challenge@.len() as int),
    {
        let n = self.coeffs.len();
        let mut res: Vec<i64> = Vec::with_capacity(n);
        let mut z: usize = 0;
        while z < n
            invariant
                z <= n,
                res@.len() == z,
                forall|t: int| 0 <= t < z ==> #[trigger] res@[t] == 0,
            decreases n - z,
        {
            res.push(0);
            z += 1;
        }
        let clen = challenge.coeffs.len();
        let mut idx: usize = 0;
        while idx < clen
            invariant
                n == self@.len(),
                clen == challenge@.len(),
                forall|j: int| 0 <= j < challenge@.len() ==> -1 <= #[trigger] challenge@[j] <= 1,
                challenge@.len() * self@.len() <= 0x8000_0000,
                idx <= clen,
                res@.len() == n,
                forall|t: int| 0 <= t < n ==> #[trigger] res@[t] == mci_outer(self@, challenge@, t, idx as int),
            decreases clen - idx,
        {
            let c = challenge.coeffs[idx];
            if c == 0 {
                idx += 1;
                continue;
            }
            let mut i: usize = 0;
            while i < n
                invariant
                    n == self@.len(),
                    clen == challenge@.len(),
                    forall|j: int| 0 <= j < challenge@.len() ==> -1 <= #[trigger] challenge@[j] <= 1,
                    challenge@.len() * self@.len() <= 0x8000_0000,
                    idx < clen,
                    c == challenge@[idx as int],
                    c != 0,
                    i <= n,
                    res@.len() == n,
                    forall|t: int| 0 <= t < n ==> #[trigger] res@[t] == mci_outer(self@, challenge@, t, idx as int)
                        + mci_inner(self@, challenge@, t, idx as int, i as int),
                decreases n - i,
            {
                assert(idx + i <= clen + n <= 0x8000_0001) by (nonlinear_arith)
                    requires idx < clen, i < n, clen * n <= 0x8000_0000;
                let target = (idx + i) % n;
                assert(-0x8000_0000 <= self@[i as int] * c <= 0x8000_0000) by (nonlinear_arith)
                    requires -0x8000_0000 <= self@[i as int] <= 0x8000_0000, -1 <= c <= 1;
                let mut val: i64 = self.coeffs[i] as i64 * c as i64;
                if idx + i >= n {
                    val = -val;
                }
                proof {
                    assert forall|t: int| 0 <= t < n implies
                        -(idx as int) * (n * 0x8000_0000) <= #[trigger] mci_outer(self@, challenge@, t, idx as int) <= (idx as int) * (n * 0x8000_0000) by {
                        lemma_mci_outer_bound(self@, challenge@, t, idx as int);
                    }
                    assert forall|t: int| 0 <= t < n implies
                        -(i as int) * 0x8000_0000 <= #[trigger] mci_inner(self@, challenge@, t, idx as int, i as int) <= (i as int) * 0x8000_0000 by {
                        lemma_mci_inner_bound(self@, challenge@, t, idx as int, i as int);
                    }
                    assert((idx as int) * n + (i as int) <= clen * n) by (nonlinear_arith)
                        requires idx < clen, i <= n;
                    assert(-0x8000_0000 <= val <= 0x8000_0000);
                    assert(forall|t: int| #![trigger mci_term(self@, challenge@, t, idx as int, i as int)]
                        0 <= t < n ==> mci_term(self@, challenge@, t, idx as int, i as int)
                            == if t == target { val as int } else { 0 });
                }
                let old_val = res[target];
                assert(-0x4000_0000_0000_0000 <= old_val <= 0x4000_0000_0000_0000) by (nonlinear_arith)
                    requires
                        -(idx as int) * (n * 0x8000_0000) - (i as int) * 0x8000_0000 <= old_val <= (idx as int) * (n * 0x8000_0000) + (i as int) * 0x8000_0000,
                        (idx as int) * n + (i as int) <= 0x8000_0000;
                res.set(target, old_val + val);
                i += 1;
            }
            idx += 1;
        }
        let mut out: Vec<i32> = Vec::with_capacity(n);
        let mut t: usize = 0;
        while t < n
            invariant
                n == self@.len(),
                t <= n,
                res@.len() == n,
                forall|t: int| 0 <= t < self@.len() ==> fits_i32(#[trigger] mci_outer(self@, challenge@, t, challenge@.len() as int)),
                forall|t: int| 0 <= t < n ==> #[trigger] res@[t] == mci_outer(self@, challenge@, t, challenge@.len() as int),
                out@.len() == t,
                forall|j: int| 0 <= j < t ==> #[trigger] out@[j] == mci_outer(self@, challenge@, j, challenge@.len() as int),
            decreases n - t,
        {
            assert(fits_i32(mci_outer(self@, challenge@, t as int, challenge@.len() as int)));
            out.push(res[t] as i32);
            t += 1;
        }
        Polynomial { coeffs: out }
    }
}


/// `sum_{j < upto} row[j] * v[j]`, coefficient `k`, over the integers (negacyclic products).
pub open spec fn row_dot(row: Seq<Seq<i32>>, v: Seq<Seq<i32>>, k: int, upto: int) -> int
    decreases upto,
{
    if upto <= 0 { 0 } else { row_dot(row, v, k, upto - 1) + negacyclic_coeff(row[upto - 1], v[upto - 1], k) }
}

/// Coefficient `k` of the row product accumulated polynomial by polynomial,
/// each partial sum reduced modulo `q` (`acc := (acc + (a_j * v_j mod q)) mod q`).
pub open spec fn accumulated_row(row: Seq<Seq<i32>>, v: Seq<Seq<i32>>, k: int, upto: int, q: int) -> int
    decreases upto,
{
    if upto <= 0 {
        0
    } else {
        (accumulated_row(row, v, k, upto - 1, q) + negacyclic_coeff(row[upto - 1], v[upto - 1], k) % q) % q
    }
}

/// Accumulating the products `a_j * v_j mod q` one by one with reduced
/// additions gives the row product `sum_j a_j * v_j` modulo `q`, which is what
/// `matrix_vector_mul_ntt` returns.
pub proof fn lemma_accumulated_row(row: Seq<Seq<i32>>, v: Seq<Seq<i32>>, k: int, upto: int, q: int)
    requires
        q >= 1,
        upto >= 0,
    ensures
        accumulated_row(row, v, k, upto, q) == row_dot(row, v, k, upto) % q,
    decreases upto,
{
    if upto == 0 {
        vstd::arithmetic::div_mod::lemma_small_mod(0, q as nat);
    } else {
        lemma_accumulated_row(row, v, k, upto - 1, q);
        let prev = row_dot(row, v, k, upto - 1);
        let t = negacyclic_coeff(row[upto - 1], v[upto - 1], k);
        vstd::arithmetic::div_mod::lemma_add_mod_noop(prev, t, q);
    }
}

/// Subtracting the reduced product `t_i * c mod q` from the reduced row
/// product `A_i . z mod q`, and reducing again (what `vector_sub` does to the
/// results of `matrix_vector_mul` and `vector_poly_mul_ntt`), gives
/// `(A_i . z - t_i * c) mod q`, which `matrix_vector_mul_sub_poly_mul_ntt` returns.
pub proof fn lemma_sub_of_products(row: Seq<Seq<i32>>, z: Seq<Seq<i32>>, t: Seq<i32>, c: Seq<i32>, k: int, upto: int, q: int)
    requires
        q >= 1,
    ensures
        ((row_dot(row, z, k, upto) % q) - (negacyclic_coeff(t, c, k) % q)) % q == (row_dot(row, z, k, upto)
            - negacyclic_coeff(t, c, k)) % q,
{
    vstd::arithmetic::div_mod::lemma_sub_mod_noop(row_dot(row, z, k, upto), negacyclic_coeff(t, c, k), q);
}

proof fn lemma_nega_term_cong(a: Seq<i32>, b: Seq<i32>, b2: Seq<i32>, k: int, i: int, q: int)
    requires
        q > 0,
        0 <= i < a.len(),
        0 <= k < a.len(),
        forall|l: int| 0 <= l < a.len() ==> (#[trigger] b[l] as int) % q == (b2[l] as int) % q,
    ensures
        nega_term(a, b, k, i) % q == nega_term(a, b2, k, i) % q,
{
    let x = if i <= k { k - i } else { k - i + a.len() };
    assert((b[x] as int) % q == (b2[x] as int) % q);
    vstd::arithmetic::div_mod::lemma_mul_mod_noop_right(a[i] as int, b[x] as int, q);
    vstd::arithmetic::div_mod::lemma_mul_mod_noop_right(a[i] as int, b2[x] as int, q);
    let y = a[i] * b[x];
    let y2 = a[i] * b2[x];
    assert(y % q == y2 % q);
    if i > k {
        vstd::arithmetic::div_mod::lemma_sub_mod_noop(0, y, q);
        vstd::arithmetic::div_mod::lemma_sub_mod_noop(0, y2, q);
    }
}

proof fn lemma_nega_sum_cong(a: Seq<i32>, b: Seq<i32>, b2: Seq<i32>, k: int, upto: int, q: int)
    requires
        q > 0,
        0 <= upto <= a.len(),
        0 <= k < a.len(),
        forall|l: int| 0 <= l < a.len() ==> (#[trigger] b[l] as int) % q == (b2[l] as int) % q,
    ensures
        nega_sum(a, b, k, upto) % q == nega_sum(a, b2, k, upto) % q,
    decreases upto,
{
    if upto > 0 {
        lemma_nega_sum_cong(a, b, b2, k, upto - 1, q);
        lemma_nega_term_cong(a, b, b2, k, upto - 1, q);
        vstd::arithmetic::div_mod::lemma_add_mod_noop(nega_sum(a, b, k, upto - 1), nega_term(a, b, k, upto - 1), q);
        vstd::arithmetic::div_mod::lemma_add_mod_noop(nega_sum(a, b2, k, upto - 1), nega_term(a, b2, k, upto - 1), q);
    }
}

/// `row . v` and `row . w` agree modulo `q` when `v` and `w` agree modulo `q` coefficient by coefficient.
pub proof fn lemma_row_dot_cong(row: Seq<Seq<i32>>, v: Seq<Seq<i32>>, w: Seq<Seq<i32>>, k: int, upto: int, q: int)
    requires
        q > 0,
        0 <= upto,
        forall|j: int| 0 <= j < upto ==> 0 <= k < (#[trigger] row[j]).len(),
        forall|j: int, l: int| 0 <= j < upto && 0 <= l < row[j].len() ==> (#[trigger] v[j][l] as int) % q == (w[j][l] as int) % q,
    ensures
        row_dot(row, v, k, upto) % q == row_dot(row, w, k, upto) % q,
    decreases upto,
{
    if upto > 0 {
        let j = upto - 1;
        lemma_row_dot_cong(row, v, w, k, j, q);
        assert forall|l: int| 0 <= l < row[j].len() implies (#[trigger] v[j][l] as int) % q == (w[j][l] as int) % q by {}
        lemma_nega_sum_cong(row[j], v[j], w[j], k, row[j].len() as int, q);
        vstd::arithmetic::div_mod::lemma_add_mod_noop(row_dot(row, v, k, j), negacyclic_coeff(row[j], v[j], k), q);
        vstd::arithmetic::div_mod::lemma_add_mod_noop(row_dot(row, w, k, j), negacyclic_coeff(row[j], w[j], k), q);
    }
}

proof fn lemma_nega_sum_add(a: Seq<i32>, b: Seq<i32>, b2: Seq<i32>, s: Seq<i32>, k: int, upto: int)
    requires
        0 <= upto <= a.len(),
        0 <= k < a.len(),
        forall|l: int| 0 <= l < a.len() ==> (#[trigger] s[l] as int) == b[l] + b2[l],
    ensures
        nega_sum(a, s, k, upto) == nega_sum(a, b, k, upto) + nega_sum(a, b2, k, upto),
    decreases upto,
{
    if upto > 0 {
        let i = upto - 1;
        lemma_nega_sum_add(a, b, b2, s, k, i);
        let x = if i <= k { k - i } else { k - i + a.len() };
        assert(s[x] as int == b[x] + b2[x]);
        vstd::arithmetic::mul::lemma_mul_is_distributive_add(a[i] as int, b[x] as int, b2[x] as int);
    }
}

/// `row . (v + w) == row . v + row . w` over the integers.
pub proof fn lemma_row_dot_add(row: Seq<Seq<i32>>, v: Seq<Seq<i32>>, w: Seq<Seq<i32>>, sum: Seq<Seq<i32>>, k: int, upto: int)
    requires
        0 <= upto,
        0 <= k,
        forall|j: int| 0 <= j < upto ==> k < (#[trigger] row[j]).len(),
        forall|j: int, l: int| 0 <= j < upto && 0 <= l < row[j].len() ==> (#[trigger] sum[j][l] as int) == v[j][l] + w[j][l],
    ensures
        row_dot(row, sum, k, upto) == row_dot(row, v, k, upto) + row_dot(row, w, k, upto),
    decreases upto,
{
    if upto > 0 {
        let j = upto - 1;
        lemma_row_dot_add(row, v, w, sum, k, j);
        assert(k < row[j].len());
        assert forall|l: int| 0 <= l < row[j].len() implies (#[trigger] sum[j][l] as int) == v[j][l] + w[j][l] by {}
        lemma_nega_sum_add(row[j], v[j], w[j], sum[j], k, row[j].len() as int);
    }
}

/// Shape requirements of a matrix-vector product `A * v` with `n`-coefficient polynomials.
pub open spec fn mat_vec_ok(a: PolynomialMatrix, v: Seq<Seq<i32>>, n: int) -> bool {
    &&& mat_shape(a@, a.rows as int, a.cols as int, n)
    &&& v.len() >= a.cols
    &&& forall|j: int| 0 <= j < a.cols ==> (#[trigger] v[j]).len() == n
    &&& (a.rows == 0 || a.cols >= 1)
}

/// Coefficient count of the first entry of a matrix (0 when there is none).
pub open spec fn first_entry_len(a: Seq<Seq<Seq<i32>>>) -> int {
    if a.len() > 0 && a[0].len() > 0 { a[0][0].len() as int } else { 0 }
}

/// Centered coefficients of `p` as `i32` values.
pub open spec fn center_i32_seq(p: Seq<i32>, q: int) -> Seq<i32> {
    Seq::new(p.len(), |i: int| center(p[i] as int, q) as i32)
}

proof fn lemma_mod_add_step(r: int, s: int, t: int, q: int)
    requires
        q > 0,
        r == s % q,
    ensures
        (r + t % q) % q == (s + t) % q,
{
    vstd::arithmetic::div_mod::lemma_add_mod_noop(s, t, q);
    vstd::arithmetic::div_mod::lemma_mod_twice(s, q);
    vstd::arithmetic::div_mod::lemma_add_mod_noop(s % q, t, q);
}

fn first_entry_len_exec(a: &PolynomialMatrix) -> (n: usize)
    ensures
        n == first_entry_len(a@),
{
    if a.elements.len() > 0 && a.elements[0].len() > 0 {
        a.elements[0][0].coeffs.len()
    } else {
        0
    }
}

/// MLWE key pair containing public and secret polynomial vectors.
///
/// The public key is `(A, t)` with `t = A s + e`; the secret key is `(s, e)`.
pub struct MLWEKeyPair {
    /// Public vector `t`
    pub public_key: PolynomialVector,
    /// Secret vector `s`
    pub secret_key: PolynomialVector,
    /// Error vector `e` (all zero on the structured path, which does not use it)
    pub error_vector: PolynomialVector,
    /// Public matrix `A`
    pub matrix_a: PolynomialMatrix,
}

impl MLWEKeyPair {
    /// Compute the matrix-vector product `A * v mod q`.
    pub fn matrix_vector_mul(a: &PolynomialMatrix, v: &PolynomialVector, q: u32) -> (r: PolynomialVector)
        requires
            valid_q(q),
            mat_vec_ok(*a, v@, first_entry_len(a@)),
        ensures
            r@.len() == a.rows,
            forall|i: int| 0 <= i < a.rows ==> (#[trigger] r@[i]).len() == first_entry_len(a@),
            forall|i: int, k: int| 0 <= i < a.rows && 0 <= k < first_entry_len(a@) ==> #[trigger] r@[i][k]
                == row_dot(a@[i], v@, k, a.cols as int) % (q as int),
            vec_coeffs_within(r@, 0, q - 1),
    {
        let n = first_entry_len_exec(a);
        let mut elements: Vec<Polynomial> = Vec::with_capacity(a.rows);
        let mut i: usize = 0;
        while i < a.rows
            invariant
                valid_q(q),
                n == first_entry_len(a@),
                mat_vec_ok(*a, v@, n as int),
                i <= a.rows,
                elements@.len() == i,
                forall|t: int| 0 <= t < i ==> (#[trigger] elements@[t])@.len() == n,
                forall|t: int, k: int| 0 <= t < i && 0 <= k < n ==> #[trigger] elements@[t]@[k]
                    == row_dot(a@[t], v@, k, a.cols as int) % (q as int),
                forall|t: int| 0 <= t < i ==> coeffs_within((#[trigger] elements@[t])@, 0, q - 1),
            decreases a.rows - i,
        {
            let row = &a.elements[i];
            assert(row@.map_values(|p: Polynomial| p@) == a@[i as int]);
            let mut result = Polynomial::new(n);
            proof {
                assert forall|k: int| 0 <= k < n implies #[trigger] result@[k] == row_dot(a@[i as int], v@, k, 0) % (q as int) by {
                    vstd::arithmetic::div_mod::lemma_small_mod(0, q as nat);
                }
            }
            let mut j: usize = 0;
            while j < a.cols
                invariant
                    valid_q(q),
                    n == first_entry_len(a@),
                    mat_vec_ok(*a, v@, n as int),
                    i < a.rows,
                    row == &a.elements@[i as int],
                    j <= a.cols,
                    result@.len() == n,
                    forall|k: int| 0 <= k < n ==> #[trigger] result@[k] == row_dot(a@[i as int], v@, k, j as int) % (q as int),
                    coeffs_within(result@, 0, q - 1),
                decreases a.cols - j,
            {
                assert(a@[i as int][j as int] == row@[j as int]@);
                assert(v@[j as int] == v.elements@[j as int]@);
                let prod = row[j].mul(&v.elements[j], q);
                proof {
                    assert forall|k: int| 0 <= k < n implies #[trigger] ((result@[k] + prod@[k]) % (q as int))
                        == row_dot(a@[i as int], v@, k, j + 1) % (q as int) by {
                        lemma_mod_add_step(result@[k] as int, row_dot(a@[i as int], v@, k, j as int),
                            negacyclic_coeff(a@[i as int][j as int], v@[j as int], k), q as int);
                    }
                }
                result = result.add(&prod, q);
                j += 1;
            }
            elements.push(result);
            i += 1;
        }
        let r = PolynomialVector { elements };
        assert forall|t: int| 0 <= t < r@.len() implies coeffs_within(#[trigger] r@[t], 0, q - 1) by {
            assert(r@[t] == r.elements@[t]@);
        }
        r
    }

    /// Matrix-vector product `A * v mod q`, the ring elements that the
    /// transform-domain accumulation computes.
    pub fn matrix_vector_mul_ntt(a: &PolynomialMatrix, v: &PolynomialVector, q: u32) -> (r: PolynomialVector)
        requires
            valid_q(q),
            mat_vec_ok(*a, v@, first_entry_len(a@)),
        ensures
            r@.len() == a.rows,
            forall|i: int| 0 <= i < a.rows ==> (#[trigger] r@[i]).len() == first_entry_len(a@),
            forall|i: int, k: int| 0 <= i < a.rows && 0 <= k < first_entry_len(a@) ==> #[trigger] r@[i][k]
                == row_dot(a@[i], v@, k, a.cols as int) % (q as int),
            vec_coeffs_within(r@, 0, q - 1),
    {
        Self::matrix_vector_mul(a, v, q)
    }

    /// Compute `A * z - c * t mod q`, row by row.
    pub fn matrix_vector_mul_sub_poly_mul_ntt(
        a: &PolynomialMatrix,
        z: &PolynomialVector,
        t: &PolynomialVector,
        c: &Polynomial,
        q: u32,
    ) -> (r: PolynomialVector)
        requires
            valid_q(q),
            mat_vec_ok(*a, z@, first_entry_len(a@)),
            t@.len() >= a.rows,
            forall|i: int| 0 <= i < a.rows ==> (#[trigger] t@[i]).len() == first_entry_len(a@),
            c@.len() == first_entry_len(a@),
        ensures
            r@.len() == a.rows,
            forall|i: int| 0 <= i < a.rows ==> (#[trigger] r@[i]).len() == first_entry_len(a@),
            forall|i: int, k: int| 0 <= i < a.rows && 0 <= k < first_entry_len(a@) ==> #[trigger] r@[i][k]
                == (row_dot(a@[i], z@, k, a.cols as int) - negacyclic_coeff(t@[i], c@, k)) % (q as int),
            vec_coeffs_within(r@, 0, q - 1),
    {
        let az = Self::matrix_vector_mul(a, z, q);
        let n = first_entry_len_exec(a);
        let mut elements: Vec<Polynomial> = Vec::with_capacity(a.rows);
        let mut i: usize = 0;
        while i < a.rows
            invariant
                valid_q(q),
                n == first_entry_len(a@),
                i <= a.rows,
                az@.len() == a.rows,
                forall|i: int| 0 <= i < a.rows ==> (#[trigger] az@[i]).len() == n,
                forall|i: int, k: int| 0 <= i < a.rows && 0 <= k < n ==> #[trigger] az@[i][k]
                    == row_dot(a@[i], z@, k, a.cols as int) % (q as int),
                vec_coeffs_within(az@, 0, q - 1),
                t@.len() >= a.rows,
                forall|i: int| 0 <= i < a.rows ==> (#[trigger] t@[i]).len() == n,
                c@.len() == n,
                elements@.len() == i,
                forall|s: int| 0 <= s < i ==> (#[trigger] elements@[s])@.len() == n,
                forall|s: int, k: int| 0 <= s < i && 0 <= k < n ==> #[trigger] elements@[s]@[k]
                    == (row_dot(a@[s], z@, k, a.cols as int) - negacyclic_coeff(t@[s], c@, k)) % (q as int),
                forall|s: int| 0 <= s < i ==> coeffs_within((#[trigger] elements@[s])@, 0, q - 1),
            decreases a.rows - i,
        {
            assert(t@[i as int] == t.elements@[i as int]@);
            assert(az@[i as int] == az.elements@[i as int]@);
            let tc = t.elements[i].mul(c, q);
            assert(coeffs_within(az@[i as int], 0, q - 1));
            let row = az.elements[i].sub(&tc, q);
            proof {
                assert forall|k: int| 0 <= k < n implies #[trigger] row@[k]
                    == (row_dot(a@[i as int], z@, k, a.cols as int) - negacyclic_coeff(t@[i as int], c@, k)) % (q as int) by {
                    let x = row_dot(a@[i as int], z@, k, a.cols as int);
                    let y = negacyclic_coeff(t@[i as int], c@, k);
                    lemma_mod_add_step(az@[i as int][k] as int, x, -y, q as int);
                    vstd::arithmetic::div_mod::lemma_mod_bound(y, q as int);
                    vstd::arithmetic::div_mod::lemma_sub_mod_noop(x % (q as int), y, q as int);
                    vstd::arithmetic::div_mod::lemma_sub_mod_noop(x, y, q as int);
                    vstd::arithmetic::div_mod::lemma_mod_twice(x, q as int);
                }
            }
            elements.push(row);
            i += 1;
        }
        let r = PolynomialVector { elements };
        assert forall|s: int| 0 <= s < r@.len() implies coeffs_within(#[trigger] r@[s], 0, q - 1) by {
            assert(r@[s] == r.elements@[s]@);
        }
        r
    }

    /// Multiply every polynomial of `v` by `p` in the ring.
    pub fn vector_poly_mul_ntt(v: &PolynomialVector, p: &Polynomial, q: u32) -> (r: PolynomialVector)
        requires
            valid_q(q),
            forall|j: int| 0 <= j < v@.len() ==> (#[trigger] v@[j]).len() == p@.len(),
        ensures
            r@.len() == v@.len(),
            forall|j: int| 0 <= j < v@.len() ==> (#[trigger] r@[j]).len() == p@.len(),
            forall|j: int, k: int| 0 <= j < v@.len() && 0 <= k < p@.len() ==> #[trigger] r@[j][k]
                == negacyclic_coeff(v@[j], p@, k) % (q as int),
            vec_coeffs_within(r@, 0, q - 1),
    {
        let mut elements: Vec<Polynomial> = Vec::with_capacity(v.elements.len());
        let mut j: usize = 0;
        while j < v.elements.len()
            invariant
                valid_q(q),
                forall|j: int| 0 <= j < v@.len() ==> (#[trigger] v@[j]).len() == p@.len(),
                j <= v@.len(),
                elements@.len() == j,
                forall|s: int| 0 <= s < j ==> (#[trigger] elements@[s])@.len() == p@.len(),
                forall|s: int, k: int| 0 <= s < j && 0 <= k < p@.len() ==> #[trigger] elements@[s]@[k]
                    == negacyclic_coeff(v@[s], p@, k) % (q as int),
                forall|s: int| 0 <= s < j ==> coeffs_within((#[trigger] elements@[s])@, 0, q - 1),
            decreases v@.len() - j,
        {
            assert(v@[j as int] == v.elements@[j as int]@);
            elements.push(v.elements[j].mul(p, q));
            j += 1;
        }
        let r = PolynomialVector { elements };
        assert forall|s: int| 0 <= s < r@.len() implies coeffs_within(#[trigger] r@[s], 0, q - 1) by {
            assert(r@[s] == r.elements@[s]@);
        }
        r
    }
}


/// Upper bound on the number of rejected draws in a rejection-sampling loop.
pub const MAX_REJECTION_ROUNDS: u64 = u64::MAX;

/// Draw a value uniformly from `[0, range)` by rejection sampling on `u32` words.
fn uniform_below(range: u32, rng: &mut ThreadRng) -> (v: u32)
    requires
        range >= 1,
    ensures
        v < range,
{
    let limit = u32::MAX - (u32::MAX % range);
    let mut rounds: u64 = 0;
    loop
        invariant
            range >= 1,
        decreases MAX_REJECTION_ROUNDS - rounds,
    {
        let v = crate::rng::next_u32(rng);
        if v < limit || rounds == MAX_REJECTION_ROUNDS {
            return v % range;
        }
        rounds += 1;
    }
}

impl Polynomial {
    /// Generate a polynomial whose coefficients follow the centered binomial distribution CBD(eta).
    pub fn rand_poly(n: usize, eta: i32, rng: &mut ThreadRng) -> (p: Self)
        requires
            eta >= 0,
        ensures
            p@.len() == n,
            coeffs_within(p@, -(eta as int), eta as int),
    {
        let mut coeffs: Vec<i32> = Vec::with_capacity(n);
        let mut i: usize = 0;
        while i < n
            invariant
                eta >= 0,
                i <= n,
                coeffs@.len() == i,
                coeffs_within(coeffs@, -(eta as int), eta as int),
            decreases n - i,
        {
            let mut sum: i32 = 0;
            let mut t: usize = 0;
            while t < eta as usize
                invariant
                    eta >= 0,
                    t <= eta,
                    -(t as int) <= sum <= t,
                decreases eta - t,
            {
                let x = crate::rng::next_u32(rng);
                let y = crate::rng::next_u32(rng);
                let a = (x >> 1) & 1;
                let b = (y >> 1) & 1;
                assert(a <= 1) by (bit_vector)
                    requires a == (x >> 1) & 1;
                assert(b <= 1) by (bit_vector)
                    requires b == (y >> 1) & 1;
                sum += a as i32 - b as i32;
                t += 1;
            }
            coeffs.push(sum);
            i += 1;
        }
        Polynomial { coeffs }
    }

    /// Sample a polynomial uniformly from the centered box `[-bound, bound]^n`.
    pub fn rand_poly_uniform(n: usize, bound: u32, rng: &mut ThreadRng) -> (p: Self)
        requires
            bound < 0x4000_0000,
        ensures
            p@.len() == n,
            coeffs_within(p@, -(bound as int), bound as int),
    {
        let range = 2u32 * bound + 1;
        let mut coeffs: Vec<i32> = Vec::with_capacity(n);
        let mut i: usize = 0;
        while i < n
            invariant
                bound < 0x4000_0000,
                range == 2 * bound + 1,
                i <= n,
                coeffs@.len() == i,
                coeffs_within(coeffs@, -(bound as int), bound as int),
            decreases n - i,
        {
            let val = uniform_below(range, rng);
            coeffs.push(val as i32 - bound as i32);
            i += 1;
        }
        Polynomial { coeffs }
    }
}

} // verus!

verus! {

// ---------------------------------------------------------------------------
// Parameter sets
// ---------------------------------------------------------------------------

/// `gamma1` of the parameter sets (Gaussian width 100, scale `ceil(100/3) = 34`).
pub const GAMMA1_SIGMA_100: u32 = 4190207;

/// The shared shape of the parameter sets: `n = 256`, `q = 8380417`, `eta = 2`,
/// `beta = 2 tau`, `m = (k - 1) + k ell`, Gaussian width 100.
pub open spec fn param_set(k: usize, ell: usize, tau: i32, gamma2: i32) -> MLWEParameters {
    MLWEParameters {
        k,
        n: 256,
        q: 8380417,
        eta1: 2,
        eta2: 2,
        beta: (tau * 2) as i32,
        gamma1: GAMMA1_SIGMA_100,
        gamma2,
        m: ((k - 1) + k * ell) as usize,
        ell,
        base: 256,
        sigma_bits: SIGMA_100_BITS,
        tau,
    }
}

fn build_param_set(k: usize, ell: usize, tau: i32, gamma2: i32) -> (p: MLWEParameters)
    requires
        2 <= k <= 8,
        ell <= 8,
        1 <= tau <= 100,
    ensures
        p == param_set(k, ell, tau, gamma2),
{
    assert(k * ell <= 64) by (nonlinear_arith)
        requires k <= 8, ell <= 8;
    let base = MLWEParameters {
        k,
        n: 256,
        q: 8380417,
        eta1: 2,
        eta2: 2,
        tau,
        beta: tau * 2,
        gamma1: 1 << 19,
        gamma2,
        ell,
        base: 256,
        m: (k - 1) + k * ell,
        sigma_bits: SIGMA_100_BITS,
    };
    assert(scaled_gamma1(8380417, 34) == GAMMA1_SIGMA_100);
    base.with_sigma_scaled(SIGMA_100_BITS, 34)
}

impl MLWEParameters {
    /// Parameters for 128-bit security (`k = 4`, `ell = 4`, `tau = 39`).
    pub fn new_128() -> (p: Self)
        ensures
            p == param_set(4, 4, 39, 95232),
    {
        build_param_set(4, 4, 39, 95232)
    }

    /// Parameters for 128-bit security with a wider module (`k = 5`).
    pub fn new_128_secure() -> (p: Self)
        ensures
            p == param_set(5, 4, 39, 95232),
    {
        build_param_set(5, 4, 39, 95232)
    }

    /// Parameters for 256-bit security (`k = 8`, `ell = 6`, `tau = 60`).
    pub fn new_256() -> (p: Self)
        ensures
            p == param_set(8, 6, 60, 95232),
    {
        build_param_set(8, 6, 60, 95232)
    }

    /// Parameters for 192-bit security (`k = 6`, `ell = 5`, `tau = 49`).
    pub fn new_192() -> (p: Self)
        ensures
            p == param_set(6, 5, 49, 95232),
    {
        build_param_set(6, 5, 49, 95232)
    }

    /// Top-tier 128-bit parameter set.
    pub fn top_tier_128() -> (p: Self)
        ensures
            p == param_set(4, 4, 39, 95232),
    {
        Self::new_128()
    }

    /// Top-tier 192-bit parameter set.
    pub fn top_tier_192() -> (p: Self)
        ensures
            p == param_set(6, 5, 49, 95232),
    {
        Self::new_192()
    }

    /// Top-tier 256-bit parameter set.
    pub fn top_tier_256() -> (p: Self)
        ensures
            p == param_set(8, 6, 60, 95232),
    {
        Self::new_256()
    }

    /// The ring degree `n`.
    pub fn n(&self) -> (r: usize)
        ensures
            r == self.n,
    {
        self.n
    }

    /// The coefficient modulus `q`.
    pub fn q(&self) -> (r: u32)
        ensures
            r == self.q,
    {
        self.q
    }

    /// The auxiliary matrix width `m`.
    pub fn m(&self) -> (r: usize)
        ensures
            r == self.m,
    {
        self.m
    }
}

} // verus!

verus! {

// ---------------------------------------------------------------------------
// Public matrices
// ---------------------------------------------------------------------------

/// Entry `(i, j)` of a `rows x cols` matrix read from flat values: coefficient
/// `l` is `vals[(i * cols + j) * n + l] mod q`.
pub open spec fn matrix_from_flat(vals: Seq<i32>, rows: int, cols: int, n: int, q: int) -> Seq<Seq<Seq<i32>>> {
    Seq::new(
        rows as nat,
        |i: int| Seq::new(cols as nat, |j: int| Seq::new(n as nat, |l: int| ((vals[(i * cols + j) * n + l] as int) % q) as i32)),
    )
}

fn matrix_from_values(vals: &Vec<i32>, rows: usize, cols: usize, n: usize, q: u32) -> (a: PolynomialMatrix)
    requires
        valid_q(q),
        vals@.len() == rows * cols * n,
    ensures
        a.rows == rows,
        a.cols == cols,
        a@ == matrix_from_flat(vals@, rows as int, cols as int, n as int, q as int),
        mat_shape(a@, rows as int, cols as int, n as int),
        forall|i: int, j: int| 0 <= i < rows && 0 <= j < cols ==> coeffs_within(#[trigger] a@[i][j], 0, q - 1),
{
    let vlen = vals.len();
    let mut elements: Vec<Vec<Polynomial>> = Vec::with_capacity(rows);
    let mut i: usize = 0;
    while i < rows
        invariant
            valid_q(q),
            vals@.len() == rows * cols * n,
            vlen == vals@.len(),
            i <= rows,
            elements@.len() == i,
            forall|a: int| 0 <= a < i ==> (#[trigger] elements@[a])@.map_values(|p: Polynomial| p@) == matrix_from_flat(
                vals@,
                rows as int,
                cols as int,
                n as int,
                q as int,
            )[a],
        decreases rows - i,
    {
        let mut row: Vec<Polynomial> = Vec::with_capacity(cols);
        let mut j: usize = 0;
        while j < cols
            invariant
                valid_q(q),
                vals@.len() == rows * cols * n,
                vlen == vals@.len(),
                i < rows,
                j <= cols,
                row@.len() == j,
                forall|b: int| 0 <= b < j ==> (#[trigger] row@[b])@ == matrix_from_flat(
                    vals@,
                    rows as int,
                    cols as int,
                    n as int,
                    q as int,
                )[i as int][b],
            decreases cols - j,
        {
            let mut coeffs: Vec<i32> = Vec::with_capacity(n);
            let mut l: usize = 0;
            while l < n
                invariant
                    valid_q(q),
                    vals@.len() == rows * cols * n,
                    vlen == vals@.len(),
                    i < rows,
                    j < cols,
                    l <= n,
                    coeffs@.len() == l,
                    forall|t: int| 0 <= t < l ==> #[trigger] coeffs@[t] == vals@[(i * cols + j) * n + t],
                decreases n - l,
            {
                assert(i * cols + j < rows * cols) by (nonlinear_arith)
                    requires i < rows, j < cols;
                assert((i * cols + j) * n + l < rows * cols * n) by (nonlinear_arith)
                    requires i * cols + j < rows * cols, l < n;
                assert(0 <= i * cols) by (nonlinear_arith);
                assert(0 <= (i * cols + j) * n) by (nonlinear_arith);
                assert(rows * cols <= rows * cols * n) by (nonlinear_arith)
                    requires n >= 1;
                coeffs.push(vals[(i * cols + j) * n + l]);
                l += 1;
            }
            let p = Polynomial::from_coeffs(coeffs.as_slice(), q);
            assert(p@ =~= matrix_from_flat(vals@, rows as int, cols as int, n as int, q as int)[i as int][j as int]);
            row.push(p);
            j += 1;
        }
        assert(row@.map_values(|p: Polynomial| p@) =~= matrix_from_flat(
            vals@,
            rows as int,
            cols as int,
            n as int,
            q as int,
        )[i as int]);
        elements.push(row);
        i += 1;
    }
    let a = PolynomialMatrix { rows, cols, elements };
    assert(a@ =~= matrix_from_flat(vals@, rows as int, cols as int, n as int, q as int));
    proof {
        assert forall|i: int, j: int| 0 <= i < rows && 0 <= j < cols implies coeffs_within(#[trigger] a@[i][j], 0, q - 1) by {
            assert forall|l: int| 0 <= l < a@[i][j].len() implies 0 <= #[trigger] a@[i][j][l] <= q - 1 by {
                vstd::arithmetic::div_mod::lemma_mod_bound(vals@[(i * cols + j) * n + l] as int, q as int);
            }
        }
    }
    a
}

/// SHAKE-256 input for the public matrix `A`: `seed || k || m || n`.
pub open spec fn matrix_a_seed_input(seed: Seq<u8>, k: usize, m: usize, n: usize) -> Seq<u8> {
    seed + crate::codec::usize_le(k as int) + crate::codec::usize_le(m as int) + crate::codec::usize_le(n as int)
}

/// SHAKE-256 input for `A'`: `"PABS-CRF-A-prime" || seed || k || (k - 1) || n`.
pub open spec fn a_prime_seed_input(seed: Seq<u8>, k: usize, n: usize) -> Seq<u8> {
    a_prime_domain() + seed + crate::codec::usize_le(k as int) + crate::codec::usize_le(k - 1) + crate::codec::usize_le(
        n as int,
    )
}

pub open spec fn a_prime_domain() -> Seq<u8> {
    seq![0x50u8, 0x41, 0x42, 0x53, 0x2d, 0x43, 0x52, 0x46, 0x2d, 0x41, 0x2d, 0x70, 0x72, 0x69, 0x6d, 0x65]
}

impl MLWEKeyPair {
    /// Expand the public matrix `A` (`k x m`) from a seed: coefficients are the
    /// words of the SHAKE-256 stream of `seed || k || m || n` below the largest
    /// multiple of `q`, reduced mod `q`.
    pub fn generate_matrix_a_from_seed(seed: &[u8; 32], params: &MLWEParameters) -> (a: PolynomialMatrix)
        requires
            valid_q(params.q),
            params.n >= 1,
            params.k * params.m * params.n <= usize::MAX,
        ensures
            a.rows == params.k,
            a.cols == params.m,
            a@ == matrix_from_flat(
                crate::hashing::xof_values(
                    matrix_a_seed_input(seed@, params.k, params.m, params.n),
                    crate::hashing::WordRule::ModLimit(params.q),
                    (params.k * params.m * params.n) as nat,
                ),
                params.k as int,
                params.m as int,
                params.n as int,
                params.q as int,
            ),
            mat_shape(a@, params.k as int, params.m as int, params.n as int),
    {
        let mut input: Vec<u8> = Vec::new();
        crate::codec::extend_bytes(&mut input, seed.as_slice());
        crate::codec::push_usize_le(&mut input, params.k);
        crate::codec::push_usize_le(&mut input, params.m);
        crate::codec::push_usize_le(&mut input, params.n);
        let rule = crate::hashing::WordRule::ModLimit(params.q);
        assert(params.k * params.m <= params.k * params.m * params.n) by (nonlinear_arith)
            requires params.n >= 1;
        let count = params.k * params.m * params.n;
        let vals = crate::hashing::xof_sample_values(input.as_slice(), &rule, count);
        matrix_from_values(&vals, params.k, params.m, params.n, params.q)
    }

    /// Expand the matrix `A'` (`k x (k - 1)`) from a seed, domain-separated from `A`.
    pub fn generate_a_prime_from_seed(seed: &[u8; 32], params: &MLWEParameters) -> (a: PolynomialMatrix)
        requires
            valid_q(params.q),
            params.k >= 1,
            params.n >= 1,
            params.k * params.k * params.n <= usize::MAX,
        ensures
            a.rows == params.k,
            a.cols == params.k - 1,
            a@ == matrix_from_flat(
                crate::hashing::xof_values(
                    a_prime_seed_input(seed@, params.k, params.n),
                    crate::hashing::WordRule::ModLimit(params.q),
                    (params.k * (params.k - 1) * params.n) as nat,
                ),
                params.k as int,
                params.k - 1,
                params.n as int,
                params.q as int,
            ),
            mat_shape(a@, params.k as int, params.k - 1, params.n as int),
    {
        let k = params.k;
        let cols = k - 1;
        let domain: Vec<u8> = vec![0x50u8, 0x41, 0x42, 0x53, 0x2d, 0x43, 0x52, 0x46, 0x2d, 0x41, 0x2d, 0x70, 0x72, 0x69, 0x6d, 0x65];
        assert(domain@ =~= a_prime_domain());
        let mut input: Vec<u8> = Vec::new();
        crate::codec::extend_bytes(&mut input, domain.as_slice());
        crate::codec::extend_bytes(&mut input, seed.as_slice());
        crate::codec::push_usize_le(&mut input, k);
        crate::codec::push_usize_le(&mut input, cols);
        crate::codec::push_usize_le(&mut input, params.n);
        assert(k * cols * params.n <= k * k * params.n) by (nonlinear_arith)
            requires cols <= k;
        let rule = crate::hashing::WordRule::ModLimit(params.q);
        assert(k * cols <= k * cols * params.n) by (nonlinear_arith)
            requires params.n >= 1;
        let count = k * cols * params.n;
        let vals = crate::hashing::xof_sample_values(input.as_slice(), &rule, count);
        matrix_from_values(&vals, k, cols, params.n, params.q)
    }
}

} // verus!

verus! {

// ---------------------------------------------------------------------------
// Key generation
// ---------------------------------------------------------------------------

/// `t = A s + e mod q`, row by row over the common prefix of `A s` and `e`.
pub open spec fn public_key_spec(
    a: Seq<Seq<Seq<i32>>>,
    rows: int,
    cols: int,
    n: int,
    s: Seq<Seq<i32>>,
    e: Seq<Seq<i32>>,
    q: int,
) -> Seq<Seq<i32>> {
    Seq::new(
        (if rows < e.len() { rows } else { e.len() as int }) as nat,
        |i: int| Seq::new(
            (if n < e[i].len() { n } else { e[i].len() as int }) as nat,
            |k: int| (((row_dot(a[i], s, k, cols) % q) + e[i][k]) % q) as i32,
        ),
    )
}

/// The relation between the parts of a key pair: `t = A s + e mod q`.
pub open spec fn key_relation(kp: MLWEKeyPair, q: int) -> bool {
    kp.public_key@ == public_key_spec(
        kp.matrix_a@,
        kp.matrix_a.rows as int,
        kp.matrix_a.cols as int,
        first_entry_len(kp.matrix_a@),
        kp.secret_key@,
        kp.error_vector@,
        q,
    )
}

/// `count` polynomials of `n` coefficients drawn from CBD(`eta`).
fn rand_poly_vec(count: usize, n: usize, eta: i32, rng: &mut ThreadRng) -> (v: PolynomialVector)
    requires
        eta >= 0,
    ensures
        v@.len() == count,
        vec_uniform(v@, n as int),
        vec_coeffs_within(v@, -(eta as int), eta as int),
{
    let mut elements: Vec<Polynomial> = Vec::with_capacity(count);
    let mut j: usize = 0;
    while j < count
        invariant
            eta >= 0,
            j <= count,
            elements@.len() == j,
            forall|t: int| 0 <= t < j ==> (#[trigger] elements@[t])@.len() == n,
            forall|t: int| 0 <= t < j ==> coeffs_within((#[trigger] elements@[t])@, -(eta as int), eta as int),
        decreases count - j,
    {
        elements.push(Polynomial::rand_poly(n, eta, rng));
        j += 1;
    }
    let v = PolynomialVector { elements };
    assert forall|t: int| 0 <= t < v@.len() implies (#[trigger] v@[t]).len() == n && coeffs_within(
        v@[t],
        -(eta as int),
        eta as int,
    ) by {
        assert(v@[t] == v.elements@[t]@);
    }
    v
}

impl MLWEKeyPair {
    /// Key generation over a given public matrix: sample `s` (one polynomial
    /// per column of `A`) and `e` (`k` polynomials) from CBD(`eta1`) and set
    /// `t = A s + e mod q`.
    pub fn generate_with_matrix(params: &MLWEParameters, matrix_a: &PolynomialMatrix, rng: &mut ThreadRng) -> (kp: Self)
        requires
            valid_q(params.q),
            params.eta1 >= 0,
            params.eta1 < 0x4000_0000,
            mat_shape(matrix_a@, matrix_a.rows as int, matrix_a.cols as int, params.n as int),
            matrix_a.rows >= 1,
            matrix_a.cols >= 1,
        ensures
            kp.matrix_a@ == matrix_a@,
            kp.matrix_a.rows == matrix_a.rows,
            kp.matrix_a.cols == matrix_a.cols,
            kp.secret_key@.len() == matrix_a.cols,
            kp.error_vector@.len() == params.k,
            vec_uniform(kp.secret_key@, params.n as int),
            vec_uniform(kp.error_vector@, params.n as int),
            vec_coeffs_within(kp.secret_key@, -(params.eta1 as int), params.eta1 as int),
            vec_coeffs_within(kp.error_vector@, -(params.eta1 as int), params.eta1 as int),
            key_relation(kp, params.q as int),
    {
        let n = params.n;
        let q = params.q;
        let m = matrix_a.cols;
        let secret_key = rand_poly_vec(m, n, params.eta1, rng);
        let error_vector = rand_poly_vec(params.k, n, params.eta1, rng);
        assert(first_entry_len(matrix_a@) == n);
        let as_result = Self::matrix_vector_mul(matrix_a, &secret_key, q);
        let rows = if as_result.elements.len() < error_vector.elements.len() {
            as_result.elements.len()
        } else {
            error_vector.elements.len()
        };
        let ghost nn = first_entry_len(matrix_a@);
        let ghost pk = public_key_spec(matrix_a@, matrix_a.rows as int, matrix_a.cols as int, nn, secret_key@, error_vector@, q as int);
        let mut elements: Vec<Polynomial> = Vec::with_capacity(rows);
        let mut i: usize = 0;
        while i < rows
            invariant
                valid_q(q),
                q == params.q,
                params.eta1 < 0x4000_0000,
                rows <= as_result@.len(),
                rows <= error_vector@.len(),
                as_result@.len() == matrix_a.rows,
                forall|i: int| 0 <= i < matrix_a.rows ==> (#[trigger] as_result@[i]).len() == nn,
                forall|i: int, k: int| 0 <= i < matrix_a.rows && 0 <= k < nn ==> #[trigger] as_result@[i][k]
                    == row_dot(matrix_a@[i], secret_key@, k, matrix_a.cols as int) % (q as int),
                vec_coeffs_within(as_result@, 0, q - 1),
                vec_coeffs_within(error_vector@, -(params.eta1 as int), params.eta1 as int),
                pk == public_key_spec(matrix_a@, matrix_a.rows as int, matrix_a.cols as int, nn, secret_key@, error_vector@, q as int),
                i <= rows,
                elements@.len() == i,
                forall|t: int| 0 <= t < i ==> (#[trigger] elements@[t])@ == pk[t],
            decreases rows - i,
        {
            let a_i = &as_result.elements[i];
            let e_i = &error_vector.elements[i];
            assert(a_i@ == as_result@[i as int]);
            assert(e_i@ == error_vector@[i as int]);
            proof {
                assert forall|k: int| 0 <= k < a_i@.len() && k < e_i@.len() implies fits_i32(#[trigger] a_i@[k] + e_i@[k]) by {
                    assert(coeffs_within(as_result@[i as int], 0, q - 1));
                    assert(coeffs_within(error_vector@[i as int], -(params.eta1 as int), params.eta1 as int));
                }
            }
            let t_i = a_i.add(e_i, q);
            assert(t_i@ =~= pk[i as int]);
            elements.push(t_i);
            i += 1;
        }
        let public_key = PolynomialVector { elements };
        assert(public_key@ =~= pk) by {
            assert forall|t: int| 0 <= t < pk.len() implies #[trigger] public_key@[t] == pk[t] by {
                assert(public_key@[t] == public_key.elements@[t]@);
            }
        }
        MLWEKeyPair { public_key, secret_key, error_vector, matrix_a: matrix_a.clone() }
    }

    /// A random `k x k` public matrix: every coefficient is drawn uniformly
    /// from `[0, q)` by rejecting 23-bit words at or above `q`.
    pub fn generate_matrix_a(params: &MLWEParameters, rng: &mut ThreadRng) -> (a: PolynomialMatrix)
        requires
            valid_q(params.q),
        ensures
            a.rows == params.k,
            a.cols == params.k,
            mat_shape(a@, params.k as int, params.k as int, params.n as int),
            forall|i: int, j: int| 0 <= i < params.k && 0 <= j < params.k ==> coeffs_within(#[trigger] a@[i][j], 0, params.q - 1),
    {
        let n = params.n;
        let q = params.q;
        let k = params.k;
        let mut elements: Vec<Vec<Polynomial>> = Vec::with_capacity(k);
        let mut i: usize = 0;
        while i < k
            invariant
                valid_q(q),
                q == params.q,
                n == params.n,
                i <= k,
                elements@.len() == i,
                forall|r: int| 0 <= r < i ==> (#[trigger] elements@[r])@.len() == k,
                forall|r: int, c: int| 0 <= r < i && 0 <= c < k ==> (#[trigger] elements@[r]@[c])@.len() == n,
                forall|r: int, c: int| 0 <= r < i && 0 <= c < k ==> coeffs_within((#[trigger] elements@[r]@[c])@, 0, q - 1),
            decreases k - i,
        {
            let mut row: Vec<Polynomial> = Vec::with_capacity(k);
            let mut j: usize = 0;
            while j < k
                invariant
                    valid_q(q),
                    j <= k,
                    row@.len() == j,
                    forall|c: int| 0 <= c < j ==> (#[trigger] row@[c])@.len() == n,
                    forall|c: int| 0 <= c < j ==> coeffs_within((#[trigger] row@[c])@, 0, q - 1),
                decreases k - j,
            {
                let mut coeffs: Vec<i32> = Vec::with_capacity(n);
                let mut l: usize = 0;
                while l < n
                    invariant
                        valid_q(q),
                        l <= n,
                        coeffs@.len() == l,
                        coeffs_within(coeffs@, 0, q - 1),
                    decreases n - l,
                {
                    let mut rounds: u64 = 0;
                    let mut val: u32 = crate::rng::next_u32(rng) & 0x7F_FFFF;
                    while val >= q && rounds < MAX_REJECTION_ROUNDS
                        invariant
                            valid_q(q),
                        decreases MAX_REJECTION_ROUNDS - rounds,
                    {
                        val = crate::rng::next_u32(rng) & 0x7F_FFFF;
                        rounds += 1;
                    }
                    let v = if val < q { val } else { val % q };
                    coeffs.push(v as i32);
                    l += 1;
                }
                row.push(Polynomial { coeffs });
                j += 1;
            }
            elements.push(row);
            i += 1;
        }
        let a = PolynomialMatrix { rows: k, cols: k, elements };
        assert forall|r: int, c: int| 0 <= r < k && 0 <= c < k implies (#[trigger] a@[r][c]).len() == n && coeffs_within(
            a@[r][c],
            0,
            q - 1,
        ) by {
            assert(a@[r][c] == a.elements@[r]@[c]@);
        }
        a
    }

    /// Key generation: a random `k x k` matrix `A`, `s` and `e` from
    /// CBD(`eta1`), and `t = A s + e mod q`.
    pub fn generate(params: &MLWEParameters, rng: &mut ThreadRng) -> (kp: Self)
        requires
            valid_q(params.q),
            params.eta1 >= 0,
            params.eta1 < 0x4000_0000,
            params.k >= 1,
        ensures
            kp.matrix_a.rows == params.k,
            kp.matrix_a.cols == params.k,
            mat_shape(kp.matrix_a@, params.k as int, params.k as int, params.n as int),
            forall|i: int, j: int| 0 <= i < params.k && 0 <= j < params.k ==> coeffs_within(
                #[trigger] kp.matrix_a@[i][j],
                0,
                params.q - 1,
            ),
            kp.secret_key@.len() == params.k,
            kp.error_vector@.len() == params.k,
            vec_uniform(kp.secret_key@, params.n as int),
            vec_uniform(kp.error_vector@, params.n as int),
            vec_coeffs_within(kp.secret_key@, -(params.eta1 as int), params.eta1 as int),
            vec_coeffs_within(kp.error_vector@, -(params.eta1 as int), params.eta1 as int),
            key_relation(kp, params.q as int),
    {
        let matrix_a = Self::generate_matrix_a(params, rng);
        Self::generate_with_matrix(params, &matrix_a, rng)
    }
}

} // verus!
