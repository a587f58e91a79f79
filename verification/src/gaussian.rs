//! Table-driven discrete Gaussian sampler (CDT).
//!
//! The table holds the cumulative probabilities `Pr[|X| <= x]` of the
//! discrete Gaussian in fixed point; sampling draws a uniform word, finds the
//! first table entry above it by binary search, and applies a random sign.
use vstd::prelude::*;
use rand::rngs::ThreadRng;
use crate::mlwe::{Polynomial, coeffs_within};

verus! {

/// CDT-based discrete Gaussian sampler producing samples from `D_{Z,sigma}`.
pub struct CdtGaussianSampler {
    table: Vec<u64>,
    sigma_times_256: u64,
    mask: u64,
}

/// The table is non-decreasing.
pub open spec fn sorted_table(t: Seq<u64>) -> bool {
    forall|i: int, j: int| 0 <= i <= j < t.len() ==> t[i] <= t[j]
}

/// The index the sampler returns for the uniform word `r`: the first entry
/// above `r`, capped at the last index.
pub open spec fn cdt_index(t: Seq<u64>, r: u64) -> int {
    if exists|x: int| 0 <= x < t.len() && t[x] > r {
        choose|x: int| 0 <= x < t.len() && t[x] > r && forall|y: int| 0 <= y < x ==> t[y] <= r
    } else {
        t.len() - 1
    }
}

impl CdtGaussianSampler {
    /// The cumulative table.
    pub closed spec fn spec_table(&self) -> Seq<u64> {
        self.table@
    }

    /// Mask applied to the uniform word before the table lookup.
    pub closed spec fn spec_mask(&self) -> u64 {
        self.mask
    }

    /// `sigma * 256`, truncated.
    pub closed spec fn spec_sigma_times_256(&self) -> u64 {
        self.sigma_times_256
    }

    /// A usable sampler: a non-empty, non-decreasing table whose indices fit an `i32`.
    pub open spec fn wf(&self) -> bool {
        &&& 1 <= self.spec_table().len() <= 0x8000_0000
        &&& sorted_table(self.spec_table())
    }

    /// A sampler over a precomputed cumulative table.
    pub fn from_table(table: Vec<u64>, sigma_times_256: u64, mask: u64) -> (s: Self)
        ensures
            s.spec_table() == table@,
            s.spec_mask() == mask,
            s.spec_sigma_times_256() == sigma_times_256,
    {
        CdtGaussianSampler { table, sigma_times_256, mask }
    }

    /// Smallest index whose cumulative value exceeds `r` (the last index when none does).
    fn binary_search(&self, r: u64) -> (x: usize)
        requires
            self.wf(),
        ensures
            x == cdt_index(self.spec_table(), r),
            x < self.spec_table().len(),
    {
        let len = self.table.len();
        let mut lo: usize = 0;
        let mut hi: usize = len;
        while lo < hi
            invariant
                len == self.table@.len(),
                self.wf(),
                lo <= hi <= len,
                forall|y: int| 0 <= y < lo ==> self.table@[y] <= r,
                forall|y: int| hi <= y < len ==> self.table@[y] > r,
            decreases hi - lo,
        {
            let mid = lo + (hi - lo) / 2;
            if self.table[mid] <= r {
                proof {
                    assert forall|y: int| 0 <= y < mid + 1 implies self.table@[y] <= r by {
                        assert(self.table@[y] <= self.table@[mid as int]);
                    }
                }
                lo = mid + 1;
            } else {
                proof {
                    assert forall|y: int| mid <= y < len implies self.table@[y] > r by {
                        assert(self.table@[mid as int] <= self.table@[y]);
                    }
                }
                hi = mid;
            }
        }
        let ghost t = self.table@;
        if lo < len {
            proof {
                assert(0 <= lo < t.len() && t[lo as int] > r);
                let c = choose|x: int| 0 <= x < t.len() && t[x] > r && forall|y: int| 0 <= y < x ==> t[y] <= r;
                assert(0 <= lo < t.len() && t[lo as int] > r && forall|y: int| 0 <= y < lo ==> t[y] <= r);
                if c < lo {
                    assert(t[c] <= r);
                } else if c > lo {
                    assert(t[lo as int] <= r);
                }
            }
            lo
        } else {
            assert(!exists|x: int| 0 <= x < t.len() && t[x] > r);
            len - 1
        }
    }

    /// Sample a single integer: the table index for a masked uniform word,
    /// with a uniformly random sign.
    pub fn sample(&self, rng: &mut ThreadRng) -> (v: i32)
        requires
            self.wf(),
        ensures
            exists|r: u64| (#[trigger] cdt_index(self.spec_table(), r) == v || cdt_index(self.spec_table(), r) == -v),
            -(self.spec_table().len() - 1) <= v <= self.spec_table().len() - 1,
    {
        let r = crate::rng::next_u64(rng) & self.mask;
        let x = self.binary_search(r);
        let sign_bit = crate::rng::next_u64(rng) & 1;
        if sign_bit == 0 {
            x as i32
        } else {
            -(x as i32)
        }
    }

    /// Sample `n` coefficients.
    pub fn sample_poly(&self, n: usize, rng: &mut ThreadRng) -> (p: Polynomial)
        requires
            self.wf(),
        ensures
            p@.len() == n,
            coeffs_within(p@, -(self.spec_table().len() - 1), self.spec_table().len() - 1),
    {
        let mut coeffs: Vec<i32> = Vec::with_capacity(n);
        let mut i: usize = 0;
        while i < n
            invariant
                self.wf(),
                i <= n,
                coeffs@.len() == i,
                coeffs_within(coeffs@, -(self.spec_table().len() - 1), self.spec_table().len() - 1),
            decreases n - i,
        {
            coeffs.push(self.sample(rng));
            i += 1;
        }
        Polynomial { coeffs }
    }

    /// `sigma * 256`, truncated (the width the table was built for).
    pub fn sigma_times_256(&self) -> (s: u64)
        ensures
            s == self.spec_sigma_times_256(),
    {
        self.sigma_times_256
    }

    /// The tail cutoff `ceil(14 sigma)`: the largest magnitude a sample can have.
    pub fn tail_cutoff(&self) -> (t: usize)
        requires
            self.wf(),
        ensures
            t == self.spec_table().len() - 1,
    {
        self.table.len() - 1
    }
}

} // verus!
