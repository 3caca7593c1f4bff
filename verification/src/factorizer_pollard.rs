//! Pollard's rho factoring engine with Brent's cycle detection: iterate
//! the quadratic recurrence `y := (y^2 + c) mod x`, batch the
//! `gcd` work by accumulating a running product of differences, and fall
//! back to a step-by-step gcd search when a batch collapses to zero.
use vstd::prelude::*;

verus! {

use crate::arith::gcd;
use crate::arith::divides;
use crate::arith::lemma_gcd_divides;
use crate::arith::lemma_divisor_le;
use crate::arith::mul_mod;

/// Computes `(y*y + c) % x`.
pub fn next_in_sequence(y: u64, x: u64, c: u64) -> (r: u64)
    requires
        x >= 1,
    ensures
        r == (y * y + c) % (x as int),
        r < x,
{
    let yy = mul_mod(y, y, x);
    let r = (((yy as u128) + (c as u128)) % (x as u128)) as u64;
    proof {
        vstd::arithmetic::div_mod::lemma_add_mod_noop((y * y) as int, c as int, x as int);
        vstd::arithmetic::div_mod::lemma_add_mod_noop_right(
            ((y * y) % (x as int)) as int,
            c as int,
            x as int,
        );
    }
    r
}

/// Pollard's rho engine with Brent's batched cycle detection.
pub struct PollardBrentFactorizer;

impl PollardBrentFactorizer {
    /// Produce a single factor of `x`.  Even targets give 2 and multiples
    /// of three give 3 at once; targets below 2 come back unchanged; for
    /// the rest the recurrence search returns a divisor greater than 1,
    /// with `x` itself standing for a failed (or prime) target.
    pub fn get_factor(&self, x: u64) -> (r: u64)
        ensures
            x % 2 == 0 ==> r == 2,
            x % 2 != 0 && x % 3 == 0 ==> r == 3,
            x % 2 != 0 && x % 3 != 0 && x < 2 ==> r == x,
            x % 2 != 0 && x % 3 != 0 && x >= 2 ==> 1 < r <= x && x % r == 0,
    {
        if x % 2 == 0 {
            return 2;
        }
        if x % 3 == 0 {
            return 3;
        }
        if x < 2 {
            return x;
        }
        let mut y = crate::rng::sample_range(1, x);
        let c = crate::rng::sample_range(1, x);
        let m = crate::rng::sample_range(1, x);

        let mut g: u64 = 1;  // the result
        let mut r_step: u64 = 1;  // the doubling segment length
        let mut q: u64 = 1;  // running product of differences, mod x
        let mut z: u64 = 0;  // value of y at the start of the segment
        let mut y_prev: u64 = 0;  // value of y at the start of the batch

        // A coarse search: advance in segments of length r_step, testing
        // gcd only once per batch.  The step budget is far beyond any
        // cycle the recurrence can have; running out reports failure.
        let mut fuel: u64 = 0;
        while g == 1 && fuel < u64::MAX
            invariant
                x >= 5,
                m >= 1,
                y < x,
                z < x,
                y_prev < x,
                q < x,
                r_step >= 1,
                g == 1 || (g > 1 && divides(g as nat, x as nat)),
            decreases u64::MAX - fuel,
        {
            z = y;
            let mut i: u64 = 0;
            while i < r_step
                invariant
                    x >= 5,
                    y < x,
                    i <= r_step,
                decreases r_step - i,
            {
                y = next_in_sequence(y, x, c);
                i = i + 1;
            }
            let mut k: u64 = 0;
            while k < r_step && g == 1
                invariant
                    x >= 5,
                    m >= 1,
                    y < x,
                    z < x,
                    y_prev < x,
                    q < x,
                    g == 1 || (g > 1 && divides(g as nat, x as nat)),
                decreases (if k < r_step {
                    r_step - k
                } else {
                    0int
                }),
            {
                y_prev = y;
                let rem = r_step - k;
                let niter = if m < rem {
                    m
                } else {
                    rem
                };
                let mut j: u64 = 0;
                while j < niter
                    invariant
                        x >= 5,
                        y < x,
                        z < x,
                        q < x,
                        j <= niter,
                    decreases niter - j,
                {
                    y = next_in_sequence(y, x, c);
                    // (x + z - y) % x stands for |z - y| % x: both share
                    // their gcd with x
                    let w = (((x as u128) + (z as u128) - (y as u128)) % (x as u128)) as u64;
                    q = mul_mod(q, w, x);
                    j = j + 1;
                }
                g = gcd(x, q);
                proof {
                    if g != 1 {
                        lemma_gcd_divides(x as nat, q as nat);
                    }
                }
                k = if k <= u64::MAX - m {
                    k + m
                } else {
                    u64::MAX
                };
            }
            r_step = if r_step <= u64::MAX / 2 {
                r_step * 2
            } else {
                u64::MAX
            };
            fuel = fuel + 1;
        }
        if g == 1 {
            return x;
        }
        if g == x {
            // The batched product collapsed to zero mod x and hid the
            // factor: replay the last batch one step at a time, testing
            // the gcd after every single step.
            y = y_prev;
            g = 1;
            let mut fuel2: u64 = 0;
            while g == 1 && fuel2 < u64::MAX
                invariant
                    x >= 5,
                    y < x,
                    z < x,
                    g == 1 || (g > 1 && divides(g as nat, x as nat)),
                decreases u64::MAX - fuel2,
            {
                y = next_in_sequence(y, x, c);
                let w = (((x as u128) + (z as u128) - (y as u128)) % (x as u128)) as u64;
                g = gcd(x, w);
                proof {
                    if g != 1 {
                        lemma_gcd_divides(x as nat, w as nat);
                    }
                }
                fuel2 = fuel2 + 1;
            }
            if g == 1 {
                return x;
            }
        }
        proof {
            lemma_divisor_le(g as nat, x as nat);
        }
        g
    }
}

} // verus!
