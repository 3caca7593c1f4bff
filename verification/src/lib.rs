//! Probabilistic integer factorization: Dixon's congruence-of-squares
//! method with a GF(2) bit-matrix backend, and Pollard's rho method with
//! Brent's cycle detection.
use vstd::prelude::*;

mod arith;
mod bit_matrix;
mod factorization;
mod factorizer_dixon;
mod factorizer_pollard;
mod rng;

pub use arith::divides;
pub use arith::gcd;
pub use arith::gcd_spec;
pub use arith::is_prime;
pub use arith::isqrt;
pub use arith::lemma_euclid_prime;
pub use arith::lemma_gcd_divides;
pub use arith::lemma_gcd_greatest;
pub use arith::lemma_prime_target_unchanged;
pub use bit_matrix::RowModel;
pub use bit_matrix::bit_positions;
pub use bit_matrix::sym_diff;
pub use bit_matrix::row_xor;
pub use bit_matrix::reduce_spec;
pub use bit_matrix::is_echelon;
pub use bit_matrix::leading;
pub use bit_matrix::sum_sel;
pub use bit_matrix::row_consistent;
pub use bit_matrix::rows_consistent;
pub use bit_matrix::lemma_reduce_is_echelon;
pub use bit_matrix::lemma_reduce_fixed_point;
pub use bit_matrix::lemma_reduce_idempotent;
pub use bit_matrix::lemma_xor_row_self_inverse;
pub use bit_matrix::lemma_echelon_zero_rows_last;
pub use bit_matrix::lemma_echelon_left_of_leading;
pub use bit_matrix::lemma_reduce_preserves_consistency;
pub use bit_matrix::lemma_zero_row_even_sums;
pub use factorization::pairs_value;
pub use factorizer_dixon::exps_table;
pub use factorizer_dixon::smooth_over;
pub use factorizer_dixon::strip;
pub use factorizer_dixon::strip_count;
pub use factorizer_dixon::residual;
pub use factorizer_dixon::lemma_outside_prime_blocks_smoothness;
pub use factorizer_dixon::lemma_base_products_are_smooth;
pub use bit_matrix::DixonBitmatrix;
pub use bit_matrix::DixonBitvec;
pub use bit_matrix::bit_matrix_to_ref;
pub use factorization::Factorization;
pub use factorizer_dixon::DixonFactorizer;
pub use factorizer_dixon::FactorOutcome;
pub use factorizer_dixon::bit_matrix_from_factorizations;
pub use factorizer_dixon::factorize_limited;
pub use factorizer_dixon::gen_test_matrix;
pub use factorizer_pollard::PollardBrentFactorizer;
pub use factorizer_pollard::next_in_sequence;

verus! {

/// Collects all primes up to `limit` (inclusive), in increasing order.
pub fn primes_upto(limit: usize) -> (r: Vec<u64>)
    requires
        limit < usize::MAX,
    ensures
        forall|i: int|
            0 <= i < r@.len() ==> is_prime((#[trigger] r@[i]) as int) && r@[i] as int
                <= limit as int,
        forall|i: int, j: int| 0 <= i < j < r@.len() ==> r@[i] < r@[j],
        forall|p: u64|
            2 <= p && p as int <= limit as int && is_prime(p as int) ==> r@.contains(p),
{
    let mut r: Vec<u64> = Vec::new();
    if limit < 2 {
        return r;
    }
    let mut n: usize = 2;
    while n <= limit
        invariant
            2 <= n <= limit + 1,
            limit < usize::MAX,
            forall|i: int|
                0 <= i < r@.len() ==> is_prime((#[trigger] r@[i]) as int) && (r@[i] as int)
                    < n as int,
            forall|i: int, j: int| 0 <= i < j < r@.len() ==> r@[i] < r@[j],
            forall|p: u64|
                2 <= p && (p as int) < n as int && is_prime(p as int) ==> r@.contains(p),
        decreases limit + 1 - n,
    {
        if crate::arith::check_prime(n as u64) {
            let ghost r0 = r@;
            r.push(n as u64);
            proof {
                assert forall|p: u64|
                    2 <= p && (p as int) < n as int + 1 && is_prime(p as int) implies r@.contains(
                    p,
                ) by {
                    if p as int == n as int {
                        assert(r@[r0.len() as int] == p);
                    } else {
                        assert(r0.contains(p));
                        let i = choose|i: int| 0 <= i < r0.len() && r0[i] == p;
                        assert(r@[i] == p);
                    }
                }
            }
        }
        n = n + 1;
    }
    r
}

} // verus!
