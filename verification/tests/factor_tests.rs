use factor::DixonBitmatrix;
use factor::DixonBitvec;
use factor::DixonFactorizer;
use factor::FactorOutcome;
use factor::Factorization;
use factor::PollardBrentFactorizer;
use factor::bit_matrix_from_factorizations;
use factor::bit_matrix_to_ref;
use factor::factorize_limited;
use factor::gcd;
use factor::gen_test_matrix;
use factor::isqrt;
use factor::primes_upto;

fn get_em(limit: usize) -> Vec<u64> {
    primes_upto(limit)
}

fn fact(primes: &[u64], exponents: &[u64]) -> Factorization {
    Factorization { primes: primes.to_vec(), exponents: exponents.to_vec() }
}

#[test]
fn test_primes_upto() {
    assert_eq!(get_em(0), vec![]);
    assert_eq!(get_em(1), vec![]);
    assert_eq!(get_em(2), vec![2]);
    assert_eq!(get_em(3), vec![2, 3]); // first odd prime
    assert_eq!(get_em(4), vec![2, 3]); // even between odd primes
    assert_eq!(get_em(17), vec![2, 3, 5, 7, 11, 13, 17]); // arbitrary odd prime
}

#[test]
fn factorize_limited_test() {
    let primes = vec![2u64, 5, 7];
    assert_eq!(
        factorize_limited(1, &primes),
        Some(fact(&[2, 5, 7], &[0, 0, 0]))
    );
    assert_eq!(
        factorize_limited(2450, &primes),
        Some(fact(&[2, 5, 7], &[1, 2, 2]))
    );
    assert_eq!(factorize_limited(22, &primes), None); // 11 not in prime list
    assert_eq!(factorize_limited(12, &primes), None); // 3 not in prime list
}

#[test]
fn test_row_swap() {
    let original = gen_test_matrix();
    let mut actual = original.clone();

    actual.swap_rows(1, 1);
    assert_eq!(actual, original);

    actual.swap_rows(1, 3);
    let expected = DixonBitmatrix {
        rows: vec![
            DixonBitvec::from_vecs(vec![0], vec![0]),
            DixonBitvec::from_vecs(vec![0, 1, 3], vec![3]), // changed
            DixonBitvec::from_vecs(vec![0, 1, 2], vec![2]),
            DixonBitvec::from_vecs(vec![0, 1, 2], vec![1]), // changed
            DixonBitvec::from_vecs(vec![0], vec![4]),
        ],
        width: 4,
    };
    assert_eq!(actual, expected);
}

#[test]
fn test_row_xor() {
    let original = gen_test_matrix();
    let mut actual = original.clone();

    actual.xor_update_row(1, 3);
    let expected = DixonBitmatrix {
        rows: vec![
            DixonBitvec::from_vecs(vec![0], vec![0]),
            DixonBitvec::from_vecs(vec![0, 1, 2], vec![1]),
            DixonBitvec::from_vecs(vec![0, 1, 2], vec![2]),
            DixonBitvec::from_vecs(vec![2, 3], vec![1, 3]), // changed
            DixonBitvec::from_vecs(vec![0], vec![4]),
        ],
        width: 4,
    };
    assert_eq!(actual, expected);

    actual.xor_update_row(1, 3);
    assert_eq!(actual, original);
}

#[test]
fn test_bit_marix_to_ref() {
    let mut actual = gen_test_matrix();

    bit_matrix_to_ref(&mut actual);

    let expected = DixonBitmatrix {
        rows: vec![
            DixonBitvec::from_vecs(vec![0], vec![0]),
            DixonBitvec::from_vecs(vec![1, 2], vec![0, 1]),
            DixonBitvec::from_vecs(vec![2, 3], vec![1, 3]),
            DixonBitvec::from_vecs(vec![], vec![1, 2]),
            DixonBitvec::from_vecs(vec![], vec![0, 4]),
        ],
        width: 4,
    };

    assert_eq!(actual, expected);
}

#[test]
fn reduction_is_idempotent_on_example() {
    let mut once = gen_test_matrix();
    bit_matrix_to_ref(&mut once);
    let mut twice = once.clone();
    bit_matrix_to_ref(&mut twice);
    assert_eq!(twice, once);
}

#[test]
fn row_queries() {
    let row = DixonBitvec::from_vecs(vec![], vec![1, 3]);
    assert!(row.is_all_zero());
    let mask = row.into_index_set();
    assert!(!mask[0] && mask[1] && !mask[2] && mask[3]);

    let row2 = DixonBitvec::from_vecs(vec![2], vec![0]);
    assert!(!row2.is_all_zero());
}

#[test]
fn matrix_from_factorizations_parities() {
    let primes = vec![2u64, 5, 7];
    let f1 = factorize_limited(2450, &primes).unwrap(); // exponents 1, 2, 2
    let f2 = factorize_limited(10, &primes).unwrap(); // exponents 1, 1, 0
    let m = bit_matrix_from_factorizations(&vec![f1, f2], &primes);
    assert_eq!(m.nrows(), 2);
    assert_eq!(m.ncols(), 3);
    assert!(m.get_elem(0, 0));
    assert!(!m.get_elem(0, 1));
    assert!(!m.get_elem(0, 2));
    assert!(m.get_elem(1, 0));
    assert!(m.get_elem(1, 1));
    assert!(!m.get_elem(1, 2));
}

#[test]
fn factorization_product_reconstructs() {
    let primes = vec![2u64, 5, 7];
    let f = factorize_limited(2450, &primes).unwrap();
    assert_eq!(f.product(), Some(2450));
    let one = factorize_limited(1, &primes).unwrap();
    assert_eq!(one.product(), Some(1));
}

#[test]
fn factorization_mul_sqrt_product_mod() {
    let primes = vec![2u64, 5, 7];
    let f = factorize_limited(2450, &primes).unwrap();
    assert!(f.sqrt().is_none()); // the exponent of 2 is odd
    let square = f.mul(&f); // exponents 2, 4, 4
    let half = square.sqrt().unwrap();
    assert_eq!(half, f);
    assert_eq!(square.product_mod(1000), 500); // 2450^2 = 6002500
}

#[test]
fn gcd_and_isqrt_basics() {
    assert_eq!(gcd(12, 18), 6);
    assert_eq!(gcd(12, 0), 12);
    assert_eq!(gcd(0, 5), 5);
    assert_eq!(gcd(35, 64), 1);
    assert_eq!(isqrt(0), 0);
    assert_eq!(isqrt(35), 5);
    assert_eq!(isqrt(36), 6);
    assert_eq!(isqrt(u64::MAX), 4294967295);
}

#[test]
fn pollard_fast_paths() {
    let f = PollardBrentFactorizer;
    assert_eq!(f.get_factor(15), 3); // divisible by 3: immediate
    assert_eq!(f.get_factor(14), 2); // even: immediate
    assert_eq!(f.get_factor(0), 2); // even as well
    assert_eq!(f.get_factor(1), 1); // below 2: unchanged
}

#[test]
fn pollard_returns_prime_unchanged() {
    let f = PollardBrentFactorizer;
    assert_eq!(f.get_factor(101), 101);
}

#[test]
fn pollard_finds_factor_of_semiprime() {
    let f = PollardBrentFactorizer;
    let x = 91u64; // 7 * 13
    let mut found = false;
    for _ in 0..20 {
        let d = f.get_factor(x);
        assert_eq!(x % d, 0);
        if d > 1 && d < x {
            found = true;
            break;
        }
    }
    assert!(found);
}

#[test]
fn dixon_splits_product_of_base_primes() {
    let engine = DixonFactorizer::new(vec![2, 3, 5, 7]);
    let x = 35u64; // 5 * 7, both in the base
    let mut found = false;
    for _ in 0..20 {
        if let FactorOutcome::Factor(d) = engine.get_factor(x) {
            assert!(d == 5 || d == 7);
            found = true;
            break;
        }
    }
    assert!(found);
}

#[test]
fn dixon_reports_looks_prime() {
    let engine = DixonFactorizer::new(vec![2, 3, 5, 7]);
    assert_eq!(engine.get_factor(101), FactorOutcome::LooksPrime);
}

#[test]
fn dixon_reports_exhausted_attempts() {
    // with an empty base only residues equal to 1 are smooth, which a
    // sample from a range this wide never hits
    let engine = DixonFactorizer::new(vec![]);
    let x = 999_983u64 * 999_979u64;
    assert_eq!(engine.get_factor(x), FactorOutcome::AttemptsExhausted);
}
