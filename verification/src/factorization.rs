//! Prime-to-exponent mappings keyed by the factor base in its fixed
//! order, with exponent-wise multiplication, square root, and product
//! reconstruction (exact, and reduced modulo the factoring target).
use vstd::prelude::*;

verus! {

use vstd::arithmetic::power::pow;
use vstd::arithmetic::power::lemma_pow_positive;
use vstd::arithmetic::power::lemma_pow_increases;
use vstd::arithmetic::div_mod::lemma_mul_mod_noop;
use crate::arith::mul_mod;
use crate::arith::pow_mod;

/// Product of `primes[j] ^ exps[j]` over the first `n` pairs.
pub open spec fn pairs_value(primes: Seq<u64>, exps: Seq<u64>, n: int) -> int
    decreases n,
{
    if n <= 0 {
        1
    } else {
        pairs_value(primes, exps, n - 1) * pow(primes[n - 1] as int, exps[n - 1] as nat)
    }
}

/// `pow` is monotone in its base.
proof fn lemma_pow_base_mono(a: nat, b: nat, e: nat)
    requires
        1 <= a <= b,
    ensures
        pow(a as int, e) <= pow(b as int, e),
    decreases e,
{
    reveal(pow);
    if e > 0 {
        lemma_pow_base_mono(a, b, (e - 1) as nat);
        lemma_pow_positive(a as int, (e - 1) as nat);
        assert(a as int * pow(a as int, (e - 1) as nat) <= b as int * pow(
            b as int,
            (e - 1) as nat,
        )) by (nonlinear_arith)
            requires
                0 <= a as int <= b as int,
                0 < pow(a as int, (e - 1) as nat) <= pow(b as int, (e - 1) as nat),
        ;
    }
}

/// Prefix products agree on sequences that agree on the prefix.
pub proof fn lemma_pairs_value_prefix(
    p1: Seq<u64>,
    e1: Seq<u64>,
    p2: Seq<u64>,
    e2: Seq<u64>,
    n: int,
)
    requires
        forall|i: int| 0 <= i < n ==> p1[i] == p2[i] && e1[i] == e2[i],
    ensures
        pairs_value(p1, e1, n) == pairs_value(p2, e2, n),
    decreases n,
{
    if n > 0 {
        lemma_pairs_value_prefix(p1, e1, p2, e2, n - 1);
    }
}

/// An exponent of a prime power that fits in 64 bits is at most 63.
pub proof fn lemma_exponent_bound(p: nat, e: nat, bound: nat)
    requires
        p >= 2,
        pow(p as int, e) <= bound,
        bound <= u64::MAX,
    ensures
        e <= 63,
{
    if e >= 64 {
        lemma_pow_base_mono(2, p, e);
        lemma_pow_increases(2, 64, e);
        vstd::arithmetic::power2::lemma_pow2(64);
        vstd::arithmetic::power2::lemma2_to64_rest();
        assert(pow(2, 64) == 0x10000000000000000);
    }
}

/// Every prefix product of a factorization over keys at least 2 is
/// positive and no larger than the full product.
pub proof fn lemma_pairs_value_mono(primes: Seq<u64>, exps: Seq<u64>, j: int, n: int)
    requires
        0 <= j <= n <= primes.len(),
        forall|i: int| 0 <= i < primes.len() ==> (#[trigger] primes[i]) >= 1,
    ensures
        0 < pairs_value(primes, exps, j) <= pairs_value(primes, exps, n),
    decreases n,
{
    if n <= 0 {
    } else if j == n {
        lemma_pairs_value_mono(primes, exps, 0, n - 1);
        lemma_pow_positive(primes[n - 1] as int, exps[n - 1] as nat);
        assert(pairs_value(primes, exps, n - 1) * pow(primes[n - 1] as int, exps[n - 1] as nat)
            > 0) by (nonlinear_arith)
            requires
                pairs_value(primes, exps, n - 1) > 0,
                pow(primes[n - 1] as int, exps[n - 1] as nat) > 0,
        ;
    } else {
        lemma_pairs_value_mono(primes, exps, j, n - 1);
        lemma_pow_positive(primes[n - 1] as int, exps[n - 1] as nat);
        assert(pairs_value(primes, exps, n - 1) <= pairs_value(primes, exps, n - 1) * pow(
            primes[n - 1] as int,
            exps[n - 1] as nat,
        )) by (nonlinear_arith)
            requires
                pairs_value(primes, exps, n - 1) > 0,
                pow(primes[n - 1] as int, exps[n - 1] as nat) >= 1,
        ;
    }
}

/// A prime dividing a power divides its base.
pub proof fn lemma_prime_divides_pow(p: nat, q: u64, e: nat)
    requires
        crate::arith::is_prime(p as int),
        q >= 1,
        crate::arith::divides(p, pow(q as int, e) as nat),
    ensures
        crate::arith::divides(p, q as nat),
    decreases e,
{
    reveal(pow);
    if e == 0 {
        crate::arith::lemma_divisor_le(p, 1);
    } else {
        lemma_pow_positive(q as int, (e - 1) as nat);
        assert(pow(q as int, e) == q as int * pow(q as int, (e - 1) as nat));
        crate::arith::lemma_euclid_prime(p, q as nat, pow(q as int, (e - 1) as nat) as nat);
        if !crate::arith::divides(p, q as nat) {
            lemma_prime_divides_pow(p, q, (e - 1) as nat);
        }
    }
}

/// A prime dividing a product of prime powers is one of the primes.
pub proof fn lemma_prime_divides_pairs_value(p: nat, primes: Seq<u64>, exps: Seq<u64>, n: int)
    requires
        crate::arith::is_prime(p as int),
        0 <= n <= primes.len(),
        forall|i: int| 0 <= i < primes.len() ==> crate::arith::is_prime((#[trigger] primes[i]) as int),
        crate::arith::divides(p, pairs_value(primes, exps, n) as nat),
    ensures
        exists|i: int| 0 <= i < n && primes[i] as nat == p,
    decreases n,
{
    if n <= 0 {
        crate::arith::lemma_divisor_le(p, 1);
    } else {
        let head = pairs_value(primes, exps, n - 1);
        let tail = pow(primes[n - 1] as int, exps[n - 1] as nat);
        lemma_pairs_value_mono(primes, exps, 0, n - 1);
        lemma_pow_positive(primes[n - 1] as int, exps[n - 1] as nat);
        crate::arith::lemma_euclid_prime(p, head as nat, tail as nat);
        if crate::arith::divides(p, head as nat) {
            lemma_prime_divides_pairs_value(p, primes, exps, n - 1);
            let i = choose|i: int| 0 <= i < n - 1 && primes[i] as nat == p;
            assert(0 <= i < n && primes[i] as nat == p);
        } else {
            lemma_prime_divides_pow(p, primes[n - 1], exps[n - 1] as nat);
            crate::arith::lemma_prime_divisors(p, primes[n - 1] as nat);
            assert(primes[n - 1] as nat == p);
        }
    }
}

/// A sparse factorization: a prime-to-exponent mapping whose keys follow
/// the factor base's order.
#[derive(Debug)]
pub struct Factorization {
    pub primes: Vec<u64>,
    pub exponents: Vec<u64>,
}

/// Compares two `u64` vectors element by element.
fn vec_u64_eq(a: &Vec<u64>, b: &Vec<u64>) -> (r: bool)
    ensures
        r == (a@ == b@),
{
    if a.len() != b.len() {
        return false;
    }
    let mut i: usize = 0;
    while i < a.len()
        invariant
            i <= a@.len(),
            a@.len() == b@.len(),
            forall|j: int| 0 <= j < i ==> a@[j] == b@[j],
        decreases a@.len() - i,
    {
        if a[i] != b[i] {
            return false;
        }
        i = i + 1;
    }
    proof {
        assert(a@ =~= b@);
    }
    true
}

impl Factorization {
    /// Well-formed: aligned key and exponent vectors, keys at least 2.
    pub open spec fn wf(self) -> bool {
        &&& self.primes@.len() == self.exponents@.len()
        &&& forall|j: int| 0 <= j < self.primes@.len() ==> (#[trigger] self.primes@[j]) >= 2
    }

    /// The integer this factorization represents.
    pub open spec fn value(self) -> int {
        pairs_value(self.primes@, self.exponents@, self.primes@.len() as int)
    }

    /// Multiplication of factorizations over the same base: exponent-wise
    /// addition.
    pub fn mul(&self, other: &Factorization) -> (r: Factorization)
        requires
            self.wf(),
            other.wf(),
            self.primes@ == other.primes@,
            forall|j: int|
                0 <= j < self.exponents@.len() ==> (#[trigger] self.exponents@[j]) + other.exponents@[j]
                    <= u64::MAX,
        ensures
            r.wf(),
            r.primes@ == self.primes@,
            r.exponents@.len() == self.exponents@.len(),
            forall|j: int|
                0 <= j < r.exponents@.len() ==> (#[trigger] r.exponents@[j]) == self.exponents@[j]
                    + other.exponents@[j],
    {
        let mut ps: Vec<u64> = Vec::new();
        let mut es: Vec<u64> = Vec::new();
        let mut j: usize = 0;
        while j < self.primes.len()
            invariant
                j <= self.primes@.len(),
                self.wf(),
                other.wf(),
                self.primes@ == other.primes@,
                forall|i: int|
                    0 <= i < self.exponents@.len() ==> (#[trigger] self.exponents@[i])
                        + other.exponents@[i] <= u64::MAX,
                ps@ == self.primes@.take(j as int),
                es@.len() == j,
                forall|i: int|
                    0 <= i < j ==> (#[trigger] es@[i]) == self.exponents@[i] + other.exponents@[i],
            decreases self.primes@.len() - j,
        {
            ps.push(self.primes[j]);
            es.push(self.exponents[j] + other.exponents[j]);
            proof {
                assert(ps@ =~= self.primes@.take(j as int + 1));
            }
            j = j + 1;
        }
        proof {
            assert(self.primes@.take(self.primes@.len() as int) =~= self.primes@);
        }
        Factorization { primes: ps, exponents: es }
    }

    /// Square root: fails unless every exponent is even, else halves each
    /// exponent.
    pub fn sqrt(&self) -> (r: Option<Factorization>)
        requires
            self.wf(),
        ensures
            r is Some <==> (forall|j: int|
                0 <= j < self.exponents@.len() ==> (#[trigger] self.exponents@[j]) % 2 == 0),
            r is Some ==> {
                let h = r.unwrap();
                &&& h.wf()
                &&& h.primes@ == self.primes@
                &&& h.exponents@.len() == self.exponents@.len()
                &&& forall|j: int|
                    0 <= j < h.exponents@.len() ==> (#[trigger] h.exponents@[j])
                        == self.exponents@[j] / 2
            },
    {
        let mut ps: Vec<u64> = Vec::new();
        let mut es: Vec<u64> = Vec::new();
        let mut j: usize = 0;
        while j < self.primes.len()
            invariant
                j <= self.primes@.len(),
                self.wf(),
                ps@ == self.primes@.take(j as int),
                es@.len() == j,
                forall|i: int| 0 <= i < j ==> (#[trigger] self.exponents@[i]) % 2 == 0,
                forall|i: int| 0 <= i < j ==> (#[trigger] es@[i]) == self.exponents@[i] / 2,
            decreases self.primes@.len() - j,
        {
            if self.exponents[j] % 2 != 0 {
                return None;
            }
            ps.push(self.primes[j]);
            es.push(self.exponents[j] / 2);
            proof {
                assert(ps@ =~= self.primes@.take(j as int + 1));
            }
            j = j + 1;
        }
        proof {
            assert(self.primes@.take(self.primes@.len() as int) =~= self.primes@);
        }
        Some(Factorization { primes: ps, exponents: es })
    }

    /// The represented integer, reduced modulo `m`.
    pub fn product_mod(&self, m: u64) -> (r: u64)
        requires
            self.wf(),
            m >= 1,
        ensures
            r == self.value() % (m as int),
            r < m,
    {
        let mut acc: u64 = 1 % m;
        let mut j: usize = 0;
        while j < self.primes.len()
            invariant
                j <= self.primes@.len(),
                self.wf(),
                m >= 1,
                acc < m,
                acc == pairs_value(self.primes@, self.exponents@, j as int) % (m as int),
            decreases self.primes@.len() - j,
        {
            let f = pow_mod(self.primes[j], self.exponents[j], m);
            proof {
                lemma_mul_mod_noop(
                    pairs_value(self.primes@, self.exponents@, j as int),
                    pow(self.primes@[j as int] as int, self.exponents@[j as int] as nat),
                    m as int,
                );
            }
            acc = mul_mod(acc, f, m);
            j = j + 1;
        }
        acc
    }

    /// The represented integer, exactly; `None` when it does not fit.
    pub fn product(&self) -> (r: Option<u64>)
        requires
            self.wf(),
        ensures
            r is Some ==> r.unwrap() == self.value(),
            r is None ==> self.value() > u64::MAX,
    {
        let mut acc: u64 = 1;
        let mut j: usize = 0;
        while j < self.primes.len()
            invariant
                j <= self.primes@.len(),
                self.wf(),
                acc == pairs_value(self.primes@, self.exponents@, j as int),
            decreases self.primes@.len() - j,
        {
            let p = self.primes[j];
            let e = self.exponents[j];
            let ghost pv = pairs_value(self.primes@, self.exponents@, j as int);
            proof {
                lemma_pairs_value_mono(self.primes@, self.exponents@, 0, j as int);
            }
            proof {
                vstd::arithmetic::power::lemma_pow0(p as int);
            }
            let mut i: u64 = 0;
            while i < e
                invariant
                    i <= e,
                    self.wf(),
                    j < self.primes@.len(),
                    p == self.primes@[j as int],
                    e == self.exponents@[j as int],
                    p >= 2,
                    pv == pairs_value(self.primes@, self.exponents@, j as int),
                    pv >= 1,
                    acc == pv * pow(p as int, i as nat),
                    acc >= 1,
                decreases e - i,
            {
                proof {
                    vstd::arithmetic::power::lemma_pow_adds(p as int, i as nat, 1);
                    vstd::arithmetic::power::lemma_pow1(p as int);
                    vstd::arithmetic::mul::lemma_mul_is_associative(
                        pv,
                        pow(p as int, i as nat),
                        p as int,
                    );
                }
                proof {
                    assert(acc * p >= 1) by (nonlinear_arith)
                        requires
                            acc >= 1,
                            p >= 2,
                    ;
                }
                let next = acc.checked_mul(p);
                if next.is_none() {
                    proof {
                        // the full product only grows past this partial one
                        lemma_pow_positive(p as int, (i + 1) as nat);
                        assert(acc * p > u64::MAX);
                        assert(pv * pow(p as int, (i + 1) as nat) > u64::MAX);
                        lemma_pow_increases(p as nat, (i + 1) as nat, e as nat);
                        assert(pv * pow(p as int, (i + 1) as nat) <= pv * pow(
                            p as int,
                            e as nat,
                        )) by (nonlinear_arith)
                            requires
                                pv >= 1,
                                0 < pow(p as int, (i + 1) as nat) <= pow(p as int, e as nat),
                        ;
                        assert(pairs_value(self.primes@, self.exponents@, j as int + 1) == pv
                            * pow(p as int, e as nat));
                        lemma_pairs_value_mono(
                            self.primes@,
                            self.exponents@,
                            j as int + 1,
                            self.primes@.len() as int,
                        );
                    }
                    return None;
                }
                acc = next.unwrap();
                i = i + 1;
            }
            j = j + 1;
        }
        Some(acc)
    }
}

impl PartialEq for Factorization {
    /// Factorizations are equal when keys and exponents agree pairwise.
    fn eq(&self, other: &Self) -> (r: bool) {
        vec_u64_eq(&self.primes, &other.primes) && vec_u64_eq(&self.exponents, &other.exponents)
    }
}

impl vstd::std_specs::cmp::PartialEqSpecImpl for Factorization {
    open spec fn obeys_eq_spec() -> bool {
        true
    }

    open spec fn eq_spec(&self, other: &Self) -> bool {
        self.primes@ == other.primes@ && self.exponents@ == other.exponents@
    }
}

} // verus!
