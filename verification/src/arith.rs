//! Exact modular arithmetic shared by both factoring engines: Euclidean
//! gcd, integer square root, modular multiplication and exponentiation,
//! and a primality test used to build factor bases.
use vstd::prelude::*;

verus! {

use vstd::arithmetic::div_mod::lemma_fundamental_div_mod;
use vstd::arithmetic::div_mod::lemma_add_mod_noop;
use vstd::arithmetic::div_mod::lemma_mul_mod_noop_left;
use vstd::arithmetic::div_mod::lemma_mul_mod_noop_right;
use vstd::arithmetic::div_mod::lemma_mod_self_0;
use vstd::arithmetic::div_mod::lemma_small_mod;
use vstd::arithmetic::power::pow;

/// `d` divides `n` exactly.
pub open spec fn divides(d: nat, n: nat) -> bool {
    d != 0 && n % d == 0
}

/// Euclid's greatest common divisor.
pub open spec fn gcd_spec(a: nat, b: nat) -> nat
    decreases b,
{
    if b == 0 {
        a
    } else {
        gcd_spec(b, a % b)
    }
}

/// A divisor of two numbers divides their sum.
proof fn lemma_divides_add(d: nat, x: nat, y: nat)
    requires
        divides(d, x),
        divides(d, y),
    ensures
        divides(d, (x + y) as nat),
{
    lemma_add_mod_noop(x as int, y as int, d as int);
    lemma_small_mod(0, d);
}

/// A divisor of `x` divides every multiple `k * x`.
pub proof fn lemma_divides_mul(d: nat, k: nat, x: nat)
    requires
        divides(d, x),
    ensures
        divides(d, (k * x) as nat),
{
    lemma_mul_mod_noop_right(k as int, x as int, d as int);
    lemma_small_mod(0, d);
}

/// A divisor of a positive number is no larger than it.
pub proof fn lemma_divisor_le(d: nat, n: nat)
    requires
        divides(d, n),
        n > 0,
    ensures
        d <= n,
{
    if d > n {
        lemma_small_mod(n, d);
    }
}

/// The gcd is a positive common divisor of both arguments.
pub proof fn lemma_gcd_divides(a: nat, b: nat)
    requires
        a > 0 || b > 0,
    ensures
        gcd_spec(a, b) > 0,
        divides(gcd_spec(a, b), a),
        divides(gcd_spec(a, b), b),
    decreases b,
{
    if b == 0 {
        lemma_mod_self_0(a as int);
        lemma_small_mod(0, a);
    } else {
        let g = gcd_spec(b, (a % b) as nat);
        lemma_gcd_divides(b, (a % b) as nat);
        lemma_fundamental_div_mod(a as int, b as int);
        let q = a as int / b as int;
        assert(a == q * b + a % b);
        lemma_divides_mul(g, q as nat, b);
        lemma_divides_add(g, (q * b) as nat, (a % b) as nat);
        assert((q * b + a % b) as nat == a);
    }
}

/// A divisor of `b`, which itself divides `c`, divides `c`.
pub proof fn lemma_divides_trans(a: nat, b: nat, c: nat)
    requires
        divides(a, b),
        divides(b, c),
    ensures
        divides(a, c),
{
    lemma_fundamental_div_mod(c as int, b as int);
    let q = c as int / b as int;
    assert(c == q * b);
    lemma_divides_mul(a, q as nat, b);
    assert((q * b) as nat == c);
}

/// A common divisor of two numbers divides their difference.
proof fn lemma_divides_sub(d: nat, x: nat, y: nat)
    requires
        divides(d, x),
        divides(d, y),
        y <= x,
    ensures
        divides(d, (x - y) as nat),
{
    vstd::arithmetic::div_mod::lemma_sub_mod_noop(x as int, y as int, d as int);
    lemma_small_mod(0, d);
}

/// Every common divisor of two numbers divides their gcd.
pub proof fn lemma_gcd_greatest(a: nat, b: nat, d: nat)
    requires
        divides(d, a),
        divides(d, b),
    ensures
        divides(d, gcd_spec(a, b)),
    decreases b,
{
    if b == 0 {
    } else {
        lemma_fundamental_div_mod(a as int, b as int);
        let q = a as int / b as int;
        lemma_divides_mul(d, q as nat, b);
        assert(a - q * b == a % b);
        lemma_divides_sub(d, a, (q * b) as nat);
        lemma_gcd_greatest(b, (a % b) as nat, d);
    }
}

/// The gcd distributes over a common factor: `gcd(ka, kb) == k gcd(a, b)`.
pub proof fn lemma_gcd_mul(k: nat, a: nat, b: nat)
    requires
        k >= 1,
    ensures
        gcd_spec((k * a) as nat, (k * b) as nat) == k * gcd_spec(a, b),
    decreases b,
{
    if b == 0 {
        assert(k * b == 0) by (nonlinear_arith)
            requires b == 0nat;
    } else {
        lemma_fundamental_div_mod(a as int, b as int);
        let q = a as int / b as int;
        let r = a as int % b as int;
        assert(a == q * b + r);
        assert(k * b >= 1) by (nonlinear_arith)
            requires k >= 1nat && b >= 1nat;
        assert(k as int * a as int == q * (k as int * b as int) + k as int * r && 0 <= k as int
            * r < k as int * b as int) by (nonlinear_arith)
            requires
                a as int == q * b as int + r,
                0 <= r < b as int,
                k >= 1nat,
        ;
        vstd::arithmetic::div_mod::lemma_fundamental_div_mod_converse_mod(
            (k * a) as int,
            (k * b) as int,
            q,
            (k as int * r) as int,
        );
        assert((k * a) as nat % (k * b) as nat == k * (a % b));
        lemma_gcd_mul(k, b, (a % b) as nat);
    }
}

/// The gcd does not depend on the order of its arguments.
pub proof fn lemma_gcd_comm(a: nat, b: nat)
    requires
        a > 0 || b > 0,
    ensures
        gcd_spec(a, b) == gcd_spec(b, a),
{
    lemma_gcd_divides(a, b);
    lemma_gcd_divides(b, a);
    lemma_gcd_greatest(b, a, gcd_spec(a, b));
    lemma_gcd_greatest(a, b, gcd_spec(b, a));
    lemma_divisor_le(gcd_spec(a, b), gcd_spec(b, a));
    lemma_divisor_le(gcd_spec(b, a), gcd_spec(a, b));
}

/// A divisor of a prime is 1 or the prime itself.
pub proof fn lemma_prime_divisors(d: nat, p: nat)
    requires
        is_prime(p as int),
        divides(d, p),
    ensures
        d == 1 || d == p,
{
    lemma_divisor_le(d, p);
    if 2 <= d && d < p {
        assert(p as int % d as int != 0);
    }
}

/// What divides a product while coprime to one factor divides the other.
pub proof fn lemma_coprime_divides(x: nat, a: nat, b: nat)
    requires
        gcd_spec(x, a) == 1,
        divides(x, (a * b) as nat),
    ensures
        divides(x, b),
{
    if b == 0 {
        lemma_small_mod(0, x);
    } else {
        lemma_gcd_mul(b, x, a);
        assert(b * gcd_spec(x, a) == b) by (nonlinear_arith)
            requires gcd_spec(x, a) == 1nat;
        vstd::arithmetic::mul::lemma_mul_is_commutative(b as int, x as int);
        vstd::arithmetic::mul::lemma_mul_is_commutative(b as int, a as int);
        lemma_divides_mul(x, b, x);
        assert(divides(x, (b * x) as nat));
        lemma_gcd_greatest((b * x) as nat, (b * a) as nat, x);
    }
}

/// Euclid's lemma: a prime dividing a product divides a factor.
pub proof fn lemma_euclid_prime(p: nat, a: nat, b: nat)
    requires
        is_prime(p as int),
        divides(p, (a * b) as nat),
    ensures
        divides(p, a) || divides(p, b),
{
    if !divides(p, a) {
        lemma_gcd_divides(p, a);
        lemma_prime_divisors(gcd_spec(p, a), p);
        if gcd_spec(p, a) == p {
            assert(divides(p, a));
        }
        lemma_coprime_divides(p, a, b);
    }
}

/// Every number at least 2 has a prime divisor.
pub proof fn lemma_has_prime_factor(n: nat)
    requires
        n >= 2,
    ensures
        exists|q: nat| is_prime(q as int) && #[trigger] divides(q, n),
    decreases n,
{
    if is_prime(n as int) {
        lemma_mod_self_0(n as int);
        assert(divides(n, n));
    } else {
        let d = choose|d: int| 2 <= d < n && #[trigger] (n as int % d) == 0;
        assert(divides(d as nat, n));
        lemma_has_prime_factor(d as nat);
        let q = choose|q: nat| is_prime(q as int) && #[trigger] divides(q, d as nat);
        lemma_divides_trans(q, d as nat, n);
    }
}

/// A nontrivial divisor of a prime is the prime itself; with the
/// factoring contracts this pins the result for a prime target.
pub proof fn lemma_prime_target_unchanged(x: u64, r: u64)
    requires
        is_prime(x as int),
        1 < r <= x,
        x % r == 0,
    ensures
        r == x,
{
    lemma_prime_divisors(r as nat, x as nat);
}

/// Executable Euclidean gcd, `gcd(a, 0) == a`.
pub fn gcd(a: u64, b: u64) -> (r: u64)
    ensures
        r == gcd_spec(a as nat, b as nat),
{
    let mut x = a;
    let mut y = b;
    while y != 0
        invariant
            gcd_spec(x as nat, y as nat) == gcd_spec(a as nat, b as nat),
        decreases y,
    {
        let t = x % y;
        x = y;
        y = t;
    }
    x
}

/// `(a * b) % m` computed without overflow.
pub fn mul_mod(a: u64, b: u64, m: u64) -> (r: u64)
    requires
        m >= 1,
    ensures
        r == (a * b) % (m as int),
        r < m,
{
    proof {
        assert((a as int) * (b as int) <= u128::MAX) by (nonlinear_arith)
            requires a <= u64::MAX && b <= u64::MAX;
    }
    let p: u128 = (a as u128) * (b as u128);
    let r = (p % (m as u128)) as u64;
    r
}

/// `pow(base, e) % m` by repeated modular multiplication.
pub fn pow_mod(base: u64, e: u64, m: u64) -> (r: u64)
    requires
        m >= 1,
    ensures
        r == pow(base as int, e as nat) % (m as int),
        r < m,
    decreases e,
{
    proof {
        vstd::arithmetic::power::lemma_pow0(base as int);
    }
    let mut r: u64 = 1 % m;
    let mut i: u64 = 0;
    while i < e
        invariant
            m >= 1,
            i <= e,
            r == pow(base as int, i as nat) % (m as int),
            r < m,
        decreases e - i,
    {
        proof {
            vstd::arithmetic::power::lemma_pow_adds(base as int, i as nat, 1);
            vstd::arithmetic::power::lemma_pow1(base as int);
            assert(pow(base as int, (i + 1) as nat) == pow(base as int, i as nat) * (
            base as int));
            lemma_mul_mod_noop_left(
                pow(base as int, i as nat),
                base as int,
                m as int,
            );
            vstd::arithmetic::mul::lemma_mul_is_commutative(
                pow(base as int, i as nat),
                base as int,
            );
        }
        r = mul_mod(r, base, m);
        i = i + 1;
    }
    r
}

/// Largest `r` with `r * r <= x`.
pub fn isqrt(x: u64) -> (r: u64)
    ensures
        r * r <= x,
        (r + 1) * (r + 1) > x,
        x >= 1 ==> r >= 1,
        x >= 2 ==> r < x,
{
    let mut lo: u64 = 0;
    let mut hi: u64 = 4294967295;
    proof {
        assert((hi + 1) * (hi + 1) > x) by (nonlinear_arith)
            requires hi == 4294967295u64 && x <= u64::MAX;
    }
    while lo < hi
        invariant
            lo <= hi <= 4294967295,
            lo * lo <= x,
            (hi + 1) * (hi + 1) > x,
        decreases hi - lo,
    {
        let mid = lo + (hi - lo + 1) / 2;
        proof {
            assert(lo < mid <= hi);
            assert((mid as int) * (mid as int) <= u128::MAX) by (nonlinear_arith)
                requires mid <= 4294967295u64;
        }
        if (mid as u128) * (mid as u128) <= (x as u128) {
            lo = mid;
        } else {
            hi = mid - 1;
        }
    }
    proof {
        if x >= 1 && lo == 0 {
            assert((lo + 1) * (lo + 1) == 1) by (nonlinear_arith)
                requires lo == 0u64;
        }
        if x >= 2 && lo >= x {
            assert(lo * lo >= x * x) by (nonlinear_arith)
                requires lo >= x;
            assert(x * x > x) by (nonlinear_arith)
                requires x >= 2;
        }
    }
    lo
}

/// `n` is prime: at least 2 and with no divisor strictly between 1 and `n`.
pub open spec fn is_prime(n: int) -> bool {
    n >= 2 && forall|d: int| 2 <= d < n ==> #[trigger] (n % d) != 0
}

/// Trial-division primality check.
pub fn check_prime(n: u64) -> (r: bool)
    ensures
        r == is_prime(n as int),
{
    if n < 2 {
        return false;
    }
    let mut d: u64 = 2;
    while d < n
        invariant
            2 <= d <= n,
            forall|dd: int| 2 <= dd < d ==> #[trigger] ((n as int) % dd) != 0,
        decreases n - d,
    {
        if n % d == 0 {
            return false;
        }
        d = d + 1;
    }
    true
}

} // verus!
