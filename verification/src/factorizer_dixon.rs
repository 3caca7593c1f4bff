//! Dixon's congruence-of-squares factoring engine: collect congruences
//! `a^2 = b (mod x)` with `b` smooth over a fixed prime base, then find
//! subsets of the `b` values whose product is a perfect square by
//! row-echelon reduction of a GF(2) matrix, and read a factor off each
//! all-zero row.
use vstd::prelude::*;

verus! {

use vstd::arithmetic::power::pow;
use crate::arith::gcd;
use crate::arith::gcd_spec;
use crate::arith::lemma_gcd_divides;
use crate::arith::isqrt;
use crate::arith::mul_mod;
use crate::factorization::Factorization;
use crate::factorization::pairs_value;
use crate::factorization::lemma_exponent_bound;
use crate::bit_matrix::DixonBitvec;
use crate::bit_matrix::DixonBitmatrix;
use crate::bit_matrix::mask_bit;
use crate::bit_matrix::bit_positions;
use crate::bit_matrix::position_set;
use crate::bit_matrix::sum_sel;
use crate::bit_matrix::row_consistent;
use crate::bit_matrix::rows_consistent;
use crate::bit_matrix::lemma_sum_sel_singleton;
use crate::bit_matrix::lemma_reduce_preserves_consistency;
use crate::bit_matrix::lemma_zero_row_even_sums;

/// Repeated division of `x` by `p` while divisible.
pub open spec fn strip(x: nat, p: nat) -> nat
    decreases x,
{
    if p >= 2 && x >= 1 && x % p == 0 {
        proof {
            vstd::arithmetic::div_mod::lemma_div_decreases(x as int, p as int);
        }
        strip(x / p, p)
    } else {
        x
    }
}

/// How many times `p` divides `x`.
pub open spec fn strip_count(x: nat, p: nat) -> nat
    decreases x,
{
    if p >= 2 && x >= 1 && x % p == 0 {
        proof {
            vstd::arithmetic::div_mod::lemma_div_decreases(x as int, p as int);
        }
        1 + strip_count(x / p, p)
    } else {
        0
    }
}

/// The residue of `x` after dividing out the first `j` base primes, in
/// base order.
pub open spec fn residual(x: nat, primes: Seq<u64>, j: int) -> nat
    decreases j,
{
    if j <= 0 {
        x
    } else {
        strip(residual(x, primes, j - 1), primes[j - 1] as nat)
    }
}

/// `x` is a product of powers of the base primes alone.
pub open spec fn smooth_over(x: nat, primes: Seq<u64>) -> bool {
    residual(x, primes, primes.len() as int) == 1
}

/// Stripping a prime factors a number exactly: `x == p^count * rest`,
/// with `p` no longer dividing the rest.
pub proof fn lemma_strip_product(x: nat, p: nat)
    requires
        p >= 2,
        x >= 1,
    ensures
        x == pow(p as int, strip_count(x, p)) * strip(x, p),
        strip(x, p) >= 1,
        strip(x, p) % p != 0,
    decreases x,
{
    if x % p == 0 {
        vstd::arithmetic::div_mod::lemma_fundamental_div_mod(x as int, p as int);
        if x < p {
            vstd::arithmetic::div_mod::lemma_small_mod(x, p);
        }
        vstd::arithmetic::div_mod::lemma_div_decreases(x as int, p as int);
        vstd::arithmetic::div_mod::lemma_div_non_zero(x as int, p as int);
        lemma_strip_product(x / p, p);
        let cnt = strip_count(x / p, p);
        vstd::arithmetic::power::lemma_pow_adds(p as int, 1, cnt);
        vstd::arithmetic::power::lemma_pow1(p as int);
        vstd::arithmetic::mul::lemma_mul_is_associative(
            p as int,
            pow(p as int, cnt),
            strip(x / p, p) as int,
        );
        assert(x as int == p as int * (x as int / p as int));
    } else {
        vstd::arithmetic::power::lemma_pow0(p as int);
    }
}

/// The residue after dividing out a prefix of the base divides the
/// original value, stays positive, and holds no processed prime.
pub proof fn lemma_residual_props(x: nat, primes: Seq<u64>, j: int)
    requires
        x >= 1,
        0 <= j <= primes.len(),
        forall|i: int| 0 <= i < primes.len() ==> (#[trigger] primes[i]) >= 2,
    ensures
        residual(x, primes, j) >= 1,
        crate::arith::divides(residual(x, primes, j), x),
        forall|i: int| 0 <= i < j ==> residual(x, primes, j) % ((#[trigger] primes[i]) as nat) != 0,
    decreases j,
{
    if j <= 0 {
        vstd::arithmetic::div_mod::lemma_mod_self_0(x as int);
    } else {
        lemma_residual_props(x, primes, j - 1);
        let prev = residual(x, primes, j - 1);
        let p = primes[j - 1] as nat;
        let r = strip(prev, p);
        lemma_strip_product(prev, p);
        crate::arith::lemma_divides_mul(r, pow(p as int, strip_count(prev, p)) as nat, r);
        vstd::arithmetic::power::lemma_pow_positive(p as int, strip_count(prev, p));
        assert(crate::arith::divides(r, prev));
        crate::arith::lemma_divides_trans(r, prev, x);
        assert forall|i: int|
            0 <= i < j implies residual(x, primes, j) % ((#[trigger] primes[i]) as nat) != 0 by {
            if i < j - 1 {
                if r % (primes[i] as nat) == 0 {
                    crate::arith::lemma_divides_trans(primes[i] as nat, r, prev);
                }
            }
        }
    }
}

proof fn lemma_outside_prime_divides_residual(x: nat, p: nat, primes: Seq<u64>, j: int)
    requires
        x >= 1,
        0 <= j <= primes.len(),
        crate::arith::is_prime(p as int),
        crate::arith::divides(p, x),
        forall|i: int| 0 <= i < primes.len() ==> ((#[trigger] primes[i]) as nat) != p,
        forall|i: int| 0 <= i < primes.len() ==> crate::arith::is_prime((#[trigger] primes[i]) as int),
    ensures
        crate::arith::divides(p, residual(x, primes, j)),
    decreases j,
{
    if j > 0 {
        lemma_outside_prime_divides_residual(x, p, primes, j - 1);
        assert(forall|i: int| 0 <= i < primes.len() ==> (#[trigger] primes[i]) >= 2);
        lemma_residual_props(x, primes, j - 1);
        let prev = residual(x, primes, j - 1);
        let q = primes[j - 1];
        let cnt = strip_count(prev, q as nat);
        lemma_strip_product(prev, q as nat);
        vstd::arithmetic::power::lemma_pow_positive(q as int, cnt);
        assert(prev == (pow(q as int, cnt) as nat) * strip(prev, q as nat));
        crate::arith::lemma_euclid_prime(
            p,
            pow(q as int, cnt) as nat,
            strip(prev, q as nat),
        );
        if crate::arith::divides(p, pow(q as int, cnt) as nat) {
            crate::factorization::lemma_prime_divides_pow(p, q, cnt);
            crate::arith::lemma_prime_divisors(p, q as nat);
        }
    }
}

/// A value with a prime factor outside the base is never smooth over the
/// base: the smooth tester reports failure on it.
pub proof fn lemma_outside_prime_blocks_smoothness(x: nat, p: nat, primes: Seq<u64>)
    requires
        x >= 1,
        crate::arith::is_prime(p as int),
        crate::arith::divides(p, x),
        forall|i: int| 0 <= i < primes.len() ==> ((#[trigger] primes[i]) as nat) != p,
        forall|i: int| 0 <= i < primes.len() ==> crate::arith::is_prime((#[trigger] primes[i]) as int),
    ensures
        !smooth_over(x, primes),
{
    lemma_outside_prime_divides_residual(x, p, primes, primes.len() as int);
    if smooth_over(x, primes) {
        crate::arith::lemma_divisor_le(p, 1);
    }
}

/// Every product of powers of the base primes is smooth over the base:
/// on it the smooth tester succeeds, and its contract then reconstructs
/// the value exactly.
pub proof fn lemma_base_products_are_smooth(primes: Seq<u64>, exps: Seq<u64>)
    requires
        forall|i: int| 0 <= i < primes.len() ==> crate::arith::is_prime((#[trigger] primes[i]) as int),
    ensures
        smooth_over(pairs_value(primes, exps, primes.len() as int) as nat, primes),
{
    assert(forall|i: int| 0 <= i < primes.len() ==> (#[trigger] primes[i]) >= 2);
    crate::factorization::lemma_pairs_value_mono(primes, exps, 0, primes.len() as int);
    let x = pairs_value(primes, exps, primes.len() as int) as nat;
    lemma_residual_props(x, primes, primes.len() as int);
    let r = residual(x, primes, primes.len() as int);
    if r >= 2 {
        crate::arith::lemma_has_prime_factor(r);
        let q = choose|q: nat|
            crate::arith::is_prime(q as int) && #[trigger] crate::arith::divides(q, r);
        crate::arith::lemma_divides_trans(q, r, x);
        crate::factorization::lemma_prime_divides_pairs_value(
            q,
            primes,
            exps,
            primes.len() as int,
        );
        let i = choose|i: int| 0 <= i < primes.len() && primes[i] as nat == q;
        assert(r % (primes[i] as nat) != 0);
    }
}

/// Attempts to express `x` as a product of powers of the given primes;
/// succeeds exactly when nothing of `x` remains after dividing all of
/// them out.
pub fn factorize_limited(x: u64, primes: &Vec<u64>) -> (r: Option<Factorization>)
    requires
        x >= 1,
        forall|j: int| 0 <= j < primes@.len() ==> (#[trigger] primes@[j]) >= 2,
    ensures
        (r is Some) == smooth_over(x as nat, primes@),
        r matches Some(f) ==> {
            &&& f.wf()
            &&& f.primes@ == primes@
            &&& f.exponents@.len() == primes@.len()
            &&& f.value() == x
            &&& forall|j: int|
                0 <= j < primes@.len() ==> (#[trigger] f.exponents@[j]) == strip_count(
                    residual(x as nat, primes@, j),
                    primes@[j] as nat,
                ) && f.exponents@[j] <= 63
        },
{
    let mut c = x;
    let mut ps: Vec<u64> = Vec::new();
    let mut es: Vec<u64> = Vec::new();
    let mut j: usize = 0;
    while j < primes.len()
        invariant
            j <= primes@.len(),
            x >= 1,
            c >= 1,
            forall|i: int| 0 <= i < primes@.len() ==> (#[trigger] primes@[i]) >= 2,
            ps@ == primes@.take(j as int),
            es@.len() == j,
            c == residual(x as nat, primes@, j as int),
            pairs_value(ps@, es@, j as int) * c == x,
            forall|i: int|
                0 <= i < j ==> (#[trigger] es@[i]) == strip_count(
                    residual(x as nat, primes@, i),
                    primes@[i] as nat,
                ) && es@[i] <= 63,
        decreases primes@.len() - j,
    {
        let p = primes[j];
        let ghost c0 = c as nat;
        let ghost pv = pairs_value(ps@, es@, j as int);
        proof {
            vstd::arithmetic::power::lemma_pow0(p as int);
        }
        let mut count: u64 = 0;
        while c % p == 0
            invariant
                p >= 2,
                c >= 1,
                count <= 63,
                strip(c as nat, p as nat) == strip(c0, p as nat),
                count + strip_count(c as nat, p as nat) == strip_count(c0, p as nat),
                pow(p as int, count as nat) * c == c0,
                c0 <= u64::MAX,
            decreases c,
        {
            proof {
                // c is a positive multiple of p, so dividing keeps it positive
                vstd::arithmetic::div_mod::lemma_fundamental_div_mod(c as int, p as int);
                if c < p {
                    vstd::arithmetic::div_mod::lemma_small_mod(c as nat, p as nat);
                }
                vstd::arithmetic::power::lemma_pow_adds(p as int, count as nat, 1);
                vstd::arithmetic::power::lemma_pow1(p as int);
                vstd::arithmetic::mul::lemma_mul_is_associative(
                    pow(p as int, count as nat),
                    p as int,
                    c as int / p as int,
                );
                assert(pow(p as int, (count + 1) as nat) * (c as int / p as int) == pow(
                    p as int,
                    count as nat,
                ) * (p as int * (c as int / p as int)));
                vstd::arithmetic::power::lemma_pow_positive(p as int, (count + 1) as nat);
                assert(pow(p as int, (count + 1) as nat) <= pow(p as int, (count + 1) as nat) * (
                c as int / p as int) || c as int / p as int == 0) by (nonlinear_arith)
                    requires
                        pow(p as int, (count + 1) as nat) > 0,
                        c as int / p as int >= 0,
                ;
                lemma_exponent_bound(p as nat, (count + 1) as nat, c0);
            }
            c = c / p;
            count = count + 1;
        }
        let ghost ps0 = ps@;
        let ghost es0 = es@;
        ps.push(p);
        es.push(count);
        proof {
            assert(ps@ =~= primes@.take(j as int + 1));
            assert(strip(c as nat, p as nat) == c);
            assert(residual(x as nat, primes@, j as int + 1) == strip(c0, p as nat));
            crate::factorization::lemma_pairs_value_prefix(ps0, es0, ps@, es@, j as int);
            assert(pairs_value(ps@, es@, j as int + 1) == pv * pow(p as int, count as nat));
            vstd::arithmetic::mul::lemma_mul_is_associative(
                pv,
                pow(p as int, count as nat),
                c as int,
            );
        }
        j = j + 1;
    }
    proof {
        assert(primes@.take(primes@.len() as int) =~= primes@);
        assert(ps@ == primes@);
    }
    if c == 1 {
        let f = Factorization { primes: ps, exponents: es };
        proof {
            assert(f.wf());
            let jj = j as int;
            assert(jj == primes@.len());
            assert(pairs_value(ps@, es@, jj) * (c as int) == x);
            assert(pairs_value(ps@, es@, jj) == x) by (nonlinear_arith)
                requires
                    pairs_value(ps@, es@, jj) * (c as int) == x,
                    c == 1u64,
            ;
            assert(f.value() == pairs_value(ps@, es@, jj));
            assert(smooth_over(x as nat, primes@));
        }
        Some(f)
    } else {
        None
    }
}

/// The exponent rows of the collected factorizations, as one table.
pub open spec fn exps_table(fs: Seq<Factorization>) -> Seq<Seq<u64>> {
    fs.map(|i: int, f: Factorization| f.exponents@)
}

/// Product of the selected `a` values over the first `n` records,
/// reduced modulo `x`.
pub open spec fn masked_a_prod_mod(a_values: Seq<u64>, sel: Set<int>, n: int, x: int) -> int
    decreases n,
{
    if n <= 0 {
        1int % x
    } else if sel.contains(n - 1) {
        (masked_a_prod_mod(a_values, sel, n - 1, x) * a_values[n - 1]) % x
    } else {
        masked_a_prod_mod(a_values, sel, n - 1, x)
    }
}

/// Half of each column's exponent sum over the selected records: the
/// exponents of the square root of the selected factorizations' product.
pub open spec fn half_exponents(fs: Seq<Factorization>, sel: Set<int>, width: int) -> Seq<u64> {
    Seq::new(
        width as nat,
        |j: int| (sum_sel(exps_table(fs), sel, fs.len() as int, j) / 2) as u64,
    )
}

/// The square root of the selected factorizations' product, as an
/// integer modulo `x`.
pub open spec fn sqrt_value_mod(
    primes: Seq<u64>,
    fs: Seq<Factorization>,
    sel: Set<int>,
    x: int,
) -> int {
    pairs_value(primes, half_exponents(fs, sel, primes.len() as int), primes.len() as int) % x
}

/// The divisor candidate a congruence subset yields: with `a_prod` the
/// product of its `a` values and `b_sqrt` the square root of its smooth
/// product, `gcd((x + a_prod - b_sqrt) mod x, x)`.
pub open spec fn candidate_of(
    primes: Seq<u64>,
    a_values: Seq<u64>,
    fs: Seq<Factorization>,
    sel: Set<int>,
    x: int,
) -> int {
    let apm = masked_a_prod_mod(a_values, sel, a_values.len() as int, x);
    let bsm = sqrt_value_mod(primes, fs, sel, x);
    gcd_spec(((x + apm - bsm) % x) as nat, x as nat) as int
}

/// Builds the GF(2) matrix: row `i` holds the parity of each base
/// exponent of the `i`th factorization, and contributing-index set `{i}`.
pub fn bit_matrix_from_factorizations(
    factorizations: &Vec<Factorization>,
    primes: &Vec<u64>,
) -> (r: DixonBitmatrix)
    requires
        forall|i: int|
            0 <= i < factorizations@.len() ==> (#[trigger] factorizations@[i]).primes@ == primes@
                && factorizations@[i].wf(),
    ensures
        r.width == primes@.len(),
        r.model().len() == factorizations@.len(),
        forall|i: int, c: int|
            0 <= i < r.model().len() ==> ((#[trigger] r.model()[i].elems.contains(c)) <==> (0 <= c
                < primes@.len() && factorizations@[i].exponents@[c] % 2 == 1)),
        forall|i: int, c: int|
            0 <= i < r.model().len() ==> ((#[trigger] r.model()[i].inds.contains(c)) <==> c == i),
        rows_consistent(
            r.model(),
            exps_table(factorizations@),
            factorizations@.len() as int,
            primes@.len() as int,
        ),
{
    let mut rows: Vec<DixonBitvec> = Vec::new();
    let mut i: usize = 0;
    while i < factorizations.len()
        invariant
            i <= factorizations@.len(),
            forall|k: int|
                0 <= k < factorizations@.len() ==> (#[trigger] factorizations@[k]).primes@
                    == primes@ && factorizations@[k].wf(),
            rows@.len() == i,
            forall|k: int, c: int|
                0 <= k < i ==> ((#[trigger] rows@[k].model().elems.contains(c)) <==> (0 <= c
                    < primes@.len() && factorizations@[k].exponents@[c] % 2 == 1)),
            forall|k: int, c: int|
                0 <= k < i ==> ((#[trigger] rows@[k].model().inds.contains(c)) <==> c == k),
        decreases factorizations@.len() - i,
    {
        let fact = &factorizations[i];
        let mut elements: Vec<bool> = Vec::new();
        let mut c: usize = 0;
        while c < fact.exponents.len()
            invariant
                c <= fact.exponents@.len(),
                fact.wf(),
                elements@.len() == c,
                forall|k: int| 0 <= k < c ==> elements@[k] == (fact.exponents@[k] % 2 == 1),
            decreases fact.exponents@.len() - c,
        {
            elements.push(fact.exponents[c] % 2 == 1);
            c = c + 1;
        }
        let mut indices: Vec<bool> = Vec::new();
        let mut k: usize = 0;
        while k < i
            invariant
                k <= i,
                indices@.len() == k,
                forall|t: int| 0 <= t < k ==> !indices@[t],
            decreases i - k,
        {
            indices.push(false);
            k = k + 1;
        }
        indices.push(true);
        let row = DixonBitvec { elements, indices };
        rows.push(row);
        i = i + 1;
    }
    let r = DixonBitmatrix { rows, width: primes.len() };
    proof {
        assert forall|i2: int, c: int|
            0 <= i2 < r.model().len() implies ((#[trigger] r.model()[i2].elems.contains(c)) <==> (
        0 <= c < primes@.len() && factorizations@[i2].exponents@[c] % 2 == 1)) by {
            assert(r.model()[i2] == r.rows@[i2].model());
        }
        assert forall|i2: int, c: int|
            0 <= i2 < r.model().len() implies ((#[trigger] r.model()[i2].inds.contains(c)) <==> c
            == i2) by {
            assert(r.model()[i2] == r.rows@[i2].model());
        }
        let table = exps_table(factorizations@);
        let n = factorizations@.len() as int;
        let width = primes@.len() as int;
        assert forall|i2: int|
            0 <= i2 < r.model().len() implies row_consistent(
            #[trigger] r.model()[i2],
            table,
            n,
            width,
        ) by {
            let rm = r.model()[i2];
            
            assert forall|c: int|
                0 <= c < width implies ((#[trigger] rm.elems.contains(c)) <==> sum_sel(
                table,
                rm.inds,
                n,
                c,
            ) % 2 == 1) by {
                lemma_sum_sel_singleton(table, rm.inds, i2, n, c);
                assert(table[i2] == factorizations@[i2].exponents@);
                assert(sum_sel(table, rm.inds, n, c) == factorizations@[i2].exponents@[c]);
            }
        }
    }
    r
}

/// Membership in the positions of a one-element list.
proof fn lemma_position_set_one(s: Seq<usize>, a: usize)
    requires
        s.len() == 1,
        s[0] == a,
    ensures
        forall|c: int| #[trigger] position_set(s).contains(c) <==> c == a as int,
{
    assert forall|c: int| #[trigger] position_set(s).contains(c) <==> c == a as int by {
        if position_set(s).contains(c) {
            let j = choose|j: int| 0 <= j < s.len() && (#[trigger] s[j]) as int == c;
        }
        if c == a as int {
            assert(s[0] as int == c);
            assert(position_set(s).contains(c));
        }
    }
}

/// Membership in the positions of a three-element list.
proof fn lemma_position_set_three(s: Seq<usize>, a: usize, b: usize, d: usize)
    requires
        s.len() == 3,
        s[0] == a,
        s[1] == b,
        s[2] == d,
    ensures
        forall|c: int|
            #[trigger] position_set(s).contains(c) <==> (c == a as int || c == b as int || c
                == d as int),
{
    assert forall|c: int|
        #[trigger] position_set(s).contains(c) <==> (c == a as int || c == b as int || c
            == d as int) by {
        if position_set(s).contains(c) {
            let j = choose|j: int| 0 <= j < s.len() && (#[trigger] s[j]) as int == c;
        }
        if c == a as int {
            assert(s[0] as int == c);
            assert(position_set(s).contains(c));
        }
        if c == b as int {
            assert(s[1] as int == c);
            assert(position_set(s).contains(c));
        }
        if c == d as int {
            assert(s[2] as int == c);
            assert(position_set(s).contains(c));
        }
    }
}

/// A fixed matrix the tests reduce by hand:
/// ```text
/// [1, 0, 0, 0] {0}       [1, 0, 0, 0] {0}
/// [1, 1, 1, 0] {1}  ref  [0, 1, 1, 0] {0,1}
/// [1, 1, 1, 0] {2} ----> [0, 0, 1, 1] {1,3}
/// [1, 1, 0, 1] {3}       [0, 0, 0, 0] {1,2}
/// [1, 0, 0, 0] {4}       [0, 0, 0, 0] {0,4}
/// ```
pub fn gen_test_matrix() -> (r: DixonBitmatrix)
    ensures
        r.model().len() == 5,
        r.width == 4,
        forall|c: int| (#[trigger] r.model()[0].elems.contains(c)) <==> c == 0,
        forall|c: int|
            (#[trigger] r.model()[1].elems.contains(c)) <==> (c == 0 || c == 1 || c == 2),
        forall|c: int|
            (#[trigger] r.model()[2].elems.contains(c)) <==> (c == 0 || c == 1 || c == 2),
        forall|c: int|
            (#[trigger] r.model()[3].elems.contains(c)) <==> (c == 0 || c == 1 || c == 3),
        forall|c: int| (#[trigger] r.model()[4].elems.contains(c)) <==> c == 0,
        forall|i: int, c: int|
            0 <= i < 5 ==> ((#[trigger] r.model()[i].inds.contains(c)) <==> c == i),
{
    let e0: Vec<usize> = vec![0];
    let i0: Vec<usize> = vec![0];
    let e1: Vec<usize> = vec![0, 1, 2];
    let i1: Vec<usize> = vec![1];
    let e2: Vec<usize> = vec![0, 1, 2];
    let i2: Vec<usize> = vec![2];
    let e3: Vec<usize> = vec![0, 1, 3];
    let i3: Vec<usize> = vec![3];
    let e4: Vec<usize> = vec![0];
    let i4: Vec<usize> = vec![4];
    let ghost views = seq![e0@, i0@, e1@, i1@, e2@, i2@, e3@, i3@, e4@, i4@];
    let r0 = DixonBitvec::from_vecs(e0, i0);
    let r1 = DixonBitvec::from_vecs(e1, i1);
    let r2 = DixonBitvec::from_vecs(e2, i2);
    let r3 = DixonBitvec::from_vecs(e3, i3);
    let r4 = DixonBitvec::from_vecs(e4, i4);
    let rows = vec![r0, r1, r2, r3, r4];
    let r = DixonBitmatrix { rows, width: 4 };
    proof {
        assert(r.model()[0] == r0.model());
        assert(r.model()[1] == r1.model());
        assert(r.model()[2] == r2.model());
        assert(r.model()[3] == r3.model());
        assert(r.model()[4] == r4.model());
        lemma_position_set_one(views[0], 0);
        lemma_position_set_one(views[1], 0);
        lemma_position_set_three(views[2], 0, 1, 2);
        lemma_position_set_one(views[3], 1);
        lemma_position_set_three(views[4], 0, 1, 2);
        lemma_position_set_one(views[5], 2);
        lemma_position_set_three(views[6], 0, 1, 3);
        lemma_position_set_one(views[7], 3);
        lemma_position_set_one(views[8], 0);
        lemma_position_set_one(views[9], 4);
    }
    r
}

/// What one `get_factor` call reports.
#[derive(Clone, Copy, Debug, PartialEq, Eq, Structural)]
pub enum FactorOutcome {
    /// A nontrivial divisor of the target.
    Factor(u64),
    /// Every congruence subset led to a trivial divisor: the target
    /// behaves like a prime for this round's randomness.
    LooksPrime,
    /// The per-slot retry budget ran out while hunting for a smooth
    /// residue: the prime base is too small or the round was unlucky.
    AttemptsExhausted,
}

/// The result of one congruence-hunting round.
enum CongruenceSample {
    /// A value `a` with a recorded smooth factorization of `a^2 mod x`.
    Smooth(u64, Factorization),
    /// `a^2 mod x == 0` came up, which yields a factor directly.
    EarlyFactor(u64),
    /// No smooth residue within the attempt budget.
    Exhausted,
}

/// Dixon's congruence-of-squares engine over a fixed factor base.
pub struct DixonFactorizer {
    pub primes: Vec<u64>,
    pub extra_count: usize,
    pub max_attempts: usize,
}

impl DixonFactorizer {
    /// The factor base holds primes, hence nothing below 2.
    pub open spec fn wf(self) -> bool {
        forall|i: int| 0 <= i < self.primes@.len() ==> (#[trigger] self.primes@[i]) >= 2
    }

    /// An engine over the given factor base, with the default slack of 3
    /// extra congruences and 100 sampling attempts per congruence.
    pub fn new(primes: Vec<u64>) -> (r: DixonFactorizer)
        ensures
            r.primes@ == primes@,
            r.extra_count == 3,
            r.max_attempts == 100,
    {
        DixonFactorizer { primes, extra_count: 3, max_attempts: 100 }
    }

    /// Hunts for one congruence `a^2 = b (mod x)` with smooth `b`.
    fn collect_one(&self, x: u64, a_min: u64) -> (r: CongruenceSample)
        requires
            self.wf(),
            x >= 2,
            1 <= a_min < x,
        ensures
            match r {
                CongruenceSample::Smooth(a, f) => {
                    &&& 1 <= a_min <= a < x
                    &&& f.wf()
                    &&& f.primes@ == self.primes@
                    &&& f.exponents@.len() == self.primes@.len()
                    &&& f.value() == (a * a) % (x as int)
                    &&& forall|j: int|
                        0 <= j < f.exponents@.len() ==> (#[trigger] f.exponents@[j]) <= 63
                },
                CongruenceSample::EarlyFactor(d) => 1 < d < x && x % d == 0,
                CongruenceSample::Exhausted => true,
            },
    {
        let mut attempt: usize = 0;
        while attempt < self.max_attempts
            invariant
                self.wf(),
                x >= 2,
                1 <= a_min < x,
            decreases self.max_attempts - attempt,
        {
            let a = crate::rng::sample_range(a_min, x);
            let b = mul_mod(a, a, x);
            if b == 0 {
                // x divides a^2 while 1 <= a < x, so gcd(a, x) can be
                // neither 1 (else x would divide a itself) nor x
                let d = gcd(a, x);
                proof {
                    lemma_gcd_divides(a as nat, x as nat);
                    assert(crate::arith::divides(x as nat, (a as nat) * (a as nat))) by {
                        assert((a * a) % (x as int) == 0);
                    }
                    if d == 1 {
                        crate::arith::lemma_gcd_comm(a as nat, x as nat);
                        crate::arith::lemma_coprime_divides(x as nat, a as nat, a as nat);
                        crate::arith::lemma_divisor_le(x as nat, a as nat);
                    }
                    if d == x {
                        crate::arith::lemma_divisor_le(x as nat, a as nat);
                    }
                    crate::arith::lemma_divisor_le(d as nat, x as nat);
                }
                return CongruenceSample::EarlyFactor(d);
            } else {
                let bf = factorize_limited(b, &self.primes);
                if let Some(f) = bf {
                    return CongruenceSample::Smooth(a, f);
                }
            }
            attempt = attempt + 1;
        }
        CongruenceSample::Exhausted
    }

    /// Multiplies the selected congruences together and hands back
    /// `gcd(a_prod - sqrt(b_prod), x)` when it splits `x`.
    fn extract_candidate(
        &self,
        mask: &Vec<bool>,
        a_values: &Vec<u64>,
        b_factorizations: &Vec<Factorization>,
        x: u64,
    ) -> (r: Option<u64>)
        requires
            self.wf(),
            x >= 2,
            a_values@.len() == b_factorizations@.len(),
            forall|i: int|
                0 <= i < b_factorizations@.len() ==> (#[trigger] b_factorizations@[i]).wf()
                    && b_factorizations@[i].primes@ == self.primes@
                    && b_factorizations@[i].exponents@.len() == self.primes@.len(),
            forall|i: int, j: int|
                0 <= i < b_factorizations@.len() && 0 <= j < self.primes@.len() ==> (
                #[trigger] b_factorizations@[i].exponents@[j]) <= 63,
            63 * b_factorizations@.len() <= u64::MAX,
            forall|c: int|
                0 <= c < self.primes@.len() ==> sum_sel(
                    exps_table(b_factorizations@),
                    bit_positions(mask@),
                    b_factorizations@.len() as int,
                    c,
                ) % 2 == 0,
        ensures
            r matches Some(d) ==> 1 < d < x && x % d == 0,
            r matches Some(d) ==> d == candidate_of(
                self.primes@,
                a_values@,
                b_factorizations@,
                bit_positions(mask@),
                x as int,
            ),
            (r is Some) <==> 1 < candidate_of(
                self.primes@,
                a_values@,
                b_factorizations@,
                bit_positions(mask@),
                x as int,
            ) < x,
    {
        let mut apm: u64 = 1 % x;
        let mut bacc = self.zero_factorization();
        let mut i: usize = 0;
        while i < a_values.len()
            invariant
                i <= a_values@.len(),
                self.wf(),
                x >= 2,
                apm < x,
                a_values@.len() == b_factorizations@.len(),
                forall|k: int|
                    0 <= k < b_factorizations@.len() ==> (#[trigger] b_factorizations@[k]).wf()
                        && b_factorizations@[k].primes@ == self.primes@
                        && b_factorizations@[k].exponents@.len() == self.primes@.len(),
                forall|k: int, j: int|
                    0 <= k < b_factorizations@.len() && 0 <= j < self.primes@.len() ==> (
                    #[trigger] b_factorizations@[k].exponents@[j]) <= 63,
                63 * b_factorizations@.len() <= u64::MAX,
                bacc.wf(),
                bacc.primes@ == self.primes@,
                bacc.exponents@.len() == self.primes@.len(),
                forall|j: int|
                    0 <= j < bacc.exponents@.len() ==> (#[trigger] bacc.exponents@[j]) <= 63 * i,
                forall|j: int|
                    0 <= j < bacc.exponents@.len() ==> (#[trigger] bacc.exponents@[j]) == sum_sel(
                        exps_table(b_factorizations@),
                        bit_positions(mask@),
                        i as int,
                        j,
                    ),
                apm == masked_a_prod_mod(a_values@, bit_positions(mask@), i as int, x as int),
            decreases a_values@.len() - i,
        {
            let selected = mask_bit(mask, i);
            proof {
                assert(exps_table(b_factorizations@)[i as int] == b_factorizations@[i as int].exponents@);
            }
            if selected {
                apm = mul_mod(apm, a_values[i], x);
                bacc = bacc.mul(&b_factorizations[i]);
            }
            i = i + 1;
        }
        let ghost sel = bit_positions(mask@);
        let ghost width = self.primes@.len() as int;
        // on an all-zero row every exponent sum is even, so the square
        // root of the accumulated factorization always exists
        let bsqrt = bacc.sqrt();
        proof {
            assert(bsqrt is Some);
        }
        let h = bsqrt.unwrap();
        proof {
            assert(h.exponents@ =~= half_exponents(b_factorizations@, sel, width)) by {
                assert forall|j: int|
                    0 <= j < width implies h.exponents@[j] == half_exponents(
                    b_factorizations@,
                    sel,
                    width,
                )[j] by {
                    assert(bacc.exponents@[j] == sum_sel(
                        exps_table(b_factorizations@),
                        sel,
                        b_factorizations@.len() as int,
                        j,
                    ));
                }
            }
        }
        let bsm = h.product_mod(x);
        let w = (((x as u128) + (apm as u128) - (bsm as u128)) % (x as u128)) as u64;
        let d = gcd(w, x);
        proof {
            lemma_gcd_divides(w as nat, x as nat);
            assert(apm == masked_a_prod_mod(a_values@, sel, a_values@.len() as int, x as int));
            assert(bsm == sqrt_value_mod(self.primes@, b_factorizations@, sel, x as int));
            assert(w == (x as int + apm - bsm) % (x as int));
            assert(d == candidate_of(self.primes@, a_values@, b_factorizations@, sel, x as int));
        }
        if 1 < d && d < x {
            Some(d)
        } else {
            None
        }
    }

    /// The factorization of 1 over this engine's base: every exponent 0.
    fn zero_factorization(&self) -> (r: Factorization)
        requires
            self.wf(),
        ensures
            r.wf(),
            r.primes@ == self.primes@,
            r.exponents@.len() == self.primes@.len(),
            forall|j: int| 0 <= j < r.exponents@.len() ==> (#[trigger] r.exponents@[j]) == 0,
    {
        let mut ps: Vec<u64> = Vec::new();
        let mut es: Vec<u64> = Vec::new();
        let mut j: usize = 0;
        while j < self.primes.len()
            invariant
                j <= self.primes@.len(),
                self.wf(),
                ps@ == self.primes@.take(j as int),
                es@.len() == j,
                forall|k: int| 0 <= k < j ==> (#[trigger] es@[k]) == 0,
            decreases self.primes@.len() - j,
        {
            ps.push(self.primes[j]);
            es.push(0);
            proof {
                assert(ps@ =~= self.primes@.take(j as int + 1));
            }
            j = j + 1;
        }
        proof {
            assert(self.primes@.take(self.primes@.len() as int) =~= self.primes@);
        }
        Factorization { primes: ps, exponents: es }
    }

    /// Produce a single factor of `x`, or report that none was found.
    /// Any factor reported is a nontrivial divisor of `x`.
    pub fn get_factor(&self, x: u64) -> (r: FactorOutcome)
        requires
            self.wf(),
            x >= 2,
            self.primes@.len() + self.extra_count <= usize::MAX,
            63 * (self.primes@.len() + self.extra_count) <= u64::MAX,
        ensures
            r matches FactorOutcome::Factor(d) ==> 1 < d < x && x % d == 0,
    {
        let a_min = isqrt(x);
        let a_count = self.primes.len() + self.extra_count;
        let mut a_values: Vec<u64> = Vec::new();
        let mut b_factorizations: Vec<Factorization> = Vec::new();
        let mut slot: usize = 0;
        while slot < a_count
            invariant
                slot <= a_count,
                self.wf(),
                x >= 2,
                1 <= a_min < x,
                a_count == self.primes@.len() + self.extra_count,
                63 * a_count <= u64::MAX,
                a_values@.len() == slot,
                b_factorizations@.len() == slot,
                forall|i: int|
                    0 <= i < b_factorizations@.len() ==> (#[trigger] b_factorizations@[i]).wf()
                        && b_factorizations@[i].primes@ == self.primes@
                        && b_factorizations@[i].exponents@.len() == self.primes@.len(),
                forall|i: int, j: int|
                    0 <= i < b_factorizations@.len() && 0 <= j < self.primes@.len() ==> (
                    #[trigger] b_factorizations@[i].exponents@[j]) <= 63,
            decreases a_count - slot,
        {
            match self.collect_one(x, a_min) {
                CongruenceSample::Smooth(a, f) => {
                    a_values.push(a);
                    b_factorizations.push(f);
                },
                CongruenceSample::EarlyFactor(d) => {
                    return FactorOutcome::Factor(d);
                },
                CongruenceSample::Exhausted => {
                    return FactorOutcome::AttemptsExhausted;
                },
            }
            slot = slot + 1;
        }
        let ghost table = exps_table(b_factorizations@);
        let ghost nrecords = b_factorizations@.len() as int;
        let mut bitmatrix = bit_matrix_from_factorizations(&b_factorizations, &self.primes);
        let ghost built = bitmatrix.model();
        crate::bit_matrix::bit_matrix_to_ref(&mut bitmatrix);
        proof {
            lemma_reduce_preserves_consistency(
                built,
                self.primes@.len() as int,
                table,
                nrecords,
            );
        }
        let mut rows = bitmatrix.into_rows();
        proof {
            assert forall|k: int|
                0 <= k < rows@.len() implies row_consistent(
                (#[trigger] rows@[k]).model(),
                table,
                nrecords,
                self.primes@.len() as int,
            ) by {
                assert(rows@.map(|i: int, rv: DixonBitvec| rv.model())[k] == rows@[k].model());
            }
        }
        while rows.len() > 0
            invariant
                self.wf(),
                x >= 2,
                a_values@.len() == b_factorizations@.len(),
                forall|i: int|
                    0 <= i < b_factorizations@.len() ==> (#[trigger] b_factorizations@[i]).wf()
                        && b_factorizations@[i].primes@ == self.primes@
                        && b_factorizations@[i].exponents@.len() == self.primes@.len(),
                forall|i: int, j: int|
                    0 <= i < b_factorizations@.len() && 0 <= j < self.primes@.len() ==> (
                    #[trigger] b_factorizations@[i].exponents@[j]) <= 63,
                63 * b_factorizations@.len() <= u64::MAX,
                table == exps_table(b_factorizations@),
                nrecords == b_factorizations@.len() as int,
                forall|k: int|
                    0 <= k < rows@.len() ==> row_consistent(
                        (#[trigger] rows@[k]).model(),
                        table,
                        nrecords,
                        self.primes@.len() as int,
                    ),
            decreases rows@.len(),
        {
            proof {
                rows@.remove_ensures(0);
            }
            let row = rows.remove(0);
            if row.is_all_zero() {
                let ghost rm = row.model();
                proof {
                    assert(forall|c: int| !(#[trigger] rm.elems.contains(c)));
                    lemma_zero_row_even_sums(rm, table, nrecords, self.primes@.len() as int);
                }
                let mask = row.into_index_set();
                if let Some(d) = self.extract_candidate(&mask, &a_values, &b_factorizations, x) {
                    return FactorOutcome::Factor(d);
                }
            }
        }
        FactorOutcome::LooksPrime
    }
}

} // verus!
