use vstd::arithmetic::div_mod::{
    lemma_add_mod_noop, lemma_fundamental_div_mod, lemma_mod_bound, lemma_mod_multiples_basic,
    lemma_mul_mod_noop_left, lemma_mul_mod_noop_right, lemma_small_mod, lemma_sub_mod_noop,
};
use vstd::arithmetic::power::{
    lemma0_pow, lemma1_pow, lemma_pow0, lemma_pow1, lemma_pow_adds, lemma_pow_mod_noop,
    lemma_pow_multiplies, pow,
};
use vstd::prelude::*;

use crate::number_theory::{gcd_spec, is_prime_spec};

verus! {

proof fn lemma_div_mul(a: int, c: int, p: int)
    requires
        p > 0,
        a % p == 0,
    ensures
        (a * c) % p == 0,
{
    lemma_fundamental_div_mod(a, p);
    let k = a / p;
    assert(a * c == (c * k) * p) by (nonlinear_arith)
        requires a == p * k + 0;
    lemma_mod_multiples_basic(c * k, p);
}

proof fn lemma_div_sum(a: int, b: int, p: int)
    requires
        p > 0,
        a % p == 0,
        b % p == 0,
    ensures
        (a + b) % p == 0,
{
    lemma_add_mod_noop(a, b, p);
    lemma_small_mod(0, p as nat);
}

proof fn lemma_mod_eq_diff(a: int, b: int, p: int)
    requires
        p > 0,
    ensures
        a % p == b % p <==> (a - b) % p == 0,
{
    lemma_sub_mod_noop(a, b, p);
    lemma_add_mod_noop(a - b, b, p);
    lemma_mod_bound(b, p);
    lemma_small_mod(0, p as nat);
    lemma_small_mod((b % p) as nat, p as nat);
    assert(a - b + b == a);
}

/// Bezout coefficients for `gcd_spec(a, b)`.
proof fn lemma_bezout(a: nat, b: nat) -> (r: (int, int))
    ensures
        a * r.0 + b * r.1 == gcd_spec(a, b),
    decreases b,
{
    if b == 0 {
        (1, 0)
    } else {
        let (x, y) = lemma_bezout(b, a % b);
        lemma_fundamental_div_mod(a as int, b as int);
        let q = (a / b) as int;
        assert(a * y + b * (x - q * y) == b * x + (a % b) * y) by (nonlinear_arith)
            requires a == b * q + (a % b);
        (y, x - q * y)
    }
}

/// `gcd_spec(a, b)` is a positive common divisor of `a` and `b` (not both zero).
pub proof fn lemma_gcd_divides(a: nat, b: nat)
    requires
        a > 0 || b > 0,
    ensures
        gcd_spec(a, b) > 0,
        a % gcd_spec(a, b) == 0,
        b % gcd_spec(a, b) == 0,
    decreases b,
{
    if b == 0 {
        lemma_mod_multiples_basic(1, a as int);
        lemma_small_mod(0, a);
    } else {
        lemma_gcd_divides(b, a % b);
        let g = gcd_spec(a, b) as int;
        lemma_fundamental_div_mod(a as int, b as int);
        lemma_div_mul(b as int, (a / b) as int, g);
        assert(b * (a / b) == (b as int) * ((a / b) as int));
        lemma_div_sum((b as int) * ((a / b) as int), (a % b) as int, g);
    }
}

/// Euclid's lemma: a prime that divides a product divides one of its factors.
proof fn lemma_euclid(p: nat, a: int, b: int)
    requires
        is_prime_spec(p),
        a % (p as int) != 0,
        (a * b) % (p as int) == 0,
    ensures
        b % (p as int) == 0,
{
    let pi = p as int;
    lemma_mod_bound(a, pi);
    let a1 = (a % pi) as nat;
    lemma_gcd_divides(a1, p);
    let g = gcd_spec(a1, p);
    lemma_fundamental_div_mod(a1 as int, g as int);
    assert(g <= a1) by (nonlinear_arith)
        requires a1 == g * (a1 / g) + 0, a1 > 0, g > 0;
    if g != 1 {
        assert(p % g != 0);
    }
    let (x, y) = lemma_bezout(a1, p);
    assert(a1 * x + pi * y == 1);
    lemma_mul_mod_noop_left(a, b, pi);
    // a1 * b is a multiple of p
    lemma_div_mul(a1 * b, x, pi);
    lemma_mod_multiples_basic(b * y, pi);
    assert(b == (a1 * b) * x + (b * y) * pi) by (nonlinear_arith)
        requires a1 * x + pi * y == 1;
    lemma_div_sum((a1 * b) * x, (b * y) * pi, pi);
}

/// Binomial coefficients by Pascal's rule.
pub open spec fn binom(n: nat, k: nat) -> nat
    decreases n,
{
    if k == 0 {
        1
    } else if n == 0 {
        0
    } else {
        binom((n - 1) as nat, (k - 1) as nat) + binom((n - 1) as nat, k)
    }
}

proof fn lemma_binom_above(n: nat, k: nat)
    requires
        k > n,
    ensures
        binom(n, k) == 0,
    decreases n,
{
    if n > 0 {
        lemma_binom_above((n - 1) as nat, (k - 1) as nat);
        lemma_binom_above((n - 1) as nat, k);
    }
}

proof fn lemma_binom_diag(n: nat)
    ensures
        binom(n, n) == 1,
    decreases n,
{
    if n > 0 {
        lemma_binom_diag((n - 1) as nat);
        lemma_binom_above((n - 1) as nat, n);
    }
}

proof fn lemma_binom_absorb(n: nat, k: nat)
    requires
        n >= 1,
        k >= 1,
    ensures
        k * binom(n, k) == n * binom((n - 1) as nat, (k - 1) as nat),
    decreases n,
{
    if n == 1 {
        lemma_binom_above(0, k);
        assert(binom(1, k) == binom(0, (k - 1) as nat));
        if k > 1 {
            lemma_binom_above(0, (k - 1) as nat);
            assert(k * 0 == 0);
        }
    } else if k == 1 {
        lemma_binom_absorb((n - 1) as nat, 1);
        assert(binom((n - 1) as nat, 0) == 1);
        assert(binom((n - 2) as nat, 0) == 1);
        assert(binom(n, 1) == 1 + binom((n - 1) as nat, 1));
        let t = binom((n - 1) as nat, 1);
        assert(1 * t == ((n - 1) as nat) * binom((n - 2) as nat, 0));
        assert(t == n - 1) by (nonlinear_arith)
            requires
                1 * t == ((n - 1) as nat) * binom((n - 2) as nat, 0),
                binom((n - 2) as nat, 0) == 1,
                n >= 2;
        assert(1 * binom(n, 1) == n * binom((n - 1) as nat, 0));
    } else {
        lemma_binom_absorb((n - 1) as nat, k);
        lemma_binom_absorb((n - 1) as nat, (k - 1) as nat);
        let a = binom((n - 1) as nat, (k - 1) as nat);
        let b = binom((n - 1) as nat, k);
        let c = binom((n - 2) as nat, (k - 2) as nat);
        let d = binom((n - 2) as nat, (k - 1) as nat);
        assert(a == c + d);
        assert(binom(n, k) == a + b);
        assert(k * binom(n, k) == n * a) by (nonlinear_arith)
            requires
                k * b == (n - 1) * d,
                (k - 1) * a == (n - 1) * c,
                a == c + d,
                binom(n, k) == a + b;
    }
}

proof fn lemma_prime_divides_binom(p: nat, k: nat)
    requires
        is_prime_spec(p),
        0 < k < p,
    ensures
        (binom(p, k) as int) % (p as int) == 0,
{
    lemma_binom_absorb(p, k);
    lemma_mod_multiples_basic(binom((p - 1) as nat, (k - 1) as nat) as int, p as int);
    assert((k * binom(p, k)) as int == (binom((p - 1) as nat, (k - 1) as nat) as int) * (p as int));
    lemma_small_mod(k, p);
    lemma_euclid(p, k as int, binom(p, k) as int);
}

/// The first `j` terms of the binomial expansion of `(x + 1)^n`.
pub open spec fn binom_sum(x: int, n: nat, j: nat) -> int
    decreases j,
{
    if j == 0 {
        0
    } else {
        binom_sum(x, n, (j - 1) as nat) + binom(n, (j - 1) as nat) * pow(x, (j - 1) as nat)
    }
}

proof fn lemma_binom_sum_step(x: int, n: nat, j: nat)
    ensures
        binom_sum(x, n + 1, j + 1) == x * binom_sum(x, n, j) + binom_sum(x, n, j + 1),
    decreases j,
{
    lemma_pow0(x);
    assert(binom_sum(x, n, 0) == 0);
    assert(binom_sum(x, n + 1, 0) == 0);
    if j == 0 {
        assert(binom_sum(x, n + 1, 1) == 1);
        assert(binom_sum(x, n, 1) == 1);
        assert(x * 0 == 0);
    } else {
        let i = (j - 1) as nat;
        lemma_binom_sum_step(x, n, i);
        lemma_pow_adds(x, 1, i);
        lemma_pow1(x);
        let bi = binom_sum(x, n, i);
        let bj = binom_sum(x, n, j);
        assert(binom(n + 1, j) == binom(n, i) + binom(n, j));
        assert(pow(x, j) == x * pow(x, i));
        assert(binom_sum(x, n + 1, j + 1) == binom_sum(x, n + 1, j) + binom(n + 1, j) * pow(x, j));
        assert(binom_sum(x, n + 1, j) == x * bi + bj);
        assert(bj == bi + binom(n, i) * pow(x, i));
        assert(binom_sum(x, n, j + 1) == bj + binom(n, j) * pow(x, j));
        assert(x * bi + bj + (binom(n, i) + binom(n, j)) * pow(x, j) == x * bj + (bj + binom(n, j)
            * pow(x, j))) by (nonlinear_arith)
            requires
                pow(x, j) == x * pow(x, i),
                bj == bi + binom(n, i) * pow(x, i);
    }
}

/// The binomial theorem for `(x + 1)^n`.
proof fn lemma_binomial(x: int, n: nat)
    ensures
        pow(x + 1, n) == binom_sum(x, n, n + 1),
    decreases n,
{
    lemma_pow0(x);
    lemma_pow0(x + 1);
    if n > 0 {
        let m = (n - 1) as nat;
        lemma_binomial(x, m);
        lemma_binom_sum_step(x, m, m + 1);
        lemma_binom_above(m, m + 1);
        reveal(pow);
        assert(pow(x + 1, n) == (x + 1) * pow(x + 1, m));
        assert(binom_sum(x, m, m + 2) == binom_sum(x, m, m + 1));
        let sm = binom_sum(x, m, m + 1);
        assert(pow(x + 1, n) == x * sm + sm) by (nonlinear_arith)
            requires
                pow(x + 1, n) == (x + 1) * pow(x + 1, m),
                pow(x + 1, m) == sm;
        assert(m + 1 == n && m + 2 == n + 1);
        assert(binom_sum(x, m + 1, m + 2) == x * sm + binom_sum(x, m, m + 2));
        assert(binom_sum(x, m + 1, m + 2) == x * sm + sm);
        assert(binom_sum(x, n, n + 1) == binom_sum(x, m + 1, m + 2));
    } else {
        assert(binom_sum(x, 0, 0) == 0);
        assert(binom_sum(x, 0, 1) == 1);
    }
}

proof fn lemma_binom_sum_mod_prime(x: int, p: nat, j: nat)
    requires
        is_prime_spec(p),
        1 <= j <= p,
    ensures
        (binom_sum(x, p, j) - 1) % (p as int) == 0,
    decreases j,
{
    lemma_pow0(x);
    if j == 1 {
        assert(binom_sum(x, p, 0) == 0);
        assert(binom_sum(x, p, 1) == 1);
        lemma_small_mod(0, p);
    } else {
        let i = (j - 1) as nat;
        lemma_binom_sum_mod_prime(x, p, i);
        lemma_prime_divides_binom(p, i);
        lemma_div_mul(binom(p, i) as int, pow(x, i), p as int);
        lemma_div_sum(binom_sum(x, p, i) - 1, binom(p, i) * pow(x, i), p as int);
    }
}

proof fn lemma_fermat_pow_p(p: nat, x: nat)
    requires
        is_prime_spec(p),
    ensures
        pow(x as int, p) % (p as int) == (x as int) % (p as int),
    decreases x,
{
    let pi = p as int;
    if x == 0 {
        lemma0_pow(p);
    } else {
        let y = (x - 1) as nat;
        lemma_fermat_pow_p(p, y);
        lemma_binomial(y as int, p);
        lemma_binom_diag(p);
        lemma_binom_sum_mod_prime(y as int, p, p);
        assert(binom_sum(y as int, p, p + 1) == binom_sum(y as int, p, p) + binom(p, p) * pow(
            y as int,
            p,
        ));
        assert(binom_sum(y as int, p, p + 1) == binom_sum(y as int, p, p) + pow(y as int, p));
        lemma_mod_eq_diff(pow(y as int, p), y as int, pi);
        lemma_div_sum(binom_sum(y as int, p, p) - 1, pow(y as int, p) - y, pi);
        assert(pow(x as int, p) - x == (binom_sum(y as int, p, p) - 1) + (pow(y as int, p) - y));
        lemma_mod_eq_diff(pow(x as int, p), x as int, pi);
    }
}

/// Fermat's little theorem: `m^(p - 1) mod p == 1` for a prime `p` that does not divide `m`.
pub proof fn lemma_fermat(p: nat, m: nat)
    requires
        is_prime_spec(p),
        m % p != 0,
    ensures
        pow(m as int, (p - 1) as nat) % (p as int) == 1,
{
    let pi = p as int;
    let e = (p - 1) as nat;
    lemma_fermat_pow_p(p, m);
    lemma_pow_adds(m as int, 1, e);
    lemma_pow1(m as int);
    let t = pow(m as int, e);
    assert(pow(m as int, p) == m * t);
    lemma_mod_eq_diff(m * t, m as int, pi);
    assert(m * t - m == m * (t - 1)) by (nonlinear_arith);
    lemma_euclid(p, m as int, t - 1);
    lemma_mod_eq_diff(t, 1, pi);
    lemma_small_mod(1, p);
}

/// `m^(1 + t (p - 1)) == m` modulo a prime `p`, for every `m`.
proof fn lemma_pow_one_more_mod_prime(p: nat, m: nat, t: nat)
    requires
        is_prime_spec(p),
    ensures
        pow(m as int, 1 + t * (p - 1) as nat) % (p as int) == (m as int) % (p as int),
{
    let pi = p as int;
    let e = (p - 1) as nat;
    lemma_pow_adds(m as int, 1, e * t);
    lemma_pow1(m as int);
    lemma_pow_multiplies(m as int, e, t);
    assert(t * e == e * t) by (nonlinear_arith);
    let big = pow(pow(m as int, e), t);
    assert(pow(m as int, 1 + t * e) == m * big);
    if m % p == 0 {
        lemma_div_mul(m as int, big, pi);
        assert((m as int) % pi == 0);
    } else {
        lemma_fermat(p, m);
        lemma_pow_mod_noop(pow(m as int, e), t, pi);
        lemma1_pow(t);
        lemma_small_mod(1, p);
        lemma_mul_mod_noop_right(m as int, big, pi);
    }
}

/// Two distinct primes that both divide `x - m` make `x` and `m` agree modulo their product.
proof fn lemma_two_primes(p: nat, q: nat, x: int, m: int)
    requires
        is_prime_spec(p),
        is_prime_spec(q),
        p != q,
        x % (p as int) == m % (p as int),
        x % (q as int) == m % (q as int),
    ensures
        x % ((p * q) as int) == m % ((p * q) as int),
{
    let (pi, qi) = (p as int, q as int);
    lemma_mod_eq_diff(x, m, pi);
    lemma_mod_eq_diff(x, m, qi);
    let d = x - m;
    lemma_fundamental_div_mod(d, pi);
    let k = d / pi;
    assert(d == pi * k);
    if q > p {
        lemma_small_mod(p, q);
    } else {
        assert(p % q != 0);
    }
    assert(pi * k == d);
    lemma_euclid(q, pi, k);
    lemma_fundamental_div_mod(k, qi);
    let j = k / qi;
    assert(d == j * (pi * qi)) by (nonlinear_arith)
        requires d == pi * k, k == qi * j + 0;
    assert(pi * qi > 0) by (nonlinear_arith)
        requires pi >= 2, qi >= 2;
    lemma_mod_multiples_basic(j, pi * qi);
    lemma_mod_eq_diff(x, m, pi * qi);
}

/// For distinct primes `p` and `q` and `e * d == 1` modulo `(p - 1)(q - 1)`,
/// `m^(e d) == m` modulo `p q`, for every `m`.
pub proof fn lemma_exponent_cancels(p: nat, q: nat, e: nat, d: nat, m: nat)
    requires
        is_prime_spec(p),
        is_prime_spec(q),
        p != q,
        ((e * d) as int) % (((p - 1) * (q - 1)) as int) == 1,
    ensures
        pow(m as int, e * d) % ((p * q) as int) == (m as int) % ((p * q) as int),
{
    let phi = ((p - 1) * (q - 1)) as int;
    assert(phi > 0) by (nonlinear_arith)
        requires p >= 2, q >= 2, phi == (p - 1) * (q - 1);
    lemma_fundamental_div_mod((e * d) as int, phi);
    let k = (e * d) as int / phi;
    assert(k >= 0) by (nonlinear_arith)
        requires phi > 0, (e * d) >= 0, k == (e * d) as int / phi;
    let kp = (k * (q - 1)) as nat;
    let kq = (k * (p - 1)) as nat;
    assert(e * d == 1 + kp * (p - 1) as nat && e * d == 1 + kq * (q - 1) as nat) by (nonlinear_arith)
        requires
            e * d == phi * k + 1,
            phi == (p - 1) * (q - 1),
            kp == k * (q - 1),
            kq == k * (p - 1),
            k >= 0, p >= 2, q >= 2;
    lemma_pow_one_more_mod_prime(p, m, kp);
    lemma_pow_one_more_mod_prime(q, m, kq);
    lemma_two_primes(p, q, pow(m as int, e * d), m as int);
}

} // verus!
