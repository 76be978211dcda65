use vstd::arithmetic::div_mod::{
    lemma_fundamental_div_mod, lemma_mod_multiples_vanish, lemma_mul_mod_noop_left,
    lemma_mul_mod_noop_right,
};
use vstd::arithmetic::power::{
    lemma_pow_adds, lemma_pow_mod_noop, lemma_pow_multiplies, lemma_square_is_pow2, pow,
};
use vstd::prelude::*;

use crate::error::RsaError;

verus! {

/// Greatest common divisor by the Euclidean recursion; `gcd_spec(a, 0) == a`.
pub open spec fn gcd_spec(a: nat, b: nat) -> nat
    decreases b,
{
    if b == 0 {
        a
    } else {
        gcd_spec(b, a % b)
    }
}

/// Iterative Euclidean algorithm.
pub fn gcd(a: u64, b: u64) -> (r: u64)
    ensures
        r == gcd_spec(a as nat, b as nat),
{
    let mut x: u64 = a;
    let mut y: u64 = b;
    while y != 0
        invariant
            gcd_spec(x as nat, y as nat) == gcd_spec(a as nat, b as nat),
        decreases y,
    {
        let r: u64 = x % y;
        x = y;
        y = r;
    }
    x
}

spec fn abs(x: int) -> int {
    if x < 0 {
        -x
    } else {
        x
    }
}

/// Extended Euclidean algorithm, iterative: returns `(g, x, y)` with
/// `g == gcd(a, b)` and `a * x + b * y == g`.
pub fn egcd(a: u64, b: u64) -> (r: (u64, i128, i128))
    ensures
        r.0 == gcd_spec(a as nat, b as nat),
        a * r.1 + b * r.2 == r.0,
        b > 0 ==> -(b as int) <= r.1 <= b,
        a > 0 ==> -(a as int) <= r.2 <= a,
{
    let mut r0: u64 = a;
    let mut r1: u64 = b;
    let mut s0: i128 = 1;
    let mut s1: i128 = 0;
    let mut t0: i128 = 0;
    let mut t1: i128 = 1;
    proof {
        assert(abs(s0 as int) == 1 && abs(s1 as int) == 0);
        assert(abs(t0 as int) == 0 && abs(t1 as int) == 1);
    }
    while r1 != 0
        invariant
            gcd_spec(r0 as nat, r1 as nat) == gcd_spec(a as nat, b as nat),
            a * s0 + b * t0 == r0,
            a * s1 + b * t1 == r1,
            s0 * s1 <= 0,
            t0 * t1 <= 0,
            abs(s0 as int) * r1 + abs(s1 as int) * r0 == b,
            abs(t0 as int) * r1 + abs(t1 as int) * r0 == a,
            abs(s0 as int) <= b + 1,
            abs(s1 as int) <= b + 1,
            abs(t0 as int) <= a + 1,
            abs(t1 as int) <= a + 1,
            b > 0 ==> abs(s0 as int) <= b && abs(s1 as int) <= b,
            a > 0 ==> abs(t0 as int) <= a && abs(t1 as int) <= a,
        decreases r1,
    {
        let q: u64 = r0 / r1;
        let rem: u64 = r0 % r1;
        proof {
            let (qi, ri0, ri1) = (q as int, r0 as int, r1 as int);
            assert(ri0 == qi * ri1 + rem) by (nonlinear_arith)
                requires qi == ri0 / ri1, rem == ri0 % ri1, ri1 > 0;
            assert(qi * abs(s1 as int) <= b) by (nonlinear_arith)
                requires
                    qi >= 0, ri1 >= 1, rem >= 0,
                    ri0 == qi * ri1 + rem,
                    abs(s0 as int) * ri1 + abs(s1 as int) * ri0 == b,
                    abs(s0 as int) >= 0, abs(s1 as int) >= 0;
            assert(qi * abs(t1 as int) <= a) by (nonlinear_arith)
                requires
                    qi >= 0, ri1 >= 1, rem >= 0,
                    ri0 == qi * ri1 + rem,
                    abs(t0 as int) * ri1 + abs(t1 as int) * ri0 == a,
                    abs(t0 as int) >= 0, abs(t1 as int) >= 0;
            assert(abs(qi * s1) == qi * abs(s1 as int)) by (nonlinear_arith)
                requires qi >= 0;
            assert(abs(qi * t1) == qi * abs(t1 as int)) by (nonlinear_arith)
                requires qi >= 0;
        }
        let qs: i128 = (q as i128) * s1;
        let qt: i128 = (q as i128) * t1;
        let ns: i128 = s0 - qs;
        let nt: i128 = t0 - qt;
        proof {
            let (qi, ri0, ri1) = (q as int, r0 as int, r1 as int);
            assert(a * ns + b * nt == rem) by (nonlinear_arith)
                requires
                    ns == s0 - qi * s1, nt == t0 - qi * t1,
                    a * s0 + b * t0 == ri0, a * s1 + b * t1 == ri1,
                    ri0 == qi * ri1 + rem;
            assert(s1 * ns <= 0 && abs(ns as int) == abs(s0 as int) + qi * abs(s1 as int))
                by (nonlinear_arith)
                requires ns == s0 - qi * s1, s0 * s1 <= 0, qi >= 0;
            assert(t1 * nt <= 0 && abs(nt as int) == abs(t0 as int) + qi * abs(t1 as int))
                by (nonlinear_arith)
                requires nt == t0 - qi * t1, t0 * t1 <= 0, qi >= 0;
            assert(abs(s1 as int) * rem + abs(ns as int) * ri1 == b) by (nonlinear_arith)
                requires
                    abs(ns as int) == abs(s0 as int) + qi * abs(s1 as int),
                    abs(s0 as int) * ri1 + abs(s1 as int) * ri0 == b,
                    ri0 == qi * ri1 + rem;
            assert(abs(t1 as int) * rem + abs(nt as int) * ri1 == a) by (nonlinear_arith)
                requires
                    abs(nt as int) == abs(t0 as int) + qi * abs(t1 as int),
                    abs(t0 as int) * ri1 + abs(t1 as int) * ri0 == a,
                    ri0 == qi * ri1 + rem;
            assert(abs(ns as int) <= b) by (nonlinear_arith)
                requires
                    abs(s1 as int) * rem + abs(ns as int) * ri1 == b,
                    ri1 >= 1, rem >= 0, abs(s1 as int) >= 0, abs(ns as int) >= 0;
            assert(abs(nt as int) <= a) by (nonlinear_arith)
                requires
                    abs(t1 as int) * rem + abs(nt as int) * ri1 == a,
                    ri1 >= 1, rem >= 0, abs(t1 as int) >= 0, abs(nt as int) >= 0;
        }
        r0 = r1;
        r1 = rem;
        s0 = s1;
        s1 = ns;
        t0 = t1;
        t1 = nt;
    }
    (r0, s0, t0)
}

/// `x` is the inverse of `a` modulo `n`, normalised into `[0, n)`.
pub open spec fn is_mod_inverse(a: nat, n: nat, x: nat) -> bool {
    x < n && (a * x) % n == 1
}

/// Modular inverse of `a` modulo `n` through the extended Euclidean algorithm.
pub fn mod_inverse(a: u64, n: u64) -> (r: Result<u64, RsaError>)
    ensures
        r == Err::<u64, RsaError>(RsaError::DivisionByZero) <==> n == 0,
        r == Err::<u64, RsaError>(RsaError::NoInverseExists) <==> n > 0 && (n == 1 || gcd_spec(
            a as nat,
            n as nat,
        ) != 1),
        r is Ok <==> n > 1 && gcd_spec(a as nat, n as nat) == 1,
        r matches Ok(x) ==> is_mod_inverse(a as nat, n as nat, x as nat),
{
    if n == 0 {
        return Err(RsaError::DivisionByZero);
    }
    let (g, x, y) = egcd(a, n);
    if g != 1 || n == 1 {
        return Err(RsaError::NoInverseExists);
    }
    let xn: i128 = if x < 0 {
        x + (n as i128)
    } else {
        x
    };
    proof {
        let (ai, ni) = (a as int, n as int);
        // a * xn == 1 + n * k for some k
        let k: int = if x < 0 {
            ai - y
        } else {
            -y
        };
        assert(ai * xn == ni * k + 1) by (nonlinear_arith)
            requires
                ai * x + ni * y == 1,
                xn == (if x < 0 {
                    x + ni
                } else {
                    x as int
                }),
                k == (if x < 0 {
                    ai - y
                } else {
                    -y
                });
        lemma_mod_multiples_vanish(k, 1, ni);
        vstd::arithmetic::div_mod::lemma_small_mod(1, n as nat);
        if xn == ni {
            assert((ai * ni) % ni == 0) by (nonlinear_arith)
                requires ni > 0;
        }
    }
    Ok(xn as u64)
}

proof fn lemma_square_step(r: int, b: int, e: nat, m: int)
    requires
        m > 0,
    ensures
        ((r * pow(b, e % 2)) % m) * pow((b * b) % m, e / 2) % m == (r * pow(b, e)) % m,
{
    let k = e / 2;
    let t = e % 2;
    lemma_square_is_pow2(b);
    lemma_pow_multiplies(b, 2, k);
    lemma_pow_adds(b, 2 * k, t);
    assert(e == 2 * k + t);
    lemma_pow_mod_noop(b * b, k, m);
    let x = r * pow(b, t);
    let y = pow(b * b, k);
    let y2 = pow((b * b) % m, k);
    lemma_mul_mod_noop_left(x, y2, m);
    lemma_mul_mod_noop_right(x, y2, m);
    lemma_mul_mod_noop_right(x, y, m);
    assert(x * y == r * pow(b, e)) by (nonlinear_arith)
        requires
            x == r * pow(b, t),
            y == pow(b, 2 * k),
            pow(b, e) == pow(b, 2 * k) * pow(b, t);
}

/// `base^exponent mod modulus` by binary square-and-multiply.
pub fn mod_pow(base: u64, exponent: u64, modulus: u64) -> (r: Result<u64, RsaError>)
    ensures
        modulus == 0 ==> r == Err::<u64, RsaError>(RsaError::DivisionByZero),
        modulus > 0 ==> r == Ok::<u64, RsaError>(
            (pow(base as int, exponent as nat) % (modulus as int)) as u64,
        ),
{
    if modulus == 0 {
        return Err(RsaError::DivisionByZero);
    }
    let m: u128 = modulus as u128;
    let mut result: u128 = 1 % m;
    let mut b: u128 = (base as u128) % m;
    let mut e: u64 = exponent;
    proof {
        lemma_pow_mod_noop(base as int, exponent as nat, m as int);
        lemma_mul_mod_noop_left(1, pow(b as int, e as nat), m as int);
    }
    while e > 0
        invariant
            m == modulus as u128,
            m > 0,
            m <= u64::MAX,
            result < m,
            b < m,
            (result * pow(b as int, e as nat)) % (m as int) == pow(base as int, exponent as nat) % (
            m as int),
        decreases e,
    {
        assert(result * b < m * m && b * b < m * m && m * m <= u128::MAX) by (nonlinear_arith)
            requires result < m, b < m, m <= u64::MAX;
        let ghost (r0, b0, e0) = (result as int, b as int, e as nat);
        if e % 2 == 1 {
            result = (result * b) % m;
            proof {
                vstd::arithmetic::power::lemma_pow1(b0);
            }
        } else {
            proof {
                vstd::arithmetic::power::lemma_pow0(b0);
            }
            proof {
                assert(r0 * 1 == r0);
                vstd::arithmetic::div_mod::lemma_small_mod(r0 as nat, m as nat);
            }
        }
        b = (b * b) % m;
        e = e / 2;
        proof {
            lemma_square_step(r0, b0, e0, m as int);
        }
    }
    proof {
        vstd::arithmetic::power::lemma_pow0(b as int);
        vstd::arithmetic::div_mod::lemma_small_mod(result as nat, m as nat);
    }
    Ok(result as u64)
}

/// `n` is prime: at least two, with no divisor strictly between one and itself.
pub open spec fn is_prime_spec(n: nat) -> bool {
    n >= 2 && forall|d: nat| 2 <= d < n ==> #[trigger] (n % d) != 0
}

/// Primality by trial division up to the square root; exact on every `u64`.
pub fn is_prime(n: u64) -> (r: bool)
    ensures
        r == is_prime_spec(n as nat),
{
    if n < 2 {
        return false;
    }
    let mut d: u64 = 2;
    while d <= n / d
        invariant
            2 <= d <= n,
            forall|k: nat| 2 <= k < d ==> #[trigger] (n as nat % k) != 0,
        decreases n - d,
    {
        if n % d == 0 {
            assert(d < n) by (nonlinear_arith)
                requires d <= n / d, d >= 2;
            assert((n as nat) % (d as nat) == 0);
            assert(!is_prime_spec(n as nat));
            return false;
        }
        assert(d + 1 <= n) by (nonlinear_arith)
            requires d <= n / d, d >= 2;
        d = d + 1;
    }
    assert forall|k: nat| 2 <= k < n implies #[trigger] (n as nat % k) != 0 by {
        if k >= d && n as nat % k == 0 {
            let (ni, di, ki) = (n as int, d as int, k as int);
            let j = ni / ki;
            lemma_fundamental_div_mod(ni, ki);
            assert(ni == ki * j);
            assert(di * di > ni) by (nonlinear_arith)
                requires di > ni / di, di >= 2, ni >= 0;
            assert(j < di) by (nonlinear_arith)
                requires ni == ki * j, ki >= di, di * di > ni, di >= 2;
            assert(j >= 2) by (nonlinear_arith)
                requires ni == ki * j, ki < ni, ki >= 2;
            assert(ni % j == 0) by (nonlinear_arith)
                requires ni == ki * j, j >= 2;
            assert(n as nat % (j as nat) != 0);
        }
    }
    true
}

} // verus!
