use vstd::arithmetic::div_mod::{
    lemma_fundamental_div_mod, lemma_mod_multiples_basic, lemma_mod_multiples_vanish,
    lemma_mul_mod_noop_right, lemma_small_mod,
};
use vstd::prelude::*;

verus! {

/// No integer in `[2, n)` divides `n`.
pub open spec fn has_no_factor(n: nat) -> bool {
    forall|d: nat| 2 <= d < n ==> #[trigger] (n % d) != 0
}

/// `n` is a prime number.
pub open spec fn prime(n: nat) -> bool {
    n >= 2 && has_no_factor(n)
}

/// Greatest common divisor, by Euclid's recurrence.
pub open spec fn gcd(a: nat, b: nat) -> nat
    decreases b,
{
    if b == 0 {
        a
    } else {
        gcd(b, a % b)
    }
}

/// `a` has a multiplicative inverse modulo `n`.
pub open spec fn invertible(a: nat, n: nat) -> bool {
    n >= 1 && gcd(a, n) == 1
}

/// `r` is an inverse of `a` modulo `n` in `[0, n)`.
pub open spec fn is_inverse(a: nat, n: nat, r: nat) -> bool {
    r < n && ((a as int) * (r as int)) % (n as int) == 1int % (n as int)
}

/// The multiplicative inverse of `a` modulo `n` in `[0, n)`.
pub open spec fn mod_inverse(a: nat, n: nat) -> nat {
    choose|r: nat| is_inverse(a, n, r)
}

/// An inverse modulo `n` in `[0, n)` is unique.
pub proof fn lemma_inverse_unique(a: nat, n: nat, r1: nat, r2: nat)
    requires
        is_inverse(a, n, r1),
        is_inverse(a, n, r2),
    ensures
        r1 == r2,
{
    let ai = a as int;
    let ni = n as int;
    let x = r1 as int;
    let y = r2 as int;
    if n >= 2 {
        lemma_small_mod(1, n);
        lemma_small_mod(r1, n);
        lemma_small_mod(r2, n);
        lemma_mul_mod_noop_right(x, ai * y, ni);
        lemma_mul_mod_noop_right(y, ai * x, ni);
        assert(x * (ai * y) == y * (ai * x)) by (nonlinear_arith);
    }
}

/// Bezout's identity: integers `x` and `y` with `x * a + y * b == gcd(a, b)`.
pub proof fn lemma_bezout(a: nat, b: nat) -> (r: (int, int))
    ensures
        r.0 * (a as int) + r.1 * (b as int) == gcd(a, b) as int,
    decreases b,
{
    if b == 0 {
        (1, 0)
    } else {
        let (x, y) = lemma_bezout(b, a % b);
        lemma_fundamental_div_mod(a as int, b as int);
        let q = (a / b) as int;
        let ai = a as int;
        let bi = b as int;
        let ri = (a % b) as int;
        assert(y * ai + (x - y * q) * bi == x * bi + y * ri) by (nonlinear_arith)
            requires
                ai == bi * q + ri,
        ;
        (y, x - y * q)
    }
}

/// A number coprime to `n` has an inverse modulo `n`.
pub proof fn lemma_inverse_exists(a: nat, n: nat)
    requires
        invertible(a, n),
    ensures
        is_inverse(a, n, mod_inverse(a, n)),
{
    let (x, y) = lemma_bezout(a, n);
    let ni = n as int;
    let ai = a as int;
    let r = x % ni;
    lemma_mul_mod_noop_right(ai, x, ni);
    assert(ai * x == ni * (-y) + 1) by (nonlinear_arith)
        requires
            x * ai + y * ni == 1,
    ;
    lemma_mod_multiples_vanish(-y, 1, ni);
    assert(is_inverse(a, n, r as nat));
}

/// The gcd of two numbers, not both zero, is positive and divides both.
pub proof fn lemma_gcd_divides(a: nat, b: nat)
    requires
        a > 0 || b > 0,
    ensures
        gcd(a, b) > 0,
        a % gcd(a, b) == 0,
        b % gcd(a, b) == 0,
    decreases b,
{
    if b == 0 {
        lemma_mod_multiples_basic(1, a as int);
        lemma_mod_multiples_basic(0, a as int);
    } else {
        let r = a % b;
        lemma_gcd_divides(b, r);
        let g = gcd(b, r);
        lemma_fundamental_div_mod(a as int, b as int);
        lemma_fundamental_div_mod(b as int, g as int);
        lemma_fundamental_div_mod(r as int, g as int);
        let i = b / g;
        let j = r / g;
        let q = a / b;
        assert(a == g * (i * q + j)) by (nonlinear_arith)
            requires
                a == b * q + r,
                b == g * i,
                r == g * j,
        ;
        lemma_mod_multiples_basic((i * q + j) as int, g as int);
    }
}

/// A number that a prime does not divide is coprime to it.
pub proof fn lemma_prime_coprime(a: nat, p: nat)
    requires
        prime(p),
        a % p != 0,
    ensures
        gcd(a, p) == 1,
{
    lemma_gcd_divides(a, p);
    let g = gcd(a, p);
    if g > p {
        lemma_small_mod(p, g);
    }
    assert(g <= p);
    if g == p {
        assert(a % p == 0);
    }
    assert(g == 1 || (2 <= g < p && p % g == 0));
}

/// Reports whether no integer in `[2, n)` divides `n`, by trial division.
pub fn is_prime(n: u32) -> (r: bool)
    ensures
        r == has_no_factor(n as nat),
        n >= 2 ==> (r == prime(n as nat)),
{
    let mut i: u32 = 2;
    while i < n
        invariant
            2 <= i,
            i <= n || n < 2,
            forall|d: nat| 2 <= d < i ==> #[trigger] ((n as nat) % d) != 0,
        decreases n - i,
    {
        if n % i == 0 {
            assert((n as nat) % (i as nat) == 0);
            return false;
        }
        i = i + 1;
    }
    assert forall|d: nat| 2 <= d < n implies #[trigger] ((n as nat) % d) != 0 by {
        assert(d < i);
    }
    true
}

/// Greatest common divisor of `a` and `b`, by Euclid's algorithm.
pub fn gcd_of(a: u32, b: u32) -> (r: u32)
    ensures
        r as nat == gcd(a as nat, b as nat),
{
    let mut x: u32 = a;
    let mut y: u32 = b;
    while y != 0
        invariant
            gcd(x as nat, y as nat) == gcd(a as nat, b as nat),
        decreases y,
    {
        let t = x % y;
        x = y;
        y = t;
    }
    x
}

/// The multiplicative inverse of `a` modulo `n`, in `[0, n)`, by the extended
/// Euclidean algorithm. The Bezout coefficient of `a` is kept reduced modulo
/// `n` at every step, so it never goes negative.
pub fn modinv(a: u32, n: u32) -> (r: u32)
    requires
        invertible(a as nat, n as nat),
    ensures
        is_inverse(a as nat, n as nat, r as nat),
        r == mod_inverse(a as nat, n as nat),
{
    let a64: u64 = a as u64;
    let n64: u64 = n as u64;
    let ghost top: nat = if a >= n { a as nat } else { n as nat };
    let mut old_r: u64 = a64;
    let mut r: u64 = n64;
    let mut old_s: u64 = 1 % n64;
    let mut s: u64 = 0;
    let ghost mut k_old: int = if n == 1 { -(a as int) } else { 0 };
    let ghost mut k: int = -1;
    proof {
        if n == 1 {
            assert(old_s == 0);
        } else {
            lemma_small_mod(1, n as nat);
        }
    }
    while r != 0
        invariant
            n64 == n as u64,
            a64 == a as u64,
            n >= 1,
            top < 0x1_0000_0000,
            old_r <= top,
            r <= top,
            old_s < n64,
            s < n64,
            (old_s as int) * (a as int) - (old_r as int) == k_old * (n as int),
            (s as int) * (a as int) - (r as int) == k * (n as int),
            gcd(old_r as nat, r as nat) == gcd(a as nat, n as nat),
        decreases r,
    {
        let q: u64 = old_r / r;
        let new_r: u64 = old_r % r;
        assert((q as int) * (s as int) < 0x1_0000_0000 * 0x1_0000_0000) by (nonlinear_arith)
            requires
                q <= old_r,
                old_r < 0x1_0000_0000,
                s < 0x1_0000_0000,
        ;
        assert(q <= old_r) by {
            vstd::arithmetic::div_mod::lemma_div_is_ordered_by_denominator(
                old_r as int,
                1,
                r as int,
            );
        }
        let x: u64 = q * s;
        let t: u64 = x % n64;
        let y: u64 = old_s + (n64 - t);
        let new_s: u64 = y % n64;
        proof {
            lemma_fundamental_div_mod(old_r as int, r as int);
            lemma_fundamental_div_mod(x as int, n as int);
            lemma_fundamental_div_mod(y as int, n as int);
            let m: int = 1 + (x as int) / (n as int) - (y as int) / (n as int);
            let qi = q as int;
            let ni = n as int;
            let ai = a as int;
            assert(new_s as int == old_s as int - qi * (s as int) + m * ni) by (nonlinear_arith)
                requires
                    x as int == qi * (s as int),
                    x as int == ni * ((x as int) / ni) + (t as int),
                    y as int == old_s as int + ni - (t as int),
                    y as int == ni * ((y as int) / ni) + (new_s as int),
                    m == 1 + (x as int) / ni - (y as int) / ni,
            ;
            assert(new_r as int == old_r as int - qi * (r as int));
            let k_new: int = k_old - qi * k + m * ai;
            assert((new_s as int) * ai - (new_r as int) == k_new * ni) by (nonlinear_arith)
                requires
                    new_s as int == old_s as int - qi * (s as int) + m * ni,
                    new_r as int == old_r as int - qi * (r as int),
                    (old_s as int) * ai - (old_r as int) == k_old * ni,
                    (s as int) * ai - (r as int) == k * ni,
                    k_new == k_old - qi * k + m * ai,
            ;
            k_old = k;
            k = k_new;
        }
        old_r = r;
        r = new_r;
        old_s = s;
        s = new_s;
    }
    proof {
        assert(old_r == 1);
        assert((a as int) * (old_s as int) == k_old * (n as int) + 1) by (nonlinear_arith)
            requires
                (old_s as int) * (a as int) - 1 == k_old * (n as int),
        ;
        lemma_mod_multiples_vanish(k_old, 1, n as int);
        assert((n as int) * k_old == k_old * (n as int)) by (nonlinear_arith);
        assert(is_inverse(a as nat, n as nat, old_s as nat));
        lemma_inverse_unique(a as nat, n as nat, old_s as nat, mod_inverse(a as nat, n as nat));
    }
    old_s as u32
}

} // verus!
