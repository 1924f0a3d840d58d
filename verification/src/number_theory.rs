//! Mathematical groundwork shared by the key-derivation functions and their
//! proofs: the greatest common divisor, primality, Bezout coefficients, and
//! the classic divisibility lemmas that follow from them.
use vstd::prelude::*;

verus! {

use vstd::arithmetic::div_mod::{lemma_fundamental_div_mod, lemma_small_mod,
    lemma_mod_division_less_than_divisor, lemma_mod_multiples_vanish, lemma_mul_mod_noop_general,
    lemma_mod_multiples_basic};
use vstd::arithmetic::mul::{lemma_mul_is_associative, lemma_mul_is_commutative,
    lemma_mul_is_distributive_add, lemma_mul_is_distributive_sub};

/// The greatest common divisor, by Euclid's recurrence.
pub open spec fn gcd(a: nat, b: nat) -> nat
    decreases b,
{
    if b == 0 {
        a
    } else {
        gcd(b, a % b)
    }
}

/// `n` is prime: at least 2, with no divisor strictly between 1 and `n`.
pub open spec fn is_prime_spec(n: nat) -> bool {
    n >= 2 && forall|d: nat| 2 <= d < n ==> #[trigger] (n % d) != 0
}

/// The gcd divides both of its arguments, and is positive unless both are 0.
pub proof fn lemma_gcd_divides(a: nat, b: nat)
    ensures
        gcd(a, b) == 0 ==> a == 0 && b == 0,
        gcd(a, b) > 0 ==> a % gcd(a, b) == 0 && b % gcd(a, b) == 0,
    decreases b,
{
    let g = gcd(a, b);
    if b == 0 {
        if g > 0 {
            lemma_mod_multiples_basic(1, a as int);
            lemma_small_mod(0, g);
        }
    } else {
        lemma_gcd_divides(b, a % b);
        if g > 0 {
            // a == b * (a / b) + a % b, and g divides both summands
            lemma_fundamental_div_mod(a as int, b as int);
            let q = a as int / b as int;
            let gb = b as int / g as int;
            let gr = (a % b) as int / g as int;
            lemma_fundamental_div_mod(b as int, g as int);
            lemma_fundamental_div_mod((a % b) as int, g as int);
            assert(a as int == g * (q * gb) + g * gr) by {
                assert(b as int == g * gb);
                assert((a % b) as int == g * gr);
                lemma_mul_is_associative(q, g as int, gb);
                lemma_mul_is_commutative(q, g as int);
                lemma_mul_is_associative(g as int, q, gb);
            }
            assert(a as int == g * (q * gb + gr)) by {
                lemma_mul_is_distributive_add(g as int, q * gb, gr);
            }
            lemma_mod_multiples_basic(q * gb + gr, g as int);
        }
    }
}

/// `x` and `y` witness Bezout's identity for `a` and `b`.
pub open spec fn bezout_pair(a: nat, b: nat, x: int, y: int) -> bool {
    a * x + b * y == gcd(a, b)
}

/// Bezout's identity: some integer combination of `a` and `b` equals their gcd.
pub proof fn lemma_bezout(a: nat, b: nat)
    ensures
        exists|x: int, y: int| #[trigger] bezout_pair(a, b, x, y),
    decreases b,
{
    if b == 0 {
        assert(bezout_pair(a, b, 1int, 0int));
    } else {
        lemma_bezout(b, a % b);
        let (x0, y0) = choose|x0: int, y0: int| #[trigger] bezout_pair(b, a % b, x0, y0);
        assert(b * x0 + (a % b) * y0 == gcd(b, a % b));
        let q = a as int / b as int;
        lemma_fundamental_div_mod(a as int, b as int);
        assert((a % b) as int == a - b * q);
        assert(a * y0 + b * (x0 - q * y0) == gcd(a, b)) by {
            assert((a - b * q) * y0 == a * y0 - (b * q) * y0) by {
                lemma_mul_is_distributive_sub(y0, a as int, b * q);
                lemma_mul_is_commutative(y0, a as int);
                lemma_mul_is_commutative(y0, b * q);
            }
            assert(b * (x0 - q * y0) == b * x0 - b * (q * y0)) by {
                lemma_mul_is_distributive_sub(b as int, x0, q * y0);
            }
            assert((b * q) * y0 == b * (q * y0)) by {
                lemma_mul_is_associative(b as int, q, y0);
            }
        }
        assert(bezout_pair(a, b, y0, x0 - q * y0));
    }
}

/// A positive divisor of a prime is 1 or the prime itself.
pub proof fn lemma_prime_divisors(p: nat, d: nat)
    requires
        is_prime_spec(p),
        d >= 1,
        p % d == 0,
    ensures
        d == 1 || d == p,
{
    if d > p {
        lemma_small_mod(p, d);
    } else if 2 <= d < p {
        assert(p % d != 0);
    }
}

/// A prime is coprime with any value it does not divide.
pub proof fn lemma_prime_coprime(p: nat, a: nat)
    requires
        is_prime_spec(p),
        a % p != 0,
    ensures
        gcd(p, a % p) == 1,
{
    let r = a % p;
    lemma_mod_division_less_than_divisor(a as int, p as int);
    let g = gcd(p, r);
    lemma_gcd_divides(p, r);
    lemma_prime_divisors(p, g);
    if g == p {
        lemma_small_mod(r, p);
    }
}

/// Euclid's lemma: a prime dividing a product divides one of the factors.
/// Stated directionally: if `p` divides `a * b` but not `a`, it divides `b`.
pub proof fn lemma_euclid_prime(p: nat, a: int, b: int)
    requires
        is_prime_spec(p),
        (a * b) % (p as int) == 0,
        a % (p as int) != 0,
    ensures
        b % (p as int) == 0,
{
    let pi = p as int;
    let r = a % pi;
    lemma_mod_division_less_than_divisor(a, pi);
    // the residue r is a positive value below p, and is coprime with p
    assert(gcd(p, r as nat) == 1) by {
        lemma_small_mod(r as nat, p);
        lemma_prime_coprime(p, r as nat);
    }
    lemma_bezout(p, r as nat);
    let (x, y) = choose|x: int, y: int| #[trigger] bezout_pair(p, r as nat, x, y);
    assert(pi * x + r * y == 1);
    // b == b * (p*x + r*y) == p * (b*x) + r*y*b, so b mod p == (r*y*b) mod p
    assert(b == pi * (b * x) + (r * y) * b) by {
        assert(b * (pi * x + r * y) == b * (pi * x) + b * (r * y)) by {
            lemma_mul_is_distributive_add(b, pi * x, r * y);
        }
        lemma_mul_is_associative(b, pi, x);
        lemma_mul_is_commutative(b, pi);
        lemma_mul_is_associative(pi, b, x);
        lemma_mul_is_commutative(b, r * y);
    }
    assert(b % pi == ((r * y) * b) % pi) by {
        lemma_mod_multiples_vanish(b * x, (r * y) * b, pi);
    }
    // (r*y*b) mod p == (a*y*b) mod p since r == a mod p
    assert(((r * y) * b) % pi == ((a * y) * b) % pi) by {
        lemma_mul_mod_noop_general(r, y, pi);
        lemma_mul_mod_noop_general(a, y, pi);
        assert((r * y) % pi == (a * y) % pi) by {
            vstd::arithmetic::div_mod::lemma_mod_twice(a, pi);
        }
        lemma_mul_mod_noop_general(r * y, b, pi);
        lemma_mul_mod_noop_general(a * y, b, pi);
    }
    // (a*y*b) mod p == ((a*b)*y) mod p == 0
    assert(((a * y) * b) % pi == ((a * b) * y) % pi) by {
        lemma_mul_is_associative(a, y, b);
        lemma_mul_is_commutative(y, b);
        lemma_mul_is_associative(a, b, y);
    }
    assert(((a * b) * y) % pi == 0) by {
        lemma_mul_mod_noop_general(a * b, y, pi);
        assert((0 * y) % pi == 0) by {
            lemma_small_mod(0, p);
        }
    }
}

/// Two distinct primes are coprime.
pub proof fn lemma_distinct_primes_coprime(p: nat, q: nat)
    requires
        is_prime_spec(p),
        is_prime_spec(q),
        p != q,
    ensures
        gcd(p, q) == 1,
{
    let g = gcd(p, q);
    lemma_gcd_divides(p, q);
    lemma_prime_divisors(p, g);
    if g == p {
        lemma_prime_divisors(q, p);
    }
}

/// A value divisible by two coprime factors is divisible by their product.
pub proof fn lemma_coprime_divides_product(p: nat, q: nat, z: int)
    requires
        p > 0,
        q > 0,
        gcd(p, q) == 1,
        z % (p as int) == 0,
        z % (q as int) == 0,
    ensures
        z % (p as int * q as int) == 0,
{
    let pi = p as int;
    let qi = q as int;
    lemma_bezout(p, q);
    let (x, y) = choose|x: int, y: int| #[trigger] bezout_pair(p, q, x, y);
    assert(p * x + q * y == 1);
    lemma_fundamental_div_mod(z, pi);
    lemma_fundamental_div_mod(z, qi);
    let a = z / pi;
    let b = z / qi;
    assert(z == pi * a && z == qi * b);
    // z == z * (p*x + q*y) == (q*b)*(p*x) + (p*a)*(q*y) == (p*q) * (b*x + a*y)
    assert(z == (pi * qi) * (b * x + a * y)) by {
        assert(z * (pi * x) + z * (qi * y) == z) by {
            lemma_mul_is_distributive_add(z, pi * x, qi * y);
            assert(z * (pi * x + qi * y) == z * 1);
        }
        lemma_mul_is_distributive_add(pi * qi, b * x, a * y);
        assert(z * (pi * x) == (pi * qi) * (b * x)) by {
            lemma_mul_is_associative(z, pi, x);
            lemma_mul_is_commutative(z, pi);
            lemma_mul_is_associative(pi, z, x);
            assert(z * x == (qi * b) * x);
            lemma_mul_is_associative(qi, b, x);
            lemma_mul_is_associative(pi, qi, b * x);
        }
        assert(z * (qi * y) == (pi * qi) * (a * y)) by {
            lemma_mul_is_associative(z, qi, y);
            lemma_mul_is_commutative(z, qi);
            lemma_mul_is_associative(qi, z, y);
            assert(z * y == (pi * a) * y);
            lemma_mul_is_associative(pi, a, y);
            lemma_mul_is_commutative(qi, pi);
            lemma_mul_is_associative(qi, pi, a * y);
            lemma_mul_is_associative(pi, qi, a * y);
        }
    }
    vstd::arithmetic::mul::lemma_mul_strictly_positive(pi, qi);
    lemma_mul_is_commutative(pi * qi, b * x + a * y);
    lemma_mod_multiples_basic(b * x + a * y, pi * qi);
}

} // verus!
