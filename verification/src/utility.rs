//! Key derivation: the extended Euclidean algorithm, coprimality and
//! primality tests, the prime search, and the functions that fill an
//! [`RSAInfo`](crate::structures::RSAInfo) field by field.
use vstd::prelude::*;

verus! {

use crate::number_theory::{gcd, is_prime_spec};
use crate::structures::RSAInfo;
use vstd::arithmetic::div_mod::{lemma_fundamental_div_mod, lemma_small_mod,
    lemma_mod_multiples_vanish, lemma_mul_mod_noop_right, lemma_mod_division_less_than_divisor,
    lemma_div_is_ordered_by_denominator, lemma_div_is_ordered};
use vstd::arithmetic::mul::{lemma_mul_is_distributive_add, lemma_mul_is_commutative,
    lemma_mul_inequality, lemma_mul_left_inequality};
use vstd::arithmetic::power::pow;
use crate::modded_exponent;

/// The Bezout triple `(g, x, y)` that Euclid's recurrence derives for
/// `(a, b)`: the gcd together with the coefficients combining `a` and `b`
/// into it.
pub open spec fn ext_gcd_spec(a: int, b: int) -> (int, int, int)
    decreases b,
{
    if b <= 0 {
        (a, 1, 0)
    } else {
        let (g, x, y) = ext_gcd_spec(b, a % b);
        (g, y, x - (a / b) * y)
    }
}

/// The extended Euclidean algorithm: returns `(g, x, y)` with
/// `g == gcd(a, b)` and `a*x + b*y == g`.  The coefficient bounds
/// (`|x|` at most `max(b, 1)`, `|y|` at most `max(a, 1)`) keep every
/// intermediate product inside `i128` for inputs up to `u64::MAX`.
pub fn extended_gcd(a: i128, b: i128) -> (r: (i128, i128, i128))
    requires
        0 <= a <= u64::MAX,
        0 <= b <= u64::MAX,
    ensures
        (r.0 as int, r.1 as int, r.2 as int) == ext_gcd_spec(a as int, b as int),
        r.0 == gcd(a as nat, b as nat),
        a * r.1 + b * r.2 == r.0,
        b == 0 ==> r.1 == 1 && r.2 == 0,
        -(if b == 0 { 1int } else { b as int }) <= r.1 <= (if b == 0 { 1int } else { b as int }),
        -(if a == 0 { 1int } else { a as int }) <= r.2 <= (if a == 0 { 1int } else { a as int }),
    decreases b,
{
    if b == 0 {
        (a, 1, 0)
    } else {
        let q = a / b;
        let rem = a % b;
        let (g, x, y) = extended_gcd(b, rem);
        proof {
            lemma_fundamental_div_mod(a as int, b as int);
            assert(q * y <= a && -(a as int) <= q * y) by (nonlinear_arith)
                requires
                    0 <= a,
                    1 <= b,
                    0 <= q,
                    0 <= rem < b,
                    a == b * q + rem,
                    rem == 0 ==> y == 0,
                    rem != 0 ==> -(b as int) <= y <= b,
            ;
            // the returned Bezout coefficients stay within their bounds
            assert(-(a as int) + -(b as int) <= x - q * y <= a + b);
            if rem == 0 {
                assert(q * y == 0) by (nonlinear_arith)
                    requires
                        y == 0,
                ;
                assert(x - q * y == 1);
            } else {
                assert(q * y <= b * q && -(b * q) <= q * y) by (nonlinear_arith)
                    requires
                        0 <= q,
                        -(b as int) <= y <= b,
                ;
                assert(-(a as int) <= x - q * y <= a) by (nonlinear_arith)
                    requires
                        0 <= q,
                        1 <= rem,
                        a == b * q + rem,
                        -(rem as int) <= x <= rem,
                        -(a as int) <= q * y <= a,
                        q * y <= b * q,
                        -(b * q) <= q * y,
                ;
            }
            // b*x + rem*y == g  rewrites to  a*y + b*(x - q*y) == g
            assert(a * y + b * (x - q * y) == b * x + rem * y) by (nonlinear_arith)
                requires
                    rem == a - b * q,
            ;
        }
        (g, y, x - q * y)
    }
}

/// `c` is an acceptable public exponent for the totient `phi`: it does not
/// exceed `phi` and is coprime with it.
pub open spec fn coprime_candidate(c: u64, phi: u64) -> bool {
    c <= phi && gcd(phi as nat, c as nat) == 1
}

/// Euclid's algorithm on `(phi, e)`, accepting exactly when the gcd is 1.
/// A value larger than `phi` is rejected outright.
pub fn is_coprime(e: u64, phi: u64) -> (r: bool)
    requires
        e >= 1,
    ensures
        r == coprime_candidate(e, phi),
{
    let mut a = phi;
    let mut b = e;
    if b > a {
        return false;
    }
    loop
        invariant
            1 <= b <= a,
            e <= phi,
            gcd(a as nat, b as nat) == gcd(phi as nat, e as nat),
        decreases b,
    {
        let temp = a % b;
        proof {
            assert(gcd(a as nat, b as nat) == gcd(b as nat, temp as nat));
            if temp == 0 {
                assert(gcd(b as nat, 0) == b as nat);
            }
        }
        a = b;
        b = temp;
        if temp == 0 {
            return a == 1;
        }
    }
}

/// Scans for the first exponent coprime with `phi`: upward from `num` to
/// `phi`, and failing that, upward from 3 to `num`.  The caller guarantees
/// that one of the two scans succeeds.
pub fn get_a_coprime(num: u64, phi: u64) -> (r: u64)
    requires
        num >= 1,
        (exists|i: u64| num <= i < phi && #[trigger] coprime_candidate(i, phi)) || (exists|j: u64|
            3 <= j < num && #[trigger] coprime_candidate(j, phi)),
    ensures
        coprime_candidate(r, phi),
        (num <= r < phi && (forall|j: u64|
            num <= j < r ==> !#[trigger] coprime_candidate(j, phi))) || ((forall|j: u64|
            num <= j < phi ==> !#[trigger] coprime_candidate(j, phi)) && 3 <= r < num && (
        forall|j: u64| 3 <= j < r ==> !#[trigger] coprime_candidate(j, phi))),
{
    let mut i = num;
    while i < phi
        invariant
            1 <= num <= i,
            i <= phi || i == num,
            forall|j: u64| num <= j < i ==> !#[trigger] coprime_candidate(j, phi),
        decreases phi - i,
    {
        if is_coprime(i, phi) {
            return i;
        }
        i = i + 1;
    }
    let mut j: u64 = 3;
    while j < num
        invariant
            3 <= j,
            j <= num || j == 3,
            forall|k: u64| num <= k < phi ==> !#[trigger] coprime_candidate(k, phi),
            forall|k: u64| 3 <= k < j ==> !#[trigger] coprime_candidate(k, phi),
        decreases num - j,
    {
        if is_coprime(j, phi) {
            return j;
        }
        j = j + 1;
    }
    proof {
        // the precondition promised a hit in one of the two scanned ranges
        assert(false);
    }
    0
}

/// If `n` has no divisor between 2 and some bound `s` whose square exceeds
/// `n`, then `n` has no nontrivial divisor at all: in any factorization
/// `n == d * q`, one of the factors is below `s`.
proof fn lemma_no_divisor_below_sqrt(n: nat, s: nat)
    requires
        n >= 2,
        s * s > n,
        forall|d: nat| 2 <= d < s ==> #[trigger] (n % d) != 0,
    ensures
        is_prime_spec(n),
{
    assert(s >= 2) by (nonlinear_arith)
        requires
            s * s > n,
            n >= 2,
    ;
    assert forall|d: nat| 2 <= d < n implies #[trigger] (n % d) != 0 by {
        if n % d == 0 {
            let q = n / d;
            lemma_fundamental_div_mod(n as int, d as int);
            assert(n == d * q);
            if d >= s {
                assert(2 <= q < s) by (nonlinear_arith)
                    requires
                        n == d * q,
                        n % d == 0,
                        2 <= d < n,
                        s * s > n,
                        d >= s,
                        2 <= s,
                ;
                assert(n % q == 0) by {
                    vstd::arithmetic::div_mod::lemma_mod_multiples_basic(d as int, q as int);
                }
            }
        }
    }
}

/// Divisibility is transitive: if `small` divides `d` and `d` divides
/// `num`, then `small` divides `num`.
proof fn lemma_divides_transitive(small: nat, d: nat, num: nat)
    requires
        small >= 1,
        d >= 1,
        d % small == 0,
        num % d == 0,
    ensures
        num % small == 0,
{
    lemma_fundamental_div_mod(num as int, d as int);
    lemma_fundamental_div_mod(d as int, small as int);
    let qn = num as int / d as int;
    let qd = d as int / small as int;
    assert(num as int == (small as int * qd) * qn);
    assert(num as int == (qd * qn) * small) by (nonlinear_arith)
        requires
            num as int == (small as int * qd) * qn,
    ;
    vstd::arithmetic::div_mod::lemma_mod_multiples_basic(qd * qn, small as int);
}

/// Trial division: after the parity checks, tests candidate divisors of
/// the form `6k - 1` and `6k + 1` up to the integer square root of `num`
/// (the remaining residues are multiples of 2 or 3, already excluded).
/// Deterministic and exact; the reference oracle for the probabilistic
/// test.
pub fn is_prime(num: u64) -> (r: bool)
    ensures
        r == is_prime_spec(num as nat),
{
    if num < 2 {
        return false;
    }
    if num < 4 {
        return true;
    }
    if num % 2 == 0 {
        return false;
    }
    if num % 3 == 0 {
        return false;
    }
    proof {
        assert forall|d: nat| 2 <= d < 5 implies #[trigger] ((num as nat) % d) != 0 by {
            if d == 4 && (num as nat) % 4 == 0 {
                lemma_divides_transitive(2, 4, num as nat);
            }
        }
    }
    let mut i: u64 = 5;
    while i <= num / i
        invariant
            5 <= i,
            i % 6 == 5,
            num >= 5,
            num % 2 != 0,
            num % 3 != 0,
            forall|d: nat| 2 <= d < i ==> #[trigger] ((num as nat) % d) != 0,
        decreases num - i,
    {
        proof {
            lemma_div_is_ordered_by_denominator(num as int, 2, i as int);
            lemma_fundamental_div_mod(num as int, i as int);
            let qd = num as int / i as int;
            assert(i * i <= num && i + 6 < num) by (nonlinear_arith)
                requires
                    i <= qd,
                    i >= 5,
                    num == i * qd + num % i,
                    num % i >= 0,
            ;
        }
        if num % i == 0 {
            return false;
        }
        if num % (i + 2) == 0 {
            return false;
        }
        proof {
            assert forall|d: nat| 2 <= d < i + 6 implies #[trigger] ((num as nat) % d) != 0 by {
                if i <= d && (num as nat) % d == 0 {
                    if d == i + 1 || d == i + 3 || d == i + 5 {
                        lemma_divides_transitive(2, d, num as nat);
                    } else if d == i + 4 {
                        lemma_divides_transitive(3, d, num as nat);
                    }
                }
            }
        }
        i = i + 6;
    }
    proof {
        lemma_fundamental_div_mod(num as int, i as int);
        assert(i * i > num) by (nonlinear_arith)
            requires
                i > num / i,
                i >= 2,
                num == i * (num / i) + num % i,
                0 <= num % i < i,
        ;
        lemma_no_divisor_below_sqrt(num as nat, i as nat);
    }
    true
}

/// The deterministic witness used in round `g` of the probabilistic test:
/// `2 + (num / 15) * (g + 1)`, chosen for reproducibility across runs.
pub open spec fn mr_witness(num: u64, g: u64) -> int {
    2 + (num as int / 15) * (g as int + 1)
}

/// The outcome of the repeated-squaring phase of one test round, starting
/// from exponent `d` and residue `x`: squaring `x` and doubling `d` until a
/// square hits `num - 1` (accept) or the exponent runs out (reject).
pub open spec fn mr_square_chain(d: int, x: int, num: int) -> bool
    decreases num - d,
{
    if d < 1 || num < 2 || d > num - 1 {
        false
    } else if x == 0 {
        false
    } else {
        let x2 = pow(x, 2) % num;
        if d > u64::MAX as int / 2 {
            false
        } else if x2 == 1 {
            false
        } else if x2 == num - 1 {
            true
        } else if 2 * d > num - 1 {
            false
        } else {
            mr_square_chain(2 * d, x2, num)
        }
    }
}

/// One round of the probabilistic test with witness index `g`: accepts when
/// the witness raised to `d` is already 1 or `num - 1`, or when the square
/// chain from there accepts.
pub open spec fn mr_round_passes(d: u64, num: u64, g: u64) -> bool {
    let x = pow(mr_witness(num, g), d as nat) % (num as int);
    x == 1 || x == num - 1 || mr_square_chain(d as int, x, num as int)
}

/// The largest odd divisor of `d` obtained by halving away factors of two.
pub open spec fn odd_part(d: nat) -> nat
    decreases d,
{
    if d >= 1 && d % 2 == 0 {
        odd_part(d / 2)
    } else {
        d
    }
}

/// What the probabilistic primality test accepts: the fast parity checks,
/// then ten witness rounds against the odd part of `num - 1`.
pub open spec fn mr_prime(num: u64) -> bool {
    if num <= 1 || num == 4 {
        false
    } else if num <= 3 {
        true
    } else if num % 2 == 0 || num % 3 == 0 {
        false
    } else {
        forall|g: u64| g < 10 ==> #[trigger] mr_round_passes(odd_part((num - 1) as nat) as u64, num, g)
    }
}

/// One witness round of the probabilistic test, mirrored exactly by
/// [`mr_round_passes`]: raise the witness to `d`, then square repeatedly,
/// doubling `d`, looking for `num - 1`.
pub fn miller_rabine_test(d: u64, num: u64, g: u64) -> (r: bool)
    requires
        1 <= d,
        2 <= num,
        g < u64::MAX,
        (num as int / 15) * (g as int + 1) + 2 <= u64::MAX,
    ensures
        r == mr_round_passes(d, num, g),
{
    let nextrandom = (num / 15) * (g + 1);
    let a = 2 + nextrandom;
    let mut x = modded_exponent(a, d, num);
    if x == 1 || x == num - 1 {
        return true;
    }
    let mut dd = d;
    while dd <= num - 1
        invariant
            1 <= dd,
            2 <= num,
            x < num,
            mr_round_passes(d, num, g) == mr_square_chain(dd as int, x as int, num as int),
        decreases (if num >= dd { (num - dd) as int } else { 0int }),
    {
        if x == 0 {
            return false;
        }
        x = modded_exponent(x, 2, num);
        if u64::MAX / 2 >= dd {
            dd = dd * 2;
        } else {
            return false;
        }
        if x == 1 {
            return false;
        }
        if x == num - 1 {
            return true;
        }
    }
    false
}

/// The probabilistic primality test: fast checks for small numbers and
/// multiples of 2 or 3, then ten deterministic witness rounds.  It never
/// rejects a prime (see
/// [`lemma_probable_test_accepts_primes`](crate::fermat::lemma_probable_test_accepts_primes)),
/// but it may in principle accept a composite, so callers that need
/// certainty use [`is_prime`] instead.
pub fn is_prime_miller_rabine(num: u64) -> (r: bool)
    ensures
        r == mr_prime(num),
{
    if num <= 1 || num == 4 {
        return false;
    }
    if num <= 3 {
        return true;
    }
    if num % 2 == 0 || num % 3 == 0 {
        return false;
    }
    let mut d = num - 1;
    while d % 2 == 0
        invariant
            1 <= d,
            odd_part(d as nat) == odd_part((num - 1) as nat),
        decreases d,
    {
        d = d / 2;
    }
    let mut g: u64 = 0;
    while g < 10
        invariant
            g <= 10,
            1 <= d,
            5 <= num,
            num % 2 != 0,
            num % 3 != 0,
            d == odd_part((num - 1) as nat),
            forall|h: u64| h < g ==> #[trigger] mr_round_passes(d, num, h),
        decreases 10 - g,
    {
        proof {
            lemma_div_is_ordered(num as int, u64::MAX as int, 15);
            lemma_mul_inequality(num as int / 15, u64::MAX as int / 15, g as int + 1);
            lemma_mul_left_inequality(u64::MAX as int / 15, g as int + 1, 10);
        }
        if miller_rabine_test(d, num, g) == false {
            proof {
                assert(!mr_round_passes(odd_part((num - 1) as nat) as u64, num, g));
            }
            return false;
        }
        g = g + 1;
    }
    proof {
        assert forall|h: u64| h < 10 implies #[trigger] mr_round_passes(
            odd_part((num - 1) as nat) as u64,
            num,
            h,
        ) by {
            assert(mr_round_passes(d, num, h));
        }
    }
    true
}

/// The largest value the prime search will accept as a starting hint, kept
/// low enough that a product of two primes near it still fits in a `u64`.
pub const PRIME_MAX: u64 = u64::MAX / 3;

/// Which oracle judges a candidate: exact trial division for short ranges,
/// the probabilistic test for long ones where trial division is too slow.
pub open spec fn search_accepts(n: u64, use_mr: bool) -> bool {
    if use_mr {
        mr_prime(n)
    } else {
        is_prime_spec(n as nat)
    }
}

/// The first accepted value of `[start, end]` scanning upward, or 0 when
/// the range holds none.  (0 is never itself accepted, so the sentinel is
/// unambiguous.)
pub open spec fn first_hit_up(start: u64, end: u64, use_mr: bool) -> u64
    decreases end - start,
{
    if start > end {
        0
    } else if search_accepts(start, use_mr) {
        start
    } else if start == end {
        0
    } else {
        first_hit_up((start + 1) as u64, end, use_mr)
    }
}

/// The first accepted value of `[start, end]` scanning downward, or 0 when
/// the range holds none.
pub open spec fn first_hit_down(start: u64, end: u64, use_mr: bool) -> u64
    decreases end - start,
{
    if start > end {
        0
    } else if search_accepts(end, use_mr) {
        end
    } else if start == end {
        0
    } else {
        first_hit_down(start, (end - 1) as u64, use_mr)
    }
}

/// What a search over `[start, end]` returns: the first hit in the stated
/// scan direction, judged by trial division for ranges shorter than 500 and
/// by the probabilistic test otherwise.
pub open spec fn scan_result(start: u64, end: u64, go_down: bool) -> u64 {
    let use_mr = end - start >= 500;
    if go_down {
        first_hit_down(start, end, use_mr)
    } else {
        first_hit_up(start, end, use_mr)
    }
}

proof fn lemma_first_hit_up_props(start: u64, end: u64, use_mr: bool)
    requires
        start <= end,
    ensures
        ({
            let r = first_hit_up(start, end, use_mr);
            &&& (r == 0 ==> forall|c: u64|
                start <= c <= end ==> !#[trigger] search_accepts(c, use_mr))
            &&& (r != 0 ==> start <= r <= end && search_accepts(r, use_mr) && (forall|c: u64|
                start <= c < r ==> !#[trigger] search_accepts(c, use_mr)))
        }),
    decreases end - start,
{
    if !search_accepts(start, use_mr) && start < end {
        lemma_first_hit_up_props((start + 1) as u64, end, use_mr);
    }
}

proof fn lemma_first_hit_down_props(start: u64, end: u64, use_mr: bool)
    requires
        start <= end,
    ensures
        ({
            let r = first_hit_down(start, end, use_mr);
            &&& (r == 0 ==> forall|c: u64|
                start <= c <= end ==> !#[trigger] search_accepts(c, use_mr))
            &&& (r != 0 ==> start <= r <= end && search_accepts(r, use_mr) && (forall|c: u64|
                r < c <= end ==> !#[trigger] search_accepts(c, use_mr)))
        }),
    decreases end - start,
{
    if !search_accepts(end, use_mr) && start < end {
        lemma_first_hit_down_props(start, (end - 1) as u64, use_mr);
    }
}

/// Validity of the prime search: when a scan over a nonempty range reports
/// a hit, that hit lies within the bounds, passes the oracle that judged
/// the range, and is the first acceptable value in scan order; when it
/// reports the sentinel 0, nothing in the range is acceptable.
pub proof fn lemma_scan_finds_first(start: u64, end: u64, go_down: bool)
    requires
        start <= end,
    ensures
        ({
            let r = scan_result(start, end, go_down);
            let use_mr = end - start >= 500;
            &&& (r != 0 ==> start <= r <= end && search_accepts(r, use_mr))
            &&& (r == 0 ==> forall|c: u64|
                start <= c <= end ==> !#[trigger] search_accepts(c, use_mr))
            &&& (r != 0 && !go_down ==> forall|c: u64|
                start <= c < r ==> !#[trigger] search_accepts(c, use_mr))
            &&& (r != 0 && go_down ==> forall|c: u64|
                r < c <= end ==> !#[trigger] search_accepts(c, use_mr))
        }),
{
    let use_mr = end - start >= 500;
    if go_down {
        lemma_first_hit_down_props(start, end, use_mr);
    } else {
        lemma_first_hit_up_props(start, end, use_mr);
    }
}

fn check_candidate(n: u64, use_mr: bool) -> (r: bool)
    ensures
        r == search_accepts(n, use_mr),
{
    if use_mr {
        is_prime_miller_rabine(n)
    } else {
        is_prime(n)
    }
}

/// Scans `[start, end]` in the stated direction for the first value the
/// oracle accepts, returning 0 when the range holds none.  Short ranges are
/// judged by exact trial division, long ones by the probabilistic test.
pub fn find_prime_in_range(start: u64, end: u64, go_down: bool) -> (r: u64)
    requires
        start <= end,
    ensures
        r == scan_result(start, end, go_down),
        r != 0 ==> start <= r <= end && search_accepts(r, end - start >= 500),
{
    let use_mr = end - start >= 500;
    proof {
        lemma_scan_finds_first(start, end, go_down);
    }
    if go_down {
        let mut cur = end;
        loop
            invariant
                start <= cur <= end,
                use_mr == (end - start >= 500),
                go_down,
                first_hit_down(start, end, use_mr) == first_hit_down(start, cur, use_mr),
                scan_result(start, end, go_down) == first_hit_down(start, end, use_mr),
                start <= end,
            decreases cur,
        {
            if check_candidate(cur, use_mr) {
                proof {
                    lemma_scan_finds_first(start, end, go_down);
                }
                return cur;
            }
            if cur == start {
                return 0;
            }
            cur = cur - 1;
        }
    } else {
        let mut cur = start;
        loop
            invariant
                start <= cur <= end,
                use_mr == (end - start >= 500),
                !go_down,
                first_hit_up(start, end, use_mr) == first_hit_up(cur, end, use_mr),
                scan_result(start, end, go_down) == first_hit_up(start, end, use_mr),
                start <= end,
            decreases end - cur,
        {
            if check_candidate(cur, use_mr) {
                proof {
                    lemma_scan_finds_first(start, end, go_down);
                }
                return cur;
            }
            if cur == end {
                return 0;
            }
            cur = cur + 1;
        }
    }
}

/// Where the search for the first prime looks, given the caller's hint:
/// hints outside `[3, PRIME_MAX]` are re-centered on the middle of that
/// window, low hints are scanned downward, high ones upward, with a second
/// upward pass as a fallback when the first scan finds nothing.
pub open spec fn first_prime_found(num: u64) -> u64 {
    let range = clamped_hint(num);
    let first = if range < PRIME_MAX / 2 {
        scan_result(0, range, true)
    } else {
        scan_result(range, u64::MAX, false)
    };
    if first == 0 {
        scan_result(range, u64::MAX, false)
    } else {
        first
    }
}

/// The hint re-centered into the valid window.
pub open spec fn clamped_hint(num: u64) -> u64 {
    if num < 3 || num > PRIME_MAX {
        PRIME_MAX / 2
    } else {
        num
    }
}

/// The second prime: the first one found scanning downward from
/// `u64::MAX / p`, which keeps the product of the two primes within `u64`.
pub open spec fn second_prime_found(num: u64) -> u64 {
    let p = first_prime_found(num);
    if p == 0 {
        0
    } else {
        scan_result(0, (u64::MAX as int / p as int) as u64, true)
    }
}

/// Finds the two primes of a key from the caller's starting hint.  The
/// caller guarantees that both searches succeed (for any hint in practice:
/// every scanned window is wide enough to hold a prime); the product of the
/// two results always fits in a `u64`.
pub fn find_prime(num: u64) -> (r: (u64, u64))
    requires
        first_prime_found(num) != 0,
        second_prime_found(num) != 0,
    ensures
        r.0 == first_prime_found(num),
        r.1 == second_prime_found(num),
        r.0 * r.1 <= u64::MAX,
{
    let mid = PRIME_MAX / 2;
    let mut range = num;
    if num < 3 || num > PRIME_MAX {
        range = mid;
    }
    let mut result_p: u64;
    if range < mid {
        result_p = find_prime_in_range(0, range, true);
    } else {
        result_p = find_prime_in_range(range, u64::MAX, false);
    }
    if result_p == 0 {
        result_p = find_prime_in_range(range, u64::MAX, false);
    }
    let start = u64::MAX / result_p;
    let result_q = find_prime_in_range(0, start, true);
    proof {
        lemma_scan_finds_first(0, start, true);
        lemma_fundamental_div_mod(u64::MAX as int, result_p as int);
        assert(result_p * result_q <= u64::MAX) by (nonlinear_arith)
            requires
                result_p >= 1,
                result_q <= start,
                u64::MAX as int == result_p * (start as int) + u64::MAX as int % (result_p as int),
                u64::MAX as int % (result_p as int) >= 0,
        ;
    }
    (result_p, result_q)
}

/// Multiplies the two primes into the modulus `n`.  The caller has already
/// arranged for the product to fit, so the multiplication cannot overflow.
pub fn get_modulus(info: &mut RSAInfo)
    requires
        old(info).p * old(info).q <= u64::MAX,
    ensures
        final(info).n == old(info).p * old(info).q,
        final(info).p == old(info).p,
        final(info).q == old(info).q,
        final(info).phi == old(info).phi,
        final(info).e == old(info).e,
        final(info).d == old(info).d,
{
    let n: u64 = info.get_p() * info.get_q();
    info.set_n(n);
}

/// Computes Euler's totient `(p - 1) * (q - 1)` into `phi`.
pub fn get_phi(info: &mut RSAInfo)
    requires
        old(info).p >= 1,
        old(info).q >= 1,
        (old(info).p - 1) * (old(info).q - 1) <= u64::MAX,
    ensures
        final(info).phi == (old(info).p - 1) * (old(info).q - 1),
        final(info).p == old(info).p,
        final(info).q == old(info).q,
        final(info).n == old(info).n,
        final(info).e == old(info).e,
        final(info).d == old(info).d,
{
    let pmin1 = info.get_p() - 1;
    let qmin1 = info.get_q() - 1;
    proof {
        lemma_mul_is_commutative(qmin1 as int, pmin1 as int);
    }
    let phi = qmin1 * pmin1;
    info.set_phi(phi);
}

/// Derives the private exponent `d` as the modular inverse of `e` modulo
/// `phi`, by normalizing the Bezout coefficient from [`extended_gcd`] into
/// `[0, phi)`.  The caller guarantees that `e` and `phi` are coprime, which
/// is exactly when the inverse exists.
pub fn get_d(info: &mut RSAInfo)
    requires
        old(info).phi >= 2,
        gcd(old(info).e as nat, old(info).phi as nat) == 1,
    ensures
        final(info).d < old(info).phi,
        (old(info).e * final(info).d) % (old(info).phi as int) == 1,
        final(info).p == old(info).p,
        final(info).q == old(info).q,
        final(info).n == old(info).n,
        final(info).phi == old(info).phi,
        final(info).e == old(info).e,
{
    let eul = info.get_phi() as i128;
    let e = info.get_e() as i128;
    let data = extended_gcd(e, eul);
    let x = data.1;
    let val = ((x + eul) % eul) as u64;
    proof {
        let ei = e as int;
        let phi = eul as int;
        let y = data.2 as int;
        let d = (x + eul) as int % phi;
        lemma_mod_division_less_than_divisor(x + eul, phi);
        assert(ei * x + phi * y == 1);
        // e * ((x + phi) % phi) == e * (x + phi)  modulo phi
        lemma_mul_mod_noop_right(ei, x + phi, phi);
        assert(ei * (x + phi) == ei * x + ei * phi) by {
            lemma_mul_is_distributive_add(ei, x as int, phi);
        }
        // the multiples of phi vanish, leaving (e * x) % phi == 1 % phi
        assert((ei * x + ei * phi) % phi == (ei * x) % phi) by {
            lemma_mul_is_commutative(ei, phi);
            lemma_mod_multiples_vanish(ei, ei * (x as int), phi);
        }
        assert((ei * x) % phi == 1int % phi) by {
            assert(ei * x == phi * (-y) + 1) by (nonlinear_arith)
                requires
                    ei * x + phi * y == 1,
            ;
            lemma_mod_multiples_vanish(-y, 1, phi);
        }
        lemma_small_mod(1, phi as nat);
        assert((ei * d) % phi == 1);
    }
    info.set_d(val);
}

} // verus!
