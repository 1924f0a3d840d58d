//! The deep facts behind the cipher: Fermat's little theorem, proved by
//! the classic permutation-of-residues argument, and from it two laws --
//! the probabilistic primality test never rejects a prime, and decrypting
//! an encrypted message restores it exactly.
use vstd::calc;
use vstd::prelude::*;

verus! {

use crate::number_theory::{is_prime_spec, lemma_euclid_prime, lemma_prime_coprime,
    lemma_distinct_primes_coprime, lemma_coprime_divides_product, lemma_bezout, bezout_pair};
use crate::structures::RSAInfo;
use crate::transform_spec;
use crate::utility::odd_part;
use vstd::arithmetic::power::{pow, lemma_pow0, lemma_pow1, lemma1_pow, lemma0_pow,
    lemma_pow_adds, lemma_pow_multiplies, lemma_pow_mod_noop, lemma_pow_positive,
    lemma_pow_increases};
use vstd::arithmetic::div_mod::{lemma_fundamental_div_mod, lemma_small_mod, lemma_mod_twice,
    lemma_mod_division_less_than_divisor, lemma_mod_equivalence, lemma_mod_multiples_vanish,
    lemma_mul_mod_noop_general, lemma_mul_mod_noop_left, lemma_mul_mod_noop_right};
use vstd::arithmetic::mul::{lemma_mul_is_associative, lemma_mul_is_commutative,
    lemma_mul_is_distributive_sub, lemma_mul_is_distributive_sub_other_way,
    lemma_mul_strictly_positive};
use vstd::seq_lib::group_to_multiset_ensures;

/// The product of a sequence of integers.
spec fn seq_prod(s: Seq<int>) -> int
    decreases s.len(),
{
    if s.len() == 0 {
        1
    } else {
        seq_prod(s.drop_last()) * s.last()
    }
}

/// Removing an element factors it out of the product.
proof fn lemma_seq_prod_remove(s: Seq<int>, i: int)
    requires
        0 <= i < s.len(),
    ensures
        seq_prod(s) == s[i] * seq_prod(s.remove(i)),
    decreases s.len(),
{
    if i == s.len() - 1 {
        assert(s.remove(i) =~= s.drop_last());
        lemma_mul_is_commutative(seq_prod(s.drop_last()), s.last());
    } else {
        let s0 = s.drop_last();
        lemma_seq_prod_remove(s0, i);
        assert(s.remove(i).drop_last() =~= s0.remove(i));
        assert(s.remove(i).last() == s.last());
        // seq_prod(s) == (s0[i] * seq_prod(s0.remove(i))) * s.last()
        //             == s[i] * (seq_prod(s0.remove(i)) * s.last())
        lemma_mul_is_associative(s[i], seq_prod(s0.remove(i)), s.last());
        assert(seq_prod(s.remove(i)) == seq_prod(s0.remove(i)) * s.last());
    }
}

/// Two sequences with the same multiset of elements have the same product.
proof fn lemma_seq_prod_multiset_eq(s1: Seq<int>, s2: Seq<int>)
    requires
        s1.to_multiset() == s2.to_multiset(),
    ensures
        seq_prod(s1) == seq_prod(s2),
    decreases s1.len(),
{
    broadcast use group_to_multiset_ensures;

    assert(s1.to_multiset().len() == s1.len());
    assert(s2.to_multiset().len() == s2.len());
    if s1.len() == 0 {
        assert(s2.len() == 0);
    } else {
        let x = s1.last();
        let i1 = s1.len() - 1;
        assert(s1.contains(x));
        assert(s2.to_multiset().count(x) > 0);
        assert(s2.contains(x));
        let j = choose|j: int| 0 <= j < s2.len() && s2[j] == x;
        assert(s1.remove(i1).to_multiset() =~= s1.to_multiset().remove(x));
        assert(s2.remove(j).to_multiset() =~= s2.to_multiset().remove(x));
        lemma_seq_prod_multiset_eq(s1.remove(i1), s2.remove(j));
        lemma_seq_prod_remove(s1, i1);
        lemma_seq_prod_remove(s2, j);
    }
}

/// Two duplicate-free sequences over the same set of elements carry the
/// same multiset.
proof fn lemma_no_dup_same_elements(s1: Seq<int>, s2: Seq<int>)
    requires
        s1.no_duplicates(),
        s2.no_duplicates(),
        forall|x: int| s1.contains(x) <==> s2.contains(x),
    ensures
        s1.to_multiset() =~= s2.to_multiset(),
{
    broadcast use group_to_multiset_ensures;

    s1.lemma_multiset_has_no_duplicates();
    s2.lemma_multiset_has_no_duplicates();
    assert forall|x: int| s1.to_multiset().count(x) == s2.to_multiset().count(x) by {
        if s1.contains(x) {
            assert(s1.to_multiset().count(x) == 1);
            assert(s2.to_multiset().count(x) == 1);
        } else {
            assert(s1.to_multiset().count(x) == 0);
            assert(s2.to_multiset().count(x) == 0);
        }
    }
}

/// The integers `1` through `k`.
spec fn range_seq(k: nat) -> Seq<int> {
    Seq::new(k, |i: int| i + 1)
}

/// The residues of `a * 1, a * 2, ..., a * k` modulo `p`.
spec fn residue_seq(a: int, p: nat, k: nat) -> Seq<int> {
    Seq::new(k, |i: int| (a * (i + 1)) % (p as int))
}

/// A nonzero value strictly between `-p` and `p` has a nonzero residue.
proof fn lemma_small_nonzero_mod(p: nat, t: int)
    requires
        p >= 1,
        t != 0,
        -(p as int) < t < p,
    ensures
        t % (p as int) != 0,
{
    if t > 0 {
        lemma_small_mod(t as nat, p);
    } else {
        lemma_mod_multiples_vanish(1, t, p as int);
        lemma_small_mod((t + p) as nat, p);
    }
}

/// Each residue `(a * (i + 1)) % p` lies in `[1, p - 1]`: it cannot be 0
/// because `p` divides neither `a` nor `i + 1`.
proof fn lemma_residue_in_range(p: nat, a: int, i: int)
    requires
        is_prime_spec(p),
        a % (p as int) != 0,
        0 <= i < p - 1,
    ensures
        1 <= (a * (i + 1)) % (p as int) <= p - 1,
{
    lemma_mod_division_less_than_divisor(a * (i + 1), p as int);
    if (a * (i + 1)) % (p as int) == 0 {
        lemma_euclid_prime(p, a, i + 1);
        lemma_small_mod((i + 1) as nat, p);
    }
}

/// The residues of `a, 2a, ..., (p-1)a` are pairwise distinct modulo `p`.
proof fn lemma_residues_no_dup(p: nat, a: int)
    requires
        is_prime_spec(p),
        a % (p as int) != 0,
    ensures
        residue_seq(a, p, (p - 1) as nat).no_duplicates(),
{
    let s = residue_seq(a, p, (p - 1) as nat);
    assert forall|i: int, j: int| 0 <= i < s.len() && 0 <= j < s.len() && i != j implies s[i]
        != s[j] by {
        if s[i] == s[j] {
            lemma_mod_equivalence(a * (i + 1), a * (j + 1), p as int);
            assert(a * (i + 1) - a * (j + 1) == a * (i - j)) by {
                lemma_mul_is_distributive_sub(a, i + 1, j + 1);
            }
            lemma_euclid_prime(p, a, i - j);
            lemma_small_nonzero_mod(p, i - j);
        }
    }
}

/// The residues of `a, 2a, ..., (p-1)a` are exactly `1, ..., p-1` in some
/// order: multiplication by `a` permutes the nonzero residues.
proof fn lemma_residues_permute(p: nat, a: int)
    requires
        is_prime_spec(p),
        a % (p as int) != 0,
    ensures
        residue_seq(a, p, (p - 1) as nat).to_multiset() == range_seq((p - 1) as nat).to_multiset(),
{
    let pi = p as int;
    let k = (p - 1) as nat;
    let res = residue_seq(a, p, k);
    let rng = range_seq(k);
    lemma_residues_no_dup(p, a);
    assert(rng.no_duplicates());
    // an inverse of a modulo p, from Bezout's identity
    let r0 = a % pi;
    lemma_mod_division_less_than_divisor(a, pi);
    lemma_small_mod(r0 as nat, p);
    lemma_prime_coprime(p, r0 as nat);
    lemma_bezout(p, r0 as nat);
    let (s, t) = choose|s: int, t: int| #[trigger] bezout_pair(p, r0 as nat, s, t);
    assert(pi * s + r0 * t == 1);
    assert forall|x: int| res.contains(x) <==> rng.contains(x) by {
        if res.contains(x) {
            let i = choose|i: int| 0 <= i < res.len() && res[i] == x;
            lemma_residue_in_range(p, a, i);
            assert(rng[x - 1] == x);
            assert(rng.contains(x));
        }
        if rng.contains(x) {
            let v = x;
            assert(1 <= v <= p - 1);
            let u = (t * v) % pi;
            lemma_mod_division_less_than_divisor(t * v, pi);
            // (a * u) % p == v, so index u - 1 of the residues holds v
            assert((a * u) % pi == v) by {
                lemma_mul_mod_noop_right(a, t * v, pi);
                assert((a * u) % pi == (a * (t * v)) % pi);
                lemma_mul_is_associative(a, t, v);
                assert(a * (t * v) == (a * t) * v);
                assert((a * t) % pi == 1) by {
                    lemma_mul_mod_noop_left(a, t, pi);
                    assert((r0 * t) % pi == 1int % pi) by {
                        assert(r0 * t == pi * (-s) + 1) by (nonlinear_arith)
                            requires
                                pi * s + r0 * t == 1,
                        ;
                        lemma_mod_multiples_vanish(-s, 1, pi);
                    }
                    lemma_small_mod(1, p);
                }
                lemma_mul_mod_noop_left(a * t, v, pi);
                assert((((a * t) % pi) * v) % pi == ((a * t) * v) % pi);
                assert((1 * v) % pi == v % pi);
                lemma_small_mod(v as nat, p);
            }
            if u == 0 {
                assert(a * 0 == 0);
                lemma_small_mod(0, p);
                assert(v == 0);
            }
            assert(res[u - 1] == v);
            assert(res.contains(v));
        }
    }
    lemma_no_dup_same_elements(res, rng);
}

/// The product of the residues equals `a^k` times the product of
/// `1, ..., k`, modulo `p`.
proof fn lemma_prod_residues(p: nat, a: int, k: nat)
    requires
        p >= 2,
    ensures
        seq_prod(residue_seq(a, p, k)) % (p as int) == (pow(a, k) * seq_prod(range_seq(k))) % (
        p as int),
    decreases k,
{
    let pi = p as int;
    if k == 0 {
        lemma_pow0(a);
    } else {
        let km1 = (k - 1) as nat;
        lemma_prod_residues(p, a, km1);
        let resk = residue_seq(a, p, k);
        let rngk = range_seq(k);
        assert(resk.drop_last() =~= residue_seq(a, p, km1));
        assert(rngk.drop_last() =~= range_seq(km1));
        let pr = seq_prod(residue_seq(a, p, km1));
        let rr = seq_prod(range_seq(km1));
        let last = (a * (k as int)) % pi;
        assert(seq_prod(resk) == pr * last);
        assert(seq_prod(rngk) == rr * (k as int));
        assert(pow(a, k) == a * pow(a, km1)) by {
            lemma_pow1(a);
            lemma_pow_adds(a, 1, km1);
        }
        calc! {
            (==)
            (pr * last) % pi; {
                lemma_mul_mod_noop_general(pr, a * (k as int), pi);
            }
            ((pr % pi) * ((a * (k as int)) % pi)) % pi; {
                lemma_mul_mod_noop_general(pow(a, km1) * rr, a * (k as int), pi);
            }
            ((pow(a, km1) * rr) * (a * (k as int))) % pi; {
                assert((pow(a, km1) * rr) * (a * (k as int)) == (a * pow(a, km1)) * (rr * (
                k as int))) by (nonlinear_arith);
            }
            ((a * pow(a, km1)) * (rr * (k as int))) % pi; {}
            (pow(a, k) * seq_prod(rngk)) % pi;
        }
    }
}

/// `p` does not divide `k!` for `k` below `p`: none of the factors is a
/// multiple of `p`, so by Euclid's lemma neither is the product.
proof fn lemma_prod_range_not_divisible(p: nat, k: nat)
    requires
        is_prime_spec(p),
        k <= p - 1,
    ensures
        seq_prod(range_seq(k)) % (p as int) != 0,
    decreases k,
{
    let pi = p as int;
    if k == 0 {
        lemma_small_mod(1, p);
    } else {
        let km1 = (k - 1) as nat;
        lemma_prod_range_not_divisible(p, km1);
        let rr = seq_prod(range_seq(km1));
        assert(range_seq(k).drop_last() =~= range_seq(km1));
        assert(seq_prod(range_seq(k)) == rr * (k as int));
        if (rr * (k as int)) % pi == 0 {
            lemma_euclid_prime(p, rr, k as int);
            lemma_small_mod(k, p);
        }
    }
}

/// Fermat's little theorem: for a prime `p` and any `a` it does not
/// divide, `a^(p-1)` is 1 modulo `p`.
pub proof fn lemma_fermat_little(p: nat, a: int)
    requires
        is_prime_spec(p),
        a % (p as int) != 0,
    ensures
        pow(a, (p - 1) as nat) % (p as int) == 1,
{
    let pi = p as int;
    let k = (p - 1) as nat;
    let res = residue_seq(a, p, k);
    let rng = range_seq(k);
    let f = seq_prod(rng);
    let x = pow(a, k);
    lemma_residues_permute(p, a);
    lemma_seq_prod_multiset_eq(res, rng);
    lemma_prod_residues(p, a, k);
    assert(f % pi == (x * f) % pi);
    lemma_prod_range_not_divisible(p, k);
    lemma_mod_equivalence(x * f, f, pi);
    assert(x * f - f == (x - 1) * f) by {
        lemma_mul_is_distributive_sub_other_way(f, x, 1);
    }
    assert((f * (x - 1)) % pi == 0) by {
        lemma_mul_is_commutative(f, x - 1);
    }
    lemma_euclid_prime(p, f, x - 1);
    lemma_mod_equivalence(x, 1, pi);
    lemma_small_mod(1, p);
}

/// A power of a value outside the prime's residue class zero is itself
/// outside it: `p` never divides `a^e` when it does not divide `a`.
proof fn lemma_pow_nonzero_mod_prime(p: nat, a: int, e: nat)
    requires
        is_prime_spec(p),
        a % (p as int) != 0,
    ensures
        pow(a, e) % (p as int) != 0,
    decreases e,
{
    let pi = p as int;
    if e == 0 {
        lemma_pow0(a);
        lemma_small_mod(1, p);
    } else {
        lemma_pow_nonzero_mod_prime(p, a, (e - 1) as nat);
        assert(pow(a, e) == a * pow(a, (e - 1) as nat)) by {
            lemma_pow1(a);
            lemma_pow_adds(a, 1, (e - 1) as nat);
        }
        if pow(a, e) % pi == 0 {
            lemma_euclid_prime(p, a, pow(a, (e - 1) as nat));
        }
    }
}

/// Modulo a prime, the only square roots of 1 are 1 and `p - 1`.
proof fn lemma_sqrt_of_one(p: nat, x: int)
    requires
        is_prime_spec(p),
        0 <= x < p,
        (x * x) % (p as int) == 1,
    ensures
        x == 1 || x == p - 1,
{
    let pi = p as int;
    lemma_small_mod(1, p);
    lemma_mod_equivalence(x * x, 1, pi);
    assert(x * x - 1 == (x - 1) * (x + 1)) by (nonlinear_arith);
    if (x - 1) % pi != 0 {
        lemma_euclid_prime(p, x - 1, x + 1);
        // x + 1 is in (0, p], so divisibility forces x + 1 == p
        if x + 1 < p {
            lemma_small_nonzero_mod(p, x + 1);
        }
    } else {
        // x - 1 is in (-p, p), so divisibility forces x - 1 == 0
        if x != 1 {
            lemma_small_nonzero_mod(p, x - 1);
        }
    }
}

/// The odd part really is an odd divisor: `d == odd_part(d) * 2^s` for
/// some `s`, with `odd_part(d)` odd and positive.
proof fn lemma_odd_part_decomposition(d: nat)
    requires
        d >= 1,
    ensures
        odd_part(d) >= 1,
        odd_part(d) % 2 == 1,
        exists|s: nat| d == odd_part(d) * #[trigger] pow(2, s),
    decreases d,
{
    if d % 2 == 0 {
        lemma_odd_part_decomposition(d / 2);
        let s0 = choose|s0: nat| d / 2 == odd_part(d / 2) * #[trigger] pow(2, s0);
        assert(pow(2, s0 + 1) == 2 * pow(2, s0)) by {
            lemma_pow1(2);
            lemma_pow_adds(2, 1, s0);
        }
        assert(d == odd_part(d) * pow(2, s0 + 1)) by (nonlinear_arith)
            requires
                d % 2 == 0,
                d / 2 == odd_part(d / 2) * pow(2, s0),
                odd_part(d) == odd_part(d / 2),
                pow(2, s0 + 1) == 2 * pow(2, s0),
        ;
    } else {
        lemma_pow0(2);
        assert(d == odd_part(d) * pow(2, 0));
    }
}

/// From a state the square chain can actually reach on a prime input --
/// the current residue is `a^d`, the exponent still has doublings left
/// before reaching `p - 1`, and the residue is not yet 1 or `p - 1` --
/// the chain always accepts: squaring must pass through `p - 1` before it
/// can reach 1.
proof fn lemma_square_chain_accepts(p: nat, a: int, d: nat, s: nat, x: int)
    requires
        is_prime_spec(p),
        p <= u64::MAX,
        a % (p as int) != 0,
        d >= 1,
        s >= 1,
        d * pow(2, s) == p - 1,
        x == pow(a, d) % (p as int),
        x != 1,
        x != p - 1,
    ensures
        crate::utility::mr_square_chain(d as int, x, p as int),
    decreases s,
{
    let pi = p as int;
    lemma_pow_positive(2, s);
    assert(pow(2, s) >= 2) by {
        lemma_pow1(2);
        lemma_pow_increases(2, 1, s);
    }
    assert(2 * d <= p - 1) by (nonlinear_arith)
        requires
            d * pow(2, s) == p - 1,
            pow(2, s) >= 2,
            d >= 1,
    ;
    lemma_pow_nonzero_mod_prime(p, a, d);
    lemma_mod_division_less_than_divisor(pow(a, d), pi);
    // the next residue in the chain is a^(2d) mod p
    let x2 = pow(x, 2) % pi;
    assert(x2 == pow(a, 2 * d) % pi) by {
        lemma_pow_mod_noop(pow(a, d), 2, pi);
        lemma_pow_multiplies(a, d, 2);
        assert(d * 2 == 2 * d);
    }
    assert(pow(x, 2) == x * x) by {
        lemma_pow1(x);
        lemma_pow_adds(x, 1, 1);
    }
    lemma_mod_division_less_than_divisor(pow(x, 2), pi);
    if x2 == 1 {
        // impossible: x would be a nontrivial square root of 1
        lemma_sqrt_of_one(p, x);
    } else if x2 == pi - 1 {
        // the chain accepts right here
    } else {
        if s == 1 {
            // impossible: a^(2d) == a^(p-1) is 1 by Fermat's little theorem
            assert(pow(2, 1) == 2) by {
                lemma_pow1(2);
            }
            lemma_fermat_little(p, a);
        } else {
            assert(2 * d * pow(2, (s - 1) as nat) == p - 1) by {
                lemma_pow1(2);
                lemma_pow_adds(2, 1, (s - 1) as nat);
                assert(pow(2, s) == 2 * pow(2, (s - 1) as nat));
                assert(d * (2 * pow(2, (s - 1) as nat)) == (2 * d) * pow(2, (s - 1) as nat))
                    by (nonlinear_arith);
            }
            lemma_square_chain_accepts(p, a, 2 * d, (s - 1) as nat, x2);
        }
    }
}

/// One witness round of the probabilistic test accepts every odd prime of
/// at least 5: the witness is nonzero modulo the prime, so its powers
/// cycle as Fermat's little theorem says.
proof fn lemma_mr_round_accepts_prime(num: u64, g: u64)
    requires
        is_prime_spec(num as nat),
        num >= 5,
        num % 2 != 0,
        g < 10,
    ensures
        crate::utility::mr_round_passes(odd_part((num - 1) as nat) as u64, num, g),
{
    let p = num as nat;
    let pi = num as int;
    let q = pi / 15;
    let a = crate::utility::mr_witness(num, g);
    assert(2 <= a < pi) by {
        lemma_fundamental_div_mod(pi, 15);
        vstd::arithmetic::div_mod::lemma_div_pos_is_pos(pi, 15);
        assert(q * (g as int + 1) <= q * 10) by (nonlinear_arith)
            requires
                q >= 0,
                0 <= g < 10,
        ;
        assert(q * (g as int + 1) >= 0) by (nonlinear_arith)
            requires
                q >= 0,
                g as int + 1 >= 0,
        ;
    }
    assert(a % pi != 0) by {
        lemma_small_mod(a as nat, p);
    }
    lemma_odd_part_decomposition((num - 1) as nat);
    let d = odd_part((num - 1) as nat);
    let s = choose|s: nat| (num - 1) as nat == d * #[trigger] pow(2, s);
    assert(s >= 1) by {
        if s == 0 {
            lemma_pow0(2);
            assert((num - 1) as nat == d * 1);
        }
    }
    lemma_pow_positive(2, s);
    assert(d <= num - 1) by (nonlinear_arith)
        requires
            num >= 5,
            (num - 1) as nat == d * pow(2, s),
            pow(2, s) >= 1,
            d >= 1,
    ;
    let x0 = pow(a, d) % pi;
    lemma_mod_division_less_than_divisor(pow(a, d), pi);
    if x0 != 1 && x0 != pi - 1 {
        lemma_square_chain_accepts(p, a, d, s, x0);
    }
}

/// The probabilistic primality test never rejects a prime: trial-division
/// primality implies acceptance by every witness round.  (The converse
/// cannot be a theorem; a probabilistic test may accept a composite.)
pub proof fn lemma_probable_test_accepts_primes(num: u64)
    requires
        is_prime_spec(num as nat),
    ensures
        crate::utility::mr_prime(num),
{
    if num < 5 {
        assert((num as nat) % 2nat != 0 || num <= 3);
        assert(num == 2 || num == 3);
    } else {
        assert(num % 2 != 0 && num % 3 != 0) by {
            assert(2 <= 2nat < num as nat && 2 <= 3nat < num as nat);
            assert((num as nat) % 2nat != 0 && (num as nat) % 3nat != 0);
        }
        assert forall|g: u64| g < 10 implies #[trigger] crate::utility::mr_round_passes(
            odd_part((num - 1) as nat) as u64,
            num,
            g,
        ) by {
            lemma_mr_round_accepts_prime(num, g);
        }
    }
}

/// Raising to a power of the form `(p-1)*t + 1` fixes every residue
/// modulo the prime `p`: the multiples of `p` stay zero, and everything
/// else cycles by Fermat's little theorem.
proof fn lemma_pow_cycle_mod_prime(p: nat, m: int, ed: nat, t: nat)
    requires
        is_prime_spec(p),
        ed == (p - 1) * t + 1,
    ensures
        pow(m, ed) % (p as int) == m % (p as int),
{
    let pi = p as int;
    lemma_pow_mod_noop(m, ed, pi);
    if m % pi == 0 {
        lemma0_pow(ed);
        assert(pow(0, ed) == 0);
        lemma_small_mod(0, p);
        assert(pow(m, ed) % pi == pow(m % pi, ed) % pi);
    } else {
        lemma_fermat_little(p, m);
        let body = (p - 1) as nat * t;
        lemma_pow_adds(m, 1, body);
        assert(pow(m, ed) == pow(m, 1) * pow(m, body));
        lemma_pow1(m);
        lemma_pow_multiplies(m, (p - 1) as nat, t);
        assert(pow(m, body) == pow(pow(m, (p - 1) as nat), t));
        assert(pow(pow(m, (p - 1) as nat), t) % pi == 1) by {
            lemma_pow_mod_noop(pow(m, (p - 1) as nat), t, pi);
            lemma1_pow(t);
            lemma_small_mod(1, p);
        }
        calc! {
            (==)
            pow(m, ed) % pi; {}
            (m * pow(pow(m, (p - 1) as nat), t)) % pi; {
                lemma_mul_mod_noop_general(m, pow(pow(m, (p - 1) as nat), t), pi);
            }
            ((m % pi) * (pow(pow(m, (p - 1) as nat), t) % pi)) % pi; {}
            ((m % pi) * 1) % pi; {
                lemma_mod_twice(m, pi);
            }
            m % pi;
        }
    }
}

/// One message element survives encrypt-then-decrypt: with distinct primes
/// `p` and `q`, exponents that are inverses modulo the totient, and a
/// message below the modulus, `(m^e mod n)^d mod n == m`.
proof fn lemma_element_round_trip(p: nat, q: nat, e: nat, d: nat, m: int)
    requires
        is_prime_spec(p),
        is_prime_spec(q),
        p != q,
        (e * d) as int % (((p - 1) * (q - 1)) as int) == 1,
        0 <= m < p * q,
    ensures
        pow(pow(m, e) % ((p * q) as int), d) % ((p * q) as int) == m,
{
    let n = (p * q) as int;
    let phi = ((p - 1) * (q - 1)) as nat;
    let ed = e * d;
    lemma_mul_strictly_positive((p - 1) as int, (q - 1) as int);
    lemma_mul_strictly_positive(p as int, q as int);
    // ed == phi * k + 1 for the nonnegative quotient k
    assert(ed >= 1) by {
        if ed == 0 {
            lemma_small_mod(0, phi);
        }
    }
    let k = (ed as int / phi as int) as nat;
    lemma_fundamental_div_mod(ed as int, phi as int);
    vstd::arithmetic::div_mod::lemma_div_pos_is_pos(ed as int, phi as int);
    assert(ed == phi * k + 1);
    // collapse the two outer powers into m^(e*d)
    lemma_pow_mod_noop(pow(m, e), d, n);
    lemma_pow_multiplies(m, e, d);
    assert(pow(pow(m, e) % n, d) % n == pow(m, ed) % n);
    // modulo p and modulo q separately, m^(e*d) is congruent to m
    let x = pow(m, ed);
    assert(x % (p as int) == m % (p as int)) by {
        assert(phi * k == (p - 1) * ((q - 1) * k)) by {
            lemma_mul_is_associative((p - 1) as int, (q - 1) as int, k as int);
        }
        lemma_pow_cycle_mod_prime(p, m, ed, ((q - 1) * k) as nat);
    }
    assert(x % (q as int) == m % (q as int)) by {
        assert(phi * k == (q - 1) * ((p - 1) * k)) by (nonlinear_arith)
            requires
                phi == ((p - 1) * (q - 1)) as nat,
                p >= 2,
                q >= 2,
        ;
        lemma_pow_cycle_mod_prime(q, m, ed, ((p - 1) * k) as nat);
    }
    // so p*q divides x - m, and both sides are below the modulus
    lemma_mod_equivalence(x, m, p as int);
    lemma_mod_equivalence(x, m, q as int);
    lemma_distinct_primes_coprime(p, q);
    lemma_coprime_divides_product(p, q, x - m);
    lemma_mod_equivalence(x, m, n);
    lemma_small_mod(m as nat, (p * q) as nat);
}

/// The round-trip law of the block cipher: for a valid key with distinct
/// primes and any message of elements below the modulus, encrypting with
/// `e` and then decrypting with `d` restores the message exactly,
/// element for element.
pub proof fn lemma_cipher_round_trip(key: RSAInfo, msg: Seq<u64>)
    requires
        key.valid(),
        key.p != key.q,
        forall|i: int| 0 <= i < msg.len() ==> msg[i] < key.n,
    ensures
        transform_spec(transform_spec(msg, key.e, key.n), key.d, key.n) == msg,
{
    let n = key.n as int;
    let inner = transform_spec(msg, key.e, key.n);
    let outer = transform_spec(inner, key.d, key.n);
    assert(n >= 4) by (nonlinear_arith)
        requires
            n == key.p * key.q,
            key.p >= 2,
            key.q >= 2,
    ;
    assert forall|i: int| 0 <= i < msg.len() implies outer[i] == msg[i] by {
        let m = msg[i] as int;
        let c = pow(m, key.e as nat) % n;
        vstd::arithmetic::div_mod::lemma_mod_bound(pow(m, key.e as nat), n);
        assert(inner[i] == c as u64);
        lemma_element_round_trip(
            key.p as nat,
            key.q as nat,
            key.e as nat,
            key.d as nat,
            m,
        );
        assert(pow(c, key.d as nat) % n == m);
        vstd::arithmetic::div_mod::lemma_mod_bound(pow(c, key.d as nat), n);
    }
    assert(outer =~= msg);
}

} // verus!
