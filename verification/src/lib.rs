//! Textbook RSA over 64-bit blocks: key derivation from a prime search,
//! modular exponentiation, and a block cipher that applies it to a message.
use vstd::calc;
use vstd::prelude::*;

pub mod fermat;
pub mod number_theory;
pub mod structures;
pub mod utility;

verus! {

use vstd::arithmetic::power::pow;
use vstd::arithmetic::power::{lemma_pow0, lemma_pow1, lemma_pow_adds, lemma_pow_multiplies,
    lemma_pow_mod_noop};
use vstd::arithmetic::div_mod::{lemma_mul_mod_noop_general, lemma_small_mod,
    lemma_mod_division_less_than_divisor};
use vstd::bytes::{spec_u64_to_le_bytes, spec_u64_from_le_bytes, u64_to_le_bytes, u64_from_le_bytes};
use vstd::slice::{slice_subrange, slice_to_vec};
use vstd::string::StringSliceAdditionalSpecFns;

/// Modular exponentiation by square-and-multiply, with 128-bit intermediates
/// so that no multiplication of two residues can overflow.
///
/// An exponent of zero yields `1 % modulus`, the usual convention for
/// `base^0`; a base of zero yields zero for any positive exponent.
pub fn modded_exponent(base: u64, exp: u64, modulus: u64) -> (r: u64)
    requires
        modulus > 0,
    ensures
        r == pow(base as int, exp as nat) % (modulus as int),
        r < modulus,
{
    let m: u128 = modulus as u128;
    let mut result: u128 = 1 % m;
    let mut b: u128 = (base as u128) % m;
    let mut e: u64 = exp;
    proof {
        lemma_pow0(base as int);
        lemma_pow_mod_noop(base as int, exp as nat, m as int);
        lemma_mul_mod_noop_general(1, pow(b as int, e as nat), m as int);
    }
    while e > 0
        invariant
            m == modulus as u128,
            0 < m <= u64::MAX,
            b < m,
            result < m,
            (result * pow(b as int, e as nat)) % (m as int) == pow(base as int, exp as nat) % (
            m as int),
        decreases e,
    {
        proof {
            lemma_square_multiply_step(result as int, b as int, e as nat, m as int);
            assert(result * b < m * m && b * b < m * m) by (nonlinear_arith)
                requires
                    result < m,
                    b < m,
                    m > 0,
            ;
            assert(m * m <= u128::MAX) by (nonlinear_arith)
                requires
                    m <= u64::MAX,
            ;
        }
        if e % 2 == 1 {
            result = (result * b) % m;
        }
        e = e / 2;
        b = (b * b) % m;
    }
    proof {
        lemma_pow0(b as int);
        assert(result * 1 == result);
        lemma_mod_division_less_than_divisor(result as int, m as int);
        lemma_small_mod(result as nat, m as nat);
    }
    result as u64
}

/// One step of the square-and-multiply loop preserves the invariant
/// `(result * b^e) % m`: folding the low bit of `e` into `result` and
/// squaring `b` leaves the tracked product unchanged modulo `m`.
proof fn lemma_square_multiply_step(result: int, b: int, e: nat, m: int)
    requires
        m > 0,
        e > 0,
        0 <= result < m,
        0 <= b < m,
    ensures
        e % 2 == 1 ==> (((result * b) % m) * pow((b * b) % m, (e / 2) as nat)) % m == (result * pow(
            b,
            e,
        )) % m,
        e % 2 == 0 ==> (result * pow((b * b) % m, (e / 2) as nat)) % m == (result * pow(b, e)) % m,
{
    let half = (e / 2) as nat;
    // b^e == b^(e%2) * (b*b)^(e/2)
    assert(pow(b * b, half) == pow(b, 2 * half)) by {
        lemma_pow1(b);
        lemma_pow_adds(b, 1, 1);
        assert(pow(b, 2) == b * b);
        lemma_pow_multiplies(b, 2, half);
    }
    assert(e == 2 * half + e % 2);
    lemma_pow_adds(b, (e % 2) as nat, 2 * half);
    assert(pow(b, e) == pow(b, (e % 2) as nat) * pow(b * b, half));
    // replacing b*b by (b*b) % m inside pow does not change the value mod m
    lemma_pow_mod_noop(b * b, half, m);
    if e % 2 == 1 {
        lemma_pow1(b);
        assert(pow(b, e) == b * pow(b * b, half));
        calc! {
            (==)
            (((result * b) % m) * pow((b * b) % m, half)) % m; {
                lemma_mul_mod_noop_general(result * b, pow((b * b) % m, half), m);
            }
            ((result * b) * (pow((b * b) % m, half) % m)) % m; {}
            ((result * b) * (pow(b * b, half) % m)) % m; {
                lemma_mul_mod_noop_general(result * b, pow(b * b, half), m);
            }
            ((result * b) * pow(b * b, half)) % m; {
                vstd::arithmetic::mul::lemma_mul_is_associative(
                    result,
                    b,
                    pow(b * b, half),
                );
            }
            (result * (b * pow(b * b, half))) % m; {}
            (result * pow(b, e)) % m;
        }
    } else {
        lemma_pow0(b);
        assert(pow(b, e) == pow(b * b, half));
        calc! {
            (==)
            (result * pow((b * b) % m, half)) % m; {
                lemma_mul_mod_noop_general(result, pow((b * b) % m, half), m);
            }
            (result * (pow((b * b) % m, half) % m)) % m; {}
            (result * (pow(b * b, half) % m)) % m; {
                lemma_mul_mod_noop_general(result, pow(b * b, half), m);
            }
            (result * pow(b * b, half)) % m; {}
            (result * pow(b, e)) % m;
        }
    }
}

/// What the block cipher does to a message: each element independently
/// replaced by its modular power, order untouched.
pub open spec fn transform_spec(msg: Seq<u64>, exp: u64, modulus: u64) -> Seq<u64> {
    Seq::new(msg.len(), |i: int| (pow(msg[i] as int, exp as nat) % (modulus as int)) as u64)
}

/// The block cipher: raises every element of the message to `exp` modulo
/// `modulus`.  The same function encrypts and decrypts; only the exponent
/// differs.  Each output element keeps the index of its input element, so
/// the output order is exactly the input order.
pub fn encryption_process(message: Vec<u64>, exp: u64, modulus: u64) -> (r: Vec<u64>)
    requires
        modulus > 0,
    ensures
        r@.len() == message@.len(),
        forall|i: int|
            0 <= i < message@.len() ==> r@[i] == pow(message@[i] as int, exp as nat) % (
            modulus as int),
        r@ == transform_spec(message@, exp, modulus),
{
    let mut result: Vec<u64> = Vec::new();
    let mut place: usize = 0;
    while place < message.len()
        invariant
            modulus > 0,
            place <= message.len(),
            result@.len() == place,
            forall|i: int|
                0 <= i < place ==> result@[i] == pow(message@[i] as int, exp as nat) % (
                modulus as int),
        decreases message.len() - place,
    {
        let transformed = modded_exponent(message[place], exp, modulus);
        result.push(transformed);
        place = place + 1;
    }
    proof {
        assert(result@ =~= transform_spec(message@, exp, modulus));
    }
    result
}

/// Flattens a vector of 64-bit words into their little-endian bytes, eight
/// per word, in order.
pub fn getbytes(input: Vec<u64>) -> (r: Vec<u8>)
    ensures
        r@.len() == 8 * input@.len(),
        forall|i: int|
            0 <= i < input@.len() ==> r@.subrange(8 * i, 8 * i + 8) == spec_u64_to_le_bytes(
                input@[i],
            ),
{
    let mut result: Vec<u8> = Vec::new();
    let mut idx: usize = 0;
    while idx < input.len()
        invariant
            idx <= input.len(),
            result@.len() == 8 * idx,
            forall|i: int|
                0 <= i < idx ==> #[trigger] result@.subrange(8 * i, 8 * i + 8)
                    == spec_u64_to_le_bytes(input@[i]),
        decreases input.len() - idx,
    {
        let ghost prefix = result@;
        let mut temp = u64_to_le_bytes(input[idx]);
        let ghost word_bytes = temp@;
        result.append(&mut temp);
        proof {
            assert forall|i: int| 0 <= i < idx + 1 implies #[trigger] result@.subrange(
                8 * i,
                8 * i + 8,
            ) == spec_u64_to_le_bytes(input@[i]) by {
                if i < idx {
                    assert(result@.subrange(8 * i, 8 * i + 8) =~= prefix.subrange(
                        8 * i,
                        8 * i + 8,
                    ));
                } else {
                    assert(result@.subrange(8 * i, 8 * i + 8) =~= word_bytes);
                }
            }
        }
        idx = idx + 1;
    }
    result
}

/// Rebuilds 64-bit words from little-endian bytes, one word per full group
/// of eight; a trailing group shorter than eight bytes is dropped, as is
/// anything after it.
pub fn get_integers(message: &[u8]) -> (r: Vec<u64>)
    requires
        message@.len() >= 8,
    ensures
        r@.len() == message@.len() / 8,
        forall|i: int|
            0 <= i < r@.len() ==> r@[i] == spec_u64_from_le_bytes(
                message@.subrange(8 * i, 8 * i + 8),
            ),
{
    let mut list: Vec<u64> = Vec::new();
    let mlen = message.len();
    let total = mlen / 8;
    let mut k: usize = 0;
    while k < total
        invariant
            k <= total,
            mlen == message@.len(),
            total == message@.len() / 8,
            8 * (total as int) <= message@.len(),
            list@.len() == k,
            forall|i: int|
                0 <= i < k ==> list@[i] == spec_u64_from_le_bytes(
                    message@.subrange(8 * i, 8 * i + 8),
                ),
        decreases total - k,
    {
        proof {
            assert(8 * (k as int) + 8 <= 8 * (total as int));
        }
        let eight = slice_subrange(message, 8 * k, 8 * k + 8);
        let word = u64_from_le_bytes(eight);
        list.push(word);
        k = k + 1;
    }
    list
}

/// The length of a message once a filler byte has been inserted before
/// every eighth position: one filler for each full group of seven bytes
/// begun before the end.
pub open spec fn interleaved_len(n: int) -> int {
    if n == 0 {
        0
    } else {
        n + (n - 1) / 7
    }
}

/// The interleaved length rounded up to the next multiple of eight.
pub open spec fn padded_len(n: int) -> int {
    interleaved_len(n) + ((8 - interleaved_len(n) % 8) % 8)
}

/// Where byte `i` of the raw message lands after the filler bytes are
/// inserted.
pub open spec fn pad_pos(i: int) -> int {
    i + i / 7
}

/// Pads a message for the cipher: a low filler byte (the source index
/// modulo 4) before every eighth output position, then zero bytes until the
/// length is a multiple of eight, ready to become 64-bit words.
pub fn pad_the_bytes(rawbytes: Vec<u8>) -> (r: Vec<u8>)
    ensures
        r@.len() == padded_len(rawbytes@.len() as int),
        r@.len() % 8 == 0,
        forall|i: int| 0 <= i < rawbytes@.len() ==> r@[#[trigger] pad_pos(i)] == rawbytes@[i],
        forall|k: int|
            1 <= k && 7 * k < rawbytes@.len() ==> #[trigger] r@[8 * k - 1] == ((7 * k) % 4) as u8,
        forall|j: int| interleaved_len(rawbytes@.len() as int) <= j < r@.len() ==> r@[j] == 0,
{
    let n = rawbytes.len();
    let mut result: Vec<u8> = Vec::new();
    let mut i: usize = 0;
    while i < n
        invariant
            i <= n,
            n == rawbytes@.len(),
            result@.len() == interleaved_len(i as int),
            forall|t: int| 0 <= t < i ==> result@[#[trigger] pad_pos(t)] == rawbytes@[t],
            forall|k: int| 1 <= k && 7 * k < i ==> #[trigger] result@[8 * k - 1] == ((7 * k) % 4) as u8,
        decreases n - i,
    {
        if i != 0 && i % 7 == 0 {
            let byte: u8 = (i % 4) as u8;
            result.push(byte);
        }
        result.push(rawbytes[i]);
        i = i + 1;
    }
    while result.len() % 8 != 0
        invariant
            n == rawbytes@.len(),
            interleaved_len(n as int) <= result@.len() <= padded_len(n as int),
            forall|t: int| 0 <= t < n ==> result@[#[trigger] pad_pos(t)] == rawbytes@[t],
            forall|k: int| 1 <= k && 7 * k < n ==> #[trigger] result@[8 * k - 1] == ((7 * k) % 4) as u8,
            forall|j: int| interleaved_len(n as int) <= j < result@.len() ==> result@[j] == 0,
        decreases (8 - result@.len() % 8) % 8,
    {
        result.push(0);
    }
    result
}

/// The padded message with every eighth byte (the filler positions)
/// removed again; byte `j` of the result is byte `j + j / 7` of the input.
pub open spec fn depad_filtered(s: Seq<u8>) -> Seq<u8> {
    Seq::new((s.len() - s.len() / 8) as nat, |j: int| s[j + j / 7])
}

/// The sequence with every trailing zero byte removed.
pub open spec fn strip_trailing_zeros(s: Seq<u8>) -> Seq<u8>
    decreases s.len(),
{
    if s.len() > 0 && s[s.len() - 1] == 0 {
        strip_trailing_zeros(s.drop_last())
    } else {
        s
    }
}

/// Undoes [`pad_the_bytes`]: drops every eighth byte, then strips the
/// trailing zero bytes.  (Zero bytes at the end of the original message are
/// stripped with them, so the round trip is exact only for messages that do
/// not end in zero.)
pub fn depad_the_bytes(rawbytes: Vec<u8>) -> (r: Vec<u8>)
    ensures
        r@ == strip_trailing_zeros(depad_filtered(rawbytes@)),
{
    let mut result: Vec<u8> = Vec::new();
    let mut i: usize = 0;
    while i < rawbytes.len()
        invariant
            i <= rawbytes@.len(),
            result@.len() == i - i / 8,
            forall|j: int| 0 <= j < result@.len() ==> result@[j] == rawbytes@[j + j / 7],
        decreases rawbytes@.len() - i,
    {
        if i == 0 || (i + 1) % 8 != 0 {
            result.push(rawbytes[i]);
        }
        i = i + 1;
    }
    proof {
        assert(result@ =~= depad_filtered(rawbytes@));
    }
    while result.len() > 0 && result[result.len() - 1] == 0
        invariant
            strip_trailing_zeros(result@) == strip_trailing_zeros(depad_filtered(rawbytes@)),
        decreases result@.len(),
    {
        result.pop();
    }
    result
}

/// The bytes of a text in its in-memory encoding, ready for padding.
pub fn convert_raw_bytes(input: &str) -> (r: Vec<u8>)
    ensures
        r@ == input.spec_bytes(),
{
    let bytes = slice_to_vec(input.as_bytes());
    bytes
}

} // verus!
