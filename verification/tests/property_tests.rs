use rsaencryptiontutorial::encryption_process;
use rsaencryptiontutorial::modded_exponent;
use rsaencryptiontutorial::getbytes;
use rsaencryptiontutorial::get_integers;
use rsaencryptiontutorial::pad_the_bytes;
use rsaencryptiontutorial::depad_the_bytes;
use rsaencryptiontutorial::structures::RSAInfo;
use rsaencryptiontutorial::utility::find_prime_in_range;
use rsaencryptiontutorial::utility::get_a_coprime;
use rsaencryptiontutorial::utility::get_d;
use rsaencryptiontutorial::utility::is_prime;
use rsaencryptiontutorial::utility::is_prime_miller_rabine;

// A full round trip on the classic small key (p=61, q=53): encrypting with
// e and decrypting with d restores every element below the modulus.
#[test]
fn round_trip_small_key() {
    let mut r = RSAInfo::new();
    r.set_p(61);
    r.set_q(53);
    r.set_n(3233);
    r.set_phi(3120);
    r.set_e(17);
    r.set_d(2753);

    let plain: Vec<u64> = vec![0, 1, 2, 65, 123, 3232, 1600, 999];
    let cipher = encryption_process(plain.clone(), r.get_e(), r.get_n());
    assert_ne!(plain, cipher);
    let back = encryption_process(cipher, r.get_d(), r.get_n());
    assert_eq!(plain, back);
}

// The documented conventions at the edges of modular exponentiation.
#[test]
fn modexp_edge_cases() {
    assert_eq!(modded_exponent(5, 0, 7), 1);
    assert_eq!(modded_exponent(0, 5, 7), 0);
    assert_eq!(modded_exponent(10, 10, 1), 0);
    assert_eq!(modded_exponent(2, 10, 1025), 1024);
    assert_eq!(modded_exponent(u64::MAX, 2, u64::MAX), 0);
}

// An empty message passes through the cipher unchanged.
#[test]
fn empty_message_transforms_to_empty() {
    let out = encryption_process(Vec::new(), 17, 3233);
    assert!(out.is_empty());
}

// The modular inverse law: after derivation, (e * d) mod phi == 1.
#[test]
fn modular_inverse_law_concrete() {
    let mut r = RSAInfo::new();
    r.set_p(50000000021u64);
    r.set_q(368934871u64);
    r.set_phi(18446743507378697400u64);
    r.set_e(927438937u64);

    get_d(&mut r);

    let e = r.get_e() as u128;
    let d = r.get_d() as u128;
    let phi = r.get_phi() as u128;
    assert_eq!((e * d) % phi, 1);
    assert!(r.get_d() < r.get_phi());
}

// Trial division is exact on the small cases, including the perfect
// squares that a sloppy square-root bound would misclassify.
#[test]
fn trial_division_small_cases() {
    assert!(!is_prime(0));
    assert!(!is_prime(1));
    assert!(is_prime(2));
    assert!(is_prime(3));
    assert!(!is_prime(4));
    assert!(is_prime(5));
    assert!(!is_prime(25));
    assert!(!is_prime(49));
    assert!(is_prime(97));
    assert!(!is_prime(561));
}

// The probabilistic test agrees with trial division on a sample of primes
// and composites across magnitudes.
#[test]
fn primality_agreement_sample() {
    let sample: [u64; 10] = [2, 3, 4, 5, 25, 91, 97, 561, 8865838643, 29999388238928890];
    for n in sample {
        assert_eq!(is_prime_miller_rabine(n), is_prime(n));
    }
}

// A search over a nonempty range returns a value inside the bounds that
// the oracle accepts, honoring the scan direction; an empty-of-primes
// range yields the sentinel 0.
#[test]
fn search_validity_and_direction() {
    let up = find_prime_in_range(0, 100, false);
    assert_eq!(up, 2);
    let down = find_prime_in_range(0, 100, true);
    assert_eq!(down, 97);
    assert!(is_prime(up) && is_prime(down));
    assert_eq!(find_prime_in_range(0, 1, true), 0);
    assert_eq!(find_prime_in_range(24, 28, false), 0);
}

// The byte codec round-trips: splitting words into bytes and reassembling
// them restores the original words.
#[test]
fn byte_codec_round_trip() {
    let words: Vec<u64> = vec![0, 1, u64::MAX, 3997727616149995764];
    let bytes = getbytes(words.clone());
    assert_eq!(bytes.len(), 8 * words.len());
    let back = get_integers(&bytes);
    assert_eq!(words, back);
}

// Padding of an empty message stays empty, and depadding it stays empty.
#[test]
fn padding_empty_message() {
    let padded = pad_the_bytes(Vec::new());
    assert!(padded.is_empty());
    let depadded = depad_the_bytes(Vec::new());
    assert!(depadded.is_empty());
}

// Padding a single byte fills the block with zeros, and depadding strips
// them again.
#[test]
fn padding_single_byte() {
    let padded = pad_the_bytes(vec![9]);
    assert_eq!(padded, vec![9, 0, 0, 0, 0, 0, 0, 0]);
    assert_eq!(depad_the_bytes(padded), vec![9]);
}

// The exponent search falls back to scanning up from 3 when nothing at or
// above the hint works.
#[test]
fn coprime_search_fallback_range() {
    let g = get_a_coprime(10, 7);
    assert_eq!(g, 3);
}
