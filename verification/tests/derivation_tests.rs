use rsaencryptiontutorial::structures::RSAInfo;
use rsaencryptiontutorial::utility::extended_gcd;
use rsaencryptiontutorial::utility::find_prime;
use rsaencryptiontutorial::utility::get_a_coprime;
use rsaencryptiontutorial::utility::get_d;
use rsaencryptiontutorial::utility::get_modulus;
use rsaencryptiontutorial::utility::get_phi;
use rsaencryptiontutorial::utility::is_coprime;
use rsaencryptiontutorial::utility::is_prime;
use rsaencryptiontutorial::utility::is_prime_miller_rabine;

#[test]
fn teststructure() {
    let mut r = RSAInfo::new();
    r.set_d(1u64);
    r.set_e(2u64);
    r.set_n(3u64);
    r.set_phi(4u64);
    r.set_p(5u64);
    r.set_q(6u64);
    assert_eq!(1u64, r.get_d());
    assert_eq!(2u64, r.get_e());
    assert_eq!(3u64, r.get_n());
    assert_eq!(4u64, r.get_phi());
    assert_eq!(5u64, r.get_p());
    assert_eq!(6u64, r.get_q());
}

#[test]
fn test_getmodulus() {
    let mut r = RSAInfo::new();

    r.set_p(50000000021u64);
    r.set_q(368934871u64);
    r.set_n(18446743557747632291u64);
    r.set_phi(18446743507378697400u64);
    r.set_e(927438937u64);
    r.set_d(18411267238725607273u64);

    get_modulus(&mut r);

    assert_eq!(18446743557747632291u64, r.get_n());
}

#[test]
fn test_getphi() {
    let mut r = RSAInfo::new();

    r.set_p(50000000021u64);
    r.set_q(368934871u64);
    r.set_n(18446743557747632291u64);
    r.set_phi(18446743507378697400u64);
    r.set_e(927438937u64);
    r.set_d(18411267238725607273u64);

    get_phi(&mut r);

    assert_eq!(18446743507378697400u64, r.get_phi());
}

#[test]
fn test_getd() {
    let mut r = RSAInfo::new();

    r.set_p(50000000021u64);
    r.set_q(368934871u64);
    r.set_n(18446743557747632291u64);
    r.set_phi(18446743507378697400u64);
    r.set_e(927438937u64);
    r.set_d(18411267238725607273u64);

    get_d(&mut r);

    assert_eq!(18411267238725607273u64, r.get_d());
}

#[test]
fn test_is_coprime() {
    assert_eq!(true, is_coprime(11, 19));
    assert_ne!(true, is_coprime(19, 11));
}

#[test]
fn test_find_primes() {
    let returns2 = find_prime(4536527634656356);
    assert!(is_prime(returns2.0) && is_prime(returns2.1));

    let returns3 = find_prime(3);
    assert!(is_prime(returns3.0) && is_prime(returns3.1));
}

#[test]
fn test_is_primes() {
    let prime = 3074457345618258599u64;
    let nonprime = 29999388238928890u64;
    let g = is_prime(prime);
    let h = is_prime(nonprime);
    assert_eq!(g, true);
    assert_eq!(h, false);
}

#[test]
fn test_getacoprime() {
    let g = get_a_coprime(5000u64, 18446743613945430720u64);

    assert!(g == 5003u64);
}

#[test]
fn test_iscoprime() {
    assert!(is_coprime(5003u64, 18446743613945430720u64))
}

#[test]
fn test_extended_euclidean() {
    let r = extended_gcd(5003i128, 18446743613945430720i128);
    println!("{:?}", r);
    assert_eq!(r.0, 1);
    assert_eq!(r.1, -4457747957077758493);
    assert_eq!(r.2, 1209);

    let val = (r.1 % 18446743613945430720i128 + 18446743613945430720i128)
        % 18446743613945430720i128;
    assert_eq!(13988995656867672227i128, val);
}

#[test]
fn test_is_prime_miller_rabin() {
    assert_eq!(is_prime_miller_rabine(8865838643u64), is_prime(8865838643u64));

    assert_eq!(
        is_prime_miller_rabine(1537228672809129301u64),
        is_prime(1537228672809129301u64)
    );

    assert_eq!(
        is_prime_miller_rabine(18446744073709551557u64),
        is_prime(18446744073709551557u64)
    );
}
