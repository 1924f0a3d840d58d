use rsaencryptiontutorial::encryption_process;
use rsaencryptiontutorial::modded_exponent;
use rsaencryptiontutorial::getbytes;
use rsaencryptiontutorial::get_integers;
use rsaencryptiontutorial::pad_the_bytes;
use rsaencryptiontutorial::depad_the_bytes;
use rsaencryptiontutorial::convert_raw_bytes;
use rsaencryptiontutorial::structures::RSAInfo;

#[test]
fn test_encryption_process1() {
    let mut r = RSAInfo::new();
    r.set_p(50000000021);
    r.set_q(368934871);
    r.set_n(18446743557747632291);
    r.set_phi(18446743507378697400);
    r.set_e(92829719);
    r.set_d(9419014239140821679);

    assert!(r.get_n() < u64::MAX);

    let plain = vec![15, 16, 17, 18, 19, 20, 21, 22, 23, 24, 25, 26, 27, 28, 29, 30];
    let new: Vec<u64> = encryption_process(plain.clone(), r.get_e(), r.get_n());
    let orig: Vec<u64> = encryption_process(new, r.get_d(), r.get_n());
    assert_eq!(plain, orig);

    let plain1 = vec![
        255, 255, 255, 255, 255, 255, 255, 255, 255, 255, 255, 255, 255, 255, 255, 255,
    ];
    let new1: Vec<u64> = encryption_process(plain1.clone(), r.get_e(), r.get_n());
    let orig1: Vec<u64> = encryption_process(new1, r.get_d(), r.get_n());
    assert_eq!(plain1, orig1);
}

#[test]
fn test_encryption_process2() {
    let mut r = RSAInfo::new();
    r.set_p(61);
    r.set_q(53);
    r.set_n(3233);
    r.set_phi(3120);
    r.set_e(17);
    r.set_d(2753);
}

#[test]
fn test_modded_exponent() {
    let input: u64 = 500;

    let input = modded_exponent(input, 3, 27u64);

    assert_eq!(17u64, input);
}

#[test]
fn test_pad_the_bytes() {
    let bytes = [
        211, 29, 99, 21, 94, 74, 10, 7, 92, 19, 49, 182, 29, 99, 21, 94, 74, 10, 7, 92, 19, 49,
        182, 29, 99, 21, 94, 74, 10, 7, 92, 19, 49, 182,
    ];
    let newbytes = pad_the_bytes(bytes.to_vec());
    let newbytes1 = vec![
        211, 29, 99, 21, 94, 74, 10, 3, 7, 92, 19, 49, 182, 29, 99, 2, 21, 94, 74, 10, 7, 92, 19,
        1, 49, 182, 29, 99, 21, 94, 74, 0, 10, 7, 92, 19, 49, 182, 0, 0,
    ];
    let reversed = depad_the_bytes(newbytes.clone());
    assert_eq!(newbytes, newbytes1);
    assert_eq!(bytes.to_vec(), reversed);
}

#[test]
fn test_getbytes() {
    let g: Vec<u64> = vec![2983, 389, 297, 2982];
    let r = getbytes(g);
    println!("{:?}", r);
    let t: Vec<u8> = vec![
        167, 11, 0, 0, 0, 0, 0, 0, 133, 1, 0, 0, 0, 0, 0, 0, 41, 1, 0, 0, 0, 0, 0, 0, 166, 11, 0,
        0, 0, 0, 0, 0,
    ];
    assert_eq!(r, t);
}

#[test]
fn test_convertrawbytes() {
    let s = "shannon";
    let h = convert_raw_bytes(s);
    let base = vec![115, 104, 97, 110, 110, 111, 110];
    assert_eq!(h, base);
}

#[test]
fn test_getintegers() {
    let m = [
        244, 192, 99, 5, 22, 200, 122, 55, 217, 192, 3, 5, 22, 2, 222, 55, 244, 192, 99, 5, 122,
        0, 122, 66,
    ];
    let g = get_integers(&m);
    let base: Vec<u64> = vec![3997727616149995764, 4025657410512470233, 4790141677738377460];
    assert_eq!(g, base);
}
