use simplepir::element::Element;
use simplepir::regev::{simple_params, encrypt, decrypt, gen_secret, gen_error_vec, Params};

fn encrypt_and_decrypt_impl(pu: u64) {
    let params = simple_params();
    let secret = gen_secret(params.q, params.n);
    let e = gen_error_vec(params.q, params.m);

    let plaintext = Element::from(params.p, pu);
    let ciphertext = encrypt(&params, &secret, &e, &plaintext);
    assert_eq!(plaintext, decrypt(&params, &secret, &ciphertext));
}

#[test]
fn test_encrypt_and_decrypt() {
    for _ in 0..50 {
        encrypt_and_decrypt_impl(0);
        encrypt_and_decrypt_impl(1);
    }
}

fn homomorphic_addition_impl(params: &Params) {
    let secret = gen_secret(params.q, params.n);
    let e_0 = gen_error_vec(params.q, params.m);
    let e_1 = gen_error_vec(params.q, params.m);

    let plaintext_0 = Element::from(params.p, 0);
    let ciphertext_0 = encrypt(&params, &secret, &e_0, &plaintext_0);

    let plaintext_1 = Element::from(params.p, 1);
    let ciphertext_1 = encrypt(&params, &secret, &e_1, &plaintext_1);

    let a_n = params.a.clone() + params.a.clone();
    let mut params = params.clone();
    params.a = a_n;
    let ciphertext_n = ciphertext_0 + ciphertext_1;
    let plaintext_n = plaintext_0 + plaintext_1;
    assert_eq!(plaintext_n, decrypt(&params, &secret, &ciphertext_n));
}

#[test]
fn test_homomorphic_addition() {
    let params = simple_params();
    for _ in 0..50 {
        homomorphic_addition_impl(&params);
    }
}

fn test_homomorphic_multiplication_impl() {
    let mut params = simple_params();
    params.p = 3;
    let secret = gen_secret(params.q, params.n);
    let e = gen_error_vec(params.q, params.m);

    // Encrypt and decrypt the value 1 mod 3
    let plaintext_1 = Element::from(params.p, 1);
    let ciphertext_1 = encrypt(&params, &secret, &e, &plaintext_1);

    let decryption_1 = decrypt(&params, &secret, &ciphertext_1);
    assert_eq!(decryption_1, plaintext_1);

    // two = 2 mod 3
    let two = Element::from(params.q, 2);

    // Encrypt 1 * 2
    let ciphertext_2 = ciphertext_1 * two.to_owned();
    let mut params_2 = params.clone();
    params_2.a = params.a.mul_elem(&two);

    let result = decrypt(&params_2, &secret, &ciphertext_2);
    assert_eq!(
        Element::from(
            params.p,
            plaintext_1.uint * two.uint % params.p
        ),
        result
    );
}

#[test]
fn test_homomorphic_multiplication() {
    for _ in 0..100 {
        test_homomorphic_multiplication_impl();
    }
}

#[test]
fn test_rounding_exact_values() {
    // round(x * p / q) mod p at the reference moduli
    assert_eq!(simplepir::arith::round_scaled(0, 2, 3329), 0);
    assert_eq!(simplepir::arith::round_scaled(12, 2, 3329), 0);
    assert_eq!(simplepir::arith::round_scaled(1664, 2, 3329), 1);
    assert_eq!(simplepir::arith::round_scaled(1676, 2, 3329), 1);
    // values just below q round to p, which reduces to 0
    assert_eq!(simplepir::arith::round_scaled(3328, 2, 3329), 0);
    // a base-3 plaintext space
    assert_eq!(simplepir::arith::round_scaled(1109, 3, 3329), 1);
    assert_eq!(simplepir::arith::round_scaled(2219, 3, 3329), 2);
}

#[test]
fn test_error_vec_values() {
    let e = gen_error_vec(3329, 64);
    assert_eq!(e.len(), 64);
    for v in e.iter() {
        assert_eq!(v.q, 3329u64);
        assert!(v.uint < 3 || v.uint >= 3329 - 3);
    }
}
