use streamchat::dh::{
    compute_shared_secret, handshake_message, handshake_secret, modular_pow, KeyPair, G, P,
};

#[test]
fn test_modular_pow_basic() {
    assert_eq!(modular_pow(2, 10, 1_000_000), 1024);
    assert_eq!(modular_pow(2, 10, 1000), 24);
}

#[test]
fn test_dh_shared_secret_matches() {
    let server = KeyPair::generate();
    let client = KeyPair::generate();

    let secret_server = compute_shared_secret(server.private, client.public);
    let secret_client = compute_shared_secret(client.private, server.public);

    assert_eq!(
        secret_server, secret_client,
        "Les deux côtés doivent obtenir le même secret"
    );
}

#[test]
fn test_modular_pow_edge_cases() {
    assert_eq!(modular_pow(12345, 0, P as u128), 1);
    assert_eq!(modular_pow(0, 10, P as u128), 0);
    let res = modular_pow(5, 123456, P as u128);
    assert!(res < P as u128);
}

#[test]
fn test_dh_with_fixed_keys() {
    let private_a: u64 = 0x0123_4567_89AB_CDEF;
    let private_b: u64 = 0x0FED_CBA9_7654_3210;

    let public_a = modular_pow(G as u128, private_a as u128, P as u128) as u64;
    let public_b = modular_pow(G as u128, private_b as u128, P as u128) as u64;

    let secret_a = compute_shared_secret(private_a, public_b);
    let secret_b = compute_shared_secret(private_b, public_a);

    assert_eq!(secret_a, secret_b);
    assert_ne!(secret_a, 0);
}

#[test]
fn modular_pow_exact_values() {
    assert_eq!(modular_pow(5, 123456, P as u128), 15148072410652115498);
    assert_eq!(modular_pow(7, 3, 1), 0);
    assert_eq!(modular_pow(1_000_003, 1, 1000), 3);
    assert_eq!(modular_pow(3, 4, 1 << 64), 81);
}

#[test]
fn modular_pow_zero_exponent_and_zero_base() {
    for m in [2u128, 3, 1000, P as u128] {
        assert_eq!(modular_pow(987654321, 0, m), 1);
        assert_eq!(modular_pow(0, 5, m), 0);
    }
}

#[test]
fn fixed_key_pair_and_secret_values() {
    let a = KeyPair::from_private(0x0123_4567_89AB_CDEF);
    assert_eq!(a.public, 0x82eb_b0d9_4a57_f078);
    let b = KeyPair::from_private(0x0FED_CBA9_7654_3210);
    assert_eq!(compute_shared_secret(b.private, a.public), 0x885e_af79_988e_c7ef);
}

#[test]
fn generated_key_pair_is_consistent() {
    let kp = KeyPair::generate();
    assert_eq!(kp.public as u128, modular_pow(G as u128, kp.private as u128, P as u128));
    assert!(kp.public < P);
}

#[test]
fn handshake_message_is_big_endian_public_value() {
    let kp = KeyPair::from_private(0x0123_4567_89AB_CDEF);
    assert_eq!(handshake_message(&kp), kp.public.to_be_bytes().to_vec());
}

#[test]
fn handshake_secret_reads_peer_message() {
    let a = KeyPair::from_private(11);
    let b = KeyPair::from_private(22);
    let sa = handshake_secret(&a, &handshake_message(&b));
    let sb = handshake_secret(&b, &handshake_message(&a));
    assert_eq!(sa, sb);
    assert_eq!(sa, compute_shared_secret(11, b.public));
}
