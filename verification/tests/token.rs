use chat::token::{generate_token, token_from_bytes};

#[test]
fn token_is_upper_hex_of_bytes() {
    let raw = [0x00, 0x01, 0xAB, 0xFF, 0x10, 0x9a, 0x7c, 0x3e, 0, 0, 0, 0, 0, 0, 0xde, 0xad];
    assert_eq!(token_from_bytes(&raw), "0001ABFF109A7C3E000000000000DEAD");
}

#[test]
fn distinct_bytes_give_distinct_tokens() {
    let mut a = [0u8; 16];
    let mut b = [0u8; 16];
    a[3] = 0x12;
    b[3] = 0x21;
    assert_ne!(token_from_bytes(&a), token_from_bytes(&b));
}

#[test]
fn generated_token_shape() {
    let (t, failure) = generate_token().unwrap();
    assert!(failure.is_none());
    assert_eq!(t.len(), 32);
    assert!(t.chars().all(|c| c.is_ascii_digit() || ('A'..='F').contains(&c)));
}

#[test]
fn generated_tokens_differ() {
    let (t1, _) = generate_token().unwrap();
    let (t2, _) = generate_token().unwrap();
    assert_ne!(t1, t2);
}
