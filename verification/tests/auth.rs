use local_pass::auth::{generate_token, has_force_flag, hex_encode, init_may_write, token_from_file, TOKEN_BYTES};

#[test]
fn hex_encoding_is_lower_case_two_digits_per_byte() {
    assert_eq!(hex_encode(&[]), "");
    assert_eq!(hex_encode(&[0x00, 0x0f, 0xa5, 0xff]), "000fa5ff");
    assert_eq!(hex_encode(&[0xde, 0xad, 0xbe, 0xef]), "deadbeef");
}

#[test]
fn generated_tokens_are_64_hex_chars() {
    let t = generate_token();
    assert_eq!(t.len(), 2 * TOKEN_BYTES);
    assert_eq!(t.len(), 64);
    assert!(t.chars().all(|c| c.is_ascii_digit() || ('a'..='f').contains(&c)));
    let u = generate_token();
    assert_ne!(t, u, "two fresh tokens should differ");
}

#[test]
fn force_flag_is_recognised() {
    let args = |v: &[&str]| v.iter().map(|s| s.to_string()).collect::<Vec<_>>();
    assert!(has_force_flag(&args(&["--force"])));
    assert!(has_force_flag(&args(&["x", "-f"])));
    assert!(!has_force_flag(&args(&["--forced", "-F"])));
    assert!(!has_force_flag(&args(&[])));
}

#[test]
fn init_only_overwrites_when_forced() {
    assert!(init_may_write(false, false));
    assert!(init_may_write(false, true));
    assert!(init_may_write(true, true));
    assert!(!init_may_write(true, false));
}

#[test]
fn token_file_text_is_trimmed() {
    assert_eq!(token_from_file("  abc123\n"), "abc123");
    assert_eq!(token_from_file("\r\n\t"), "");
    assert_eq!(token_from_file("a b"), "a b");
}
