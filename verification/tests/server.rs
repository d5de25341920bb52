use local_pass::server::{access_line, failure_line};
use local_pass::server::{check_bearer, constant_time_eq, next_value, parse_opts, AuthFailure};

fn args(v: &[&str]) -> Vec<String> {
    v.iter().map(|s| s.to_string()).collect()
}

#[test]
fn serve_defaults() {
    let o = parse_opts(&args(&[])).unwrap();
    assert_eq!(o.bind, "127.0.0.1:9100");
    assert_eq!(o.profile, "lean");
    assert_eq!(o.root, None);
    assert!(!o.read_only);
}

#[test]
fn serve_options_in_both_forms() {
    let o = parse_opts(&args(&["--bind", "0.0.0.0:80", "-p", "full", "--root=/srv", "--read-only", "--unknown"])).unwrap();
    assert_eq!(o.bind, "0.0.0.0:80");
    assert_eq!(o.profile, "full");
    assert_eq!(o.root.as_deref(), Some("/srv"));
    assert!(o.read_only);
    let o = parse_opts(&args(&["--bind=1.2.3.4:5", "--profile=lean", "-r", "/x", "-b", "9.9.9.9:9"])).unwrap();
    assert_eq!(o.bind, "9.9.9.9:9");
    assert_eq!(o.profile, "lean");
    assert_eq!(o.root.as_deref(), Some("/x"));
}

#[test]
fn flag_without_value_is_an_error() {
    assert_eq!(parse_opts(&args(&["-b"])).err().unwrap(), "--bind requires a value");
    assert_eq!(parse_opts(&args(&["--profile"])).err().unwrap(), "--profile requires a value");
    assert_eq!(parse_opts(&args(&["--read-only", "--root"])).err().unwrap(), "--root requires a value");
}

#[test]
fn next_value_advances() {
    let a = args(&["--bind", "x"]);
    let mut i = 0usize;
    assert_eq!(next_value(&a, &mut i, "--bind").unwrap(), "x");
    assert_eq!(i, 1);
    let mut j = 1usize;
    assert_eq!(next_value(&a, &mut j, "--bind").unwrap_err(), "--bind requires a value");
    assert_eq!(j, 1);
}

#[test]
fn constant_time_comparison() {
    assert!(constant_time_eq(b"abc", b"abc"));
    assert!(!constant_time_eq(b"abc", b"abd"));
    assert!(!constant_time_eq(b"abc", b"ab"));
    assert!(constant_time_eq(b"", b""));
}

#[test]
fn bearer_header_checks() {
    let tok = "s3cret";
    assert_eq!(check_bearer(None, tok), Err(AuthFailure::MissingHeader));
    assert_eq!(check_bearer(Some(b"Bearer s3cret"), tok), Ok(()));
    assert_eq!(check_bearer(Some(b"Bearer s3cre"), tok), Err(AuthFailure::Mismatch));
    assert_eq!(check_bearer(Some(b"bearer s3cret"), tok), Err(AuthFailure::NotBearer));
    assert_eq!(check_bearer(Some(b"Basic s3cret"), tok), Err(AuthFailure::NotBearer));
    assert_eq!(check_bearer(Some(b"Bearer"), tok), Err(AuthFailure::NotBearer));
    assert_eq!(check_bearer(Some(&[66, 101, 97, 114, 101, 114, 32, 0xff]), tok), Err(AuthFailure::NonAscii));
    assert_eq!(check_bearer(Some(b"Bearer s3cret\n"), tok), Err(AuthFailure::NonAscii));
}

#[test]
fn rotated_token_refuses_the_old_one() {
    assert_eq!(check_bearer(Some(b"Bearer old-token"), "new-token"), Err(AuthFailure::Mismatch));
    assert_eq!(check_bearer(Some(b"Bearer new-token"), "new-token"), Ok(()));
}

#[test]
fn failure_reasons() {
    assert_eq!(AuthFailure::MissingHeader.reason(), "missing Authorization header");
    assert_eq!(AuthFailure::NonAscii.reason(), "non-ASCII Authorization header");
    assert_eq!(AuthFailure::NotBearer.reason(), "Authorization header must start with 'Bearer '");
    assert_eq!(AuthFailure::Mismatch.reason(), "bearer token mismatch");
}

#[test]
fn log_lines() {
    assert_eq!(
        access_line("2024-01-01T00:00:00.000Z", "127.0.0.1:5000"),
        "2024-01-01T00:00:00.000Z access /mcp peer=127.0.0.1:5000\n"
    );
    assert_eq!(
        failure_line("T", "1.2.3.4:1", AuthFailure::Mismatch.reason()),
        "T auth_fail peer=1.2.3.4:1 reason=bearer token mismatch\n"
    );
}
