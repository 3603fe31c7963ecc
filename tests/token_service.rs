use rust_admin::error::TokenError;
use rust_admin::token::{decode_hex, encode_frame, push_hex, same_bytes, split_pieces, Claims};

fn perms(list: &[&str]) -> Vec<String> {
    list.iter().map(|s| s.to_string()).collect()
}

#[test]
fn verify_returns_the_issued_claims() {
    let claims = Claims::new(42, "alice".to_string(), perms(&["/post/add", "/post/list"]), 1000, 3600);
    let token = claims.create_token("s3cret");
    let back = Claims::verify("s3cret", &token, 2000).unwrap();
    assert_eq!(back.subject_id, 42);
    assert_eq!(back.subject_name, "alice");
    assert_eq!(back.permissions, perms(&["/post/add", "/post/list"]));
    assert_eq!(back.issued_at, 1000);
    assert_eq!(back.expires_at, 4600);
}

#[test]
fn round_trip_keeps_negative_ids_and_unicode() {
    let claims = Claims::new(-7, "管理员 ü".to_string(), perms(&["", "/a b", "/路径"]), 0, 10);
    let token = claims.create_token("");
    assert!(token.is_ascii());
    let back = Claims::verify("", &token, 10).unwrap();
    assert_eq!(back.subject_id, -7);
    assert_eq!(back.subject_name, "管理员 ü");
    assert_eq!(back.permissions, perms(&["", "/a b", "/路径"]));
}

#[test]
fn round_trip_with_no_permission() {
    let claims = Claims::new(1, String::new(), Vec::new(), 5, 5);
    let token = claims.create_token("k");
    let back = Claims::verify("k", &token, 6).unwrap();
    assert!(back.permissions.is_empty());
    assert_eq!(back.subject_name, "");
}

#[test]
fn expiry_saturates() {
    let claims = Claims::new(1, "a".to_string(), Vec::new(), u64::MAX - 1, 10);
    assert_eq!(claims.expires_at, u64::MAX);
}

#[test]
fn expired_token_is_refused() {
    let claims = Claims::new(1, "bob".to_string(), perms(&["/x"]), 100, 50);
    let token = claims.create_token("k");
    assert!(Claims::verify("k", &token, 150).is_ok());
    assert_eq!(Claims::verify("k", &token, 151).err(), Some(TokenError::Expired));
}

#[test]
fn other_secret_is_refused() {
    let claims = Claims::new(1, "bob".to_string(), perms(&["/x"]), 100, 50);
    let token = claims.create_token("first");
    assert_eq!(Claims::verify("second", &token, 120).err(), Some(TokenError::SignatureInvalid));
    // the signature is checked before the expiry
    assert_eq!(Claims::verify("second", &token, 1000).err(), Some(TokenError::SignatureInvalid));
}

#[test]
fn tampered_token_is_refused() {
    let claims = Claims::new(1, "bob".to_string(), perms(&["/x"]), 100, 50);
    let token = claims.create_token("k");
    let forged = Claims::new(1, "bob".to_string(), perms(&["/x", "/admin"]), 100, 50);
    let forged_token = forged.create_token("other");
    let payload_end = forged_token.rfind('.').unwrap() + 1;
    let sig_start = token.rfind('.').unwrap() + 1;
    let spliced = format!("{}{}", &forged_token[..payload_end], &token[sig_start..]);
    assert_eq!(Claims::verify("k", &spliced, 120).err(), Some(TokenError::SignatureInvalid));
}

#[test]
fn malformed_tokens_are_refused() {
    assert_eq!(Claims::verify("k", "", 0).err(), Some(TokenError::Malformed));
    assert_eq!(Claims::verify("k", "abc", 0).err(), Some(TokenError::Malformed));
    assert_eq!(Claims::verify("k", "zz.00", 0).err(), Some(TokenError::Malformed));
    assert_eq!(Claims::verify("k", "00.11.22.", 0).err(), Some(TokenError::Malformed));
    let claims = Claims::new(1, "bob".to_string(), perms(&["/x"]), 100, 50);
    let token = claims.create_token("k");
    let upper = token.to_uppercase();
    assert_eq!(Claims::verify("k", &upper, 120).err(), Some(TokenError::Malformed));
}

#[test]
fn hex_encoding_is_lowercase_two_digits_per_byte() {
    let mut out = Vec::new();
    push_hex(&mut out, &[0x00, 0x0f, 0xa5, 0xff]);
    assert_eq!(out, b"000fa5ff".to_vec());
    assert_eq!(decode_hex(b"000fa5ff"), Some(vec![0x00, 0x0f, 0xa5, 0xff]));
    assert_eq!(decode_hex(b"0"), None);
    assert_eq!(decode_hex(b"0G"), None);
    assert_eq!(decode_hex(b"AB"), None);
    assert_eq!(decode_hex(b""), Some(Vec::new()));
}

#[test]
fn frame_terminates_every_field() {
    let fields = vec![vec![1u8], Vec::new(), vec![0xab, 0xcd]];
    assert_eq!(encode_frame(&fields), b"01..abcd.".to_vec());
    assert_eq!(split_pieces(b"01..abcd.", b'.'), vec![b"01".to_vec(), Vec::new(), b"abcd".to_vec(), Vec::new()]);
    assert_eq!(split_pieces(b"", b'.'), vec![Vec::<u8>::new()]);
}

#[test]
fn byte_comparison() {
    assert!(same_bytes(b"abc", b"abc"));
    assert!(!same_bytes(b"abc", b"abd"));
    assert!(!same_bytes(b"abc", b"ab"));
    assert!(same_bytes(b"", b""));
}

#[test]
fn signature_depends_on_the_secret() {
    let claims = Claims::new(3, "c".to_string(), perms(&["/y"]), 1, 1);
    let a = claims.create_token("one");
    let b = claims.create_token("two");
    assert_ne!(a, b);
    let sig = &a[a.rfind('.').unwrap() + 1..];
    assert_eq!(sig.len(), 64);
}
