use rust_admin::path::{format_ancestors, parse_ancestors, parse_i64, push_i64};

#[test]
fn path_text_round_trip() {
    assert_eq!(format_ancestors(&vec![]), "0");
    assert_eq!(format_ancestors(&vec![1, 2, 30]), "0,1,2,30");
    assert_eq!(parse_ancestors("0"), Some(vec![]));
    assert_eq!(parse_ancestors("0,1,2,30"), Some(vec![1, 2, 30]));
    let p = vec![i64::MIN, -1, 0, 9, i64::MAX];
    assert_eq!(parse_ancestors(&format_ancestors(&p)), Some(p));
}

#[test]
fn unreadable_paths() {
    assert_eq!(parse_ancestors(""), None);
    assert_eq!(parse_ancestors("1,2"), None);
    assert_eq!(parse_ancestors("0,"), None);
    assert_eq!(parse_ancestors("0,a"), None);
    assert_eq!(parse_ancestors("0, 1"), None);
    assert_eq!(parse_ancestors("00,1"), None);
}

#[test]
fn decimal_integers() {
    assert_eq!(parse_i64(b"42"), Some(42));
    assert_eq!(parse_i64(b"-42"), Some(-42));
    assert_eq!(parse_i64(b"007"), Some(7));
    assert_eq!(parse_i64(b"9223372036854775807"), Some(i64::MAX));
    assert_eq!(parse_i64(b"9223372036854775808"), None);
    assert_eq!(parse_i64(b"-9223372036854775808"), Some(i64::MIN));
    assert_eq!(parse_i64(b"-9223372036854775809"), None);
    assert_eq!(parse_i64(b"99999999999999999999999x"), None);
    assert_eq!(parse_i64(b"-"), None);
    assert_eq!(parse_i64(b""), None);
    assert_eq!(parse_i64(b"+1"), None);
    let mut out = Vec::new();
    push_i64(&mut out, -105);
    push_i64(&mut out, 0);
    assert_eq!(out, b"-1050".to_vec());
}
