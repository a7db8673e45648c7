use relay_engine::{build_message, header_is_text, kind_from_content_type, parse_content_length, MessageKind, RelayError};

fn field(s: &[u8]) -> Option<&[u8]> {
    Some(s)
}

#[test]
fn content_length_parses_decimal_numbers() {
    assert_eq!(parse_content_length(b"42"), Some(42));
    assert_eq!(parse_content_length(b"0"), Some(0));
    assert_eq!(parse_content_length(b"+7"), Some(7));
    assert_eq!(parse_content_length(b"007"), Some(7));
    assert_eq!(parse_content_length(b"18446744073709551615"), Some(usize::MAX));
}

#[test]
fn content_length_rejects_other_text() {
    assert_eq!(parse_content_length(b""), None);
    assert_eq!(parse_content_length(b"+"), None);
    assert_eq!(parse_content_length(b"-1"), None);
    assert_eq!(parse_content_length(b"4a"), None);
    assert_eq!(parse_content_length(b" 4"), None);
    assert_eq!(parse_content_length(b"18446744073709551616"), None);
    assert_eq!(parse_content_length(b"99999999999999999999999"), None);
}

#[test]
fn content_type_decides_the_kind() {
    assert_eq!(kind_from_content_type(b"text/plain"), MessageKind::Text);
    assert_eq!(kind_from_content_type(b"Text/HTML; charset=utf-8"), MessageKind::Text);
    assert_eq!(kind_from_content_type(b"application/json"), MessageKind::Binary);
    assert_eq!(kind_from_content_type(b"application/octet-stream"), MessageKind::Binary);
    assert_eq!(kind_from_content_type(b"text"), MessageKind::Binary);
    assert_eq!(kind_from_content_type(b""), MessageKind::Binary);
}

#[test]
fn well_formed_request_becomes_a_message() {
    let m = build_message(field(b"text/plain"), field(b"5"), b"hello".to_vec()).unwrap();
    assert_eq!(m.payload(), &b"hello".to_vec());
    assert_eq!(m.kind(), MessageKind::Text);
    assert_eq!(m.len(), 5);
    let b = build_message(field(b"application/octet-stream"), field(b"10"), vec![1, 2, 3]).unwrap();
    assert_eq!(b.kind(), MessageKind::Binary);
    assert_eq!(b.into_payload(), vec![1, 2, 3]);
    let e = build_message(field(b"text/plain"), None, Vec::new()).unwrap();
    assert_eq!(e.len(), 0);
}

#[test]
fn malformed_requests_are_rejected() {
    assert_eq!(build_message(None, field(b"5"), b"hello".to_vec()).unwrap_err(), RelayError::MalformedInput);
    assert_eq!(build_message(field(b"text/plain"), field(b"x"), b"hi".to_vec()).unwrap_err(), RelayError::MalformedInput);
    assert_eq!(build_message(field(b"text/plain"), field(b"1"), b"hi".to_vec()).unwrap_err(), RelayError::MalformedInput);
    assert_eq!(build_message(field(b"text/plain"), None, b"hi".to_vec()).unwrap_err(), RelayError::MalformedInput);
}

#[test]
fn content_type_outside_header_text_is_malformed() {
    assert_eq!(build_message(field(&[0x80]), None, Vec::new()).unwrap_err(), RelayError::MalformedInput);
    assert_eq!(build_message(field(b"text/pl\x7fain"), field(b"2"), b"hi".to_vec()).unwrap_err(), RelayError::MalformedInput);
    assert_eq!(build_message(field(b"text/plain\n"), None, Vec::new()).unwrap_err(), RelayError::MalformedInput);
    let m = build_message(field(b"text/plain;\tcharset=utf-8"), None, Vec::new()).unwrap();
    assert_eq!(m.kind(), MessageKind::Text);
}

#[test]
fn header_text_allows_visible_ascii_space_and_tab() {
    assert!(header_is_text(b"application/json; charset=utf-8"));
    assert!(header_is_text(b"a\tb ~"));
    assert!(header_is_text(b""));
    assert!(!header_is_text(&[0x80]));
    assert!(!header_is_text(b"a\x7f"));
    assert!(!header_is_text(b"a\x1fb"));
}
