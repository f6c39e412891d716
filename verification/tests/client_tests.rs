use firefly::client::{is_ok_response, new_query, simple_query, split_record, FireflyError};
use firefly::query::QueryType;

#[test]
fn test_is_ok_response() {
    assert!(is_ok_response(b"Ok"));
    assert!(is_ok_response(b"some value"));
    assert!(!is_ok_response(b"Error: Key not found!"));
}

#[test]
fn test_split_record() {
    assert_eq!(
        split_record(b"value\x00604800"),
        Some((b"value".to_vec(), b"604800".to_vec()))
    );
    assert_eq!(split_record(b"no separator"), None);
}

#[test]
fn test_query_builders() {
    assert_eq!(
        new_query(b"key", b"value", b"0"),
        b"0key\x00value\x000".to_vec()
    );
    assert_eq!(simple_query(QueryType::Get, b"key"), b"1key".to_vec());
    assert_eq!(simple_query(QueryType::Drop, b"key"), b"4key".to_vec());
    assert_eq!(
        simple_query(QueryType::DropAll, b"value"),
        b"5value".to_vec()
    );
}

#[test]
fn test_error_message() {
    let err = FireflyError::UnexpectedResponseError;
    assert_eq!(err.message(), "unexpected response");
}

#[test]
fn test_parse_dec() {
    assert_eq!(firefly::ttl::parse_dec_u64(b"0"), Some(0));
    assert_eq!(firefly::ttl::parse_dec_u64(b"1700000001"), Some(1_700_000_001));
    assert_eq!(firefly::ttl::parse_dec_u64(b""), None);
    assert_eq!(firefly::ttl::parse_dec_u64(b"12a"), None);
    assert_eq!(firefly::ttl::parse_dec_u64(b"18446744073709551615"), Some(u64::MAX));
    assert_eq!(firefly::ttl::parse_dec_u64(b"18446744073709551616"), None);
}
