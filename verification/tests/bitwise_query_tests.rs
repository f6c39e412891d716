use firefly::bitwise_query::{get_arguments, get_query_type, parse_query};
use firefly::query::QueryType;

#[test]
fn test_bitwise_query_type() {
    let query = "    0 || New query identifier";
    assert_eq!(get_query_type(query.as_bytes()), Some(QueryType::New));
}

#[test]
fn test_bitwise_query_invalid_type() {
    let query = "Invalid query identifier";
    assert_eq!(get_query_type(query.as_bytes()), None);
}

#[test]
fn test_bitwise_query_arguments() {
    let bytes = b"0hello word\x00bake some eggs\x000";
    let query_type = get_query_type(bytes).unwrap();
    let arguments = get_arguments(query_type, bytes);
    assert_eq!(arguments.len(), 3);
}

#[test]
fn test_bitwise_parse_new() {
    let (query_type, arguments) = parse_query(b"0key\x00value\x000").unwrap();
    assert_eq!(query_type, QueryType::New);
    assert_eq!(
        arguments,
        vec![b"key".to_vec(), b"value".to_vec(), b"0".to_vec()]
    );
}

#[test]
fn test_bitwise_parse_new_without_ttl() {
    let (query_type, arguments) = parse_query(b"0key\x00value").unwrap();
    assert_eq!(query_type, QueryType::New);
    assert_eq!(
        arguments,
        vec![b"key".to_vec(), b"value".to_vec(), b"0".to_vec()]
    );
}

#[test]
fn test_bitwise_parse_reads() {
    let (query_type, arguments) = parse_query(b"1key").unwrap();
    assert_eq!(query_type, QueryType::Get);
    assert_eq!(arguments, vec![b"key".to_vec()]);

    let (query_type, arguments) = parse_query(b"5value").unwrap();
    assert_eq!(query_type, QueryType::DropAll);
    assert_eq!(arguments, vec![b"value".to_vec()]);
}

#[test]
fn test_bitwise_parse_dialect_switches() {
    let (query_type, arguments) = parse_query(b"6").unwrap();
    assert_eq!(query_type, QueryType::QueryTypeString);
    assert!(arguments.is_empty());

    let (query_type, arguments) = parse_query(b"7").unwrap();
    assert_eq!(query_type, QueryType::QueryTypeBitwise);
    assert!(arguments.is_empty());
}

#[test]
fn test_bitwise_parse_wrong_argument_count() {
    assert!(parse_query(b"0keyonly").is_err());
    assert!(parse_query(b"1a\x00b").is_err());
}

#[test]
fn test_query_type_bytes() {
    assert_eq!(QueryType::from_byte(b'0'), Some(QueryType::New));
    assert_eq!(QueryType::from_byte(b'7'), Some(QueryType::QueryTypeBitwise));
    assert_eq!(QueryType::from_byte(b'8'), None);
    assert_eq!(QueryType::DropAll.as_byte(), b'5');
    assert_eq!(
        QueryType::from_byte(QueryType::GetTTL.as_byte()),
        Some(QueryType::GetTTL)
    );
}
