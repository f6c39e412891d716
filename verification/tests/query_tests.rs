use firefly::query::{get_arguments, get_query_type, parse_query, QueryError, QueryType};

static QUERY_NEW: &'static str =
    "NEW 'hi' VALUE 'hello there \"general kenobi\"'WITH TTL '604800';";

static QUERY_GET: &'static str = "GET 'hi';";
static QUERY_GETTTL: &'static str = "GET TTL 'hi';";
static QUERY_GETVALUE: &'static str = "GET VALUE 'hi';";
static QUERY_DROP: &'static str = "DROP 'hi';";
static QUERY_DROPALL: &'static str = "DROP ALL 'value';";

#[test]
fn test_query_type_parse() {
    assert_eq!(
        get_query_type(QUERY_NEW.as_bytes()),
        Some(QueryType::New)
    );
    assert_eq!(
        get_query_type(QUERY_GET.as_bytes()),
        Some(QueryType::Get)
    );
    assert_eq!(
        get_query_type(QUERY_GETTTL.as_bytes()),
        Some(QueryType::GetTTL)
    );
    assert_eq!(
        get_query_type(QUERY_GETVALUE.as_bytes()),
        Some(QueryType::GetValue)
    );
    assert_eq!(
        get_query_type(QUERY_DROP.as_bytes()),
        Some(QueryType::Drop)
    );
    assert_eq!(
        get_query_type(QUERY_DROPALL.as_bytes()),
        Some(QueryType::DropAll)
    );
}

#[test]
fn test_query_get_arguments() {
    let arguments = get_arguments(QUERY_NEW.as_bytes());
    assert_eq!(
        arguments,
        vec![
            b"hi".to_vec(),
            b"hello there \"general kenobi\"".to_vec(),
            b"604800".to_vec(),
        ]
    );
}

#[test]
fn test_query_parse() {
    assert!(parse_query(QUERY_NEW.as_bytes()).is_ok());
}

#[test]
fn test_query_parse_failure() {
    assert!(parse_query("".as_bytes()).is_err());
}

#[test]
fn test_non_ascii() {
    assert!(parse_query("うずまき ナルト".as_bytes()).is_err());
}

#[test]
fn test_case_insensitive_verbs() {
    assert_eq!(
        get_query_type("new 'k' 'v';".as_bytes()),
        Some(QueryType::New)
    );
    assert_eq!(
        get_query_type("getvalue 'k';".as_bytes()),
        Some(QueryType::GetValue)
    );
}

#[test]
fn test_handshake_forms() {
    // Both spellings of the dialect switch resolve to the same verb.
    assert_eq!(
        get_query_type("QUERYTYPEBITWISE;".as_bytes()),
        Some(QueryType::QueryTypeBitwise)
    );
    assert_eq!(
        get_query_type("QUERY TYPE BITWISE;".as_bytes()),
        Some(QueryType::QueryTypeBitwise)
    );
    assert_eq!(
        get_query_type("QUERY TYPE STRING;".as_bytes()),
        Some(QueryType::QueryTypeString)
    );
}

#[test]
fn test_most_recent_exact_verb_wins() {
    // After `GET` fully matched, a quote kills the longer candidates and the
    // most recent exactly-walked verb wins.
    assert_eq!(get_query_type("GET;".as_bytes()), Some(QueryType::Get));
    assert_eq!(get_query_type("DROP;".as_bytes()), Some(QueryType::Drop));
    // A bare verb with no byte after it stays undecided.
    assert_eq!(get_query_type("GET".as_bytes()), None);
}

#[test]
fn test_new_with_two_arguments_gains_ttl() {
    let (query_type, arguments) = parse_query("NEW 'k' 'v';".as_bytes()).unwrap();
    assert_eq!(query_type, QueryType::New);
    assert_eq!(
        arguments,
        vec![b"k".to_vec(), b"v".to_vec(), b"0".to_vec()]
    );
}

#[test]
fn test_wrong_argument_count() {
    assert!(parse_query("NEW 'k';".as_bytes()).is_err());
    assert!(parse_query("GET 'a' 'b';".as_bytes()).is_err());
}

#[test]
fn test_double_quoted_arguments() {
    let (_, arguments) = parse_query("GET \"it's here\";".as_bytes()).unwrap();
    assert_eq!(arguments, vec![b"it's here".to_vec()]);
}

#[test]
fn test_error_variants() {
    assert_eq!(
        parse_query("".as_bytes()),
        Err(QueryError::UnknownQueryType)
    );
    assert_eq!(
        parse_query("NEW 'k';".as_bytes()),
        Err(QueryError::WrongArgumentCount)
    );
    assert_eq!(
        firefly::bitwise_query::parse_query(b"9k"),
        Err(QueryError::UnknownQueryType)
    );
}
