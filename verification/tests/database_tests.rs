use firefly::connection::process_query_impact;
use firefly::database::{execute_query, expire_records, get_value, process_query, snapshot_needed};
use firefly::query::QueryType;
use firefly::store::Store;

fn run(db: &mut Store, frame: &[u8], is_bitwise: bool) -> (Option<QueryType>, Vec<u8>) {
    process_query(db, frame, is_bitwise)
}

#[test]
fn test_scenario_string_dialect() {
    let mut db = Store::new();

    let (qt, res) = run(&mut db, b"NEW 'hello' VALUE 'world' WITH TTL '0';", false);
    assert_eq!(qt, Some(QueryType::New));
    assert_eq!(res, b"Ok".to_vec());

    let (qt, res) = run(&mut db, b"GET 'hello';", false);
    assert_eq!(qt, Some(QueryType::Get));
    assert_eq!(res, b"world\x000".to_vec());

    let (qt, res) = run(&mut db, b"GETVALUE 'hello';", false);
    assert_eq!(qt, Some(QueryType::GetValue));
    assert_eq!(res, b"world".to_vec());

    let (qt, res) = run(&mut db, b"GETTTL 'hello';", false);
    assert_eq!(qt, Some(QueryType::GetTTL));
    assert_eq!(res, b"0".to_vec());

    let (qt, res) = run(&mut db, b"DROP 'hello';", false);
    assert_eq!(qt, Some(QueryType::Drop));
    assert_eq!(res, b"Ok".to_vec());

    let (_, res) = run(&mut db, b"GETVALUE 'hello';", false);
    assert_eq!(res, b"Error: Key not found!".to_vec());
}

#[test]
fn test_scenario_bitwise_dialect() {
    let mut db = Store::new();
    let mut is_bitwise = false;
    let mut changed: usize = 0;

    let (qt, res) = run(&mut db, b"QUERYTYPEBITWISE;", is_bitwise);
    assert_eq!(qt, Some(QueryType::QueryTypeBitwise));
    assert_eq!(res, b"Ok".to_vec());
    process_query_impact(qt, &mut is_bitwise, &mut changed);
    assert!(is_bitwise);

    let (qt, res) = run(&mut db, b"0k\x00v\x000", is_bitwise);
    assert_eq!(qt, Some(QueryType::New));
    assert_eq!(res, b"Ok".to_vec());

    let (_, res) = run(&mut db, b"1k", is_bitwise);
    assert_eq!(res, b"v\x000".to_vec());
}

#[test]
fn test_round_trip_create_then_read() {
    let mut db = Store::new();
    let res = execute_query(
        QueryType::New,
        vec![b"k".to_vec(), b"v".to_vec(), b"123".to_vec()],
        &mut db,
    );
    assert_eq!(res, b"Ok".to_vec());
    assert_eq!(
        execute_query(QueryType::GetValue, vec![b"k".to_vec()], &mut db),
        b"v".to_vec()
    );
    assert_eq!(
        execute_query(QueryType::GetTTL, vec![b"k".to_vec()], &mut db),
        b"123".to_vec()
    );
    assert_eq!(
        execute_query(QueryType::Get, vec![b"k".to_vec()], &mut db),
        b"v\x00123".to_vec()
    );
}

#[test]
fn test_create_is_last_writer_wins() {
    let mut db = Store::new();
    run(&mut db, b"NEW 'k' 'v1' '1';", false);
    run(&mut db, b"NEW 'k' 'v2' '2';", false);
    let (_, res) = run(&mut db, b"GET 'k';", false);
    assert_eq!(res, b"v2\x002".to_vec());
    assert_eq!(db.len(), 1);
}

#[test]
fn test_drop_idempotence() {
    let mut db = Store::new();
    run(&mut db, b"NEW 'k' 'v' '0';", false);
    let (_, first) = run(&mut db, b"DROP 'k';", false);
    let (_, second) = run(&mut db, b"DROP 'k';", false);
    assert_eq!(first, b"Ok".to_vec());
    assert_eq!(second, b"Ok".to_vec());
    let (_, res) = run(&mut db, b"GETVALUE 'k';", false);
    assert_eq!(res, b"Error: Key not found!".to_vec());
}

#[test]
fn test_drop_all_removes_exactly_matching_values() {
    let mut db = Store::new();
    run(&mut db, b"NEW 'a' 'V' '0';", false);
    run(&mut db, b"NEW 'b' 'V' '0';", false);
    run(&mut db, b"NEW 'c' 'W' '0';", false);
    let (qt, res) = run(&mut db, b"DROPALL 'V';", false);
    assert_eq!(qt, Some(QueryType::DropAll));
    assert_eq!(res, b"Ok".to_vec());
    let (_, res) = run(&mut db, b"GET 'a';", false);
    assert_eq!(res, b"Error: Key not found!".to_vec());
    let (_, res) = run(&mut db, b"GET 'b';", false);
    assert_eq!(res, b"Error: Key not found!".to_vec());
    let (_, res) = run(&mut db, b"GET 'c';", false);
    assert_eq!(res, b"W\x000".to_vec());
}

#[test]
fn test_dialect_stickiness_between_sessions() {
    let mut session_one = false;
    let mut session_two = false;
    let mut changed: usize = 0;

    process_query_impact(
        Some(QueryType::QueryTypeBitwise),
        &mut session_one,
        &mut changed,
    );
    assert!(session_one);
    assert!(!session_two);

    process_query_impact(Some(QueryType::Get), &mut session_two, &mut changed);
    assert!(!session_two);
    assert_eq!(changed, 0);
}

#[test]
fn test_counter_progression() {
    let mut db = Store::new();
    let mut is_bitwise = false;
    let mut changed: usize = 0;

    // A create strictly increments the counter.
    let (qt, _) = run(&mut db, b"NEW 'k' 'v' '0';", false);
    process_query_impact(qt, &mut is_bitwise, &mut changed);
    assert_eq!(changed, 1);

    // A read does not.
    let (qt, _) = run(&mut db, b"GETVALUE 'k';", false);
    process_query_impact(qt, &mut is_bitwise, &mut changed);
    assert_eq!(changed, 1);

    // A parse error does not.
    let (qt, res) = run(&mut db, b"BOGUS 'k';", false);
    assert_eq!(qt, None);
    assert_eq!(res, b"Could not properly parse query!".to_vec());
    process_query_impact(qt, &mut is_bitwise, &mut changed);
    assert_eq!(changed, 1);

    // The snapshot loop sees the change and resets the counter.
    assert!(snapshot_needed(&mut changed));
    assert_eq!(changed, 0);
    assert!(!snapshot_needed(&mut changed));
}

#[test]
fn test_expiration() {
    let mut db = Store::new();
    let mut changed: usize = 0;
    run(&mut db, b"NEW 'k' 'v' '1000';", false);
    run(&mut db, b"NEW 'keeper' 'v' '0';", false);

    // Before the deadline nothing expires.
    expire_records(&mut db, 999, &mut changed);
    assert_eq!(changed, 0);
    assert_eq!(db.len(), 2);

    // Past the deadline the record is swept and counted.
    expire_records(&mut db, 1001, &mut changed);
    assert_eq!(changed, 1);
    let (_, res) = run(&mut db, b"GETVALUE 'k';", false);
    assert_eq!(res, b"Error: Key not found!".to_vec());
    let (_, res) = run(&mut db, b"GETVALUE 'keeper';", false);
    assert_eq!(res, b"v".to_vec());
}

#[test]
fn test_expiration_keeps_odd_ttls() {
    let mut db = Store::new();
    let mut changed: usize = 0;
    run(&mut db, b"NEW 'a' 'v' 'soon';", false);
    run(&mut db, b"NEW 'b' 'v' '99999999999999999999999999';", false);
    expire_records(&mut db, u64::MAX, &mut changed);
    assert_eq!(changed, 0);
    assert_eq!(db.len(), 2);
}

#[test]
fn test_invalid_frames() {
    let mut db = Store::new();
    let invalid = b"Invalid or empty query (must be valid ascii).".to_vec();

    let (qt, res) = run(&mut db, b"", false);
    assert_eq!(qt, None);
    assert_eq!(res, invalid);

    let (qt, res) = run(&mut db, b"\n", false);
    assert_eq!(qt, None);
    assert_eq!(res, invalid);

    let (qt, res) = run(&mut db, "ナルト".as_bytes(), false);
    assert_eq!(qt, None);
    assert_eq!(res, invalid);
}

#[test]
fn test_nul_in_string_dialect_warns_but_parses() {
    let mut db = Store::new();
    let (qt, res) = run(&mut db, b"QUERYTYPESTRING;\x00", false);
    assert_eq!(qt, Some(QueryType::QueryTypeString));
    assert_eq!(
        res,
        b"Non bitwise queries cannot contain null bytesOk".to_vec()
    );
}

#[test]
fn test_frame_cap_sizes() {
    let mut db = Store::new();

    // A frame of exactly the default cap is handled.
    let mut frame = b"NEW 'big' VALUE 'x' WITH TTL '0';".to_vec();
    while frame.len() < 512 {
        frame.push(b' ');
    }
    assert_eq!(frame.len(), 512);
    let (qt, res) = run(&mut db, &frame, false);
    assert_eq!(qt, Some(QueryType::New));
    assert_eq!(res, b"Ok".to_vec());

    // One byte more is still handled without a crash.
    frame.push(b' ');
    let (qt, res) = run(&mut db, &frame, false);
    assert_eq!(qt, Some(QueryType::New));
    assert_eq!(res, b"Ok".to_vec());
}

#[test]
fn test_get_value_formats() {
    let mut db = Store::new();
    db.insert(b"k".to_vec(), b"v".to_vec(), b"7".to_vec());
    assert_eq!(get_value(&db, b"k", QueryType::Get), b"v\x007".to_vec());
    assert_eq!(get_value(&db, b"k", QueryType::GetValue), b"v".to_vec());
    assert_eq!(get_value(&db, b"k", QueryType::GetTTL), b"7".to_vec());
    assert_eq!(
        get_value(&db, b"absent", QueryType::Get),
        b"Error: Key not found!".to_vec()
    );
}

#[test]
fn test_store_operations() {
    let mut db = Store::new();
    db.insert(b"a".to_vec(), b"1".to_vec(), b"0".to_vec());
    db.insert(b"b".to_vec(), b"2".to_vec(), b"0".to_vec());
    assert_eq!(db.len(), 2);
    assert_eq!(db.get(b"a"), Some((b"1".to_vec(), b"0".to_vec())));
    assert_eq!(db.get(b"missing"), None);
    db.remove(b"a");
    assert_eq!(db.get(b"a"), None);
    assert_eq!(db.len(), 1);
    db.drop_all(b"2");
    assert_eq!(db.len(), 0);
}

#[test]
fn test_expiration_boundary() {
    // The sweep keeps a record while `ttl > now` and removes it once
    // `ttl <= now`.
    let mut db = Store::new();
    let mut changed: usize = 0;
    run(&mut db, b"NEW 'k' 'v' '500';", false);
    expire_records(&mut db, 500, &mut changed);
    assert_eq!(db.len(), 0);
    assert_eq!(changed, 1);
}
