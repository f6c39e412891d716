use firefly::serialisation::{
    from_slice, process_byte, process_message, to_vec, DELIMITER_BYTE, PARTITION_AMOUNT,
};
use firefly::store::Store;

#[test]
fn test_process_byte() {
    assert_eq!(
        process_byte(DELIMITER_BYTE),
        Err(b"Illigal action (using delimiter character): 0".to_vec())
    );
    assert_eq!(
        process_byte(255),
        Err(b"Non-ASCII character: 255".to_vec())
    );
    assert_eq!(process_byte(b'a'), Ok(b'a'));
}

#[test]
fn test_process_message() {
    let message = "Hello, world!";
    let bytes = process_message(message.as_bytes()).unwrap();

    assert_eq!(bytes[0], DELIMITER_BYTE);
    assert_eq!(bytes.len(), message.len() + 1);
    assert_eq!(std::str::from_utf8(&bytes[1..]).unwrap(), message);
}

#[test]
fn test_to_vec_empty() {
    let store = Store::new();
    let bytes = to_vec(&store).unwrap();

    assert_eq!(bytes.len(), 0);
}

#[test]
fn test_to_vec_one_key() {
    let mut store = Store::new();
    store.insert(b"key".to_vec(), b"value".to_vec(), b"1".to_vec());
    let bytes = to_vec(&store).unwrap();

    assert_eq!(
        bytes.len(),
        PARTITION_AMOUNT as usize + "key".len() + "value".len() + "1".len()
    );
}

#[test]
fn test_process_message_empty() {
    assert_eq!(
        process_message(b""),
        Err(b"Message is empty!".to_vec())
    );
}

#[test]
fn test_to_vec_rejects_unserialisable_record() {
    let mut store = Store::new();
    store.insert(b"key".to_vec(), b"va\x00ue".to_vec(), b"0".to_vec());
    assert_eq!(
        to_vec(&store),
        Err(b"Illigal action (using delimiter character): 0".to_vec())
    );
}

#[test]
fn test_snapshot_round_trip() {
    let mut store = Store::new();
    store.insert(b"alpha".to_vec(), b"one".to_vec(), b"0".to_vec());
    store.insert(b"beta".to_vec(), b"two".to_vec(), b"1700000000".to_vec());
    store.insert(b"gamma".to_vec(), b"three".to_vec(), b"42".to_vec());

    let bytes = to_vec(&store).unwrap();
    let reloaded = from_slice(&bytes).unwrap();

    assert_eq!(reloaded.len(), 3);
    assert_eq!(
        reloaded.get(b"alpha"),
        Some((b"one".to_vec(), b"0".to_vec()))
    );
    assert_eq!(
        reloaded.get(b"beta"),
        Some((b"two".to_vec(), b"1700000000".to_vec()))
    );
    assert_eq!(
        reloaded.get(b"gamma"),
        Some((b"three".to_vec(), b"42".to_vec()))
    );
}

#[test]
fn test_from_slice_empty_is_empty_store() {
    let store = from_slice(b"").unwrap();
    assert_eq!(store.len(), 0);
}

#[test]
fn test_from_slice_rejects_malformed() {
    // Does not start with the delimiter.
    assert!(from_slice(b"key\x00value").is_err());
    // An empty message.
    assert!(from_slice(b"\x00\x00value\x00ttl").is_err());
    // A message count that is no multiple of three.
    assert!(from_slice(b"\x00key\x00value").is_err());
}

#[test]
fn test_from_slice_last_writer_wins() {
    let store = from_slice(b"\x00k\x00v1\x000\x00k\x00v2\x001").unwrap();
    assert_eq!(store.len(), 1);
    assert_eq!(store.get(b"k"), Some((b"v2".to_vec(), b"1".to_vec())));
}
