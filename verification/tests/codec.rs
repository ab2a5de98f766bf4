use soliddb::keys::{
    id_from_non_unique_key, id_from_primary_key, id_from_slice, key_prefix, non_unique_key,
    non_unique_prefix, primary_key, unique_key,
};
use soliddb::{Error, Id};

#[test]
fn key_prefix_layout() {
    assert_eq!(key_prefix(0x01020304, 7), vec![1, 2, 3, 4, 7]);
    assert_eq!(key_prefix(1, 0), vec![0, 0, 0, 1, 0]);
}

#[test]
fn primary_key_layout_and_extraction() {
    let id = Id(0x0102030405060708090a0b0c0d0e0f10);
    let key = primary_key(1, id);
    assert_eq!(key.len(), 21);
    assert_eq!(&key[0..5], &[0, 0, 0, 1, 0]);
    assert_eq!(
        &key[5..21],
        &[1, 2, 3, 4, 5, 6, 7, 8, 9, 10, 11, 12, 13, 14, 15, 16]
    );
    let back = id_from_primary_key(key.as_slice()).unwrap();
    assert_eq!(back, id);
}

#[test]
fn unique_key_layout() {
    let key = unique_key(1, 3, b"pako");
    assert_eq!(key, vec![0, 0, 0, 1, 3, b'p', b'a', b'k', b'o']);
}

#[test]
fn non_unique_key_layout_and_extraction() {
    let id = Id(42);
    let prefix = non_unique_prefix(1, 130, b"users");
    let key = non_unique_key(1, 130, b"users", id);
    assert_eq!(key.len(), prefix.len() + 16);
    assert!(key.starts_with(prefix.as_slice()));
    let back = id_from_non_unique_key(key.as_slice()).unwrap();
    assert_eq!(back, id);
}

#[test]
fn id_from_slice_round_trip() {
    let id = Id(0xfedcba98765432100123456789abcdef);
    let bytes = id.to_be_bytes();
    assert_eq!(bytes.len(), 16);
    let back = id_from_slice(bytes.as_slice()).unwrap();
    assert_eq!(back, id);
}

#[test]
fn malformed_keys_are_rejected() {
    let err = id_from_slice(&[1, 2, 3]).unwrap_err();
    assert!(matches!(err, Error::MalformedKey));

    let err = id_from_primary_key(&[0, 0, 0, 1, 0, 9]).unwrap_err();
    assert!(matches!(err, Error::MalformedKey));

    let err = id_from_non_unique_key(&[0, 0, 0, 1, 130, 1, 2, 3]).unwrap_err();
    assert!(matches!(err, Error::MalformedKey));
}

#[test]
fn singleton_key_layout() {
    let key = soliddb::single::key(0x01020304);
    assert_eq!(key, vec![0, 0, 0, 0, 0, 1, 2, 3, 4]);
}

#[test]
fn fresh_ids_differ() {
    let a = ulid::Ulid::generate().0;
    let b = ulid::Ulid::generate().0;
    assert_ne!(a, b);
}
