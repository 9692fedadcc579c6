use sharded_vault::protocol::handle_request;
use sharded_vault::shard::{ShardError, VaultShard};

#[test]
fn invalid_identity_is_refused() {
    assert_eq!(VaultShard::new(0, 0, 3).err(), Some(ShardError::InvalidConfig));
    assert_eq!(VaultShard::new(0, 4, 3).err(), Some(ShardError::InvalidConfig));
    assert_eq!(VaultShard::new(3, 2, 3).err(), Some(ShardError::InvalidConfig));
    let s = VaultShard::new(2, 3, 3).unwrap();
    assert_eq!((s.id, s.threshold, s.total_shares), (2, 3, 3));
    assert_eq!(s.key_count(), 0);
}

#[test]
fn store_then_get_returns_the_share() {
    let mut s = VaultShard::new(0, 2, 3).unwrap();
    assert_eq!(s.store_secret("k1", b"\x00\x01share\xff"), Ok(()));
    assert_eq!(s.get_share("k1").unwrap(), b"\x00\x01share\xff".to_vec());
    assert_eq!(s.get(b"k1").unwrap(), b"\x00\x01share\xff".to_vec());
}

#[test]
fn second_store_is_refused_and_keeps_the_first() {
    let mut s = VaultShard::new(0, 2, 3).unwrap();
    assert_eq!(s.store_secret("k", b"one"), Ok(()));
    assert_eq!(s.store_secret("k", b"two"), Err(ShardError::AlreadyExists));
    assert_eq!(s.get_share("k").unwrap(), b"one".to_vec());
    assert_eq!(s.key_count(), 1);
}

#[test]
fn missing_key_is_not_found() {
    let mut s = VaultShard::new(0, 2, 3).unwrap();
    s.store_secret("present", b"x").unwrap();
    assert_eq!(s.get_share("absent"), Err(ShardError::NotFound));
    assert_eq!(s.get_share("presen"), Err(ShardError::NotFound));
}

#[test]
fn key_count_follows_distinct_stores() {
    let mut s = VaultShard::new(1, 2, 3).unwrap();
    for (k, n) in ["a", "b", "c", "a"].iter().zip([1usize, 2, 3, 3]) {
        let _ = s.store_secret(k, b"v");
        assert_eq!(s.key_count(), n);
    }
}

#[test]
fn error_messages() {
    assert_eq!(ShardError::AlreadyExists.message(), "Key already exists");
    assert_eq!(ShardError::NotFound.message(), "Key not found");
    assert_eq!(ShardError::InvalidConfig.message(), "Invalid shard configuration");
    assert_eq!(ShardError::Corrupt.message(), "Corrupt storage");
}

#[test]
fn protocol_store_get_status() {
    let mut s = VaultShard::new(0, 3, 5).unwrap();
    assert_eq!(handle_request(&mut s, b"STORE alpha deadbeef\n"), b"OK: Secret stored\n".to_vec());
    assert_eq!(handle_request(&mut s, b"GET alpha"), b"deadbeef\n".to_vec());
    assert_eq!(
        handle_request(&mut s, b"STORE alpha other"),
        b"ERR: Key already exists\n".to_vec()
    );
    assert_eq!(handle_request(&mut s, b"GET beta\r\n"), b"ERR: Key not found\n".to_vec());
    assert_eq!(handle_request(&mut s, b"  STORE\tbeta  cafe "), b"OK: Secret stored\n".to_vec());
    assert_eq!(
        handle_request(&mut s, b"STATUS\n"),
        b"Shard: 0/5\nThreshold: 3\nKeys: 2\n".to_vec()
    );
}

#[test]
fn status_counts_many_keys() {
    let mut s = VaultShard::new(12, 100, 200).unwrap();
    for i in 0..12 {
        let cmd = format!("STORE key{} v", i);
        assert_eq!(handle_request(&mut s, cmd.as_bytes()), b"OK: Secret stored\n".to_vec());
    }
    assert_eq!(
        handle_request(&mut s, b"STATUS"),
        b"Shard: 12/200\nThreshold: 100\nKeys: 12\n".to_vec()
    );
}

#[test]
fn store_with_missing_share_is_invalid() {
    let mut s = VaultShard::new(0, 3, 5).unwrap();
    assert_eq!(handle_request(&mut s, b"STORE onlykey"), b"ERR: Invalid command\n".to_vec());
    assert_eq!(s.key_count(), 0);
    assert_eq!(s.get_share("onlykey"), Err(ShardError::NotFound));
}

#[test]
fn protocol_errors() {
    let mut s = VaultShard::new(0, 3, 5).unwrap();
    assert_eq!(handle_request(&mut s, b""), b"ERR: Empty command\n".to_vec());
    assert_eq!(handle_request(&mut s, b" \n\t "), b"ERR: Empty command\n".to_vec());
    assert_eq!(handle_request(&mut s, b"DELETE x"), b"ERR: Invalid command\n".to_vec());
    assert_eq!(handle_request(&mut s, b"GET"), b"ERR: Invalid command\n".to_vec());
    assert_eq!(handle_request(&mut s, b"GET a b"), b"ERR: Invalid command\n".to_vec());
    assert_eq!(handle_request(&mut s, b"STATUS now"), b"ERR: Invalid command\n".to_vec());
    assert_eq!(handle_request(&mut s, b"store a b"), b"ERR: Invalid command\n".to_vec());
    assert_eq!(handle_request(&mut s, b"STORE a b c"), b"ERR: Invalid command\n".to_vec());
    assert_eq!(s.key_count(), 0);
}
