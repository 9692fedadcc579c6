use sharded_vault::protocol::{handle_request, tokenize};
use sharded_vault::shard::{ShardError, VaultShard};

#[test]
fn restart_keeps_stored_shares() {
    let mut s = VaultShard::new(1, 3, 5).unwrap();
    assert_eq!(handle_request(&mut s, b"STORE alpha deadbeef"), b"OK: Secret stored\n".to_vec());
    let saved = s.snapshot();
    let mut restarted = VaultShard::restore(1, 3, 5, &saved).unwrap();
    assert_eq!(handle_request(&mut restarted, b"GET alpha"), b"deadbeef\n".to_vec());
    assert_eq!(restarted.key_count(), 1);
}

#[test]
fn snapshot_layout() {
    let mut s = VaultShard::new(0, 1, 1).unwrap();
    s.store(b"k", b"vv").unwrap();
    assert_eq!(
        s.snapshot(),
        vec![b'S', b'V', b'L', b'T', 0, 0, 0, 1, b'k', 0, 0, 0, 2, b'v', b'v']
    );
    let empty = VaultShard::new(0, 1, 1).unwrap();
    assert_eq!(empty.snapshot(), b"SVLT".to_vec());
    let back = VaultShard::restore(0, 1, 1, b"SVLT").unwrap();
    assert_eq!(back.key_count(), 0);
}

#[test]
fn restore_many_records() {
    let mut s = VaultShard::new(0, 2, 2).unwrap();
    for i in 0..300u32 {
        let key = format!("key{}", i);
        let share: Vec<u8> = (0..(i % 7)).map(|b| b as u8).collect();
        s.store_secret(&key, &share).unwrap();
    }
    let back = VaultShard::restore(0, 2, 2, &s.snapshot()).unwrap();
    assert_eq!(back.key_count(), 300);
    assert_eq!(back.get_share("key13").unwrap(), vec![0u8, 1, 2, 3, 4, 5]);
}

#[test]
fn corrupt_snapshots_are_refused() {
    let mut s = VaultShard::new(0, 1, 1).unwrap();
    s.store(b"k", b"vv").unwrap();
    let good = s.snapshot();
    let truncated = &good[..good.len() - 1];
    assert_eq!(VaultShard::restore(0, 1, 1, truncated).err(), Some(ShardError::Corrupt));
    let mut bad_magic = good.clone();
    bad_magic[0] = b'X';
    assert_eq!(VaultShard::restore(0, 1, 1, &bad_magic).err(), Some(ShardError::Corrupt));
    let mut doubled = good.clone();
    doubled.extend_from_slice(&good[4..]);
    assert_eq!(VaultShard::restore(0, 1, 1, &doubled).err(), Some(ShardError::Corrupt));
    assert_eq!(VaultShard::restore(0, 1, 1, b"SV").err(), Some(ShardError::Corrupt));
    assert_eq!(VaultShard::restore(0, 2, 1, &good).err(), Some(ShardError::InvalidConfig));
}

#[test]
fn tokens_split_on_whitespace_runs() {
    let toks = tokenize(b"  GET\t\tkey \r\n");
    assert_eq!(toks, vec![b"GET".to_vec(), b"key".to_vec()]);
    assert!(tokenize(b"").is_empty());
}
