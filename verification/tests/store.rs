use chunk_store::Chunk;

#[test]
fn it_works() {
    let mut chunk = Chunk::new(4);
    let value = "this is test";
    let value_b = "this is new test";
    let key = String::from("a");

    chunk.insert(key.clone(), value.as_bytes().to_vec());

    let a = chunk.get(key.clone());

    assert_eq!(a, Some(value.as_bytes().to_vec()));
    assert!(chunk.remove(key.clone()));

    chunk.insert(key.clone(), value_b.as_bytes().to_vec());

    let b = chunk.get(key.clone());
    assert_eq!(b, Some(value_b.as_bytes().to_vec()));
    assert!(chunk.remove(key.clone()));
}

#[test]
fn first_insert_appends_at_block_offsets() {
    let mut chunk = Chunk::new(4);
    chunk.insert(String::from("a"), b"this is test".to_vec());
    assert_eq!(chunk.storage.len(), 12);
    assert_eq!(chunk.indexs.len(), 1);
    assert_eq!(chunk.indexs[0].1.blocks, vec![0, 4, 8]);
    assert_eq!(chunk.indexs[0].1.count, 12);
    assert_eq!(chunk.get(String::from("a")), Some(b"this is test".to_vec()));
    assert!(chunk.remove(String::from("a")));
    assert_eq!(chunk.drop_blocks, vec![0, 4, 8]);
}

#[test]
fn reinsert_reuses_freed_blocks_in_order() {
    let mut chunk = Chunk::new(4);
    chunk.insert(String::from("a"), b"this is test".to_vec());
    assert!(chunk.remove(String::from("a")));
    chunk.insert(String::from("a"), b"this is new test".to_vec());
    assert_eq!(chunk.indexs[0].1.blocks, vec![0, 4, 8, 12]);
    assert_eq!(chunk.storage.len(), 16);
    assert!(chunk.drop_blocks.is_empty());
    assert_eq!(chunk.get(String::from("a")), Some(b"this is new test".to_vec()));
    assert!(chunk.remove(String::from("a")));
}

#[test]
fn longer_reinsert_reuses_then_appends() {
    let mut chunk = Chunk::new(4);
    chunk.insert(String::from("a"), b"this is test".to_vec());
    assert!(chunk.remove(String::from("a")));
    chunk.insert(String::from("a"), b"this is new test!".to_vec());
    assert_eq!(chunk.indexs[0].1.blocks, vec![0, 4, 8, 12, 16]);
    assert_eq!(chunk.storage.len(), 20);
    assert_eq!(chunk.get(String::from("a")), Some(b"this is new test!".to_vec()));
}

#[test]
fn padding_stays_zero_and_hidden() {
    let mut chunk = Chunk::new(4);
    chunk.insert(String::from("k"), vec![7u8, 8, 9, 10, 11]);
    assert_eq!(chunk.storage, vec![7u8, 8, 9, 10, 11, 0, 0, 0]);
    assert_eq!(chunk.get(String::from("k")), Some(vec![7u8, 8, 9, 10, 11]));
}

#[test]
fn reused_block_is_zero_padded() {
    let mut chunk = Chunk::new(4);
    chunk.insert(String::from("a"), b"abcdefgh".to_vec());
    assert!(chunk.remove(String::from("a")));
    chunk.insert(String::from("b"), b"xy".to_vec());
    assert_eq!(chunk.storage[..4].to_vec(), vec![b'x', b'y', 0, 0]);
    assert_eq!(chunk.drop_blocks, vec![4]);
    assert_eq!(chunk.storage.len(), 8);
    assert_eq!(chunk.get(String::from("b")), Some(b"xy".to_vec()));
}

#[test]
fn exact_multiple_needs_no_padding() {
    let mut chunk = Chunk::new(3);
    chunk.insert(String::from("k"), b"abcdef".to_vec());
    assert_eq!(chunk.storage.len(), 6);
    assert_eq!(chunk.get(String::from("k")), Some(b"abcdef".to_vec()));
}

#[test]
fn empty_value_round_trip() {
    let mut chunk = Chunk::new(4);
    chunk.insert(String::from("e"), Vec::new());
    assert_eq!(chunk.get(String::from("e")), Some(Vec::new()));
    assert_eq!(chunk.indexs[0].1.blocks.len(), 0);
    assert_eq!(chunk.indexs[0].1.count, 0);
    assert_eq!(chunk.storage.len(), 0);
}

#[test]
fn tombstone_after_remove() {
    let mut chunk = Chunk::new(4);
    chunk.insert(String::from("k"), b"data".to_vec());
    assert!(chunk.remove(String::from("k")));
    assert_eq!(chunk.get(String::from("k")), None);
    assert!(!chunk.remove(String::from("k")));
}

#[test]
fn unknown_key_degrades_quietly() {
    let mut chunk = Chunk::new(4);
    assert_eq!(chunk.get(String::from("missing")), None);
    assert!(!chunk.remove(String::from("missing")));
}

#[test]
fn overwriting_insert_orphans_old_blocks() {
    let mut chunk = Chunk::new(4);
    chunk.insert(String::from("k"), b"old!".to_vec());
    chunk.insert(String::from("k"), b"new!".to_vec());
    assert_eq!(chunk.storage.len(), 8);
    assert!(chunk.drop_blocks.is_empty());
    assert_eq!(chunk.get(String::from("k")), Some(b"new!".to_vec()));
    assert_eq!(chunk.indexs.len(), 1);
}

#[test]
fn two_keys_keep_their_values() {
    let mut chunk = Chunk::new(4);
    chunk.insert(String::from("a"), b"first value".to_vec());
    chunk.insert(String::from("b"), b"second value".to_vec());
    assert_eq!(chunk.get(String::from("a")), Some(b"first value".to_vec()));
    assert_eq!(chunk.get(String::from("b")), Some(b"second value".to_vec()));
    assert!(chunk.remove(String::from("a")));
    assert_eq!(chunk.get(String::from("a")), None);
    assert_eq!(chunk.get(String::from("b")), Some(b"second value".to_vec()));
}

#[test]
fn reuse_does_not_disturb_live_keys() {
    let mut chunk = Chunk::new(4);
    chunk.insert(String::from("a"), b"aaaa".to_vec());
    chunk.insert(String::from("b"), b"bbbb".to_vec());
    assert!(chunk.remove(String::from("a")));
    chunk.insert(String::from("c"), b"cccc".to_vec());
    assert_eq!(chunk.storage.len(), 8);
    assert_eq!(chunk.get(String::from("b")), Some(b"bbbb".to_vec()));
    assert_eq!(chunk.get(String::from("c")), Some(b"cccc".to_vec()));
}

#[test]
fn block_size_one_stores_byte_per_block() {
    let mut chunk = Chunk::new(1);
    chunk.insert(String::from("k"), b"ab".to_vec());
    assert_eq!(chunk.storage.len(), 2);
    assert_eq!(chunk.indexs[0].1.blocks, vec![0, 1]);
    assert_eq!(chunk.get(String::from("k")), Some(b"ab".to_vec()));
}
