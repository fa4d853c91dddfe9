use icp_cdn_backend::chunk::{chunk_at, chunk_count, CHUNK_SIZE};
use icp_cdn_backend::key::{derive_key, StoreError};
use icp_cdn_backend::store::AssetStore;

const EMPTY_SHA256: [u8; 32] = [
    0xe3, 0xb0, 0xc4, 0x42, 0x98, 0xfc, 0x1c, 0x14, 0x9a, 0xfb, 0xf4, 0xc8, 0x99, 0x6f, 0xb9, 0x24,
    0x27, 0xae, 0x41, 0xe4, 0x64, 0x9b, 0x93, 0x4c, 0xa4, 0x95, 0x99, 0x1b, 0x78, 0x52, 0xb8, 0x55,
];

#[test]
fn empty_store_root_is_digest_of_nothing() {
    let s = AssetStore::new();
    assert_eq!(s.root_hash(), EMPTY_SHA256.to_vec());
}

#[test]
fn root_changes_on_upload_and_is_32_bytes() {
    let mut s = AssetStore::new();
    let before = s.root_hash();
    assert_eq!(s.upload_asset("alice", "/f", vec![1, 2, 3]), Ok(()));
    let after = s.root_hash();
    assert_eq!(after.len(), 32);
    assert_ne!(before, after);
}

#[test]
fn put_then_get_returns_content() {
    let mut s = AssetStore::new();
    assert_eq!(s.upload_asset("alice", "a.txt", b"hello".to_vec()), Ok(()));
    assert_eq!(s.get_asset("alice", "a.txt"), Ok(b"hello".to_vec()));
}

#[test]
fn overwrite_replaces_content() {
    let mut s = AssetStore::new();
    s.upload_asset("alice", "a.txt", b"one".to_vec()).unwrap();
    s.upload_asset("alice", "a.txt", b"two".to_vec()).unwrap();
    assert_eq!(s.get_asset("alice", "a.txt"), Ok(b"two".to_vec()));
    assert_eq!(s.list_assets("alice"), vec!["a.txt".to_string()]);
}

#[test]
fn same_put_twice_keeps_root() {
    let mut s = AssetStore::new();
    s.upload_asset("alice", "k", vec![9, 9]).unwrap();
    let once = s.root_hash();
    s.upload_asset("alice", "k", vec![9, 9]).unwrap();
    assert_eq!(s.root_hash(), once);
}

#[test]
fn root_does_not_depend_on_upload_order() {
    let mut a = AssetStore::new();
    a.upload_asset("t", "x", vec![1]).unwrap();
    a.upload_asset("t", "y", vec![2]).unwrap();
    a.upload_asset("u", "x", vec![3]).unwrap();
    let mut b = AssetStore::new();
    b.upload_asset("u", "x", vec![3]).unwrap();
    b.upload_asset("t", "y", vec![2]).unwrap();
    b.upload_asset("t", "x", vec![1]).unwrap();
    assert_eq!(a.root_hash(), b.root_hash());
}

#[test]
fn empty_content_is_refused() {
    let mut s = AssetStore::new();
    let root = s.root_hash();
    assert_eq!(s.upload_asset("alice", "a", vec![]), Err(StoreError::InvalidInput));
    assert_eq!(s.root_hash(), root);
    assert_eq!(s.get_asset("alice", "a"), Err(StoreError::NotFound));
}

#[test]
fn empty_path_is_refused() {
    let mut s = AssetStore::new();
    assert_eq!(s.upload_asset("alice", "", vec![1]), Err(StoreError::InvalidInput));
    assert_eq!(s.get_asset("alice", ""), Err(StoreError::InvalidInput));
    assert_eq!(s.delete_asset("alice", ""), Err(StoreError::InvalidInput));
    assert!(derive_key("alice", "").is_err());
    assert!(derive_key("alice", "p").is_ok());
}

#[test]
fn delete_missing_is_not_found() {
    let mut s = AssetStore::new();
    assert_eq!(s.delete_asset("alice", "nope"), Err(StoreError::NotFound));
}

#[test]
fn delete_removes_and_changes_root() {
    let mut s = AssetStore::new();
    s.upload_asset("alice", "a", vec![1]).unwrap();
    s.upload_asset("alice", "b", vec![2]).unwrap();
    let before = s.root_hash();
    assert_eq!(s.delete_asset("alice", "a"), Ok(()));
    assert_eq!(s.get_asset("alice", "a"), Err(StoreError::NotFound));
    assert_ne!(s.root_hash(), before);
    assert_eq!(s.delete_asset("alice", "a"), Err(StoreError::NotFound));
}

#[test]
fn delete_only_key_restores_empty_root() {
    let mut s = AssetStore::new();
    let empty = s.root_hash();
    s.upload_asset("alice", "a", vec![1]).unwrap();
    s.delete_asset("alice", "a").unwrap();
    assert_eq!(s.root_hash(), empty);
}

#[test]
fn chunks_reassemble_content() {
    let content: Vec<u8> = (0..2_500_001u32).map(|i| (i % 251) as u8).collect();
    let mut s = AssetStore::new();
    s.upload_asset("alice", "big.bin", content.clone()).unwrap();
    let n = s.get_asset_chunk_count("alice", "big.bin").unwrap();
    assert_eq!(n, 3);
    let mut joined = Vec::new();
    for i in 0..n {
        joined.extend(s.get_asset_chunk("alice", "big.bin", i).unwrap());
    }
    assert_eq!(joined, content);
    assert_eq!(s.get_asset_chunk("alice", "big.bin", 3), Err(StoreError::OutOfRange));
    assert_eq!(s.get_asset_chunk("alice", "none", 0), Err(StoreError::NotFound));
    assert_eq!(s.get_asset_chunk_count("alice", "none"), Err(StoreError::NotFound));
}

#[test]
fn chunk_arithmetic() {
    assert_eq!(CHUNK_SIZE, 1_000_000);
    assert_eq!(chunk_count(0, 4), 0);
    assert_eq!(chunk_count(1, 4), 1);
    assert_eq!(chunk_count(8, 4), 2);
    assert_eq!(chunk_count(9, 4), 3);
    let c = vec![1u8, 2, 3, 4, 5, 6, 7, 8, 9, 10];
    assert_eq!(chunk_at(&c, 0, 4), Some(vec![1, 2, 3, 4]));
    assert_eq!(chunk_at(&c, 2, 4), Some(vec![9, 10]));
    assert_eq!(chunk_at(&c, 3, 4), None);
    let mut joined = Vec::new();
    for i in 0..chunk_count(c.len(), 3) {
        joined.extend(chunk_at(&c, i, 3).unwrap());
    }
    assert_eq!(joined, c);
}

#[test]
fn append_before_start_is_not_found() {
    let mut s = AssetStore::new();
    assert_eq!(s.upload_chunk("alice", "f", vec![1]), Err(StoreError::NotFound));
    assert_eq!(s.commit_upload("alice", "f"), Err(StoreError::NotFound));
    assert_eq!(s.abort_upload("alice", "f"), Err(StoreError::NotFound));
}

#[test]
fn appends_commit_in_order() {
    let mut s = AssetStore::new();
    s.start_upload("alice", "f").unwrap();
    s.upload_chunk("alice", "f", vec![1, 2]).unwrap();
    s.upload_chunk("alice", "f", vec![3]).unwrap();
    assert_eq!(s.get_asset("alice", "f"), Err(StoreError::NotFound));
    assert_eq!(s.commit_upload("alice", "f"), Ok(()));
    assert_eq!(s.get_asset("alice", "f"), Ok(vec![1, 2, 3]));
    assert_eq!(s.upload_chunk("alice", "f", vec![4]), Err(StoreError::NotFound));
}

#[test]
fn abort_leaves_store_untouched() {
    let mut s = AssetStore::new();
    s.upload_asset("alice", "f", vec![7]).unwrap();
    let root = s.root_hash();
    s.start_upload("alice", "f").unwrap();
    s.upload_chunk("alice", "f", vec![1, 2]).unwrap();
    assert_eq!(s.abort_upload("alice", "f"), Ok(()));
    assert_eq!(s.get_asset("alice", "f"), Ok(vec![7]));
    assert_eq!(s.root_hash(), root);
    assert_eq!(s.upload_chunk("alice", "f", vec![1]), Err(StoreError::NotFound));
}

#[test]
fn commit_of_empty_session_is_refused() {
    let mut s = AssetStore::new();
    s.start_upload("alice", "f").unwrap();
    assert_eq!(s.commit_upload("alice", "f"), Err(StoreError::InvalidInput));
    s.upload_chunk("alice", "f", vec![5]).unwrap();
    assert_eq!(s.commit_upload("alice", "f"), Ok(()));
    assert_eq!(s.get_asset("alice", "f"), Ok(vec![5]));
}

#[test]
fn restart_discards_buffer() {
    let mut s = AssetStore::new();
    s.start_upload("alice", "f").unwrap();
    s.upload_chunk("alice", "f", vec![1]).unwrap();
    s.start_upload("alice", "f").unwrap();
    s.upload_chunk("alice", "f", vec![2]).unwrap();
    s.commit_upload("alice", "f").unwrap();
    assert_eq!(s.get_asset("alice", "f"), Ok(vec![2]));
}

#[test]
fn tenants_are_isolated() {
    let mut s = AssetStore::new();
    s.upload_asset("alice", "/f", vec![1]).unwrap();
    assert!(!s.list_assets("bob").contains(&"/f".to_string()));
    assert_eq!(s.get_asset("bob", "/f"), Err(StoreError::NotFound));
    assert_eq!(s.list_assets("alice"), vec!["/f".to_string()]);
}

#[test]
fn tenant_prefix_does_not_collide() {
    let mut s = AssetStore::new();
    s.upload_asset("ab", "c", vec![1]).unwrap();
    s.upload_asset("a", "bc", vec![2]).unwrap();
    assert_eq!(s.get_asset("ab", "c"), Ok(vec![1]));
    assert_eq!(s.get_asset("a", "bc"), Ok(vec![2]));
    assert_eq!(s.list_assets("a"), vec!["bc".to_string()]);
}

#[test]
fn list_is_sorted_and_complete() {
    let mut s = AssetStore::new();
    s.upload_asset("t", "b", vec![1]).unwrap();
    s.upload_asset("t", "a", vec![1]).unwrap();
    s.upload_asset("u", "z", vec![1]).unwrap();
    s.upload_asset("t", "c", vec![1]).unwrap();
    assert_eq!(s.list_assets("t"), vec!["a".to_string(), "b".to_string(), "c".to_string()]);
    assert_eq!(s.list_assets("nobody"), Vec::<String>::new());
}

#[test]
fn upload_session_scenario() {
    let mut s = AssetStore::new();
    s.start_upload("alice", "img.png").unwrap();
    s.upload_chunk("alice", "img.png", vec![0u8; 500_000]).unwrap();
    s.upload_chunk("alice", "img.png", vec![1u8; 500_000]).unwrap();
    s.commit_upload("alice", "img.png").unwrap();
    assert_eq!(s.get_asset_chunk_count("alice", "img.png"), Ok(1));
    assert_eq!(
        s.get_asset_info("alice", "img.png"),
        Some((1_000_000, "image/png".to_string()))
    );
    assert_eq!(s.get_asset_info("alice", "other.png"), None);
}
