use std::path::Path;
use trie_storage::hash::{byte_to_hex, trie_hash_from_bytes, BlockHeaderHash, TrieHash};
use trie_storage::storage::TrieFileStorage;

fn counting_hash() -> BlockHeaderHash {
    let mut bytes = [0u8; 32];
    for i in 0..32 {
        bytes[i] = (i * 8 + 7) as u8;
    }
    BlockHeaderHash(bytes)
}

#[test]
fn byte_has_two_digits() {
    assert_eq!(byte_to_hex(0), "00");
    assert_eq!(byte_to_hex(0x0a), "0a");
    assert_eq!(byte_to_hex(0x9f), "9f");
    assert_eq!(byte_to_hex(255), "ff");
}

#[test]
fn every_byte_is_as_the_formatter_has_it() {
    for byte in 0..=255u8 {
        assert_eq!(byte_to_hex(byte), format!("{:02x}", byte));
    }
}

#[test]
fn hash_text_is_lower_case_and_in_order() {
    assert_eq!(
        counting_hash().to_hex(),
        "070f171f272f373f474f575f676f777f878f979fa7afb7bfc7cfd7dfe7eff7ff",
    );
}

#[test]
fn hash_text_is_read_back() {
    let bhh = counting_hash();
    assert_eq!(BlockHeaderHash::from_hex(&bhh.to_hex()), Some(bhh));
    assert_eq!(BlockHeaderHash::from_hex(&bhh.to_hex().to_uppercase()), Some(bhh));
}

#[test]
fn other_texts_are_no_hashes() {
    let text = counting_hash().to_hex();
    assert_eq!(BlockHeaderHash::from_hex(""), None);
    assert_eq!(BlockHeaderHash::from_hex(&text[1..]), None);
    assert_eq!(BlockHeaderHash::from_hex(&format!("{}0", text)), None);
    assert_eq!(BlockHeaderHash::from_hex(&format!("{}.tmp", text)), None);
    assert_eq!(BlockHeaderHash::from_hex(&format!("g{}", &text[1..])), None);
    assert_eq!(BlockHeaderHash::from_hex(&format!("{}g", &text[..63])), None);
    assert_eq!(BlockHeaderHash::from_hex(&format!("{}\u{e9}", &text[..62])), None);
}

#[test]
fn hashes_are_equal_if_all_bytes_are() {
    let a = counting_hash();
    let mut bytes = a.0;
    assert!(a == BlockHeaderHash(bytes));
    bytes[31] ^= 1;
    assert!(a != BlockHeaderHash(bytes));
    assert!(TrieHash(a.0) == TrieHash(a.0));
    assert!(TrieHash(a.0) != TrieHash(bytes));
}

#[test]
fn hashes_are_taken_from_the_front_of_bytes() {
    let mut bytes: Vec<u8> = counting_hash().0.to_vec();
    bytes.push(99);
    assert_eq!(BlockHeaderHash::from_bytes(&bytes), counting_hash());
    assert_eq!(trie_hash_from_bytes(&bytes), TrieHash(counting_hash().0));
}

#[test]
fn sentinel_is_all_ones() {
    assert_eq!(TrieFileStorage::block_sentinel().0, [255u8; 32]);
}

#[test]
fn block_paths_are_exact() {
    let dir = "/data/index".to_string();
    let bhh = counting_hash();
    let hex = bhh.to_hex();
    assert_eq!(TrieFileStorage::block_dir(&dir, &bhh), "/data/index/ff/f7");
    assert_eq!(TrieFileStorage::block_path(&dir, &bhh), format!("/data/index/ff/f7/{}", hex));
    assert_eq!(
        TrieFileStorage::block_path_tmp(&dir, &bhh),
        format!("/data/index/ff/f7/{}.tmp", hex),
    );
}

#[test]
fn block_paths_join_as_paths_do() {
    let bhh = counting_hash();
    for dir in ["", "/", "a", "a/", "a//", "/a/b", "\u{e9}t\u{e9}"] {
        let dir = dir.to_string();
        let joined = Path::new(&dir).join("ff").join("f7");
        assert_eq!(Some(TrieFileStorage::block_dir(&dir, &bhh).as_str()), joined.to_str());
        assert_eq!(
            Some(TrieFileStorage::block_path(&dir, &bhh).as_str()),
            joined.join(bhh.to_hex()).to_str(),
        );
        assert_eq!(
            Some(TrieFileStorage::block_path_tmp(&dir, &bhh).as_str()),
            joined.join(format!("{}.tmp", bhh.to_hex())).to_str(),
        );
    }
}

#[test]
fn files_of_two_blocks_differ() {
    let dir = "d".to_string();
    let a = counting_hash();
    let b = TrieFileStorage::block_sentinel();
    assert_ne!(TrieFileStorage::block_path(&dir, &a), TrieFileStorage::block_path(&dir, &b));
    assert_ne!(TrieFileStorage::block_path_tmp(&dir, &a), TrieFileStorage::block_path_tmp(&dir, &b));
    assert_ne!(TrieFileStorage::block_path(&dir, &a), TrieFileStorage::block_path_tmp(&dir, &a));
}
