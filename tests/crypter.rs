use passify::crypter::{CryptoError, Crypter};
use passify::entry::Entry;
use passify::nested_map::{NestedMap, Node};
use passify::store::Store;

fn own(s: &str) -> String {
    String::from(s)
}

fn leaf(s: &str) -> Node {
    Node::Leaf(Entry::String(own(s)))
}

fn new_store() -> Store {
    let mut store = Store::new();
    store.create(&[own("foo1")], leaf("bar1")).unwrap();
    store.create(&[own("foo2")], leaf("bar2")).unwrap();
    store.create(&[own("foo3")], leaf("bar3")).unwrap();
    store
}

#[test]
fn lib_can_contruct() {
    Crypter::new("foobar");
}

#[test]
fn lib_empty_key() {
    Crypter::new("");
}

#[test]
fn crypter_can_contruct() {
    let crypter = Crypter::new("foobar");
    assert!(!crypter.key().iter().all(|b| b == &0));
}

#[test]
fn crypter_empty_key() {
    let crypter = Crypter::new("");
    assert!(!crypter.key().iter().all(|b| b == &0));
}

#[test]
fn key_is_sha256_of_passphrase() {
    let crypter = Crypter::new("foobar");
    let hex: String = crypter.key().iter().map(|b| format!("{:02x}", b)).collect();
    assert_eq!(
        hex,
        "c3ab8ff13720e8ad9047dd39466b3c8974e592c2fa383d4a3960714caef0c4f2"
    );
    assert_eq!(crypter.key().len(), 32);
}

#[test]
fn crypter_round_trip() {
    let mut map = NestedMap::new();
    map.insert(own("foo"), leaf("123"));
    map.insert(own("bar"), leaf("321"));

    let crypter = Crypter::new("foo\u{1f1e7}\u{1f1f7}\u{1f1f3}\u{1f1f4}bar");
    let encrypted = crypter.encrypt(&map).unwrap();
    let decrypted = crypter.decrypt(&encrypted).unwrap();

    assert_eq!(map, decrypted);
}

#[test]
fn lib_round_trip() {
    let mut store = new_store();
    let inner_store = new_store();
    store
        .create(&[own("inner")], Node::Branch(inner_store.into_map()))
        .unwrap();

    let bytes = store.encrypt("mega-pass").unwrap();
    let recovered = Store::decrypt(&bytes, "mega-pass").unwrap();
    assert_eq!(store, recovered);
}

#[test]
fn wrong_passphrase_is_a_crypto_error() {
    let bytes = new_store().encrypt("right").unwrap();
    assert_eq!(Store::decrypt(&bytes, "wrong"), Err(CryptoError::Crypto));
    assert_eq!(Store::decrypt(&bytes[..5], "right"), Err(CryptoError::Crypto));
    assert_eq!(Store::decrypt(&[], "right"), Err(CryptoError::Crypto));
}

#[test]
fn any_flipped_byte_is_detected() {
    let bytes = new_store().encrypt("pass").unwrap();
    for i in 0..bytes.len() {
        let mut tampered = bytes.clone();
        tampered[i] ^= 0x01;
        assert_eq!(
            Store::decrypt(&tampered, "pass"),
            Err(CryptoError::Crypto),
            "byte {}",
            i
        );
    }
}

#[test]
fn nonce_is_fresh_each_time() {
    let store = new_store();
    let one = store.encrypt("pass").unwrap();
    let two = store.encrypt("pass").unwrap();
    assert_ne!(one[..12], two[..12]);
    assert_eq!(Store::decrypt(&one, "pass").unwrap(), store);
    assert_eq!(Store::decrypt(&two, "pass").unwrap(), store);
}

#[test]
fn output_is_compressed_and_hides_plaintext() {
    let mut store = Store::new();
    let long = "secret-value-".repeat(400);
    store.create(&[own("k")], leaf(&long)).unwrap();
    let plain = store.as_map().encode();
    let bytes = store.encrypt("pass").unwrap();
    assert!(bytes.len() < plain.len() / 4);
    let needle = b"secret-value-";
    assert!(!bytes.windows(needle.len()).any(|w| w == needle));
    assert_eq!(Store::decrypt(&bytes, "pass").unwrap(), store);
}

#[test]
fn binary_and_unicode_survive() {
    let mut store = Store::new();
    store
        .create(&[own("bin")], Node::Leaf(Entry::Binary(vec![0, 255, 7])))
        .unwrap();
    store
        .create(&[own("n\u{e9}sted"), own("\u{1f511}")], leaf("v\u{e4}lue"))
        .unwrap();
    let bytes = store.encrypt("").unwrap();
    assert_eq!(Store::decrypt(&bytes, "").unwrap(), store);
}

#[test]
fn entry_from_bytes_picks_text_or_binary() {
    assert_eq!(
        Entry::from_bytes(b"caf\xc3\xa9".to_vec()),
        Entry::String(String::from("caf\u{e9}"))
    );
    assert_eq!(
        Entry::from_bytes(vec![0xff, 0x00]),
        Entry::Binary(vec![0xff, 0x00])
    );
    assert_eq!(Entry::from_bytes(vec![]), Entry::String(String::new()));
}

#[test]
fn data_shorter_than_nonce_and_tag_is_rejected() {
    let crypter = Crypter::new("pass");
    assert_eq!(crypter.decrypt(&[0u8; 27]), Err(CryptoError::Crypto));
    assert_eq!(crypter.decrypt(&[0u8; 28]), Err(CryptoError::Crypto));
    let sealed = crypter.encrypt(&NestedMap::new()).unwrap();
    assert!(sealed.len() >= 28);
    assert_eq!(crypter.decrypt(&sealed), Ok(NestedMap::new()));
}

#[test]
fn output_is_nonce_then_sealed_compressed_tree() {
    let store = new_store();
    let bytes = store.encrypt("pass").unwrap();
    let compressed = miniz_oxide::deflate::compress_to_vec(&store.as_map().encode(), 8);
    assert_eq!(bytes.len(), 12 + compressed.len() + 16);
}
