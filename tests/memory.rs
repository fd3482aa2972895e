use holochain_core::error::StorageError;
use holochain_core::hash_table::HashTable;
use holochain_core::key::{ContentKey, KeyOrder};
use holochain_core::memory::MemTable;
use holochain_core::record::{Pair, PairMeta};

fn key(s: &str) -> ContentKey {
    ContentKey::from_str(s)
}

fn test_pair(k: &str, content: &str) -> Pair {
    Pair::new(key(k), content.to_string())
}

fn test_meta(k: &str, pair_hash: &ContentKey, attribute: &str, value: &str) -> PairMeta {
    PairMeta::new(
        key(k),
        pair_hash.clone(),
        attribute.to_string(),
        value.to_string(),
    )
}

fn test_table() -> MemTable {
    MemTable::new()
}

/// The checks every backend must pass.
fn standard_suite<T: HashTable>(table: &mut T) {
    let p1 = test_pair("QmPairOne", "foo");
    let p2 = test_pair("QmPairTwo", "bar");

    assert_eq!(table.pair(&p1.key()).unwrap(), None);
    table.put_pair(&p1).unwrap();
    assert_eq!(table.pair(&p1.key()).unwrap(), Some(p1.clone()));
    assert_eq!(table.pair(&p2.key()).unwrap(), None);
    table.put_pair(&p2).unwrap();
    assert_eq!(table.pair(&p2.key()).unwrap(), Some(p2.clone()));
    assert_eq!(table.pair(&p1.key()).unwrap(), Some(p1.clone()));

    let m1 = test_meta("QmMetaOne", &p1.key(), "crowded", "true");
    let m2 = test_meta("QmMetaTwo", &p1.key(), "tag", "x");
    let m3 = test_meta("QmMetaThree", &p2.key(), "tag", "y");

    assert_eq!(table.pair_meta(&m1.key()).unwrap(), None);
    assert_eq!(table.metas_for_pair(&p1).unwrap(), Vec::new());
    table.assert_pair_meta(&m1).unwrap();
    assert_eq!(table.pair_meta(&m1.key()).unwrap(), Some(m1.clone()));
    assert_eq!(table.metas_for_pair(&p1).unwrap(), vec![m1.clone()]);
    table.assert_pair_meta(&m2).unwrap();
    table.assert_pair_meta(&m3).unwrap();
    assert_eq!(table.metas_for_pair(&p1).unwrap(), vec![m1.clone(), m2.clone()]);
    assert_eq!(table.metas_for_pair(&p2).unwrap(), vec![m3.clone()]);
}

#[test]
fn new() {
    test_table();
}

#[test]
fn test_standard_suite() {
    standard_suite(&mut test_table());
}

#[test]
fn put_then_get_returns_the_pair() {
    let mut table = test_table();
    let p = test_pair("QmA", "foo");
    table.put_pair(&p).unwrap();
    let got = table.pair(&key("QmA")).unwrap().unwrap();
    assert_eq!(got, p);
    assert_eq!(got.content(), "foo".to_string());
    assert_eq!(got.key(), key("QmA"));
}

#[test]
fn unknown_key_is_none_not_error() {
    let mut table = test_table();
    table.put_pair(&test_pair("QmA", "foo")).unwrap();
    assert_eq!(table.pair(&key("QmB")), Ok(None));
    assert_eq!(table.pair(&key("")), Ok(None));
    assert_eq!(table.pair(&key("Qm")), Ok(None));
    assert_eq!(table.pair_meta(&key("QmA")), Ok(None));
}

#[test]
fn put_twice_is_idempotent() {
    let mut table = test_table();
    let p = test_pair("QmA", "foo");
    table.put_pair(&p).unwrap();
    table.put_pair(&p).unwrap();
    assert_eq!(table.pair(&p.key()).unwrap(), Some(p.clone()));
    let m = test_meta("QmM", &p.key(), "crowded", "true");
    table.assert_pair_meta(&m).unwrap();
    let listed = table.metas_for_pair(&p).unwrap();
    table.put_pair(&p).unwrap();
    assert_eq!(table.metas_for_pair(&p).unwrap(), listed);
}

#[test]
fn put_with_same_key_replaces_pair() {
    let mut table = test_table();
    table.put_pair(&test_pair("QmA", "foo")).unwrap();
    table.put_pair(&test_pair("QmA", "bar")).unwrap();
    assert_eq!(
        table.pair(&key("QmA")).unwrap(),
        Some(test_pair("QmA", "bar"))
    );
}

#[test]
fn asserted_meta_is_found_by_its_key() {
    let mut table = test_table();
    let m = test_meta("QmM", &key("QmA"), "crowded", "true");
    table.assert_pair_meta(&m).unwrap();
    let got = table.pair_meta(&key("QmM")).unwrap().unwrap();
    assert_eq!(got, m);
    assert_eq!(got.pair_hash(), key("QmA"));
    assert_eq!(got.attribute(), "crowded".to_string());
    assert_eq!(got.value(), "true".to_string());
}

#[test]
fn reasserting_meta_overwrites() {
    let mut table = test_table();
    let p = test_pair("QmA", "foo");
    let first = test_meta("QmM", &p.key(), "crowded", "true");
    let second = test_meta("QmM", &p.key(), "crowded", "false");
    table.assert_pair_meta(&first).unwrap();
    table.assert_pair_meta(&second).unwrap();
    assert_eq!(table.pair_meta(&key("QmM")).unwrap(), Some(second.clone()));
    assert_eq!(table.metas_for_pair(&p).unwrap(), vec![second]);
}

#[test]
fn metas_for_pair_lists_exactly_its_metas_in_key_order() {
    let mut table = test_table();
    let p = test_pair("QmA", "foo");
    let other = test_pair("QmB", "bar");
    table.put_pair(&p).unwrap();
    let c = test_meta("QmC", &p.key(), "k", "3");
    let a = test_meta("QmA1", &p.key(), "k", "1");
    let b = test_meta("QmB1", &p.key(), "k", "2");
    let elsewhere = test_meta("QmAA", &other.key(), "k", "0");
    table.assert_pair_meta(&c).unwrap();
    table.assert_pair_meta(&elsewhere).unwrap();
    table.assert_pair_meta(&a).unwrap();
    table.assert_pair_meta(&b).unwrap();
    let first = table.metas_for_pair(&p).unwrap();
    assert_eq!(first, vec![a.clone(), b.clone(), c.clone()]);
    let second = table.metas_for_pair(&p).unwrap();
    assert_eq!(first, second);
    assert_eq!(table.metas_for_pair(&other).unwrap(), vec![elsewhere]);
}

#[test]
fn metas_for_pair_without_metas_is_empty() {
    let mut table = test_table();
    let p = test_pair("QmA", "foo");
    table.put_pair(&p).unwrap();
    table
        .assert_pair_meta(&test_meta("QmM", &key("QmOther"), "k", "v"))
        .unwrap();
    assert_eq!(table.metas_for_pair(&p), Ok(Vec::new()));
}

#[test]
fn meta_for_missing_pair_is_accepted() {
    let mut table = test_table();
    let absent = test_pair("QmNeverPut", "nothing");
    let m = test_meta("QmM", &absent.key(), "k", "v");
    assert_eq!(table.assert_pair_meta(&m), Ok(()));
    assert_eq!(table.pair(&absent.key()).unwrap(), None);
    assert_eq!(table.metas_for_pair(&absent).unwrap(), vec![m]);
}

#[test]
fn scenario_two_metas_on_one_pair() {
    let mut table = test_table();
    let a = test_pair("QmFooKey", "foo");
    table.put_pair(&a).unwrap();
    let ka = a.key();
    let m1 = test_meta("QmMetaCrowded", &ka, "crowded", "true");
    let m2 = test_meta("QmMetaTag", &ka, "tag", "x");
    table.assert_pair_meta(&m1).unwrap();
    table.assert_pair_meta(&m2).unwrap();
    let listed = table.metas_for_pair(&a).unwrap();
    assert_eq!(listed, vec![m1.clone(), m2.clone()]);
    assert_eq!(table.metas_for_pair(&a).unwrap(), listed);

    let mut reversed = test_table();
    reversed.put_pair(&a).unwrap();
    reversed.assert_pair_meta(&m2).unwrap();
    reversed.assert_pair_meta(&m1).unwrap();
    assert_eq!(reversed.metas_for_pair(&a).unwrap(), listed);
}

#[test]
fn key_order_is_bytewise() {
    assert_eq!(key("a").compare(&key("b")), KeyOrder::Less);
    assert_eq!(key("b").compare(&key("a")), KeyOrder::Greater);
    assert_eq!(key("ab").compare(&key("ab")), KeyOrder::Equal);
    assert_eq!(key("a").compare(&key("ab")), KeyOrder::Less);
    assert_eq!(key("ab").compare(&key("a")), KeyOrder::Greater);
    assert_eq!(key("").compare(&key("")), KeyOrder::Equal);
    assert_eq!(key("").compare(&key("a")), KeyOrder::Less);
    assert_eq!(key("B").compare(&key("a")), KeyOrder::Less);
}

#[test]
fn key_from_str_holds_utf8_bytes() {
    assert_eq!(key("Qm").to_bytes(), vec![0x51u8, 0x6d]);
    assert_eq!(key("é").to_bytes(), vec![0xc3u8, 0xa9]);
    assert_eq!(ContentKey::from_bytes(vec![1u8, 2, 3]).to_bytes(), vec![1u8, 2, 3]);
    assert_eq!(ContentKey::from_bytes(vec![0x51u8, 0x6d]), key("Qm"));
    assert_ne!(key("Qm"), key("Qn"));
}

#[test]
fn storage_error_carries_its_message() {
    let e = StorageError::Backend("disk full".to_string());
    assert_eq!(e.message(), "disk full".to_string());
}
