use skunkr::mem::MemStore;
use skunkr::service::{GetRequest, Service, SetRequest};
use skunkr::store::KeyValueStore;

fn b(s: &str) -> Vec<u8> {
    s.as_bytes().to_vec()
}

fn t(s: &str) -> Option<String> {
    Some(String::from(s))
}

#[test]
fn round_trip_named_table() {
    let mut store = MemStore::new();
    assert!(store.set(&t("t"), b("k"), b("v")));
    assert_eq!(store.get(&t("t"), &b("k")), Ok(Some(b("v"))));
}

#[test]
fn round_trip_default_table() {
    let mut store = MemStore::new();
    assert!(store.set(&None, b("k"), b("hello")));
    assert_eq!(store.get(&None, &b("k")), Ok(Some(b("hello"))));
}

#[test]
fn overwrite_keeps_latest_value() {
    let mut store = MemStore::new();
    assert!(store.set(&t("t"), b("k"), b("one")));
    assert!(store.set(&t("t"), b("k"), b("two")));
    assert_eq!(store.get(&t("t"), &b("k")), Ok(Some(b("two"))));
}

#[test]
fn absent_key_reads_as_none() {
    let mut store = MemStore::new();
    assert!(store.set(&t("t"), b("k"), b("v")));
    assert_eq!(store.get(&t("t"), &b("other")), Ok(None));
}

#[test]
fn absent_table_reads_as_none() {
    let store = MemStore::new();
    assert_eq!(store.get(&t("no_such_table"), &b("k")), Ok(None));
    assert_eq!(store.get(&None, &b("k")), Ok(None));
}

#[test]
fn table_isolation() {
    let mut store = MemStore::new();
    assert!(store.set(&t("a"), b("k"), b("v")));
    assert_eq!(store.get(&t("b"), &b("k")), Ok(None));
    assert_eq!(store.get(&None, &b("k")), Ok(None));
    assert_eq!(store.get(&t("a"), &b("k")), Ok(Some(b("v"))));
}

#[test]
fn table_limit_rejects_new_tables() {
    let mut store = MemStore::new_with_limit(2);
    assert!(store.set(&t("t1"), b("k"), b("v1")));
    assert!(store.set(&t("t2"), b("k"), b("v2")));
    // the third named table is over the limit
    assert!(!store.set(&t("t3"), b("k"), b("v3")));
    assert_eq!(store.get(&t("t3"), &b("k")), Ok(None));
    // existing tables and the default table still accept writes
    assert!(store.set(&t("t1"), b("k2"), b("v4")));
    assert!(store.set(&None, b("k"), b("v5")));
    assert_eq!(store.get(&t("t1"), &b("k2")), Ok(Some(b("v4"))));
}

#[test]
fn table_limit_default_is_ten() {
    let mut store = MemStore::new();
    for i in 0..10 {
        assert!(store.set(&t(&format!("table{}", i)), b("k"), b("v")));
    }
    assert!(!store.set(&t("one_too_many"), b("k"), b("v")));
}

#[test]
fn service_get_reports_presence() {
    let mut service = Service::new(MemStore::new());
    let resp = service.set(SetRequest { table: t("t"), key: b("k"), value: b("v") });
    assert!(resp.success);
    let hit = service.get(GetRequest { table: t("t"), key: b("k") }).unwrap();
    assert!(hit.found);
    assert_eq!(hit.value, b("v"));
    let miss = service.get(GetRequest { table: t("t"), key: b("absent") }).unwrap();
    assert!(!miss.found);
    assert_eq!(miss.value, Vec::<u8>::new());
}

#[test]
fn service_distinguishes_empty_value_from_absent() {
    let mut service = Service::new(MemStore::new());
    let resp = service.set(SetRequest { table: t("t"), key: b("k"), value: Vec::new() });
    assert!(resp.success);
    let hit = service.get(GetRequest { table: t("t"), key: b("k") }).unwrap();
    assert!(hit.found);
    assert_eq!(hit.value, Vec::<u8>::new());
    let miss = service.get(GetRequest { table: t("t"), key: b("other") }).unwrap();
    assert!(!miss.found);
}

#[test]
fn first_entry_from_finds_least_match() {
    let mut store = MemStore::new();
    assert!(store.set(&t("t"), b("b"), b("2")));
    assert!(store.set(&t("t"), b("d"), b("4")));
    assert_eq!(store.first_entry_from(&t("t"), &b("")), Ok(Some((b("b"), b("2")))));
    assert_eq!(store.first_entry_from(&t("t"), &b("c")), Ok(Some((b("d"), b("4")))));
    assert_eq!(store.first_entry_from(&t("t"), &b("e")), Ok(None));
}

#[test]
fn first_entry_from_missing_table_is_an_error() {
    let store = MemStore::new();
    assert_eq!(
        store.first_entry_from(&t("nope"), &b("")),
        Err(skunkr::store::StoreError::TableMissing)
    );
}
