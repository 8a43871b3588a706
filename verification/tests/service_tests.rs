use skunkr::args::Args;
use skunkr::bytes::{bytes_eq, bytes_le, copy_bytes};
use skunkr::mem::{clone_name, name_eq, MemStore};
use skunkr::service::{Service, ScanRequest};

fn b(s: &str) -> Vec<u8> {
    s.as_bytes().to_vec()
}

#[test]
fn scan_descriptor_normalizes_empty_from() {
    let d = Service::<MemStore>::scan_descriptor(ScanRequest {
        table: Some(String::from("t")),
        from: b(""),
    });
    assert_eq!(d.table, Some(String::from("t")));
    assert_eq!(d.from, None);
    let d2 = Service::<MemStore>::scan_descriptor(ScanRequest { table: None, from: b("k") });
    assert_eq!(d2.table, None);
    assert_eq!(d2.from, Some(b("k")));
}

#[test]
fn bytes_compare_lexicographically() {
    assert!(bytes_le(&b(""), &b("a")));
    assert!(bytes_le(&b("a"), &b("a")));
    assert!(bytes_le(&b("a"), &b("ab")));
    assert!(!bytes_le(&b("ab"), &b("a")));
    assert!(bytes_le(&b("ab"), &b("b")));
    assert!(!bytes_le(&b("b"), &b("ab")));
    assert!(bytes_le(&vec![0u8, 255u8], &vec![1u8]));
}

#[test]
fn bytes_equality_and_copy() {
    assert!(bytes_eq(&b("abc"), &b("abc")));
    assert!(!bytes_eq(&b("abc"), &b("abd")));
    assert!(!bytes_eq(&b("abc"), &b("ab")));
    let k = b("key");
    assert_eq!(copy_bytes(&k), k);
}

#[test]
fn table_names_compare_by_value() {
    let a = Some(String::from("t"));
    assert!(name_eq(&a, &Some(String::from("t"))));
    assert!(!name_eq(&a, &Some(String::from("u"))));
    assert!(!name_eq(&a, &None));
    assert!(name_eq(&None, &None));
    assert_eq!(clone_name(&a), a);
    assert_eq!(clone_name(&None), None);
}

#[test]
fn args_select_backend_directory() {
    let args = Args { data: String::from("/data"), port: 7070, mdbx: true, leveldb: false };
    assert_eq!(args.data_dir_name(), "mdbx");
    assert_eq!(args.data_path(), Ok(String::from("/data/mdbx")));
    let neither = Args { data: String::from("/data"), port: 7070, mdbx: false, leveldb: false };
    assert_eq!(neither.data_dir_name(), "mdbx");
    assert_eq!(neither.data_path(), Ok(String::from("/data/mdbx")));
}

#[test]
fn args_reject_unimplemented_backend() {
    let args = Args { data: String::from("/data"), port: 7070, mdbx: false, leveldb: true };
    assert_eq!(args.data_dir_name(), "leveldb");
    assert_eq!(args.data_path(), Err(String::from("leveldb not implemented")));
}
