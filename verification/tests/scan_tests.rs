use skunkr::mem::MemStore;
use skunkr::scan::{drain_up_to, scan_channel, ScanStatus};
use skunkr::service::{Service, ScanRequest, SetRequest};

fn b(s: &str) -> Vec<u8> {
    s.as_bytes().to_vec()
}

fn t(s: &str) -> Option<String> {
    Some(String::from(s))
}

fn service_with(pairs: &[(&str, &str)], table: &str) -> Service<MemStore> {
    let mut service = Service::new(MemStore::new());
    for (k, v) in pairs {
        let resp = service.set(SetRequest { table: t(table), key: b(k), value: b(v) });
        assert!(resp.success);
    }
    service
}

#[test]
fn scan_yields_ascending_order() {
    let service = service_with(&[("c", "3"), ("a", "1"), ("b", "2")], "t");
    let (rows, status) = service
        .scan_collect(ScanRequest { table: t("t"), from: b("") }, 10, 3000)
        .unwrap();
    assert_eq!(status, ScanStatus::Completed);
    assert_eq!(rows, vec![(b("a"), b("1")), (b("b"), b("2")), (b("c"), b("3"))]);
}

#[test]
fn scan_from_start_key() {
    let service = service_with(&[("a", "1"), ("b", "2"), ("c", "3")], "t");
    let (rows, status) = service
        .scan_collect(ScanRequest { table: t("t"), from: b("b") }, 10, 3000)
        .unwrap();
    assert_eq!(status, ScanStatus::Completed);
    assert_eq!(rows, vec![(b("b"), b("2")), (b("c"), b("3"))]);
}

#[test]
fn scan_from_key_between_entries() {
    let service = service_with(&[("a", "1"), ("c", "3")], "t");
    let (rows, status) = service
        .scan_collect(ScanRequest { table: t("t"), from: b("b") }, 10, 3000)
        .unwrap();
    assert_eq!(status, ScanStatus::Completed);
    assert_eq!(rows, vec![(b("c"), b("3"))]);
}

#[test]
fn scan_empty_from_means_full_scan() {
    let service = service_with(&[("x", "24"), ("y", "25")], "t");
    let full = service
        .scan_collect(ScanRequest { table: t("t"), from: b("") }, 10, 3000)
        .unwrap();
    assert_eq!(full.1, ScanStatus::Completed);
    assert_eq!(full.0.len(), 2);
}

#[test]
fn scan_missing_table_ends_empty() {
    let service = Service::new(MemStore::new());
    let (rows, status) = service
        .scan_collect(ScanRequest { table: t("nowhere"), from: b("") }, 10, 3000)
        .unwrap();
    assert_eq!(status, ScanStatus::AbortedTableMissing);
    assert!(rows.is_empty());
}

#[test]
fn scan_respects_prefix_order_of_keys() {
    // a proper prefix sorts before its extensions
    let service = service_with(&[("ab", "2"), ("a", "1"), ("b", "3")], "t");
    let (rows, status) = service
        .scan_collect(ScanRequest { table: t("t"), from: b("") }, 10, 3000)
        .unwrap();
    assert_eq!(status, ScanStatus::Completed);
    assert_eq!(rows, vec![(b("a"), b("1")), (b("ab"), b("2")), (b("b"), b("3"))]);
}

#[test]
fn backpressure_stalled_consumer_aborts() {
    // the bounded channel holds one pair and nobody drains it: the
    // producer's second push times out instead of hanging or buffering
    let service = service_with(&[("a", "1"), ("b", "2"), ("c", "3")], "t");
    let (rows, status) = service
        .scan_collect(ScanRequest { table: t("t"), from: b("") }, 1, 50)
        .unwrap();
    assert_eq!(status, ScanStatus::AbortedSendTimeout);
    assert_eq!(rows, vec![(b("a"), b("1"))]);
}

#[test]
fn scan_stream_ends_after_close() {
    let (mut sink, mut stream) = scan_channel(4, 100).unwrap();
    sink.close();
    let rows = drain_up_to(&mut stream, 4);
    assert!(rows.is_empty());
}

#[test]
fn scan_dropped_stream_times_out_sender() {
    let service = service_with(&[("a", "1"), ("b", "2")], "t");
    let (mut sink, stream) = scan_channel(1, 50).unwrap();
    drop(stream);
    let status = service.scan(ScanRequest { table: t("t"), from: b("") }, &mut sink);
    assert_eq!(status, ScanStatus::AbortedSendTimeout);
}
