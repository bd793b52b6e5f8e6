use minikv::store::{Lookup, Store, Ttl};

fn s(x: &str) -> String {
    x.to_string()
}

#[test]
fn ttl_entry_expires() {
    let mut store = Store::new();
    store.set(s("k"), s("v"), Some(Ttl::Millis(100)), 1_000);
    assert_eq!(store.get("k", 1_000), Some(s("v")));
    assert_eq!(store.get("k", 1_099), Some(s("v")));
    assert_eq!(store.get("k", 1_100), None);
    assert_eq!(store.get("k", 1_050), None);
}

#[test]
fn entry_without_ttl_persists() {
    let mut store = Store::new();
    store.set(s("k"), s("v"), None, 5);
    assert_eq!(store.get("k", 5), Some(s("v")));
    assert_eq!(store.get("k", 10_000_000), Some(s("v")));
    assert_eq!(store.get("k", u64::MAX), Some(s("v")));
}

#[test]
fn later_write_wins() {
    let mut store = Store::new();
    store.set(s("k"), s("a"), None, 0);
    store.set(s("k"), s("b"), None, 1);
    assert_eq!(store.get("k", 2), Some(s("b")));
    store.set(s("k"), s("c"), Some(Ttl::Millis(10)), 3);
    store.set(s("k"), s("d"), None, 4);
    assert_eq!(store.get("k", 100), Some(s("d")));
}

#[test]
fn missing_key_is_absent() {
    let mut store = Store::new();
    assert_eq!(store.get("nope", 0), None);
    store.set(s("a"), s("1"), None, 0);
    store.set(s("b"), s("2"), Some(Ttl::Millis(1)), 0);
    assert_eq!(store.get("nope", 0), None);
    assert_eq!(store.get("a", 0), Some(s("1")));
    assert_eq!(store.get("b", 0), Some(s("2")));
    assert_eq!(store.get("b", 1), None);
    assert_eq!(store.get("a", 1), Some(s("1")));
}

#[test]
fn largest_ttl_does_not_overflow() {
    let mut store = Store::new();
    store.set(s("k"), s("v"), Some(Ttl::Millis(u64::MAX)), u64::MAX);
    assert_eq!(store.get("k", u64::MAX), Some(s("v")));
}

#[test]
fn lookup_reads_without_dropping() {
    let mut store = Store::new();
    assert_eq!(store.lookup("k", 0), Lookup::Missing);
    store.set(s("k"), s("v"), Some(Ttl::Millis(10)), 0);
    assert_eq!(store.lookup("k", 9), Lookup::Live(s("v")));
    assert_eq!(store.lookup("k", 10), Lookup::Expired);
    assert_eq!(store.lookup("k", 10), Lookup::Expired);
    assert_eq!(store.get("k", 10), None);
    assert_eq!(store.lookup("k", 10), Lookup::Missing);
}

#[test]
fn default_store_is_empty() {
    let mut store = Store::default();
    assert_eq!(store.get("k", 0), None);
    assert_eq!(store.lookup("k", 0), Lookup::Missing);
}

#[test]
fn ttl_in_seconds() {
    let mut store = Store::new();
    store.set(s("k"), s("v"), Some(Ttl::Seconds(2)), 500);
    assert_eq!(store.get("k", 2_499), Some(s("v")));
    assert_eq!(store.get("k", 2_500), None);
}
