use forum_core::cache::CacheStore;

fn s(x: &str) -> String {
    x.to_string()
}

#[test]
fn scenario_set_get_invalidate() {
    let mut c = CacheStore::new();
    c.set(&s("section"), &s("s1:1"), b"<html>old</html>".to_vec());
    let hit = c.get(&s("section"), &s("s1:1"));
    assert_eq!(hit, Some(b"<html>old</html>".to_vec()));
    c.invalidate(&s("section"), &s("s1:1"));
    assert_eq!(c.get(&s("section"), &s("s1:1")), None);
}

#[test]
fn invalidate_then_get_always_misses() {
    let mut c = CacheStore::new();
    c.set(&s("section"), &s("k"), b"one".to_vec());
    c.set(&s("section"), &s("k"), b"two".to_vec());
    c.set(&s("section"), &s("other"), b"keep".to_vec());
    c.invalidate(&s("section"), &s("k"));
    assert_eq!(c.get(&s("section"), &s("k")), None);
    assert_eq!(c.get(&s("section"), &s("other")), Some(b"keep".to_vec()));
}

#[test]
fn set_overwrites_unconditionally() {
    let mut c = CacheStore::new();
    c.set(&s("ns"), &s("k"), b"first".to_vec());
    c.set(&s("ns"), &s("k"), b"second".to_vec());
    assert_eq!(c.get(&s("ns"), &s("k")), Some(b"second".to_vec()));
}

#[test]
fn repopulating_after_invalidate_hits_again() {
    let mut c = CacheStore::new();
    c.set(&s("ns"), &s("k"), b"v1".to_vec());
    c.invalidate(&s("ns"), &s("k"));
    c.set(&s("ns"), &s("k"), b"v2".to_vec());
    assert_eq!(c.get(&s("ns"), &s("k")), Some(b"v2".to_vec()));
}

#[test]
fn namespaces_are_independent() {
    let mut c = CacheStore::new();
    c.set(&s("section"), &s("k"), b"a".to_vec());
    c.set(&s("index"), &s("k"), b"b".to_vec());
    c.invalidate(&s("section"), &s("k"));
    assert_eq!(c.get(&s("section"), &s("k")), None);
    assert_eq!(c.get(&s("index"), &s("k")), Some(b"b".to_vec()));
}

#[test]
fn invalidate_all_clears_one_namespace() {
    let mut c = CacheStore::new();
    c.set(&s("section"), &s("a"), b"1".to_vec());
    c.set(&s("section"), &s("b"), b"2".to_vec());
    c.set(&s("other"), &s("a"), b"3".to_vec());
    c.invalidate_all(&s("section"));
    assert_eq!(c.get(&s("section"), &s("a")), None);
    assert_eq!(c.get(&s("section"), &s("b")), None);
    assert_eq!(c.get(&s("other"), &s("a")), Some(b"3".to_vec()));
}

#[test]
fn get_misses_on_empty_store() {
    let c = CacheStore::new();
    assert_eq!(c.get(&s("anything"), &s("at all")), None);
}

#[test]
fn invalidating_an_absent_key_is_a_noop() {
    let mut c = CacheStore::new();
    c.set(&s("ns"), &s("k"), b"v".to_vec());
    c.invalidate(&s("ns"), &s("absent"));
    assert_eq!(c.get(&s("ns"), &s("k")), Some(b"v".to_vec()));
}
