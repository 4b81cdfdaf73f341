use forum_core::docs::Document;
use forum_core::index::Index;

fn doc(id: &str, title: &str, body: &str) -> Document {
    Document::new(
        id.as_bytes().to_vec(),
        title.as_bytes().to_vec(),
        body.as_bytes().to_vec(),
    )
}

#[test]
fn upsert_then_query_finds_match() {
    let mut ix = Index::new();
    ix.upsert(doc("a1", "rust guide", "a guide to rust for forum readers"));
    let rs = ix.query(b"rust", 10);
    assert!(rs.iter().any(|r| r.id == b"a1".to_vec()));
}

#[test]
fn query_orders_by_score_then_id() {
    let mut ix = Index::new();
    // "x" in title and body: score 3.
    ix.upsert(doc("b", "x marks", "an x here too"));
    // "x" in body only: score 1.
    ix.upsert(doc("a", "nothing", "body with x"));
    // "x" in title only: score 2.
    ix.upsert(doc("c", "x title", "plain body"));
    let rs = ix.query(b"x", 10);
    assert_eq!(rs.len(), 3);
    assert_eq!(rs[0].id, b"b".to_vec());
    assert_eq!(rs[0].score, 3);
    assert_eq!(rs[1].id, b"c".to_vec());
    assert_eq!(rs[1].score, 2);
    assert_eq!(rs[2].id, b"a".to_vec());
    assert_eq!(rs[2].score, 1);
}

#[test]
fn query_breaks_ties_by_id_ascending() {
    let mut ix = Index::new();
    ix.upsert(doc("zz", "cat story", "all about the cat"));
    ix.upsert(doc("aa", "cat tale", "more cat text"));
    ix.upsert(doc("mm", "cat note", "cat again"));
    let rs = ix.query(b"cat", 10);
    assert_eq!(rs.len(), 3);
    assert_eq!(rs[0].id, b"aa".to_vec());
    assert_eq!(rs[1].id, b"mm".to_vec());
    assert_eq!(rs[2].id, b"zz".to_vec());
}

#[test]
fn query_respects_limit() {
    let mut ix = Index::new();
    ix.upsert(doc("a", "dog", "dog"));
    ix.upsert(doc("b", "dog", "dog"));
    ix.upsert(doc("c", "dog", "dog"));
    let rs = ix.query(b"dog", 2);
    assert_eq!(rs.len(), 2);
    assert_eq!(rs[0].id, b"a".to_vec());
    assert_eq!(rs[1].id, b"b".to_vec());
}

#[test]
fn empty_query_returns_nothing() {
    let mut ix = Index::new();
    ix.upsert(doc("a", "anything", "at all"));
    let rs = ix.query(b"", 10);
    assert!(rs.is_empty());
}

#[test]
fn upsert_replaces_by_identifier() {
    let mut ix = Index::new();
    ix.upsert(doc("a", "old title", "old body"));
    ix.upsert(doc("a", "new rust title", "new body"));
    assert_eq!(ix.len(), 1);
    let rs = ix.query(b"rust", 10);
    assert_eq!(rs.len(), 1);
    assert_eq!(rs[0].title, b"new rust title".to_vec());
    let old = ix.query(b"old", 10);
    assert!(old.is_empty());
}

#[test]
fn upsert_twice_same_content_is_idempotent() {
    let mut once = Index::new();
    once.upsert(doc("a1", "rust guide", "body"));
    let mut twice = Index::new();
    twice.upsert(doc("a1", "rust guide", "body"));
    twice.upsert(doc("a1", "rust guide", "body"));
    let r1 = once.query(b"rust", 10);
    let r2 = twice.query(b"rust", 10);
    assert_eq!(r1.len(), r2.len());
    assert_eq!(r1[0].id, r2[0].id);
    assert_eq!(r1[0].title, r2[0].title);
    assert_eq!(r1[0].excerpt, r2[0].excerpt);
    assert_eq!(r1[0].score, r2[0].score);
    assert_eq!(twice.len(), 1);
}

#[test]
fn delete_then_query_misses() {
    let mut ix = Index::new();
    ix.upsert(doc("x", "zebra crossing", "zebra text"));
    ix.delete(b"x");
    let rs = ix.query(b"zebra", 10);
    assert!(rs.iter().all(|r| r.id != b"x".to_vec()));
    assert!(rs.is_empty());
}

#[test]
fn delete_absent_is_a_noop() {
    let mut ix = Index::new();
    ix.upsert(doc("a", "keep me", "around"));
    ix.delete(b"missing");
    assert_eq!(ix.len(), 1);
    let rs = ix.query(b"keep", 10);
    assert_eq!(rs.len(), 1);
}
