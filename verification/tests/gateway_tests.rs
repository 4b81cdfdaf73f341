use forum_core::actor::{IndexActor, IndexCommand};
use forum_core::docs::Document;
use forum_core::gateway::IndexGateway;

fn doc(id: &str, title: &str, body: &str) -> Document {
    Document::new(
        id.as_bytes().to_vec(),
        title.as_bytes().to_vec(),
        body.as_bytes().to_vec(),
    )
}

#[test]
fn gateway_end_to_end_search() {
    let mut g = IndexGateway::new();
    assert!(g.submit_upsert(doc("a1", "rust guide", "learning rust step by step")));
    let rs = g.query(b"rust".to_vec(), 10).expect("gateway is running");
    assert!(rs.iter().any(|r| r.id == b"a1".to_vec()));
}

#[test]
fn gateway_single_producer_order_is_kept() {
    let mut g = IndexGateway::new();
    g.submit_upsert(doc("a", "alpha one", "alpha"));
    g.submit_delete(b"a".to_vec());
    g.submit_upsert(doc("b", "alpha two", "alpha"));
    let rs = g.query(b"alpha".to_vec(), 10).unwrap();
    assert_eq!(rs.len(), 1);
    assert_eq!(rs[0].id, b"b".to_vec());
}

#[test]
fn gateway_each_query_gets_its_own_results() {
    let mut g = IndexGateway::new();
    g.submit_upsert(doc("c1", "cats", "a page about cats"));
    g.submit_upsert(doc("d1", "dogs", "a page about dogs"));
    let cats = g.query(b"cats".to_vec(), 10).unwrap();
    let dogs = g.query(b"dogs".to_vec(), 10).unwrap();
    assert_eq!(cats.len(), 1);
    assert_eq!(cats[0].id, b"c1".to_vec());
    assert_eq!(dogs.len(), 1);
    assert_eq!(dogs[0].id, b"d1".to_vec());
}

#[test]
fn gateway_upsert_twice_yields_same_results_as_once() {
    let mut once = IndexGateway::new();
    once.submit_upsert(doc("a1", "rust guide", "body"));
    let r1 = once.query(b"rust".to_vec(), 10).unwrap();

    let mut twice = IndexGateway::new();
    twice.submit_upsert(doc("a1", "rust guide", "body"));
    twice.submit_upsert(doc("a1", "rust guide", "body"));
    let r2 = twice.query(b"rust".to_vec(), 10).unwrap();

    assert_eq!(r1.len(), r2.len());
    assert_eq!(r1[0].id, r2[0].id);
    assert_eq!(r1[0].title, r2[0].title);
    assert_eq!(r1[0].score, r2[0].score);
}

#[test]
fn gateway_delete_then_query_misses() {
    let mut g = IndexGateway::new();
    g.submit_upsert(doc("x", "zebra", "zebra body"));
    g.submit_delete(b"x".to_vec());
    let rs = g.query(b"zebra".to_vec(), 10).unwrap();
    assert!(rs.iter().all(|r| r.id != b"x".to_vec()));
}

#[test]
fn gateway_shutdown_fails_fast() {
    let mut g = IndexGateway::new();
    g.submit_upsert(doc("a", "kept", "indexed before shutdown"));
    g.shutdown();
    assert!(!g.submit_upsert(doc("b", "late", "after shutdown")));
    assert!(!g.submit_delete(b"a".to_vec()));
    assert!(g.query(b"kept".to_vec(), 10).is_none());
}

#[test]
fn actor_handles_commands_one_at_a_time() {
    let mut a = IndexActor::new();
    assert!(a.handle(IndexCommand::Upsert(doc("a", "hello", "world"))).is_none());
    assert!(a.handle(IndexCommand::Delete(b"missing".to_vec())).is_none());
    let rep = a
        .handle(IndexCommand::Query { text: b"hello".to_vec(), limit: 5, token: 7 })
        .expect("a query produces a reply");
    assert_eq!(rep.token, 7);
    assert_eq!(rep.results.len(), 1);
    assert_eq!(rep.results[0].id, b"a".to_vec());
}

#[test]
fn gateway_hundred_queries_each_get_their_own() {
    let mut g = IndexGateway::new();
    for n in 0..100 {
        let id = format!("doc{:03}", n);
        let text = format!("needle{:03}", n);
        g.submit_upsert(doc(&id, &text, "shared filler body"));
    }
    for n in 0..100 {
        let text = format!("needle{:03}", n);
        let rs = g.query(text.clone().into_bytes(), 10).unwrap();
        assert_eq!(rs.len(), 1, "query {} got {} results", text, rs.len());
        assert_eq!(rs[0].id, format!("doc{:03}", n).into_bytes());
    }
}
