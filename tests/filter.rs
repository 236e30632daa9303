use skypier::{score_key, IndexHit, ResultFilter, Vector};
use std::collections::HashMap;

fn hit(id: &str, score: f32) -> IndexHit {
    IndexHit { id: id.to_string(), score: score_key(score.to_bits()) }
}

fn record(id: &str, collection: Option<&str>) -> Vector {
    let mut meta = HashMap::new();
    meta.insert("source".to_string(), id.to_string());
    let v = Vector::with_id(id.to_string(), vec![0]).with_metadata(meta);
    match collection {
        Some(c) => v.with_collection(c.to_string()),
        None => v,
    }
}

#[test]
fn filter_keeps_order_threshold_and_limit() {
    let mut f = ResultFilter::new(2, score_key(0.5f32.to_bits()));
    assert!(!f.wants(score_key(0.4f32.to_bits())));
    assert!(f.wants(score_key(0.9f32.to_bits())));
    f.offer(hit("a", 0.9), Some(record("a", None)));
    f.offer(hit("gone", 0.8), None);
    f.offer(hit("low", 0.4), Some(record("low", None)));
    assert!(!f.is_full());
    f.offer(hit("b", 0.7), Some(record("b", Some("X"))));
    assert!(f.is_full());
    assert!(!f.wants(score_key(0.95f32.to_bits())));
    f.offer(hit("c", 0.6), Some(record("c", None)));
    let r = f.into_results();
    let ids: Vec<&str> = r.iter().map(|x| x.id.as_str()).collect();
    assert_eq!(ids, vec!["a", "b"]);
    assert_eq!(r[0].metadata.as_ref().unwrap().get("source").unwrap(), "a");
}

#[test]
fn collection_filter_requires_exact_tag() {
    let mut f = ResultFilter::in_collection(5, score_key(0.0f32.to_bits()), "A".to_string());
    f.offer(hit("a", 0.9), Some(record("a", Some("A"))));
    f.offer(hit("aa", 0.8), Some(record("aa", Some("AA"))));
    f.offer(hit("none", 0.7), Some(record("none", None)));
    f.offer(hit("a2", 0.6), Some(record("a2", Some("A"))));
    let ids: Vec<String> = f.into_results().into_iter().map(|x| x.id).collect();
    assert_eq!(ids, vec!["a".to_string(), "a2".to_string()]);
}

#[test]
fn zero_k_keeps_nothing() {
    let mut f = ResultFilter::new(0, score_key((-1.0f32).to_bits()));
    assert!(f.is_full());
    f.offer(hit("a", 0.9), Some(record("a", None)));
    assert!(f.into_results().is_empty());
}
