use skypier::{
    score_bits, score_key, DatabaseStats, FlatIndex, ResultFilter, SearchResult, StatsResponse,
    Vector, VectorDatabase, VectorError, VectorIndex,
};
use std::collections::HashMap;

fn emb(v: &[f32]) -> Vec<u32> {
    v.iter().map(|x| x.to_bits()).collect()
}

fn floats(v: &Vec<u32>) -> Vec<f32> {
    v.iter().map(|b| f32::from_bits(*b)).collect()
}

fn cosine(a: &Vec<u32>, b: &Vec<u32>) -> u32 {
    let (a, b) = (floats(a), floats(b));
    let dot: f32 = a.iter().zip(b.iter()).map(|(x, y)| x * y).sum();
    let na: f32 = a.iter().map(|x| x * x).sum::<f32>().sqrt();
    let nb: f32 = b.iter().map(|x| x * x).sum::<f32>().sqrt();
    let s = if na == 0.0 || nb == 0.0 { 0.0 } else { dot / (na * nb) };
    score_key(s.to_bits())
}

fn score(key: u32) -> f32 {
    f32::from_bits(score_bits(key))
}

/// Drives an insert the way a store-backed database does.
fn insert_all(
    db: &mut VectorDatabase,
    store: &mut HashMap<String, Vector>,
    records: Vec<Vector>,
) -> Result<Vec<String>, VectorError> {
    let mut ids = Vec::new();
    for r in records {
        db.check_record(&r)?;
        store.insert(r.id.clone(), r.clone());
        db.validate_record(&r)?;
        db.index_vector(&r, &cosine);
        ids.push(r.id.clone());
    }
    Ok(ids)
}

fn search(
    db: &VectorDatabase,
    store: &HashMap<String, Vector>,
    query: &[f32],
    k: usize,
    threshold: f32,
    collection: Option<&str>,
) -> Vec<SearchResult> {
    let q = emb(query);
    let t = score_key(threshold.to_bits());
    let (candidates, mut filter) = match collection {
        None => (db.search_candidates(&q, k, &cosine), ResultFilter::new(k, t)),
        Some(c) => (
            db.collection_candidates(&q, k, &cosine),
            ResultFilter::in_collection(k, t, c.to_string()),
        ),
    };
    for c in candidates {
        if filter.wants(c.score) {
            let record = store.get(&c.id).cloned();
            filter.offer(c, record);
        }
        if filter.is_full() {
            break;
        }
    }
    filter.into_results()
}

fn delete(db: &mut VectorDatabase, store: &mut HashMap<String, Vector>, id: &str) -> bool {
    let existed = store.remove(id).is_some();
    db.apply_delete(id, existed)
}

#[test]
fn three_axes_query_ranks_first_axis_first() {
    let mut db = VectorDatabase::new();
    let mut store = HashMap::new();
    let records = vec![
        Vector::new(emb(&[1.0, 0.0, 0.0])),
        Vector::new(emb(&[0.0, 1.0, 0.0])),
        Vector::new(emb(&[0.0, 0.0, 1.0])),
    ];
    let first = records[0].id.clone();
    let ids = insert_all(&mut db, &mut store, records).unwrap();
    assert_eq!(ids.len(), 3);
    assert_eq!(db.dimensions(), Some(3));
    let results = search(&db, &store, &[1.0, 0.1, 0.1], 2, 0.0, None);
    assert_eq!(results.len(), 2);
    assert_eq!(results[0].id, first);
    assert!(score(results[0].score) >= score(results[1].score));
    assert!((score(results[0].score) - 1.0 / 1.02f32.sqrt()).abs() < 1e-6);
}

#[test]
fn thousand_vectors_give_ten_distinct_descending() {
    let mut db = VectorDatabase::new();
    let mut store = HashMap::new();
    let mut records = Vec::new();
    for i in 0..1000u32 {
        let a = i as f32 * 0.0061;
        let v = [a.cos(), a.sin(), (i % 7) as f32 * 0.01 + i as f32 * 0.0001];
        records.push(Vector::with_id(format!("v{}", i), emb(&v)));
    }
    insert_all(&mut db, &mut store, records).unwrap();
    assert_eq!(db.indexed_count(), 1000);
    let results = search(&db, &store, &[0.3, 0.9, 0.05], 10, -1.0, None);
    assert_eq!(results.len(), 10);
    for w in results.windows(2) {
        assert!(score(w[0].score) > score(w[1].score));
    }
    let mut ids: Vec<&String> = results.iter().map(|r| &r.id).collect();
    ids.sort();
    ids.dedup();
    assert_eq!(ids.len(), 10);
}

#[test]
fn collection_search_keeps_only_the_tag() {
    let mut db = VectorDatabase::new();
    let mut store = HashMap::new();
    let a = Vector::new(emb(&[1.0, 0.0, 0.0])).with_collection("A".to_string());
    let b = Vector::new(emb(&[0.9, 0.1, 0.0])).with_collection("B".to_string());
    let a_id = a.id.clone();
    insert_all(&mut db, &mut store, vec![a, b]).unwrap();
    let results = search(&db, &store, &[1.0, 0.0, 0.0], 10, 0.0, Some("A"));
    assert_eq!(results.len(), 1);
    assert_eq!(results[0].id, a_id);
}

#[test]
fn empty_database_search_is_empty() {
    let db = VectorDatabase::new();
    let store = HashMap::new();
    assert!(search(&db, &store, &[1.0, 2.0, 3.0], 5, 0.0, None).is_empty());
    assert!(search(&db, &store, &[1.0, 2.0, 3.0], 5, 0.0, Some("A")).is_empty());
}

#[test]
fn mismatched_dimension_is_refused_and_not_stored() {
    let mut db = VectorDatabase::new();
    let mut store = HashMap::new();
    insert_all(&mut db, &mut store, vec![Vector::with_id("a".to_string(), emb(&[1.0, 2.0]))])
        .unwrap();
    let bad = Vector::with_id("b".to_string(), emb(&[1.0, 2.0, 3.0]));
    let err = insert_all(&mut db, &mut store, vec![bad]).unwrap_err();
    assert_eq!(err, VectorError::DimensionMismatch { expected: 2, actual: 3 });
    assert!(!store.contains_key("b"));
    assert_eq!(db.indexed_count(), 1);
    assert_eq!(db.dimensions(), Some(2));
}

#[test]
fn batch_stops_at_first_mismatch() {
    let mut db = VectorDatabase::new();
    let mut store = HashMap::new();
    let batch = vec![
        Vector::with_id("a".to_string(), emb(&[1.0, 0.0])),
        Vector::with_id("b".to_string(), emb(&[0.0, 1.0])),
        Vector::with_id("c".to_string(), emb(&[1.0, 1.0, 1.0])),
        Vector::with_id("d".to_string(), emb(&[1.0, 1.0])),
    ];
    assert!(insert_all(&mut db, &mut store, batch).is_err());
    assert!(store.contains_key("a") && store.contains_key("b"));
    assert!(!store.contains_key("c") && !store.contains_key("d"));
    assert_eq!(db.indexed_count(), 2);
}

#[test]
fn delete_twice_reports_true_then_false() {
    let mut db = VectorDatabase::new();
    let mut store = HashMap::new();
    insert_all(&mut db, &mut store, vec![Vector::with_id("x".to_string(), emb(&[1.0, 0.0]))])
        .unwrap();
    assert!(!delete(&mut db, &mut store, "absent"));
    assert!(delete(&mut db, &mut store, "x"));
    assert!(!delete(&mut db, &mut store, "x"));
    assert_eq!(db.indexed_count(), 0);
    assert!(search(&db, &store, &[1.0, 0.0], 5, -1.0, None).is_empty());
}

#[test]
fn threshold_drops_low_scores() {
    let mut db = VectorDatabase::new();
    let mut store = HashMap::new();
    insert_all(
        &mut db,
        &mut store,
        vec![
            Vector::with_id("near".to_string(), emb(&[1.0, 0.0])),
            Vector::with_id("far".to_string(), emb(&[-1.0, 0.0])),
        ],
    )
    .unwrap();
    let results = search(&db, &store, &[1.0, 0.0], 5, 0.5, None);
    assert_eq!(results.len(), 1);
    assert_eq!(results[0].id, "near");
}

#[test]
fn flat_backed_database_searches_exactly() {
    let mut db = VectorDatabase::with_index(VectorIndex::Flat(FlatIndex::new()));
    let mut store = HashMap::new();
    insert_all(
        &mut db,
        &mut store,
        vec![
            Vector::with_id("a".to_string(), emb(&[1.0, 0.0])),
            Vector::with_id("b".to_string(), emb(&[0.6, 0.8])),
            Vector::with_id("c".to_string(), emb(&[0.0, 1.0])),
        ],
    )
    .unwrap();
    let results = search(&db, &store, &[0.0, 1.0], 2, -1.0, None);
    let ids: Vec<&str> = results.iter().map(|r| r.id.as_str()).collect();
    assert_eq!(ids, vec!["c", "b"]);
}

#[test]
fn stats_report_the_dimension() {
    let mut db = VectorDatabase::new();
    assert!(!db.needs_dimension_sample(0));
    assert_eq!(
        db.stats(0, 4096, None),
        DatabaseStats { total_vectors: 0, dimensions: 0, storage_size_bytes: 4096 }
    );
    assert!(db.needs_dimension_sample(3));
    assert_eq!(db.stats(3, 10, Some(5)).dimensions, 5);
    assert_eq!(db.stats(3, 10, None).dimensions, 0);
    db.validate_record(&Vector::with_id("a".to_string(), emb(&[1.0; 4]))).unwrap();
    assert!(!db.needs_dimension_sample(3));
    assert_eq!(db.stats(3, 10, Some(5)).dimensions, 4);
    let response = StatsResponse::from_stats(db.stats(7, 20, None));
    assert_eq!(response.total_vectors, 7);
    assert_eq!(response.dimensions, 4);
    assert_eq!(response.storage_size_bytes, 20);
}

#[test]
fn candidates_are_over_fetched() {
    let mut db = VectorDatabase::with_index(VectorIndex::Flat(FlatIndex::new()));
    let mut store = HashMap::new();
    let records = (0..20)
        .map(|i| Vector::with_id(format!("r{}", i), emb(&[1.0, i as f32])))
        .collect();
    insert_all(&mut db, &mut store, records).unwrap();
    assert_eq!(db.search_candidates(&emb(&[1.0, 0.0]), 3, &cosine).len(), 6);
    assert_eq!(db.collection_candidates(&emb(&[1.0, 0.0]), 3, &cosine).len(), 15);
    assert_eq!(db.search_candidates(&emb(&[1.0, 0.0]), usize::MAX, &cosine).len(), 20);
}

#[test]
fn checking_a_record_fixes_nothing() {
    let mut db = VectorDatabase::new();
    let r = Vector::with_id("a".to_string(), emb(&[1.0, 2.0]));
    assert_eq!(db.check_record(&r), Ok(()));
    assert_eq!(db.dimensions(), None);
    db.validate_record(&r).unwrap();
    assert_eq!(db.dimensions(), Some(2));
    let bad = Vector::with_id("b".to_string(), emb(&[1.0]));
    assert_eq!(db.check_record(&bad), Err(VectorError::DimensionMismatch { expected: 2, actual: 1 }));
}
