use skypier::{
    check_same_dimensions, collection_names, score_bits, score_key, vectors_in_collection,
    Vector, VectorError,
};
use std::collections::HashMap;

fn emb(v: &[f32]) -> Vec<u32> {
    v.iter().map(|x| x.to_bits()).collect()
}

#[test]
fn new_record_has_fresh_uuid() {
    let a = Vector::new(emb(&[1.0, 2.0]));
    let b = Vector::new(emb(&[1.0, 2.0]));
    assert_eq!(a.id.len(), 36);
    assert_eq!(a.id.matches('-').count(), 4);
    assert_ne!(a.id, b.id);
    assert_eq!(a.dimensions(), 2);
    assert!(a.metadata.is_none() && a.collection.is_none());
    assert!(a.created_at > 1_600_000_000);
}

#[test]
fn builders_attach_tags() {
    let mut meta = HashMap::new();
    meta.insert("type".to_string(), "document".to_string());
    let v = Vector::with_id("id-1".to_string(), emb(&[0.5]))
        .with_metadata(meta.clone())
        .with_collection("docs".to_string());
    assert_eq!(v.id, "id-1");
    assert_eq!(v.metadata, Some(meta));
    assert_eq!(v.collection.as_deref(), Some("docs"));
    assert_eq!(v.dimensions(), 1);
}

#[test]
fn differing_lengths_are_a_mismatch() {
    assert_eq!(check_same_dimensions(&emb(&[1.0, 2.0, 3.0]), &emb(&[4.0, 5.0, 6.0])), Ok(()));
    assert_eq!(
        check_same_dimensions(&emb(&[1.0, 2.0, 3.0]), &emb(&[1.0, 2.0])),
        Err(VectorError::DimensionMismatch { expected: 3, actual: 2 })
    );
    assert_eq!(
        check_same_dimensions(&vec![], &emb(&[1.0])),
        Err(VectorError::DimensionMismatch { expected: 0, actual: 1 })
    );
}

#[test]
fn score_keys_order_like_floats() {
    let values = [f32::NEG_INFINITY, -2.5, -1.0, -0.0, 0.0, 1e-30, 0.5, 1.0, 3.0, f32::INFINITY];
    for w in values.windows(2) {
        assert!(score_key(w[0].to_bits()) < score_key(w[1].to_bits()));
    }
    for v in values {
        assert_eq!(score_bits(score_key(v.to_bits())), v.to_bits());
    }
    assert_eq!(score_key(0.0f32.to_bits()), 0x8000_0000);
    assert_eq!(score_key((-0.0f32).to_bits()), 0x7FFF_FFFF);
    assert_eq!(score_key(1.0f32.to_bits()), 0xBF80_0000);
    assert_eq!(score_key((-1.0f32).to_bits()), 0x407F_FFFF);
}

#[test]
fn collection_scans() {
    let records = vec![
        Vector::with_id("1".to_string(), vec![]).with_collection("A".to_string()),
        Vector::with_id("2".to_string(), vec![]),
        Vector::with_id("3".to_string(), vec![]).with_collection("B".to_string()),
        Vector::with_id("4".to_string(), vec![]).with_collection("A".to_string()),
    ];
    assert_eq!(collection_names(&records), vec!["A".to_string(), "B".to_string()]);
    let a: Vec<String> = vectors_in_collection(records.clone(), "A").into_iter().map(|v| v.id).collect();
    assert_eq!(a, vec!["1".to_string(), "4".to_string()]);
    assert!(vectors_in_collection(records, "C").is_empty());
    assert!(collection_names(&vec![]).is_empty());
}
