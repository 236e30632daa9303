use skypier::{score_bits, score_key, FlatIndex, HnswIndex, IndexHit, VectorIndex};

fn emb(v: &[f32]) -> Vec<u32> {
    v.iter().map(|x| x.to_bits()).collect()
}

fn cosine(a: &Vec<u32>, b: &Vec<u32>) -> u32 {
    let a: Vec<f32> = a.iter().map(|x| f32::from_bits(*x)).collect();
    let b: Vec<f32> = b.iter().map(|x| f32::from_bits(*x)).collect();
    let dot: f32 = a.iter().zip(b.iter()).map(|(x, y)| x * y).sum();
    let na: f32 = a.iter().map(|x| x * x).sum::<f32>().sqrt();
    let nb: f32 = b.iter().map(|x| x * x).sum::<f32>().sqrt();
    let s = if na == 0.0 || nb == 0.0 { 0.0 } else { dot / (na * nb) };
    score_key(s.to_bits())
}

fn ids(hits: &[IndexHit]) -> Vec<&str> {
    hits.iter().map(|h| h.id.as_str()).collect()
}

fn grid(n: usize) -> Vec<(String, Vec<u32>)> {
    (0..n)
        .map(|i| {
            let a = i as f32 * 0.37;
            (format!("n{}", i), emb(&[a.cos(), a.sin(), (i % 5) as f32 * 0.1]))
        })
        .collect()
}

#[test]
fn lib_it_works() {
    let result = 2 + 2;
    assert_eq!(result, 4);
}

#[test]
fn flat_search_is_exact_top_k() {
    let mut f = FlatIndex::new();
    f.add_vector("x", &emb(&[1.0, 0.0]));
    f.add_vector("y", &emb(&[0.0, 1.0]));
    f.add_vector("xy", &emb(&[1.0, 1.0]));
    f.add_vector("neg", &emb(&[-1.0, 0.0]));
    assert_eq!(f.size(), 4);
    let hits = f.search(&emb(&[1.0, 0.2]), 3, &cosine);
    assert_eq!(ids(&hits), vec!["x", "xy", "y"]);
    let all = f.search(&emb(&[1.0, 0.2]), 10, &cosine);
    assert_eq!(all.len(), 4);
    assert_eq!(all[3].id, "neg");
    assert!(f.search(&emb(&[1.0, 0.0]), 0, &cosine).is_empty());
}

#[test]
fn flat_add_replaces_and_remove_reports() {
    let mut f = FlatIndex::new();
    f.add_vector("a", &emb(&[1.0, 0.0]));
    f.add_vector("a", &emb(&[0.0, 1.0]));
    assert_eq!(f.size(), 1);
    let hits = f.search(&emb(&[0.0, 1.0]), 1, &cosine);
    assert_eq!(f32::from_bits(score_bits(hits[0].score)), 1.0);
    assert!(f.remove_vector("a"));
    assert!(!f.remove_vector("a"));
    assert_eq!(f.size(), 0);
    f.add_vector("b", &emb(&[1.0]));
    f.clear();
    assert_eq!(f.size(), 0);
}

#[test]
fn graph_size_counts_distinct_ids() {
    let mut g = HnswIndex::new(3);
    for (id, v) in grid(300) {
        g.add_vector(&id, &v, &cosine);
    }
    assert_eq!(g.size(), 300);
    g.add_vector("n7", &emb(&[0.0, 0.0, 1.0]), &cosine);
    assert_eq!(g.size(), 300);
}

#[test]
fn graph_never_returns_a_removed_id() {
    let mut g = HnswIndex::new(3);
    let points = grid(200);
    for (id, v) in &points {
        g.add_vector(id, v, &cosine);
    }
    let query = points[42].1.clone();
    let before = g.search(&query, 5, &cosine);
    let target = before[0].id.clone();
    assert!(g.remove_vector(&target));
    assert!(!g.remove_vector(&target));
    assert_eq!(g.size(), 199);
    for k in [1usize, 5, 50, 500] {
        let hits = g.search(&query, k, &cosine);
        assert!(!hits.is_empty());
        assert!(hits.iter().all(|h| h.id != target));
    }
}

#[test]
fn graph_removing_every_node_empties_it() {
    let mut g = HnswIndex::new(2);
    g.add_vector("a", &emb(&[1.0, 0.0]), &cosine);
    g.add_vector("b", &emb(&[0.0, 1.0]), &cosine);
    assert!(g.remove_vector("a"));
    assert_eq!(ids(&g.search(&emb(&[1.0, 0.0]), 3, &cosine)), vec!["b"]);
    assert!(g.remove_vector("b"));
    assert!(g.search(&emb(&[1.0, 0.0]), 3, &cosine).is_empty());
    g.add_vector("c", &emb(&[1.0, 1.0]), &cosine);
    assert_eq!(ids(&g.search(&emb(&[1.0, 0.0]), 3, &cosine)), vec!["c"]);
}

#[test]
fn graph_results_are_descending_and_bounded() {
    let mut g = HnswIndex::new(3);
    for (id, v) in grid(500) {
        g.add_vector(&id, &v, &cosine);
    }
    let hits = g.search(&emb(&[0.2, 0.9, 0.1]), 20, &cosine);
    assert!(!hits.is_empty() && hits.len() <= 20);
    let mut seen: Vec<&String> = hits.iter().map(|h| &h.id).collect();
    seen.sort();
    seen.dedup();
    assert_eq!(seen.len(), hits.len());
    for w in hits.windows(2) {
        assert!(w[0].score >= w[1].score);
    }
    g.clear();
    assert_eq!(g.size(), 0);
    assert!(g.search(&emb(&[0.2, 0.9, 0.1]), 20, &cosine).is_empty());
}

#[test]
fn empty_indexes_return_nothing() {
    let g = VectorIndex::Graph(HnswIndex::new(3));
    let f = VectorIndex::Flat(FlatIndex::new());
    assert!(g.search(&emb(&[1.0, 0.0, 0.0]), 5, &cosine).is_empty());
    assert!(f.search(&emb(&[1.0, 0.0, 0.0]), 5, &cosine).is_empty());
    assert_eq!(g.size(), 0);
}

#[test]
fn graph_scores_match_exact_scores() {
    let mut g = VectorIndex::Graph(HnswIndex::new(3));
    let mut f = VectorIndex::Flat(FlatIndex::new());
    for (id, v) in grid(100) {
        g.add_vector(&id, &v, &cosine);
        f.add_vector(&id, &v, &cosine);
    }
    let q = emb(&[0.5, 0.5, 0.2]);
    let best = f.search(&q, 100, &cosine);
    let approx = g.search(&q, 5, &cosine);
    assert_eq!(approx.len(), 5);
    assert!(approx[0].score <= best[0].score);
    assert!(approx.iter().all(|h| best.iter().any(|b| b.id == h.id && b.score == h.score)));
    assert!(f.remove_vector("n3"));
    assert_eq!(f.size(), 99);
    f.clear();
    assert_eq!(f.size(), 0);
}
