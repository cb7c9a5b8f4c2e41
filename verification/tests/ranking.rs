//! Tests of scoring, selection and the search join.

use review_store::brute::BruteIndex;
use review_store::effective_k;
use review_store::join::search_join;
use review_store::rank::select_top_k;
use review_store::review::StoredReview;
use review_store::vecfile::encode_record;

/// Cosine similarity of two equal-length vectors.
fn cosine(a: &[f32], b: &[f32]) -> f32 {
    let dot: f32 = a.iter().zip(b.iter()).map(|(x, y)| x * y).sum();
    let na: f32 = a.iter().map(|x| x * x).sum::<f32>().sqrt();
    let nb: f32 = b.iter().map(|x| x * x).sum::<f32>().sqrt();
    if na == 0.0 || nb == 0.0 {
        0.0
    } else {
        dot / (na * nb)
    }
}

/// An order-preserving unsigned key for a float score: higher score, higher
/// key.
fn score_key(f: f32) -> u64 {
    let b = f.to_bits();
    let k = if b & 0x8000_0000 != 0 { !b } else { b | 0x8000_0000 };
    k as u64
}

fn bits(v: &[f32]) -> Vec<u32> {
    v.iter().map(|f| f.to_bits()).collect()
}

fn floats(v: &[u32]) -> Vec<f32> {
    v.iter().map(|w| f32::from_bits(*w)).collect()
}

#[test]
fn round_trip_fresh_index() {
    let v = vec![0.6f32, 0.8];
    let mut idx = BruteIndex::open(&Vec::new(), 2).unwrap();
    let file_bytes = idx.add_batch(&bits(&v), None).unwrap();
    idx.close();

    // Reopen from the persisted bytes and search for the vector itself.
    let idx2 = BruteIndex::open(&file_bytes, 2).unwrap();
    assert_eq!(idx2.len(), 1);
    let stored = floats(&idx2.vectors[0]);
    let score = cosine(&v, &stored);
    assert!((score - 1.0).abs() < 1e-6);
    let hits = idx2.search_select(&vec![score_key(score)], 1).unwrap();
    assert_eq!(hits.len(), 1);
    assert_eq!(hits[0].0, 0);
}

#[test]
fn search_ranking_three_vectors() {
    // A = [1,0], B = [0,1], C = normalized [0.9, 0.1]; query [1,0].
    let norm = (0.9f32 * 0.9 + 0.1 * 0.1).sqrt();
    let a = vec![1.0f32, 0.0];
    let b = vec![0.0f32, 1.0];
    let c = vec![0.9f32 / norm, 0.1 / norm];
    let q = vec![1.0f32, 0.0];

    let mut idx = BruteIndex::open(&Vec::new(), 2).unwrap();
    let mut flat = bits(&a);
    flat.extend_from_slice(&bits(&b));
    flat.extend_from_slice(&bits(&c));
    idx.add_batch(&flat, Some(&vec![0i64, 1, 2])).unwrap();
    assert_eq!(idx.len(), 3);

    let raw: Vec<f32> = idx.vectors.iter().map(|w| cosine(&q, &floats(w))).collect();
    let scores: Vec<u64> = raw.iter().map(|s| score_key(*s)).collect();
    let hits = idx.search_select(&scores, 3).unwrap();
    let ids: Vec<usize> = hits.iter().map(|h| h.0).collect();
    assert_eq!(ids, vec![0, 2, 1]);
    assert!(raw[ids[0]] > raw[ids[1]] && raw[ids[1]] > raw[ids[2]]);
}

#[test]
fn search_with_zero_k_is_empty() {
    let scores = vec![score_key(0.5), score_key(0.9)];
    let hits = select_top_k(&scores, 0);
    assert!(hits.is_empty());
}

#[test]
fn select_returns_all_when_k_exceeds_count() {
    let scores = vec![score_key(0.1), score_key(0.9)];
    let hits = select_top_k(&scores, 10);
    assert_eq!(hits.len(), 2);
    assert_eq!(hits[0].0, 1);
    assert_eq!(hits[1].0, 0);
}

#[test]
fn select_breaks_ties_by_insertion_order() {
    let k = score_key(0.5);
    let hits = select_top_k(&vec![k, k, k], 2);
    assert_eq!(hits.len(), 2);
    assert_eq!(hits[0].0, 0);
    assert_eq!(hits[1].0, 1);
}

#[test]
fn effective_k_floor_and_cap() {
    assert_eq!(effective_k(None), 5);
    assert_eq!(effective_k(Some(0)), 5);
    assert_eq!(effective_k(Some(2)), 5);
    assert_eq!(effective_k(Some(50)), 50);
    assert_eq!(effective_k(Some(300)), 200);
}

fn record(id: &str, vid: usize) -> StoredReview {
    StoredReview {
        id: id.to_owned(),
        review: format!("review {id}"),
        rating: 4,
        category: None,
        schema_version: "v1".to_owned(),
        vector_id: vid,
    }
}

#[test]
fn join_drops_unresolved_ids_and_sorts() {
    let records = vec![record("a", 0), record("b", 1)];
    // Candidate id 9 has no metadata (partial-failure residue): dropped.
    let candidates: Vec<(i64, u64)> = vec![(1, 10), (9, 8), (0, 30)];
    let hits = search_join(&candidates, &records, 5);
    assert_eq!(hits.len(), 2);
    assert_eq!(hits[0].review.id, "a");
    assert_eq!(hits[0].score_key, 30);
    assert_eq!(hits[1].review.id, "b");
    assert_eq!(hits[1].score_key, 10);
}

#[test]
fn join_truncates_to_page() {
    let records = vec![record("a", 0), record("b", 1), record("c", 2)];
    let candidates: Vec<(i64, u64)> = vec![(0, 3), (1, 2), (2, 1)];
    let hits = search_join(&candidates, &records, 2);
    assert_eq!(hits.len(), 2);
    assert_eq!(hits[0].review.id, "a");
    assert_eq!(hits[1].review.id, "b");
}

#[test]
fn join_negative_id_is_dropped() {
    let records = vec![record("a", 0)];
    let candidates: Vec<(i64, u64)> = vec![(-1, 99), (0, 1)];
    let hits = search_join(&candidates, &records, 5);
    assert_eq!(hits.len(), 1);
    assert_eq!(hits[0].review.id, "a");
}

#[test]
fn join_latest_record_wins_for_duplicate_vector_id() {
    let mut newer = record("new", 0);
    newer.review = "newer".to_owned();
    let records = vec![record("old", 0), newer];
    let candidates: Vec<(i64, u64)> = vec![(0, 1)];
    let hits = search_join(&candidates, &records, 5);
    assert_eq!(hits.len(), 1);
    assert_eq!(hits[0].review.id, "new");
}

#[test]
fn add_batch_rejects_ragged_buffer() {
    let mut idx = BruteIndex::open(&Vec::new(), 2).unwrap();
    let r = idx.add_batch(&vec![1u32, 2, 3], None);
    assert!(matches!(r, Err(review_store::errors::StoreError::DimensionMismatch)));
    assert_eq!(idx.len(), 0);
}

#[test]
fn add_batch_rejects_wrong_id_count() {
    let mut idx = BruteIndex::open(&Vec::new(), 2).unwrap();
    let r = idx.add_batch(&vec![1u32, 2, 3, 4], Some(&vec![0i64]));
    assert!(matches!(r, Err(review_store::errors::StoreError::IdCountMismatch)));
    assert_eq!(idx.len(), 0);
}
