//! Tests of validation, id allocation, the coordinator's insert flows,
//! reconfiguration and the alignment check.

use review_store::brute::BruteIndex;
use review_store::errors::StoreError;
use review_store::idalloc::IdAllocator;
use review_store::jsonl::{parse_map_line, parse_review_line};
use review_store::native::{status_result, Spfresh};
use review_store::review::{BulkReviews, ReviewInput, SearchRequest, StoredReview};
use review_store::store::{verify_alignment, AppState, Paths, VectorIndex};

fn bits(v: &[f32]) -> Vec<u32> {
    v.iter().map(|f| f.to_bits()).collect()
}

fn paths() -> Paths {
    Paths {
        index_path: "data/reviews.index".to_owned(),
        jsonl_path: "data/reviews.jsonl".to_owned(),
        map_path: "data/vector_map.jsonl".to_owned(),
    }
}

fn fresh_state(dim: usize) -> AppState {
    let idx = BruteIndex::open(&Vec::new(), dim).unwrap();
    AppState::new(VectorIndex::Brute(idx), paths(), 0, 0)
}

fn input(text: &str, rating: i32, category: Option<&str>) -> ReviewInput {
    ReviewInput { review: text.to_owned(), rating, category: category.map(|c| c.to_owned()) }
}

#[test]
fn validation_accepts_well_formed_input() {
    assert!(input("great coffee", 5, Some("food")).validate().is_ok());
    assert!(input("ok", 0, None).validate().is_ok());
}

#[test]
fn validation_rejects_rating_six() {
    let r = input("fine", 6, None).validate();
    assert_eq!(r.unwrap_err(), "rating must be 0..=5");
}

#[test]
fn validation_rejects_long_category() {
    let r = input("fine", 3, Some(&"a".repeat(33))).validate();
    assert_eq!(r.unwrap_err(), "category must be at most 32 characters");
}

#[test]
fn validation_rejects_empty_review() {
    let r = input("   ", 3, None).validate();
    assert_eq!(r.unwrap_err(), "review cannot be empty");
}

#[test]
fn validation_rejects_bad_category_chars() {
    let r = input("fine", 3, Some("food!")).validate();
    assert_eq!(
        r.unwrap_err(),
        "category may only contain letters, numbers, spaces, '-' or '_'"
    );
}

#[test]
fn empty_after_trim_category_is_accepted_and_stored_absent() {
    // The data model stores empty-after-trim as absent; validation lets it
    // through.
    assert!(input("fine", 3, Some("   ")).validate().is_ok());
    let idx = BruteIndex::open(&Vec::new(), 2).unwrap();
    let mut state = AppState::new(VectorIndex::Brute(idx), paths(), 0, 0);
    let out = state.insert_review(input("fine", 3, Some("   ")), &bits(&[1.0, 0.0])).unwrap();
    assert_eq!(out.record.category, None);
}

#[test]
fn from_input_normalizes_category() {
    let rec = StoredReview::from_input(input("text", 2, Some("  cafe  ")), 3);
    assert_eq!(rec.category.as_deref(), Some("cafe"));
    assert_eq!(rec.vector_id, 3);
    assert_eq!(rec.schema_version, "v1");
    assert_eq!(rec.id.len(), 36);
    let rec2 = StoredReview::from_input(input("text", 2, Some("   ")), 4);
    assert_eq!(rec2.category, None);
}

#[test]
fn validation_counts_characters_not_bytes() {
    // 32 characters, twice as many bytes: accepted.
    let wide = "α".repeat(32);
    assert_eq!(wide.chars().count(), 32);
    assert!(wide.len() > 32);
    assert!(input("fine", 3, Some(&wide)).validate().is_ok());
    let too_wide = "α".repeat(33);
    assert!(input("fine", 3, Some(&too_wide)).validate().is_err());
}

#[test]
fn reserve_ranges_are_disjoint_and_sum() {
    let mut alloc = IdAllocator::new(0);
    let s1 = alloc.reserve(3);
    let s2 = alloc.reserve(2);
    let s3 = alloc.reserve(5);
    assert_eq!(s1, 0);
    assert_eq!(s2, 3);
    assert_eq!(s3, 5);
    assert!(s1 + 3 <= s2 && s2 + 2 <= s3);
    assert_eq!(alloc.next, 3 + 2 + 5);
}

#[test]
fn insert_keeps_alignment() {
    let mut state = fresh_state(2);
    let out = state.insert_review(input("good", 4, None), &bits(&[1.0, 0.0])).unwrap();
    assert_eq!(out.record.vector_id, 0);
    assert_eq!(state.index.len(), 1);
    assert_eq!(state.map_count, 1);
    assert_eq!(state.meta_count, 1);

    let items = BulkReviews(vec![input("a", 1, None), input("b", 2, None)]);
    let vectors = vec![bits(&[0.0, 1.0]), bits(&[1.0, 1.0])];
    let bulk = state.bulk_insert(items, &vectors).unwrap();
    assert_eq!(bulk.records.len(), 2);
    assert_eq!(bulk.records[0].vector_id, 1);
    assert_eq!(bulk.records[1].vector_id, 2);
    assert_eq!(state.index.len(), 3);
    assert_eq!(state.map_count, 3);
    assert_eq!(state.meta_count, 3);
    assert_eq!(state.alloc.next, 3);
    assert!(verify_alignment(state.index.len(), state.map_count).is_ok());
}

#[test]
fn insert_lines_parse_back() {
    let mut state = fresh_state(2);
    let out = state.insert_review(input("nice", 5, Some("cafe")), &bits(&[1.0, 0.0])).unwrap();
    let rec = parse_review_line(&out.meta_line).unwrap();
    assert_eq!(rec.review, "nice");
    assert_eq!(rec.rating, 5);
    assert_eq!(rec.category.as_deref(), Some("cafe"));
    assert_eq!(rec.vector_id, 0);
    let (vid, rid) = parse_map_line(&out.map_line).unwrap();
    assert_eq!(vid, 0);
    assert_eq!(rid, out.record.id);
}

#[test]
fn invalid_insert_changes_nothing() {
    let mut state = fresh_state(2);
    let r = state.insert_review(input("bad", 6, None), &bits(&[1.0, 0.0]));
    assert!(matches!(r, Err(StoreError::Validation(_))));
    assert_eq!(state.index.len(), 0);
    assert_eq!(state.map_count, 0);
    assert_eq!(state.meta_count, 0);
    assert_eq!(state.alloc.next, 0);

    let r2 = state.insert_review(input("fine", 2, None), &bits(&[1.0, 0.0, 0.0]));
    assert!(matches!(r2, Err(StoreError::DimensionMismatch)));
    assert_eq!(state.index.len(), 0);
    assert_eq!(state.alloc.next, 0);
}

#[test]
fn bulk_insert_rejects_whole_batch_on_first_bad_item() {
    let mut state = fresh_state(2);
    let items = BulkReviews(vec![input("ok", 1, None), input("bad", 9, None)]);
    let vectors = vec![bits(&[1.0, 0.0]), bits(&[0.0, 1.0])];
    let r = state.bulk_insert(items, &vectors);
    assert!(matches!(r, Err(StoreError::Validation(_))));
    assert_eq!(state.index.len(), 0);
    assert_eq!(state.meta_count, 0);

    let r2 = state.bulk_insert(BulkReviews(Vec::new()), &Vec::new());
    match r2 {
        Err(StoreError::Validation(m)) => assert_eq!(m, "Bulk list empty"),
        _ => panic!("expected a validation error"),
    }
}

#[test]
fn reconfigure_resets_allocator_to_map_lines() {
    let mut state = fresh_state(2);
    state.insert_review(input("seed", 1, None), &bits(&[1.0, 0.0])).unwrap();

    let new_idx = BruteIndex::open(&Vec::new(), 2).unwrap();
    let new_paths = Paths {
        index_path: "other/reviews.index".to_owned(),
        jsonl_path: "other/reviews.jsonl".to_owned(),
        map_path: "other/vector_map.jsonl".to_owned(),
    };
    // The new location's map log holds 7 lines.
    state.reconfigure(VectorIndex::Brute(new_idx), new_paths, 7, 7);
    assert_eq!(state.alloc.next, 7);
    let next = state.alloc.reserve(1);
    assert_eq!(next, 7);
}

#[test]
fn alignment_check_reports_partial_failure() {
    // A crash between vector commit and metadata append: the vector is in
    // the index, the logs never got their lines.
    let mut idx = BruteIndex::open(&Vec::new(), 2).unwrap();
    idx.add_batch(&bits(&[1.0, 0.0]), None).unwrap();
    let map_log_lines: usize = 0;
    let r = verify_alignment(idx.len(), map_log_lines);
    match r {
        Err(StoreError::Mismatch(vectors, lines)) => {
            assert_eq!(vectors, 1);
            assert_eq!(lines, 0);
        },
        _ => panic!("expected a mismatch"),
    }
    assert!(verify_alignment(0, 0).is_ok());
}

#[test]
fn native_adapter_validates_before_any_call() {
    let spf = Spfresh::open("index-dir", 3, "PostingPageLimit=12").unwrap();
    assert_eq!(spf.len(), 0);

    // One vector of the wrong length: rejected, nothing committed.
    let r = spf.check_add_batch(4, None);
    assert!(matches!(r, Err(StoreError::DimensionMismatch)));
    assert_eq!(spf.len(), 0);

    let r2 = spf.check_add_batch(6, Some(3));
    assert!(matches!(r2, Err(StoreError::IdCountMismatch)));
    assert_eq!(spf.check_add_batch(6, Some(2)).unwrap(), 2);

    assert!(matches!(spf.check_search(2, 5), Err(StoreError::DimensionMismatch)));
    assert_eq!(spf.check_search(3, 5).unwrap(), true);
    assert_eq!(spf.check_search(3, 0).unwrap(), false);
}

#[test]
fn native_open_rejects_bad_arguments() {
    assert!(matches!(Spfresh::open("d", 0, "p"), Err(StoreError::Open(_))));
    assert!(matches!(Spfresh::open("d\u{0}ir", 3, "p"), Err(StoreError::Open(_))));
    assert!(matches!(Spfresh::open("d", 3, "p\u{0}"), Err(StoreError::Open(_))));
}

#[test]
fn native_session_counts_commits() {
    let mut spf = Spfresh::open("d", 2, "p").unwrap();
    spf.note_count(4);
    assert_eq!(spf.len(), 4);
    spf.record_committed(3);
    assert_eq!(spf.len(), 7);
}

#[test]
fn status_zero_is_success() {
    assert!(status_result(0, None).is_ok());
    match status_result(2, Some("index corrupt".to_owned())) {
        Err(StoreError::Engine(m)) => assert_eq!(m, "index corrupt"),
        _ => panic!("expected an engine error"),
    }
    match status_result(1, None) {
        Err(StoreError::Engine(m)) => assert_eq!(m, "unknown error"),
        _ => panic!("expected an engine error"),
    }
}

#[test]
fn query_validation_rejects_blank_queries() {
    assert!(AppState::validate_query("latte").is_ok());
    match AppState::validate_query("   ") {
        Err(StoreError::Validation(m)) => assert_eq!(m, "query empty"),
        _ => panic!("expected a validation error"),
    }
}

#[test]
fn new_state_seeds_allocator_from_map_count() {
    let idx = BruteIndex::open(&Vec::new(), 2).unwrap();
    let mut state = AppState::new(VectorIndex::Brute(idx), paths(), 12, 12);
    assert_eq!(state.alloc.reserve(1), 12);
}

#[test]
fn search_request_candidate_count() {
    let req = SearchRequest { query: "coffee".to_owned(), top_k: Some(2) };
    assert_eq!(req.candidate_count(), 5);
    let req2 = SearchRequest { query: "coffee".to_owned(), top_k: Some(77) };
    assert_eq!(req2.candidate_count(), 77);
    let req3 = SearchRequest { query: "coffee".to_owned(), top_k: None };
    assert_eq!(req3.candidate_count(), 5);
}

#[test]
fn error_kinds_are_distinguishable() {
    assert_eq!(StoreError::DimensionMismatch.kind(), "dimension_mismatch");
    assert_eq!(StoreError::Mismatch(1, 0).kind(), "mismatch");
    assert_eq!(StoreError::Validation("m".to_owned()).kind(), "validation");
    assert_eq!(StoreError::LockPoisoned.kind(), "lock_poisoned");
}
