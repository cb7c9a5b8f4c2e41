//! Tests of the two persisted formats: the binary vector file and the
//! JSON-lines logs.

use review_store::brute::BruteIndex;
use review_store::jsonl::{load_all_reviews, parse_map_line, parse_review_line, read_vector_map,
    render_map_line, render_review_line};
use review_store::review::StoredReview;
use review_store::vecfile::{decode_file, encode_record};

fn bits(v: &[f32]) -> Vec<u32> {
    v.iter().map(|f| f.to_bits()).collect()
}

#[test]
fn encode_decode_single_record() {
    let v = bits(&[1.0, -2.5, 0.0]);
    let bytes = encode_record(&v);
    assert_eq!(bytes.len(), 4 + 4 * 3);
    let records = decode_file(&bytes);
    assert_eq!(records, vec![v]);
}

#[test]
fn decode_discards_trailing_partial_record() {
    let v = bits(&[3.5, 4.5]);
    let mut bytes = encode_record(&v);
    // A second record whose payload was cut off mid-write.
    bytes.extend_from_slice(&2u32.to_le_bytes());
    bytes.extend_from_slice(&1.0f32.to_bits().to_le_bytes());
    let records = decode_file(&bytes);
    assert_eq!(records, vec![v]);
}

#[test]
fn record_bytes_are_length_then_words_little_endian() {
    let bytes = encode_record(&vec![1u32, 0x0403_0201]);
    assert_eq!(bytes, vec![2, 0, 0, 0, 1, 0, 0, 0, 0x01, 0x02, 0x03, 0x04]);
}

#[test]
fn extreme_vector_id_round_trips() {
    let rec = StoredReview {
        id: "x".to_owned(),
        review: "r".to_owned(),
        rating: 0,
        category: None,
        schema_version: "v1".to_owned(),
        vector_id: usize::MAX,
    };
    let line = render_review_line(&rec);
    assert_eq!(parse_review_line(&line).unwrap().vector_id, usize::MAX);
}

#[test]
fn decode_empty_file() {
    let records = decode_file(&Vec::new());
    assert!(records.is_empty());
}

#[test]
fn open_rejects_zero_dimension() {
    let r = BruteIndex::open(&Vec::new(), 0);
    assert!(matches!(r, Err(review_store::errors::StoreError::Open(_))));
}

#[test]
fn open_rejects_wrong_dimension_record() {
    let bytes = encode_record(&bits(&[1.0, 2.0, 3.0]));
    let r = BruteIndex::open(&bytes, 2);
    assert!(matches!(r, Err(review_store::errors::StoreError::Open(_))));
}

#[test]
fn review_line_round_trip() {
    let rec = StoredReview {
        id: "11111111-2222-3333-4444-555555555555".to_owned(),
        review: "good \"coffee\"\\latte\nand ครัวซองด์ \u{1}!".to_owned(),
        rating: 5,
        category: Some("food-and drink_1".to_owned()),
        schema_version: "v1".to_owned(),
        vector_id: 42,
    };
    let line = render_review_line(&rec);
    let back = parse_review_line(&line).unwrap();
    assert_eq!(back.id, rec.id);
    assert_eq!(back.review, rec.review);
    assert_eq!(back.rating, rec.rating);
    assert_eq!(back.category, rec.category);
    assert_eq!(back.schema_version, rec.schema_version);
    assert_eq!(back.vector_id, rec.vector_id);
}

#[test]
fn review_line_is_real_json() {
    let rec = StoredReview {
        id: "abc".to_owned(),
        review: "tab\there \"q\" back\\slash".to_owned(),
        rating: 3,
        category: None,
        schema_version: "v1".to_owned(),
        vector_id: 7,
    };
    let line = render_review_line(&rec);
    let v: serde_json::Value = serde_json::from_str(&line).unwrap();
    assert_eq!(v["id"].as_str().unwrap(), "abc");
    assert_eq!(v["review"].as_str().unwrap(), "tab\there \"q\" back\\slash");
    assert_eq!(v["rating"].as_i64().unwrap(), 3);
    assert!(v["category"].is_null());
    assert_eq!(v["schema_version"].as_str().unwrap(), "v1");
    assert_eq!(v["vector_id"].as_u64().unwrap(), 7);
}

#[test]
fn map_line_round_trip() {
    let line = render_map_line(9, "some-review-id");
    let v: serde_json::Value = serde_json::from_str(&line).unwrap();
    assert_eq!(v["vector_id"].as_u64().unwrap(), 9);
    assert_eq!(v["review_id"].as_str().unwrap(), "some-review-id");
    let (vid, rid) = parse_map_line(&line).unwrap();
    assert_eq!(vid, 9);
    assert_eq!(rid, "some-review-id");
}

#[test]
fn category_null_string_differs_from_absent() {
    let rec = StoredReview {
        id: "x".to_owned(),
        review: "r".to_owned(),
        rating: 0,
        category: Some("null".to_owned()),
        schema_version: "v1".to_owned(),
        vector_id: 0,
    };
    let line = render_review_line(&rec);
    let back = parse_review_line(&line).unwrap();
    assert_eq!(back.category.as_deref(), Some("null"));
    let mut absent = rec;
    absent.category = None;
    let line2 = render_review_line(&absent);
    assert_ne!(line, line2);
    assert_eq!(parse_review_line(&line2).unwrap().category, None);
}

#[test]
fn negative_rating_renders_and_parses() {
    // The log format covers any stored record, not only validated ones.
    let rec = StoredReview {
        id: "x".to_owned(),
        review: "r".to_owned(),
        rating: -7,
        category: None,
        schema_version: "v1".to_owned(),
        vector_id: 1,
    };
    let line = render_review_line(&rec);
    assert_eq!(parse_review_line(&line).unwrap().rating, -7);
}

#[test]
fn backspace_and_form_feed_use_short_escapes() {
    let rec = StoredReview {
        id: "x".to_owned(),
        review: "a\u{8}b\u{c}c".to_owned(),
        rating: 1,
        category: None,
        schema_version: "v1".to_owned(),
        vector_id: 0,
    };
    let line = render_review_line(&rec);
    assert!(line.contains("\\b") && line.contains("\\f"));
    assert_eq!(parse_review_line(&line).unwrap().review, "a\u{8}b\u{c}c");
    // serde_json writes the same short escapes; its line parses back too.
    let v: serde_json::Value = serde_json::from_str(&line).unwrap();
    assert_eq!(v["review"].as_str().unwrap(), "a\u{8}b\u{c}c");
}

#[test]
fn parse_rejects_garbage() {
    let r = parse_review_line("not json at all");
    match r {
        Err(review_store::errors::StoreError::CorruptRecord(l)) => {
            assert_eq!(l, "not json at all");
        },
        _ => panic!("expected a corrupt-record error"),
    }
}

#[test]
fn load_all_reviews_stops_at_first_corrupt_line() {
    let rec = StoredReview {
        id: "a".to_owned(),
        review: "fine".to_owned(),
        rating: 1,
        category: None,
        schema_version: "v1".to_owned(),
        vector_id: 0,
    };
    let good = render_review_line(&rec);
    let lines = vec![good.clone(), "{broken".to_owned(), "also broken".to_owned()];
    match load_all_reviews(&lines) {
        Err(review_store::errors::StoreError::CorruptRecord(l)) => {
            assert_eq!(l, "{broken");
        },
        _ => panic!("expected a corrupt-record error naming the first bad line"),
    }
    let ok = load_all_reviews(&vec![good]).unwrap();
    assert_eq!(ok.len(), 1);
    assert_eq!(ok[0].review, "fine");
}

#[test]
fn parser_accepts_exactly_the_canonical_form() {
    // Valid JSON in another shape — spaces, reordered fields — is not a
    // canonical log line.
    let spaced = "{\"id\": \"a\", \"review\": \"r\", \"rating\": 1, \"category\": null, \"schema_version\": \"v1\", \"vector_id\": 0}";
    assert!(serde_json::from_str::<serde_json::Value>(spaced).is_ok());
    assert!(parse_review_line(spaced).is_err());
    let reordered = "{\"review\":\"r\",\"id\":\"a\",\"rating\":1,\"category\":null,\"schema_version\":\"v1\",\"vector_id\":0}";
    assert!(serde_json::from_str::<serde_json::Value>(reordered).is_ok());
    assert!(parse_review_line(reordered).is_err());
}

#[test]
fn read_vector_map_parses_all_lines() {
    let lines = vec![render_map_line(0, "r0"), render_map_line(1, "r1")];
    let entries = read_vector_map(&lines).unwrap();
    assert_eq!(entries, vec![(0usize, "r0".to_owned()), (1usize, "r1".to_owned())]);
}
