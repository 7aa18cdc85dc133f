//! Vector arithmetic: serialization, cosine similarity, hybrid fusion.
//! Scores and components are fixed-point integers in millionths, so 1.0
//! is 1_000_000.

use hybrid_memory::fusion::hybrid_merge;
use hybrid_memory::vector::{bytes_to_vec, cosine_similarity, vec_to_bytes};
use hybrid_memory::SCALE;

fn fixed(x: f64) -> i32 {
    (x * 1_000_000.0) as i32
}

#[test]
fn cosine_identical_vectors() {
    let v = vec![fixed(1.0), fixed(2.0), fixed(3.0)];
    let sim = cosine_similarity(&v, &v);
    assert!((sim as f64 / SCALE as f64 - 1.0).abs() < 0.001);
}

#[test]
fn cosine_orthogonal_vectors() {
    let a = vec![fixed(1.0), fixed(0.0), fixed(0.0)];
    let b = vec![fixed(0.0), fixed(1.0), fixed(0.0)];
    let sim = cosine_similarity(&a, &b);
    assert!((sim as f64 / SCALE as f64).abs() < 0.001);
}

#[test]
fn vec_bytes_roundtrip() {
    let original = vec![1.0_f32, -2.5, 3.14, 0.0];
    let words: Vec<u32> = original.iter().map(|f| f.to_bits()).collect();
    let bytes = vec_to_bytes(&words);
    let restored_words = bytes_to_vec(&bytes);
    let restored: Vec<f32> = restored_words.iter().map(|w| f32::from_bits(*w)).collect();
    assert_eq!(original, restored);
}

#[test]
fn hybrid_merge_combines_scores() {
    let vec_results = vec![("a".to_string(), fixed(0.9) as u64)];
    let kw_results = vec![("a".to_string(), fixed(10.0) as u64)];
    let merged = hybrid_merge(&vec_results, &kw_results, 700_000, 300_000, 10);
    assert_eq!(merged.len(), 1);
    assert!(merged[0].final_score > 0);
}

#[test]
fn hybrid_merge_exact_fusion() {
    // vector 0.9, keyword normalized to 1.0: 0.7 * 0.9 + 0.3 * 1.0 = 0.93
    let vec_results = vec![("a".to_string(), 900_000_u64)];
    let kw_results = vec![("a".to_string(), 10_000_000_u64)];
    let merged = hybrid_merge(&vec_results, &kw_results, 700_000, 300_000, 10);
    assert_eq!(merged[0].final_score, 930_000);
    assert_eq!(merged[0].vector_score, Some(900_000));
    assert_eq!(merged[0].keyword_score, Some(1_000_000));
}

#[test]
fn hybrid_merge_empty_vector_side_keeps_keyword_order() {
    let kw_results = vec![
        ("low".to_string(), 1_u64),
        ("high".to_string(), 4_u64),
        ("mid".to_string(), 2_u64),
    ];
    let merged = hybrid_merge(&Vec::new(), &kw_results, 700_000, 300_000, 10);
    assert_eq!(merged.len(), 3);
    assert_eq!(merged[0].id, "high");
    assert_eq!(merged[1].id, "mid");
    assert_eq!(merged[2].id, "low");
    for m in &merged {
        assert!(m.vector_score.is_none());
    }
}

#[test]
fn hybrid_merge_truncates_to_limit() {
    let kw_results = vec![
        ("a".to_string(), 3_u64),
        ("b".to_string(), 2_u64),
        ("c".to_string(), 1_u64),
    ];
    let merged = hybrid_merge(&Vec::new(), &kw_results, 700_000, 300_000, 2);
    assert_eq!(merged.len(), 2);
    assert_eq!(merged[0].id, "a");
    assert_eq!(merged[1].id, "b");
}

#[test]
fn cosine_length_mismatch_is_zero() {
    let a = vec![fixed(1.0), fixed(2.0)];
    let b = vec![fixed(1.0), fixed(2.0), fixed(3.0)];
    assert_eq!(cosine_similarity(&a, &b), 0);
    assert_eq!(cosine_similarity(&Vec::new(), &Vec::new()), 0);
}

#[test]
fn cosine_is_symmetric() {
    let a = vec![fixed(0.3), fixed(-0.2), fixed(0.9)];
    let b = vec![fixed(0.1), fixed(0.8), fixed(-0.4)];
    assert_eq!(cosine_similarity(&a, &b), cosine_similarity(&b, &a));
}

#[test]
fn cosine_opposed_vectors_collapse_to_zero() {
    let a = vec![fixed(1.0), fixed(1.0)];
    let b = vec![fixed(-1.0), fixed(-1.0)];
    assert_eq!(cosine_similarity(&a, &b), 0);
}

#[test]
fn bytes_to_vec_discards_partial_chunk() {
    let bytes = vec![1_u8, 0, 0, 0, 2, 0, 0];
    let words = bytes_to_vec(&bytes);
    assert_eq!(words, vec![1_u32]);
}

#[test]
fn vec_to_bytes_little_endian() {
    let words = vec![0x0403_0201_u32];
    assert_eq!(vec_to_bytes(&words), vec![0x01, 0x02, 0x03, 0x04]);
}
