//! The engine end to end: store, get, forget, count, list, recall with
//! and without embeddings, the fallback, and the bounded cache.

use hybrid_memory::engine::{MemoryCategory, MemoryStore};
use hybrid_memory::SCALE;

const UNIT: i32 = 1_000_000;

#[test]
fn recall_keyword_only_finds_stored_text() {
    let mut store = MemoryStore::new();
    store.store("greeting", "hello world", MemoryCategory::Core, None).unwrap();
    let results = store.recall("hello", None, 10);
    assert_eq!(results.len(), 1);
    assert_eq!(results[0].key, "greeting");
    assert!(results[0].score.unwrap() > 0);
}

#[test]
fn recall_ranks_better_keyword_match_first() {
    let mut store = MemoryStore::new();
    store.store("a", "apple pie", MemoryCategory::Core, None).unwrap();
    store.store("b", "banana bread", MemoryCategory::Core, None).unwrap();
    let results = store.recall("banana", None, 10);
    assert!(!results.is_empty());
    assert_eq!(results[0].key, "b");
}

#[test]
fn recall_vector_match_ranks_first_with_weighted_score() {
    let mut store = MemoryStore::with_params(700_000, 300_000, 10_000, 3);
    let e_a = vec![UNIT, 0, 0];
    let e_b = vec![0, UNIT, 0];
    store.store("a", "alpha note", MemoryCategory::Core, Some(e_a.clone())).unwrap();
    store.store("b", "beta note", MemoryCategory::Core, Some(e_b)).unwrap();
    let results = store.recall("alpha", Some(&e_a), 10);
    assert!(!results.is_empty());
    assert_eq!(results[0].key, "a");
    assert!(results[0].score.unwrap() >= 700_000);
}

#[test]
fn recall_vector_only_score_is_weighted_cosine() {
    let mut store = MemoryStore::with_params(700_000, 300_000, 10_000, 3);
    let e_a = vec![UNIT, 0, 0];
    let e_b = vec![0, UNIT, 0];
    store.store("a", "alpha note", MemoryCategory::Core, Some(e_a.clone())).unwrap();
    store.store("b", "beta note", MemoryCategory::Core, Some(e_b)).unwrap();
    // No keyword overlap: the ranking is vector-only, and the winning
    // score is exactly vector_weight * cosine = 0.7 * 1.0.
    let results = store.recall("zzz", Some(&e_a), 10);
    assert!(!results.is_empty());
    assert_eq!(results[0].key, "a");
    assert_eq!(results[0].score.unwrap(), 700_000);
}

#[test]
fn upsert_keeps_count_and_updates_content() {
    let mut store = MemoryStore::new();
    store.store("k", "v1", MemoryCategory::Core, None).unwrap();
    store.store("k", "v2", MemoryCategory::Core, None).unwrap();
    assert_eq!(store.count(), 1);
    assert_eq!(store.get("k").unwrap().content, "v2");
}

#[test]
fn upsert_preserves_identity() {
    let mut store = MemoryStore::new();
    store.store("k", "c1", MemoryCategory::Core, None).unwrap();
    let id1 = store.get("k").unwrap().id;
    store.store("k", "c2", MemoryCategory::Daily, None).unwrap();
    let id2 = store.get("k").unwrap().id;
    assert_eq!(id1, id2);
    assert_eq!(store.get("k").unwrap().content, "c2");
}

#[test]
fn store_assigns_distinct_ids() {
    let mut store = MemoryStore::new();
    store.store("a", "x", MemoryCategory::Core, None).unwrap();
    store.store("b", "y", MemoryCategory::Core, None).unwrap();
    let id_a = store.get("a").unwrap().id;
    let id_b = store.get("b").unwrap().id;
    assert_ne!(id_a, id_b);
    assert_eq!(id_a.len(), 36);
}

#[test]
fn forget_removes_and_reports() {
    let mut store = MemoryStore::new();
    store.store("k", "c", MemoryCategory::Core, None).unwrap();
    store.store("other", "d", MemoryCategory::Core, None).unwrap();
    let before = store.count();
    assert!(store.forget("k"));
    assert!(store.get("k").is_none());
    assert_eq!(store.count(), before - 1);
    assert!(!store.forget("k"));
}

#[test]
fn recall_on_blank_query_is_empty() {
    let mut store = MemoryStore::new();
    store.store("k", "some content", MemoryCategory::Core, None).unwrap();
    assert!(store.recall("", None, 10).is_empty());
    assert!(store.recall("   \t\n", None, 10).is_empty());
}

#[test]
fn recall_falls_back_to_substring_match() {
    let mut store = MemoryStore::new();
    store.store("k1", "hello world", MemoryCategory::Core, None).unwrap();
    // "ello" is no whitespace token of the content, but a substring.
    let results = store.recall("ello", None, 10);
    assert_eq!(results.len(), 1);
    assert_eq!(results[0].key, "k1");
    assert_eq!(results[0].score, Some(SCALE));
}

#[test]
fn recall_respects_limit() {
    let mut store = MemoryStore::new();
    for i in 0..5 {
        store.store(&format!("k{i}"), "common word", MemoryCategory::Core, None).unwrap();
    }
    let results = store.recall("common", None, 3);
    assert_eq!(results.len(), 3);
}

#[test]
fn mismatched_embedding_length_scores_zero() {
    let mut store = MemoryStore::with_params(700_000, 300_000, 10_000, 3);
    // Stored under another dimensionality: tolerated, similarity 0.
    store.store("old", "legacy zzz", MemoryCategory::Core, Some(vec![UNIT, 0])).unwrap();
    let q = vec![UNIT, 0, 0];
    let results = store.recall("qqq", Some(&q), 10);
    assert!(results.is_empty());
}

#[test]
fn list_orders_by_update_time_and_filters() {
    let mut store = MemoryStore::new();
    store.store("first", "a", MemoryCategory::Core, None).unwrap();
    store.store("second", "b", MemoryCategory::Daily, None).unwrap();
    store.store("first", "a2", MemoryCategory::Core, None).unwrap();
    let all = store.list(None);
    assert_eq!(all.len(), 2);
    assert_eq!(all[0].key, "first");
    assert_eq!(all[1].key, "second");
    let daily = store.list(Some(&MemoryCategory::Daily));
    assert_eq!(daily.len(), 1);
    assert_eq!(daily[0].key, "second");
    assert!(daily[0].score.is_none());
}

#[test]
fn health_and_name() {
    let store = MemoryStore::new();
    assert!(store.health_check());
    assert_eq!(store.name(), "memory");
}

#[test]
fn cache_bound_holds_after_overflow() {
    let mut store = MemoryStore::with_params(700_000, 300_000, 2, 3);
    for i in 0..5 {
        let text = format!("text {i}");
        store.cache_insert(&text, &vec![i as i32, 0, 0]);
    }
    assert!(store.cache.len() <= 2);
}

#[test]
fn cache_evicts_least_recently_used() {
    let mut store = MemoryStore::with_params(700_000, 300_000, 2, 3);
    store.cache_insert("T1", &vec![1, 0, 0]);
    store.cache_insert("T2", &vec![2, 0, 0]);
    store.cache_insert("T3", &vec![3, 0, 0]);
    assert!(store.cache_lookup("T1").is_none());
    assert_eq!(store.cache_lookup("T2"), Some(vec![2, 0, 0]));
    assert_eq!(store.cache_lookup("T3"), Some(vec![3, 0, 0]));
}

#[test]
fn cache_lookup_refreshes_access_order() {
    let mut store = MemoryStore::with_params(700_000, 300_000, 2, 3);
    store.cache_insert("T1", &vec![1, 0, 0]);
    store.cache_insert("T2", &vec![2, 0, 0]);
    // Touch T1, making T2 the oldest.
    assert!(store.cache_lookup("T1").is_some());
    store.cache_insert("T3", &vec![3, 0, 0]);
    assert!(store.cache_lookup("T2").is_none());
    assert!(store.cache_lookup("T1").is_some());
}

#[test]
fn cache_disabled_without_embedder() {
    let mut store = MemoryStore::new();
    assert!(store.cache_lookup("anything").is_none());
}
