use pdb::operator::{
    cache_search_results, is_search_cached, limit_hits, pdb_clear_cache, pdb_match,
    pdb_operator_score_bits, pdb_score_bits, pdb_search_init, pdb_search_operator, SearchCache,
};

#[test]
fn uncached_search_matches_nothing() {
    let cache = SearchCache::new();
    assert!(!is_search_cached(&cache, "articles", "body", "rust"));
    assert!(!pdb_match(&cache, "articles", "body", "rust", 1));
    assert_eq!(pdb_score_bits(&cache, "articles", "body", "rust", 1), 0.0f32.to_bits());
}

#[test]
fn cached_hits_decide_match_and_score() {
    let mut cache = SearchCache::new();
    cache_search_results(&mut cache, "articles", "body", "rust", vec![(1, 2.5f32.to_bits()), (3, 0.75f32.to_bits())]);
    assert!(is_search_cached(&cache, "articles", "body", "rust"));
    assert!(pdb_match(&cache, "articles", "body", "rust", 1));
    assert!(pdb_match(&cache, "articles", "body", "rust", 3));
    assert!(!pdb_match(&cache, "articles", "body", "rust", 2));
    assert_eq!(f32::from_bits(pdb_score_bits(&cache, "articles", "body", "rust", 1)), 2.5);
    assert_eq!(f32::from_bits(pdb_score_bits(&cache, "articles", "body", "rust", 3)), 0.75);
    assert_eq!(f32::from_bits(pdb_score_bits(&cache, "articles", "body", "rust", 2)), 0.0);
    // Another query, column or table is another search.
    assert!(!pdb_match(&cache, "articles", "body", "python", 1));
    assert!(!pdb_match(&cache, "articles", "title", "rust", 1));
    assert!(!pdb_match(&cache, "notes", "body", "rust", 1));
}

#[test]
fn a_later_hit_for_the_same_key_wins() {
    let mut cache = SearchCache::new();
    cache_search_results(&mut cache, "t", "c", "q", vec![(1, 3.0f32.to_bits()), (1, 1.0f32.to_bits())]);
    assert_eq!(f32::from_bits(pdb_score_bits(&cache, "t", "c", "q", 1)), 1.0);
}

#[test]
fn a_search_is_cached_once() {
    let mut cache = SearchCache::new();
    cache_search_results(&mut cache, "t", "c", "q", vec![(1, 1.0f32.to_bits())]);
    cache_search_results(&mut cache, "t", "c", "q", vec![(2, 1.0f32.to_bits())]);
    assert!(pdb_match(&cache, "t", "c", "q", 1));
    assert!(!pdb_match(&cache, "t", "c", "q", 2));
}

#[test]
fn clearing_forgets_every_search() {
    let mut cache = SearchCache::new();
    cache_search_results(&mut cache, "t", "c", "q", vec![(1, 1.0f32.to_bits())]);
    cache_search_results(&mut cache, "t", "c", "r", vec![]);
    assert!(pdb_clear_cache(&mut cache));
    assert!(!is_search_cached(&cache, "t", "c", "q"));
    assert!(!is_search_cached(&cache, "t", "c", "r"));
    assert!(!pdb_match(&cache, "t", "c", "q", 1));
}

#[test]
fn an_empty_result_is_cached_too() {
    let mut cache = SearchCache::new();
    cache_search_results(&mut cache, "t", "c", "q", vec![]);
    assert!(is_search_cached(&cache, "t", "c", "q"));
    assert!(!pdb_match(&cache, "t", "c", "q", 1));
}

#[test]
fn operator_score_follows_the_initialized_search() {
    let mut cache = SearchCache::new();
    assert_eq!(pdb_operator_score_bits(&cache, 1), 0);
    cache_search_results(&mut cache, "articles", "body", "rust programming", vec![(1, 1.5f32.to_bits())]);
    cache_search_results(&mut cache, "articles", "body", "python", vec![(2, 0.5f32.to_bits())]);
    assert!(pdb_search_init(&mut cache, "articles", "body", "rust programming"));
    assert_eq!(f32::from_bits(pdb_operator_score_bits(&cache, 1)), 1.5);
    assert_eq!(f32::from_bits(pdb_operator_score_bits(&cache, 2)), 0.0);
    pdb_search_init(&mut cache, "articles", "body", "python");
    assert_eq!(f32::from_bits(pdb_operator_score_bits(&cache, 2)), 0.5);
    pdb_clear_cache(&mut cache);
    assert_eq!(pdb_operator_score_bits(&cache, 2), 0);
}

#[test]
fn search_operator_keeps_rows_with_content() {
    assert!(pdb_search_operator(Some("Rust is a systems programming language"), "rust"));
    assert!(!pdb_search_operator(None, "rust"));
}

#[test]
fn limit_keeps_the_top_hits() {
    let hits = vec![(1, 3), (2, 2), (3, 1)];
    assert_eq!(limit_hits(hits.clone(), 2), vec![(1, 3), (2, 2)]);
    assert_eq!(limit_hits(hits.clone(), 10), hits);
    assert_eq!(limit_hits(hits.clone(), 0), vec![]);
    assert_eq!(limit_hits(hits, -1), vec![]);
}

#[test]
fn cached_answers_stay_until_cleared() {
    let mut cache = SearchCache::new();
    cache_search_results(&mut cache, "t", "c", "q", vec![(1, 2.0f32.to_bits())]);
    let before = (pdb_match(&cache, "t", "c", "q", 1), pdb_score_bits(&cache, "t", "c", "q", 1));
    cache_search_results(&mut cache, "t", "c", "q", vec![(5, 9.0f32.to_bits())]);
    cache_search_results(&mut cache, "t", "c", "other", vec![(1, 7.0f32.to_bits())]);
    pdb_search_init(&mut cache, "t", "c", "other");
    assert_eq!((pdb_match(&cache, "t", "c", "q", 1), pdb_score_bits(&cache, "t", "c", "q", 1)), before);
    pdb_clear_cache(&mut cache);
    assert!(!pdb_match(&cache, "t", "c", "q", 1));
}
