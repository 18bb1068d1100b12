use recall::semantic::vectors_to_store;
use recall::semantic::prefix_query_for_retrieval;

#[test]
fn test_bge_query_prefix_is_centralized() {
    assert_eq!(
        prefix_query_for_retrieval("考驾照"),
        "为这个句子生成表示以用于检索相关文章：考驾照"
    );
}

use recall::models::Artifact;
use recall::semantic::{embedding_progress_of, embedding_text, plan_embedding, EmbedAction};

fn artifact_with_quality(page_category: &str) -> Artifact {
    Artifact {
        id: "a1".to_string(),
        kind: "history".to_string(),
        title: Some("驾考宝典题库来源".to_string()),
        url: Some("https://example.com".to_string()),
        domain: Some("example.com".to_string()),
        created_at: "2026-01-01T00:00:00Z".to_string(),
        visited_at: None,
        is_bookmarked: false,
        visit_count: 1,
        source: Some("edge".to_string()),
        content: None,
        user_note: None,
        folder_path: None,
        import_batch: None,
        page_category: Some(page_category.to_string()),
        extracted_query: Some("考驾照".to_string()),
        canonical_url: None,
        referrer_domain: None,
    }
}

fn indexed(page_category: &str, noise_score: f64) -> bool {
    let actions = plan_embedding(&vec![artifact_with_quality(page_category)], &vec![noise_score <= 0.85]);
    matches!(actions[0], EmbedAction::Embed(_))
}

#[test]
fn test_noise_and_utility_pages_are_not_indexed() {
    assert!(indexed("content", 0.1));
    assert!(!indexed("utility", 0.1));
    assert!(!indexed("content", 0.9));
}

#[test]
fn test_embedding_text_joins_parts() {
    let mut a = artifact_with_quality("content");
    a.user_note = Some("   ".to_string());
    assert_eq!(
        embedding_text(&a),
        "考驾照\n驾考宝典题库来源\nexample.com\nhttps://example.com"
    );
}

#[test]
fn test_embedding_progress_counts_pending() {
    let p = embedding_progress_of(3, 10, 2, false, "cache".to_string());
    assert_eq!(p.pending, 7);
    assert_eq!(p.model, "BAAI/bge-small-zh-v1.5");
    assert_eq!(p.dims, 512);
    assert!(!p.model_loaded);
    let p = embedding_progress_of(i64::MAX, i64::MIN, 0, true, String::new());
    assert_eq!(p.pending, i64::MIN);
}

use recall::semantic::{count_skipped, embedding_batch_limit, indexable_category};

#[test]
fn test_indexing_plan_counts() {
    assert_eq!(embedding_batch_limit(0), 1);
    assert_eq!(embedding_batch_limit(32), 32);
    assert_eq!(embedding_batch_limit(1000), 128);
    assert!(indexable_category(&None));
    assert!(!indexable_category(&Some("login".to_string())));
    let mut blank = artifact_with_quality("content");
    blank.title = None;
    blank.extracted_query = None;
    blank.domain = Some(" ".to_string());
    blank.url = None;
    let actions = plan_embedding(
        &vec![artifact_with_quality("content"), artifact_with_quality("redirect"), blank],
        &vec![true, true, true],
    );
    assert!(matches!(actions[0], EmbedAction::Embed(_)));
    assert!(matches!(actions[1], EmbedAction::SkipExcluded));
    assert!(matches!(actions[2], EmbedAction::SkipBlank));
    assert_eq!(count_skipped(&actions), 2);
}

#[test]
fn test_skip_only_batch_embeds_nothing() {
    // One utility page with low noise, one content page with noise 0.9
    let actions = plan_embedding(
        &vec![artifact_with_quality("utility"), artifact_with_quality("content")],
        &vec![0.1 <= 0.85, 0.9 <= 0.85],
    );
    assert!(actions.iter().all(|a| matches!(a, EmbedAction::SkipExcluded)));
    assert_eq!(count_skipped(&actions), 2);
}

#[test]
fn test_vectors_to_store_checks_dimensions() {
    let (fits, n) = vectors_to_store(&vec![512, 384, 512, 0]);
    assert_eq!(fits, vec![true, false, true, false]);
    assert_eq!(n, 2);
}
