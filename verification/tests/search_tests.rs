use recall::models::Artifact;
use recall::search::{context_tokens, searches_expanded};
use recall::segmenter::{jaccard_counts, Segmenter};

fn page(title: &str, domain: &str) -> Artifact {
    Artifact {
        id: "x".to_string(),
        kind: "history".to_string(),
        title: Some(title.to_string()),
        url: None,
        domain: Some(domain.to_string()),
        created_at: String::new(),
        visited_at: None,
        is_bookmarked: false,
        visit_count: 1,
        source: None,
        content: None,
        user_note: None,
        folder_path: None,
        import_batch: None,
        page_category: None,
        extracted_query: None,
        canonical_url: None,
        referrer_domain: None,
    }
}

#[test]
fn test_context_tokens_cover_title_and_domain() {
    let segmenter = Segmenter::new();
    let tokens = context_tokens(&segmenter, &page("OpenWrt DNS", "openwrt.org"));
    assert!(tokens.iter().any(|t| t.eq_ignore_ascii_case("OpenWrt")));
    assert!(tokens.iter().any(|t| t.eq_ignore_ascii_case("DNS")));
    let other = context_tokens(&segmenter, &page("dns setup", "example.com"));
    let (shared, union) = jaccard_counts(&tokens, &other);
    assert!(shared >= 1);
    assert!(union > shared);
}

#[test]
fn test_searches_expanded() {
    assert!(!searches_expanded("", "\"a\""));
    assert!(!searches_expanded("\"a\"", "\"a\""));
    assert!(searches_expanded("\"a\" OR \"b\"", "\"a\""));
}
