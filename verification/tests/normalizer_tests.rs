use recall::normalizer::{
    canonicalize_url, classify_page, extract_search_query, is_login_page, is_redirect_url,
    matches_login_title, normalize_records, NormalizerInput,
};

fn empty_freqs() -> Vec<(String, usize)> {
    Vec::new()
}

fn score(n: recall::normalizer::NoiseScore) -> f64 {
    n.numerator as f64 / n.denominator as f64
}

#[test]
fn test_extract_bing_query() {
    let info = extract_search_query("https://cn.bing.com/search?q=%E9%A9%BE%E8%80%83&form=QBLH")
        .expect("query");
    assert_eq!(info.query, "驾考");
}

#[test]
fn test_extract_google_query() {
    let info = extract_search_query("https://www.google.com/search?q=openwrt+dns").expect("query");
    assert_eq!(info.query, "openwrt dns");
}

#[test]
fn test_non_search_url_has_no_query() {
    assert_eq!(extract_search_query("https://example.com/search?q=x"), None);
}

#[test]
fn test_canonicalize_removes_tracking_params() {
    let url = canonicalize_url("https://example.com/page?utm_source=x&q=keep&fbclid=abc#frag");
    assert_eq!(url, "https://example.com/page?q=keep");
}

#[test]
fn test_classify_redirect() {
    let c = classify_page(
        "https://www.google.com/url?q=https%3A%2F%2Fexample.com",
        Some("Redirect"),
        Some("google.com"),
        &empty_freqs(),
        1,
    );
    assert_eq!(c.category, "redirect");
    assert!(score(c.noise_score) >= 0.8);
}

#[test]
fn test_classify_login() {
    let c = classify_page(
        "https://sso.example.edu/login",
        Some("统一认证登录"),
        Some("sso.example.edu"),
        &empty_freqs(),
        1,
    );
    assert_eq!(c.category, "login");
    assert!(score(c.noise_score) >= 0.6);
}

#[test]
fn test_normalize_all_updates_artifact() {
    let inputs = vec![NormalizerInput {
        id: "a1".to_string(),
        title: Some("Bing Search".to_string()),
        url: Some("https://cn.bing.com/search?q=%E9%A9%BE%E8%80%83&utm_source=x".to_string()),
        domain: Some("cn.bing.com".to_string()),
    }];
    let counts = vec![("bing search".to_string(), 1usize)];
    let (records, stats) = normalize_records(&inputs, &counts);
    assert_eq!(stats.total_scanned, 1);
    assert_eq!(stats.search_queries, 1);

    assert_eq!(records[0].id, "a1");
    assert_eq!(records[0].page_category, "search_query");
    assert_eq!(records[0].extracted_query.as_deref(), Some("驾考"));
    assert_eq!(
        records[0].canonical_url.as_deref(),
        Some("https://cn.bing.com/search?q=%E9%A9%BE%E8%80%83")
    );
}

#[test]
fn test_classify_noise_is_exact() {
    // A browser page with a two-character title: 1.0 + 0.3, capped at 1.
    let c = classify_page("about:blank", Some("ab"), None, &empty_freqs(), 10);
    assert_eq!(c.category, "utility");
    assert_eq!(c.noise_score.denominator, 100);
    assert_eq!(c.noise_score.numerator, 100);

    // A content page whose title is shared by 5 of 20 pages: 0.3 * 5/20.
    let counts = vec![("shared title".to_string(), 5usize)];
    let c = classify_page(
        "https://example.com/a",
        Some("  Shared Title "),
        Some("example.com"),
        &counts,
        20,
    );
    assert_eq!(c.category, "content");
    assert_eq!(c.noise_score.denominator, 200);
    assert_eq!(c.noise_score.numerator, 15);

    // One in a hundred is not more than one in a hundred: no frequency noise.
    let counts = vec![("rare page".to_string(), 1usize)];
    let c = classify_page("https://example.com/b", Some("Rare Page"), None, &counts, 100);
    assert_eq!(c.noise_score.numerator, 0);
}

#[test]
fn test_login_title_marks_content_pages() {
    let c = classify_page(
        "https://example.com/welcome",
        Some("Please Sign In"),
        Some("example.com"),
        &empty_freqs(),
        1,
    );
    assert_eq!(c.category, "login");
    // 0.6 for a sign-in page plus 0.5 for its title, capped at 1.
    assert_eq!(c.noise_score.numerator, 10);
    assert_eq!(c.noise_score.denominator, 10);
}

#[test]
fn test_search_page_is_not_noise() {
    let c = classify_page(
        "https://www.baidu.com/s?wd=zfs",
        Some("zfs_百度搜索"),
        Some("baidu.com"),
        &empty_freqs(),
        1,
    );
    assert_eq!(c.category, "search_query");
    assert_eq!(c.noise_score.numerator, 0);
}

#[test]
fn test_page_predicates() {
    assert!(is_redirect_url("https://link.zhihu.com/?target=x"));
    assert!(!is_redirect_url("https://example.com/a"));
    assert!(matches_login_title("统一认证"));
    assert!(!matches_login_title("zfs cache"));
    assert!(is_login_page("home", "accounts.example.com", "https://accounts.example.com/"));
    assert!(!is_login_page("home", "example.com", "https://example.com/"));
}

#[test]
fn test_canonicalize_keeps_unparsable_text() {
    assert_eq!(canonicalize_url("not a url"), "not a url");
    assert_eq!(
        canonicalize_url("https://example.com/a?utm_term=x#top"),
        "https://example.com/a"
    );
}

#[test]
fn test_search_engines_and_blank_queries() {
    assert_eq!(
        extract_search_query("https://duckduckgo.com/?q=verus").map(|i| i.query),
        Some("verus".to_string())
    );
    assert_eq!(
        extract_search_query("https://www.sogou.com/web?query=abc").map(|i| i.query),
        Some("abc".to_string())
    );
    assert_eq!(extract_search_query("https://www.google.com/search?q=+++"), None);
    assert_eq!(extract_search_query("not a url"), None);
}

#[test]
fn test_normalize_stats_tally() {
    let mk = |id: &str, title: &str, url: &str| NormalizerInput {
        id: id.to_string(),
        title: Some(title.to_string()),
        url: Some(url.to_string()),
        domain: None,
    };
    let inputs = vec![
        mk("1", "Redirecting", "https://www.google.com/url?q=x"),
        mk("2", "New Tab", "chrome://newtab"),
        mk("3", "Login", "https://example.com/login"),
        mk("4", "A long article", "https://example.com/article"),
    ];
    let (records, stats) = normalize_records(&inputs, &Vec::new());
    assert_eq!(records.len(), 4);
    assert_eq!(stats.updated, 4);
    assert_eq!(stats.redirects, 1);
    assert_eq!(stats.utility_pages, 1);
    assert_eq!(stats.login_pages, 1);
    assert_eq!(stats.search_queries, 0);
    // utility (1.0), login page with sign-in title (0.6 + 0.5) and the
    // redirect (0.8) are above 0.7.
    assert_eq!(stats.high_noise, 3);
    assert_eq!(records[3].page_category, "content");
}
