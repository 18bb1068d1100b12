use recall::expander::{build_fts_query_from_terms, builtin_synonyms_for, is_expansion_stopword};

#[test]
fn test_build_fts_query_from_terms() {
    let terms = vec!["ZFS".to_string(), "缓存".to_string(), "he\"llo".to_string()];
    assert_eq!(
        build_fts_query_from_terms(&terms),
        r#""ZFS" OR "缓存" OR "hello""#
    );
}

#[test]
fn test_builtin_synonyms_are_bidirectional() {
    let terms = builtin_synonyms_for("考驾照");
    assert!(terms.iter().any(|t| t == "驾考"));
    assert!(terms.iter().any(|t| t == "科目一"));
}

#[test]
fn test_is_expansion_stopword() {
    assert!(is_expansion_stopword("知乎"));
    assert!(is_expansion_stopword("Bilibili"));
    assert!(is_expansion_stopword("WWW"));
    // Contentful words must never be treated as stopwords.
    assert!(!is_expansion_stopword("驾考"));
    assert!(!is_expansion_stopword("题库"));
}

use recall::expander::{QueryExpander, TextRow};
use recall::segmenter::Segmenter;

fn row(title: &str, query: &str) -> TextRow {
    TextRow { title: title.to_string(), extracted_query: query.to_string() }
}

#[test]
fn test_mined_terms_skip_stopwords_and_tokens() {
    let segmenter = Segmenter::new();
    let expander = QueryExpander::new();
    let tokens = vec!["驾考".to_string()];
    let rows: Vec<TextRow> = (0..5).map(|i| row(&format!("驾考宝典 题库 知乎 {}", i), "")).collect();
    let terms = expander.cooccurrence_terms(&segmenter, &tokens, &rows);
    assert!(!terms.iter().any(|t| t == "知乎"), "got {:?}", terms);
    assert!(!terms.iter().any(|t| t.eq_ignore_ascii_case("驾考")), "got {:?}", terms);
    assert!(terms.iter().any(|t| t == "题库"), "got {:?}", terms);
    assert!(terms.len() <= 6);

    let feedback = expander.feedback_terms(&segmenter, &rows);
    assert!(!feedback.iter().any(|t| t == "知乎"), "got {:?}", feedback);
    assert!(feedback.len() <= 8);
}

#[test]
fn test_finish_dedupes_and_caps() {
    let expander = QueryExpander::new();
    let mut terms = vec![
        "NAS".to_string(),
        "nas".to_string(),
        " \"Docker\" ".to_string(),
        "".to_string(),
        "\"\"".to_string(),
    ];
    for i in 0..40 {
        terms.push(format!("t{}", i));
    }
    let expanded = expander.finish("nas", &terms);
    assert_eq!(expanded.original, "nas");
    assert_eq!(expanded.expanded_terms.len(), 32);
    assert_eq!(expanded.expanded_terms[0], "NAS");
    assert_eq!(expanded.expanded_terms[1], "Docker");
    assert_eq!(expanded.expanded_terms[2], "t0");
    assert!(expanded.fts_query.starts_with("\"NAS\" OR \"Docker\" OR \"t0\""));
}

#[test]
fn test_synonym_and_pattern_steps() {
    let expander = QueryExpander::new();
    let tokens = vec!["openwrt".to_string(), "x".to_string()];
    let syn = expander.synonym_terms(&tokens, &vec!["旁路由".to_string()]);
    assert_eq!(syn[0], "OpenWrt");
    assert_eq!(syn.last().map(|s| s.as_str()), Some("旁路由"));
    let many: Vec<String> = (0..7).map(|i| format!("w{}", i)).collect();
    let patterns = expander.cooccurrence_patterns(&many);
    assert_eq!(patterns, vec!["%w0%", "%w1%", "%w2%", "%w3%", "%w4%"]);
}

#[test]
fn test_expansion_starts_with_query_tokens() {
    let segmenter = Segmenter::new();
    let expander = QueryExpander::new();
    let query = "openwrt 旁路由";
    let tokens = segmenter.cut_for_search(query);
    let own = expander.finish(query, &tokens).expanded_terms;
    let rows: Vec<TextRow> = (0..5).map(|i| row(&format!("软路由 固件 刷机 {}", i), "")).collect();
    let expanded = expander.expand_from(&segmenter, query, &vec!["LEDE".to_string()], &rows, &rows);
    assert_eq!(expanded.original, query);
    assert!(expanded.expanded_terms.len() > own.len());
    assert_eq!(&expanded.expanded_terms[..own.len()], &own[..]);
    assert!(expanded.expanded_terms.iter().any(|t| t == "OpenWrt" || t == "openwrt"));
    assert!(expanded.expanded_terms.iter().any(|t| t == "LEDE"));
    assert_eq!(expanded.fts_query, build_fts_query_from_terms(&expanded.expanded_terms));
}
