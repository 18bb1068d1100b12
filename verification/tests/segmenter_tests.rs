use recall::segmenter::Segmenter;

#[test]
fn test_cut_for_search_includes_original_and_subtokens() {
    let segmenter = Segmenter::new();
    let tokens = segmenter.cut_for_search("驾考宝典");
    assert!(tokens.iter().any(|t| t == "驾考宝典"));
    assert!(tokens.iter().any(|t| t == "驾考") || tokens.iter().any(|t| t == "宝典"));
}

#[test]
fn test_cut_for_search_keeps_english_terms() {
    let segmenter = Segmenter::new();
    let tokens = segmenter.cut_for_search("OpenWrt DNS");
    assert!(tokens.iter().any(|t| t.eq_ignore_ascii_case("OpenWrt")));
    assert!(tokens.iter().any(|t| t.eq_ignore_ascii_case("DNS")));
}

#[test]
fn test_extract_keywords_limits_results() {
    let segmenter = Segmenter::new();
    let keywords = segmenter.extract_keywords("OpenWrt DNS DNS setup", 2);
    assert!(keywords.len() <= 2);
    assert!(keywords.iter().any(|t| t.eq_ignore_ascii_case("DNS")));
}
