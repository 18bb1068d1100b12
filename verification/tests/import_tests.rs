use recall::import::{extract_domain, filetime_micros_to_iso, FILETIME_TO_UNIX_OFFSET};

#[test]
fn test_domain_simple_https() {
    assert_eq!(
        extract_domain("https://example.com/path"),
        Some("example.com".into())
    );
}

#[test]
fn test_domain_http() {
    assert_eq!(
        extract_domain("http://example.com"),
        Some("example.com".into())
    );
}

#[test]
fn test_domain_strips_www() {
    assert_eq!(
        extract_domain("https://www.example.com/x"),
        Some("example.com".into())
    );
}

#[test]
fn test_domain_strips_port() {
    assert_eq!(
        extract_domain("https://localhost:8080/api"),
        Some("localhost".into())
    );
}

#[test]
fn test_domain_subdomain() {
    assert_eq!(
        extract_domain("https://docs.rust-lang.org/book"),
        Some("docs.rust-lang.org".into())
    );
}

#[test]
fn test_domain_no_scheme() {
    // No "://" means there is nothing after a scheme
    assert_eq!(extract_domain("example.com/path"), None);
}

#[test]
fn test_domain_empty() {
    assert_eq!(extract_domain(""), None);
}

#[test]
fn test_domain_lowercase() {
    assert_eq!(
        extract_domain("https://EXAMPLE.COM"),
        Some("example.com".into())
    );
}

#[test]
fn test_filetime_known_value() {
    // 2024-01-01T00:00:00 UTC
    let micros: i64 = (1_704_067_200_i64 + FILETIME_TO_UNIX_OFFSET) * 1_000_000;
    let iso = filetime_micros_to_iso(micros).expect("should parse");
    assert!(
        iso.contains("2024-01-01"),
        "expected 2024-01-01, got {}",
        iso
    );
}

#[test]
fn test_filetime_zero() {
    // 0 microseconds → 1601-01-01T00:00:00 UTC (Windows FILETIME epoch)
    let iso = filetime_micros_to_iso(0).expect("should parse epoch 1601");
    assert!(
        iso.contains("1601-01-01"),
        "expected 1601-01-01, got {}",
        iso
    );
}

#[test]
fn test_filetime_negative() {
    // A very large negative value cannot be represented → None
    assert_eq!(filetime_micros_to_iso(i64::MIN), None);
}

#[test]
fn test_filetime_recent() {
    // unix_secs = 13_348_044_000 - 11_644_473_600 = 1_703_570_400
    // ≈ 2023-12-26T06:00:00 UTC
    let micros: i64 = 13_348_044_000_000_000;
    let iso = filetime_micros_to_iso(micros).expect("should parse");
    assert!(iso.starts_with("2023-"), "expected 2023-xx-xx, got {}", iso);
}

use recall::import::{
    absorb_part, bookmark_artifact, bookmark_entries, browser_paths, detect_browsers,
    empty_import_stats, history_artifact, history_cutoff, import_scope, record_outcome,
    BookmarkNode, HistoryRow, ImportOutcome,
};

fn node(kind: &str, name: Option<&str>, url: Option<&str>, children: Option<Vec<BookmarkNode>>) -> BookmarkNode {
    BookmarkNode {
        kind: Some(kind.to_string()),
        name: name.map(|s| s.to_string()),
        url: url.map(|s| s.to_string()),
        date_added: None,
        date_last_used: None,
        children,
    }
}

#[test]
fn test_bookmark_tree_walk() {
    let mut rust = node("url", Some("Rust Book"), Some("https://doc.rust-lang.org/book/"), None);
    rust.date_added = Some("13348044000000000".to_string());
    rust.date_last_used = Some("0".to_string());
    let dev = node(
        "folder",
        Some("Dev"),
        None,
        Some(vec![
            rust,
            node("url", Some("Local"), Some("file:///tmp/x.html"), None),
            node("folder", None, None, Some(vec![node("url", None, Some("http://a.com"), None)])),
        ]),
    );
    let bar = node("folder", Some("Bookmarks Bar"), None, Some(vec![dev]));
    let other = node("url", Some("Top"), Some("https://top.example/"), None);
    let entries = bookmark_entries(&vec![bar, other]);
    assert_eq!(entries.len(), 3);
    assert_eq!(entries[0].url, "https://doc.rust-lang.org/book/");
    assert_eq!(entries[0].title.as_deref(), Some("Rust Book"));
    assert_eq!(entries[0].folder_path.as_deref(), Some("Bookmarks Bar/Dev"));
    assert!(entries[0].date_added.as_deref().unwrap().starts_with("2023-12-26"));
    // A last-used time of zero means never used.
    assert_eq!(entries[0].date_last_used, None);
    assert_eq!(entries[1].folder_path.as_deref(), Some("Bookmarks Bar/Dev/Unnamed"));
    assert_eq!(entries[1].title, None);
    assert_eq!(entries[2].folder_path, None);

    let a = bookmark_artifact(&entries[0], "edge", "batch-1", "id-1".to_string(), "NOW");
    assert_eq!(a.id, "id-1");
    assert_eq!(a.kind, "bookmark");
    assert_eq!(a.domain.as_deref(), Some("doc.rust-lang.org"));
    assert_eq!(a.created_at, entries[0].date_added.clone().unwrap());
    assert_eq!(a.visited_at, entries[0].date_added);
    assert!(a.is_bookmarked);
    assert_eq!(a.folder_path.as_deref(), Some("Bookmarks Bar/Dev"));
    assert_eq!(a.import_batch.as_deref(), Some("batch-1"));

    let b = bookmark_artifact(&entries[2], "chrome", "b", "id-2".to_string(), "NOW");
    assert_eq!(b.created_at, "NOW");
    assert_eq!(b.visited_at, None);
}

#[test]
fn test_bad_timestamps_are_dropped() {
    let mut n = node("url", Some("x"), Some("https://x.org"), None);
    n.date_added = Some("12a".to_string());
    n.date_last_used = Some("-5".to_string());
    let entries = bookmark_entries(&vec![n]);
    assert_eq!(entries.len(), 1);
    assert_eq!(entries[0].date_added, None);
    assert_eq!(entries[0].date_last_used, None);
}

#[test]
fn test_history_rows() {
    let row = HistoryRow {
        url: "https://www.Example.com:8443/a".to_string(),
        title: Some("A".to_string()),
        visit_count: 7,
        last_visit_time: 13_348_044_000_000_000,
    };
    let a = history_artifact(&row, "chrome", "b1", "h1".to_string(), "NOW").unwrap();
    assert_eq!(a.kind, "history");
    assert_eq!(a.domain.as_deref(), Some("example.com"));
    assert_eq!(a.visit_count, 7);
    assert_eq!(a.created_at, "NOW");
    assert!(a.visited_at.as_deref().unwrap().starts_with("2023-12-26"));
    let ftp = HistoryRow { url: "ftp://x".to_string(), title: None, visit_count: 1, last_visit_time: 0 };
    assert!(history_artifact(&ftp, "chrome", "b1", "h2".to_string(), "NOW").is_none());
}

#[test]
fn test_history_cutoff() {
    assert_eq!(history_cutoff(1_700_000_000, None), 0);
    assert_eq!(
        history_cutoff(1_700_000_000, Some(2)),
        (1_700_000_000 - 2 * 86400 + 11_644_473_600) * 1_000_000
    );
}

#[test]
fn test_browser_paths() {
    let (bk, hi) = browser_paths("/home/u/.local/share", "edge").unwrap();
    let sep = std::path::MAIN_SEPARATOR;
    assert_eq!(
        bk,
        format!("/home/u/.local/share{0}Microsoft{0}Edge{0}User Data{0}Default{0}Bookmarks", sep)
    );
    assert!(hi.ends_with("History"));
    assert!(browser_paths("/x", "firefox").is_none());

    let found = detect_browsers(Some("/data"), &vec![hi.replace("/home/u/.local/share", "/data")]);
    assert_eq!(found.len(), 2);
    assert_eq!(found[0].id, "edge");
    assert_eq!(found[0].name, "Microsoft Edge");
    assert!(found[0].available);
    assert_eq!(found[1].id, "chrome");
    assert_eq!(found[1].name, "Google Chrome");
    assert!(!found[1].available);
    assert!(detect_browsers(None, &Vec::new()).is_empty());
}

#[test]
fn test_import_statistics() {
    assert_eq!(import_scope("all"), (true, true));
    assert_eq!(import_scope("bookmarks"), (true, false));
    assert_eq!(import_scope("history"), (false, true));
    assert_eq!(import_scope("other"), (false, false));

    let mut part = empty_import_stats("edge");
    record_outcome(&mut part, true, ImportOutcome::Inserted);
    record_outcome(&mut part, true, ImportOutcome::Duplicate);
    record_outcome(&mut part, true, ImportOutcome::Failed("Insert error".to_string()));
    assert_eq!(part.bookmarks_imported, 1);
    assert_eq!(part.duplicates_skipped, 1);
    assert_eq!(part.errors, vec!["Insert error".to_string()]);

    let mut combined = empty_import_stats("edge");
    absorb_part(&mut combined, true, Ok(part));
    absorb_part(&mut combined, false, Err("History file not found".to_string()));
    assert_eq!(combined.bookmarks_imported, 1);
    assert_eq!(combined.history_imported, 0);
    assert_eq!(combined.duplicates_skipped, 1);
    assert_eq!(
        combined.errors,
        vec!["Insert error".to_string(), "History file not found".to_string()]
    );
}

#[test]
fn test_timestamp_decimal_forms() {
    let stamp = |s: &str| {
        let mut n = node("url", Some("x"), Some("https://x.org"), None);
        n.date_added = Some(s.to_string());
        bookmark_entries(&vec![n])[0].date_added.clone()
    };
    let plain = stamp("13348044000000000").unwrap();
    assert!(plain.starts_with("2023-12-26"));
    assert_eq!(stamp("+13348044000000000"), Some(plain));
    // A negative remainder wraps to an invalid nanosecond count
    assert_eq!(stamp("-5"), None);
    assert!(stamp("-1000000").unwrap().starts_with("1600-12-31T23:59:59"));
    assert_eq!(stamp("9223372036854775808"), None);
    assert_eq!(stamp("99999999999999999999"), None);
    assert_eq!(stamp(""), None);
    assert_eq!(stamp("+"), None);
    assert_eq!(stamp(" 1"), None);
}

#[test]
fn test_browser_paths_separators() {
    let sep = std::path::MAIN_SEPARATOR;
    // A base that already ends in a separator takes none more
    let (bk, _) = browser_paths("/data/", "chrome").unwrap();
    assert_eq!(bk, format!("/data/Google{0}Chrome{0}User Data{0}Default{0}Bookmarks", sep));
    // An empty base gives the relative profile path
    let (_, hi) = browser_paths("", "edge").unwrap();
    assert_eq!(hi, format!("Microsoft{0}Edge{0}User Data{0}Default{0}History", sep));
}
