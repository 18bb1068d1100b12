use recall::quest::{quests_to_replace, StoredQuest};
use recall::models::Artifact;
use recall::quest::{
    plan_merge, plan_quests, quest_insights, try_plan_quests, MergeError, QuestPlan, QuestStart,
};
use recall::segmenter::Segmenter;

/// An artifact as a test store holds it: a visited page with the default
/// `content` category and one visit.
fn artifact(id: &str, title: &str, url: &str, domain: &str, visited_at: &str, bookmarked: bool) -> Artifact {
    Artifact {
        id: id.to_string(),
        kind: "history".to_string(),
        title: Some(title.to_string()),
        url: Some(url.to_string()),
        domain: Some(domain.to_string()),
        created_at: visited_at.to_string(),
        visited_at: Some(visited_at.to_string()),
        is_bookmarked: bookmarked,
        visit_count: 1,
        source: Some("edge".to_string()),
        content: None,
        user_note: None,
        folder_path: None,
        import_batch: None,
        page_category: Some("content".to_string()),
        extracted_query: None,
        canonical_url: None,
        referrer_domain: None,
    }
}

/// Minutes since midnight of 2025-12-03 as text and as milliseconds.
fn at(minutes: i64) -> (String, i64) {
    let h = minutes / 60;
    let m = minutes % 60;
    (format!("2025-12-03T{:02}:{:02}:00", h, m), minutes * 60_000)
}

/// `count` pages of `domain`, `spacing` minutes apart from `start`
/// (minutes since midnight); the first is bookmarked.
fn cluster(
    arts: &mut Vec<Artifact>,
    times: &mut Vec<i64>,
    prefix: &str,
    count: usize,
    start: i64,
    spacing: i64,
    domain: &str,
) {
    for i in 0..count {
        let (text, ms) = at(start + i as i64 * spacing);
        arts.push(artifact(
            &format!("{}-{}", prefix, i),
            &format!("Page {} about {}", i, domain),
            &format!("https://{}/page/{}", domain, i),
            domain,
            &text,
            i == 0,
        ));
        times.push(ms);
    }
}

fn plans(arts: &Vec<Artifact>, times: &Vec<i64>) -> Vec<QuestPlan> {
    let segmenter = Segmenter::new();
    plan_quests(&segmenter, arts, times)
}

#[test]
fn test_generate_quests_empty_db() {
    let created = plans(&Vec::new(), &Vec::new()).len();
    assert_eq!(created, 0, "No artifacts → no Quests");
}

#[test]
fn test_generate_quests_too_few_artifacts() {
    let (t1, m1) = at(600);
    let (t2, m2) = at(605);
    let arts = vec![
        artifact("a1", "Page 1", "https://a.com/1", "a.com", &t1, false),
        artifact("a2", "Page 2", "https://a.com/2", "a.com", &t2, false),
    ];
    let created = plans(&arts, &vec![m1, m2]).len();
    assert_eq!(created, 0, "Fewer than 3 artifacts should not form a Quest");
}

#[test]
fn test_generate_quests_single_cluster() {
    let (mut arts, mut times) = (Vec::new(), Vec::new());
    // 5 artifacts, 10 minutes apart → all within the 45-minute gap → 1 Quest
    cluster(&mut arts, &mut times, "c1", 5, 600, 10, "rust-lang.org");
    let quests = plans(&arts, &times);
    assert_eq!(quests.len(), 1, "5 closely-spaced artifacts should form 1 Quest");
    assert_eq!(quests[0].members.len(), 5);
    let anchor_count = quests[0].anchors.iter().filter(|a| **a).count();
    assert!(anchor_count >= 1, "First artifact was bookmarked → anchor");
}

#[test]
fn test_generate_quests_two_clusters_by_gap() {
    let (mut arts, mut times) = (Vec::new(), Vec::new());
    // Cluster A: 4 artifacts at 10:00, 10:05, 10:10, 10:15
    cluster(&mut arts, &mut times, "a", 4, 600, 5, "docs.rs");
    // Cluster B, two hours later: 12:15, 12:20, 12:25
    cluster(&mut arts, &mut times, "b", 3, 735, 5, "crates.io");
    let quests = plans(&arts, &times);
    assert_eq!(quests.len(), 2, "2-hour gap should split into 2 Quests");
    // In visit order: cluster A, then cluster B
    assert_eq!(quests[1].members.len(), 3);
    assert_eq!(quests[0].members.len(), 4);
}

#[test]
fn test_generate_quests_max_duration_split() {
    let (mut arts, mut times) = (Vec::new(), Vec::new());
    // 20 artifacts, 30 minutes apart → 9.5 hours > 8 hours
    cluster(&mut arts, &mut times, "long", 20, 480, 30, "stackoverflow.com");
    let created = plans(&arts, &times).len();
    assert!(
        created >= 2,
        "8h max duration should force-split long browsing sessions, got {}",
        created
    );
}

#[test]
fn test_generate_quests_idempotent() {
    let (mut arts, mut times) = (Vec::new(), Vec::new());
    cluster(&mut arts, &mut times, "c", 5, 600, 10, "example.com");
    let first = plans(&arts, &times);
    assert_eq!(first.len(), 1);
    let second = plans(&arts, &times);
    assert_eq!(second.len(), 1);
    assert_eq!(first[0].members, second[0].members);
    assert_eq!(first[0].auto_name, second[0].auto_name);
}

#[test]
fn test_get_quest_returns_artifacts() {
    let (mut arts, mut times) = (Vec::new(), Vec::new());
    cluster(&mut arts, &mut times, "g", 4, 600, 10, "github.com");
    let quests = plans(&arts, &times);
    assert_eq!(quests.len(), 1);
    let members = &quests[0].members;
    assert_eq!(members.len(), 4);
    for i in 1..members.len() {
        assert!(
            arts[members[i]].visited_at >= arts[members[i - 1]].visited_at,
            "Artifacts should be sorted by visited_at ASC"
        );
    }
    assert_eq!(quests[0].started_at.as_deref(), Some("2025-12-03T10:00:00"));
    assert_eq!(quests[0].ended_at.as_deref(), Some("2025-12-03T10:30:00"));
}

#[test]
fn test_merge_quests() {
    let (mut arts, mut times) = (Vec::new(), Vec::new());
    cluster(&mut arts, &mut times, "m1", 4, 600, 5, "docs.rs");
    // 2 hours later — a separate Quest
    cluster(&mut arts, &mut times, "m2", 3, 720, 5, "docs.rs");
    let quests = plans(&arts, &times);
    assert_eq!(quests.len(), 2);

    let stored = vec![
        QuestStart { id: "q2".to_string(), started_at: quests[1].started_at.clone() },
        QuestStart { id: "q1".to_string(), started_at: quests[0].started_at.clone() },
    ];
    let ids = vec!["q2".to_string(), "q1".to_string()];
    let plan = plan_merge(&ids, &stored).unwrap();
    assert_eq!(plan.survivor, "q1");
    assert_eq!(plan.absorbed, vec!["q2".to_string()]);
    assert_eq!(quests[0].members.len() + quests[1].members.len(), 7);
}

#[test]
fn test_merge_quests_less_than_2_fails() {
    let result = plan_merge(&vec!["single-id".to_string()], &Vec::new());
    assert!(result.is_err(), "Merging fewer than 2 Quests should fail");
}

#[test]
fn test_merge_errors_and_ties() {
    let ids = vec!["a".to_string(), "b".to_string()];
    assert!(matches!(plan_merge(&ids, &Vec::new()), Err(MergeError::NoSuchQuest)));
    assert!(matches!(
        plan_merge(&vec!["a".to_string()], &Vec::new()),
        Err(MergeError::TooFewQuests)
    ));
    // A quest with no start sorts first; among equal starts the first row wins.
    let stored = vec![
        QuestStart { id: "b".to_string(), started_at: Some("2025-01-01".to_string()) },
        QuestStart { id: "a".to_string(), started_at: Some("2025-01-01".to_string()) },
        QuestStart { id: "x".to_string(), started_at: None },
    ];
    let plan = plan_merge(&ids, &stored).unwrap();
    assert_eq!(plan.survivor, "b");
    assert_eq!(plan.absorbed, vec!["a".to_string()]);
    let ids3 = vec!["a".to_string(), "x".to_string(), "a".to_string()];
    let plan = plan_merge(&ids3, &stored).unwrap();
    assert_eq!(plan.survivor, "x");
    assert_eq!(plan.absorbed, vec!["a".to_string(), "a".to_string()]);
}

#[test]
fn test_auto_name_contains_domain() {
    let (mut arts, mut times) = (Vec::new(), Vec::new());
    cluster(&mut arts, &mut times, "dn", 5, 600, 10, "rust-lang.org");
    let quests = plans(&arts, &times);
    assert_eq!(quests.len(), 1);
    let name = &quests[0].auto_name;
    assert!(
        name.to_lowercase().contains("rust") || name.contains("rust-lang"),
        "Auto-name '{}' should reference the primary domain 'rust-lang.org'",
        name
    );
    // The bookmarked page's title gives the keyword: "about" is its
    // longest word that is no noise.
    assert_eq!(name, "rust-lang: about");
}

#[test]
fn test_auto_name_from_query_and_fallback() {
    let segmenter = Segmenter::new();
    let (t, m) = at(600);
    let mut arts = Vec::new();
    let mut times = Vec::new();
    for i in 0..3 {
        let mut a = artifact(&format!("n{}", i), "", "https://x/", "google.com", &t, false);
        a.title = None;
        a.domain = Some("google.com".to_string());
        times.push(m + i as i64 * 60_000);
        if i == 1 {
            a.visit_count = 3;
        }
        arts.push(a);
    }
    // Only a generic domain and no titles: named after the start date.
    let quests = try_plan_quests(&segmenter, &arts, &times).unwrap();
    assert_eq!(quests.len(), 1);
    assert_eq!(quests[0].auto_name, "2025-12-03 browsing");
}

#[test]
fn test_quest_insights() {
    let mut arts = Vec::new();
    let (t, _) = at(600);
    let mut s = artifact("s", "q", "https://www.bing.com/search?q=zfs", "bing.com", &t, false);
    s.page_category = Some("search_query".to_string());
    s.extracted_query = Some("zfs".to_string());
    arts.push(s);
    let mut a = artifact("a", "A", "https://docs.rs/a", "docs.rs", &t, false);
    a.visit_count = 4;
    arts.push(a);
    arts.push(artifact("b", "B", "https://crates.io/b", "crates.io", &t, true));
    let mut c = artifact("c", "C", "https://docs.rs/c", "docs.rs", &t, false);
    c.visit_count = 0;
    arts.push(c);
    let insights = quest_insights(&arts);
    assert_eq!(insights.origin_query.as_deref(), Some("zfs"));
    assert_eq!(insights.anchor_ids, vec!["s".to_string(), "a".to_string(), "b".to_string()]);
    assert_eq!(
        insights.top_domains,
        vec![
            ("docs.rs".to_string(), 5),
            ("bing.com".to_string(), 1),
            ("crates.io".to_string(), 1),
        ]
    );
}

#[test]
fn test_intent_change_splits_clusters() {
    let segmenter = Segmenter::new();
    let mut arts = Vec::new();
    let mut times = Vec::new();
    let queries = ["zfs cache", "zfs cache", "zfs cache", "banana bread", "banana bread", "banana bread"];
    for (i, q) in queries.iter().enumerate() {
        let (t, m) = at(600 + i as i64);
        let mut a = artifact(&format!("i{}", i), q, "https://www.bing.com/search", "bing.com", &t, false);
        a.page_category = Some("search_query".to_string());
        a.extracted_query = Some(q.to_string());
        arts.push(a);
        times.push(m);
    }
    let quests = plan_quests(&segmenter, &arts, &times);
    assert_eq!(quests.len(), 2);
    assert_eq!(quests[0].members, vec![0, 1, 2]);
    assert_eq!(quests[1].members, vec![3, 4, 5]);
}

#[test]
fn test_get_quest_for_artifact() {
    let (mut arts, mut times) = (Vec::new(), Vec::new());
    cluster(&mut arts, &mut times, "qa", 4, 600, 10, "example.com");
    cluster(&mut arts, &mut times, "qb", 4, 900, 10, "example.org");
    let quests = plans(&arts, &times);
    // Each artifact belongs to exactly one Quest
    for i in 0..arts.len() {
        let holding = quests.iter().filter(|q| q.members.contains(&i)).count();
        assert_eq!(holding, 1, "Artifact should belong to 1 Quest");
    }
    assert_eq!(quests[0].members.len(), 4);
}

#[test]
fn test_cluster_without_anchor_is_no_quest() {
    let mut arts = Vec::new();
    let mut times = Vec::new();
    for i in 0..3 {
        let (t, m) = at(600 + i);
        arts.push(artifact(&format!("n{}", i), "Plain page", "https://plain.example/x", "plain.example", &t, false));
        times.push(m);
    }
    assert_eq!(plans(&arts, &times).len(), 0, "three visits without an anchor make no quest");
    // A page visited three times is an anchor
    arts[1].visit_count = 3;
    assert_eq!(plans(&arts, &times).len(), 1);
}

#[test]
fn test_anchorless_cluster_after_gap_is_dropped() {
    let (mut arts, mut times) = (Vec::new(), Vec::new());
    cluster(&mut arts, &mut times, "a", 3, 600, 5, "docs.rs");
    cluster(&mut arts, &mut times, "b", 3, 735, 5, "crates.io");
    arts[3].is_bookmarked = false;
    let quests = plans(&arts, &times);
    assert_eq!(quests.len(), 1);
    assert_eq!(quests[0].members, vec![0, 1, 2]);
}

#[test]
fn test_duration_split_tail_keeps_session_anchor() {
    let (mut arts, mut times) = (Vec::new(), Vec::new());
    // 08:00 .. 17:30, 30 minutes apart: the cap splits after 16:00
    cluster(&mut arts, &mut times, "long", 20, 480, 30, "stackoverflow.com");
    let quests = plans(&arts, &times);
    assert_eq!(quests.len(), 2);
    assert_eq!(quests[0].members.len(), 17);
    assert_eq!(quests[1].members, vec![17, 18, 19]);
    assert_eq!(quests[1].anchors, vec![false, false, false]);
}

#[test]
fn test_replanning_gives_equal_quests() {
    let (mut arts, mut times) = (Vec::new(), Vec::new());
    cluster(&mut arts, &mut times, "r", 4, 600, 10, "docs.rs");
    cluster(&mut arts, &mut times, "s", 3, 800, 10, "crates.io");
    let first = plans(&arts, &times);
    let second = plans(&arts, &times);
    assert_eq!(first.len(), 2);
    assert_eq!(first.len(), second.len());
    for (a, b) in first.iter().zip(second.iter()) {
        assert_eq!(a.members, b.members);
        assert_eq!(a.anchors, b.anchors);
        assert_eq!(a.started_at, b.started_at);
        assert_eq!(a.ended_at, b.ended_at);
        assert_eq!(a.auto_name, b.auto_name);
    }
}

#[test]
fn test_regeneration_replaces_only_automatic_quests() {
    let stored = vec![
        StoredQuest { id: "q1".to_string(), status: "auto".to_string() },
        StoredQuest { id: "q2".to_string(), status: "confirmed".to_string() },
        StoredQuest { id: "q3".to_string(), status: "auto".to_string() },
        StoredQuest { id: "q4".to_string(), status: "archived".to_string() },
    ];
    assert_eq!(quests_to_replace(&stored), vec!["q1", "q3"]);
    assert!(quests_to_replace(&Vec::new()).is_empty());
}
