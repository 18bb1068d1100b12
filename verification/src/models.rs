//! The records the library hands back and forth: artifacts, browsers,
//! import and store statistics, and quest summaries.

use vstd::prelude::*;

verus! {

/// An information trace the user left: a bookmark, a visited page, a
/// download or a note, with what normalization derived from it.
#[derive(Debug, Clone)]
pub struct Artifact {
    pub id: String,
    /// "bookmark" | "history" | "download" | "note"
    pub kind: String,
    pub title: Option<String>,
    pub url: Option<String>,
    pub domain: Option<String>,
    /// When the record was created or imported (ISO 8601).
    pub created_at: String,
    /// Most recent visit (ISO 8601).
    pub visited_at: Option<String>,
    pub is_bookmarked: bool,
    pub visit_count: i64,
    /// "edge" | "chrome" | "manual"
    pub source: Option<String>,
    pub content: Option<String>,
    pub user_note: Option<String>,
    pub folder_path: Option<String>,
    pub import_batch: Option<String>,
    /// "search_query" | "content" | "redirect" | "login" | "utility"
    pub page_category: Option<String>,
    pub extracted_query: Option<String>,
    pub canonical_url: Option<String>,
    pub referrer_domain: Option<String>,
}

/// A browser whose data can be imported.
#[derive(Debug, Clone)]
pub struct BrowserInfo {
    /// "edge" | "chrome"
    pub id: String,
    pub name: String,
    pub bookmarks_path: String,
    pub history_path: String,
    /// Its Bookmarks or History file exists.
    pub available: bool,
}

/// What a browser import did.
#[derive(Debug, Clone)]
pub struct ImportStats {
    pub browser: String,
    pub bookmarks_imported: usize,
    pub history_imported: usize,
    pub duplicates_skipped: usize,
    pub errors: Vec<String>,
}

/// Figures about the whole store, shown in the status bar.
#[derive(Debug, Clone)]
pub struct DbStats {
    pub total_artifacts: i64,
    pub total_bookmarks: i64,
    pub total_history: i64,
    pub oldest_record: Option<String>,
    pub newest_record: Option<String>,
    pub last_import: Option<String>,
}

/// A quest as a list shows it, without its artifacts.
#[derive(Debug, Clone)]
pub struct QuestSummary {
    pub id: String,
    /// The name the user gave it, else the generated one.
    pub display_name: String,
    pub started_at: Option<String>,
    pub ended_at: Option<String>,
    pub status: String,
    pub artifact_count: i64,
    pub anchor_count: i64,
}

} // verus!
