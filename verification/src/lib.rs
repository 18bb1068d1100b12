//! Recall: the decision logic of a local-first memory-trigger system that
//! imports browser traces, classifies them, groups them into exploration
//! "quests" and expands fuzzy search queries.

pub mod calendar;
pub mod expander;
pub mod import;
pub mod models;
pub mod normalizer;
pub mod quest;
pub mod rank;
pub mod semantic;
pub mod search;
pub mod segmenter;
pub mod text;
