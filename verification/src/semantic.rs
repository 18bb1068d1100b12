//! Semantic indexing: which artifacts get an embedding, the text that is
//! embedded for each, the prefix a retrieval query carries, and the counts
//! an indexing run and its progress report.

use vstd::prelude::*;
use crate::models::Artifact;
use crate::text::{
    chars_of, copy_string, is_blank, join, join_exec, string_of, text_of, text_or_empty, trim,
    trimmed,
};

verus! {

/// The version of the embeddings that indexing writes.
pub const CURRENT_EMBEDDING_VERSION: i64 = 1;

/// The embedding model's dimensions.
pub const EMBEDDING_DIMS: i64 = 512;

/// The most artifacts one indexing run takes.
pub const MAX_EMBEDDING_BATCH: usize = 128;

/// The instruction the BGE model expects in front of a retrieval query.
pub open spec fn bge_query_prefix() -> Seq<char> {
    "为这个句子生成表示以用于检索相关文章："@
}

/// The text embedded for a retrieval query: the instruction the model
/// expects, then the query trimmed.
pub fn prefix_query_for_retrieval(query: &str) -> (r: String)
    ensures
        r@ == bge_query_prefix() + trim(query@),
{
    let mut out = chars_of("为这个句子生成表示以用于检索相关文章：");
    let q = chars_of(query);
    let t = trimmed(q.as_slice());
    crate::text::append_chars(&mut out, t.as_slice());
    string_of(out.as_slice())
}

/// The texts an artifact is known by, in the order they are embedded: its
/// search query, title, note, content, domain and URL.
pub open spec fn embedding_parts(a: Artifact) -> Seq<Seq<char>> {
    seq![
        text_of(a.extracted_query),
        text_of(a.title),
        text_of(a.user_note),
        text_of(a.content),
        text_of(a.domain),
        text_of(a.url),
    ]
}

/// The text embedded for an artifact: its non-blank parts, one per line.
pub open spec fn embedding_text_of(a: Artifact) -> Seq<char> {
    join(embedding_parts(a).filter(|p: Seq<char>| !is_blank(p)), seq!['\n'])
}

/// The text embedded for an artifact: its search query, title, note,
/// content, domain and URL, the blank ones left out, one per line.
pub fn embedding_text(artifact: &Artifact) -> (r: String)
    ensures
        r@ == embedding_text_of(*artifact),
{
    let mut parts: Vec<Vec<char>> = Vec::new();
    parts.push(text_or_empty(&artifact.extracted_query));
    parts.push(text_or_empty(&artifact.title));
    parts.push(text_or_empty(&artifact.user_note));
    parts.push(text_or_empty(&artifact.content));
    parts.push(text_or_empty(&artifact.domain));
    parts.push(text_or_empty(&artifact.url));
    let ghost all = crate::text::views(parts@);
    assert(all =~= embedding_parts(*artifact));
    let ghost pred = |p: Seq<char>| !is_blank(p);
    let mut kept: Vec<Vec<char>> = Vec::new();
    let mut i: usize = 0;
    while i < parts.len()
        invariant
            i <= parts@.len(),
            all == crate::text::views(parts@),
            pred == (|p: Seq<char>| !is_blank(p)),
            crate::text::views(kept@) == all.take(i as int).filter(pred),
        decreases parts@.len() - i,
    {
        proof {
            assert(all.take(i + 1).drop_last() == all.take(i as int));
            reveal_with_fuel(Seq::filter, 1);
        }
        if !crate::text::blank(parts[i].as_slice()) {
            kept.push(crate::text::slice_to_vec(parts[i].as_slice()));
        }
        i += 1;
        assert(crate::text::views(kept@) =~= all.take(i as int).filter(pred));
    }
    assert(all.take(parts@.len() as int) == all);
    let nl = vec!['\n'];
    assert(nl@ == seq!['\n']);
    let joined = join_exec(&kept, nl.as_slice());
    string_of(joined.as_slice())
}

/// A category that indexing leaves out: redirects, sign-in pages and
/// browser pages.
pub open spec fn excluded_category(c: Option<String>) -> bool {
    match c {
        Some(x) => x@ == "redirect"@ || x@ == "login"@ || x@ == "utility"@,
        None => false,
    }
}

/// Whether an artifact's category lets it be indexed.
pub fn indexable_category(page_category: &Option<String>) -> (r: bool)
    ensures
        r == !excluded_category(*page_category),
{
    !(crate::text::opt_is(page_category, "redirect") || crate::text::opt_is(page_category, "login")
        || crate::text::opt_is(page_category, "utility"))
}

/// How many artifacts an indexing run asked for `batch_size` takes: at
/// least one, at most [`MAX_EMBEDDING_BATCH`].
pub fn embedding_batch_limit(batch_size: usize) -> (r: usize)
    ensures
        r == if batch_size < 1 {
            1
        } else if batch_size > 128 {
            128
        } else {
            batch_size
        },
{
    if batch_size < 1 {
        1
    } else if batch_size > MAX_EMBEDDING_BATCH {
        MAX_EMBEDDING_BATCH
    } else {
        batch_size
    }
}

/// What indexing does with one pending artifact.
pub enum EmbedAction {
    /// Embed this text.
    Embed(String),
    /// Nothing to embed: mark it done.
    SkipBlank,
    /// Left out of the index: drop its embedding and mark it done.
    SkipExcluded,
}

/// The action for an artifact whose noise is low enough (`quiet`): left out
/// when its category is excluded or it is noisy; else its text, unless
/// blank.
pub open spec fn action_matches(a: Artifact, quiet: bool, act: EmbedAction) -> bool {
    if excluded_category(a.page_category) || !quiet {
        act is SkipExcluded
    } else if is_blank(embedding_text_of(a)) {
        act is SkipBlank
    } else {
        act matches EmbedAction::Embed(t) && t@ == embedding_text_of(a)
    }
}

/// What indexing does with each pending artifact; `quiet[k]` says whether
/// the noise of `candidates[k]` is at most 0.85.
pub fn plan_embedding(candidates: &Vec<Artifact>, quiet: &Vec<bool>) -> (r: Vec<EmbedAction>)
    requires
        candidates@.len() == quiet@.len(),
    ensures
        r@.len() == candidates@.len(),
        forall|k: int|
            0 <= k < r@.len() ==> action_matches(candidates@[k], quiet@[k], #[trigger] r@[k]),
{
    let mut out: Vec<EmbedAction> = Vec::new();
    let mut i: usize = 0;
    while i < candidates.len()
        invariant
            i <= candidates@.len() == quiet@.len(),
            out@.len() == i,
            forall|k: int|
                0 <= k < i ==> action_matches(candidates@[k], quiet@[k], #[trigger] out@[k]),
        decreases candidates@.len() - i,
    {
        let a = &candidates[i];
        if !indexable_category(&a.page_category) || !quiet[i] {
            out.push(EmbedAction::SkipExcluded);
        } else {
            let text = embedding_text(a);
            let t = chars_of(text.as_str());
            if crate::text::blank(t.as_slice()) {
                out.push(EmbedAction::SkipBlank);
            } else {
                out.push(EmbedAction::Embed(text));
            }
        }
        i += 1;
    }
    out
}

/// Redirects, sign-in pages and browser pages are never embedded, nor is
/// any page that is not quiet; a quiet page of another category is
/// embedded unless its text is blank.
pub proof fn lemma_what_gets_embedded(a: Artifact, quiet: bool, act: EmbedAction)
    requires
        action_matches(a, quiet, act),
    ensures
        (a.page_category matches Some(c) && (c@ == "redirect"@ || c@ == "login"@ || c@ == "utility"@))
            ==> act is SkipExcluded,
        !quiet ==> act is SkipExcluded,
        quiet && !(a.page_category matches Some(c) && (c@ == "redirect"@ || c@ == "login"@ || c@
            == "utility"@)) && !is_blank(embedding_text_of(a)) ==> act is Embed,
{
}

/// The number of actions that skip their artifact.
pub open spec fn skipped_count(actions: Seq<EmbedAction>) -> nat
    decreases actions.len(),
{
    if actions.len() == 0 {
        0
    } else {
        skipped_count(actions.drop_last()) + if actions.last() is Embed {
            0nat
        } else {
            1nat
        }
    }
}

/// A plan with no `Embed` action skips every artifact.
proof fn lemma_all_skipped(actions: Seq<EmbedAction>)
    requires
        forall|k: int| 0 <= k < actions.len() ==> !(#[trigger] actions[k] is Embed),
    ensures
        skipped_count(actions) == actions.len(),
    decreases actions.len(),
{
    if actions.len() > 0 {
        let pre = actions.drop_last();
        assert forall|k: int| 0 <= k < pre.len() implies !(#[trigger] pre[k] is Embed) by {
            assert(pre[k] == actions[k]);
        }
        lemma_all_skipped(pre);
        assert(!(actions[actions.len() - 1] is Embed));
    }
}

/// A batch whose artifacts are all left out of the index or noisy is
/// skipped whole: its plan embeds nothing, so the batch needs no model.
pub proof fn lemma_skip_only_batch(candidates: Seq<Artifact>, quiet: Seq<bool>, actions: Seq<EmbedAction>)
    requires
        candidates.len() == quiet.len() == actions.len(),
        forall|k: int|
            0 <= k < actions.len() ==> action_matches(candidates[k], quiet[k], #[trigger] actions[k]),
        forall|k: int|
            0 <= k < candidates.len() ==> excluded_category(#[trigger] candidates[k].page_category)
                || !quiet[k],
    ensures
        forall|k: int| 0 <= k < actions.len() ==> #[trigger] actions[k] is SkipExcluded,
        skipped_count(actions) == actions.len(),
{
    assert forall|k: int| 0 <= k < actions.len() implies #[trigger] actions[k] is SkipExcluded by {
        assert(action_matches(candidates[k], quiet[k], actions[k]));
        assert(excluded_category(candidates[k].page_category) || !quiet[k]);
    }
    lemma_all_skipped(actions);
}

/// How many artifacts a plan skips.
pub fn count_skipped(actions: &Vec<EmbedAction>) -> (r: usize)
    ensures
        r == skipped_count(actions@),
{
    let mut n: usize = 0;
    let mut i: usize = 0;
    while i < actions.len()
        invariant
            i <= actions@.len(),
            n == skipped_count(actions@.take(i as int)),
            n <= i,
        decreases actions@.len() - i,
    {
        assert(actions@.take(i + 1).drop_last() == actions@.take(i as int));
        if !(matches!(actions[i], EmbedAction::Embed(_))) {
            n = n + 1;
        }
        i += 1;
    }
    assert(actions@.take(actions@.len() as int) == actions@);
    n
}

/// How many of the vectors, given by their lengths, have the model's
/// dimension count.
pub open spec fn fitting_count(lengths: Seq<usize>) -> nat
    decreases lengths.len(),
{
    if lengths.len() == 0 {
        0
    } else {
        fitting_count(lengths.drop_last()) + if lengths.last() == EMBEDDING_DIMS {
            1nat
        } else {
            0nat
        }
    }
}

/// Which of the vectors the model returned, given by their lengths, can be
/// stored: those with exactly [`EMBEDDING_DIMS`] components; with how many
/// that makes.
pub fn vectors_to_store(lengths: &Vec<usize>) -> (r: (Vec<bool>, usize))
    ensures
        r.0@.len() == lengths@.len(),
        forall|k: int| 0 <= k < lengths@.len() ==> #[trigger] r.0@[k] == (lengths@[k] == 512),
        r.1 == fitting_count(lengths@),
{
    let mut fits: Vec<bool> = Vec::new();
    let mut n: usize = 0;
    let mut i: usize = 0;
    while i < lengths.len()
        invariant
            i <= lengths@.len(),
            fits@.len() == i,
            forall|k: int| 0 <= k < i ==> #[trigger] fits@[k] == (lengths@[k] == EMBEDDING_DIMS),
            n == fitting_count(lengths@.take(i as int)),
            n <= i,
        decreases lengths@.len() - i,
    {
        assert(lengths@.take(i + 1).drop_last() == lengths@.take(i as int));
        let ok = lengths[i] as u128 == EMBEDDING_DIMS as u128;
        fits.push(ok);
        if ok {
            n = n + 1;
        }
        i += 1;
    }
    assert(lengths@.take(lengths@.len() as int) == lengths@);
    (fits, n)
}

/// What an indexing run did.
#[derive(Debug, Clone)]
pub struct EmbeddingRunStats {
    pub scanned: usize,
    pub embedded: usize,
    pub skipped: usize,
    /// Artifacts still waiting for an embedding.
    pub remaining: i64,
    pub errors: Vec<String>,
}

/// How far the semantic index has come.
#[derive(Debug, Clone)]
pub struct EmbeddingProgress {
    /// Artifacts embedded at the current version.
    pub done: i64,
    pub total: i64,
    pub pending: i64,
    /// Embeddings stored.
    pub embedded: i64,
    pub current_version: i64,
    pub model: String,
    pub dims: i64,
    pub model_loaded: bool,
    pub cache_dir: String,
}

/// The name of the embedding model.
pub open spec fn embedding_model_name() -> Seq<char> {
    "BAAI/bge-small-zh-v1.5"@
}

/// The progress report for `total` artifacts of which `done` are embedded
/// at the current version, with `embedded` embeddings stored: the pending
/// count is `total - done`, saturated at the bounds of `i64`.
pub fn embedding_progress_of(done: i64, total: i64, embedded: i64, model_loaded: bool, cache_dir: String) -> (r:
    EmbeddingProgress)
    ensures
        r.done == done,
        r.total == total,
        r.pending == if total - done < i64::MIN {
            i64::MIN as int
        } else if total - done > i64::MAX {
            i64::MAX as int
        } else {
            total - done
        },
        r.embedded == embedded,
        r.current_version == 1,
        r.model@ == embedding_model_name(),
        r.dims == 512,
        r.model_loaded == model_loaded,
        r.cache_dir == cache_dir,
{
    let diff = total as i128 - done as i128;
    let pending: i64 = if diff < i64::MIN as i128 {
        i64::MIN
    } else if diff > i64::MAX as i128 {
        i64::MAX
    } else {
        diff as i64
    };
    EmbeddingProgress {
        done,
        total,
        pending,
        embedded,
        current_version: CURRENT_EMBEDDING_VERSION,
        model: copy_string("BAAI/bge-small-zh-v1.5"),
        dims: EMBEDDING_DIMS,
        model_loaded,
        cache_dir,
    }
}

} // verus!
