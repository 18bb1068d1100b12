//! Search helpers: the words an artifact's context is compared by, and
//! when the expanded query adds a layer of its own.

use vstd::prelude::*;
use crate::models::Artifact;
use crate::segmenter::{search_tokens, Segmenter};
use crate::text::{chars_of, string_of, text_of, text_or_empty};

verus! {

/// What an artifact's context is compared by: its title, search query and
/// domain, separated by spaces.
pub open spec fn context_text(a: Artifact) -> Seq<char> {
    text_of(a.title) + seq![' '] + text_of(a.extracted_query) + seq![' '] + text_of(a.domain)
}

/// The search tokens of an artifact's title, query and domain.
pub fn context_tokens(segmenter: &Segmenter, artifact: &Artifact) -> (r: Vec<String>)
    ensures
        r.deep_view() == search_tokens(context_text(*artifact)),
{
    let mut text = text_or_empty(&artifact.title);
    text.push(' ');
    let q = text_or_empty(&artifact.extracted_query);
    crate::text::append_chars(&mut text, q.as_slice());
    text.push(' ');
    let d = text_or_empty(&artifact.domain);
    crate::text::append_chars(&mut text, d.as_slice());
    assert(text@ =~= context_text(*artifact));
    let s = string_of(text.as_slice());
    segmenter.cut_for_search(s.as_str())
}

/// Whether the expanded query is searched on its own: it is not empty and
/// differs from the literal one.
pub fn searches_expanded(expanded_fts: &str, literal_fts: &str) -> (r: bool)
    ensures
        r == (expanded_fts@.len() > 0 && expanded_fts@ != literal_fts@),
{
    let e = chars_of(expanded_fts);
    let l = chars_of(literal_fts);
    e.len() > 0 && !crate::text::eq_chars(e.as_slice(), l.as_slice())
}

} // verus!
