//! Chinese/English segmentation built on jieba: search-mode tokens,
//! precise tokens and frequency-ranked keywords.

use vstd::prelude::*;
use jieba_rs::Jieba;
use crate::rank::{distinct, occurrences, tally, top_k, top_k_indices};
use crate::text::{
    char_vecs_of, chars_of, eq_chars, lower_chars, lowercase, member_chars, member_strs, string_of,
    strings_of, trim, trim_by, trimmed, trimmed_by, split_words, utf8_len, utf8_length, views, words,
    CharClass,
};

verus! {

#[verifier::external_type_specification]
#[verifier::external_body]
pub struct ExJieba(Jieba);

/// Whether a jieba segmenter holds exactly the dictionary embedded in
/// jieba_rs, as `Jieba::new` loads it, with no word added or removed since.
pub uninterp spec fn jieba_default_dictionary(jieba: Jieba) -> bool;

/// `Jieba::new`: an empty segmenter into which the dictionary embedded in
/// the crate is loaded. The contract claims only that the value holds that
/// dictionary; the wrappers below speak of what its segmentations return.
pub assume_specification[ Jieba::new ]() -> (r: Jieba)
    ensures
        jieba_default_dictionary(r),
;

/// The words `Jieba::cut_for_search` gives for a text, HMM on or off, with
/// the default dictionary.
pub uninterp spec fn jieba_search_words(text: Seq<char>, hmm: bool) -> Seq<Seq<char>>;

/// The words `Jieba::cut` gives for a text, HMM on or off, with the default
/// dictionary.
pub uninterp spec fn jieba_cut_words(text: Seq<char>, hmm: bool) -> Seq<Seq<char>>;

/// `Jieba::cut_for_search`, each token taken by its word. The contract
/// claims that, on a segmenter holding the default dictionary, the words
/// depend on the text and the HMM switch alone (the call takes `&self` and
/// leaves the dictionary as it is).
#[verifier::external_body]
fn jieba_cut_for_search(jieba: &Jieba, text: &str, hmm: bool) -> (r: Vec<String>)
    requires
        jieba_default_dictionary(*jieba),
    ensures
        r.deep_view() == jieba_search_words(text@, hmm),
{
    jieba.cut_for_search(text, hmm).into_iter().map(|t| t.word.to_string()).collect()
}

/// `Jieba::cut`, each token taken by its word; as for
/// [`jieba_cut_for_search`], on a segmenter holding the default dictionary
/// the words depend on the text and the HMM switch alone.
#[verifier::external_body]
fn jieba_cut(jieba: &Jieba, text: &str, hmm: bool) -> (r: Vec<String>)
    requires
        jieba_default_dictionary(*jieba),
    ensures
        r.deep_view() == jieba_cut_words(text@, hmm),
{
    jieba.cut(text, hmm).into_iter().map(|t| t.word.to_string()).collect()
}

/// A token without surrounding whitespace and ASCII punctuation, if any of
/// it is left.
pub open spec fn normalized_token(t: Seq<char>) -> Option<Seq<char>> {
    let a = trim(t);
    if a.len() == 0 {
        None
    } else {
        let b = trim_by(a, CharClass::AsciiPunctuation);
        if b.len() == 0 {
            None
        } else {
            Some(b)
        }
    }
}

/// The normalized forms of the tokens that have one, in order.
pub open spec fn normalize_all(ts: Seq<Seq<char>>) -> Seq<Seq<char>>
    decreases ts.len(),
{
    if ts.len() == 0 {
        seq![]
    } else {
        let p = normalize_all(ts.drop_last());
        match normalized_token(ts.last()) {
            Some(n) => p.push(n),
            None => p,
        }
    }
}

/// The tokens whose lowercase form did not occur earlier, in order.
pub open spec fn dedupe_lower(ts: Seq<Seq<char>>) -> Seq<Seq<char>>
    decreases ts.len(),
{
    if ts.len() == 0 {
        seq![]
    } else {
        let p = dedupe_lower(ts.drop_last());
        if ts.drop_last().map_values(|t: Seq<char>| lowercase(t)).contains(lowercase(ts.last())) {
            p
        } else {
            p.push(ts.last())
        }
    }
}

/// Deduplicating ignoring case leaves no two tokens with the same lowercase
/// form, keeps only tokens of the input, and keeps one of each lowercase
/// form the input has.
pub proof fn lemma_dedupe_lower(ts: Seq<Seq<char>>)
    ensures
        forall|a: int, b: int|
            0 <= a < b < dedupe_lower(ts).len() ==> lowercase(#[trigger] dedupe_lower(ts)[a])
                != lowercase(#[trigger] dedupe_lower(ts)[b]),
        forall|x: Seq<char>| #[trigger] dedupe_lower(ts).contains(x) ==> ts.contains(x),
        forall|i: int|
            0 <= i < ts.len() ==> exists|j: int|
                0 <= j < dedupe_lower(ts).len() && lowercase(#[trigger] dedupe_lower(ts)[j])
                    == lowercase(#[trigger] ts[i]),
    decreases ts.len(),
{
    if ts.len() > 0 {
        let q = ts.drop_last();
        let x = ts.last();
        let p = dedupe_lower(q);
        let lows = q.map_values(|t: Seq<char>| lowercase(t));
        lemma_dedupe_lower(q);
        let d = dedupe_lower(ts);
        assert forall|y: Seq<char>| #[trigger] q.contains(y) implies ts.contains(y) by {
            let k = choose|k: int| 0 <= k < q.len() && q[k] == y;
            assert(ts[k] == y);
        }
        if lows.contains(lowercase(x)) {
            assert(d == p);
            assert forall|i: int| 0 <= i < ts.len() implies exists|j: int|
                0 <= j < d.len() && lowercase(#[trigger] d[j]) == lowercase(#[trigger] ts[i]) by {
                if i < ts.len() - 1 {
                    assert(q[i] == ts[i]);
                } else {
                    let k = choose|k: int| 0 <= k < lows.len() && lows[k] == lowercase(x);
                    assert(lowercase(q[k]) == lowercase(ts[i]));
                    let j = choose|j: int| 0 <= j < p.len() && lowercase(#[trigger] p[j]) == lowercase(
                        #[trigger] q[k],
                    );
                }
            }
        } else {
            assert(d == p.push(x));
            assert forall|a: int, b: int|
                0 <= a < b < d.len() implies lowercase(#[trigger] d[a]) != lowercase(
                #[trigger] d[b],
            ) by {
                if b == d.len() - 1 {
                    assert(p.contains(p[a]));
                    assert(q.contains(p[a]));
                    let k = choose|k: int| 0 <= k < q.len() && q[k] == p[a];
                    assert(lows[k] == lowercase(p[a]));
                } else {
                    assert(d[a] == p[a] && d[b] == p[b]);
                }
            }
            assert forall|y: Seq<char>| #[trigger] d.contains(y) implies ts.contains(y) by {
                let k = choose|k: int| 0 <= k < d.len() && d[k] == y;
                if k < p.len() {
                    assert(p[k] == y);
                    assert(p.contains(y));
                } else {
                    assert(ts[ts.len() - 1] == y);
                }
            }
            assert forall|i: int| 0 <= i < ts.len() implies exists|j: int|
                0 <= j < d.len() && lowercase(#[trigger] d[j]) == lowercase(#[trigger] ts[i]) by {
                if i < ts.len() - 1 {
                    assert(q[i] == ts[i]);
                    let j = choose|j: int| 0 <= j < p.len() && lowercase(#[trigger] p[j]) == lowercase(
                        #[trigger] q[i],
                    );
                    assert(d[j] == p[j]);
                } else {
                    assert(d[d.len() - 1] == x);
                }
            }
        }
    }
}

/// Search-mode tokens of a text: the trimmed text itself, its
/// whitespace-separated words and its jieba search words, normalized, then
/// deduplicated ignoring case.
pub open spec fn search_tokens(text: Seq<char>) -> Seq<Seq<char>> {
    let t = trim(text);
    let lead: Seq<Seq<char>> = if t.len() > 0 {
        seq![t]
    } else {
        seq![]
    };
    dedupe_lower(lead + normalize_all(words(t)) + normalize_all(jieba_search_words(t, true)))
}

/// Precise tokens of a text: its jieba words, normalized and deduplicated
/// ignoring case.
pub open spec fn cut_tokens(text: Seq<char>) -> Seq<Seq<char>> {
    dedupe_lower(normalize_all(jieba_cut_words(trim(text), true)))
}

/// Words never worth a keyword.
pub open spec fn noise_words() -> Seq<Seq<char>> {
    seq!["the"@, "and"@, "for"@, "with"@, "http"@, "https"@, "www"@]
}

/// A single character or a filler word, in any case.
pub open spec fn is_noise(t: Seq<char>) -> bool {
    t.len() <= 1 || noise_words().contains(lowercase(t))
}

/// Noise tokens are those of at most one character and, in any case, the
/// filler words `the`, `and`, `for`, `with`, `http`, `https` and `www`.
pub proof fn lemma_noise_tokens(t: Seq<char>)
    ensures
        is_noise(t) <==> (t.len() <= 1 || seq!["the"@, "and"@, "for"@, "with"@, "http"@, "https"@, "www"@].contains(
            lowercase(t),
        )),
{
    assert(noise_words() =~= seq!["the"@, "and"@, "for"@, "with"@, "http"@, "https"@, "www"@]);
}

/// The tokens that are not noise, in order.
pub open spec fn drop_noise(ts: Seq<Seq<char>>) -> Seq<Seq<char>>
    decreases ts.len(),
{
    if ts.len() == 0 {
        seq![]
    } else if is_noise(ts.last()) {
        drop_noise(ts.drop_last())
    } else {
        drop_noise(ts.drop_last()).push(ts.last())
    }
}

/// Every keyword occurrence of a text: its normalized whitespace words, then
/// its normalized jieba search words, noise left out.
pub open spec fn keyword_candidates(text: Seq<char>) -> Seq<Seq<char>> {
    let t = trim(text);
    drop_noise(normalize_all(words(t)) + normalize_all(jieba_search_words(t, true)))
}

/// Ranking keys of the distinct texts of `c`: occurrence count, then (when
/// `by_length`) UTF-8 length.
pub open spec fn frequency_keys(c: Seq<Seq<char>>, by_length: bool) -> Seq<(u128, u128)> {
    Seq::new(
        distinct(c).len(),
        |i: int|
            (
                occurrences(c, distinct(c)[i]) as u128,
                if by_length {
                    utf8_len(distinct(c)[i]) as u128
                } else {
                    0u128
                },
            ),
    )
}

/// The `k` most frequent distinct texts of `c`, longer first among equally
/// frequent ones, earlier first among equally long ones.
pub open spec fn most_frequent(c: Seq<Seq<char>>, k: nat) -> Seq<Seq<char>> {
    top_k_indices(frequency_keys(c, true), k).map_values(|i: usize| distinct(c)[i as int])
}

/// A text occurs at most as often as the sequence is long.
proof fn lemma_occurrences_bound(c: Seq<Seq<char>>, t: Seq<char>)
    ensures
        occurrences(c, t) <= c.len(),
    decreases c.len(),
{
    if c.len() > 0 {
        lemma_occurrences_bound(c.drop_last(), t);
    }
}

/// There are no more distinct texts than texts.
proof fn lemma_distinct_len(c: Seq<Seq<char>>)
    ensures
        distinct(c).len() <= c.len(),
    decreases c.len(),
{
    if c.len() > 0 {
        lemma_distinct_len(c.drop_last());
    }
}

/// Filtering a sequence without duplicates leaves none.
proof fn lemma_filter_no_duplicates(s: Seq<Seq<char>>, p: spec_fn(Seq<char>) -> bool)
    requires
        s.no_duplicates(),
    ensures
        s.filter(p).no_duplicates(),
    decreases s.len(),
{
    if s.len() > 0 {
        let pre = s.drop_last();
        assert(pre.no_duplicates()) by {
            assert forall|i: int, j: int|
                0 <= i < pre.len() && 0 <= j < pre.len() && i != j implies pre[i] != pre[j] by {
                assert(pre[i] == s[i] && pre[j] == s[j]);
            }
        }
        lemma_filter_no_duplicates(pre, p);
        assert(pre.push(s.last()) == s);
        pre.lemma_filter_push(s.last(), p);
        if p(s.last()) {
            let f = pre.filter(p);
            if f.contains(s.last()) {
                pre.lemma_filter_contains_rev(p, s.last());
                let i = choose|i: int| 0 <= i < pre.len() && pre[i] == s.last();
                assert(s[i] == s[s.len() - 1]);
            }
            let g = f.push(s.last());
            assert forall|i: int, j: int|
                0 <= i < g.len() && 0 <= j < g.len() && i != j implies g[i] != g[j] by {
                if i < f.len() && j < f.len() {
                    assert(g[i] == f[i] && g[j] == f[j]);
                } else if i < f.len() {
                    assert(g[i] == f[i]);
                    assert(f.contains(f[i]));
                } else if j < f.len() {
                    assert(g[j] == f[j]);
                    assert(f.contains(f[j]));
                }
            }
        }
    }
}

/// The `k` most frequent texts all occur at least `t` times when at least
/// `k` distinct texts do.
pub(crate) proof fn lemma_top_frequent_at_least(c: Seq<Seq<char>>, by_length: bool, k: nat, t: nat, r: Seq<usize>)
    requires
        c.len() <= usize::MAX,
        crate::rank::is_top_k(frequency_keys(c, by_length), k, r),
        k <= distinct(c).filter(|x: Seq<char>| occurrences(c, x) >= t).len(),
    ensures
        forall|a: int| 0 <= a < r.len() ==> occurrences(c, #[trigger] distinct(c)[r[a] as int]) >= t,
{
    let d = distinct(c);
    let keys = frequency_keys(c, by_length);
    let p = |x: Seq<char>| occurrences(c, x) >= t;
    let f = d.filter(p);
    lemma_distinct_len(c);
    assert forall|a: int| 0 <= a < r.len() implies occurrences(c, #[trigger] d[r[a] as int]) >= t by {
        if occurrences(c, d[r[a] as int]) < t {
            let t2 = r.remove(a).map_values(|y: usize| d[y as int]);
            assert forall|x: Seq<char>| f.contains(x) implies t2.contains(x) by {
                d.lemma_filter_contains_rev(p, x);
                let i = choose|i: int| 0 <= i < d.len() && d[i] == x;
                let fi = choose|fi: int| 0 <= fi < f.len() && f[fi] == x;
                d.lemma_filter_pred(p, fi);
                assert(p(f[fi]));
                assert(occurrences(c, x) >= t);
                lemma_occurrences_bound(c, x);
                lemma_occurrences_bound(c, d[r[a] as int]);
                assert(keys[i].0 == occurrences(c, x));
                assert(keys[r[a] as int].0 == occurrences(c, d[r[a] as int]));
                if !r.contains(i as usize) {
                    assert(crate::rank::ahead(keys, r[a] as int, i as usize as int));
                    assert(false);
                }
                let b = choose|b: int| 0 <= b < r.len() && r[b] == i as usize;
                assert(b != a);
                if b < a {
                    assert(r.remove(a)[b] == r[b]);
                    assert(t2[b] == x);
                } else {
                    assert(r.remove(a)[b - 1] == r[b]);
                    assert(t2[b - 1] == x);
                }
            }
            crate::rank::lemma_distinct_unique(c);
            assert(d.no_duplicates());
            lemma_filter_no_duplicates(d, p);
            f.unique_seq_to_set();
            t2.lemma_cardinality_of_set();
            assert(f.to_set().subset_of(t2.to_set()));
            vstd::set_lib::lemma_len_subset(f.to_set(), t2.to_set());
            assert(r.len() <= k);
            assert(false);
        }
    }
}

/// The `k` most frequent distinct texts of `c`, earlier first among equally
/// frequent ones.
pub open spec fn most_common(c: Seq<Seq<char>>, k: nat) -> Seq<Seq<char>> {
    top_k_indices(frequency_keys(c, false), k).map_values(|i: usize| distinct(c)[i as int])
}

/// The `k` keywords of a text.
pub open spec fn keywords(text: Seq<char>, k: nat) -> Seq<Seq<char>> {
    most_frequent(keyword_candidates(text), k)
}

/// Trims whitespace, then ASCII punctuation; `None` when nothing is left.
pub fn normalize_token(token: &[char]) -> (r: Option<Vec<char>>)
    ensures
        r matches Some(v) ==> normalized_token(token@) == Some(v@),
        r is None ==> normalized_token(token@) is None,
{
    let a = trimmed(token);
    if a.len() == 0 {
        return None;
    }
    let b = trimmed_by(a.as_slice(), CharClass::AsciiPunctuation);
    if b.len() == 0 {
        return None;
    }
    Some(b)
}

/// Appends the normalized form of `token`, if it has one.
pub fn push_token(tokens: &mut Vec<Vec<char>>, token: &[char])
    ensures
        views(final(tokens)@) == match normalized_token(token@) {
            Some(n) => views(old(tokens)@).push(n),
            None => views(old(tokens)@),
        },
{
    let ghost before = views(tokens@);
    if let Some(n) = normalize_token(token) {
        tokens.push(n);
        assert(views(tokens@) =~= before.push(normalized_token(token@)->0));
    }
}

/// Appends the normalized forms of all tokens.
fn push_all(tokens: &mut Vec<Vec<char>>, source: &Vec<Vec<char>>)
    ensures
        views(final(tokens)@) == views(old(tokens)@) + normalize_all(views(source@)),
{
    let mut i: usize = 0;
    while i < source.len()
        invariant
            i <= source.len(),
            views(tokens@) == views(old(tokens)@) + normalize_all(views(source@).take(i as int)),
        decreases source.len() - i,
    {
        let ghost pre = views(source@).take(i as int);
        assert(views(source@).take(i + 1).drop_last() == pre);
        assert(views(source@).take(i + 1).last() == source@[i as int]@);
        let ghost before = views(tokens@);
        push_token(tokens, source[i].as_slice());
        i += 1;
        proof {
            let n = normalize_all(views(source@).take(i as int));
            match normalized_token(source@[i - 1]@) {
                Some(x) => {
                    assert(views(tokens@) =~= views(old(tokens)@) + normalize_all(pre).push(x));
                },
                None => {},
            }
        }
    }
    assert(views(source@).take(source.len() as int) =~= views(source@));
}

/// Keeps the first token of each lowercase form.
pub fn dedupe(tokens: Vec<Vec<char>>) -> (r: Vec<Vec<char>>)
    ensures
        views(r@) == dedupe_lower(views(tokens@)),
{
    let mut seen: Vec<Vec<char>> = Vec::new();
    let mut unique: Vec<Vec<char>> = Vec::new();
    let mut i: usize = 0;
    while i < tokens.len()
        invariant
            i <= tokens.len(),
            views(seen@) == views(tokens@).take(i as int).map_values(|t: Seq<char>| lowercase(t)),
            views(unique@) == dedupe_lower(views(tokens@).take(i as int)),
        decreases tokens.len() - i,
    {
        let ghost pre = views(tokens@).take(i as int);
        let ghost next = views(tokens@).take(i + 1);
        assert(next.drop_last() == pre);
        assert(next.last() == tokens@[i as int]@);
        let key = lower_chars(tokens[i].as_slice());
        let ghost old_seen = views(seen@);
        let ghost old_unique = views(unique@);
        if !member_chars(&seen, key.as_slice()) {
            let t = crate::text::slice_to_vec(tokens[i].as_slice());
            unique.push(t);
            assert(views(unique@) =~= old_unique.push(tokens@[i as int]@));
        }
        seen.push(key);
        assert(views(seen@) =~= old_seen.push(lowercase(tokens@[i as int]@)));
        assert(next.map_values(|t: Seq<char>| lowercase(t)) =~= pre.map_values(
            |t: Seq<char>| lowercase(t),
        ).push(lowercase(tokens@[i as int]@)));
        i += 1;
    }
    assert(views(tokens@).take(tokens.len() as int) =~= views(tokens@));
    unique
}

/// Whether a token is noise: at most one character, or a filler word.
pub fn is_noise_token(token: &[char]) -> (r: bool)
    ensures
        r == is_noise(token@),
{
    if token.len() <= 1 {
        return true;
    }
    let lower = lower_chars(token);
    let list: Vec<&str> = vec!["the", "and", "for", "with", "http", "https", "www"];
    assert(list@.map_values(|s: &str| s@) =~= noise_words());
    member_strs(&list, lower.as_slice())
}

/// Jieba segmentation with a shared dictionary.
pub struct Segmenter {
    jieba: Jieba,
}

impl Segmenter {
    /// Every segmenter segments with jieba's default dictionary.
    #[verifier::type_invariant]
    spec fn inv(&self) -> bool {
        jieba_default_dictionary(self.jieba)
    }

    /// Whether this segmenter holds jieba's default dictionary, unchanged.
    pub closed spec fn has_default_dictionary(&self) -> bool {
        jieba_default_dictionary(self.jieba)
    }

    /// A segmenter with jieba's default dictionary.
    pub fn new() -> (r: Self)
        ensures
            r.has_default_dictionary(),
    {
        Segmenter { jieba: Jieba::new() }
    }

    fn search_words(&self, text: &[char]) -> (r: Vec<Vec<char>>)
        ensures
            views(r@) == jieba_search_words(text@, true),
    {
        let s = string_of(text);
        proof {
            use_type_invariant(self);
        }
        let w = jieba_cut_for_search(&self.jieba, s.as_str(), true);
        char_vecs_of(&w)
    }

    /// Search-mode segmentation. Includes the original string and whitespace
    /// tokens so mixed Chinese/English queries keep exact recall.
    pub fn cut_for_search(&self, text: &str) -> (r: Vec<String>)
        ensures
            r.deep_view() == search_tokens(text@),
    {
        let chars = chars_of(text);
        let t = trimmed(chars.as_slice());
        let mut tokens: Vec<Vec<char>> = Vec::new();
        if t.len() > 0 {
            tokens.push(crate::text::slice_to_vec(t.as_slice()));
        }
        let ghost lead = views(tokens@);
        let ws = split_words(t.as_slice());
        assert(views(ws@) == words(t@));
        push_all(&mut tokens, &ws);
        let js = self.search_words(t.as_slice());
        push_all(&mut tokens, &js);
        let d = dedupe(tokens);
        proof {
            let l: Seq<Seq<char>> = if t@.len() > 0 {
                seq![t@]
            } else {
                seq![]
            };
            assert(lead =~= l);
        }
        strings_of(&d)
    }

    /// Precise segmentation for indexing or title analysis.
    pub fn cut(&self, text: &str) -> (r: Vec<String>)
        ensures
            r.deep_view() == cut_tokens(text@),
    {
        let chars = chars_of(text);
        let t = trimmed(chars.as_slice());
        let s = string_of(t.as_slice());
        proof {
            use_type_invariant(self);
        }
        let w = jieba_cut(&self.jieba, s.as_str(), true);
        let wc = char_vecs_of(&w);
        let mut tokens: Vec<Vec<char>> = Vec::new();
        push_all(&mut tokens, &wc);
        assert(views(tokens@) =~= normalize_all(views(wc@)));
        let d = dedupe(tokens);
        strings_of(&d)
    }

    /// Lightweight keyword extraction based on search-mode token frequency.
    pub fn extract_keywords(&self, text: &str, top: usize) -> (r: Vec<String>)
        ensures
            r.deep_view() == keywords(text@, top as nat),
    {
        let chars = chars_of(text);
        let t = trimmed(chars.as_slice());
        let ws = split_words(t.as_slice());
        let js = self.search_words(t.as_slice());
        let mut all: Vec<Vec<char>> = Vec::new();
        push_all(&mut all, &ws);
        push_all(&mut all, &js);
        let cands = without_noise(&all);
        let picked = most_frequent_exec(&cands, top, true);
        strings_of(&picked)
    }
}

/// The tokens that are not noise.
fn without_noise(ts: &Vec<Vec<char>>) -> (r: Vec<Vec<char>>)
    ensures
        views(r@) == drop_noise(views(ts@)),
{
    let mut r: Vec<Vec<char>> = Vec::new();
    let mut i: usize = 0;
    while i < ts.len()
        invariant
            i <= ts.len(),
            views(r@) == drop_noise(views(ts@).take(i as int)),
        decreases ts.len() - i,
    {
        let ghost pre = views(ts@).take(i as int);
        assert(views(ts@).take(i + 1).drop_last() == pre);
        assert(views(ts@).take(i + 1).last() == ts@[i as int]@);
        let ghost before = views(r@);
        if !is_noise_token(ts[i].as_slice()) {
            r.push(crate::text::slice_to_vec(ts[i].as_slice()));
            assert(views(r@) =~= before.push(ts@[i as int]@));
        }
        i += 1;
    }
    assert(views(ts@).take(ts.len() as int) =~= views(ts@));
    r
}

/// The `k` most frequent distinct texts, longer first among equally frequent
/// ones (when `by_length`), earlier first otherwise.
pub fn most_frequent_exec(c: &Vec<Vec<char>>, k: usize, by_length: bool) -> (r: Vec<Vec<char>>)
    ensures
        views(r@) == top_k_indices(frequency_keys(views(c@), by_length), k as nat).map_values(
            |i: usize| distinct(views(c@))[i as int],
        ),
        by_length ==> views(r@) == most_frequent(views(c@), k as nat),
        !by_length ==> views(r@) == most_common(views(c@), k as nat),
        forall|j: int| 0 <= j < r@.len() ==> views(c@).contains(#[trigger] r@[j]@),
        crate::rank::is_top_k(
            frequency_keys(views(c@), by_length),
            k as nat,
            top_k_indices(frequency_keys(views(c@), by_length), k as nat),
        ),
{
    let counted = tally(c);
    let ghost d = distinct(views(c@));
    let mut keys: Vec<(u128, u128)> = Vec::new();
    let mut i: usize = 0;
    while i < counted.len()
        invariant
            i <= counted.len(),
            d == distinct(views(c@)),
            counted@.len() == d.len(),
            forall|m: int|
                0 <= m < counted@.len() ==> (#[trigger] counted@[m]).0@ == d[m] && counted@[m].1
                    == occurrences(views(c@), d[m]),
            keys@ =~= frequency_keys(views(c@), by_length).take(i as int),
        decreases counted.len() - i,
    {
        let len = if by_length {
            utf8_length(counted[i].0.as_slice())
        } else {
            0
        };
        proof {
            crate::text::lemma_utf8_len_bound(d[i as int]);
        }
        let ghost old_keys = keys@;
        keys.push((counted[i].1, len));
        assert(keys@ =~= old_keys.push(frequency_keys(views(c@), by_length)[i as int]));
        i += 1;
    }
    assert(keys@ =~= frequency_keys(views(c@), by_length));
    let idx = top_k(&keys, k);
    let mut r: Vec<Vec<char>> = Vec::new();
    let mut j: usize = 0;
    while j < idx.len()
        invariant
            j <= idx.len(),
            d == distinct(views(c@)),
            idx@ == top_k_indices(frequency_keys(views(c@), by_length), k as nat),
            forall|a: int| 0 <= a < idx@.len() ==> #[trigger] idx@[a] < counted@.len(),
            counted@.len() == d.len(),
            forall|m: int| 0 <= m < counted@.len() ==> (#[trigger] counted@[m]).0@ == d[m],
            views(r@) =~= idx@.take(j as int).map_values(|x: usize| d[x as int]),
        decreases idx.len() - j,
    {
        let ghost old_r = views(r@);
        r.push(crate::text::slice_to_vec(counted[idx[j]].0.as_slice()));
        assert(views(r@) =~= old_r.push(d[idx@[j as int] as int]));
        j += 1;
    }
    assert(idx@.take(idx.len() as int) =~= idx@);
    proof {
        crate::rank::lemma_distinct_contains(views(c@));
        assert forall|j: int| 0 <= j < r@.len() implies views(c@).contains(#[trigger] r@[j]@) by {
            assert(views(r@)[j] == r@[j]@);
            assert(d.contains(d[idx@[j] as int]));
        }
    }
    r
}

/// The distinct lowercase forms of the tokens, in order of first appearance.
pub open spec fn lower_distinct(ts: Seq<Seq<char>>) -> Seq<Seq<char>> {
    distinct(ts.map_values(|t: Seq<char>| lowercase(t)))
}

/// Size of the intersection of the two token sets (compared in lowercase).
pub open spec fn shared_count(a: Seq<Seq<char>>, b: Seq<Seq<char>>) -> nat {
    lower_distinct(a).filter(|x: Seq<char>| lower_distinct(b).contains(x)).len()
}

/// Size of the union of the two token sets (compared in lowercase).
pub open spec fn union_count(a: Seq<Seq<char>>, b: Seq<Seq<char>>) -> nat {
    (lower_distinct(a).len() + lower_distinct(b).len() - shared_count(a, b)) as nat
}

/// Jaccard similarity of the two token sets is below one tenth (it is zero
/// when both are empty).
pub open spec fn dissimilar(a: Seq<Seq<char>>, b: Seq<Seq<char>>) -> bool {
    union_count(a, b) == 0 || 10 * shared_count(a, b) < union_count(a, b)
}

fn lowered_all(ts: &Vec<String>) -> (r: Vec<Vec<char>>)
    ensures
        views(r@) == ts.deep_view().map_values(|t: Seq<char>| lowercase(t)),
{
    let mut r: Vec<Vec<char>> = Vec::new();
    let mut i: usize = 0;
    while i < ts.len()
        invariant
            i <= ts.len(),
            views(r@) =~= ts.deep_view().take(i as int).map_values(|t: Seq<char>| lowercase(t)),
        decreases ts.len() - i,
    {
        let c = chars_of(ts[i].as_str());
        let l = lower_chars(c.as_slice());
        let ghost o = views(r@);
        r.push(l);
        assert(views(r@) =~= o.push(lowercase(ts@[i as int]@)));
        i += 1;
    }
    r
}

fn distinct_keys(ts: &Vec<Vec<char>>) -> (r: Vec<Vec<char>>)
    ensures
        views(r@) == distinct(views(ts@)),
{
    let counted = tally(ts);
    let ghost d = distinct(views(ts@));
    let mut r: Vec<Vec<char>> = Vec::new();
    let mut i: usize = 0;
    while i < counted.len()
        invariant
            i <= counted.len(),
            d == distinct(views(ts@)),
            counted@.len() == d.len(),
            forall|m: int| 0 <= m < counted@.len() ==> (#[trigger] counted@[m]).0@ == d[m],
            views(r@) =~= d.take(i as int),
        decreases counted.len() - i,
    {
        let ghost o = views(r@);
        r.push(crate::text::slice_to_vec(counted[i].0.as_slice()));
        assert(views(r@) =~= o.push(d[i as int]));
        i += 1;
    }
    r
}

/// Sizes of the intersection and of the union of two token sets, tokens
/// compared in lowercase: the parts of their Jaccard similarity.
pub fn jaccard_counts(a: &Vec<String>, b: &Vec<String>) -> (r: (u128, u128))
    ensures
        r.0 == shared_count(a.deep_view(), b.deep_view()),
        r.1 == union_count(a.deep_view(), b.deep_view()),
        r.0 <= usize::MAX,
{
    let da = distinct_keys(&lowered_all(a));
    let db = distinct_keys(&lowered_all(b));
    let ghost la = lower_distinct(a.deep_view());
    let ghost lb = lower_distinct(b.deep_view());
    let mut shared: usize = 0;
    let mut i: usize = 0;
    while i < da.len()
        invariant
            i <= da.len(),
            views(da@) == la,
            views(db@) == lb,
            shared == la.take(i as int).filter(|x: Seq<char>| lb.contains(x)).len(),
            shared <= i,
        decreases da.len() - i,
    {
        proof {
            assert(la.take(i + 1).drop_last() == la.take(i as int));
            reveal_with_fuel(Seq::filter, 1);
        }
        if member_chars(&db, da[i].as_slice()) {
            shared += 1;
        }
        i += 1;
    }
    assert(la.take(da.len() as int) =~= la);
    (shared as u128, (da.len() - shared) as u128 + db.len() as u128)
}

} // verus!
