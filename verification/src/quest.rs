//! Quests: browsing sessions grouped by time gaps, a maximum duration and
//! changes of search intent, named after their queries, domains or titles.

use vstd::prelude::*;
pub use crate::calendar::{chrono_now, days_to_date};
use crate::models::Artifact;
use crate::segmenter::{dissimilar, jaccard_counts, keywords, most_common, search_tokens, Segmenter};
use crate::text::{
    append_chars, chars_of, find, join, join_exec, lower_chars, lowercase, member_strs, opt_is,
    slice_to_vec, string_of, strings_of, trim, trimmed, utf8_len, utf8_length, views,
};

verus! {

/// Longest pause, in minutes, between consecutive visits of one quest.
pub const GAP_THRESHOLD_MINUTES: i64 = 45;

/// Fewest artifacts a quest is made of.
pub const MIN_ARTIFACTS_PER_QUEST: usize = 3;

/// Longest quest, in hours, before it is split.
pub const MAX_QUEST_DURATION_HOURS: i64 = 8;

/// A search-engine result page.
pub open spec fn is_search(a: Artifact) -> bool {
    a.page_category matches Some(c) && c@ == "search_query"@
}

/// An anchor: a search, a bookmark, or a page visited three times or more.
pub open spec fn is_anchor_spec(a: Artifact) -> bool {
    is_search(a) || a.is_bookmarked || a.visit_count >= 3
}

/// The text that says what the user was after: the extracted query, else
/// the title, else nothing.
pub open spec fn intent_text(a: Artifact) -> Seq<char> {
    match a.extracted_query {
        Some(q) => q@,
        None => match a.title {
            Some(t) => t@,
            None => seq![],
        },
    }
}

/// Whole minutes between two instants given in milliseconds.
pub open spec fn gap_minutes(t1: i64, t2: i64) -> int {
    let d = t2 - t1;
    (if d < 0 {
        -d
    } else {
        d
    }) / 60000
}

/// Position in `cluster` of its last search page, if any.
pub open spec fn last_search(arts: Seq<Artifact>, cluster: Seq<usize>) -> Option<usize>
    decreases cluster.len(),
{
    if cluster.len() == 0 {
        None
    } else if is_search(arts[cluster.last() as int]) {
        Some(cluster.last())
    } else {
        last_search(arts, cluster.drop_last())
    }
}

/// A search page whose intent shares less than a tenth of its tokens with
/// the last search of the cluster so far.
pub open spec fn intent_changes(arts: Seq<Artifact>, cluster: Seq<usize>, a: int) -> bool {
    is_search(arts[a]) && match last_search(arts, cluster) {
        None => false,
        Some(p) => dissimilar(
            search_tokens(intent_text(arts[p as int])),
            search_tokens(intent_text(arts[a])),
        ),
    }
}

/// Artifact `a` starts a new quest after `cluster`: the pause since the last
/// visit exceeds the gap threshold, the quest would outlast the maximum
/// duration, or the search intent changes.
pub open spec fn splits(arts: Seq<Artifact>, times: Seq<i64>, cluster: Seq<usize>, a: int) -> bool {
    ||| gap_minutes(times[cluster.last() as int], times[a]) > GAP_THRESHOLD_MINUTES
    ||| gap_minutes(times[cluster[0] as int], times[a]) > MAX_QUEST_DURATION_HOURS * 60
    ||| intent_changes(arts, cluster, a)
}

/// The clusters of the first `n` artifacts (in visit order), as positions.
pub open spec fn clusters(arts: Seq<Artifact>, times: Seq<i64>, n: nat) -> Seq<Seq<usize>>
    decreases n,
{
    if n == 0 {
        seq![]
    } else {
        let cs = clusters(arts, times, (n - 1) as nat);
        if cs.len() == 0 {
            seq![seq![(n - 1) as usize]]
        } else if splits(arts, times, cs.last(), n - 1) {
            cs.push(seq![(n - 1) as usize])
        } else {
            cs.update(cs.len() - 1, cs.last().push((n - 1) as usize))
        }
    }
}

/// The maximum duration alone parts artifact `a` from `cluster`: the pause
/// is within the gap threshold and the search intent stays the same, so
/// `a` carries on the same browsing session.
pub open spec fn capped_only(arts: Seq<Artifact>, times: Seq<i64>, cluster: Seq<usize>, a: int) -> bool {
    gap_minutes(times[cluster.last() as int], times[a]) <= GAP_THRESHOLD_MINUTES && !intent_changes(
        arts,
        cluster,
        a,
    )
}

/// Whether the cluster of artifact `n - 1`, as the first `n` artifacts
/// cluster, is anchored: it holds an anchor, or the maximum duration alone
/// split it off an anchored cluster.
pub open spec fn anchored(arts: Seq<Artifact>, times: Seq<i64>, n: nat) -> bool
    decreases n,
{
    if n == 0 {
        false
    } else {
        let cs = clusters(arts, times, (n - 1) as nat);
        ||| is_anchor_spec(arts[n - 1])
        ||| cs.len() > 0 && (!splits(arts, times, cs.last(), n - 1) || capped_only(
            arts,
            times,
            cs.last(),
            n - 1,
        )) && anchored(arts, times, (n - 1) as nat)
    }
}

/// Whether a cluster holds an anchor.
pub open spec fn holds_anchor(arts: Seq<Artifact>, c: Seq<usize>) -> bool {
    exists|k: int| 0 <= k < c.len() && is_anchor_spec(#[trigger] arts[c[k] as int])
}

/// Whether a cluster is anchored (see [`anchored`]).
pub open spec fn cluster_anchored(arts: Seq<Artifact>, times: Seq<i64>, c: Seq<usize>) -> bool {
    anchored(arts, times, (c.last() + 1) as nat)
}

/// Whether an artifact is an anchor.
pub fn is_anchor(a: &Artifact) -> (r: bool)
    ensures
        r == is_anchor_spec(*a),
{
    opt_is(&a.page_category, "search_query") || a.is_bookmarked || a.visit_count >= 3
}

/// The intent text of an artifact.
pub fn quest_intent_text(a: &Artifact) -> (r: String)
    ensures
        r@ == intent_text(*a),
{
    match &a.extracted_query {
        Some(q) => crate::text::copy_string(q.as_str()),
        None => match &a.title {
            Some(t) => crate::text::copy_string(t.as_str()),
            None => String::new(),
        },
    }
}

/// Whole minutes between two instants in milliseconds.
pub fn calc_gap_minutes(t1: i64, t2: i64) -> (r: i64)
    ensures
        r == gap_minutes(t1, t2),
{
    let d: i128 = t2 as i128 - t1 as i128;
    let a: i128 = if d < 0 {
        -d
    } else {
        d
    };
    (a / 60000) as i64
}

fn last_search_exec(arts: &Vec<Artifact>, cluster: &Vec<usize>) -> (r: Option<usize>)
    requires
        forall|k: int| 0 <= k < cluster@.len() ==> #[trigger] cluster@[k] < arts@.len(),
    ensures
        r == last_search(arts@, cluster@),
        r matches Some(p) ==> p < arts@.len(),
{
    let mut k = cluster.len();
    assert(cluster@.take(k as int) == cluster@);
    while k > 0
        invariant
            k <= cluster@.len(),
            forall|m: int| 0 <= m < cluster@.len() ==> #[trigger] cluster@[m] < arts@.len(),
            last_search(arts@, cluster@) == last_search(arts@, cluster@.take(k as int)),
        decreases k,
    {
        let ghost pre = cluster@.take(k as int);
        assert(pre.drop_last() == cluster@.take(k - 1));
        assert(pre.last() == cluster@[k - 1]);
        let p = cluster[k - 1];
        if opt_is(&arts[p].page_category, "search_query") {
            return Some(p);
        }
        k -= 1;
    }
    None
}

/// Whether a search page changes the intent of the cluster so far.
pub fn should_split_by_intent(
    segmenter: &Segmenter,
    arts: &Vec<Artifact>,
    cluster: &Vec<usize>,
    current: usize,
) -> (r: bool)
    requires
        current < arts@.len(),
        forall|k: int| 0 <= k < cluster@.len() ==> #[trigger] cluster@[k] < arts@.len(),
    ensures
        r == intent_changes(arts@, cluster@, current as int),
{
    if !opt_is(&arts[current].page_category, "search_query") {
        return false;
    }
    match last_search_exec(arts, cluster) {
        None => false,
        Some(p) => {
            let prev_text = quest_intent_text(&arts[p]);
            let cur_text = quest_intent_text(&arts[current]);
            let prev_tokens = segmenter.cut_for_search(prev_text.as_str());
            let cur_tokens = segmenter.cut_for_search(cur_text.as_str());
            let (shared, union) = jaccard_counts(&prev_tokens, &cur_tokens);
            union == 0 || (shared < union && 10 * shared < union)
        },
    }
}

/// Groups artifacts (in visit order, `times[i]` the visit of `arts[i]` in
/// milliseconds) into clusters of consecutive positions, each with whether
/// it is anchored.
pub fn cluster_artifacts(segmenter: &Segmenter, arts: &Vec<Artifact>, times: &Vec<i64>) -> (r: (
    Vec<Vec<usize>>,
    Vec<bool>,
))
    requires
        arts@.len() == times@.len(),
    ensures
        r.0@.map_values(|c: Vec<usize>| c@) == clusters(arts@, times@, arts@.len() as nat),
        r.1@.len() == r.0@.len(),
        forall|j: int|
            0 <= j < r.1@.len() ==> #[trigger] r.1@[j] == cluster_anchored(arts@, times@, r.0@[j]@),
{
    let mut done: Vec<Vec<usize>> = Vec::new();
    let mut flags: Vec<bool> = Vec::new();
    let mut cur: Vec<usize> = Vec::new();
    let mut cur_anchored: bool = false;
    let mut i: usize = 0;
    while i < arts.len()
        invariant
            i <= arts@.len() == times@.len(),
            i == 0 <==> cur@.len() == 0,
            i == 0 ==> done@.len() == 0,
            forall|k: int| 0 <= k < cur@.len() ==> #[trigger] cur@[k] < i,
            i > 0 ==> clusters(arts@, times@, i as nat) == done@.map_values(|c: Vec<usize>| c@).push(
                cur@,
            ),
            i > 0 ==> cur@.last() == i - 1,
            i > 0 ==> cur_anchored == anchored(arts@, times@, i as nat),
            flags@.len() == done@.len(),
            forall|j: int|
                0 <= j < flags@.len() ==> #[trigger] flags@[j] == cluster_anchored(
                    arts@,
                    times@,
                    done@[j]@,
                ),
        decreases arts@.len() - i,
    {
        let ghost cs = clusters(arts@, times@, i as nat);
        let ghost mapped = done@.map_values(|c: Vec<usize>| c@);
        let anchor = is_anchor(&arts[i]);
        if i == 0 {
            cur.push(0);
            cur_anchored = anchor;
            assert(cur@ =~= seq![0usize]);
            assert(done@.map_values(|c: Vec<usize>| c@) =~= Seq::<Seq<usize>>::empty());
            assert(clusters(arts@, times@, 1) == seq![seq![0usize]]);
            assert(done@.map_values(|c: Vec<usize>| c@).push(cur@) =~= seq![seq![0usize]]);
        } else {
            let prev = cur[cur.len() - 1];
            let start = cur[0];
            let gap = calc_gap_minutes(times[prev], times[i]);
            let duration = calc_gap_minutes(times[start], times[i]);
            let far = gap > GAP_THRESHOLD_MINUTES;
            let force = duration > MAX_QUEST_DURATION_HOURS * 60;
            let intent = !far && should_split_by_intent(segmenter, arts, &cur, i);
            let split = far || force || intent;
            assert(cs.last() == cur@);
            assert(split == splits(arts@, times@, cur@, i as int));
            assert((!far && !intent) == capped_only(arts@, times@, cur@, i as int));
            assert(((cur@.last() + 1) as nat) == i as nat);
            if split {
                let closed = cur;
                done.push(closed);
                flags.push(cur_anchored);
                cur = Vec::new();
                cur.push(i);
                cur_anchored = anchor || (!far && !intent && cur_anchored);
                assert(done@.map_values(|c: Vec<usize>| c@) =~= mapped.push(cs.last()));
                assert(done@.map_values(|c: Vec<usize>| c@).push(cur@) =~= cs.push(
                    seq![i as usize],
                ));
            } else {
                cur.push(i);
                cur_anchored = anchor || cur_anchored;
                assert(mapped.push(cur@) =~= cs.update(cs.len() - 1, cs.last().push(i as usize)));
            }
        }
        i += 1;
    }
    if cur.len() > 0 {
        let ghost mapped = done@.map_values(|c: Vec<usize>| c@);
        done.push(cur);
        flags.push(cur_anchored);
        assert(done@.map_values(|c: Vec<usize>| c@) =~= mapped.push(cur@));
    } else {
        assert(done@.map_values(|c: Vec<usize>| c@) =~= seq![]);
    }
    (done, flags)
}

/// What `char::is_alphanumeric` says of a character (Unicode `Alphabetic`
/// or `Numeric`).
pub uninterp spec fn is_alphanumeric(c: char) -> bool;

/// `char::is_alphanumeric`. Claims only that the answer is
/// [`is_alphanumeric`] of the character.
#[verifier::external_body]
fn char_is_alphanumeric(c: char) -> (r: bool)
    ensures
        r == is_alphanumeric(c),
{
    c.is_alphanumeric()
}

/// The pieces of a text between non-alphanumeric characters
/// (`str::split(|c| !c.is_alphanumeric())`), empty pieces included.
pub open spec fn alnum_pieces(s: Seq<char>) -> Seq<Seq<char>>
    decreases s.len(),
{
    if s.len() == 0 {
        seq![seq![]]
    } else {
        let p = alnum_pieces(s.drop_last());
        if !is_alphanumeric(s.last()) {
            p.push(seq![])
        } else {
            p.update(p.len() - 1, p.last().push(s.last()))
        }
    }
}

pub proof fn lemma_alnum_pieces_nonempty(s: Seq<char>)
    ensures
        alnum_pieces(s).len() >= 1,
    decreases s.len(),
{
    if s.len() > 0 {
        lemma_alnum_pieces_nonempty(s.drop_last());
    }
}

/// Words too common to name a quest after.
pub open spec fn title_noise() -> Seq<Seq<char>> {
    seq![
        "the"@, "a"@, "an"@, "is"@, "of"@, "to"@, "in"@, "for"@, "on"@, "and"@, "or"@, "with"@,
        "how"@, "what"@, "why"@, "guide"@, "tutorial"@, "howto"@,
    ]
}

/// `part` replaces `best` when it is at least three bytes long, not a noise
/// word in any case, and longer (in bytes) than `best`.
pub open spec fn pick_longer(best: Seq<char>, part: Seq<char>) -> Seq<char> {
    if utf8_len(part) >= 3 && !title_noise().contains(lowercase(part)) && utf8_len(part) > utf8_len(
        best,
    ) {
        part
    } else {
        best
    }
}

/// The keyword picked from a list of pieces, scanning left to right.
pub open spec fn best_piece(parts: Seq<Seq<char>>) -> Seq<char>
    decreases parts.len(),
{
    if parts.len() == 0 {
        seq![]
    } else {
        pick_longer(best_piece(parts.drop_last()), parts.last())
    }
}

/// The keyword of a title: its longest alphanumeric piece of at least three
/// bytes that is not a noise word, the first of equally long ones; empty if
/// none.
pub open spec fn title_keyword(title: Seq<char>) -> Seq<char> {
    best_piece(alnum_pieces(title))
}

/// What scanning pieces keeps is nothing, or a piece of at least three
/// bytes that is no noise word in any case.
proof fn lemma_best_piece_kept(parts: Seq<Seq<char>>)
    ensures
        best_piece(parts).len() == 0 || (utf8_len(best_piece(parts)) >= 3 && !title_noise().contains(
            lowercase(best_piece(parts)),
        ) && parts.contains(best_piece(parts))),
    decreases parts.len(),
{
    if parts.len() > 0 {
        let pre = parts.drop_last();
        lemma_best_piece_kept(pre);
        if best_piece(pre).len() > 0 {
            let k = choose|k: int| 0 <= k < pre.len() && pre[k] == best_piece(pre);
            assert(parts[k] == pre[k]);
        }
        assert(parts[parts.len() - 1] == parts.last());
    }
}

/// The keyword of a title is never a filler word: when there is one, it is
/// one of the title's alphanumeric pieces, at least three bytes long, and
/// its lowercase form is none of `the`, `a`, `an`, `is`, `of`, `to`, `in`,
/// `for`, `on`, `and`, `or`, `with`, `how`, `what`, `why`, `guide`,
/// `tutorial`, `howto`.
pub proof fn lemma_keyword_is_no_filler(title: Seq<char>)
    ensures
        title_keyword(title).len() > 0 ==> {
            &&& alnum_pieces(title).contains(title_keyword(title))
            &&& utf8_len(title_keyword(title)) >= 3
            &&& !seq![
                "the"@, "a"@, "an"@, "is"@, "of"@, "to"@, "in"@, "for"@, "on"@, "and"@, "or"@,
                "with"@, "how"@, "what"@, "why"@, "guide"@, "tutorial"@, "howto"@,
            ].contains(lowercase(title_keyword(title)))
        },
{
    lemma_best_piece_kept(alnum_pieces(title));
    assert(title_noise() =~= seq![
        "the"@, "a"@, "an"@, "is"@, "of"@, "to"@, "in"@, "for"@, "on"@, "and"@, "or"@,
        "with"@, "how"@, "what"@, "why"@, "guide"@, "tutorial"@, "howto"@,
    ]);
}

fn pick_exec(best: Vec<char>, part: &[char]) -> (r: Vec<char>)
    ensures
        r@ == pick_longer(best@, part@),
{
    let pl = utf8_length(part);
    if pl >= 3 && pl > utf8_length(best.as_slice()) {
        let lower = lower_chars(part);
        let noise: Vec<&str> = vec![
            "the", "a", "an", "is", "of", "to", "in", "for", "on", "and", "or", "with", "how",
            "what", "why", "guide", "tutorial", "howto",
        ];
        assert(noise@.map_values(|s: &str| s@) =~= title_noise());
        if !member_strs(&noise, lower.as_slice()) {
            return slice_to_vec(part);
        }
    }
    best
}

/// Extracts a meaningful keyword from a title.
pub fn extract_keyword(title: &str) -> (r: String)
    ensures
        r@ == title_keyword(title@),
{
    let s = chars_of(title);
    let mut best: Vec<char> = Vec::new();
    let mut cur: Vec<char> = Vec::new();
    let mut i: usize = 0;
    while i < s.len()
        invariant
            i <= s@.len(),
            alnum_pieces(s@.take(i as int)).len() >= 1,
            best@ == best_piece(alnum_pieces(s@.take(i as int)).drop_last()),
            cur@ == alnum_pieces(s@.take(i as int)).last(),
        decreases s@.len() - i,
    {
        let ghost pre = s@.take(i as int);
        let ghost p = alnum_pieces(pre);
        assert(s@.take(i + 1).drop_last() == pre);
        assert(s@.take(i + 1).last() == s@[i as int]);
        let c = s[i];
        if !char_is_alphanumeric(c) {
            best = pick_exec(best, cur.as_slice());
            cur = Vec::new();
            assert(p.push(seq![]).drop_last() == p);
            assert(p == p.drop_last().push(p.last()));
        } else {
            cur.push(c);
            assert(p.update(p.len() - 1, p.last().push(c)).drop_last() =~= p.drop_last());
        }
        i += 1;
    }
    assert(s@.take(s@.len() as int) == s@);
    let ghost p = alnum_pieces(s@);
    assert(p == p.drop_last().push(p.last()));
    let b = pick_exec(best, cur.as_slice());
    string_of(b.as_slice())
}

/// A quest name from a search query: its four keywords joined by spaces,
/// or the trimmed query when it has none.
pub open spec fn compact_name(query: Seq<char>) -> Seq<char> {
    let kws = keywords(query, 4);
    if kws.len() == 0 {
        trim(query)
    } else {
        join(kws, " "@)
    }
}

/// Names a quest after the search query that started it.
pub fn compact_query_name(segmenter: &Segmenter, query: &str) -> (r: String)
    ensures
        r@ == compact_name(query@),
{
    let kws = segmenter.extract_keywords(query, 4);
    if kws.len() == 0 {
        let q = chars_of(query);
        let t = trimmed(q.as_slice());
        string_of(t.as_slice())
    } else {
        let kc = crate::text::char_vecs_of(&kws);
        let sep = chars_of(" ");
        let j = join_exec(&kc, sep.as_slice());
        string_of(j.as_slice())
    }
}

/// Position of the first search page of a cluster.
pub open spec fn first_search(arts: Seq<Artifact>, cluster: Seq<usize>) -> Option<usize>
    decreases cluster.len(),
{
    if cluster.len() == 0 {
        None
    } else {
        match first_search(arts, cluster.drop_last()) {
            Some(p) => Some(p),
            None => if is_search(arts[cluster.last() as int]) {
                Some(cluster.last())
            } else {
                None
            },
        }
    }
}

/// Domains too general to name a quest after.
pub open spec fn generic_domains() -> Seq<Seq<char>> {
    seq![
        "google.com"@, "bing.com"@, "baidu.com"@, "youtube.com"@, "facebook.com"@, "twitter.com"@,
        "x.com"@,
    ]
}

/// The domains of the cluster's artifacts that have one and are not
/// generic, in order.
pub open spec fn named_domains(arts: Seq<Artifact>, cluster: Seq<usize>) -> Seq<Seq<char>>
    decreases cluster.len(),
{
    if cluster.len() == 0 {
        seq![]
    } else {
        let p = named_domains(arts, cluster.drop_last());
        match arts[cluster.last() as int].domain {
            Some(d) => if generic_domains().contains(d@) {
                p
            } else {
                p.push(d@)
            },
            None => p,
        }
    }
}

/// Quests are never named after a general-purpose site: no domain kept
/// for naming is `google.com`, `bing.com`, `baidu.com`, `youtube.com`,
/// `facebook.com`, `twitter.com` or `x.com`, and every kept one is the
/// domain of an artifact of the cluster.
pub proof fn lemma_named_domains_not_generic(arts: Seq<Artifact>, cluster: Seq<usize>)
    ensures
        forall|i: int|
            0 <= i < named_domains(arts, cluster).len() ==> !seq![
                "google.com"@, "bing.com"@, "baidu.com"@, "youtube.com"@, "facebook.com"@,
                "twitter.com"@, "x.com"@,
            ].contains(#[trigger] named_domains(arts, cluster)[i]) && exists|k: int|
                0 <= k < cluster.len() && crate::text::opt_text(arts[cluster[k] as int].domain)
                    == Some(named_domains(arts, cluster)[i]),
    decreases cluster.len(),
{
    assert(generic_domains() =~= seq![
        "google.com"@, "bing.com"@, "baidu.com"@, "youtube.com"@, "facebook.com"@,
        "twitter.com"@, "x.com"@,
    ]);
    if cluster.len() > 0 {
        let pre = cluster.drop_last();
        lemma_named_domains_not_generic(arts, pre);
        let p = named_domains(arts, pre);
        let n = named_domains(arts, cluster);
        assert forall|i: int| #![trigger n[i]] 0 <= i < n.len() implies exists|k: int|
            0 <= k < cluster.len() && crate::text::opt_text(arts[cluster[k] as int].domain) == Some(
                n[i],
            ) by {
            if i < p.len() {
                assert(n[i] == p[i]);
                let k = choose|k: int|
                    0 <= k < pre.len() && crate::text::opt_text(arts[pre[k] as int].domain) == Some(
                        p[i],
                    );
                assert(cluster[k] == pre[k]);
            } else {
                assert(cluster[cluster.len() - 1] == cluster.last());
            }
        }
    }
}

/// A domain up to its first dot (`reddit.com` → `reddit`).
pub open spec fn short_domain(d: Seq<char>) -> Seq<char> {
    match find(d, "."@) {
        Some(i) => d.take(i),
        None => d,
    }
}

/// Short names of the cluster's three most visited named domains, most
/// visited first (the first seen among equally visited ones).
pub open spec fn quest_domains(arts: Seq<Artifact>, cluster: Seq<usize>) -> Seq<Seq<char>> {
    most_common(named_domains(arts, cluster), 3).map_values(|d: Seq<char>| short_domain(d))
}

/// Title of the cluster's first bookmarked artifact that has a title.
pub open spec fn bookmark_title(arts: Seq<Artifact>, cluster: Seq<usize>) -> Option<Seq<char>>
    decreases cluster.len(),
{
    if cluster.len() == 0 {
        None
    } else {
        match bookmark_title(arts, cluster.drop_last()) {
            Some(t) => Some(t),
            None => {
                let a = arts[cluster.last() as int];
                if a.is_bookmarked && a.title is Some {
                    Some(a.title->0@)
                } else {
                    None
                }
            },
        }
    }
}

/// The first non-empty title keyword among the artifacts of `cluster`.
pub open spec fn scan_keyword(arts: Seq<Artifact>, cluster: Seq<usize>) -> Seq<char>
    decreases cluster.len(),
{
    if cluster.len() == 0 {
        seq![]
    } else {
        let p = scan_keyword(arts, cluster.drop_last());
        if p.len() > 0 {
            p
        } else {
            match arts[cluster.last() as int].title {
                Some(t) => title_keyword(t@),
                None => seq![],
            }
        }
    }
}

/// The keyword a quest is named after: from the first titled bookmark, else
/// the first non-empty one among the titles of its first five artifacts.
pub open spec fn quest_keyword(arts: Seq<Artifact>, cluster: Seq<usize>) -> Seq<char> {
    let k1 = match bookmark_title(arts, cluster) {
        Some(t) => title_keyword(t),
        None => seq![],
    };
    if k1.len() > 0 {
        k1
    } else {
        scan_keyword(arts, cluster.take(crate::rank::min_nat(5, cluster.len()) as int))
    }
}

/// The longest prefix of `s` that takes at most `budget` bytes in UTF-8.
pub open spec fn prefix_within(s: Seq<char>, budget: int) -> Seq<char>
    decreases s.len(),
{
    if s.len() == 0 || crate::text::char_len(s[0]) > budget {
        seq![]
    } else {
        seq![s[0]] + prefix_within(s.drop_first(), budget - crate::text::char_len(s[0]))
    }
}

/// Byte `n` of `s` (or its end, if shorter) falls between two characters.
pub open spec fn cut_at_boundary(s: Seq<char>, n: nat) -> bool {
    utf8_len(prefix_within(s, n as int)) == crate::rank::min_nat(n, utf8_len(s))
}

/// The visit time the date fallback starts from.
pub open spec fn start_text(arts: Seq<Artifact>, cluster: Seq<usize>) -> Seq<char> {
    match arts[cluster[0] as int].visited_at {
        Some(v) => v@,
        None => "?"@,
    }
}

/// The cluster is named after its search query.
pub open spec fn named_by_query(arts: Seq<Artifact>, cluster: Seq<usize>) -> bool {
    match first_search(arts, cluster) {
        Some(p) => match arts[p as int].extracted_query {
            Some(q) => compact_name(q@).len() > 0,
            None => false,
        },
        None => false,
    }
}

/// The name of a cluster: its search query made compact; else its domains
/// and keyword (`domains: keyword`, either alone, or the start date followed
/// by ` browsing` when it has neither).
pub open spec fn quest_name(arts: Seq<Artifact>, cluster: Seq<usize>) -> Seq<char> {
    if cluster.len() == 0 {
        "Unknown Quest"@
    } else if named_by_query(arts, cluster) {
        compact_name(arts[first_search(arts, cluster)->0 as int].extracted_query->0@)
    } else {
        let domains = quest_domains(arts, cluster);
        let kw = quest_keyword(arts, cluster);
        if domains.len() == 0 && kw.len() == 0 {
            prefix_within(start_text(arts, cluster), 10) + " browsing"@
        } else if kw.len() == 0 {
            join(domains, " + "@)
        } else if domains.len() == 0 {
            kw
        } else {
            join(domains, " + "@) + ": "@ + kw
        }
    }
}

/// Naming the cluster does not cut its start time inside a character.
pub open spec fn name_is_safe(arts: Seq<Artifact>, cluster: Seq<usize>) -> bool {
    ||| cluster.len() == 0
    ||| named_by_query(arts, cluster)
    ||| quest_domains(arts, cluster).len() > 0
    ||| quest_keyword(arts, cluster).len() > 0
    ||| cut_at_boundary(start_text(arts, cluster), 10)
}

/// Every position of `cluster` names an artifact.
pub open spec fn in_range(arts: Seq<Artifact>, cluster: Seq<usize>) -> bool {
    forall|k: int| 0 <= k < cluster.len() ==> #[trigger] cluster[k] < arts.len()
}

fn first_search_exec(arts: &Vec<Artifact>, cluster: &Vec<usize>) -> (r: Option<usize>)
    requires
        in_range(arts@, cluster@),
    ensures
        r == first_search(arts@, cluster@),
        r matches Some(p) ==> p < arts@.len(),
{
    let mut i: usize = 0;
    while i < cluster.len()
        invariant
            i <= cluster@.len(),
            in_range(arts@, cluster@),
            first_search(arts@, cluster@.take(i as int)) is None,
        decreases cluster@.len() - i,
    {
        assert(cluster@.take(i + 1).drop_last() == cluster@.take(i as int));
        assert(cluster@.take(i + 1).last() == cluster@[i as int]);
        if opt_is(&arts[cluster[i]].page_category, "search_query") {
            proof {
                lemma_first_search_prefix(arts@, cluster@, i as int + 1);
            }
            return Some(cluster[i]);
        }
        i += 1;
    }
    assert(cluster@.take(cluster@.len() as int) == cluster@);
    None
}

/// A search found in a prefix is the cluster's first search.
proof fn lemma_first_search_prefix(arts: Seq<Artifact>, cluster: Seq<usize>, n: int)
    requires
        0 <= n <= cluster.len(),
        first_search(arts, cluster.take(n)) is Some,
    ensures
        first_search(arts, cluster) == first_search(arts, cluster.take(n)),
    decreases cluster.len() - n,
{
    if n < cluster.len() {
        assert(cluster.take(n + 1).drop_last() == cluster.take(n));
        lemma_first_search_prefix(arts, cluster, n + 1);
    } else {
        assert(cluster.take(n) == cluster);
    }
}

fn generic_domain(d: &str) -> (r: bool)
    ensures
        r == generic_domains().contains(d@),
{
    let c = chars_of(d);
    let list: Vec<&str> = vec![
        "google.com", "bing.com", "baidu.com", "youtube.com", "facebook.com", "twitter.com", "x.com",
    ];
    assert(list@.map_values(|s: &str| s@) =~= generic_domains());
    member_strs(&list, c.as_slice())
}

fn named_domains_exec(arts: &Vec<Artifact>, cluster: &Vec<usize>) -> (r: Vec<Vec<char>>)
    requires
        in_range(arts@, cluster@),
    ensures
        views(r@) == named_domains(arts@, cluster@),
{
    let mut r: Vec<Vec<char>> = Vec::new();
    let mut i: usize = 0;
    while i < cluster.len()
        invariant
            i <= cluster@.len(),
            in_range(arts@, cluster@),
            views(r@) == named_domains(arts@, cluster@.take(i as int)),
        decreases cluster@.len() - i,
    {
        assert(cluster@.take(i + 1).drop_last() == cluster@.take(i as int));
        assert(cluster@.take(i + 1).last() == cluster@[i as int]);
        let ghost before = views(r@);
        match &arts[cluster[i]].domain {
            Some(d) => {
                if !generic_domain(d.as_str()) {
                    r.push(chars_of(d.as_str()));
                    assert(views(r@) =~= before.push(d@));
                }
            },
            None => {},
        }
        i += 1;
    }
    assert(cluster@.take(cluster@.len() as int) == cluster@);
    r
}

/// A domain up to its first dot.
pub fn short_domain_exec(d: &[char]) -> (r: Vec<char>)
    ensures
        r@ == short_domain(d@),
{
    let dot = chars_of(".");
    match crate::text::find_exec(d, dot.as_slice(), 0) {
        Some(i) => {
            proof {
                crate::text::lemma_find_from_props(d@, dot@, 0);
            }
            crate::text::slice_vec(d, 0, i)
        },
        None => slice_to_vec(d),
    }
}

fn quest_domains_exec(arts: &Vec<Artifact>, cluster: &Vec<usize>) -> (r: Vec<Vec<char>>)
    requires
        in_range(arts@, cluster@),
    ensures
        views(r@) == quest_domains(arts@, cluster@),
{
    let named = named_domains_exec(arts, cluster);
    let top = crate::segmenter::most_frequent_exec(&named, 3, false);
    let ghost t = views(top@);
    let mut r: Vec<Vec<char>> = Vec::new();
    let mut i: usize = 0;
    while i < top.len()
        invariant
            i <= top@.len(),
            t == views(top@),
            views(r@) =~= t.take(i as int).map_values(|d: Seq<char>| short_domain(d)),
        decreases top@.len() - i,
    {
        let ghost o = views(r@);
        r.push(short_domain_exec(top[i].as_slice()));
        assert(views(r@) =~= o.push(short_domain(t[i as int])));
        i += 1;
    }
    r
}

fn bookmark_title_exec(arts: &Vec<Artifact>, cluster: &Vec<usize>) -> (r: Option<String>)
    requires
        in_range(arts@, cluster@),
    ensures
        r matches Some(t) ==> bookmark_title(arts@, cluster@) == Some(t@),
        r is None ==> bookmark_title(arts@, cluster@) is None,
{
    let mut i: usize = 0;
    while i < cluster.len()
        invariant
            i <= cluster@.len(),
            in_range(arts@, cluster@),
            bookmark_title(arts@, cluster@.take(i as int)) is None,
        decreases cluster@.len() - i,
    {
        assert(cluster@.take(i + 1).drop_last() == cluster@.take(i as int));
        assert(cluster@.take(i + 1).last() == cluster@[i as int]);
        let a = &arts[cluster[i]];
        if a.is_bookmarked {
            if let Some(t) = &a.title {
                proof {
                    lemma_bookmark_title_prefix(arts@, cluster@, i as int + 1);
                }
                return Some(crate::text::copy_string(t.as_str()));
            }
        }
        i += 1;
    }
    assert(cluster@.take(cluster@.len() as int) == cluster@);
    None
}

proof fn lemma_bookmark_title_prefix(arts: Seq<Artifact>, cluster: Seq<usize>, n: int)
    requires
        0 <= n <= cluster.len(),
        bookmark_title(arts, cluster.take(n)) is Some,
    ensures
        bookmark_title(arts, cluster) == bookmark_title(arts, cluster.take(n)),
    decreases cluster.len() - n,
{
    if n < cluster.len() {
        assert(cluster.take(n + 1).drop_last() == cluster.take(n));
        lemma_bookmark_title_prefix(arts, cluster, n + 1);
    } else {
        assert(cluster.take(n) == cluster);
    }
}

proof fn lemma_scan_keyword_prefix(arts: Seq<Artifact>, cluster: Seq<usize>, n: int)
    requires
        0 <= n <= cluster.len(),
        scan_keyword(arts, cluster.take(n)).len() > 0,
    ensures
        scan_keyword(arts, cluster) == scan_keyword(arts, cluster.take(n)),
    decreases cluster.len() - n,
{
    if n < cluster.len() {
        assert(cluster.take(n + 1).drop_last() == cluster.take(n));
        lemma_scan_keyword_prefix(arts, cluster, n + 1);
    } else {
        assert(cluster.take(n) == cluster);
    }
}

fn quest_keyword_exec(arts: &Vec<Artifact>, cluster: &Vec<usize>) -> (r: Vec<char>)
    requires
        in_range(arts@, cluster@),
    ensures
        r@ == quest_keyword(arts@, cluster@),
{
    if let Some(t) = bookmark_title_exec(arts, cluster) {
        let k = extract_keyword(t.as_str());
        if !k.as_str().is_empty() {
            return chars_of(k.as_str());
        }
    }
    let n = if cluster.len() < 5 {
        cluster.len()
    } else {
        5
    };
    let ghost first = cluster@.take(n as int);
    let ghost k1 = match bookmark_title(arts@, cluster@) {
        Some(t) => title_keyword(t),
        None => seq![],
    };
    assert(k1.len() == 0);
    let mut i: usize = 0;
    while i < n
        invariant
            i <= n <= cluster@.len(),
            k1.len() == 0,
            k1 == (match bookmark_title(arts@, cluster@) {
                Some(t) => title_keyword(t),
                None => seq![],
            }),
            n == crate::rank::min_nat(5, cluster@.len()),
            first == cluster@.take(n as int),
            in_range(arts@, cluster@),
            scan_keyword(arts@, first.take(i as int)).len() == 0,
        decreases n - i,
    {
        assert(first.take(i + 1).drop_last() == first.take(i as int));
        assert(first.take(i + 1).last() == cluster@[i as int]);
        if let Some(t) = &arts[cluster[i]].title {
            let k = extract_keyword(t.as_str());
            if !k.as_str().is_empty() {
                proof {
                    lemma_scan_keyword_prefix(arts@, first, i as int + 1);
                }
                return chars_of(k.as_str());
            }
        }
        i += 1;
    }
    assert(first.take(n as int) == first);
    Vec::new()
}

/// The longest prefix that takes at most `budget` bytes.
pub fn prefix_within_exec(s: &[char], budget: u128) -> (r: Vec<char>)
    ensures
        r@ == prefix_within(s@, budget as int),
{
    let mut out: Vec<char> = Vec::new();
    let mut left = budget;
    let mut i: usize = 0;
    assert(s@.skip(0) == s@);
    while i < s.len() && crate::text::char_utf8_len(s[i]) <= left
        invariant
            i <= s@.len(),
            left <= budget,
            prefix_within(s@, budget as int) == out@ + prefix_within(s@.skip(i as int), left as int),
            out@ == s@.take(i as int),
        decreases s@.len() - i,
    {
        let c = s[i];
        let cl = crate::text::char_utf8_len(c);
        assert(s@.skip(i as int).drop_first() == s@.skip(i + 1));
        assert(s@.skip(i as int)[0] == c);
        out.push(c);
        left = left - cl;
        i += 1;
        assert(out@ =~= s@.take(i as int));
    }
    proof {
        if i < s@.len() {
            assert(s@.skip(i as int)[0] == s@[i as int]);
        } else {
            assert(s@.skip(i as int) =~= Seq::<char>::empty());
        }
    }
    out
}

/// Generates a human-readable quest name from the artifacts at the
/// cluster's positions.
pub fn auto_name_quest(segmenter: &Segmenter, arts: &Vec<Artifact>, cluster: &Vec<usize>) -> (r:
    String)
    requires
        in_range(arts@, cluster@),
        name_is_safe(arts@, cluster@),
    ensures
        r@ == quest_name(arts@, cluster@),
{
    if cluster.len() == 0 {
        return crate::text::copy_string("Unknown Quest");
    }
    if let Some(p) = first_search_exec(arts, cluster) {
        if let Some(q) = &arts[p].extracted_query {
            let compact = compact_query_name(segmenter, q.as_str());
            if !compact.as_str().is_empty() {
                return compact;
            }
        }
    }
    let domains = quest_domains_exec(arts, cluster);
    let keyword = quest_keyword_exec(arts, cluster);
    let sep = chars_of(" + ");
    let mut out: Vec<char> = Vec::new();
    if domains.len() == 0 && keyword.len() == 0 {
        let start = match &arts[cluster[0]].visited_at {
            Some(v) => chars_of(v.as_str()),
            None => chars_of("?"),
        };
        let cut = prefix_within_exec(start.as_slice(), 10);
        append_chars(&mut out, cut.as_slice());
        let tail = chars_of(" browsing");
        append_chars(&mut out, tail.as_slice());
    } else if keyword.len() == 0 {
        let j = join_exec(&domains, sep.as_slice());
        append_chars(&mut out, j.as_slice());
    } else if domains.len() == 0 {
        append_chars(&mut out, keyword.as_slice());
    } else {
        let j = join_exec(&domains, sep.as_slice());
        append_chars(&mut out, j.as_slice());
        let colon = chars_of(": ");
        append_chars(&mut out, colon.as_slice());
        append_chars(&mut out, keyword.as_slice());
    }
    string_of(out.as_slice())
}

/// Whether naming the cluster stays clear of cutting its start time inside
/// a character.
fn name_is_safe_exec(segmenter: &Segmenter, arts: &Vec<Artifact>, cluster: &Vec<usize>) -> (r: bool)
    requires
        in_range(arts@, cluster@),
    ensures
        r == name_is_safe(arts@, cluster@),
{
    if cluster.len() == 0 {
        return true;
    }
    if let Some(p) = first_search_exec(arts, cluster) {
        if let Some(q) = &arts[p].extracted_query {
            let compact = compact_query_name(segmenter, q.as_str());
            if !compact.as_str().is_empty() {
                return true;
            }
        }
    }
    let domains = quest_domains_exec(arts, cluster);
    if domains.len() > 0 {
        return true;
    }
    let keyword = quest_keyword_exec(arts, cluster);
    if keyword.len() > 0 {
        return true;
    }
    let start = match &arts[cluster[0]].visited_at {
        Some(v) => chars_of(v.as_str()),
        None => chars_of("?"),
    };
    let cut = prefix_within_exec(start.as_slice(), 10);
    let whole = utf8_length(start.as_slice());
    let bound: u128 = if whole < 10 {
        whole
    } else {
        10
    };
    utf8_length(cut.as_slice()) == bound
}

/// The quests hidden in a visit history, as [`plan_quests`] finds them;
/// none when naming one of them would cut its start time inside a
/// character.
pub fn try_plan_quests(segmenter: &Segmenter, arts: &Vec<Artifact>, times: &Vec<i64>) -> (r: Option<
    Vec<QuestPlan>,
>)
    requires
        arts@.len() == times@.len(),
    ensures
        r is Some <==> names_are_safe(arts@, times@),
        r matches Some(plans) ==> {
            &&& plans@.len() == quest_clusters(arts@, times@).len()
            &&& forall|i: int|
                0 <= i < plans@.len() ==> plan_matches(
                    arts@,
                    quest_clusters(arts@, times@)[i],
                    #[trigger] plans@[i],
                )
        },
{
    let (cs, flags) = cluster_artifacts(segmenter, arts, times);
    let ghost all = clusters(arts@, times@, arts@.len() as nat);
    proof {
        lemma_clusters_in_range(arts@, times@, arts@.len() as nat);
    }
    let mut i: usize = 0;
    while i < cs.len()
        invariant
            i <= cs@.len(),
            all == clusters(arts@, times@, arts@.len() as nat),
            cs@.map_values(|c: Vec<usize>| c@) == all,
            flags@.len() == cs@.len(),
            forall|j: int|
                0 <= j < flags@.len() ==> #[trigger] flags@[j] == cluster_anchored(
                    arts@,
                    times@,
                    cs@[j]@,
                ),
            forall|j: int, k: int|
                0 <= j < all.len() && 0 <= k < all[j].len() ==> #[trigger] all[j][k] < arts@.len(),
            forall|j: int|
                0 <= j < i && valid_cluster(arts@, times@, #[trigger] all[j]) ==> name_is_safe(arts@, all[j]),
        decreases cs@.len() - i,
    {
        let c = &cs[i];
        assert(c@ == all[i as int]);
        assert(in_range(arts@, c@)) by {
            assert forall|k: int| 0 <= k < c@.len() implies #[trigger] c@[k] < arts@.len() by {
                assert(all[i as int][k] < arts@.len());
            }
        }
        if c.len() >= MIN_ARTIFACTS_PER_QUEST && flags[i] && !name_is_safe_exec(segmenter, arts, c) {
            assert(!names_are_safe(arts@, times@)) by {
                assert(all.contains(c@));
            }
            return None;
        }
        i += 1;
    }
    assert(names_are_safe(arts@, times@)) by {
        assert forall|c: Seq<usize>|
            #![trigger all.contains(c)]
            all.contains(c) && valid_cluster(arts@, times@, c) implies name_is_safe(arts@, c) by {
            let j = choose|j: int| 0 <= j < all.len() && all[j] == c;
        }
    }
    Some(plan_quests(segmenter, arts, times))
}

/// A cluster becomes a quest: it holds at least three artifacts and is
/// anchored, by an anchor of its own or, when the maximum duration alone
/// split it off, by the anchored cluster before it.
pub open spec fn valid_cluster(arts: Seq<Artifact>, times: Seq<i64>, c: Seq<usize>) -> bool {
    c.len() >= MIN_ARTIFACTS_PER_QUEST && cluster_anchored(arts, times, c)
}

/// The clusters that become quests, in order.
pub open spec fn quest_clusters(arts: Seq<Artifact>, times: Seq<i64>) -> Seq<Seq<usize>> {
    clusters(arts, times, arts.len()).filter(|c: Seq<usize>| valid_cluster(arts, times, c))
}

/// Every quest cluster can be named.
pub open spec fn names_are_safe(arts: Seq<Artifact>, times: Seq<i64>) -> bool {
    forall|c: Seq<usize>|
        #![trigger clusters(arts, times, arts.len()).contains(c)]
        clusters(arts, times, arts.len()).contains(c) && valid_cluster(arts, times, c) ==> name_is_safe(
            arts,
            c,
        )
}

/// The clusters joined end to end.
pub open spec fn concat_all(cs: Seq<Seq<usize>>) -> Seq<usize>
    decreases cs.len(),
{
    if cs.len() == 0 {
        seq![]
    } else {
        concat_all(cs.drop_last()) + cs.last()
    }
}

/// Quests partition the visits: joined end to end the clusters list every
/// position once, in visit order, and none is empty.
pub proof fn lemma_clusters_partition(arts: Seq<Artifact>, times: Seq<i64>, n: nat)
    ensures
        concat_all(clusters(arts, times, n)) == Seq::new(n, |i: int| i as usize),
        forall|j: int|
            0 <= j < clusters(arts, times, n).len() ==> #[trigger] clusters(arts, times, n)[j].len()
                > 0,
    decreases n,
{
    if n > 0 {
        lemma_clusters_partition(arts, times, (n - 1) as nat);
        let cs = clusters(arts, times, (n - 1) as nat);
        let x = (n - 1) as usize;
        if cs.len() == 0 {
            assert(seq![seq![x]].drop_last() =~= Seq::<Seq<usize>>::empty());
            assert(concat_all(seq![seq![x]]) =~= concat_all(Seq::<Seq<usize>>::empty()) + seq![x]);
            assert(Seq::new(n, |i: int| i as usize) =~= seq![x]);
        } else if splits(arts, times, cs.last(), n - 1) {
            assert(cs.push(seq![x]).drop_last() == cs);
            assert(Seq::new(n, |i: int| i as usize) =~= Seq::new((n - 1) as nat, |i: int| i as usize)
                + seq![x]);
        } else {
            let u = cs.update(cs.len() - 1, cs.last().push(x));
            assert(u.drop_last() == cs.drop_last());
            assert(concat_all(cs) == concat_all(cs.drop_last()) + cs.last());
            assert(concat_all(u) =~= concat_all(cs) + seq![x]);
            assert(Seq::new(n, |i: int| i as usize) =~= Seq::new((n - 1) as nat, |i: int| i as usize)
                + seq![x]);
            assert forall|j: int| 0 <= j < u.len() implies #[trigger] u[j].len() > 0 by {
                if j < cs.len() - 1 {
                    assert(u[j] == cs[j]);
                }
            }
        }
    }
}

/// The last cluster of the first `n` artifacts ends with artifact `n - 1`.
proof fn lemma_clusters_last(arts: Seq<Artifact>, times: Seq<i64>, n: nat)
    requires
        n > 0,
    ensures
        clusters(arts, times, n).len() > 0,
        clusters(arts, times, n).last().len() > 0,
        clusters(arts, times, n).last().last() == (n - 1) as usize,
{
    let cs = clusters(arts, times, (n - 1) as nat);
    if cs.len() > 0 && !splits(arts, times, cs.last(), n - 1) {
        assert(clusters(arts, times, n).last() == cs.last().push((n - 1) as usize));
    }
}

/// A cluster is anchored exactly when it holds an anchor, or when the
/// maximum duration alone split it off the cluster before it and that
/// cluster is anchored.
pub proof fn lemma_cluster_anchored(arts: Seq<Artifact>, times: Seq<i64>, n: nat)
    requires
        n <= usize::MAX,
    ensures
        forall|j: int|
            0 <= j < clusters(arts, times, n).len() ==> cluster_anchored(
                arts,
                times,
                #[trigger] clusters(arts, times, n)[j],
            ) == (holds_anchor(arts, clusters(arts, times, n)[j]) || (j > 0 && capped_only(
                arts,
                times,
                clusters(arts, times, n)[j - 1],
                clusters(arts, times, n)[j][0] as int,
            ) && cluster_anchored(arts, times, clusters(arts, times, n)[j - 1]))),
    decreases n,
{
    if n > 0 {
        lemma_cluster_anchored(arts, times, (n - 1) as nat);
        lemma_clusters_partition(arts, times, (n - 1) as nat);
        let cs = clusters(arts, times, (n - 1) as nat);
        let u = clusters(arts, times, n);
        let x = (n - 1) as usize;
        assert((x + 1) as nat == n);
        if cs.len() == 0 {
            assert(u == seq![seq![x]]);
            assert(cluster_anchored(arts, times, u[0]) == is_anchor_spec(arts[n - 1]));
            if is_anchor_spec(arts[n - 1]) {
                assert(u[0][0] == x);
            }
        } else {
            lemma_clusters_last(arts, times, (n - 1) as nat);
            assert(cluster_anchored(arts, times, cs.last()) == anchored(arts, times, (n - 1) as nat));
            if splits(arts, times, cs.last(), n - 1) {
                assert(u == cs.push(seq![x]));
                assert forall|j: int| 0 <= j < u.len() implies cluster_anchored(
                    arts,
                    times,
                    #[trigger] u[j],
                ) == (holds_anchor(arts, u[j]) || (j > 0 && capped_only(
                    arts,
                    times,
                    u[j - 1],
                    u[j][0] as int,
                ) && cluster_anchored(arts, times, u[j - 1]))) by {
                    if j < cs.len() {
                        assert(u[j] == cs[j]);
                        if j > 0 {
                            assert(u[j - 1] == cs[j - 1]);
                        }
                    } else {
                        assert(u[j] == seq![x]);
                        assert(u[j - 1] == cs.last());
                        if is_anchor_spec(arts[n - 1]) {
                            assert(u[j][0] == x);
                        }
                    }
                }
            } else {
                let last = cs.len() - 1;
                let c = cs.last();
                let c2 = c.push(x);
                assert(u == cs.update(last, c2));
                assert(c2[0] == c[0]);
                assert(holds_anchor(arts, c2) == (holds_anchor(arts, c) || is_anchor_spec(
                    arts[n - 1],
                ))) by {
                    if holds_anchor(arts, c) {
                        let k = choose|k: int| 0 <= k < c.len() && is_anchor_spec(#[trigger] arts[c[k] as int]);
                        assert(c2[k] == c[k]);
                    }
                    if is_anchor_spec(arts[n - 1]) {
                        assert(c2[c.len() as int] == x);
                    }
                    if holds_anchor(arts, c2) {
                        let k = choose|k: int| 0 <= k < c2.len() && is_anchor_spec(#[trigger] arts[c2[k] as int]);
                        if k < c.len() {
                            assert(c2[k] == c[k]);
                        }
                    }
                }
                assert forall|j: int| 0 <= j < u.len() implies cluster_anchored(
                    arts,
                    times,
                    #[trigger] u[j],
                ) == (holds_anchor(arts, u[j]) || (j > 0 && capped_only(
                    arts,
                    times,
                    u[j - 1],
                    u[j][0] as int,
                ) && cluster_anchored(arts, times, u[j - 1]))) by {
                    if j < last {
                        assert(u[j] == cs[j]);
                        if j > 0 {
                            assert(u[j - 1] == cs[j - 1]);
                        }
                    } else {
                        assert(u[j] == c2);
                        assert(cs[j] == c);
                        if j > 0 {
                            assert(u[j - 1] == cs[j - 1]);
                        }
                    }
                }
            }
        }
    }
}

/// Within a quest, consecutive visits are at most 45 minutes apart, and no
/// visit is more than 8 hours (480 minutes) after the first.
pub proof fn lemma_clusters_bounded(arts: Seq<Artifact>, times: Seq<i64>, n: nat)
    requires
        n <= arts.len(),
        n <= times.len(),
        n <= usize::MAX,
    ensures
        forall|j: int, k: int|
            0 <= j < clusters(arts, times, n).len() && 1 <= k < clusters(arts, times, n)[j].len()
                ==> gap_minutes(
                times[clusters(arts, times, n)[j][k - 1] as int],
                times[#[trigger] clusters(arts, times, n)[j][k] as int],
            ) <= 45 && gap_minutes(
                times[clusters(arts, times, n)[j][0] as int],
                times[clusters(arts, times, n)[j][k] as int],
            ) <= 480,
    decreases n,
{
    if n > 0 {
        lemma_clusters_bounded(arts, times, (n - 1) as nat);
        lemma_clusters_partition(arts, times, (n - 1) as nat);
        let cs = clusters(arts, times, (n - 1) as nat);
        let x = (n - 1) as usize;
        if cs.len() > 0 && !splits(arts, times, cs.last(), n - 1) {
            let u = cs.update(cs.len() - 1, cs.last().push(x));
            assert(cs.last().len() > 0);
            assert forall|j: int, k: int|
                0 <= j < u.len() && 1 <= k < u[j].len() implies gap_minutes(
                times[u[j][k - 1] as int],
                times[#[trigger] u[j][k] as int],
            ) <= GAP_THRESHOLD_MINUTES && gap_minutes(times[u[j][0] as int], times[u[j][k] as int])
                <= MAX_QUEST_DURATION_HOURS * 60 by {
                if j < cs.len() - 1 {
                    assert(u[j] == cs[j]);
                } else if k < cs.last().len() {
                    assert(u[j][k] == cs[j][k]);
                    assert(u[j][k - 1] == cs[j][k - 1]);
                    assert(u[j][0] == cs[j][0]);
                }
            }
        } else if cs.len() > 0 {
            let u = cs.push(seq![x]);
            assert forall|j: int, k: int|
                0 <= j < u.len() && 1 <= k < u[j].len() implies gap_minutes(
                times[u[j][k - 1] as int],
                times[#[trigger] u[j][k] as int],
            ) <= GAP_THRESHOLD_MINUTES && gap_minutes(times[u[j][0] as int], times[u[j][k] as int])
                <= MAX_QUEST_DURATION_HOURS * 60 by {
                if j < cs.len() {
                    assert(u[j] == cs[j]);
                }
            }
        }
    }
}

/// Quests are as long as they can be: each cluster after the first starts
/// with a visit more than 45 minutes after the last of the cluster before
/// it, more than 8 hours (480 minutes) after that cluster's first, or
/// whose search changes the intent of that cluster.
pub proof fn lemma_clusters_maximal(arts: Seq<Artifact>, times: Seq<i64>, n: nat)
    requires
        n <= usize::MAX,
    ensures
        forall|j: int|
            0 < j < clusters(arts, times, n).len() ==> {
                let prev = clusters(arts, times, n)[j - 1];
                let a = (#[trigger] clusters(arts, times, n)[j][0]) as int;
                ||| gap_minutes(times[prev.last() as int], times[a]) > 45
                ||| gap_minutes(times[prev[0] as int], times[a]) > 480
                ||| intent_changes(arts, prev, a)
            },
    decreases n,
{
    if n > 0 {
        lemma_clusters_maximal(arts, times, (n - 1) as nat);
        lemma_clusters_partition(arts, times, (n - 1) as nat);
        lemma_clusters_partition(arts, times, n);
        let cs = clusters(arts, times, (n - 1) as nat);
        let x = (n - 1) as usize;
        if cs.len() > 0 && !splits(arts, times, cs.last(), n - 1) {
            let u = cs.update(cs.len() - 1, cs.last().push(x));
            assert(cs.last().len() > 0);
            assert forall|j: int| 0 < j < u.len() implies splits(
                arts,
                times,
                u[j - 1],
                #[trigger] u[j][0] as int,
            ) by {
                if j < cs.len() - 1 {
                    assert(u[j] == cs[j]);
                    assert(u[j - 1] == cs[j - 1]);
                } else {
                    assert(u[j][0] == cs[j][0]);
                    assert(u[j - 1] == cs[j - 1]);
                }
            }
        } else if cs.len() > 0 {
            let u = cs.push(seq![x]);
            assert forall|j: int| 0 < j < u.len() implies splits(
                arts,
                times,
                u[j - 1],
                #[trigger] u[j][0] as int,
            ) by {
                if j < cs.len() {
                    assert(u[j] == cs[j]);
                    assert(u[j - 1] == cs[j - 1]);
                }
            }
        }
    }
}

/// Positions increase along each cluster and from each cluster to the
/// next: no position occurs twice.
pub open spec fn ordered_clusters(cs: Seq<Seq<usize>>) -> bool {
    forall|j1: int, k1: int, j2: int, k2: int|
        0 <= j1 <= j2 < cs.len() && 0 <= k1 < cs[j1].len() && 0 <= k2 < cs[j2].len() && (j1 < j2
            || k1 < k2) ==> #[trigger] cs[j1][k1] < #[trigger] cs[j2][k2]
}

proof fn lemma_clusters_ordered(arts: Seq<Artifact>, times: Seq<i64>, n: nat)
    requires
        n <= usize::MAX,
    ensures
        ordered_clusters(clusters(arts, times, n)),
    decreases n,
{
    if n > 0 {
        lemma_clusters_ordered(arts, times, (n - 1) as nat);
        lemma_clusters_in_range(arts, times, (n - 1) as nat);
        let cs = clusters(arts, times, (n - 1) as nat);
        let x = (n - 1) as usize;
        if cs.len() == 0 {
        } else if splits(arts, times, cs.last(), n - 1) {
            let u = cs.push(seq![x]);
            assert forall|j1: int, k1: int, j2: int, k2: int|
                0 <= j1 <= j2 < u.len() && 0 <= k1 < u[j1].len() && 0 <= k2 < u[j2].len() && (j1
                    < j2 || k1 < k2) implies #[trigger] u[j1][k1] < #[trigger] u[j2][k2] by {
                if j2 < cs.len() {
                    assert(u[j1] == cs[j1] && u[j2] == cs[j2]);
                } else {
                    assert(u[j1] == cs[j1]);
                    assert(cs[j1][k1] < n - 1);
                }
            }
        } else {
            let last = cs.len() - 1;
            let u = cs.update(last, cs.last().push(x));
            assert forall|j1: int, k1: int, j2: int, k2: int|
                0 <= j1 <= j2 < u.len() && 0 <= k1 < u[j1].len() && 0 <= k2 < u[j2].len() && (j1
                    < j2 || k1 < k2) implies #[trigger] u[j1][k1] < #[trigger] u[j2][k2] by {
                if j2 < last {
                    assert(u[j1] == cs[j1] && u[j2] == cs[j2]);
                } else if j1 < last {
                    assert(u[j1] == cs[j1]);
                    if k2 < cs[last].len() {
                        assert(u[j2][k2] == cs[last][k2]);
                    } else {
                        assert(cs[j1][k1] < n - 1);
                    }
                } else {
                    if k2 < cs[last].len() {
                        assert(u[j1][k1] == cs[last][k1]);
                        assert(u[j2][k2] == cs[last][k2]);
                    } else {
                        assert(u[j1][k1] == cs[last][k1]);
                        assert(cs[last][k1] < n - 1);
                    }
                }
            }
        }
    }
}

proof fn lemma_filter_ordered(arts: Seq<Artifact>, times: Seq<i64>, cs: Seq<Seq<usize>>)
    requires
        ordered_clusters(cs),
    ensures
        ordered_clusters(cs.filter(|c: Seq<usize>| valid_cluster(arts, times, c))),
    decreases cs.len(),
{
    let p = |c: Seq<usize>| valid_cluster(arts, times, c);
    if cs.len() > 0 {
        let pre = cs.drop_last();
        assert(ordered_clusters(pre)) by {
            assert forall|j1: int, k1: int, j2: int, k2: int|
                0 <= j1 <= j2 < pre.len() && 0 <= k1 < pre[j1].len() && 0 <= k2 < pre[j2].len()
                    && (j1 < j2 || k1 < k2) implies #[trigger] pre[j1][k1] < #[trigger] pre[j2][k2] by {
                assert(pre[j1] == cs[j1] && pre[j2] == cs[j2]);
            }
        }
        lemma_filter_ordered(arts, times, pre);
        reveal_with_fuel(Seq::filter, 1);
        let f = pre.filter(p);
        if p(cs.last()) {
            let g = f.push(cs.last());
            assert(cs.filter(p) == g);
            assert forall|j1: int, k1: int, j2: int, k2: int|
                0 <= j1 <= j2 < g.len() && 0 <= k1 < g[j1].len() && 0 <= k2 < g[j2].len() && (j1
                    < j2 || k1 < k2) implies #[trigger] g[j1][k1] < #[trigger] g[j2][k2] by {
                if j2 < f.len() {
                    assert(g[j1] == f[j1] && g[j2] == f[j2]);
                } else if j1 < f.len() {
                    assert(g[j1] == f[j1]);
                    assert(f.contains(f[j1]));
                    pre.lemma_filter_contains_rev(p, f[j1]);
                    let i = choose|i: int| 0 <= i < pre.len() && pre[i] == f[j1];
                    assert(cs[i] == f[j1]);
                    assert(g[j2] == cs[cs.len() - 1]);
                } else {
                    assert(g[j1] == cs[cs.len() - 1] && g[j2] == cs[cs.len() - 1]);
                }
            }
        } else {
            assert(cs.filter(p) == f);
        }
    }
}

/// Quests never share an artifact, and list their artifacts in visit
/// order, one quest after the other.
pub proof fn lemma_quests_ordered(arts: Seq<Artifact>, times: Seq<i64>)
    requires
        arts.len() <= usize::MAX,
    ensures
        ordered_clusters(quest_clusters(arts, times)),
{
    lemma_clusters_ordered(arts, times, arts.len());
    lemma_filter_ordered(arts, times, clusters(arts, times, arts.len()));
}

/// Every cluster position names one of the first `n` artifacts.
proof fn lemma_clusters_in_range(arts: Seq<Artifact>, times: Seq<i64>, n: nat)
    ensures
        forall|j: int, k: int|
            0 <= j < clusters(arts, times, n).len() && 0 <= k < clusters(arts, times, n)[j].len()
                ==> #[trigger] clusters(arts, times, n)[j][k] < n,
    decreases n,
{
    if n > 0 {
        lemma_clusters_in_range(arts, times, (n - 1) as nat);
        let cs = clusters(arts, times, (n - 1) as nat);
        let x = (n - 1) as usize;
        if cs.len() > 0 && !splits(arts, times, cs.last(), n - 1) {
            let u = cs.update(cs.len() - 1, cs.last().push(x));
            assert forall|j: int, k: int| 0 <= j < u.len() && 0 <= k < u[j].len() implies #[trigger] u[j][k]
                < n by {
                if j < cs.len() - 1 {
                    assert(u[j] == cs[j]);
                } else if k < cs.last().len() {
                    assert(u[j][k] == cs[j][k]);
                }
            }
        } else if cs.len() > 0 {
            let u = cs.push(seq![x]);
            assert forall|j: int, k: int| 0 <= j < u.len() && 0 <= k < u[j].len() implies #[trigger] u[j][k]
                < n by {
                if j < cs.len() {
                    assert(u[j] == cs[j]);
                }
            }
        }
    }
}

/// A quest to be stored: the positions of its artifacts in visit order,
/// which of them are anchors, its first and last visit, and its name.
pub struct QuestPlan {
    pub members: Vec<usize>,
    pub anchors: Vec<bool>,
    pub started_at: Option<String>,
    pub ended_at: Option<String>,
    pub auto_name: String,
}

/// The plan of one quest cluster.
pub open spec fn plan_matches(arts: Seq<Artifact>, c: Seq<usize>, q: QuestPlan) -> bool {
    &&& q.members@ == c
    &&& q.anchors@.len() == c.len()
    &&& forall|k: int| 0 <= k < c.len() ==> #[trigger] q.anchors@[k] == is_anchor_spec(arts[c[k] as int])
    &&& q.started_at == arts[c[0] as int].visited_at
    &&& q.ended_at == arts[c.last() as int].visited_at
    &&& q.auto_name@ == quest_name(arts, c)
}

/// The quests hidden in a visit history: the anchored clusters that hold at
/// least three artifacts (see [`valid_cluster`]), each with its anchors,
/// time span and name. `times[i]`
/// is the visit of `arts[i]` in milliseconds; the artifacts are in visit
/// order.
pub fn plan_quests(segmenter: &Segmenter, arts: &Vec<Artifact>, times: &Vec<i64>) -> (r: Vec<
    QuestPlan,
>)
    requires
        arts@.len() == times@.len(),
        names_are_safe(arts@, times@),
    ensures
        r@.len() == quest_clusters(arts@, times@).len(),
        forall|i: int|
            0 <= i < r@.len() ==> plan_matches(arts@, quest_clusters(arts@, times@)[i], #[trigger] r@[i]),
        forall|i: int| 0 <= i < r@.len() ==> (#[trigger] r@[i]).members@.len() >= 3,
        forall|i: int|
            0 <= i < r@.len() ==> cluster_anchored(arts@, times@, (#[trigger] r@[i]).members@),
{
    let (cs, flags) = cluster_artifacts(segmenter, arts, times);
    let ghost all = clusters(arts@, times@, arts@.len() as nat);
    proof {
        lemma_clusters_in_range(arts@, times@, arts@.len() as nat);
        lemma_clusters_partition(arts@, times@, arts@.len() as nat);
    }
    let mut r: Vec<QuestPlan> = Vec::new();
    let mut i: usize = 0;
    while i < cs.len()
        invariant
            i <= cs@.len(),
            all == clusters(arts@, times@, arts@.len() as nat),
            cs@.map_values(|c: Vec<usize>| c@) == all,
            flags@.len() == cs@.len(),
            forall|j: int|
                0 <= j < flags@.len() ==> #[trigger] flags@[j] == cluster_anchored(
                    arts@,
                    times@,
                    cs@[j]@,
                ),
            forall|j: int, k: int|
                0 <= j < all.len() && 0 <= k < all[j].len() ==> #[trigger] all[j][k] < arts@.len(),
            forall|j: int| 0 <= j < all.len() ==> #[trigger] all[j].len() > 0,
            names_are_safe(arts@, times@),
            r@.len() == all.take(i as int).filter(|c: Seq<usize>| valid_cluster(arts@, times@, c)).len(),
            forall|m: int|
                0 <= m < r@.len() ==> plan_matches(
                    arts@,
                    all.take(i as int).filter(|c: Seq<usize>| valid_cluster(arts@, times@, c))[m],
                    #[trigger] r@[m],
                ),
        decreases cs@.len() - i,
    {
        proof {
            assert(all.take(i + 1).drop_last() == all.take(i as int));
            reveal_with_fuel(Seq::filter, 1);
        }
        let c = &cs[i];
        assert(c@ == all[i as int]);
        assert(in_range(arts@, c@)) by {
            assert forall|k: int| 0 <= k < c@.len() implies #[trigger] c@[k] < arts@.len() by {
                assert(all[i as int][k] < arts@.len());
            }
        }
        let ghost before = r@;
        if c.len() >= MIN_ARTIFACTS_PER_QUEST && flags[i] {
            assert(all.contains(c@)) by {
                assert(all[i as int] == c@);
            }
            let mut anchors: Vec<bool> = Vec::new();
            let mut k: usize = 0;
            while k < c.len()
                invariant
                    k <= c@.len(),
                    in_range(arts@, c@),
                    anchors@.len() == k,
                    forall|m: int|
                        0 <= m < k ==> #[trigger] anchors@[m] == is_anchor_spec(arts@[c@[m] as int]),
                decreases c@.len() - k,
            {
                anchors.push(is_anchor(&arts[c[k]]));
                k += 1;
            }
            let name = auto_name_quest(segmenter, arts, c);
            let plan = QuestPlan {
                members: c.clone(),
                anchors,
                started_at: crate::text::clone_opt(&arts[c[0]].visited_at),
                ended_at: crate::text::clone_opt(&arts[c[c.len() - 1]].visited_at),
                auto_name: name,
            };
            r.push(plan);
            assert(all.take(i + 1).filter(|c: Seq<usize>| valid_cluster(arts@, times@, c)) == all.take(
                i as int,
            ).filter(|c: Seq<usize>| valid_cluster(arts@, times@, c)).push(c@));
        }
        i += 1;
    }
    assert(all.take(cs@.len() as int) == all);
    proof {
        let q = all.filter(|c: Seq<usize>| valid_cluster(arts@, times@, c));
        assert forall|m: int| 0 <= m < r@.len() implies (#[trigger] r@[m]).members@.len()
            >= MIN_ARTIFACTS_PER_QUEST && cluster_anchored(arts@, times@, r@[m].members@) by {
            assert(plan_matches(arts@, q[m], r@[m]));
            all.lemma_filter_pred(|c: Seq<usize>| valid_cluster(arts@, times@, c), m);
        }
    }
    r
}


/// Planning a history again gives the same quests: two plans that both
/// meet the contract of [`plan_quests`] agree quest by quest on members,
/// anchors, time span and name, so regenerating replaces the quests with
/// equal ones.
pub proof fn lemma_replanning_agrees(
    arts: Seq<Artifact>,
    times: Seq<i64>,
    first: Seq<QuestPlan>,
    second: Seq<QuestPlan>,
)
    requires
        first.len() == quest_clusters(arts, times).len(),
        second.len() == quest_clusters(arts, times).len(),
        forall|i: int|
            0 <= i < first.len() ==> plan_matches(arts, quest_clusters(arts, times)[i], #[trigger] first[i]),
        forall|i: int|
            0 <= i < second.len() ==> plan_matches(arts, quest_clusters(arts, times)[i], #[trigger] second[i]),
    ensures
        first.len() == second.len(),
        forall|i: int|
            0 <= i < first.len() ==> {
                &&& (#[trigger] first[i]).members@ == second[i].members@
                &&& first[i].anchors@ == second[i].anchors@
                &&& first[i].started_at == second[i].started_at
                &&& first[i].ended_at == second[i].ended_at
                &&& first[i].auto_name@ == second[i].auto_name@
            },
{
    assert forall|i: int| 0 <= i < first.len() implies {
        &&& (#[trigger] first[i]).members@ == second[i].members@
        &&& first[i].anchors@ == second[i].anchors@
        &&& first[i].started_at == second[i].started_at
        &&& first[i].ended_at == second[i].ended_at
        &&& first[i].auto_name@ == second[i].auto_name@
    } by {
        let c = quest_clusters(arts, times)[i];
        assert(plan_matches(arts, c, first[i]));
        assert(plan_matches(arts, c, second[i]));
        assert(first[i].anchors@ =~= second[i].anchors@);
    }
}

/// The query that opened a quest: that of its first search page (none when
/// that page has no query), or none when it has no search page.
pub open spec fn origin_query(arts: Seq<Artifact>) -> Option<Seq<char>>
    decreases arts.len(),
{
    if arts.len() == 0 {
        None
    } else if is_search(arts[0]) {
        match arts[0].extracted_query {
            Some(q) => Some(q@),
            None => None,
        }
    } else {
        origin_query(arts.drop_first())
    }
}

/// The ids of the anchors, in order.
pub open spec fn anchor_ids(arts: Seq<Artifact>) -> Seq<Seq<char>>
    decreases arts.len(),
{
    if arts.len() == 0 {
        seq![]
    } else if is_anchor_spec(arts.last()) {
        anchor_ids(arts.drop_last()).push(arts.last().id@)
    } else {
        anchor_ids(arts.drop_last())
    }
}

/// The domains of the artifacts that have one, in order.
pub open spec fn domain_list(arts: Seq<Artifact>) -> Seq<Seq<char>>
    decreases arts.len(),
{
    if arts.len() == 0 {
        seq![]
    } else {
        match arts.last().domain {
            Some(d) => domain_list(arts.drop_last()).push(d@),
            None => domain_list(arts.drop_last()),
        }
    }
}

/// What a visit weighs: its visit count, and at least one.
pub open spec fn visit_weight(a: Artifact) -> int {
    if a.visit_count >= 1 {
        a.visit_count as int
    } else {
        1
    }
}

/// The weight of each entry of [`domain_list`].
pub open spec fn domain_weights(arts: Seq<Artifact>) -> Seq<u128>
    decreases arts.len(),
{
    if arts.len() == 0 {
        seq![]
    } else {
        match arts.last().domain {
            Some(_) => domain_weights(arts.drop_last()).push(visit_weight(arts.last()) as u128),
            None => domain_weights(arts.drop_last()),
        }
    }
}

/// The weighted visits of domain `d`.
pub open spec fn domain_visits(arts: Seq<Artifact>, d: Seq<char>) -> int {
    crate::rank::weight_of(domain_list(arts), domain_weights(arts), d) as int
}

/// The distinct domains ranked by weighted visits.
pub open spec fn domain_keys(arts: Seq<Artifact>) -> Seq<(u128, u128)> {
    let d = crate::rank::distinct(domain_list(arts));
    Seq::new(d.len(), |i: int| (domain_visits(arts, d[i]) as u128, 0u128))
}

/// The five most visited domains with their weighted visits, most visited
/// first (the first seen first among equals).
pub open spec fn top_domains(arts: Seq<Artifact>) -> Seq<(Seq<char>, int)> {
    let d = crate::rank::distinct(domain_list(arts));
    crate::rank::top_k_indices(domain_keys(arts), 5).map_values(
        |i: usize| (d[i as int], domain_visits(arts, d[i as int])),
    )
}

/// What a quest's timeline shows besides its artifacts.
pub struct QuestInsights {
    /// The query of the first search page.
    pub origin_query: Option<String>,
    /// Bookmarks, pages visited three times or more, and search pages.
    pub anchor_ids: Vec<String>,
    /// The five domains with the most weighted visits.
    pub top_domains: Vec<(String, i64)>,
}

proof fn lemma_domain_lists(arts: Seq<Artifact>)
    ensures
        domain_list(arts).len() == domain_weights(arts).len(),
        forall|k: int|
            0 <= k < domain_weights(arts).len() ==> 1 <= #[trigger] domain_weights(arts)[k]
                <= i64::MAX,
    decreases arts.len(),
{
    if arts.len() > 0 {
        lemma_domain_lists(arts.drop_last());
    }
}

/// The origin query, anchors and top domains of a quest's artifacts, given
/// in timeline order.
pub fn quest_insights(arts: &Vec<Artifact>) -> (r: QuestInsights)
    requires
        forall|d: Seq<char>| #[trigger] domain_visits(arts@, d) <= i64::MAX,
    ensures
        match r.origin_query {
            Some(q) => origin_query(arts@) == Some(q@),
            None => origin_query(arts@) is None,
        },
        r.anchor_ids.deep_view() == anchor_ids(arts@),
        r.top_domains@.len() == top_domains(arts@).len(),
        forall|i: int|
            0 <= i < r.top_domains@.len() ==> (#[trigger] r.top_domains@[i]).0@ == top_domains(
                arts@,
            )[i].0 && r.top_domains@[i].1 == top_domains(arts@)[i].1,
        r.top_domains@.len() <= 5,
        forall|a: int, b: int|
            0 <= a < b < r.top_domains@.len() ==> (#[trigger] r.top_domains@[a]).1
                >= (#[trigger] r.top_domains@[b]).1,
{
    let mut origin: Option<String> = None;
    let mut found_search = false;
    let mut anchors: Vec<String> = Vec::new();
    let mut domains: Vec<Vec<char>> = Vec::new();
    let mut weights: Vec<u128> = Vec::new();
    let mut i: usize = 0;
    assert(arts@.skip(0) == arts@);
    while i < arts.len()
        invariant
            i <= arts@.len(),
            found_search ==> match origin {
                Some(q) => origin_query(arts@) == Some(q@),
                None => origin_query(arts@) is None,
            },
            !found_search ==> origin_query(arts@) == origin_query(arts@.skip(i as int))
                && origin is None,
            anchors.deep_view() == anchor_ids(arts@.take(i as int)),
            views(domains@) == domain_list(arts@.take(i as int)),
            weights@ == domain_weights(arts@.take(i as int)),
        decreases arts@.len() - i,
    {
        let ghost pre = arts@.take(i as int);
        assert(arts@.take(i + 1).drop_last() == pre);
        assert(arts@.take(i + 1).last() == arts@[i as int]);
        let a = &arts[i];
        if !found_search && opt_is(&a.page_category, "search_query") {
            assert(arts@.skip(i as int)[0] == arts@[i as int]);
            found_search = true;
            origin = crate::text::clone_opt(&a.extracted_query);
        } else if !found_search {
            assert(arts@.skip(i as int).drop_first() == arts@.skip(i + 1));
        }
        if is_anchor(a) {
            anchors.push(a.id.clone());
        }
        if let Some(d) = &a.domain {
            domains.push(chars_of(d.as_str()));
            let w: i64 = if a.visit_count >= 1 {
                a.visit_count
            } else {
                1
            };
            weights.push(w as u128);
        }
        i += 1;
        assert(views(domains@) =~= domain_list(arts@.take(i as int)));
        assert(anchors.deep_view() =~= anchor_ids(arts@.take(i as int)));
        assert(weights@ =~= domain_weights(arts@.take(i as int)));
    }
    assert(arts@.take(arts@.len() as int) == arts@);
    if !found_search {
        assert(arts@.skip(i as int) =~= Seq::<Artifact>::empty());
    }
    proof {
        lemma_domain_lists(arts@);
    }
    let counted = crate::rank::tally_weighted(&domains, &weights);
    let ghost d = crate::rank::distinct(domain_list(arts@));
    let mut keys: Vec<(u128, u128)> = Vec::new();
    let mut k: usize = 0;
    while k < counted.len()
        invariant
            k <= counted@.len() == d.len(),
            d == crate::rank::distinct(domain_list(arts@)),
            views(domains@) == domain_list(arts@),
            weights@ == domain_weights(arts@),
            forall|m: int|
                0 <= m < counted@.len() ==> (#[trigger] counted@[m]).0@ == d[m] && counted@[m].1
                    == domain_visits(arts@, d[m]),
            keys@ =~= domain_keys(arts@).take(k as int),
        decreases counted@.len() - k,
    {
        keys.push((counted[k].1, 0));
        k += 1;
    }
    assert(keys@ =~= domain_keys(arts@));
    let best = crate::rank::top_k(&keys, 5);
    let mut top: Vec<(String, i64)> = Vec::new();
    let mut j: usize = 0;
    while j < best.len()
        invariant
            j <= best@.len(),
            best@ == crate::rank::top_k_indices(domain_keys(arts@), 5),
            crate::rank::is_top_k(domain_keys(arts@), 5, best@),
            counted@.len() == d.len() == domain_keys(arts@).len(),
            d == crate::rank::distinct(domain_list(arts@)),
            forall|m: int|
                0 <= m < counted@.len() ==> (#[trigger] counted@[m]).0@ == d[m] && counted@[m].1
                    == domain_visits(arts@, d[m]),
            forall|dd: Seq<char>| #[trigger] domain_visits(arts@, dd) <= i64::MAX,
            top@.len() == j,
            forall|m: int|
                0 <= m < j ==> (#[trigger] top@[m]).0@ == top_domains(arts@)[m].0 && top@[m].1
                    == top_domains(arts@)[m].1,
        decreases best@.len() - j,
    {
        let b = best[j];
        assert(b < counted@.len());
        let name = string_of(counted[b].0.as_slice());
        assert(domain_visits(arts@, d[b as int]) <= i64::MAX);
        let w = counted[b].1 as i64;
        top.push((name, w));
        j += 1;
    }
    proof {
        let keys = domain_keys(arts@);
        assert forall|a: int, b: int|
            0 <= a < b < top@.len() implies (#[trigger] top@[a]).1 >= (#[trigger] top@[b]).1 by {
            assert(crate::rank::ahead(keys, best@[a] as int, best@[b] as int));
            assert(domain_visits(arts@, d[best@[a] as int]) <= i64::MAX);
            assert(domain_visits(arts@, d[best@[b] as int]) <= i64::MAX);
        }
    }
    QuestInsights { origin_query: origin, anchor_ids: anchors, top_domains: top }
}


/// A stored quest as regeneration sees it: its id and its status.
pub struct StoredQuest {
    pub id: String,
    pub status: String,
}

/// A quest the clustering made and nobody confirmed.
pub open spec fn is_automatic(q: StoredQuest) -> bool {
    q.status@ == "auto"@
}

/// The ids of the automatic quests, in store order.
pub open spec fn automatic_ids(stored: Seq<StoredQuest>) -> Seq<Seq<char>>
    decreases stored.len(),
{
    if stored.len() == 0 {
        seq![]
    } else {
        let p = automatic_ids(stored.drop_last());
        if is_automatic(stored.last()) {
            p.push(stored.last().id@)
        } else {
            p
        }
    }
}

/// The store once the automatic quests are replaced by `fresh`: the other
/// quests stay, in order, and the fresh ones follow.
pub open spec fn regenerated(stored: Seq<StoredQuest>, fresh: Seq<StoredQuest>) -> Seq<StoredQuest> {
    stored.filter(|q: StoredQuest| !is_automatic(q)) + fresh
}

/// The quests regeneration deletes before it stores the new plans: the
/// automatic ones, and only those.
pub fn quests_to_replace(stored: &Vec<StoredQuest>) -> (r: Vec<String>)
    ensures
        r.deep_view() == automatic_ids(stored@),
{
    let mut out: Vec<String> = Vec::new();
    let mut i: usize = 0;
    while i < stored.len()
        invariant
            i <= stored@.len(),
            out.deep_view() == automatic_ids(stored@.take(i as int)),
        decreases stored@.len() - i,
    {
        assert(stored@.take(i + 1).drop_last() == stored@.take(i as int));
        assert(stored@.take(i + 1).last() == stored@[i as int]);
        if crate::text::str_is(stored[i].status.as_str(), "auto") {
            let ghost before = out.deep_view();
            out.push(crate::text::copy_string(stored[i].id.as_str()));
            assert(out.deep_view() =~= before.push(stored@[i as int].id@));
        }
        i += 1;
    }
    assert(stored@.take(stored@.len() as int) == stored@);
    out
}

/// Filtering keeps a sequence whole when every element passes, and leaves
/// nothing when none does.
proof fn lemma_filter_all_or_none(s: Seq<StoredQuest>, p: spec_fn(StoredQuest) -> bool)
    ensures
        (forall|i: int| 0 <= i < s.len() ==> p(#[trigger] s[i])) ==> s.filter(p) == s,
        (forall|i: int| 0 <= i < s.len() ==> !p(#[trigger] s[i])) ==> s.filter(p) == Seq::<
            StoredQuest,
        >::empty(),
    decreases s.len(),
{
    if s.len() > 0 {
        let pre = s.drop_last();
        lemma_filter_all_or_none(pre, p);
        reveal_with_fuel(Seq::filter, 1);
        if forall|i: int| 0 <= i < s.len() ==> p(#[trigger] s[i]) {
            assert(forall|i: int| 0 <= i < pre.len() ==> p(#[trigger] pre[i])) by {
                assert forall|i: int| 0 <= i < pre.len() implies p(#[trigger] pre[i]) by {
                    assert(pre[i] == s[i]);
                }
            }
            assert(p(s[s.len() - 1]));
            assert(pre.push(s.last()) =~= s);
        }
        if forall|i: int| 0 <= i < s.len() ==> !p(#[trigger] s[i]) {
            assert(forall|i: int| 0 <= i < pre.len() ==> !p(#[trigger] pre[i])) by {
                assert forall|i: int| 0 <= i < pre.len() implies !p(#[trigger] pre[i]) by {
                    assert(pre[i] == s[i]);
                }
            }
            assert(!p(s[s.len() - 1]));
        }
    }
}

/// Regeneration replaces only the automatic quests: afterwards the
/// automatic quests are exactly the fresh ones and the others are those
/// there were, in order; so regenerating again leaves the same store as
/// regenerating once with the later plans, and the automatic quests are
/// never duplicated.
pub proof fn lemma_regeneration_replaces_automatic(
    stored: Seq<StoredQuest>,
    fresh: Seq<StoredQuest>,
    again: Seq<StoredQuest>,
)
    requires
        forall|i: int| 0 <= i < fresh.len() ==> is_automatic(#[trigger] fresh[i]),
        forall|i: int| 0 <= i < again.len() ==> is_automatic(#[trigger] again[i]),
    ensures
        regenerated(stored, fresh).filter(|q: StoredQuest| is_automatic(q)) == fresh,
        regenerated(stored, fresh).filter(|q: StoredQuest| !is_automatic(q)) == stored.filter(
            |q: StoredQuest| !is_automatic(q),
        ),
        regenerated(regenerated(stored, fresh), again) == regenerated(stored, again),
{
    let auto = |q: StoredQuest| is_automatic(q);
    let manual = |q: StoredQuest| !is_automatic(q);
    let kept = stored.filter(manual);
    assert forall|i: int| 0 <= i < kept.len() implies manual(#[trigger] kept[i]) by {
        stored.lemma_filter_pred(manual, i);
    }
    lemma_filter_all_or_none(kept, auto);
    lemma_filter_all_or_none(kept, manual);
    lemma_filter_all_or_none(fresh, auto);
    lemma_filter_all_or_none(fresh, manual);
    Seq::filter_distributes_over_add(kept, fresh, auto);
    Seq::filter_distributes_over_add(kept, fresh, manual);
    assert(kept.filter(auto) + fresh.filter(auto) =~= fresh);
    assert(kept.filter(manual) + fresh.filter(manual) =~= kept);
}

/// A stored quest as merging sees it: its id and its first visit.
pub struct QuestStart {
    pub id: String,
    pub started_at: Option<String>,
}

/// How a merge rewrites the store: the quest that stays, and the quests
/// whose artifacts move to it and which are then deleted.
pub struct MergePlan {
    pub survivor: String,
    pub absorbed: Vec<String>,
}

/// Why quests cannot be merged.
#[derive(Debug, Clone, Copy, PartialEq, Eq, Structural)]
pub enum MergeError {
    /// Fewer than two quest ids were given.
    TooFewQuests,
    /// None of the given ids names a stored quest.
    NoSuchQuest,
}

/// Quest `a` started before quest `b`: a quest with no start comes first,
/// then starts sort as text.
pub open spec fn starts_before(a: QuestStart, b: QuestStart) -> bool {
    match (a.started_at, b.started_at) {
        (None, Some(_)) => true,
        (Some(x), Some(y)) => crate::text::text_lt(x@, y@),
        _ => false,
    }
}

/// A stored quest that the merge names.
pub open spec fn is_candidate(ids: Seq<Seq<char>>, q: QuestStart) -> bool {
    ids.contains(q.id@)
}

/// `found[s]` is the first named quest that no named quest started before.
pub open spec fn is_survivor(ids: Seq<Seq<char>>, found: Seq<QuestStart>, s: int) -> bool {
    &&& 0 <= s < found.len()
    &&& is_candidate(ids, found[s])
    &&& forall|c: int|
        0 <= c < found.len() && is_candidate(ids, #[trigger] found[c]) ==> !starts_before(
            found[c],
            found[s],
        )
    &&& forall|c: int|
        0 <= c < s && is_candidate(ids, #[trigger] found[c]) ==> starts_before(found[s], found[c])
}

/// The ids other than `survivor`, in order.
pub open spec fn absorbed_ids(ids: Seq<Seq<char>>, survivor: Seq<char>) -> Seq<Seq<char>> {
    ids.filter(|x: Seq<char>| x != survivor)
}

/// What a quest's start looks like as text.
pub open spec fn start_view(q: QuestStart) -> Option<Seq<char>> {
    match q.started_at {
        Some(x) => Some(x@),
        None => None,
    }
}

proof fn lemma_starts_before_order(a: QuestStart, b: QuestStart, c: QuestStart)
    ensures
        !starts_before(a, a),
        starts_before(a, b) ==> !starts_before(b, a),
        start_view(a) != start_view(b) ==> starts_before(a, b) || starts_before(b, a),
        start_view(a) == start_view(b) ==> starts_before(a, c) == starts_before(b, c)
            && starts_before(c, a) == starts_before(c, b),
        starts_before(a, b) && starts_before(b, c) ==> starts_before(a, c),
{
    match (a.started_at, b.started_at, c.started_at) {
        (Some(x), Some(y), Some(z)) => {
            crate::text::lemma_text_lt_order(x@, y@, z@);
        },
        (Some(x), Some(y), None) => {
            crate::text::lemma_text_lt_order(x@, y@, y@);
        },
        (Some(x), None, _) => {
            crate::text::lemma_text_lt_order(x@, x@, x@);
        },
        (None, Some(y), _) => {
            crate::text::lemma_text_lt_order(y@, y@, y@);
        },
        _ => {},
    }
}

/// At most one quest is the survivor.
pub proof fn lemma_survivor_unique(ids: Seq<Seq<char>>, found: Seq<QuestStart>, s: int, t: int)
    requires
        is_survivor(ids, found, s),
        is_survivor(ids, found, t),
    ensures
        s == t,
{
    if s < t {
        lemma_starts_before_order(found[t], found[s], found[s]);
    } else if t < s {
        lemma_starts_before_order(found[s], found[t], found[t]);
    }
}

fn contains_string(list: &Vec<String>, t: &String) -> (r: bool)
    ensures
        r == list.deep_view().contains(t@),
{
    let mut k: usize = 0;
    while k < list.len()
        invariant
            k <= list@.len(),
            forall|m: int| 0 <= m < k ==> list@[m]@ != t@,
        decreases list@.len() - k,
    {
        if crate::text::str_is(list[k].as_str(), t.as_str()) {
            assert(list.deep_view()[k as int] == t@);
            return true;
        }
        k += 1;
    }
    assert forall|m: int| 0 <= m < list.deep_view().len() implies list.deep_view()[m] != t@ by {
        assert(list.deep_view()[m] == list@[m]@);
    }
    false
}

fn starts_before_exec(a: &QuestStart, b: &QuestStart) -> (r: bool)
    ensures
        r == starts_before(*a, *b),
{
    match (&a.started_at, &b.started_at) {
        (None, Some(_)) => true,
        (Some(x), Some(y)) => {
            let xs = chars_of(x.as_str());
            let ys = chars_of(y.as_str());
            crate::text::text_lt_exec(xs.as_slice(), ys.as_slice())
        },
        _ => false,
    }
}

/// Plans the merge of the quests named by `quest_ids`: the one that
/// started first survives (the first of `found` among equals) and every
/// other id is absorbed. `found` holds the stored quests; those whose id
/// is not named are ignored.
pub fn plan_merge(quest_ids: &Vec<String>, found: &Vec<QuestStart>) -> (r: Result<
    MergePlan,
    MergeError,
>)
    ensures
        quest_ids@.len() < 2 <==> r == Err::<MergePlan, MergeError>(MergeError::TooFewQuests),
        r == Err::<MergePlan, MergeError>(MergeError::NoSuchQuest) <==> quest_ids@.len() >= 2
            && forall|c: int| 0 <= c < found@.len() ==> !is_candidate(quest_ids.deep_view(), #[trigger] found@[c]),
        r matches Ok(plan) ==> exists|s: int|
            is_survivor(quest_ids.deep_view(), found@, s) && plan.survivor@ == found@[s].id@
                && plan.absorbed.deep_view() == absorbed_ids(quest_ids.deep_view(), plan.survivor@),
        r matches Ok(plan) ==> !plan.absorbed.deep_view().contains(plan.survivor@) && forall|k: int|
            0 <= k < quest_ids@.len() && quest_ids@[k]@ != plan.survivor@
                ==> plan.absorbed.deep_view().contains(#[trigger] quest_ids@[k]@),
{
    if quest_ids.len() < 2 {
        return Err(MergeError::TooFewQuests);
    }
    let ghost ids = quest_ids.deep_view();
    let mut best: Option<usize> = None;
    let mut c: usize = 0;
    while c < found.len()
        invariant
            c <= found@.len(),
            ids == quest_ids.deep_view(),
            best is None ==> forall|m: int| 0 <= m < c ==> !is_candidate(ids, #[trigger] found@[m]),
            best matches Some(b) ==> b < c && is_candidate(ids, found@[b as int]) && (forall|m: int|
                0 <= m < c && is_candidate(ids, #[trigger] found@[m]) ==> !starts_before(
                    found@[m],
                    found@[b as int],
                )) && (forall|m: int|
                0 <= m < b && is_candidate(ids, #[trigger] found@[m]) ==> starts_before(
                    found@[b as int],
                    found@[m],
                )),
        decreases found@.len() - c,
    {
        if contains_string(quest_ids, &found[c].id) {
            match best {
                None => {
                    proof {
                        lemma_starts_before_order(found@[c as int], found@[c as int], found@[c as int]);
                    }
                    best = Some(c);
                },
                Some(b) => {
                    if starts_before_exec(&found[c], &found[b]) {
                        proof {
                            lemma_starts_before_order(found@[c as int], found@[c as int], found@[c as int]);
                            assert forall|m: int|
                                0 <= m < c + 1 && is_candidate(ids, #[trigger] found@[m])
                                    implies !starts_before(found@[m], found@[c as int]) by {
                                lemma_starts_before_order(found@[m], found@[c as int], found@[b as int]);
                            }
                            assert forall|m: int|
                                0 <= m < c && is_candidate(ids, #[trigger] found@[m])
                                    implies starts_before(found@[c as int], found@[m]) by {
                                lemma_starts_before_order(found@[b as int], found@[m], found@[c as int]);
                                lemma_starts_before_order(found@[c as int], found@[b as int], found@[m]);
                            }
                        }
                        best = Some(c);
                    }
                },
            }
        } else {
            proof {
                if let Some(b) = best {
                    assert(!is_candidate(ids, found@[c as int]));
                }
            }
        }
        c += 1;
    }
    match best {
        None => Err(MergeError::NoSuchQuest),
        Some(b) => {
            let survivor = found[b].id.clone();
            let mut absorbed: Vec<String> = Vec::new();
            let mut k: usize = 0;
            while k < quest_ids.len()
                invariant
                    k <= quest_ids@.len(),
                    ids == quest_ids.deep_view(),
                    absorbed.deep_view() == absorbed_ids(ids.take(k as int), survivor@),
                decreases quest_ids@.len() - k,
            {
                proof {
                    assert(ids.take(k + 1).drop_last() == ids.take(k as int));
                    reveal_with_fuel(Seq::filter, 1);
                }
                if !crate::text::str_is(quest_ids[k].as_str(), survivor.as_str()) {
                    absorbed.push(quest_ids[k].clone());
                }
                k += 1;
                assert(absorbed.deep_view() =~= absorbed_ids(ids.take(k as int), survivor@));
            }
            assert(ids.take(quest_ids@.len() as int) == ids);
            assert(is_survivor(ids, found@, b as int));
            proof {
                let pred = |x: Seq<char>| x != survivor@;
                let f = ids.filter(pred);
                assert(absorbed.deep_view() == f);
                if f.contains(survivor@) {
                    let k = choose|k: int| 0 <= k < f.len() && f[k] == survivor@;
                    ids.lemma_filter_pred(pred, k);
                }
                assert forall|k: int|
                    0 <= k < quest_ids@.len() && quest_ids@[k]@ != survivor@ implies f.contains(
                    #[trigger] quest_ids@[k]@,
                ) by {
                    assert(ids[k] == quest_ids@[k]@);
                    ids.lemma_filter_contains(pred, k);
                }
            }
            Ok(MergePlan { survivor, absorbed })
        },
    }
}

} // verus!
