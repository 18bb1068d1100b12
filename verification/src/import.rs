//! Browser imports: where Edge and Chrome keep their data, the domain of a
//! URL, Chrome timestamps, the bookmark tree and history rows turned into
//! artifacts, and the tally of an import.

use vstd::prelude::*;
use chrono::TimeZone;
use crate::models::{Artifact, BrowserInfo, ImportStats};
use crate::normalizer::strip_www;
use crate::text::{
    chars_of, clone_opt, find, find_exec, lowercase, opt_text, slice_vec, string_of, text_of,
    text_or_empty, to_lowercase,
};

verus! {

// ── Domains ────────────────────────────────────────────────────────────────
/// What follows the first `://` of `s`, up to the next `://`.
pub open spec fn after_scheme(s: Seq<char>) -> Option<Seq<char>> {
    match find(s, "://"@) {
        None => None,
        Some(i) => {
            let rest = s.skip(i + 3);
            Some(
                match find(rest, "://"@) {
                    Some(j) => rest.take(j),
                    None => rest,
                },
            )
        },
    }
}

/// `s` up to the first `c`, or all of it.
pub open spec fn up_to(s: Seq<char>, c: char) -> Seq<char> {
    match find(s, seq![c]) {
        Some(k) => s.take(k),
        None => s,
    }
}

/// The domain of a URL: its host without `www.` and port, lowercased; none
/// without a `://`.
pub open spec fn domain_of(url: Seq<char>) -> Option<Seq<char>> {
    match after_scheme(url) {
        None => None,
        Some(a) => Some(lowercase(up_to(strip_www(up_to(a, '/')), ':'))),
    }
}

fn up_to_exec(s: &[char], c: char) -> (r: Vec<char>)
    ensures
        r@ == up_to(s@, c),
{
    let pat = vec![c];
    assert(pat@ == seq![c]);
    match find_exec(s, pat.as_slice(), 0) {
        Some(k) => {
            proof {
                crate::text::lemma_find_from_props(s@, seq![c], 0);
            }
            slice_vec(s, 0, k)
        },
        None => slice_vec(s, 0, s.len()),
    }
}

/// The domain of a URL: the host after `://`, without a leading `www.` and
/// without a port, lowercased.
pub fn extract_domain(url: &str) -> (r: Option<String>)
    ensures
        match r {
            Some(d) => domain_of(url@) == Some(d@),
            None => domain_of(url@) is None,
        },
{
    proof {
        reveal_strlit("://");
        reveal_strlit("www.");
    }
    let s = chars_of(url);
    let sep = chars_of("://");
    let i = match find_exec(s.as_slice(), sep.as_slice(), 0) {
        Some(i) => i,
        None => return None,
    };
    proof {
        crate::text::lemma_find_from_props(s@, sep@, 0);
        assert(sep@.len() == 3);
        assert(crate::text::matches_at(s@, sep@, i as int));
    }
    let n = s.len();
    assert(i + 3 <= n);
    let rest = slice_vec(s.as_slice(), i + 3, s.len());
    assert(rest@ == s@.skip(i + 3));
    let after = match find_exec(rest.as_slice(), sep.as_slice(), 0) {
        Some(j) => {
            proof {
                crate::text::lemma_find_from_props(rest@, sep@, 0);
            }
            slice_vec(rest.as_slice(), 0, j)
        },
        None => rest,
    };
    let host = up_to_exec(after.as_slice(), '/');
    let www = chars_of("www.");
    let bare = if crate::text::starts_with_exec(host.as_slice(), www.as_slice()) {
        slice_vec(host.as_slice(), 4, host.len())
    } else {
        host
    };
    let no_port = up_to_exec(bare.as_slice(), ':');
    Some(to_lowercase(string_of(no_port.as_slice()).as_str()))
}

// ── Chrome timestamps ──────────────────────────────────────────────────────
/// Seconds from 1601-01-01 (the Windows FILETIME epoch) to 1970-01-01.
pub const FILETIME_TO_UNIX_OFFSET: i64 = 11_644_473_600;

/// Division rounding toward zero, as Rust's `/` on integers.
pub open spec fn trunc_div(a: int, b: int) -> int {
    if a >= 0 {
        a / b
    } else {
        -((-a) / b)
    }
}

/// The remainder that goes with [`trunc_div`], as Rust's `%`.
pub open spec fn trunc_rem(a: int, b: int) -> int {
    a - b * trunc_div(a, b)
}

/// `i64` cast to `u32`: the value modulo 2^32.
pub open spec fn wrap_u32(v: int) -> int {
    if v >= 0 {
        v % 0x1_0000_0000
    } else {
        0x1_0000_0000 - ((-v) % 0x1_0000_0000)
    }
}

/// What `chrono` gives for `Utc.timestamp_opt(secs, nanos).single()`,
/// written with `to_rfc3339()`.
pub uninterp spec fn utc_rfc3339(secs: i64, nanos: u32) -> Option<Seq<char>>;

/// `chrono::Utc.timestamp_opt(secs, nanos).single()`, then `to_rfc3339()`.
/// Claims only that the result is [`utc_rfc3339`] of the two arguments.
#[verifier::external_body]
fn rfc3339_at(secs: i64, nanos: u32) -> (r: Option<String>)
    ensures
        match r {
            Some(s) => utc_rfc3339(secs, nanos) == Some(s@),
            None => utc_rfc3339(secs, nanos) is None,
        },
{
    let dt = chrono::Utc.timestamp_opt(secs, nanos).single()?;
    Some(dt.to_rfc3339())
}

/// The Unix seconds of a Chrome timestamp (microseconds since 1601).
pub open spec fn filetime_secs(micros: int) -> int {
    trunc_div(micros, 1_000_000) - FILETIME_TO_UNIX_OFFSET
}

/// The nanoseconds the conversion hands on: the microsecond remainder
/// times 1000, as a `u32`.
pub open spec fn filetime_nanos(micros: int) -> int {
    wrap_u32(trunc_rem(micros, 1_000_000) * 1000)
}

/// A Chrome timestamp (microseconds since 1601-01-01 UTC) as RFC 3339
/// text; none when `chrono` cannot represent it.
pub fn filetime_micros_to_iso(micros: i64) -> (r: Option<String>)
    ensures
        match r {
            Some(s) => utc_rfc3339(
                filetime_secs(micros as int) as i64,
                filetime_nanos(micros as int) as u32,
            ) == Some(s@),
            None => utc_rfc3339(
                filetime_secs(micros as int) as i64,
                filetime_nanos(micros as int) as u32,
            ) is None,
        },
{
    let wide = micros as i128;
    let q: i128 = if wide >= 0 {
        wide / 1_000_000
    } else {
        -((-wide) / 1_000_000)
    };
    let rem: i128 = wide - 1_000_000 * q;
    let secs = (q - FILETIME_TO_UNIX_OFFSET as i128) as i64;
    let v: i128 = rem * 1000;
    let nanos: u32 = if v >= 0 {
        v as u32
    } else {
        (v + 0x1_0000_0000) as u32
    };
    assert(nanos as int == filetime_nanos(micros as int));
    assert(secs as int == filetime_secs(micros as int));
    rfc3339_at(secs, nanos)
}


// ── Browser profiles ───────────────────────────────────────────────────────
/// A path component that is a plain name on every platform: not empty, not
/// `.` or `..`, and without separators, a drive colon or a `?`.
pub open spec fn plain_part(p: Seq<char>) -> bool {
    &&& p.len() > 0
    &&& p != "."@
    &&& p != ".."@
    &&& forall|i: int|
        0 <= i < p.len() ==> #[trigger] p[i] != '/' && p[i] != '\\' && p[i] != ':' && p[i] != '?'
}

/// A path that starts like a Windows verbatim path (`\\?`), whose joins
/// Windows normalizes.
pub open spec fn may_be_verbatim(p: Seq<char>) -> bool {
    p.len() >= 3 && p[0] == '\\' && p[1] == '\\' && p[2] == '?'
}

/// `r` is `base` extended by the plain name `part`: `part` alone after an
/// empty `base`; no separator added after one that `base` ends in (but for
/// a `/` after `\`, which is no separator on Unix); at most one after a
/// bare drive such as `C:`; else one separator, `/` or `\`, in between.
pub open spec fn joined(base: Seq<char>, part: Seq<char>, r: Seq<char>) -> bool {
    if base.len() == 0 {
        r == part
    } else if base.last() == '/' {
        r == base + part
    } else if base.last() == '\\' {
        r == base + part || r == base + seq!['/'] + part
    } else if base.len() == 2 && base[1] == ':' {
        ||| r == base + part
        ||| r == base + seq!['/'] + part
        ||| r == base + seq!['\\'] + part
    } else {
        r == base + seq!['/'] + part || r == base + seq!['\\'] + part
    }
}

/// Joining a plain name never makes a path start like a verbatim one.
proof fn lemma_join_not_verbatim(base: Seq<char>, part: Seq<char>, r: Seq<char>)
    requires
        !may_be_verbatim(base),
        plain_part(part),
        joined(base, part, r),
    ensures
        !may_be_verbatim(r),
{
    if r.len() >= 3 && r[0] == '\\' && r[1] == '\\' && r[2] == '?' {
        if base.len() == 0 {
            assert(r[0] == part[0]);
        } else if base.len() == 1 {
            assert(r[0] == base[0]);
            if base[0] == '\\' {
                assert(r[1] == part[0] || r[1] == '/');
            }
        } else if base.len() == 2 {
            assert(r[0] == base[0] && r[1] == base[1]);
            assert(base.last() == '\\');
            assert(r[2] == part[0] || r[2] == '/');
        } else {
            assert(r[0] == base[0] && r[1] == base[1] && r[2] == base[2]);
        }
    }
}

/// `r` is `base` extended by each of `parts` in turn.
pub open spec fn path_chain(base: Seq<char>, parts: Seq<Seq<char>>, r: Seq<char>) -> bool
    decreases parts.len(),
{
    if parts.len() == 0 {
        r == base
    } else {
        exists|p: Seq<char>| path_chain(base, parts.drop_last(), p) && #[trigger] joined(p, parts.last(), r)
    }
}

/// `std::path::Path::new(base).join(part)`, as text. Claims, for a plain
/// name and a `base` that does not start like a verbatim path, what
/// `PathBuf::push` documents: `part` is appended, after a separator unless
/// `base` is empty or already ends in one. Which separator is the
/// platform's, and a bare drive (`C:`) may take none; the contract leaves
/// both open. Of a verbatim `base`, which Windows normalizes, nothing is
/// claimed.
#[verifier::external_body]
fn path_join(base: &str, part: &str) -> (r: String)
    requires
        plain_part(part@),
    ensures
        may_be_verbatim(base@) || joined(base@, part@, r@),
{
    std::path::Path::new(base).join(part).to_string_lossy().into_owned()
}

/// `bookmarks` and `history` are the files `Bookmarks` and `History` in one
/// profile folder that `base` extended by each of `parts` gives.
pub open spec fn profile_files(
    base: Seq<char>,
    parts: Seq<Seq<char>>,
    bookmarks: Seq<char>,
    history: Seq<char>,
) -> bool {
    exists|profile: Seq<char>|
        #![trigger path_chain(base, parts, profile)]
        path_chain(base, parts, profile) && joined(profile, "Bookmarks"@, bookmarks) && joined(
            profile,
            "History"@,
            history,
        )
}

/// The folders of a browser's default profile under the local data folder.
pub open spec fn profile_parts(browser_id: Seq<char>) -> Option<Seq<Seq<char>>> {
    if browser_id == "edge"@ {
        Some(seq!["Microsoft"@, "Edge"@, "User Data"@, "Default"@])
    } else if browser_id == "chrome"@ {
        Some(seq!["Google"@, "Chrome"@, "User Data"@, "Default"@])
    } else {
        None
    }
}

proof fn lemma_plain_parts()
    ensures
        plain_part("Microsoft"@),
        plain_part("Edge"@),
        plain_part("Google"@),
        plain_part("Chrome"@),
        plain_part("User Data"@),
        plain_part("Default"@),
        plain_part("Bookmarks"@),
        plain_part("History"@),
{
    reveal_strlit("Microsoft");
    reveal_strlit("Edge");
    reveal_strlit("Google");
    reveal_strlit("Chrome");
    reveal_strlit("User Data");
    reveal_strlit("Default");
    reveal_strlit("Bookmarks");
    reveal_strlit("History");
    reveal_strlit(".");
    reveal_strlit("..");
    assert("Microsoft"@.len() != "."@.len() && "Microsoft"@.len() != ".."@.len());
    assert("Edge"@.len() != "."@.len() && "Edge"@.len() != ".."@.len());
    assert("Google"@.len() != "."@.len() && "Google"@.len() != ".."@.len());
    assert("Chrome"@.len() != "."@.len() && "Chrome"@.len() != ".."@.len());
    assert("User Data"@.len() != "."@.len() && "User Data"@.len() != ".."@.len());
    assert("Default"@.len() != "."@.len() && "Default"@.len() != ".."@.len());
    assert("Bookmarks"@.len() != "."@.len() && "Bookmarks"@.len() != ".."@.len());
    assert("History"@.len() != "."@.len() && "History"@.len() != ".."@.len());
}

fn join_all(base: &str, parts: &Vec<&str>) -> (r: String)
    requires
        forall|i: int| 0 <= i < parts@.len() ==> plain_part(#[trigger] parts@[i]@),
    ensures
        !may_be_verbatim(base@) ==> path_chain(base@, parts@.map_values(|p: &str| p@), r@)
            && !may_be_verbatim(r@),
{
    let ghost ps = parts@.map_values(|p: &str| p@);
    let mut cur = crate::text::copy_string(base);
    let mut i: usize = 0;
    while i < parts.len()
        invariant
            i <= parts@.len(),
            ps == parts@.map_values(|p: &str| p@),
            forall|k: int| 0 <= k < parts@.len() ==> plain_part(#[trigger] parts@[k]@),
            !may_be_verbatim(base@) ==> path_chain(base@, ps.take(i as int), cur@) && !may_be_verbatim(
                cur@,
            ),
        decreases parts@.len() - i,
    {
        let next = path_join(cur.as_str(), parts[i]);
        proof {
            let t = ps.take(i + 1);
            assert(t.drop_last() == ps.take(i as int));
            assert(t.last() == parts@[i as int]@);
            if !may_be_verbatim(base@) {
                assert(joined(cur@, t.last(), next@));
                lemma_join_not_verbatim(cur@, t.last(), next@);
            }
        }
        cur = next;
        i += 1;
    }
    assert(ps.take(parts@.len() as int) == ps);
    cur
}

/// The Bookmarks and History files of a browser's default profile under
/// the local data folder `base`; none for a browser other than `edge` and
/// `chrome`.
pub fn browser_paths(base: &str, browser_id: &str) -> (r: Option<(String, String)>)
    ensures
        match r {
            None => profile_parts(browser_id@) is None,
            Some((b, h)) => profile_parts(browser_id@) matches Some(ps) && (may_be_verbatim(base@)
                || profile_files(base@, ps, b@, h@)),
        },
{
    proof {
        lemma_plain_parts();
    }
    let parts: Vec<&str> = if crate::text::str_is(browser_id, "edge") {
        vec!["Microsoft", "Edge", "User Data", "Default"]
    } else if crate::text::str_is(browser_id, "chrome") {
        vec!["Google", "Chrome", "User Data", "Default"]
    } else {
        return None;
    };
    let ghost ps = parts@.map_values(|p: &str| p@);
    assert(profile_parts(browser_id@) == Some(ps));
    let profile = join_all(base, &parts);
    let bookmarks = path_join(profile.as_str(), "Bookmarks");
    let history = path_join(profile.as_str(), "History");
    proof {
        if !may_be_verbatim(base@) {
            assert(path_chain(base@, ps, profile@));
        }
    }
    Some((bookmarks, history))
}

/// `info` describes browser `id`, named `name`, under `base`, available
/// when one of its files is among `existing`.
pub open spec fn browser_info_matches(
    info: BrowserInfo,
    base: Seq<char>,
    id: Seq<char>,
    name: Seq<char>,
    existing: Seq<Seq<char>>,
) -> bool {
    &&& info.id@ == id
    &&& info.name@ == name
    &&& profile_parts(id) matches Some(ps) && (may_be_verbatim(base) || profile_files(
        base,
        ps,
        info.bookmarks_path@,
        info.history_path@,
    ))
    &&& info.available == (existing.contains(info.bookmarks_path@) || existing.contains(
        info.history_path@,
    ))
}

fn browser_info(base: &str, id: &str, name: &str, existing: &Vec<String>) -> (r: Option<BrowserInfo>)
    ensures
        match r {
            Some(info) => browser_info_matches(info, base@, id@, name@, existing.deep_view()),
            None => profile_parts(id@) is None,
        },
{
    let (bk, hi) = match browser_paths(base, id) {
        Some(p) => p,
        None => return None,
    };
    let available = contains_text(existing, &bk) || contains_text(existing, &hi);
    Some(
        BrowserInfo {
            id: crate::text::copy_string(id),
            name: crate::text::copy_string(name),
            bookmarks_path: bk,
            history_path: hi,
            available,
        },
    )
}

fn contains_text(list: &Vec<String>, t: &String) -> (r: bool)
    ensures
        r == list.deep_view().contains(t@),
{
    let mut k: usize = 0;
    while k < list.len()
        invariant
            k <= list@.len(),
            forall|m: int| 0 <= m < k ==> list@[m]@ != t@,
        decreases list@.len() - k,
    {
        if crate::text::str_is(list[k].as_str(), t.as_str()) {
            assert(list.deep_view()[k as int] == t@);
            return true;
        }
        k += 1;
    }
    assert forall|m: int| 0 <= m < list.deep_view().len() implies list.deep_view()[m] != t@ by {
        assert(list.deep_view()[m] == list@[m]@);
    }
    false
}

/// The browsers whose data can be imported, Edge then Chrome, with their
/// profile files under the local data folder `data_dir`; none when there is
/// no such folder. `existing_paths` lists the files that exist.
pub fn detect_browsers(data_dir: Option<&str>, existing_paths: &Vec<String>) -> (r: Vec<BrowserInfo>)
    ensures
        match data_dir {
            None => r@.len() == 0,
            Some(base) => r@.len() == 2 && browser_info_matches(
                r@[0],
                base@,
                "edge"@,
                "Microsoft Edge"@,
                existing_paths.deep_view(),
            ) && browser_info_matches(
                r@[1],
                base@,
                "chrome"@,
                "Google Chrome"@,
                existing_paths.deep_view(),
            ),
        },
{
    let mut r: Vec<BrowserInfo> = Vec::new();
    let base = match data_dir {
        Some(b) => b,
        None => return r,
    };
    proof {
        reveal_strlit("edge");
        reveal_strlit("chrome");
    }
    if let Some(info) = browser_info(base, "edge", "Microsoft Edge", existing_paths) {
        r.push(info);
    }
    if let Some(info) = browser_info(base, "chrome", "Google Chrome", existing_paths) {
        r.push(info);
    }
    r
}


// ── Bookmarks ──────────────────────────────────────────────────────────────
/// A node of a Chrome/Edge bookmark file, each field present when the file
/// holds it as text (or, for `children`, as a list).
pub struct BookmarkNode {
    /// "url" | "folder"
    pub kind: Option<String>,
    pub name: Option<String>,
    pub url: Option<String>,
    /// Chrome timestamp in decimal.
    pub date_added: Option<String>,
    /// Chrome timestamp in decimal.
    pub date_last_used: Option<String>,
    pub children: Option<Vec<BookmarkNode>>,
}

/// A bookmark found in the tree.
#[derive(Debug, Clone)]
pub struct BookmarkEntry {
    pub url: String,
    pub title: Option<String>,
    /// The folders above it, joined by `/`; none at the top level.
    pub folder_path: Option<String>,
    /// When it was added, as RFC 3339 text.
    pub date_added: Option<String>,
    /// When it was last used, as RFC 3339 text.
    pub date_last_used: Option<String>,
}

/// A bookmark as its views: URL, title, folder path, added, last used.
pub type EntryView = (Seq<char>, Option<Seq<char>>, Option<Seq<char>>, Option<Seq<char>>, Option<
    Seq<char>,
>);

pub open spec fn entry_view(e: BookmarkEntry) -> EntryView {
    (e.url@, opt_text(e.title), opt_text(e.folder_path), opt_text(e.date_added), opt_text(e.date_last_used))
}

/// Whether the ASCII digits of `d` are all there is, and there is one.
pub open spec fn all_digits(d: Seq<char>) -> bool {
    d.len() > 0 && forall|i: int| 0 <= i < d.len() ==> '0' <= #[trigger] d[i] <= '9'
}

/// The number written by the decimal digits `d`.
pub open spec fn digits_value(d: Seq<char>) -> int
    decreases d.len(),
{
    if d.len() == 0 {
        0
    } else {
        10 * digits_value(d.drop_last()) + (d.last() as int - '0' as int)
    }
}

/// `i64::from_str`: an optional `+` or `-`, then decimal digits only, the
/// value within range.
pub open spec fn decimal_i64(s: Seq<char>) -> Option<i64> {
    let neg = s.len() > 0 && s[0] == '-';
    let d = if s.len() > 0 && (s[0] == '-' || s[0] == '+') {
        s.drop_first()
    } else {
        s
    };
    let v = if neg {
        -digits_value(d)
    } else {
        digits_value(d)
    };
    if all_digits(d) && i64::MIN <= v <= i64::MAX {
        Some(v as i64)
    } else {
        None
    }
}

/// The value of a run of digits never falls when more digits follow.
proof fn lemma_digits_value_grows(d: Seq<char>, i: int, j: int)
    requires
        0 <= i <= j <= d.len(),
        forall|k: int| 0 <= k < j ==> '0' <= #[trigger] d[k] <= '9',
    ensures
        0 <= digits_value(d.take(i)) <= digits_value(d.take(j)),
    decreases i, j - i,
{
    if i < j {
        lemma_digits_value_grows(d, i, j - 1);
        assert(d.take(j).drop_last() == d.take(j - 1));
        assert(d.take(j).last() == d[j - 1]);
    } else if i > 0 {
        lemma_digits_value_grows(d, i - 1, i);
    } else {
        assert(d.take(0).len() == 0);
    }
}

/// Reads a whole `i64` as `s.parse::<i64>().ok()` does: an optional `+` or
/// `-`, then decimal digits and nothing else, the value within range.
fn parse_i64(s: &str) -> (r: Option<i64>)
    ensures
        r == decimal_i64(s@),
{
    let cs = chars_of(s);
    let n = cs.len();
    let neg = n > 0 && cs[0] == '-';
    let start: usize = if n > 0 && (cs[0] == '-' || cs[0] == '+') {
        1
    } else {
        0
    };
    let ghost d = cs@.subrange(start as int, n as int);
    assert(d == if s@.len() > 0 && (s@[0] == '-' || s@[0] == '+') {
        s@.drop_first()
    } else {
        s@
    });
    if start == n {
        return None;
    }
    let mut acc: i128 = 0;
    let mut i: usize = start;
    while i < n
        invariant
            start <= i <= n == cs@.len(),
            d == cs@.subrange(start as int, n as int),
            d == if s@.len() > 0 && (s@[0] == '-' || s@[0] == '+') {
                s@.drop_first()
            } else {
                s@
            },
            neg == (s@.len() > 0 && s@[0] == '-'),
            0 <= acc <= 9223372036854775808,
            acc == digits_value(d.take(i - start)),
            forall|k: int| 0 <= k < i - start ==> '0' <= #[trigger] d[k] <= '9',
        decreases n - i,
    {
        let c = cs[i];
        assert(c == d[i - start]);
        if !('0' <= c && c <= '9') {
            assert(!all_digits(d));
            return None;
        }
        assert(d.take(i - start + 1).drop_last() == d.take(i - start));
        acc = 10 * acc + (c as i128 - '0' as i128);
        if acc > 9223372036854775808 {
            proof {
                if all_digits(d) {
                    lemma_digits_value_grows(d, i - start + 1, d.len() as int);
                    assert(d.take(d.len() as int) == d);
                }
            }
            return None;
        }
        i += 1;
    }
    assert(d.take(n - start) == d);
    let v: i128 = if neg {
        -acc
    } else {
        acc
    };
    if v > 9223372036854775807 {
        None
    } else {
        Some(v as i64)
    }
}

/// The RFC 3339 text of a Chrome timestamp written in decimal.
pub open spec fn stamp_text(s: Option<String>, positive_only: bool) -> Option<Seq<char>> {
    match s {
        None => None,
        Some(t) => match decimal_i64(t@) {
            None => None,
            Some(v) => if positive_only && v <= 0 {
                None
            } else {
                utc_rfc3339(
                    filetime_secs(v as int) as i64,
                    filetime_nanos(v as int) as u32,
                )
            },
        },
    }
}

/// A web address: `http://` or `https://`.
pub open spec fn is_web_url(u: Seq<char>) -> bool {
    crate::text::starts_with(u, "http://"@) || crate::text::starts_with(u, "https://"@)
}

/// The folder path below `folder` for a folder named `name`.
pub open spec fn sub_folder(folder: Seq<char>, name: Seq<char>) -> Seq<char> {
    if folder.len() == 0 {
        name
    } else {
        folder + seq!['/'] + name
    }
}

/// The bookmarks under `n`, which lies in `folder`, in file order: a `url`
/// node with a web address is one; a `folder` node holds those of its
/// children (a folder without a name is "Unnamed"); other nodes hold none.
pub open spec fn node_entries(n: BookmarkNode, folder: Seq<char>) -> Seq<EntryView>
    decreases n, 0nat,
{
    let kind = text_of(n.kind);
    if kind == "url"@ {
        let u = text_of(n.url);
        if u.len() == 0 || !is_web_url(u) {
            seq![]
        } else {
            seq![
                (
                    u,
                    opt_text(n.name),
                    if folder.len() == 0 {
                        None
                    } else {
                        Some(folder)
                    },
                    stamp_text(n.date_added, false),
                    stamp_text(n.date_last_used, true),
                ),
            ]
        }
    } else if kind == "folder"@ {
        let name = match n.name {
            Some(t) => t@,
            None => "Unnamed"@,
        };
        match n.children {
            Some(cs) => children_entries(cs@, sub_folder(folder, name)),
            None => seq![],
        }
    } else {
        seq![]
    }
}

/// The bookmarks under each of `cs`, in order.
pub open spec fn children_entries(cs: Seq<BookmarkNode>, folder: Seq<char>) -> Seq<EntryView>
    decreases cs, 1nat,
{
    if cs.len() == 0 {
        seq![]
    } else {
        children_entries(cs.drop_last(), folder) + node_entries(cs[cs.len() - 1], folder)
    }
}

/// Only web pages are taken from the bookmark tree: every URL taken starts
/// with `http://` or `https://`.
pub proof fn lemma_entries_are_web_pages(n: BookmarkNode, folder: Seq<char>)
    ensures
        forall|k: int|
            0 <= k < node_entries(n, folder).len() ==> crate::text::starts_with(
                (#[trigger] node_entries(n, folder)[k]).0,
                "http://"@,
            ) || crate::text::starts_with(node_entries(n, folder)[k].0, "https://"@),
    decreases n, 0nat,
{
    let kind = text_of(n.kind);
    if kind == "url"@ {
        let u = text_of(n.url);
        if !(u.len() == 0 || !is_web_url(u)) {
            assert forall|k: int| 0 <= k < node_entries(n, folder).len() implies is_web_url(
                (#[trigger] node_entries(n, folder)[k]).0,
            ) by {
                assert(k == 0);
                assert(node_entries(n, folder)[0].0 == u);
            }
        }
    } else if kind == "folder"@ {
        let name = match n.name {
            Some(t) => t@,
            None => "Unnamed"@,
        };
        match n.children {
            Some(cs) => {
                assert(decreases_to!(n => n.children));
                assert(decreases_to!(n.children => n.children->0));
                lemma_children_are_web_pages(cs@, sub_folder(folder, name));
                assert(node_entries(n, folder) == children_entries(cs@, sub_folder(folder, name)));
            },
            None => {},
        }
    }
}

/// Only web pages are taken from a list of bookmark nodes: every URL taken
/// starts with `http://` or `https://`.
pub proof fn lemma_children_are_web_pages(cs: Seq<BookmarkNode>, folder: Seq<char>)
    ensures
        forall|k: int|
            0 <= k < children_entries(cs, folder).len() ==> crate::text::starts_with(
                (#[trigger] children_entries(cs, folder)[k]).0,
                "http://"@,
            ) || crate::text::starts_with(children_entries(cs, folder)[k].0, "https://"@),
    decreases cs, 1nat,
{
    if cs.len() > 0 {
        lemma_children_are_web_pages(cs.drop_last(), folder);
        lemma_entries_are_web_pages(cs[cs.len() - 1], folder);
        let a = children_entries(cs.drop_last(), folder);
        let b = node_entries(cs[cs.len() - 1], folder);
        assert forall|k: int|
            0 <= k < children_entries(cs, folder).len() implies is_web_url(
            (#[trigger] children_entries(cs, folder)[k]).0,
        ) by {
            if k < a.len() {
                assert(children_entries(cs, folder)[k] == a[k]);
            } else {
                assert(children_entries(cs, folder)[k] == b[k - a.len()]);
            }
        }
    }
}

fn stamp_exec(s: &Option<String>, positive_only: bool) -> (r: Option<String>)
    ensures
        opt_text(r) == stamp_text(*s, positive_only),
{
    let t = match s {
        Some(t) => t,
        None => return None,
    };
    let v = match parse_i64(t.as_str()) {
        Some(v) => v,
        None => return None,
    };
    if positive_only && v <= 0 {
        return None;
    }
    filetime_micros_to_iso(v)
}

fn is_web_url_exec(u: &[char]) -> (r: bool)
    ensures
        r == is_web_url(u@),
{
    let a = chars_of("http://");
    let b = chars_of("https://");
    crate::text::starts_with_exec(u, a.as_slice()) || crate::text::starts_with_exec(u, b.as_slice())
}

/// Appends the bookmarks under `node`, which lies in `folder_path`, in file
/// order.
pub fn walk_bookmark_node(node: &BookmarkNode, folder_path: &str, out: &mut Vec<BookmarkEntry>)
    ensures
        final(out)@.map_values(|e: BookmarkEntry| entry_view(e)) == old(out)@.map_values(
            |e: BookmarkEntry| entry_view(e),
        ) + node_entries(*node, folder_path@),
    decreases node,
{
    let ghost start = out@.map_values(|e: BookmarkEntry| entry_view(e));
    let kind = text_or_empty(&node.kind);
    let url_kind = chars_of("url");
    let folder_kind = chars_of("folder");
    if crate::text::eq_chars(kind.as_slice(), url_kind.as_slice()) {
        let u = text_or_empty(&node.url);
        if u.len() == 0 || !is_web_url_exec(u.as_slice()) {
            assert(out@.map_values(|e: BookmarkEntry| entry_view(e)) =~= start + seq![]);
            return;
        }
        let folder = chars_of(folder_path);
        let entry = BookmarkEntry {
            url: string_of(u.as_slice()),
            title: clone_opt(&node.name),
            folder_path: if folder.len() == 0 {
                None
            } else {
                Some(crate::text::copy_string(folder_path))
            },
            date_added: stamp_exec(&node.date_added, false),
            date_last_used: stamp_exec(&node.date_last_used, true),
        };
        out.push(entry);
        assert(out@.map_values(|e: BookmarkEntry| entry_view(e)) =~= start + node_entries(
            *node,
            folder_path@,
        ));
    } else if crate::text::eq_chars(kind.as_slice(), folder_kind.as_slice()) {
        let name = match &node.name {
            Some(t) => chars_of(t.as_str()),
            None => chars_of("Unnamed"),
        };
        let folder = chars_of(folder_path);
        let mut path: Vec<char> = Vec::new();
        if folder.len() == 0 {
            crate::text::append_chars(&mut path, name.as_slice());
        } else {
            crate::text::append_chars(&mut path, folder.as_slice());
            path.push('/');
            crate::text::append_chars(&mut path, name.as_slice());
        }
        assert(path@ =~= sub_folder(folder_path@, name@));
        let new_path = string_of(path.as_slice());
        match &node.children {
            Some(cs) => {
                let mut i: usize = 0;
                while i < cs.len()
                    invariant
                        i <= cs@.len(),
                        node.children == Some(*cs),
                        new_path@ == sub_folder(folder_path@, name@),
                        out@.map_values(|e: BookmarkEntry| entry_view(e)) == start
                            + children_entries(cs@.take(i as int), new_path@),
                    decreases cs@.len() - i,
                {
                    proof {
                        assert(cs@.take(i + 1).drop_last() == cs@.take(i as int));
                        assert(cs@.take(i + 1)[i as int] == cs@[i as int]);
                        assert(decreases_to!(*node => node.children));
                        assert(decreases_to!(node.children => node.children->0));
                        assert(node.children->0 == *cs);
                        assert(decreases_to!(*cs => cs@));
                        assert(decreases_to!(cs@ => cs@[i as int]));
                        assert(decreases_to!(*node => cs@[i as int]));
                    }
                    walk_bookmark_node(&cs[i], new_path.as_str(), out);
                    i += 1;
                    assert(out@.map_values(|e: BookmarkEntry| entry_view(e)) =~= start
                        + children_entries(cs@.take(i as int), new_path@));
                }
                assert(cs@.take(cs@.len() as int) == cs@);
            },
            None => {
                assert(out@.map_values(|e: BookmarkEntry| entry_view(e)) =~= start + seq![]);
            },
        }
    } else {
        assert(out@.map_values(|e: BookmarkEntry| entry_view(e)) =~= start + seq![]);
    }
}

/// The bookmarks of a bookmark file, from its roots (the bookmark bar,
/// other bookmarks and synced bookmarks, those the file has, in that
/// order).
pub fn bookmark_entries(roots: &Vec<BookmarkNode>) -> (r: Vec<BookmarkEntry>)
    ensures
        r@.map_values(|e: BookmarkEntry| entry_view(e)) == children_entries(roots@, seq![]),
        forall|k: int|
            0 <= k < r@.len() ==> crate::text::starts_with(#[trigger] r@[k].url@, "http://"@)
                || crate::text::starts_with(r@[k].url@, "https://"@),
{
    let mut out: Vec<BookmarkEntry> = Vec::new();
    let mut i: usize = 0;
    while i < roots.len()
        invariant
            i <= roots@.len(),
            out@.map_values(|e: BookmarkEntry| entry_view(e)) == children_entries(
                roots@.take(i as int),
                seq![],
            ),
        decreases roots@.len() - i,
    {
        proof {
            assert(roots@.take(i + 1).drop_last() == roots@.take(i as int));
            assert(roots@.take(i + 1)[i as int] == roots@[i as int]);
        }
        walk_bookmark_node(&roots[i], "", &mut out);
        i += 1;
        proof {
            reveal_strlit("");
        }
        assert(""@ =~= Seq::<char>::empty());
        assert(out@.map_values(|e: BookmarkEntry| entry_view(e)) =~= children_entries(
            roots@.take(i as int),
            seq![],
        ));
    }
    assert(roots@.take(roots@.len() as int) == roots@);
    proof {
        lemma_children_are_web_pages(roots@, seq![]);
        let views_out = out@.map_values(|e: BookmarkEntry| entry_view(e));
        assert forall|k: int| 0 <= k < out@.len() implies is_web_url(#[trigger] out@[k].url@) by {
            assert(views_out[k] == entry_view(out@[k]));
        }
    }
    out
}


// ── Artifacts ──────────────────────────────────────────────────────────────
/// `uuid::Uuid::new_v4().to_string()`: a random id. Nothing is claimed of
/// it.
#[verifier::external_body]
fn new_artifact_id() -> (r: String) {
    uuid::Uuid::new_v4().to_string()
}

/// `chrono::Utc::now().to_rfc3339()`: the current time. Nothing is claimed
/// of it.
#[verifier::external_body]
fn utc_now_rfc3339() -> (r: String) {
    chrono::Utc::now().to_rfc3339()
}

/// `a` is the artifact for bookmark `e` of `browser`, imported in `batch`,
/// with id `id`, at time `now`: added at the bookmark's date (else now),
/// last visited when last used (else when added).
pub open spec fn is_bookmark_artifact(
    a: Artifact,
    e: EntryView,
    browser: Seq<char>,
    batch: Seq<char>,
    id: Seq<char>,
    now: Seq<char>,
) -> bool {
    &&& a.id@ == id
    &&& a.kind@ == "bookmark"@
    &&& opt_text(a.title) == e.1
    &&& opt_text(a.domain) == domain_of(e.0)
    &&& opt_text(a.url) == Some(e.0)
    &&& a.created_at@ == match e.3 {
        Some(d) => d,
        None => now,
    }
    &&& opt_text(a.visited_at) == match e.4 {
        Some(d) => Some(d),
        None => e.3,
    }
    &&& a.is_bookmarked
    &&& a.visit_count == 0
    &&& opt_text(a.source) == Some(browser)
    &&& a.content is None
    &&& a.user_note is None
    &&& opt_text(a.folder_path) == e.2
    &&& opt_text(a.import_batch) == Some(batch)
    &&& a.page_category is None
    &&& a.extracted_query is None
    &&& a.canonical_url is None
    &&& a.referrer_domain is None
}

fn some_text(s: &str) -> (r: Option<String>)
    ensures
        opt_text(r) == Some(s@),
{
    Some(crate::text::copy_string(s))
}

/// The artifact for a bookmark, with the given id and import time.
pub fn bookmark_artifact(entry: &BookmarkEntry, browser: &str, batch: &str, id: String, now: &str) -> (r:
    Artifact)
    ensures
        is_bookmark_artifact(r, entry_view(*entry), browser@, batch@, id@, now@),
{
    let created_at = match &entry.date_added {
        Some(d) => d.clone(),
        None => crate::text::copy_string(now),
    };
    let visited_at = match &entry.date_last_used {
        Some(d) => Some(d.clone()),
        None => clone_opt(&entry.date_added),
    };
    Artifact {
        id,
        kind: crate::text::copy_string("bookmark"),
        title: clone_opt(&entry.title),
        url: Some(entry.url.clone()),
        domain: extract_domain(entry.url.as_str()),
        created_at,
        visited_at,
        is_bookmarked: true,
        visit_count: 0,
        source: some_text(browser),
        content: None,
        user_note: None,
        folder_path: clone_opt(&entry.folder_path),
        import_batch: some_text(batch),
        page_category: None,
        extracted_query: None,
        canonical_url: None,
        referrer_domain: None,
    }
}

/// The artifact for a bookmark, with a fresh random id, imported now.
pub fn new_bookmark_artifact(entry: &BookmarkEntry, browser: &str, batch: &str) -> (r: Artifact)
    ensures
        exists|id: Seq<char>, now: Seq<char>|
            is_bookmark_artifact(r, entry_view(*entry), browser@, batch@, id, now),
{
    let id = new_artifact_id();
    let now = utc_now_rfc3339();
    bookmark_artifact(entry, browser, batch, id, now.as_str())
}

/// A row of a browser's History database.
pub struct HistoryRow {
    pub url: String,
    pub title: Option<String>,
    pub visit_count: i64,
    /// Chrome timestamp of the last visit.
    pub last_visit_time: i64,
}

/// `a` is the artifact for history row `row` of `browser`, imported in
/// `batch` at time `now`, with id `id`.
pub open spec fn is_history_artifact(
    a: Artifact,
    row: HistoryRow,
    browser: Seq<char>,
    batch: Seq<char>,
    id: Seq<char>,
    now: Seq<char>,
) -> bool {
    &&& a.id@ == id
    &&& a.kind@ == "history"@
    &&& opt_text(a.title) == opt_text(row.title)
    &&& opt_text(a.domain) == domain_of(row.url@)
    &&& opt_text(a.url) == Some(row.url@)
    &&& a.created_at@ == now
    &&& opt_text(a.visited_at) == utc_rfc3339(
        filetime_secs(row.last_visit_time as int) as i64,
        filetime_nanos(row.last_visit_time as int) as u32,
    )
    &&& !a.is_bookmarked
    &&& a.visit_count == row.visit_count
    &&& opt_text(a.source) == Some(browser)
    &&& a.content is None
    &&& a.user_note is None
    &&& a.folder_path is None
    &&& opt_text(a.import_batch) == Some(batch)
    &&& a.page_category is None
    &&& a.extracted_query is None
    &&& a.canonical_url is None
    &&& a.referrer_domain is None
}

/// The artifact for a history row, with the given id and import time; none
/// for a row that is no web page.
pub fn history_artifact(row: &HistoryRow, browser: &str, batch: &str, id: String, now: &str) -> (r:
    Option<Artifact>)
    ensures
        match r {
            Some(a) => is_web_url(row.url@) && is_history_artifact(a, *row, browser@, batch@, id@, now@),
            None => !is_web_url(row.url@),
        },
{
    let u = chars_of(row.url.as_str());
    if !is_web_url_exec(u.as_slice()) {
        return None;
    }
    Some(
        Artifact {
            id,
            kind: crate::text::copy_string("history"),
            title: clone_opt(&row.title),
            url: Some(row.url.clone()),
            domain: extract_domain(row.url.as_str()),
            created_at: crate::text::copy_string(now),
            visited_at: filetime_micros_to_iso(row.last_visit_time),
            is_bookmarked: false,
            visit_count: row.visit_count,
            source: some_text(browser),
            content: None,
            user_note: None,
            folder_path: None,
            import_batch: some_text(batch),
            page_category: None,
            extracted_query: None,
            canonical_url: None,
            referrer_domain: None,
        },
    )
}

/// The artifact for a history row imported at `now`, with a fresh random
/// id; none for a row that is no web page.
pub fn new_history_artifact(row: &HistoryRow, browser: &str, batch: &str, now: &str) -> (r: Option<
    Artifact,
>)
    ensures
        match r {
            Some(a) => is_web_url(row.url@) && exists|id: Seq<char>|
                is_history_artifact(a, *row, browser@, batch@, id, now@),
            None => !is_web_url(row.url@),
        },
{
    let id = new_artifact_id();
    history_artifact(row, browser, batch, id, now)
}

/// `r` holds the artifacts for `rows` imported at `now`.
pub open spec fn history_batch(
    r: Seq<Option<Artifact>>,
    rows: Seq<HistoryRow>,
    browser: Seq<char>,
    batch: Seq<char>,
    now: Seq<char>,
) -> bool {
    &&& r.len() == rows.len()
    &&& forall|k: int|
        0 <= k < rows.len() ==> match #[trigger] r[k] {
            Some(a) => is_web_url(rows[k].url@) && exists|id: Seq<char>|
                is_history_artifact(a, rows[k], browser, batch, id, now),
            None => !is_web_url(rows[k].url@),
        }
}

/// The artifacts for the rows of a history import, all imported at one
/// time read from the clock, each with a fresh random id; none for a row
/// that is no web page.
pub fn history_artifacts(rows: &Vec<HistoryRow>, browser: &str, batch: &str) -> (r: Vec<
    Option<Artifact>,
>)
    ensures
        r@.len() == rows@.len(),
        exists|now: Seq<char>| #[trigger] history_batch(r@, rows@, browser@, batch@, now),
{
    let now = utc_now_rfc3339();
    let mut out: Vec<Option<Artifact>> = Vec::new();
    let mut i: usize = 0;
    while i < rows.len()
        invariant
            i <= rows@.len(),
            out@.len() == i,
            forall|k: int|
                0 <= k < i ==> match #[trigger] out@[k] {
                    Some(a) => is_web_url(rows@[k].url@) && exists|id: Seq<char>|
                        is_history_artifact(a, rows@[k], browser@, batch@, id, now@),
                    None => !is_web_url(rows@[k].url@),
                },
        decreases rows@.len() - i,
    {
        out.push(new_history_artifact(&rows[i], browser, batch, now.as_str()));
        i += 1;
    }
    assert(history_batch(out@, rows@, browser@, batch@, now@));
    out
}

/// The oldest Chrome timestamp a history import keeps: `limit_days` days
/// before `now_secs` (Unix seconds), or 0 (everything) without a limit.
pub open spec fn cutoff_of(now_secs: int, limit_days: Option<i64>) -> int {
    match limit_days {
        Some(days) => (now_secs - days * 86400 + FILETIME_TO_UNIX_OFFSET) * 1_000_000,
        None => 0,
    }
}

/// The history cutoff for an import at `now_secs` keeping `limit_days`
/// days.
pub fn history_cutoff(now_secs: i64, limit_days: Option<i64>) -> (r: i64)
    requires
        limit_days matches Some(days) ==> i64::MIN <= days * 86400 <= i64::MAX && i64::MIN
            <= now_secs - days * 86400 <= i64::MAX && i64::MIN <= now_secs - days * 86400
            + FILETIME_TO_UNIX_OFFSET <= i64::MAX && i64::MIN <= cutoff_of(
            now_secs as int,
            limit_days,
        ) <= i64::MAX,
    ensures
        r == cutoff_of(now_secs as int, limit_days),
{
    match limit_days {
        Some(days) => (now_secs - days * 86400 + FILETIME_TO_UNIX_OFFSET) * 1_000_000,
        None => 0,
    }
}

// ── Import statistics ──────────────────────────────────────────────────────
/// What happened to one imported artifact.
pub enum ImportOutcome {
    /// It was stored.
    Inserted,
    /// Its URL was already stored.
    Duplicate,
    /// Storing it failed with this message.
    Failed(String),
}

/// Which data an import brings in: bookmarks for "bookmarks" or "all",
/// history for "history" or "all".
pub fn import_scope(data_type: &str) -> (r: (bool, bool))
    ensures
        r.0 == (data_type@ == "bookmarks"@ || data_type@ == "all"@),
        r.1 == (data_type@ == "history"@ || data_type@ == "all"@),
{
    let all = crate::text::str_is(data_type, "all");
    (crate::text::str_is(data_type, "bookmarks") || all, crate::text::str_is(data_type, "history")
        || all)
}

/// The statistics of an import of `browser` that has done nothing yet.
pub fn empty_import_stats(browser: &str) -> (r: ImportStats)
    ensures
        r.browser@ == browser@,
        r.bookmarks_imported == 0,
        r.history_imported == 0,
        r.duplicates_skipped == 0,
        r.errors@.len() == 0,
{
    ImportStats {
        browser: crate::text::copy_string(browser),
        bookmarks_imported: 0,
        history_imported: 0,
        duplicates_skipped: 0,
        errors: Vec::new(),
    }
}

/// Counts one artifact of an import: a stored bookmark (or, for
/// `is_bookmark` false, history page), a duplicate, or a failure with its
/// message.
pub fn record_outcome(stats: &mut ImportStats, is_bookmark: bool, outcome: ImportOutcome)
    requires
        old(stats).bookmarks_imported < usize::MAX,
        old(stats).history_imported < usize::MAX,
        old(stats).duplicates_skipped < usize::MAX,
    ensures
        final(stats).browser == old(stats).browser,
        final(stats).bookmarks_imported == old(stats).bookmarks_imported + if is_bookmark
            && outcome is Inserted {
            1int
        } else {
            0int
        },
        final(stats).history_imported == old(stats).history_imported + if !is_bookmark
            && outcome is Inserted {
            1int
        } else {
            0int
        },
        final(stats).duplicates_skipped == old(stats).duplicates_skipped + if outcome is Duplicate {
            1int
        } else {
            0int
        },
        final(stats).errors@ == match outcome {
            ImportOutcome::Failed(m) => old(stats).errors@.push(m),
            _ => old(stats).errors@,
        },
{
    match outcome {
        ImportOutcome::Inserted => {
            if is_bookmark {
                stats.bookmarks_imported = stats.bookmarks_imported + 1;
            } else {
                stats.history_imported = stats.history_imported + 1;
            }
        },
        ImportOutcome::Duplicate => {
            stats.duplicates_skipped = stats.duplicates_skipped + 1;
        },
        ImportOutcome::Failed(m) => {
            stats.errors.push(m);
        },
    }
}

/// Folds the result of one part of an import (bookmarks when `bookmarks`,
/// else history) into the combined statistics: its counts are added and
/// its errors appended, or its failure becomes an error.
pub fn absorb_part(combined: &mut ImportStats, bookmarks: bool, part: Result<ImportStats, String>)
    requires
        part matches Ok(s) ==> old(combined).bookmarks_imported + s.bookmarks_imported <= usize::MAX
            && old(combined).history_imported + s.history_imported <= usize::MAX && old(
            combined,
        ).duplicates_skipped + s.duplicates_skipped <= usize::MAX,
    ensures
        final(combined).browser == old(combined).browser,
        match part {
            Ok(s) => {
                &&& final(combined).bookmarks_imported == old(combined).bookmarks_imported + if bookmarks {
                    s.bookmarks_imported as int
                } else {
                    0int
                }
                &&& final(combined).history_imported == old(combined).history_imported + if bookmarks {
                    0int
                } else {
                    s.history_imported as int
                }
                &&& final(combined).duplicates_skipped == old(combined).duplicates_skipped
                    + s.duplicates_skipped
                &&& final(combined).errors@ == old(combined).errors@ + s.errors@
            },
            Err(e) => {
                &&& final(combined).bookmarks_imported == old(combined).bookmarks_imported
                &&& final(combined).history_imported == old(combined).history_imported
                &&& final(combined).duplicates_skipped == old(combined).duplicates_skipped
                &&& final(combined).errors@ == old(combined).errors@.push(e)
            },
        },
{
    match part {
        Ok(s) => {
            if bookmarks {
                combined.bookmarks_imported = combined.bookmarks_imported + s.bookmarks_imported;
            } else {
                combined.history_imported = combined.history_imported + s.history_imported;
            }
            combined.duplicates_skipped = combined.duplicates_skipped + s.duplicates_skipped;
            let mut errors = s.errors;
            combined.errors.append(&mut errors);
        },
        Err(e) => {
            combined.errors.push(e);
        },
    }
}

} // verus!
