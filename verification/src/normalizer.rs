//! Normalization of visited pages: the query of a search-engine result page,
//! the page's category (content, search, redirect, login or utility) and how
//! much noise it is, and its URL without tracking parameters.

use vstd::prelude::*;
use crate::text::{
    chars_of, contains_exec, contains_seq, copy_string, lowercase, member_strs, starts_with,
    starts_with_exec, string_of, to_lowercase, trim, trimmed,
};

verus! {

// ── What the `url` crate computes ──────────────────────────────────────────
/// `Url::parse` accepts the text.
pub uninterp spec fn url_parses(url: Seq<char>) -> bool;

/// `host_str()` of the parsed URL; none for a text that does not parse.
pub uninterp spec fn url_host_of(url: Seq<char>) -> Option<Seq<char>>;

/// `path()` of the parsed URL.
pub uninterp spec fn url_path_of(url: Seq<char>) -> Seq<char>;

/// `query_pairs()` of the parsed URL: its query's key/value pairs, decoded.
pub uninterp spec fn url_pairs_of(url: Seq<char>) -> Seq<(Seq<char>, Seq<char>)>;

/// The parsed URL serialized again without its query and fragment.
pub uninterp spec fn url_bare_of(url: Seq<char>) -> Seq<char>;

/// The parsed URL serialized again without its fragment, its query made of
/// `pairs`, encoded.
pub uninterp spec fn url_rebuilt_of(url: Seq<char>, pairs: Seq<(Seq<char>, Seq<char>)>) -> Seq<
    char,
>;

/// `url::Url::parse(url)`, then `host_str()`. Claims only that the result is
/// [`url_host_of`] of the text, and that a host comes from a text that
/// parses.
#[verifier::external_body]
fn url_host(url: &str) -> (r: Option<String>)
    ensures
        r is Some ==> url_parses(url@),
        match r {
            Some(h) => url_host_of(url@) == Some(h@),
            None => url_host_of(url@) is None,
        },
{
    url::Url::parse(url).ok()?.host_str().map(String::from)
}

/// `url::Url::parse(url)`, then `path()`. Claims that a path comes back
/// exactly when the text parses, and that it is [`url_path_of`] the text.
#[verifier::external_body]
fn url_path(url: &str) -> (r: Option<String>)
    ensures
        r is Some <==> url_parses(url@),
        r matches Some(p) ==> p@ == url_path_of(url@),
{
    let parsed = url::Url::parse(url).ok()?;
    Some(parsed.path().to_string())
}

/// `url::Url::parse(url)`, then `query_pairs()`, each pair owned. Claims
/// that pairs come back exactly when the text parses, and that they are
/// [`url_pairs_of`] the text.
#[verifier::external_body]
fn url_query_pairs(url: &str) -> (r: Option<Vec<(String, String)>>)
    ensures
        r is Some <==> url_parses(url@),
        r matches Some(v) ==> v.deep_view() == url_pairs_of(url@),
{
    let parsed = url::Url::parse(url).ok()?;
    let mut out = Vec::new();
    for (key, value) in parsed.query_pairs() {
        out.push((key.into_owned(), value.into_owned()));
    }
    Some(out)
}

/// `url::Url::parse(url)`, `set_query(None)`, `set_fragment(None)`, then
/// `to_string()`. Claims that a text comes back exactly when the input
/// parses, and that it is [`url_bare_of`] the input.
#[verifier::external_body]
fn url_without_query(url: &str) -> (r: Option<String>)
    ensures
        r is Some <==> url_parses(url@),
        r matches Some(s) ==> s@ == url_bare_of(url@),
{
    let mut parsed = url::Url::parse(url).ok()?;
    parsed.set_query(None);
    parsed.set_fragment(None);
    Some(parsed.to_string())
}

/// `url::Url::parse(url)`, `set_query(None)`, `set_fragment(None)`, then
/// `query_pairs_mut().append_pair(key, value)` for each pair in order, then
/// `to_string()`. Claims that a text comes back exactly when the input
/// parses, and that it is [`url_rebuilt_of`] the input and the pairs.
#[verifier::external_body]
fn url_with_pairs(url: &str, pairs: &Vec<(String, String)>) -> (r: Option<String>)
    ensures
        r is Some <==> url_parses(url@),
        r matches Some(s) ==> s@ == url_rebuilt_of(url@, pairs.deep_view()),
{
    let mut parsed = url::Url::parse(url).ok()?;
    parsed.set_query(None);
    parsed.set_fragment(None);
    {
        let mut serializer = parsed.query_pairs_mut();
        for (key, value) in pairs {
            serializer.append_pair(key, value);
        }
    }
    Some(parsed.to_string())
}


// ── Search queries ─────────────────────────────────────────────────────────
/// The host without a leading `www.`.
pub open spec fn strip_www(host: Seq<char>) -> Seq<char> {
    if starts_with(host, "www."@) {
        host.skip(4)
    } else {
        host
    }
}

/// The query parameter of the search engine at `host` whose result pages
/// have `path`, if it is one.
pub open spec fn engine_param(host: Seq<char>, path: Seq<char>) -> Option<Seq<char>> {
    if (host == "bing.com"@ || host == "cn.bing.com"@) && starts_with(path, "/search"@) {
        Some("q"@)
    } else if host == "google.com"@ && starts_with(path, "/search"@) {
        Some("q"@)
    } else if host == "baidu.com"@ && starts_with(path, "/s"@) {
        Some("wd"@)
    } else if host == "sogou.com"@ && starts_with(path, "/web"@) {
        Some("query"@)
    } else if host == "so.com"@ && starts_with(path, "/s"@) {
        Some("q"@)
    } else if host == "search.yahoo.com"@ {
        Some("p"@)
    } else if host == "duckduckgo.com"@ {
        Some("q"@)
    } else {
        None
    }
}

/// The value of the first pair whose key is `key`.
pub open spec fn first_value(pairs: Seq<(Seq<char>, Seq<char>)>, key: Seq<char>) -> Option<
    Seq<char>,
>
    decreases pairs.len(),
{
    if pairs.len() == 0 {
        None
    } else if pairs[0].0 == key {
        Some(pairs[0].1)
    } else {
        first_value(pairs.drop_first(), key)
    }
}

/// The query typed into a search engine, from the URL of its result page:
/// the first value of the engine's query parameter, trimmed; none when the
/// URL is no result page or the value is blank.
pub open spec fn search_query_of(url: Seq<char>) -> Option<Seq<char>> {
    match url_host_of(url) {
        None => None,
        Some(h) => match engine_param(strip_www(h), url_path_of(url)) {
            None => None,
            Some(p) => match first_value(url_pairs_of(url), p) {
                None => None,
                Some(v) => if trim(v).len() == 0 {
                    None
                } else {
                    Some(trim(v))
                },
            },
        },
    }
}

/// The trimmed text of an optional value, when it is not blank.
pub open spec fn nonblank_trimmed(v: Option<Seq<char>>) -> Option<Seq<char>> {
    match v {
        Some(t) => if trim(t).len() > 0 {
            Some(trim(t))
        } else {
            None
        },
        None => None,
    }
}

/// `www.` + `host` loses its `www.` again, and a host that does not start
/// with `www.` keeps its name.
proof fn lemma_strip_www(host: Seq<char>)
    ensures
        strip_www("www."@ + host) == host,
        host.len() < 4 || host[0] != 'w' ==> strip_www(host) == host,
{
    reveal_strlit("www.");
    let w = "www."@ + host;
    assert(w.subrange(0, 4) =~= "www."@);
    assert(w.skip(4) =~= host);
    if host.len() >= 4 && starts_with(host, "www."@) {
        assert(host[0] == host.subrange(0, 4)[0]);
    }
}

/// Result pages of the search engines give the query typed into them: on
/// Bing (`bing.com`, `cn.bing.com`) and Google (`google.com`) under
/// `/search` the `q` parameter, on Baidu (`baidu.com`) under `/s` the `wd`
/// parameter, on Sogou (`sogou.com`) under `/web` the `query` parameter, on
/// 360 Search (`so.com`) under `/s` the `q` parameter, on Yahoo
/// (`search.yahoo.com`) the `p` parameter and on DuckDuckGo
/// (`duckduckgo.com`) the `q` parameter, each host with or without `www.`:
/// the first value of that parameter, trimmed, unless it is blank. A URL
/// whose host is none of these gives no query.
pub proof fn lemma_result_pages_give_their_query(url: Seq<char>, name: Seq<char>)
    ensures
        url_host_of(url) == Some(name) || url_host_of(url) == Some("www."@ + name) ==> {
            let path = url_path_of(url);
            let pairs = url_pairs_of(url);
            &&& (name == "bing.com"@ || name == "cn.bing.com"@ || name == "google.com"@) && starts_with(
                path,
                "/search"@,
            ) ==> search_query_of(url) == nonblank_trimmed(first_value(pairs, "q"@))
            &&& name == "baidu.com"@ && starts_with(path, "/s"@) ==> search_query_of(url)
                == nonblank_trimmed(first_value(pairs, "wd"@))
            &&& name == "sogou.com"@ && starts_with(path, "/web"@) ==> search_query_of(url)
                == nonblank_trimmed(first_value(pairs, "query"@))
            &&& name == "so.com"@ && starts_with(path, "/s"@) ==> search_query_of(url)
                == nonblank_trimmed(first_value(pairs, "q"@))
            &&& name == "search.yahoo.com"@ ==> search_query_of(url) == nonblank_trimmed(
                first_value(pairs, "p"@),
            )
            &&& name == "duckduckgo.com"@ ==> search_query_of(url) == nonblank_trimmed(
                first_value(pairs, "q"@),
            )
        },
        search_query_of(url) is Some ==> (url_host_of(url) matches Some(h) && {
            let e = strip_www(h);
            let path = url_path_of(url);
            ||| (e == "bing.com"@ || e == "cn.bing.com"@ || e == "google.com"@) && starts_with(
                path,
                "/search"@,
            )
            ||| (e == "baidu.com"@ || e == "so.com"@) && starts_with(path, "/s"@)
            ||| e == "sogou.com"@ && starts_with(path, "/web"@)
            ||| e == "search.yahoo.com"@
            ||| e == "duckduckgo.com"@
        }),
{
    reveal_strlit("bing.com");
    reveal_strlit("cn.bing.com");
    reveal_strlit("google.com");
    reveal_strlit("baidu.com");
    reveal_strlit("sogou.com");
    reveal_strlit("so.com");
    reveal_strlit("search.yahoo.com");
    reveal_strlit("duckduckgo.com");
    lemma_strip_www(name);
    if url_host_of(url) == Some(name) || url_host_of(url) == Some("www."@ + name) {
        let h = url_host_of(url)->0;
        if name == "bing.com"@ || name == "cn.bing.com"@ || name == "google.com"@ || name
            == "baidu.com"@ || name == "sogou.com"@ || name == "so.com"@ || name
            == "search.yahoo.com"@ || name == "duckduckgo.com"@ {
            assert(name[0] != 'w');
            assert(strip_www(h) == name);
        }
    }
}

/// A query typed into a search engine.
#[derive(Debug, Clone, PartialEq, Eq)]
pub struct SearchQueryInfo {
    pub query: String,
}

fn eq_lit(s: &[char], lit: &str) -> (r: bool)
    ensures
        r == (s@ == lit@),
{
    let l = chars_of(lit);
    crate::text::eq_chars(s, l.as_slice())
}

fn starts_with_lit(s: &[char], lit: &str) -> (r: bool)
    ensures
        r == starts_with(s@, lit@),
{
    let l = chars_of(lit);
    starts_with_exec(s, l.as_slice())
}

fn contains_lit(s: &[char], lit: &str) -> (r: bool)
    ensures
        r == contains_seq(s@, lit@),
{
    let l = chars_of(lit);
    contains_exec(s, l.as_slice())
}

fn engine_param_exec(host: &[char], path: &[char]) -> (r: Option<&'static str>)
    ensures
        match r {
            Some(p) => engine_param(host@, path@) == Some(p@),
            None => engine_param(host@, path@) is None,
        },
{
    if (eq_lit(host, "bing.com") || eq_lit(host, "cn.bing.com")) && starts_with_lit(path, "/search") {
        Some("q")
    } else if eq_lit(host, "google.com") && starts_with_lit(path, "/search") {
        Some("q")
    } else if eq_lit(host, "baidu.com") && starts_with_lit(path, "/s") {
        Some("wd")
    } else if eq_lit(host, "sogou.com") && starts_with_lit(path, "/web") {
        Some("query")
    } else if eq_lit(host, "so.com") && starts_with_lit(path, "/s") {
        Some("q")
    } else if eq_lit(host, "search.yahoo.com") {
        Some("p")
    } else if eq_lit(host, "duckduckgo.com") {
        Some("q")
    } else {
        None
    }
}

/// The query of a search-engine result page, if `url` is one (Bing, Google,
/// Baidu, Sogou, 360 Search, Yahoo or DuckDuckGo) and the query is not
/// blank.
pub fn extract_search_query(url: &str) -> (r: Option<SearchQueryInfo>)
    ensures
        match r {
            Some(info) => search_query_of(url@) == Some(info.query@),
            None => search_query_of(url@) is None,
        },
        r matches Some(info) ==> info.query@.len() > 0,
{
    let host = match url_host(url) {
        Some(h) => h,
        None => return None,
    };
    let path = match url_path(url) {
        Some(p) => p,
        None => return None,
    };
    let h = chars_of(host.as_str());
    proof {
        reveal_strlit("www.");
    }
    let host_chars = if starts_with_lit(h.as_slice(), "www.") {
        crate::text::slice_vec(h.as_slice(), 4, h.len())
    } else {
        h
    };
    assert(host_chars@ == strip_www(host@));
    let p = chars_of(path.as_str());
    let param = match engine_param_exec(host_chars.as_slice(), p.as_slice()) {
        Some(k) => k,
        None => return None,
    };
    let pairs = match url_query_pairs(url) {
        Some(v) => v,
        None => return None,
    };
    let ghost all = pairs.deep_view();
    let mut i: usize = 0;
    assert(all.skip(0) == all);
    while i < pairs.len()
        invariant
            i <= pairs@.len(),
            all == pairs.deep_view(),
            all == url_pairs_of(url@),
            url_host_of(url@) == Some(host@),
            engine_param(strip_www(host@), url_path_of(url@)) == Some(param@),
            first_value(all, param@) == first_value(all.skip(i as int), param@),
        decreases pairs@.len() - i,
    {
        assert(all.skip(i as int)[0] == all[i as int]);
        let key = chars_of(pairs[i].0.as_str());
        if eq_lit(key.as_slice(), param) {
            let value = chars_of(pairs[i].1.as_str());
            let t = trimmed(value.as_slice());
            if t.len() == 0 {
                return None;
            }
            return Some(SearchQueryInfo { query: string_of(t.as_slice()) });
        }
        assert(all.skip(i as int).drop_first() == all.skip(i + 1));
        i += 1;
    }
    assert(all.skip(i as int) =~= Seq::<(Seq<char>, Seq<char>)>::empty());
    None
}


// ── Canonical URLs ─────────────────────────────────────────────────────────
/// Query parameters that track where a visit came from.
pub open spec fn tracking_params() -> Seq<Seq<char>> {
    seq![
        "utm_source"@,
        "utm_medium"@,
        "utm_campaign"@,
        "utm_content"@,
        "utm_term"@,
        "fbclid"@,
        "gclid"@,
        "msclkid"@,
        "ref"@,
        "_ga"@,
        "spm"@,
        "scm"@,
    ]
}

/// The query pairs of `url` that do not track the visit, in order.
pub open spec fn kept_pairs(url: Seq<char>) -> Seq<(Seq<char>, Seq<char>)> {
    url_pairs_of(url).filter(|p: (Seq<char>, Seq<char>)| !tracking_params().contains(p.0))
}

/// A URL without its fragment and tracking parameters: the text unchanged
/// when it does not parse.
pub open spec fn canonical_of(url: Seq<char>) -> Seq<char> {
    if !url_parses(url) {
        url
    } else if kept_pairs(url).len() == 0 {
        url_bare_of(url)
    } else {
        url_rebuilt_of(url, kept_pairs(url))
    }
}

/// Canonical URLs carry no tracking parameter: a URL that parses loses
/// exactly its `utm_source`, `utm_medium`, `utm_campaign`, `utm_content`,
/// `utm_term`, `fbclid`, `gclid`, `msclkid`, `ref`, `_ga`, `spm` and `scm`
/// pairs, and its fragment; its other pairs stay, in order.
pub proof fn lemma_canonical_drops_tracking(url: Seq<char>)
    requires
        url_parses(url),
    ensures
        ({
            let tracking = seq![
                "utm_source"@,
                "utm_medium"@,
                "utm_campaign"@,
                "utm_content"@,
                "utm_term"@,
                "fbclid"@,
                "gclid"@,
                "msclkid"@,
                "ref"@,
                "_ga"@,
                "spm"@,
                "scm"@,
            ];
            let kept = url_pairs_of(url).filter(|p: (Seq<char>, Seq<char>)| !tracking.contains(p.0));
            &&& canonical_of(url) == if kept.len() == 0 {
                url_bare_of(url)
            } else {
                url_rebuilt_of(url, kept)
            }
            &&& forall|i: int| 0 <= i < kept.len() ==> !tracking.contains(#[trigger] kept[i].0)
        }),
{
    let tracking = seq![
        "utm_source"@,
        "utm_medium"@,
        "utm_campaign"@,
        "utm_content"@,
        "utm_term"@,
        "fbclid"@,
        "gclid"@,
        "msclkid"@,
        "ref"@,
        "_ga"@,
        "spm"@,
        "scm"@,
    ];
    let pred = |p: (Seq<char>, Seq<char>)| !tracking.contains(p.0);
    assert(tracking_params() =~= tracking);
    assert((|p: (Seq<char>, Seq<char>)| !tracking_params().contains(p.0)) =~= pred);
    let kept = url_pairs_of(url).filter(pred);
    assert(kept_pairs(url) == kept);
    assert forall|i: int| 0 <= i < kept.len() implies !tracking.contains(#[trigger] kept[i].0) by {
        url_pairs_of(url).lemma_filter_pred(pred, i);
    }
}

fn is_tracking_param(key: &str) -> (r: bool)
    ensures
        r == tracking_params().contains(key@),
{
    let list: Vec<&str> = vec![
        "utm_source",
        "utm_medium",
        "utm_campaign",
        "utm_content",
        "utm_term",
        "fbclid",
        "gclid",
        "msclkid",
        "ref",
        "_ga",
        "spm",
        "scm",
    ];
    assert(list@.map_values(|s: &str| s@) =~= tracking_params());
    let k = chars_of(key);
    member_strs(&list, k.as_slice())
}

/// The URL without its fragment and its tracking parameters (`utm_*`,
/// `fbclid`, `gclid`, `msclkid`, `ref`, `_ga`, `spm`, `scm`), the other
/// parameters kept in order; a text that does not parse comes back as is.
pub fn canonicalize_url(url: &str) -> (r: String)
    ensures
        r@ == canonical_of(url@),
{
    let pairs = match url_query_pairs(url) {
        Some(v) => v,
        None => return copy_string(url),
    };
    let ghost all = pairs.deep_view();
    let ghost pred = |p: (Seq<char>, Seq<char>)| !tracking_params().contains(p.0);
    let mut kept: Vec<(String, String)> = Vec::new();
    let mut i: usize = 0;
    while i < pairs.len()
        invariant
            i <= pairs@.len(),
            all == pairs.deep_view(),
            pred == (|p: (Seq<char>, Seq<char>)| !tracking_params().contains(p.0)),
            kept.deep_view() == all.take(i as int).filter(pred),
        decreases pairs@.len() - i,
    {
        proof {
            assert(all.take(i + 1).drop_last() == all.take(i as int));
            reveal_with_fuel(Seq::filter, 1);
        }
        assert(all[i as int] == (pairs@[i as int].0@, pairs@[i as int].1@));
        if !is_tracking_param(pairs[i].0.as_str()) {
            kept.push((pairs[i].0.clone(), pairs[i].1.clone()));
        }
        i += 1;
        assert(kept.deep_view() =~= all.take(i as int).filter(pred));
    }
    assert(all.take(pairs@.len() as int) == all);
    assert(kept.deep_view() == kept_pairs(url@));
    if kept.len() == 0 {
        match url_without_query(url) {
            Some(s) => s,
            None => copy_string(url),
        }
    } else {
        match url_with_pairs(url, &kept) {
            Some(s) => s,
            None => copy_string(url),
        }
    }
}

// ── Page classes ───────────────────────────────────────────────────────────
/// A lowercased URL that bounces the browser elsewhere.
pub open spec fn redirect_url(u: Seq<char>) -> bool {
    ||| contains_seq(u, "bing.com/ck/a"@)
    ||| contains_seq(u, "google.com/url"@)
    ||| contains_seq(u, "link.zhihu.com/"@)
    ||| contains_seq(u, "redirect"@)
    ||| contains_seq(u, "callback"@)
    ||| contains_seq(u, "return_url"@)
}

/// A lowercased title of a sign-in page.
pub open spec fn login_title(t: Seq<char>) -> bool {
    ||| contains_seq(t, "登录"@)
    ||| contains_seq(t, "认证"@)
    ||| contains_seq(t, "统一认证"@)
    ||| contains_seq(t, "欢迎使用"@)
    ||| contains_seq(t, "sign in"@)
    ||| contains_seq(t, "signin"@)
    ||| contains_seq(t, "login"@)
    ||| contains_seq(t, "sso"@)
}

/// A sign-in page, from its lowercased title, domain and URL.
pub open spec fn login_page(t: Seq<char>, d: Seq<char>, u: Seq<char>) -> bool {
    ||| login_title(t)
    ||| contains_seq(d, "sso"@)
    ||| contains_seq(d, "login"@)
    ||| contains_seq(d, "auth"@)
    ||| contains_seq(d, "cas"@)
    ||| contains_seq(d, "account"@)
    ||| contains_seq(u, "/login"@)
    ||| contains_seq(u, "/signin"@)
    ||| contains_seq(u, "/oauth"@)
    ||| contains_seq(u, "/sso"@)
}

/// Whether a lowercased URL is a redirect.
pub fn is_redirect_url(lower_url: &str) -> (r: bool)
    ensures
        r == redirect_url(lower_url@),
{
    let u = chars_of(lower_url);
    let u = u.as_slice();
    contains_lit(u, "bing.com/ck/a") || contains_lit(u, "google.com/url") || contains_lit(
        u,
        "link.zhihu.com/",
    ) || contains_lit(u, "redirect") || contains_lit(u, "callback") || contains_lit(
        u,
        "return_url",
    )
}

/// Whether a lowercased title is that of a sign-in page.
pub fn matches_login_title(lower_title: &str) -> (r: bool)
    ensures
        r == login_title(lower_title@),
{
    let t = chars_of(lower_title);
    let t = t.as_slice();
    contains_lit(t, "登录") || contains_lit(t, "认证") || contains_lit(t, "统一认证")
        || contains_lit(t, "欢迎使用") || contains_lit(t, "sign in") || contains_lit(t, "signin")
        || contains_lit(t, "login") || contains_lit(t, "sso")
}

/// Whether a page is a sign-in page, from its lowercased title, domain and
/// URL.
pub fn is_login_page(lower_title: &str, lower_domain: &str, lower_url: &str) -> (r: bool)
    ensures
        r == login_page(lower_title@, lower_domain@, lower_url@),
{
    if matches_login_title(lower_title) {
        return true;
    }
    let d = chars_of(lower_domain);
    let d = d.as_slice();
    let u = chars_of(lower_url);
    let u = u.as_slice();
    contains_lit(d, "sso") || contains_lit(d, "login") || contains_lit(d, "auth") || contains_lit(
        d,
        "cas",
    ) || contains_lit(d, "account") || contains_lit(u, "/login") || contains_lit(u, "/signin")
        || contains_lit(u, "/oauth") || contains_lit(u, "/sso")
}


/// A noise score in [0, 1], held exactly as `numerator / denominator`.
#[derive(Debug, Clone, Copy, PartialEq, Eq, Structural)]
pub struct NoiseScore {
    pub numerator: u128,
    pub denominator: u128,
}

/// What a page is and how much noise it is.
#[derive(Debug, Clone)]
pub struct PageClassification {
    /// "content" | "search_query" | "redirect" | "login" | "utility"
    pub category: String,
    pub noise_score: NoiseScore,
}

/// The view of an optional text.
pub open spec fn opt_view(o: Option<&str>) -> Option<Seq<char>> {
    match o {
        Some(t) => Some(t@),
        None => None,
    }
}

/// The text of an optional string, empty when absent.
pub open spec fn text_or_empty(o: Option<Seq<char>>) -> Seq<char> {
    match o {
        Some(t) => t,
        None => seq![],
    }
}

/// How often a title occurs: the count of the first entry for it.
pub open spec fn title_count(counts: Seq<(String, usize)>, t: Seq<char>) -> Option<nat>
    decreases counts.len(),
{
    if counts.len() == 0 {
        None
    } else if counts[0].0@ == t {
        Some(counts[0].1 as nat)
    } else {
        title_count(counts.drop_first(), t)
    }
}

/// A browser page (`about:`, `chrome://`, `edge://`), from the lowercased URL.
pub open spec fn utility_url(u: Seq<char>) -> bool {
    starts_with(u, "about:"@) || starts_with(u, "chrome://"@) || starts_with(u, "edge://"@)
}

/// The category a page gets from its URL alone (and its title for sign-in
/// pages), with its noise in tenths.
pub open spec fn base_class(url: Seq<char>, lt: Seq<char>, ld: Seq<char>) -> (Seq<char>, nat) {
    let lu = lowercase(url);
    if utility_url(lu) {
        ("utility"@, 10)
    } else if redirect_url(lu) {
        ("redirect"@, 8)
    } else if search_query_of(url) is Some {
        ("search_query"@, 0)
    } else if login_page(lt, ld, lu) {
        ("login"@, 6)
    } else {
        ("content"@, 0)
    }
}

/// The lowercased, trimmed title.
pub open spec fn lower_title(title: Option<Seq<char>>) -> Seq<char> {
    lowercase(trim(text_or_empty(title)))
}

/// The category of a page: a content page whose title is that of a sign-in
/// page is a login page.
pub open spec fn page_category(url: Seq<char>, title: Option<Seq<char>>, domain: Option<Seq<char>>) -> Seq<
    char,
> {
    let lt = lower_title(title);
    let c = base_class(url, lt, lowercase(text_or_empty(domain))).0;
    if login_title(lt) && c == "content"@ {
        "login"@
    } else {
        c
    }
}

/// The noise of a page in tenths before its title's frequency is counted:
/// that of its category, 3 for a title shorter than three characters, 5 for
/// a sign-in title.
pub open spec fn noise_tenths(url: Seq<char>, title: Option<Seq<char>>, domain: Option<Seq<char>>) -> nat {
    let lt = lower_title(title);
    base_class(url, lt, lowercase(text_or_empty(domain))).1 + (if trim(text_or_empty(title)).len()
        < 3 {
        3nat
    } else {
        0nat
    }) + (if login_title(lt) {
        5nat
    } else {
        0nat
    })
}

/// How many pages share the title, when more than one in a hundred of all
/// `total` pages do; 0 otherwise.
pub open spec fn frequent_title_count(
    title: Option<Seq<char>>,
    counts: Seq<(String, usize)>,
    total: nat,
) -> nat {
    let lt = lower_title(title);
    if lt.len() > 0 {
        match title_count(counts, lt) {
            Some(c) => if 100 * c > total {
                c
            } else {
                0
            },
            None => 0,
        }
    } else {
        0
    }
}

/// The noise score before it is capped at 1, over `10 * total`: the tenths
/// of each finding, plus 3 tenths of the share of pages with the same title
/// when that share exceeds one in a hundred.
pub open spec fn raw_noise(
    url: Seq<char>,
    title: Option<Seq<char>>,
    domain: Option<Seq<char>>,
    counts: Seq<(String, usize)>,
    total: nat,
) -> nat {
    noise_tenths(url, title, domain) * total + 3 * frequent_title_count(title, counts, total)
}

fn title_count_exec(counts: &Vec<(String, usize)>, t: &[char]) -> (r: Option<usize>)
    ensures
        match r {
            Some(c) => title_count(counts@, t@) == Some(c as nat),
            None => title_count(counts@, t@) is None,
        },
{
    let mut i: usize = 0;
    assert(counts@.skip(0) == counts@);
    while i < counts.len()
        invariant
            i <= counts@.len(),
            title_count(counts@, t@) == title_count(counts@.skip(i as int), t@),
        decreases counts@.len() - i,
    {
        assert(counts@.skip(i as int)[0] == counts@[i as int]);
        let k = chars_of(counts[i].0.as_str());
        if crate::text::eq_chars(k.as_slice(), t) {
            return Some(counts[i].1);
        }
        assert(counts@.skip(i as int).drop_first() == counts@.skip(i + 1));
        i += 1;
    }
    assert(counts@.skip(i as int) =~= Seq::<(String, usize)>::empty());
    None
}

/// The category a page gets from its URL alone (and its title for sign-in
/// pages), with its noise in tenths.
fn base_class_exec(url: &str, lower_url: &String, lower_title: &String, lower_domain: &String) -> (r: (
    &'static str,
    u128,
))
    requires
        lower_url@ == lowercase(url@),
    ensures
        (r.0@, r.1 as nat) == base_class(url@, lower_title@, lower_domain@),
{
    let lu = chars_of(lower_url.as_str());
    let lu = lu.as_slice();
    if starts_with_lit(lu, "about:") || starts_with_lit(lu, "chrome://") || starts_with_lit(
        lu,
        "edge://",
    ) {
        ("utility", 10)
    } else if is_redirect_url(lower_url.as_str()) {
        ("redirect", 8)
    } else if extract_search_query(url).is_some() {
        ("search_query", 0)
    } else if is_login_page(lower_title.as_str(), lower_domain.as_str(), lower_url.as_str()) {
        ("login", 6)
    } else {
        ("content", 0)
    }
}

/// Browser pages are utility pages and all noise: a page whose lowercased
/// URL starts with `about:`, `chrome://` or `edge://` is classified
/// `utility`, whatever its title and domain, with the full noise score 1
/// (the numerator equals the denominator `10 * total`).
pub proof fn lemma_browser_pages_are_utility(
    url: Seq<char>,
    title: Option<Seq<char>>,
    domain: Option<Seq<char>>,
    counts: Seq<(String, usize)>,
    total: nat,
)
    requires
        starts_with(lowercase(url), "about:"@) || starts_with(lowercase(url), "chrome://"@)
            || starts_with(lowercase(url), "edge://"@),
    ensures
        page_category(url, title, domain) == "utility"@,
        crate::rank::min_nat(raw_noise(url, title, domain, counts, total), 10 * total) == 10 * total,
{
    reveal_strlit("utility");
    reveal_strlit("content");
    assert("utility"@ != "content"@) by {
        assert("utility"@[0] != "content"@[0]);
    }
    let t = noise_tenths(url, title, domain);
    assert(t >= 10);
    assert(t * total >= 10 * total) by (nonlinear_arith)
        requires
            t >= 10,
    ;
}

/// Redirects: a page that is no browser page and whose lowercased URL
/// contains `bing.com/ck/a`, `google.com/url`, `link.zhihu.com/`,
/// `redirect`, `callback` or `return_url` is classified `redirect`, with
/// at least 0.8 of noise.
pub proof fn lemma_redirect_pages(url: Seq<char>, title: Option<Seq<char>>, domain: Option<Seq<char>>)
    requires
        !(starts_with(lowercase(url), "about:"@) || starts_with(lowercase(url), "chrome://"@)
            || starts_with(lowercase(url), "edge://"@)),
        ({
            let u = lowercase(url);
            ||| contains_seq(u, "bing.com/ck/a"@)
            ||| contains_seq(u, "google.com/url"@)
            ||| contains_seq(u, "link.zhihu.com/"@)
            ||| contains_seq(u, "redirect"@)
            ||| contains_seq(u, "callback"@)
            ||| contains_seq(u, "return_url"@)
        }),
    ensures
        page_category(url, title, domain) == "redirect"@,
        noise_tenths(url, title, domain) >= 8,
{
    reveal_strlit("redirect");
    reveal_strlit("content");
    assert("redirect"@ != "content"@) by {
        assert("redirect"@[0] != "content"@[0]);
    }
}

/// Sign-in pages: a page that is no browser page, no redirect and no
/// search result page is classified `login`, with at least 0.6 of noise,
/// when its lowercased, trimmed title contains `登录`, `认证`, `统一认证`,
/// `欢迎使用`, `sign in`, `signin`, `login` or `sso`, its lowercased domain
/// contains `sso`, `login`, `auth`, `cas` or `account`, or its lowercased
/// URL contains `/login`, `/signin`, `/oauth` or `/sso`. Whatever the page,
/// such a title adds 0.5 of noise.
pub proof fn lemma_login_pages(url: Seq<char>, title: Option<Seq<char>>, domain: Option<Seq<char>>)
    ensures
        ({
            let t = lowercase(trim(text_or_empty(title)));
            ||| contains_seq(t, "登录"@)
            ||| contains_seq(t, "认证"@)
            ||| contains_seq(t, "统一认证"@)
            ||| contains_seq(t, "欢迎使用"@)
            ||| contains_seq(t, "sign in"@)
            ||| contains_seq(t, "signin"@)
            ||| contains_seq(t, "login"@)
            ||| contains_seq(t, "sso"@)
        }) ==> noise_tenths(url, title, domain) >= 5,
        ({
            let t = lowercase(trim(text_or_empty(title)));
            let d = lowercase(text_or_empty(domain));
            let u = lowercase(url);
            &&& !(starts_with(u, "about:"@) || starts_with(u, "chrome://"@) || starts_with(
                u,
                "edge://"@,
            ))
            &&& !(contains_seq(u, "bing.com/ck/a"@) || contains_seq(u, "google.com/url"@)
                || contains_seq(u, "link.zhihu.com/"@) || contains_seq(u, "redirect"@)
                || contains_seq(u, "callback"@) || contains_seq(u, "return_url"@))
            &&& search_query_of(url) is None
            &&& {
                ||| contains_seq(t, "登录"@)
                ||| contains_seq(t, "认证"@)
                ||| contains_seq(t, "统一认证"@)
                ||| contains_seq(t, "欢迎使用"@)
                ||| contains_seq(t, "sign in"@)
                ||| contains_seq(t, "signin"@)
                ||| contains_seq(t, "login"@)
                ||| contains_seq(t, "sso"@)
                ||| contains_seq(d, "sso"@)
                ||| contains_seq(d, "login"@)
                ||| contains_seq(d, "auth"@)
                ||| contains_seq(d, "cas"@)
                ||| contains_seq(d, "account"@)
                ||| contains_seq(u, "/login"@)
                ||| contains_seq(u, "/signin"@)
                ||| contains_seq(u, "/oauth"@)
                ||| contains_seq(u, "/sso"@)
            }
        }) ==> page_category(url, title, domain) == "login"@ && noise_tenths(url, title, domain)
            >= 6,
{
    reveal_strlit("login");
    reveal_strlit("content");
    assert("login"@ != "content"@) by {
        assert("login"@[0] != "content"@[0]);
    }
}

/// A missing title, or one of fewer than three characters once trimmed,
/// adds 0.3 of noise; a plain page (no browser page, redirect, search
/// result or sign-in page) with a title of three characters or more, no
/// sign-in words and no frequent title has no noise at all.
pub proof fn lemma_title_noise(
    url: Seq<char>,
    title: Option<Seq<char>>,
    domain: Option<Seq<char>>,
    counts: Seq<(String, usize)>,
    total: nat,
)
    ensures
        trim(text_or_empty(title)).len() < 3 ==> noise_tenths(url, title, domain) >= 3,
        page_category(url, title, domain) == "content"@ && trim(text_or_empty(title)).len() >= 3
            && !login_title(lower_title(title)) && frequent_title_count(title, counts, total) == 0
            ==> raw_noise(url, title, domain, counts, total) == 0,
{
    reveal_strlit("content");
    reveal_strlit("utility");
    reveal_strlit("redirect");
    reveal_strlit("search_query");
    reveal_strlit("login");
    let lt = lower_title(title);
    let b = base_class(url, lt, lowercase(text_or_empty(domain)));
    if page_category(url, title, domain) == "content"@ && !login_title(lt) && trim(
        text_or_empty(title),
    ).len() >= 3 {
        assert(b.0 == "content"@);
        assert("utility"@[0] != "content"@[0]);
        assert("redirect"@[0] != "content"@[0]);
        assert("login"@[0] != "content"@[0]);
        assert(b.1 == 0);
        assert(noise_tenths(url, title, domain) == 0);
        assert(0 * total == 0);
    }
}

/// Classifies a page by its URL, title and domain: its category, and a
/// noise score that adds up what marks it as noise (a browser page 1, a
/// redirect 0.8, a sign-in page 0.6, a title shorter than three characters
/// 0.3, a sign-in title 0.5, and 0.3 times the share of the
/// `total_artifacts` pages that carry the same title when more than one in
/// a hundred do), capped at 1. `title_counts` counts the pages by
/// lowercased, trimmed title.
pub fn classify_page(
    url: &str,
    title: Option<&str>,
    domain: Option<&str>,
    title_counts: &Vec<(String, usize)>,
    total_artifacts: usize,
) -> (r: PageClassification)
    requires
        total_artifacts >= 1,
    ensures
        r.category@ == page_category(url@, opt_view(title), opt_view(domain)),
        r.noise_score.denominator == 10 * total_artifacts,
        r.noise_score.numerator <= r.noise_score.denominator,
        r.noise_score.numerator == crate::rank::min_nat(
            raw_noise(url@, opt_view(title), opt_view(domain), title_counts@, total_artifacts as nat),
            10 * total_artifacts as nat,
        ),
{
    let lower_url = to_lowercase(url);
    let title_text = match title {
        Some(t) => chars_of(t),
        None => Vec::new(),
    };
    assert(title_text@ == text_or_empty(opt_view(title)));
    let trimmed_title = trimmed(title_text.as_slice());
    let lt_string = to_lowercase(string_of(trimmed_title.as_slice()).as_str());
    let domain_text = match domain {
        Some(d) => chars_of(d),
        None => Vec::new(),
    };
    assert(domain_text@ == text_or_empty(opt_view(domain)));
    let lower_domain = to_lowercase(string_of(domain_text.as_slice()).as_str());
    let (mut category, mut tenths) = base_class_exec(url, &lower_url, &lt_string, &lower_domain);
    if trimmed_title.len() < 3 {
        tenths = tenths + 3;
    }
    if matches_login_title(lt_string.as_str()) {
        tenths = tenths + 5;
        if crate::text::str_is(category, "content") {
            category = "login";
        }
    }
    let lt = chars_of(lt_string.as_str());
    let total = total_artifacts as u128;
    let mut frequent: u128 = 0;
    if lt.len() > 0 {
        if let Some(c) = title_count_exec(title_counts, lt.as_slice()) {
            if 100 * (c as u128) > total {
                frequent = c as u128;
            }
        }
    }
    assert(tenths <= 18);
    assert(frequent <= usize::MAX);
    assert(tenths * total <= 18 * total) by (nonlinear_arith)
        requires
            tenths <= 18,
    ;
    let raw = tenths * total + 3 * frequent;
    let den = 10 * total;
    let num = if raw > den {
        den
    } else {
        raw
    };
    PageClassification {
        category: copy_string(category),
        noise_score: NoiseScore { numerator: num, denominator: den },
    }
}


// ── Normalizing the store ──────────────────────────────────────────────────
/// What normalizing the stored artifacts did.
#[derive(Debug, Clone, Copy, PartialEq, Eq, Structural)]
pub struct NormalizeStats {
    pub total_scanned: usize,
    pub updated: usize,
    pub search_queries: usize,
    pub redirects: usize,
    pub login_pages: usize,
    pub utility_pages: usize,
    pub high_noise: usize,
}

/// A stored artifact as normalization reads it.
pub struct NormalizerInput {
    pub id: String,
    pub title: Option<String>,
    pub url: Option<String>,
    pub domain: Option<String>,
}

/// What normalization writes back for one artifact.
pub struct NormalizedRecord {
    pub id: String,
    pub page_category: String,
    pub noise_score: NoiseScore,
    pub extracted_query: Option<String>,
    pub canonical_url: Option<String>,
}

/// The URL of an input, empty when it has none.
pub open spec fn input_url(i: NormalizerInput) -> Seq<char> {
    text_or_empty(crate::text::opt_text(i.url))
}

/// The category an input gets.
pub open spec fn input_category(i: NormalizerInput, counts: Seq<(String, usize)>, total: nat) -> Seq<
    char,
> {
    page_category(input_url(i), crate::text::opt_text(i.title), crate::text::opt_text(i.domain))
}

/// The noise of an input over `10 * total`, capped at 1.
pub open spec fn input_noise(i: NormalizerInput, counts: Seq<(String, usize)>, total: nat) -> nat {
    crate::rank::min_nat(
        raw_noise(input_url(i), crate::text::opt_text(i.title), crate::text::opt_text(i.domain), counts, total),
        10 * total,
    )
}

/// The input is noise: its score exceeds 0.7.
pub open spec fn input_is_noisy(i: NormalizerInput, counts: Seq<(String, usize)>, total: nat) -> bool {
    10 * input_noise(i, counts, total) > 7 * (10 * total)
}

/// How many inputs fall in category `name`.
pub open spec fn category_count(
    inputs: Seq<NormalizerInput>,
    counts: Seq<(String, usize)>,
    total: nat,
    name: Seq<char>,
) -> nat
    decreases inputs.len(),
{
    if inputs.len() == 0 {
        0
    } else {
        category_count(inputs.drop_last(), counts, total, name) + if input_category(
            inputs.last(),
            counts,
            total,
        ) == name {
            1nat
        } else {
            0nat
        }
    }
}

/// How many inputs are noise.
pub open spec fn noisy_count(inputs: Seq<NormalizerInput>, counts: Seq<(String, usize)>, total: nat) -> nat
    decreases inputs.len(),
{
    if inputs.len() == 0 {
        0
    } else {
        noisy_count(inputs.drop_last(), counts, total) + if input_is_noisy(
            inputs.last(),
            counts,
            total,
        ) {
            1nat
        } else {
            0nat
        }
    }
}

/// The pages each input is measured against: all of them, and at least one.
pub open spec fn scan_total(n: nat) -> nat {
    if n == 0 {
        1
    } else {
        n
    }
}

/// `r` is what normalization writes for input `i`.
pub open spec fn record_matches(
    i: NormalizerInput,
    counts: Seq<(String, usize)>,
    total: nat,
    r: NormalizedRecord,
) -> bool {
    &&& r.id@ == i.id@
    &&& r.page_category@ == input_category(i, counts, total)
    &&& r.noise_score.numerator == input_noise(i, counts, total)
    &&& r.noise_score.denominator == 10 * total
    &&& crate::text::opt_text(r.extracted_query) == search_query_of(input_url(i))
    &&& crate::text::opt_text(r.canonical_url) == if input_url(i).len() == 0 {
        None::<Seq<char>>
    } else {
        Some(canonical_of(input_url(i)))
    }
}

fn opt_as_str(o: &Option<String>) -> (r: Option<&str>)
    ensures
        opt_view(r) == crate::text::opt_text(*o),
{
    match o {
        Some(s) => Some(s.as_str()),
        None => None,
    }
}

/// Normalizes one artifact against `title_counts` and `total` pages.
pub fn normalize_record(input: &NormalizerInput, title_counts: &Vec<(String, usize)>, total: usize) -> (r:
    NormalizedRecord)
    requires
        total >= 1,
    ensures
        record_matches(*input, title_counts@, total as nat, r),
{
    let url: &str = match &input.url {
        Some(u) => u.as_str(),
        None => "",
    };
    proof {
        reveal_strlit("");
    }
    assert(url@ =~= input_url(*input));
    let extracted_query = match extract_search_query(url) {
        Some(info) => Some(info.query),
        None => None,
    };
    let classification = classify_page(
        url,
        opt_as_str(&input.title),
        opt_as_str(&input.domain),
        title_counts,
        total,
    );
    let canonical_url = if url.is_empty() {
        None
    } else {
        Some(canonicalize_url(url))
    };
    NormalizedRecord {
        id: input.id.clone(),
        page_category: classification.category,
        noise_score: classification.noise_score,
        extracted_query,
        canonical_url,
    }
}

/// Normalizes every stored artifact: what to write back for each, and the
/// tally of categories and noisy pages. `title_counts` counts the stored
/// artifacts by lowercased, trimmed title.
pub fn normalize_records(inputs: &Vec<NormalizerInput>, title_counts: &Vec<(String, usize)>) -> (r: (
    Vec<NormalizedRecord>,
    NormalizeStats,
))
    ensures
        r.0@.len() == inputs@.len(),
        forall|k: int|
            0 <= k < inputs@.len() ==> record_matches(
                inputs@[k],
                title_counts@,
                scan_total(inputs@.len()),
                #[trigger] r.0@[k],
            ),
        r.1.total_scanned == inputs@.len(),
        r.1.updated == inputs@.len(),
        r.1.search_queries == category_count(
            inputs@,
            title_counts@,
            scan_total(inputs@.len()),
            "search_query"@,
        ),
        r.1.redirects == category_count(inputs@, title_counts@, scan_total(inputs@.len()), "redirect"@),
        r.1.login_pages == category_count(inputs@, title_counts@, scan_total(inputs@.len()), "login"@),
        r.1.utility_pages == category_count(
            inputs@,
            title_counts@,
            scan_total(inputs@.len()),
            "utility"@,
        ),
        r.1.high_noise == noisy_count(inputs@, title_counts@, scan_total(inputs@.len())),
{
    let n = inputs.len();
    let total = if n == 0 {
        1
    } else {
        n
    };
    let ghost t = scan_total(n as nat);
    let ghost cs = title_counts@;
    let mut records: Vec<NormalizedRecord> = Vec::new();
    let mut stats = NormalizeStats {
        total_scanned: n,
        updated: 0,
        search_queries: 0,
        redirects: 0,
        login_pages: 0,
        utility_pages: 0,
        high_noise: 0,
    };
    let mut i: usize = 0;
    while i < n
        invariant
            n == inputs@.len(),
            i <= n,
            total == t,
            t == scan_total(n as nat),
            cs == title_counts@,
            records@.len() == i,
            forall|k: int| 0 <= k < i ==> record_matches(inputs@[k], cs, t, #[trigger] records@[k]),
            stats.total_scanned == n,
            stats.updated == i,
            stats.search_queries == category_count(inputs@.take(i as int), cs, t, "search_query"@),
            stats.redirects == category_count(inputs@.take(i as int), cs, t, "redirect"@),
            stats.login_pages == category_count(inputs@.take(i as int), cs, t, "login"@),
            stats.utility_pages == category_count(inputs@.take(i as int), cs, t, "utility"@),
            stats.high_noise == noisy_count(inputs@.take(i as int), cs, t),
            stats.search_queries <= i && stats.redirects <= i && stats.login_pages <= i
                && stats.utility_pages <= i && stats.high_noise <= i,
        decreases n - i,
    {
        let ghost pre = inputs@.take(i as int);
        assert(inputs@.take(i + 1).drop_last() == pre);
        assert(inputs@.take(i + 1).last() == inputs@[i as int]);
        let rec = normalize_record(&inputs[i], title_counts, total);
        proof {
            reveal_strlit("search_query");
            reveal_strlit("redirect");
            reveal_strlit("login");
            reveal_strlit("utility");
            assert("search_query"@.len() == 12 && "redirect"@.len() == 8 && "login"@.len() == 5
                && "utility"@.len() == 7);
        }
        let c = chars_of(rec.page_category.as_str());
        if eq_lit(c.as_slice(), "search_query") {
            stats.search_queries = stats.search_queries + 1;
        } else if eq_lit(c.as_slice(), "redirect") {
            stats.redirects = stats.redirects + 1;
        } else if eq_lit(c.as_slice(), "login") {
            stats.login_pages = stats.login_pages + 1;
        } else if eq_lit(c.as_slice(), "utility") {
            stats.utility_pages = stats.utility_pages + 1;
        }
        let ns = rec.noise_score;
        if 10 * ns.numerator > 7 * ns.denominator {
            stats.high_noise = stats.high_noise + 1;
        }
        stats.updated = stats.updated + 1;
        records.push(rec);
        i += 1;
    }
    assert(inputs@.take(n as int) == inputs@);
    (records, stats)
}

} // verus!
