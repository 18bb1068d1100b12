//! Query expansion: curated synonyms, terms that co-occur with the query in
//! the user's own history, and pseudo-relevance feedback, merged into an FTS5
//! `OR` query.

use vstd::prelude::*;
use crate::segmenter::{keywords, search_tokens, Segmenter};
use crate::rank::{distinct, min_nat, occurrences};
use crate::segmenter::most_frequent;
use crate::text::{
    append_chars, char_vecs_of, chars_of, eq_chars, eq_ignore_ascii_case,
    eq_ignore_ascii_case_exec, join, join_exec, lower_chars, lowercase, member_strs, slice_to_vec,
    string_of, strings_of, trim, trimmed, views,
};

verus! {

/// Most terms an expanded query keeps.
pub const MAX_EXPANDED_TERMS: usize = 32;

/// Curated concept → synonyms table; a match on the concept or on any of
/// its synonyms brings in the whole group.
pub open spec fn builtin_table() -> Seq<(Seq<char>, Seq<Seq<char>>)> {
    seq![
        ("驾考"@, seq!["驾照"@, "考驾照"@, "驾驶证"@, "驾驶证考试"@, "科目一"@, "科目二"@, "科目三"@, "科目四"@, "交规"@, "刷题"@, "驾校"@]),
        ("NAS"@, seq!["存储"@, "硬盘"@, "文件服务器"@, "TrueNAS"@, "群晖"@, "威联通"@, "QNAP"@, "Synology"@]),
        ("OpenWrt"@, seq!["软路由"@, "旁路由"@, "路由器"@, "固件"@, "LEDE"@]),
        ("Docker"@, seq!["容器"@, "镜像"@, "docker-compose"@, "k8s"@, "kubernetes"@]),
        ("VPN"@, seq!["翻墙"@, "代理"@, "梯子"@, "科学上网"@, "Clash"@, "V2Ray"@, "WireGuard"@]),
        ("ZFS"@, seq!["文件系统"@, "ARC"@, "L2ARC"@, "SLOG"@, "存储池"@, "zpool"@]),
        ("编程"@, seq!["代码"@, "开发"@, "coding"@, "programming"@, "开发者"@]),
        ("Python"@, seq!["py"@, "pip"@, "django"@, "flask"@, "pytorch"@]),
        ("Rust"@, seq!["cargo"@, "crate"@, "rustup"@, "borrow checker"@]),
    ]
}

fn builtin_table_exec() -> (r: Vec<(&'static str, Vec<&'static str>)>)
    ensures
        r@.map_values(|e: (&str, Vec<&str>)| (e.0@, e.1@.map_values(|s: &str| s@)))
            == builtin_table(),
{
    let r = vec![
        ("驾考", vec!["驾照", "考驾照", "驾驶证", "驾驶证考试", "科目一", "科目二", "科目三", "科目四", "交规", "刷题", "驾校"]),
        ("NAS", vec!["存储", "硬盘", "文件服务器", "TrueNAS", "群晖", "威联通", "QNAP", "Synology"]),
        ("OpenWrt", vec!["软路由", "旁路由", "路由器", "固件", "LEDE"]),
        ("Docker", vec!["容器", "镜像", "docker-compose", "k8s", "kubernetes"]),
        ("VPN", vec!["翻墙", "代理", "梯子", "科学上网", "Clash", "V2Ray", "WireGuard"]),
        ("ZFS", vec!["文件系统", "ARC", "L2ARC", "SLOG", "存储池", "zpool"]),
        ("编程", vec!["代码", "开发", "coding", "programming", "开发者"]),
        ("Python", vec!["py", "pip", "django", "flask", "pytorch"]),
        ("Rust", vec!["cargo", "crate", "rustup", "borrow checker"]),
    ];
    assert(r@.map_values(|e: (&str, Vec<&str>)| (e.0@, e.1@.map_values(|s: &str| s@)))
        =~~= builtin_table());
    r
}

/// Platform and structural words that co-occurrence and feedback mining
/// must never add: they are not topical.
pub open spec fn expansion_stoplist() -> Seq<Seq<char>> {
    seq![
        "知乎"@, "微博"@, "贴吧"@, "bilibili"@, "哔哩哔哩"@, "b站"@, "csdn"@, "简书"@, "掘金"@,
        "博客园"@, "百度"@, "谷歌"@, "搜索"@, "视频"@, "图片"@, "下载"@, "官网"@, "官方"@,
        "首页"@, "登录"@, "注册"@, "论坛"@, "在线"@, "免费"@, "大全"@, "最新"@, "v2ex"@,
        "太平洋"@, "哪里"@, "怎么"@, "怎么办"@, "为什么"@, "是什么"@, "如何"@, "多少"@,
        "www"@, "com"@, "cn"@, "http"@, "https"@, "html"@, "index"@,
    ]
}

/// A mined term whose lowercase form is on the stoplist.
pub open spec fn is_stopword(term: Seq<char>) -> bool {
    expansion_stoplist().contains(lowercase(term))
}

fn is_stopword_chars(term: &[char]) -> (r: bool)
    ensures
        r == is_stopword(term@),
{
    let lower = lower_chars(term);
    let list: Vec<&str> = vec![
        "知乎", "微博", "贴吧", "bilibili", "哔哩哔哩", "b站", "csdn", "简书", "掘金",
        "博客园", "百度", "谷歌", "搜索", "视频", "图片", "下载", "官网", "官方",
        "首页", "登录", "注册", "论坛", "在线", "免费", "大全", "最新", "v2ex",
        "太平洋", "哪里", "怎么", "怎么办", "为什么", "是什么", "如何", "多少",
        "www", "com", "cn", "http", "https", "html", "index",
    ];
    assert(list@.map_values(|s: &str| s@) =~= expansion_stoplist());
    member_strs(&list, lower.as_slice())
}

/// The expansion stopwords are the platform names and structural words
/// below, in any case: mining never adds a term whose lowercase form is one
/// of them.
pub proof fn lemma_expansion_stopwords(term: Seq<char>)
    ensures
        is_stopword(term) <==> seq![
                "知乎"@, "微博"@, "贴吧"@, "bilibili"@, "哔哩哔哩"@, "b站"@, "csdn"@, "简书"@,
                "掘金"@, "博客园"@, "百度"@, "谷歌"@, "搜索"@, "视频"@, "图片"@, "下载"@, "官网"@,
                "官方"@, "首页"@, "登录"@, "注册"@, "论坛"@, "在线"@, "免费"@, "大全"@, "最新"@,
                "v2ex"@, "太平洋"@, "哪里"@, "怎么"@, "怎么办"@, "为什么"@, "是什么"@, "如何"@,
                "多少"@, "www"@, "com"@, "cn"@, "http"@, "https"@, "html"@, "index"@,
            ].contains(lowercase(term)),
{
    assert(expansion_stoplist() =~= seq![
            "知乎"@, "微博"@, "贴吧"@, "bilibili"@, "哔哩哔哩"@, "b站"@, "csdn"@, "简书"@,
            "掘金"@, "博客园"@, "百度"@, "谷歌"@, "搜索"@, "视频"@, "图片"@, "下载"@, "官网"@,
            "官方"@, "首页"@, "登录"@, "注册"@, "论坛"@, "在线"@, "免费"@, "大全"@, "最新"@,
            "v2ex"@, "太平洋"@, "哪里"@, "怎么"@, "怎么办"@, "为什么"@, "是什么"@, "如何"@,
            "多少"@, "www"@, "com"@, "cn"@, "http"@, "https"@, "html"@, "index"@,
        ]);
}

/// Whether a mined term is a platform or structural stopword.
pub fn is_expansion_stopword(term: &str) -> (r: bool)
    ensures
        r == is_stopword(term@),
{
    let c = chars_of(term);
    is_stopword_chars(c.as_slice())
}

/// The group of a table entry, if `token_lower` is its concept or one of its
/// synonyms (compared in lowercase).
pub open spec fn entry_terms(token_lower: Seq<char>, e: (Seq<char>, Seq<Seq<char>>)) -> Seq<
    Seq<char>,
> {
    if token_lower == lowercase(e.0) || e.1.map_values(|s: Seq<char>| lowercase(s)).contains(
        token_lower,
    ) {
        seq![e.0] + e.1
    } else {
        seq![]
    }
}

/// Curated groups that `token_lower` belongs to, over a table prefix.
pub open spec fn table_terms(token_lower: Seq<char>, table: Seq<(Seq<char>, Seq<Seq<char>>)>) -> Seq<
    Seq<char>,
>
    decreases table.len(),
{
    if table.len() == 0 {
        seq![]
    } else {
        table_terms(token_lower, table.drop_last()) + entry_terms(token_lower, table.last())
    }
}

/// Curated synonyms of a token: every group whose concept or synonym equals
/// the token ignoring case, concept first.
pub open spec fn builtin_synonyms(token: Seq<char>) -> Seq<Seq<char>> {
    table_terms(lowercase(token), builtin_table())
}

proof fn lemma_table_terms_contains(
    tl: Seq<char>,
    table: Seq<(Seq<char>, Seq<Seq<char>>)>,
    x: Seq<char>,
)
    ensures
        table_terms(tl, table).contains(x) <==> exists|k: int|
            0 <= k < table.len() && #[trigger] entry_terms(tl, table[k]).contains(x),
    decreases table.len(),
{
    if table.len() > 0 {
        let p = table.drop_last();
        lemma_table_terms_contains(tl, p, x);
        vstd::seq_lib::lemma_seq_concat_contains_all_elements(
            table_terms(tl, p),
            entry_terms(tl, table.last()),
            x,
        );
        if exists|k: int| 0 <= k < table.len() && #[trigger] entry_terms(tl, table[k]).contains(x) {
            let k = choose|k: int| 0 <= k < table.len() && #[trigger] entry_terms(tl, table[k]).contains(x);
            if k < table.len() - 1 {
                assert(p[k] == table[k]);
            }
        }
        if exists|k: int| 0 <= k < p.len() && #[trigger] entry_terms(tl, p[k]).contains(x) {
            let k = choose|k: int| 0 <= k < p.len() && #[trigger] entry_terms(tl, p[k]).contains(x);
            assert(table[k] == p[k]);
        }
        assert(table[table.len() - 1] == table.last());
    }
}

/// Curated synonyms work both ways: a term that a token brings in brings
/// the token back in (up to case).
pub proof fn lemma_builtin_synonyms_bidirectional(token: Seq<char>, w: Seq<char>)
    requires
        builtin_synonyms(token).contains(w),
    ensures
        exists|x: Seq<char>| #[trigger] builtin_synonyms(w).contains(x) && lowercase(x) == lowercase(
            token,
        ),
{
    let table = builtin_table();
    let tl = lowercase(token);
    let wl = lowercase(w);
    lemma_table_terms_contains(tl, table, w);
    let k = choose|k: int| 0 <= k < table.len() && #[trigger] entry_terms(tl, table[k]).contains(w);
    let e = table[k];
    let group = seq![e.0] + e.1;
    let lows = e.1.map_values(|s: Seq<char>| lowercase(s));
    // the word of the group that the token matched
    let x = if tl == lowercase(e.0) {
        e.0
    } else {
        let j = choose|j: int| 0 <= j < lows.len() && lows[j] == tl;
        e.1[j]
    };
    assert(lowercase(x) == tl);
    assert(group.contains(x)) by {
        if tl == lowercase(e.0) {
            assert(group[0] == x);
        } else {
            let j = choose|j: int| 0 <= j < lows.len() && lows[j] == tl;
            assert(group[j + 1] == e.1[j]);
        }
    }
    // `w` belongs to the same group, so it matches the group too
    assert(entry_terms(tl, e) == group);
    let i = choose|i: int| 0 <= i < group.len() && group[i] == w;
    if i > 0 {
        assert(lows[i - 1] == wl);
    }
    assert(entry_terms(wl, e) == group);
    lemma_table_terms_contains(wl, table, x);
    assert(entry_terms(wl, table[k]).contains(x));
    assert(table_terms(wl, table).contains(x));
    assert(builtin_synonyms(w) == table_terms(wl, table));
    assert(builtin_synonyms(w).contains(x));
}

/// The curated synonym groups, each concept first: a token equal, ignoring
/// case, to a word of a group gets every word of that group among its
/// curated synonyms; and every curated synonym of a token is a word of a
/// group holding a word equal to the token ignoring case.
pub proof fn lemma_curated_groups(token: Seq<char>)
    ensures
        ({
            let groups =
                seq![
                    seq!["驾考"@, "驾照"@, "考驾照"@, "驾驶证"@, "驾驶证考试"@, "科目一"@, "科目二"@, "科目三"@, "科目四"@, "交规"@, "刷题"@, "驾校"@],
                    seq!["NAS"@, "存储"@, "硬盘"@, "文件服务器"@, "TrueNAS"@, "群晖"@, "威联通"@, "QNAP"@, "Synology"@],
                    seq!["OpenWrt"@, "软路由"@, "旁路由"@, "路由器"@, "固件"@, "LEDE"@],
                    seq!["Docker"@, "容器"@, "镜像"@, "docker-compose"@, "k8s"@, "kubernetes"@],
                    seq!["VPN"@, "翻墙"@, "代理"@, "梯子"@, "科学上网"@, "Clash"@, "V2Ray"@, "WireGuard"@],
                    seq!["ZFS"@, "文件系统"@, "ARC"@, "L2ARC"@, "SLOG"@, "存储池"@, "zpool"@],
                    seq!["编程"@, "代码"@, "开发"@, "coding"@, "programming"@, "开发者"@],
                    seq!["Python"@, "py"@, "pip"@, "django"@, "flask"@, "pytorch"@],
                    seq!["Rust"@, "cargo"@, "crate"@, "rustup"@, "borrow checker"@],
                ];
            &&& forall|g: int, i: int, j: int|
                #![trigger lowercase(groups[g][i]), groups[g][j]]
                0 <= g < groups.len() && 0 <= i < groups[g].len() && 0 <= j < groups[g].len()
                    && lowercase(token) == lowercase(groups[g][i]) ==> builtin_synonyms(
                    token,
                ).contains(groups[g][j])
            &&& forall|x: Seq<char>|
                #[trigger] builtin_synonyms(token).contains(x) ==> exists|g: int, i: int, j: int|
                    0 <= g < groups.len() && 0 <= i < groups[g].len() && 0 <= j < groups[g].len()
                        && lowercase(token) == lowercase(#[trigger] groups[g][i]) && #[trigger] groups[g][j]
                        == x
        }),
{
    let groups =
        seq![
            seq!["驾考"@, "驾照"@, "考驾照"@, "驾驶证"@, "驾驶证考试"@, "科目一"@, "科目二"@, "科目三"@, "科目四"@, "交规"@, "刷题"@, "驾校"@],
            seq!["NAS"@, "存储"@, "硬盘"@, "文件服务器"@, "TrueNAS"@, "群晖"@, "威联通"@, "QNAP"@, "Synology"@],
            seq!["OpenWrt"@, "软路由"@, "旁路由"@, "路由器"@, "固件"@, "LEDE"@],
            seq!["Docker"@, "容器"@, "镜像"@, "docker-compose"@, "k8s"@, "kubernetes"@],
            seq!["VPN"@, "翻墙"@, "代理"@, "梯子"@, "科学上网"@, "Clash"@, "V2Ray"@, "WireGuard"@],
            seq!["ZFS"@, "文件系统"@, "ARC"@, "L2ARC"@, "SLOG"@, "存储池"@, "zpool"@],
            seq!["编程"@, "代码"@, "开发"@, "coding"@, "programming"@, "开发者"@],
            seq!["Python"@, "py"@, "pip"@, "django"@, "flask"@, "pytorch"@],
            seq!["Rust"@, "cargo"@, "crate"@, "rustup"@, "borrow checker"@],
        ];
    let table = builtin_table();
    let tl = lowercase(token);
    assert(groups.len() == table.len());
    assert forall|g: int| 0 <= g < groups.len() implies #[trigger] groups[g] == seq![table[g].0]
        + table[g].1 by {
        assert(groups[g] =~= seq![table[g].0] + table[g].1);
    }
    assert forall|g: int, i: int, j: int|
        #![trigger lowercase(groups[g][i]), groups[g][j]]
        0 <= g < groups.len() && 0 <= i < groups[g].len() && 0 <= j < groups[g].len() && tl
            == lowercase(groups[g][i]) implies builtin_synonyms(token).contains(groups[g][j]) by {
        let e = table[g];
        assert(groups[g] == seq![e.0] + e.1);
        if i > 0 {
            let lows = e.1.map_values(|s: Seq<char>| lowercase(s));
            assert(groups[g][i] == e.1[i - 1]);
            assert(lows[i - 1] == tl);
        } else {
            assert(groups[g][0] == e.0);
        }
        assert(entry_terms(tl, e) == groups[g]);
        assert(entry_terms(tl, table[g]).contains(groups[g][j]));
        lemma_table_terms_contains(tl, table, groups[g][j]);
    }
    assert forall|x: Seq<char>| #[trigger] builtin_synonyms(token).contains(x) implies exists|
        g: int,
        i: int,
        j: int,
    |
        0 <= g < groups.len() && 0 <= i < groups[g].len() && 0 <= j < groups[g].len() && tl
            == lowercase(#[trigger] groups[g][i]) && #[trigger] groups[g][j] == x by {
        lemma_table_terms_contains(tl, table, x);
        let g = choose|k: int| 0 <= k < table.len() && #[trigger] entry_terms(tl, table[k]).contains(x);
        let e = table[g];
        assert(groups[g] == seq![e.0] + e.1);
        let lows = e.1.map_values(|s: Seq<char>| lowercase(s));
        assert(tl == lowercase(e.0) || lows.contains(tl));
        let i: int = if tl == lowercase(e.0) {
            0
        } else {
            let k = choose|k: int| 0 <= k < lows.len() && lows[k] == tl;
            k + 1
        };
        assert(tl == lowercase(groups[g][i]));
        assert(entry_terms(tl, e) == groups[g]);
        let j = choose|j: int| 0 <= j < groups[g].len() && groups[g][j] == x;
        assert(groups[g][j] == x);
    }
}

/// Curated synonyms of a token.
pub fn builtin_synonyms_for(token: &str) -> (r: Vec<String>)
    ensures
        r.deep_view() == builtin_synonyms(token@),
{
    let tc = chars_of(token);
    let tl = lower_chars(tc.as_slice());
    let table = builtin_table_exec();
    let ghost spec_table = builtin_table();
    let mut out: Vec<Vec<char>> = Vec::new();
    let mut i: usize = 0;
    while i < table.len()
        invariant
            i <= table.len(),
            spec_table == builtin_table(),
            table@.map_values(|e: (&str, Vec<&str>)| (e.0@, e.1@.map_values(|s: &str| s@)))
                == spec_table,
            views(out@) == table_terms(tl@, spec_table.take(i as int)),
        decreases table.len() - i,
    {
        let ghost e = spec_table[i as int];
        assert(spec_table.take(i + 1).drop_last() == spec_table.take(i as int));
        assert(spec_table.take(i + 1).last() == e);
        let term = chars_of(table[i].0);
        let syns = &table[i].1;
        assert(term@ == e.0);
        assert(syns@.map_values(|s: &str| s@) == e.1);
        let term_lower = lower_chars(term.as_slice());
        let mut matched = eq_chars(tl.as_slice(), term_lower.as_slice());
        let mut j: usize = 0;
        while j < syns.len()
            invariant
                j <= syns.len(),
                syns@.map_values(|s: &str| s@) == e.1,
                matched == (tl@ == lowercase(e.0) || e.1.take(j as int).map_values(
                    |s: Seq<char>| lowercase(s),
                ).contains(tl@)),
            decreases syns.len() - j,
        {
            let sc = chars_of(syns[j]);
            let sl = lower_chars(sc.as_slice());
            proof {
                let before = e.1.take(j as int).map_values(|s: Seq<char>| lowercase(s));
                let after = e.1.take(j + 1).map_values(|s: Seq<char>| lowercase(s));
                assert(after =~= before.push(lowercase(e.1[j as int])));
                if before.contains(tl@) {
                    let k = choose|k: int| 0 <= k < before.len() && before[k] == tl@;
                    assert(after[k] == tl@);
                }
                if after.contains(tl@) && !before.contains(tl@) {
                    let k = choose|k: int| 0 <= k < after.len() && after[k] == tl@;
                    if k < before.len() {
                        assert(before[k] == tl@);
                    }
                }
                if sl@ == tl@ {
                    assert(after[j as int] == tl@);
                }
            }
            if eq_chars(sl.as_slice(), tl.as_slice()) {
                matched = true;
            }
            j += 1;
        }
        assert(e.1.take(syns.len() as int) =~= e.1);
        if matched {
            let ghost before = views(out@);
            out.push(term);
            let mut j: usize = 0;
            while j < syns.len()
                invariant
                    j <= syns.len(),
                    syns@.map_values(|s: &str| s@) == e.1,
                    views(out@) =~= before + seq![e.0] + e.1.take(j as int),
                decreases syns.len() - j,
            {
                let ghost o = views(out@);
                out.push(chars_of(syns[j]));
                assert(views(out@) =~= o.push(e.1[j as int]));
                assert(e.1.take(j + 1) =~= e.1.take(j as int).push(e.1[j as int]));
                j += 1;
            }
        } else {
            assert(entry_terms(tl@, e) =~= seq![]);
        }
        i += 1;
    }
    assert(spec_table.take(table.len() as int) =~= spec_table);
    strings_of(&out)
}

/// A term without double quotes, trimmed.
pub open spec fn sanitized(term: Seq<char>) -> Seq<char> {
    trim(term.filter(|c: char| c != '"'))
}

/// `sanitize_fts_term`: drops every double quote, then trims.
pub fn sanitize_fts_term(term: &[char]) -> (r: Vec<char>)
    ensures
        r@ == sanitized(term@),
{
    let mut kept: Vec<char> = Vec::new();
    let mut i: usize = 0;
    while i < term.len()
        invariant
            i <= term.len(),
            kept@ == term@.take(i as int).filter(|c: char| c != '"'),
        decreases term.len() - i,
    {
        proof {
            let next = term@.take(i + 1);
            assert(next.drop_last() == term@.take(i as int));
            vstd::seq_lib::lemma_seq_take_len(term@, i + 1);
            reveal_with_fuel(Seq::filter, 1);
        }
        if term[i] != '"' {
            kept.push(term[i]);
        }
        i += 1;
    }
    assert(term@.take(term.len() as int) =~= term@);
    trimmed(kept.as_slice())
}

/// The quoted clauses of the terms that are not empty once sanitized.
pub open spec fn fts_clauses(terms: Seq<Seq<char>>) -> Seq<Seq<char>>
    decreases terms.len(),
{
    if terms.len() == 0 {
        seq![]
    } else {
        let p = fts_clauses(terms.drop_last());
        let clean = sanitized(terms.last());
        if clean.len() == 0 {
            p
        } else {
            p.push(seq!['"'] + clean + seq!['"'])
        }
    }
}

/// The FTS5 query: each sanitized, non-empty term in double quotes, joined
/// with ` OR `.
pub open spec fn fts_query(terms: Seq<Seq<char>>) -> Seq<char> {
    join(fts_clauses(terms), " OR "@)
}

/// FTS5 `OR` query over the terms.
pub fn build_fts_query_from_terms(terms: &[String]) -> (r: String)
    ensures
        r@ == fts_query(terms@.map_values(|s: String| s@)),
{
    let ghost ts = terms@.map_values(|s: String| s@);
    let mut clauses: Vec<Vec<char>> = Vec::new();
    let mut i: usize = 0;
    while i < terms.len()
        invariant
            i <= terms.len(),
            ts == terms@.map_values(|s: String| s@),
            views(clauses@) == fts_clauses(ts.take(i as int)),
        decreases terms.len() - i,
    {
        assert(ts.take(i + 1).drop_last() == ts.take(i as int));
        assert(ts.take(i + 1).last() == terms@[i as int]@);
        let tc = chars_of(terms[i].as_str());
        let clean = sanitize_fts_term(tc.as_slice());
        if clean.len() > 0 {
            let mut q: Vec<char> = Vec::new();
            q.push('"');
            append_chars(&mut q, clean.as_slice());
            q.push('"');
            assert(q@ =~= seq!['"'] + clean@ + seq!['"']);
            let ghost before = views(clauses@);
            clauses.push(q);
            assert(views(clauses@) =~= before.push(seq!['"'] + clean@ + seq!['"']));
        }
        i += 1;
    }
    assert(ts.take(terms.len() as int) =~= ts);
    let sep = chars_of(" OR ");
    let joined = join_exec(&clauses, sep.as_slice());
    string_of(joined.as_slice())
}

/// The sanitized forms that are not empty, in order.
pub open spec fn sanitized_nonempty(terms: Seq<Seq<char>>) -> Seq<Seq<char>>
    decreases terms.len(),
{
    if terms.len() == 0 {
        seq![]
    } else {
        let p = sanitized_nonempty(terms.drop_last());
        let clean = sanitized(terms.last());
        if clean.len() == 0 {
            p
        } else {
            p.push(clean)
        }
    }
}

/// Sanitized, non-empty terms, the first of each lowercase form kept.
pub open spec fn deduped_terms(terms: Seq<Seq<char>>) -> Seq<Seq<char>> {
    crate::segmenter::dedupe_lower(sanitized_nonempty(terms))
}

/// Sanitizes the terms, drops empty ones and keeps the first of each
/// lowercase form.
pub fn dedupe_terms(terms: &Vec<Vec<char>>) -> (r: Vec<Vec<char>>)
    ensures
        views(r@) == deduped_terms(views(terms@)),
{
    let mut clean: Vec<Vec<char>> = Vec::new();
    let mut i: usize = 0;
    while i < terms.len()
        invariant
            i <= terms.len(),
            views(clean@) == sanitized_nonempty(views(terms@).take(i as int)),
        decreases terms.len() - i,
    {
        assert(views(terms@).take(i + 1).drop_last() == views(terms@).take(i as int));
        assert(views(terms@).take(i + 1).last() == terms@[i as int]@);
        let c = sanitize_fts_term(terms[i].as_slice());
        if c.len() > 0 {
            let ghost before = views(clean@);
            clean.push(c);
            assert(views(clean@) =~= before.push(sanitized(terms@[i as int]@)));
        }
        i += 1;
    }
    assert(views(terms@).take(terms.len() as int) =~= views(terms@));
    crate::segmenter::dedupe(clean)
}

/// An expanded query: the original text, the terms it grew into, and the
/// FTS5 query over them.
#[derive(Debug, Clone, PartialEq, Eq)]
pub struct ExpandedQuery {
    pub original: String,
    pub expanded_terms: Vec<String>,
    pub fts_query: String,
}

/// Builds expanded queries from what the index holds.
pub struct QueryExpander;

/// Title and extracted search query of an indexed page, as the expansion
/// steps read them (an absent value reads as empty).
#[derive(Debug, Clone, PartialEq, Eq)]
pub struct TextRow {
    pub title: String,
    pub extracted_query: String,
}

pub open spec fn row_views(rows: Seq<TextRow>) -> Seq<(Seq<char>, Seq<char>)> {
    rows.map_values(|r: TextRow| (r.title@, r.extracted_query@))
}

/// Curated synonyms of each token, in token order.
pub open spec fn builtin_synonyms_all(tokens: Seq<Seq<char>>) -> Seq<Seq<char>>
    decreases tokens.len(),
{
    if tokens.len() == 0 {
        seq![]
    } else {
        builtin_synonyms_all(tokens.drop_last()) + builtin_synonyms(tokens.last())
    }
}

/// The `LIKE` patterns of the co-occurrence step: the first five tokens,
/// each between `%` signs.
pub open spec fn cooccurrence_patterns_of(tokens: Seq<Seq<char>>) -> Seq<Seq<char>> {
    tokens.take(min_nat(5, tokens.len()) as int).map_values(
        |t: Seq<char>| seq!['%'] + t + seq!['%'],
    )
}

/// The text a co-occurring row is mined from: title, a space, query.
pub open spec fn row_text(row: (Seq<char>, Seq<char>)) -> Seq<char> {
    row.0 + " "@ + row.1
}

/// A mined keyword is kept when it is not a stopword and not already one
/// of the tokens (ignoring ASCII case).
pub open spec fn cooccurrence_kept(tokens: Seq<Seq<char>>, kw: Seq<char>) -> bool {
    !is_stopword(kw) && !(exists|i: int|
        0 <= i < tokens.len() && eq_ignore_ascii_case(#[trigger] tokens[i], kw))
}

/// Every kept keyword mined from the rows (eight per row), in row order.
pub open spec fn cooccurrence_candidates(
    tokens: Seq<Seq<char>>,
    rows: Seq<(Seq<char>, Seq<char>)>,
) -> Seq<Seq<char>>
    decreases rows.len(),
{
    if rows.len() == 0 {
        seq![]
    } else {
        cooccurrence_candidates(tokens, rows.drop_last()) + keywords(row_text(rows.last()), 8).filter(
            |kw: Seq<char>| cooccurrence_kept(tokens, kw),
        )
    }
}

/// How many distinct texts occur at least three times in `c`.
pub open spec fn frequent_count(c: Seq<Seq<char>>) -> nat {
    distinct(c).filter(|t: Seq<char>| occurrences(c, t) >= 3).len()
}

/// Co-occurring terms: the candidates seen at least three times, most
/// frequent first (longer first among equally frequent ones), at most six.
pub open spec fn cooccurrence_terms_of(
    tokens: Seq<Seq<char>>,
    rows: Seq<(Seq<char>, Seq<char>)>,
) -> Seq<Seq<char>> {
    let c = cooccurrence_candidates(tokens, rows);
    most_frequent(c, min_nat(6, frequent_count(c)))
}

/// The text pseudo-relevance feedback mines: each row's title and query,
/// each followed by a space.
pub open spec fn feedback_text(rows: Seq<(Seq<char>, Seq<char>)>) -> Seq<char>
    decreases rows.len(),
{
    if rows.len() == 0 {
        seq![]
    } else {
        feedback_text(rows.drop_last()) + rows.last().0 + " "@ + rows.last().1 + " "@
    }
}

/// Feedback terms: eight keywords of the top rows' text, stopwords left out.
pub open spec fn feedback_terms_of(rows: Seq<(Seq<char>, Seq<char>)>) -> Seq<Seq<char>> {
    keywords(feedback_text(rows), 8).filter(|kw: Seq<char>| !is_stopword(kw))
}

/// The expanded terms of a query: sanitized, deduplicated ignoring case,
/// at most [`MAX_EXPANDED_TERMS`].
pub open spec fn expanded_terms_of(terms: Seq<Seq<char>>) -> Seq<Seq<char>> {
    let d = deduped_terms(terms);
    d.take(min_nat(MAX_EXPANDED_TERMS as nat, d.len()) as int)
}

/// All the terms one expansion collects, in order: the query's search
/// tokens, their curated and stored synonyms, the terms co-occurring with
/// those in `co_rows`, then, when the query has an FTS5 form, the feedback
/// terms mined from `feedback_rows`.
pub open spec fn expansion_terms(
    tokens: Seq<Seq<char>>,
    stored: Seq<Seq<char>>,
    co_rows: Seq<(Seq<char>, Seq<char>)>,
    feedback_rows: Seq<(Seq<char>, Seq<char>)>,
) -> Seq<Seq<char>> {
    let grown = tokens + builtin_synonyms_all(tokens) + stored;
    let fb = if fts_query(tokens).len() > 0 {
        feedback_terms_of(feedback_rows)
    } else {
        seq![]
    };
    grown + cooccurrence_terms_of(grown, co_rows) + fb
}

/// Sanitizing term by term distributes over concatenation.
proof fn lemma_sanitized_concat(a: Seq<Seq<char>>, b: Seq<Seq<char>>)
    ensures
        sanitized_nonempty(a + b) == sanitized_nonempty(a) + sanitized_nonempty(b),
    decreases b.len(),
{
    if b.len() == 0 {
        assert(a + b =~= a);
        assert(sanitized_nonempty(a) + sanitized_nonempty(b) =~= sanitized_nonempty(a));
    } else {
        lemma_sanitized_concat(a, b.drop_last());
        assert((a + b).drop_last() =~= a + b.drop_last());
        assert((a + b).last() == b.last());
        let pa = sanitized_nonempty(a);
        let pb = sanitized_nonempty(b.drop_last());
        if sanitized(b.last()).len() > 0 {
            assert((pa + pb).push(sanitized(b.last())) =~= pa + pb.push(sanitized(b.last())));
        }
    }
}

/// Deduplicating a longer sequence keeps what deduplicating its start gave,
/// at the start.
proof fn lemma_dedupe_prefix(a: Seq<Seq<char>>, b: Seq<Seq<char>>)
    ensures
        crate::segmenter::dedupe_lower(a).len() <= crate::segmenter::dedupe_lower(a + b).len(),
        crate::segmenter::dedupe_lower(a + b).take(crate::segmenter::dedupe_lower(a).len() as int)
            == crate::segmenter::dedupe_lower(a),
    decreases b.len(),
{
    let d = crate::segmenter::dedupe_lower(a);
    if b.len() == 0 {
        assert(a + b =~= a);
        assert(d.take(d.len() as int) =~= d);
    } else {
        lemma_dedupe_prefix(a, b.drop_last());
        assert((a + b).drop_last() =~= a + b.drop_last());
        let p = crate::segmenter::dedupe_lower(a + b.drop_last());
        let q = crate::segmenter::dedupe_lower(a + b);
        assert(q == p || q == p.push((a + b).last()));
        assert(q.take(d.len() as int) =~= p.take(d.len() as int));
    }
}

/// The expanded terms of a longer list begin with the expanded terms of its
/// start.
proof fn lemma_expanded_prefix(a: Seq<Seq<char>>, b: Seq<Seq<char>>)
    ensures
        expanded_terms_of(a).len() <= expanded_terms_of(a + b).len(),
        expanded_terms_of(a + b).take(expanded_terms_of(a).len() as int) == expanded_terms_of(a),
{
    lemma_sanitized_concat(a, b);
    lemma_dedupe_prefix(sanitized_nonempty(a), sanitized_nonempty(b));
    let d = deduped_terms(a);
    let e = deduped_terms(a + b);
    assert(e.take(d.len() as int) == d);
    let n = expanded_terms_of(a).len();
    assert(expanded_terms_of(a + b).take(n as int) =~= expanded_terms_of(a));
}

/// Every co-occurrence candidate is kept: no stopword, no token.
proof fn lemma_candidates_kept(tokens: Seq<Seq<char>>, rows: Seq<(Seq<char>, Seq<char>)>)
    ensures
        forall|x: Seq<char>|
            #[trigger] cooccurrence_candidates(tokens, rows).contains(x) ==> cooccurrence_kept(
                tokens,
                x,
            ),
    decreases rows.len(),
{
    if rows.len() > 0 {
        lemma_candidates_kept(tokens, rows.drop_last());
        let pred = |kw: Seq<char>| cooccurrence_kept(tokens, kw);
        let f = keywords(row_text(rows.last()), 8).filter(pred);
        assert forall|x: Seq<char>|
            #[trigger] cooccurrence_candidates(tokens, rows).contains(x) implies cooccurrence_kept(
            tokens,
            x,
        ) by {
            vstd::seq_lib::lemma_seq_concat_contains_all_elements(
                cooccurrence_candidates(tokens, rows.drop_last()),
                f,
                x,
            );
            if f.contains(x) {
                let k = choose|k: int| 0 <= k < f.len() && f[k] == x;
                keywords(row_text(rows.last()), 8).lemma_filter_pred(pred, k);
            }
        }
    }
}

/// Whether `kw` equals one of the tokens ignoring ASCII case.
fn matches_a_token(tokens: &Vec<Vec<char>>, kw: &[char]) -> (r: bool)
    ensures
        r == (exists|i: int|
            0 <= i < tokens@.len() && eq_ignore_ascii_case(#[trigger] views(tokens@)[i], kw@)),
{
    let mut j: usize = 0;
    while j < tokens.len()
        invariant
            j <= tokens.len(),
            forall|m: int| 0 <= m < j ==> !eq_ignore_ascii_case(#[trigger] views(tokens@)[m], kw@),
        decreases tokens.len() - j,
    {
        if eq_ignore_ascii_case_exec(tokens[j].as_slice(), kw) {
            assert(eq_ignore_ascii_case(views(tokens@)[j as int], kw@));
            return true;
        }
        j += 1;
    }
    false
}

/// Keeps the mined keywords that are neither stopwords nor tokens.
fn keep_fresh(tokens: &Vec<Vec<char>>, kws: &Vec<Vec<char>>) -> (r: Vec<Vec<char>>)
    ensures
        views(r@) == views(kws@).filter(|kw: Seq<char>| cooccurrence_kept(views(tokens@), kw)),
{
    let ghost ts = views(tokens@);
    let mut r: Vec<Vec<char>> = Vec::new();
    let mut i: usize = 0;
    while i < kws.len()
        invariant
            i <= kws.len(),
            ts == views(tokens@),
            views(r@) == views(kws@).take(i as int).filter(
                |kw: Seq<char>| cooccurrence_kept(ts, kw),
            ),
        decreases kws.len() - i,
    {
        proof {
            assert(views(kws@).take(i + 1).drop_last() == views(kws@).take(i as int));
            reveal_with_fuel(Seq::filter, 1);
        }
        let kw = &kws[i];
        let keep = !is_stopword_chars(kw.as_slice()) && !matches_a_token(tokens, kw.as_slice());
        assert(keep == cooccurrence_kept(ts, kw@));
        let ghost before = views(r@);
        if keep {
            r.push(slice_to_vec(kw.as_slice()));
            assert(views(r@) =~= before.push(kw@));
        }
        i += 1;
    }
    assert(views(kws@).take(kws.len() as int) =~= views(kws@));
    r
}

/// Keeps the mined keywords that are not stopwords.
fn drop_stopwords(kws: &Vec<Vec<char>>) -> (r: Vec<Vec<char>>)
    ensures
        views(r@) == views(kws@).filter(|kw: Seq<char>| !is_stopword(kw)),
{
    let mut r: Vec<Vec<char>> = Vec::new();
    let mut i: usize = 0;
    while i < kws.len()
        invariant
            i <= kws.len(),
            views(r@) == views(kws@).take(i as int).filter(|kw: Seq<char>| !is_stopword(kw)),
        decreases kws.len() - i,
    {
        proof {
            assert(views(kws@).take(i + 1).drop_last() == views(kws@).take(i as int));
            reveal_with_fuel(Seq::filter, 1);
        }
        let kw = &kws[i];
        let ghost before = views(r@);
        if !is_stopword_chars(kw.as_slice()) {
            r.push(slice_to_vec(kw.as_slice()));
            assert(views(r@) =~= before.push(kw@));
        }
        i += 1;
    }
    assert(views(kws@).take(kws.len() as int) =~= views(kws@));
    r
}

/// How many counted texts occur at least three times.
fn count_frequent(c: &Vec<Vec<char>>) -> (m: usize)
    ensures
        m == frequent_count(views(c@)),
{
    let counted = crate::rank::tally(c);
    let ghost d = distinct(views(c@));
    let ghost pred = |t: Seq<char>| occurrences(views(c@), t) >= 3;
    let mut m: usize = 0;
    let mut i: usize = 0;
    while i < counted.len()
        invariant
            i <= counted.len(),
            d == distinct(views(c@)),
            pred == (|t: Seq<char>| occurrences(views(c@), t) >= 3),
            counted@.len() == d.len(),
            forall|k: int|
                0 <= k < counted@.len() ==> (#[trigger] counted@[k]).0@ == d[k] && counted@[k].1
                    == occurrences(views(c@), d[k]),
            m == d.take(i as int).filter(pred).len(),
            m <= i,
        decreases counted.len() - i,
    {
        proof {
            assert(d.take(i + 1).drop_last() == d.take(i as int));
            reveal_with_fuel(Seq::filter, 1);
        }
        if counted[i].1 >= 3 {
            m += 1;
        }
        i += 1;
    }
    assert(d.take(counted.len() as int) =~= d);
    m
}

/// Appends copies of `more` to `out`.
fn append_strings(out: &mut Vec<String>, more: &Vec<String>)
    ensures
        final(out).deep_view() == old(out).deep_view() + more.deep_view(),
{
    let ghost start = out.deep_view();
    let mut i: usize = 0;
    while i < more.len()
        invariant
            i <= more@.len(),
            out.deep_view() == start + more.deep_view().take(i as int),
        decreases more@.len() - i,
    {
        let ghost before = out.deep_view();
        out.push(crate::text::copy_string(more[i].as_str()));
        assert(out.deep_view() =~= before.push(more@[i as int]@));
        assert(more.deep_view().take(i + 1) =~= more.deep_view().take(i as int).push(more@[i as int]@));
        i += 1;
    }
    assert(more.deep_view().take(more@.len() as int) =~= more.deep_view());
}

impl QueryExpander {
    pub fn new() -> Self {
        QueryExpander
    }

    /// The curated synonyms of each token, then the stored synonyms the
    /// index holds for the tokens (in token order).
    pub fn synonym_terms(&self, tokens: &Vec<String>, stored: &Vec<String>) -> (r: Vec<String>)
        ensures
            r.deep_view() == builtin_synonyms_all(tokens.deep_view()) + stored.deep_view(),
    {
        let ghost ts = tokens.deep_view();
        let mut out: Vec<String> = Vec::new();
        let mut i: usize = 0;
        while i < tokens.len()
            invariant
                i <= tokens.len(),
                ts == tokens.deep_view(),
                out.deep_view() == builtin_synonyms_all(ts.take(i as int)),
            decreases tokens.len() - i,
        {
            assert(ts.take(i + 1).drop_last() == ts.take(i as int));
            assert(ts.take(i + 1).last() == tokens@[i as int]@);
            let syn = builtin_synonyms_for(tokens[i].as_str());
            let mut j: usize = 0;
            let ghost before = out.deep_view();
            while j < syn.len()
                invariant
                    j <= syn.len(),
                    out.deep_view() =~= before + syn.deep_view().take(j as int),
                decreases syn.len() - j,
            {
                let ghost o = out.deep_view();
                out.push(syn[j].clone());
                assert(out.deep_view() =~= o.push(syn@[j as int]@));
                assert(syn.deep_view().take(j + 1) =~= syn.deep_view().take(j as int).push(
                    syn@[j as int]@,
                ));
                j += 1;
            }
            assert(syn.deep_view().take(syn.len() as int) =~= syn.deep_view());
            i += 1;
        }
        assert(ts.take(tokens.len() as int) =~= ts);
        let ghost before = out.deep_view();
        let mut j: usize = 0;
        while j < stored.len()
            invariant
                j <= stored.len(),
                out.deep_view() =~= before + stored.deep_view().take(j as int),
            decreases stored.len() - j,
        {
            let ghost o = out.deep_view();
            out.push(stored[j].clone());
            assert(out.deep_view() =~= o.push(stored@[j as int]@));
            assert(stored.deep_view().take(j + 1) =~= stored.deep_view().take(j as int).push(
                stored@[j as int]@,
            ));
            j += 1;
        }
        assert(stored.deep_view().take(stored.len() as int) =~= stored.deep_view());
        out
    }

    /// The `LIKE` patterns the co-occurrence step looks titles and queries
    /// up by: `%token%` for the first five tokens.
    pub fn cooccurrence_patterns(&self, tokens: &Vec<String>) -> (r: Vec<String>)
        ensures
            r.deep_view() == cooccurrence_patterns_of(tokens.deep_view()),
    {
        let n = if tokens.len() < 5 {
            tokens.len()
        } else {
            5
        };
        let ghost ts = tokens.deep_view();
        let mut out: Vec<String> = Vec::new();
        let mut i: usize = 0;
        while i < n
            invariant
                i <= n <= tokens.len(),
                n == min_nat(5, tokens.len() as nat),
                ts == tokens.deep_view(),
                out.deep_view() =~= ts.take(i as int).map_values(
                    |t: Seq<char>| seq!['%'] + t + seq!['%'],
                ),
            decreases n - i,
        {
            let tc = chars_of(tokens[i].as_str());
            let mut p: Vec<char> = Vec::new();
            p.push('%');
            append_chars(&mut p, tc.as_slice());
            p.push('%');
            assert(p@ =~= seq!['%'] + ts[i as int] + seq!['%']);
            let ps = string_of(p.as_slice());
            let ghost before = out.deep_view();
            out.push(ps);
            assert(out.deep_view() =~= before.push(seq!['%'] + ts[i as int] + seq!['%']));
            i += 1;
        }
        out
    }

    /// Terms that keep co-occurring with the tokens in the rows the patterns
    /// found: eight keywords per row, stopwords and the tokens themselves
    /// left out, then those seen at least three times, most frequent first,
    /// at most six.
    pub fn cooccurrence_terms(
        &self,
        segmenter: &Segmenter,
        tokens: &Vec<String>,
        rows: &Vec<TextRow>,
    ) -> (r: Vec<String>)
        ensures
            r.deep_view() == cooccurrence_terms_of(tokens.deep_view(), row_views(rows@)),
            forall|i: int|
                0 <= i < r@.len() ==> cooccurrence_kept(tokens.deep_view(), #[trigger] r@[i]@),
            ({
                let c = cooccurrence_candidates(tokens.deep_view(), row_views(rows@));
                &&& r@.len() == min_nat(
                    6,
                    distinct(c).filter(|t: Seq<char>| occurrences(c, t) >= 3).len(),
                )
                &&& forall|i: int| 0 <= i < r@.len() ==> occurrences(c, #[trigger] r@[i]@) >= 3
            }),
    {
        let tcs = char_vecs_of(tokens);
        let ghost ts = tokens.deep_view();
        let ghost rv = row_views(rows@);
        let mut cands: Vec<Vec<char>> = Vec::new();
        let mut i: usize = 0;
        while i < rows.len()
            invariant
                i <= rows.len(),
                views(tcs@) == ts,
                ts == tokens.deep_view(),
                rv == row_views(rows@),
                views(cands@) == cooccurrence_candidates(ts, rv.take(i as int)),
            decreases rows.len() - i,
        {
            assert(rv.take(i + 1).drop_last() == rv.take(i as int));
            assert(rv.take(i + 1).last() == rv[i as int]);
            let mut text = String::new();
            crate::text::push_str(&mut text, rows[i].title.as_str());
            crate::text::push_str(&mut text, " ");
            crate::text::push_str(&mut text, rows[i].extracted_query.as_str());
            assert(text@ =~= row_text(rv[i as int]));
            let kw = segmenter.extract_keywords(text.as_str(), 8);
            let kwc = char_vecs_of(&kw);
            let kept = keep_fresh(&tcs, &kwc);
            let ghost before = views(cands@);
            let mut j: usize = 0;
            while j < kept.len()
                invariant
                    j <= kept.len(),
                    views(cands@) =~= before + views(kept@).take(j as int),
                decreases kept.len() - j,
            {
                let ghost o = views(cands@);
                cands.push(slice_to_vec(kept[j].as_slice()));
                assert(views(cands@) =~= o.push(kept@[j as int]@));
                assert(views(kept@).take(j + 1) =~= views(kept@).take(j as int).push(
                    kept@[j as int]@,
                ));
                j += 1;
            }
            assert(views(kept@).take(kept.len() as int) =~= views(kept@));
            i += 1;
        }
        assert(rv.take(rows.len() as int) =~= rv);
        let m = count_frequent(&cands);
        let k = if m < 6 {
            m
        } else {
            6
        };
        let top = crate::segmenter::most_frequent_exec(&cands, k, true);
        let n_cands = cands.len();
        proof {
            let c = views(cands@);
            let keys = crate::segmenter::frequency_keys(c, true);
            let idx = crate::rank::top_k_indices(keys, k as nat);
            assert(c.len() == n_cands);
            crate::segmenter::lemma_top_frequent_at_least(c, true, k as nat, 3, idx);
            distinct(c).lemma_filter_len(|t: Seq<char>| occurrences(c, t) >= 3);
            assert(views(top@).len() == k);
            assert forall|i: int| 0 <= i < top@.len() implies occurrences(c, #[trigger] top@[i]@)
                >= 3 by {
                assert(views(top@)[i] == top@[i]@);
                assert(views(top@)[i] == distinct(c)[idx[i] as int]);
            }
        }
        proof {
            lemma_candidates_kept(ts, rv);
            assert forall|i: int| 0 <= i < top@.len() implies cooccurrence_kept(
                ts,
                #[trigger] top@[i]@,
            ) by {
                assert(views(cands@).contains(top@[i]@));
            }
        }
        let r = strings_of(&top);
        assert(r.deep_view().len() == r@.len());
        assert(views(top@).len() == top@.len());
        assert forall|i: int| 0 <= i < r@.len() implies cooccurrence_kept(
            tokens.deep_view(),
            #[trigger] r@[i]@,
        ) && occurrences(views(cands@), r@[i]@) >= 3 by {
            assert(r.deep_view()[i] == r@[i]@);
            assert(views(top@)[i] == top@[i]@);
        }
        r
    }

    /// The FTS5 query pseudo-relevance feedback searches with: the query's
    /// own search tokens.
    pub fn feedback_query(&self, segmenter: &Segmenter, query: &str) -> (r: String)
        ensures
            r@ == fts_query(search_tokens(query@)),
    {
        let base = segmenter.cut_for_search(query);
        proof {
            assert(base@.map_values(|s: String| s@) =~= base.deep_view());
        }
        build_fts_query_from_terms(base.as_slice())
    }

    /// Feedback terms mined from the best-ranked rows of the feedback query:
    /// eight keywords of their titles and queries, stopwords left out.
    pub fn feedback_terms(&self, segmenter: &Segmenter, rows: &Vec<TextRow>) -> (r: Vec<String>)
        ensures
            r.deep_view() == feedback_terms_of(row_views(rows@)),
            forall|i: int| 0 <= i < r@.len() ==> !is_stopword(#[trigger] r@[i]@),
    {
        let ghost rv = row_views(rows@);
        let mut text = String::new();
        let mut i: usize = 0;
        while i < rows.len()
            invariant
                i <= rows.len(),
                rv == row_views(rows@),
                text@ == feedback_text(rv.take(i as int)),
            decreases rows.len() - i,
        {
            assert(rv.take(i + 1).drop_last() == rv.take(i as int));
            assert(rv.take(i + 1).last() == rv[i as int]);
            let ghost before = text@;
            crate::text::push_str(&mut text, rows[i].title.as_str());
            crate::text::push_str(&mut text, " ");
            crate::text::push_str(&mut text, rows[i].extracted_query.as_str());
            crate::text::push_str(&mut text, " ");
            assert(text@ =~= before + rv[i as int].0 + " "@ + rv[i as int].1 + " "@);
            i += 1;
        }
        assert(rv.take(rows.len() as int) =~= rv);
        let kw = segmenter.extract_keywords(text.as_str(), 8);
        let kwc = char_vecs_of(&kw);
        let kept = drop_stopwords(&kwc);
        let r = strings_of(&kept);
        assert forall|i: int| 0 <= i < r@.len() implies !is_stopword(#[trigger] r@[i]@) by {
            assert(r.deep_view()[i] == r@[i]@);
            views(kwc@).lemma_filter_pred(|kw: Seq<char>| !is_stopword(kw), i);
        }
        r
    }

    /// The expanded query of `query`, given what the index answered along
    /// the way: `stored`, the stored synonyms of its search tokens;
    /// `co_rows`, the rows matching the co-occurrence patterns of the tokens
    /// and their synonyms; `feedback_rows`, the best-ranked rows of the
    /// feedback query (read only when that query is not empty). The terms
    /// begin with the query's own deduplicated tokens.
    pub fn expand_from(
        &self,
        segmenter: &Segmenter,
        query: &str,
        stored: &Vec<String>,
        co_rows: &Vec<TextRow>,
        feedback_rows: &Vec<TextRow>,
    ) -> (r: ExpandedQuery)
        ensures
            r.original@ == query@,
            r.expanded_terms.deep_view() == expanded_terms_of(
                expansion_terms(
                    search_tokens(query@),
                    stored.deep_view(),
                    row_views(co_rows@),
                    row_views(feedback_rows@),
                ),
            ),
            r.fts_query@ == fts_query(r.expanded_terms.deep_view()),
            r.expanded_terms@.len() <= 32,
            expanded_terms_of(search_tokens(query@)).len() <= r.expanded_terms@.len(),
            r.expanded_terms.deep_view().take(expanded_terms_of(search_tokens(query@)).len() as int)
                == expanded_terms_of(search_tokens(query@)),
            forall|a: int, b: int|
                0 <= a < b < r.expanded_terms@.len() ==> lowercase(
                    (#[trigger] r.expanded_terms@[a])@,
                ) != lowercase((#[trigger] r.expanded_terms@[b])@),
    {
        let ghost ts = search_tokens(query@);
        let tokens = segmenter.cut_for_search(query);
        let synonyms = self.synonym_terms(&tokens, stored);
        let mut terms: Vec<String> = Vec::new();
        append_strings(&mut terms, &tokens);
        append_strings(&mut terms, &synonyms);
        assert(terms.deep_view() =~= ts + builtin_synonyms_all(ts) + stored.deep_view());
        let co = self.cooccurrence_terms(segmenter, &terms, co_rows);
        append_strings(&mut terms, &co);
        let fq = self.feedback_query(segmenter, query);
        let fqc = chars_of(fq.as_str());
        if fqc.len() > 0 {
            let fb = self.feedback_terms(segmenter, feedback_rows);
            append_strings(&mut terms, &fb);
        } else {
            assert(terms.deep_view() =~= terms.deep_view() + Seq::<Seq<char>>::empty());
        }
        let r = self.finish(query, &terms);
        proof {
            let all = expansion_terms(ts, stored.deep_view(), row_views(co_rows@), row_views(feedback_rows@));
            assert(terms.deep_view() == all);
            assert(all =~= ts + all.skip(ts.len() as int));
            lemma_expanded_prefix(ts, all.skip(ts.len() as int));
        }
        r
    }

    /// The expanded query over all collected terms: deduplicated, at most
    /// [`MAX_EXPANDED_TERMS`], and its FTS5 query.
    pub fn finish(&self, query: &str, terms: &Vec<String>) -> (r: ExpandedQuery)
        ensures
            r.original@ == query@,
            r.expanded_terms.deep_view() == expanded_terms_of(terms.deep_view()),
            r.fts_query@ == fts_query(expanded_terms_of(terms.deep_view())),
            r.expanded_terms@.len() == min_nat(32, deduped_terms(terms.deep_view()).len()),
            r.expanded_terms.deep_view() == deduped_terms(terms.deep_view()).take(
                r.expanded_terms@.len() as int,
            ),
            forall|a: int, b: int|
                0 <= a < b < r.expanded_terms@.len() ==> lowercase(
                    (#[trigger] r.expanded_terms@[a])@,
                ) != lowercase((#[trigger] r.expanded_terms@[b])@),
    {
        let tc = char_vecs_of(terms);
        let d = dedupe_terms(&tc);
        let n = if d.len() < MAX_EXPANDED_TERMS {
            d.len()
        } else {
            MAX_EXPANDED_TERMS
        };
        let mut kept: Vec<Vec<char>> = Vec::new();
        let mut i: usize = 0;
        while i < n
            invariant
                i <= n <= d.len(),
                views(kept@) =~= views(d@).take(i as int),
            decreases n - i,
        {
            kept.push(slice_to_vec(d[i].as_slice()));
            assert(views(d@).take(i + 1) =~= views(d@).take(i as int).push(d@[i as int]@));
            i += 1;
        }
        let expanded_terms = strings_of(&kept);
        assert(expanded_terms@.map_values(|s: String| s@) =~= expanded_terms.deep_view());
        assert(expanded_terms.deep_view().len() == expanded_terms@.len());
        proof {
            let d = deduped_terms(terms.deep_view());
            crate::segmenter::lemma_dedupe_lower(sanitized_nonempty(terms.deep_view()));
            assert forall|a: int, b: int|
                0 <= a < b < expanded_terms@.len() implies lowercase(
                (#[trigger] expanded_terms@[a])@,
            ) != lowercase((#[trigger] expanded_terms@[b])@) by {
                assert(expanded_terms.deep_view()[a] == expanded_terms@[a]@);
                assert(expanded_terms.deep_view()[b] == expanded_terms@[b]@);
                assert(expanded_terms.deep_view()[a] == d[a]);
                assert(expanded_terms.deep_view()[b] == d[b]);
            }
        }
        let fts = build_fts_query_from_terms(expanded_terms.as_slice());
        let mut original = String::new();
        crate::text::push_str(&mut original, query);
        ExpandedQuery { original, expanded_terms, fts_query: fts }
    }
}

} // verus!
