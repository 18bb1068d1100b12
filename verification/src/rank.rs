//! Ranking by a two-part key, highest first, with earlier entries winning
//! ties; and counting of repeated keys in first-appearance order.

use vstd::prelude::*;
use crate::text::{eq_chars, slice_to_vec, views};

verus! {

/// Entry `i` ranks ahead of entry `j`: larger primary key, then larger
/// secondary key, then the earlier position.
pub open spec fn ahead(keys: Seq<(u128, u128)>, i: int, j: int) -> bool {
    ||| keys[i].0 > keys[j].0
    ||| (keys[i].0 == keys[j].0 && keys[i].1 > keys[j].1)
    ||| (keys[i].0 == keys[j].0 && keys[i].1 == keys[j].1 && i < j)
}

pub open spec fn min_nat(a: nat, b: nat) -> nat {
    if a <= b {
        a
    } else {
        b
    }
}

/// `r` lists, best first, the `k` best entries of `keys` (all of them when
/// there are fewer): it is the first `k` of `keys` sorted by [`ahead`].
pub open spec fn is_top_k(keys: Seq<(u128, u128)>, k: nat, r: Seq<usize>) -> bool {
    &&& r.len() == min_nat(k, keys.len())
    &&& forall|a: int| 0 <= a < r.len() ==> #[trigger] r[a] < keys.len()
    &&& forall|a: int, b: int| 0 <= a < b < r.len() ==> ahead(keys, r[a] as int, r[b] as int)
    &&& forall|a: int, j: int|
        #![trigger ahead(keys, r[a] as int, j)]
        0 <= a < r.len() && 0 <= j < keys.len() && !r.contains(j as usize) ==> ahead(
            keys,
            r[a] as int,
            j,
        )
}

/// The `k` best entries of `keys`, best first: the one sequence that
/// [`is_top_k`] admits.
pub open spec fn top_k_indices(keys: Seq<(u128, u128)>, k: nat) -> Seq<usize> {
    choose|r: Seq<usize>| is_top_k(keys, k, r)
}

proof fn lemma_top_k_agree(keys: Seq<(u128, u128)>, k: nat, r1: Seq<usize>, r2: Seq<usize>, a: int)
    requires
        is_top_k(keys, k, r1),
        is_top_k(keys, k, r2),
        0 <= a < r1.len(),
    ensures
        forall|b: int| 0 <= b <= a ==> r1[b] == r2[b],
    decreases a,
{
    if a > 0 {
        lemma_top_k_agree(keys, k, r1, r2, a - 1);
    }
    let x = r1[a];
    let y = r2[a];
    if x != y {
        // y ranks ahead of x
        if r2.contains(x) {
            let c = choose|c: int| 0 <= c < r2.len() && r2[c] == x;
            if c < a {
                assert(r1[c] == r2[c]);
                assert(ahead(keys, r1[c] as int, r1[a] as int));
            }
            assert(ahead(keys, r2[a] as int, r2[c] as int));
        } else {
            assert(ahead(keys, r2[a] as int, x as int));
        }
        // x ranks ahead of y
        if r1.contains(y) {
            let c = choose|c: int| 0 <= c < r1.len() && r1[c] == y;
            if c < a {
                assert(r1[c] == r2[c]);
                assert(ahead(keys, r2[c] as int, r2[a] as int));
            }
            assert(ahead(keys, r1[a] as int, r1[c] as int));
        } else {
            assert(ahead(keys, r1[a] as int, y as int));
        }
        assert(false);
    }
}

/// Only one sequence satisfies [`is_top_k`].
pub proof fn lemma_top_k_unique(keys: Seq<(u128, u128)>, k: nat, r1: Seq<usize>, r2: Seq<usize>)
    requires
        is_top_k(keys, k, r1),
        is_top_k(keys, k, r2),
    ensures
        r1 == r2,
{
    if r1.len() > 0 {
        lemma_top_k_agree(keys, k, r1, r2, r1.len() - 1);
    }
    assert(r1 =~= r2);
}

/// Whether entry `i` ranks ahead of entry `j`.
fn ahead_exec(keys: &Vec<(u128, u128)>, i: usize, j: usize) -> (r: bool)
    requires
        i < keys.len(),
        j < keys.len(),
    ensures
        r == ahead(keys@, i as int, j as int),
{
    let (p1, s1) = keys[i];
    let (p2, s2) = keys[j];
    p1 > p2 || (p1 == p2 && s1 > s2) || (p1 == p2 && s1 == s2 && i < j)
}

/// Indices of the `k` best entries, best first.
pub fn top_k(keys: &Vec<(u128, u128)>, k: usize) -> (r: Vec<usize>)
    ensures
        is_top_k(keys@, k as nat, r@),
        r@ == top_k_indices(keys@, k as nat),
{
    let n = keys.len();
    let goal = if k < n {
        k
    } else {
        n
    };
    let mut r: Vec<usize> = Vec::new();
    let mut taken: Vec<bool> = Vec::new();
    let mut t: usize = 0;
    while t < n
        invariant
            t <= n == keys.len(),
            taken@.len() == t,
            forall|j: int| 0 <= j < t ==> !taken@[j],
        decreases n - t,
    {
        taken.push(false);
        t += 1;
    }
    while r.len() < goal
        invariant
            n == keys.len(),
            goal <= n,
            goal == min_nat(k as nat, n as nat),
            r.len() <= goal,
            taken@.len() == n,
            forall|j: int| 0 <= j < n ==> (taken@[j] <==> r@.contains(j as usize)),
            forall|a: int| 0 <= a < r.len() ==> #[trigger] r@[a] < n,
            forall|a: int, b: int| 0 <= a < b < r.len() ==> ahead(keys@, r@[a] as int, r@[b] as int),
            forall|a: int, j: int|
                #![trigger ahead(keys@, r@[a] as int, j)]
                0 <= a < r.len() && 0 <= j < n && !r@.contains(j as usize) ==> ahead(
                    keys@,
                    r@[a] as int,
                    j,
                ),
        decreases goal - r.len(),
    {
        // some entry is still free, since r holds fewer than n distinct indices
        let mut best: usize = n;
        let mut j: usize = 0;
        while j < n
            invariant
                n == keys.len(),
                taken@.len() == n,
                j <= n,
                best == n || (best < j && !taken@[best as int]),
                forall|m: int|
                    0 <= m < j && !taken@[m] && m != best ==> ahead(keys@, best as int, m),
                best == n ==> forall|m: int| 0 <= m < j ==> taken@[m],
            decreases n - j,
        {
            if !taken[j] {
                if best == n || ahead_exec(keys, j, best) {
                    best = j;
                }
            }
            j += 1;
        }
        proof {
            if best == n {
                // every index is taken, so r holds n distinct indices
                assert forall|m: usize| (m as int) < n implies #[trigger] r@.contains(m) by {
                    assert(taken@[m as int]);
                }
                lemma_distinct_bound(r@, n as int, keys@);
                assert(false);
            }
        }
        let ghost old_r = r@;
        taken.set(best, true);
        r.push(best);
        proof {
            assert forall|m: int| 0 <= m < n implies (taken@[m] <==> r@.contains(m as usize)) by {
                if m == best as int {
                    assert(r@[old_r.len() as int] == best);
                } else {
                    if old_r.contains(m as usize) {
                        let w = choose|w: int| 0 <= w < old_r.len() && old_r[w] == m as usize;
                        assert(r@[w] == m as usize);
                    }
                    if r@.contains(m as usize) {
                        let w = choose|w: int| 0 <= w < r@.len() && r@[w] == m as usize;
                        assert(w < old_r.len());
                        assert(old_r[w] == m as usize);
                    }
                }
            }
            assert forall|a: int, b: int| 0 <= a < b < r.len() implies ahead(
                keys@,
                r@[a] as int,
                r@[b] as int,
            ) by {
                if b == old_r.len() {
                    assert(!old_r.contains(best));
                }
            }
            assert forall|a: int, m: int|
                #![trigger ahead(keys@, r@[a] as int, m)]
                0 <= a < r.len() && 0 <= m < n && !r@.contains(m as usize) implies ahead(
                keys@,
                r@[a] as int,
                m,
            ) by {
                assert(!taken@[m]);
                if a < old_r.len() {
                    assert(r@[a] == old_r[a]);
                    assert(!old_r.contains(m as usize));
                }
            }
        }
    }
    proof {
        assert(is_top_k(keys@, k as nat, r@));
        assert(exists|x: Seq<usize>| #[trigger] is_top_k(keys@, k as nat, x));
        lemma_top_k_unique(keys@, k as nat, r@, top_k_indices(keys@, k as nat));
    }
    r
}

/// A sequence of indices below `n` that is strictly ordered by [`ahead`]
/// has at most `n` elements... and if every index below `n` is in it, its
/// length is at least `n`; used to show a free index exists.
proof fn lemma_distinct_bound(r: Seq<usize>, n: int, keys: Seq<(u128, u128)>)
    requires
        0 <= n <= usize::MAX,
        forall|a: int, b: int| 0 <= a < b < r.len() ==> ahead(keys, r[a] as int, r[b] as int),
        forall|m: usize| (m as int) < n ==> #[trigger] r.contains(m),
    ensures
        r.len() >= n,
{
    let s = Set::new(|m: int| 0 <= m < n);
    let img = r.map_values(|x: usize| x as int).to_set();
    assert(s.subset_of(img)) by {
        assert forall|m: int| s.contains(m) implies img.contains(m) by {
            assert(r.contains(m as usize));
            let w = choose|w: int| 0 <= w < r.len() && r[w] == m as usize;
            assert(r.map_values(|x: usize| x as int)[w] == m);
        }
    }
    vstd::set_lib::lemma_int_range(0, n);
    assert(s =~= vstd::set_lib::set_int_range(0, n));
    r.map_values(|x: usize| x as int).lemma_cardinality_of_set();
    vstd::set_lib::lemma_len_subset(s, img);
}

/// How many times `t` occurs in `s`.
pub open spec fn occurrences(s: Seq<Seq<char>>, t: Seq<char>) -> nat
    decreases s.len(),
{
    if s.len() == 0 {
        0
    } else {
        occurrences(s.drop_last(), t) + if s.last() == t {
            1nat
        } else {
            0nat
        }
    }
}

/// The distinct elements of `s`, in order of first appearance.
pub open spec fn distinct(s: Seq<Seq<char>>) -> Seq<Seq<char>>
    decreases s.len(),
{
    if s.len() == 0 {
        seq![]
    } else if s.drop_last().contains(s.last()) {
        distinct(s.drop_last())
    } else {
        distinct(s.drop_last()).push(s.last())
    }
}

pub proof fn lemma_distinct_contains(s: Seq<Seq<char>>)
    ensures
        forall|t: Seq<char>| #[trigger] distinct(s).contains(t) <==> s.contains(t),
    decreases s.len(),
{
    if s.len() > 0 {
        let p = s.drop_last();
        let x = s.last();
        lemma_distinct_contains(p);
        assert(s == p.push(x));
        assert forall|t: Seq<char>| #[trigger] distinct(s).contains(t) <==> s.contains(t) by {
            assert(distinct(p).contains(t) <==> p.contains(t));
            assert(distinct(p).contains(x) <==> p.contains(x));
            assert(s.contains(t) <==> (p.contains(t) || t == x)) by {
                if s.contains(t) && t != x {
                    let k = choose|k: int| 0 <= k < s.len() && s[k] == t;
                    assert(p[k] == t);
                }
                if p.contains(t) {
                    let k = choose|k: int| 0 <= k < p.len() && p[k] == t;
                    assert(s[k] == t);
                }
                if t == x {
                    assert(s[s.len() - 1] == t);
                }
            }
            if !p.contains(x) {
                let d = distinct(p);
                assert(d.push(x).contains(t) <==> (d.contains(t) || t == x)) by {
                    if d.push(x).contains(t) && t != x {
                        let k = choose|k: int| 0 <= k < d.len() + 1 && d.push(x)[k] == t;
                        assert(d[k] == t);
                    }
                    if d.contains(t) {
                        let k = choose|k: int| 0 <= k < d.len() && d[k] == t;
                        assert(d.push(x)[k] == t);
                    }
                    if t == x {
                        assert(d.push(x)[d.len() as int] == x);
                    }
                }
            }
        }
    }
}

/// Position of the entry keyed by `t`.
fn find_key(r: &Vec<(Vec<char>, u128)>, t: &[char]) -> (pos: Option<usize>)
    ensures
        pos matches Some(k) ==> k < r@.len() && r@[k as int].0@ == t@,
        pos is None ==> forall|m: int| 0 <= m < r@.len() ==> (#[trigger] r@[m]).0@ != t@,
{
    let mut k: usize = 0;
    while k < r.len()
        invariant
            k <= r@.len(),
            forall|m: int| 0 <= m < k ==> (#[trigger] r@[m]).0@ != t@,
        decreases r@.len() - k,
    {
        if eq_chars(r[k].0.as_slice(), t) {
            return Some(k);
        }
        k += 1;
    }
    None
}

/// Counts each distinct text of `items`, in order of first appearance.
pub fn tally(items: &Vec<Vec<char>>) -> (r: Vec<(Vec<char>, u128)>)
    ensures
        r@.len() == distinct(views(items@)).len(),
        forall|i: int|
            0 <= i < r@.len() ==> (#[trigger] r@[i]).0@ == distinct(views(items@))[i] && r@[i].1
                == occurrences(views(items@), distinct(views(items@))[i]),
{
    let mut r: Vec<(Vec<char>, u128)> = Vec::new();
    let mut i: usize = 0;
    while i < items.len()
        invariant
            i <= items.len(),
            r@.len() == distinct(views(items@).take(i as int)).len(),
            forall|k: int|
                0 <= k < r@.len() ==> (#[trigger] r@[k]).0@ == distinct(views(items@).take(i as int))[k]
                    && r@[k].1 == occurrences(
                    views(items@).take(i as int),
                    distinct(views(items@).take(i as int))[k],
                ) && r@[k].1 <= i,
        decreases items.len() - i,
    {
        let ghost pre = views(items@).take(i as int);
        let ghost next = views(items@).take(i + 1);
        assert(next.drop_last() == pre);
        assert(next.last() == items@[i as int]@);
        proof {
            lemma_distinct_contains(pre);
        }
        let t = &items[i];
        let pos = find_key(&r, t.as_slice());
        let ghost d = distinct(pre);
        if let Some(k) = pos {
            // t was seen: its count grows by one
            assert(r@[k as int].0@ == t@);
            assert(d.contains(t@)) by {
                assert(d[k as int] == t@);
            }
            assert(distinct(next) == d);
            let (key, c) = r.remove(k);
            r.insert(k, (key, c + 1));
            assert forall|m: int| 0 <= m < r@.len() implies (#[trigger] r@[m]).0@ == distinct(
                next,
            )[m] && r@[m].1 == occurrences(next, distinct(next)[m]) && r@[m].1 <= i + 1 by {
                if m == k as int {
                } else {
                    assert(d[m] != d[k as int]) by {
                        lemma_distinct_unique(pre);
                    }
                }
            }
        } else {
            assert(!d.contains(t@)) by {
                if d.contains(t@) {
                    let m = choose|m: int| 0 <= m < d.len() && d[m] == t@;
                    assert(r@[m].0@ == t@);
                }
            }
            assert(distinct(next) == d.push(t@));
            proof {
                assert forall|m: int| 0 <= m < d.len() implies occurrences(next, d[m])
                    == occurrences(pre, d[m]) by {
                    assert(d[m] != t@);
                }
            }
            let ghost old_r = r@;
            let key = slice_to_vec(t.as_slice());
            r.push((key, 1));
            assert forall|m: int| 0 <= m < r@.len() implies (#[trigger] r@[m]).0@ == distinct(
                next,
            )[m] && r@[m].1 == occurrences(next, distinct(next)[m]) && r@[m].1 <= i + 1 by {
                if m < old_r.len() {
                    assert(r@[m] == old_r[m]);
                } else {
                    assert(occurrences(pre, t@) == 0) by {
                        lemma_occurrences_absent(pre, t@);
                    }
                }
            }
        }
        i += 1;
    }
    assert(views(items@).take(items.len() as int) == views(items@));
    r
}

pub proof fn lemma_occurrences_absent(s: Seq<Seq<char>>, t: Seq<char>)
    requires
        !s.contains(t),
    ensures
        occurrences(s, t) == 0,
    decreases s.len(),
{
    if s.len() > 0 {
        assert(s.last() != t) by {
            assert(s[s.len() - 1] == s.last());
        }
        assert(!s.drop_last().contains(t)) by {
            if s.drop_last().contains(t) {
                let k = choose|k: int| 0 <= k < s.drop_last().len() && s.drop_last()[k] == t;
                assert(s[k] == t);
            }
        }
        lemma_occurrences_absent(s.drop_last(), t);
    }
}

pub proof fn lemma_distinct_unique(s: Seq<Seq<char>>)
    ensures
        forall|a: int, b: int|
            0 <= a < b < distinct(s).len() ==> distinct(s)[a] != distinct(s)[b],
    decreases s.len(),
{
    if s.len() > 0 {
        lemma_distinct_unique(s.drop_last());
        lemma_distinct_contains(s.drop_last());
        if !s.drop_last().contains(s.last()) {
            let d = distinct(s.drop_last());
            assert forall|a: int, b: int|
                0 <= a < b < d.push(s.last()).len() implies d.push(s.last())[a] != d.push(
                s.last(),
            )[b] by {
                if b == d.len() {
                    assert(d.contains(d[a]));
                }
            }
        }
    }
}


/// The total weight of the entries of `s` equal to `t`, entry `k` weighing
/// `w[k]`.
pub open spec fn weight_of(s: Seq<Seq<char>>, w: Seq<u128>, t: Seq<char>) -> nat
    decreases s.len(),
{
    if s.len() == 0 {
        0
    } else {
        weight_of(s.drop_last(), w, t) + if s.last() == t {
            w[s.len() - 1] as nat
        } else {
            0nat
        }
    }
}

proof fn lemma_weight_absent(s: Seq<Seq<char>>, w: Seq<u128>, t: Seq<char>)
    requires
        !s.contains(t),
    ensures
        weight_of(s, w, t) == 0,
    decreases s.len(),
{
    if s.len() > 0 {
        assert(s.last() != t) by {
            assert(s[s.len() - 1] == s.last());
        }
        assert(!s.drop_last().contains(t)) by {
            if s.drop_last().contains(t) {
                let k = choose|k: int| 0 <= k < s.drop_last().len() && s.drop_last()[k] == t;
                assert(s[k] == t);
            }
        }
        lemma_weight_absent(s.drop_last(), w, t);
    }
}

proof fn lemma_weight_bound(s: Seq<Seq<char>>, w: Seq<u128>, t: Seq<char>)
    requires
        s.len() <= w.len(),
        forall|k: int| 0 <= k < w.len() ==> #[trigger] w[k] <= u64::MAX,
    ensures
        weight_of(s, w, t) <= s.len() * 0xffff_ffff_ffff_ffffnat,
    decreases s.len(),
{
    if s.len() > 0 {
        lemma_weight_bound(s.drop_last(), w, t);
    }
}

/// Sums the weight of each distinct text of `items`, in order of first
/// appearance; `weights[k]` is the weight of `items[k]`.
pub fn tally_weighted(items: &Vec<Vec<char>>, weights: &Vec<u128>) -> (r: Vec<(Vec<char>, u128)>)
    requires
        items@.len() == weights@.len(),
        forall|k: int| 0 <= k < weights@.len() ==> #[trigger] weights@[k] <= u64::MAX,
    ensures
        r@.len() == distinct(views(items@)).len(),
        forall|i: int|
            0 <= i < r@.len() ==> (#[trigger] r@[i]).0@ == distinct(views(items@))[i] && r@[i].1
                == weight_of(views(items@), weights@, distinct(views(items@))[i]),
{
    let mut r: Vec<(Vec<char>, u128)> = Vec::new();
    let mut i: usize = 0;
    while i < items.len()
        invariant
            i <= items.len() == weights@.len(),
            forall|k: int| 0 <= k < weights@.len() ==> #[trigger] weights@[k] <= u64::MAX,
            r@.len() == distinct(views(items@).take(i as int)).len(),
            forall|k: int|
                0 <= k < r@.len() ==> (#[trigger] r@[k]).0@ == distinct(views(items@).take(i as int))[k]
                    && r@[k].1 == weight_of(
                    views(items@).take(i as int),
                    weights@,
                    distinct(views(items@).take(i as int))[k],
                ),
        decreases items.len() - i,
    {
        let ghost pre = views(items@).take(i as int);
        let ghost next = views(items@).take(i + 1);
        assert(next.drop_last() == pre);
        assert(next.last() == items@[i as int]@);
        proof {
            lemma_distinct_contains(pre);
        }
        let t = &items[i];
        let pos = find_key(&r, t.as_slice());
        let ghost d = distinct(pre);
        if let Some(k) = pos {
            assert(r@[k as int].0@ == t@);
            assert(d.contains(t@)) by {
                assert(d[k as int] == t@);
            }
            assert(distinct(next) == d);
            proof {
                lemma_weight_bound(pre, weights@, t@);
            }
            let (key, c) = r.remove(k);
            r.insert(k, (key, c + weights[i]));
            assert forall|m: int| 0 <= m < r@.len() implies (#[trigger] r@[m]).0@ == distinct(
                next,
            )[m] && r@[m].1 == weight_of(next, weights@, distinct(next)[m]) by {
                if m == k as int {
                } else {
                    assert(d[m] != d[k as int]) by {
                        lemma_distinct_unique(pre);
                    }
                }
            }
        } else {
            assert(!d.contains(t@)) by {
                if d.contains(t@) {
                    let m = choose|m: int| 0 <= m < d.len() && d[m] == t@;
                    assert(r@[m].0@ == t@);
                }
            }
            assert(distinct(next) == d.push(t@));
            proof {
                assert forall|m: int| 0 <= m < d.len() implies weight_of(next, weights@, d[m])
                    == weight_of(pre, weights@, d[m]) by {
                    assert(d[m] != t@);
                }
            }
            let ghost old_r = r@;
            let key = slice_to_vec(t.as_slice());
            r.push((key, weights[i]));
            assert forall|m: int| 0 <= m < r@.len() implies (#[trigger] r@[m]).0@ == distinct(
                next,
            )[m] && r@[m].1 == weight_of(next, weights@, distinct(next)[m]) by {
                if m < old_r.len() {
                    assert(r@[m] == old_r[m]);
                } else {
                    assert(weight_of(pre, weights@, t@) == 0) by {
                        lemma_weight_absent(pre, weights@, t@);
                    }
                }
            }
        }
        i += 1;
    }
    assert(views(items@).take(items.len() as int) == views(items@));
    r
}

} // verus!
