//! Ranking of candidates against a query: a fuzzy lexical score plus a
//! capped bonus for past launches, best first.

use vstd::prelude::*;
use vstd::relations::{sorted_by, total_ordering};
use crate::entry::{Entry, EntryView};
use crate::index::entries_view;
use crate::usage::{UsageCount, bonus, count_in, usage_bonus};

verus! {

broadcast use vstd::seq_lib::group_to_multiset_ensures;

/// How many ranked entries are shown.
pub const DISPLAY_CAPACITY: usize = 9;

/// The fuzzy score of `query` against `name`: `None` when the query is not a
/// subsequence of the name.
pub uninterp spec fn skim_score(name: Seq<char>, query: Seq<char>) -> Option<i64>;

/// Relies on fuzzy_matcher's `SkimMatcherV2` with default settings
/// (`fuzzy_match`): the score depends on the two texts alone, and an empty
/// query scores 0.
#[verifier::external_body]
fn fuzzy_score(name: &str, query: &str) -> (r: Option<i64>)
    ensures
        r == skim_score(name@, query@),
        query@.len() == 0 ==> r == Some(0i64),
{
    fuzzy_matcher::FuzzyMatcher::fuzzy_match(
        &fuzzy_matcher::skim::SkimMatcherV2::default(),
        name,
        query,
    )
}

/// Ascending order of `(negated total, position)` keys: best total first,
/// then earlier position first.
pub open spec fn key_leq(a: (i128, usize), b: (i128, usize)) -> bool {
    a.0 < b.0 || (a.0 == b.0 && a.1 <= b.1)
}

pub open spec fn key_order() -> spec_fn((i128, usize), (i128, usize)) -> bool {
    |a: (i128, usize), b: (i128, usize)| key_leq(a, b)
}

/// Relies on itertools' `Itertools::sorted`: the items in ascending order,
/// tuples comparing lexicographically; that arrangement is unique.
#[verifier::external_body]
fn sorted_keys(keys: Vec<(i128, usize)>) -> (r: Vec<(i128, usize)>)
    ensures
        r@ == keys@.sort_by(key_order()),
{
    itertools::Itertools::sorted(keys.into_iter()).collect()
}

/// A missing lexical score counts as zero.
pub open spec fn lexical(score: Option<i64>) -> int {
    match score {
        Some(s) => s as int,
        None => 0,
    }
}

/// The total score: lexical score plus usage bonus.
pub open spec fn total(score: Option<i64>, count: u64) -> int {
    lexical(score) + bonus(count)
}

/// The sort key of each candidate: its negated total and its position.
pub open spec fn rank_keys(
    cands: Seq<EntryView>,
    scores: Seq<Option<i64>>,
    usage: Map<Seq<char>, u64>,
) -> Seq<(i128, usize)> {
    Seq::new(
        cands.len(),
        |i: int| ((-total(scores[i], count_in(usage, cands[i].name))) as i128, i as usize),
    )
}

/// The candidates' keys from best to worst: higher total first, and among
/// equal totals the earlier candidate first.
pub open spec fn rank_order(
    cands: Seq<EntryView>,
    scores: Seq<Option<i64>>,
    usage: Map<Seq<char>, u64>,
) -> Seq<(i128, usize)> {
    rank_keys(cands, scores, usage).sort_by(key_order())
}

pub open spec fn shown(n: nat) -> nat {
    if n < 9 {
        n
    } else {
        9
    }
}

/// The displayed ranking: the first nine candidates of the rank order.
pub open spec fn ranked(
    cands: Seq<EntryView>,
    scores: Seq<Option<i64>>,
    usage: Map<Seq<char>, u64>,
) -> Seq<EntryView> {
    let order = rank_order(cands, scores, usage);
    Seq::new(shown(cands.len()), |k: int| cands[order[k].1 as int])
}

/// The fuzzy scores of the candidates' names against `query`.
pub open spec fn query_scores(cands: Seq<EntryView>, query: Seq<char>) -> Seq<Option<i64>> {
    Seq::new(cands.len(), |i: int| skim_score(cands[i].name, query))
}

proof fn lemma_key_order_total()
    ensures
        total_ordering(key_order()),
{
}

proof fn lemma_rank_order(cands: Seq<EntryView>, scores: Seq<Option<i64>>, usage: Map<Seq<char>, u64>)
    requires
        scores.len() == cands.len(),
        cands.len() <= usize::MAX,
    ensures
        rank_order(cands, scores, usage).len() == cands.len(),
        sorted_by(rank_order(cands, scores, usage), key_order()),
        forall|k: int|
            0 <= k < cands.len() ==> {
                let x = #[trigger] rank_order(cands, scores, usage)[k];
                0 <= x.1 < cands.len() && x == rank_keys(cands, scores, usage)[x.1 as int]
            },
        rank_order(cands, scores, usage).no_duplicates(),
        forall|c: int|
            0 <= c < cands.len() ==> rank_order(cands, scores, usage).contains(
                #[trigger] rank_keys(cands, scores, usage)[c],
            ),
{
    let keys = rank_keys(cands, scores, usage);
    let order = rank_order(cands, scores, usage);
    lemma_key_order_total();
    keys.lemma_sort_by_ensures(key_order());
    assert(order.len() == order.to_multiset().len());
    assert(keys.no_duplicates()) by {
        assert forall|i: int, j: int|
            0 <= i < keys.len() && 0 <= j < keys.len() && i != j implies keys[i] != keys[j] by {
            assert(keys[i].1 == i && keys[j].1 == j);
        }
    }
    keys.lemma_multiset_has_no_duplicates();
    order.lemma_multiset_has_no_duplicates_conv();
    assert forall|c: int| 0 <= c < cands.len() implies order.contains(#[trigger] keys[c]) by {
        assert(keys.contains(keys[c]));
        assert(keys.to_multiset().count(keys[c]) > 0);
    }
    assert forall|k: int| 0 <= k < cands.len() implies {
        let x = #[trigger] order[k];
        0 <= x.1 < cands.len() && x == keys[x.1 as int]
    } by {
        let x = order[k];
        assert(order.contains(x));
        assert(keys.contains(x));
        let i = choose|i: int| 0 <= i < keys.len() && keys[i] == x;
        assert(keys[i].1 == i);
    }
}

/// Ranks candidates whose fuzzy scores are known: `scores[i]` is the score
/// of `candidates[i]`. The result is the first nine of the candidates ordered
/// by total score, best first, ties in candidate order.
pub fn rank_scored(candidates: &Vec<Entry>, scores: &Vec<Option<i64>>, usage: &UsageCount) -> (r:
    Vec<Entry>)
    requires
        scores.len() == candidates.len(),
    ensures
        entries_view(r@) == ranked(entries_view(candidates@), scores@, usage@),
{
    let ghost cands = entries_view(candidates@);
    let ghost keys = rank_keys(cands, scores@, usage@);
    let mut ks: Vec<(i128, usize)> = Vec::new();
    let mut i: usize = 0;
    while i < candidates.len()
        invariant
            i <= candidates.len(),
            scores.len() == candidates.len(),
            cands == entries_view(candidates@),
            keys == rank_keys(cands, scores@, usage@),
            ks@ == keys.subrange(0, i as int),
        decreases candidates.len() - i,
    {
        let lex: i128 = match scores[i] {
            Some(s) => s as i128,
            None => 0,
        };
        let b = usage_bonus(usage.get(candidates[i].name.as_str()));
        let t: i128 = lex + b as i128;
        ks.push((-t, i));
        assert(ks@ =~= keys.subrange(0, i + 1));
        i = i + 1;
    }
    assert(ks@ =~= keys);
    let order = sorted_keys(ks);
    proof {
        lemma_rank_order(cands, scores@, usage@);
    }
    let n: usize = if candidates.len() < DISPLAY_CAPACITY {
        candidates.len()
    } else {
        DISPLAY_CAPACITY
    };
    let ghost want = ranked(cands, scores@, usage@);
    let mut r: Vec<Entry> = Vec::new();
    let mut k: usize = 0;
    while k < n
        invariant
            k <= n,
            n == shown(candidates.len() as nat),
            n <= candidates.len(),
            order@ == rank_order(cands, scores@, usage@),
            order.len() == candidates.len(),
            cands == entries_view(candidates@),
            want == ranked(cands, scores@, usage@),
            forall|j: int|
                0 <= j < candidates.len() ==> 0 <= (#[trigger] order@[j]).1 < candidates.len(),
            entries_view(r@) == want.subrange(0, k as int),
        decreases n - k,
    {
        let idx = order[k].1;
        let ghost before = entries_view(r@);
        assert(want[k as int] == cands[idx as int]);
        assert(cands[idx as int] == candidates@[idx as int]@);
        let e = candidates[idx].duplicate();
        r.push(e);
        assert(entries_view(r@) =~= before.push(e@));
        assert(entries_view(r@) =~= want.subrange(0, k + 1));
        k = k + 1;
    }
    assert(want.subrange(0, n as int) =~= want);
    r
}

/// Every candidate scoring zero: the lexical scores of an empty query.
pub open spec fn zero_scores(n: nat) -> Seq<Option<i64>> {
    Seq::new(n, |i: int| Some(0i64))
}

/// Ranks `candidates` against `query`, best first, at most nine of them (see
/// [`rank_scored`]). An empty query scores every name zero, so the order is
/// then by usage alone, ties in candidate order.
pub fn rank(candidates: &Vec<Entry>, query: &str, usage: &UsageCount) -> (r: Vec<Entry>)
    ensures
        entries_view(r@) == ranked(
            entries_view(candidates@),
            query_scores(entries_view(candidates@), query@),
            usage@,
        ),
        query@.len() == 0 ==> entries_view(r@) == ranked(
            entries_view(candidates@),
            zero_scores(candidates@.len()),
            usage@,
        ),
{
    let ghost cands = entries_view(candidates@);
    let mut scores: Vec<Option<i64>> = Vec::new();
    let mut i: usize = 0;
    while i < candidates.len()
        invariant
            i <= candidates.len(),
            cands == entries_view(candidates@),
            scores@ == query_scores(cands, query@).subrange(0, i as int),
            query@.len() == 0 ==> scores@ == zero_scores(i as nat),
        decreases candidates.len() - i,
    {
        scores.push(fuzzy_score(candidates[i].name.as_str(), query));
        assert(scores@ =~= query_scores(cands, query@).subrange(0, i + 1));
        assert(query@.len() == 0 ==> scores@ =~= zero_scores((i + 1) as nat));
        i = i + 1;
    }
    assert(scores@ =~= query_scores(cands, query@));
    rank_scored(candidates, &scores, usage)
}

/// The rank order is the only arrangement of the candidates' keys that is
/// sorted: ranking the same candidates against the same scores and counts
/// always yields the same order.
pub proof fn lemma_rank_order_unique(
    cands: Seq<EntryView>,
    scores: Seq<Option<i64>>,
    usage: Map<Seq<char>, u64>,
    other: Seq<(i128, usize)>,
)
    requires
        scores.len() == cands.len(),
        cands.len() <= usize::MAX,
        sorted_by(other, key_order()),
        other.to_multiset() == rank_keys(cands, scores, usage).to_multiset(),
    ensures
        other == rank_order(cands, scores, usage),
{
    let keys = rank_keys(cands, scores, usage);
    lemma_key_order_total();
    keys.lemma_sort_by_ensures(key_order());
    vstd::seq_lib::lemma_sorted_unique(other, rank_order(cands, scores, usage), key_order());
}

/// Candidate `a` stands before candidate `b` in the order `order`.
pub open spec fn ranks_before(order: Seq<(i128, usize)>, a: int, b: int) -> bool {
    exists|p: int, q: int|
        0 <= p < q < order.len() && (#[trigger] order[p]).1 == a && (#[trigger] order[q]).1 == b
}

/// Launching `a` more often never moves it behind a candidate `b` whose count
/// stayed the same: if `a` ranked before `b`, it still does.
pub proof fn lemma_more_launches_keep_rank(
    cands: Seq<EntryView>,
    scores: Seq<Option<i64>>,
    before: Map<Seq<char>, u64>,
    after: Map<Seq<char>, u64>,
    a: int,
    b: int,
)
    requires
        scores.len() == cands.len(),
        cands.len() <= usize::MAX,
        0 <= a < cands.len(),
        0 <= b < cands.len(),
        a != b,
        count_in(after, cands[a].name) >= count_in(before, cands[a].name),
        count_in(after, cands[b].name) == count_in(before, cands[b].name),
        ranks_before(rank_order(cands, scores, before), a, b),
    ensures
        ranks_before(rank_order(cands, scores, after), a, b),
{
    let o1 = rank_order(cands, scores, before);
    let o2 = rank_order(cands, scores, after);
    let k1 = rank_keys(cands, scores, before);
    let k2 = rank_keys(cands, scores, after);
    lemma_rank_order(cands, scores, before);
    lemma_rank_order(cands, scores, after);
    let (p, q) = choose|p: int, q: int|
        0 <= p < q < o1.len() && (#[trigger] o1[p]).1 == a && (#[trigger] o1[q]).1 == b;
    assert(key_order()(o1[p], o1[q]));
    assert(key_leq(o1[p], o1[q]));
    assert(o1[p] == k1[a] && o1[q] == k1[b]);
    crate::usage::lemma_bonus_monotonic(
        count_in(before, cands[a].name),
        count_in(after, cands[a].name),
    );
    assert(key_leq(k2[a], k2[b]));
    lemma_key_order_total();
    k2.lemma_sort_by_ensures(key_order());
    assert(k2.contains(k2[a]));
    assert(k2.contains(k2[b]));
    assert(k2.to_multiset().count(k2[a]) > 0);
    assert(k2.to_multiset().count(k2[b]) > 0);
    assert(o2.to_multiset().count(k2[a]) > 0);
    assert(o2.to_multiset().count(k2[b]) > 0);
    assert(o2.contains(k2[a]));
    assert(o2.contains(k2[b]));
    let p2 = choose|i: int| 0 <= i < o2.len() && o2[i] == k2[a];
    let q2 = choose|i: int| 0 <= i < o2.len() && o2[i] == k2[b];
    if q2 < p2 {
        assert(key_order()(o2[q2], o2[p2]));
    }
    assert(p2 < q2);
    assert(o2[p2].1 == a && o2[q2].1 == b);
}

/// An injection from `0..m` into `0..n` needs `m <= n`.
proof fn lemma_injection_bound(m: int, n: int, f: spec_fn(int) -> int)
    requires
        0 <= m,
        0 <= n,
        forall|i: int| 0 <= i < m ==> 0 <= #[trigger] f(i) < n,
        forall|i: int, j: int| 0 <= i < m && 0 <= j < m && #[trigger] f(i) == #[trigger] f(j) ==> i == j,
    ensures
        m <= n,
{
    let x = vstd::set_lib::set_int_range(0, m);
    let z = vstd::set_lib::set_int_range(0, n);
    vstd::set_lib::lemma_int_range(0, m);
    vstd::set_lib::lemma_int_range(0, n);
    let y = x.map(f);
    vstd::set_lib::lemma_map_size(x, y, f);
    assert(y.subset_of(z)) by {
        assert forall|v: int| y.contains(v) implies z.contains(v) by {
            let i = choose|i: int| x.contains(i) && f(i) == v;
        }
    }
    vstd::set_lib::lemma_len_subset(y, z);
}

/// Launching `a` more often, every other candidate's count unchanged, never
/// moves it behind a candidate `b` it stood before, and never moves `b` down:
/// when both were among the displayed candidates (`b` at position `q`), both
/// still are, `a` before `b`, and `b` at position `q` or better.
pub proof fn lemma_more_launches_keep_displayed_rank(
    cands: Seq<EntryView>,
    scores: Seq<Option<i64>>,
    before: Map<Seq<char>, u64>,
    after: Map<Seq<char>, u64>,
    a: int,
    b: int,
    p: int,
    q: int,
)
    requires
        scores.len() == cands.len(),
        cands.len() <= usize::MAX,
        0 <= a < cands.len(),
        0 <= b < cands.len(),
        count_in(after, cands[a].name) >= count_in(before, cands[a].name),
        forall|c: int|
            0 <= c < cands.len() && c != a ==> count_in(after, (#[trigger] cands[c]).name)
                == count_in(before, cands[c].name),
        0 <= p < q < shown(cands.len()),
        rank_order(cands, scores, before)[p].1 == a,
        rank_order(cands, scores, before)[q].1 == b,
    ensures
        exists|p2: int, q2: int|
            0 <= p2 < q2 <= q && (#[trigger] rank_order(cands, scores, after)[p2]).1 == a
                && (#[trigger] rank_order(cands, scores, after)[q2]).1 == b
                && ranked(cands, scores, after)[p2] == cands[a] && ranked(cands, scores, after)[q2]
                == cands[b],
{
    let n = cands.len() as int;
    let o1 = rank_order(cands, scores, before);
    let o2 = rank_order(cands, scores, after);
    let k1 = rank_keys(cands, scores, before);
    let k2 = rank_keys(cands, scores, after);
    lemma_rank_order(cands, scores, before);
    lemma_rank_order(cands, scores, after);
    lemma_key_order_total();
    assert(o1[p] == k1[a] && o1[q] == k1[b]);
    assert(a != b);
    assert(key_order()(o1[p], o1[q]));
    crate::usage::lemma_bonus_monotonic(
        count_in(before, cands[a].name),
        count_in(after, cands[a].name),
    );
    assert(k2[b] == k1[b]);
    assert(key_leq(k2[a], k2[b]));
    assert(o2.contains(k2[a]));
    assert(o2.contains(k2[b]));
    let p2 = choose|i: int| 0 <= i < o2.len() && o2[i] == k2[a];
    let q2 = choose|i: int| 0 <= i < o2.len() && o2[i] == k2[b];
    if q2 < p2 {
        assert(key_order()(o2[q2], o2[p2]));
    }
    assert(p2 < q2);
    // Each candidate before `b` in the new order stood before `b` in the old one.
    let f = |j: int| choose|k: int| 0 <= k < n && o1[k].1 == o2[j].1;
    assert forall|j: int| 0 <= j < q2 implies 0 <= #[trigger] f(j) < q && o1[f(j)].1 == o2[j].1 by {
        let c = o2[j].1 as int;
        assert(o2[j] == k2[c]);
        assert(key_order()(o2[j], o2[q2]));
        assert(o2[j] != o2[q2]);
        assert(o1.contains(k1[c]));
        let k = choose|k: int| 0 <= k < o1.len() && o1[k] == k1[c];
        assert(o1[k].1 == c);
        let fk = f(j);
        assert(0 <= fk < n && o1[fk].1 == c);
        assert(o1[fk] == k1[c]);
        if fk >= q {
            if c == a {
                assert(o1[p] == o1[fk]);
                assert(p == fk);
            } else {
                assert(k2[c] == k1[c]);
                assert(fk != q);
                assert(key_order()(o1[q], o1[fk]));
            }
        }
    }
    assert forall|i: int, j: int| 0 <= i < q2 && 0 <= j < q2 && #[trigger] f(i) == #[trigger] f(
        j,
    ) implies i == j by {
        let ci = o2[i].1 as int;
        let cj = o2[j].1 as int;
        assert(o2[i] == k2[ci] && o2[j] == k2[cj]);
        assert(o1[f(i)].1 == ci && o1[f(j)].1 == cj);
        assert(o2[i] == o2[j]);
    }
    lemma_injection_bound(q2, q, f);
    assert(ranked(cands, scores, after)[p2] == cands[a]);
    assert(ranked(cands, scores, after)[q2] == cands[b]);
}

} // verus!
