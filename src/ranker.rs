use vstd::prelude::*;
use vstd::string::*;
use crate::model::{RankedCandidate, ReleaseGroupSummary};
use crate::text::{eq_ignoring_case, same_ignoring_case, same_text};

verus! {

broadcast use vstd::seq_lib::group_seq_properties;

/// The ranking key: relevance weighted by the number of issued releases.
pub open spec fn sort_key(s: ReleaseGroupSummary) -> int {
    s.score as int * s.release_count as int
}

/// Whether the search-type `filter` keeps `s`: "all" keeps everything, any other
/// filter keeps the summaries whose primary type equals it up to ASCII case.
pub open spec fn keeps_type(s: ReleaseGroupSummary, filter: Seq<char>) -> bool {
    filter == "all"@ || (s.primary_type is Some && same_ignoring_case(
        s.primary_type->0@,
        filter,
    ))
}

pub open spec fn type_pred(filter: Seq<char>) -> spec_fn(ReleaseGroupSummary) -> bool {
    |s: ReleaseGroupSummary| keeps_type(s, filter)
}

/// The summaries of `raw` that `filter` keeps, in their order.
pub open spec fn search_filtered(raw: Seq<ReleaseGroupSummary>, filter: Seq<char>) -> Seq<
    ReleaseGroupSummary,
> {
    raw.filter(type_pred(filter))
}

/// Entry `i` of `f` is ranked above entry `j`: a larger key, or an equal key and an
/// earlier place.
pub open spec fn goes_before(f: Seq<ReleaseGroupSummary>, i: int, j: int) -> bool {
    sort_key(f[i]) > sort_key(f[j]) || (sort_key(f[i]) == sort_key(f[j]) && i < j)
}

pub open spec fn min_nat(a: nat, b: nat) -> nat {
    if a < b {
        a
    } else {
        b
    }
}

/// `out` ranks the entries of `f`, cut to `limit`; `src[p]` is the place in `f` of
/// the candidate ranked `p + 1`. Candidates come in `goes_before` order, each from
/// a distinct entry, and every entry left out goes after all of them.
pub open spec fn ranked_by(
    f: Seq<ReleaseGroupSummary>,
    limit: nat,
    out: Seq<RankedCandidate>,
    src: Seq<int>,
) -> bool {
    &&& out.len() == min_nat(f.len(), limit)
    &&& src.len() == out.len()
    &&& forall|p: int|
        0 <= p < out.len() ==> 0 <= #[trigger] src[p] < f.len() && out[p].summary == f[src[p]]
            && out[p].rank == p + 1
    &&& forall|p: int, q: int| 0 <= p < q < out.len() ==> goes_before(f, src[p], src[q])
    &&& forall|k: int|
        0 <= k < f.len() && !src.contains(k) ==> forall|p: int|
            0 <= p < out.len() ==> goes_before(f, #[trigger] src[p], k)
}

/// `out` is the ranking of `f` cut to `limit`.
pub open spec fn is_ranking(
    f: Seq<ReleaseGroupSummary>,
    limit: nat,
    out: Seq<RankedCandidate>,
) -> bool {
    exists|src: Seq<int>| ranked_by(f, limit, out, src)
}

/// The ranking key of `s`.
pub fn key_of(s: &ReleaseGroupSummary) -> (k: u64)
    ensures
        k == sort_key(*s),
{
    let a = s.score as u64;
    let b = s.release_count as u64;
    assert(a * b <= 0xffff_ffffu64 * 0xffff_ffffu64) by (nonlinear_arith)
        requires
            a <= 0xffff_ffffu64,
            b <= 0xffff_ffffu64,
    ;
    a * b
}

/// Whether the search-type `filter` keeps `s`.
pub fn keeps(s: &ReleaseGroupSummary, filter: &str) -> (r: bool)
    ensures
        r == keeps_type(*s, filter@),
{
    if same_text(filter, "all") {
        return true;
    }
    match &s.primary_type {
        Some(t) => eq_ignoring_case(t.as_str(), filter),
        None => false,
    }
}

/// Drops the summaries that the search-type `filter` does not keep.
pub fn filter_by_type(raw: Vec<ReleaseGroupSummary>, filter: &str) -> (r: Vec<
    ReleaseGroupSummary,
>)
    ensures
        r@ == search_filtered(raw@, filter@),
{
    let ghost orig = raw@;
    let ghost pred = type_pred(filter@);
    let mut rest = raw;
    let mut out: Vec<ReleaseGroupSummary> = Vec::new();
    let ghost mut i: int = 0;
    while rest.len() > 0
        invariant
            0 <= i <= orig.len(),
            rest@ == orig.skip(i),
            out@ == orig.take(i).filter(pred),
            pred == type_pred(filter@),
        decreases rest.len(),
    {
        let s = rest.remove(0);
        proof {
            assert(orig.take(i + 1) =~= orig.take(i).push(s));
            orig.take(i).lemma_filter_push(s, pred);
        }
        if keeps(&s, filter) {
            out.push(s);
        }
        proof {
            i = i + 1;
            assert(rest@ =~= orig.skip(i));
        }
    }
    assert(orig.take(i) =~= orig);
    out
}

/// The place of the first entry with the largest key.
fn best_index(v: &Vec<ReleaseGroupSummary>) -> (m: usize)
    requires
        v.len() > 0,
    ensures
        m < v.len(),
        forall|j: int| 0 <= j < m ==> sort_key(v@[j]) < sort_key(v@[m as int]),
        forall|j: int| 0 <= j < v.len() ==> sort_key(v@[j]) <= sort_key(v@[m as int]),
{
    let mut m: usize = 0;
    let mut best = key_of(&v[0]);
    let mut i: usize = 1;
    while i < v.len()
        invariant
            1 <= i <= v.len(),
            m < i,
            best == sort_key(v@[m as int]),
            forall|j: int| 0 <= j < m ==> sort_key(v@[j]) < sort_key(v@[m as int]),
            forall|j: int| 0 <= j < i ==> sort_key(v@[j]) <= sort_key(v@[m as int]),
        decreases v.len() - i,
    {
        let k = key_of(&v[i]);
        if k > best {
            m = i;
            best = k;
        }
        i = i + 1;
    }
    m
}

/// Orders `items` by descending key, equal keys in their given order, numbers
/// them from 1 and keeps at most `limit`.
pub fn order_candidates(items: Vec<ReleaseGroupSummary>, limit: usize) -> (r: Vec<
    RankedCandidate,
>)
    ensures
        is_ranking(items@, limit as nat, r@),
{
    let ghost f = items@;
    let mut rest = items;
    let mut out: Vec<RankedCandidate> = Vec::new();
    let ghost mut pos: Seq<int> = Seq::new(f.len(), |i: int| i);
    let ghost mut src: Seq<int> = Seq::empty();
    assert forall|k: int| 0 <= k < f.len() implies src.contains(k) || pos.contains(k) by {
        assert(pos[k] == k);
    }
    while out.len() < limit && rest.len() > 0
        invariant
            rest.len() == pos.len(),
            out.len() == src.len(),
            out.len() + rest.len() == f.len(),
            out.len() <= limit,
            forall|j: int| 0 <= j < pos.len() ==> 0 <= #[trigger] pos[j] < f.len() && rest@[j] == f[pos[j]],
            forall|i: int, j: int| 0 <= i < j < pos.len() ==> pos[i] < pos[j],
            forall|p: int|
                0 <= p < out.len() ==> 0 <= #[trigger] src[p] < f.len() && out@[p].summary == f[src[p]]
                    && out@[p].rank == p + 1,
            forall|p: int, q: int| 0 <= p < q < out.len() ==> goes_before(f, src[p], src[q]),
            forall|p: int, j: int|
                0 <= p < out.len() && 0 <= j < pos.len() ==> goes_before(f, src[p], pos[j]),
            forall|k: int| 0 <= k < f.len() ==> src.contains(k) || pos.contains(k),
        decreases rest.len(),
    {
        let m = best_index(&rest);
        let ghost k = pos[m as int];
        let ghost old_pos = pos;
        let ghost old_src = src;
        proof {
            assert forall|j: int| 0 <= j < pos.len() && j != m implies goes_before(f, k, pos[j]) by {
                assert(rest@[j] == f[pos[j]]);
                if j < m {
                    assert(pos[j] < k);
                } else {
                    assert(k < pos[j]);
                }
            }
        }
        let x = rest.remove(m);
        let rank = out.len() + 1;
        out.push(RankedCandidate { summary: x, rank });
        proof {
            pos = old_pos.remove(m as int);
            src = old_src.push(k);
            assert forall|j: int| 0 <= j < pos.len() implies goes_before(f, k, pos[j]) by {
                if j < m {
                    assert(pos[j] == old_pos[j]);
                } else {
                    assert(pos[j] == old_pos[j + 1]);
                }
            }
            assert forall|i: int, j: int| 0 <= i < j < pos.len() implies pos[i] < pos[j] by {
                let i0 = if i < m { i } else { i + 1 };
                let j0 = if j < m { j } else { j + 1 };
                assert(old_pos[i0] < old_pos[j0]);
            }
            assert forall|p: int, j: int|
                0 <= p < out.len() && 0 <= j < pos.len() implies goes_before(f, src[p], pos[j]) by {
                let j0 = if j < m { j } else { j + 1 };
                assert(pos[j] == old_pos[j0]);
                if p < out.len() - 1 {
                    assert(src[p] == old_src[p]);
                }
            }
            assert forall|p: int, q: int| 0 <= p < q < out.len() implies goes_before(f, src[p], src[q]) by {
                assert(src[p] == old_src[p]);
                if q == out.len() - 1 {
                    assert(goes_before(f, old_src[p], old_pos[m as int]));
                } else {
                    assert(src[q] == old_src[q]);
                }
            }
            assert forall|k2: int| 0 <= k2 < f.len() implies src.contains(k2) || pos.contains(k2) by {
                if old_src.contains(k2) {
                    let p = choose|p: int| 0 <= p < old_src.len() && old_src[p] == k2;
                    assert(src[p] == k2);
                } else {
                    let j = choose|j: int| 0 <= j < old_pos.len() && old_pos[j] == k2;
                    if j == m {
                        assert(src[src.len() - 1] == k2);
                    } else if j < m {
                        assert(pos[j] == k2);
                    } else {
                        assert(pos[j - 1] == k2);
                    }
                }
            }
        }
    }
    proof {
        assert forall|k2: int| 0 <= k2 < f.len() && !src.contains(k2) implies forall|p: int|
            0 <= p < out.len() ==> goes_before(f, #[trigger] src[p], k2) by {
            let j = choose|j: int| 0 <= j < pos.len() && pos[j] == k2;
            assert forall|p: int| 0 <= p < out.len() implies goes_before(f, #[trigger] src[p], k2) by {
                assert(goes_before(f, src[p], pos[j]));
            }
        }
        assert(ranked_by(f, limit as nat, out@, src));
    }
    out
}

/// Why a search gave no candidates.
#[derive(PartialEq, Eq, Structural, Clone, Copy, Debug)]
pub enum RankError {
    /// No result is left once the search-type filter is applied.
    NoResults,
}

impl RankError {
    /// What to tell the user.
    pub fn message(&self) -> (r: String)
        ensures
            r@ == "no search results. try changing filter, increasing limit"@,
    {
        String::from_str("no search results. try changing filter, increasing limit")
    }
}

/// Filters `raw` by search type, fails when nothing is left, and ranks the rest.
pub fn rank_candidates(raw: Vec<ReleaseGroupSummary>, filter: &str, limit: usize) -> (r: Result<
    Vec<RankedCandidate>,
    RankError,
>)
    ensures
        r is Err <==> search_filtered(raw@, filter@).len() == 0,
        r matches Ok(out) ==> is_ranking(search_filtered(raw@, filter@), limit as nat, out@),
{
    let kept = filter_by_type(raw, filter);
    if kept.len() == 0 {
        return Err(RankError::NoResults);
    }
    Ok(order_candidates(kept, limit))
}

proof fn lemma_filter_keeps_all(s: Seq<ReleaseGroupSummary>, pred: spec_fn(ReleaseGroupSummary) -> bool)
    requires
        forall|i: int| 0 <= i < s.len() ==> pred(#[trigger] s[i]),
    ensures
        s.filter(pred) == s,
    decreases s.len(),
{
    if s.len() > 0 {
        let init = s.drop_last();
        lemma_filter_keeps_all(init, pred);
        assert(init.push(s.last()) =~= s);
        init.lemma_filter_push(s.last(), pred);
    } else {
        assert(s.filter(pred) =~= s);
    }
}

/// The filter "all" keeps every search result, in order.
pub proof fn lemma_all_keeps_everything(raw: Seq<ReleaseGroupSummary>)
    ensures
        search_filtered(raw, "all"@) == raw,
{
    lemma_filter_keeps_all(raw, type_pred("all"@));
}

/// A filter that every result's primary type matches keeps the same results as
/// "all"; and applying a filter a second time changes nothing.
pub proof fn lemma_type_filter_consistent(raw: Seq<ReleaseGroupSummary>, filter: Seq<char>)
    ensures
        (forall|i: int|
            0 <= i < raw.len() ==> (#[trigger] raw[i]).primary_type is Some && same_ignoring_case(
                raw[i].primary_type->0@,
                filter,
            )) ==> search_filtered(raw, filter) == search_filtered(raw, "all"@),
        search_filtered(search_filtered(raw, filter), filter) == search_filtered(raw, filter),
{
    let pred = type_pred(filter);
    lemma_all_keeps_everything(raw);
    if forall|i: int|
        0 <= i < raw.len() ==> (#[trigger] raw[i]).primary_type is Some && same_ignoring_case(
            raw[i].primary_type->0@,
            filter,
        ) {
        lemma_filter_keeps_all(raw, pred);
    }
    let once = raw.filter(pred);
    assert forall|i: int| 0 <= i < once.len() implies pred(#[trigger] once[i]) by {
        raw.lemma_filter_pred(pred, i);
    }
    lemma_filter_keeps_all(once, pred);
}

/// With the filter "all", a ranking has `min(len, limit)` candidates in
/// non-increasing key order, and candidates with equal keys keep the order in
/// which the search returned them.
pub proof fn lemma_ranking_sorted_and_stable(
    raw: Seq<ReleaseGroupSummary>,
    limit: nat,
    out: Seq<RankedCandidate>,
)
    requires
        is_ranking(search_filtered(raw, "all"@), limit, out),
    ensures
        out.len() == min_nat(raw.len(), limit),
        forall|p: int, q: int|
            0 <= p < q < out.len() ==> sort_key(out[p].summary) >= sort_key(out[q].summary),
        exists|src: Seq<int>|
            {
                &&& ranked_by(raw, limit, out, src)
                &&& forall|p: int, q: int|
                    0 <= p < q < out.len() && sort_key(out[p].summary) == sort_key(out[q].summary)
                        ==> src[p] < src[q]
            },
{
    lemma_all_keeps_everything(raw);
    let src = choose|src: Seq<int>| ranked_by(raw, limit, out, src);
    assert forall|p: int, q: int| 0 <= p < q < out.len() implies sort_key(out[p].summary) >= sort_key(
        out[q].summary,
    ) by {
        assert(goes_before(raw, src[p], src[q]));
        assert(out[p].summary == raw[src[p]]);
        assert(out[q].summary == raw[src[q]]);
    }
    assert forall|p: int, q: int|
        0 <= p < q < out.len() && sort_key(out[p].summary) == sort_key(out[q].summary) implies src[p]
        < src[q] by {
        assert(goes_before(raw, src[p], src[q]));
        assert(out[p].summary == raw[src[p]]);
        assert(out[q].summary == raw[src[q]]);
    }
}

} // verus!
