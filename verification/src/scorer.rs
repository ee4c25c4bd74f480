//! Scoring candidates against a query, and ranking them by score.

use crate::candidate::{candidate_views, unscored, CandidateEntry, CandidateView};
use crate::distance::{
    chars_of, distance_of_chars, edit_distance, lemma_edit_distance_bounds,
    lemma_edit_distance_empty, lemma_edit_distance_identity,
};
use vstd::prelude::*;

verus! {

/// `c` with its score replaced by its distance from `query`.
pub open spec fn scored(query: Seq<char>, c: CandidateView) -> CandidateView {
    CandidateView { name: c.name, full_path: c.full_path, score: edit_distance(query, c.name) }
}

/// Every candidate of `cs`, in the same order, scored against `query`.
pub open spec fn scored_all(query: Seq<char>, cs: Seq<CandidateView>) -> Seq<CandidateView> {
    cs.map_values(|c: CandidateView| scored(query, c))
}

/// The candidates whose score is exactly `k`.
pub open spec fn has_score(k: nat) -> spec_fn(CandidateView) -> bool {
    |c: CandidateView| c.score == k
}

/// No candidate is followed by one with a smaller score.
pub open spec fn ascending(s: Seq<CandidateView>) -> bool {
    forall|i: int, j: int| 0 <= i < j < s.len() ==> s[i].score <= s[j].score
}

/// `after` holds the candidates of `before`, best score first: for every
/// score, the candidates that have it are the same in both, and in the
/// same order.
pub open spec fn is_ranking_of(before: Seq<CandidateView>, after: Seq<CandidateView>) -> bool {
    &&& ascending(after)
    &&& forall|k: nat| #[trigger]
        after.filter(has_score(k)) == before.filter(has_score(k))
}

/// The longer of two lengths.
pub open spec fn longer(x: nat, y: nat) -> nat {
    if x >= y {
        x
    } else {
        y
    }
}

/// Whether the score of `c` is at most `percent` hundredths of the longer
/// of the query's length and the length of its name.
pub open spec fn within_tolerance(c: CandidateView, query_len: nat, percent: nat) -> bool {
    c.score * 100 <= percent * longer(query_len, c.name.len())
}

/// The candidates within tolerance of a query of `query_len` code points.
pub open spec fn is_match(query_len: nat, percent: nat) -> spec_fn(CandidateView) -> bool {
    |c: CandidateView| within_tolerance(c, query_len, percent)
}

/// Two scoring passes with the same query over the same candidates give
/// the same scores.
pub proof fn lemma_scoring_is_deterministic(
    query: Seq<char>,
    candidates: Seq<CandidateView>,
    first: Seq<CandidateView>,
    second: Seq<CandidateView>,
)
    requires
        first == scored_all(query, candidates),
        second == scored_all(query, candidates),
    ensures
        first == second,
{
}

/// Scoring again with the same query what has already been scored
/// changes nothing.
pub proof fn lemma_scoring_is_idempotent(query: Seq<char>, candidates: Seq<CandidateView>)
    ensures
        scored_all(query, scored_all(query, candidates)) == scored_all(query, candidates),
{
    assert(scored_all(query, scored_all(query, candidates)) =~= scored_all(query, candidates));
}

/// After scoring, the candidates are the same files in the same order,
/// and no score exceeds the longer of the query and the name.
pub proof fn lemma_scoring_keeps_candidates(query: Seq<char>, candidates: Seq<CandidateView>)
    ensures
        scored_all(query, candidates).len() == candidates.len(),
        forall|i: int|
            0 <= i < candidates.len() ==> {
                let c = #[trigger] scored_all(query, candidates)[i];
                &&& c.name == candidates[i].name
                &&& c.full_path == candidates[i].full_path
                &&& c.score == edit_distance(query, candidates[i].name)
                &&& c.score <= longer(query.len(), c.name.len())
            },
{
    assert forall|i: int| 0 <= i < candidates.len() implies {
        let c = #[trigger] scored_all(query, candidates)[i];
        c.score <= longer(query.len(), c.name.len())
    } by {
        lemma_edit_distance_bounds(query, candidates[i].name);
    }
}

/// A candidate fresh from a crawl is scored as against the empty query.
pub proof fn lemma_unscored_is_scored_against_nothing(name: Seq<char>, full_path: Seq<char>)
    ensures
        unscored(name, full_path) == scored(Seq::<char>::empty(), unscored(name, full_path)),
{
    lemma_edit_distance_empty(name);
}

/// A candidate whose name is the query itself gets the score zero.
pub proof fn lemma_exact_name_scores_zero(c: CandidateView)
    ensures
        scored(c.name, c).score == 0,
{
    lemma_edit_distance_identity(c.name);
}

/// Sets the score of every candidate to the distance between `query` and
/// its name. The candidates stay as they are otherwise, and in their order.
/// No score exceeds the longer of the query and the name.
pub fn score_all(query: String, candidates: Vec<CandidateEntry>) -> (out: Vec<CandidateEntry>)
    ensures
        candidate_views(out@) == scored_all(query@, candidate_views(candidates@)),
        out.len() == candidates.len(),
        forall|i: int|
            0 <= i < out.len() ==> {
                &&& (#[trigger] out[i]).name == candidates[i].name
                &&& out[i].full_path == candidates[i].full_path
                &&& out[i].score == edit_distance(query@, candidates[i].name@)
                &&& out[i].score <= longer(query@.len(), candidates[i].name@.len())
            },
{
    let ghost before = candidates@;
    let wanted: Vec<char> = chars_of(query.as_str());
    let mut out: Vec<CandidateEntry> = Vec::new();
    for entry in it: candidates
        invariant
            it.seq() == before,
            wanted@ == query@,
            out.len() == it.index(),
            forall|i: int|
                0 <= i < out.len() ==> {
                    &&& (#[trigger] out[i]).name == before[i].name
                    &&& out[i].full_path == before[i].full_path
                    &&& out[i].score == edit_distance(query@, before[i].name@)
                },
    {
        let letters: Vec<char> = chars_of(entry.name.as_str());
        let score: usize = distance_of_chars(&wanted, &letters);
        out.push(CandidateEntry { name: entry.name, full_path: entry.full_path, score });
    }
    proof {
        assert(candidate_views(out@) =~= scored_all(query@, candidate_views(before)));
        assert forall|i: int| 0 <= i < out.len() implies (#[trigger] out[i]).score <= longer(
            query@.len(),
            before[i].name@.len(),
        ) by {
            lemma_edit_distance_bounds(query@, before[i].name@);
        }
    }
    out
}

proof fn lemma_insert_keeps_groups(s: Seq<CandidateView>, p: int, x: CandidateView, k: nat)
    requires
        0 <= p <= s.len(),
        forall|i: int| p <= i < s.len() ==> s[i].score != x.score,
    ensures
        s.insert(p, x).filter(has_score(k)) == if x.score == k {
            s.filter(has_score(k)).push(x)
        } else {
            s.filter(has_score(k))
        },
{
    let head = s.subrange(0, p);
    let tail = s.subrange(p, s.len() as int);
    let pred = has_score(k);
    assert(s =~= head + tail);
    Seq::filter_distributes_over_add(head, tail, pred);
    Seq::filter_distributes_over_add(head.push(x), tail, pred);
    head.lemma_filter_push(x, pred);
    if x.score == k {
        assert(tail.all(|c: CandidateView| !pred(c)));
        tail.lemma_all_neg_filter_empty(pred);
        assert(tail.filter(pred) =~= Seq::<CandidateView>::empty());
        assert(head.filter(pred) + tail.filter(pred) =~= head.filter(pred));
        assert(head.filter(pred).push(x) + tail.filter(pred) =~= head.filter(pred).push(x));
    }
}

/// A candidate put into a ranking behind the last one that is no worse
/// leaves a ranking, in which it is the last of its score.
proof fn lemma_insert_in_rank(ranked: Seq<CandidateView>, p: int, x: CandidateView)
    requires
        ascending(ranked),
        0 <= p <= ranked.len(),
        forall|i: int| 0 <= i < p ==> ranked[i].score <= x.score,
        p < ranked.len() ==> ranked[p].score > x.score,
    ensures
        ascending(ranked.insert(p, x)),
        forall|k: nat| #[trigger]
            ranked.insert(p, x).filter(has_score(k)) == if x.score == k {
                ranked.filter(has_score(k)).push(x)
            } else {
                ranked.filter(has_score(k))
            },
{
    let grown = ranked.insert(p, x);
    ranked.insert_ensures(p, x);
    assert forall|i: int| p <= i < ranked.len() implies ranked[i].score != x.score by {
        assert(i > p ==> ranked[p].score <= ranked[i].score);
    }
    assert forall|k: nat| #[trigger]
        grown.filter(has_score(k)) == if x.score == k {
            ranked.filter(has_score(k)).push(x)
        } else {
            ranked.filter(has_score(k))
        } by {
        lemma_insert_keeps_groups(ranked, p, x, k);
    }
    assert forall|i: int, j: int| 0 <= i < j < grown.len() implies grown[i].score
        <= grown[j].score by {
        if j < p {
            assert(grown[i] == ranked[i]);
            assert(grown[j] == ranked[j]);
        } else if j == p {
            assert(grown[i] == ranked[i]);
        } else if i < p {
            assert(grown[i] == ranked[i]);
            assert(grown[j] == ranked[j - 1]);
        } else if i == p {
            assert(grown[j] == ranked[j - 1]);
        } else {
            assert(grown[i] == ranked[i - 1]);
            assert(grown[j] == ranked[j - 1]);
        }
    }
}

/// In a ranking, no candidate has a better score than the first.
pub proof fn lemma_best_match_comes_first(
    before: Seq<CandidateView>,
    after: Seq<CandidateView>,
    i: int,
)
    requires
        is_ranking_of(before, after),
        0 <= i < before.len(),
    ensures
        after.len() > 0,
        after[0].score <= before[i].score,
{
    let pred = has_score(before[i].score);
    before.lemma_filter_contains(pred, i);
    assert(after.filter(pred) == before.filter(pred));
    after.lemma_filter_contains_rev(pred, before[i]);
    let j = choose|j: int| 0 <= j < after.len() && after[j] == before[i];
    assert(after[j].score == before[i].score);
}

/// A ranking holds the candidates that were ranked, and no others.
pub proof fn lemma_ranking_keeps_every_candidate(
    before: Seq<CandidateView>,
    after: Seq<CandidateView>,
    c: CandidateView,
)
    requires
        is_ranking_of(before, after),
    ensures
        after.contains(c) <==> before.contains(c),
{
    let pred = has_score(c.score);
    assert(after.filter(pred) == before.filter(pred));
    if after.contains(c) {
        let j = choose|j: int| 0 <= j < after.len() && after[j] == c;
        after.lemma_filter_contains(pred, j);
        before.lemma_filter_contains_rev(pred, c);
    }
    if before.contains(c) {
        let j = choose|j: int| 0 <= j < before.len() && before[j] == c;
        before.lemma_filter_contains(pred, j);
        after.lemma_filter_contains_rev(pred, c);
    }
}

/// Two ascending sequences that hold, for every score, the same
/// candidates in the same order are one and the same sequence.
proof fn lemma_ascending_with_equal_groups(a: Seq<CandidateView>, b: Seq<CandidateView>)
    requires
        ascending(a),
        ascending(b),
        forall|k: nat| #[trigger] a.filter(has_score(k)) == b.filter(has_score(k)),
    ensures
        a == b,
    decreases a.len(),
{
    if a.len() == 0 || b.len() == 0 {
        if b.len() > 0 {
            let pred = has_score(b[0].score);
            b.lemma_filter_contains(pred, 0);
            a.lemma_filter_len(pred);
            assert(a.filter(pred) == b.filter(pred));
        }
        if a.len() > 0 {
            let pred = has_score(a[0].score);
            a.lemma_filter_contains(pred, 0);
            b.lemma_filter_len(pred);
            assert(a.filter(pred) == b.filter(pred));
        }
        assert(a =~= b);
    } else {
        let x = a.last();
        let y = b.last();
        let a_rest = a.drop_last();
        let b_rest = b.drop_last();
        assert(a =~= a_rest.push(x));
        assert(b =~= b_rest.push(y));
        assert(y.score >= x.score) by {
            let pred = has_score(x.score);
            a.lemma_filter_contains(pred, a.len() - 1);
            assert(a.filter(pred) == b.filter(pred));
            b.lemma_filter_contains_rev(pred, x);
            let j = choose|j: int| 0 <= j < b.len() && b[j] == x;
            assert(j < b.len() - 1 ==> b[j].score <= b[b.len() - 1].score);
        }
        assert(x.score >= y.score) by {
            let pred = has_score(y.score);
            b.lemma_filter_contains(pred, b.len() - 1);
            assert(a.filter(pred) == b.filter(pred));
            a.lemma_filter_contains_rev(pred, y);
            let j = choose|j: int| 0 <= j < a.len() && a[j] == y;
            assert(j < a.len() - 1 ==> a[j].score <= a[a.len() - 1].score);
        }
        assert forall|k: nat| #[trigger]
            a_rest.filter(has_score(k)) == b_rest.filter(has_score(k)) by {
            let pred = has_score(k);
            a_rest.lemma_filter_push(x, pred);
            b_rest.lemma_filter_push(y, pred);
            assert(a.filter(pred) == b.filter(pred));
            if k == x.score {
                let a_group = a_rest.filter(pred);
                let b_group = b_rest.filter(pred);
                assert(a_group.push(x) == b_group.push(y));
                assert(a_group =~= a_group.push(x).drop_last());
                assert(b_group =~= b_group.push(y).drop_last());
            }
        }
        assert(x == y) by {
            let pred = has_score(x.score);
            a_rest.lemma_filter_push(x, pred);
            b_rest.lemma_filter_push(y, pred);
            assert(a.filter(pred) == b.filter(pred));
            assert(a_rest.filter(pred).push(x).last() == x);
            assert(b_rest.filter(pred).push(y).last() == y);
        }
        assert(ascending(a_rest)) by {
            assert forall|i: int, j: int| 0 <= i < j < a_rest.len() implies a_rest[i].score
                <= a_rest[j].score by {
                assert(a_rest[i] == a[i] && a_rest[j] == a[j]);
            }
        }
        assert(ascending(b_rest)) by {
            assert forall|i: int, j: int| 0 <= i < j < b_rest.len() implies b_rest[i].score
                <= b_rest[j].score by {
                assert(b_rest[i] == b[i] && b_rest[j] == b[j]);
            }
        }
        lemma_ascending_with_equal_groups(a_rest, b_rest);
    }
}

/// There is one ranking of given candidates, and no more.
pub proof fn lemma_ranking_is_unique(
    before: Seq<CandidateView>,
    first: Seq<CandidateView>,
    second: Seq<CandidateView>,
)
    requires
        is_ranking_of(before, first),
        is_ranking_of(before, second),
    ensures
        first == second,
{
    assert forall|k: nat| #[trigger]
        first.filter(has_score(k)) == second.filter(has_score(k)) by {
        assert(first.filter(has_score(k)) == before.filter(has_score(k)));
        assert(second.filter(has_score(k)) == before.filter(has_score(k)));
    }
    lemma_ascending_with_equal_groups(first, second);
}

/// A ranking has as many candidates as were ranked.
pub proof fn lemma_ranking_keeps_length(before: Seq<CandidateView>, after: Seq<CandidateView>)
    requires
        is_ranking_of(before, after),
    ensures
        after.len() == before.len(),
    decreases before.len(),
{
    lemma_rank_exists(before);
    let ranked = choose|r: Seq<CandidateView>| is_ranking_of(before, r) && r.len() == before.len();
    lemma_ranking_is_unique(before, ranked, after);
}

/// Every sequence of candidates has a ranking, of the same length.
proof fn lemma_rank_exists(before: Seq<CandidateView>)
    ensures
        exists|r: Seq<CandidateView>| is_ranking_of(before, r) && r.len() == before.len(),
    decreases before.len(),
{
    if before.len() == 0 {
        assert(is_ranking_of(before, before));
    } else {
        let x = before.last();
        let rest = before.drop_last();
        lemma_rank_exists(rest);
        let ranked = choose|r: Seq<CandidateView>| is_ranking_of(rest, r) && r.len() == rest.len();
        let p = first_worse(ranked, x.score, 0);
        lemma_first_worse(ranked, x.score, 0);
        lemma_insert_in_rank(ranked, p, x);
        let grown = ranked.insert(p, x);
        assert(before =~= rest.push(x));
        assert forall|k: nat| #[trigger]
            grown.filter(has_score(k)) == before.filter(has_score(k)) by {
            rest.lemma_filter_push(x, has_score(k));
            assert(ranked.filter(has_score(k)) == rest.filter(has_score(k)));
        }
        assert(is_ranking_of(before, grown) && grown.len() == before.len());
    }
}

/// The first place from `from` on where `s` holds a score above `score`,
/// or the length of `s` where there is none.
spec fn first_worse(s: Seq<CandidateView>, score: nat, from: int) -> int
    decreases s.len() - from,
{
    if from < 0 || from >= s.len() || s[from].score > score {
        from
    } else {
        first_worse(s, score, from + 1)
    }
}

proof fn lemma_first_worse(s: Seq<CandidateView>, score: nat, from: int)
    requires
        0 <= from <= s.len(),
        forall|i: int| 0 <= i < from ==> s[i].score <= score,
    ensures
        from <= first_worse(s, score, from) <= s.len(),
        forall|i: int| 0 <= i < first_worse(s, score, from) ==> s[i].score <= score,
        first_worse(s, score, from) < s.len() ==> s[first_worse(s, score, from)].score > score,
    decreases s.len() - from,
{
    if from < s.len() && s[from].score <= score {
        lemma_first_worse(s, score, from + 1);
    }
}

/// Orders the candidates by ascending score, best match first.
/// Candidates with equal scores keep the order they came in.
pub fn rank_by_score(candidates: Vec<CandidateEntry>) -> (ranked: Vec<CandidateEntry>)
    ensures
        is_ranking_of(candidate_views(candidates@), candidate_views(ranked@)),
        ranked@.to_multiset() == candidates@.to_multiset(),
{
    let ghost before = candidates@;
    let mut ranked: Vec<CandidateEntry> = Vec::new();
    proof {
        assert(before.take(0) =~= Seq::<CandidateEntry>::empty());
        assert(candidate_views(before.take(0)) =~= candidate_views(ranked@));
    }
    for entry in it: candidates
        invariant
            it.seq() == before,
            ascending(candidate_views(ranked@)),
            ranked@.to_multiset() == before.take(it.index() as int).to_multiset(),
            forall|k: nat| #[trigger]
                candidate_views(ranked@).filter(has_score(k)) == candidate_views(
                    before.take(it.index() as int),
                ).filter(has_score(k)),
    {
        let ghost done = it.index() as int;
        let ghost sorted = ranked@;
        let mut p: usize = 0;
        while p < ranked.len() && ranked[p].score <= entry.score
            invariant
                p <= ranked.len(),
                forall|i: int| 0 <= i < p ==> ranked[i].score <= entry.score,
            decreases ranked.len() - p,
        {
            p = p + 1;
        }
        ranked.insert(p, entry);
        proof {
            let done_views = candidate_views(before.take(done));
            assert(before.take(done + 1) =~= before.take(done).push(entry));
            assert(candidate_views(before.take(done + 1)) =~= done_views.push(entry@));
            assert(candidate_views(ranked@) =~= candidate_views(sorted).insert(p as int, entry@));
            vstd::seq_lib::to_multiset_insert(sorted, p as int, entry);
            vstd::seq_lib::to_multiset_build(before.take(done), entry);
            lemma_insert_in_rank(candidate_views(sorted), p as int, entry@);
            assert forall|k: nat| #[trigger]
                candidate_views(ranked@).filter(has_score(k)) == candidate_views(
                    before.take(done + 1),
                ).filter(has_score(k)) by {
                done_views.lemma_filter_push(entry@, has_score(k));
            }
        }
    }
    proof {
        assert(before.take(before.len() as int) =~= before);
    }
    ranked
}

/// Scores every candidate against `query` and orders them by that score,
/// best match first.
pub fn score_and_rank(query: String, candidates: Vec<CandidateEntry>) -> (ranked: Vec<
    CandidateEntry,
>)
    ensures
        is_ranking_of(
            scored_all(query@, candidate_views(candidates@)),
            candidate_views(ranked@),
        ),
{
    rank_by_score(score_all(query, candidates))
}

/// Whether the score of `entry` is at most `percent` hundredths of the
/// longer of `query_len` and the length of its name, both in code points.
pub fn is_close_match(entry: &CandidateEntry, query_len: usize, percent: u8) -> (close: bool)
    ensures
        close == within_tolerance(entry@, query_len as nat, percent as nat),
{
    let name_len: usize = entry.name.as_str().unicode_len();
    let reach: usize = if query_len >= name_len {
        query_len
    } else {
        name_len
    };
    assert(percent as int * reach as int <= 255 * usize::MAX) by (nonlinear_arith)
        requires
            0 <= percent <= 255,
            0 <= reach <= usize::MAX,
    ;
    let weighed: u128 = entry.score as u128 * 100;
    let allowed: u128 = percent as u128 * reach as u128;
    weighed <= allowed
}

/// Keeps the candidates that are close enough to `query`, in their order:
/// those whose score is at most `percent` hundredths of the longer of the
/// query and their name. The scores are taken as they stand.
pub fn select_matches(query: &str, candidates: Vec<CandidateEntry>, percent: u8) -> (kept: Vec<
    CandidateEntry,
>)
    ensures
        candidate_views(kept@) == candidate_views(candidates@).filter(
            is_match(query@.len(), percent as nat),
        ),
{
    let ghost before = candidates@;
    let ghost close = is_match(query@.len(), percent as nat);
    let query_len: usize = query.unicode_len();
    let mut kept: Vec<CandidateEntry> = Vec::new();
    proof {
        assert(candidate_views(before.take(0)) =~= Seq::<CandidateView>::empty());
        assert(candidate_views(kept@) =~= Seq::<CandidateView>::empty());
        reveal(Seq::filter);
    }
    for entry in it: candidates
        invariant
            it.seq() == before,
            query_len == query@.len(),
            close == is_match(query@.len(), percent as nat),
            candidate_views(kept@) == candidate_views(before.take(it.index() as int)).filter(
                close,
            ),
    {
        let ghost done = it.index() as int;
        proof {
            assert(before.take(done + 1) =~= before.take(done).push(entry));
            assert(candidate_views(before.take(done + 1)) =~= candidate_views(
                before.take(done),
            ).push(entry@));
            candidate_views(before.take(done)).lemma_filter_push(entry@, close);
            assert(candidate_views(kept@.push(entry)) =~= candidate_views(kept@).push(entry@));
        }
        if is_close_match(&entry, query_len, percent) {
            kept.push(entry);
        }
    }
    proof {
        assert(before.take(before.len() as int) =~= before);
    }
    kept
}

} // verus!
