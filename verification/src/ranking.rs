//! Ranking of candidates by the score that the match filter gives them.
//!
//! The filter itself is the `rff` crate's matcher and scorer. Its answer for
//! one query and one candidate is either nothing (no match) or a score, a
//! double-precision number that this module carries as its 64 bits and
//! compares through [`rank_of`], an integer that orders the bit patterns as
//! the numbers that they encode.

use vstd::prelude::*;
use vstd::relations::*;
use vstd::seq_lib::*;
use vstd::multiset::*;

verus! {

/// The answer of the match filter for `query` and `candidate`: `None` where
/// the candidate does not match, else the bits of its score.
pub uninterp spec fn filter_score(query: Seq<char>, candidate: Seq<char>) -> Option<u64>;

/// Calls `rff::match_and_score`, which answers `None` where
/// `rff::matcher::matches` rejects the pair and else the candidate with the
/// score of `rff::scorer::score`. The contract only gives that answer its
/// name, [`filter_score`], with the score taken as its bits: nothing is
/// claimed about which candidates match or how they score.
#[verifier::external_body]
pub(crate) fn match_and_score(query: &str, candidate: &str) -> (r: Option<u64>)
    ensures
        r == filter_score(query@, candidate@),
{
    match rff::match_and_score(query, candidate) {
        Some((_, score)) => Some(score.to_bits()),
        None => None,
    }
}

/// A candidate that matched: its position in the candidate list, and the
/// rank of its score.
#[derive(Clone, Copy, Debug, PartialEq, Eq, Structural)]
pub struct RankedMatch {
    pub index: usize,
    pub score: i64,
}

/// The place of a score in the order of scores, from its bits.
///
/// Bit patterns with the sign bit clear grow with the number they encode;
/// those with the sign bit set shrink as their remaining bits grow. Both
/// zeros get rank 0. For any two scores that are numbers, the one with the
/// greater rank is the greater number. A pattern that encodes no number is
/// ranked by the same rule, which puts it beyond the infinities.
pub open spec fn rank_of(bits: u64) -> int {
    if bits < 0x8000_0000_0000_0000 {
        bits as int
    } else {
        0x8000_0000_0000_0000 - bits
    }
}

/// Whether `a` stands at or before `b` in a ranking: a higher score comes
/// first, and of two equal scores the earlier candidate.
pub open spec fn outranks(a: RankedMatch, b: RankedMatch) -> bool {
    a.score > b.score || (a.score == b.score && a.index <= b.index)
}

/// [`outranks`] as a relation.
pub open spec fn by_rank() -> spec_fn(RankedMatch, RankedMatch) -> bool {
    |a: RankedMatch, b: RankedMatch| outranks(a, b)
}

/// The candidates that matched, in candidate order.
pub open spec fn matched(scores: Seq<Option<u64>>) -> Seq<RankedMatch>
    decreases scores.len(),
{
    if scores.len() == 0 {
        Seq::empty()
    } else {
        let rest = matched(scores.drop_last());
        match scores.last() {
            Some(bits) => rest.push(
                RankedMatch { index: (scores.len() - 1) as usize, score: rank_of(bits) as i64 },
            ),
            None => rest,
        }
    }
}

/// The ranked match list for the given filter answers, one per candidate:
/// the candidates that matched, ordered by [`outranks`].
pub open spec fn ranking(scores: Seq<Option<u64>>) -> Seq<RankedMatch> {
    matched(scores).sort_by(by_rank())
}

/// The filter answers for every candidate under one query.
pub open spec fn scores_of(query: Seq<char>, candidates: Seq<Seq<char>>) -> Seq<Option<u64>> {
    Seq::new(candidates.len(), |i: int| filter_score(query, candidates[i]))
}

/// The texts of a list of strings.
pub open spec fn texts(strings: Seq<String>) -> Seq<Seq<char>> {
    Seq::new(strings.len(), |i: int| strings[i]@)
}

/// [`outranks`] is a total order on ranked matches.
pub proof fn lemma_by_rank_total()
    ensures
        total_ordering(by_rank()),
{
    let r = by_rank();
    assert(reflexive(r));
    assert(antisymmetric(r)) by {
        assert forall|x: RankedMatch, y: RankedMatch| #[trigger] r(x, y) && #[trigger] r(y, x) implies x == y by {}
    }
    assert(transitive(r));
    assert(strongly_connected(r));
}

/// Whether `m` stands for a candidate that matched under `scores`, with
/// the rank of its score.
pub open spec fn is_match_of(m: RankedMatch, scores: Seq<Option<u64>>) -> bool {
    &&& m.index < scores.len()
    &&& scores[m.index as int] is Some
    &&& m.score == rank_of(scores[m.index as int]->0)
}

proof fn lemma_matched(scores: Seq<Option<u64>>)
    requires
        scores.len() <= usize::MAX,
    ensures
        matched(scores).len() <= scores.len(),
        forall|k: int| 0 <= k < matched(scores).len() ==> is_match_of(#[trigger] matched(scores)[k], scores),
        forall|i: int| 0 <= i < scores.len() && #[trigger] scores[i] is Some ==> exists|k: int|
            0 <= k < matched(scores).len() && #[trigger] matched(scores)[k].index == i,
        forall|a: int, b: int| 0 <= a < b < matched(scores).len() ==>
            #[trigger] matched(scores)[a].index < #[trigger] matched(scores)[b].index,
    decreases scores.len(),
{
    if scores.len() > 0 {
        let front = scores.drop_last();
        lemma_matched(front);
        let rest = matched(front);
        let all = matched(scores);
        assert forall|k: int| 0 <= k < all.len() implies is_match_of(#[trigger] all[k], scores) by {
            if k < rest.len() {
                assert(is_match_of(rest[k], front));
            }
        }
        assert forall|i: int| 0 <= i < scores.len() && #[trigger] scores[i] is Some implies exists|k: int|
            0 <= k < all.len() && #[trigger] all[k].index == i by {
            if i < front.len() {
                assert(front[i] is Some);
                let k = choose|k: int| 0 <= k < rest.len() && #[trigger] rest[k].index == i;
                assert(all[k].index == i);
            } else {
                assert(all[all.len() - 1].index == i);
            }
        }
        assert forall|a: int, b: int| 0 <= a < b < all.len() implies #[trigger] all[a].index
            < #[trigger] all[b].index by {
            assert(is_match_of(rest[a], front));
        }
    }
}

/// The ranked match list holds matches only, every match once, the higher
/// score first and, of equal scores, the earlier candidate first.
pub proof fn lemma_ranking(scores: Seq<Option<u64>>)
    requires
        scores.len() <= usize::MAX,
    ensures
        ranking(scores).len() <= scores.len(),
        forall|k: int| 0 <= k < ranking(scores).len() ==> is_match_of(#[trigger] ranking(scores)[k], scores),
        forall|i: int| 0 <= i < scores.len() && #[trigger] scores[i] is Some ==> exists|k: int|
            0 <= k < ranking(scores).len() && #[trigger] ranking(scores)[k].index == i,
        forall|a: int, b: int| 0 <= a < b < ranking(scores).len() ==> {
            let first = #[trigger] ranking(scores)[a];
            let second = #[trigger] ranking(scores)[b];
            first.score > second.score || (first.score == second.score && first.index < second.index)
        },
{
    broadcast use {group_to_multiset_ensures, group_multiset_axioms};

    let found = matched(scores);
    let ranked = ranking(scores);
    lemma_matched(scores);
    lemma_by_rank_total();
    found.lemma_sort_by_ensures(by_rank());
    found.to_multiset_ensures();
    ranked.to_multiset_ensures();
    assert(ranked.len() == found.len());
    assert forall|k: int| 0 <= k < ranked.len() implies is_match_of(#[trigger] ranked[k], scores) by {
        assert(ranked.contains(ranked[k]));
        assert(found.contains(ranked[k]));
    }
    assert forall|i: int| 0 <= i < scores.len() && #[trigger] scores[i] is Some implies exists|k: int|
        0 <= k < ranked.len() && #[trigger] ranked[k].index == i by {
        let k = choose|k: int| 0 <= k < found.len() && #[trigger] found[k].index == i;
        assert(found.contains(found[k]));
        assert(found.to_multiset().count(found[k]) > 0);
        assert(ranked.to_multiset().count(found[k]) > 0);
        assert(ranked.contains(found[k]));
        let j = choose|j: int| 0 <= j < ranked.len() && ranked[j] == found[k];
        assert(ranked[j].index == i);
    }
    assert(found.no_duplicates());
    found.lemma_multiset_has_no_duplicates();
    ranked.lemma_multiset_has_no_duplicates_conv();
    assert forall|a: int, b: int| 0 <= a < b < ranked.len() implies {
        let first = #[trigger] ranked[a];
        let second = #[trigger] ranked[b];
        first.score > second.score || (first.score == second.score && first.index < second.index)
    } by {
        assert(by_rank()(ranked[a], ranked[b]));
        assert(ranked[a] != ranked[b]);
        assert(is_match_of(ranked[a], scores));
        assert(is_match_of(ranked[b], scores));
    }
}

/// Computes [`rank_of`].
pub fn score_rank(bits: u64) -> (r: i64)
    ensures
        r == rank_of(bits),
{
    if bits < 0x8000_0000_0000_0000 {
        bits as i64
    } else {
        let magnitude: u64 = bits - 0x8000_0000_0000_0000;
        0 - (magnitude as i64)
    }
}

/// Whether `a` goes before `b` in a ranking.
pub fn goes_first(a: &RankedMatch, b: &RankedMatch) -> (r: bool)
    ensures
        r == outranks(*a, *b),
{
    a.score > b.score || (a.score == b.score && a.index <= b.index)
}

/// Asks the filter about every candidate.
pub fn score_candidates(query: &str, candidates: &Vec<String>) -> (scores: Vec<Option<u64>>)
    ensures
        scores@ == scores_of(query@, texts(candidates@)),
{
    let mut scores: Vec<Option<u64>> = Vec::new();
    let mut i: usize = 0;
    while i < candidates.len()
        invariant
            i <= candidates.len(),
            scores@.len() == i,
            forall|k: int| 0 <= k < i ==> scores@[k] == filter_score(query@, #[trigger] candidates@[k]@),
        decreases candidates.len() - i,
    {
        let answer = match_and_score(query, candidates[i].as_str());
        scores.push(answer);
        i += 1;
    }
    assert(scores@ =~= scores_of(query@, texts(candidates@)));
    scores
}

/// Lists the candidates that matched, in candidate order.
pub fn collect_matches(scores: &Vec<Option<u64>>) -> (found: Vec<RankedMatch>)
    ensures
        found@ == matched(scores@),
{
    let mut found: Vec<RankedMatch> = Vec::new();
    let mut i: usize = 0;
    assert(scores@.take(0) =~= Seq::<Option<u64>>::empty());
    while i < scores.len()
        invariant
            i <= scores.len(),
            found@ == matched(scores@.take(i as int)),
        decreases scores.len() - i,
    {
        proof {
            let next = scores@.take(i + 1);
            assert(next.drop_last() =~= scores@.take(i as int));
            assert(next.last() == scores@[i as int]);
        }
        match scores[i] {
            Some(bits) => {
                found.push(RankedMatch { index: i, score: score_rank(bits) });
            },
            None => {},
        }
        i += 1;
    }
    assert(scores@.take(i as int) =~= scores@);
    found
}

/// Merges two rankings into one.
fn merge(a: &Vec<RankedMatch>, b: &Vec<RankedMatch>) -> (out: Vec<RankedMatch>)
    requires
        sorted_by(a@, by_rank()),
        sorted_by(b@, by_rank()),
    ensures
        sorted_by(out@, by_rank()),
        out@.to_multiset() == a@.to_multiset().add(b@.to_multiset()),
{
    broadcast use {group_to_multiset_ensures, group_multiset_axioms};

    let mut out: Vec<RankedMatch> = Vec::new();
    let mut i: usize = 0;
    let mut j: usize = 0;
    assert(a@.take(0) =~= Seq::<RankedMatch>::empty());
    assert(b@.take(0) =~= Seq::<RankedMatch>::empty());
    while i < a.len() || j < b.len()
        invariant
            i <= a.len(),
            j <= b.len(),
            sorted_by(a@, by_rank()),
            sorted_by(b@, by_rank()),
            sorted_by(out@, by_rank()),
            out@.to_multiset() == a@.take(i as int).to_multiset().add(
                b@.take(j as int).to_multiset(),
            ),
            forall|k: int| 0 <= k < out@.len() && i < a.len() ==> outranks(#[trigger] out@[k], a@[i as int]),
            forall|k: int| 0 <= k < out@.len() && j < b.len() ==> outranks(#[trigger] out@[k], b@[j as int]),
        decreases (a.len() - i) + (b.len() - j),
    {
        let from_a = if i >= a.len() {
            false
        } else if j >= b.len() {
            true
        } else {
            goes_first(&a[i], &b[j])
        };
        let ghost before = out@;
        if from_a {
            let item = a[i];
            out.push(item);
            proof {
                assert(a@.take(i + 1) =~= a@.take(i as int).push(item));
                assert(out@ =~= before.push(item));
                to_multiset_build(before, item);
                to_multiset_build(a@.take(i as int), item);
                assert(out@.to_multiset() =~= a@.take(i + 1).to_multiset().add(
                    b@.take(j as int).to_multiset(),
                ));
                assert forall|x: int, y: int| 0 <= x < y < out@.len() implies #[trigger] by_rank()(
                    out@[x],
                    out@[y],
                ) by {
                    if y < before.len() {
                        assert(by_rank()(before[x], before[y]));
                    }
                }
                assert forall|k: int| 0 <= k < out@.len() && i + 1 < a.len() implies outranks(
                    #[trigger] out@[k],
                    a@[i + 1],
                ) by {
                    assert(by_rank()(a@[i as int], a@[i + 1]));
                }
            }
            i += 1;
        } else {
            let item = b[j];
            out.push(item);
            proof {
                assert(b@.take(j + 1) =~= b@.take(j as int).push(item));
                assert(out@ =~= before.push(item));
                to_multiset_build(before, item);
                to_multiset_build(b@.take(j as int), item);
                assert(out@.to_multiset() =~= a@.take(i as int).to_multiset().add(
                    b@.take(j + 1).to_multiset(),
                ));
                assert forall|x: int, y: int| 0 <= x < y < out@.len() implies #[trigger] by_rank()(
                    out@[x],
                    out@[y],
                ) by {
                    if y < before.len() {
                        assert(by_rank()(before[x], before[y]));
                    }
                }
                assert forall|k: int| 0 <= k < out@.len() && j + 1 < b.len() implies outranks(
                    #[trigger] out@[k],
                    b@[j + 1],
                ) by {
                    assert(by_rank()(b@[j as int], b@[j + 1]));
                }
            }
            j += 1;
        }
    }
    assert(a@.take(i as int) =~= a@);
    assert(b@.take(j as int) =~= b@);
    out
}

/// Sorts the items of `v` from `lo` up to `hi` into a ranking.
fn sort_range(v: &Vec<RankedMatch>, lo: usize, hi: usize) -> (out: Vec<RankedMatch>)
    requires
        lo <= hi <= v.len(),
    ensures
        sorted_by(out@, by_rank()),
        out@.to_multiset() == v@.subrange(lo as int, hi as int).to_multiset(),
    decreases hi - lo,
{
    broadcast use group_to_multiset_ensures;

    if hi - lo <= 1 {
        let mut out: Vec<RankedMatch> = Vec::new();
        if hi - lo == 1 {
            out.push(v[lo]);
        }
        assert(out@ =~= v@.subrange(lo as int, hi as int));
        out
    } else {
        let mid: usize = lo + (hi - lo) / 2;
        let left = sort_range(v, lo, mid);
        let right = sort_range(v, mid, hi);
        proof {
            let l = v@.subrange(lo as int, mid as int);
            let r = v@.subrange(mid as int, hi as int);
            assert(v@.subrange(lo as int, hi as int) =~= l + r);
            lemma_multiset_commutative(l, r);
        }
        merge(&left, &right)
    }
}

/// Orders matches by [`outranks`].
pub fn sort_matches(v: &Vec<RankedMatch>) -> (out: Vec<RankedMatch>)
    ensures
        out@ == v@.sort_by(by_rank()),
{
    let out = sort_range(v, 0, v.len());
    proof {
        assert(v@.subrange(0, v.len() as int) =~= v@);
        lemma_by_rank_total();
        v@.lemma_sort_by_ensures(by_rank());
        lemma_sorted_unique(out@, v@.sort_by(by_rank()), by_rank());
    }
    out
}

/// Builds the ranked match list from the filter's answers, one per
/// candidate.
pub fn rank_matches(scores: &Vec<Option<u64>>) -> (out: Vec<RankedMatch>)
    ensures
        out@ == ranking(scores@),
{
    let found = collect_matches(scores);
    sort_matches(&found)
}

} // verus!
