use skim::fuzzy_matcher::skim::SkimMatcherV2;
use skim::fuzzy_matcher::FuzzyMatcher;
use vstd::prelude::*;

verus! {

/// The score that skim's fuzzy matcher, ignoring case, gives `line` for
/// `query`; `None` when the line does not match.
pub uninterp spec fn fuzzy_score(line: Seq<char>, query: Seq<char>) -> Option<i64>;

/// Every character is ASCII.
pub open spec fn is_ascii_text(s: Seq<char>) -> bool {
    forall|i: int| 0 <= i < s.len() ==> (#[trigger] s[i] as u32) < 128
}

/// Two characters are equal up to ASCII letter case.
pub open spec fn same_ignoring_case(a: char, b: char) -> bool {
    a == b || ('A' <= a <= 'Z' && (a as u32) + 32 == b as u32) || ('A' <= b <= 'Z' && (b as u32)
        + 32 == a as u32)
}

/// The characters of `q` occur in `l` in order, letter case ignored.
pub open spec fn subsequence_ignoring_case(q: Seq<char>, l: Seq<char>) -> bool
    decreases l.len(),
{
    if q.len() == 0 {
        true
    } else if l.len() == 0 {
        false
    } else if same_ignoring_case(q[0], l[0]) {
        subsequence_ignoring_case(q.subrange(1, q.len() as int), l.subrange(1, l.len() as int))
    } else {
        subsequence_ignoring_case(q, l.subrange(1, l.len() as int))
    }
}

/// Scores `line` against `query`.
///
/// Relies on `SkimMatcherV2::fuzzy_match` with case ignored: the result depends
/// on the two texts alone, and an empty query scores `Some(0)`. A score comes
/// exactly when the greedy scan `cheap_matches` finds the query's characters
/// in order in the line, compared with `char_equal`, which for ASCII
/// characters and case ignored is `eq_ignore_ascii_case`.
#[verifier::external_body]
pub fn score_line(line: &str, query: &str) -> (r: Option<i64>)
    ensures
        r == fuzzy_score(line@, query@),
        query@.len() == 0 ==> r == Some(0i64),
        is_ascii_text(line@) && is_ascii_text(query@) ==> (r is Some <==> subsequence_ignoring_case(
            query@,
            line@,
        )),
{
    SkimMatcherV2::default().ignore_case().fuzzy_match(line, query)
}

/// Candidate `i` is shown above candidate `j`: a higher score, or an equal one
/// and an earlier place among the candidates.
pub open spec fn ranks_before(scores: Seq<Option<i64>>, i: int, j: int) -> bool {
    scores[i]->0 > scores[j]->0 || (scores[i]->0 == scores[j]->0 && i < j)
}

/// `r` lists, in display order, exactly those of the first `n` candidates that
/// have a score.
pub open spec fn ranking_upto(scores: Seq<Option<i64>>, r: Seq<usize>, n: int) -> bool {
    &&& forall|k: int| 0 <= k < r.len() ==> (#[trigger] r[k]) < n && scores[r[k] as int] is Some
    &&& forall|j: int|
        0 <= j < n && (#[trigger] scores[j]) is Some ==> exists|k: int|
            0 <= k < r.len() && r[k] == j
    &&& forall|a: int, b: int|
        0 <= a < b < r.len() ==> ranks_before(scores, #[trigger] r[a] as int, #[trigger] r[b] as int)
}

/// `r` is the display order of all candidates that match: those with a score,
/// by descending score, ties kept in candidate order.
pub open spec fn is_ranking(scores: Seq<Option<i64>>, r: Seq<usize>) -> bool {
    ranking_upto(scores, r, scores.len() as int)
}

proof fn lemma_scores_below(scores: Seq<Option<i64>>, r: Seq<usize>, i: int, p: int, s: i64)
    requires
        ranking_upto(scores, r, i),
        0 <= p <= r.len(),
        p < r.len() ==> scores[r[p] as int]->0 < s,
    ensures
        forall|k: int| p <= k < r.len() ==> scores[#[trigger] r[k] as int]->0 < s,
{
    assert forall|k: int| p <= k < r.len() implies scores[#[trigger] r[k] as int]->0 < s by {
        if p < k {
            assert(ranks_before(scores, r[p] as int, r[k] as int));
        }
    }
}

proof fn lemma_insert_ranking(scores: Seq<Option<i64>>, r: Seq<usize>, i: usize, p: int, s: i64)
    requires
        i < scores.len(),
        scores[i as int] == Some(s),
        ranking_upto(scores, r, i as int),
        0 <= p <= r.len(),
        forall|k: int| 0 <= k < p ==> scores[#[trigger] r[k] as int]->0 >= s,
        forall|k: int| p <= k < r.len() ==> scores[#[trigger] r[k] as int]->0 < s,
    ensures
        ranking_upto(scores, r.insert(p, i), i + 1),
{
    let nr = r.insert(p, i);
    assert forall|k: int| 0 <= k < nr.len() implies (#[trigger] nr[k]) < i + 1 && scores[nr[k] as int] is Some by {
        if k < p {
            assert(nr[k] == r[k]);
        } else if k > p {
            assert(nr[k] == r[k - 1]);
        }
    }
    assert forall|j: int| 0 <= j < i + 1 && (#[trigger] scores[j]) is Some implies exists|k: int|
        0 <= k < nr.len() && nr[k] == j by {
        if j == i {
            assert(nr[p] == j);
        } else {
            let k0 = choose|k: int| 0 <= k < r.len() && r[k] == j;
            if k0 < p {
                assert(nr[k0] == j);
            } else {
                assert(nr[k0 + 1] == j);
            }
        }
    }
    assert forall|a: int, b: int| 0 <= a < b < nr.len() implies ranks_before(
        scores,
        #[trigger] nr[a] as int,
        #[trigger] nr[b] as int,
    ) by {
        if b < p {
            assert(nr[a] == r[a] && nr[b] == r[b]);
            assert(ranks_before(scores, r[a] as int, r[b] as int));
        } else if b == p {
            assert(nr[a] == r[a]);
            assert(r[a] < i);
        } else if a == p {
            assert(nr[b] == r[b - 1]);
        } else if a < p {
            assert(nr[a] == r[a] && nr[b] == r[b - 1]);
        } else {
            assert(nr[a] == r[a - 1] && nr[b] == r[b - 1]);
            assert(ranks_before(scores, r[a - 1] as int, r[b - 1] as int));
        }
    }
}

proof fn lemma_skip_unscored(scores: Seq<Option<i64>>, r: Seq<usize>, i: int)
    requires
        0 <= i < scores.len(),
        scores[i] is None,
        ranking_upto(scores, r, i),
    ensures
        ranking_upto(scores, r, i + 1),
{
    assert forall|j: int| 0 <= j < i + 1 && (#[trigger] scores[j]) is Some implies exists|k: int|
        0 <= k < r.len() && r[k] == j by {
        if j < i {
        }
    }
}

/// The display order for the given scores: the matching candidates, best score
/// first, equal scores in candidate order.
///
/// Each match is placed by insertion, so the cost is quadratic in the number
/// of matches: a limit for collections beyond a few thousand bookmarks.
pub fn order_by_score(scores: &Vec<Option<i64>>) -> (r: Vec<usize>)
    ensures
        is_ranking(scores@, r@),
{
    let mut r: Vec<usize> = Vec::new();
    let mut i: usize = 0;
    while i < scores.len()
        invariant
            i <= scores@.len(),
            ranking_upto(scores@, r@, i as int),
        decreases scores@.len() - i,
    {
        if let Some(s) = scores[i] {
            let mut p: usize = 0;
            while p < r.len()
                invariant
                    i < scores@.len(),
                    scores@[i as int] == Some(s),
                    ranking_upto(scores@, r@, i as int),
                    p <= r@.len(),
                    forall|k: int| 0 <= k < p ==> scores@[#[trigger] r@[k] as int]->0 >= s,
                ensures
                    p <= r@.len(),
                    forall|k: int| 0 <= k < p ==> scores@[#[trigger] r@[k] as int]->0 >= s,
                    p < r@.len() ==> scores@[r@[p as int] as int]->0 < s,
                decreases r@.len() - p,
            {
                let rp = r[p];
                if let Some(v) = scores[rp] {
                    if v < s {
                        break;
                    }
                }
                p = p + 1;
            }
            proof {
                lemma_scores_below(scores@, r@, i as int, p as int, s);
                lemma_insert_ranking(scores@, r@, i, p as int, s);
            }
            r.insert(p, i);
        } else {
            proof {
                lemma_skip_unscored(scores@, r@, i as int);
            }
        }
        i = i + 1;
    }
    r
}

proof fn lemma_rank_prefix_equal(scores: Seq<Option<i64>>, r1: Seq<usize>, r2: Seq<usize>, k: int)
    requires
        is_ranking(scores, r1),
        is_ranking(scores, r2),
        0 <= k <= r1.len(),
        k <= r2.len(),
    ensures
        forall|m: int| 0 <= m < k ==> r1[m] == r2[m],
    decreases k,
{
    if k > 0 {
        lemma_rank_prefix_equal(scores, r1, r2, k - 1);
        let c = k - 1;
        let x = r1[c];
        let y = r2[c];
        assert(scores[x as int] is Some);
        assert(scores[y as int] is Some);
        let m = choose|m: int| 0 <= m < r2.len() && r2[m] == x;
        let m2 = choose|m: int| 0 <= m < r1.len() && r1[m] == y;
        if x != y {
            if m < c {
                assert(ranks_before(scores, r1[m] as int, r1[c] as int));
            }
            if m2 < c {
                assert(ranks_before(scores, r2[m2] as int, r2[c] as int));
            }
            assert(m != c);
            assert(m2 != c);
            assert(ranks_before(scores, r2[c] as int, r2[m] as int));
            assert(ranks_before(scores, r1[c] as int, r1[m2] as int));
        }
    }
}

/// Only one list meets `is_ranking` for given scores.
pub proof fn lemma_ranking_unique(scores: Seq<Option<i64>>, r1: Seq<usize>, r2: Seq<usize>)
    requires
        is_ranking(scores, r1),
        is_ranking(scores, r2),
    ensures
        r1 == r2,
{
    if r1.len() < r2.len() {
        lemma_rank_prefix_equal(scores, r1, r2, r1.len() as int);
        let x = r2[r1.len() as int];
        assert(scores[x as int] is Some);
        let m = choose|m: int| 0 <= m < r1.len() && r1[m] == x;
        assert(ranks_before(scores, r2[m] as int, r2[r1.len() as int] as int));
    } else if r2.len() < r1.len() {
        lemma_rank_prefix_equal(scores, r2, r1, r2.len() as int);
        let x = r1[r2.len() as int];
        assert(scores[x as int] is Some);
        let m = choose|m: int| 0 <= m < r2.len() && r2[m] == x;
        assert(ranks_before(scores, r1[m] as int, r1[r2.len() as int] as int));
    } else {
        lemma_rank_prefix_equal(scores, r1, r2, r1.len() as int);
        assert(r1 =~= r2);
    }
}

proof fn lemma_split_point(scores: Seq<Option<i64>>, r: Seq<usize>, s: i64, from: int) -> (p: int)
    requires
        0 <= from <= r.len(),
        forall|k: int| 0 <= k < from ==> scores[#[trigger] r[k] as int]->0 >= s,
    ensures
        from <= p <= r.len(),
        forall|k: int| 0 <= k < p ==> scores[#[trigger] r[k] as int]->0 >= s,
        p < r.len() ==> scores[r[p] as int]->0 < s,
    decreases r.len() - from,
{
    if from == r.len() || scores[r[from] as int]->0 < s {
        from
    } else {
        lemma_split_point(scores, r, s, from + 1)
    }
}

proof fn lemma_ranking_upto_exists(scores: Seq<Option<i64>>, n: int)
    requires
        0 <= n <= scores.len(),
        scores.len() <= usize::MAX,
    ensures
        exists|r: Seq<usize>| #[trigger] ranking_upto(scores, r, n),
    decreases n,
{
    if n == 0 {
        assert(ranking_upto(scores, Seq::<usize>::empty(), 0));
    } else {
        lemma_ranking_upto_exists(scores, n - 1);
        let r = choose|r: Seq<usize>| #[trigger] ranking_upto(scores, r, n - 1);
        match scores[n - 1] {
            None => {
                lemma_skip_unscored(scores, r, n - 1);
            },
            Some(s) => {
                let p = lemma_split_point(scores, r, s, 0);
                lemma_scores_below(scores, r, n - 1, p, s);
                lemma_insert_ranking(scores, r, (n - 1) as usize, p, s);
                assert(ranking_upto(scores, r.insert(p, (n - 1) as usize), n));
            },
        }
    }
}

/// Every list of scores that a `Vec` can hold has a ranking.
pub proof fn lemma_ranking_exists(scores: Seq<Option<i64>>)
    requires
        scores.len() <= usize::MAX,
    ensures
        exists|r: Seq<usize>| #[trigger] is_ranking(scores, r),
{
    lemma_ranking_upto_exists(scores, scores.len() as int);
    let r = choose|r: Seq<usize>| #[trigger] ranking_upto(scores, r, scores.len() as int);
    assert(is_ranking(scores, r));
}

} // verus!
