//! Searching for a directory: the segment matcher, the query scorer and
//! the candidate ranker.
//!
//! A query is a run of space-separated tokens; a path is a run of
//! slash-separated segments. `score_part` scores one token against one
//! segment by fuzzy subsequence matching; `score_query` composes it over
//! a whole path; `rank` picks the best candidate.

use vstd::prelude::*;
use crate::MAX_QUERY_LEN;
use crate::cache::{Cache, Error, lookup_in, store_put, lemma_store_put_at, lemma_store_put_absent};
use crate::strings::{chars_of, split_chars, split_seq, str_eq, string_from_chars, total_len,
    lemma_split_seq_shape, lemma_total_len_prefix, lemma_total_len_take, lemma_piece_le_total};

verus! {

/// Options for the search operation.
pub struct Opts {
    /// Rank in project mode: listed directories all start from the same
    /// high sentinel score, so the match score alone decides.
    pub project: bool,
    /// The query, as the parts the caller received.
    pub path: Vec<String>,
}

/// Is `q` a subsequence of `s`: do its characters appear in `s`, in
/// order, not necessarily contiguously?
pub open spec fn is_subsequence(q: Seq<char>, s: Seq<char>) -> bool
    decreases s.len(),
{
    if q.len() == 0 {
        true
    } else if s.len() == 0 {
        false
    } else {
        (q[0] == s[0] && is_subsequence(q.skip(1), s.skip(1))) || is_subsequence(q, s.skip(1))
    }
}

/// The segment matcher's lock-step state: `successive` counts the run of
/// consecutive matches, `first` is whether the anchor bonus is still
/// open, `score` is what the walk has earned so far. A failed walk
/// discards everything and yields 0.
pub open spec fn score_part_rec(
    q: Seq<char>,
    s: Seq<char>,
    successive: int,
    first: bool,
    score: int,
) -> int
    decreases s.len(), 1int,
{
    if q.len() == 0 {
        score + if s.len() == 0 && successive > 0 {
            4int
        } else {
            0int
        }
    } else if s.len() == 0 {
        0
    } else if q[0] == s[0] {
        score_part_rec(
            q.skip(1),
            s.skip(1),
            successive + 1,
            false,
            score + 1 + 2 * successive + if first {
                4int
            } else {
                0int
            },
        )
    } else {
        score_part_scan(q, s.skip(1), score)
    }
}

/// The best-effort forward scan after a lock-step miss: consume segment
/// characters until one equals the current query character; run out and
/// the whole match fails with 0.
pub open spec fn score_part_scan(q: Seq<char>, t: Seq<char>, score: int) -> int
    decreases t.len(), 0int,
{
    if t.len() == 0 {
        0
    } else if q[0] == t[0] {
        score_part_rec(q.skip(1), t.skip(1), 1, false, score + 1)
    } else {
        score_part_scan(q, t.skip(1), score)
    }
}

/// Fuzzy subsequence score of one query token against one path segment.
pub open spec fn score_part_spec(q: Seq<char>, s: Seq<char>) -> int {
    score_part_rec(q, s, 0, true, 0)
}

proof fn lemma_subseq_tail(q: Seq<char>, s: Seq<char>)
    requires
        q.len() > 0,
        is_subsequence(q, s),
    ensures
        is_subsequence(q.skip(1), s.skip(1)),
    decreases s.len(),
{
    if s.len() == 0 {
    } else if q[0] == s[0] && is_subsequence(q.skip(1), s.skip(1)) {
    } else {
        assert(is_subsequence(q, s.skip(1)));
        lemma_subseq_tail(q, s.skip(1));
        if q.skip(1).len() > 0 {
            assert(s.skip(1).len() > 0);
            assert(is_subsequence(q.skip(1), s.skip(1).skip(1)));
            assert(is_subsequence(q.skip(1), s.skip(1)));
        }
    }
}

/// Matching the head characters loses nothing: the greedy step.
proof fn lemma_subseq_greedy(q: Seq<char>, s: Seq<char>)
    requires
        q.len() > 0,
        s.len() > 0,
        q[0] == s[0],
    ensures
        is_subsequence(q, s) == is_subsequence(q.skip(1), s.skip(1)),
{
    if is_subsequence(q, s) {
        lemma_subseq_tail(q, s);
    }
}

/// The walk never goes negative, and — entered with a non-empty token
/// and non-negative state — ends positive exactly on subsequences.
proof fn lemma_rec_pos(q: Seq<char>, s: Seq<char>, successive: int, first: bool, score: int)
    requires
        successive >= 0,
        score >= 0,
    ensures
        score_part_rec(q, s, successive, first, score) >= 0,
        q.len() > 0 ==> (score_part_rec(q, s, successive, first, score) > 0) == is_subsequence(
            q,
            s,
        ),
    decreases s.len(), 1int,
{
    if q.len() == 0 {
    } else if s.len() == 0 {
    } else if q[0] == s[0] {
        lemma_rec_pos(
            q.skip(1),
            s.skip(1),
            successive + 1,
            false,
            score + 1 + 2 * successive + if first {
                4int
            } else {
                0int
            },
        );
        lemma_subseq_greedy(q, s);
        if q.skip(1).len() == 0 {
            assert(score_part_rec(q, s, successive, first, score) > 0);
            assert(is_subsequence(q.skip(1), s.skip(1)));
        }
    } else {
        lemma_scan_pos(q, s.skip(1), score);
        assert(is_subsequence(q, s) == is_subsequence(q, s.skip(1)));
    }
}

proof fn lemma_scan_pos(q: Seq<char>, t: Seq<char>, score: int)
    requires
        q.len() > 0,
        score >= 0,
    ensures
        score_part_scan(q, t, score) >= 0,
        (score_part_scan(q, t, score) > 0) == is_subsequence(q, t),
    decreases t.len(), 0int,
{
    if t.len() == 0 {
    } else if q[0] == t[0] {
        lemma_rec_pos(q.skip(1), t.skip(1), 1, false, score + 1);
        lemma_subseq_greedy(q, t);
        if q.skip(1).len() == 0 {
            assert(score_part_rec(q.skip(1), t.skip(1), 1, false, score + 1) > 0);
        }
    } else {
        lemma_scan_pos(q, t.skip(1), score);
        assert(is_subsequence(q, t) == is_subsequence(q, t.skip(1)));
    }
}

/// Law: for a non-empty token, the segment score is never negative, and
/// it is positive exactly when the token is a subsequence of the segment.
pub proof fn lemma_score_part_subsequence(q: Seq<char>, s: Seq<char>)
    requires
        q.len() > 0,
    ensures
        score_part_spec(q, s) >= 0,
        (score_part_spec(q, s) > 0) == is_subsequence(q, s),
{
    lemma_rec_pos(q, s, 0, true, 0);
}

/// The walk's score is bounded by the square of what is left to match.
proof fn lemma_rec_bound(q: Seq<char>, s: Seq<char>, successive: int, first: bool, score: int)
    requires
        successive >= 0,
        score >= 0,
    ensures
        score_part_rec(q, s, successive, first, score) <= score + (q.len() + successive) * (q.len()
            + successive) - successive * successive + (if first {
            4int
        } else {
            0int
        }) + 4,
    decreases s.len(), 1int,
{
    let f: int = if first {
        4int
    } else {
        0int
    };
    if q.len() == 0 {
        assert(successive * successive <= (q.len() + successive) * (q.len() + successive))
            by (nonlinear_arith)
            requires
                q.len() >= 0,
                successive >= 0,
        ;
    } else if s.len() == 0 {
        assert(successive * successive <= (q.len() + successive) * (q.len() + successive))
            by (nonlinear_arith)
            requires
                q.len() >= 0,
                successive >= 0,
        ;
    } else if q[0] == s[0] {
        lemma_rec_bound(q.skip(1), s.skip(1), successive + 1, false, score + 1 + 2 * successive + f);
        assert((q.len() - 1 + successive + 1) * (q.len() - 1 + successive + 1) - (successive + 1) * (
        successive + 1) + 1 + 2 * successive == (q.len() + successive) * (q.len() + successive)
            - successive * successive) by (nonlinear_arith);
    } else {
        lemma_scan_bound(q, s.skip(1), score);
        assert(q.len() * q.len() <= (q.len() + successive) * (q.len() + successive) - successive
            * successive) by (nonlinear_arith)
            requires
                q.len() >= 0,
                successive >= 0,
        ;
    }
}

proof fn lemma_scan_bound(q: Seq<char>, t: Seq<char>, score: int)
    requires
        q.len() > 0,
        score >= 0,
    ensures
        score_part_scan(q, t, score) <= score + q.len() * q.len() + 4,
    decreases t.len(), 0int,
{
    if t.len() == 0 {
    } else if q[0] == t[0] {
        lemma_rec_bound(q.skip(1), t.skip(1), 1, false, score + 1);
        assert((q.len() - 1 + 1) * (q.len() - 1 + 1) - 1 + 1 == q.len() * q.len())
            by (nonlinear_arith);
    } else {
        lemma_scan_bound(q, t.skip(1), score);
    }
}

/// The matcher's score sits between 0 and the squared token length plus
/// its two flat bonuses.
pub proof fn lemma_score_part_bound(q: Seq<char>, s: Seq<char>)
    ensures
        0 <= score_part_spec(q, s),
        score_part_spec(q, s) <= q.len() * q.len() + 8,
{
    lemma_rec_pos(q, s, 0, true, 0);
    lemma_rec_bound(q, s, 0, true, 0);
}

/// Fuzzy subsequence score of `query` against one path segment `item`.
pub fn score_part(query: &str, item: &str) -> (r: i32)
    requires
        query@.len() <= MAX_QUERY_LEN,
    ensures
        r == score_part_spec(query@, item@),
{
    let q = chars_of(query);
    let s = chars_of(item);
    score_part_chars(&q, &s)
}

/// The segment matcher over character vectors.
pub(crate) fn score_part_chars(q: &Vec<char>, s: &Vec<char>) -> (r: i32)
    requires
        q@.len() <= MAX_QUERY_LEN,
    ensures
        r == score_part_spec(q@, s@),
{
    let ghost target = score_part_spec(q@, s@);
    let mut qi: usize = 0;
    let mut si: usize = 0;
    let mut successive: i32 = 0;
    let mut first: bool = true;
    let mut score: i32 = 0;
    proof {
        assert(q@.skip(0) =~= q@);
        assert(s@.skip(0) =~= s@);
    }
    while qi < q.len()
        invariant
            target == score_part_spec(q@, s@),
            qi <= q@.len(),
            si <= s@.len(),
            q@.len() <= MAX_QUERY_LEN,
            0 <= successive <= qi,
            0 <= score,
            score as int <= 4 + (qi as int) * (qi as int),
            first ==> qi == 0 && score == 0 && successive == 0,
            target == score_part_rec(
                q@.skip(qi as int),
                s@.skip(si as int),
                successive as int,
                first,
                score as int,
            ),
        decreases q@.len() - qi,
    {
        proof {
            assert(q@.skip(qi as int)[0] == q@[qi as int]);
            assert(q@.skip(qi as int).skip(1) =~= q@.skip(qi as int + 1));
        }
        if si >= s.len() {
            proof {
                assert(s@.skip(si as int).len() == 0);
            }
            return 0;
        }
        let c = s[si];
        proof {
            assert(s@.skip(si as int)[0] == s@[si as int]);
            assert(s@.skip(si as int).skip(1) =~= s@.skip(si as int + 1));
            assert((qi as int + 1) * (qi as int + 1) == (qi as int) * (qi as int) + 2 * (qi as int)
                + 1) by (nonlinear_arith);
            assert((qi as int) * (qi as int) <= MAX_QUERY_LEN * MAX_QUERY_LEN) by (nonlinear_arith)
                requires
                    0 <= qi as int <= MAX_QUERY_LEN,
            ;
        }
        if q[qi] == c {
            score = score + 1 + 2 * successive;
            if first {
                score = score + 4;
            }
            successive = successive + 1;
            first = false;
            qi = qi + 1;
            si = si + 1;
        } else {
            first = false;
            si = si + 1;
            let ghost qrem = q@.skip(qi as int);
            proof {
                assert(target == score_part_scan(qrem, s@.skip(si as int), score as int));
            }
            let mut matched = false;
            while !matched
                invariant
                    target == score_part_spec(q@, s@),
                    qi < q@.len(),
                    si <= s@.len(),
                    qrem == q@.skip(qi as int),
                    qrem[0] == q@[qi as int],
                    !matched ==> target == score_part_scan(
                        qrem,
                        s@.skip(si as int),
                        score as int,
                    ),
                    matched ==> target == score_part_rec(
                        q@.skip(qi as int + 1),
                        s@.skip(si as int),
                        1,
                        false,
                        score as int + 1,
                    ),
                decreases s@.len() - si + (if matched {
                    0int
                } else {
                    1int
                }),
            {
                if si >= s.len() {
                    proof {
                        assert(s@.skip(si as int).len() == 0);
                    }
                    return 0;
                }
                let c2 = s[si];
                proof {
                    assert(s@.skip(si as int)[0] == s@[si as int]);
                    assert(s@.skip(si as int).skip(1) =~= s@.skip(si as int + 1));
                }
                si = si + 1;
                if q[qi] == c2 {
                    matched = true;
                    proof {
                        assert(qrem.skip(1) =~= q@.skip(qi as int + 1));
                    }
                }
            }
            score = score + 1;
            successive = 1;
            qi = qi + 1;
        }
    }
    proof {
        assert(q@.skip(qi as int).len() == 0);
        assert((qi as int) * (qi as int) <= MAX_QUERY_LEN * MAX_QUERY_LEN) by (nonlinear_arith)
            requires
                0 <= qi as int <= MAX_QUERY_LEN,
        ;
    }
    if si == s.len() && successive > 0 {
        proof {
            assert(s@.skip(si as int).len() == 0);
        }
        score = score + 4;
    }
    score
}

/// Best anchor over the first `n` segments: the earliest position of the
/// maximal segment score wins.
pub open spec fn anchor_best(tok: Seq<char>, segs: Seq<Seq<char>>, n: int) -> (int, int)
    decreases n,
{
    if n <= 1 {
        (0, score_part_spec(tok, segs[0]))
    } else {
        let prev = anchor_best(tok, segs, n - 1);
        let sc = score_part_spec(tok, segs[n - 1]);
        if sc > prev.1 {
            (n - 1, sc)
        } else {
            prev
        }
    }
}

/// Consume segments left to right: each token must clear the minimum
/// relevance threshold of 5 on some not-yet-consumed segment, in order.
/// The result is the accumulated score and the next unconsumed position;
/// `None` when segments run out before every token qualifies.
pub open spec fn consume_tokens(toks: Seq<Seq<char>>, segs: Seq<Seq<char>>, pos: int) -> Option<
    (int, int),
>
    decreases toks.len(), segs.len() - pos,
{
    if toks.len() == 0 {
        Some((0, pos))
    } else if pos >= segs.len() {
        None
    } else if score_part_spec(toks[0], segs[pos]) >= 5 {
        match consume_tokens(toks.skip(1), segs, pos + 1) {
            Some(rp) => Some((score_part_spec(toks[0], segs[pos]) + rp.0, rp.1)),
            None => None,
        }
    } else {
        consume_tokens(toks, segs, pos + 1)
    }
}

/// The query score over tokenized query and segmented path: 0 when there
/// are fewer segments than tokens, when the anchor token matches nowhere
/// in its window, or when a later token finds no qualifying segment;
/// otherwise the accumulated segment scores, plus 10 when the query
/// consumed the whole path.
pub open spec fn score_query_tokens(toks: Seq<Seq<char>>, segs: Seq<Seq<char>>) -> int {
    if toks.len() == 0 || segs.len() < toks.len() {
        0
    } else {
        let ab = anchor_best(toks[0], segs, segs.len() - toks.len() + 1);
        if ab.1 <= 0 {
            0
        } else {
            match consume_tokens(toks.skip(1), segs, ab.0 + 1) {
                Some(rp) => ab.1 + rp.0 + if rp.1 == segs.len() {
                    10int
                } else {
                    0int
                },
                None => 0,
            }
        }
    }
}

/// Score of an abbreviated query (space-separated tokens) against a
/// candidate path (slash-separated segments).
pub open spec fn score_query_spec(query: Seq<char>, path: Seq<char>) -> int {
    score_query_tokens(split_seq(query, ' '), split_seq(path, '/'))
}

/// Law: a path with fewer segments than the query has tokens scores 0.
pub proof fn lemma_score_query_too_few(query: Seq<char>, path: Seq<char>)
    requires
        split_seq(path, '/').len() < split_seq(query, ' ').len(),
    ensures
        score_query_spec(query, path) == 0,
{
}

/// Law: the anchor position holds the window's maximal segment score —
/// not necessarily the first segment the token merely matches.
pub proof fn lemma_anchor_best(tok: Seq<char>, segs: Seq<Seq<char>>, n: int)
    requires
        1 <= n,
    ensures
        ({
            let ab = anchor_best(tok, segs, n);
            &&& 0 <= ab.0 < n
            &&& ab.1 == score_part_spec(tok, segs[ab.0])
            &&& forall|i: int| 0 <= i < n ==> score_part_spec(tok, segs[i]) <= ab.1
        }),
    decreases n,
{
    if n > 1 {
        lemma_anchor_best(tok, segs, n - 1);
    }
}

proof fn lemma_consume_bound(toks: Seq<Seq<char>>, segs: Seq<Seq<char>>, pos: int)
    requires
        0 <= pos <= segs.len(),
    ensures
        match consume_tokens(toks, segs, pos) {
            Some(rp) => 0 <= rp.0 <= total_len(toks) * total_len(toks) + 8 * toks.len() && pos
                <= rp.1 <= segs.len(),
            None => true,
        },
    decreases toks.len(), segs.len() - pos,
{
    if toks.len() == 0 {
    } else if pos >= segs.len() {
    } else if score_part_spec(toks[0], segs[pos]) >= 5 {
        lemma_consume_bound(toks.skip(1), segs, pos + 1);
        lemma_score_part_bound(toks[0], segs[pos]);
        assert(total_len(toks) == toks[0].len() + total_len(toks.skip(1)));
        assert(toks[0].len() * toks[0].len() + total_len(toks.skip(1)) * total_len(toks.skip(1))
            <= total_len(toks) * total_len(toks)) by (nonlinear_arith)
            requires
                toks[0].len() >= 0,
                total_len(toks.skip(1)) >= 0,
                total_len(toks) == toks[0].len() + total_len(toks.skip(1)),
        ;
    } else {
        lemma_consume_bound(toks, segs, pos + 1);
    }
}

/// The query scorer over split-out tokens and segments.
fn score_query_parts(toks: &Vec<Vec<char>>, segs: &Vec<Vec<char>>) -> (r: i32)
    requires
        toks@.len() >= 1,
        total_len(toks.deep_view()) <= MAX_QUERY_LEN,
        toks@.len() <= MAX_QUERY_LEN + 1,
    ensures
        r == score_query_tokens(toks.deep_view(), segs.deep_view()),
        r >= 0,
{
    let ghost dvt = toks.deep_view();
    let ghost dvs = segs.deep_view();
    let ghost target = score_query_tokens(dvt, dvs);
    proof {
        assert(dvt.len() == toks@.len());
        assert(dvs.len() == segs@.len());
        assert(forall|k: int| 0 <= k < toks@.len() ==> dvt[k] == (#[trigger] toks@[k]).deep_view());
        assert(forall|k: int|
            0 <= k < toks@.len() ==> (#[trigger] toks@[k]).deep_view() =~= toks@[k]@);
        assert(forall|k: int| 0 <= k < segs@.len() ==> dvs[k] == (#[trigger] segs@[k]).deep_view());
        assert(forall|k: int|
            0 <= k < segs@.len() ==> (#[trigger] segs@[k]).deep_view() =~= segs@[k]@);
    }
    let qn = toks.len();
    let pn = segs.len();
    if pn < qn {
        return 0;
    }
    let window = pn - qn + 1;
    proof {
        lemma_piece_le_total(dvt, 0);
        lemma_score_part_bound(dvt[0], dvs[0]);
    }
    let mut best: i32 = score_part_chars(&toks[0], &segs[0]);
    let mut best_pos: usize = 0;
    let mut i: usize = 1;
    while i < window
        invariant
            1 <= i <= window,
            window == pn - qn + 1,
            1 <= qn == dvt.len() <= MAX_QUERY_LEN + 1,
            qn <= pn == dvs.len(),
            dvt == toks.deep_view(),
            dvs == segs.deep_view(),
            total_len(dvt) <= MAX_QUERY_LEN,
            target == score_query_tokens(dvt, dvs),
            forall|k: int| 0 <= k < dvt.len() ==> dvt[k] == (#[trigger] toks@[k])@,
            forall|k: int| 0 <= k < dvs.len() ==> dvs[k] == (#[trigger] segs@[k])@,
            (best_pos as int, best as int) == anchor_best(dvt[0], dvs, i as int),
            best_pos < i,
            0 <= best,
            best as int <= dvt[0].len() * dvt[0].len() + 8,
        decreases window - i,
    {
        proof {
            lemma_piece_le_total(dvt, 0);
        }
        let sp = score_part_chars(&toks[0], &segs[i]);
        proof {
            lemma_score_part_bound(dvt[0], dvs[i as int]);
            assert(anchor_best(dvt[0], dvs, i as int + 1) == (if score_part_spec(dvt[0], dvs[i as int])
                > anchor_best(dvt[0], dvs, i as int).1 {
                (i as int, score_part_spec(dvt[0], dvs[i as int]))
            } else {
                anchor_best(dvt[0], dvs, i as int)
            }));
        }
        if sp > best {
            best = sp;
            best_pos = i;
        }
        i = i + 1;
    }
    if best <= 0 {
        return 0;
    }
    let ghost tlw = total_len(dvt);
    proof {
        lemma_anchor_best(dvt[0], dvs, window as int);
    }
    let mut score: i32 = best;
    let mut pos: usize = best_pos + 1;
    let mut ti: usize = 1;
    proof {
        lemma_total_len_prefix(dvt, 0);
        assert(dvt.take(0) =~= Seq::<Seq<char>>::empty());
        assert(total_len(dvt.take(0)) == 0);
        assert(dvt.take(1)[0] == dvt[0]);
        assert(score as int <= total_len(dvt.take(1)) * total_len(dvt.take(1)) + 8 * 1) by {
            assert(total_len(dvt.take(1)) == dvt[0].len());
        }
    }
    while ti < qn
        invariant
            1 <= ti <= qn,
            pos <= pn,
            1 <= qn == dvt.len() <= MAX_QUERY_LEN + 1,
            qn <= pn == dvs.len(),
            dvt == toks.deep_view(),
            dvs == segs.deep_view(),
            total_len(dvt) <= MAX_QUERY_LEN,
            target == score_query_tokens(dvt, dvs),
            forall|k: int| 0 <= k < dvt.len() ==> dvt[k] == (#[trigger] toks@[k])@,
            forall|k: int| 0 <= k < dvs.len() ==> dvs[k] == (#[trigger] segs@[k])@,
            0 <= score,
            score as int <= total_len(dvt.take(ti as int)) * total_len(dvt.take(ti as int)) + 8 * (
            ti as int),
            match consume_tokens(dvt.skip(ti as int), dvs, pos as int) {
                Some(rp) => target == score + rp.0 + (if rp.1 == dvs.len() {
                    10int
                } else {
                    0int
                }),
                None => target == 0,
            },
        decreases qn - ti,
    {
        let mut seg_score: i32 = -1;
        while seg_score < 0
            invariant
                1 <= ti < qn,
                pos <= pn,
                1 <= qn == dvt.len() <= MAX_QUERY_LEN + 1,
                qn <= pn == dvs.len(),
                dvt == toks.deep_view(),
                dvs == segs.deep_view(),
                total_len(dvt) <= MAX_QUERY_LEN,
                target == score_query_tokens(dvt, dvs),
                forall|k: int| 0 <= k < dvt.len() ==> dvt[k] == (#[trigger] toks@[k])@,
                forall|k: int| 0 <= k < dvs.len() ==> dvs[k] == (#[trigger] segs@[k])@,
                0 <= score,
                score as int <= total_len(dvt.take(ti as int)) * total_len(dvt.take(ti as int)) + 8
                    * (ti as int),
                seg_score < 0 ==> match consume_tokens(dvt.skip(ti as int), dvs, pos as int) {
                    Some(rp) => target == score + rp.0 + (if rp.1 == dvs.len() {
                        10int
                    } else {
                        0int
                    }),
                    None => target == 0,
                },
                seg_score >= 0 ==> seg_score >= 5 && seg_score as int <= dvt[ti as int].len()
                    * dvt[ti as int].len() + 8 && match consume_tokens(
                    dvt.skip(ti as int + 1),
                    dvs,
                    pos as int,
                ) {
                    Some(rp) => target == score + seg_score + rp.0 + (if rp.1 == dvs.len() {
                        10int
                    } else {
                        0int
                    }),
                    None => target == 0,
                },
            decreases pn - pos + (if seg_score < 0 {
                1int
            } else {
                0int
            }),
        {
            proof {
                assert(dvt.skip(ti as int).len() > 0);
            }
            if pos >= segs.len() {
                proof {
                    assert(consume_tokens(dvt.skip(ti as int), dvs, pos as int) is None);
                }
                return 0;
            }
            proof {
                lemma_piece_le_total(dvt, ti as int);
                assert(dvt.skip(ti as int)[0] == dvt[ti as int]);
                assert(dvt.skip(ti as int).skip(1) =~= dvt.skip(ti as int + 1));
            }
            let sp = score_part_chars(&toks[ti], &segs[pos]);
            proof {
                lemma_score_part_bound(dvt[ti as int], dvs[pos as int]);
            }
            pos = pos + 1;
            if sp >= 5 {
                seg_score = sp;
            }
        }
        proof {
            lemma_total_len_prefix(dvt, ti as int);
            lemma_total_len_take(dvt, ti as int + 1);
            let tlp = total_len(dvt.take(ti as int));
            let tb = dvt[ti as int].len();
            assert(tlp * tlp + tb * tb <= (tlp + tb) * (tlp + tb)) by (nonlinear_arith)
                requires
                    tlp >= 0,
                    tb >= 0,
            ;
            assert((tlp + tb) * (tlp + tb) <= MAX_QUERY_LEN * MAX_QUERY_LEN) by (nonlinear_arith)
                requires
                    0 <= tlp + tb <= MAX_QUERY_LEN,
            ;
        }
        score = score + seg_score;
        ti = ti + 1;
    }
    proof {
        assert(dvt.skip(ti as int).len() == 0);
        assert(consume_tokens(dvt.skip(ti as int), dvs, pos as int) == Some((0int, pos as int)));
        lemma_total_len_take(dvt, ti as int);
        let tl = total_len(dvt.take(ti as int));
        assert(tl * tl <= MAX_QUERY_LEN * MAX_QUERY_LEN) by (nonlinear_arith)
            requires
                0 <= tl <= MAX_QUERY_LEN,
        ;
    }
    if pos == pn {
        score = score + 10;
    }
    score
}

/// Score of the abbreviated `query` against candidate `path`.
pub fn score_query(query: &str, path: &str) -> (r: i32)
    requires
        query@.len() <= MAX_QUERY_LEN,
    ensures
        r == score_query_spec(query@, path@),
        r >= 0,
{
    let qc = chars_of(query);
    let pc = chars_of(path);
    let toks = split_chars(&qc, ' ');
    let segs = split_chars(&pc, '/');
    proof {
        lemma_split_seq_shape(query@, ' ');
        assert(toks.deep_view().len() == toks@.len());
    }
    score_query_parts(&toks, &segs)
}

/// Fixed sentinel score (999.00, in hundredths) given to every freshly
/// listed directory in project mode.
pub const PROJECT_SCORE: u64 = 99900;

/// The view of an executable candidate list.
pub open spec fn cand_view(v: Seq<(String, u64)>) -> Seq<(Seq<char>, nat)> {
    v.map_values(|p: (String, u64)| (p.0@, p.1 as nat))
}

/// Listed directories folded into the accumulator: a sentinel score in
/// project mode, the stored score (0 if unseen) otherwise.
pub open spec fn put_listed(
    acc: Seq<(Seq<char>, nat)>,
    listed: Seq<Seq<char>>,
    store: Seq<(Seq<char>, nat)>,
    project: bool,
) -> Seq<(Seq<char>, nat)>
    decreases listed.len(),
{
    if listed.len() == 0 {
        acc
    } else {
        let sc: nat = if project {
            PROJECT_SCORE as nat
        } else {
            lookup_in(store, listed[0])
        };
        put_listed(store_put(acc, listed[0], sc), listed.skip(1), store, project)
    }
}

/// Store entries folded into the accumulator: their true historical
/// scores replace freshly-listed defaults on collision.
pub open spec fn put_store(
    acc: Seq<(Seq<char>, nat)>,
    store: Seq<(Seq<char>, nat)>,
) -> Seq<(Seq<char>, nat)>
    decreases store.len(),
{
    if store.len() == 0 {
        acc
    } else {
        put_store(store_put(acc, store[0].0, store[0].1), store.skip(1))
    }
}

/// Absolute paths of the listed directories under the root.
pub open spec fn full_paths(root: Seq<char>, listed: Seq<Seq<char>>) -> Seq<Seq<char>> {
    listed.map_values(|p: Seq<char>| root + seq!['/'] + p)
}

/// The merged candidate list of a ranking operation.
pub open spec fn merge_candidates(
    listed: Seq<Seq<char>>,
    store: Seq<(Seq<char>, nat)>,
    project: bool,
) -> Seq<(Seq<char>, nat)> {
    let fresh = put_listed(Seq::<(Seq<char>, nat)>::empty(), listed, store, project);
    if project {
        fresh
    } else {
        put_store(fresh, store)
    }
}

/// Is candidate `a` ranked no higher than `b`: by match score first,
/// frecency score second?
pub open spec fn pair_le(query: Seq<char>, a: (Seq<char>, nat), b: (Seq<char>, nat)) -> bool {
    score_query_spec(query, a.0) < score_query_spec(query, b.0) || (score_query_spec(query, a.0)
        == score_query_spec(query, b.0) && a.1 <= b.1)
}

/// Index of the best candidate: maximal (match score, frecency score),
/// the last such candidate winning ties.
pub open spec fn best_candidate(cands: Seq<(Seq<char>, nat)>, query: Seq<char>) -> int
    decreases cands.len(),
{
    if cands.len() <= 1 {
        0
    } else {
        let b = best_candidate(cands.drop_last(), query);
        if pair_le(query, cands[b], cands.last()) {
            cands.len() - 1
        } else {
            b
        }
    }
}

proof fn lemma_best_candidate(cands: Seq<(Seq<char>, nat)>, query: Seq<char>)
    requires
        cands.len() >= 1,
    ensures
        0 <= best_candidate(cands, query) < cands.len(),
        forall|j: int|
            0 <= j < cands.len() ==> pair_le(
                query,
                #[trigger] cands[j],
                cands[best_candidate(cands, query)],
            ),
    decreases cands.len(),
{
    if cands.len() > 1 {
        lemma_best_candidate(cands.drop_last(), query);
        let b = best_candidate(cands.drop_last(), query);
        assert(forall|j: int| 0 <= j < cands.len() - 1 ==> cands[j] == #[trigger] cands.drop_last()[j]);
        if pair_le(query, cands[b], cands.last()) {
            let w = cands.len() - 1;
            assert(best_candidate(cands, query) == w);
            assert forall|j: int|
                0 <= j < cands.len() implies pair_le(query, #[trigger] cands[j], cands[w]) by {
                if j < w {
                    assert(pair_le(query, cands.drop_last()[j], cands.drop_last()[b]));
                    assert(pair_le(query, cands[j], cands[b]));
                    assert(pair_le(query, cands[b], cands[w]));
                }
            }
        } else {
            assert(best_candidate(cands, query) == b);
            assert forall|j: int|
                0 <= j < cands.len() implies pair_le(query, #[trigger] cands[j], cands[b]) by {
                if j < cands.len() - 1 {
                    assert(pair_le(query, cands.drop_last()[j], cands.drop_last()[b]));
                }
            }
        }
    }
}

/// Sets the score of `path` in a candidate list, in place or by
/// appending.
fn cand_put(cands: &mut Vec<(String, u64)>, path: String, score: u64)
    ensures
        cand_view(final(cands)@) == store_put(cand_view(old(cands)@), path@, score as nat),
{
    let ghost pre = cand_view(cands@);
    let mut i: usize = 0;
    while i < cands.len()
        invariant
            i <= cands@.len(),
            pre == cand_view(cands@),
            pre == cand_view(old(cands)@),
            pre.len() == cands@.len(),
            forall|j: int| 0 <= j < cands@.len() ==> (#[trigger] pre[j]).0 == cands@[j].0@,
            forall|j: int| 0 <= j < i ==> pre[j].0 != path@,
        decreases cands@.len() - i,
    {
        if str_eq(cands[i].0.as_str(), path.as_str()) {
            proof {
                lemma_store_put_at(pre, path@, score as nat, i as int);
            }
            let _prev = cands.remove(i);
            let ghost mid = cands@;
            cands.insert(i, (path, score));
            proof {
                assert(cands@ == mid.insert(i as int, (path, score)));
                assert(cands@.len() == pre.len());
                assert forall|j: int|
                    0 <= j < cands@.len() implies #[trigger] cand_view(cands@)[j] == store_put(
                    pre,
                    path@,
                    score as nat,
                )[j] by {
                    assert(store_put(pre, path@, score as nat) == pre.update(
                        i as int,
                        (path@, score as nat),
                    ));
                    if j < i {
                        assert(cands@[j] == mid[j]);
                    } else if j == i {
                        assert(cands@[j] == (path, score));
                    } else {
                        assert(cands@[j] == mid[j - 1]);
                    }
                }
                assert(cand_view(cands@) =~= store_put(pre, path@, score as nat));
            }
            return ;
        }
        i = i + 1;
    }
    proof {
        lemma_store_put_absent(pre, path@, score as nat);
    }
    cands.push((path, score));
    proof {
        assert(cand_view(cands@) =~= store_put(pre, path@, score as nat));
    }
}

/// The absolute path of a directory listed under the root.
fn join_root(root: &str, rel: &str) -> (r: String)
    ensures
        r@ == root@ + seq!['/'] + rel@,
{
    let mut out = root.to_owned();
    proof {
        reveal_strlit("/");
        assert("/"@ =~= seq!['/']);
    }
    out.append("/");
    out.append(rel);
    out
}

/// Ranks the merged candidates and returns the single best path.
///
/// Candidates are the directories listed under the root — each scored
/// by a fixed sentinel in project mode, else by its recorded frecency —
/// merged, in non-project mode, with every path already in the store.
/// The winner maximizes (match score, frecency score); among equals the
/// later candidate wins. With nothing to choose from, the ranking
/// fails.
pub fn rank(root: &str, listed: &Vec<String>, query: &str, project: bool, cache: &Cache) -> (r:
    Result<String, Error>)
    requires
        query@.len() <= MAX_QUERY_LEN,
    ensures
        ({
            let cands = merge_candidates(full_paths(root@, listed.deep_view()), cache@, project);
            match r {
                Ok(p) => cands.len() > 0 && p@ == cands[best_candidate(cands, query@)].0
                    && forall|j: int|
                        0 <= j < cands.len() ==> pair_le(
                            query@,
                            #[trigger] cands[j],
                            cands[best_candidate(cands, query@)],
                        ),
                Err(e) => cands.len() == 0 && e is NoCandidates,
            }
        }),
{
    let ghost dvl = listed.deep_view();
    let ghost full = full_paths(root@, dvl);
    let ghost target = merge_candidates(full, cache@, project);
    proof {
        assert(dvl.len() == listed@.len());
        assert(forall|k: int| 0 <= k < listed@.len() ==> dvl[k] == (#[trigger] listed@[k])@);
        assert(full.skip(0) =~= full);
        assert(cand_view(Seq::<(String, u64)>::empty()) =~= Seq::<(Seq<char>, nat)>::empty());
    }
    let mut cands: Vec<(String, u64)> = Vec::new();
    let mut i: usize = 0;
    while i < listed.len()
        invariant
            i <= listed@.len(),
            dvl == listed.deep_view(),
            dvl.len() == listed@.len(),
            full == full_paths(root@, dvl),
            full.len() == dvl.len(),
            forall|k: int| 0 <= k < listed@.len() ==> dvl[k] == (#[trigger] listed@[k])@,
            target == merge_candidates(full, cache@, project),
            ({
                let fresh = put_listed(cand_view(cands@), full.skip(i as int), cache@, project);
                target == if project {
                    fresh
                } else {
                    put_store(fresh, cache@)
                }
            }),
        decreases listed@.len() - i,
    {
        proof {
            assert(full.skip(i as int)[0] == full[i as int]);
            assert(full.skip(i as int).skip(1) =~= full.skip(i as int + 1));
            assert(full[i as int] == root@ + seq!['/'] + dvl[i as int]);
        }
        let path = join_root(root, listed[i].as_str());
        let sc: u64 = if project {
            PROJECT_SCORE
        } else {
            cache.lookup(path.as_str())
        };
        cand_put(&mut cands, path, sc);
        i = i + 1;
    }
    proof {
        assert(full.skip(i as int).len() == 0);
    }
    if !project {
        let stored = cache.entries();
        let ghost sv = cache@;
        let mut j: usize = 0;
        proof {
            assert(sv.skip(0) =~= sv);
        }
        while j < stored.len()
            invariant
                j <= sv.len(),
                stored@.len() == sv.len(),
                forall|k: int|
                    0 <= k < sv.len() ==> (#[trigger] stored@[k]).0@ == sv[k].0 && stored@[k].1@
                        == sv[k].1,
                target == put_store(cand_view(cands@), sv.skip(j as int)),
            decreases sv.len() - j,
        {
            proof {
                assert(sv.skip(j as int)[0] == sv[j as int]);
                assert(sv.skip(j as int).skip(1) =~= sv.skip(j as int + 1));
            }
            let path = stored[j].0.clone();
            let sc = stored[j].1.score();
            cand_put(&mut cands, path, sc);
            j = j + 1;
        }
        proof {
            assert(sv.skip(j as int).len() == 0);
        }
    }
    proof {
        assert(target == cand_view(cands@));
    }
    if cands.len() == 0 {
        proof {
            assert(target.len() == 0);
        }
        return Err(Error::NoCandidates);
    }
    let mut bi: usize = 0;
    let mut bm: i32 = score_query(query, cands[0].0.as_str());
    let mut k: usize = 1;
    proof {
        assert(target.len() == cands@.len());
        assert(forall|j: int|
            0 <= j < cands@.len() ==> (#[trigger] target[j]) == (cands@[j].0@, cands@[j].1 as nat));
        assert(target.take(1).drop_last() =~= Seq::<(Seq<char>, nat)>::empty());
        assert(best_candidate(target.take(1), query@) == 0);
    }
    while k < cands.len()
        invariant
            1 <= k <= cands@.len(),
            target == cand_view(cands@),
            target.len() == cands@.len(),
            forall|j: int|
                0 <= j < cands@.len() ==> (#[trigger] target[j]) == (
                    cands@[j].0@,
                    cands@[j].1 as nat,
                ),
            query@.len() <= MAX_QUERY_LEN,
            (bi as int) == best_candidate(target.take(k as int), query@),
            bi < k,
            bm == score_query_spec(query@, target[bi as int].0),
        decreases cands@.len() - k,
    {
        proof {
            assert(target.take(k as int + 1).drop_last() =~= target.take(k as int));
            assert(target.take(k as int + 1).last() == target[k as int]);
            assert(forall|j: int|
                0 <= j <= k ==> #[trigger] target.take(k as int + 1)[j] == target[j]);
        }
        let m = score_query(query, cands[k].0.as_str());
        if m > bm || (m == bm && cands[k].1 >= cands[bi].1) {
            proof {
                assert(pair_le(query@, target[bi as int], target[k as int]));
            }
            bi = k;
            bm = m;
        } else {
            proof {
                assert(!pair_le(query@, target[bi as int], target[k as int]));
            }
        }
        k = k + 1;
    }
    proof {
        assert(target.take(k as int) =~= target);
        lemma_best_candidate(target, query@);
    }
    Ok(cands[bi].0.clone())
}

/// A path part with every separator turned into a token break.
pub open spec fn normalize_part(s: Seq<char>) -> Seq<char> {
    s.map_values(
        |c: char|
            if c == '/' {
                ' '
            } else {
                c
            },
    )
}

/// The query text of the given parts: parts joined by single spaces,
/// with each slash inside a part acting as a further break.
pub open spec fn query_of_parts(parts: Seq<Seq<char>>) -> Seq<char>
    decreases parts.len(),
{
    if parts.len() == 0 {
        Seq::<char>::empty()
    } else if parts.len() == 1 {
        normalize_part(parts[0])
    } else {
        normalize_part(parts[0]) + seq![' '] + query_of_parts(parts.skip(1))
    }
}

proof fn lemma_query_of_parts_prefix(parts: Seq<Seq<char>>, i: int)
    requires
        0 <= i < parts.len(),
    ensures
        query_of_parts(parts.take(i + 1)) == if i == 0 {
            normalize_part(parts[0])
        } else {
            query_of_parts(parts.take(i)) + seq![' '] + normalize_part(parts[i])
        },
    decreases i,
{
    if i == 0 {
        assert(parts.take(1)[0] == parts[0]);
        assert(parts.take(1).len() == 1);
    } else if i == 1 {
        assert(parts.take(2)[0] == parts[0]);
        assert(parts.take(2).skip(1) =~= seq![parts[1]]);
        assert(parts.take(1)[0] == parts[0]);
        assert(query_of_parts(seq![parts[1]]) == normalize_part(parts[1]));
    } else {
        lemma_query_of_parts_prefix(parts.skip(1), i - 1);
        assert(parts.take(i + 1)[0] == parts[0]);
        assert(parts.take(i + 1).skip(1) =~= parts.skip(1).take(i));
        assert(parts.take(i)[0] == parts[0]);
        assert(parts.take(i).skip(1) =~= parts.skip(1).take(i - 1));
        assert(parts.skip(1)[i - 1] == parts[i]);
        assert(query_of_parts(parts.take(i + 1)) == normalize_part(parts[0]) + seq![' ']
            + query_of_parts(parts.skip(1).take(i)));
        assert(query_of_parts(parts.take(i)) == normalize_part(parts[0]) + seq![' ']
            + query_of_parts(parts.skip(1).take(i - 1)));
        assert(normalize_part(parts[0]) + seq![' '] + (query_of_parts(parts.skip(1).take(i - 1))
            + seq![' '] + normalize_part(parts[i])) =~= (normalize_part(parts[0]) + seq![' ']
            + query_of_parts(parts.skip(1).take(i - 1))) + seq![' '] + normalize_part(parts[i]));
    }
}

/// Builds the query text from the parts the caller received.
pub fn build_query(parts: &Vec<String>) -> (q: String)
    ensures
        q@ == query_of_parts(parts.deep_view()),
{
    let ghost dv = parts.deep_view();
    proof {
        assert(dv.len() == parts@.len());
        assert(forall|k: int| 0 <= k < parts@.len() ==> dv[k] == (#[trigger] parts@[k])@);
    }
    let mut out: Vec<char> = Vec::new();
    let mut i: usize = 0;
    proof {
        assert(dv.take(0) =~= Seq::<Seq<char>>::empty());
    }
    while i < parts.len()
        invariant
            i <= parts@.len(),
            dv == parts.deep_view(),
            dv.len() == parts@.len(),
            forall|k: int| 0 <= k < parts@.len() ==> dv[k] == (#[trigger] parts@[k])@,
            out@ == query_of_parts(dv.take(i as int)),
        decreases parts@.len() - i,
    {
        proof {
            lemma_query_of_parts_prefix(dv, i as int);
        }
        if i > 0 {
            out.push(' ');
        }
        let ghost base = out@;
        let part = chars_of(parts[i].as_str());
        let mut j: usize = 0;
        while j < part.len()
            invariant
                j <= part@.len(),
                part@ == dv[i as int],
                i < dv.len(),
                base == out@.take(base.len() as int),
                out@ == base + normalize_part(dv[i as int]).take(j as int),
            decreases part@.len() - j,
        {
            let c = part[j];
            if c == '/' {
                out.push(' ');
            } else {
                out.push(c);
            }
            j = j + 1;
            proof {
                assert(normalize_part(dv[i as int])[j - 1] == (if dv[i as int][j - 1] == '/' {
                    ' '
                } else {
                    dv[i as int][j - 1]
                }));
                assert(out@ =~= base + normalize_part(dv[i as int]).take(j as int));
                assert(base =~= out@.take(base.len() as int));
            }
        }
        proof {
            assert(normalize_part(dv[i as int]).take(j as int) =~= normalize_part(dv[i as int]));
            assert(out@ =~= query_of_parts(dv.take(i as int + 1)));
        }
        i = i + 1;
    }
    proof {
        assert(dv.take(i as int) =~= dv);
    }
    string_from_chars(&out)
}

} // verus!
