//! Narrowing a list to what a filter matched, best first.
//!
//! Every filtering widget scores each item against the query and lists the ones that scored.
//! Among equal scores the caller's order survives, so a list the caller sorted stays sorted. A
//! table scores each field of a row on its own and keeps the best, because a matcher that anchors
//! at the start of what it is given would find nothing of a value in the third column when handed
//! the joined row.

use vstd::prelude::*;
use crate::text;

verus! {

/// The score item `i` got; only read for items that scored.
pub open spec fn score_at(scores: Seq<Option<i32>>, i: int) -> int {
    match scores[i] {
        Some(s) => s as int,
        None => 0,
    }
}

/// Item `i` is in the list and the filter matched it.
pub open spec fn matched(scores: Seq<Option<i32>>, i: int) -> bool {
    0 <= i < scores.len() && scores[i] is Some
}

/// Item `i` is listed ahead of item `j`: a better score first, then the earlier item.
pub open spec fn ahead(scores: Seq<Option<i32>>, i: int, j: int) -> bool {
    score_at(scores, i) > score_at(scores, j) || (score_at(scores, i) == score_at(scores, j) && i
        < j)
}

/// Every pair of `r` is in order, each ahead of every one after it.
pub open spec fn in_order(scores: Seq<Option<i32>>, r: Seq<usize>) -> bool {
    forall|k: int, l: int|
        0 <= k < l < r.len() ==> ahead(scores, #[trigger] r[k] as int, #[trigger] r[l] as int)
}

/// `r` lists exactly the items that scored, best first.
pub open spec fn ranked(scores: Seq<Option<i32>>, r: Seq<usize>) -> bool {
    &&& forall|k: int| 0 <= k < r.len() ==> matched(scores, #[trigger] r[k] as int)
    &&& forall|i: int| #[trigger] matched(scores, i) ==> r.contains(i as usize)
    &&& in_order(scores, r)
}

/// The best of the scores a row's fields got, or `None` when no field scored.
pub open spec fn best_of(scores: Seq<Option<i32>>) -> Option<i32>
    decreases scores.len(),
{
    if scores.len() == 0 {
        None
    } else {
        let rest = best_of(scores.drop_last());
        match (scores.last(), rest) {
            (None, _) => rest,
            (Some(s), None) => Some(s),
            (Some(s), Some(t)) => Some(if s > t { s } else { t }),
        }
    }
}

/// The items of a list `n` long, in order: what an empty filter shows.
pub fn everything(n: usize) -> (r: Vec<usize>)
    ensures
        r@.len() == n,
        forall|k: int| 0 <= k < n ==> #[trigger] r@[k] == k,
{
    let mut r: Vec<usize> = Vec::new();
    let mut i: usize = 0;
    while i < n
        invariant
            i <= n,
            r@.len() == i,
            forall|k: int| 0 <= k < i ==> #[trigger] r@[k] == k,
        decreases n - i,
    {
        r.push(i);
        i += 1;
    }
    r
}

/// The best score among a row's fields.
pub fn best_score(scores: &[Option<i32>]) -> (r: Option<i32>)
    ensures
        r == best_of(scores@),
{
    let mut best: Option<i32> = None;
    let mut i: usize = 0;
    while i < scores.len()
        invariant
            i <= scores@.len(),
            best == best_of(scores@.take(i as int)),
        decreases scores.len() - i,
    {
        proof {
            assert(scores@.take(i + 1).drop_last() =~= scores@.take(i as int));
        }
        match scores[i] {
            Some(s) => {
                best = match best {
                    Some(t) => Some(if s > t { s } else { t }),
                    None => Some(s),
                };
            },
            None => {},
        }
        i += 1;
    }
    proof {
        assert(scores@.take(scores@.len() as int) =~= scores@);
    }
    best
}

/// The items that scored, best first and in their own order among equals.
pub fn by_score(scores: &[Option<i32>]) -> (r: Vec<usize>)
    ensures
        ranked(scores@, r@),
{
    let n = scores.len();
    let mut out: Vec<usize> = Vec::new();
    let mut i: usize = 0;
    while i < n
        invariant
            n == scores@.len(),
            i <= n,
            forall|k: int| 0 <= k < out@.len() ==> #[trigger] out@[k] < i,
            forall|k: int| 0 <= k < out@.len() ==> matched(scores@, #[trigger] out@[k] as int),
            forall|j: int| 0 <= j < i && #[trigger] matched(scores@, j) ==> out@.contains(j as usize),
            in_order(scores@, out@),
        decreases n - i,
    {
        match scores[i] {
            Some(s) => {
                let len = out.len();
                let mut p: usize = 0;
                let mut found = false;
                while p < len && !found
                    invariant
                        len == out@.len(),
                        p <= len,
                        n == scores@.len(),
                        i < n,
                        scores@[i as int] == Some(s),
                        forall|k: int| 0 <= k < out@.len() ==> matched(scores@, #[trigger] out@[k] as int),
                        forall|k: int| 0 <= k < p ==> score_at(scores@, #[trigger] out@[k] as int) >= s,
                        found ==> p < len && score_at(scores@, out@[p as int] as int) < s,
                    decreases len - p + (if found { 0int } else { 1int }),
                {
                    let at = out[p];
                    let below = match scores[at] {
                        Some(t) => t < s,
                        None => false,
                    };
                    if below {
                        found = true;
                    } else {
                        p += 1;
                    }
                }
                let ghost before = out@;
                proof {
                    assert forall|k: int| p <= k < before.len() implies score_at(
                        scores@,
                        #[trigger] before[k] as int,
                    ) < s by {
                        if k > p {
                            assert(ahead(scores@, before[p as int] as int, before[k] as int));
                        }
                    }
                }
                out.insert(p, i);
                proof {
                    let now = out@;
                    assert(now =~= before.insert(p as int, i));
                    assert forall|k: int, l: int| 0 <= k < l < now.len() implies ahead(
                        scores@,
                        #[trigger] now[k] as int,
                        #[trigger] now[l] as int,
                    ) by {
                        if l < p {
                            assert(now[k] == before[k] && now[l] == before[l]);
                        } else if l == p {
                            assert(now[k] == before[k]);
                        } else if k < p {
                            assert(now[k] == before[k] && now[l] == before[l - 1]);
                        } else if k == p {
                            assert(now[l] == before[l - 1]);
                        } else {
                            assert(now[k] == before[k - 1] && now[l] == before[l - 1]);
                        }
                    }
                    assert forall|j: int| 0 <= j < i + 1 && #[trigger] matched(scores@, j) implies now.contains(
                        j as usize,
                    ) by {
                        if j == i {
                            assert(now[p as int] == i);
                        } else {
                            let w = choose|w: int| 0 <= w < before.len() && before[w] == j as usize;
                            if w < p {
                                assert(now[w] == before[w]);
                            } else {
                                assert(now[w + 1] == before[w]);
                            }
                        }
                    }
                    assert forall|k: int| 0 <= k < now.len() implies #[trigger] now[k] < i + 1
                        && matched(scores@, now[k] as int) by {
                        if k < p {
                            assert(now[k] == before[k]);
                        } else if k > p {
                            assert(now[k] == before[k - 1]);
                        }
                    }
                }
            },
            None => {},
        }
        i += 1;
    }
    out
}

/// The items a filter shows for `query`, given the score the matcher gave each item: every item
/// in order for an empty query, and otherwise the ones that scored, best first.
pub fn narrow(query: &str, scores: &[Option<i32>]) -> (r: Vec<usize>)
    ensures
        query@.len() == 0 ==> r@ == Seq::new(scores@.len(), |i: int| i as usize),
        query@.len() > 0 ==> ranked(scores@, r@),
{
    let q = text::chars_of(query);
    if q.len() == 0 {
        let r = everything(scores.len());
        assert(r@ =~= Seq::new(scores@.len(), |i: int| i as usize));
        r
    } else {
        by_score(scores)
    }
}

/// The best score of each row, from the scores of its fields.
pub open spec fn row_scores(fields: Seq<Vec<Option<i32>>>) -> Seq<Option<i32>> {
    Seq::new(fields.len(), |i: int| best_of(fields[i]@))
}

/// The rows of a table a filter shows for `query`, given the matcher's score for each field of
/// each row: a row scores as its best field, so a value from any column finds its row.
pub fn narrow_rows(query: &str, fields: &[Vec<Option<i32>>]) -> (r: Vec<usize>)
    ensures
        query@.len() == 0 ==> r@ == Seq::new(fields@.len(), |i: int| i as usize),
        query@.len() > 0 ==> ranked(row_scores(fields@), r@),
{
    let mut scores: Vec<Option<i32>> = Vec::new();
    let mut i: usize = 0;
    while i < fields.len()
        invariant
            i <= fields@.len(),
            scores@ == row_scores(fields@).take(i as int),
        decreases fields.len() - i,
    {
        let best = best_score(fields[i].as_slice());
        scores.push(best);
        i += 1;
        assert(scores@ =~= row_scores(fields@).take(i as int));
    }
    assert(scores@ =~= row_scores(fields@));
    narrow(query, scores.as_slice())
}

/// Two lists in the same order with the same members are the same list.
proof fn lemma_in_order_is_unique(scores: Seq<Option<i32>>, a: Seq<usize>, b: Seq<usize>)
    requires
        in_order(scores, a),
        in_order(scores, b),
        forall|x: usize| a.contains(x) <==> b.contains(x),
    ensures
        a == b,
    decreases a.len(),
{
    if a.len() == 0 {
        if b.len() > 0 {
            assert(b.contains(b[0]));
        }
        assert(a =~= b);
    } else {
        assert(a.contains(a[0]));
        assert(b.len() > 0);
        if a[0] != b[0] {
            let kb = choose|k: int| 0 <= k < b.len() && b[k] == a[0];
            assert(b.contains(b[0]));
            let ka = choose|k: int| 0 <= k < a.len() && a[k] == b[0];
            assert(ahead(scores, b[0] as int, b[kb] as int));
            assert(ahead(scores, a[0] as int, a[ka] as int));
        }
        let ta = a.subrange(1, a.len() as int);
        let tb = b.subrange(1, b.len() as int);
        assert forall|x: usize| ta.contains(x) <==> tb.contains(x) by {
            if ta.contains(x) {
                let k = choose|k: int| 0 <= k < ta.len() && ta[k] == x;
                assert(a[k + 1] == x);
                assert(ahead(scores, a[0] as int, a[k + 1] as int));
                assert(a.contains(x));
                let w = choose|w: int| 0 <= w < b.len() && b[w] == x;
                assert(w != 0);
                assert(tb[w - 1] == x);
            }
            if tb.contains(x) {
                let k = choose|k: int| 0 <= k < tb.len() && tb[k] == x;
                assert(b[k + 1] == x);
                assert(ahead(scores, b[0] as int, b[k + 1] as int));
                assert(b.contains(x));
                let w = choose|w: int| 0 <= w < a.len() && a[w] == x;
                assert(w != 0);
                assert(ta[w - 1] == x);
            }
        }
        assert forall|k: int, l: int| 0 <= k < l < ta.len() implies ahead(
            scores,
            #[trigger] ta[k] as int,
            #[trigger] ta[l] as int,
        ) by {
            assert(ta[k] == a[k + 1] && ta[l] == a[l + 1]);
        }
        assert forall|k: int, l: int| 0 <= k < l < tb.len() implies ahead(
            scores,
            #[trigger] tb[k] as int,
            #[trigger] tb[l] as int,
        ) by {
            assert(tb[k] == b[k + 1] && tb[l] == b[l + 1]);
        }
        lemma_in_order_is_unique(scores, ta, tb);
        assert forall|k: int| 0 <= k < a.len() implies a[k] == b[k] by {
            if k > 0 {
                assert(a[k] == ta[k - 1]);
                assert(b[k] == tb[k - 1]);
            }
        }
        assert(a =~= b);
    }
}

/// A filter's ranking is determined by the scores: there is one list that holds exactly the
/// items that scored, best first and in their own order among equals.
pub proof fn law_the_ranking_is_unique(scores: Seq<Option<i32>>, a: Seq<usize>, b: Seq<usize>)
    requires
        ranked(scores, a),
        ranked(scores, b),
    ensures
        a == b,
{
    assert forall|x: usize| a.contains(x) <==> b.contains(x) by {
        if a.contains(x) {
            let k = choose|k: int| 0 <= k < a.len() && a[k] == x;
            assert(matched(scores, a[k] as int));
        }
        if b.contains(x) {
            let k = choose|k: int| 0 <= k < b.len() && b[k] == x;
            assert(matched(scores, b[k] as int));
        }
    }
    lemma_in_order_is_unique(scores, a, b);
}

} // verus!
