//! Ordering and merging of scored search candidates: deduplication by point
//! id keeping the best copy, sorting by score descending with ascending id as
//! tie-breaker, threshold cut and limit.

use vstd::prelude::*;

use crate::types::{Distance, ScoredPoint};

verus! {

/// Result order: higher score first; equal scores ordered by ascending id.
pub open spec fn rank_le(a: ScoredPoint, b: ScoredPoint) -> bool {
    a.score > b.score || (a.score == b.score && a.id <= b.id)
}

/// Strict form of the result order.
pub open spec fn rank_lt(a: ScoredPoint, b: ScoredPoint) -> bool {
    a.score > b.score || (a.score == b.score && a.id < b.id)
}

/// The sequence is sorted in result order.
pub open spec fn ranked(s: Seq<ScoredPoint>) -> bool {
    forall|i: int, j: int| 0 <= i < j < s.len() ==> rank_le(s[i], s[j])
}

/// No two elements share a point id.
pub open spec fn distinct_ids(s: Seq<ScoredPoint>) -> bool {
    forall|i: int, j: int| 0 <= i < j < s.len() ==> s[i].id != s[j].id
}

/// Some element carries this id.
pub open spec fn contains_id(s: Seq<ScoredPoint>, id: u64) -> bool {
    exists|i: int| 0 <= i < s.len() && s[i].id == id
}

/// `p` beats every one of the first `n` candidates that shares its id:
/// a strictly higher score, or the same score and at least its version.
pub open spec fn keeps_best_upto(cands: Seq<ScoredPoint>, n: int, p: ScoredPoint) -> bool {
    forall|q: int|
        0 <= q < n && (#[trigger] cands[q]).id == p.id ==> (cands[q].score < p.score || (
        cands[q].score == p.score && cands[q].version <= p.version))
}

/// `p` beats every candidate that shares its id.
pub open spec fn keeps_best(cands: Seq<ScoredPoint>, p: ScoredPoint) -> bool {
    keeps_best_upto(cands, cands.len() as int, p)
}

/// `p` occurs among the first `n` candidates.
pub open spec fn in_prefix(cands: Seq<ScoredPoint>, n: int, p: ScoredPoint) -> bool {
    exists|w: int| 0 <= w < n && cands[w] == p
}

/// A score passes the request's threshold, if one is set.
pub open spec fn meets_threshold(dist: Distance, score: i64, threshold: Option<i64>) -> bool {
    match threshold {
        Option::None => true,
        Option::Some(t) => dist.spec_check_threshold(dist.spec_postprocess(score), t),
    }
}

fn rank_le_exec(a: ScoredPoint, b: ScoredPoint) -> (r: bool)
    ensures
        r == rank_le(a, b),
{
    a.score > b.score || (a.score == b.score && a.id <= b.id)
}

/// Sorts candidates into result order; the output is a permutation of the
/// input.
pub fn sort_scored(input: Vec<ScoredPoint>) -> (r: Vec<ScoredPoint>)
    ensures
        ranked(r@),
        r@.to_multiset() == input@.to_multiset(),
        r@.len() == input@.len(),
{
    broadcast use vstd::seq_lib::group_to_multiset_ensures;

    let mut r: Vec<ScoredPoint> = Vec::new();
    let mut i: usize = 0;
    while i < input.len()
        invariant
            i <= input.len(),
            ranked(r@),
            r@.to_multiset() == input@.take(i as int).to_multiset(),
            r@.len() == i,
        decreases input.len() - i,
    {
        let x = input[i];
        let ghost prev = r@;
        let mut j: usize = 0;
        while j < r.len() && rank_le_exec(r[j], x)
            invariant
                j <= r.len(),
                r@ == prev,
                forall|k: int| 0 <= k < j ==> rank_le(r@[k], x),
            decreases r.len() - j,
        {
            j = j + 1;
        }
        proof {
            if j < prev.len() {
                assert(!rank_le(prev[j as int], x));
                assert(rank_le(x, prev[j as int]));
                assert forall|k: int| j <= k < prev.len() implies rank_le(x, prev[k]) by {
                    if k > j {
                        assert(rank_le(prev[j as int], prev[k]));
                    }
                }
            }
        }
        r.insert(j, x);
        proof {
            vstd::seq_lib::to_multiset_insert(prev, j as int, x);
            assert(r@.to_multiset() == prev.to_multiset().insert(x));
            assert(input@.take(i + 1) =~= input@.take(i as int).push(x));
            vstd::seq_lib::to_multiset_build(input@.take(i as int), x);
            assert(ranked(r@)) by {
                assert forall|a: int, b: int| 0 <= a < b < r@.len() implies rank_le(
                    r@[a],
                    r@[b],
                ) by {
                    if a < j && b == j {
                        assert(rank_le(prev[a], x));
                    } else if a < j && b > j {
                        assert(rank_le(prev[a], prev[b - 1]));
                    } else if a == j && b > j {
                        assert(rank_le(x, prev[b - 1]));
                    } else if a > j && b > j {
                        assert(rank_le(prev[a - 1], prev[b - 1]));
                    }
                }
            }
        }
        i = i + 1;
    }
    proof {
        assert(input@.take(input@.len() as int) =~= input@);
    }
    r
}

/// Keeps one candidate per id: the one with the highest score, breaking score
/// ties by the highest version.
pub fn dedup_best(cands: &Vec<ScoredPoint>) -> (r: Vec<ScoredPoint>)
    ensures
        distinct_ids(r@),
        forall|k: int|
            0 <= k < r@.len() ==> cands@.contains(#[trigger] r@[k]) && keeps_best(cands@, r@[k]),
        forall|k: int| 0 <= k < cands@.len() ==> contains_id(r@, (#[trigger] cands@[k]).id),
{
    let mut r: Vec<ScoredPoint> = Vec::new();
    let mut i: usize = 0;
    while i < cands.len()
        invariant
            i <= cands.len(),
            distinct_ids(r@),
            forall|k: int|
                0 <= k < r@.len() ==> in_prefix(cands@, i as int, #[trigger] r@[k])
                    && keeps_best_upto(cands@, i as int, r@[k]),
            forall|k: int| 0 <= k < i ==> contains_id(r@, (#[trigger] cands@[k]).id),
        decreases cands.len() - i,
    {
        let c = cands[i];
        let ghost prev = r@;
        let mut j: usize = 0;
        let mut found = false;
        while j < r.len() && !found
            invariant
                j <= r.len(),
                r@ == prev,
                !found ==> forall|k: int| 0 <= k < j ==> (#[trigger] r@[k]).id != c.id,
                found ==> j >= 1 && j - 1 < r@.len() && r@[j - 1].id == c.id,
            decreases r.len() - j,
        {
            if r[j].id == c.id {
                found = true;
            }
            j = j + 1;
        }
        if !found {
            // no copy of this id yet
            proof {
                assert forall|k: int| 0 <= k < i && (#[trigger] cands@[k]).id == c.id implies
                    false by {
                    assert(contains_id(prev, cands@[k].id));
                }
            }
            r.push(c);
            proof {
                assert forall|k: int| 0 <= k < r@.len() implies in_prefix(
                    cands@,
                    i + 1,
                    #[trigger] r@[k],
                ) && keeps_best_upto(cands@, i + 1, r@[k]) by {
                    if k < prev.len() {
                        assert(r@[k] == prev[k]);
                        assert(c.id != prev[k].id) by {
                            if c.id == prev[k].id {
                                assert(contains_id(prev, c.id));
                            }
                        }
                    } else {
                        assert(r@[k] == c);
                        assert(cands@[i as int] == c);
                    }
                }
                assert forall|k: int| 0 <= k < i + 1 implies contains_id(
                    r@,
                    (#[trigger] cands@[k]).id,
                ) by {
                    if k < i {
                        let w = choose|w: int| 0 <= w < prev.len() && prev[w].id == cands@[k].id;
                        assert(r@[w] == prev[w]);
                    } else {
                        assert(r@[r@.len() - 1].id == c.id);
                    }
                }
            }
        } else {
            let pos = j - 1;
            let old_p = r[pos];
            let better = c.score > old_p.score || (c.score == old_p.score && c.version
                > old_p.version);
            if better {
                r.remove(pos);
                r.push(c);
                proof {
                    assert forall|k: int| 0 <= k < r@.len() implies in_prefix(
                        cands@,
                        i + 1,
                        #[trigger] r@[k],
                    ) && keeps_best_upto(cands@, i + 1, r@[k]) by {
                        if k < r@.len() - 1 {
                            let orig: int = if k < pos {
                                k
                            } else {
                                k + 1
                            };
                            assert(r@[k] == prev[orig]);
                            assert(c.id != prev[orig].id) by {
                                if orig != pos && c.id == prev[orig].id {
                                    assert(prev[pos as int].id == prev[orig].id);
                                }
                                if orig == pos {
                                    assert(false);
                                }
                            }
                        } else {
                            assert(r@[k] == c);
                            assert(cands@[i as int] == c);
                            assert(keeps_best_upto(cands@, i as int, old_p));
                        }
                    }
                    assert forall|k: int| 0 <= k < i + 1 implies contains_id(
                        r@,
                        (#[trigger] cands@[k]).id,
                    ) by {
                        if k < i {
                            let w = choose|w: int| 0 <= w < prev.len() && prev[w].id == cands@[k].id;
                            if w == pos {
                                assert(r@[r@.len() - 1].id == cands@[k].id);
                            } else {
                                let nw: int = if w < pos {
                                    w
                                } else {
                                    w - 1
                                };
                                assert(r@[nw] == prev[w]);
                            }
                        } else {
                            assert(r@[r@.len() - 1].id == c.id);
                        }
                    }
                    assert(distinct_ids(r@)) by {
                        assert forall|a: int, b: int| 0 <= a < b < r@.len() implies (
                        #[trigger] r@[a]).id != (#[trigger] r@[b]).id by {
                            let oa: int = if a < pos {
                                a
                            } else {
                                a + 1
                            };
                            if b < r@.len() - 1 {
                                let ob: int = if b < pos {
                                    b
                                } else {
                                    b + 1
                                };
                                assert(r@[a] == prev[oa] && r@[b] == prev[ob]);
                            } else {
                                assert(r@[a] == prev[oa]);
                                assert(r@[b] == c);
                                if prev[oa].id == c.id {
                                    assert(prev[pos as int].id == c.id);
                                }
                            }
                        }
                    }
                }
            } else {
                proof {
                    assert forall|k: int| 0 <= k < r@.len() implies in_prefix(
                        cands@,
                        i + 1,
                        #[trigger] r@[k],
                    ) && keeps_best_upto(cands@, i + 1, r@[k]) by {
                        assert(r@[k] == prev[k]);
                        assert forall|q: int|
                            0 <= q < i + 1 && (#[trigger] cands@[q]).id == r@[k].id implies (
                        cands@[q].score < r@[k].score || (cands@[q].score == r@[k].score
                            && cands@[q].version <= r@[k].version)) by {
                            if q == i {
                                assert(cands@[q] == c);
                                assert(prev[pos as int].id == c.id);
                                if k != pos {
                                    assert(distinct_ids(prev));
                                    assert(prev[k].id != prev[pos as int].id);
                                }
                            }
                        }
                    }
                    assert forall|k: int| 0 <= k < i + 1 implies contains_id(
                        r@,
                        (#[trigger] cands@[k]).id,
                    ) by {
                        if k == i {
                            assert(r@[pos as int].id == c.id);
                        }
                    }
                }
            }
        }
        i = i + 1;
    }
    proof {
        assert forall|k: int| 0 <= k < r@.len() implies cands@.contains(#[trigger] r@[k])
            && keeps_best(cands@, r@[k]) by {
            assert(in_prefix(cands@, cands@.len() as int, r@[k]));
            let w = choose|w: int| 0 <= w < cands@.len() && cands@[w] == r@[k];
            assert(cands@[w] == r@[k]);
        }
    }
    r
}

/// A permutation of a sequence with pairwise distinct ids again has pairwise
/// distinct ids.
pub proof fn lemma_perm_distinct_ids(a: Seq<ScoredPoint>, b: Seq<ScoredPoint>)
    requires
        distinct_ids(a),
        a.to_multiset() == b.to_multiset(),
    ensures
        distinct_ids(b),
{
    broadcast use vstd::seq_lib::group_to_multiset_ensures;

    assert forall|i: int, j: int| 0 <= i < j < b.len() implies (#[trigger] b[i]).id != (
    #[trigger] b[j]).id by {
        if b[i].id == b[j].id {
            if b[i] == b[j] {
                let v = b[i];
                vstd::seq_lib::to_multiset_remove(b, i);
                assert(b.remove(i)[j - 1] == v);
                assert(b.remove(i).contains(v));
                assert(b.remove(i).to_multiset().count(v) > 0);
                assert(b.to_multiset().count(v) >= 2);
                assert(a.no_duplicates()) by {
                    assert forall|x: int, y: int|
                        0 <= x < a.len() && 0 <= y < a.len() && x != y implies a[x] != a[y] by {
                        if x < y {
                            assert(a[x].id != a[y].id);
                        } else {
                            assert(a[y].id != a[x].id);
                        }
                    }
                }
                a.lemma_multiset_has_no_duplicates();
                assert(a.to_multiset().count(v) <= 1);
                assert(false);
            } else {
                assert(b.contains(b[i]) && b.contains(b[j]));
                assert(b.to_multiset().count(b[i]) > 0 && b.to_multiset().count(b[j]) > 0);
                assert(a.to_multiset().count(b[i]) > 0 && a.to_multiset().count(b[j]) > 0);
                assert(a.contains(b[i]) && a.contains(b[j]));
                let w1 = choose|w: int| 0 <= w < a.len() && a[w] == b[i];
                let w2 = choose|w: int| 0 <= w < a.len() && a[w] == b[j];
                assert(w1 != w2);
                if w1 < w2 {
                    assert(a[w1].id != a[w2].id);
                } else {
                    assert(a[w2].id != a[w1].id);
                }
                assert(false);
            }
        }
    }
}

/// Ascending order on ids.
pub open spec fn ids_sorted(s: Seq<u64>) -> bool {
    forall|i: int, j: int| 0 <= i < j < s.len() ==> s[i] <= s[j]
}

/// Strictly ascending order on ids.
pub open spec fn ids_strict(s: Seq<u64>) -> bool {
    forall|i: int, j: int| 0 <= i < j < s.len() ==> s[i] < s[j]
}

/// Sorts ids ascending; the output is a permutation of the input.
pub fn sort_ids(input: Vec<u64>) -> (r: Vec<u64>)
    ensures
        ids_sorted(r@),
        r@.to_multiset() == input@.to_multiset(),
        r@.len() == input@.len(),
{
    broadcast use vstd::seq_lib::group_to_multiset_ensures;

    let mut r: Vec<u64> = Vec::new();
    let mut i: usize = 0;
    while i < input.len()
        invariant
            i <= input.len(),
            ids_sorted(r@),
            r@.to_multiset() == input@.take(i as int).to_multiset(),
            r@.len() == i,
        decreases input.len() - i,
    {
        let x = input[i];
        let ghost prev = r@;
        let mut j: usize = 0;
        while j < r.len() && r[j] <= x
            invariant
                j <= r.len(),
                r@ == prev,
                forall|k: int| 0 <= k < j ==> r@[k] <= x,
            decreases r.len() - j,
        {
            j = j + 1;
        }
        proof {
            if j < prev.len() {
                assert forall|k: int| j <= k < prev.len() implies x < prev[k] by {
                    if k > j {
                        assert(prev[j as int] <= prev[k]);
                    }
                }
            }
        }
        r.insert(j, x);
        proof {
            vstd::seq_lib::to_multiset_insert(prev, j as int, x);
            assert(input@.take(i + 1) =~= input@.take(i as int).push(x));
            vstd::seq_lib::to_multiset_build(input@.take(i as int), x);
            assert(ids_sorted(r@)) by {
                assert forall|a: int, b: int| 0 <= a < b < r@.len() implies r@[a] <= r@[b] by {
                    if a < j && b == j {
                        assert(prev[a] <= x);
                    } else if a < j && b > j {
                        assert(prev[a] <= prev[b - 1]);
                    } else if a == j && b > j {
                        assert(x < prev[b - 1]);
                    } else if a > j && b > j {
                        assert(prev[a - 1] <= prev[b - 1]);
                    }
                }
            }
        }
        i = i + 1;
    }
    proof {
        assert(input@.take(input@.len() as int) =~= input@);
    }
    r
}

/// An ascending permutation of a duplicate-free sequence is strictly
/// ascending.
pub proof fn lemma_sorted_distinct_strict(s: Seq<u64>, t: Seq<u64>)
    requires
        forall|i: int, j: int| 0 <= i < j < s.len() ==> s[i] != s[j],
        ids_sorted(t),
        s.to_multiset() == t.to_multiset(),
    ensures
        ids_strict(t),
{
    broadcast use vstd::seq_lib::group_to_multiset_ensures;

    assert(s.no_duplicates()) by {
        assert forall|x: int, y: int|
            0 <= x < s.len() && 0 <= y < s.len() && x != y implies s[x] != s[y] by {
            if x < y {
                assert(s[x] != s[y]);
            } else {
                assert(s[y] != s[x]);
            }
        }
    }
    s.lemma_multiset_has_no_duplicates();
    assert forall|i: int, j: int| 0 <= i < j < t.len() implies t[i] < t[j] by {
        if t[i] == t[j] {
            let v = t[i];
            vstd::seq_lib::to_multiset_remove(t, i);
            assert(t.remove(i)[j - 1] == v);
            assert(t.remove(i).contains(v));
            assert(t.remove(i).to_multiset().count(v) > 0);
            assert(t.to_multiset().count(v) >= 2);
            assert(s.to_multiset().count(v) <= 1);
            assert(false);
        }
    }
}

/// Two strictly ascending sequences with the same members are equal.
pub proof fn lemma_strict_sorted_unique(a: Seq<u64>, b: Seq<u64>)
    requires
        ids_strict(a),
        ids_strict(b),
        forall|id: u64| a.contains(id) <==> b.contains(id),
    ensures
        a == b,
    decreases a.len(),
{
    if a.len() == 0 {
        if b.len() > 0 {
            assert(b.contains(b[0]));
            assert(a.contains(b[0]));
        }
        assert(a =~= b);
    } else {
        assert(a.contains(a[0]));
        assert(b.contains(a[0]));
        let i = choose|i: int| 0 <= i < b.len() && b[i] == a[0];
        if i > 0 {
            assert(b.contains(b[0]));
            assert(a.contains(b[0]));
            let j = choose|j: int| 0 <= j < a.len() && a[j] == b[0];
            assert(a[0] <= a[j]);
            assert(b[0] < b[i]);
            assert(false);
        }
        let at = a.drop_first();
        let bt = b.drop_first();
        assert(ids_strict(at)) by {
            assert(forall|x: int, y: int|
                0 <= x < y < at.len() ==> at[x] == a[x + 1] && at[y] == a[y + 1]);
        }
        assert(ids_strict(bt)) by {
            assert(forall|x: int, y: int|
                0 <= x < y < bt.len() ==> bt[x] == b[x + 1] && bt[y] == b[y + 1]);
        }
        assert forall|id: u64| at.contains(id) <==> bt.contains(id) by {
            if at.contains(id) {
                let w = choose|w: int| 0 <= w < at.len() && at[w] == id;
                assert(a[w + 1] == id);
                assert(a.contains(id));
                assert(b.contains(id));
                let v = choose|v: int| 0 <= v < b.len() && b[v] == id;
                assert(a[0] < a[w + 1]);
                if v == 0 {
                    assert(b[0] == a[0]);
                    assert(false);
                }
                assert(bt[v - 1] == id);
            }
            if bt.contains(id) {
                let w = choose|w: int| 0 <= w < bt.len() && bt[w] == id;
                assert(b[w + 1] == id);
                assert(b.contains(id));
                assert(a.contains(id));
                let v = choose|v: int| 0 <= v < a.len() && a[v] == id;
                assert(b[0] < b[w + 1]);
                if v == 0 {
                    assert(false);
                }
                assert(at[v - 1] == id);
            }
        }
        lemma_strict_sorted_unique(at, bt);
        assert(a.len() == b.len());
        assert forall|k: int| 0 <= k < a.len() implies a[k] == b[k] by {
            if k > 0 {
                assert(at[k - 1] == a[k]);
                assert(bt[k - 1] == b[k]);
            }
        }
        assert(a =~= b);
    }
}

/// Cuts a ranked list at the first score that misses the threshold, then at
/// the limit. The result is a prefix of the input.
pub fn page_ranked(
    full: &Vec<ScoredPoint>,
    dist: Distance,
    threshold: Option<i64>,
    limit: usize,
) -> (r: Vec<ScoredPoint>)
    requires
        ranked(full@),
    ensures
        r@ == full@.take(r@.len() as int),
        r@.len() <= limit,
        r@.len() <= full@.len(),
        forall|k: int| 0 <= k < r@.len() ==> meets_threshold(dist, full@[k].score, threshold),
        r@.len() < limit ==> r@.len() == full@.len() || !meets_threshold(
            dist,
            full@[r@.len() as int].score,
            threshold,
        ),
{
    let mut r: Vec<ScoredPoint> = Vec::new();
    let mut i: usize = 0;
    let mut stop = false;
    while !stop
        invariant
            i <= full.len(),
            r@ == full@.take(i as int),
            r@.len() == i,
            i <= limit,
            forall|k: int| 0 <= k < i ==> meets_threshold(dist, full@[k].score, threshold),
            stop ==> i == full@.len() || i == limit || !meets_threshold(
                dist,
                full@[i as int].score,
                threshold,
            ),
        decreases full.len() - i + (if stop {
            0int
        } else {
            1int
        }),
    {
        if i < full.len() && i < limit {
            let p = full[i];
            let ok = match threshold {
                Option::Some(t) => dist.check_threshold(dist.postprocess_score(p.score), t),
                Option::None => true,
            };
            if ok {
                r.push(p);
                proof {
                    assert(r@ =~= full@.take(i + 1));
                }
                i = i + 1;
            } else {
                stop = true;
            }
        } else {
            stop = true;
        }
    }
    r
}

/// Collapses equal neighbours of an ascending id list: the result is
/// strictly ascending with the same members.
pub fn dedup_sorted_ids(v: &Vec<u64>) -> (r: Vec<u64>)
    requires
        ids_sorted(v@),
    ensures
        ids_strict(r@),
        forall|id: u64| #[trigger] r@.contains(id) <==> v@.contains(id),
{
    let mut r: Vec<u64> = Vec::new();
    let mut i: usize = 0;
    while i < v.len()
        invariant
            i <= v@.len(),
            ids_sorted(v@),
            ids_strict(r@),
            forall|id: u64| #[trigger] r@.contains(id) ==> v@.take(i as int).contains(id),
            forall|id: u64| #[trigger] v@.take(i as int).contains(id) ==> r@.contains(id),
            r@.len() > 0 && i > 0 ==> r@[r@.len() - 1] == v@[i - 1],
            i == 0 ==> r@.len() == 0,
            r@.len() == 0 ==> i == 0,
        decreases v@.len() - i,
    {
        let ghost prev = r@;
        let x = v[i];
        let take_it = if r.len() == 0 {
            true
        } else {
            r[r.len() - 1] != x
        };
        if take_it {
            proof {
                if prev.len() > 0 {
                    assert(prev[prev.len() - 1] == v@[i - 1]);
                    assert(v@[i - 1] <= v@[i as int]);
                    assert(prev[prev.len() - 1] < x);
                }
            }
            r.push(x);
            proof {
                assert(ids_strict(r@)) by {
                    assert forall|a: int, b: int| 0 <= a < b < r@.len() implies r@[a] < r@[b] by {
                        if b == r@.len() - 1 {
                            assert(r@[a] == prev[a]);
                            if a < prev.len() - 1 {
                                assert(prev[a] < prev[prev.len() - 1]);
                            }
                        } else {
                            assert(r@[a] == prev[a] && r@[b] == prev[b]);
                        }
                    }
                }
            }
        }
        proof {
            let tk = v@.take(i + 1);
            let tp = v@.take(i as int);
            assert(tk =~= tp.push(x));
            assert forall|id: u64| #[trigger] r@.contains(id) implies tk.contains(id) by {
                let w = choose|w: int| 0 <= w < r@.len() && r@[w] == id;
                if w < prev.len() {
                    assert(prev.contains(id));
                    let u = choose|u: int| 0 <= u < tp.len() && tp[u] == id;
                    assert(tk[u] == id);
                } else {
                    assert(id == x);
                    assert(tk[i as int] == id);
                }
            }
            assert forall|id: u64| #[trigger] tk.contains(id) implies r@.contains(id) by {
                let u = choose|u: int| 0 <= u < tk.len() && tk[u] == id;
                if u < i {
                    assert(tp[u] == id);
                    assert(tp.contains(id));
                    assert(prev.contains(id));
                    let w = choose|w: int| 0 <= w < prev.len() && prev[w] == id;
                    assert(r@[w] == id);
                } else {
                    assert(id == x);
                    if take_it {
                        assert(r@[r@.len() - 1] == id);
                    } else {
                        assert(prev[prev.len() - 1] == x);
                        assert(r@[r@.len() - 1] == id);
                    }
                }
            }
        }
        i = i + 1;
    }
    proof {
        assert(v@.take(v@.len() as int) =~= v@);
    }
    r
}

} // verus!
