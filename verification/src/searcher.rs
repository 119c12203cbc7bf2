//! Stateless fan-out of read requests over a holder: search with merging,
//! retrieve by id, filtered scroll and count.

use vstd::prelude::*;

use crate::holder::SegmentHolder;
use crate::ranking::{
    contains_id, dedup_best, dedup_sorted_ids, distinct_ids, ids_strict, keeps_best,
    meets_threshold, page_ranked, rank_lt, ranked, sort_ids, sort_scored,
};
use crate::segment::{bounded_vec, cand_ok, opt_filter, read_cand, snap_passes, spec_dot};
use crate::types::{
    CollectionError, Distance, Filter, PointSnap, Record, ScoredPoint, SearchRequest,
    MAX_COMPONENT,
};

verus! {

/// `p` scores a live matching point of some slot, beats every copy of its id
/// across all slots, and carries the highest version among equally scored
/// copies.
pub open spec fn union_best(
    maps: Seq<Map<u64, PointSnap>>,
    q: Seq<i64>,
    f: Option<Filter>,
    p: ScoredPoint,
) -> bool {
    &&& exists|t: int| 0 <= t < maps.len() && #[trigger] cand_ok(maps[t], q, f, p)
    &&& forall|t: int|
        0 <= t < maps.len() && (#[trigger] maps[t]).contains_key(p.id) && snap_passes(
            maps[t][p.id],
            f,
        ) ==> spec_dot(maps[t][p.id].vector, q) <= p.score && (spec_dot(maps[t][p.id].vector, q)
            == p.score ==> maps[t][p.id].version <= p.version)
}

/// Some slot shows a live matching copy of `id` at or past the offset.
pub open spec fn union_read_cand(
    maps: Seq<Map<u64, PointSnap>>,
    f: Option<Filter>,
    off: Option<u64>,
    id: u64,
) -> bool {
    exists|t: int| 0 <= t < maps.len() && #[trigger] read_cand(maps[t], f, off, id)
}

/// The exact copy one slot contributes for `id` occurs in `all`.
pub open spec fn slot_copy_in(
    all: Seq<ScoredPoint>,
    m: Map<u64, PointSnap>,
    q: Seq<i64>,
    f: Option<Filter>,
    id: u64,
) -> bool {
    exists|k: int| 0 <= k < all.len() && (#[trigger] all[k]).id == id && cand_ok(m, q, f, all[k])
}


/// `p` is the exact scored copy some one of the first `n` slots contributes.
pub open spec fn from_some_slot(
    maps: Seq<Map<u64, PointSnap>>,
    n: int,
    q: Seq<i64>,
    f: Option<Filter>,
    p: ScoredPoint,
) -> bool {
    exists|u: int| 0 <= u < n && #[trigger] cand_ok(maps[u], q, f, p)
}


/// If every queried id is live somewhere, none is dropped.
pub proof fn lemma_retained_all_live(maps: Seq<Map<u64, PointSnap>>, ids: Seq<u64>)
    requires
        forall|k: int| 0 <= k < ids.len() ==> live_upto(maps, maps.len() as int, #[trigger] ids[k]),
    ensures
        retained(maps, ids) == ids,
    decreases ids.len(),
{
    if ids.len() > 0 {
        assert(forall|k: int|
            0 <= k < ids.drop_last().len() ==> #[trigger] ids.drop_last()[k] == ids[k]);
        lemma_retained_all_live(maps, ids.drop_last());
        assert(retained(maps, ids) =~= ids);
    } else {
        assert(retained(maps, ids) =~= ids);
    }
}

/// The stateless reader over a holder.
pub struct SegmentsSearcher {}

impl SegmentsSearcher {
    /// One search request: candidates of every slot merged, deduplicated by
    /// id keeping the best copy, ordered by final score descending with id
    /// ascending, cut at the threshold and at the limit. Any qualified id
    /// that is missing ranks strictly below the last returned row.
    pub fn search_one(holder: &SegmentHolder, request: &SearchRequest) -> (r: Result<
        Vec<ScoredPoint>,
        CollectionError,
    >)
        requires
            holder.wf(),
        ensures
            r is Err <==> !(request.vector@.len() == holder.dim && bounded_vec(request.vector@)),
            r is Err ==> r == Err::<Vec<ScoredPoint>, CollectionError>(CollectionError::BadInput),
            r is Ok ==> search_result_ok(holder.maps(), *request, r.unwrap()@),
    {
        broadcast use vstd::seq_lib::group_to_multiset_ensures;

        let ghost maps = holder.maps();
        let ghost q = request.vector@;
        let ghost f = request.filter;
        let fref = request.filter.as_ref();
        proof {
            assert(opt_filter(fref) == f);
        }
        if request.vector.len() != holder.dim {
            return Err(CollectionError::BadInput);
        }
        let mut ok = true;
        let mut ci: usize = 0;
        while ci < request.vector.len()
            invariant
                ci <= request.vector@.len(),
                ok == (forall|w: int|
                    0 <= w < ci ==> -(MAX_COMPONENT as int) <= #[trigger] request.vector@[w]
                        <= MAX_COMPONENT as int),
            decreases request.vector@.len() - ci,
        {
            if request.vector[ci] > MAX_COMPONENT || request.vector[ci] < -MAX_COMPONENT {
                ok = false;
            }
            ci = ci + 1;
        }
        if !ok {
            return Err(CollectionError::BadInput);
        }
        let mut all: Vec<ScoredPoint> = Vec::new();
        let mut t: usize = 0;
        while t < holder.segment_count()
            invariant
                t <= holder.segments@.len(),
                holder.wf(),
                maps == holder.maps(),
                q == request.vector@,
                request.vector@.len() == holder.dim,
                bounded_vec(request.vector@),
                f == request.filter,
                opt_filter(fref) == f,
                forall|k: int|
                    0 <= k < all@.len() ==> from_some_slot(maps, t as int, q, f, #[trigger] all@[k]),
                forall|u: int, id: u64|
                    0 <= u < t && #[trigger] maps[u].contains_key(id) && snap_passes(
                        maps[u][id],
                        f,
                    ) ==> slot_copy_in(all@, maps[u], q, f, id),
            decreases holder.segments@.len() - t,
        {
            let ghost prev = all@;
            proof {
                assert(maps[t as int] == holder.segments@[t as int].1.visible());
                assert(holder.segments@[t as int].1.dim() == holder.dim);
            }
            let mut c = holder.segments[t].1.scored_candidates(&request.vector, fref);
            let ghost cg = c@;
            all.append(&mut c);
            proof {
                assert(all@ == prev + cg);
                assert forall|k: int| 0 <= k < all@.len() implies from_some_slot(
                    maps,
                    t + 1,
                    q,
                    f,
                    #[trigger] all@[k],
                ) by {
                    if k < prev.len() {
                        assert(all@[k] == prev[k]);
                        assert(from_some_slot(maps, t as int, q, f, prev[k]));
                        let u = choose|u: int|
                            0 <= u < t && #[trigger] cand_ok(maps[u], q, f, prev[k]);
                        assert(cand_ok(maps[u], q, f, all@[k]));
                    } else {
                        assert(all@[k] == cg[k - prev.len()]);
                        assert(cand_ok(maps[t as int], q, f, all@[k]));
                    }
                }
                assert forall|u: int, id: u64|
                    0 <= u < t + 1 && #[trigger] maps[u].contains_key(id) && snap_passes(
                        maps[u][id],
                        f,
                    ) implies slot_copy_in(all@, maps[u], q, f, id) by {
                    if u < t {
                        assert(slot_copy_in(prev, maps[u], q, f, id));
                        let w = choose|w: int|
                            0 <= w < prev.len() && (#[trigger] prev[w]).id == id && cand_ok(
                                maps[u],
                                q,
                                f,
                                prev[w],
                            );
                        assert(all@[w] == prev[w]);
                        assert((all@[w]).id == id && cand_ok(maps[u], q, f, all@[w]));
                    } else {
                        assert(contains_id(cg, id));
                        let w = choose|w: int| 0 <= w < cg.len() && cg[w].id == id;
                        assert(cand_ok(maps[t as int], q, f, cg[w]));
                        assert((all@[prev.len() + w]).id == id && cand_ok(
                            maps[t as int],
                            q,
                            f,
                            all@[prev.len() + w],
                        ));
                    }
                }
            }
            t = t + 1;
        }
        let ghost allg = all@;
        let deduped = dedup_best(&all);
        let ghost dg = deduped@;
        let sorted = sort_scored(deduped);
        proof {
            crate::ranking::lemma_perm_distinct_ids(dg, sorted@);
            // every element of `sorted` is the union-best copy of its id
            assert forall|k: int| 0 <= k < sorted@.len() implies union_best(
                maps,
                q,
                f,
                #[trigger] sorted@[k],
            ) by {
                let p = sorted@[k];
                assert(sorted@.contains(p));
                assert(sorted@.to_multiset().count(p) > 0);
                assert(dg.to_multiset().count(p) > 0);
                assert(dg.contains(p));
                let w = choose|w: int| 0 <= w < dg.len() && dg[w] == p;
                assert(allg.contains(dg[w]) && keeps_best(allg, dg[w]));
                let v = choose|v: int| 0 <= v < allg.len() && allg[v] == p;
                assert(from_some_slot(maps, maps.len() as int, q, f, allg[v]));
                let u = choose|u: int| 0 <= u < maps.len() && #[trigger] cand_ok(maps[u], q, f, p);
                assert forall|s: int|
                    0 <= s < maps.len() && (#[trigger] maps[s]).contains_key(p.id) && snap_passes(
                        maps[s][p.id],
                        f,
                    ) implies spec_dot(maps[s][p.id].vector, q) <= p.score && (spec_dot(
                    maps[s][p.id].vector,
                    q,
                ) == p.score ==> maps[s][p.id].version <= p.version) by {
                    assert(slot_copy_in(allg, maps[s], q, f, p.id));
                    let e = choose|e: int|
                        0 <= e < allg.len() && (#[trigger] allg[e]).id == p.id && cand_ok(
                            maps[s],
                            q,
                            f,
                            allg[e],
                        );
                    assert(allg[e].score < p.score || (allg[e].score == p.score && allg[e].version
                        <= p.version));
                }
            }
        }
        let out = page_ranked(&sorted, Distance::Dot, request.score_threshold, request.limit);
        proof {
            assert forall|k: int| 0 <= k < out@.len() implies union_best(
                maps,
                q,
                f,
                #[trigger] out@[k],
            ) && meets_threshold(Distance::Dot, out@[k].score, request.score_threshold) by {
                assert(out@[k] == sorted@[k]);
            }
            assert forall|b: ScoredPoint|
                #[trigger] union_best(maps, q, f, b) && meets_threshold(
                    Distance::Dot,
                    b.score,
                    request.score_threshold,
                ) && !contains_id(out@, b.id) implies out@.len() == request.limit && (out@.len()
                > 0 ==> rank_lt(out@[out@.len() - 1], b)) by {
                let u = choose|u: int| 0 <= u < maps.len() && #[trigger] cand_ok(maps[u], q, f, b);
                assert(slot_copy_in(allg, maps[u], q, f, b.id));
                let e = choose|e: int|
                    0 <= e < allg.len() && (#[trigger] allg[e]).id == b.id && cand_ok(
                        maps[u],
                        q,
                        f,
                        allg[e],
                    );
                assert(contains_id(dg, b.id)) by {
                    assert(contains_id(dg, allg[e].id));
                }
                let w = choose|w: int| 0 <= w < dg.len() && dg[w].id == b.id;
                let d = dg[w];
                assert(dg.contains(d));
                assert(dg.to_multiset().count(d) > 0);
                assert(sorted@.to_multiset().count(d) > 0);
                assert(sorted@.contains(d));
                // d and b agree: both are the unique best copy of the id
                assert(allg.contains(d) && keeps_best(allg, d));
                let v = choose|v: int| 0 <= v < allg.len() && allg[v] == d;
                assert(from_some_slot(maps, maps.len() as int, q, f, allg[v]));
                let s = choose|s: int| 0 <= s < maps.len() && #[trigger] cand_ok(maps[s], q, f, d);
                assert(spec_dot(maps[s][d.id].vector, q) <= b.score && (spec_dot(
                    maps[s][d.id].vector,
                    q,
                ) == b.score ==> maps[s][d.id].version <= b.version));
                assert(d.score <= b.score);
                assert(allg[e].score == spec_dot(maps[u][b.id].vector, q));
                assert(allg[e].score == b.score);
                assert(allg[e].version == maps[u][b.id].version);
                assert(allg[e].version == b.version);
                assert(allg[e].score < d.score || (allg[e].score == d.score && allg[e].version
                    <= d.version));
                assert(d.score == b.score && d.version == b.version);
                assert(d == b);
                let sw = choose|sw: int| 0 <= sw < sorted@.len() && sorted@[sw] == d;
                if sw < out@.len() {
                    assert(out@[sw] == sorted@[sw]);
                    assert(contains_id(out@, b.id));
                }
                if out@.len() < request.limit {
                    assert(out@.len() == sorted@.len() || !meets_threshold(
                        Distance::Dot,
                        sorted@[out@.len() as int].score,
                        request.score_threshold,
                    ));
                    assert(out@.len() < sorted@.len());
                    assert(crate::ranking::rank_le(sorted@[out@.len() as int], sorted@[sw]) || sw
                        == out@.len());
                    assert(sorted@[out@.len() as int].score >= b.score);
                    assert(meets_threshold(
                        Distance::Dot,
                        sorted@[out@.len() as int].score,
                        request.score_threshold,
                    ));
                    assert(false);
                }
                assert(out@.len() == request.limit);
                if out@.len() > 0 {
                    let last = out@[out@.len() - 1];
                    assert(last == sorted@[out@.len() - 1]);
                    if sw > out@.len() - 1 {
                        assert(crate::ranking::rank_le(sorted@[out@.len() - 1], sorted@[sw]));
                    }
                    assert(crate::ranking::rank_le(last, b));
                    assert(last.id != b.id) by {
                        if last.id == b.id {
                            assert(contains_id(out@, b.id));
                        }
                    }
                    assert(rank_lt(last, b));
                }
            }
        }
        Ok(out)
    }
}

/// A live copy of `id` occurs in one of the first `n` slots.
pub open spec fn live_upto(maps: Seq<Map<u64, PointSnap>>, n: int, id: u64) -> bool {
    exists|t: int|
        0 <= t < n && #[trigger] maps[t].contains_key(id) && !maps[t][id].deleted
}

/// The queried ids that are live somewhere, in query order.
pub open spec fn retained(maps: Seq<Map<u64, PointSnap>>, ids: Seq<u64>) -> Seq<u64>
    decreases ids.len(),
{
    if ids.len() == 0 {
        Seq::empty()
    } else {
        let rest = retained(maps, ids.drop_last());
        if live_upto(maps, maps.len() as int, ids.last()) {
            rest.push(ids.last())
        } else {
            rest
        }
    }
}

/// `rec` is the copy of its id with the highest version among the live
/// copies of the first `n` slots, with vector and payload as requested.
pub open spec fn record_ok_upto(
    maps: Seq<Map<u64, PointSnap>>,
    n: int,
    rec: Record,
    with_vector: bool,
    with_payload: bool,
) -> bool {
    &&& exists|t: int|
        0 <= t < n && #[trigger] maps[t].contains_key(rec.id) && !maps[t][rec.id].deleted
            && maps[t][rec.id].version == rec.version && (match rec.vector {
            Option::Some(v) => with_vector && v@ == maps[t][rec.id].vector,
            Option::None => !with_vector,
        }) && (match rec.payload {
            Option::Some(p) => with_payload && crate::types::payload_view(p@)
                == maps[t][rec.id].payload,
            Option::None => !with_payload,
        })
    &&& forall|t: int|
        0 <= t < n && #[trigger] maps[t].contains_key(rec.id) && !maps[t][rec.id].deleted
            ==> maps[t][rec.id].version <= rec.version
}

impl SegmentsSearcher {
    /// One record per queried id that is live somewhere, in query order,
    /// taking the copy with the highest version when slots disagree during a
    /// proxy handoff.
    pub fn retrieve(
        holder: &SegmentHolder,
        ids: &Vec<u64>,
        with_payload: bool,
        with_vector: bool,
    ) -> (r: Vec<Record>)
        requires
            holder.wf(),
        ensures
            r@.len() == retained(holder.maps(), ids@).len(),
            forall|k: int|
                0 <= k < r@.len() ==> (#[trigger] r@[k]).id == retained(holder.maps(), ids@)[k]
                    && record_ok_upto(
                    holder.maps(),
                    holder.maps().len() as int,
                    r@[k],
                    with_vector,
                    with_payload,
                ),
    {
        let ghost maps = holder.maps();
        let mut r: Vec<Record> = Vec::new();
        let mut i: usize = 0;
        while i < ids.len()
            invariant
                i <= ids@.len(),
                holder.wf(),
                maps == holder.maps(),
                r@.len() == retained(maps, ids@.take(i as int)).len(),
                forall|k: int|
                    0 <= k < r@.len() ==> (#[trigger] r@[k]).id == retained(
                        maps,
                        ids@.take(i as int),
                    )[k] && record_ok_upto(maps, maps.len() as int, r@[k], with_vector, with_payload),
            decreases ids@.len() - i,
        {
            let ghost rp = retained(maps, ids@.take(i as int));
            proof {
                assert(ids@.take(i + 1).drop_last() =~= ids@.take(i as int));
                assert(ids@.take(i + 1).last() == ids@[i as int]);
            }
            let id = ids[i];
            let mut best: Option<Record> = Option::None;
            let mut t: usize = 0;
            while t < holder.segment_count()
                invariant
                    t <= holder.segments@.len(),
                    holder.wf(),
                    maps == holder.maps(),
                    match best {
                        Option::Some(rec) => rec.id == id && record_ok_upto(
                            maps,
                            t as int,
                            rec,
                            with_vector,
                            with_payload,
                        ),
                        Option::None => !live_upto(maps, t as int, id),
                    },
                decreases holder.segments@.len() - t,
            {
                proof {
                    assert(maps[t as int] == holder.segments@[t as int].1.visible());
                }
                let got = holder.segments[t].1.retrieve(id, with_vector, with_payload);
                match got {
                    Option::Some(rec2) => {
                        let replace = match &best {
                            Option::None => true,
                            Option::Some(b) => rec2.version > b.version,
                        };
                        if replace {
                            best = Option::Some(rec2);
                        }
                    },
                    Option::None => {},
                }
                proof {
                    match &best {
                        Option::Some(rec) => {
                            assert(record_ok_upto(maps, t + 1, *rec, with_vector, with_payload));
                        },
                        Option::None => {
                            assert(!live_upto(maps, t + 1, id)) by {
                                if live_upto(maps, t + 1, id) {
                                    let u = choose|u: int|
                                        0 <= u < t + 1 && #[trigger] maps[u].contains_key(id)
                                            && !maps[u][id].deleted;
                                    assert(u == t);
                                }
                            }
                        },
                    }
                }
                t = t + 1;
            }
            match best {
                Option::Some(rec) => {
                    r.push(rec);
                    proof {
                        assert(live_upto(maps, maps.len() as int, ids@[i as int]));
                        assert(retained(maps, ids@.take(i + 1)) =~= rp.push(ids@[i as int]));
                    }
                },
                Option::None => {
                    proof {
                        assert(!live_upto(maps, maps.len() as int, ids@[i as int]));
                        assert(retained(maps, ids@.take(i + 1)) =~= rp);
                    }
                },
            }
            i = i + 1;
        }
        proof {
            assert(ids@.take(ids@.len() as int) =~= ids@);
        }
        r
    }

    /// All ids with a live matching copy somewhere, at or past the offset,
    /// strictly ascending, with no limit applied.
    pub fn filtered_union_ids(
        holder: &SegmentHolder,
        offset: Option<u64>,
        filter: Option<&Filter>,
    ) -> (r: Vec<u64>)
        requires
            holder.wf(),
        ensures
            ids_strict(r@),
            forall|id: u64|
                #[trigger] r@.contains(id) <==> union_read_cand(
                    holder.maps(),
                    opt_filter(filter),
                    offset,
                    id,
                ),
    {
        broadcast use vstd::seq_lib::group_to_multiset_ensures;

        let ghost maps = holder.maps();
        let ghost f = opt_filter(filter);
        let mut all: Vec<u64> = Vec::new();
        let mut t: usize = 0;
        while t < holder.segment_count()
            invariant
                t <= holder.segments@.len(),
                holder.wf(),
                maps == holder.maps(),
                f == opt_filter(filter),
                forall|k: int|
                    0 <= k < all@.len() ==> union_read_cand(maps, f, offset, #[trigger] all@[k]),
                forall|u: int, id: u64|
                    0 <= u < t && #[trigger] read_cand(maps[u], f, offset, id) ==> all@.contains(
                        id,
                    ),
            decreases holder.segments@.len() - t,
        {
            let ghost prev = all@;
            proof {
                assert(maps[t as int] == holder.segments@[t as int].1.visible());
            }
            let mut c = holder.segments[t].1.read_filtered(offset, Option::None, filter);
            let ghost cg = c@;
            all.append(&mut c);
            proof {
                assert(all@ == prev + cg);
                assert forall|k: int| 0 <= k < all@.len() implies union_read_cand(
                    maps,
                    f,
                    offset,
                    #[trigger] all@[k],
                ) by {
                    if k < prev.len() {
                        assert(all@[k] == prev[k]);
                    } else {
                        assert(all@[k] == cg[k - prev.len()]);
                        assert(read_cand(maps[t as int], f, offset, all@[k]));
                    }
                }
                assert forall|u: int, id: u64|
                    0 <= u < t + 1 && #[trigger] read_cand(maps[u], f, offset, id) implies
                    all@.contains(id) by {
                    if u < t {
                        assert(prev.contains(id));
                        let w = choose|w: int| 0 <= w < prev.len() && prev[w] == id;
                        assert(all@[w] == id);
                    } else {
                        assert(cg.contains(id));
                        let w = choose|w: int| 0 <= w < cg.len() && cg[w] == id;
                        assert(all@[prev.len() + w] == id);
                    }
                }
            }
            t = t + 1;
        }
        let ghost allg = all@;
        let sorted = sort_ids(all);
        let r = dedup_sorted_ids(&sorted);
        proof {
            assert forall|id: u64| #[trigger] r@.contains(id) implies union_read_cand(
                maps,
                f,
                offset,
                id,
            ) by {
                assert(sorted@.contains(id));
                assert(sorted@.to_multiset().count(id) > 0);
                assert(allg.to_multiset().count(id) > 0);
                assert(allg.contains(id));
                let w = choose|w: int| 0 <= w < allg.len() && allg[w] == id;
            }
            assert forall|id: u64| union_read_cand(maps, f, offset, id) implies #[trigger] r@.contains(
                id,
            ) by {
                let u = choose|u: int| 0 <= u < maps.len() && #[trigger] read_cand(maps[u], f, offset, id);
                assert(allg.contains(id));
                assert(allg.to_multiset().count(id) > 0);
                assert(sorted@.to_multiset().count(id) > 0);
                assert(sorted@.contains(id));
            }
            assert(ids_strict(r@)) by {
                crate::ranking::lemma_sorted_distinct_strict(r@, r@);
            }
        }
        r
    }

    /// Filtered scan: the smallest `limit` qualifying ids from `offset` on,
    /// ascending, each returned as its highest-version live record.
    pub fn scroll(
        holder: &SegmentHolder,
        offset: Option<u64>,
        limit: usize,
        with_payload: bool,
        with_vector: bool,
        filter: Option<&Filter>,
    ) -> (r: Vec<Record>)
        requires
            holder.wf(),
        ensures
            r@.len() <= limit,
            forall|a: int, b: int| 0 <= a < b < r@.len() ==> r@[a].id < r@[b].id,
            forall|k: int|
                0 <= k < r@.len() ==> union_read_cand(
                    holder.maps(),
                    opt_filter(filter),
                    offset,
                    (#[trigger] r@[k]).id,
                ) && record_ok_upto(
                    holder.maps(),
                    holder.maps().len() as int,
                    r@[k],
                    with_vector,
                    with_payload,
                ),
            forall|id: u64|
                union_read_cand(holder.maps(), opt_filter(filter), offset, id) && !(exists|k: int|
                    0 <= k < r@.len() && (#[trigger] r@[k]).id == id) ==> r@.len() == limit && (
                r@.len() > 0 ==> r@[r@.len() - 1].id < id),
    {
        let ghost maps = holder.maps();
        let ghost f = opt_filter(filter);
        let union_ids = Self::filtered_union_ids(holder, offset, filter);
        let ghost ug = union_ids@;
        let mut picked = union_ids;
        if picked.len() > limit {
            picked.truncate(limit);
            proof {
                assert(forall|a: int, b: int|
                    0 <= a < b < picked@.len() ==> picked@[a] == ug[a] && picked@[b] == ug[b]);
            }
        }
        let ghost pg = picked@;
        proof {
            assert forall|k: int| 0 <= k < pg.len() implies live_upto(
                maps,
                maps.len() as int,
                #[trigger] pg[k],
            ) by {
                assert(pg[k] == ug[k]);
                assert(ug.contains(ug[k]));
                assert(union_read_cand(maps, f, offset, pg[k]));
                let u = choose|u: int|
                    0 <= u < maps.len() && #[trigger] read_cand(maps[u], f, offset, pg[k]);
            }
            lemma_retained_all_live(maps, pg);
        }
        let r = Self::retrieve(holder, &picked, with_payload, with_vector);
        proof {
            assert forall|k: int| 0 <= k < r@.len() implies union_read_cand(
                maps,
                f,
                offset,
                (#[trigger] r@[k]).id,
            ) by {
                assert(r@[k].id == pg[k]);
                assert(pg[k] == ug[k]);
                assert(ug.contains(ug[k]));
            }
            assert forall|id: u64|
                union_read_cand(maps, f, offset, id) && !(exists|k: int|
                    0 <= k < r@.len() && (#[trigger] r@[k]).id == id) implies r@.len() == limit
                && (r@.len() > 0 ==> r@[r@.len() - 1].id < id) by {
                assert(ug.contains(id));
                let uw = choose|uw: int| 0 <= uw < ug.len() && ug[uw] == id;
                if uw < pg.len() {
                    assert(pg[uw] == ug[uw]);
                    assert(r@[uw].id == id);
                }
                assert(pg.len() < ug.len());
                assert(pg.len() == limit);
                if r@.len() > 0 {
                    assert(r@[r@.len() - 1].id == pg[pg.len() - 1]);
                    assert(pg[pg.len() - 1] == ug[pg.len() - 1]);
                    assert(ug[pg.len() - 1] < ug[uw]);
                }
            }
        }
        r
    }
}

/// A key occurs in the schema of one of the slots.
pub open spec fn union_schema_has(slots: Seq<Seq<Seq<char>>>, k: Seq<char>) -> bool {
    exists|t: int| 0 <= t < slots.len() && #[trigger] crate::segment::schema_has(slots[t], k)
}

impl SegmentsSearcher {
    /// How many points match: with `exact`, the number of distinct matching
    /// ids across all segments (what an unbounded scroll returns); without
    /// it, the sum of the per-segment cardinality estimates, which may count
    /// an id once per segment that holds it during a proxy handoff. In this
    /// model every segment estimates exactly.
    pub fn count(holder: &SegmentHolder, filter: Option<&Filter>, exact: bool) -> (r: usize)
        requires
            holder.wf(),
        ensures
            exact ==> exists|s: Seq<u64>|
                ids_strict(s) && (forall|id: u64|
                    #[trigger] s.contains(id) <==> union_read_cand(
                        holder.maps(),
                        opt_filter(filter),
                        Option::None,
                        id,
                    )) && r == s.len(),
            !exact ==> exists|ls: Seq<Seq<u64>>|
                slot_match_lists(holder.maps(), opt_filter(filter), ls) && r as int == sum_sat(
                    seq_lens(ls),
                ),
    {
        if exact {
            let ids = Self::filtered_union_ids(holder, Option::None, filter);
            proof {
                assert(ids_strict(ids@) && (forall|id: u64|
                    #[trigger] ids@.contains(id) <==> union_read_cand(
                        holder.maps(),
                        opt_filter(filter),
                        Option::None,
                        id,
                    )) && ids@.len() == ids@.len());
            }
            ids.len()
        } else {
            let ghost maps = holder.maps();
            let ghost f = opt_filter(filter);
            let ghost ls = Seq::<Seq<u64>>::empty();
            let mut acc: usize = 0;
            let mut t: usize = 0;
            while t < holder.segment_count()
                invariant
                    t <= holder.segments@.len(),
                    holder.wf(),
                    maps == holder.maps(),
                    f == opt_filter(filter),
                    ls.len() == t,
                    forall|u: int|
                        0 <= u < t ==> ids_strict(#[trigger] ls[u]) && (forall|id: u64|
                            ls[u].contains(id) <==> read_cand(maps[u], f, Option::None, id)),
                    acc as int == sum_sat(seq_lens(ls)),
                decreases holder.segments@.len() - t,
            {
                proof {
                    assert(maps[t as int] == holder.segments@[t as int].1.visible());
                }
                let c = holder.segments[t].1.read_filtered(Option::None, Option::None, filter);
                proof {
                    assert forall|id: u64| #[trigger] c@.contains(id) implies read_cand(
                        maps[t as int],
                        f,
                        Option::None,
                        id,
                    ) by {
                        let w = choose|w: int| 0 <= w < c@.len() && c@[w] == id;
                    }
                }
                acc = sat_add(acc, c.len());
                proof {
                    let ls2 = ls.push(c@);
                    assert(seq_lens(ls2).drop_last() =~= seq_lens(ls));
                    assert(seq_lens(ls2).last() == c@.len() as int);
                    ls = ls2;
                }
                t = t + 1;
            }
            proof {
                assert(slot_match_lists(maps, f, ls) && acc as int == sum_sat(seq_lens(ls)));
            }
            acc
        }
    }

    /// A whole batch of search requests, one result list per request; fails
    /// exactly when some request's vector has the wrong dimension or an
    /// out-of-range component.
    pub fn search(holder: &SegmentHolder, batch: &Vec<SearchRequest>) -> (r: Result<
        Vec<Vec<ScoredPoint>>,
        CollectionError,
    >)
        requires
            holder.wf(),
        ensures
            r is Err <==> exists|j: int|
                0 <= j < batch@.len() && !((#[trigger] batch@[j]).vector@.len() == holder.dim
                    && bounded_vec(batch@[j].vector@)),
            r is Err ==> r == Err::<Vec<Vec<ScoredPoint>>, CollectionError>(
                CollectionError::BadInput,
            ),
            r is Ok ==> {
                let out = r.unwrap()@;
                &&& out.len() == batch@.len()
                &&& forall|j: int|
                    0 <= j < out.len() ==> search_result_ok(
                        holder.maps(),
                        #[trigger] batch@[j],
                        out[j]@,
                    )
            },
    {
        let mut out: Vec<Vec<ScoredPoint>> = Vec::new();
        let mut j: usize = 0;
        while j < batch.len()
            invariant
                j <= batch@.len(),
                holder.wf(),
                out@.len() == j,
                forall|k: int|
                    0 <= k < j ==> (#[trigger] batch@[k]).vector@.len() == holder.dim
                        && bounded_vec(batch@[k].vector@),
                forall|k: int|
                    0 <= k < j ==> search_result_ok(holder.maps(), #[trigger] batch@[k], out@[k]@),
            decreases batch@.len() - j,
        {
            match Self::search_one(holder, &batch[j]) {
                Ok(one) => {
                    out.push(one);
                },
                Err(e) => {
                    return Err(e);
                },
            }
            j = j + 1;
        }
        Ok(out)
    }

    /// Shard overview, as the original aggregates it: per-segment point and
    /// vector counts summed (an id held by two segments during a handoff
    /// counts twice), indexed vectors summed over `Indexed` segments (a
    /// proxy contributes its wrapped segment's), health status, the
    /// optimizer's error text if any, and the union of the index schemas.
    pub fn info(holder: &SegmentHolder) -> (r: crate::types::CollectionInfo)
        requires
            holder.wf(),
        ensures
            r.segments_count == holder.segments@.len(),
            r.vectors_count == r.points_count,
            exists|ls: Seq<Seq<u64>>|
                slot_match_lists(holder.maps(), Option::None, ls) && r.points_count as int
                    == sum_sat(seq_lens(ls)),
            exists|ls: Seq<Seq<u64>>|
                slot_indexed_lists(holder.segments@, ls) && r.indexed_vectors_count as int
                    == sum_sat(seq_lens(ls)),
            r.status == spec_status(*holder),
            match holder.optimizer_error {
                Option::Some(m) => r.optimizer_status == crate::types::OptimizersStatus::Failed(m),
                Option::None => r.optimizer_status == crate::types::OptimizersStatus::Healthy,
            },
            forall|k: Seq<char>|
                #[trigger] crate::segment::schema_has(
                    crate::segment::schema_seq(r.payload_schema@),
                    k,
                ) <==> union_schema_has(holder.slot_schemas(), k),
    {
        let ghost maps = holder.maps();
        let mut status = crate::types::CollectionStatus::Green;
        let mut points: usize = 0;
        let mut indexed: usize = 0;
        let mut any_special = false;
        let mut schema: Vec<String> = Vec::new();
        let ghost pls = Seq::<Seq<u64>>::empty();
        let ghost xls = Seq::<Seq<u64>>::empty();
        let mut t: usize = 0;
        while t < holder.segment_count()
            invariant
                t <= holder.segments@.len(),
                holder.wf(),
                maps == holder.maps(),
                pls.len() == t,
                forall|u: int|
                    0 <= u < t ==> ids_strict(#[trigger] pls[u]) && (forall|id: u64|
                        pls[u].contains(id) <==> read_cand(maps[u], Option::None, Option::None, id)),
                points as int == sum_sat(seq_lens(pls)),
                xls.len() == t,
                forall|u: int|
                    0 <= u < t ==> ids_strict(#[trigger] xls[u]) && (match holder.segments@[u].1.indexed_image() {
                        Option::Some(m) => forall|id: u64|
                            xls[u].contains(id) <==> (m.contains_key(id) && !m[id].deleted),
                        Option::None => xls[u].len() == 0,
                    }),
                indexed as int == sum_sat(seq_lens(xls)),
                any_special == (exists|u: int|
                    0 <= u < t && (#[trigger] holder.segments@[u]).1.seg_type()
                        == crate::types::SegmentType::Special),
                forall|k: Seq<char>|
                    #[trigger] crate::segment::schema_has(
                        crate::segment::schema_seq(schema@),
                        k,
                    ) <==> exists|u: int|
                        0 <= u < t && #[trigger] crate::segment::schema_has(
                            holder.slot_schemas()[u],
                            k,
                        ),
            decreases holder.segments@.len() - t,
        {
            proof {
                assert(maps[t as int] == holder.segments@[t as int].1.visible());
            }
            let live = holder.segments[t].1.read_filtered(Option::None, Option::None, Option::None);
            proof {
                assert forall|id: u64| #[trigger] live@.contains(id) implies read_cand(
                    maps[t as int],
                    Option::None,
                    Option::None,
                    id,
                ) by {
                    let w = choose|w: int| 0 <= w < live@.len() && live@[w] == id;
                }
            }
            points = sat_add(points, live.len());
            proof {
                let pls2 = pls.push(live@);
                assert(seq_lens(pls2).drop_last() =~= seq_lens(pls));
                assert(seq_lens(pls2).last() == live@.len() as int);
                pls = pls2;
            }
            let idx = holder.segments[t].1.indexed_live_ids();
            indexed = sat_add(indexed, idx.len());
            proof {
                let xls2 = xls.push(idx@);
                assert(seq_lens(xls2).drop_last() =~= seq_lens(xls));
                assert(seq_lens(xls2).last() == idx@.len() as int);
                xls = xls2;
            }
            if matches!(holder.segments[t].1.segment_type(), crate::types::SegmentType::Special) {
                any_special = true;
                proof {
                    assert((holder.segments@[t as int]).1.seg_type()
                        == crate::types::SegmentType::Special);
                }
            } else {
                proof {
                    assert forall|u: int|
                        0 <= u < t + 1 && (#[trigger] holder.segments@[u]).1.seg_type()
                            == crate::types::SegmentType::Special implies u < t by {}
                }
            }
            let keys = holder.segments[t].1.schema_keys();
            let ghost spre = schema@;
            let mut kx: usize = 0;
            while kx < keys.len()
                invariant
                    kx <= keys@.len(),
                    holder.wf(),
                    t < holder.segments@.len(),
                    crate::segment::schema_seq(keys@) == holder.slot_schemas()[t as int],
                    forall|k: Seq<char>|
                        #[trigger] crate::segment::schema_has(
                            crate::segment::schema_seq(schema@),
                            k,
                        ) <==> (exists|u: int|
                            0 <= u < t && #[trigger] crate::segment::schema_has(
                                holder.slot_schemas()[u],
                                k,
                            )) || (exists|w: int|
                            0 <= w < kx && crate::segment::schema_seq(keys@)[w] == k),
                decreases keys@.len() - kx,
            {
                let ghost sp2 = schema@;
                let mut present = false;
                let mut sx: usize = 0;
                while sx < schema.len()
                    invariant
                        sx <= schema@.len(),
                        schema@ == sp2,
                        kx < keys@.len(),
                        present ==> crate::segment::schema_has(
                            crate::segment::schema_seq(schema@),
                            keys@[kx as int]@,
                        ),
                        !present ==> forall|w: int|
                            0 <= w < sx ==> crate::segment::schema_seq(schema@)[w] != keys@[kx as int]@,
                    decreases schema@.len() - sx,
                {
                    if schema[sx] == keys[kx] {
                        present = true;
                        proof {
                            assert(crate::segment::schema_seq(schema@)[sx as int] == keys@[kx as int]@);
                        }
                    }
                    sx = sx + 1;
                }
                if !present {
                    schema.push(keys[kx].clone());
                    proof {
                        assert(crate::segment::schema_seq(schema@) =~= crate::segment::schema_seq(
                            sp2,
                        ).push(keys@[kx as int]@));
                    }
                }
                proof {
                    assert forall|k: Seq<char>|
                        #[trigger] crate::segment::schema_has(
                            crate::segment::schema_seq(schema@),
                            k,
                        ) implies ((exists|u: int|
                        0 <= u < t && #[trigger] crate::segment::schema_has(
                            holder.slot_schemas()[u],
                            k,
                        )) || (exists|w: int|
                        0 <= w < kx + 1 && crate::segment::schema_seq(keys@)[w] == k)) by {
                        let w = choose|w: int|
                            0 <= w < crate::segment::schema_seq(schema@).len()
                                && crate::segment::schema_seq(schema@)[w] == k;
                        if w < sp2.len() {
                            assert(crate::segment::schema_seq(sp2)[w] == k);
                            assert(crate::segment::schema_has(crate::segment::schema_seq(sp2), k));
                        } else {
                            assert(k == keys@[kx as int]@);
                            assert(crate::segment::schema_seq(keys@)[kx as int] == k);
                        }
                    }
                    assert forall|k: Seq<char>|
                        ((exists|u: int|
                            0 <= u < t && #[trigger] crate::segment::schema_has(
                                holder.slot_schemas()[u],
                                k,
                            )) || (exists|w: int|
                            0 <= w < kx + 1 && crate::segment::schema_seq(keys@)[w] == k)) implies
                        #[trigger] crate::segment::schema_has(
                        crate::segment::schema_seq(schema@),
                        k,
                    ) by {
                        if exists|u: int|
                            0 <= u < t && #[trigger] crate::segment::schema_has(
                                holder.slot_schemas()[u],
                                k,
                            ) {
                            assert(crate::segment::schema_has(crate::segment::schema_seq(sp2), k));
                            let w = choose|w: int|
                                0 <= w < crate::segment::schema_seq(sp2).len()
                                    && crate::segment::schema_seq(sp2)[w] == k;
                            assert(crate::segment::schema_seq(schema@)[w] == k);
                        } else {
                            let w = choose|w: int|
                                0 <= w < kx + 1 && crate::segment::schema_seq(keys@)[w] == k;
                            if w < kx {
                                assert(crate::segment::schema_has(
                                    crate::segment::schema_seq(sp2),
                                    k,
                                ));
                                let w2 = choose|w2: int|
                                    0 <= w2 < crate::segment::schema_seq(sp2).len()
                                        && crate::segment::schema_seq(sp2)[w2] == k;
                                assert(crate::segment::schema_seq(schema@)[w2] == k);
                            } else {
                                assert(k == keys@[kx as int]@);
                                if present {
                                    assert(crate::segment::schema_has(
                                        crate::segment::schema_seq(sp2),
                                        k,
                                    ));
                                    let w2 = choose|w2: int|
                                        0 <= w2 < crate::segment::schema_seq(sp2).len()
                                            && crate::segment::schema_seq(sp2)[w2] == k;
                                    assert(crate::segment::schema_seq(schema@)[w2] == k);
                                } else {
                                    assert(crate::segment::schema_seq(schema@)[schema@.len() - 1]
                                        == k);
                                }
                            }
                        }
                    }
                }
                kx = kx + 1;
            }
            proof {
                assert forall|k: Seq<char>|
                    #[trigger] crate::segment::schema_has(crate::segment::schema_seq(schema@), k)
                        <==> exists|u: int|
                        0 <= u < t + 1 && #[trigger] crate::segment::schema_has(
                            holder.slot_schemas()[u],
                            k,
                        ) by {
                    if crate::segment::schema_has(crate::segment::schema_seq(schema@), k) {
                        if !(exists|u: int|
                            0 <= u < t && #[trigger] crate::segment::schema_has(
                                holder.slot_schemas()[u],
                                k,
                            )) {
                            assert(crate::segment::schema_has(
                                crate::segment::schema_seq(keys@),
                                k,
                            ));
                            assert(crate::segment::schema_has(
                                holder.slot_schemas()[t as int],
                                k,
                            ));
                        }
                    }
                    if exists|u: int|
                        0 <= u < t + 1 && #[trigger] crate::segment::schema_has(
                            holder.slot_schemas()[u],
                            k,
                        ) {
                        let u = choose|u: int|
                            0 <= u < t + 1 && #[trigger] crate::segment::schema_has(
                                holder.slot_schemas()[u],
                                k,
                            );
                        if u == t {
                            let w = choose|w: int|
                                0 <= w < holder.slot_schemas()[t as int].len()
                                    && holder.slot_schemas()[t as int][w] == k;
                            assert(crate::segment::schema_seq(keys@)[w] == k);
                        }
                    }
                }
            }
            t = t + 1;
        }
        proof {
            assert(slot_match_lists(maps, Option::None, pls) && points as int == sum_sat(
                seq_lens(pls),
            ));
            assert(slot_indexed_lists(holder.segments@, xls) && indexed as int == sum_sat(
                seq_lens(xls),
            ));
        }
        if holder.has_failed_operations() || matches!(&holder.optimizer_error, Option::Some(_)) {
            status = crate::types::CollectionStatus::Red;
        } else if any_special {
            status = crate::types::CollectionStatus::Yellow;
        }
        let optimizer_status = match &holder.optimizer_error {
            Option::Some(m) => crate::types::OptimizersStatus::Failed(m.clone()),
            Option::None => crate::types::OptimizersStatus::Healthy,
        };
        crate::types::CollectionInfo {
            status,
            optimizer_status,
            vectors_count: points,
            indexed_vectors_count: indexed,
            points_count: points,
            segments_count: holder.segment_count(),
            payload_schema: schema,
        }
    }
}

/// Saturating sum of a list of lengths; the shard never reports more than
/// `usize` can hold.
pub open spec fn sum_sat(ls: Seq<int>) -> int
    decreases ls.len(),
{
    if ls.len() == 0 {
        0
    } else {
        let s = sum_sat(ls.drop_last()) + ls.last();
        if s > usize::MAX as int {
            usize::MAX as int
        } else {
            s
        }
    }
}

pub open spec fn seq_lens(ls: Seq<Seq<u64>>) -> Seq<int> {
    ls.map_values(|s: Seq<u64>| s.len() as int)
}

/// One strictly ascending id list per slot, each listing exactly the slot's
/// live matching ids.
pub open spec fn slot_match_lists(
    maps: Seq<Map<u64, PointSnap>>,
    f: Option<Filter>,
    ls: Seq<Seq<u64>>,
) -> bool {
    &&& ls.len() == maps.len()
    &&& forall|u: int|
        0 <= u < maps.len() ==> ids_strict(#[trigger] ls[u]) && (forall|id: u64|
            ls[u].contains(id) <==> read_cand(maps[u], f, Option::None, id))
}

/// One strictly ascending id list per slot, each listing exactly the live
/// points of the slot's indexed image, empty where the slot counts none.
pub open spec fn slot_indexed_lists(
    segs: Seq<(u64, crate::locked_segment::LockedSegment)>,
    ls: Seq<Seq<u64>>,
) -> bool {
    &&& ls.len() == segs.len()
    &&& forall|u: int|
        0 <= u < segs.len() ==> ids_strict(#[trigger] ls[u]) && (match segs[u].1.indexed_image() {
            Option::Some(m) => forall|id: u64|
                ls[u].contains(id) <==> (m.contains_key(id) && !m[id].deleted),
            Option::None => ls[u].len() == 0,
        })
}

/// Addition that stops at the top of `usize`.
fn sat_add(a: usize, b: usize) -> (r: usize)
    ensures
        r as int == (if a + b > usize::MAX as int {
            usize::MAX as int
        } else {
            a + b
        }),
{
    if a > usize::MAX - b {
        usize::MAX
    } else {
        a + b
    }
}

/// Health of the shard: red on any recorded failure, yellow while a proxy
/// stands in for a segment, green otherwise.
pub open spec fn spec_status(holder: SegmentHolder) -> crate::types::CollectionStatus {
    if holder.failed_operations@.len() > 0 || holder.optimizer_error is Some {
        crate::types::CollectionStatus::Red
    } else if exists|t: int|
        0 <= t < holder.segments@.len() && (#[trigger] holder.segments@[t]).1.seg_type()
            == crate::types::SegmentType::Special {
        crate::types::CollectionStatus::Yellow
    } else {
        crate::types::CollectionStatus::Green
    }
}

/// The per-request guarantee of a search: see `SegmentsSearcher::search_one`.
pub open spec fn search_result_ok(
    maps: Seq<Map<u64, PointSnap>>,
    request: SearchRequest,
    out: Seq<ScoredPoint>,
) -> bool {
    let q = request.vector@;
    let f = request.filter;
    &&& ranked(out)
    &&& distinct_ids(out)
    &&& out.len() <= request.limit
    &&& forall|k: int|
        0 <= k < out.len() ==> union_best(maps, q, f, #[trigger] out[k]) && meets_threshold(
            Distance::Dot,
            out[k].score,
            request.score_threshold,
        )
    &&& forall|b: ScoredPoint|
        #[trigger] union_best(maps, q, f, b) && meets_threshold(
            Distance::Dot,
            b.score,
            request.score_threshold,
        ) && !contains_id(out, b.id) ==> out.len() == request.limit && (out.len() > 0 ==> rank_lt(
            out[out.len() - 1],
            b,
        ))
}

} // verus!
