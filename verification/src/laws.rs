//! Laws of the update pipeline, stated over the ghost images: replay
//! idempotence, version monotonicity, the upsert/retrieve round trip, the
//! count/scroll agreement and the threshold prefix property.

use vstd::prelude::*;

use crate::holder::{action_apply, ActionSnap};
use crate::ranking::{ids_strict, lemma_strict_sorted_unique, meets_threshold, rank_le, ranked};
use crate::segment::{upsert_snap, upsert_applies};
use crate::types::{Distance, PayloadSnap, PointSnap, ScoredPoint};

verus! {

/// A log of point mutations against one segment image, in order.
pub open spec fn seg_replay(
    m: Map<u64, PointSnap>,
    log: Seq<(u64, u64, ActionSnap)>,
) -> Map<u64, PointSnap>
    decreases log.len(),
{
    if log.len() == 0 {
        m
    } else {
        action_apply(
            seg_replay(m, log.drop_last()),
            log.last().0,
            log.last().1,
            log.last().2,
        )
    }
}

/// Operation numbers strictly increase along the log.
pub open spec fn ops_increasing(log: Seq<(u64, u64, ActionSnap)>) -> bool {
    forall|i: int, j: int| 0 <= i < j < log.len() ==> (log[i]).0 < (log[j]).0
}

/// Applying one mutation never lowers any stored version.
pub proof fn lemma_apply_version_monotone(
    m: Map<u64, PointSnap>,
    n: u64,
    id: u64,
    a: ActionSnap,
    x: u64,
)
    ensures
        m.contains_key(x) ==> action_apply(m, n, id, a).contains_key(x) && action_apply(
            m,
            n,
            id,
            a,
        )[x].version >= m[x].version,
{
}

/// Applying the same mutation twice in a row is the same as applying it
/// once.
pub proof fn lemma_apply_idempotent(m: Map<u64, PointSnap>, n: u64, id: u64, a: ActionSnap)
    ensures
        action_apply(action_apply(m, n, id, a), n, id, a) == action_apply(m, n, id, a),
{
    let m1 = action_apply(m, n, id, a);
    assert(action_apply(m1, n, id, a) =~= m1);
}

/// A mutation that changes nothing keeps changing nothing after any
/// later-numbered mutation.
pub proof fn lemma_noop_stable(
    m: Map<u64, PointSnap>,
    nk: u64,
    idk: u64,
    ak: ActionSnap,
    nj: u64,
    idj: u64,
    aj: ActionSnap,
)
    requires
        action_apply(m, nk, idk, ak) == m,
        nj > nk,
    ensures
        action_apply(action_apply(m, nj, idj, aj), nk, idk, ak) == action_apply(m, nj, idj, aj),
{
    let m1 = action_apply(m, nj, idj, aj);
    assert(action_apply(m1, nk, idk, ak) =~= m1);
}

/// The same, for a later mutation whose number is merely no smaller: the
/// version guard still blocks the earlier one.
pub proof fn lemma_noop_stable_wide(
    m: Map<u64, PointSnap>,
    nk: u64,
    idk: u64,
    ak: ActionSnap,
    nj: u64,
    idj: u64,
    aj: ActionSnap,
)
    requires
        action_apply(m, nk, idk, ak) == m,
        nj >= nk,
    ensures
        action_apply(action_apply(m, nj, idj, aj), nk, idk, ak) == action_apply(m, nj, idj, aj),
{
    let m1 = action_apply(m, nj, idj, aj);
    assert(action_apply(m1, nk, idk, ak) =~= m1);
}

/// After replaying a prefix, every operation of that prefix is a no-op.
pub proof fn lemma_replay_prefix_noops(
    m0: Map<u64, PointSnap>,
    log: Seq<(u64, u64, ActionSnap)>,
    j: int,
)
    requires
        ops_increasing(log),
        0 <= j <= log.len(),
    ensures
        forall|k: int|
            0 <= k < j ==> action_apply(
                seg_replay(m0, log.take(j)),
                (#[trigger] log[k]).0,
                log[k].1,
                log[k].2,
            ) == seg_replay(m0, log.take(j)),
    decreases j,
{
    if j > 0 {
        lemma_replay_prefix_noops(m0, log, j - 1);
        let prev = seg_replay(m0, log.take(j - 1));
        let cur = seg_replay(m0, log.take(j));
        assert(log.take(j).drop_last() =~= log.take(j - 1));
        assert(log.take(j).last() == log[j - 1]);
        assert(cur == action_apply(prev, log[j - 1].0, log[j - 1].1, log[j - 1].2));
        assert forall|k: int| 0 <= k < j implies action_apply(
            cur,
            (#[trigger] log[k]).0,
            log[k].1,
            log[k].2,
        ) == cur by {
            if k == j - 1 {
                lemma_apply_idempotent(prev, log[j - 1].0, log[j - 1].1, log[j - 1].2);
            } else {
                assert(action_apply(prev, log[k].0, log[k].1, log[k].2) == prev);
                assert(log[k].0 < log[j - 1].0);
                lemma_noop_stable(
                    prev,
                    log[k].0,
                    log[k].1,
                    log[k].2,
                    log[j - 1].0,
                    log[j - 1].1,
                    log[j - 1].2,
                );
            }
        }
    }
}

/// Replaying a list of no-ops changes nothing.
pub proof fn lemma_replay_noops(m: Map<u64, PointSnap>, log: Seq<(u64, u64, ActionSnap)>)
    requires
        forall|k: int|
            0 <= k < log.len() ==> action_apply(m, (#[trigger] log[k]).0, log[k].1, log[k].2) == m,
    ensures
        seg_replay(m, log) == m,
    decreases log.len(),
{
    if log.len() > 0 {
        assert(forall|k: int|
            0 <= k < log.drop_last().len() ==> #[trigger] log.drop_last()[k] == log[k]);
        lemma_replay_noops(m, log.drop_last());
    }
}

/// Replay distributes over concatenation.
pub proof fn lemma_replay_split(
    m: Map<u64, PointSnap>,
    a: Seq<(u64, u64, ActionSnap)>,
    b: Seq<(u64, u64, ActionSnap)>,
)
    ensures
        seg_replay(m, a + b) == seg_replay(seg_replay(m, a), b),
    decreases b.len(),
{
    if b.len() == 0 {
        assert(a + b =~= a);
    } else {
        lemma_replay_split(m, a, b.drop_last());
        assert((a + b).drop_last() =~= a + b.drop_last());
        assert((a + b).last() == b.last());
    }
}

/// Replay is idempotent: applying the whole log over a state that already
/// holds any replayed prefix gives exactly the clean replay. The version
/// guard makes every already-applied operation a no-op.
pub proof fn lemma_replay_idempotent(
    m0: Map<u64, PointSnap>,
    log: Seq<(u64, u64, ActionSnap)>,
    p: int,
)
    requires
        ops_increasing(log),
        0 <= p <= log.len(),
    ensures
        seg_replay(seg_replay(m0, log.take(p)), log) == seg_replay(m0, log),
{
    let sp = seg_replay(m0, log.take(p));
    lemma_replay_prefix_noops(m0, log, p);
    assert(forall|k: int|
        0 <= k < log.take(p).len() ==> #[trigger] log.take(p)[k] == log[k]);
    lemma_replay_noops(sp, log.take(p));
    assert(log =~= log.take(p) + log.skip(p));
    lemma_replay_split(sp, log.take(p), log.skip(p));
    lemma_replay_split(m0, log.take(p), log.skip(p));
    assert(seg_replay(sp, log.take(p) + log.skip(p)) == seg_replay(
        seg_replay(sp, log.take(p)),
        log.skip(p),
    ));
    assert(seg_replay(sp, log.take(p)) == sp);
}

/// After any replay of increasingly numbered operations, every stored
/// version is the number of some operation of the log that targeted the
/// point, and no later-numbered targeted operation left a lower version:
/// the version is the highest operation number that affected the point.
pub proof fn lemma_version_from_log(
    m0: Map<u64, PointSnap>,
    log: Seq<(u64, u64, ActionSnap)>,
    x: u64,
)
    requires
        ops_increasing(log),
        !m0.contains_key(x),
    ensures
        seg_replay(m0, log).contains_key(x) ==> exists|k: int|
            0 <= k < log.len() && (#[trigger] log[k]).1 == x && log[k].0 == seg_replay(
                m0,
                log,
            )[x].version,
    decreases log.len(),
{
    if log.len() > 0 {
        lemma_version_from_log(m0, log.drop_last(), x);
        let prev = seg_replay(m0, log.drop_last());
        let cur = seg_replay(m0, log);
        if cur.contains_key(x) {
            if prev.contains_key(x) && cur[x].version == prev[x].version {
                let k = choose|k: int|
                    0 <= k < log.drop_last().len() && (#[trigger] log.drop_last()[k]).1 == x
                        && log.drop_last()[k].0 == prev[x].version;
                assert((log[k]).1 == x && log[k].0 == cur[x].version);
            } else {
                assert((log[log.len() - 1]).1 == x && log[log.len() - 1].0 == cur[x].version);
            }
        }
    }
}

/// The upsert/retrieve round trip: an applied upsert stores exactly the
/// given vector and payload, live, at the operation's number.
pub proof fn lemma_upsert_round_trip(
    m: Map<u64, PointSnap>,
    n: u64,
    id: u64,
    v: Seq<i64>,
    p: Seq<PayloadSnap>,
)
    requires
        upsert_applies(m, n, id),
    ensures
        upsert_snap(m, n, id, v, p).contains_key(id),
        upsert_snap(m, n, id, v, p)[id] == (PointSnap {
            version: n,
            deleted: false,
            vector: v,
            payload: p,
        }),
{
}

/// An exact count equals the length of an unbounded scroll: two strictly
/// ascending id lists describing the same member set are the same list.
pub proof fn lemma_count_matches_scroll(a: Seq<u64>, b: Seq<u64>)
    requires
        ids_strict(a),
        ids_strict(b),
        forall|id: u64| a.contains(id) <==> b.contains(id),
    ensures
        a == b,
        a.len() == b.len(),
{
    lemma_strict_sorted_unique(a, b);
}

/// In a ranked result list, the rows meeting a score threshold form a
/// prefix: once one row misses the threshold, every later row does.
pub proof fn lemma_threshold_prefix(s: Seq<ScoredPoint>, t: i64)
    requires
        ranked(s),
    ensures
        forall|i: int, j: int|
            0 <= i < j < s.len() && meets_threshold(Distance::Dot, (#[trigger] s[j]).score, Option::Some(t))
                ==> meets_threshold(Distance::Dot, (#[trigger] s[i]).score, Option::Some(t)),
{
    assert forall|i: int, j: int|
        0 <= i < j < s.len() && meets_threshold(
            Distance::Dot,
            (#[trigger] s[j]).score,
            Option::Some(t),
        ) implies meets_threshold(Distance::Dot, (#[trigger] s[i]).score, Option::Some(t)) by {
        assert(rank_le(s[i], s[j]));
    }
}

} // verus!
