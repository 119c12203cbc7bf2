//! Replay laws over the shard's own routing: replaying the log twice from
//! any prefix leaves the segments exactly as one clean replay does, and
//! every stored version comes from the log. These lift the single-image
//! laws through `select_target` and the per-slot fold `spec_replay`.

use vstd::prelude::*;

use crate::holder::{
    action_apply, action_bad_input, op_actions, select_owner, select_target, spec_apply_actions,
    spec_apply_point, ActionSnap,
};
use crate::shard::spec_replay;
use crate::types::PointSnap;
use crate::wal::WalEntry;

verus! {

/// One routed mutation: operation number, point id, action.
pub open spec fn spec_apply_log(
    maps: Seq<Map<u64, PointSnap>>,
    apps: Seq<bool>,
    dim: int,
    log: Seq<(u64, u64, ActionSnap)>,
) -> Seq<Map<u64, PointSnap>>
    decreases log.len(),
{
    if log.len() == 0 {
        maps
    } else {
        spec_apply_point(
            spec_apply_log(maps, apps, dim, log.drop_last()),
            apps,
            dim,
            log.last().0,
            log.last().1,
            log.last().2,
        )
    }
}

/// Every stored version in every slot is at most `n`.
pub open spec fn maps_versions_le(maps: Seq<Map<u64, PointSnap>>, n: u64) -> bool {
    forall|t: int, id: u64|
        0 <= t < maps.len() && #[trigger] maps[t].contains_key(id) ==> maps[t][id].version <= n
}

/// Operation numbers never decrease along the routed log.
pub open spec fn log_nums_nondec(log: Seq<(u64, u64, ActionSnap)>) -> bool {
    forall|i: int, j: int| 0 <= i < j < log.len() ==> (log[i]).0 <= (log[j]).0
}

/// A mutation only ever touches its own id.
pub proof fn lemma_action_frame(m: Map<u64, PointSnap>, n: u64, id: u64, a: ActionSnap, x: u64)
    requires
        x != id,
    ensures
        action_apply(m, n, id, a).contains_key(x) == m.contains_key(x),
        m.contains_key(x) ==> action_apply(m, n, id, a)[x] == m[x],
{
}

/// A mutation never removes a key, and writes only the version `n`.
pub proof fn lemma_action_versions(m: Map<u64, PointSnap>, n: u64, id: u64, a: ActionSnap, n2: u64)
    requires
        n <= n2,
        forall|x: u64| #[trigger] m.contains_key(x) ==> m[x].version <= n2,
    ensures
        forall|x: u64|
            #[trigger] action_apply(m, n, id, a).contains_key(x) ==> action_apply(
                m,
                n,
                id,
                a,
            )[x].version <= n2,
        m.contains_key(id) ==> action_apply(m, n, id, a).contains_key(id),
{
}

/// The selected owner holds the largest version of the id; every earlier
/// slot holds a strictly smaller one; `-1` means the id is nowhere.
pub proof fn lemma_select_owner_earliest_max(maps: Seq<Map<u64, PointSnap>>, id: u64)
    ensures
        select_owner(maps, id) >= 0 ==> {
            let t = select_owner(maps, id);
            &&& maps[t].contains_key(id)
            &&& forall|s: int|
                0 <= s < maps.len() && #[trigger] maps[s].contains_key(id) ==> maps[s][id].version
                    <= maps[t][id].version
            &&& forall|s: int|
                0 <= s < t && #[trigger] maps[s].contains_key(id) ==> maps[s][id].version
                    < maps[t][id].version
        },
        select_owner(maps, id) == -1 ==> forall|s: int|
            0 <= s < maps.len() ==> !(#[trigger] maps[s].contains_key(id)),
    decreases maps.len(),
{
    crate::holder::lemma_select_owner_range(maps, id);
    if maps.len() > 0 {
        lemma_select_owner_earliest_max(maps.drop_last(), id);
        crate::holder::lemma_select_owner_range(maps.drop_last(), id);
        assert(forall|s: int|
            0 <= s < maps.len() - 1 ==> #[trigger] maps.drop_last()[s] == maps[s]);
        let rest = select_owner(maps.drop_last(), id);
        let t = select_owner(maps, id);
        let last: int = maps.len() - 1;
        assert(maps.last() == maps[last]);
        if rest >= 0 {
            assert(maps.drop_last()[rest] == maps[rest]);
        }
        if !maps[last].contains_key(id) {
            assert(t == rest);
            if t >= 0 {
                assert forall|s: int|
                    0 <= s < maps.len() && #[trigger] maps[s].contains_key(id) implies
                    maps[s][id].version <= maps[t][id].version by {
                    if s < last {
                        assert(maps.drop_last()[s] == maps[s]);
                        assert(maps.drop_last()[s].contains_key(id));
                    }
                }
                assert forall|s: int|
                    0 <= s < t && #[trigger] maps[s].contains_key(id) implies maps[s][id].version
                    < maps[t][id].version by {
                    assert(maps.drop_last()[s] == maps[s]);
                    assert(maps.drop_last()[s].contains_key(id));
                }
            } else {
                assert forall|s: int| 0 <= s < maps.len() implies !(
                #[trigger] maps[s].contains_key(id)) by {
                    if s < last {
                        assert(maps.drop_last()[s] == maps[s]);
                        assert(!maps.drop_last()[s].contains_key(id));
                    }
                }
            }
        } else if rest == -1 {
            assert(t == last);
            assert forall|s: int|
                0 <= s < maps.len() && #[trigger] maps[s].contains_key(id) implies
                maps[s][id].version <= maps[t][id].version && (s < t ==> maps[s][id].version
                    < maps[t][id].version) by {
                if s < last {
                    assert(maps.drop_last()[s] == maps[s]);
                    assert(!maps.drop_last()[s].contains_key(id));
                }
            }
        } else if maps[rest][id].version >= maps[last][id].version {
            assert(t == rest);
            assert forall|s: int|
                0 <= s < maps.len() && #[trigger] maps[s].contains_key(id) implies
                maps[s][id].version <= maps[t][id].version by {
                if s < last {
                    assert(maps.drop_last()[s] == maps[s]);
                    assert(maps.drop_last()[s].contains_key(id));
                }
            }
            assert forall|s: int|
                0 <= s < t && #[trigger] maps[s].contains_key(id) implies maps[s][id].version
                < maps[t][id].version by {
                assert(maps.drop_last()[s] == maps[s]);
                assert(maps.drop_last()[s].contains_key(id));
            }
        } else {
            assert(t == last);
            assert forall|s: int|
                0 <= s < maps.len() && #[trigger] maps[s].contains_key(id) implies
                maps[s][id].version <= maps[t][id].version && (s < t ==> maps[s][id].version
                    < maps[t][id].version) by {
                if s < last {
                    assert(maps.drop_last()[s] == maps[s]);
                    assert(maps.drop_last()[s].contains_key(id));
                    assert(maps.drop_last()[s][id].version <= maps.drop_last()[rest][id].version);
                }
            }
        }
    }
}

/// Applying one routed mutation under the version bound keeps the id's
/// routing fixed: afterwards the same id still routes to the same slot.
pub proof fn lemma_target_stable(
    maps: Seq<Map<u64, PointSnap>>,
    apps: Seq<bool>,
    dim: int,
    n: u64,
    id: u64,
    a: ActionSnap,
)
    requires
        apps.len() == maps.len(),
        maps_versions_le(maps, n),
        select_target(maps, apps, id) >= 0,
        !action_bad_input(a, dim),
    ensures
        ({
            let t = select_target(maps, apps, id);
            let maps2 = spec_apply_point(maps, apps, dim, n, id, a);
            select_target(maps2, apps, id) == t || maps2 == maps
        }),
{
    let t = select_target(maps, apps, id);
    crate::holder::lemma_select_owner_range(maps, id);
    crate::holder::lemma_last_appendable_range(apps);
    assert(0 <= t < maps.len());
    let m2 = action_apply(maps[t], n, id, a);
    let maps2 = spec_apply_point(maps, apps, dim, n, id, a);
    lemma_select_owner_earliest_max(maps, id);
    if m2 =~= maps[t] {
        assert(maps2 =~= maps);
    } else {
        // the action changed the owner slot: the id now sits there at
        // version n, strictly above every earlier copy
        assert(m2.contains_key(id) && m2[id].version == n) by {
            if !(m2.contains_key(id) && m2[id].version == n) {
                assert(m2 =~= maps[t]);
            }
        }
        assert(maps2 =~= maps.update(t, m2));
        lemma_select_owner_earliest_max(maps2, id);
        crate::holder::lemma_select_owner_range(maps2, id);
        let o2 = select_owner(maps2, id);
        assert(maps2[t].contains_key(id));
        assert(o2 >= 0) by {
            if o2 == -1 {
                assert(!maps2[t].contains_key(id));
            }
        }
        assert(0 <= o2 < maps.len());
        if o2 != t {
            assert(maps2[o2] == maps[o2]);
            assert(maps[o2].contains_key(id));
            assert(maps[o2][id].version <= n);
            // o2 holds the max, so its version is n as well
            assert(maps2[o2][id].version >= maps2[t][id].version);
            assert(maps[o2][id].version == n);
            if select_owner(maps, id) >= 0 {
                let o1 = select_owner(maps, id);
                assert(o1 == t);
                if o2 < t {
                    assert(maps[o2][id].version < maps[t][id].version);
                    assert(maps[t][id].version <= n);
                    assert(false);
                } else {
                    assert(maps2[t].contains_key(id));
                    assert(maps2[t][id].version < maps2[o2][id].version);
                    assert(maps2[o2][id].version <= n);
                    assert(false);
                }
            } else {
                // id was absent everywhere; only t holds it now
                assert(!maps[o2].contains_key(id));
                assert(false);
            }
        }
    }
}

/// After a routed mutation, repeating it changes nothing.
pub proof fn lemma_point_noop_post(
    maps: Seq<Map<u64, PointSnap>>,
    apps: Seq<bool>,
    dim: int,
    n: u64,
    id: u64,
    a: ActionSnap,
)
    requires
        apps.len() == maps.len(),
        maps_versions_le(maps, n),
    ensures
        ({
            let maps2 = spec_apply_point(maps, apps, dim, n, id, a);
            spec_apply_point(maps2, apps, dim, n, id, a) == maps2
        }),
{
    let t = select_target(maps, apps, id);
    crate::holder::lemma_select_owner_range(maps, id);
    crate::holder::lemma_last_appendable_range(apps);
    let maps2 = spec_apply_point(maps, apps, dim, n, id, a);
    if t == -1 || action_bad_input(a, dim) {
        if t == -1 {
            lemma_select_owner_earliest_max(maps, id);
            assert(select_target(maps2, apps, id) == t);
        }
    } else {
        assert(0 <= t < maps.len());
        lemma_target_stable(maps, apps, dim, n, id, a);
        if maps2 == maps {
            let m2 = action_apply(maps[t], n, id, a);
            assert(maps2 =~= maps.update(t, m2));
            assert(maps2[t] == m2);
            crate::laws::lemma_apply_idempotent(maps[t], n, id, a);
            assert(spec_apply_point(maps2, apps, dim, n, id, a) =~= maps2);
        } else {
            assert(select_target(maps2, apps, id) == t);
            crate::laws::lemma_apply_idempotent(maps[t], n, id, a);
            assert(maps2[t] == action_apply(maps[t], n, id, a));
            assert(action_apply(maps2[t], n, id, a) == maps2[t]);
            assert(spec_apply_point(maps2, apps, dim, n, id, a) =~= maps2);
        }
    }
}

/// A routed mutation that changes nothing keeps changing nothing after any
/// mutation with an operation number at least as large.
pub proof fn lemma_point_noop_stable(
    maps: Seq<Map<u64, PointSnap>>,
    apps: Seq<bool>,
    dim: int,
    nk: u64,
    idk: u64,
    ak: ActionSnap,
    nj: u64,
    idj: u64,
    aj: ActionSnap,
)
    requires
        apps.len() == maps.len(),
        maps_versions_le(maps, nj),
        nk <= nj,
        spec_apply_point(maps, apps, dim, nk, idk, ak) == maps,
    ensures
        ({
            let maps2 = spec_apply_point(maps, apps, dim, nj, idj, aj);
            spec_apply_point(maps2, apps, dim, nk, idk, ak) == maps2
        }),
{
    let maps2 = spec_apply_point(maps, apps, dim, nj, idj, aj);
    let tj = select_target(maps, apps, idj);
    crate::holder::lemma_select_owner_range(maps, idj);
    crate::holder::lemma_select_owner_range(maps, idk);
    crate::holder::lemma_last_appendable_range(apps);
    if tj == -1 || action_bad_input(aj, dim) {
        assert(maps2 == maps);
    } else {
        assert(0 <= tj < maps.len());
        lemma_target_stable(maps, apps, dim, nj, idj, aj);
        if maps2 == maps {
        } else {
            let mj = action_apply(maps[tj], nj, idj, aj);
            assert(maps2 =~= maps.update(tj, mj));
            let tk = select_target(maps, apps, idk);
            if idj != idk {
                // routing for idk is untouched: every copy of idk is the same
                lemma_select_owner_earliest_max(maps, idk);
                lemma_select_owner_earliest_max(maps2, idk);
                assert(forall|s: int|
                    0 <= s < maps2.len() ==> (#[trigger] maps2[s].contains_key(idk)
                        == maps[s].contains_key(idk)) && (maps[s].contains_key(idk)
                        ==> maps2[s][idk] == maps[s][idk])) by {
                    assert forall|s: int| 0 <= s < maps2.len() implies (
                    #[trigger] maps2[s].contains_key(idk) == maps[s].contains_key(idk)) && (
                    maps[s].contains_key(idk) ==> maps2[s][idk] == maps[s][idk]) by {
                        if s == tj {
                            lemma_action_frame(maps[tj], nj, idj, aj, idk);
                        }
                    }
                }
                lemma_select_owner_same(maps, maps2, idk);
                let tk2 = select_target(maps2, apps, idk);
                assert(tk2 == tk);
                if tk == -1 || action_bad_input(ak, dim) {
                    assert(spec_apply_point(maps2, apps, dim, nk, idk, ak) == maps2);
                } else {
                    assert(action_apply(maps[tk], nk, idk, ak) == maps[tk]) by {
                        assert(spec_apply_point(maps, apps, dim, nk, idk, ak) =~= maps.update(
                            tk,
                            action_apply(maps[tk], nk, idk, ak),
                        ));
                        assert(maps.update(tk, action_apply(maps[tk], nk, idk, ak))[tk]
                            == maps[tk]);
                    }
                    if tk == tj {
                        crate::laws::lemma_noop_stable_wide(maps[tk], nk, idk, ak, nj, idj, aj);
                        assert(action_apply(maps2[tk], nk, idk, ak) == maps2[tk]);
                    } else {
                        assert(maps2[tk] == maps[tk]);
                        assert(action_apply(maps2[tk], nk, idk, ak) == maps2[tk]);
                    }
                    assert(spec_apply_point(maps2, apps, dim, nk, idk, ak) =~= maps2.update(
                        tk,
                        maps2[tk],
                    ));
                    assert(maps2.update(tk, maps2[tk]) =~= maps2);
                }
            } else {
                // same id: it now sits at the owner slot with version nj >= nk,
                // where the older mutation is guarded off
                assert(select_target(maps2, apps, idj) == tj);
                assert(mj.contains_key(idj) && mj[idj].version == nj) by {
                    if !(mj.contains_key(idj) && mj[idj].version == nj) {
                        assert(mj =~= maps[tj]);
                        assert(maps2 =~= maps);
                    }
                }
                assert(action_apply(maps2[tj], nk, idk, ak) == maps2[tj]) by {
                    assert(maps2[tj] == mj);
                    assert(action_apply(mj, nk, idj, ak) =~= mj);
                }
                assert(spec_apply_point(maps2, apps, dim, nk, idk, ak) =~= maps2.update(
                    tj,
                    maps2[tj],
                ));
                assert(maps2.update(tj, maps2[tj]) =~= maps2);
            }
        }
    }
}

/// Owner selection depends only on the copies of the id.
pub proof fn lemma_select_owner_same(
    maps: Seq<Map<u64, PointSnap>>,
    maps2: Seq<Map<u64, PointSnap>>,
    id: u64,
)
    requires
        maps.len() == maps2.len(),
        forall|s: int|
            0 <= s < maps.len() ==> (#[trigger] maps2[s].contains_key(id) == maps[s].contains_key(
                id,
            )) && (maps[s].contains_key(id) ==> maps2[s][id] == maps[s][id]),
    ensures
        select_owner(maps2, id) == select_owner(maps, id),
    decreases maps.len(),
{
    if maps.len() > 0 {
        assert(forall|s: int|
            0 <= s < maps.len() - 1 ==> #[trigger] maps.drop_last()[s] == maps[s]
                && maps2.drop_last()[s] == maps2[s]);
        lemma_select_owner_same(maps.drop_last(), maps2.drop_last(), id);
        assert(maps.last() == maps[maps.len() - 1]);
        assert(maps2.last() == maps2[maps.len() - 1]);
        let rest = select_owner(maps.drop_last(), id);
        crate::holder::lemma_select_owner_range(maps.drop_last(), id);
        if rest >= 0 {
            assert(maps.drop_last()[rest] == maps[rest]);
            assert(maps2.drop_last()[rest] == maps2[rest]);
        }
        let last: int = maps.len() - 1;
        assert(maps2[last].contains_key(id) == maps[last].contains_key(id));
        if maps[last].contains_key(id) {
            assert(maps2[last][id] == maps[last][id]);
        }
        if rest >= 0 {
            assert(maps2[rest].contains_key(id) == maps[rest].contains_key(id));
            if maps[rest].contains_key(id) {
                assert(maps2[rest][id] == maps[rest][id]);
            }
        }
    }
}

/// The version bound survives a routed mutation with a number at most `n`.
pub proof fn lemma_versions_le_step(
    maps: Seq<Map<u64, PointSnap>>,
    apps: Seq<bool>,
    dim: int,
    n: u64,
    id: u64,
    a: ActionSnap,
    n2: u64,
)
    requires
        apps.len() == maps.len(),
        maps_versions_le(maps, n2),
        n <= n2,
    ensures
        maps_versions_le(spec_apply_point(maps, apps, dim, n, id, a), n2),
{
    let maps2 = spec_apply_point(maps, apps, dim, n, id, a);
    crate::holder::lemma_select_owner_range(maps, id);
    crate::holder::lemma_last_appendable_range(apps);
    assert forall|t: int, x: u64|
        0 <= t < maps2.len() && #[trigger] maps2[t].contains_key(x) implies maps2[t][x].version
        <= n2 by {
        let tt = select_target(maps, apps, id);
        if !(tt == -1 || action_bad_input(a, dim)) && t == tt {
            assert(0 <= tt < maps.len());
            lemma_action_versions(maps[tt], n, id, a, n2);
        }
    }
}

/// The fold keeps the number of slots.
pub proof fn lemma_apply_log_len(
    maps: Seq<Map<u64, PointSnap>>,
    apps: Seq<bool>,
    dim: int,
    log: Seq<(u64, u64, ActionSnap)>,
)
    requires
        apps.len() == maps.len(),
    ensures
        spec_apply_log(maps, apps, dim, log).len() == maps.len(),
    decreases log.len(),
{
    if log.len() > 0 {
        lemma_apply_log_len(maps, apps, dim, log.drop_last());
        let prev = spec_apply_log(maps, apps, dim, log.drop_last());
        let t = select_target(prev, apps, log.last().1);
        crate::holder::lemma_select_owner_range(prev, log.last().1);
        crate::holder::lemma_last_appendable_range(apps);
        if !(t == -1 || action_bad_input(log.last().2, dim)) {
            assert(0 <= t < prev.len());
            assert(spec_apply_log(maps, apps, dim, log) == prev.update(
                t,
                action_apply(prev[t], log.last().0, log.last().1, log.last().2),
            ));
            assert(prev.update(
                t,
                action_apply(prev[t], log.last().0, log.last().1, log.last().2),
            ).len() == prev.len());
        }
    }
}

/// The version bound survives replaying a log of numbers at most `n2`.
pub proof fn lemma_versions_le_log(
    maps: Seq<Map<u64, PointSnap>>,
    apps: Seq<bool>,
    dim: int,
    log: Seq<(u64, u64, ActionSnap)>,
    n2: u64,
)
    requires
        apps.len() == maps.len(),
        maps_versions_le(maps, n2),
        forall|k: int| 0 <= k < log.len() ==> (#[trigger] log[k]).0 <= n2,
    ensures
        maps_versions_le(spec_apply_log(maps, apps, dim, log), n2),
    decreases log.len(),
{
    if log.len() > 0 {
        assert(forall|k: int|
            0 <= k < log.drop_last().len() ==> #[trigger] log.drop_last()[k] == log[k]);
        lemma_versions_le_log(maps, apps, dim, log.drop_last(), n2);
        lemma_apply_log_len(maps, apps, dim, log.drop_last());
        lemma_versions_le_step(
            spec_apply_log(maps, apps, dim, log.drop_last()),
            apps,
            dim,
            log.last().0,
            log.last().1,
            log.last().2,
            n2,
        );
    }
}

/// After replaying a prefix, every routed mutation of that prefix is a
/// no-op on the result.
pub proof fn lemma_log_prefix_noops(
    maps0: Seq<Map<u64, PointSnap>>,
    apps: Seq<bool>,
    dim: int,
    log: Seq<(u64, u64, ActionSnap)>,
    j: int,
)
    requires
        apps.len() == maps0.len(),
        log_nums_nondec(log),
        log.len() > 0 ==> maps_versions_le(maps0, (log[0]).0),
        0 <= j <= log.len(),
    ensures
        forall|k: int|
            0 <= k < j ==> spec_apply_point(
                spec_apply_log(maps0, apps, dim, log.take(j)),
                apps,
                dim,
                (#[trigger] log[k]).0,
                log[k].1,
                log[k].2,
            ) == spec_apply_log(maps0, apps, dim, log.take(j)),
    decreases j,
{
    if j > 0 {
        lemma_log_prefix_noops(maps0, apps, dim, log, j - 1);
        let prev = spec_apply_log(maps0, apps, dim, log.take(j - 1));
        let cur = spec_apply_log(maps0, apps, dim, log.take(j));
        assert(log.take(j).drop_last() =~= log.take(j - 1));
        assert(log.take(j).last() == log[j - 1]);
        assert(cur == spec_apply_point(prev, apps, dim, log[j - 1].0, log[j - 1].1, log[j - 1].2));
        lemma_apply_log_len(maps0, apps, dim, log.take(j - 1));
        assert(maps_versions_le(prev, (log[j - 1]).0)) by {
            assert(forall|k: int|
                0 <= k < log.take(j - 1).len() ==> (#[trigger] log.take(j - 1)[k]).0 <= (log[j
                    - 1]).0);
            assert(maps_versions_le(maps0, (log[j - 1]).0)) by {
                assert((log[0]).0 <= (log[j - 1]).0);
            }
            lemma_versions_le_log(maps0, apps, dim, log.take(j - 1), (log[j - 1]).0);
        }
        assert forall|k: int| 0 <= k < j implies spec_apply_point(
            cur,
            apps,
            dim,
            (#[trigger] log[k]).0,
            log[k].1,
            log[k].2,
        ) == cur by {
            if k == j - 1 {
                lemma_point_noop_post(prev, apps, dim, log[j - 1].0, log[j - 1].1, log[j - 1].2);
            } else {
                assert(spec_apply_point(prev, apps, dim, log[k].0, log[k].1, log[k].2) == prev);
                assert((log[k]).0 <= (log[j - 1]).0);
                lemma_point_noop_stable(
                    prev,
                    apps,
                    dim,
                    log[k].0,
                    log[k].1,
                    log[k].2,
                    log[j - 1].0,
                    log[j - 1].1,
                    log[j - 1].2,
                );
            }
        }
    }
}

/// Replaying a list of routed no-ops changes nothing.
pub proof fn lemma_log_noops(
    maps: Seq<Map<u64, PointSnap>>,
    apps: Seq<bool>,
    dim: int,
    log: Seq<(u64, u64, ActionSnap)>,
)
    requires
        forall|k: int|
            0 <= k < log.len() ==> spec_apply_point(
                maps,
                apps,
                dim,
                (#[trigger] log[k]).0,
                log[k].1,
                log[k].2,
            ) == maps,
    ensures
        spec_apply_log(maps, apps, dim, log) == maps,
    decreases log.len(),
{
    if log.len() > 0 {
        assert(forall|k: int|
            0 <= k < log.drop_last().len() ==> #[trigger] log.drop_last()[k] == log[k]);
        lemma_log_noops(maps, apps, dim, log.drop_last());
    }
}

/// The fold distributes over concatenation.
pub proof fn lemma_apply_log_split(
    maps: Seq<Map<u64, PointSnap>>,
    apps: Seq<bool>,
    dim: int,
    a: Seq<(u64, u64, ActionSnap)>,
    b: Seq<(u64, u64, ActionSnap)>,
)
    ensures
        spec_apply_log(maps, apps, dim, a + b) == spec_apply_log(
            spec_apply_log(maps, apps, dim, a),
            apps,
            dim,
            b,
        ),
    decreases b.len(),
{
    if b.len() == 0 {
        assert(a + b =~= a);
    } else {
        lemma_apply_log_split(maps, apps, dim, a, b.drop_last());
        assert((a + b).drop_last() =~= a + b.drop_last());
        assert((a + b).last() == b.last());
    }
}

/// Routed replay is idempotent: applying the whole log over a state that
/// already holds any replayed prefix gives exactly the clean replay.
pub proof fn lemma_routed_replay_idempotent(
    maps0: Seq<Map<u64, PointSnap>>,
    apps: Seq<bool>,
    dim: int,
    log: Seq<(u64, u64, ActionSnap)>,
    p: int,
)
    requires
        apps.len() == maps0.len(),
        log_nums_nondec(log),
        log.len() > 0 ==> maps_versions_le(maps0, (log[0]).0),
        0 <= p <= log.len(),
    ensures
        spec_apply_log(spec_apply_log(maps0, apps, dim, log.take(p)), apps, dim, log)
            == spec_apply_log(maps0, apps, dim, log),
{
    let sp = spec_apply_log(maps0, apps, dim, log.take(p));
    lemma_log_prefix_noops(maps0, apps, dim, log, p);
    assert(forall|k: int| 0 <= k < log.take(p).len() ==> #[trigger] log.take(p)[k] == log[k]);
    lemma_log_noops(sp, apps, dim, log.take(p));
    assert(log =~= log.take(p) + log.skip(p));
    lemma_apply_log_split(sp, apps, dim, log.take(p), log.skip(p));
    lemma_apply_log_split(maps0, apps, dim, log.take(p), log.skip(p));
    assert(spec_apply_log(sp, apps, dim, log.take(p)) == sp);
}

/// The routed mutations of one logged operation.
pub open spec fn entry_log(e: WalEntry) -> Seq<(u64, u64, ActionSnap)> {
    op_actions(e.operation).map_values(|p: (u64, ActionSnap)| (e.op_num, p.0, p.1))
}

/// The routed mutations of a whole log, in order.
pub open spec fn wal_log(entries: Seq<WalEntry>) -> Seq<(u64, u64, ActionSnap)>
    decreases entries.len(),
{
    if entries.len() == 0 {
        Seq::empty()
    } else {
        wal_log(entries.drop_last()) + entry_log(entries.last())
    }
}

/// Entry numbers strictly increase along the WAL.
pub open spec fn entries_increasing(entries: Seq<WalEntry>) -> bool {
    forall|i: int, j: int|
        0 <= i < j < entries.len() ==> (#[trigger] entries[i]).op_num
            < (#[trigger] entries[j]).op_num
}

/// Applying one operation's actions is replaying its routed log.
pub proof fn lemma_actions_as_log(
    maps: Seq<Map<u64, PointSnap>>,
    apps: Seq<bool>,
    dim: int,
    n: u64,
    acts: Seq<(u64, ActionSnap)>,
)
    ensures
        spec_apply_actions(maps, apps, dim, n, acts) == spec_apply_log(
            maps,
            apps,
            dim,
            acts.map_values(|p: (u64, ActionSnap)| (n, p.0, p.1)),
        ),
    decreases acts.len(),
{
    let log = acts.map_values(|p: (u64, ActionSnap)| (n, p.0, p.1));
    if acts.len() > 0 {
        lemma_actions_as_log(maps, apps, dim, n, acts.drop_last());
        assert(log.drop_last() =~= acts.drop_last().map_values(
            |p: (u64, ActionSnap)| (n, p.0, p.1),
        ));
        assert(log.last() == (n, acts.last().0, acts.last().1));
    } else {
        assert(log =~= Seq::<(u64, u64, ActionSnap)>::empty());
    }
}

/// The shard's replay is the routed replay of the flattened log.
pub proof fn lemma_replay_as_log(
    maps: Seq<Map<u64, PointSnap>>,
    apps: Seq<bool>,
    dim: int,
    entries: Seq<WalEntry>,
)
    ensures
        spec_replay(maps, apps, dim, entries) == spec_apply_log(maps, apps, dim, wal_log(entries)),
    decreases entries.len(),
{
    if entries.len() > 0 {
        lemma_replay_as_log(maps, apps, dim, entries.drop_last());
        lemma_apply_log_split(maps, apps, dim, wal_log(entries.drop_last()), entry_log(
            entries.last(),
        ));
        lemma_actions_as_log(
            spec_replay(maps, apps, dim, entries.drop_last()),
            apps,
            dim,
            entries.last().op_num,
            op_actions(entries.last().operation),
        );
        assert(entry_log(entries.last()) == op_actions(entries.last().operation).map_values(
            |p: (u64, ActionSnap)| (entries.last().op_num, p.0, p.1),
        ));
    }
}

/// The flattened log splits where the WAL does.
pub proof fn lemma_wal_log_concat(a: Seq<WalEntry>, b: Seq<WalEntry>)
    ensures
        wal_log(a + b) == wal_log(a) + wal_log(b),
    decreases b.len(),
{
    if b.len() == 0 {
        assert(a + b =~= a);
        assert(wal_log(a) + wal_log(b) =~= wal_log(a));
    } else {
        lemma_wal_log_concat(a, b.drop_last());
        assert((a + b).drop_last() =~= a + b.drop_last());
        assert((a + b).last() == b.last());
        assert(wal_log(a) + wal_log(b.drop_last()) + entry_log(b.last()) =~= wal_log(a) + (wal_log(
            b.drop_last(),
        ) + entry_log(b.last())));
    }
}

/// Numbers along the flattened log never decrease and stay within the
/// first and last entry numbers.
pub proof fn lemma_wal_log_nums(entries: Seq<WalEntry>)
    requires
        entries_increasing(entries),
    ensures
        log_nums_nondec(wal_log(entries)),
        entries.len() > 0 ==> forall|k: int|
            0 <= k < wal_log(entries).len() ==> entries[0].op_num
                <= (#[trigger] wal_log(entries)[k]).0 <= entries.last().op_num,
    decreases entries.len(),
{
    if entries.len() > 0 {
        assert(forall|i: int, j: int|
            0 <= i < j < entries.drop_last().len() ==> (#[trigger] entries.drop_last()[i]).op_num
                < (#[trigger] entries.drop_last()[j]).op_num);
        lemma_wal_log_nums(entries.drop_last());
        let d = wal_log(entries.drop_last());
        let e = entry_log(entries.last());
        assert(wal_log(entries) == d + e);
        assert(forall|k: int| 0 <= k < e.len() ==> (#[trigger] e[k]).0 == entries.last().op_num);
        if entries.len() > 1 {
            assert(entries.drop_last()[0] == entries[0]);
            assert(entries.drop_last().last() == entries[entries.len() - 2]);
            assert(entries[entries.len() - 2].op_num < entries.last().op_num);
        }
        assert forall|i: int, j: int| 0 <= i < j < wal_log(entries).len() implies (
        #[trigger] wal_log(entries)[i]).0 <= (#[trigger] wal_log(entries)[j]).0 by {
            if i < d.len() && j < d.len() {
                assert(wal_log(entries)[i] == d[i] && wal_log(entries)[j] == d[j]);
            } else if i < d.len() {
                assert(wal_log(entries)[i] == d[i]);
                assert(wal_log(entries)[j] == e[j - d.len()]);
            } else {
                assert(wal_log(entries)[i] == e[i - d.len()]);
                assert(wal_log(entries)[j] == e[j - d.len()]);
            }
        }
        assert forall|k: int| 0 <= k < wal_log(entries).len() implies entries[0].op_num
            <= (#[trigger] wal_log(entries)[k]).0 <= entries.last().op_num by {
            if k < d.len() {
                assert(wal_log(entries)[k] == d[k]);
            } else {
                assert(wal_log(entries)[k] == e[k - d.len()]);
                if entries.len() > 1 {
                    assert(entries[0].op_num < entries.last().op_num);
                }
            }
        }
    }
}

/// Replaying the WAL twice from any prefix yields the same segment state as
/// one clean replay, under the shard's own per-point routing: every
/// already-applied operation hits the version guard of the copy it had
/// written.
pub proof fn lemma_shard_replay_idempotent(
    maps0: Seq<Map<u64, PointSnap>>,
    apps: Seq<bool>,
    dim: int,
    entries: Seq<WalEntry>,
    p: int,
)
    requires
        apps.len() == maps0.len(),
        entries_increasing(entries),
        entries.len() > 0 ==> maps_versions_le(maps0, entries[0].op_num),
        0 <= p <= entries.len(),
    ensures
        spec_replay(spec_replay(maps0, apps, dim, entries.take(p)), apps, dim, entries)
            == spec_replay(maps0, apps, dim, entries),
{
    let sp = spec_replay(maps0, apps, dim, entries.take(p));
    let log = wal_log(entries);
    let plog = wal_log(entries.take(p));
    assert(entries =~= entries.take(p) + entries.skip(p));
    lemma_wal_log_concat(entries.take(p), entries.skip(p));
    assert(log == plog + wal_log(entries.skip(p)));
    let q = plog.len() as int;
    assert(log.take(q) =~= plog);
    lemma_replay_as_log(maps0, apps, dim, entries.take(p));
    lemma_replay_as_log(maps0, apps, dim, entries);
    lemma_replay_as_log(sp, apps, dim, entries);
    lemma_wal_log_nums(entries);
    assert(log.len() > 0 ==> maps_versions_le(maps0, (log[0]).0)) by {
        if log.len() > 0 {
            assert(entries.len() > 0);
            assert(entries[0].op_num <= (log[0]).0);
        }
    }
    lemma_routed_replay_idempotent(maps0, apps, dim, log, q);
    assert(sp == spec_apply_log(maps0, apps, dim, log.take(q)));
}

/// Every stored version after a routed replay is either the copy's base
/// version, untouched, or the number of a logged mutation of that id.
pub proof fn lemma_routed_version_from_log(
    maps0: Seq<Map<u64, PointSnap>>,
    apps: Seq<bool>,
    dim: int,
    log: Seq<(u64, u64, ActionSnap)>,
    t: int,
    x: u64,
)
    requires
        apps.len() == maps0.len(),
    ensures
        ({
            let r = spec_apply_log(maps0, apps, dim, log);
            0 <= t < r.len() && r[t].contains_key(x) ==> (maps0[t].contains_key(x) && r[t][x]
                == maps0[t][x]) || (exists|k: int|
                0 <= k < log.len() && (#[trigger] log[k]).1 == x && (log[k]).0 == r[t][x].version)
        }),
    decreases log.len(),
{
    let r = spec_apply_log(maps0, apps, dim, log);
    if log.len() > 0 {
        lemma_routed_version_from_log(maps0, apps, dim, log.drop_last(), t, x);
        let prev = spec_apply_log(maps0, apps, dim, log.drop_last());
        lemma_apply_log_len(maps0, apps, dim, log.drop_last());
        lemma_apply_log_len(maps0, apps, dim, log);
        let n = log.last().0;
        let id = log.last().1;
        let a = log.last().2;
        let tt = select_target(prev, apps, id);
        crate::holder::lemma_select_owner_range(prev, id);
        crate::holder::lemma_last_appendable_range(apps);
        if 0 <= t < r.len() && r[t].contains_key(x) {
            if tt == -1 || action_bad_input(a, dim) {
                assert(r == prev);
            } else {
                assert(r =~= prev.update(tt, action_apply(prev[tt], n, id, a)));
                if t == tt && x == id {
                    if r[t][x].version == n {
                        assert((log[log.len() - 1]).1 == x && (log[log.len() - 1]).0
                            == r[t][x].version);
                    } else {
                        assert(prev[t].contains_key(x) && r[t][x] == prev[t][x]) by {
                            if !(prev[t].contains_key(x) && action_apply(prev[t], n, id, a)[x]
                                == prev[t][x]) {
                                assert(action_apply(prev[t], n, id, a)[x].version == n);
                            }
                        }
                    }
                } else {
                    if t == tt {
                        lemma_action_frame(prev[tt], n, id, a, x);
                    }
                    assert(prev[t].contains_key(x) && r[t][x] == prev[t][x]);
                }
            }
            if !(exists|k: int|
                0 <= k < log.len() && (#[trigger] log[k]).1 == x && (log[k]).0
                    == r[t][x].version) && !(maps0[t].contains_key(x) && r[t][x] == maps0[t][x]) {
                assert(prev[t].contains_key(x) && r[t][x] == prev[t][x]);
                assert(exists|k: int|
                    0 <= k < log.drop_last().len() && (#[trigger] log.drop_last()[k]).1 == x && (
                    log.drop_last()[k]).0 == prev[t][x].version);
                let k = choose|k: int|
                    0 <= k < log.drop_last().len() && (#[trigger] log.drop_last()[k]).1 == x && (
                    log.drop_last()[k]).0 == prev[t][x].version;
                assert((log[k]).1 == x && (log[k]).0 == r[t][x].version);
                assert(false);
            }
        }
    }
}

/// The version law at the shard: after replaying a strictly increasing WAL
/// over segments, every stored version either survives unchanged from the
/// base segments or is the number of a logged mutation of that id, and then
/// lies at or below the last operation number: no point outruns the WAL
/// head.
pub proof fn lemma_shard_version_from_log(
    maps0: Seq<Map<u64, PointSnap>>,
    apps: Seq<bool>,
    dim: int,
    entries: Seq<WalEntry>,
    t: int,
    x: u64,
)
    requires
        apps.len() == maps0.len(),
        entries_increasing(entries),
        entries.len() > 0,
    ensures
        ({
            let r = spec_replay(maps0, apps, dim, entries);
            0 <= t < r.len() && r[t].contains_key(x) ==> (maps0[t].contains_key(x) && r[t][x]
                == maps0[t][x]) || (exists|k: int|
                0 <= k < wal_log(entries).len() && (#[trigger] wal_log(entries)[k]).1 == x && (
                wal_log(entries)[k]).0 == r[t][x].version) && entries[0].op_num <= r[t][x].version
                <= entries.last().op_num
        }),
{
    lemma_replay_as_log(maps0, apps, dim, entries);
    lemma_routed_version_from_log(maps0, apps, dim, wal_log(entries), t, x);
    lemma_wal_log_nums(entries);
    let r = spec_replay(maps0, apps, dim, entries);
    if 0 <= t < r.len() && r[t].contains_key(x) {
        if !(maps0[t].contains_key(x) && r[t][x] == maps0[t][x]) {
            let k = choose|k: int|
                0 <= k < wal_log(entries).len() && (#[trigger] wal_log(entries)[k]).1 == x && (
                wal_log(entries)[k]).0 == r[t][x].version;
            assert(entries[0].op_num <= (wal_log(entries)[k]).0 <= entries.last().op_num);
        }
    }
}

} // verus!
