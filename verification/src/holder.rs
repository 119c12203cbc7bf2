//! The mutable set of segments of one shard: concurrent read handles,
//! exclusive mutation, per-point routing of writes, and atomic swaps for the
//! optimizer handoff.

use vstd::prelude::*;

use crate::locked_segment::{
    write_bad_input, write_not_found, write_snap, LockedSegment, PointWrite, ProxySegment,
};
use crate::segment::{
    bounded_vec, clear_payload_snap, delete_payload_snap, delete_snap, set_payload_snap,
    upsert_snap, Segment,
};
use crate::types::payload_view;
use crate::types::{
    CollectionError, CollectionUpdateOperations, PayloadSnap, PointSnap, PointStruct, SegmentType,
    MAX_DIM,
};

verus! {

/// One point mutation at the ghost level: what an operation asks for one id.
#[verifier::ext_equal]
pub ghost enum ActionSnap {
    Upsert { vector: Seq<i64>, payload: Seq<PayloadSnap> },
    Delete,
    SetPayload { key: Seq<char>, values: Seq<Seq<char>> },
    DeletePayload { key: Seq<char> },
    Clear,
}

/// Effect of one ghost action on an id-keyed image.
pub open spec fn action_apply(
    m: Map<u64, PointSnap>,
    op_num: u64,
    id: u64,
    a: ActionSnap,
) -> Map<u64, PointSnap> {
    match a {
        ActionSnap::Upsert { vector, payload } => upsert_snap(m, op_num, id, vector, payload),
        ActionSnap::Delete => delete_snap(m, op_num, id),
        ActionSnap::SetPayload { key, values } => set_payload_snap(m, op_num, id, key, values),
        ActionSnap::DeletePayload { key } => delete_payload_snap(m, op_num, id, key),
        ActionSnap::Clear => clear_payload_snap(m, op_num, id),
    }
}

pub open spec fn action_bad_input(a: ActionSnap, dim: int) -> bool {
    match a {
        ActionSnap::Upsert { vector, .. } => vector.len() != dim || !bounded_vec(vector),
        _ => false,
    }
}

pub open spec fn action_not_found(m: Map<u64, PointSnap>, id: u64, a: ActionSnap) -> bool {
    match a {
        ActionSnap::SetPayload { .. } | ActionSnap::DeletePayload { .. } | ActionSnap::Clear => !(
        m.contains_key(id) && !m[id].deleted),
        _ => false,
    }
}

/// The slot owning `id`: the one holding the highest version of it, the
/// earliest on a tie; `-1` when no slot stores the id.
pub open spec fn select_owner(maps: Seq<Map<u64, PointSnap>>, id: u64) -> int
    decreases maps.len(),
{
    if maps.len() == 0 {
        -1
    } else {
        let rest = select_owner(maps.drop_last(), id);
        if !maps.last().contains_key(id) {
            rest
        } else if rest == -1 {
            maps.len() - 1
        } else if maps[rest][id].version >= maps.last()[id].version {
            rest
        } else {
            maps.len() - 1
        }
    }
}

/// The newest appendable slot; `-1` when none accepts new ids.
pub open spec fn last_appendable(apps: Seq<bool>) -> int
    decreases apps.len(),
{
    if apps.len() == 0 {
        -1
    } else if apps.last() {
        apps.len() - 1
    } else {
        last_appendable(apps.drop_last())
    }
}

/// Where a write to `id` is routed: its owner, else the newest appendable
/// slot.
pub open spec fn select_target(maps: Seq<Map<u64, PointSnap>>, apps: Seq<bool>, id: u64) -> int {
    let own = select_owner(maps, id);
    if own >= 0 {
        own
    } else {
        last_appendable(apps)
    }
}

pub proof fn lemma_select_owner_range(maps: Seq<Map<u64, PointSnap>>, id: u64)
    ensures
        -1 <= select_owner(maps, id) < maps.len(),
        select_owner(maps, id) >= 0 ==> maps[select_owner(maps, id)].contains_key(id),
    decreases maps.len(),
{
    if maps.len() > 0 {
        lemma_select_owner_range(maps.drop_last(), id);
        if select_owner(maps, id) >= 0 && select_owner(maps, id) < maps.len() - 1 {
            assert(maps.drop_last()[select_owner(maps, id)] == maps[select_owner(maps, id)]);
        }
    }
}

pub proof fn lemma_last_appendable_range(apps: Seq<bool>)
    ensures
        -1 <= last_appendable(apps) < apps.len(),
        last_appendable(apps) >= 0 ==> apps[last_appendable(apps)],
    decreases apps.len(),
{
    if apps.len() > 0 {
        lemma_last_appendable_range(apps.drop_last());
        if !apps.last() && last_appendable(apps) >= 0 {
            assert(apps.drop_last()[last_appendable(apps)] == apps[last_appendable(apps)]);
        }
    }
}

/// Routing one ghost action across the slots.
pub open spec fn spec_apply_point(
    maps: Seq<Map<u64, PointSnap>>,
    apps: Seq<bool>,
    dim: int,
    op_num: u64,
    id: u64,
    a: ActionSnap,
) -> Seq<Map<u64, PointSnap>> {
    let t = select_target(maps, apps, id);
    if t == -1 || action_bad_input(a, dim) {
        maps
    } else {
        maps.update(t, action_apply(maps[t], op_num, id, a))
    }
}

/// Whether routing one ghost action records a failure.
pub open spec fn spec_point_fails(
    maps: Seq<Map<u64, PointSnap>>,
    apps: Seq<bool>,
    dim: int,
    id: u64,
    a: ActionSnap,
) -> bool {
    let t = select_target(maps, apps, id);
    t == -1 || action_bad_input(a, dim) || action_not_found(maps[t], id, a)
}

/// The ghost actions one operation performs, in order.
pub open spec fn op_actions(op: CollectionUpdateOperations) -> Seq<(u64, ActionSnap)> {
    match op {
        CollectionUpdateOperations::UpsertPoints { points } => points@.map_values(
            |p: PointStruct|
                (
                    p.id,
                    ActionSnap::Upsert { vector: p.vector@, payload: payload_view(p.payload@) },
                ),
        ),
        CollectionUpdateOperations::DeletePoints { ids } => ids@.map_values(
            |id: u64| (id, ActionSnap::Delete),
        ),
        CollectionUpdateOperations::SetPayload { ids, key, values } => ids@.map_values(
            |id: u64| (id, ActionSnap::SetPayload { key: key@, values: values.deep_view() }),
        ),
        CollectionUpdateOperations::DeletePayload { ids, key } => ids@.map_values(
            |id: u64| (id, ActionSnap::DeletePayload { key: key@ }),
        ),
        CollectionUpdateOperations::ClearPayload { ids } => ids@.map_values(
            |id: u64| (id, ActionSnap::Clear),
        ),
        CollectionUpdateOperations::CreateFieldIndex { .. } => Seq::empty(),
        CollectionUpdateOperations::DropFieldIndex { .. } => Seq::empty(),
    }
}

/// Routing a whole list of ghost actions, in order.
pub open spec fn spec_apply_actions(
    maps: Seq<Map<u64, PointSnap>>,
    apps: Seq<bool>,
    dim: int,
    op_num: u64,
    acts: Seq<(u64, ActionSnap)>,
) -> Seq<Map<u64, PointSnap>>
    decreases acts.len(),
{
    if acts.len() == 0 {
        maps
    } else {
        let prev = spec_apply_actions(maps, apps, dim, op_num, acts.drop_last());
        spec_apply_point(prev, apps, dim, op_num, acts.last().0, acts.last().1)
    }
}

/// Whether any action of the list records a failure.
pub open spec fn spec_actions_any_fail(
    maps: Seq<Map<u64, PointSnap>>,
    apps: Seq<bool>,
    dim: int,
    op_num: u64,
    acts: Seq<(u64, ActionSnap)>,
) -> bool
    decreases acts.len(),
{
    if acts.len() == 0 {
        false
    } else {
        spec_actions_any_fail(maps, apps, dim, op_num, acts.drop_last()) || spec_point_fails(
            spec_apply_actions(maps, apps, dim, op_num, acts.drop_last()),
            apps,
            dim,
            acts.last().0,
            acts.last().1,
        )
    }
}

/// The container of all segments of one shard.
pub struct SegmentHolder {
    pub dim: usize,
    pub segments: Vec<(u64, LockedSegment)>,
    pub next_id: u64,
    pub failed_operations: Vec<u64>,
    pub optimizer_error: Option<String>,
}

impl SegmentHolder {
    pub open spec fn wf(self) -> bool {
        &&& self.dim <= MAX_DIM
        &&& forall|i: int|
            0 <= i < self.segments@.len() ==> (#[trigger] self.segments@[i]).1.wf()
                && self.segments@[i].1.dim() == self.dim
        &&& forall|i: int, j: int|
            0 <= i < j < self.segments@.len() ==> self.segments@[i].0 != self.segments@[j].0
        &&& forall|i: int|
            0 <= i < self.segments@.len() ==> (#[trigger] self.segments@[i]).0 < self.next_id
    }

    /// The visible image of each slot, in slot order.
    pub open spec fn maps(self) -> Seq<Map<u64, PointSnap>> {
        self.segments@.map_values(|p: (u64, LockedSegment)| p.1.visible())
    }

    /// Which slots accept new ids, in slot order.
    pub open spec fn apps(self) -> Seq<bool> {
        self.segments@.map_values(|p: (u64, LockedSegment)| p.1.is_appendable())
    }

    /// The index schema of each slot, in slot order.
    pub open spec fn slot_schemas(self) -> Seq<Seq<Seq<char>>> {
        self.segments@.map_values(|p: (u64, LockedSegment)| p.1.slot_schema())
    }

    /// The slot ids, in slot order.
    pub open spec fn ids(self) -> Seq<u64> {
        self.segments@.map_values(|p: (u64, LockedSegment)| p.0)
    }

    pub fn new(dim: usize) -> (r: SegmentHolder)
        requires
            dim <= MAX_DIM,
        ensures
            r.wf(),
            r.dim == dim,
            r.segments@.len() == 0,
            r.next_id == 0,
            r.failed_operations@.len() == 0,
            r.optimizer_error is None,
    {
        SegmentHolder {
            dim,
            segments: Vec::new(),
            next_id: 0,
            failed_operations: Vec::new(),
            optimizer_error: Option::None,
        }
    }

    /// Inserts a segment under a fresh id; returns the id.
    pub fn add(&mut self, segment: Segment) -> (sid: u64)
        requires
            old(self).wf(),
            segment.wf(),
            segment.dim == old(self).dim,
            old(self).next_id < 0xffff_ffff_ffff_ffff,
        ensures
            final(self).wf(),
            final(self).dim == old(self).dim,
            sid == old(self).next_id,
            final(self).next_id == old(self).next_id + 1,
            final(self).segments@ == old(self).segments@.push(
                (sid, LockedSegment::Original(segment)),
            ),
            final(self).failed_operations == old(self).failed_operations,
            final(self).optimizer_error == old(self).optimizer_error,
    {
        let sid = self.next_id;
        self.segments.push((sid, LockedSegment::Original(segment)));
        self.next_id = sid + 1;
        sid
    }

    /// How many segments the holder currently has.
    pub fn segment_count(&self) -> (r: usize)
        ensures
            r == self.segments@.len(),
    {
        self.segments.len()
    }

    fn find_slot(&self, sid: u64) -> (r: Option<usize>)
        ensures
            match r {
                Option::Some(i) => i < self.segments@.len() && self.segments@[i as int].0 == sid,
                Option::None => forall|w: int|
                    0 <= w < self.segments@.len() ==> (#[trigger] self.segments@[w]).0 != sid,
            },
    {
        let mut i: usize = 0;
        while i < self.segments.len()
            invariant
                i <= self.segments@.len(),
                forall|w: int| 0 <= w < i ==> (#[trigger] self.segments@[w]).0 != sid,
            decreases self.segments@.len() - i,
        {
            if self.segments[i].0 == sid {
                return Option::Some(i);
            }
            i = i + 1;
        }
        Option::None
    }

    /// Shared access to the segment under `sid`; `NotFound` for an unknown id.
    pub fn get(&self, sid: u64) -> (r: Result<&LockedSegment, CollectionError>)
        ensures
            match r {
                Ok(seg) => exists|i: int|
                    0 <= i < self.segments@.len() && (#[trigger] self.segments@[i]).0 == sid
                        && self.segments@[i].1 == *seg,
                Err(e) => e == CollectionError::NotFound && forall|w: int|
                    0 <= w < self.segments@.len() ==> (#[trigger] self.segments@[w]).0 != sid,
            },
    {
        match self.find_slot(sid) {
            Option::Some(i) => Ok(&self.segments[i].1),
            Option::None => Err(CollectionError::NotFound),
        }
    }

    /// Atomically removes the segments under `old_ids` and inserts
    /// `new_segment` under a fresh id; the swap is one exclusive step, so no
    /// reader ever sees both the old and the new segments.
    pub fn swap(&mut self, old_ids: &Vec<u64>, new_segment: Segment) -> (sid: u64)
        requires
            old(self).wf(),
            new_segment.wf(),
            new_segment.dim == old(self).dim,
            old(self).next_id < 0xffff_ffff_ffff_ffff,
        ensures
            final(self).wf(),
            final(self).dim == old(self).dim,
            sid == old(self).next_id,
            final(self).segments@.len() > 0,
            final(self).segments@.last() == (sid, LockedSegment::Original(new_segment)),
            // every kept slot is an untouched old slot whose id was not removed
            forall|k: int|
                0 <= k < final(self).segments@.len() - 1 ==> old(self).segments@.contains(
                    #[trigger] final(self).segments@[k],
                ) && !old_ids@.contains(final(self).segments@[k].0),
            // every old slot not named in `old_ids` is kept
            forall|w: int|
                0 <= w < old(self).segments@.len() && !old_ids@.contains(
                    (#[trigger] old(self).segments@[w]).0,
                ) ==> final(self).segments@.contains(old(self).segments@[w]),
            // no removed id survives
            forall|w: int|
                0 <= w < final(self).segments@.len() ==> !old_ids@.contains(
                    (#[trigger] final(self).segments@[w]).0,
                ) || final(self).segments@[w].0 == sid,
            final(self).failed_operations == old(self).failed_operations,
            final(self).optimizer_error == old(self).optimizer_error,
    {
        let ghost pre = self.segments@;
        let mut kept: Vec<(u64, LockedSegment)> = Vec::new();
        while self.segments.len() > 0
            invariant
                self.wf(),
                self.dim == old(self).dim,
                self.next_id == old(self).next_id,
                self.failed_operations == old(self).failed_operations,
                self.optimizer_error == old(self).optimizer_error,
                forall|k: int|
                    0 <= k < kept@.len() ==> pre.contains(#[trigger] kept@[k]) && !old_ids@.contains(
                        kept@[k].0,
                    ),
                forall|k1: int, k2: int|
                    0 <= k1 < k2 < kept@.len() ==> kept@[k1].0 != kept@[k2].0,
                forall|k: int|
                    0 <= k < kept@.len() ==> (#[trigger] kept@[k]).1.wf() && kept@[k].1.dim()
                        == self.dim && kept@[k].0 < self.next_id,
                forall|w: int|
                    0 <= w < pre.len() && !old_ids@.contains((#[trigger] pre[w]).0) ==> (
                    self.segments@.contains(pre[w]) || kept@.contains(pre[w])),
                forall|w: int|
                    0 <= w < self.segments@.len() ==> pre.contains(#[trigger] self.segments@[w]),
                forall|w1: int, w2: int|
                    0 <= w1 < w2 < self.segments@.len() ==> self.segments@[w1].0
                        != self.segments@[w2].0,
                forall|k: int, w: int|
                    0 <= k < kept@.len() && 0 <= w < self.segments@.len() ==> kept@[k].0
                        != self.segments@[w].0,
            decreases self.segments@.len(),
        {
            let ghost cur = self.segments@;
            let last = self.segments.pop().unwrap();
            proof {
                assert(cur.last() == last);
                assert(cur.contains(last)) by {
                    assert(cur[cur.len() - 1] == last);
                }
                assert(pre.contains(last));
            }
            let mut removed = false;
            let mut oi: usize = 0;
            while oi < old_ids.len()
                invariant
                    oi <= old_ids@.len(),
                    removed ==> old_ids@.contains(last.0),
                    !removed ==> forall|w: int| 0 <= w < oi ==> old_ids@[w] != last.0,
                decreases old_ids@.len() - oi,
            {
                if old_ids[oi] == last.0 {
                    removed = true;
                }
                oi = oi + 1;
            }
            if !removed {
                proof {
                    assert(!old_ids@.contains(last.0)) by {
                        if old_ids@.contains(last.0) {
                            let w = choose|w: int|
                                0 <= w < old_ids@.len() && old_ids@[w] == last.0;
                        }
                    }
                }
                let ghost kpre = kept@;
                kept.push(last);
                proof {
                    assert forall|w: int|
                        0 <= w < pre.len() && !old_ids@.contains((#[trigger] pre[w]).0) implies (
                    self.segments@.contains(pre[w]) || kept@.contains(pre[w])) by {
                        if cur.contains(pre[w]) {
                            let u = choose|u: int| 0 <= u < cur.len() && cur[u] == pre[w];
                            if u < cur.len() - 1 {
                                assert(self.segments@[u] == pre[w]);
                                assert(self.segments@.contains(pre[w]));
                            } else {
                                assert(kept@[kept@.len() - 1] == pre[w]);
                            }
                        } else if kpre.contains(pre[w]) {
                            let u = choose|u: int| 0 <= u < kpre.len() && kpre[u] == pre[w];
                            assert(kept@[u] == pre[w]);
                        }
                    }
                }
            } else {
                proof {
                    assert forall|w: int|
                        0 <= w < pre.len() && !old_ids@.contains((#[trigger] pre[w]).0) implies (
                    self.segments@.contains(pre[w]) || kept@.contains(pre[w])) by {
                        if cur.contains(pre[w]) {
                            let u = choose|u: int| 0 <= u < cur.len() && cur[u] == pre[w];
                            if u < cur.len() - 1 {
                                assert(self.segments@[u] == pre[w]);
                            } else {
                                assert(pre[w] == last);
                                assert(false);
                            }
                        }
                    }
                }
            }
        }
        let sid = self.next_id;
        let ghost kfin = kept@;
        kept.push((sid, LockedSegment::Original(new_segment)));
        self.segments = kept;
        self.next_id = sid + 1;
        proof {
            assert forall|w: int|
                0 <= w < pre.len() && !old_ids@.contains((#[trigger] pre[w]).0) implies
                self.segments@.contains(pre[w]) by {
                assert(kfin.contains(pre[w]));
                let u = choose|u: int| 0 <= u < kfin.len() && kfin[u] == pre[w];
                assert(self.segments@[u] == pre[w]);
            }
        }
        sid
    }
}

/// The ghost action a point mutation stands for.
pub open spec fn write_action(w: PointWrite) -> ActionSnap {
    match w {
        PointWrite::Upsert(v, p) => ActionSnap::Upsert { vector: v@, payload: payload_view(p@) },
        PointWrite::Delete => ActionSnap::Delete,
        PointWrite::SetPayload(k, vals) => ActionSnap::SetPayload {
            key: k@,
            values: vals.deep_view(),
        },
        PointWrite::DeletePayload(k) => ActionSnap::DeletePayload { key: k@ },
        PointWrite::ClearPayload => ActionSnap::Clear,
    }
}

impl SegmentHolder {
    fn find_target(&self, id: u64) -> (r: Option<usize>)
        requires
            self.wf(),
        ensures
            match r {
                Option::Some(t) => t < self.segments@.len() && t as int == select_target(
                    self.maps(),
                    self.apps(),
                    id,
                ),
                Option::None => select_target(self.maps(), self.apps(), id) == -1,
            },
    {
        let ghost maps = self.maps();
        let ghost apps = self.apps();
        let mut best: Option<usize> = Option::None;
        let mut best_ver: u64 = 0;
        let mut i: usize = 0;
        while i < self.segments.len()
            invariant
                i <= self.segments@.len(),
                self.wf(),
                maps == self.maps(),
                apps == self.apps(),
                match best {
                    Option::Some(b) => b < i && b as int == select_owner(maps.take(i as int), id)
                        && maps[b as int].contains_key(id) && maps[b as int][id].version
                        == best_ver,
                    Option::None => select_owner(maps.take(i as int), id) == -1,
                },
            decreases self.segments@.len() - i,
        {
            proof {
                assert(maps.take(i + 1).drop_last() =~= maps.take(i as int));
                assert(maps.take(i + 1).last() == maps[i as int]);
                assert(maps[i as int] == self.segments@[i as int].1.visible());
            }
            match self.segments[i].1.point_version(id) {
                Option::Some(v) => {
                    match best {
                        Option::None => {
                            best = Option::Some(i);
                            best_ver = v;
                        },
                        Option::Some(_) => {
                            if v > best_ver {
                                best = Option::Some(i);
                                best_ver = v;
                            }
                        },
                    }
                },
                Option::None => {},
            }
            i = i + 1;
        }
        proof {
            assert(maps.take(maps.len() as int) =~= maps);
        }
        match best {
            Option::Some(t) => Option::Some(t),
            Option::None => {
                let mut app: Option<usize> = Option::None;
                let mut j: usize = 0;
                while j < self.segments.len()
                    invariant
                        j <= self.segments@.len(),
                        self.wf(),
                        apps == self.apps(),
                        match app {
                            Option::Some(a) => a < j && a as int == last_appendable(
                                apps.take(j as int),
                            ),
                            Option::None => last_appendable(apps.take(j as int)) == -1,
                        },
                    decreases self.segments@.len() - j,
                {
                    proof {
                        assert(apps.take(j + 1).drop_last() =~= apps.take(j as int));
                        assert(apps.take(j + 1).last() == apps[j as int]);
                        assert(apps[j as int] == self.segments@[j as int].1.is_appendable());
                    }
                    if self.segments[j].1.appendable() {
                        app = Option::Some(j);
                    }
                    j = j + 1;
                }
                proof {
                    assert(apps.take(apps.len() as int) =~= apps);
                }
                app
            },
        }
    }

    /// Routes one point mutation to the owning segment, or to the newest
    /// appendable one for a fresh id. Returns whether the write failed.
    pub fn apply_point(&mut self, op_num: u64, id: u64, w: &PointWrite) -> (failed: bool)
        requires
            old(self).wf(),
        ensures
            final(self).wf(),
            final(self).dim == old(self).dim,
            final(self).ids() == old(self).ids(),
            final(self).apps() == old(self).apps(),
            final(self).next_id == old(self).next_id,
            final(self).failed_operations == old(self).failed_operations,
            final(self).optimizer_error == old(self).optimizer_error,
            final(self).segments@.len() == old(self).segments@.len(),
            final(self).maps() == spec_apply_point(
                old(self).maps(),
                old(self).apps(),
                old(self).dim as int,
                op_num,
                id,
                write_action(*w),
            ),
            failed == spec_point_fails(
                old(self).maps(),
                old(self).apps(),
                old(self).dim as int,
                id,
                write_action(*w),
            ),
    {
        let ghost maps0 = self.maps();
        let ghost apps0 = self.apps();
        let ghost a = write_action(*w);
        proof {
            lemma_select_owner_range(maps0, id);
            lemma_last_appendable_range(apps0);
        }
        match self.find_target(id) {
            Option::None => {
                proof {
                    assert(spec_apply_point(maps0, apps0, self.dim as int, op_num, id, a) =~= maps0);
                }
                true
            },
            Option::Some(t) => {
                let ghost pre = self.segments@;
                proof {
                    assert(maps0[t as int] == pre[t as int].1.visible());
                    assert(pre[t as int].1.dim() == old(self).dim);
                }
                let mut pair = self.segments.remove(t);
                let res = pair.1.apply_write(op_num, id, w);
                self.segments.insert(t, pair);
                let failed = match res {
                    Ok(_) => false,
                    Err(_) => true,
                };
                proof {
                    assert(self.segments@ =~= pre.update(t as int, (pre[t as int].0, pair.1)));
                    assert(write_snap(maps0[t as int], op_num, id, *w) == action_apply(
                        maps0[t as int],
                        op_num,
                        id,
                        a,
                    ));
                    assert(write_bad_input(*w, old(self).dim as int) == action_bad_input(
                        a,
                        old(self).dim as int,
                    ));
                    assert(write_not_found(maps0[t as int], id, *w) == action_not_found(
                        maps0[t as int],
                        id,
                        a,
                    ));
                    assert(final(self).ids() =~= old(self).ids());
                    assert(final(self).apps() =~= old(self).apps());
                    if write_bad_input(*w, old(self).dim as int) {
                        assert(final(self).maps() =~= maps0);
                        assert(res == Err::<bool, CollectionError>(CollectionError::BadInput));
                        assert(failed);
                    } else {
                        assert(final(self).maps() =~= maps0.update(
                            t as int,
                            action_apply(maps0[t as int], op_num, id, a),
                        ));
                        assert(res == Err::<bool, CollectionError>(CollectionError::NotFound)
                            <==> write_not_found(maps0[t as int], id, *w));
                        assert(res is Err ==> res == Err::<bool, CollectionError>(
                            CollectionError::BadInput,
                        ) || res == Err::<bool, CollectionError>(CollectionError::NotFound));
                        assert(failed == write_not_found(maps0[t as int], id, *w)) by {
                            if res is Err {
                                assert(res == Err::<bool, CollectionError>(
                                    CollectionError::NotFound,
                                ));
                            }
                        }
                    }
                }
                failed
            },
        }
    }
}

/// The key of a schema operation, with `true` for index creation.
pub open spec fn schema_op_key(op: CollectionUpdateOperations) -> Option<(Seq<char>, bool)> {
    match op {
        CollectionUpdateOperations::CreateFieldIndex { key } => Option::Some((key@, true)),
        CollectionUpdateOperations::DropFieldIndex { key } => Option::Some((key@, false)),
        _ => Option::None,
    }
}

impl SegmentHolder {
    fn apply_ids(&mut self, op_num: u64, ids: &Vec<u64>, w: &PointWrite) -> (any_failed: bool)
        requires
            old(self).wf(),
        ensures
            final(self).wf(),
            final(self).dim == old(self).dim,
            final(self).ids() == old(self).ids(),
            final(self).apps() == old(self).apps(),
            final(self).next_id == old(self).next_id,
            final(self).failed_operations == old(self).failed_operations,
            final(self).optimizer_error == old(self).optimizer_error,
            final(self).segments@.len() == old(self).segments@.len(),
            final(self).maps() == spec_apply_actions(
                old(self).maps(),
                old(self).apps(),
                old(self).dim as int,
                op_num,
                ids@.map_values(|id: u64| (id, write_action(*w))),
            ),
            any_failed == spec_actions_any_fail(
                old(self).maps(),
                old(self).apps(),
                old(self).dim as int,
                op_num,
                ids@.map_values(|id: u64| (id, write_action(*w))),
            ),
    {
        let ghost maps0 = self.maps();
        let ghost apps0 = self.apps();
        let ghost dim0 = self.dim as int;
        let ghost acts = ids@.map_values(|id: u64| (id, write_action(*w)));
        let mut any_failed = false;
        let mut i: usize = 0;
        while i < ids.len()
            invariant
                i <= ids@.len(),
                self.wf(),
                self.dim == old(self).dim,
                self.ids() == old(self).ids(),
                self.apps() == old(self).apps(),
                self.next_id == old(self).next_id,
                self.failed_operations == old(self).failed_operations,
                self.optimizer_error == old(self).optimizer_error,
                self.segments@.len() == old(self).segments@.len(),
                maps0 == old(self).maps(),
                apps0 == old(self).apps(),
                dim0 == old(self).dim as int,
                acts == ids@.map_values(|id: u64| (id, write_action(*w))),
                self.maps() == spec_apply_actions(maps0, apps0, dim0, op_num, acts.take(i as int)),
                any_failed == spec_actions_any_fail(
                    maps0,
                    apps0,
                    dim0,
                    op_num,
                    acts.take(i as int),
                ),
            decreases ids@.len() - i,
        {
            proof {
                assert(acts.take(i + 1).drop_last() =~= acts.take(i as int));
                assert(acts.take(i + 1).last() == acts[i as int]);
                assert(acts[i as int] == (ids@[i as int], write_action(*w)));
            }
            let failed = self.apply_point(op_num, ids[i], w);
            if failed {
                any_failed = true;
            }
            i = i + 1;
        }
        proof {
            assert(acts.take(acts.len() as int) =~= acts);
        }
        any_failed
    }

    /// Applies one operation: routes each point mutation, applies schema
    /// changes to every segment, and records the operation number once if
    /// any point failed. Returns whether every point succeeded.
    pub fn apply_operation(&mut self, op_num: u64, op: &CollectionUpdateOperations) -> (success:
        bool)
        requires
            old(self).wf(),
        ensures
            final(self).wf(),
            final(self).dim == old(self).dim,
            final(self).ids() == old(self).ids(),
            final(self).apps() == old(self).apps(),
            final(self).next_id == old(self).next_id,
            final(self).optimizer_error == old(self).optimizer_error,
            final(self).segments@.len() == old(self).segments@.len(),
            final(self).maps() == spec_apply_actions(
                old(self).maps(),
                old(self).apps(),
                old(self).dim as int,
                op_num,
                op_actions(*op),
            ),
            success == !spec_actions_any_fail(
                old(self).maps(),
                old(self).apps(),
                old(self).dim as int,
                op_num,
                op_actions(*op),
            ),
            final(self).failed_operations@ == if success {
                old(self).failed_operations@
            } else {
                old(self).failed_operations@.push(op_num)
            },
            match schema_op_key(*op) {
                Option::Some((key, create)) => forall|t: int|
                    0 <= t < final(self).segments@.len() ==> {
                        let olds = old(self).segments@[t].1;
                        let news = (#[trigger] final(self).segments@[t]).1;
                        &&& (op_num > olds.schema_version() ==> news.schema_version() == op_num
                            && news.slot_schema() == (if create {
                            if crate::segment::schema_has(olds.slot_schema(), key) {
                                olds.slot_schema()
                            } else {
                                olds.slot_schema().push(key)
                            }
                        } else {
                            crate::segment::schema_remove(olds.slot_schema(), key)
                        }))
                        &&& (op_num <= olds.schema_version() ==> news.slot_schema()
                            == olds.slot_schema() && news.schema_version() == olds.schema_version())
                    },
                Option::None => true,
            },
    {
        let ghost maps0 = self.maps();
        let ghost apps0 = self.apps();
        let ghost dim0 = self.dim as int;
        let ghost acts = op_actions(*op);
        let mut any_failed = false;
        match op {
            CollectionUpdateOperations::UpsertPoints { points } => {
                let mut i: usize = 0;
                while i < points.len()
                    invariant
                        i <= points@.len(),
                        self.wf(),
                        self.dim == old(self).dim,
                        self.ids() == old(self).ids(),
                        self.apps() == old(self).apps(),
                        self.next_id == old(self).next_id,
                        self.failed_operations == old(self).failed_operations,
                        self.optimizer_error == old(self).optimizer_error,
                        self.segments@.len() == old(self).segments@.len(),
                        maps0 == old(self).maps(),
                        apps0 == old(self).apps(),
                        dim0 == old(self).dim as int,
                        acts == points@.map_values(
                            |p: PointStruct|
                                (
                                    p.id,
                                    ActionSnap::Upsert {
                                        vector: p.vector@,
                                        payload: payload_view(p.payload@),
                                    },
                                ),
                        ),
                        self.maps() == spec_apply_actions(
                            maps0,
                            apps0,
                            dim0,
                            op_num,
                            acts.take(i as int),
                        ),
                        any_failed == spec_actions_any_fail(
                            maps0,
                            apps0,
                            dim0,
                            op_num,
                            acts.take(i as int),
                        ),
                    decreases points@.len() - i,
                {
                    proof {
                        assert(acts.take(i + 1).drop_last() =~= acts.take(i as int));
                        assert(acts.take(i + 1).last() == acts[i as int]);
                    }
                    let w = PointWrite::Upsert(&points[i].vector, &points[i].payload);
                    proof {
                        assert(write_action(w) == acts[i as int].1);
                    }
                    let failed = self.apply_point(op_num, points[i].id, &w);
                    if failed {
                        any_failed = true;
                    }
                    i = i + 1;
                }
                proof {
                    assert(acts.take(acts.len() as int) =~= acts);
                }
            },
            CollectionUpdateOperations::DeletePoints { ids } => {
                any_failed = self.apply_ids(op_num, ids, &PointWrite::Delete);
                proof {
                    assert(ids@.map_values(|id: u64| (id, write_action(PointWrite::Delete)))
                        =~= acts);
                }
            },
            CollectionUpdateOperations::SetPayload { ids, key, values } => {
                let w = PointWrite::SetPayload(key, values);
                any_failed = self.apply_ids(op_num, ids, &w);
                proof {
                    assert(ids@.map_values(|id: u64| (id, write_action(w))) =~= acts);
                }
            },
            CollectionUpdateOperations::DeletePayload { ids, key } => {
                let w = PointWrite::DeletePayload(key);
                any_failed = self.apply_ids(op_num, ids, &w);
                proof {
                    assert(ids@.map_values(|id: u64| (id, write_action(w))) =~= acts);
                }
            },
            CollectionUpdateOperations::ClearPayload { ids } => {
                any_failed = self.apply_ids(op_num, ids, &PointWrite::ClearPayload);
                proof {
                    assert(ids@.map_values(|id: u64| (id, write_action(PointWrite::ClearPayload)))
                        =~= acts);
                }
            },
            CollectionUpdateOperations::CreateFieldIndex { key } => {
                self.apply_schema_all(op_num, key, true);
            },
            CollectionUpdateOperations::DropFieldIndex { key } => {
                self.apply_schema_all(op_num, key, false);
            },
        }
        if any_failed {
            self.failed_operations.push(op_num);
        }
        !any_failed
    }

    fn apply_schema_all(&mut self, op_num: u64, key: &String, create: bool)
        requires
            old(self).wf(),
        ensures
            final(self).wf(),
            final(self).dim == old(self).dim,
            final(self).ids() == old(self).ids(),
            final(self).apps() == old(self).apps(),
            final(self).next_id == old(self).next_id,
            final(self).failed_operations == old(self).failed_operations,
            final(self).optimizer_error == old(self).optimizer_error,
            final(self).segments@.len() == old(self).segments@.len(),
            final(self).maps() == old(self).maps(),
            forall|t: int|
                0 <= t < final(self).segments@.len() ==> {
                    let olds = old(self).segments@[t].1;
                    let news = (#[trigger] final(self).segments@[t]).1;
                    &&& (op_num > olds.schema_version() ==> news.schema_version() == op_num
                        && news.slot_schema() == (if create {
                        if crate::segment::schema_has(olds.slot_schema(), key@) {
                            olds.slot_schema()
                        } else {
                            olds.slot_schema().push(key@)
                        }
                    } else {
                        crate::segment::schema_remove(olds.slot_schema(), key@)
                    }))
                    &&& (op_num <= olds.schema_version() ==> news.slot_schema()
                        == olds.slot_schema() && news.schema_version() == olds.schema_version())
                },
    {
        let ghost pre = self.segments@;
        let mut t: usize = 0;
        while t < self.segments.len()
            invariant
                t <= self.segments@.len(),
                self.wf(),
                self.dim == old(self).dim,
                self.next_id == old(self).next_id,
                self.failed_operations == old(self).failed_operations,
                self.optimizer_error == old(self).optimizer_error,
                pre == old(self).segments@,
                self.segments@.len() == pre.len(),
                self.ids() == old(self).ids(),
                self.apps() == old(self).apps(),
                self.maps() == old(self).maps(),
                forall|u: int| t <= u < pre.len() ==> #[trigger] self.segments@[u] == pre[u],
                forall|u: int|
                    0 <= u < t ==> {
                        let olds = pre[u].1;
                        let news = (#[trigger] self.segments@[u]).1;
                        &&& self.segments@[u].0 == pre[u].0
                        &&& (op_num > olds.schema_version() ==> news.schema_version() == op_num
                            && news.slot_schema() == (if create {
                            if crate::segment::schema_has(olds.slot_schema(), key@) {
                                olds.slot_schema()
                            } else {
                                olds.slot_schema().push(key@)
                            }
                        } else {
                            crate::segment::schema_remove(olds.slot_schema(), key@)
                        }))
                        &&& (op_num <= olds.schema_version() ==> news.slot_schema()
                            == olds.slot_schema() && news.schema_version()
                            == olds.schema_version())
                    },
            decreases self.segments@.len() - t,
        {
            let ghost cur = self.segments@;
            let ghost mapsc = self.maps();
            let ghost appsc = self.apps();
            let ghost idsc = self.ids();
            let mut pair = self.segments.remove(t);
            pair.1.apply_schema(op_num, key, create);
            self.segments.insert(t, pair);
            proof {
                assert(self.segments@ =~= cur.update(t as int, (cur[t as int].0, pair.1)));
                assert(self.maps() =~= mapsc);
                assert(self.apps() =~= appsc);
                assert(self.ids() =~= idsc);
            }
            t = t + 1;
        }
    }

    /// Wraps the original segment under `sid` in a proxy, in place; what a
    /// reader sees does not change.
    pub fn proxy_segment(&mut self, sid: u64) -> (r: Result<(), CollectionError>)
        requires
            old(self).wf(),
        ensures
            final(self).wf(),
            final(self).dim == old(self).dim,
            final(self).ids() == old(self).ids(),
            final(self).next_id == old(self).next_id,
            final(self).failed_operations == old(self).failed_operations,
            final(self).optimizer_error == old(self).optimizer_error,
            final(self).maps() == old(self).maps(),
            r is Ok <==> exists|t: int|
                0 <= t < old(self).segments@.len() && (#[trigger] old(self).segments@[t]).0 == sid
                    && old(self).segments@[t].1 is Original,
            r is Ok ==> exists|t: int|
                0 <= t < old(self).segments@.len() && (#[trigger] old(self).segments@[t]).0 == sid
                    && old(self).segments@[t].1 is Original && final(self).segments@[t].1 is Proxy,
            r == Err::<(), CollectionError>(CollectionError::NotFound) <==> (forall|w: int|
                0 <= w < old(self).segments@.len() ==> (#[trigger] old(self).segments@[w]).0
                    != sid),
            r is Err ==> final(self).segments@ == old(self).segments@ && (r == Err::<
                (),
                CollectionError,
            >(CollectionError::NotFound) || r == Err::<(), CollectionError>(
                CollectionError::ServiceError,
            )),
    {
        let ghost pre = self.segments@;
        match self.find_slot(sid) {
            Option::None => Err(CollectionError::NotFound),
            Option::Some(t) => {
                let ghost mapsc = self.maps();
                let ghost appsc = self.apps();
                let ghost idsc = self.ids();
                let pair = self.segments.remove(t);
                match pair.1 {
                    LockedSegment::Original(s) => {
                        let write_segment = Segment::new(self.dim, SegmentType::Plain, true);
                        let proxy = ProxySegment {
                            wrapped: s,
                            write_segment,
                            deleted_points: Vec::new(),
                            deleted_indexes: Vec::new(),
                        };
                        proof {
                            assert(proxy.visible() =~= proxy.wrapped.point_map());
                        }
                        self.segments.insert(t, (pair.0, LockedSegment::Proxy(proxy)));
                        proof {
                            assert(self.segments@ =~= pre.update(
                                t as int,
                                (pre[t as int].0, self.segments@[t as int].1),
                            ));
                            assert(self.maps() =~= mapsc);
                            assert(self.ids() =~= idsc);
                            assert((#[trigger] pre[t as int]).0 == sid && pre[t as int].1
                                is Original && self.segments@[t as int].1 is Proxy);
                        }
                        Ok(())
                    },
                    other => {
                        self.segments.insert(t, (pair.0, other));
                        proof {
                            assert(self.segments@ =~= pre);
                        }
                        Err(CollectionError::ServiceError)
                    },
                }
            },
        }
    }

    /// Replaces the proxy under `sid` by its wrapped segment, discarding the
    /// overlay: the rollback of an abandoned optimization.
    pub fn rollback_proxy(&mut self, sid: u64) -> (r: Result<(), CollectionError>)
        requires
            old(self).wf(),
        ensures
            final(self).wf(),
            final(self).dim == old(self).dim,
            final(self).ids() == old(self).ids(),
            final(self).next_id == old(self).next_id,
            final(self).failed_operations == old(self).failed_operations,
            final(self).optimizer_error == old(self).optimizer_error,
            r is Ok <==> exists|t: int|
                0 <= t < old(self).segments@.len() && (#[trigger] old(self).segments@[t]).0 == sid
                    && old(self).segments@[t].1 is Proxy,
            r is Ok ==> exists|t: int|
                0 <= t < old(self).segments@.len() && (#[trigger] old(self).segments@[t]).0 == sid
                    && old(self).segments@[t].1 is Proxy && final(self).segments@
                    == old(self).segments@.update(
                    t,
                    (sid, LockedSegment::Original(old(self).segments@[t].1->Proxy_0.wrapped)),
                ),
            r == Err::<(), CollectionError>(CollectionError::NotFound) <==> (forall|w: int|
                0 <= w < old(self).segments@.len() ==> (#[trigger] old(self).segments@[w]).0
                    != sid),
            r is Err ==> final(self).segments@ == old(self).segments@ && (r == Err::<
                (),
                CollectionError,
            >(CollectionError::NotFound) || r == Err::<(), CollectionError>(
                CollectionError::ServiceError,
            )),
    {
        let ghost pre = self.segments@;
        match self.find_slot(sid) {
            Option::None => Err(CollectionError::NotFound),
            Option::Some(t) => {
                let pair = self.segments.remove(t);
                match pair.1 {
                    LockedSegment::Proxy(p) => {
                        let ghost pg = p;
                        self.segments.insert(t, (pair.0, LockedSegment::Original(p.wrapped)));
                        proof {
                            assert(pre[t as int].1 == LockedSegment::Proxy(pg));
                            assert((#[trigger] pre[t as int]).0 == sid);
                            assert(self.segments@ =~= pre.update(
                                t as int,
                                (sid, LockedSegment::Original(pre[t as int].1->Proxy_0.wrapped)),
                            ));
                        }
                        Ok(())
                    },
                    other => {
                        self.segments.insert(t, (pair.0, other));
                        proof {
                            assert(self.segments@ =~= pre);
                        }
                        Err(CollectionError::ServiceError)
                    },
                }
            },
        }
    }

    /// Whether any applied operation has recorded a failure.
    pub fn has_failed_operations(&self) -> (r: bool)
        ensures
            r == (self.failed_operations@.len() > 0),
    {
        self.failed_operations.len() > 0
    }

    /// Clears recorded failures and the optimizer error: explicit recovery.
    pub fn clear_errors(&mut self)
        requires
            old(self).wf(),
        ensures
            final(self).wf(),
            *final(self) == (SegmentHolder {
                failed_operations: final(self).failed_operations,
                optimizer_error: Option::None,
                ..*old(self)
            }),
            final(self).failed_operations@.len() == 0,
    {
        self.failed_operations = Vec::new();
        self.optimizer_error = Option::None;
    }

    /// Records an optimizer failure; reads and writes go on, `info` turns
    /// red.
    pub fn set_optimizer_error(&mut self, message: String)
        requires
            old(self).wf(),
        ensures
            final(self).wf(),
            *final(self) == (SegmentHolder {
                optimizer_error: final(self).optimizer_error,
                ..*old(self)
            }),
            final(self).optimizer_error is Some,
    {
        self.optimizer_error = Option::Some(message);
    }
}

} // verus!
