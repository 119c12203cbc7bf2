//! A handle to one segment of the holder: either the segment itself, or a
//! proxy wrapping a segment under optimization, with a write-through overlay
//! and a set of masked point ids.

use vstd::prelude::*;

use crate::ranking::{contains_id, distinct_ids, ids_strict};
use crate::segment::{
    bounded_vec, cand_ok, clear_payload_snap, delete_payload_snap, delete_snap, opt_filter,
    read_cand, set_payload_snap, snap_passes, upsert_snap, Segment,
};
use crate::types::{
    clone_string_vec, payload_view, CollectionError, Filter, PayloadEntry, PayloadSnap, PointSnap,
    Record, ScoredPoint, SegmentType,
};

verus! {

/// One point mutation, as routed by the update handler.
pub enum PointWrite<'a> {
    Upsert(&'a Vec<i64>, &'a Vec<PayloadEntry>),
    Delete,
    SetPayload(&'a String, &'a Vec<String>),
    DeletePayload(&'a String),
    ClearPayload,
}

/// Effect of one point mutation on an id-keyed image.
pub open spec fn write_snap(
    m: Map<u64, PointSnap>,
    op_num: u64,
    id: u64,
    w: PointWrite,
) -> Map<u64, PointSnap> {
    match w {
        PointWrite::Upsert(v, p) => upsert_snap(m, op_num, id, v@, payload_view(p@)),
        PointWrite::Delete => delete_snap(m, op_num, id),
        PointWrite::SetPayload(k, vals) => set_payload_snap(m, op_num, id, k@, vals.deep_view()),
        PointWrite::DeletePayload(k) => delete_payload_snap(m, op_num, id, k@),
        PointWrite::ClearPayload => clear_payload_snap(m, op_num, id),
    }
}

/// A malformed upsert vector: wrong dimension or out-of-range components.
pub open spec fn write_bad_input(w: PointWrite, dim: int) -> bool {
    match w {
        PointWrite::Upsert(v, _) => v@.len() != dim || !bounded_vec(v@),
        _ => false,
    }
}

/// A payload mutation aimed at an id with no live point.
pub open spec fn write_not_found(m: Map<u64, PointSnap>, id: u64, w: PointWrite) -> bool {
    match w {
        PointWrite::SetPayload(_, _) | PointWrite::DeletePayload(_) | PointWrite::ClearPayload => !(
        m.contains_key(id) && !m[id].deleted),
        _ => false,
    }
}

/// The mutation gets past the idempotence guard and changes the point.
pub open spec fn write_applies(m: Map<u64, PointSnap>, op_num: u64, id: u64, w: PointWrite) -> bool {
    match w {
        PointWrite::Upsert(_, _) => !(m.contains_key(id) && op_num <= m[id].version),
        PointWrite::Delete => m.contains_key(id) && op_num > m[id].version && !m[id].deleted,
        _ => m.contains_key(id) && !m[id].deleted && op_num > m[id].version,
    }
}

/// The overlay of a segment being rebuilt: reads mask the wrapped copy of
/// every id in `deleted_points`; writes go to `write_segment`.
pub struct ProxySegment {
    pub wrapped: Segment,
    pub write_segment: Segment,
    pub deleted_points: Vec<u64>,
    pub deleted_indexes: Vec<String>,
}

impl ProxySegment {
    pub open spec fn wf(self) -> bool {
        &&& self.wrapped.wf()
        &&& self.write_segment.wf()
        &&& self.wrapped.dim == self.write_segment.dim
        &&& self.write_segment.appendable
    }

    /// What a reader sees: the write segment wins; the wrapped copy counts
    /// only while unmasked.
    pub open spec fn visible(self) -> Map<u64, PointSnap> {
        Map::new(
            |id: u64|
                self.write_segment.point_map().contains_key(id) || (
                self.wrapped.point_map().contains_key(id) && !self.deleted_points@.contains(id)),
            |id: u64|
                if self.write_segment.point_map().contains_key(id) {
                    self.write_segment.point_map()[id]
                } else {
                    self.wrapped.point_map()[id]
                },
        )
    }

    fn deleted_contains(&self, id: u64) -> (r: bool)
        ensures
            r == self.deleted_points@.contains(id),
    {
        let mut i: usize = 0;
        while i < self.deleted_points.len()
            invariant
                i <= self.deleted_points@.len(),
                forall|w: int| 0 <= w < i ==> self.deleted_points@[w] != id,
            decreases self.deleted_points@.len() - i,
        {
            if self.deleted_points[i] == id {
                return true;
            }
            i = i + 1;
        }
        proof {
            if self.deleted_points@.contains(id) {
                let w = choose|w: int|
                    0 <= w < self.deleted_points@.len() && self.deleted_points@[w] == id;
            }
        }
        false
    }

    /// Version and tombstone flag of the visible copy of `id`.
    fn visible_state(&self, id: u64) -> (r: Option<(u64, bool)>)
        requires
            self.wf(),
        ensures
            match r {
                Option::Some(vd) => self.visible().contains_key(id) && self.visible()[id].version
                    == vd.0 && self.visible()[id].deleted == vd.1,
                Option::None => !self.visible().contains_key(id),
            },
    {
        match self.write_segment.point_state(id) {
            Option::Some(vd) => Option::Some(vd),
            Option::None => {
                if self.deleted_contains(id) {
                    Option::None
                } else {
                    self.wrapped.point_state(id)
                }
            },
        }
    }

    /// Masks the wrapped copy of `id` if the wrapped segment stores one.
    fn mask_wrapped(&mut self, id: u64)
        requires
            old(self).wf(),
            old(self).write_segment.point_map().contains_key(id),
        ensures
            final(self).wf(),
            final(self).wrapped == old(self).wrapped,
            final(self).write_segment == old(self).write_segment,
            final(self).deleted_indexes == old(self).deleted_indexes,
            final(self).visible() == old(self).visible(),
    {
        let ghost pre = *self;
        let present = match self.wrapped.point_state(id) {
            Option::Some(_) => true,
            Option::None => false,
        };
        if present && !self.deleted_contains(id) {
            self.deleted_points.push(id);
            proof {
                assert forall|k: u64| true implies self.deleted_points@.contains(k) == (
                pre.deleted_points@.contains(k) || k == id) by {
                    if pre.deleted_points@.contains(k) {
                        let w = choose|w: int|
                            0 <= w < pre.deleted_points@.len() && pre.deleted_points@[w] == k;
                        assert(self.deleted_points@[w] == k);
                    }
                    if k == id {
                        assert(self.deleted_points@[self.deleted_points@.len() - 1] == id);
                        assert(self.deleted_points@.contains(k));
                    }
                    if self.deleted_points@.contains(k) && k != id {
                        let w = choose|w: int|
                            0 <= w < self.deleted_points@.len() && self.deleted_points@[w] == k;
                        assert(w < pre.deleted_points@.len());
                        assert(pre.deleted_points@[w] == k);
                    }
                }
                assert(self.visible() =~= pre.visible());
            }
        }
    }

    /// Routes one point mutation through the overlay, preserving exactly the
    /// mutation's effect on the visible image.
    pub fn apply_write(&mut self, op_num: u64, id: u64, w: &PointWrite) -> (res: Result<
        bool,
        CollectionError,
    >)
        requires
            old(self).wf(),
        ensures
            final(self).wf(),
            final(self).wrapped.dim == old(self).wrapped.dim,
            final(self).write_segment.appendable,
            write_bad_input(*w, old(self).wrapped.dim as int) ==> final(self).visible() == old(
                self,
            ).visible() && res == Err::<bool, CollectionError>(CollectionError::BadInput),
            !write_bad_input(*w, old(self).wrapped.dim as int) ==> final(self).visible()
                == write_snap(old(self).visible(), op_num, id, *w),
            !write_bad_input(*w, old(self).wrapped.dim as int) ==> (res == Err::<
                bool,
                CollectionError,
            >(CollectionError::NotFound) <==> write_not_found(old(self).visible(), id, *w)),
            !write_bad_input(*w, old(self).wrapped.dim as int) ==> (res == Ok::<
                bool,
                CollectionError,
            >(true) <==> write_applies(old(self).visible(), op_num, id, *w)),
            res is Err ==> res == Err::<bool, CollectionError>(CollectionError::BadInput) || res
                == Err::<bool, CollectionError>(CollectionError::NotFound),
            res == Err::<bool, CollectionError>(CollectionError::BadInput) <==> write_bad_input(
                *w,
                old(self).wrapped.dim as int,
            ),
    {
        let ghost pre = *self;
        let ghost m = pre.visible();
        let state = self.visible_state(id);
        match w {
            PointWrite::Upsert(vector, payload) => {
                if vector.len() != self.write_segment.dim {
                    return Err(CollectionError::BadInput);
                }
                let mut ok = true;
                let mut ci: usize = 0;
                while ci < vector.len()
                    invariant
                        ci <= vector@.len(),
                        ok == (forall|t: int|
                            0 <= t < ci ==> -(crate::types::MAX_COMPONENT as int)
                                <= #[trigger] vector@[t] <= crate::types::MAX_COMPONENT as int),
                    decreases vector@.len() - ci,
                {
                    if vector[ci] > crate::types::MAX_COMPONENT || vector[ci]
                        < -crate::types::MAX_COMPONENT {
                        ok = false;
                    }
                    ci = ci + 1;
                }
                if !ok {
                    return Err(CollectionError::BadInput);
                }
                match state {
                    Option::Some((v, _)) if op_num <= v => {
                        proof {
                            assert(write_snap(m, op_num, id, *w) =~= m);
                        }
                        Ok(false)
                    },
                    _ => {
                        let r = self.write_segment.upsert_point(op_num, id, vector, payload);
                        proof {
                            assert(r is Ok);
                        }
                        self.mask_wrapped(id);
                        proof {
                            assert(self.visible() =~= write_snap(m, op_num, id, *w));
                        }
                        Ok(true)
                    },
                }
            },
            PointWrite::Delete => {
                match state {
                    Option::None => {
                        proof {
                            assert(write_snap(m, op_num, id, *w) =~= m);
                        }
                        Ok(false)
                    },
                    Option::Some((v, d)) => {
                        if d || op_num <= v {
                            proof {
                                assert(write_snap(m, op_num, id, *w) =~= m);
                            }
                            Ok(false)
                        } else {
                            match self.write_segment.point_state(id) {
                                Option::Some(_) => {
                                    let applied = self.write_segment.delete_point(op_num, id);
                                    proof {
                                        assert(applied);
                                    }
                                    self.mask_wrapped(id);
                                    proof {
                                        assert(self.visible() =~= write_snap(m, op_num, id, *w));
                                    }
                                    Ok(true)
                                },
                                Option::None => {
                                    proof {
                                        crate::segment::lemma_point_map_wf(pre.wrapped);
                                    }
                                    let rec = self.wrapped.retrieve(id, true, true);
                                    match rec {
                                        Option::Some(r) => {
                                            let vec = match r.vector {
                                                Option::Some(v2) => v2,
                                                Option::None => Vec::new(),
                                            };
                                            let pl = match r.payload {
                                                Option::Some(p2) => p2,
                                                Option::None => Vec::new(),
                                            };
                                            let applied = self.write_segment.put_tombstone(
                                                op_num,
                                                id,
                                                &vec,
                                                &pl,
                                            );
                                            proof {
                                                assert(applied);
                                            }
                                            self.mask_wrapped(id);
                                            proof {
                                                assert(self.visible() =~= write_snap(
                                                    m,
                                                    op_num,
                                                    id,
                                                    *w,
                                                ));
                                            }
                                            Ok(true)
                                        },
                                        Option::None => {
                                            proof {
                                                assert(false);
                                            }
                                            Ok(false)
                                        },
                                    }
                                },
                            }
                        }
                    },
                }
            },
            PointWrite::SetPayload(key, values) => {
                self.apply_payload_write(op_num, id, state, PayloadChange::SetKey(key, values))
            },
            PointWrite::DeletePayload(key) => {
                self.apply_payload_write(op_num, id, state, PayloadChange::DropKey(key))
            },
            PointWrite::ClearPayload => {
                self.apply_payload_write(op_num, id, state, PayloadChange::Clear)
            },
        }
    }
}

/// The three payload rewrites a proxy routes the same way.
pub enum PayloadChange<'a> {
    SetKey(&'a String, &'a Vec<String>),
    DropKey(&'a String),
    Clear,
}

/// The rewritten payload.
pub open spec fn change_snap(p: Seq<PayloadSnap>, c: PayloadChange) -> Seq<PayloadSnap> {
    match c {
        PayloadChange::SetKey(k, vals) => crate::segment::payload_set_snap(p, k@, vals.deep_view()),
        PayloadChange::DropKey(k) => crate::segment::payload_remove_snap(p, k@),
        PayloadChange::Clear => Seq::empty(),
    }
}

/// Effect of a payload rewrite on the id-keyed image.
pub open spec fn change_map_snap(
    m: Map<u64, PointSnap>,
    op_num: u64,
    id: u64,
    c: PayloadChange,
) -> Map<u64, PointSnap> {
    match c {
        PayloadChange::SetKey(k, vals) => set_payload_snap(m, op_num, id, k@, vals.deep_view()),
        PayloadChange::DropKey(k) => delete_payload_snap(m, op_num, id, k@),
        PayloadChange::Clear => clear_payload_snap(m, op_num, id),
    }
}

impl ProxySegment {
    fn apply_payload_write(
        &mut self,
        op_num: u64,
        id: u64,
        state: Option<(u64, bool)>,
        c: PayloadChange,
    ) -> (res: Result<bool, CollectionError>)
        requires
            old(self).wf(),
            match state {
                Option::Some(vd) => old(self).visible().contains_key(id) && old(
                    self,
                ).visible()[id].version == vd.0 && old(self).visible()[id].deleted == vd.1,
                Option::None => !old(self).visible().contains_key(id),
            },
        ensures
            final(self).wf(),
            final(self).wrapped.dim == old(self).wrapped.dim,
            final(self).write_segment.appendable,
            final(self).visible() == change_map_snap(old(self).visible(), op_num, id, c),
            res == Err::<bool, CollectionError>(CollectionError::NotFound) <==> !(old(
                self,
            ).visible().contains_key(id) && !old(self).visible()[id].deleted),
            res == Ok::<bool, CollectionError>(true) <==> (old(self).visible().contains_key(id)
                && !old(self).visible()[id].deleted && op_num > old(self).visible()[id].version),
            res is Err ==> res == Err::<bool, CollectionError>(CollectionError::NotFound),
    {
        let ghost pre = *self;
        let ghost m = pre.visible();
        match state {
            Option::None => {
                proof {
                    assert(change_map_snap(m, op_num, id, c) =~= m);
                }
                Err(CollectionError::NotFound)
            },
            Option::Some((v, d)) => {
                if d {
                    proof {
                        assert(change_map_snap(m, op_num, id, c) =~= m);
                    }
                    return Err(CollectionError::NotFound);
                }
                if op_num <= v {
                    proof {
                        assert(change_map_snap(m, op_num, id, c) =~= m);
                    }
                    return Ok(false);
                }
                match self.write_segment.point_state(id) {
                    Option::Some(_) => {
                        let r = match c {
                            PayloadChange::SetKey(key, values) => self.write_segment.set_payload(
                                op_num,
                                id,
                                key,
                                values,
                            ),
                            PayloadChange::DropKey(key) => self.write_segment.delete_payload(
                                op_num,
                                id,
                                key,
                            ),
                            PayloadChange::Clear => self.write_segment.clear_payload(op_num, id),
                        };
                        proof {
                            assert(r == Ok::<bool, CollectionError>(true));
                        }
                        self.mask_wrapped(id);
                        proof {
                            assert(self.visible() =~= change_map_snap(m, op_num, id, c));
                        }
                        Ok(true)
                    },
                    Option::None => {
                        proof {
                            crate::segment::lemma_point_map_wf(pre.wrapped);
                        }
                        let rec = self.wrapped.retrieve(id, true, true);
                        match rec {
                            Option::Some(r) => {
                                let vec = match r.vector {
                                    Option::Some(v2) => v2,
                                    Option::None => Vec::new(),
                                };
                                let pl = match r.payload {
                                    Option::Some(p2) => p2,
                                    Option::None => Vec::new(),
                                };
                                let np = match c {
                                    PayloadChange::SetKey(key, values) => {
                                        let mut base = Segment::payload_remove_key(&pl, key);
                                        let ne = PayloadEntry {
                                            key: key.clone(),
                                            values: clone_string_vec(values),
                                        };
                                        assert(ne@ =~= (PayloadSnap {
                                            key: key@,
                                            values: values.deep_view(),
                                        }));
                                        let ghost bv = payload_view(base@);
                                        base.push(ne);
                                        proof {
                                            assert(payload_view(base@) =~= bv.push(ne@));
                                        }
                                        base
                                    },
                                    PayloadChange::DropKey(key) => Segment::payload_remove_key(
                                        &pl,
                                        key,
                                    ),
                                    PayloadChange::Clear => Vec::new(),
                                };
                                proof {
                                    assert(payload_view(np@) =~= change_snap(m[id].payload, c));
                                }
                                let ur = self.write_segment.upsert_point(op_num, id, &vec, &np);
                                proof {
                                    assert(ur == Ok::<bool, CollectionError>(true));
                                }
                                self.mask_wrapped(id);
                                proof {
                                    assert(self.visible() =~= change_map_snap(m, op_num, id, c));
                                }
                                Ok(true)
                            },
                            Option::None => {
                                proof {
                                    assert(false);
                                }
                                Ok(false)
                            },
                        }
                    },
                }
            },
        }
    }
}


/// `v` occurs among the first `n` elements.
pub open spec fn among_prefix(s: Seq<u64>, n: int, v: u64) -> bool {
    exists|w: int| 0 <= w < n && #[trigger] s[w] == v
}

/// A handle to one slot of the holder.
pub enum LockedSegment {
    Original(Segment),
    Proxy(ProxySegment),
}

impl LockedSegment {
    pub open spec fn wf(self) -> bool {
        match self {
            LockedSegment::Original(s) => s.wf(),
            LockedSegment::Proxy(p) => p.wf(),
        }
    }

    /// The id-keyed image a reader of this slot sees.
    pub open spec fn visible(self) -> Map<u64, PointSnap> {
        match self {
            LockedSegment::Original(s) => s.point_map(),
            LockedSegment::Proxy(p) => p.visible(),
        }
    }

    pub open spec fn dim(self) -> usize {
        match self {
            LockedSegment::Original(s) => s.dim,
            LockedSegment::Proxy(p) => p.wrapped.dim,
        }
    }

    /// Whether new ids may be routed here.
    pub open spec fn is_appendable(self) -> bool {
        match self {
            LockedSegment::Original(s) => s.appendable,
            LockedSegment::Proxy(_) => true,
        }
    }

    /// What `info` reports for this slot; a proxy reports `Special`.
    pub open spec fn seg_type(self) -> SegmentType {
        match self {
            LockedSegment::Original(s) => s.segment_type,
            LockedSegment::Proxy(_) => SegmentType::Special,
        }
    }

    /// Routes one point mutation to this slot.
    pub fn apply_write(&mut self, op_num: u64, id: u64, w: &PointWrite) -> (res: Result<
        bool,
        CollectionError,
    >)
        requires
            old(self).wf(),
        ensures
            final(self).wf(),
            final(self).dim() == old(self).dim(),
            final(self).is_appendable() == old(self).is_appendable(),
            final(self).seg_type() == old(self).seg_type(),
            write_bad_input(*w, old(self).dim() as int) ==> final(self).visible() == old(
                self,
            ).visible() && res == Err::<bool, CollectionError>(CollectionError::BadInput),
            !write_bad_input(*w, old(self).dim() as int) ==> final(self).visible() == write_snap(
                old(self).visible(),
                op_num,
                id,
                *w,
            ),
            !write_bad_input(*w, old(self).dim() as int) ==> (res == Err::<bool, CollectionError>(
                CollectionError::NotFound,
            ) <==> write_not_found(old(self).visible(), id, *w)),
            !write_bad_input(*w, old(self).dim() as int) ==> (res == Ok::<bool, CollectionError>(
                true,
            ) <==> write_applies(old(self).visible(), op_num, id, *w)),
            res is Err ==> res == Err::<bool, CollectionError>(CollectionError::BadInput) || res
                == Err::<bool, CollectionError>(CollectionError::NotFound),
            res == Err::<bool, CollectionError>(CollectionError::BadInput) <==> write_bad_input(
                *w,
                old(self).dim() as int,
            ),
    {
        match self {
            LockedSegment::Original(s) => {
                match w {
                    PointWrite::Upsert(vector, payload) => {
                        let r = s.upsert_point(op_num, id, vector, payload);
                        match r {
                            Ok(b) => Ok(b),
                            Err(e) => Err(e),
                        }
                    },
                    PointWrite::Delete => {
                        let b = s.delete_point(op_num, id);
                        Ok(b)
                    },
                    PointWrite::SetPayload(key, values) => {
                        let r = s.set_payload(op_num, id, key, values);
                        match r {
                            Ok(b) => Ok(b),
                            Err(e) => Err(e),
                        }
                    },
                    PointWrite::DeletePayload(key) => {
                        let r = s.delete_payload(op_num, id, key);
                        match r {
                            Ok(b) => Ok(b),
                            Err(e) => Err(e),
                        }
                    },
                    PointWrite::ClearPayload => {
                        let r = s.clear_payload(op_num, id);
                        match r {
                            Ok(b) => Ok(b),
                            Err(e) => Err(e),
                        }
                    },
                }
            },
            LockedSegment::Proxy(p) => p.apply_write(op_num, id, w),
        }
    }

    /// Scores every live matching visible point against the query.
    pub fn scored_candidates(&self, query: &Vec<i64>, filter: Option<&Filter>) -> (c: Vec<
        ScoredPoint,
    >)
        requires
            self.wf(),
            query@.len() == self.dim(),
            bounded_vec(query@),
        ensures
            distinct_ids(c@),
            forall|k: int|
                0 <= k < c@.len() ==> cand_ok(
                    self.visible(),
                    query@,
                    opt_filter(filter),
                    #[trigger] c@[k],
                ),
            forall|id: u64|
                self.visible().contains_key(id) && snap_passes(
                    #[trigger] self.visible()[id],
                    opt_filter(filter),
                ) ==> contains_id(c@, id),
    {
        let ghost f = opt_filter(filter);
        let ghost q = query@;
        match self {
            LockedSegment::Original(s) => s.scored_candidates(query, filter),
            LockedSegment::Proxy(p) => {
                let ghost m = p.visible();
                let mut c = p.write_segment.scored_candidates(query, filter);
                let ghost wpart = c@;
                let wc = p.wrapped.scored_candidates(query, filter);
                proof {
                    assert forall|k: int| 0 <= k < wpart.len() implies cand_ok(
                        m,
                        q,
                        f,
                        #[trigger] wpart[k],
                    ) by {
                        assert(cand_ok(p.write_segment.point_map(), q, f, wpart[k]));
                    }
                }
                let mut i: usize = 0;
                while i < wc.len()
                    invariant
                        i <= wc@.len(),
                        p.wf(),
                        f == opt_filter(filter),
                        q == query@,
                        m == p.visible(),
                        c@.len() >= wpart.len(),
                        c@.take(wpart.len() as int) == wpart,
                        distinct_ids(c@),
                        forall|k: int| 0 <= k < c@.len() ==> cand_ok(m, q, f, #[trigger] c@[k]),
                        forall|k: int|
                            wpart.len() <= k < c@.len() ==> !p.write_segment.point_map().contains_key(
                                (#[trigger] c@[k]).id,
                            ),
                        forall|k: int|
                            wpart.len() <= k < c@.len() ==> exists|w: int|
                                0 <= w < i && wc@[w] == #[trigger] c@[k],
                        forall|w: int|
                            0 <= w < i && !p.deleted_points@.contains((#[trigger] wc@[w]).id)
                                && !p.write_segment.point_map().contains_key(wc@[w].id)
                                ==> contains_id(c@, wc@[w].id),
                        distinct_ids(wc@),
                        forall|k: int|
                            0 <= k < wc@.len() ==> cand_ok(
                                p.wrapped.point_map(),
                                q,
                                f,
                                #[trigger] wc@[k],
                            ),
                        forall|k: int|
                            0 <= k < wpart.len() ==> cand_ok(
                                p.write_segment.point_map(),
                                q,
                                f,
                                #[trigger] wpart[k],
                            ),
                        forall|id: u64|
                            p.write_segment.point_map().contains_key(id) && snap_passes(
                                #[trigger] p.write_segment.point_map()[id],
                                f,
                            ) ==> contains_id(wpart, id),
                        forall|id: u64|
                            p.wrapped.point_map().contains_key(id) && snap_passes(
                                #[trigger] p.wrapped.point_map()[id],
                                f,
                            ) ==> contains_id(wc@, id),
                    decreases wc@.len() - i,
                {
                    let ghost prev = c@;
                    let cand = wc[i];
                    let masked = p.deleted_contains(cand.id);
                    let in_write = match p.write_segment.point_state(cand.id) {
                        Option::Some(_) => true,
                        Option::None => false,
                    };
                    if !masked && !in_write {
                        proof {
                            assert(cand_ok(p.wrapped.point_map(), q, f, cand));
                            assert(m.contains_key(cand.id));
                            assert(m[cand.id] == p.wrapped.point_map()[cand.id]);
                            assert(cand_ok(m, q, f, cand));
                            assert(!contains_id(prev, cand.id)) by {
                                if contains_id(prev, cand.id) {
                                    let u = choose|u: int|
                                        0 <= u < prev.len() && prev[u].id == cand.id;
                                    if u < wpart.len() {
                                        assert(cand_ok(
                                            p.write_segment.point_map(),
                                            q,
                                            f,
                                            wpart[u],
                                        ));
                                        assert(p.write_segment.point_map().contains_key(cand.id));
                                    } else {
                                        let x = choose|x: int|
                                            0 <= x < i && wc@[x] == #[trigger] prev[u];
                                        assert(wc@[x].id == wc@[i as int].id);
                                        assert(false);
                                    }
                                }
                            }
                        }
                        c.push(cand);
                        proof {
                            assert(c@.take(wpart.len() as int) =~= prev.take(wpart.len() as int));
                            assert(distinct_ids(c@)) by {
                                assert forall|x: int, y: int| 0 <= x < y < c@.len() implies (
                                #[trigger] c@[x]).id != (#[trigger] c@[y]).id by {
                                    if y == c@.len() - 1 {
                                        assert(c@[x] == prev[x]);
                                        if prev[x].id == cand.id {
                                            assert(contains_id(prev, cand.id));
                                        }
                                    } else {
                                        assert(c@[x] == prev[x] && c@[y] == prev[y]);
                                    }
                                }
                            }
                            assert forall|w: int|
                                0 <= w < i + 1 && !p.deleted_points@.contains(
                                    (#[trigger] wc@[w]).id,
                                ) && !p.write_segment.point_map().contains_key(wc@[w].id) implies
                                contains_id(c@, wc@[w].id) by {
                                if w < i {
                                    assert(contains_id(prev, wc@[w].id));
                                    let u = choose|u: int|
                                        0 <= u < prev.len() && prev[u].id == wc@[w].id;
                                    assert(c@[u].id == wc@[w].id);
                                } else {
                                    assert(c@[c@.len() - 1].id == wc@[w].id);
                                }
                            }
                            assert forall|k: int| wpart.len() <= k < c@.len() implies exists|w: int|
                                0 <= w < i + 1 && wc@[w] == #[trigger] c@[k] by {
                                if k < prev.len() {
                                    assert(c@[k] == prev[k]);
                                    let w = choose|w: int| 0 <= w < i && wc@[w] == prev[k];
                                    assert(0 <= w < i + 1 && wc@[w] == c@[k]);
                                } else {
                                    assert(c@[k] == cand);
                                    assert(wc@[i as int] == c@[k]);
                                }
                            }
                        }
                    } else {
                        proof {
                            assert forall|k: int| wpart.len() <= k < c@.len() implies exists|w: int|
                                0 <= w < i + 1 && wc@[w] == #[trigger] c@[k] by {
                                let w = choose|w: int| 0 <= w < i && wc@[w] == c@[k];
                                assert(0 <= w < i + 1 && wc@[w] == c@[k]);
                            }
                        }
                        proof {
                            assert forall|w: int|
                                0 <= w < i + 1 && !p.deleted_points@.contains(
                                    (#[trigger] wc@[w]).id,
                                ) && !p.write_segment.point_map().contains_key(wc@[w].id) implies
                                contains_id(c@, wc@[w].id) by {
                                if w < i {
                                    assert(contains_id(prev, wc@[w].id));
                                }
                            }
                        }
                    }
                    i = i + 1;
                }
                proof {
                    assert forall|id: u64|
                        m.contains_key(id) && snap_passes(#[trigger] m[id], f) implies contains_id(
                        c@,
                        id,
                    ) by {
                        if p.write_segment.point_map().contains_key(id) {
                            assert(m[id] == p.write_segment.point_map()[id]);
                            assert(contains_id(wpart, id)) by {
                                assert(forall|id2: u64|
                                    p.write_segment.point_map().contains_key(id2) && snap_passes(
                                        #[trigger] p.write_segment.point_map()[id2],
                                        f,
                                    ) ==> contains_id(wpart, id2));
                            }
                            let u = choose|u: int| 0 <= u < wpart.len() && wpart[u].id == id;
                            assert(c@[u] == wpart[u]);
                        } else {
                            assert(p.wrapped.point_map().contains_key(id)
                                && !p.deleted_points@.contains(id));
                            assert(m[id] == p.wrapped.point_map()[id]);
                            assert(contains_id(wc@, id)) by {
                                assert(forall|id2: u64|
                                    p.wrapped.point_map().contains_key(id2) && snap_passes(
                                        #[trigger] p.wrapped.point_map()[id2],
                                        f,
                                    ) ==> contains_id(wc@, id2));
                            }
                            let x = choose|x: int| 0 <= x < wc@.len() && wc@[x].id == id;
                        }
                    }
                }
                c
            },
        }
    }

    /// The visible live copy under `id`.
    pub fn retrieve(&self, id: u64, with_vector: bool, with_payload: bool) -> (r: Option<Record>)
        requires
            self.wf(),
        ensures
            match r {
                Option::None => !(self.visible().contains_key(id) && !self.visible()[id].deleted),
                Option::Some(rec) => self.visible().contains_key(id) && !self.visible()[id].deleted
                    && rec.id == id && rec.version == self.visible()[id].version && (match rec.vector {
                    Option::Some(v) => with_vector && v@ == self.visible()[id].vector,
                    Option::None => !with_vector,
                }) && (match rec.payload {
                    Option::Some(p) => with_payload && payload_view(p@) == self.visible()[id].payload,
                    Option::None => !with_payload,
                }),
            },
    {
        match self {
            LockedSegment::Original(s) => s.retrieve(id, with_vector, with_payload),
            LockedSegment::Proxy(p) => {
                match p.write_segment.point_state(id) {
                    Option::Some(_) => p.write_segment.retrieve(id, with_vector, with_payload),
                    Option::None => {
                        if p.deleted_contains(id) {
                            Option::None
                        } else {
                            p.wrapped.retrieve(id, with_vector, with_payload)
                        }
                    },
                }
            },
        }
    }

    /// The version of the visible copy under `id`, tombstones included.
    pub fn point_version(&self, id: u64) -> (r: Option<u64>)
        requires
            self.wf(),
        ensures
            match r {
                Option::Some(v) => self.visible().contains_key(id) && self.visible()[id].version
                    == v,
                Option::None => !self.visible().contains_key(id),
            },
    {
        match self {
            LockedSegment::Original(s) => s.point_version(id),
            LockedSegment::Proxy(p) => {
                match p.visible_state(id) {
                    Option::Some((v, _)) => Option::Some(v),
                    Option::None => Option::None,
                }
            },
        }
    }
}

impl LockedSegment {
    /// Visible ids of live matching points at or past `offset`, ascending,
    /// cut to `limit` if one is given.
    pub fn read_filtered(
        &self,
        offset: Option<u64>,
        limit: Option<usize>,
        filter: Option<&Filter>,
    ) -> (r: Vec<u64>)
        requires
            self.wf(),
        ensures
            ids_strict(r@),
            forall|k: int|
                0 <= k < r@.len() ==> read_cand(
                    self.visible(),
                    opt_filter(filter),
                    offset,
                    #[trigger] r@[k],
                ),
            forall|id: u64|
                read_cand(self.visible(), opt_filter(filter), offset, id) && !r@.contains(id)
                    ==> limit is Some && r@.len() == limit.unwrap() && (r@.len() > 0 ==> r@[r@.len()
                    - 1] < id),
            limit is Some ==> r@.len() <= limit.unwrap(),
    {
        broadcast use vstd::seq_lib::group_to_multiset_ensures;

        let ghost f = opt_filter(filter);
        match self {
            LockedSegment::Original(s) => s.read_filtered(offset, limit, filter),
            LockedSegment::Proxy(p) => {
                let ghost m = p.visible();
                let mut all = p.write_segment.read_filtered(offset, Option::None, filter);
                let ghost wpart = all@;
                let ww = p.wrapped.read_filtered(offset, Option::None, filter);
                let mut i: usize = 0;
                while i < ww.len()
                    invariant
                        i <= ww@.len(),
                        p.wf(),
                        f == opt_filter(filter),
                        m == p.visible(),
                        all@.len() >= wpart.len(),
                        all@.take(wpart.len() as int) == wpart,
                        forall|x: int, y: int| 0 <= x < y < all@.len() ==> all@[x] != all@[y],
                        forall|k: int|
                            0 <= k < all@.len() ==> read_cand(m, f, offset, #[trigger] all@[k]),
                        forall|k: int|
                            wpart.len() <= k < all@.len()
                                ==> !p.write_segment.point_map().contains_key(#[trigger] all@[k])
                                && among_prefix(ww@, i as int, all@[k]),
                        forall|w: int|
                            0 <= w < i && !p.deleted_points@.contains(#[trigger] ww@[w])
                                && !p.write_segment.point_map().contains_key(ww@[w])
                                ==> all@.contains(ww@[w]),
                        ids_strict(wpart),
                        ids_strict(ww@),
                        forall|k: int|
                            0 <= k < wpart.len() ==> read_cand(
                                p.write_segment.point_map(),
                                f,
                                offset,
                                #[trigger] wpart[k],
                            ),
                        forall|id: u64|
                            read_cand(p.write_segment.point_map(), f, offset, id) ==> wpart.contains(
                                id,
                            ),
                        forall|k: int|
                            0 <= k < ww@.len() ==> read_cand(
                                p.wrapped.point_map(),
                                f,
                                offset,
                                #[trigger] ww@[k],
                            ),
                        forall|id: u64|
                            read_cand(p.wrapped.point_map(), f, offset, id) ==> ww@.contains(id),
                    decreases ww@.len() - i,
                {
                    let ghost prev = all@;
                    let cand = ww[i];
                    let masked = p.deleted_contains(cand);
                    let in_write = match p.write_segment.point_state(cand) {
                        Option::Some(_) => true,
                        Option::None => false,
                    };
                    if !masked && !in_write {
                        proof {
                            assert(read_cand(p.wrapped.point_map(), f, offset, cand));
                            assert(m.contains_key(cand));
                            assert(m[cand] == p.wrapped.point_map()[cand]);
                            assert(!prev.contains(cand)) by {
                                if prev.contains(cand) {
                                    let u = choose|u: int| 0 <= u < prev.len() && prev[u] == cand;
                                    if u < wpart.len() {
                                        assert(read_cand(
                                            p.write_segment.point_map(),
                                            f,
                                            offset,
                                            wpart[u],
                                        ));
                                        assert(p.write_segment.point_map().contains_key(cand));
                                    } else {
                                        assert(among_prefix(ww@, i as int, prev[u]));
                                        let w = choose|w: int|
                                            0 <= w < i && #[trigger] ww@[w] == prev[u];
                                        assert(ww@[w] < ww@[i as int]);
                                        assert(false);
                                    }
                                }
                            }
                        }
                        all.push(cand);
                        proof {
                            assert(all@.take(wpart.len() as int) =~= prev.take(wpart.len() as int));
                            assert forall|x: int, y: int| 0 <= x < y < all@.len() implies all@[x]
                                != all@[y] by {
                                if y == all@.len() - 1 {
                                    assert(all@[x] == prev[x]);
                                    if prev[x] == cand {
                                        assert(prev.contains(cand));
                                    }
                                } else {
                                    assert(all@[x] == prev[x] && all@[y] == prev[y]);
                                }
                            }
                            assert(ww@.contains(cand)) by {
                                assert(ww@[i as int] == cand);
                            }
                            assert forall|w: int|
                                0 <= w < i + 1 && !p.deleted_points@.contains(#[trigger] ww@[w])
                                    && !p.write_segment.point_map().contains_key(ww@[w]) implies
                                all@.contains(ww@[w]) by {
                                if w < i {
                                    assert(prev.contains(ww@[w]));
                                    let u = choose|u: int|
                                        0 <= u < prev.len() && prev[u] == ww@[w];
                                    assert(all@[u] == ww@[w]);
                                } else {
                                    assert(all@[all@.len() - 1] == ww@[w]);
                                }
                            }
                            assert forall|k: int| wpart.len() <= k < all@.len() implies among_prefix(
                                ww@,
                                i + 1,
                                #[trigger] all@[k],
                            ) by {
                                if k < prev.len() {
                                    assert(all@[k] == prev[k]);
                                    assert(among_prefix(ww@, i as int, prev[k]));
                                    let w = choose|w: int| 0 <= w < i && #[trigger] ww@[w] == prev[k];
                                    assert(ww@[w] == all@[k]);
                                } else {
                                    assert(all@[k] == cand);
                                    assert(ww@[i as int] == all@[k]);
                                }
                            }
                        }
                    } else {
                        proof {
                            assert forall|k: int| wpart.len() <= k < all@.len() implies among_prefix(
                                ww@,
                                i + 1,
                                #[trigger] all@[k],
                            ) by {
                                assert(among_prefix(ww@, i as int, all@[k]));
                                let w = choose|w: int| 0 <= w < i && #[trigger] ww@[w] == all@[k];
                                assert(ww@[w] == all@[k]);
                            }
                        }
                        proof {
                            assert forall|w: int|
                                0 <= w < i + 1 && !p.deleted_points@.contains(#[trigger] ww@[w])
                                    && !p.write_segment.point_map().contains_key(ww@[w]) implies
                                all@.contains(ww@[w]) by {
                                if w < i {
                                    assert(prev.contains(ww@[w]));
                                }
                            }
                        }
                    }
                    i = i + 1;
                }
                let ghost allg = all@;
                let sorted = crate::ranking::sort_ids(all);
                proof {
                    crate::ranking::lemma_sorted_distinct_strict(allg, sorted@);
                }
                let mut r = sorted;
                match limit {
                    Option::Some(l) => {
                        if r.len() > l {
                            r.truncate(l);
                            proof {
                                assert(ids_strict(r@)) by {
                                    assert(forall|x: int, y: int|
                                        0 <= x < y < r@.len() ==> r@[x] == sorted@[x] && r@[y]
                                            == sorted@[y]);
                                }
                            }
                        }
                    },
                    Option::None => {},
                }
                proof {
                    assert forall|k: int| 0 <= k < r@.len() implies read_cand(
                        m,
                        f,
                        offset,
                        #[trigger] r@[k],
                    ) by {
                        assert(r@[k] == sorted@[k]);
                        assert(sorted@.contains(sorted@[k]));
                        assert(sorted@.to_multiset().count(sorted@[k]) > 0);
                        assert(allg.to_multiset().count(sorted@[k]) > 0);
                        assert(allg.contains(sorted@[k]));
                        let u = choose|u: int| 0 <= u < allg.len() && allg[u] == sorted@[k];
                    }
                    assert forall|id: u64|
                        read_cand(m, f, offset, id) && !r@.contains(id) implies limit is Some
                            && r@.len() == limit.unwrap() && (r@.len() > 0 ==> r@[r@.len() - 1]
                            < id) by {
                        assert(allg.contains(id)) by {
                            if p.write_segment.point_map().contains_key(id) {
                                assert(m[id] == p.write_segment.point_map()[id]);
                                assert(read_cand(p.write_segment.point_map(), f, offset, id));
                                assert(wpart.contains(id));
                                let u = choose|u: int|
                                    0 <= u < wpart.len() && wpart[u] == id;
                                assert(allg[u] == id);
                            } else {
                                assert(p.wrapped.point_map().contains_key(id)
                                    && !p.deleted_points@.contains(id));
                                assert(m[id] == p.wrapped.point_map()[id]);
                                assert(read_cand(p.wrapped.point_map(), f, offset, id));
                                assert(ww@.contains(id));
                                let w = choose|w: int| 0 <= w < ww@.len() && ww@[w] == id;
                                assert(!p.deleted_points@.contains(ww@[w])
                                    && !p.write_segment.point_map().contains_key(ww@[w]));
                                assert(allg.contains(ww@[w]));
                                let u2 = choose|u2: int| 0 <= u2 < allg.len() && allg[u2] == id;
                            }
                        }
                        assert(allg.to_multiset().count(id) > 0);
                        assert(sorted@.to_multiset().count(id) > 0);
                        assert(sorted@.contains(id));
                        let sw = choose|sw: int| 0 <= sw < sorted@.len() && sorted@[sw] == id;
                        if sw < r@.len() {
                            assert(r@[sw] == sorted@[sw]);
                            assert(r@.contains(id));
                        }
                        assert(r@.len() < sorted@.len());
                        assert(limit is Some && r@.len() == limit.unwrap());
                        if r@.len() > 0 {
                            assert(r@[r@.len() - 1] == sorted@[r@.len() - 1]);
                            assert(sorted@[r@.len() - 1] < sorted@[sw]);
                        }
                    }
                }
                r
            },
        }
    }

    /// Applies a schema operation to the segment that takes writes: the
    /// segment itself, or a proxy's write segment (recording a dropped key).
    pub fn apply_schema(&mut self, op_num: u64, key: &String, create: bool) -> (applied: bool)
        requires
            old(self).wf(),
        ensures
            final(self).wf(),
            final(self).dim() == old(self).dim(),
            final(self).is_appendable() == old(self).is_appendable(),
            final(self).seg_type() == old(self).seg_type(),
            final(self).visible() == old(self).visible(),
            applied <==> op_num > old(self).schema_version(),
            applied ==> final(self).schema_version() == op_num,
            applied && create ==> final(self).slot_schema() == (if crate::segment::schema_has(
                old(self).slot_schema(),
                key@,
            ) {
                old(self).slot_schema()
            } else {
                old(self).slot_schema().push(key@)
            }),
            applied && !create ==> final(self).slot_schema() == crate::segment::schema_remove(
                old(self).slot_schema(),
                key@,
            ),
            !applied ==> final(self).slot_schema() == old(self).slot_schema()
                && final(self).schema_version() == old(self).schema_version(),
    {
        match self {
            LockedSegment::Original(s) => {
                if create {
                    s.create_field_index(op_num, key)
                } else {
                    s.drop_field_index(op_num, key)
                }
            },
            LockedSegment::Proxy(p) => {
                let applied = if create {
                    p.write_segment.create_field_index(op_num, key)
                } else {
                    let a = p.write_segment.drop_field_index(op_num, key);
                    if a {
                        p.deleted_indexes.push(key.clone());
                    }
                    a
                };
                proof {
                    assert(p.visible() =~= old(self).visible());
                }
                applied
            },
        }
    }

    /// The index schema this slot applies writes to.
    pub open spec fn slot_schema(self) -> Seq<Seq<char>> {
        match self {
            LockedSegment::Original(s) => crate::segment::schema_seq(s.index_schema@),
            LockedSegment::Proxy(p) => crate::segment::schema_seq(p.write_segment.index_schema@),
        }
    }

    pub open spec fn schema_version(self) -> u64 {
        match self {
            LockedSegment::Original(s) => s.schema_version,
            LockedSegment::Proxy(p) => p.write_segment.schema_version,
        }
    }
}

impl LockedSegment {
    /// Whether new ids may be routed here.
    pub fn appendable(&self) -> (r: bool)
        ensures
            r == self.is_appendable(),
    {
        match self {
            LockedSegment::Original(s) => s.appendable,
            LockedSegment::Proxy(_) => true,
        }
    }
}

impl LockedSegment {
    /// The schema keys this slot applies writes to.
    pub fn schema_keys(&self) -> (r: &Vec<String>)
        ensures
            crate::segment::schema_seq(r@) == self.slot_schema(),
    {
        match self {
            LockedSegment::Original(s) => &s.index_schema,
            LockedSegment::Proxy(p) => &p.write_segment.index_schema,
        }
    }

    /// What `info` reports for this slot.
    pub fn segment_type(&self) -> (r: SegmentType)
        ensures
            r == self.seg_type(),
    {
        match self {
            LockedSegment::Original(s) => s.segment_type,
            LockedSegment::Proxy(_) => SegmentType::Special,
        }
    }
}

impl LockedSegment {
    /// The image whose vectors count as indexed: the segment itself when it
    /// is `Indexed`; for a proxy, the wrapped segment when that one is.
    pub open spec fn indexed_image(self) -> Option<Map<u64, PointSnap>> {
        match self {
            LockedSegment::Original(s) => if s.segment_type == SegmentType::Indexed {
                Option::Some(s.point_map())
            } else {
                Option::None
            },
            LockedSegment::Proxy(p) => if p.wrapped.segment_type == SegmentType::Indexed {
                Option::Some(p.wrapped.point_map())
            } else {
                Option::None
            },
        }
    }

    /// The live ids of the indexed image, ascending; empty when this slot
    /// counts no indexed vectors.
    pub fn indexed_live_ids(&self) -> (r: Vec<u64>)
        requires
            self.wf(),
        ensures
            ids_strict(r@),
            match self.indexed_image() {
                Option::Some(m) => forall|id: u64|
                    #[trigger] r@.contains(id) <==> (m.contains_key(id) && !m[id].deleted),
                Option::None => r@.len() == 0,
            },
    {
        let seg = match self {
            LockedSegment::Original(s) => {
                if !matches!(s.segment_type, SegmentType::Indexed) {
                    return Vec::new();
                }
                s
            },
            LockedSegment::Proxy(p) => {
                if !matches!(p.wrapped.segment_type, SegmentType::Indexed) {
                    return Vec::new();
                }
                &p.wrapped
            },
        };
        let r = seg.read_filtered(Option::None, Option::None, Option::None);
        proof {
            assert forall|id: u64| #[trigger] r@.contains(id) implies (
            seg.point_map().contains_key(id) && !seg.point_map()[id].deleted) by {
                let w = choose|w: int| 0 <= w < r@.len() && r@[w] == id;
                assert(read_cand(seg.point_map(), Option::None, Option::None, r@[w]));
            }
        }
        r
    }
}

} // verus!
