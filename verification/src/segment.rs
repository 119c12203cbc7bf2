//! A plain in-memory segment: an id-keyed store of points with versions,
//! tombstones and payloads, the unit a shard's holder manages.

use vstd::prelude::*;

use crate::ranking::{contains_id, distinct_ids, ranked};
use crate::types::{
    CardinalityEstimation, CollectionError, Distance, Filter, PayloadEntry, PayloadSnap, PointSnap, Record,
    ScoredPoint, SegmentInfo, SegmentType, clone_payload, clone_string_vec, clone_vector,
    payload_view, MAX_COMPONENT, MAX_DIM,
};

verus! {

/// One stored point.
pub struct PointEntry {
    pub id: u64,
    pub version: u64,
    pub deleted: bool,
    pub vector: Vec<i64>,
    pub payload: Vec<PayloadEntry>,
}

impl PointEntry {
    /// Ghost image of this entry.
    pub open spec fn snap(&self) -> PointSnap {
        PointSnap {
            version: self.version,
            deleted: self.deleted,
            vector: self.vector@,
            payload: payload_view(self.payload@),
        }
    }
}

/// No two entries share an id.
pub open spec fn entry_ids_distinct(s: Seq<PointEntry>) -> bool {
    forall|i: int, j: int| 0 <= i < j < s.len() ==> s[i].id != s[j].id
}

/// The id-keyed ghost image of a list of entries; a later entry wins, though
/// under `entry_ids_distinct` ids never repeat.
pub open spec fn entries_map(s: Seq<PointEntry>) -> Map<u64, PointSnap>
    decreases s.len(),
{
    if s.len() == 0 {
        Map::empty()
    } else {
        entries_map(s.drop_last()).insert(s.last().id, s.last().snap())
    }
}

pub proof fn lemma_entries_map_contains(s: Seq<PointEntry>, id: u64)
    ensures
        entries_map(s).contains_key(id) <==> exists|i: int|
            0 <= i < s.len() && (#[trigger] s[i]).id == id,
    decreases s.len(),
{
    if s.len() > 0 {
        lemma_entries_map_contains(s.drop_last(), id);
        if entries_map(s).contains_key(id) {
            if s.last().id == id {
                assert((s[s.len() - 1]).id == id);
            } else {
                let i = choose|i: int|
                    0 <= i < s.drop_last().len() && (#[trigger] s.drop_last()[i]).id == id;
                assert((s[i]).id == id);
            }
        }
        if exists|i: int| 0 <= i < s.len() && (#[trigger] s[i]).id == id {
            let i = choose|i: int| 0 <= i < s.len() && (#[trigger] s[i]).id == id;
            if i < s.len() - 1 {
                assert((s.drop_last()[i]).id == id);
            }
        }
    }
}

pub proof fn lemma_entries_map_value(s: Seq<PointEntry>, i: int)
    requires
        entry_ids_distinct(s),
        0 <= i < s.len(),
    ensures
        entries_map(s).contains_key(s[i].id),
        entries_map(s)[s[i].id] == s[i].snap(),
    decreases s.len(),
{
    if i == s.len() - 1 {
        assert(s.last() == s[i]);
    } else {
        assert(entry_ids_distinct(s.drop_last())) by {
            assert(forall|a: int, b: int|
                0 <= a < b < s.drop_last().len() ==> s.drop_last()[a] == s[a] && s.drop_last()[b]
                    == s[b]);
        }
        lemma_entries_map_value(s.drop_last(), i);
        assert(s.drop_last()[i] == s[i]);
        assert(s.last().id != s[i].id);
    }
}

pub proof fn lemma_entries_map_push(s: Seq<PointEntry>, e: PointEntry)
    ensures
        entries_map(s.push(e)) == entries_map(s).insert(e.id, e.snap()),
{
    assert(s.push(e).drop_last() =~= s);
    assert(s.push(e).last() == e);
}

/// The payload with every entry under `key` removed, keeping the order of
/// the rest.
pub open spec fn payload_remove_snap(p: Seq<PayloadSnap>, key: Seq<char>) -> Seq<PayloadSnap>
    decreases p.len(),
{
    if p.len() == 0 {
        Seq::empty()
    } else {
        let rest = payload_remove_snap(p.drop_last(), key);
        if p.last().key == key {
            rest
        } else {
            rest.push(p.last())
        }
    }
}

/// The payload with `key` bound to exactly `values`.
pub open spec fn payload_set_snap(
    p: Seq<PayloadSnap>,
    key: Seq<char>,
    values: Seq<Seq<char>>,
) -> Seq<PayloadSnap> {
    payload_remove_snap(p, key).push(PayloadSnap { key, values })
}

/// Effect of an upsert on the id-keyed image: a no-op when the stored version
/// is at least `op_num`, else the point is replaced wholesale.
pub open spec fn upsert_snap(
    m: Map<u64, PointSnap>,
    op_num: u64,
    id: u64,
    vector: Seq<i64>,
    payload: Seq<PayloadSnap>,
) -> Map<u64, PointSnap> {
    if m.contains_key(id) && op_num <= m[id].version {
        m
    } else {
        m.insert(id, PointSnap { version: op_num, deleted: false, vector, payload })
    }
}

/// Effect of a delete: a live point with an older version becomes a tombstone
/// carrying `op_num`; anything else is untouched.
pub open spec fn delete_snap(m: Map<u64, PointSnap>, op_num: u64, id: u64) -> Map<u64, PointSnap> {
    if m.contains_key(id) && op_num > m[id].version && !m[id].deleted {
        m.insert(
            id,
            PointSnap {
                version: op_num,
                deleted: true,
                vector: m[id].vector,
                payload: m[id].payload,
            },
        )
    } else {
        m
    }
}

/// Effect of setting one payload key on a live point with an older version.
pub open spec fn set_payload_snap(
    m: Map<u64, PointSnap>,
    op_num: u64,
    id: u64,
    key: Seq<char>,
    values: Seq<Seq<char>>,
) -> Map<u64, PointSnap> {
    if m.contains_key(id) && !m[id].deleted && op_num > m[id].version {
        m.insert(
            id,
            PointSnap {
                version: op_num,
                deleted: false,
                vector: m[id].vector,
                payload: payload_set_snap(m[id].payload, key, values),
            },
        )
    } else {
        m
    }
}

/// Effect of deleting one payload key on a live point with an older version.
pub open spec fn delete_payload_snap(
    m: Map<u64, PointSnap>,
    op_num: u64,
    id: u64,
    key: Seq<char>,
) -> Map<u64, PointSnap> {
    if m.contains_key(id) && !m[id].deleted && op_num > m[id].version {
        m.insert(
            id,
            PointSnap {
                version: op_num,
                deleted: false,
                vector: m[id].vector,
                payload: payload_remove_snap(m[id].payload, key),
            },
        )
    } else {
        m
    }
}

/// Effect of clearing the whole payload of a live point with an older version.
pub open spec fn clear_payload_snap(m: Map<u64, PointSnap>, op_num: u64, id: u64) -> Map<
    u64,
    PointSnap,
> {
    if m.contains_key(id) && !m[id].deleted && op_num > m[id].version {
        m.insert(
            id,
            PointSnap {
                version: op_num,
                deleted: false,
                vector: m[id].vector,
                payload: Seq::empty(),
            },
        )
    } else {
        m
    }
}

/// Every component within the representable range.
pub open spec fn bounded_vec(v: Seq<i64>) -> bool {
    forall|i: int|
        0 <= i < v.len() ==> -(MAX_COMPONENT as int) <= #[trigger] v[i] <= MAX_COMPONENT as int
}

/// Ghost image of a schema: the key names in storage order.
pub open spec fn schema_seq(s: Seq<String>) -> Seq<Seq<char>> {
    s.map_values(|k: String| k@)
}

/// A key occurs in a schema.
pub open spec fn schema_has(s: Seq<Seq<char>>, key: Seq<char>) -> bool {
    exists|i: int| 0 <= i < s.len() && s[i] == key
}

/// An upsert with this `op_num` replaces the point rather than being dropped
/// by the idempotence guard.
pub open spec fn upsert_applies(m: Map<u64, PointSnap>, op_num: u64, id: u64) -> bool {
    !(m.contains_key(id) && op_num <= m[id].version)
}

/// The in-memory segment.
pub struct Segment {
    pub dim: usize,
    pub segment_type: SegmentType,
    pub appendable: bool,
    pub entries: Vec<PointEntry>,
    pub index_schema: Vec<String>,
    pub schema_version: u64,
    pub max_applied: u64,
    pub flushed_version: u64,
}

impl Segment {
    /// Well-formedness: a bounded dimension, unique entry ids, and every
    /// stored vector of the segment's dimension with bounded components.
    pub open spec fn wf(self) -> bool {
        &&& self.dim <= MAX_DIM
        &&& entry_ids_distinct(self.entries@)
        &&& forall|i: int|
            0 <= i < self.entries@.len() ==> (#[trigger] self.entries@[i]).vector@.len()
                == self.dim && bounded_vec(self.entries@[i].vector@)
    }

    /// The id-keyed ghost image of this segment.
    pub open spec fn point_map(self) -> Map<u64, PointSnap> {
        entries_map(self.entries@)
    }

    /// Everything but the stored points, unchanged.
    pub open spec fn same_config(self, other: Segment) -> bool {
        &&& self.dim == other.dim
        &&& self.segment_type == other.segment_type
        &&& self.appendable == other.appendable
        &&& self.index_schema@ == other.index_schema@
        &&& self.schema_version == other.schema_version
        &&& self.flushed_version == other.flushed_version
    }

    /// A fresh empty segment.
    pub fn new(dim: usize, segment_type: SegmentType, appendable: bool) -> (r: Segment)
        requires
            dim <= MAX_DIM,
        ensures
            r.wf(),
            r.dim == dim,
            r.segment_type == segment_type,
            r.appendable == appendable,
            r.point_map() == Map::<u64, PointSnap>::empty(),
            r.index_schema@.len() == 0,
            r.schema_version == 0,
            r.max_applied == 0,
            r.flushed_version == 0,
    {
        Segment {
            dim,
            segment_type,
            appendable,
            entries: Vec::new(),
            index_schema: Vec::new(),
            schema_version: 0,
            max_applied: 0,
            flushed_version: 0,
        }
    }

    fn find_entry(&self, id: u64) -> (r: Option<usize>)
        ensures
            match r {
                Option::Some(i) => i < self.entries@.len() && self.entries@[i as int].id == id,
                Option::None => forall|w: int|
                    0 <= w < self.entries@.len() ==> (#[trigger] self.entries@[w]).id != id,
            },
    {
        let mut i: usize = 0;
        while i < self.entries.len()
            invariant
                i <= self.entries@.len(),
                forall|w: int| 0 <= w < i ==> (#[trigger] self.entries@[w]).id != id,
            decreases self.entries@.len() - i,
        {
            if self.entries[i].id == id {
                return Option::Some(i);
            }
            i = i + 1;
        }
        Option::None
    }

    fn replace_entry(&mut self, i: usize, e: PointEntry)
        requires
            old(self).wf(),
            i < old(self).entries@.len(),
            e.id == old(self).entries@[i as int].id,
            e.vector@.len() == old(self).dim,
            bounded_vec(e.vector@),
        ensures
            final(self).wf(),
            final(self).point_map() == old(self).point_map().insert(e.id, e.snap()),
            final(self).same_config(*old(self)),
            final(self).max_applied == old(self).max_applied,
    {
        let ghost s = self.entries@;
        let ghost id = e.id;
        let _old_e = self.entries.remove(i);
        let ghost rm = self.entries@;
        proof {
            lemma_entries_map_remove(s, i as int);
            assert(entry_ids_distinct(rm)) by {
                assert forall|a: int, b: int| 0 <= a < b < rm.len() implies (#[trigger] rm[a]).id
                    != (#[trigger] rm[b]).id by {
                    let oa: int = if a < i {
                        a
                    } else {
                        a + 1
                    };
                    let ob: int = if b < i {
                        b
                    } else {
                        b + 1
                    };
                    assert(rm[a] == s[oa] && rm[b] == s[ob]);
                }
            }
            assert forall|w: int| 0 <= w < rm.len() implies (#[trigger] rm[w]).id != id by {
                let ow: int = if w < i {
                    w
                } else {
                    w + 1
                };
                assert(rm[w] == s[ow]);
                if s[ow].id == id {
                    if ow < i {
                        assert(s[ow].id != s[i as int].id);
                    } else {
                        assert(s[i as int].id != s[ow].id);
                    }
                }
            }
        }
        self.entries.push(e);
        proof {
            lemma_entries_map_push(rm, e);
            assert(self.point_map() =~= old(self).point_map().insert(e.id, e.snap()));
            assert(entry_ids_distinct(self.entries@)) by {
                assert forall|a: int, b: int| 0 <= a < b < self.entries@.len() implies (
                #[trigger] self.entries@[a]).id != (#[trigger] self.entries@[b]).id by {
                    if b == self.entries@.len() - 1 {
                        assert(self.entries@[a] == rm[a]);
                        assert(self.entries@[b] == e);
                    } else {
                        assert(self.entries@[a] == rm[a] && self.entries@[b] == rm[b]);
                    }
                }
            }
            assert forall|w: int| 0 <= w < self.entries@.len() implies (
            #[trigger] self.entries@[w]).vector@.len() == self.dim && bounded_vec(
                self.entries@[w].vector@,
            ) by {
                if w < self.entries@.len() - 1 {
                    let ow: int = if w < i {
                        w
                    } else {
                        w + 1
                    };
                    assert(self.entries@[w] == s[ow]);
                }
            }
        }
    }

    /// Inserts or replaces a point. Rejects a vector of the wrong dimension
    /// or with out-of-range components; an `op_num` at or below the stored
    /// version is dropped by the idempotence guard.
    pub fn upsert_point(
        &mut self,
        op_num: u64,
        id: u64,
        vector: &Vec<i64>,
        payload: &Vec<PayloadEntry>,
    ) -> (res: Result<bool, CollectionError>)
        requires
            old(self).wf(),
        ensures
            final(self).wf(),
            res is Err <==> !(vector@.len() == old(self).dim && bounded_vec(vector@)),
            res is Err ==> *final(self) == *old(self) && res == Err::<bool, CollectionError>(
                CollectionError::BadInput,
            ),
            res is Ok ==> final(self).point_map() == upsert_snap(
                old(self).point_map(),
                op_num,
                id,
                vector@,
                payload_view(payload@),
            ) && final(self).same_config(*old(self)),
            res == Ok::<bool, CollectionError>(true) <==> (res is Ok && upsert_applies(
                old(self).point_map(),
                op_num,
                id,
            )),
            res is Ok ==> final(self).max_applied == if upsert_applies(
                old(self).point_map(),
                op_num,
                id,
            ) && old(self).max_applied < op_num {
                op_num
            } else {
                old(self).max_applied
            },
    {
        if vector.len() != self.dim {
            return Err(CollectionError::BadInput);
        }
        let mut ok = true;
        let mut ci: usize = 0;
        while ci < vector.len()
            invariant
                ci <= vector@.len(),
                ok == (forall|w: int|
                    0 <= w < ci ==> -(MAX_COMPONENT as int) <= #[trigger] vector@[w]
                        <= MAX_COMPONENT as int),
            decreases vector@.len() - ci,
        {
            if vector[ci] > MAX_COMPONENT || vector[ci] < -MAX_COMPONENT {
                ok = false;
            }
            ci = ci + 1;
        }
        if !ok {
            return Err(CollectionError::BadInput);
        }
        let e = PointEntry {
            id,
            version: op_num,
            deleted: false,
            vector: clone_vector(vector),
            payload: clone_payload(payload),
        };
        assert(e.snap() == PointSnap {
            version: op_num,
            deleted: false,
            vector: vector@,
            payload: payload_view(payload@),
        });
        match self.find_entry(id) {
            Option::Some(i) => {
                proof {
                    lemma_entries_map_value(self.entries@, i as int);
                }
                if op_num <= self.entries[i].version {
                    return Ok(false);
                }
                self.replace_entry(i, e);
                if self.max_applied < op_num {
                    self.max_applied = op_num;
                }
                Ok(true)
            },
            Option::None => {
                proof {
                    lemma_entries_map_contains(self.entries@, id);
                    lemma_entries_map_push(self.entries@, e);
                }
                let ghost s = self.entries@;
                self.entries.push(e);
                if self.max_applied < op_num {
                    self.max_applied = op_num;
                }
                proof {
                    assert(entry_ids_distinct(self.entries@)) by {
                        assert forall|a: int, b: int| 0 <= a < b < self.entries@.len() implies (
                        #[trigger] self.entries@[a]).id != (#[trigger] self.entries@[b]).id by {
                            if b == self.entries@.len() - 1 {
                                assert(self.entries@[a] == s[a]);
                            } else {
                                assert(self.entries@[a] == s[a] && self.entries@[b] == s[b]);
                            }
                        }
                    }
                    assert forall|w: int| 0 <= w < self.entries@.len() implies (
                    #[trigger] self.entries@[w]).vector@.len() == self.dim && bounded_vec(
                        self.entries@[w].vector@,
                    ) by {
                        if w < self.entries@.len() - 1 {
                            assert(self.entries@[w] == s[w]);
                        }
                    }
                }
                Ok(true)
            },
        }
    }

    /// Marks a live point as deleted, keeping a tombstone that carries the
    /// delete's `op_num` so that replay stays idempotent. Returns whether a
    /// point was deleted.
    pub fn delete_point(&mut self, op_num: u64, id: u64) -> (res: bool)
        requires
            old(self).wf(),
        ensures
            final(self).wf(),
            final(self).point_map() == delete_snap(old(self).point_map(), op_num, id),
            final(self).same_config(*old(self)),
            res <==> (old(self).point_map().contains_key(id) && op_num > old(
                self,
            ).point_map()[id].version && !old(self).point_map()[id].deleted),
            final(self).max_applied == if res && old(self).max_applied < op_num {
                op_num
            } else {
                old(self).max_applied
            },
    {
        match self.find_entry(id) {
            Option::Some(i) => {
                proof {
                    lemma_entries_map_value(self.entries@, i as int);
                }
                if self.entries[i].deleted || op_num <= self.entries[i].version {
                    return false;
                }
                let e = PointEntry {
                    id,
                    version: op_num,
                    deleted: true,
                    vector: clone_vector(&self.entries[i].vector),
                    payload: clone_payload(&self.entries[i].payload),
                };
                self.replace_entry(i, e);
                if self.max_applied < op_num {
                    self.max_applied = op_num;
                }
                true
            },
            Option::None => {
                proof {
                    lemma_entries_map_contains(self.entries@, id);
                }
                false
            },
        }
    }

    pub(crate) fn payload_remove_key(p: &Vec<PayloadEntry>, key: &String) -> (r: Vec<PayloadEntry>)
        ensures
            payload_view(r@) == payload_remove_snap(payload_view(p@), key@),
    {
        let mut r: Vec<PayloadEntry> = Vec::new();
        let mut i: usize = 0;
        while i < p.len()
            invariant
                i <= p@.len(),
                payload_view(r@) == payload_remove_snap(payload_view(p@).take(i as int), key@),
            decreases p@.len() - i,
        {
            let ghost prefix = payload_view(p@).take(i as int);
            let ghost x = p@[i as int]@;
            proof {
                assert(payload_view(p@).take(i + 1) =~= prefix.push(x));
                assert(prefix.push(x).drop_last() =~= prefix);
                assert(prefix.push(x).last() == x);
            }
            if !(p[i].key == *key) {
                let ghost rv = payload_view(r@);
                let e = PayloadEntry { key: p[i].key.clone(), values: clone_string_vec(&p[i].values) };
                assert(e@ =~= x);
                r.push(e);
                proof {
                    assert(payload_view(r@) =~= rv.push(x));
                    assert(payload_view(r@) == payload_remove_snap(payload_view(p@).take(i + 1), key@));
                }
            } else {
                proof {
                    assert(x.key == key@);
                    assert(payload_view(r@) == payload_remove_snap(payload_view(p@).take(i + 1), key@));
                }
            }
            i = i + 1;
        }
        proof {
            assert(payload_view(p@).take(p@.len() as int) =~= payload_view(p@));
        }
        r
    }

    /// Binds one payload key of a live point to a keyword list. Fails with
    /// `NotFound` exactly when the point is absent or deleted.
    pub fn set_payload(
        &mut self,
        op_num: u64,
        id: u64,
        key: &String,
        values: &Vec<String>,
    ) -> (res: Result<bool, CollectionError>)
        requires
            old(self).wf(),
        ensures
            final(self).wf(),
            final(self).point_map() == set_payload_snap(
                old(self).point_map(),
                op_num,
                id,
                key@,
                values.deep_view(),
            ),
            final(self).same_config(*old(self)),
            res is Err <==> !(old(self).point_map().contains_key(id) && !old(
                self,
            ).point_map()[id].deleted),
            res is Err ==> res == Err::<bool, CollectionError>(CollectionError::NotFound),
            res == Ok::<bool, CollectionError>(true) <==> (res is Ok && op_num > old(
                self,
            ).point_map()[id].version),
            final(self).max_applied == if res == Ok::<bool, CollectionError>(true) && old(
                self,
            ).max_applied < op_num {
                op_num
            } else {
                old(self).max_applied
            },
    {
        match self.find_entry(id) {
            Option::Some(i) => {
                proof {
                    lemma_entries_map_value(self.entries@, i as int);
                }
                if self.entries[i].deleted {
                    return Err(CollectionError::NotFound);
                }
                if op_num <= self.entries[i].version {
                    return Ok(false);
                }
                let mut np = Self::payload_remove_key(&self.entries[i].payload, key);
                let ne = PayloadEntry { key: key.clone(), values: clone_string_vec(values) };
                assert(ne@ =~= (PayloadSnap { key: key@, values: values.deep_view() }));
                let ghost npv = payload_view(np@);
                np.push(ne);
                proof {
                    assert(payload_view(np@) =~= npv.push(ne@));
                }
                let e = PointEntry {
                    id,
                    version: op_num,
                    deleted: false,
                    vector: clone_vector(&self.entries[i].vector),
                    payload: np,
                };
                self.replace_entry(i, e);
                if self.max_applied < op_num {
                    self.max_applied = op_num;
                }
                Ok(true)
            },
            Option::None => {
                proof {
                    lemma_entries_map_contains(self.entries@, id);
                }
                Err(CollectionError::NotFound)
            },
        }
    }

    /// Removes one payload key of a live point. Fails with `NotFound` exactly
    /// when the point is absent or deleted.
    pub fn delete_payload(&mut self, op_num: u64, id: u64, key: &String) -> (res: Result<
        bool,
        CollectionError,
    >)
        requires
            old(self).wf(),
        ensures
            final(self).wf(),
            final(self).point_map() == delete_payload_snap(old(self).point_map(), op_num, id, key@),
            final(self).same_config(*old(self)),
            res is Err <==> !(old(self).point_map().contains_key(id) && !old(
                self,
            ).point_map()[id].deleted),
            res is Err ==> res == Err::<bool, CollectionError>(CollectionError::NotFound),
            res == Ok::<bool, CollectionError>(true) <==> (res is Ok && op_num > old(
                self,
            ).point_map()[id].version),
            final(self).max_applied == if res == Ok::<bool, CollectionError>(true) && old(
                self,
            ).max_applied < op_num {
                op_num
            } else {
                old(self).max_applied
            },
    {
        match self.find_entry(id) {
            Option::Some(i) => {
                proof {
                    lemma_entries_map_value(self.entries@, i as int);
                }
                if self.entries[i].deleted {
                    return Err(CollectionError::NotFound);
                }
                if op_num <= self.entries[i].version {
                    return Ok(false);
                }
                let np = Self::payload_remove_key(&self.entries[i].payload, key);
                let e = PointEntry {
                    id,
                    version: op_num,
                    deleted: false,
                    vector: clone_vector(&self.entries[i].vector),
                    payload: np,
                };
                self.replace_entry(i, e);
                if self.max_applied < op_num {
                    self.max_applied = op_num;
                }
                Ok(true)
            },
            Option::None => {
                proof {
                    lemma_entries_map_contains(self.entries@, id);
                }
                Err(CollectionError::NotFound)
            },
        }
    }

    /// Clears the whole payload of a live point. Fails with `NotFound`
    /// exactly when the point is absent or deleted.
    pub fn clear_payload(&mut self, op_num: u64, id: u64) -> (res: Result<bool, CollectionError>)
        requires
            old(self).wf(),
        ensures
            final(self).wf(),
            final(self).point_map() == clear_payload_snap(old(self).point_map(), op_num, id),
            final(self).same_config(*old(self)),
            res is Err <==> !(old(self).point_map().contains_key(id) && !old(
                self,
            ).point_map()[id].deleted),
            res is Err ==> res == Err::<bool, CollectionError>(CollectionError::NotFound),
            res == Ok::<bool, CollectionError>(true) <==> (res is Ok && op_num > old(
                self,
            ).point_map()[id].version),
            final(self).max_applied == if res == Ok::<bool, CollectionError>(true) && old(
                self,
            ).max_applied < op_num {
                op_num
            } else {
                old(self).max_applied
            },
    {
        match self.find_entry(id) {
            Option::Some(i) => {
                proof {
                    lemma_entries_map_value(self.entries@, i as int);
                }
                if self.entries[i].deleted {
                    return Err(CollectionError::NotFound);
                }
                if op_num <= self.entries[i].version {
                    return Ok(false);
                }
                let e = PointEntry {
                    id,
                    version: op_num,
                    deleted: false,
                    vector: clone_vector(&self.entries[i].vector),
                    payload: Vec::new(),
                };
                assert(payload_view(e.payload@) =~= Seq::<PayloadSnap>::empty());
                self.replace_entry(i, e);
                if self.max_applied < op_num {
                    self.max_applied = op_num;
                }
                Ok(true)
            },
            Option::None => {
                proof {
                    lemma_entries_map_contains(self.entries@, id);
                }
                Err(CollectionError::NotFound)
            },
        }
    }
}

pub proof fn lemma_entries_map_remove(s: Seq<PointEntry>, i: int)
    requires
        entry_ids_distinct(s),
        0 <= i < s.len(),
    ensures
        entries_map(s.remove(i)) == entries_map(s).remove(s[i].id),
    decreases s.len(),
{
    let t = s.remove(i);
    if i == s.len() - 1 {
        assert(t =~= s.drop_last());
        lemma_entries_map_contains(s.drop_last(), s[i].id);
        assert(!entries_map(s.drop_last()).contains_key(s[i].id)) by {
            if exists|w: int|
                0 <= w < s.drop_last().len() && (#[trigger] s.drop_last()[w]).id == s[i].id {
                let w = choose|w: int|
                    0 <= w < s.drop_last().len() && (#[trigger] s.drop_last()[w]).id == s[i].id;
                assert(s[w].id == s[i].id);
            }
        }
        assert(entries_map(t) =~= entries_map(s).remove(s[i].id));
    } else {
        assert(entry_ids_distinct(s.drop_last())) by {
            assert(forall|a: int, b: int|
                0 <= a < b < s.drop_last().len() ==> s.drop_last()[a] == s[a] && s.drop_last()[b]
                    == s[b]);
        }
        assert(t.drop_last() =~= s.drop_last().remove(i));
        assert(t.last() == s.last());
        assert(s.drop_last()[i] == s[i]);
        lemma_entries_map_remove(s.drop_last(), i);
        assert(s.last().id != s[i].id);
        assert(entries_map(t) =~= entries_map(s).remove(s[i].id));
    }
}

/// Integer dot product of two equally long vectors.
pub open spec fn spec_dot(a: Seq<i64>, b: Seq<i64>) -> int
    decreases a.len(),
{
    if a.len() == 0 || b.len() == 0 {
        0
    } else {
        spec_dot(a.drop_last(), b.drop_last()) + a.last() * b.last()
    }
}

/// The payload binds `key` to a list that contains `value`.
pub open spec fn payload_has(p: Seq<PayloadSnap>, key: Seq<char>, value: Seq<char>) -> bool {
    exists|i: int| 0 <= i < p.len() && (#[trigger] p[i]).key == key && p[i].values.contains(value)
}

/// Ghost image of an optional borrowed filter.
pub open spec fn opt_filter(f: Option<&Filter>) -> Option<Filter> {
    match f {
        Option::Some(x) => Option::Some(*x),
        Option::None => Option::None,
    }
}

/// The point is live and matches the filter, if one is given.
pub open spec fn snap_passes(p: PointSnap, f: Option<Filter>) -> bool {
    &&& !p.deleted
    &&& match f {
        Option::None => true,
        Option::Some(ff) => payload_has(p.payload, ff.key@, ff.value@),
    }
}

/// `p` reports a live matching point with its stored version and its exact
/// dot-product score against `q`.
pub open spec fn cand_ok(
    m: Map<u64, PointSnap>,
    q: Seq<i64>,
    f: Option<Filter>,
    p: ScoredPoint,
) -> bool {
    &&& m.contains_key(p.id)
    &&& snap_passes(m[p.id], f)
    &&& p.version == m[p.id].version
    &&& p.score as int == spec_dot(m[p.id].vector, q)
}

/// An id eligible for a filtered scan: live, matching, at or past the offset.
pub open spec fn read_cand(
    m: Map<u64, PointSnap>,
    f: Option<Filter>,
    off: Option<u64>,
    id: u64,
) -> bool {
    &&& m.contains_key(id)
    &&& snap_passes(m[id], f)
    &&& match off {
        Option::None => true,
        Option::Some(o) => id >= o,
    }
}

/// How many of the entries are live and match the filter.
pub open spec fn count_matching(s: Seq<PointEntry>, f: Option<Filter>) -> int
    decreases s.len(),
{
    if s.len() == 0 {
        0
    } else {
        count_matching(s.drop_last(), f) + if snap_passes(s.last().snap(), f) {
            1int
        } else {
            0int
        }
    }
}

/// The schema with `key` removed.
pub open spec fn schema_remove(s: Seq<Seq<char>>, key: Seq<char>) -> Seq<Seq<char>>
    decreases s.len(),
{
    if s.len() == 0 {
        Seq::empty()
    } else {
        let rest = schema_remove(s.drop_last(), key);
        if s.last() == key {
            rest
        } else {
            rest.push(s.last())
        }
    }
}

fn value_list_contains(values: &Vec<String>, value: &String) -> (r: bool)
    ensures
        r == values.deep_view().contains(value@),
{
    let mut j: usize = 0;
    while j < values.len()
        invariant
            j <= values@.len(),
            forall|w: int| 0 <= w < j ==> values.deep_view()[w] != value@,
        decreases values@.len() - j,
    {
        if values[j] == *value {
            assert(values.deep_view()[j as int] == value@);
            return true;
        }
        j = j + 1;
    }
    proof {
        if values.deep_view().contains(value@) {
            let w = choose|w: int|
                0 <= w < values.deep_view().len() && values.deep_view()[w] == value@;
        }
    }
    false
}

fn payload_matches(p: &Vec<PayloadEntry>, f: &Filter) -> (r: bool)
    ensures
        r == payload_has(payload_view(p@), f.key@, f.value@),
{
    let mut i: usize = 0;
    while i < p.len()
        invariant
            i <= p@.len(),
            forall|w: int|
                0 <= w < i ==> !((#[trigger] payload_view(p@)[w]).key == f.key@ && payload_view(
                    p@,
                )[w].values.contains(f.value@)),
        decreases p@.len() - i,
    {
        if p[i].key == f.key {
            if value_list_contains(&p[i].values, &f.value) {
                assert(payload_view(p@)[i as int].key == f.key@ && payload_view(
                    p@,
                )[i as int].values.contains(f.value@));
                return true;
            }
        }
        i = i + 1;
    }
    proof {
        if payload_has(payload_view(p@), f.key@, f.value@) {
            let w = choose|w: int|
                0 <= w < payload_view(p@).len() && (#[trigger] payload_view(p@)[w]).key == f.key@
                    && payload_view(p@)[w].values.contains(f.value@);
        }
    }
    false
}

fn entry_passes(e: &PointEntry, filter: Option<&Filter>) -> (r: bool)
    ensures
        r == snap_passes(e.snap(), opt_filter(filter)),
{
    if e.deleted {
        return false;
    }
    match filter {
        Option::None => true,
        Option::Some(f) => payload_matches(&e.payload, f),
    }
}

/// Dot product; bounded components keep the sum inside `i64`.
pub fn dot_product(a: &Vec<i64>, b: &Vec<i64>) -> (r: i64)
    requires
        a@.len() == b@.len(),
        a@.len() <= MAX_DIM,
        bounded_vec(a@),
        bounded_vec(b@),
    ensures
        r as int == spec_dot(a@, b@),
{
    let mut acc: i64 = 0;
    let mut i: usize = 0;
    while i < a.len()
        invariant
            i <= a@.len(),
            a@.len() == b@.len(),
            a@.len() <= MAX_DIM,
            bounded_vec(a@),
            bounded_vec(b@),
            acc as int == spec_dot(a@.take(i as int), b@.take(i as int)),
            -(i as int) * 1099511627776 <= acc as int <= (i as int) * 1099511627776,
        decreases a@.len() - i,
    {
        let x = a[i];
        let y = b[i];
        proof {
            assert(-1048576 <= x <= 1048576 && -1048576 <= y <= 1048576);
            assert(-1099511627776 <= x * y <= 1099511627776) by (nonlinear_arith)
                requires
                    -1048576 <= x <= 1048576,
                    -1048576 <= y <= 1048576,
            ;
            assert(a@.take(i + 1).drop_last() =~= a@.take(i as int));
            assert(b@.take(i + 1).drop_last() =~= b@.take(i as int));
            assert(a@.take(i + 1).last() == x);
            assert(b@.take(i + 1).last() == y);
        }
        acc = acc + x * y;
        i = i + 1;
    }
    proof {
        assert(a@.take(a@.len() as int) =~= a@);
        assert(b@.take(b@.len() as int) =~= b@);
    }
    acc
}

/// `p` arises from one of the first `n` entries.
pub open spec fn entry_hit(e: PointEntry, q: Seq<i64>, f: Option<Filter>, p: ScoredPoint) -> bool {
    &&& e.id == p.id
    &&& e.version == p.version
    &&& snap_passes(e.snap(), f)
    &&& p.score as int == spec_dot(e.vector@, q)
}

pub open spec fn from_entry(
    entries: Seq<PointEntry>,
    n: int,
    q: Seq<i64>,
    f: Option<Filter>,
    p: ScoredPoint,
) -> bool {
    exists|w: int| 0 <= w < n && #[trigger] entry_hit(entries[w], q, f, p)
}

/// `id` arises from one of the first `n` entries of a filtered scan.
pub open spec fn id_entry_hit(e: PointEntry, f: Option<Filter>, off: Option<u64>, id: u64) -> bool {
    &&& e.id == id
    &&& snap_passes(e.snap(), f)
    &&& (off is Some ==> id >= off.unwrap())
}

pub open spec fn id_from_entry(
    entries: Seq<PointEntry>,
    n: int,
    f: Option<Filter>,
    off: Option<u64>,
    id: u64,
) -> bool {
    exists|w: int| 0 <= w < n && #[trigger] id_entry_hit(entries[w], f, off, id)
}

impl Segment {
    /// Scores every live matching point against the query, one entry per id,
    /// in no particular order.
    pub fn scored_candidates(&self, query: &Vec<i64>, filter: Option<&Filter>) -> (c: Vec<
        ScoredPoint,
    >)
        requires
            self.wf(),
            query@.len() == self.dim,
            bounded_vec(query@),
        ensures
            distinct_ids(c@),
            forall|k: int|
                0 <= k < c@.len() ==> cand_ok(
                    self.point_map(),
                    query@,
                    opt_filter(filter),
                    #[trigger] c@[k],
                ),
            forall|id: u64|
                self.point_map().contains_key(id) && snap_passes(
                    #[trigger] self.point_map()[id],
                    opt_filter(filter),
                ) ==> contains_id(c@, id),
    {
        let ghost f = opt_filter(filter);
        let ghost q = query@;
        let mut c: Vec<ScoredPoint> = Vec::new();
        let mut i: usize = 0;
        while i < self.entries.len()
            invariant
                i <= self.entries@.len(),
                self.wf(),
                query@.len() == self.dim,
                bounded_vec(query@),
                q == query@,
                f == opt_filter(filter),
                distinct_ids(c@),
                forall|k: int|
                    0 <= k < c@.len() ==> from_entry(self.entries@, i as int, q, f, #[trigger] c@[k]),
                forall|w: int|
                    0 <= w < i && snap_passes((#[trigger] self.entries@[w]).snap(), f)
                        ==> contains_id(c@, self.entries@[w].id),
            decreases self.entries@.len() - i,
        {
            let ghost prev = c@;
            if entry_passes(&self.entries[i], filter) {
                let score = dot_product(&self.entries[i].vector, query);
                let sp = ScoredPoint {
                    id: self.entries[i].id,
                    version: self.entries[i].version,
                    score,
                };
                proof {
                    assert(entry_hit(self.entries@[i as int], q, f, sp));
                }
                c.push(sp);
                proof {
                    assert(distinct_ids(c@)) by {
                        assert forall|x: int, y: int| 0 <= x < y < c@.len() implies (
                        #[trigger] c@[x]).id != (#[trigger] c@[y]).id by {
                            if y == c@.len() - 1 {
                                assert(c@[x] == prev[x]);
                                let w = choose|w: int|
                                    0 <= w < i && #[trigger] entry_hit(self.entries@[w], q, f, prev[x]);
                                if self.entries@[w].id == sp.id {
                                    assert(self.entries@[w].id != self.entries@[i as int].id);
                                }
                            } else {
                                assert(c@[x] == prev[x] && c@[y] == prev[y]);
                            }
                        }
                    }
                    assert forall|k: int| 0 <= k < c@.len() implies from_entry(
                        self.entries@,
                        i + 1,
                        q,
                        f,
                        #[trigger] c@[k],
                    ) by {
                        if k < prev.len() {
                            assert(c@[k] == prev[k]);
                            let w = choose|w: int|
                                0 <= w < i && #[trigger] entry_hit(self.entries@[w], q, f, prev[k]);
                            assert(entry_hit(self.entries@[w], q, f, c@[k]));
                        } else {
                            assert(c@[k] == sp);
                            assert(entry_hit(self.entries@[i as int], q, f, sp));
                        }
                    }
                    assert forall|w: int|
                        0 <= w < i + 1 && snap_passes((#[trigger] self.entries@[w]).snap(), f)
                            implies contains_id(c@, self.entries@[w].id) by {
                        if w < i {
                            assert(contains_id(prev, self.entries@[w].id));
                            let u = choose|u: int|
                                0 <= u < prev.len() && prev[u].id == self.entries@[w].id;
                            assert(c@[u].id == self.entries@[w].id);
                        } else {
                            assert(c@[c@.len() - 1].id == self.entries@[w].id);
                        }
                    }
                }
            } else {
                proof {
                    assert forall|k: int| 0 <= k < c@.len() implies from_entry(
                        self.entries@,
                        i + 1,
                        q,
                        f,
                        #[trigger] c@[k],
                    ) by {
                        let w = choose|w: int|
                            0 <= w < i && #[trigger] entry_hit(self.entries@[w], q, f, c@[k]);
                        assert(entry_hit(self.entries@[w], q, f, c@[k]));
                    }
                }
            }
            i = i + 1;
        }
        proof {
            let m = self.point_map();
            assert forall|k: int| 0 <= k < c@.len() implies cand_ok(m, q, f, #[trigger] c@[k]) by {
                let w = choose|w: int|
                    0 <= w < self.entries@.len() && #[trigger] entry_hit(
                        self.entries@[w],
                        q,
                        f,
                        c@[k],
                    );
                lemma_entries_map_value(self.entries@, w);
            }
            assert forall|id: u64| m.contains_key(id) && snap_passes(#[trigger] m[id], f) implies
                contains_id(c@, id) by {
                lemma_entries_map_contains(self.entries@, id);
                let w = choose|w: int|
                    0 <= w < self.entries@.len() && (#[trigger] self.entries@[w]).id == id;
                lemma_entries_map_value(self.entries@, w);
            }
        }
        c
    }

    /// Top results for one query against this segment alone: every live
    /// matching point scored, ordered by score descending then id ascending,
    /// cut to `top`. Anything left out ranks strictly below the last result.
    pub fn search(&self, query: &Vec<i64>, filter: Option<&Filter>, top: usize) -> (r: Vec<
        ScoredPoint,
    >)
        requires
            self.wf(),
            query@.len() == self.dim,
            bounded_vec(query@),
        ensures
            ranked(r@),
            distinct_ids(r@),
            r@.len() <= top,
            forall|k: int|
                0 <= k < r@.len() ==> cand_ok(
                    self.point_map(),
                    query@,
                    opt_filter(filter),
                    #[trigger] r@[k],
                ),
            forall|id: u64|
                self.point_map().contains_key(id) && snap_passes(
                    #[trigger] self.point_map()[id],
                    opt_filter(filter),
                ) && !contains_id(r@, id) ==> r@.len() == top && (r@.len() > 0 ==> (r@[r@.len()
                    - 1].score > spec_dot(self.point_map()[id].vector, query@) || (r@[r@.len()
                    - 1].score == spec_dot(self.point_map()[id].vector, query@) && r@[r@.len()
                    - 1].id < id))),
    {
        broadcast use vstd::seq_lib::group_to_multiset_ensures;

        let ghost f = opt_filter(filter);
        let ghost q = query@;
        let ghost m = self.point_map();
        let cands = self.scored_candidates(query, filter);
        let sorted = crate::ranking::sort_scored(cands);
        proof {
            crate::ranking::lemma_perm_distinct_ids(cands@, sorted@);
        }
        let r = crate::ranking::page_ranked(&sorted, Distance::Dot, Option::None, top);
        proof {
            assert forall|k: int| 0 <= k < r@.len() implies cand_ok(m, q, f, #[trigger] r@[k]) by {
                assert(r@[k] == sorted@[k]);
                assert(sorted@.contains(sorted@[k]));
                assert(sorted@.to_multiset().count(sorted@[k]) > 0);
                assert(cands@.to_multiset().count(sorted@[k]) > 0);
                assert(cands@.contains(sorted@[k]));
                let w = choose|w: int| 0 <= w < cands@.len() && cands@[w] == sorted@[k];
                assert(cand_ok(m, q, f, cands@[w]));
            }
            assert forall|id: u64|
                m.contains_key(id) && snap_passes(#[trigger] m[id], f) && !contains_id(r@, id)
                    implies r@.len() == top && (r@.len() > 0 ==> (r@[r@.len() - 1].score
                    > spec_dot(m[id].vector, q) || (r@[r@.len() - 1].score == spec_dot(
                    m[id].vector,
                    q,
                ) && r@[r@.len() - 1].id < id))) by {
                assert(contains_id(cands@, id));
                let w = choose|w: int| 0 <= w < cands@.len() && (#[trigger] cands@[w]).id == id;
                let v = cands@[w];
                assert(cands@.contains(v));
                assert(cands@.to_multiset().count(v) > 0);
                assert(sorted@.to_multiset().count(v) > 0);
                assert(sorted@.contains(v));
                let sw = choose|sw: int| 0 <= sw < sorted@.len() && sorted@[sw] == v;
                assert(r@.len() <= sorted@.len());
                if sw < r@.len() {
                    assert(r@[sw] == sorted@[sw]);
                    assert(contains_id(r@, id));
                }
                if r@.len() < top {
                    assert(r@.len() == sorted@.len() || !crate::ranking::meets_threshold(
                        Distance::Dot,
                        sorted@[r@.len() as int].score,
                        Option::None,
                    ));
                    assert(false);
                }
                assert(r@.len() == top);
                if r@.len() > 0 {
                    let last = r@[r@.len() - 1];
                    assert(last == sorted@[r@.len() - 1]);
                    if sw > r@.len() - 1 {
                        assert(crate::ranking::rank_le(sorted@[r@.len() - 1], sorted@[sw]));
                    }
                    assert(crate::ranking::rank_le(last, v));
                    assert(last.id != id) by {
                        if last.id == id {
                            assert(r@[r@.len() - 1].id == id);
                            assert(contains_id(r@, id));
                        }
                    }
                    assert(cand_ok(m, q, f, v));
                }
            }
        }
        r
    }

    /// Ids of live matching points at or past `offset`, ascending, cut to
    /// `limit` if one is given. Anything left out is larger than the last id.
    pub fn read_filtered(
        &self,
        offset: Option<u64>,
        limit: Option<usize>,
        filter: Option<&Filter>,
    ) -> (r: Vec<u64>)
        requires
            self.wf(),
        ensures
            crate::ranking::ids_strict(r@),
            forall|k: int|
                0 <= k < r@.len() ==> read_cand(
                    self.point_map(),
                    opt_filter(filter),
                    offset,
                    #[trigger] r@[k],
                ),
            forall|id: u64|
                read_cand(self.point_map(), opt_filter(filter), offset, id) && !r@.contains(id)
                    ==> limit is Some && r@.len() == limit.unwrap() && (r@.len() > 0 ==> r@[r@.len()
                    - 1] < id),
            limit is Some ==> r@.len() <= limit.unwrap(),
    {
        broadcast use vstd::seq_lib::group_to_multiset_ensures;

        let ghost f = opt_filter(filter);
        let ghost m = self.point_map();
        let mut ids: Vec<u64> = Vec::new();
        let mut i: usize = 0;
        while i < self.entries.len()
            invariant
                i <= self.entries@.len(),
                self.wf(),
                f == opt_filter(filter),
                forall|x: int, y: int| 0 <= x < y < ids@.len() ==> ids@[x] != ids@[y],
                forall|k: int|
                    0 <= k < ids@.len() ==> id_from_entry(
                        self.entries@,
                        i as int,
                        f,
                        offset,
                        #[trigger] ids@[k],
                    ),
                forall|w: int|
                    0 <= w < i && snap_passes((#[trigger] self.entries@[w]).snap(), f) && (
                    offset is Some ==> self.entries@[w].id >= offset.unwrap()) ==> ids@.contains(
                        self.entries@[w].id,
                    ),
            decreases self.entries@.len() - i,
        {
            let ghost prev = ids@;
            let e_id = self.entries[i].id;
            let in_range = match offset {
                Option::Some(o) => e_id >= o,
                Option::None => true,
            };
            if in_range && entry_passes(&self.entries[i], filter) {
                proof {
                    assert(id_entry_hit(self.entries@[i as int], f, offset, e_id));
                }
                ids.push(e_id);
                proof {
                    assert forall|x: int, y: int| 0 <= x < y < ids@.len() implies ids@[x]
                        != ids@[y] by {
                        if y == ids@.len() - 1 {
                            assert(ids@[x] == prev[x]);
                            let w = choose|w: int|
                                0 <= w < i && #[trigger] id_entry_hit(
                                    self.entries@[w],
                                    f,
                                    offset,
                                    prev[x],
                                );
                            if self.entries@[w].id == e_id {
                                assert(self.entries@[w].id != self.entries@[i as int].id);
                            }
                        } else {
                            assert(ids@[x] == prev[x] && ids@[y] == prev[y]);
                        }
                    }
                    assert forall|k: int| 0 <= k < ids@.len() implies id_from_entry(
                        self.entries@,
                        i + 1,
                        f,
                        offset,
                        #[trigger] ids@[k],
                    ) by {
                        if k < prev.len() {
                            assert(ids@[k] == prev[k]);
                            let w = choose|w: int|
                                0 <= w < i && #[trigger] id_entry_hit(
                                    self.entries@[w],
                                    f,
                                    offset,
                                    prev[k],
                                );
                            assert(id_entry_hit(self.entries@[w], f, offset, ids@[k]));
                        } else {
                            assert(id_entry_hit(self.entries@[i as int], f, offset, ids@[k]));
                        }
                    }
                    assert forall|w: int|
                        0 <= w < i + 1 && snap_passes((#[trigger] self.entries@[w]).snap(), f) && (
                        offset is Some ==> self.entries@[w].id >= offset.unwrap()) implies
                        ids@.contains(self.entries@[w].id) by {
                        if w < i {
                            assert(prev.contains(self.entries@[w].id));
                            let u = choose|u: int|
                                0 <= u < prev.len() && prev[u] == self.entries@[w].id;
                            assert(ids@[u] == self.entries@[w].id);
                        } else {
                            assert(ids@[ids@.len() - 1] == self.entries@[w].id);
                        }
                    }
                }
            }
            i = i + 1;
        }
        let sorted = crate::ranking::sort_ids(ids);
        proof {
            crate::ranking::lemma_sorted_distinct_strict(ids@, sorted@);
        }
        let mut r = sorted;
        let mut truncated = false;
        match limit {
            Option::Some(l) => {
                if r.len() > l {
                    r.truncate(l);
                    truncated = true;
                    proof {
                        assert(crate::ranking::ids_strict(r@)) by {
                            assert(forall|x: int, y: int|
                                0 <= x < y < r@.len() ==> r@[x] == sorted@[x] && r@[y]
                                    == sorted@[y]);
                        }
                    }
                }
            },
            Option::None => {},
        }
        proof {
            assert forall|k: int| 0 <= k < r@.len() implies read_cand(m, f, offset, #[trigger] r@[k])
                by {
                assert(r@[k] == sorted@[k]);
                assert(sorted@.contains(sorted@[k]));
                assert(sorted@.to_multiset().count(sorted@[k]) > 0);
                assert(ids@.to_multiset().count(sorted@[k]) > 0);
                assert(ids@.contains(sorted@[k]));
                let u = choose|u: int| 0 <= u < ids@.len() && ids@[u] == sorted@[k];
                assert(id_from_entry(self.entries@, self.entries@.len() as int, f, offset, ids@[u]));
                let w = choose|w: int|
                    0 <= w < self.entries@.len() && #[trigger] id_entry_hit(
                        self.entries@[w],
                        f,
                        offset,
                        ids@[u],
                    );
                lemma_entries_map_value(self.entries@, w);
            }
            assert forall|id: u64|
                read_cand(m, f, offset, id) && !r@.contains(id) implies limit is Some && r@.len()
                    == limit.unwrap() && (r@.len() > 0 ==> r@[r@.len() - 1] < id) by {
                lemma_entries_map_contains(self.entries@, id);
                let w = choose|w: int|
                    0 <= w < self.entries@.len() && (#[trigger] self.entries@[w]).id == id;
                lemma_entries_map_value(self.entries@, w);
                assert(ids@.contains(id));
                assert(ids@.to_multiset().count(id) > 0);
                assert(sorted@.to_multiset().count(id) > 0);
                assert(sorted@.contains(id));
                let sw = choose|sw: int| 0 <= sw < sorted@.len() && sorted@[sw] == id;
                if sw < r@.len() {
                    assert(r@[sw] == sorted@[sw]);
                    assert(r@.contains(id));
                }
                assert(r@.len() < sorted@.len());
                assert(limit is Some && r@.len() == limit.unwrap());
                if r@.len() > 0 {
                    assert(r@[r@.len() - 1] == sorted@[r@.len() - 1]);
                    assert(sorted@[r@.len() - 1] < sorted@[sw]);
                }
            }
        }
        r
    }

    /// Exact cardinality of the filtered live point set; this plain segment
    /// reports the same number as expectation, minimum and maximum.
    pub fn estimate_cardinality(&self, filter: Option<&Filter>) -> (r: CardinalityEstimation)
        requires
            self.wf(),
        ensures
            r.exp == count_matching(self.entries@, opt_filter(filter)),
            r.min == r.exp,
            r.max == r.exp,
    {
        let ghost f = opt_filter(filter);
        let mut n: usize = 0;
        let mut i: usize = 0;
        while i < self.entries.len()
            invariant
                i <= self.entries@.len(),
                self.wf(),
                f == opt_filter(filter),
                n <= i,
                n as int == count_matching(self.entries@.take(i as int), f),
            decreases self.entries@.len() - i,
        {
            proof {
                assert(self.entries@.take(i + 1).drop_last() =~= self.entries@.take(i as int));
                assert(self.entries@.take(i + 1).last() == self.entries@[i as int]);
            }
            if entry_passes(&self.entries[i], filter) {
                n = n + 1;
            }
            i = i + 1;
        }
        proof {
            assert(self.entries@.take(self.entries@.len() as int) =~= self.entries@);
        }
        CardinalityEstimation { exp: n, min: n, max: n }
    }

    /// Counts and schema of this segment. `num_points` counts live points;
    /// this segment stores one vector per point.
    pub fn info(&self) -> (r: SegmentInfo)
        requires
            self.wf(),
        ensures
            r.segment_type == self.segment_type,
            r.num_points as int == count_matching(self.entries@, Option::None),
            r.num_vectors == r.num_points,
            schema_seq(r.index_schema@) == schema_seq(self.index_schema@),
    {
        let est = self.estimate_cardinality(Option::None);
        let schema = clone_string_vec(&self.index_schema);
        proof {
            assert(schema.deep_view().len() == schema@.len());
            assert(self.index_schema.deep_view().len() == self.index_schema@.len());
            assert(schema_seq(schema@) =~= schema_seq(self.index_schema@)) by {
                assert forall|k: int| 0 <= k < schema@.len() implies schema_seq(schema@)[k]
                    == schema_seq(self.index_schema@)[k] by {
                    assert(schema.deep_view()[k] == schema@[k].deep_view());
                    assert(self.index_schema.deep_view()[k] == self.index_schema@[k].deep_view());
                }
            }
        }
        SegmentInfo {
            segment_type: self.segment_type,
            num_points: est.exp,
            num_vectors: est.exp,
            index_schema: schema,
        }
    }

    /// The live point under `id`, with vector and payload as requested.
    pub fn retrieve(&self, id: u64, with_vector: bool, with_payload: bool) -> (r: Option<Record>)
        requires
            self.wf(),
        ensures
            match r {
                Option::None => !(self.point_map().contains_key(id) && !self.point_map()[id].deleted),
                Option::Some(rec) => self.point_map().contains_key(id) && !self.point_map()[id].deleted
                    && rec.id == id && rec.version == self.point_map()[id].version && (match rec.vector {
                    Option::Some(v) => with_vector && v@ == self.point_map()[id].vector,
                    Option::None => !with_vector,
                }) && (match rec.payload {
                    Option::Some(p) => with_payload && payload_view(p@) == self.point_map()[id].payload,
                    Option::None => !with_payload,
                }),
            },
    {
        match self.find_entry(id) {
            Option::Some(i) => {
                proof {
                    lemma_entries_map_value(self.entries@, i as int);
                }
                if self.entries[i].deleted {
                    return Option::None;
                }
                let vector = if with_vector {
                    Option::Some(clone_vector(&self.entries[i].vector))
                } else {
                    Option::None
                };
                let payload = if with_payload {
                    Option::Some(clone_payload(&self.entries[i].payload))
                } else {
                    Option::None
                };
                Option::Some(
                    Record { id, version: self.entries[i].version, vector, payload },
                )
            },
            Option::None => {
                proof {
                    lemma_entries_map_contains(self.entries@, id);
                }
                Option::None
            },
        }
    }

    /// Whether a live point is stored under `id`.
    pub fn has_point(&self, id: u64) -> (r: bool)
        requires
            self.wf(),
        ensures
            r == (self.point_map().contains_key(id) && !self.point_map()[id].deleted),
    {
        match self.find_entry(id) {
            Option::Some(i) => {
                proof {
                    lemma_entries_map_value(self.entries@, i as int);
                }
                !self.entries[i].deleted
            },
            Option::None => {
                proof {
                    lemma_entries_map_contains(self.entries@, id);
                }
                false
            },
        }
    }

    /// The stored version under `id`, tombstones included.
    pub fn point_version(&self, id: u64) -> (r: Option<u64>)
        requires
            self.wf(),
        ensures
            match r {
                Option::Some(v) => self.point_map().contains_key(id) && self.point_map()[id].version
                    == v,
                Option::None => !self.point_map().contains_key(id),
            },
    {
        match self.find_entry(id) {
            Option::Some(i) => {
                proof {
                    lemma_entries_map_value(self.entries@, i as int);
                }
                Option::Some(self.entries[i].version)
            },
            Option::None => {
                proof {
                    lemma_entries_map_contains(self.entries@, id);
                }
                Option::None
            },
        }
    }

    fn schema_contains(&self, key: &String) -> (r: bool)
        ensures
            r == schema_has(schema_seq(self.index_schema@), key@),
    {
        let mut i: usize = 0;
        while i < self.index_schema.len()
            invariant
                i <= self.index_schema@.len(),
                forall|w: int| 0 <= w < i ==> schema_seq(self.index_schema@)[w] != key@,
            decreases self.index_schema@.len() - i,
        {
            if self.index_schema[i] == *key {
                assert(schema_seq(self.index_schema@)[i as int] == key@);
                return true;
            }
            i = i + 1;
        }
        proof {
            if schema_has(schema_seq(self.index_schema@), key@) {
                let w = choose|w: int|
                    0 <= w < schema_seq(self.index_schema@).len() && schema_seq(
                        self.index_schema@,
                    )[w] == key@;
            }
        }
        false
    }

    /// Adds a payload index key. Guarded by the schema version so that replay
    /// stays idempotent.
    pub fn create_field_index(&mut self, op_num: u64, key: &String) -> (applied: bool)
        requires
            old(self).wf(),
        ensures
            final(self).wf(),
            final(self).point_map() == old(self).point_map(),
            final(self).dim == old(self).dim,
            final(self).segment_type == old(self).segment_type,
            final(self).appendable == old(self).appendable,
            final(self).flushed_version == old(self).flushed_version,
            applied <==> op_num > old(self).schema_version,
            applied ==> final(self).schema_version == op_num && schema_seq(
                final(self).index_schema@,
            ) == if schema_has(schema_seq(old(self).index_schema@), key@) {
                schema_seq(old(self).index_schema@)
            } else {
                schema_seq(old(self).index_schema@).push(key@)
            },
            !applied ==> *final(self) == *old(self),
            final(self).max_applied == if applied && old(self).max_applied < op_num {
                op_num
            } else {
                old(self).max_applied
            },
    {
        if op_num <= self.schema_version {
            return false;
        }
        if !self.schema_contains(key) {
            let ghost s = self.index_schema@;
            self.index_schema.push(key.clone());
            proof {
                assert(schema_seq(self.index_schema@) =~= schema_seq(s).push(key@));
            }
        }
        self.schema_version = op_num;
        if self.max_applied < op_num {
            self.max_applied = op_num;
        }
        true
    }

    /// Removes a payload index key, under the same schema-version guard.
    pub fn drop_field_index(&mut self, op_num: u64, key: &String) -> (applied: bool)
        requires
            old(self).wf(),
        ensures
            final(self).wf(),
            final(self).point_map() == old(self).point_map(),
            final(self).dim == old(self).dim,
            final(self).segment_type == old(self).segment_type,
            final(self).appendable == old(self).appendable,
            final(self).flushed_version == old(self).flushed_version,
            applied <==> op_num > old(self).schema_version,
            applied ==> final(self).schema_version == op_num && schema_seq(
                final(self).index_schema@,
            ) == schema_remove(schema_seq(old(self).index_schema@), key@),
            !applied ==> *final(self) == *old(self),
            final(self).max_applied == if applied && old(self).max_applied < op_num {
                op_num
            } else {
                old(self).max_applied
            },
    {
        if op_num <= self.schema_version {
            return false;
        }
        let mut kept: Vec<String> = Vec::new();
        let mut i: usize = 0;
        while i < self.index_schema.len()
            invariant
                i <= self.index_schema@.len(),
                schema_seq(kept@) == schema_remove(
                    schema_seq(self.index_schema@).take(i as int),
                    key@,
                ),
            decreases self.index_schema@.len() - i,
        {
            let ghost prefix = schema_seq(self.index_schema@).take(i as int);
            let ghost x = self.index_schema@[i as int]@;
            proof {
                assert(schema_seq(self.index_schema@).take(i + 1) =~= prefix.push(x));
                assert(prefix.push(x).drop_last() =~= prefix);
                assert(prefix.push(x).last() == x);
            }
            if !(self.index_schema[i] == *key) {
                let ghost kv = schema_seq(kept@);
                kept.push(self.index_schema[i].clone());
                proof {
                    assert(schema_seq(kept@) =~= kv.push(x));
                }
            }
            i = i + 1;
        }
        proof {
            assert(schema_seq(self.index_schema@).take(self.index_schema@.len() as int)
                =~= schema_seq(self.index_schema@));
        }
        self.index_schema = kept;
        self.schema_version = op_num;
        if self.max_applied < op_num {
            self.max_applied = op_num;
        }
        true
    }

    /// Persists state: the durable high-water mark catches up with the
    /// highest applied operation; returns the new mark.
    pub fn flush(&mut self) -> (r: u64)
        requires
            old(self).wf(),
        ensures
            final(self).wf(),
            *final(self) == (Segment { flushed_version: old(self).max_applied, ..*old(self) }),
            r == old(self).max_applied,
    {
        self.flushed_version = self.max_applied;
        self.flushed_version
    }
}

impl Segment {
    /// Version and tombstone flag under `id`, if the id is stored at all.
    pub fn point_state(&self, id: u64) -> (r: Option<(u64, bool)>)
        requires
            self.wf(),
        ensures
            match r {
                Option::Some(vd) => self.point_map().contains_key(id) && self.point_map()[id].version
                    == vd.0 && self.point_map()[id].deleted == vd.1,
                Option::None => !self.point_map().contains_key(id),
            },
    {
        match self.find_entry(id) {
            Option::Some(i) => {
                proof {
                    lemma_entries_map_value(self.entries@, i as int);
                }
                Option::Some((self.entries[i].version, self.entries[i].deleted))
            },
            Option::None => {
                proof {
                    lemma_entries_map_contains(self.entries@, id);
                }
                Option::None
            },
        }
    }

    /// Stores a tombstone outright: the write-through a proxy uses when the
    /// deleted point's live copy sits in the wrapped segment. Guarded by the
    /// stored version like every other write.
    pub fn put_tombstone(
        &mut self,
        op_num: u64,
        id: u64,
        vector: &Vec<i64>,
        payload: &Vec<PayloadEntry>,
    ) -> (applied: bool)
        requires
            old(self).wf(),
            vector@.len() == old(self).dim,
            bounded_vec(vector@),
        ensures
            final(self).wf(),
            final(self).same_config(*old(self)),
            applied <==> !(old(self).point_map().contains_key(id) && op_num <= old(
                self,
            ).point_map()[id].version),
            applied ==> final(self).point_map() == old(self).point_map().insert(
                id,
                PointSnap {
                    version: op_num,
                    deleted: true,
                    vector: vector@,
                    payload: payload_view(payload@),
                },
            ),
            !applied ==> *final(self) == *old(self),
            final(self).max_applied == if applied && old(self).max_applied < op_num {
                op_num
            } else {
                old(self).max_applied
            },
    {
        let e = PointEntry {
            id,
            version: op_num,
            deleted: true,
            vector: clone_vector(vector),
            payload: clone_payload(payload),
        };
        match self.find_entry(id) {
            Option::Some(i) => {
                proof {
                    lemma_entries_map_value(self.entries@, i as int);
                }
                if op_num <= self.entries[i].version {
                    return false;
                }
                self.replace_entry(i, e);
                if self.max_applied < op_num {
                    self.max_applied = op_num;
                }
                true
            },
            Option::None => {
                proof {
                    lemma_entries_map_contains(self.entries@, id);
                    lemma_entries_map_push(self.entries@, e);
                }
                let ghost s = self.entries@;
                self.entries.push(e);
                if self.max_applied < op_num {
                    self.max_applied = op_num;
                }
                proof {
                    assert(entry_ids_distinct(self.entries@)) by {
                        assert forall|a: int, b: int| 0 <= a < b < self.entries@.len() implies (
                        #[trigger] self.entries@[a]).id != (#[trigger] self.entries@[b]).id by {
                            if b == self.entries@.len() - 1 {
                                assert(self.entries@[a] == s[a]);
                            } else {
                                assert(self.entries@[a] == s[a] && self.entries@[b] == s[b]);
                            }
                        }
                    }
                    assert forall|w: int| 0 <= w < self.entries@.len() implies (
                    #[trigger] self.entries@[w]).vector@.len() == self.dim && bounded_vec(
                        self.entries@[w].vector@,
                    ) by {
                        if w < self.entries@.len() - 1 {
                            assert(self.entries@[w] == s[w]);
                        }
                    }
                }
                true
            },
        }
    }
}

/// Every vector stored in the image has the segment's dimension and bounded
/// components.
pub proof fn lemma_point_map_wf(seg: Segment)
    requires
        seg.wf(),
    ensures
        forall|id: u64|
            #[trigger] seg.point_map().contains_key(id) ==> seg.point_map()[id].vector.len()
                == seg.dim && bounded_vec(seg.point_map()[id].vector),
{
    assert forall|id: u64| #[trigger] seg.point_map().contains_key(id) implies
        seg.point_map()[id].vector.len() == seg.dim && bounded_vec(seg.point_map()[id].vector) by {
        lemma_entries_map_contains(seg.entries@, id);
        let w = choose|w: int| 0 <= w < seg.entries@.len() && (#[trigger] seg.entries@[w]).id == id;
        lemma_entries_map_value(seg.entries@, w);
    }
}

/// The id-keyed image of an entry list has a finite domain.
pub proof fn lemma_entries_map_finite(s: Seq<PointEntry>)
    ensures
        entries_map(s).dom().finite(),
    decreases s.len(),
{
    broadcast use vstd::set::group_set_axioms;

    if s.len() == 0 {
        assert(entries_map(s).dom() =~= Set::<u64>::empty());
    } else {
        lemma_entries_map_finite(s.drop_last());
        assert(entries_map(s).dom() =~= entries_map(s.drop_last()).dom().insert(s.last().id));
    }
}

} // verus!
