//! The local shard: composes holder, WAL and update queue. Updates are
//! admitted against a bounded queue, logged, then applied in WAL order by a
//! single applier; reads fan out through the searcher.

use vstd::prelude::*;

use crate::holder::{op_actions, spec_apply_actions, SegmentHolder};
use crate::searcher::{search_result_ok, SegmentsSearcher};
use crate::types::{
    CollectionError, CollectionUpdateOperations, Filter, PointSnap, Record, ScoredPoint,
    SearchRequest, UpdateResult, UpdateStatus,
};
use crate::wal::{Wal, WalEntry};

verus! {

/// The state after replaying a list of logged operations in order.
pub open spec fn spec_replay(
    maps: Seq<Map<u64, PointSnap>>,
    apps: Seq<bool>,
    dim: int,
    entries: Seq<WalEntry>,
) -> Seq<Map<u64, PointSnap>>
    decreases entries.len(),
{
    if entries.len() == 0 {
        maps
    } else {
        spec_apply_actions(
            spec_replay(maps, apps, dim, entries.drop_last()),
            apps,
            dim,
            entries.last().op_num,
            op_actions(entries.last().operation),
        )
    }
}

/// One shard: segments, log, and the admission-bounded update queue.
pub struct LocalShard {
    pub holder: SegmentHolder,
    pub wal: Wal,
    pub queue_capacity: usize,
    pub pending: Vec<WalEntry>,
    pub wal_failed: bool,
    pub base_maps: Ghost<Seq<Map<u64, PointSnap>>>,
    pub history: Ghost<Seq<WalEntry>>,
}

impl LocalShard {
    /// The logged operations that the applier has already applied.
    pub open spec fn applied_entries(self) -> Seq<WalEntry> {
        self.history@.take(self.history@.len() - self.pending@.len())
    }

    /// Well-formedness: the queue is a suffix of everything ever logged, and
    /// the segments hold exactly the replay of the applied prefix.
    pub open spec fn wf(self) -> bool {
        &&& self.holder.wf()
        &&& self.wal.wf()
        &&& self.queue_capacity >= 1
        &&& self.pending@.len() <= self.history@.len()
        &&& self.pending@ == self.history@.skip(self.history@.len() - self.pending@.len())
        &&& self.holder.maps() == spec_replay(
            self.base_maps@,
            self.holder.apps(),
            self.holder.dim as int,
            self.applied_entries(),
        )
        &&& self.wal.head() == 1 + self.history@.len()
    }

    /// A fresh shard over a holder, with an empty log.
    pub fn new(holder: SegmentHolder, queue_capacity: usize) -> (r: LocalShard)
        requires
            holder.wf(),
            queue_capacity >= 1,
        ensures
            r.wf(),
            r.holder == holder,
            r.base_maps@ == holder.maps(),
            r.history@.len() == 0,
            r.wal_failed == false,
            r.queue_capacity == queue_capacity,
    {
        let r = LocalShard {
            holder,
            wal: Wal::new(),
            queue_capacity,
            pending: Vec::new(),
            wal_failed: false,
            base_maps: Ghost(holder.maps()),
            history: Ghost(Seq::empty()),
        };
        proof {
            assert(r.pending@ =~= r.history@.skip(0));
            assert(r.applied_entries() =~= Seq::<WalEntry>::empty());
        }
        r
    }

    /// Applies every queued operation, in WAL order. This is the applier's
    /// drain: afterwards the segments reflect everything logged.
    pub fn process_pending(&mut self)
        requires
            old(self).wf(),
        ensures
            final(self).wf(),
            final(self).pending@.len() == 0,
            final(self).holder.maps() == spec_replay(
                final(self).base_maps@,
                final(self).holder.apps(),
                final(self).holder.dim as int,
                final(self).history@,
            ),
            final(self).history == old(self).history,
            final(self).base_maps == old(self).base_maps,
            final(self).wal == old(self).wal,
            final(self).queue_capacity == old(self).queue_capacity,
            final(self).wal_failed == old(self).wal_failed,
            final(self).holder.ids() == old(self).holder.ids(),
            final(self).holder.apps() == old(self).holder.apps(),
            final(self).holder.dim == old(self).holder.dim,
    {
        while self.pending.len() > 0
            invariant
                self.wf(),
                self.history == old(self).history,
                self.base_maps == old(self).base_maps,
                self.wal == old(self).wal,
                self.queue_capacity == old(self).queue_capacity,
                self.wal_failed == old(self).wal_failed,
                self.holder.ids() == old(self).holder.ids(),
                self.holder.apps() == old(self).holder.apps(),
                self.holder.dim == old(self).holder.dim,
            decreases self.pending@.len(),
        {
            let ghost n = self.history@.len() - self.pending@.len();
            let entry = self.pending.remove(0);
            proof {
                assert(entry == self.history@[n]);
                assert(self.pending@ =~= self.history@.skip(
                    self.history@.len() - self.pending@.len(),
                ));
                assert(self.history@.take(n + 1).drop_last() =~= self.history@.take(n));
                assert(self.history@.take(n + 1).last() == self.history@[n]);
            }
            self.holder.apply_operation(entry.op_num, &entry.operation);
            proof {
                assert(self.applied_entries() =~= self.history@.take(n + 1));
            }
        }
        proof {
            assert(self.applied_entries() =~= self.history@);
        }
    }

    /// One update: admission against the bounded queue, the durable append
    /// (whose outcome the I/O layer reports in `wal_ok`), then queueing. A
    /// waiting caller sees the operation applied before `Completed` comes
    /// back; otherwise it is `Acknowledged` and applied in order later. A
    /// failed append poisons the shard: nothing later is admitted.
    pub fn update(
        &mut self,
        operation: CollectionUpdateOperations,
        wait: bool,
        wal_ok: bool,
    ) -> (r: Result<UpdateResult, CollectionError>)
        requires
            old(self).wf(),
            old(self).wal.head() < 0xffff_ffff_ffff_ffff,
        ensures
            final(self).wf(),
            old(self).wal_failed ==> r == Err::<UpdateResult, CollectionError>(
                CollectionError::WalIo,
            ) && *final(self) == *old(self),
            !old(self).wal_failed && old(self).pending@.len() >= old(self).queue_capacity ==> r
                == Err::<UpdateResult, CollectionError>(CollectionError::BackPressure)
                && *final(self) == *old(self),
            !old(self).wal_failed && old(self).pending@.len() < old(self).queue_capacity && !wal_ok
                ==> r == Err::<UpdateResult, CollectionError>(CollectionError::WalIo)
                && final(self).wal_failed && final(self).history == old(self).history
                && final(self).holder == old(self).holder,
            !old(self).wal_failed && old(self).pending@.len() < old(self).queue_capacity && wal_ok
                ==> {
                let op_num = old(self).wal.head() as u64;
                &&& r is Ok
                &&& r.unwrap().operation_id == op_num
                &&& final(self).history@ == old(self).history@.push(
                    WalEntry { op_num, operation },
                )
                &&& (wait ==> r.unwrap().status == UpdateStatus::Completed
                    && final(self).pending@.len() == 0 && final(self).holder.maps() == spec_replay(
                    final(self).base_maps@,
                    final(self).holder.apps(),
                    final(self).holder.dim as int,
                    final(self).history@,
                ))
                &&& (!wait ==> r.unwrap().status == UpdateStatus::Acknowledged
                    && final(self).pending@ == old(self).pending@.push(WalEntry { op_num, operation })
                    && final(self).holder == old(self).holder)
            },
    {
        if self.wal_failed {
            return Err(CollectionError::WalIo);
        }
        if self.pending.len() >= self.queue_capacity {
            return Err(CollectionError::BackPressure);
        }
        if !wal_ok {
            self.wal_failed = true;
            return Err(CollectionError::WalIo);
        }
        let ghost pre = *self;
        let op_num = self.wal.write(clone_operation(&operation));
        let entry = WalEntry { op_num, operation };
        self.pending.push(entry);
        proof {
            self.history@ = pre.history@.push(self.pending@.last());
            assert(self.pending@ =~= self.history@.skip(
                self.history@.len() - self.pending@.len(),
            ));
            assert(self.applied_entries() =~= pre.applied_entries());
        }
        if wait {
            self.process_pending();
            Ok(UpdateResult { operation_id: op_num, status: UpdateStatus::Completed })
        } else {
            Ok(UpdateResult { operation_id: op_num, status: UpdateStatus::Acknowledged })
        }
    }

    /// Clears the WAL-failure mark and the holder's recorded errors:
    /// explicit recovery after the durable log is mended.
    pub fn recover(&mut self)
        requires
            old(self).wf(),
        ensures
            final(self).wf(),
            final(self).wal_failed == false,
            final(self).holder.failed_operations@.len() == 0,
    {
        self.wal_failed = false;
        self.holder.clear_errors();
        proof {
            assert(self.holder.maps() =~= old(self).holder.maps());
            assert(self.holder.apps() =~= old(self).holder.apps());
        }
    }

    /// Rebuilds a shard from its segments and a recovered log: every logged
    /// operation is replayed in order. Starting twice from the same segments
    /// and the same log gives the same shard state.
    pub fn restore(holder: SegmentHolder, wal: Wal, queue_capacity: usize) -> (r: LocalShard)
        requires
            holder.wf(),
            wal.wf(),
            wal.first_op_num == 1,
            queue_capacity >= 1,
        ensures
            r.wf(),
            r.base_maps@ == holder.maps(),
            r.history@ == wal.entries@,
            r.pending@.len() == 0,
            r.holder.maps() == spec_replay(
                holder.maps(),
                holder.apps(),
                holder.dim as int,
                wal.entries@,
            ),
            r.holder.ids() == holder.ids(),
            r.holder.apps() == holder.apps(),
            r.holder.dim == holder.dim,
    {
        let mut h = holder;
        let mut i: usize = 0;
        while i < wal.entries.len()
            invariant
                i <= wal.entries@.len(),
                h.wf(),
                h.dim == holder.dim,
                h.ids() == holder.ids(),
                h.apps() == holder.apps(),
                h.maps() == spec_replay(
                    holder.maps(),
                    holder.apps(),
                    holder.dim as int,
                    wal.entries@.take(i as int),
                ),
            decreases wal.entries@.len() - i,
        {
            proof {
                assert(wal.entries@.take(i + 1).drop_last() =~= wal.entries@.take(i as int));
                assert(wal.entries@.take(i + 1).last() == wal.entries@[i as int]);
            }
            h.apply_operation(wal.entries[i].op_num, &wal.entries[i].operation);
            i = i + 1;
        }
        proof {
            assert(wal.entries@.take(wal.entries@.len() as int) =~= wal.entries@);
        }
        let r = LocalShard {
            holder: h,
            wal,
            queue_capacity,
            pending: Vec::new(),
            wal_failed: false,
            base_maps: Ghost(holder.maps()),
            history: Ghost(wal.entries@),
        };
        proof {
            assert(r.pending@ =~= r.history@.skip(r.history@.len() as int));
            assert(r.applied_entries() =~= r.history@);
        }
        r
    }

    /// Search over the current segments: see `SegmentsSearcher::search`.
    pub fn search(&self, batch: &Vec<SearchRequest>) -> (r: Result<
        Vec<Vec<ScoredPoint>>,
        CollectionError,
    >)
        requires
            self.wf(),
        ensures
            r is Err <==> exists|j: int|
                0 <= j < batch@.len() && !((#[trigger] batch@[j]).vector@.len() == self.holder.dim
                    && crate::segment::bounded_vec(batch@[j].vector@)),
            r is Err ==> r == Err::<Vec<Vec<ScoredPoint>>, CollectionError>(
                CollectionError::BadInput,
            ),
            r is Ok ==> r.unwrap()@.len() == batch@.len() && forall|j: int|
                0 <= j < batch@.len() ==> search_result_ok(
                    self.holder.maps(),
                    #[trigger] batch@[j],
                    r.unwrap()@[j]@,
                ),
    {
        SegmentsSearcher::search(&self.holder, batch)
    }

    /// Retrieve by ids: see `SegmentsSearcher::retrieve`.
    pub fn retrieve(&self, ids: &Vec<u64>, with_payload: bool, with_vector: bool) -> (r: Vec<
        Record,
    >)
        requires
            self.wf(),
        ensures
            r@.len() == crate::searcher::retained(self.holder.maps(), ids@).len(),
            forall|k: int|
                0 <= k < r@.len() ==> (#[trigger] r@[k]).id == crate::searcher::retained(
                    self.holder.maps(),
                    ids@,
                )[k] && crate::searcher::record_ok_upto(
                    self.holder.maps(),
                    self.holder.maps().len() as int,
                    r@[k],
                    with_vector,
                    with_payload,
                ),
    {
        SegmentsSearcher::retrieve(&self.holder, ids, with_payload, with_vector)
    }

    /// Filtered scan: see `SegmentsSearcher::scroll`.
    pub fn scroll_by(
        &self,
        offset: Option<u64>,
        limit: usize,
        with_payload: bool,
        with_vector: bool,
        filter: Option<&Filter>,
    ) -> (r: Vec<Record>)
        requires
            self.wf(),
        ensures
            r@.len() <= limit,
            forall|a: int, b: int| 0 <= a < b < r@.len() ==> r@[a].id < r@[b].id,
            forall|k: int|
                0 <= k < r@.len() ==> crate::searcher::union_read_cand(
                    self.holder.maps(),
                    crate::segment::opt_filter(filter),
                    offset,
                    (#[trigger] r@[k]).id,
                ) && crate::searcher::record_ok_upto(
                    self.holder.maps(),
                    self.holder.maps().len() as int,
                    r@[k],
                    with_vector,
                    with_payload,
                ),
            forall|id: u64|
                crate::searcher::union_read_cand(
                    self.holder.maps(),
                    crate::segment::opt_filter(filter),
                    offset,
                    id,
                ) && !(exists|k: int| 0 <= k < r@.len() && (#[trigger] r@[k]).id == id)
                    ==> r@.len() == limit && (r@.len() > 0 ==> r@[r@.len() - 1].id < id),
    {
        SegmentsSearcher::scroll(&self.holder, offset, limit, with_payload, with_vector, filter)
    }

    /// Count of matching points: exact gives the distinct count, otherwise
    /// the per-segment estimates are summed. See `SegmentsSearcher::count`.
    pub fn count(&self, filter: Option<&Filter>, exact: bool) -> (r: usize)
        requires
            self.wf(),
        ensures
            exact ==> exists|s: Seq<u64>|
                crate::ranking::ids_strict(s) && (forall|id: u64|
                    #[trigger] s.contains(id) <==> crate::searcher::union_read_cand(
                        self.holder.maps(),
                        crate::segment::opt_filter(filter),
                        Option::None,
                        id,
                    )) && r == s.len(),
            !exact ==> exists|ls: Seq<Seq<u64>>|
                crate::searcher::slot_match_lists(
                    self.holder.maps(),
                    crate::segment::opt_filter(filter),
                    ls,
                ) && r as int == crate::searcher::sum_sat(crate::searcher::seq_lens(ls)),
    {
        SegmentsSearcher::count(&self.holder, filter, exact)
    }

    /// Shard overview: per-segment counts summed, indexed vectors summed
    /// over `Indexed` segments, health status, the optimizer's error text,
    /// and the union of the index schemas. See `SegmentsSearcher::info`.
    pub fn info(&self) -> (r: crate::types::CollectionInfo)
        requires
            self.wf(),
        ensures
            r.segments_count == self.holder.segments@.len(),
            r.vectors_count == r.points_count,
            exists|ls: Seq<Seq<u64>>|
                crate::searcher::slot_match_lists(self.holder.maps(), Option::None, ls)
                    && r.points_count as int == crate::searcher::sum_sat(
                    crate::searcher::seq_lens(ls),
                ),
            exists|ls: Seq<Seq<u64>>|
                crate::searcher::slot_indexed_lists(self.holder.segments@, ls)
                    && r.indexed_vectors_count as int == crate::searcher::sum_sat(
                    crate::searcher::seq_lens(ls),
                ),
            r.status == crate::searcher::spec_status(self.holder),
            match self.holder.optimizer_error {
                Option::Some(m) => r.optimizer_status == crate::types::OptimizersStatus::Failed(m),
                Option::None => r.optimizer_status == crate::types::OptimizersStatus::Healthy,
            },
            forall|k: Seq<char>|
                #[trigger] crate::segment::schema_has(
                    crate::segment::schema_seq(r.payload_schema@),
                    k,
                ) <==> crate::searcher::union_schema_has(self.holder.slot_schemas(), k),
    {
        SegmentsSearcher::info(&self.holder)
    }
}

/// Structural copy of an operation: the copy performs exactly the same
/// ghost actions as the original.
pub fn clone_operation(op: &CollectionUpdateOperations) -> (r: CollectionUpdateOperations)
    ensures
        crate::holder::op_actions(r) == crate::holder::op_actions(*op),
{
    match op {
        CollectionUpdateOperations::UpsertPoints { points } => {
            let mut ps: Vec<crate::types::PointStruct> = Vec::new();
            let mut i: usize = 0;
            while i < points.len()
                invariant
                    i <= points@.len(),
                    ps@.len() == i,
                    forall|k: int|
                        0 <= k < i ==> (#[trigger] ps@[k]).id == points@[k].id && ps@[k].vector@
                            == points@[k].vector@ && crate::types::payload_view(ps@[k].payload@)
                            == crate::types::payload_view(points@[k].payload@),
                decreases points@.len() - i,
            {
                let p = crate::types::PointStruct {
                    id: points[i].id,
                    vector: crate::types::clone_vector(&points[i].vector),
                    payload: crate::types::clone_payload(&points[i].payload),
                };
                ps.push(p);
                i = i + 1;
            }
            let r = CollectionUpdateOperations::UpsertPoints { points: ps };
            proof {
                assert(crate::holder::op_actions(r) =~~= crate::holder::op_actions(*op));
            }
            r
        },
        CollectionUpdateOperations::DeletePoints { ids } => {
            let r = CollectionUpdateOperations::DeletePoints { ids: clone_ids(ids) };
            proof {
                assert(crate::holder::op_actions(r) =~~= crate::holder::op_actions(*op));
            }
            r
        },
        CollectionUpdateOperations::SetPayload { ids, key, values } => {
            let r = CollectionUpdateOperations::SetPayload {
                ids: clone_ids(ids),
                key: key.clone(),
                values: crate::types::clone_string_vec(values),
            };
            proof {
                assert(crate::holder::op_actions(r) =~~= crate::holder::op_actions(*op));
            }
            r
        },
        CollectionUpdateOperations::DeletePayload { ids, key } => {
            let r = CollectionUpdateOperations::DeletePayload {
                ids: clone_ids(ids),
                key: key.clone(),
            };
            proof {
                assert(crate::holder::op_actions(r) =~~= crate::holder::op_actions(*op));
            }
            r
        },
        CollectionUpdateOperations::ClearPayload { ids } => {
            let r = CollectionUpdateOperations::ClearPayload { ids: clone_ids(ids) };
            proof {
                assert(crate::holder::op_actions(r) =~~= crate::holder::op_actions(*op));
            }
            r
        },
        CollectionUpdateOperations::CreateFieldIndex { key } => {
            CollectionUpdateOperations::CreateFieldIndex { key: key.clone() }
        },
        CollectionUpdateOperations::DropFieldIndex { key } => {
            CollectionUpdateOperations::DropFieldIndex { key: key.clone() }
        },
    }
}

fn clone_ids(ids: &Vec<u64>) -> (r: Vec<u64>)
    ensures
        r@ == ids@,
{
    let mut r: Vec<u64> = Vec::new();
    let mut i: usize = 0;
    while i < ids.len()
        invariant
            i <= ids@.len(),
            r@ == ids@.take(i as int),
        decreases ids@.len() - i,
    {
        r.push(ids[i]);
        proof {
            assert(r@ =~= ids@.take(i + 1));
        }
        i = i + 1;
    }
    proof {
        assert(r@ =~= ids@);
    }
    r
}

} // verus!
