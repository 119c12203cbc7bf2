use shard_core::cluster::{remove_peer_decision, RemovePeerAction};
use shard_core::fixtures::{build_segment_1, build_segment_2, build_test_holder, empty_segment};
use shard_core::holder::SegmentHolder;
use shard_core::searcher::SegmentsSearcher;
use shard_core::segment::Segment;
use shard_core::shard::LocalShard;
use shard_core::types::{
    CollectionError, CollectionStatus, CollectionUpdateOperations, Filter, PayloadEntry,
    PointStruct, SearchRequest, SegmentType, UpdateStatus,
};
use shard_core::wal::Wal;

fn point(id: u64, v: [i64; 4]) -> PointStruct {
    PointStruct { id, vector: v.to_vec(), payload: Vec::new() }
}

fn color(values: &[&str]) -> Vec<PayloadEntry> {
    vec![PayloadEntry {
        key: "color".to_owned(),
        values: values.iter().map(|s| (*s).to_owned()).collect(),
    }]
}

fn query(v: [i64; 4], limit: usize) -> SearchRequest {
    SearchRequest { vector: v.to_vec(), filter: None, limit, score_threshold: None }
}

#[test]
fn segment_upsert_and_retrieve_round_trip() {
    let mut seg = empty_segment();
    let payload = color(&["red"]);
    let vector: Vec<i64> = vec![1, 0, 1, 1];
    let applied = seg.upsert_point(5, 42, &vector, &payload).unwrap();
    assert!(applied);
    let rec = seg.retrieve(42, true, true).unwrap();
    assert_eq!(rec.id, 42);
    assert_eq!(rec.version, 5);
    assert_eq!(rec.vector.unwrap(), vector);
    let got = rec.payload.unwrap();
    assert_eq!(got.len(), 1);
    assert_eq!(got[0].key, "color");
    assert_eq!(got[0].values, vec!["red".to_owned()]);
}

#[test]
fn segment_rejects_wrong_dimension() {
    let mut seg = empty_segment();
    let bad: Vec<i64> = vec![1, 2];
    let r = seg.upsert_point(1, 1, &bad, &Vec::new());
    assert_eq!(r, Err(CollectionError::BadInput));
}

#[test]
fn stale_op_num_is_a_no_op() {
    let mut seg = empty_segment();
    let v1: Vec<i64> = vec![1, 1, 1, 1];
    let v2: Vec<i64> = vec![0, 0, 0, 1];
    assert!(seg.upsert_point(9, 7, &v1, &Vec::new()).unwrap());
    // an older operation must not overwrite the newer state
    assert!(!seg.upsert_point(3, 7, &v2, &Vec::new()).unwrap());
    let rec = seg.retrieve(7, true, false).unwrap();
    assert_eq!(rec.version, 9);
    assert_eq!(rec.vector.unwrap(), v1);
}

#[test]
fn delete_leaves_tombstone_and_hides_point() {
    let mut seg = empty_segment();
    let v: Vec<i64> = vec![1, 0, 0, 0];
    assert!(seg.upsert_point(2, 1, &v, &Vec::new()).unwrap());
    assert!(seg.delete_point(4, 1));
    assert!(seg.retrieve(1, false, false).is_none());
    assert!(!seg.has_point(1));
    // the tombstone still guards against replaying the old upsert
    assert!(!seg.upsert_point(2, 1, &v, &Vec::new()).unwrap());
    assert!(seg.retrieve(1, false, false).is_none());
}

#[test]
fn fixture_search_returns_expected_top_three() {
    // the five points of the first fixture segment alone
    let mut holder = SegmentHolder::new(4);
    holder.add(build_segment_1());
    let r = SegmentsSearcher::search_one(&holder, &query([1, 1, 1, 1], 3)).unwrap();
    // scores: id 3 -> 4; ids 1 and 4 -> 3; ties break by ascending id
    let ids: Vec<u64> = r.iter().map(|p| p.id).collect();
    assert_eq!(ids, vec![3, 1, 4]);
    assert_eq!(r[0].score, 4);
    assert_eq!(r[1].score, 3);
    assert_eq!(r[2].score, 3);
    // over both fixture segments, id 11 scores 4 as well and outranks 1 and 4
    let both = build_test_holder();
    let r2 = SegmentsSearcher::search_one(&both, &query([1, 1, 1, 1], 3)).unwrap();
    let ids2: Vec<u64> = r2.iter().map(|p| p.id).collect();
    assert_eq!(ids2, vec![3, 11, 1]);
}

#[test]
fn search_results_sorted_and_distinct() {
    let holder = build_test_holder();
    let r = SegmentsSearcher::search_one(&holder, &query([1, 1, 1, 1], 100)).unwrap();
    for w in r.windows(2) {
        assert!(
            w[0].score > w[1].score || (w[0].score == w[1].score && w[0].id < w[1].id),
            "results must be sorted by score desc then id asc"
        );
    }
    for i in 0..r.len() {
        for j in i + 1..r.len() {
            assert_ne!(r[i].id, r[j].id, "no id may appear twice across segments");
        }
    }
}

#[test]
fn filtered_search_respects_payload() {
    let holder = build_test_holder();
    let req = SearchRequest {
        vector: vec![1, 1, 1, 1],
        filter: Some(Filter { key: "color".to_owned(), value: "red".to_owned() }),
        limit: 10,
        score_threshold: None,
    };
    let r = SegmentsSearcher::search_one(&holder, &req).unwrap();
    let ids: Vec<u64> = r.iter().map(|p| p.id).collect();
    // reds are 1, 2 and the red|blue 4, 5; id 3 is blue only
    assert!(!ids.contains(&3));
    assert!(ids.contains(&1) && ids.contains(&2) && ids.contains(&4) && ids.contains(&5));
}

#[test]
fn retrieve_prefers_highest_version_across_segments() {
    let holder = build_test_holder();
    // id 4 sits at version 4 in segment one and version 7 in segment two
    let recs = SegmentsSearcher::retrieve(&holder, &vec![4], true, true);
    assert_eq!(recs.len(), 1);
    assert_eq!(recs[0].id, 4);
    assert_eq!(recs[0].version, 7);
}

#[test]
fn count_exact_equals_unbounded_scroll_length() {
    let holder = build_test_holder();
    let filter = Filter { key: "color".to_owned(), value: "red".to_owned() };
    let count = SegmentsSearcher::count(&holder, Some(&filter), true);
    let rows = SegmentsSearcher::scroll(&holder, None, usize::MAX, false, false, Some(&filter));
    assert_eq!(count, rows.len());
    let all = SegmentsSearcher::count(&holder, None, true);
    let all_rows = SegmentsSearcher::scroll(&holder, None, usize::MAX, false, false, None);
    assert_eq!(all, all_rows.len());
    // ten distinct ids live across the two fixture segments
    assert_eq!(all, 10);
    // the estimate sums per-segment counts, so the overlap counts twice
    assert_eq!(SegmentsSearcher::count(&holder, None, false), 12);
}

#[test]
fn scroll_is_sorted_dedup_and_truncated() {
    let holder = build_test_holder();
    let rows = SegmentsSearcher::scroll(&holder, None, 4, false, false, None);
    assert_eq!(rows.len(), 4);
    let ids: Vec<u64> = rows.iter().map(|r| r.id).collect();
    assert_eq!(ids, vec![1, 2, 3, 4]);
    let from_three = SegmentsSearcher::scroll(&holder, Some(3), 4, false, false, None);
    let ids2: Vec<u64> = from_three.iter().map(|r| r.id).collect();
    assert_eq!(ids2, vec![3, 4, 5, 11]);
}

#[test]
fn proxy_masks_deleted_point_during_handoff() {
    let mut holder = SegmentHolder::new(4);
    let sid = holder.add(build_segment_1());
    holder.proxy_segment(sid).unwrap();
    // delete id 3 through the proxy: the wrapped segment still stores it
    let op = CollectionUpdateOperations::DeletePoints { ids: vec![3] };
    assert!(holder.apply_operation(10, &op));
    let r = SegmentsSearcher::search_one(&holder, &query([1, 1, 1, 1], 10)).unwrap();
    assert!(r.iter().all(|p| p.id != 3), "deleted id must stay hidden behind the proxy");
    assert_eq!(SegmentsSearcher::retrieve(&holder, &vec![3], false, false).len(), 0);
}

#[test]
fn proxy_rollback_restores_wrapped_segment() {
    let mut holder = SegmentHolder::new(4);
    let sid = holder.add(build_segment_1());
    holder.proxy_segment(sid).unwrap();
    let op = CollectionUpdateOperations::DeletePoints { ids: vec![3] };
    holder.apply_operation(10, &op);
    holder.rollback_proxy(sid).unwrap();
    // the overlay is discarded: id 3 is visible again
    let r = SegmentsSearcher::search_one(&holder, &query([1, 1, 1, 1], 10)).unwrap();
    assert!(r.iter().any(|p| p.id == 3));
}

#[test]
fn swap_replaces_segments_atomically() {
    let mut holder = SegmentHolder::new(4);
    let sid1 = holder.add(build_segment_1());
    let sid2 = holder.add(build_segment_2());
    let mut merged = Segment::new(4, SegmentType::Indexed, false);
    let v: Vec<i64> = vec![1, 1, 1, 1];
    merged.upsert_point(20, 3, &v, &Vec::new()).unwrap();
    let new_sid = holder.swap(&vec![sid1, sid2], merged);
    assert!(holder.get(sid1).is_err());
    assert!(holder.get(sid2).is_err());
    assert!(holder.get(new_sid).is_ok());
    assert_eq!(SegmentsSearcher::count(&holder, None, true), 1);
    // the replacement is an Indexed segment, so its vector counts as indexed
    assert_eq!(SegmentsSearcher::info(&holder).indexed_vectors_count, 1);
}

#[test]
fn update_waits_for_application() {
    let holder = build_test_holder();
    let mut shard = LocalShard::new(holder, 64);
    let mut points = Vec::new();
    for id in 100..1100u64 {
        points.push(point(id, [1, 0, 0, 0]));
    }
    let op = CollectionUpdateOperations::UpsertPoints { points };
    let res = shard.update(op, true, true).unwrap();
    assert_eq!(res.status, UpdateStatus::Completed);
    // a read started after completion sees every point of the batch
    assert_eq!(shard.count(None, true), 10 + 1000);
    let recs = shard.retrieve(&vec![100, 1099], false, false);
    assert_eq!(recs.len(), 2);
    assert_eq!(recs[0].version, res.operation_id);
    assert_eq!(recs[1].version, res.operation_id);
}

#[test]
fn update_without_wait_is_acknowledged_then_applied_in_order() {
    let holder = build_test_holder();
    let mut shard = LocalShard::new(holder, 64);
    let op1 = CollectionUpdateOperations::UpsertPoints { points: vec![point(50, [1, 1, 0, 0])] };
    let op2 = CollectionUpdateOperations::DeletePoints { ids: vec![50] };
    let r1 = shard.update(op1, false, true).unwrap();
    assert_eq!(r1.status, UpdateStatus::Acknowledged);
    // not applied yet
    assert_eq!(shard.retrieve(&vec![50], false, false).len(), 0);
    let r2 = shard.update(op2, false, true).unwrap();
    assert!(r2.operation_id > r1.operation_id);
    shard.process_pending();
    // both applied, in order: the later delete wins
    assert_eq!(shard.retrieve(&vec![50], false, false).len(), 0);
    assert_eq!(shard.count(None, true), 10);
}

#[test]
fn wal_failure_blocks_later_updates_until_recovery() {
    let holder = build_test_holder();
    let mut shard = LocalShard::new(holder, 8);
    let ok = CollectionUpdateOperations::UpsertPoints { points: vec![point(60, [1, 0, 0, 0])] };
    shard.update(ok, true, true).unwrap();
    let failing = CollectionUpdateOperations::UpsertPoints { points: vec![point(61, [1, 0, 0, 0])] };
    let r = shard.update(failing, true, false);
    assert_eq!(r, Err(CollectionError::WalIo));
    // the failed operation was never admitted
    assert_eq!(shard.retrieve(&vec![61], false, false).len(), 0);
    // later operations are refused until recovery
    let later = CollectionUpdateOperations::UpsertPoints { points: vec![point(62, [1, 0, 0, 0])] };
    let r2 = shard.update(later, true, true);
    assert_eq!(r2, Err(CollectionError::WalIo));
    shard.recover();
    let again = CollectionUpdateOperations::UpsertPoints { points: vec![point(62, [1, 0, 0, 0])] };
    assert!(shard.update(again, true, true).is_ok());
}

#[test]
fn back_pressure_when_queue_full() {
    let holder = build_test_holder();
    let mut shard = LocalShard::new(holder, 1);
    let op1 = CollectionUpdateOperations::DeletePoints { ids: vec![1] };
    let op2 = CollectionUpdateOperations::DeletePoints { ids: vec![2] };
    shard.update(op1, false, true).unwrap();
    let r = shard.update(op2, false, true);
    assert_eq!(r, Err(CollectionError::BackPressure));
    shard.process_pending();
    assert!(shard.update(CollectionUpdateOperations::DeletePoints { ids: vec![2] }, false, true)
        .is_ok());
}

#[test]
fn restore_replays_the_log() {
    // run a shard, then rebuild one from the same base segments and its log
    let mut shard = LocalShard::new(build_test_holder(), 64);
    let ops = vec![
        CollectionUpdateOperations::UpsertPoints { points: vec![point(70, [1, 1, 1, 0])] },
        CollectionUpdateOperations::DeletePoints { ids: vec![2] },
        CollectionUpdateOperations::SetPayload {
            ids: vec![70],
            key: "color".to_owned(),
            values: vec!["green".to_owned()],
        },
    ];
    for op in ops {
        shard.update(op, true, true).unwrap();
    }
    let pre_crash = shard.info();
    let exact_before = shard.count(None, true);
    let restored = LocalShard::restore(build_test_holder(), shard.wal, 64);
    let post = restored.info();
    assert_eq!(pre_crash.points_count, post.points_count);
    assert_eq!(restored.count(None, true), exact_before);
    let recs = restored.retrieve(&vec![70], true, false);
    assert_eq!(recs.len(), 1);
    let pl = recs[0].payload.as_ref().unwrap();
    assert_eq!(pl[0].values, vec!["green".to_owned()]);
}

#[test]
fn replay_twice_is_idempotent() {
    // restore from the full log, then replay the same log again on top
    let mut shard = LocalShard::new(build_test_holder(), 64);
    shard
        .update(
            CollectionUpdateOperations::UpsertPoints { points: vec![point(80, [1, 0, 1, 0])] },
            true,
            true,
        )
        .unwrap();
    shard
        .update(CollectionUpdateOperations::DeletePoints { ids: vec![80] }, true, true)
        .unwrap();
    let mut wal_copy = Wal::new();
    for e in &shard.wal.entries {
        // rebuild an identical log
        let _ = wal_copy.write(shard_core::shard::clone_operation(&e.operation));
    }
    let once = LocalShard::restore(build_test_holder(), wal_copy, 64);
    let count_once = once.count(None, true);
    // replaying the same entries again over the already replayed state
    let mut again = once;
    for e in &shard.wal.entries {
        again.holder.apply_operation(e.op_num, &e.operation);
    }
    assert_eq!(count_once, 10);
    assert_eq!(again.count(None, true), count_once);
    assert_eq!(again.retrieve(&vec![80], false, false).len(), 0);
    assert_eq!(again.retrieve(&vec![1], false, false).len(), 1);
}

#[test]
fn threshold_results_are_a_prefix() {
    let holder = build_test_holder();
    let full = SegmentsSearcher::search_one(&holder, &query([1, 1, 1, 1], 100)).unwrap();
    let mut req = query([1, 1, 1, 1], 100);
    req.score_threshold = Some(3);
    let cut = SegmentsSearcher::search_one(&holder, &req).unwrap();
    assert!(cut.len() <= full.len());
    for (a, b) in cut.iter().zip(full.iter()) {
        assert_eq!(a, b, "thresholded results must be a prefix of the full list");
    }
    assert!(cut.iter().all(|p| p.score >= 3));
    if cut.len() < full.len() {
        assert!(full[cut.len()].score < 3);
    }
}

#[test]
fn info_reports_counts_and_status() {
    let mut holder = build_test_holder();
    let info = SegmentsSearcher::info(&holder);
    assert_eq!(info.segments_count, 2);
    // per-segment counts are summed: 5 in segment one, 7 in segment two,
    // with ids 4 and 5 counted in both during the overlap
    assert_eq!(info.points_count, 12);
    assert_eq!(info.vectors_count, 12);
    assert_eq!(info.indexed_vectors_count, 0);
    assert_eq!(info.status, CollectionStatus::Green);
    // a proxy turns the shard yellow
    holder.proxy_segment(0).unwrap();
    assert_eq!(SegmentsSearcher::info(&holder).status, CollectionStatus::Yellow);
    // an optimizer failure turns it red and surfaces its message
    holder.set_optimizer_error("index build failed".to_owned());
    let red = SegmentsSearcher::info(&holder);
    assert_eq!(red.status, CollectionStatus::Red);
    match red.optimizer_status {
        shard_core::types::OptimizersStatus::Failed(m) => assert_eq!(m, "index build failed"),
        shard_core::types::OptimizersStatus::Healthy => panic!("optimizer error was dropped"),
    }
}

#[test]
fn failed_points_are_recorded_but_do_not_abort_the_batch() {
    let mut holder = build_test_holder();
    // set_payload on an unknown id fails; the known id is still applied
    let op = CollectionUpdateOperations::SetPayload {
        ids: vec![999, 1],
        key: "color".to_owned(),
        values: vec!["violet".to_owned()],
    };
    let success = holder.apply_operation(40, &op);
    assert!(!success);
    assert!(holder.has_failed_operations());
    let recs = SegmentsSearcher::retrieve(&holder, &vec![1], true, false);
    let pl = recs[0].payload.as_ref().unwrap();
    assert_eq!(pl[0].values, vec!["violet".to_owned()]);
    holder.clear_errors();
    assert!(!holder.has_failed_operations());
}

#[test]
fn schema_ops_apply_with_version_guard() {
    let mut holder = build_test_holder();
    assert!(holder.apply_operation(30, &CollectionUpdateOperations::CreateFieldIndex {
        key: "color".to_owned(),
    }));
    let info = SegmentsSearcher::info(&holder);
    assert!(info.payload_schema.iter().any(|k| k == "color"));
    // a stale drop is ignored
    holder.apply_operation(29, &CollectionUpdateOperations::DropFieldIndex {
        key: "color".to_owned(),
    });
    assert!(SegmentsSearcher::info(&holder).payload_schema.iter().any(|k| k == "color"));
    // a newer drop removes the key
    holder.apply_operation(31, &CollectionUpdateOperations::DropFieldIndex {
        key: "color".to_owned(),
    });
    assert!(!SegmentsSearcher::info(&holder).payload_schema.iter().any(|k| k == "color"));
}

#[test]
fn wal_assigns_contiguous_numbers_and_truncates() {
    let mut wal = Wal::new();
    let n1 = wal.write(CollectionUpdateOperations::DeletePoints { ids: vec![1] });
    let n2 = wal.write(CollectionUpdateOperations::DeletePoints { ids: vec![2] });
    let n3 = wal.write(CollectionUpdateOperations::DeletePoints { ids: vec![3] });
    assert_eq!((n1, n2, n3), (1, 2, 3));
    let dropped = wal.truncate_until(3);
    assert_eq!(dropped, 2);
    assert_eq!(wal.entries.len(), 1);
    assert_eq!(wal.entries[0].op_num, 3);
    let n4 = wal.write(CollectionUpdateOperations::DeletePoints { ids: vec![4] });
    assert_eq!(n4, 4);
}

#[test]
fn remove_peer_decision_cases() {
    assert_eq!(remove_peer_decision(true, true), RemovePeerAction::RefuseHasShards);
    assert_eq!(remove_peer_decision(true, false), RemovePeerAction::RefuseHasShards);
    assert_eq!(remove_peer_decision(false, false), RemovePeerAction::RefuseNotDistributed);
    assert_eq!(remove_peer_decision(false, true), RemovePeerAction::Propose);
}
