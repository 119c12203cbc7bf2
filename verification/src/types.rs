//! Plain data model of the shard: points, payloads, operations, results.

use vstd::prelude::*;

verus! {

/// Largest vector dimension a segment accepts.
pub const MAX_DIM: usize = 1048576;

/// Largest absolute value of a vector component. Keeping components bounded
/// keeps every dot product inside `i64`.
pub const MAX_COMPONENT: i64 = 1048576;

/// One key of a point's payload: a keyword list stored under a name.
pub struct PayloadEntry {
    pub key: String,
    pub values: Vec<String>,
}

/// Ghost image of one payload entry.
#[verifier::ext_equal]
pub ghost struct PayloadSnap {
    pub key: Seq<char>,
    pub values: Seq<Seq<char>>,
}

impl View for PayloadEntry {
    type V = PayloadSnap;

    open spec fn view(&self) -> PayloadSnap {
        PayloadSnap { key: self.key@, values: self.values.deep_view() }
    }
}

/// Ghost image of a whole payload: entries in storage order, keys unique.
pub open spec fn payload_view(p: Seq<PayloadEntry>) -> Seq<PayloadSnap> {
    p.map_values(|e: PayloadEntry| e@)
}

/// Ghost image of one stored point: everything a read can observe.
#[verifier::ext_equal]
pub ghost struct PointSnap {
    pub version: u64,
    pub deleted: bool,
    pub vector: Seq<i64>,
    pub payload: Seq<PayloadSnap>,
}

/// A point handed in by a client: id, vector and initial payload.
pub struct PointStruct {
    pub id: u64,
    pub vector: Vec<i64>,
    pub payload: Vec<PayloadEntry>,
}

/// An update operation, as written to the WAL and applied to segments.
pub enum CollectionUpdateOperations {
    UpsertPoints { points: Vec<PointStruct> },
    DeletePoints { ids: Vec<u64> },
    SetPayload { ids: Vec<u64>, key: String, values: Vec<String> },
    DeletePayload { ids: Vec<u64>, key: String },
    ClearPayload { ids: Vec<u64> },
    CreateFieldIndex { key: String },
    DropFieldIndex { key: String },
}

/// Error kinds surfaced by the shard.
#[derive(Clone, Copy, PartialEq, Eq, Structural, Debug)]
pub enum CollectionError {
    NotFound,
    BadInput,
    BackPressure,
    WalIo,
    ServiceError,
    Cancelled,
}

/// How far an acknowledged update has progressed.
#[derive(Clone, Copy, PartialEq, Eq, Structural, Debug)]
pub enum UpdateStatus {
    Acknowledged,
    Completed,
}

/// Outcome of a shard update call.
#[derive(Clone, Copy, PartialEq, Eq, Structural, Debug)]
pub struct UpdateResult {
    pub operation_id: u64,
    pub status: UpdateStatus,
}

/// Health of the shard as reported by `info`.
#[derive(Clone, Copy, PartialEq, Eq, Structural, Debug)]
pub enum CollectionStatus {
    Green,
    Yellow,
    Red,
}

/// Health of the optimizer as reported by `info`, with the error text when
/// it failed.
#[derive(Debug)]
pub enum OptimizersStatus {
    Healthy,
    Failed(String),
}

/// What kind of store a segment is.
#[derive(Clone, Copy, PartialEq, Eq, Structural, Debug)]
pub enum SegmentType {
    Plain,
    Indexed,
    Special,
}

/// One scored search hit.
#[derive(Clone, Copy, PartialEq, Eq, Structural, Debug)]
pub struct ScoredPoint {
    pub id: u64,
    pub version: u64,
    pub score: i64,
}

/// One retrieved point, with vector and payload as requested.
pub struct Record {
    pub id: u64,
    pub version: u64,
    pub vector: Option<Vec<i64>>,
    pub payload: Option<Vec<PayloadEntry>>,
}

/// The one payload condition the shard filters by: the payload list under
/// `key` contains `value`.
pub struct Filter {
    pub key: String,
    pub value: String,
}

/// The scoring rule shared by every segment of a collection.
#[derive(Clone, Copy, PartialEq, Eq, Structural, Debug)]
pub enum Distance {
    Dot,
}

impl Distance {
    /// Spec of the user-visible transform of a raw score.
    pub open spec fn spec_postprocess(self, raw: i64) -> i64 {
        raw
    }

    /// Monotone transform applied to raw scores after merging. For dot
    /// distance it is the identity.
    pub fn postprocess_score(self, raw: i64) -> (r: i64)
        ensures
            r == self.spec_postprocess(raw),
    {
        raw
    }

    /// Spec of the threshold test.
    pub open spec fn spec_check_threshold(self, score: i64, threshold: i64) -> bool {
        score >= threshold
    }

    /// Whether a final score passes the request's threshold.
    pub fn check_threshold(self, score: i64, threshold: i64) -> (r: bool)
        ensures
            r == self.spec_check_threshold(score, threshold),
    {
        score >= threshold
    }
}

/// Cardinality estimate a segment returns for a filter.
#[derive(Clone, Copy, PartialEq, Eq, Structural, Debug)]
pub struct CardinalityEstimation {
    pub exp: usize,
    pub min: usize,
    pub max: usize,
}

/// Counts and schema one segment reports.
pub struct SegmentInfo {
    pub segment_type: SegmentType,
    pub num_points: usize,
    pub num_vectors: usize,
    pub index_schema: Vec<String>,
}

/// Aggregated shard overview.
pub struct CollectionInfo {
    pub status: CollectionStatus,
    pub optimizer_status: OptimizersStatus,
    pub vectors_count: usize,
    pub indexed_vectors_count: usize,
    pub points_count: usize,
    pub segments_count: usize,
    pub payload_schema: Vec<String>,
}

/// One search request of a batch.
pub struct SearchRequest {
    pub vector: Vec<i64>,
    pub filter: Option<Filter>,
    pub limit: usize,
    pub score_threshold: Option<i64>,
}

/// Clones a keyword list, preserving its ghost image.
pub fn clone_string_vec(v: &Vec<String>) -> (r: Vec<String>)
    ensures
        r.deep_view() == v.deep_view(),
{
    let mut r: Vec<String> = Vec::new();
    let mut i: usize = 0;
    while i < v.len()
        invariant
            i <= v.len(),
            r.len() == i,
            forall|j: int| 0 <= j < i ==> r.deep_view()[j] == v.deep_view()[j],
        decreases v.len() - i,
    {
        r.push(v[i].clone());
        i = i + 1;
    }
    assert(r.deep_view() =~= v.deep_view());
    r
}

/// Clones a payload, preserving its ghost image.
pub fn clone_payload(p: &Vec<PayloadEntry>) -> (r: Vec<PayloadEntry>)
    ensures
        payload_view(r@) == payload_view(p@),
{
    let mut r: Vec<PayloadEntry> = Vec::new();
    let mut i: usize = 0;
    while i < p.len()
        invariant
            i <= p.len(),
            r.len() == i,
            forall|j: int| 0 <= j < i ==> r@[j]@ == p@[j]@,
        decreases p.len() - i,
    {
        let e = PayloadEntry { key: p[i].key.clone(), values: clone_string_vec(&p[i].values) };
        assert(e@ =~= p@[i as int]@);
        r.push(e);
        i = i + 1;
    }
    assert(payload_view(r@) =~= payload_view(p@));
    r
}

/// Clones a vector of components.
pub fn clone_vector(v: &Vec<i64>) -> (r: Vec<i64>)
    ensures
        r@ == v@,
{
    let mut r: Vec<i64> = Vec::new();
    let mut i: usize = 0;
    while i < v.len()
        invariant
            i <= v.len(),
            r@ == v@.take(i as int),
        decreases v.len() - i,
    {
        r.push(v[i]);
        assert(r@ =~= v@.take(i + 1 as int));
        i = i + 1;
    }
    assert(r@ =~= v@);
    r
}

} // verus!
