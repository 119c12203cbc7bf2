//! Ready-made segments and holders for exercising the pipeline. The
//! contracts fix the exact contents: ids, versions, vectors and payloads.

use vstd::prelude::*;

use crate::holder::SegmentHolder;
use crate::segment::Segment;
use crate::types::{PayloadEntry, PayloadSnap, PointSnap, SegmentType};

verus! {

/// A live point without payload.
pub open spec fn plain_point(version: u64, vector: Seq<i64>) -> PointSnap {
    PointSnap { version, deleted: false, vector, payload: Seq::empty() }
}

/// A live point whose payload binds `color` to the given keyword list.
pub open spec fn colored_point(version: u64, vector: Seq<i64>, values: Seq<Seq<char>>) -> PointSnap {
    PointSnap {
        version,
        deleted: false,
        vector,
        payload: seq![PayloadSnap { key: "color"@, values }],
    }
}

/// The first fixture segment: five points, upserted at 1..=5, their `color`
/// payloads set at 6.
pub open spec fn segment_1_map() -> Map<u64, PointSnap> {
    Map::<u64, PointSnap>::empty().insert(1, colored_point(6, seq![1i64, 0, 1, 1], seq!["red"@]))
        .insert(2, colored_point(6, seq![1i64, 0, 1, 0], seq!["red"@])).insert(
        3,
        colored_point(6, seq![1i64, 1, 1, 1], seq!["blue"@]),
    ).insert(4, colored_point(6, seq![1i64, 1, 0, 1], seq!["red"@, "blue"@])).insert(
        5,
        colored_point(6, seq![1i64, 0, 0, 0], seq!["red"@, "blue"@]),
    )
}

/// The second fixture segment: ids 4 and 5 again at the later versions 7 and
/// 8, plus ids 11..=15, no payloads.
pub open spec fn segment_2_map() -> Map<u64, PointSnap> {
    Map::<u64, PointSnap>::empty().insert(4, plain_point(7, seq![1i64, 1, 0, 1])).insert(
        5,
        plain_point(8, seq![1i64, 0, 0, 0]),
    ).insert(11, plain_point(11, seq![1i64, 1, 1, 1])).insert(
        12,
        plain_point(12, seq![1i64, 1, 1, 0]),
    ).insert(13, plain_point(13, seq![1i64, 0, 1, 1])).insert(
        14,
        plain_point(14, seq![1i64, 0, 0, 1]),
    ).insert(15, plain_point(15, seq![1i64, 1, 0, 0]))
}

/// An empty appendable four-dimensional segment with dot-product scoring.
pub fn empty_segment() -> (r: Segment)
    ensures
        r.wf(),
        r.dim == 4,
        r.point_map() == Map::<u64, PointSnap>::empty(),
        r.appendable,
{
    Segment::new(4, SegmentType::Plain, true)
}

fn vec4(a: i64, b: i64, c: i64, d: i64) -> (r: Vec<i64>)
    requires
        0 <= a <= 1,
        0 <= b <= 1,
        0 <= c <= 1,
        0 <= d <= 1,
    ensures
        r@.len() == 4,
        crate::segment::bounded_vec(r@),
        r@ == seq![a, b, c, d],
{
    let mut r: Vec<i64> = Vec::new();
    r.push(a);
    r.push(b);
    r.push(c);
    r.push(d);
    proof {
        assert(r@ =~= seq![a, b, c, d]);
    }
    r
}

/// Five points with a `color` keyword payload on each: exactly the image
/// `segment_1_map` describes.
pub fn build_segment_1() -> (r: Segment)
    ensures
        r.wf(),
        r.dim == 4,
        r.appendable,
        r.point_map() == segment_1_map(),
{
    let mut segment1 = empty_segment();
    let empty_payload: Vec<PayloadEntry> = Vec::new();
    proof {
        assert(crate::types::payload_view(empty_payload@) =~= Seq::<PayloadSnap>::empty());
    }

    let vec1 = vec4(1, 0, 1, 1);
    let vec2 = vec4(1, 0, 1, 0);
    let vec3 = vec4(1, 1, 1, 1);
    let vec4v = vec4(1, 1, 0, 1);
    let vec5 = vec4(1, 0, 0, 0);

    let _ = segment1.upsert_point(1, 1, &vec1, &empty_payload);
    let _ = segment1.upsert_point(2, 2, &vec2, &empty_payload);
    let _ = segment1.upsert_point(3, 3, &vec3, &empty_payload);
    let _ = segment1.upsert_point(4, 4, &vec4v, &empty_payload);
    let _ = segment1.upsert_point(5, 5, &vec5, &empty_payload);

    let payload_key = "color".to_owned();

    let mut red: Vec<String> = Vec::new();
    red.push("red".to_owned());
    let mut red_blue: Vec<String> = Vec::new();
    red_blue.push("red".to_owned());
    red_blue.push("blue".to_owned());
    let mut blue: Vec<String> = Vec::new();
    blue.push("blue".to_owned());
    proof {
        assert(red.deep_view() =~= seq!["red"@]);
        assert(blue.deep_view() =~= seq!["blue"@]);
        assert(red_blue.deep_view() =~= seq!["red"@, "blue"@]);
    }

    let _ = segment1.set_payload(6, 1, &payload_key, &red);
    let _ = segment1.set_payload(6, 2, &payload_key, &red);
    let _ = segment1.set_payload(6, 3, &payload_key, &blue);
    let _ = segment1.set_payload(6, 4, &payload_key, &red_blue);
    let _ = segment1.set_payload(6, 5, &payload_key, &red_blue);

    proof {
        assert(segment1.point_map() =~~= segment_1_map());
    }
    segment1
}

/// A second segment overlapping the first on ids 4 and 5 at later versions:
/// exactly the image `segment_2_map` describes.
pub fn build_segment_2() -> (r: Segment)
    ensures
        r.wf(),
        r.dim == 4,
        r.appendable,
        r.point_map() == segment_2_map(),
{
    let mut segment2 = empty_segment();
    let empty_payload: Vec<PayloadEntry> = Vec::new();
    proof {
        assert(crate::types::payload_view(empty_payload@) =~= Seq::<PayloadSnap>::empty());
    }

    let vec4v = vec4(1, 1, 0, 1);
    let vec5 = vec4(1, 0, 0, 0);

    let vec11 = vec4(1, 1, 1, 1);
    let vec12 = vec4(1, 1, 1, 0);
    let vec13 = vec4(1, 0, 1, 1);
    let vec14 = vec4(1, 0, 0, 1);
    let vec15 = vec4(1, 1, 0, 0);

    let _ = segment2.upsert_point(7, 4, &vec4v, &empty_payload);
    let _ = segment2.upsert_point(8, 5, &vec5, &empty_payload);

    let _ = segment2.upsert_point(11, 11, &vec11, &empty_payload);
    let _ = segment2.upsert_point(12, 12, &vec12, &empty_payload);
    let _ = segment2.upsert_point(13, 13, &vec13, &empty_payload);
    let _ = segment2.upsert_point(14, 14, &vec14, &empty_payload);
    let _ = segment2.upsert_point(15, 15, &vec15, &empty_payload);

    proof {
        assert(segment2.point_map() =~~= segment_2_map());
    }
    segment2
}

/// A holder over the two fixture segments: slot 0 shows `segment_1_map`,
/// slot 1 shows `segment_2_map`, so ids 4 and 5 appear twice with the higher
/// versions in the second slot.
pub fn build_test_holder() -> (r: SegmentHolder)
    ensures
        r.wf(),
        r.dim == 4,
        r.segments@.len() == 2,
        r.maps() == seq![segment_1_map(), segment_2_map()],
        r.ids() == seq![0u64, 1u64],
        r.apps() == seq![true, true],
        r.failed_operations@.len() == 0,
        r.optimizer_error is None,
{
    let segment1 = build_segment_1();
    let segment2 = build_segment_2();

    let mut holder = SegmentHolder::new(4);

    let _sid1 = holder.add(segment1);
    let _sid2 = holder.add(segment2);

    proof {
        assert(holder.maps() =~= seq![segment_1_map(), segment_2_map()]);
        assert(holder.ids() =~= seq![0u64, 1u64]);
        assert(holder.apps() =~= seq![true, true]);
    }
    holder
}

} // verus!
