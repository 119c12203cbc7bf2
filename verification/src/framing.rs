//! The on-disk frame of one WAL entry: a length prefix, the operation
//! number, the opaque serialized payload, and a CRC-32 footer. Encoding and
//! decoding invert each other; a decoder accepts exactly the canonical
//! frames.

use vstd::prelude::*;

verus! {

/// One step of the reflected CRC-32 bit recurrence.
pub open spec fn crc_bit(r: u32) -> u32 {
    if r & 1 == 1 {
        (r >> 1) ^ 0xEDB88320u32
    } else {
        r >> 1
    }
}

/// `n` bit steps.
pub open spec fn crc_bits(r: u32, n: nat) -> u32
    decreases n,
{
    if n == 0 {
        r
    } else {
        crc_bits(crc_bit(r), (n - 1) as nat)
    }
}

/// Folding one byte into the running remainder.
pub open spec fn crc_update(r: u32, b: u8) -> u32 {
    crc_bits(r ^ (b as u32), 8)
}

/// The running remainder over a byte sequence, from the all-ones seed.
pub open spec fn crc_acc(s: Seq<u8>) -> u32
    decreases s.len(),
{
    if s.len() == 0 {
        0xFFFFFFFFu32
    } else {
        crc_update(crc_acc(s.drop_last()), s.last())
    }
}

/// CRC-32 of a byte sequence.
pub open spec fn spec_crc32(s: Seq<u8>) -> u32 {
    crc_acc(s) ^ 0xFFFFFFFFu32
}

/// CRC-32, computed bit by bit exactly as the recurrence states it.
pub fn crc32(data: &Vec<u8>) -> (r: u32)
    ensures
        r == spec_crc32(data@),
{
    let mut acc: u32 = 0xFFFFFFFF;
    let mut i: usize = 0;
    while i < data.len()
        invariant
            i <= data@.len(),
            acc == crc_acc(data@.take(i as int)),
        decreases data@.len() - i,
    {
        proof {
            assert(data@.take(i + 1).drop_last() =~= data@.take(i as int));
            assert(data@.take(i + 1).last() == data@[i as int]);
        }
        let mut r: u32 = acc ^ (data[i] as u32);
        let mut k: usize = 0;
        while k < 8
            invariant
                k <= 8,
                r == crc_bits(acc ^ (data@[i as int] as u32), k as nat),
            decreases 8 - k,
        {
            proof {
                assert(crc_bits(acc ^ (data@[i as int] as u32), (k + 1) as nat) == crc_bit(
                    crc_bits(acc ^ (data@[i as int] as u32), k as nat),
                )) by {
                    lemma_crc_bits_unfold(acc ^ (data@[i as int] as u32), k as nat);
                }
            }
            if r & 1 == 1 {
                r = (r >> 1) ^ 0xEDB88320;
            } else {
                r = r >> 1;
            }
            k = k + 1;
        }
        acc = r;
        i = i + 1;
    }
    proof {
        assert(data@.take(data@.len() as int) =~= data@);
    }
    acc ^ 0xFFFFFFFF
}

/// The recurrence steps from the front as well as from the back.
proof fn lemma_crc_bits_unfold(r: u32, n: nat)
    ensures
        crc_bits(r, n + 1) == crc_bit(crc_bits(r, n)),
    decreases n,
{
    assert(crc_bits(r, n + 1) == crc_bits(crc_bit(r), n));
    if n == 0 {
        assert(crc_bits(crc_bit(r), 0) == crc_bit(r));
        assert(crc_bits(r, 0) == r);
    } else {
        lemma_crc_bits_unfold(crc_bit(r), (n - 1) as nat);
        assert(crc_bits(r, n) == crc_bits(crc_bit(r), (n - 1) as nat));
    }
}

/// Little-endian bytes of a `u32`.
pub open spec fn le32(x: u32) -> Seq<u8> {
    seq![
        (x & 0xff) as u8,
        ((x >> 8) & 0xff) as u8,
        ((x >> 16) & 0xff) as u8,
        ((x >> 24) & 0xff) as u8,
    ]
}

/// Little-endian bytes of a `u64`.
pub open spec fn le64(x: u64) -> Seq<u8> {
    seq![
        (x & 0xff) as u8,
        ((x >> 8) & 0xff) as u8,
        ((x >> 16) & 0xff) as u8,
        ((x >> 24) & 0xff) as u8,
        ((x >> 32) & 0xff) as u8,
        ((x >> 40) & 0xff) as u8,
        ((x >> 48) & 0xff) as u8,
        ((x >> 56) & 0xff) as u8,
    ]
}

/// The canonical frame: `[u32 len][u64 op_num][payload][u32 crc32]`.
pub open spec fn spec_frame(op_num: u64, payload: Seq<u8>) -> Seq<u8> {
    le32(payload.len() as u32) + le64(op_num) + payload + le32(spec_crc32(payload))
}

proof fn lemma_le32_roundtrip(x: u32)
    ensures
        (le32(x)[0] as u32) | ((le32(x)[1] as u32) << 8) | ((le32(x)[2] as u32) << 16) | ((le32(
            x,
        )[3] as u32) << 24) == x,
{
    assert(((((x & 0xff) as u8) as u32) | (((((x >> 8) & 0xff) as u8) as u32) << 8) | (((((x >> 16)
        & 0xff) as u8) as u32) << 16) | (((((x >> 24) & 0xff) as u8) as u32) << 24)) == x)
        by (bit_vector);
}

proof fn lemma_le64_roundtrip(x: u64)
    ensures
        (le64(x)[0] as u64) | ((le64(x)[1] as u64) << 8) | ((le64(x)[2] as u64) << 16) | ((le64(
            x,
        )[3] as u64) << 24) | ((le64(x)[4] as u64) << 32) | ((le64(x)[5] as u64) << 40) | ((le64(
            x,
        )[6] as u64) << 48) | ((le64(x)[7] as u64) << 56) == x,
{
    assert(((((x & 0xff) as u8) as u64) | (((((x >> 8) & 0xff) as u8) as u64) << 8) | (((((x >> 16)
        & 0xff) as u8) as u64) << 16) | (((((x >> 24) & 0xff) as u8) as u64) << 24) | (((((x >> 32)
        & 0xff) as u8) as u64) << 32) | (((((x >> 40) & 0xff) as u8) as u64) << 40) | (((((x >> 48)
        & 0xff) as u8) as u64) << 48) | (((((x >> 56) & 0xff) as u8) as u64) << 56)) == x)
        by (bit_vector);
}

fn push_le32(out: &mut Vec<u8>, x: u32)
    ensures
        final(out)@ == old(out)@ + le32(x),
{
    out.push((x & 0xff) as u8);
    out.push(((x >> 8) & 0xff) as u8);
    out.push(((x >> 16) & 0xff) as u8);
    out.push(((x >> 24) & 0xff) as u8);
    proof {
        assert(out@ =~= old(out)@ + le32(x));
    }
}

fn push_le64(out: &mut Vec<u8>, x: u64)
    ensures
        final(out)@ == old(out)@ + le64(x),
{
    out.push((x & 0xff) as u8);
    out.push(((x >> 8) & 0xff) as u8);
    out.push(((x >> 16) & 0xff) as u8);
    out.push(((x >> 24) & 0xff) as u8);
    out.push(((x >> 32) & 0xff) as u8);
    out.push(((x >> 40) & 0xff) as u8);
    out.push(((x >> 48) & 0xff) as u8);
    out.push(((x >> 56) & 0xff) as u8);
    proof {
        assert(out@ =~= old(out)@ + le64(x));
    }
}

fn read_le32(bytes: &Vec<u8>, at: usize) -> (r: u32)
    requires
        at + 4 <= bytes@.len(),
    ensures
        r == (bytes@[at as int] as u32) | ((bytes@[at + 1] as u32) << 8) | ((bytes@[at + 2] as u32)
            << 16) | ((bytes@[at + 3] as u32) << 24),
{
    let n = bytes.len();
    proof {
        assert(at + 4 <= n);
    }
    (bytes[at] as u32) | ((bytes[at + 1] as u32) << 8) | ((bytes[at + 2] as u32) << 16) | ((
    bytes[at + 3] as u32) << 24)
}

fn read_le64(bytes: &Vec<u8>, at: usize) -> (r: u64)
    requires
        at + 8 <= bytes@.len(),
    ensures
        r == (bytes@[at as int] as u64) | ((bytes@[at + 1] as u64) << 8) | ((bytes@[at + 2] as u64)
            << 16) | ((bytes@[at + 3] as u64) << 24) | ((bytes@[at + 4] as u64) << 32) | ((bytes@[
            at + 5
        ] as u64) << 40) | ((bytes@[at + 6] as u64) << 48) | ((bytes@[at + 7] as u64) << 56),
{
    let n = bytes.len();
    proof {
        assert(at + 8 <= n);
    }
    (bytes[at] as u64) | ((bytes[at + 1] as u64) << 8) | ((bytes[at + 2] as u64) << 16) | ((
    bytes[at + 3] as u64) << 24) | ((bytes[at + 4] as u64) << 32) | ((bytes[at + 5] as u64) << 40)
        | ((bytes[at + 6] as u64) << 48) | ((bytes[at + 7] as u64) << 56)
}

/// Encodes one frame.
pub fn encode_frame(op_num: u64, payload: &Vec<u8>) -> (r: Vec<u8>)
    requires
        payload@.len() <= 0xffffffff,
        payload@.len() + 16 <= usize::MAX,
    ensures
        r@ == spec_frame(op_num, payload@),
{
    let mut out: Vec<u8> = Vec::new();
    push_le32(&mut out, payload.len() as u32);
    push_le64(&mut out, op_num);
    let mut i: usize = 0;
    let ghost mid = out@;
    while i < payload.len()
        invariant
            i <= payload@.len(),
            out@ == mid + payload@.take(i as int),
        decreases payload@.len() - i,
    {
        out.push(payload[i]);
        proof {
            assert(out@ =~= mid + payload@.take(i + 1));
        }
        i = i + 1;
    }
    proof {
        assert(payload@.take(payload@.len() as int) =~= payload@);
    }
    let crc = crc32(payload);
    push_le32(&mut out, crc);
    proof {
        assert(out@ =~= spec_frame(op_num, payload@));
    }
    out
}

/// Decodes one frame. A successful decode returns exactly the operation
/// number and payload whose canonical frame the input is; a corrupted
/// length or checksum is rejected.
pub fn decode_frame(bytes: &Vec<u8>) -> (r: Option<(u64, Vec<u8>)>)
    ensures
        match r {
            Option::Some(np) => bytes@ == spec_frame(np.0, np.1@),
            Option::None => forall|n: u64, p: Seq<u8>|
                p.len() <= 0xffffffff ==> bytes@ != spec_frame(n, p),
        },
{
    if bytes.len() < 16 {
        proof {
            assert forall|n: u64, p: Seq<u8>| p.len() <= 0xffffffff implies bytes@ != spec_frame(
                n,
                p,
            ) by {
                assert(spec_frame(n, p).len() == 16 + p.len());
            }
        }
        return Option::None;
    }
    let len32 = read_le32(bytes, 0);
    let len = len32 as usize;
    if len > bytes.len() - 16 || bytes.len() - 16 != len {
        proof {
            assert forall|n: u64, p: Seq<u8>| p.len() <= 0xffffffff implies bytes@ != spec_frame(
                n,
                p,
            ) by {
                if bytes@ == spec_frame(n, p) {
                    assert(bytes@.len() == 16 + p.len());
                    lemma_le32_roundtrip(p.len() as u32);
                    assert(bytes@[0] == le32(p.len() as u32)[0]);
                    assert(bytes@[1] == le32(p.len() as u32)[1]);
                    assert(bytes@[2] == le32(p.len() as u32)[2]);
                    assert(bytes@[3] == le32(p.len() as u32)[3]);
                    assert(len32 == p.len() as u32);
                }
            }
        }
        return Option::None;
    }
    let op_num = read_le64(bytes, 4);
    let total = bytes.len();
    let mut payload: Vec<u8> = Vec::new();
    let mut i: usize = 0;
    while i < len
        invariant
            i <= len,
            len + 16 == total,
            total == bytes@.len(),
            payload@ == bytes@.subrange(12, 12 + i as int),
        decreases len - i,
    {
        payload.push(bytes[12 + i]);
        proof {
            assert(payload@ =~= bytes@.subrange(12, 12 + i + 1));
        }
        i = i + 1;
    }
    let crc_stored = read_le32(bytes, 12 + len);
    let crc_computed = crc32(&payload);
    if crc_stored != crc_computed {
        proof {
            assert forall|n: u64, p: Seq<u8>| p.len() <= 0xffffffff implies bytes@ != spec_frame(
                n,
                p,
            ) by {
                if bytes@ == spec_frame(n, p) {
                    lemma_le32_roundtrip(p.len() as u32);
                    assert(bytes@[0] == le32(p.len() as u32)[0]);
                    assert(bytes@[1] == le32(p.len() as u32)[1]);
                    assert(bytes@[2] == le32(p.len() as u32)[2]);
                    assert(bytes@[3] == le32(p.len() as u32)[3]);
                    assert(len32 == p.len() as u32);
                    assert(len == p.len());
                    assert(payload@ =~= p) by {
                        assert(forall|w: int|
                            0 <= w < p.len() ==> bytes@[12 + w] == #[trigger] p[w]);
                    }
                    lemma_le32_roundtrip(spec_crc32(p));
                    assert(bytes@[12 + len] == le32(spec_crc32(p))[0]);
                    assert(bytes@[13 + len] == le32(spec_crc32(p))[1]);
                    assert(bytes@[14 + len] == le32(spec_crc32(p))[2]);
                    assert(bytes@[15 + len] == le32(spec_crc32(p))[3]);
                    assert(crc_stored == spec_crc32(p));
                }
            }
        }
        return Option::None;
    }
    proof {
        lemma_le32_roundtrip(len32);
        lemma_le64_roundtrip(op_num);
        lemma_le32_roundtrip(crc_computed);
        assert(bytes@ =~= spec_frame(op_num, payload@)) by {
            assert(payload@.len() == len);
            assert(spec_crc32(payload@) == crc_computed);
            assert(le32(len32) =~= bytes@.subrange(0, 4)) by {
                lemma_le32_bytes(bytes@, 0, len32);
            }
            assert(le64(op_num) =~= bytes@.subrange(4, 12)) by {
                lemma_le64_bytes(bytes@, 4, op_num);
            }
            assert(le32(crc_computed) =~= bytes@.subrange(12 + len as int, 16 + len as int)) by {
                lemma_le32_bytes(bytes@, 12 + len as int, crc_computed);
            }
        }
    }
    Option::Some((op_num, payload))
}

/// If a `u32` was read little-endian from four bytes, those bytes are its
/// little-endian encoding.
proof fn lemma_le32_bytes(bytes: Seq<u8>, at: int, x: u32)
    requires
        0 <= at,
        at + 4 <= bytes.len(),
        x == (bytes[at] as u32) | ((bytes[at + 1] as u32) << 8) | ((bytes[at + 2] as u32) << 16) | (
        (bytes[at + 3] as u32) << 24),
    ensures
        le32(x) =~= bytes.subrange(at, at + 4),
{
    let b0 = bytes[at];
    let b1 = bytes[at + 1];
    let b2 = bytes[at + 2];
    let b3 = bytes[at + 3];
    assert((((b0 as u32) | ((b1 as u32) << 8) | ((b2 as u32) << 16) | ((b3 as u32) << 24)) & 0xff)
        as u8 == b0) by (bit_vector);
    assert(((((b0 as u32) | ((b1 as u32) << 8) | ((b2 as u32) << 16) | ((b3 as u32) << 24)) >> 8)
        & 0xff) as u8 == b1) by (bit_vector);
    assert(((((b0 as u32) | ((b1 as u32) << 8) | ((b2 as u32) << 16) | ((b3 as u32) << 24)) >> 16)
        & 0xff) as u8 == b2) by (bit_vector);
    assert(((((b0 as u32) | ((b1 as u32) << 8) | ((b2 as u32) << 16) | ((b3 as u32) << 24)) >> 24)
        & 0xff) as u8 == b3) by (bit_vector);
}

proof fn lemma_le64_bytes(bytes: Seq<u8>, at: int, x: u64)
    requires
        0 <= at,
        at + 8 <= bytes.len(),
        x == (bytes[at] as u64) | ((bytes[at + 1] as u64) << 8) | ((bytes[at + 2] as u64) << 16) | (
        (bytes[at + 3] as u64) << 24) | ((bytes[at + 4] as u64) << 32) | ((bytes[at + 5] as u64)
            << 40) | ((bytes[at + 6] as u64) << 48) | ((bytes[at + 7] as u64) << 56),
    ensures
        le64(x) =~= bytes.subrange(at, at + 8),
{
    let b0 = bytes[at];
    let b1 = bytes[at + 1];
    let b2 = bytes[at + 2];
    let b3 = bytes[at + 3];
    let b4 = bytes[at + 4];
    let b5 = bytes[at + 5];
    let b6 = bytes[at + 6];
    let b7 = bytes[at + 7];
    let y = (b0 as u64) | ((b1 as u64) << 8) | ((b2 as u64) << 16) | ((b3 as u64) << 24) | ((
    b4 as u64) << 32) | ((b5 as u64) << 40) | ((b6 as u64) << 48) | ((b7 as u64) << 56);
    assert((y & 0xff) as u8 == b0 && ((y >> 8) & 0xff) as u8 == b1 && ((y >> 16) & 0xff) as u8
        == b2 && ((y >> 24) & 0xff) as u8 == b3 && ((y >> 32) & 0xff) as u8 == b4 && ((y >> 40)
        & 0xff) as u8 == b5 && ((y >> 48) & 0xff) as u8 == b6 && ((y >> 56) & 0xff) as u8 == b7)
        by (bit_vector)
        requires
            y == (b0 as u64) | ((b1 as u64) << 8) | ((b2 as u64) << 16) | ((b3 as u64) << 24) | ((
            b4 as u64) << 32) | ((b5 as u64) << 40) | ((b6 as u64) << 48) | ((b7 as u64) << 56),
    ;
}

} // verus!
