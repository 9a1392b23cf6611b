//! The bytes of a standalone binary: numbers, length-prefixed chunks and
//! the frame that closes the file.
//!
//! A standalone binary ends with the payload, the length of the payload
//! as eight big-endian bytes, and the magic marker.

use vstd::prelude::*;

verus! {

/// The eight bytes `cr3sc3nt` that close every standalone binary.
pub open spec fn magic() -> Seq<u8> {
    seq![0x63u8, 0x72u8, 0x33u8, 0x73u8, 0x63u8, 0x33u8, 0x6eu8, 0x74u8]
}

/// The eight big-endian bytes of `n`: its last eight digits to the base 256.
pub open spec fn be64_bytes(n: nat) -> Seq<u8> {
    let r1 = n / 256;
    let r2 = r1 / 256;
    let r3 = r2 / 256;
    let r4 = r3 / 256;
    let r5 = r4 / 256;
    let r6 = r5 / 256;
    let r7 = r6 / 256;
    seq![
        (r7 % 256) as u8,
        (r6 % 256) as u8,
        (r5 % 256) as u8,
        (r4 % 256) as u8,
        (r3 % 256) as u8,
        (r2 % 256) as u8,
        (r1 % 256) as u8,
        (n % 256) as u8,
    ]
}

/// The number that the first eight bytes of `s` stand for, big-endian.
pub open spec fn be64(s: Seq<u8>) -> nat
    recommends
        s.len() >= 8,
{
    (((((((s[0] as nat) * 256 + (s[1] as nat)) * 256 + (s[2] as nat)) * 256 + (s[3] as nat)) * 256
        + (s[4] as nat)) * 256 + (s[5] as nat)) * 256 + (s[6] as nat)) * 256 + (s[7] as nat)
}

/// The bytes of a number that fits in 64 bits stand for that number.
pub proof fn lemma_be64_round_trip(n: nat)
    requires
        n <= u64::MAX,
    ensures
        be64_bytes(n).len() == 8,
        be64(be64_bytes(n)) == n,
{
    let r1 = n / 256;
    let r2 = r1 / 256;
    let r3 = r2 / 256;
    let r4 = r3 / 256;
    let r5 = r4 / 256;
    let r6 = r5 / 256;
    let r7 = r6 / 256;
    assert(r7 < 256);
    let s = be64_bytes(n);
    assert(s[0] as nat == r7);
    assert((s[0] as nat) * 256 + (s[1] as nat) == r6);
    assert(r6 * 256 + (s[2] as nat) == r5);
    assert(r5 * 256 + (s[3] as nat) == r4);
    assert(r4 * 256 + (s[4] as nat) == r3);
    assert(r3 * 256 + (s[5] as nat) == r2);
    assert(r2 * 256 + (s[6] as nat) == r1);
    assert(r1 * 256 + (s[7] as nat) == n);
}

/// `b` behind its length.
pub open spec fn chunk(b: Seq<u8>) -> Seq<u8> {
    be64_bytes(b.len()) + b
}

/// The chunk that `bytes` starts with and what follows it; `None` where
/// `bytes` is too short for the length it announces.
pub open spec fn take_chunk(bytes: Seq<u8>) -> Option<(Seq<u8>, Seq<u8>)> {
    if bytes.len() < 8 {
        None
    } else if be64(bytes) > bytes.len() - 8 {
        None
    } else {
        Some((bytes.subrange(8, 8 + be64(bytes) as int), bytes.skip(8 + be64(bytes) as int)))
    }
}

/// A chunk is read back as it was written, whatever follows it.
pub proof fn lemma_take_chunk(b: Seq<u8>, rest: Seq<u8>)
    requires
        b.len() <= u64::MAX,
    ensures
        take_chunk(chunk(b) + rest) == Some((b, rest)),
{
    lemma_be64_round_trip(b.len());
    let all = chunk(b) + rest;
    let head = be64_bytes(b.len());
    assert(forall|i: int| 0 <= i < 8 ==> all[i] == head[i]);
    assert(be64(all) == be64(head));
    assert(all.subrange(8, 8 + b.len() as int) =~= b);
    assert(all.skip(8 + b.len() as int) =~= rest);
}

/// The end of a standalone binary with the payload `payload`.
pub open spec fn frame(payload: Seq<u8>) -> Seq<u8> {
    payload + be64_bytes(payload.len()) + magic()
}

/// `bytes` ends with the magic marker and is long enough to hold a frame.
pub open spec fn is_standalone(bytes: Seq<u8>) -> bool {
    bytes.len() >= 16 && bytes.skip(bytes.len() - 8) == magic()
}

/// The payload of the standalone binary `bytes`; `None` where the length
/// that the frame announces is more than what stands before it.
pub open spec fn framed_payload(bytes: Seq<u8>) -> Option<Seq<u8>>
    recommends
        is_standalone(bytes),
{
    let n = be64(bytes.skip(bytes.len() - 16));
    if n > bytes.len() - 16 {
        None
    } else {
        Some(bytes.subrange(bytes.len() - 16 - n, bytes.len() - 16))
    }
}

/// A frame behind any bytes is a standalone binary with the payload of the frame.
pub proof fn lemma_frame(host: Seq<u8>, payload: Seq<u8>)
    requires
        payload.len() <= u64::MAX,
    ensures
        is_standalone(host + frame(payload)),
        framed_payload(host + frame(payload)) == Some(payload),
{
    lemma_be64_round_trip(payload.len());
    let all = host + frame(payload);
    let head = be64_bytes(payload.len());
    assert(all.skip(all.len() - 8) =~= magic());
    let tail = all.skip(all.len() - 16);
    assert(forall|i: int| 0 <= i < 8 ==> tail[i] == head[i]);
    assert(be64(tail) == be64(head));
    assert(all.subrange(all.len() - 16 - payload.len(), all.len() - 16) =~= payload);
}

/// Adds `bytes` to the end of `out`.
pub fn append_bytes(out: &mut Vec<u8>, bytes: &[u8])
    ensures
        final(out)@ == old(out)@ + bytes@,
{
    let mut i: usize = 0;
    while i < bytes.len()
        invariant
            i <= bytes@.len(),
            out@ == old(out)@ + bytes@.take(i as int),
        decreases bytes@.len() - i,
    {
        out.push(bytes[i]);
        i += 1;
        assert(out@ =~= old(out)@ + bytes@.take(i as int));
    }
    assert(bytes@.take(i as int) =~= bytes@);
}

/// Adds the eight big-endian bytes of `n` to the end of `out`.
pub fn append_be64(out: &mut Vec<u8>, n: u64)
    ensures
        final(out)@ == old(out)@ + be64_bytes(n as nat),
{
    let r1 = n / 256;
    let r2 = r1 / 256;
    let r3 = r2 / 256;
    let r4 = r3 / 256;
    let r5 = r4 / 256;
    let r6 = r5 / 256;
    let r7 = r6 / 256;
    out.push((r7 % 256) as u8);
    out.push((r6 % 256) as u8);
    out.push((r5 % 256) as u8);
    out.push((r4 % 256) as u8);
    out.push((r3 % 256) as u8);
    out.push((r2 % 256) as u8);
    out.push((r1 % 256) as u8);
    out.push((n % 256) as u8);
    assert(out@ =~= old(out)@ + be64_bytes(n as nat));
}

/// Adds `bytes`, behind its length, to the end of `out`.
pub fn append_chunk(out: &mut Vec<u8>, bytes: &[u8])
    ensures
        final(out)@ == old(out)@ + chunk(bytes@),
{
    append_be64(out, bytes.len() as u64);
    append_bytes(out, bytes);
    assert(out@ =~= old(out)@ + chunk(bytes@));
}

/// Reads the number that the eight bytes of `bytes` from position `at` on
/// stand for, big-endian.
pub fn read_be64(bytes: &[u8], at: usize) -> (n: u64)
    requires
        at + 8 <= bytes@.len(),
    ensures
        n == be64(bytes@.skip(at as int)),
{
    let b0 = bytes[at] as u64;
    let b1 = bytes[at + 1] as u64;
    let b2 = bytes[at + 2] as u64;
    let b3 = bytes[at + 3] as u64;
    let b4 = bytes[at + 4] as u64;
    let b5 = bytes[at + 5] as u64;
    let b6 = bytes[at + 6] as u64;
    let b7 = bytes[at + 7] as u64;
    let v1 = b0 * 256 + b1;
    let v2 = v1 * 256 + b2;
    let v3 = v2 * 256 + b3;
    let v4 = v3 * 256 + b4;
    let v5 = v4 * 256 + b5;
    let v6 = v5 * 256 + b6;
    v6 * 256 + b7
}

/// Copies the bytes of `bytes` from position `from` up to position `to`.
pub fn copy_range(bytes: &[u8], from: usize, to: usize) -> (r: Vec<u8>)
    requires
        from <= to <= bytes@.len(),
    ensures
        r@ == bytes@.subrange(from as int, to as int),
{
    let mut out: Vec<u8> = Vec::new();
    let mut i: usize = from;
    while i < to
        invariant
            from <= i <= to <= bytes@.len(),
            out@ == bytes@.subrange(from as int, i as int),
        decreases to - i,
    {
        out.push(bytes[i]);
        i += 1;
        assert(out@ =~= bytes@.subrange(from as int, i as int));
    }
    out
}

/// Whether `bytes` ends with the magic marker and can hold a frame.
pub fn ends_with_magic(bytes: &[u8]) -> (r: bool)
    ensures
        r == is_standalone(bytes@),
{
    let n = bytes.len();
    if n < 16 {
        return false;
    }
    let r = bytes[n - 8] == 0x63 && bytes[n - 7] == 0x72 && bytes[n - 6] == 0x33 && bytes[n - 5]
        == 0x73 && bytes[n - 4] == 0x63 && bytes[n - 3] == 0x33 && bytes[n - 2] == 0x6e
        && bytes[n - 1] == 0x74;
    proof {
        let tail = bytes@.skip(n - 8);
        assert(forall|i: int| 0 <= i < 8 ==> tail[i] == bytes@[n - 8 + i]);
        if r {
            assert(tail =~= magic());
        } else {
            assert(magic().len() == 8);
            assert(magic()[0] == 0x63 && magic()[1] == 0x72 && magic()[2] == 0x33 && magic()[3]
                == 0x73 && magic()[4] == 0x63 && magic()[5] == 0x33 && magic()[6] == 0x6e
                && magic()[7] == 0x74);
        }
    }
    r
}

} // verus!
