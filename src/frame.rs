//! The record codec: one `(key, value)` pair as a checksummed frame.
//!
//! A frame is `checksum | key_len | value_len | key | value`, the three
//! integers little-endian `u32`, the checksum CRC-32/ISO-HDLC over `key ++ value`.
use vstd::prelude::*;
use vstd::slice::{slice_subrange, slice_to_vec};

verus! {

/// The little-endian bytes of `n`.
pub open spec fn le_bytes(n: u32) -> Seq<u8> {
    seq![
        (n % 256) as u8,
        ((n / 256) % 256) as u8,
        ((n / 65536) % 256) as u8,
        (n / 16777216) as u8,
    ]
}

/// The little-endian `u32` held by the four bytes of `s` from `pos` on.
pub open spec fn le_value(s: Seq<u8>, pos: int) -> int {
    s[pos] as int + 256 * s[pos + 1] as int + 65536 * s[pos + 2] as int + 16777216
        * s[pos + 3] as int
}

/// Four bytes written by `le_bytes` read back as the same number.
pub proof fn lemma_le_round_trip(n: u32, s: Seq<u8>, pos: int)
    requires
        0 <= pos,
        pos + 4 <= s.len(),
        s.subrange(pos, pos + 4) == le_bytes(n),
    ensures
        le_value(s, pos) == n,
{
    assert(s[pos] == s.subrange(pos, pos + 4)[0]);
    assert(s[pos + 1] == s.subrange(pos, pos + 4)[1]);
    assert(s[pos + 2] == s.subrange(pos, pos + 4)[2]);
    assert(s[pos + 3] == s.subrange(pos, pos + 4)[3]);
    let x = n as int;
    assert(x == x % 256 + 256 * ((x / 256) % 256) + 65536 * ((x / 65536) % 256) + 16777216 * (x
        / 16777216)) by (nonlinear_arith)
        requires
            0 <= x < 0x1_0000_0000,
    ;
}

/// Reads the little-endian `u32` at `pos`.
fn read_u32_le(b: &[u8], pos: usize) -> (r: u32)
    requires
        pos + 4 <= b@.len(),
    ensures
        r as int == le_value(b@, pos as int),
{
    let v: u64 = b[pos] as u64 + 256 * (b[pos + 1] as u64) + 65536 * (b[pos + 2] as u64)
        + 16777216 * (b[pos + 3] as u64);
    v as u32
}

/// Appends the little-endian bytes of `n`.
fn push_u32_le(out: &mut Vec<u8>, n: u32)
    ensures
        final(out)@ == old(out)@ + le_bytes(n),
{
    out.push((n % 256) as u8);
    out.push(((n / 256) % 256) as u8);
    out.push(((n / 65536) % 256) as u8);
    out.push((n / 16777216) as u8);
    assert(final(out)@ =~= old(out)@ + le_bytes(n));
}

/// The size of a frame's fixed header: checksum, key length, value length.
pub const HEADER_LEN: usize = 12;

/// CRC-32/ISO-HDLC of a byte sequence.
pub uninterp spec fn crc32_of(data: Seq<u8>) -> u32;

/// Relies on `crc::Crc::<u32>::checksum` with the `CRC_32_ISO_HDLC` algorithm:
/// the result depends on the bytes alone.
#[verifier::external_body]
fn checksum(data: &[u8]) -> (r: u32)
    ensures
        r == crc32_of(data@),
{
    crc::Crc::<u32>::new(&crc::CRC_32_ISO_HDLC).checksum(data)
}

/// One decoded record.
#[derive(Debug, PartialEq, Eq)]
pub struct KeyValuePair {
    pub key: Vec<u8>,
    pub value: Vec<u8>,
}

impl View for KeyValuePair {
    type V = (Seq<u8>, Seq<u8>);

    open spec fn view(&self) -> (Seq<u8>, Seq<u8>) {
        (self.key@, self.value@)
    }
}

/// Why a log could not be read or written.
#[derive(Debug, Clone, Copy, PartialEq, Eq, Structural)]
pub enum KvError {
    /// The frame at `offset` has a full header but its payload runs past the end.
    Truncated { offset: u64 },
    /// The payload of the frame at `offset` does not have the stored checksum.
    Corrupt { offset: u64, expected: u32, actual: u32 },
    /// A key or value longer than a frame can describe, or a log that would
    /// outgrow the address space.
    TooLarge,
}

/// The bytes of the frame that holds `key` and `value`.
pub open spec fn frame_bytes(key: Seq<u8>, value: Seq<u8>) -> Seq<u8> {
    le_bytes(crc32_of(key + value)) + le_bytes(key.len() as u32) + le_bytes(value.len() as u32)
        + key + value
}

pub open spec fn header_fits(s: Seq<u8>, pos: int) -> bool {
    pos + HEADER_LEN <= s.len()
}

pub open spec fn stored_checksum(s: Seq<u8>, pos: int) -> int {
    le_value(s, pos)
}

pub open spec fn key_len_at(s: Seq<u8>, pos: int) -> int {
    le_value(s, pos + 4)
}

pub open spec fn value_len_at(s: Seq<u8>, pos: int) -> int {
    le_value(s, pos + 8)
}

/// Where the frame at `pos` ends, as its header declares.
pub open spec fn frame_end(s: Seq<u8>, pos: int) -> int {
    pos + HEADER_LEN + key_len_at(s, pos) + value_len_at(s, pos)
}

pub open spec fn payload_at(s: Seq<u8>, pos: int) -> Seq<u8> {
    s.subrange(pos + HEADER_LEN, frame_end(s, pos))
}

pub open spec fn key_at(s: Seq<u8>, pos: int) -> Seq<u8> {
    s.subrange(pos + HEADER_LEN, pos + HEADER_LEN + key_len_at(s, pos))
}

pub open spec fn value_at(s: Seq<u8>, pos: int) -> Seq<u8> {
    s.subrange(pos + HEADER_LEN + key_len_at(s, pos), frame_end(s, pos))
}

/// The frame at `pos` is complete and carries the checksum of its payload.
pub open spec fn frame_ok(s: Seq<u8>, pos: int) -> bool {
    &&& 0 <= pos
    &&& header_fits(s, pos)
    &&& frame_end(s, pos) <= s.len()
    &&& crc32_of(payload_at(s, pos)) as int == stored_checksum(s, pos)
}

/// What reading a frame at `pos` gives where `actual` is the checksum
/// computed over its payload: `Ok(None)` where not even a header is left (a
/// clean end), else the key, the value and where the next frame starts, or
/// the error.
pub open spec fn parse_frame_given(s: Seq<u8>, pos: int, actual: u32) -> Result<
    Option<(Seq<u8>, Seq<u8>, int)>,
    KvError,
> {
    if !header_fits(s, pos) {
        Ok(None)
    } else if frame_end(s, pos) > s.len() {
        Err(KvError::Truncated { offset: pos as u64 })
    } else if actual as int != stored_checksum(s, pos) {
        Err(
            KvError::Corrupt {
                offset: pos as u64,
                expected: stored_checksum(s, pos) as u32,
                actual,
            },
        )
    } else {
        Ok(Some((key_at(s, pos), value_at(s, pos), frame_end(s, pos))))
    }
}

/// What reading a frame at `pos` gives, its payload checked against the
/// stored checksum.
pub open spec fn parse_frame(s: Seq<u8>, pos: int) -> Result<
    Option<(Seq<u8>, Seq<u8>, int)>,
    KvError,
> {
    parse_frame_given(s, pos, crc32_of(payload_at(s, pos)))
}

/// The result of `decode` over plain values.
pub open spec fn decoded_view(r: Result<Option<(KeyValuePair, usize)>, KvError>) -> Result<
    Option<(Seq<u8>, Seq<u8>, int)>,
    KvError,
> {
    match r {
        Ok(Some((kv, next))) => Ok(Some((kv.key@, kv.value@, next as int))),
        Ok(None) => Ok(None),
        Err(e) => Err(e),
    }
}

/// Appends the bytes of `src`.
pub(crate) fn append_bytes(out: &mut Vec<u8>, src: &[u8])
    ensures
        final(out)@ == old(out)@ + src@,
{
    let mut i: usize = 0;
    while i < src.len()
        invariant
            i <= src@.len(),
            out@ == old(out)@ + src@.subrange(0, i as int),
        decreases src@.len() - i,
    {
        out.push(src[i]);
        i += 1;
        assert(out@ =~= old(out)@ + src@.subrange(0, i as int));
    }
    assert(src@.subrange(0, i as int) =~= src@);
}

/// The frame of `key` and `value` under `sum`, the checksum of `key ++ value`.
pub fn encode_with_checksum(sum: u32, key: &[u8], value: &[u8]) -> (r: Vec<u8>)
    requires
        key@.len() <= u32::MAX,
        value@.len() <= u32::MAX,
    ensures
        r@ == le_bytes(sum) + le_bytes(key@.len() as u32) + le_bytes(value@.len() as u32) + key@
            + value@,
{
    let mut out: Vec<u8> = Vec::new();
    push_u32_le(&mut out, sum);
    push_u32_le(&mut out, key.len() as u32);
    push_u32_le(&mut out, value.len() as u32);
    append_bytes(&mut out, key);
    append_bytes(&mut out, value);
    out
}

/// The frame that holds `key` and `value`.
pub fn encode(key: &[u8], value: &[u8]) -> (r: Vec<u8>)
    requires
        key@.len() <= u32::MAX,
        value@.len() <= u32::MAX,
    ensures
        r@ == frame_bytes(key@, value@),
{
    let mut data: Vec<u8> = Vec::new();
    append_bytes(&mut data, key);
    append_bytes(&mut data, value);
    let sum = checksum(data.as_slice());
    encode_with_checksum(sum, key, value)
}

/// Reads the frame that starts at `pos`, where `actual` is the checksum of
/// its payload (of no account where the payload is incomplete).
pub fn decode_checked(bytes: &[u8], pos: usize, actual: u32) -> (r: Result<
    Option<(KeyValuePair, usize)>,
    KvError,
>)
    requires
        pos <= bytes@.len(),
    ensures
        decoded_view(r) == parse_frame_given(bytes@, pos as int, actual),
{
    let len = bytes.len();
    if len - pos < HEADER_LEN {
        return Ok(None);
    }
    let saved = read_u32_le(bytes, pos);
    let key_len = read_u32_le(bytes, pos + 4);
    let value_len = read_u32_le(bytes, pos + 8);
    let start = pos + HEADER_LEN;
    if key_len as u64 + value_len as u64 > (len - start) as u64 {
        return Err(KvError::Truncated { offset: pos as u64 });
    }
    if actual != saved {
        return Err(KvError::Corrupt { offset: pos as u64, expected: saved, actual });
    }
    let key_end = start + key_len as usize;
    let end = key_end + value_len as usize;
    let key = slice_to_vec(slice_subrange(bytes, start, key_end));
    let value = slice_to_vec(slice_subrange(bytes, key_end, end));
    Ok(Some((KeyValuePair { key, value }, end)))
}

/// The bounds of the payload of the frame at `pos`, where the frame is complete.
fn payload_bounds(bytes: &[u8], pos: usize) -> (r: Option<(usize, usize)>)
    requires
        pos <= bytes@.len(),
    ensures
        match r {
            Some((start, end)) => {
                &&& header_fits(bytes@, pos as int)
                &&& frame_end(bytes@, pos as int) <= bytes@.len()
                &&& start == pos + HEADER_LEN
                &&& end == frame_end(bytes@, pos as int)
            },
            None => !header_fits(bytes@, pos as int) || frame_end(bytes@, pos as int)
                > bytes@.len(),
        },
{
    let len = bytes.len();
    if len - pos < HEADER_LEN {
        return None;
    }
    let key_len = read_u32_le(bytes, pos + 4);
    let value_len = read_u32_le(bytes, pos + 8);
    let start = pos + HEADER_LEN;
    if key_len as u64 + value_len as u64 > (len - start) as u64 {
        return None;
    }
    Some((start, start + key_len as usize + value_len as usize))
}

/// Reads the frame that starts at `pos`.
pub fn decode(bytes: &[u8], pos: usize) -> (r: Result<Option<(KeyValuePair, usize)>, KvError>)
    requires
        pos <= bytes@.len(),
    ensures
        decoded_view(r) == parse_frame(bytes@, pos as int),
{
    let actual = match payload_bounds(bytes, pos) {
        Some((start, end)) => checksum(slice_subrange(bytes, start, end)),
        None => 0,
    };
    decode_checked(bytes, pos, actual)
}

/// The header and the payload of a frame, where the frame stands in `s`.
proof fn lemma_frame_fields(key: Seq<u8>, value: Seq<u8>, s: Seq<u8>, p: int)
    requires
        key.len() <= u32::MAX,
        value.len() <= u32::MAX,
        0 <= p,
        p + frame_bytes(key, value).len() <= s.len(),
        s.subrange(p, p + frame_bytes(key, value).len()) == frame_bytes(key, value),
    ensures
        stored_checksum(s, p) == crc32_of(key + value),
        key_len_at(s, p) == key.len(),
        value_len_at(s, p) == value.len(),
        frame_end(s, p) == p + frame_bytes(key, value).len(),
        key_at(s, p) == key,
        value_at(s, p) == value,
        payload_at(s, p) == key + value,
{
    let h = le_bytes(crc32_of(key + value)) + le_bytes(key.len() as u32) + le_bytes(
        value.len() as u32,
    );
    let f = frame_bytes(key, value);
    assert(f =~= h + (key + value));
    assert(h.len() == 12);
    assert(s.subrange(p, p + 4) =~= f.subrange(0, 4));
    assert(s.subrange(p + 4, p + 8) =~= f.subrange(4, 8));
    assert(s.subrange(p + 8, p + 12) =~= f.subrange(8, 12));
    assert(f.subrange(0, 4) =~= le_bytes(crc32_of(key + value)));
    assert(f.subrange(4, 8) =~= le_bytes(key.len() as u32));
    assert(f.subrange(8, 12) =~= le_bytes(value.len() as u32));
    lemma_le_round_trip(crc32_of(key + value), s, p);
    lemma_le_round_trip(key.len() as u32, s, p + 4);
    lemma_le_round_trip(value.len() as u32, s, p + 8);
    assert(payload_at(s, p) =~= f.subrange(12, f.len() as int));
    assert(f.subrange(12, f.len() as int) =~= key + value);
    assert(key_at(s, p) =~= key);
    let kl = key.len() as int;
    assert(value_at(s, p) =~= payload_at(s, p).subrange(kl, kl + value.len()));
    assert((key + value).subrange(kl, kl + value.len()) =~= value);
}

/// Decoding undoes encoding: read where it was written, among any other
/// bytes, a frame gives back its key and value and ends where it was written
/// to end.
pub proof fn lemma_decode_encode(key: Seq<u8>, value: Seq<u8>, pre: Seq<u8>, post: Seq<u8>)
    requires
        key.len() <= u32::MAX,
        value.len() <= u32::MAX,
    ensures
        parse_frame(pre + frame_bytes(key, value) + post, pre.len() as int) == Ok::<
            Option<(Seq<u8>, Seq<u8>, int)>,
            KvError,
        >(Some((key, value, (pre.len() + frame_bytes(key, value).len()) as int))),
{
    let f = frame_bytes(key, value);
    let s = pre + f + post;
    let p = pre.len() as int;
    assert(s.subrange(p, p + f.len()) =~= f);
    lemma_frame_fields(key, value, s, p);
}

/// A frame whose payload was altered after it was written is reported as
/// corrupt, naming the stored and the recomputed checksums, whenever the
/// altered payload's checksum differs from the stored one.
pub proof fn lemma_altered_payload_is_corrupt(key: Seq<u8>, value: Seq<u8>, i: int, b: u8)
    requires
        key.len() <= u32::MAX,
        value.len() <= u32::MAX,
        0 <= i < key.len() + value.len(),
        crc32_of((key + value).update(i, b)) != crc32_of(key + value),
    ensures
        parse_frame(frame_bytes(key, value).update(HEADER_LEN + i, b), 0) == Err::<
            Option<(Seq<u8>, Seq<u8>, int)>,
            KvError,
        >(
            KvError::Corrupt {
                offset: 0,
                expected: crc32_of(key + value),
                actual: crc32_of((key + value).update(i, b)),
            },
        ),
{
    let f = frame_bytes(key, value);
    let s = f.update(HEADER_LEN + i, b);
    lemma_decode_encode(key, value, Seq::empty(), Seq::empty());
    assert(Seq::<u8>::empty() + f + Seq::<u8>::empty() =~= f);
    assert(s.subrange(0, HEADER_LEN as int) =~= f.subrange(0, HEADER_LEN as int));
    assert(le_value(s, 0) == le_value(f, 0));
    assert(le_value(s, 4) == le_value(f, 4));
    assert(le_value(s, 8) == le_value(f, 8));
    assert(payload_at(f, 0) =~= key + value);
    assert(payload_at(s, 0) =~= (key + value).update(i, b));
}

} // verus!
