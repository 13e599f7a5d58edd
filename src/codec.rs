//! The record layout of a segment: a 16-byte little-endian header
//! (timestamp `u64`, key length `u32`, value length `u32`), then the key
//! bytes, then the value bytes.
use byteorder::{ByteOrder, LittleEndian};
use vstd::bytes::*;
use vstd::prelude::*;
use vstd::slice::slice_subrange;

verus! {

/// Length of a record header in bytes.
pub const HEADER_LEN: usize = 16;

/// Errors of the store's own logic.
#[derive(Debug, Clone, Copy, PartialEq, Eq, Structural)]
pub enum KvsError {
    /// `get` or `remove` on a key that holds no value.
    KeyNotFound,
    /// A record header that is truncated or whose lengths run past the data.
    CorruptRecord,
}

/// The decoded header of one record.
#[derive(Debug, Clone, Copy, PartialEq, Eq, Structural)]
pub struct Header {
    pub timestamp: u64,
    pub key_len: u32,
    pub value_len: u32,
}

/// The bytes of one record.
pub open spec fn record_bytes(timestamp: u64, key: Seq<u8>, value: Seq<u8>) -> Seq<u8> {
    spec_u64_to_le_bytes(timestamp) + spec_u32_to_le_bytes(key.len() as u32)
        + spec_u32_to_le_bytes(value.len() as u32) + key + value
}

/// The timestamp of the record that starts at `o` in `d`.
pub open spec fn ts_at(d: Seq<u8>, o: int) -> u64 {
    spec_u64_from_le_bytes(d.subrange(o, o + 8))
}

pub open spec fn klen_at(d: Seq<u8>, o: int) -> int {
    spec_u32_from_le_bytes(d.subrange(o + 8, o + 12)) as int
}

pub open spec fn vlen_at(d: Seq<u8>, o: int) -> int {
    spec_u32_from_le_bytes(d.subrange(o + 12, o + 16)) as int
}

/// Length of the whole record that starts at `o` in `d`.
pub open spec fn len_at(d: Seq<u8>, o: int) -> int {
    16 + klen_at(d, o) + vlen_at(d, o)
}

/// A whole record starts at `o` in `d`.
pub open spec fn fits_at(d: Seq<u8>, o: int) -> bool {
    0 <= o && o + 16 <= d.len() && o + len_at(d, o) <= d.len()
}

pub open spec fn key_at(d: Seq<u8>, o: int) -> Seq<u8> {
    d.subrange(o + 16, o + 16 + klen_at(d, o))
}

pub open spec fn value_at(d: Seq<u8>, o: int) -> Seq<u8> {
    d.subrange(o + 16 + klen_at(d, o), o + len_at(d, o))
}

/// `d` with the eight timestamp bytes at `o` set to zero.
pub open spec fn zero_ts(d: Seq<u8>, o: int) -> Seq<u8> {
    d.subrange(0, o) + spec_u64_to_le_bytes(0) + d.subrange(o + 8, d.len() as int)
}

/// Relies on `LittleEndian::read_u64` of byteorder: the first eight bytes
/// read as a little-endian integer (it panics on fewer).
#[verifier::external_body]
fn read_u64_le(b: &[u8]) -> (r: u64)
    requires
        b@.len() >= 8,
    ensures
        r == spec_u64_from_le_bytes(b@.subrange(0, 8)),
{
    LittleEndian::read_u64(b)
}

/// Relies on `LittleEndian::read_u32` of byteorder: the first four bytes
/// read as a little-endian integer (it panics on fewer).
#[verifier::external_body]
fn read_u32_le(b: &[u8]) -> (r: u32)
    requires
        b@.len() >= 4,
    ensures
        r == spec_u32_from_le_bytes(b@.subrange(0, 4)),
{
    LittleEndian::read_u32(b)
}

/// Serialises one record.
pub fn encode_record(timestamp: u64, key: &Vec<u8>, value: &Vec<u8>) -> (r: Vec<u8>)
    requires
        key@.len() + value@.len() + 16 <= u32::MAX,
    ensures
        r@ == record_bytes(timestamp, key@, value@),
{
    let mut r = u64_to_le_bytes(timestamp);
    let mut k = u32_to_le_bytes(key.len() as u32);
    let mut v = u32_to_le_bytes(value.len() as u32);
    r.append(&mut k);
    r.append(&mut v);
    let mut i: usize = 0;
    while i < key.len()
        invariant
            i <= key@.len(),
            r@ == spec_u64_to_le_bytes(timestamp) + spec_u32_to_le_bytes(key.len() as u32)
                + spec_u32_to_le_bytes(value.len() as u32) + key@.subrange(0, i as int),
        decreases key@.len() - i,
    {
        r.push(key[i]);
        proof {
            assert(key@.subrange(0, i + 1) == key@.subrange(0, i as int).push(key@[i as int]));
        }
        i = i + 1;
    }
    assert(key@.subrange(0, key@.len() as int) == key@);
    let ghost pre = r@;
    let mut j: usize = 0;
    while j < value.len()
        invariant
            j <= value@.len(),
            r@ == pre + value@.subrange(0, j as int),
        decreases value@.len() - j,
    {
        r.push(value[j]);
        proof {
            assert(value@.subrange(0, j + 1) == value@.subrange(0, j as int).push(value@[j as int]));
        }
        j = j + 1;
    }
    assert(value@.subrange(0, value@.len() as int) == value@);
    r
}

/// Reads the header of the record that starts at `o` in `d`. Fails with
/// `CorruptRecord` when fewer than 16 bytes remain or the lengths run past
/// the end of `d`.
pub fn decode_header(d: &Vec<u8>, o: usize) -> (r: Result<Header, KvsError>)
    ensures
        r is Ok <==> fits_at(d@, o as int),
        r is Err ==> r == Err::<Header, KvsError>(KvsError::CorruptRecord),
        r matches Ok(h) ==> h.timestamp == ts_at(d@, o as int) && h.key_len == klen_at(d@, o as int)
            && h.value_len == vlen_at(d@, o as int),
{
    if o > d.len() || d.len() - o < HEADER_LEN {
        return Err(KvsError::CorruptRecord);
    }
    let s = d.as_slice();
    let ts = read_u64_le(slice_subrange(s, o, o + 8));
    let kl = read_u32_le(slice_subrange(s, o + 8, o + 12));
    let vl = read_u32_le(slice_subrange(s, o + 12, o + 16));
    proof {
        assert(d@.subrange(o as int, o + 8).subrange(0, 8) == d@.subrange(o as int, o + 8));
        assert(d@.subrange(o + 8, o + 12).subrange(0, 4) == d@.subrange(o + 8, o + 12));
        assert(d@.subrange(o + 12, o + 16).subrange(0, 4) == d@.subrange(o + 12, o + 16));
    }
    let body = kl as u64 + vl as u64;
    let room: u64 = (d.len() - o - HEADER_LEN) as u64;
    if room < body {
        return Err(KvsError::CorruptRecord);
    }
    Ok(Header { timestamp: ts, key_len: kl, value_len: vl })
}

} // verus!

verus! {

/// A record read through a window of `d2` that holds the same bytes as the
/// record at `o` in `d` has the same header, key and value.
pub proof fn lemma_window(d: Seq<u8>, o: int, d2: Seq<u8>, o2: int)
    requires
        fits_at(d, o),
        0 <= o2,
        o2 + len_at(d, o) <= d2.len(),
        d2.subrange(o2, o2 + len_at(d, o)) == d.subrange(o, o + len_at(d, o)),
    ensures
        fits_at(d2, o2),
        len_at(d2, o2) == len_at(d, o),
        ts_at(d2, o2) == ts_at(d, o),
        key_at(d2, o2) == key_at(d, o),
        value_at(d2, o2) == value_at(d, o),
{
    let l = len_at(d, o);
    let w = d.subrange(o, o + l);
    assert(d2.subrange(o2, o2 + 8) =~= w.subrange(0, 8));
    assert(d.subrange(o, o + 8) =~= w.subrange(0, 8));
    assert(d2.subrange(o2 + 8, o2 + 12) =~= w.subrange(8, 12));
    assert(d.subrange(o + 8, o + 12) =~= w.subrange(8, 12));
    assert(d2.subrange(o2 + 12, o2 + 16) =~= w.subrange(12, 16));
    assert(d.subrange(o + 12, o + 16) =~= w.subrange(12, 16));
    let k = klen_at(d, o);
    assert(d2.subrange(o2 + 16, o2 + 16 + k) =~= w.subrange(16, 16 + k));
    assert(d.subrange(o + 16, o + 16 + k) =~= w.subrange(16, 16 + k));
    assert(d2.subrange(o2 + 16 + k, o2 + l) =~= w.subrange(16 + k, l));
    assert(d.subrange(o + 16 + k, o + l) =~= w.subrange(16 + k, l));
}

/// A record appended at the end of `d` reads back as what was written.
pub proof fn lemma_record_at_end(d: Seq<u8>, ts: u64, key: Seq<u8>, value: Seq<u8>)
    requires
        key.len() + value.len() + 16 <= u32::MAX,
    ensures
        ({
            let d2 = d + record_bytes(ts, key, value);
            let o = d.len() as int;
            &&& d2.len() == d.len() + 16 + key.len() + value.len()
            &&& fits_at(d2, o)
            &&& len_at(d2, o) == 16 + key.len() + value.len()
            &&& ts_at(d2, o) == ts
            &&& key_at(d2, o) == key
            &&& value_at(d2, o) == value
        }),
{
    lemma_auto_spec_u64_to_from_le_bytes();
    lemma_auto_spec_u32_to_from_le_bytes();
    let t = spec_u64_to_le_bytes(ts);
    let kl = spec_u32_to_le_bytes(key.len() as u32);
    let vl = spec_u32_to_le_bytes(value.len() as u32);
    let d2 = d + record_bytes(ts, key, value);
    let o = d.len() as int;
    assert(t.len() == 8 && kl.len() == 4 && vl.len() == 4);
    assert(d2.subrange(o, o + 8) =~= t);
    assert(d2.subrange(o + 8, o + 12) =~= kl);
    assert(d2.subrange(o + 12, o + 16) =~= vl);
    assert(spec_u32_from_le_bytes(kl) == key.len() as u32);
    assert(spec_u32_from_le_bytes(vl) == value.len() as u32);
    assert(d2.subrange(o + 16, o + 16 + key.len()) =~= key);
    assert(d2.subrange(o + 16 + key.len(), o + 16 + key.len() + value.len()) =~= value);
}

/// Zeroing eight bytes at `p` leaves every byte outside them as it was.
pub proof fn lemma_zero_outside(d: Seq<u8>, p: int)
    requires
        0 <= p,
        p + 8 <= d.len(),
    ensures
        zero_ts(d, p).len() == d.len(),
        forall|x: int| 0 <= x < d.len() && (x < p || p + 8 <= x) ==> zero_ts(d, p)[x] == d[x],
{
    lemma_auto_spec_u64_to_from_le_bytes();
    assert(spec_u64_to_le_bytes(0).len() == 8);
}

/// Zeroing the timestamp of one record leaves a record elsewhere untouched.
pub proof fn lemma_zero_other(d: Seq<u8>, p: int, o: int)
    requires
        0 <= p,
        p + 8 <= d.len(),
        fits_at(d, o),
        p + 8 <= o || o + len_at(d, o) <= p,
    ensures
        zero_ts(d, p).len() == d.len(),
        fits_at(zero_ts(d, p), o),
        len_at(zero_ts(d, p), o) == len_at(d, o),
        ts_at(zero_ts(d, p), o) == ts_at(d, o),
        key_at(zero_ts(d, p), o) == key_at(d, o),
        value_at(zero_ts(d, p), o) == value_at(d, o),
{
    lemma_auto_spec_u64_to_from_le_bytes();
    let z = zero_ts(d, p);
    assert(spec_u64_to_le_bytes(0).len() == 8);
    assert(z.len() == d.len());
    let l = len_at(d, o);
    assert(z.subrange(o, o + l) =~= d.subrange(o, o + l));
    lemma_window(d, o, z, o);
}

/// Sets the eight timestamp bytes at `p` to zero.
pub fn zero_timestamp(d: &mut Vec<u8>, p: usize)
    requires
        p + 8 <= old(d)@.len(),
    ensures
        final(d)@ == zero_ts(old(d)@, p as int),
{
    let z = u64_to_le_bytes(0);
    let n = d.len();
    let mut i: usize = 0;
    while i < 8
        invariant
            n == d@.len(),
            z@ == spec_u64_to_le_bytes(0),
            z@.len() == 8,
            i <= 8,
            p + 8 <= old(d)@.len(),
            d@.len() == old(d)@.len(),
            forall|k: int| 0 <= k < d@.len() ==> d@[k] == (if p <= k < p + i { z@[k - p] } else { old(d)@[k] }),
        decreases 8 - i,
    {
        d.set(p + i, z[i]);
        i = i + 1;
    }
    assert(d@ =~= zero_ts(old(d)@, p as int));
}

/// A copy of `d[from..to]`.
pub fn copy_range(d: &Vec<u8>, from: usize, to: usize) -> (r: Vec<u8>)
    requires
        from <= to <= d@.len(),
    ensures
        r@ == d@.subrange(from as int, to as int),
{
    let mut r: Vec<u8> = Vec::new();
    let mut i: usize = from;
    while i < to
        invariant
            from <= i <= to <= d@.len(),
            r@ == d@.subrange(from as int, i as int),
        decreases to - i,
    {
        r.push(d[i]);
        proof {
            assert(d@.subrange(from as int, i + 1) =~= d@.subrange(from as int, i as int).push(d@[i as int]));
        }
        i = i + 1;
    }
    r
}

/// Byte-wise equality of two byte strings.
pub fn bytes_eq(a: &Vec<u8>, b: &Vec<u8>) -> (r: bool)
    ensures
        r == (a@ == b@),
{
    if a.len() != b.len() {
        return false;
    }
    let mut i: usize = 0;
    while i < a.len()
        invariant
            i <= a@.len(),
            a@.len() == b@.len(),
            forall|k: int| 0 <= k < i ==> a@[k] == b@[k],
        decreases a@.len() - i,
    {
        if a[i] != b[i] {
            return false;
        }
        i = i + 1;
    }
    assert(a@ =~= b@);
    true
}

} // verus!
