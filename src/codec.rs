//! Encoding of records and of the little-endian length prefixes that frame
//! them in the log.
use vstd::prelude::*;
use vstd::utf8::{
    decode_utf8, encode_utf8, encode_utf8_decode_utf8, encode_utf8_valid_utf8, valid_utf8,
};

use crate::error::DbError;
use crate::record::Record;

verus! {

#[verifier::external_type_specification]
#[verifier::external_body]
pub struct ExBincodeErrorKind(bincode::ErrorKind);

/// `256` raised to `k`: the number of values that `k` bytes can hold.
pub open spec fn byte_range(k: nat) -> nat
    decreases k,
{
    if k == 0 {
        1
    } else {
        256 * byte_range((k - 1) as nat)
    }
}

/// The `w` least significant bytes of `n`, least significant first.
pub open spec fn le_bytes(n: nat, w: nat) -> Seq<u8>
    decreases w,
{
    if w == 0 {
        Seq::empty()
    } else {
        seq![(n % 256) as u8] + le_bytes(n / 256, (w - 1) as nat)
    }
}

/// The number that `b` writes in little-endian order.
pub open spec fn le_value(b: Seq<u8>) -> nat
    decreases b.len(),
{
    if b.len() == 0 {
        0
    } else {
        b[0] as nat + 256 * le_value(b.drop_first())
    }
}

/// The 8-byte little-endian form of `n`.
pub open spec fn u64_le(n: nat) -> Seq<u8> {
    le_bytes(n, 8)
}

/// A text field: its UTF-8 byte length as 8 bytes, then the bytes.
pub open spec fn text_field(s: Seq<char>) -> Seq<u8> {
    u64_le(encode_utf8(s).len()) + encode_utf8(s)
}

/// The payload of a record: the key's field, then the value's.
pub open spec fn record_payload(key: Seq<char>, val: Seq<char>) -> Seq<u8> {
    text_field(key) + text_field(val)
}

/// A log entry: the payload's length as 8 bytes, then the payload.
pub open spec fn entry_bytes(key: Seq<char>, val: Seq<char>) -> Seq<u8> {
    u64_le(record_payload(key, val).len()) + record_payload(key, val)
}

/// Reads a text field at the start of `b`: the text and the number of bytes
/// it took, or `None` when `b` is too short or the bytes are not UTF-8.
pub open spec fn take_text(b: Seq<u8>) -> Option<(Seq<char>, nat)> {
    if b.len() < 8 {
        None
    } else {
        let n = le_value(b.subrange(0, 8));
        if 8 + n > b.len() {
            None
        } else if !valid_utf8(b.subrange(8, 8 + n as int)) {
            None
        } else {
            Some((decode_utf8(b.subrange(8, 8 + n as int)), (8 + n) as nat))
        }
    }
}

/// Reads a record payload: key, then value. Bytes after the value are
/// ignored.
pub open spec fn decode_payload(b: Seq<u8>) -> Option<(Seq<char>, Seq<char>)> {
    match take_text(b) {
        None => None,
        Some((key, used)) => match take_text(b.subrange(used as int, b.len() as int)) {
            None => None,
            Some((val, _)) => Some((key, val)),
        },
    }
}

proof fn lemma_byte_range_pos(k: nat)
    ensures
        byte_range(k) >= 1,
    decreases k,
{
    if k > 0 {
        lemma_byte_range_pos((k - 1) as nat);
    }
}

pub proof fn lemma_byte_range_8()
    ensures
        byte_range(8) == 0x1_0000_0000_0000_0000,
{
    reveal_with_fuel(byte_range, 9);
}

/// `le_bytes` has the width asked for.
pub proof fn lemma_le_bytes_len(n: nat, w: nat)
    ensures
        le_bytes(n, w).len() == w,
    decreases w,
{
    if w > 0 {
        lemma_le_bytes_len(n / 256, (w - 1) as nat);
    }
}

/// Reading back the bytes of a number that fits gives the number.
pub proof fn lemma_le_round_trip(n: nat, w: nat)
    requires
        n < byte_range(w),
    ensures
        le_value(le_bytes(n, w)) == n,
    decreases w,
{
    if w > 0 {
        let rest = le_bytes(n / 256, (w - 1) as nat);
        let b = le_bytes(n, w);
        assert(b.drop_first() =~= rest);
        assert(n / 256 < byte_range((w - 1) as nat)) by (nonlinear_arith)
            requires
                n < 256 * byte_range((w - 1) as nat),
        ;
        lemma_le_round_trip(n / 256, (w - 1) as nat);
        assert(n == n % 256 + 256 * (n / 256)) by (nonlinear_arith);
    }
}

/// A number read from `w` bytes is below `256` raised to `w`.
pub proof fn lemma_le_value_bound(b: Seq<u8>)
    ensures
        le_value(b) < byte_range(b.len()),
    decreases b.len(),
{
    if b.len() > 0 {
        lemma_le_value_bound(b.drop_first());
        let r = le_value(b.drop_first());
        let k = byte_range(b.drop_first().len());
        assert(b[0] as nat + 256 * r < 256 * k) by (nonlinear_arith)
            requires
                r < k,
                b[0] < 256,
        ;
    }
}

/// Writing back the number that some bytes hold gives those bytes.
pub proof fn lemma_le_bytes_of_value(b: Seq<u8>)
    ensures
        le_bytes(le_value(b), b.len()) == b,
    decreases b.len(),
{
    if b.len() > 0 {
        let r = le_value(b.drop_first());
        let n = le_value(b);
        assert(n % 256 == b[0] as nat && n / 256 == r) by (nonlinear_arith)
            requires
                n == b[0] as nat + 256 * r,
                b[0] < 256,
        ;
        lemma_le_bytes_of_value(b.drop_first());
        assert(le_bytes(n, b.len()) =~= b);
    }
}

/// Appends `src[from..to]` to `out`.
pub fn push_range(out: &mut Vec<u8>, src: &[u8], from: usize, to: usize)
    requires
        from <= to <= src@.len(),
    ensures
        final(out)@ == old(out)@ + src@.subrange(from as int, to as int),
{
    let mut i: usize = from;
    while i < to
        invariant
            from <= i <= to <= src@.len(),
            out@ == old(out)@ + src@.subrange(from as int, i as int),
        decreases to - i,
    {
        out.push(src[i]);
        i = i + 1;
        proof {
            assert(src@.subrange(from as int, i as int) =~= src@.subrange(from as int, i - 1).push(
                src@[i - 1],
            ));
        }
    }
}

/// The 8-byte form of `n`, least significant byte first.
pub fn u64_to_le(n: u64) -> (r: Vec<u8>)
    ensures
        r@ == u64_le(n as nat),
{
    let mut out: Vec<u8> = Vec::new();
    let mut x: u64 = n;
    let mut i: usize = 0;
    proof {
        lemma_le_bytes_len(n as nat, 8);
    }
    while i < 8
        invariant
            0 <= i <= 8,
            out@ + le_bytes(x as nat, (8 - i) as nat) == le_bytes(n as nat, 8),
        decreases 8 - i,
    {
        let b: u8 = (x % 256) as u8;
        proof {
            let w = (8 - i) as nat;
            assert(le_bytes(x as nat, w) == seq![b] + le_bytes((x / 256) as nat, (w - 1) as nat));
            assert(out@.push(b) + le_bytes((x / 256) as nat, (w - 1) as nat) =~= out@ + (seq![b]
                + le_bytes((x / 256) as nat, (w - 1) as nat)));
        }
        out.push(b);
        x = x / 256;
        i = i + 1;
    }
    assert(out@ =~= le_bytes(n as nat, 8));
    out
}

/// Reads the 8 bytes at `start` as a little-endian number.
pub fn u64_from_le(b: &[u8], start: usize) -> (r: u64)
    requires
        start + 8 <= b@.len(),
    ensures
        r as nat == le_value(b@.subrange(start as int, start + 8)),
{
    let ghost s = b@.subrange(start as int, start + 8);
    let len: usize = b.len();
    let mut acc: u64 = 0;
    let mut i: usize = 8;
    proof {
        assert(s.subrange(8, 8) =~= Seq::<u8>::empty());
    }
    while i > 0
        invariant
            0 <= i <= 8,
            start + 8 <= b@.len(),
            len == b@.len(),
            s == b@.subrange(start as int, start + 8),
            acc as nat == le_value(s.subrange(i as int, 8)),
        decreases i,
    {
        let ghost tail = s.subrange(i as int, 8);
        let ghost wider = s.subrange(i - 1, 8);
        proof {
            assert(wider.drop_first() =~= tail);
            lemma_le_value_bound(tail);
            lemma_byte_range_8();
            lemma_byte_range_le((8 - i) as nat, 7);
        }
        let d: u8 = b[start + i - 1];
        proof {
            assert(acc * 256 + d < 0x1_0000_0000_0000_0000) by (nonlinear_arith)
                requires
                    acc < byte_range((8 - i) as nat),
                    byte_range((8 - i) as nat) <= byte_range(7),
                    256 * byte_range(7) == 0x1_0000_0000_0000_0000,
                    d < 256,
            ;
        }
        acc = acc * 256 + d as u64;
        i = i - 1;
    }
    assert(s.subrange(0, 8) =~= s);
    acc
}

proof fn lemma_byte_range_le(a: nat, b: nat)
    requires
        a <= b,
    ensures
        byte_range(a) <= byte_range(b),
    decreases b,
{
    if a < b {
        lemma_byte_range_le(a, (b - 1) as nat);
        lemma_byte_range_pos((b - 1) as nat);
    }
}

/// Reading a text field back from its encoding gives the text and the
/// field's length.
pub proof fn lemma_take_text_field(s: Seq<char>, rest: Seq<u8>)
    requires
        encode_utf8(s).len() < byte_range(8),
    ensures
        take_text(text_field(s) + rest) == Some((s, text_field(s).len())),
{
    broadcast use encode_utf8_valid_utf8, encode_utf8_decode_utf8;

    let bytes = encode_utf8(s);
    let b = text_field(s) + rest;
    lemma_le_bytes_len(bytes.len(), 8);
    lemma_le_round_trip(bytes.len(), 8);
    assert(b.subrange(0, 8) =~= u64_le(bytes.len()));
    assert(b.subrange(8, 8 + bytes.len() as int) =~= bytes);
}

/// Decoding an encoded record gives back its key and value, whatever
/// follows it.
pub proof fn lemma_decode_record_payload(key: Seq<char>, val: Seq<char>, rest: Seq<u8>)
    requires
        record_payload(key, val).len() < byte_range(8),
    ensures
        decode_payload(record_payload(key, val) + rest) == Some((key, val)),
{
    let b = record_payload(key, val) + rest;
    lemma_le_bytes_len(encode_utf8(key).len(), 8);
    lemma_le_bytes_len(encode_utf8(val).len(), 8);
    assert(b =~= text_field(key) + (text_field(val) + rest));
    lemma_take_text_field(key, text_field(val) + rest);
    assert(b.subrange(text_field(key).len() as int, b.len() as int) =~= text_field(val) + rest);
    lemma_take_text_field(val, rest);
}

/// Relies on bincode::serialize writing a pair of strings as, for each in
/// turn, its UTF-8 byte length as a little-endian u64 followed by the bytes.
/// With the default options it has no size limit and writes into a `Vec`,
/// so on strings it does not fail.
#[verifier::external_body]
fn bincode_serialize_pair(key: &str, val: &str) -> (r: Result<Vec<u8>, Box<bincode::ErrorKind>>)
    ensures
        r is Ok,
        r matches Ok(b) ==> b@ == record_payload(key@, val@),
{
    bincode::serialize(&(key, val))
}

/// Relies on bincode::deserialize reading a pair of strings in the same form:
/// it fails when a declared length runs past the end or the bytes are not
/// UTF-8, and ignores trailing bytes.
#[verifier::external_body]
fn bincode_deserialize_pair(b: &[u8]) -> (r: Result<(String, String), Box<bincode::ErrorKind>>)
    ensures
        match r {
            Ok((key, val)) => decode_payload(b@) == Some((key@, val@)),
            Err(_) => decode_payload(b@) is None,
        },
{
    bincode::deserialize::<(String, String)>(b)
}

/// Encodes a key and a value as a record payload.
pub fn encode_record(key: &str, val: &str) -> (r: Result<Vec<u8>, DbError>)
    ensures
        r matches Ok(b) && b@ == record_payload(key@, val@),
{
    match bincode_serialize_pair(key, val) {
        Ok(b) => Ok(b),
        Err(_) => Err(DbError::EncodingFailed),
    }
}

/// Encodes a key and a value as a complete log entry: the payload's length
/// as 8 little-endian bytes, then the payload.
pub fn encode_entry(key: &str, val: &str) -> (r: Result<Vec<u8>, DbError>)
    ensures
        r matches Ok(b) && b@ == entry_bytes(key@, val@),
{
    let payload = encode_record(key, val)?;
    let mut out = u64_to_le(payload.len() as u64);
    push_range(&mut out, payload.as_slice(), 0, payload.len());
    assert(payload@.subrange(0, payload@.len() as int) =~= payload@);
    Ok(out)
}

/// Decodes a record payload.
pub fn decode_record(b: &[u8]) -> (r: Result<Record, DbError>)
    ensures
        match r {
            Ok(rec) => decode_payload(b@) == Some((rec.key@, rec.val@)),
            Err(e) => decode_payload(b@) is None && e == DbError::CorruptRecord,
        },
{
    match bincode_deserialize_pair(b) {
        Ok((key, val)) => Ok(Record { key, val }),
        Err(_) => Err(DbError::CorruptRecord),
    }
}

} // verus!
