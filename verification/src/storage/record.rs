//! The byte format of a stored row: the number of values (two bytes), then
//! each value as a tag byte and its contents. Integers take eight bytes,
//! texts and blobs a four-byte length and their bytes (texts in UTF-8).
//! Numbers are written least significant byte first.

use vstd::prelude::*;
use vstd::utf8::{encode_utf8, decode_utf8, valid_utf8, encode_utf8_decode_utf8, encode_utf8_valid_utf8};
use crate::types::{Value, ValueV, arc_text};
use crate::storage::table::vals;

verus! {

/// Two bytes of `x`, least significant first.
pub open spec fn u16_bytes(x: int) -> Seq<u8> {
    seq![(x % 256) as u8, ((x / 256) % 256) as u8]
}

/// Four bytes of `x`, least significant first.
pub open spec fn u32_bytes(x: int) -> Seq<u8> {
    seq![(x % 256) as u8, ((x / 0x100) % 256) as u8, ((x / 0x1_0000) % 256) as u8, ((x / 0x100_0000) % 256) as u8]
}

/// Eight bytes of an integer moved up by 2^63, least significant first.
pub open spec fn i64_bytes(x: int) -> Seq<u8> {
    let u = x + 0x8000_0000_0000_0000;
    u32_bytes(u % 0x1_0000_0000) + u32_bytes(u / 0x1_0000_0000)
}

/// The number in two bytes, least significant first.
pub open spec fn le2(b: Seq<u8>) -> int {
    b[0] + 256 * b[1]
}

/// The number in four bytes, least significant first.
pub open spec fn le4(b: Seq<u8>) -> int {
    b[0] + 0x100 * b[1] + 0x1_0000 * b[2] + 0x100_0000 * b[3]
}

/// The number in eight bytes, least significant first.
pub open spec fn le8(b: Seq<u8>) -> int {
    le4(b.subrange(0, 4)) + 0x1_0000_0000 * le4(b.subrange(4, 8))
}

/// The bytes of one value.
pub open spec fn value_bytes(v: ValueV) -> Seq<u8> {
    match v {
        ValueV::Null => seq![0u8],
        ValueV::Int(i) => seq![1u8] + i64_bytes(i),
        ValueV::Text(s) => seq![2u8] + u32_bytes(encode_utf8(s).len() as int) + encode_utf8(s),
        ValueV::Blob(b) => seq![3u8] + u32_bytes(b.len() as int) + b,
    }
}

/// The bytes of a list of values, one after the other.
pub open spec fn values_bytes(vs: Seq<ValueV>) -> Seq<u8>
    decreases vs.len(),
{
    if vs.len() == 0 { Seq::empty() } else { value_bytes(vs[0]) + values_bytes(vs.drop_first()) }
}

/// The bytes of a row.
pub open spec fn record_bytes(vs: Seq<ValueV>) -> Seq<u8> {
    u16_bytes(vs.len() as int) + values_bytes(vs)
}

/// Whether a value fits the format: an integer of 64 bits, a text or blob
/// of fewer than 2^32 bytes.
pub open spec fn value_encodable(v: ValueV) -> bool {
    match v {
        ValueV::Null => true,
        ValueV::Int(i) => i64::MIN <= i <= i64::MAX,
        ValueV::Text(s) => encode_utf8(s).len() < 0x1_0000_0000,
        ValueV::Blob(b) => b.len() < 0x1_0000_0000,
    }
}

/// Whether a row fits the format: fewer than 65536 values, each of which fits.
pub open spec fn encodable(vs: Seq<ValueV>) -> bool {
    vs.len() < 0x1_0000 && forall|i: int| 0 <= i < vs.len() ==> value_encodable(#[trigger] vs[i])
}

/// Reads one value at the start of `b`: the value and the number of bytes
/// it took, or `None` when the bytes are not a value.
pub open spec fn parse_value(b: Seq<u8>) -> Option<(ValueV, int)> {
    if b.len() == 0 {
        None
    } else if b[0] == 0 {
        Some((ValueV::Null, 1))
    } else if b[0] == 1 {
        if b.len() >= 9 { Some((ValueV::Int(le8(b.subrange(1, 9)) - 0x8000_0000_0000_0000), 9)) } else { None }
    } else if b[0] == 2 || b[0] == 3 {
        if b.len() >= 5 && b.len() >= 5 + le4(b.subrange(1, 5)) {
            let n = le4(b.subrange(1, 5));
            let body = b.subrange(5, 5 + n);
            if b[0] == 3 {
                Some((ValueV::Blob(body), 5 + n))
            } else if valid_utf8(body) {
                Some((ValueV::Text(decode_utf8(body)), 5 + n))
            } else {
                None
            }
        } else {
            None
        }
    } else {
        None
    }
}

/// Reads exactly `n` values that take all of `b`.
pub open spec fn parse_values(b: Seq<u8>, n: nat) -> Option<Seq<ValueV>>
    decreases n,
{
    if n == 0 {
        if b.len() == 0 { Some(Seq::empty()) } else { None }
    } else {
        match parse_value(b) {
            Some((v, used)) => match parse_values(b.skip(used), (n - 1) as nat) {
                Some(rest) => Some(seq![v] + rest),
                None => None,
            },
            None => None,
        }
    }
}

/// Reads a row.
pub open spec fn parse_record(b: Seq<u8>) -> Option<Seq<ValueV>> {
    if b.len() < 2 { None } else { parse_values(b.skip(2), le2(b.take(2)) as nat) }
}

pub proof fn lemma_u16_roundtrip(x: int)
    requires 0 <= x < 0x1_0000,
    ensures le2(u16_bytes(x)) == x,
{
}

pub proof fn lemma_u32_roundtrip(x: int)
    requires 0 <= x < 0x1_0000_0000,
    ensures le4(u32_bytes(x)) == x,
{
}

pub proof fn lemma_i64_roundtrip(x: int)
    requires i64::MIN <= x <= i64::MAX,
    ensures le8(i64_bytes(x)) - 0x8000_0000_0000_0000 == x,
{
    let u = x + 0x8000_0000_0000_0000;
    let b = i64_bytes(x);
    assert(b.subrange(0, 4) =~= u32_bytes(u % 0x1_0000_0000));
    assert(b.subrange(4, 8) =~= u32_bytes(u / 0x1_0000_0000));
    lemma_u32_roundtrip(u % 0x1_0000_0000);
    lemma_u32_roundtrip(u / 0x1_0000_0000);
}

/// A value is read back from its bytes, whatever follows them.
pub proof fn lemma_parse_value(v: ValueV, rest: Seq<u8>)
    requires value_encodable(v),
    ensures parse_value(value_bytes(v) + rest) == Some((v, value_bytes(v).len() as int)),
{
    let b = value_bytes(v) + rest;
    match v {
        ValueV::Null => {},
        ValueV::Int(i) => {
            assert(b.subrange(1, 9) =~= i64_bytes(i));
            lemma_i64_roundtrip(i);
        },
        ValueV::Text(s) => {
            let e = encode_utf8(s);
            assert(b.subrange(1, 5) =~= u32_bytes(e.len() as int));
            lemma_u32_roundtrip(e.len() as int);
            assert(b.subrange(5, 5 + e.len() as int) =~= e);
            encode_utf8_valid_utf8(s);
            encode_utf8_decode_utf8(s);
        },
        ValueV::Blob(x) => {
            assert(b.subrange(1, 5) =~= u32_bytes(x.len() as int));
            lemma_u32_roundtrip(x.len() as int);
            assert(b.subrange(5, 5 + x.len() as int) =~= x);
        },
    }
}

proof fn lemma_parse_values(vs: Seq<ValueV>)
    requires forall|i: int| 0 <= i < vs.len() ==> value_encodable(#[trigger] vs[i]),
    ensures parse_values(values_bytes(vs), vs.len()) == Some(vs),
    decreases vs.len(),
{
    if vs.len() > 0 {
        let rest = vs.drop_first();
        assert(value_encodable(vs[0]));
        assert forall|i: int| 0 <= i < rest.len() implies value_encodable(#[trigger] rest[i]) by {
            assert(rest[i] == vs[i + 1]);
        }
        lemma_parse_value(vs[0], values_bytes(rest));
        lemma_parse_values(rest);
        let b = values_bytes(vs);
        assert(b.skip(value_bytes(vs[0]).len() as int) =~= values_bytes(rest));
        assert(seq![vs[0]] + rest =~= vs);
    }
}

/// What is written for a row is read back as that row.
pub proof fn law_record_roundtrip(vs: Seq<ValueV>)
    requires encodable(vs),
    ensures parse_record(record_bytes(vs)) == Some(vs),
{
    let b = record_bytes(vs);
    assert(b.take(2) =~= u16_bytes(vs.len() as int));
    lemma_u16_roundtrip(vs.len() as int);
    assert(b.skip(2) =~= values_bytes(vs));
    lemma_parse_values(vs);
}

/// The values of a list, written one after the other, extend by the bytes of the next one.
proof fn lemma_values_bytes_push(vs: Seq<ValueV>, v: ValueV)
    ensures values_bytes(vs.push(v)) == values_bytes(vs) + value_bytes(v),
    decreases vs.len(),
{
    if vs.len() == 0 {
        let one = vs.push(v);
        assert(one.drop_first() =~= Seq::<ValueV>::empty());
        assert(values_bytes(one.drop_first()) == Seq::<u8>::empty());
        assert(values_bytes(one) == value_bytes(one[0]) + values_bytes(one.drop_first()));
        assert(values_bytes(one) =~= value_bytes(v));
        assert(values_bytes(vs) == Seq::<u8>::empty());
        assert(values_bytes(vs) + value_bytes(v) =~= value_bytes(v));
    } else {
        lemma_values_bytes_push(vs.drop_first(), v);
        assert(vs.push(v).drop_first() =~= vs.drop_first().push(v));
        assert(values_bytes(vs.push(v)) =~= value_bytes(vs[0]) + (values_bytes(vs.drop_first()) + value_bytes(v)));
    }
}

pub fn push_u32(out: &mut Vec<u8>, x: u32)
    ensures final(out)@ == old(out)@ + u32_bytes(x as int),
{
    out.push((x % 256) as u8);
    out.push(((x / 0x100) % 256) as u8);
    out.push(((x / 0x1_0000) % 256) as u8);
    out.push(((x / 0x100_0000) % 256) as u8);
    assert(final(out)@ =~= old(out)@ + u32_bytes(x as int));
}

pub fn push_slice(out: &mut Vec<u8>, b: &[u8])
    ensures final(out)@ == old(out)@ + b@,
{
    let mut i: usize = 0;
    while i < b.len()
        invariant i <= b@.len(), out@ == old(out)@ + b@.take(i as int),
        decreases b@.len() - i,
    {
        out.push(b[i]);
        i += 1;
        assert(out@ =~= old(out)@ + b@.take(i as int));
    }
    assert(b@.take(b@.len() as int) =~= b@);
}

/// Appends the bytes of a value; `false` (with the buffer in any state)
/// when the value does not fit the format.
fn push_value(out: &mut Vec<u8>, v: &Value) -> (r: bool)
    ensures
        r == value_encodable(v@),
        r ==> final(out)@ == old(out)@ + value_bytes(v@),
{
    match v {
        Value::Null => {
            out.push(0u8);
            assert(final(out)@ =~= old(out)@ + value_bytes(v@));
            true
        },
        Value::Integer(x) => {
            out.push(1u8);
            let x = *x;
            let u: u64 = if x >= 0 { (x as u64) + 0x8000_0000_0000_0000u64 } else { (x - i64::MIN) as u64 };
            assert(u as int == x as int + 0x8000_0000_0000_0000);
            push_u32(out, (u % 0x1_0000_0000u64) as u32);
            push_u32(out, (u / 0x1_0000_0000u64) as u32);
            assert(final(out)@ =~= old(out)@ + value_bytes(v@));
            true
        },
        Value::Text(t) => {
            let bytes: &[u8] = (**t).as_bytes();
            assert(bytes@ == encode_utf8(arc_text(t)));
            if (bytes.len() as u64) >= 0x1_0000_0000u64 {
                return false;
            }
            out.push(2u8);
            push_u32(out, bytes.len() as u32);
            push_slice(out, bytes);
            assert(final(out)@ =~= old(out)@ + value_bytes(v@));
            true
        },
        Value::Blob(b) => {
            if (b.len() as u64) >= 0x1_0000_0000u64 {
                return false;
            }
            out.push(3u8);
            push_u32(out, b.len() as u32);
            push_slice(out, b.as_slice());
            assert(final(out)@ =~= old(out)@ + value_bytes(v@));
            true
        },
    }
}

/// The bytes of a row; `None` when the row does not fit the format.
pub fn encode_record(row: &Vec<Value>) -> (r: Option<Vec<u8>>)
    ensures
        r matches Some(b) ==> b@ == record_bytes(vals(row@)),
        r is Some <==> encodable(vals(row@)),
{
    let ghost vs = vals(row@);
    if row.len() >= 0x1_0000usize {
        return None;
    }
    let mut out: Vec<u8> = Vec::new();
    let n = row.len() as u32;
    out.push((n % 256) as u8);
    out.push(((n / 256) % 256) as u8);
    assert(out@ =~= u16_bytes(vs.len() as int));
    let mut i: usize = 0;
    while i < row.len()
        invariant i <= row@.len(), vs == vals(row@), vs.len() < 0x1_0000,
            out@ == u16_bytes(vs.len() as int) + values_bytes(vs.take(i as int)),
            forall|k: int| 0 <= k < i ==> value_encodable(#[trigger] vs[k]),
        decreases row.len() - i,
    {
        let ghost before = out@;
        if !push_value(&mut out, &row[i]) {
            assert(!value_encodable(vs[i as int]));
            return None;
        }
        proof {
            lemma_values_bytes_push(vs.take(i as int), vs[i as int]);
            assert(vs.take(i + 1) =~= vs.take(i as int).push(vs[i as int]));
        }
        i += 1;
    }
    assert(vs.take(vs.len() as int) =~= vs);
    Some(out)
}

/// The text of UTF-8 bytes, or `None` when they are not UTF-8.
#[verifier::external_body]
fn utf8_str(b: &[u8]) -> (r: Option<&str>)
    ensures
        r matches Some(s) ==> valid_utf8(b@) && s@ == decode_utf8(b@),
        r is None ==> !valid_utf8(b@),
{
    match std::str::from_utf8(b) {
        Ok(s) => Some(s),
        Err(_) => None,
    }
}

/// The number in four bytes from position `p`.
pub fn read_u32(b: &Vec<u8>, p: usize) -> (r: u32)
    requires p + 4 <= b@.len(),
    ensures r as int == le4(b@.subrange(p as int, p + 4)),
{
    let len = b.len();
    assert(p + 4 <= len);
    let x = (b[p] as u32) + (b[p + 1] as u32) * 0x100 + (b[p + 2] as u32) * 0x1_0000 + (b[p + 3] as u32) * 0x100_0000;
    x
}

/// Reads the value at position `p`: the value and the bytes it took.
fn parse_value_at(b: &Vec<u8>, p: usize) -> (r: Option<(Value, usize)>)
    requires p <= b@.len(),
    ensures
        match r {
            Some((v, used)) => parse_value(b@.skip(p as int)) == Some((v@, used as int)) && 1 <= used && p + used <= b@.len(),
            None => parse_value(b@.skip(p as int)) is None,
        },
{
    let blen = b.len();
    let ghost s = b@.skip(p as int);
    if p >= b.len() {
        return None;
    }
    let tag = b[p];
    assert(s[0] == tag);
    if tag == 0 {
        Some((Value::Null, 1))
    } else if tag == 1 {
        if b.len() - p < 9 {
            return None;
        }
        let lo = read_u32(b, p + 1);
        let hi = read_u32(b, p + 5);
        assert(s.subrange(1, 9).subrange(0, 4) =~= b@.subrange(p + 1, p + 5));
        assert(s.subrange(1, 9).subrange(4, 8) =~= b@.subrange(p + 5, p + 9));
        let u: u64 = (lo as u64) + (hi as u64) * 0x1_0000_0000u64;
        let x: i64 = if u >= 0x8000_0000_0000_0000u64 { (u - 0x8000_0000_0000_0000u64) as i64 } else { (u as i64) + i64::MIN };
        Some((Value::Integer(x), 9))
    } else if tag == 2 || tag == 3 {
        if b.len() - p < 5 {
            return None;
        }
        let n = read_u32(b, p + 1);
        assert(s.subrange(1, 5) =~= b@.subrange(p + 1, p + 5));
        if ((b.len() - p - 5) as u64) < (n as u64) {
            return None;
        }
        let n = n as usize;
        let mut body: Vec<u8> = Vec::new();
        let mut k: usize = 0;
        while k < n
            invariant k <= n, p + 5 + n <= b@.len(), body@ == b@.subrange(p + 5, p + 5 + k), blen == b@.len(),
            decreases n - k,
        {
            body.push(b[p + 5 + k]);
            k += 1;
            assert(body@ =~= b@.subrange(p + 5, p + 5 + k));
        }
        assert(body@ =~= s.subrange(5, 5 + n as int));
        if tag == 3 {
            Some((Value::Blob(body), 5 + n))
        } else {
            match utf8_str(body.as_slice()) {
                Some(text) => Some((Value::Text(crate::types::arc_from_str(text)), 5 + n)),
                None => None,
            }
        }
    } else {
        None
    }
}

/// Reads a row; `None` when the bytes are not a row.
pub fn decode_record(b: &Vec<u8>) -> (r: Option<Vec<Value>>)
    ensures
        match r {
            Some(vs) => parse_record(b@) == Some(vals(vs@)),
            None => parse_record(b@) is None,
        },
{
    if b.len() < 2 {
        return None;
    }
    let n = (b[0] as usize) + (b[1] as usize) * 256;
    assert(n as int == le2(b@.take(2)));
    let ghost whole = parse_values(b@.skip(2), n as nat);
    let blen = b.len();
    let mut out: Vec<Value> = Vec::new();
    let mut p: usize = 2;
    let mut j: usize = 0;
    while j < n
        invariant j <= n, 2 <= p <= b@.len(), out@.len() == j, blen == b@.len(), n as int == le2(b@.take(2)),
            whole == parse_values(b@.skip(2), n as nat),
            whole == (match parse_values(b@.skip(p as int), (n - j) as nat) {
                Some(rest) => Some(vals(out@) + rest),
                None => None,
            }),
        decreases n - j,
    {
        match parse_value_at(b, p) {
            Some((v, used)) => {
                proof {
                    let s = b@.skip(p as int);
                    assert(s.skip(used as int) =~= b@.skip(p + used));
                    assert(vals(out@.push(v)) =~= vals(out@).push(v@));
                    match parse_values(s.skip(used as int), (n - j - 1) as nat) {
                        Some(rest) => {
                            assert(vals(out@) + (seq![v@] + rest) =~= vals(out@).push(v@) + rest);
                        },
                        None => {},
                    }
                }
                out.push(v);
                p = p + used;
            },
            None => {
                assert(parse_values(b@.skip(p as int), (n - j) as nat) is None);
                return None;
            },
        }
        j += 1;
    }
    if p != b.len() {
        return None;
    }
    assert(b@.skip(p as int) =~= Seq::<u8>::empty());
    assert(vals(out@) + Seq::<ValueV>::empty() =~= vals(out@));
    Some(out)
}

/// Appends two bytes of `x`, least significant first.
pub fn push_u16(out: &mut Vec<u8>, x: u16)
    ensures final(out)@ == old(out)@ + u16_bytes(x as int),
{
    out.push((x % 256) as u8);
    out.push(((x / 256) % 256) as u8);
    assert(final(out)@ =~= old(out)@ + u16_bytes(x as int));
}

/// Appends the eight bytes of an integer (see `i64_bytes`).
pub fn push_i64(out: &mut Vec<u8>, x: i64)
    ensures final(out)@ == old(out)@ + i64_bytes(x as int),
{
    let u: u64 = if x >= 0 { (x as u64) + 0x8000_0000_0000_0000u64 } else { (x - i64::MIN) as u64 };
    assert(u as int == x as int + 0x8000_0000_0000_0000);
    push_u32(out, (u % 0x1_0000_0000u64) as u32);
    push_u32(out, (u / 0x1_0000_0000u64) as u32);
    assert(final(out)@ =~= old(out)@ + i64_bytes(x as int));
}

/// The number in two bytes from position `p`.
pub fn read_u16(b: &Vec<u8>, p: usize) -> (r: u16)
    requires p + 2 <= b@.len(),
    ensures r as int == le2(b@.subrange(p as int, p + 2)),
{
    let len = b.len();
    assert(p + 2 <= len);
    (b[p] as u16) + (b[p + 1] as u16) * 256
}

/// The integer in eight bytes from position `p` (see `i64_bytes`).
pub fn read_i64(b: &Vec<u8>, p: usize) -> (r: i64)
    requires p + 8 <= b@.len(),
    ensures r as int == le8(b@.subrange(p as int, p + 8)) - 0x8000_0000_0000_0000,
{
    let len = b.len();
    assert(p + 8 <= len);
    let lo = read_u32(b, p);
    let hi = read_u32(b, p + 4);
    assert(b@.subrange(p as int, p + 8).subrange(0, 4) =~= b@.subrange(p as int, p + 4));
    assert(b@.subrange(p as int, p + 8).subrange(4, 8) =~= b@.subrange(p + 4, p + 8));
    let u: u64 = (lo as u64) + (hi as u64) * 0x1_0000_0000u64;
    if u >= 0x8000_0000_0000_0000u64 { (u - 0x8000_0000_0000_0000u64) as i64 } else { (u as i64) + i64::MIN }
}

} // verus!
