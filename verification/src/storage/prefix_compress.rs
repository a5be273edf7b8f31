//! Prefix compression of sorted keys: a key is stored as the length of the
//! prefix it shares with the previous key, the length of the rest, and the rest.

use vstd::prelude::*;

verus! {

/// Length of the longest common prefix of `a` and `b`, capped at 255.
pub open spec fn shared_prefix(a: Seq<u8>, b: Seq<u8>) -> nat
    decreases a.len(),
{
    if a.len() == 0 || b.len() == 0 || a[0] != b[0] {
        0
    } else {
        let r = 1 + shared_prefix(a.drop_first(), b.drop_first());
        if r > 255 { 255 } else { r }
    }
}

pub open spec fn u16_le(n: nat) -> Seq<u8> {
    seq![(n % 256) as u8, (n / 256) as u8]
}

/// Encoding of `cur` after `prev`: one byte of shared-prefix length, two bytes
/// (little-endian) of suffix length, then the suffix. A suffix longer than
/// 65535 bytes is replaced by the first 65535 bytes of `cur` with no shared prefix.
pub open spec fn encode_spec(prev: Seq<u8>, cur: Seq<u8>) -> Seq<u8> {
    let s = shared_prefix(prev, cur);
    let suffix = cur.skip(s as int);
    if suffix.len() > 65535 {
        seq![0u8] + u16_le(65535) + cur.take(65535)
    } else {
        seq![s as u8] + u16_le(suffix.len()) + suffix
    }
}

/// Decoding against the previous key: the shared prefix of `prev` followed by
/// the stored suffix, each cut to what is present.
pub open spec fn decode_spec(prev: Seq<u8>, enc: Seq<u8>) -> Seq<u8> {
    if enc.len() < 3 {
        Seq::empty()
    } else {
        let s = enc[0] as int;
        let n = enc[1] as int + 256 * (enc[2] as int);
        let p = if s <= prev.len() { prev.take(s) } else { prev };
        let rest = enc.skip(3);
        p + (if n <= rest.len() { rest.take(n) } else { rest })
    }
}

proof fn lemma_shared_prefix(a: Seq<u8>, b: Seq<u8>)
    ensures shared_prefix(a, b) <= a.len(), shared_prefix(a, b) <= b.len(), shared_prefix(a, b) <= 255,
        a.take(shared_prefix(a, b) as int) == b.take(shared_prefix(a, b) as int),
    decreases a.len(),
{
    if !(a.len() == 0 || b.len() == 0 || a[0] != b[0]) {
        lemma_shared_prefix(a.drop_first(), b.drop_first());
        let s = shared_prefix(a, b) as int;
        let t = shared_prefix(a.drop_first(), b.drop_first()) as int;
        assert(s <= t + 1);
        assert forall|k: int| 0 <= k < s implies a.take(s)[k] == b.take(s)[k] by {
            if k > 0 {
                assert(a.drop_first().take(t)[k - 1] == b.drop_first().take(t)[k - 1]);
            }
        }
        assert(a.take(s) =~= b.take(s));
    } else {
        assert(a.take(0) =~= b.take(0));
    }
}

fn shared_prefix_len(a: &[u8], b: &[u8]) -> (r: usize)
    ensures r as nat == shared_prefix(a@, b@),
{
    let mut i: usize = 0;
    while i < a.len() && i < b.len() && i < 255 && a[i] == b[i]
        invariant i <= a.len(), i <= b.len(), i <= 255,
            forall|k: int| 0 <= k < i ==> a@[k] == b@[k],
        decreases 255 - i,
    {
        i += 1;
    }
    proof { lemma_shared_prefix_value(a@, b@, i as int); }
    i
}

proof fn lemma_shared_prefix_value(a: Seq<u8>, b: Seq<u8>, i: int)
    requires 0 <= i <= a.len(), i <= b.len(), i <= 255,
        forall|k: int| 0 <= k < i ==> a[k] == b[k],
        i == a.len() || i == b.len() || i == 255 || a[i] != b[i],
    ensures shared_prefix(a, b) == i,
    decreases i,
{
    if i > 0 {
        assert(a[0] == b[0]);
        let a1 = a.drop_first();
        let b1 = b.drop_first();
        if i == 255 {
            lemma_shared_prefix_at_least(a1, b1, 254);
        } else {
            lemma_shared_prefix_value(a1, b1, i - 1);
        }
    }
}

proof fn lemma_shared_prefix_at_least(a: Seq<u8>, b: Seq<u8>, i: int)
    requires 0 <= i <= a.len(), i <= b.len(), i <= 255, forall|k: int| 0 <= k < i ==> a[k] == b[k],
    ensures shared_prefix(a, b) >= i,
    decreases i,
{
    if i > 0 {
        lemma_shared_prefix_at_least(a.drop_first(), b.drop_first(), i - 1);
    }
}

fn push_slice(out: &mut Vec<u8>, src: &[u8], from: usize, to: usize)
    requires from <= to <= src@.len(),
    ensures final(out)@ == old(out)@ + src@.subrange(from as int, to as int),
{
    let ghost start = out@;
    let mut i = from;
    while i < to
        invariant from <= i <= to, to <= src@.len(), out@ == start + src@.subrange(from as int, i as int),
        decreases to - i,
    {
        out.push(src[i]);
        i += 1;
        assert(out@ =~= start + src@.subrange(from as int, i as int));
    }
}

/// Encodes `cur` relative to `prev` (see `encode_spec`).
pub fn prefix_encode(prev: &[u8], cur: &[u8]) -> (r: Vec<u8>)
    ensures r@ == encode_spec(prev@, cur@),
{
    let s = shared_prefix_len(prev, cur);
    proof { lemma_shared_prefix(prev@, cur@); }
    let suffix_len = cur.len() - s;
    let mut out: Vec<u8> = Vec::new();
    if suffix_len > 65535 {
        out.push(0u8);
        out.push(255u8);
        out.push(255u8);
        push_slice(&mut out, cur, 0, 65535);
        assert(out@ =~= encode_spec(prev@, cur@));
    } else {
        out.push(s as u8);
        out.push((suffix_len % 256) as u8);
        out.push((suffix_len / 256) as u8);
        push_slice(&mut out, cur, s, cur.len());
        assert(out@ =~= encode_spec(prev@, cur@));
    }
    out
}

/// Decodes an encoded key against the previous key (see `decode_spec`).
pub fn prefix_decode(prev: &[u8], enc: &[u8]) -> (r: Vec<u8>)
    ensures r@ == decode_spec(prev@, enc@),
{
    let mut out: Vec<u8> = Vec::new();
    if enc.len() < 3 {
        return out;
    }
    let s = enc[0] as usize;
    let n = (enc[1] as usize) + 256 * (enc[2] as usize);
    let p = if s <= prev.len() { s } else { prev.len() };
    push_slice(&mut out, prev, 0, p);
    let avail = enc.len() - 3;
    let m = if n <= avail { n } else { avail };
    push_slice(&mut out, enc, 3, 3 + m);
    proof {
        let rest = enc@.skip(3);
        assert(enc@.subrange(3, 3 + m) =~= (if n <= rest.len() { rest.take(n as int) } else { rest }));
        assert(prev@.subrange(0, p as int) =~= (if s <= prev@.len() { prev@.take(s as int) } else { prev@ }));
    }
    out
}

/// Decoding an encoding gives the key back whenever the suffix fits in 65535 bytes.
pub proof fn law_prefix_roundtrip(prev: Seq<u8>, cur: Seq<u8>)
    requires cur.len() - shared_prefix(prev, cur) <= 65535,
    ensures decode_spec(prev, encode_spec(prev, cur)) == cur,
{
    lemma_shared_prefix(prev, cur);
    let s = shared_prefix(prev, cur) as int;
    let suffix = cur.skip(s);
    let enc = encode_spec(prev, cur);
    let n = suffix.len();
    assert(enc[0] as int == s);
    assert(enc[1] as int + 256 * (enc[2] as int) == n);
    assert(enc.skip(3) =~= suffix);
    assert(prev.take(s) + suffix =~= cur) by {
        assert(prev.take(s) == cur.take(s));
    }
}

} // verus!
