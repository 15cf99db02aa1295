//! Little- and big-endian integer fields of the on-disk formats, with exact
//! byte-level specifications.

use vstd::prelude::*;

verus! {

/// The four little-endian bytes of `x`.
pub open spec fn le32_bytes(x: u32) -> Seq<u8> {
    seq![
        (x & 0xff) as u8,
        ((x >> 8) & 0xff) as u8,
        ((x >> 16) & 0xff) as u8,
        ((x >> 24) & 0xff) as u8,
    ]
}

/// The value of four little-endian bytes.
pub open spec fn le32_value(b: Seq<u8>) -> u32
    recommends
        b.len() == 4,
{
    (b[0] as u32) | ((b[1] as u32) << 8) | ((b[2] as u32) << 16) | ((b[3] as u32) << 24)
}

/// The four big-endian bytes of `x`.
pub open spec fn be32_bytes(x: u32) -> Seq<u8> {
    seq![
        ((x >> 24) & 0xff) as u8,
        ((x >> 16) & 0xff) as u8,
        ((x >> 8) & 0xff) as u8,
        (x & 0xff) as u8,
    ]
}

/// The value of four big-endian bytes.
pub open spec fn be32_value(b: Seq<u8>) -> u32
    recommends
        b.len() == 4,
{
    ((b[0] as u32) << 24) | ((b[1] as u32) << 16) | ((b[2] as u32) << 8) | (b[3] as u32)
}

pub proof fn lemma_le32_roundtrip(x: u32)
    ensures
        le32_value(le32_bytes(x)) == x,
{
    let b = le32_bytes(x);
    assert(((x & 0xff) as u8 as u32) | ((((x >> 8) & 0xff) as u8 as u32) << 8) | ((((x >> 16)
        & 0xff) as u8 as u32) << 16) | ((((x >> 24) & 0xff) as u8 as u32) << 24) == x)
        by (bit_vector);
}

pub proof fn lemma_be32_roundtrip(x: u32)
    ensures
        be32_value(be32_bytes(x)) == x,
{
    let b = be32_bytes(x);
    assert(((((x >> 24) & 0xff) as u8 as u32) << 24) | ((((x >> 16) & 0xff) as u8 as u32) << 16)
        | ((((x >> 8) & 0xff) as u8 as u32) << 8) | ((x & 0xff) as u8 as u32) == x)
        by (bit_vector);
}

/// Appends the four little-endian bytes of `x`.
pub fn push_le32(v: &mut Vec<u8>, x: u32)
    ensures
        final(v)@ == old(v)@ + le32_bytes(x),
{
    let ghost start = v@;
    v.push((x & 0xff) as u8);
    v.push(((x >> 8) & 0xff) as u8);
    v.push(((x >> 16) & 0xff) as u8);
    v.push(((x >> 24) & 0xff) as u8);
    proof {
        assert(v@ =~= start + le32_bytes(x));
    }
}

/// Appends the four big-endian bytes of `x`.
pub fn push_be32(v: &mut Vec<u8>, x: u32)
    ensures
        final(v)@ == old(v)@ + be32_bytes(x),
{
    let ghost start = v@;
    v.push(((x >> 24) & 0xff) as u8);
    v.push(((x >> 16) & 0xff) as u8);
    v.push(((x >> 8) & 0xff) as u8);
    v.push((x & 0xff) as u8);
    proof {
        assert(v@ =~= start + be32_bytes(x));
    }
}

/// Reads the little-endian `u32` at `pos`.
pub fn read_le32(b: &[u8], pos: usize) -> (r: u32)
    requires
        pos + 4 <= b@.len(),
    ensures
        r == le32_value(b@.subrange(pos as int, pos + 4)),
{
    let r = (b[pos] as u32) | ((b[pos + 1] as u32) << 8) | ((b[pos + 2] as u32) << 16) | ((b[pos
        + 3] as u32) << 24);
    proof {
        let s = b@.subrange(pos as int, pos + 4);
        assert(s[0] == b@[pos as int]);
        assert(s[1] == b@[pos + 1]);
        assert(s[2] == b@[pos + 2]);
        assert(s[3] == b@[pos + 3]);
    }
    r
}

/// Reads the big-endian `u32` at `pos`.
pub fn read_be32(b: &[u8], pos: usize) -> (r: u32)
    requires
        pos + 4 <= b@.len(),
    ensures
        r == be32_value(b@.subrange(pos as int, pos + 4)),
{
    let r = ((b[pos] as u32) << 24) | ((b[pos + 1] as u32) << 16) | ((b[pos + 2] as u32) << 8) | (
    b[pos + 3] as u32);
    proof {
        let s = b@.subrange(pos as int, pos + 4);
        assert(s[0] == b@[pos as int]);
        assert(s[1] == b@[pos + 1]);
        assert(s[2] == b@[pos + 2]);
        assert(s[3] == b@[pos + 3]);
    }
    r
}

/// How many bytes the stripped big-endian encoding of a language set takes:
/// the least `k` with `l < 256^k`.
pub open spec fn lang_len(l: u128) -> nat
    decreases l,
{
    if l == 0 {
        0
    } else {
        1 + lang_len(l / 256)
    }
}

/// The big-endian bytes of a language set with leading zero bytes stripped;
/// empty exactly when `l == 0`.
pub open spec fn lang_bytes(l: u128) -> Seq<u8>
    decreases l,
{
    if l == 0 {
        seq![]
    } else {
        lang_bytes(l / 256) + seq![(l % 256) as u8]
    }
}

/// The value of a stripped big-endian language segment.
pub open spec fn lang_value(b: Seq<u8>) -> int
    decreases b.len(),
{
    if b.len() == 0 {
        0
    } else {
        256 * lang_value(b.drop_last()) + b.last()
    }
}

pub proof fn lemma_lang_len_bytes(l: u128)
    ensures
        lang_bytes(l).len() == lang_len(l),
        lang_len(l) <= 16,
{
    lemma_lang_bytes_len_eq(l);
    lemma_lang_len_pow(l, 16);
    assert(pow256(16) == 0x100000000000000000000000000000000int) by {
        reveal_with_fuel(pow256, 17);
    }
}

proof fn lemma_lang_bytes_len_eq(l: u128)
    ensures
        lang_bytes(l).len() == lang_len(l),
    decreases l,
{
    if l != 0 {
        lemma_lang_bytes_len_eq(l / 256);
    }
}

/// `l < 256^k` implies the encoding takes at most `k` bytes.
proof fn lemma_lang_len_pow(l: u128, k: nat)
    ensures
        lang_len(l) <= k || l >= pow256(k),
    decreases k,
{
    if k > 0 && l != 0 {
        lemma_lang_len_pow(l / 256, (k - 1) as nat);
        if lang_len(l / 256) <= k - 1 {
        } else {
            assert(l / 256 >= pow256((k - 1) as nat));
            assert(l >= 256 * (l / 256)) by (nonlinear_arith);
            assert(256 * (l / 256) >= 256 * pow256((k - 1) as nat)) by (nonlinear_arith)
                requires
                    l / 256 >= pow256((k - 1) as nat),
            ;
        }
    }
}

pub open spec fn pow256(k: nat) -> int
    decreases k,
{
    if k == 0 {
        1
    } else {
        256 * pow256((k - 1) as nat)
    }
}

pub proof fn lemma_lang_roundtrip(l: u128)
    ensures
        lang_value(lang_bytes(l)) == l,
    decreases l,
{
    if l != 0 {
        lemma_lang_roundtrip(l / 256);
        assert(lang_bytes(l).drop_last() =~= lang_bytes(l / 256));
        assert(256 * (l / 256) + (l % 256) == l) by (nonlinear_arith);
    }
}

} // verus!
