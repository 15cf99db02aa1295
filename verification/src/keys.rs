//! The key codec: a store key is a type marker byte, the phrase id in four
//! big-endian bytes, and the language bitset in up to 16 big-endian bytes
//! with leading zero bytes stripped. An empty language segment reads back as
//! "matches any language" (all bits set).

use vstd::prelude::*;

use crate::GridError;
use crate::GridKey;
use crate::bytes::be32_bytes;
use crate::bytes::be32_value;
use crate::bytes::lang_bytes;
use crate::bytes::lang_value;
use crate::bytes::lemma_be32_roundtrip;
use crate::bytes::lemma_lang_len_bytes;
use crate::bytes::lemma_lang_roundtrip;
use crate::bytes::pow256;
use crate::bytes::push_be32;
use crate::bytes::read_be32;

verus! {

/// The leading byte that partitions the key space: plain single-phrase
/// records, and pre-merged prefix-bin records.
#[derive(Clone, Copy, Debug, PartialEq, Eq, Structural)]
pub enum TypeMarker {
    SinglePhrase,
    PrefixBin,
}

/// The byte value of a type marker.
pub open spec fn marker_byte(m: TypeMarker) -> u8 {
    match m {
        TypeMarker::SinglePhrase => 0,
        TypeMarker::PrefixBin => 1,
    }
}

/// The byte value of a type marker.
pub fn type_marker_byte(m: TypeMarker) -> (r: u8)
    ensures
        r == marker_byte(m),
{
    match m {
        TypeMarker::SinglePhrase => 0,
        TypeMarker::PrefixBin => 1,
    }
}

/// The encoded bytes of a key.
pub open spec fn enc_key(m: TypeMarker, k: GridKey) -> Seq<u8> {
    seq![marker_byte(m)] + be32_bytes(k.phrase_id) + lang_bytes(k.lang_set)
}

/// The language set a key's stripped segment stands for: an empty segment
/// means "matches any language".
pub open spec fn lang_of_segment(seg: Seq<u8>) -> u128 {
    if seg.len() == 0 {
        0xffffffffffffffffffffffffffffffff
    } else {
        lang_value(seg) as u128
    }
}

/// The grid key a byte key parses to: `None` when it is shorter than the
/// marker plus phrase id, or its language segment is longer than 16 bytes.
pub open spec fn parse_key_spec(b: Seq<u8>) -> Option<GridKey> {
    if 5 <= b.len() <= 21 {
        Some(
            GridKey {
                phrase_id: be32_value(b.subrange(1, 5)),
                lang_set: lang_of_segment(b.subrange(5, b.len() as int)),
            },
        )
    } else {
        None
    }
}

/// A segment's value stays under `256^len`.
pub proof fn lemma_lang_value_bound(s: Seq<u8>)
    ensures
        0 <= lang_value(s) < pow256(s.len()),
    decreases s.len(),
{
    if s.len() > 0 {
        lemma_lang_value_bound(s.drop_last());
    }
}

/// Encodes a key.
pub fn encode_key(m: TypeMarker, k: &GridKey) -> (r: Vec<u8>)
    ensures
        r@ == enc_key(m, *k),
{
    let mut r: Vec<u8> = Vec::new();
    r.push(type_marker_byte(m));
    push_be32(&mut r, k.phrase_id);
    let ghost head = r@;
    // collect the language bytes low-to-high, then append them reversed
    let mut tmp: Vec<u8> = Vec::new();
    let mut cur: u128 = k.lang_set;
    while cur > 0
        invariant
            lang_bytes(k.lang_set) == lang_bytes(cur) + tmp@.reverse(),
        decreases cur,
    {
        let ghost pre = tmp@;
        tmp.push((cur % 256) as u8);
        proof {
            assert(tmp@.reverse() =~= seq![(cur % 256) as u8] + pre.reverse());
            assert(lang_bytes(cur / 256) + (seq![(cur % 256) as u8] + pre.reverse())
                =~= (lang_bytes(cur / 256) + seq![(cur % 256) as u8]) + pre.reverse());
        }
        cur = cur / 256;
    }
    proof {
        assert(lang_bytes(0u128) + tmp@.reverse() =~= tmp@.reverse());
    }
    let n = tmp.len();
    let mut i: usize = 0;
    while i < n
        invariant
            i <= n,
            n == tmp@.len(),
            r@ == head + tmp@.reverse().take(i as int),
        decreases n - i,
    {
        r.push(tmp[n - 1 - i]);
        proof {
            assert(tmp@.reverse().take(i + 1) =~= tmp@.reverse().take(i as int).push(
                tmp@[n - 1 - i],
            ));
        }
        i = i + 1;
    }
    proof {
        assert(tmp@.reverse().take(n as int) =~= tmp@.reverse());
        assert(r@ =~= enc_key(m, *k));
    }
    r
}

/// Parses a stored key; the marker byte is not interpreted.
pub fn parse_key(b: &[u8]) -> (r: Result<GridKey, GridError>)
    ensures
        match r {
            Ok(k) => parse_key_spec(b@) == Some(k),
            Err(e) => parse_key_spec(b@) is None && e == GridError::CorruptRecord,
        },
{
    let len = b.len();
    if len < 5 || len > 21 {
        return Err(GridError::CorruptRecord);
    }
    let phrase_id = read_be32(b, 1);
    let lang_set: u128;
    if len == 5 {
        lang_set = 0xffffffffffffffffffffffffffffffff;
        proof {
            assert(b@.subrange(5, b@.len() as int).len() == 0);
        }
    } else {
        let mut l: u128 = 0;
        let mut i: usize = 5;
        proof {
            assert(b@.subrange(5, 5) =~= Seq::<u8>::empty());
        }
        while i < len
            invariant
                5 <= i <= len,
                len == b@.len(),
                len <= 21,
                l == lang_value(b@.subrange(5, i as int)),
            decreases len - i,
        {
            proof {
                lemma_lang_value_bound(b@.subrange(5, i as int));
                assert(pow256(16) == 0x100000000000000000000000000000000int) by {
                    reveal_with_fuel(pow256, 17);
                }
                lemma_pow256_le(b@.subrange(5, i as int).len(), 15);
                assert(b@.subrange(5, i + 1).drop_last() =~= b@.subrange(5, i as int));
            }
            l = l * 256 + (b[i] as u128);
            i = i + 1;
        }
        lang_set = l;
        proof {
            assert(b@.subrange(5, len as int).len() > 0);
        }
    }
    Ok(GridKey { phrase_id, lang_set })
}

/// `pow256` is monotone in its exponent.
proof fn lemma_pow256_le(a: nat, b: nat)
    requires
        a <= b,
    ensures
        pow256(a) <= pow256(b),
    decreases b,
{
    if a < b {
        lemma_pow256_le(a, (b - 1) as nat);
        lemma_pow256_pos((b - 1) as nat);
        assert(pow256(b) == 256 * pow256((b - 1) as nat));
        assert(pow256((b - 1) as nat) <= 256 * pow256((b - 1) as nat)) by (nonlinear_arith)
            requires
                pow256((b - 1) as nat) >= 1,
        ;
    }
}

proof fn lemma_pow256_pos(k: nat)
    ensures
        pow256(k) >= 1,
    decreases k,
{
    if k > 0 {
        lemma_pow256_pos((k - 1) as nat);
        assert(256 * pow256((k - 1) as nat) >= pow256((k - 1) as nat)) by (nonlinear_arith)
            requires
                pow256((k - 1) as nat) >= 1,
        ;
    }
}

/// A key encodes and parses back to itself; a zero language set reads back
/// as "matches any language".
pub proof fn lemma_key_roundtrip(m: TypeMarker, k: GridKey)
    ensures
        k.lang_set != 0 ==> parse_key_spec(enc_key(m, k)) == Some(k),
        k.lang_set == 0 ==> parse_key_spec(enc_key(m, k)) == Some(
            GridKey { phrase_id: k.phrase_id, lang_set: 0xffffffffffffffffffffffffffffffff },
        ),
{
    let b = enc_key(m, k);
    lemma_lang_len_bytes(k.lang_set);
    assert(b.subrange(1, 5) =~= be32_bytes(k.phrase_id));
    lemma_be32_roundtrip(k.phrase_id);
    assert(b.subrange(5, b.len() as int) =~= lang_bytes(k.lang_set));
    lemma_lang_roundtrip(k.lang_set);
}

/// An encoded key starts with its marker byte and is at least five bytes, so
/// keys under different markers never collide and no key is the reserved
/// bin-table key.
pub proof fn lemma_enc_key_marker(m: TypeMarker, k: GridKey)
    ensures
        enc_key(m, k).len() >= 5,
        enc_key(m, k)[0] == marker_byte(m),
{
    assert(enc_key(m, k)[0] == marker_byte(m));
}

/// Two different keys never encode to the same bytes.
pub proof fn lemma_enc_key_injective(m: TypeMarker, k1: GridKey, k2: GridKey)
    requires
        enc_key(m, k1) == enc_key(m, k2),
    ensures
        k1 == k2,
{
    let b1 = enc_key(m, k1);
    let b2 = enc_key(m, k2);
    assert(b1.subrange(1, 5) =~= be32_bytes(k1.phrase_id));
    assert(b2.subrange(1, 5) =~= be32_bytes(k2.phrase_id));
    lemma_be32_roundtrip(k1.phrase_id);
    lemma_be32_roundtrip(k2.phrase_id);
    lemma_lang_len_bytes(k1.lang_set);
    lemma_lang_len_bytes(k2.lang_set);
    assert(b1.subrange(5, b1.len() as int) =~= lang_bytes(k1.lang_set));
    assert(b2.subrange(5, b2.len() as int) =~= lang_bytes(k2.lang_set));
    lemma_lang_roundtrip(k1.lang_set);
    lemma_lang_roundtrip(k2.lang_set);
}

/// Whether a record under byte key `kb` matches a query whose language
/// bitset is `query_lang`: the stored segment is empty — a five-byte key,
/// standing for every language whatever the query holds — or the two
/// bitsets intersect.
pub open spec fn spec_matches_language(kb: Seq<u8>, query_lang: u128) -> bool {
    match parse_key_spec(kb) {
        Some(k) => kb.len() == 5 || k.lang_set & query_lang != 0,
        None => false,
    }
}

} // verus!
