//! The record codec: a phrase record is a list of relev/score buckets, each
//! holding morton-coded coordinates, each holding a packed list of id words.
//!
//! On disk a record is `count`-prefixed: a `u32` bucket count, then per
//! bucket a `relev_score` byte and a `u32` coordinate count, then per
//! coordinate its morton code, the byte length of its id array, and the ids
//! as packed little-endian `u32`s. A trailing fragment of an id array
//! (a byte length that is not a multiple of four) is dropped silently;
//! a declared length that exceeds the buffer, or a relevance nibble above 5,
//! makes the record corrupt.

use vstd::prelude::*;

use crate::GridError;
use crate::GridEntry;
use crate::bytes::le32_bytes;
use crate::bytes::le32_value;
use crate::bytes::lemma_le32_roundtrip;
use crate::bytes::push_le32;
use crate::bytes::read_le32;
use crate::zorder::deinterleave_morton;
use crate::zorder::spec_deinterleave_x;
use crate::zorder::spec_deinterleave_y;

verus! {

/// One morton-coded coordinate and its packed id words
/// (high 24 bits feature id, low 8 bits source phrase hash).
pub struct CoordRec {
    pub morton: u32,
    pub ids: Vec<u32>,
}

impl View for CoordRec {
    type V = (u32, Seq<u32>);

    open spec fn view(&self) -> (u32, Seq<u32>) {
        (self.morton, self.ids@)
    }
}

/// One relev/score bucket: the packed `relev_score` byte (relevance level in
/// the high nibble, score in the low nibble) and its coordinates.
pub struct Bucket {
    pub relev_score: u8,
    pub coords: Vec<CoordRec>,
}

impl View for Bucket {
    type V = (u8, Seq<(u32, Seq<u32>)>);

    open spec fn view(&self) -> (u8, Seq<(u32, Seq<u32>)>) {
        (self.relev_score, self.coords@.map_values(|c: CoordRec| c@))
    }
}

/// The model of a whole record.
pub open spec fn bucket_models(v: Seq<Bucket>) -> Seq<(u8, Seq<(u32, Seq<u32>)>)> {
    v.map_values(|b: Bucket| b@)
}

/// Size limits the `u32` length fields force on an encodable record.
pub open spec fn rec_wf(ms: Seq<(u8, Seq<(u32, Seq<u32>)>)>) -> bool {
    &&& ms.len() <= 0xFFFFFFFF
    &&& forall|i: int|
        0 <= i < ms.len() ==> {
            &&& (#[trigger] ms[i]).0 >> 4 <= 5
            &&& ms[i].1.len() <= 0xFFFFFFFF
            &&& forall|j: int| 0 <= j < ms[i].1.len() ==> (#[trigger] ms[i].1[j]).1.len() <= 0x3FFFFFFF
        }
}

// ---------------------------------------------------------------------------
// Encoding
// ---------------------------------------------------------------------------
/// The packed little-endian bytes of a list of id words.
pub open spec fn enc_ids(ids: Seq<u32>) -> Seq<u8>
    decreases ids.len(),
{
    if ids.len() == 0 {
        seq![]
    } else {
        le32_bytes(ids[0]) + enc_ids(ids.drop_first())
    }
}

/// The bytes of one coordinate: morton code, id byte length, packed ids.
pub open spec fn enc_coord(c: (u32, Seq<u32>)) -> Seq<u8> {
    le32_bytes(c.0) + le32_bytes((4 * c.1.len()) as u32) + enc_ids(c.1)
}

pub open spec fn enc_coords(cs: Seq<(u32, Seq<u32>)>) -> Seq<u8>
    decreases cs.len(),
{
    if cs.len() == 0 {
        seq![]
    } else {
        enc_coord(cs[0]) + enc_coords(cs.drop_first())
    }
}

/// The bytes of one bucket: the relev/score byte, the coordinate count, the
/// coordinates.
pub open spec fn enc_bucket(b: (u8, Seq<(u32, Seq<u32>)>)) -> Seq<u8> {
    seq![b.0] + le32_bytes(b.1.len() as u32) + enc_coords(b.1)
}

pub open spec fn enc_buckets(bs: Seq<(u8, Seq<(u32, Seq<u32>)>)>) -> Seq<u8>
    decreases bs.len(),
{
    if bs.len() == 0 {
        seq![]
    } else {
        enc_bucket(bs[0]) + enc_buckets(bs.drop_first())
    }
}

/// The bytes of a whole record: the bucket count, then the buckets.
pub open spec fn enc_record(bs: Seq<(u8, Seq<(u32, Seq<u32>)>)>) -> Seq<u8> {
    le32_bytes(bs.len() as u32) + enc_buckets(bs)
}

pub proof fn lemma_enc_ids_push(ids: Seq<u32>, x: u32)
    ensures
        enc_ids(ids.push(x)) == enc_ids(ids) + le32_bytes(x),
    decreases ids.len(),
{
    reveal_with_fuel(enc_ids, 3);
    if ids.len() == 0 {
        assert(ids.push(x).drop_first() =~= seq![]);
        assert(ids.push(x)[0] == x);
        assert(enc_ids(ids.push(x)) =~= enc_ids(ids) + le32_bytes(x));
    } else {
        assert(ids.push(x)[0] == ids[0]);
        assert(ids.push(x).drop_first() =~= ids.drop_first().push(x));
        lemma_enc_ids_push(ids.drop_first(), x);
        assert(enc_ids(ids.push(x)) =~= enc_ids(ids) + le32_bytes(x));
    }
}

pub proof fn lemma_enc_coords_push(cs: Seq<(u32, Seq<u32>)>, c: (u32, Seq<u32>))
    ensures
        enc_coords(cs.push(c)) == enc_coords(cs) + enc_coord(c),
    decreases cs.len(),
{
    reveal_with_fuel(enc_coords, 3);
    if cs.len() == 0 {
        assert(cs.push(c).drop_first() =~= seq![]);
        assert(cs.push(c)[0] == c);
        assert(enc_coords(cs.push(c)) =~= enc_coords(cs) + enc_coord(c));
    } else {
        assert(cs.push(c)[0] == cs[0]);
        assert(cs.push(c).drop_first() =~= cs.drop_first().push(c));
        lemma_enc_coords_push(cs.drop_first(), c);
        assert(enc_coords(cs.push(c)) =~= enc_coords(cs) + enc_coord(c));
    }
}

pub proof fn lemma_enc_buckets_push(bs: Seq<(u8, Seq<(u32, Seq<u32>)>)>, b: (u8, Seq<(u32, Seq<u32>)>))
    ensures
        enc_buckets(bs.push(b)) == enc_buckets(bs) + enc_bucket(b),
    decreases bs.len(),
{
    reveal_with_fuel(enc_buckets, 3);
    if bs.len() == 0 {
        assert(bs.push(b).drop_first() =~= seq![]);
        assert(bs.push(b)[0] == b);
        assert(enc_buckets(bs.push(b)) =~= enc_buckets(bs) + enc_bucket(b));
    } else {
        assert(bs.push(b)[0] == bs[0]);
        assert(bs.push(b).drop_first() =~= bs.drop_first().push(b));
        lemma_enc_buckets_push(bs.drop_first(), b);
        assert(enc_buckets(bs.push(b)) =~= enc_buckets(bs) + enc_bucket(b));
    }
}

/// Splitting a known concatenation out of a buffer.
proof fn lemma_subrange_split(b: Seq<u8>, pos: int, s1: Seq<u8>, s2: Seq<u8>)
    requires
        0 <= pos,
        pos + s1.len() + s2.len() <= b.len(),
        b.subrange(pos, pos + s1.len() + s2.len()) == s1 + s2,
    ensures
        b.subrange(pos, pos + s1.len()) == s1,
        b.subrange(pos + s1.len(), pos + s1.len() + s2.len()) == s2,
{
    let whole = b.subrange(pos, pos + s1.len() + s2.len());
    assert forall|k: int| 0 <= k < s1.len() implies b.subrange(pos, pos + s1.len())[k] == s1[k] by {
        assert(whole[k] == (s1 + s2)[k]);
    }
    assert(b.subrange(pos, pos + s1.len()) =~= s1);
    assert forall|k: int|
        0 <= k < s2.len() implies b.subrange(pos + s1.len(), pos + s1.len() + s2.len())[k]
        == s2[k] by {
        assert(whole[s1.len() + k] == (s1 + s2)[s1.len() + k]);
    }
    assert(b.subrange(pos + s1.len(), pos + s1.len() + s2.len()) =~= s2);
}

/// Appends the encoding of one coordinate.
fn push_coord(out: &mut Vec<u8>, c: &CoordRec)
    requires
        c.ids@.len() <= 0x3FFFFFFF,
    ensures
        final(out)@ == old(out)@ + enc_coord(c@),
{
    let ghost start = out@;
    push_le32(out, c.morton);
    push_le32(out, (4 * c.ids.len()) as u32);
    let ghost mid = out@;
    let n = c.ids.len();
    let mut i: usize = 0;
    while i < n
        invariant
            i <= n,
            n == c.ids@.len(),
            out@ == mid + enc_ids(c.ids@.take(i as int)),
            mid == start + le32_bytes(c.morton) + le32_bytes((4 * c.ids@.len()) as u32),
        decreases n - i,
    {
        push_le32(out, c.ids[i]);
        proof {
            lemma_enc_ids_push(c.ids@.take(i as int), c.ids@[i as int]);
            assert(c.ids@.take(i + 1) =~= c.ids@.take(i as int).push(c.ids@[i as int]));
        }
        i = i + 1;
    }
    proof {
        assert(c.ids@.take(n as int) =~= c.ids@);
        assert(out@ =~= start + enc_coord(c@));
    }
}

/// Appends the encoding of one bucket.
fn push_bucket(out: &mut Vec<u8>, b: &Bucket)
    requires
        b.coords@.len() <= 0xFFFFFFFF,
        forall|j: int| 0 <= j < b.coords@.len() ==> (#[trigger] b.coords@[j]).ids@.len() <= 0x3FFFFFFF,
    ensures
        final(out)@ == old(out)@ + enc_bucket(b@),
{
    let ghost start = out@;
    out.push(b.relev_score);
    push_le32(out, b.coords.len() as u32);
    let ghost mid = out@;
    let n = b.coords.len();
    let mut i: usize = 0;
    while i < n
        invariant
            i <= n,
            n == b.coords@.len(),
            forall|j: int|
                0 <= j < b.coords@.len() ==> (#[trigger] b.coords@[j]).ids@.len() <= 0x3FFFFFFF,
            out@ == mid + enc_coords(b.coords@.map_values(|c: CoordRec| c@).take(i as int)),
            mid == start + seq![b.relev_score] + le32_bytes(b.coords@.len() as u32),
        decreases n - i,
    {
        let ghost cs = b.coords@.map_values(|c: CoordRec| c@);
        push_coord(out, &b.coords[i]);
        proof {
            lemma_enc_coords_push(cs.take(i as int), b.coords@[i as int]@);
            assert(cs.take(i + 1) =~= cs.take(i as int).push(b.coords@[i as int]@));
        }
        i = i + 1;
    }
    proof {
        assert(b.coords@.map_values(|c: CoordRec| c@).take(n as int) =~= b@.1);
        assert(out@ =~= start + enc_bucket(b@));
    }
}

/// Encodes a whole record.
pub fn encode_record(bs: &Vec<Bucket>) -> (out: Vec<u8>)
    requires
        rec_wf(bucket_models(bs@)),
    ensures
        out@ == enc_record(bucket_models(bs@)),
{
    let mut out: Vec<u8> = Vec::new();
    push_le32(&mut out, bs.len() as u32);
    let ghost mid = out@;
    let n = bs.len();
    let mut i: usize = 0;
    while i < n
        invariant
            i <= n,
            n == bs@.len(),
            rec_wf(bucket_models(bs@)),
            out@ == mid + enc_buckets(bucket_models(bs@).take(i as int)),
            mid == le32_bytes(bs@.len() as u32),
        decreases n - i,
    {
        let ghost ms = bucket_models(bs@);
        proof {
            assert(ms[i as int] == bs@[i as int]@);
            assert forall|j: int|
                0 <= j < bs@[i as int].coords@.len() implies (#[trigger] bs@[i as int].coords@[j]).ids@.len()
                <= 0x3FFFFFFF by {
                assert(ms[i as int].1[j] == bs@[i as int].coords@[j]@);
            }
        }
        push_bucket(&mut out, &bs[i]);
        proof {
            lemma_enc_buckets_push(ms.take(i as int), bs@[i as int]@);
            assert(ms.take(i + 1) =~= ms.take(i as int).push(bs@[i as int]@));
        }
        i = i + 1;
    }
    proof {
        assert(bucket_models(bs@).take(n as int) =~= bucket_models(bs@));
        assert(out@ =~= enc_record(bucket_models(bs@)));
    }
    out
}

// ---------------------------------------------------------------------------
// Decoding
// ---------------------------------------------------------------------------
/// The id words read from `nbytes` bytes at `pos`: one per whole group of
/// four bytes, a trailing fragment dropped.
pub open spec fn sd_ids(b: Seq<u8>, pos: int, nbytes: int) -> Seq<u32> {
    Seq::new((nbytes / 4) as nat, |i: int| le32_value(b.subrange(pos + 4 * i, pos + 4 * i + 4)))
}

/// Reads `n` coordinates starting at `pos`; `None` on a length that runs out
/// of the buffer, otherwise the coordinates and the position after them.
pub open spec fn sd_coords(b: Seq<u8>, pos: int, n: nat) -> Option<(Seq<(u32, Seq<u32>)>, int)>
    decreases n,
{
    if n == 0 {
        Some((seq![], pos))
    } else if pos + 8 > b.len() {
        None
    } else {
        let m = le32_value(b.subrange(pos, pos + 4));
        let nb = le32_value(b.subrange(pos + 4, pos + 8)) as int;
        if pos + 8 + nb > b.len() {
            None
        } else {
            match sd_coords(b, pos + 8 + nb, (n - 1) as nat) {
                None => None,
                Some((rest, end)) => Some((seq![(m, sd_ids(b, pos + 8, nb))] + rest, end)),
            }
        }
    }
}

/// Reads `n` buckets starting at `pos`; `None` on a truncated bucket or a
/// relevance nibble above 5.
pub open spec fn sd_buckets(b: Seq<u8>, pos: int, n: nat) -> Option<
    (Seq<(u8, Seq<(u32, Seq<u32>)>)>, int),
>
    decreases n,
{
    if n == 0 {
        Some((seq![], pos))
    } else if pos + 5 > b.len() {
        None
    } else {
        let rs = b[pos];
        if rs >> 4 > 5 {
            None
        } else {
            let nc = le32_value(b.subrange(pos + 1, pos + 5));
            match sd_coords(b, pos + 5, nc as nat) {
                None => None,
                Some((cs, mid)) => match sd_buckets(b, mid, (n - 1) as nat) {
                    None => None,
                    Some((rest, end)) => Some((seq![(rs, cs)] + rest, end)),
                },
            }
        }
    }
}

/// The model a record blob decodes to, or `None` if it is corrupt.
/// Bytes after the declared buckets are ignored, as a lazy reader would.
pub open spec fn spec_decode_record(b: Seq<u8>) -> Option<Seq<(u8, Seq<(u32, Seq<u32>)>)>> {
    if b.len() < 4 {
        None
    } else {
        match sd_buckets(b, 4, le32_value(b.subrange(0, 4)) as nat) {
            None => None,
            Some((ms, end)) => Some(ms),
        }
    }
}

/// Reads the id words of one coordinate.
pub fn decode_ids(b: &[u8], pos: usize, nbytes: usize) -> (r: Vec<u32>)
    requires
        pos + nbytes <= b@.len(),
    ensures
        r@ == sd_ids(b@, pos as int, nbytes as int),
{
    let count = nbytes / 4;
    let blen = b.len();
    let mut r: Vec<u32> = Vec::new();
    let mut i: usize = 0;
    while i < count
        invariant
            i <= count,
            count == nbytes / 4,
            blen == b@.len(),
            pos + nbytes <= b@.len(),
            r@.len() == i,
            forall|k: int|
                0 <= k < i ==> r@[k] == le32_value(
                    b@.subrange(pos + 4 * k, pos + 4 * k + 4),
                ),
        decreases count - i,
    {
        proof {
            assert(4 * ((i as int) + 1) <= 4 * ((nbytes as int) / 4));
            assert(4 * ((nbytes as int) / 4) <= nbytes as int);
            assert(pos + 4 * (i as int) + 4 <= b@.len());
        }
        let w = read_le32(b, pos + 4 * i);
        r.push(w);
        i = i + 1;
    }
    proof {
        assert(r@ =~= sd_ids(b@, pos as int, nbytes as int));
    }
    r
}

/// Glue for the loop invariants: prepends already-decoded items to what a
/// spec reader returns for the remainder.
pub open spec fn glue<T>(acc: Seq<T>, r: Option<(Seq<T>, int)>) -> Option<(Seq<T>, int)> {
    match r {
        None => None,
        Some((s, e)) => Some((acc + s, e)),
    }
}

/// Reads `n` coordinates at `pos`.
fn decode_coords(b: &[u8], pos: usize, n: u32) -> (r: Result<(Vec<CoordRec>, usize), GridError>)
    requires
        pos <= b@.len(),
    ensures
        match r {
            Ok((v, end)) => sd_coords(b@, pos as int, n as nat) == Some(
                (v@.map_values(|c: CoordRec| c@), end as int),
            ) && end <= b@.len(),
            Err(e) => sd_coords(b@, pos as int, n as nat) is None && e == GridError::CorruptRecord,
        },
{
    let mut v: Vec<CoordRec> = Vec::new();
    let mut p = pos;
    let mut i: u32 = 0;
    while i < n
        invariant
            i <= n,
            p <= b@.len(),
            glue(v@.map_values(|c: CoordRec| c@), sd_coords(b@, p as int, (n - i) as nat))
                == sd_coords(b@, pos as int, n as nat),
        decreases n - i,
    {
        let ghost done = v@.map_values(|c: CoordRec| c@);
        if b.len() - p < 8 {
            assert(sd_coords(b@, p as int, (n - i) as nat) is None);
            return Err(GridError::CorruptRecord);
        }
        let m = read_le32(b, p);
        let nb = read_le32(b, p + 4);
        if nb as usize > b.len() - p - 8 {
            assert(sd_coords(b@, p as int, (n - i) as nat) is None);
            return Err(GridError::CorruptRecord);
        }
        let ids = decode_ids(b, p + 8, nb as usize);
        v.push(CoordRec { morton: m, ids });
        proof {
            let c = (m, sd_ids(b@, p + 8, nb as int));
            assert(v@.map_values(|c: CoordRec| c@) =~= done.push(c));
            let rest = sd_coords(b@, p + 8 + nb, (n - i - 1) as nat);
            match rest {
                None => {},
                Some((rs, e)) => {
                    assert(done + (seq![c] + rs) =~= done.push(c) + rs);
                },
            }
        }
        p = p + 8 + nb as usize;
        i = i + 1;
    }
    proof {
        assert(sd_coords(b@, p as int, 0) == Some((Seq::<(u32, Seq<u32>)>::empty(), p as int)));
        assert(v@.map_values(|c: CoordRec| c@) + Seq::<(u32, Seq<u32>)>::empty() =~= v@.map_values(
            |c: CoordRec| c@,
        ));
    }
    Ok((v, p))
}

/// Reads `n` buckets at `pos`.
fn decode_buckets(b: &[u8], pos: usize, n: u32) -> (r: Result<(Vec<Bucket>, usize), GridError>)
    requires
        pos <= b@.len(),
    ensures
        match r {
            Ok((v, end)) => sd_buckets(b@, pos as int, n as nat) == Some(
                (bucket_models(v@), end as int),
            ) && end <= b@.len(),
            Err(e) => sd_buckets(b@, pos as int, n as nat) is None && e
                == GridError::CorruptRecord,
        },
{
    let mut v: Vec<Bucket> = Vec::new();
    let mut p = pos;
    let mut i: u32 = 0;
    while i < n
        invariant
            i <= n,
            p <= b@.len(),
            glue(bucket_models(v@), sd_buckets(b@, p as int, (n - i) as nat)) == sd_buckets(
                b@,
                pos as int,
                n as nat,
            ),
        decreases n - i,
    {
        let ghost done = bucket_models(v@);
        if b.len() - p < 5 {
            assert(sd_buckets(b@, p as int, (n - i) as nat) is None);
            return Err(GridError::CorruptRecord);
        }
        let rs = b[p];
        if rs >> 4 > 5 {
            assert(sd_buckets(b@, p as int, (n - i) as nat) is None);
            return Err(GridError::CorruptRecord);
        }
        let nc = read_le32(b, p + 1);
        let cs = match decode_coords(b, p + 5, nc) {
            Ok(cv) => cv,
            Err(e) => {
                assert(sd_buckets(b@, p as int, (n - i) as nat) is None);
                return Err(e);
            },
        };
        let (coords, mid) = cs;
        v.push(Bucket { relev_score: rs, coords });
        proof {
            let bm = (rs, coords@.map_values(|c: CoordRec| c@));
            assert(bucket_models(v@) =~= done.push(bm));
            let rest = sd_buckets(b@, mid as int, (n - i - 1) as nat);
            match rest {
                None => {},
                Some((rms, e)) => {
                    assert(done + (seq![bm] + rms) =~= done.push(bm) + rms);
                },
            }
        }
        p = mid;
        i = i + 1;
    }
    proof {
        assert(sd_buckets(b@, p as int, 0) == Some(
            (Seq::<(u8, Seq<(u32, Seq<u32>)>)>::empty(), p as int),
        ));
        assert(bucket_models(v@) + Seq::<(u8, Seq<(u32, Seq<u32>)>)>::empty() =~= bucket_models(
            v@,
        ));
    }
    Ok((v, p))
}

/// Decodes a record blob into its buckets.
pub fn decode_record(b: &[u8]) -> (r: Result<Vec<Bucket>, GridError>)
    ensures
        match r {
            Ok(v) => spec_decode_record(b@) == Some(bucket_models(v@)),
            Err(e) => spec_decode_record(b@) is None && e == GridError::CorruptRecord,
        },
{
    if b.len() < 4 {
        return Err(GridError::CorruptRecord);
    }
    let n = read_le32(b, 0);
    match decode_buckets(b, 4, n) {
        Ok((v, _end)) => Ok(v),
        Err(e) => Err(e),
    }
}

// ---------------------------------------------------------------------------
// Round trip
// ---------------------------------------------------------------------------
/// Indexing into a packed id encoding.
pub proof fn lemma_enc_ids_index(ids: Seq<u32>, i: int)
    requires
        0 <= i < ids.len(),
    ensures
        enc_ids(ids).len() == 4 * ids.len(),
        enc_ids(ids).subrange(4 * i, 4 * i + 4) == le32_bytes(ids[i]),
    decreases ids.len(),
{
    lemma_enc_ids_len(ids);
    if i == 0 {
        lemma_enc_ids_len(ids.drop_first());
        assert(enc_ids(ids).subrange(0, 4) =~= le32_bytes(ids[0]));
    } else {
        lemma_enc_ids_index(ids.drop_first(), i - 1);
        assert(enc_ids(ids).subrange(4 * i, 4 * i + 4) =~= enc_ids(ids.drop_first()).subrange(
            4 * (i - 1),
            4 * (i - 1) + 4,
        ));
    }
}

pub proof fn lemma_enc_ids_len(ids: Seq<u32>)
    ensures
        enc_ids(ids).len() == 4 * ids.len(),
    decreases ids.len(),
{
    if ids.len() > 0 {
        lemma_enc_ids_len(ids.drop_first());
    }
}

/// A packed id array reads back as itself wherever it sits in a buffer.
pub proof fn lemma_sd_ids_enc(b: Seq<u8>, pos: int, ids: Seq<u32>)
    requires
        0 <= pos,
        pos + 4 * ids.len() <= b.len(),
        b.subrange(pos, pos + 4 * ids.len()) == enc_ids(ids),
    ensures
        sd_ids(b, pos, 4 * ids.len() as int) == ids,
{
    lemma_enc_ids_len(ids);
    let got = sd_ids(b, pos, 4 * ids.len() as int);
    assert forall|i: int| 0 <= i < ids.len() implies got[i] == ids[i] by {
        lemma_enc_ids_index(ids, i);
        assert(b.subrange(pos + 4 * i, pos + 4 * i + 4) =~= b.subrange(
            pos,
            pos + 4 * ids.len(),
        ).subrange(4 * i, 4 * i + 4));
        lemma_le32_roundtrip(ids[i]);
    }
    assert(got =~= ids);
}

proof fn lemma_enc_coords_len(cs: Seq<(u32, Seq<u32>)>)
    ensures
        enc_coords(cs).len() >= 8 * cs.len(),
    decreases cs.len(),
{
    if cs.len() > 0 {
        lemma_enc_coords_len(cs.drop_first());
        lemma_enc_ids_len(cs[0].1);
    }
}

/// Encoded coordinates read back as themselves wherever they sit.
proof fn lemma_sd_coords_enc(b: Seq<u8>, pos: int, cs: Seq<(u32, Seq<u32>)>)
    requires
        0 <= pos,
        pos + enc_coords(cs).len() <= b.len(),
        b.subrange(pos, pos + enc_coords(cs).len()) == enc_coords(cs),
        forall|j: int| 0 <= j < cs.len() ==> (#[trigger] cs[j]).1.len() <= 0x3FFFFFFF,
    ensures
        sd_coords(b, pos, cs.len()) == Some((cs, pos + enc_coords(cs).len())),
    decreases cs.len(),
{
    if cs.len() == 0 {
        assert(sd_coords(b, pos, 0) == Some((Seq::<(u32, Seq<u32>)>::empty(), pos)));
        assert(cs =~= Seq::<(u32, Seq<u32>)>::empty());
    } else {
        let c = cs[0];
        let head = enc_coord(c);
        let tail = enc_coords(cs.drop_first());
        lemma_enc_ids_len(c.1);
        assert(head.len() == 8 + 4 * c.1.len());
        assert(enc_coords(cs) == head + tail);
        lemma_subrange_split(b, pos, head, tail);
        let nb = 4 * c.1.len();
        let mid = le32_bytes(c.0) + le32_bytes((4 * c.1.len()) as u32);
        assert(head == mid + enc_ids(c.1));
        lemma_subrange_split(b, pos, mid, enc_ids(c.1));
        assert(mid == le32_bytes(c.0) + le32_bytes((4 * c.1.len()) as u32));
        lemma_subrange_split(b, pos, le32_bytes(c.0), le32_bytes((4 * c.1.len()) as u32));
        lemma_le32_roundtrip(c.0);
        lemma_le32_roundtrip((4 * c.1.len()) as u32);
        lemma_sd_ids_enc(b, pos + 8, c.1);
        lemma_sd_coords_enc(b, pos + head.len(), cs.drop_first());
        assert(seq![(c.0, c.1)] + cs.drop_first() =~= cs);
    }
}

proof fn lemma_enc_buckets_len(bs: Seq<(u8, Seq<(u32, Seq<u32>)>)>)
    ensures
        enc_buckets(bs).len() >= 5 * bs.len(),
    decreases bs.len(),
{
    if bs.len() > 0 {
        lemma_enc_buckets_len(bs.drop_first());
        lemma_enc_coords_len(bs[0].1);
    }
}

/// Encoded buckets read back as themselves wherever they sit.
proof fn lemma_sd_buckets_enc(b: Seq<u8>, pos: int, bs: Seq<(u8, Seq<(u32, Seq<u32>)>)>)
    requires
        0 <= pos,
        pos + enc_buckets(bs).len() <= b.len(),
        b.subrange(pos, pos + enc_buckets(bs).len()) == enc_buckets(bs),
        rec_wf(bs),
    ensures
        sd_buckets(b, pos, bs.len()) == Some((bs, pos + enc_buckets(bs).len())),
    decreases bs.len(),
{
    if bs.len() == 0 {
        assert(sd_buckets(b, pos, 0) == Some((Seq::<(u8, Seq<(u32, Seq<u32>)>)>::empty(), pos)));
        assert(bs =~= Seq::<(u8, Seq<(u32, Seq<u32>)>)>::empty());
    } else {
        let bk = bs[0];
        let head = enc_bucket(bk);
        let tail = enc_buckets(bs.drop_first());
        assert(head.len() == 5 + enc_coords(bk.1).len());
        assert(enc_buckets(bs) == head + tail);
        lemma_subrange_split(b, pos, head, tail);
        let hd5 = seq![bk.0] + le32_bytes(bk.1.len() as u32);
        assert(head == hd5 + enc_coords(bk.1));
        lemma_subrange_split(b, pos, hd5, enc_coords(bk.1));
        lemma_subrange_split(b, pos, seq![bk.0], le32_bytes(bk.1.len() as u32));
        assert(b[pos] == b.subrange(pos, pos + 1)[0]);
        assert(bk.0 >> 4 <= 5);
        lemma_le32_roundtrip(bk.1.len() as u32);
        assert(forall|j: int| 0 <= j < bk.1.len() ==> (#[trigger] bk.1[j]).1.len() <= 0x3FFFFFFF);
        lemma_sd_coords_enc(b, pos + 5, bk.1);
        assert(rec_wf(bs.drop_first())) by {
            assert(forall|i: int|
                0 <= i < bs.drop_first().len() ==> bs.drop_first()[i] == bs[i + 1]);
        }
        lemma_sd_buckets_enc(b, pos + head.len(), bs.drop_first());
        assert(seq![(bk.0, bk.1)] + bs.drop_first() =~= bs);
    }
}

/// A record written by [`encode_record`] decodes to exactly its model.
pub proof fn lemma_record_roundtrip(ms: Seq<(u8, Seq<(u32, Seq<u32>)>)>)
    requires
        rec_wf(ms),
    ensures
        spec_decode_record(enc_record(ms)) == Some(ms),
{
    let b = enc_record(ms);
    assert(b.subrange(0, 4) =~= le32_bytes(ms.len() as u32));
    lemma_le32_roundtrip(ms.len() as u32);
    assert(b.subrange(4, 4 + enc_buckets(ms).len() as int) =~= enc_buckets(ms));
    lemma_sd_buckets_enc(b, 4, ms);
}

/// Whatever decodes has its relevance nibbles in range.
pub proof fn lemma_sd_buckets_nibble(b: Seq<u8>, pos: int, n: nat)
    ensures
        match sd_buckets(b, pos, n) {
            Some((ms, e)) => forall|i: int| 0 <= i < ms.len() ==> (#[trigger] ms[i]).0 >> 4 <= 5,
            None => true,
        },
    decreases n,
{
    if n > 0 && pos + 5 <= b.len() && b[pos] >> 4 <= 5 {
        let nc = le32_value(b.subrange(pos + 1, pos + 5));
        match sd_coords(b, pos + 5, nc as nat) {
            None => {},
            Some((cs, mid)) => {
                lemma_sd_buckets_nibble(b, mid, (n - 1) as nat);
                match sd_buckets(b, mid, (n - 1) as nat) {
                    None => {},
                    Some((rest, e)) => {
                        let ms = seq![(b[pos], cs)] + rest;
                        assert forall|i: int| 0 <= i < ms.len() implies (#[trigger] ms[i]).0 >> 4
                            <= 5 by {
                            if i > 0 {
                                assert(ms[i] == rest[i - 1]);
                            }
                        }
                    },
                }
            },
        }
    }
}

/// Whatever decodes has its relevance nibbles in range.
pub proof fn lemma_decode_nibble(b: Seq<u8>)
    ensures
        match spec_decode_record(b) {
            Some(ms) => forall|i: int| 0 <= i < ms.len() ==> (#[trigger] ms[i]).0 >> 4 <= 5,
            None => true,
        },
{
    if b.len() >= 4 {
        lemma_sd_buckets_nibble(b, 4, le32_value(b.subrange(0, 4)) as nat);
    }
}

// ---------------------------------------------------------------------------
// Entry expansion
// ---------------------------------------------------------------------------
/// The grid entry one id word of one coordinate of one bucket stands for.
pub open spec fn entry_of(rs: u8, m: u32, idc: u32) -> GridEntry {
    GridEntry {
        relev: (rs >> 4) as u8,
        score: (rs & 15) as u8,
        x: spec_deinterleave_x(m),
        y: spec_deinterleave_y(m),
        id: (idc >> 8) as u32,
        source_phrase_hash: (idc & 255) as u8,
    }
}

pub open spec fn entries_of_coord(rs: u8, c: (u32, Seq<u32>)) -> Seq<GridEntry> {
    c.1.map_values(|idc: u32| entry_of(rs, c.0, idc))
}

/// The entries of a bucket's coordinates from the `k`-th on.
pub open spec fn coord_ents(rs: u8, cs: Seq<(u32, Seq<u32>)>, k: int) -> Seq<GridEntry>
    decreases cs.len() - k,
{
    if k < 0 || k >= cs.len() {
        seq![]
    } else {
        entries_of_coord(rs, cs[k]) + coord_ents(rs, cs, k + 1)
    }
}

pub open spec fn entries_of_bucket(bm: (u8, Seq<(u32, Seq<u32>)>)) -> Seq<GridEntry> {
    coord_ents(bm.0, bm.1, 0)
}

/// The entries of a record's buckets from the `b`-th on.
pub open spec fn rec_ents(ms: Seq<(u8, Seq<(u32, Seq<u32>)>)>, b: int) -> Seq<GridEntry>
    decreases ms.len() - b,
{
    if b < 0 || b >= ms.len() {
        seq![]
    } else {
        entries_of_bucket(ms[b]) + rec_ents(ms, b + 1)
    }
}

/// All entries of a record, in on-disk order.
pub open spec fn entries_of_record(ms: Seq<(u8, Seq<(u32, Seq<u32>)>)>) -> Seq<GridEntry> {
    rec_ents(ms, 0)
}

/// Appending a coordinate appends its entries.
pub proof fn lemma_coord_ents_push(rs: u8, cs: Seq<(u32, Seq<u32>)>, c: (u32, Seq<u32>), k: int)
    requires
        0 <= k <= cs.len(),
    ensures
        coord_ents(rs, cs.push(c), k) == coord_ents(rs, cs, k) + entries_of_coord(rs, c),
    decreases cs.len() - k,
{
    if k == cs.len() {
        assert(cs.push(c)[k] == c);
        assert(coord_ents(rs, cs.push(c), k + 1) =~= seq![]);
        assert(coord_ents(rs, cs.push(c), k) =~= coord_ents(rs, cs, k) + entries_of_coord(rs, c));
    } else {
        assert(cs.push(c)[k] == cs[k]);
        lemma_coord_ents_push(rs, cs, c, k + 1);
        assert(coord_ents(rs, cs.push(c), k) =~= coord_ents(rs, cs, k) + entries_of_coord(rs, c));
    }
}

/// Appending a bucket appends its entries.
pub proof fn lemma_rec_ents_push(
    ms: Seq<(u8, Seq<(u32, Seq<u32>)>)>,
    bm: (u8, Seq<(u32, Seq<u32>)>),
    b: int,
)
    requires
        0 <= b <= ms.len(),
    ensures
        rec_ents(ms.push(bm), b) == rec_ents(ms, b) + entries_of_bucket(bm),
    decreases ms.len() - b,
{
    if b == ms.len() {
        assert(ms.push(bm)[b] == bm);
        assert(rec_ents(ms.push(bm), b + 1) =~= seq![]);
        assert(rec_ents(ms.push(bm), b) =~= rec_ents(ms, b) + entries_of_bucket(bm));
    } else {
        assert(ms.push(bm)[b] == ms[b]);
        lemma_rec_ents_push(ms, bm, b + 1);
        assert(rec_ents(ms.push(bm), b) =~= rec_ents(ms, b) + entries_of_bucket(bm));
    }
}

/// Expands a decoded record into its entries, in on-disk order.
pub fn expand_record(buckets: &Vec<Bucket>) -> (r: Vec<GridEntry>)
    ensures
        r@ == entries_of_record(bucket_models(buckets@)),
{
    let ghost ms = bucket_models(buckets@);
    let mut out: Vec<GridEntry> = Vec::new();
    let n = buckets.len();
    let mut b: usize = 0;
    while b < n
        invariant
            b <= n,
            n == buckets@.len(),
            ms == bucket_models(buckets@),
            out@ + rec_ents(ms, b as int) == rec_ents(ms, 0),
        decreases n - b,
    {
        let ghost out_b = out@;
        let bu = &buckets[b];
        assert(ms[b as int] == buckets@[b as int]@);
        let nc = bu.coords.len();
        let mut c: usize = 0;
        while c < nc
            invariant
                c <= nc,
                b < n,
                n == buckets@.len(),
                ms == bucket_models(buckets@),
                bu == &buckets@[b as int],
                nc == bu.coords@.len(),
                ms[b as int] == buckets@[b as int]@,
                out@ + coord_ents(ms[b as int].0, ms[b as int].1, c as int) == out_b + coord_ents(
                    ms[b as int].0,
                    ms[b as int].1,
                    0,
                ),
            decreases nc - c,
        {
            let ghost out_c = out@;
            let crd = &bu.coords[c];
            assert(crd@ == ms[b as int].1[c as int]);
            let xy = deinterleave_morton(crd.morton);
            let rs = bu.relev_score;
            let tn = crd.ids.len();
            let mut t: usize = 0;
            while t < tn
                invariant
                    t <= tn,
                    tn == crd.ids@.len(),
                    crd@ == ms[b as int].1[c as int],
                    rs == ms[b as int].0,
                    xy.0 == spec_deinterleave_x(crd.morton),
                    xy.1 == spec_deinterleave_y(crd.morton),
                    out@ == out_c + entries_of_coord(rs, crd@).take(t as int),
                decreases tn - t,
            {
                let idc = crd.ids[t];
                let ent = GridEntry {
                    relev: rs >> 4,
                    score: rs & 15,
                    x: xy.0,
                    y: xy.1,
                    id: idc >> 8,
                    source_phrase_hash: (idc & 255) as u8,
                };
                assert(ent == entry_of(rs, crd.morton, idc));
                out.push(ent);
                proof {
                    assert(entries_of_coord(rs, crd@).take(t + 1) =~= entries_of_coord(
                        rs,
                        crd@,
                    ).take(t as int).push(entry_of(rs, crd.morton, idc)));
                }
                t = t + 1;
            }
            proof {
                assert(entries_of_coord(rs, crd@).take(tn as int) =~= entries_of_coord(rs, crd@));
                assert(coord_ents(ms[b as int].0, ms[b as int].1, c as int) == entries_of_coord(
                    rs,
                    crd@,
                ) + coord_ents(ms[b as int].0, ms[b as int].1, c + 1));
                assert((out_c + entries_of_coord(rs, crd@)) + coord_ents(
                    ms[b as int].0,
                    ms[b as int].1,
                    c + 1,
                ) =~= out_c + (entries_of_coord(rs, crd@) + coord_ents(
                    ms[b as int].0,
                    ms[b as int].1,
                    c + 1,
                )));
            }
            c = c + 1;
        }
        proof {
            assert(coord_ents(ms[b as int].0, ms[b as int].1, nc as int) =~= seq![]);
            assert(out@ + seq![] =~= out@);
            assert(out@ == out_b + entries_of_bucket(ms[b as int]));
            assert(rec_ents(ms, b as int) == entries_of_bucket(ms[b as int]) + rec_ents(
                ms,
                b + 1,
            ));
            assert((out_b + entries_of_bucket(ms[b as int])) + rec_ents(ms, b + 1) =~= out_b + (
            entries_of_bucket(ms[b as int]) + rec_ents(ms, b + 1)));
        }
        b = b + 1;
    }
    proof {
        assert(rec_ents(ms, n as int) =~= seq![]);
        assert(out@ + seq![] =~= out@);
    }
    out
}

} // verus!
