//! The reader: an immutable view over the closed store's key/value pairs,
//! held in memory in store order. Opening the backing file and feeding the
//! pairs in is the caller's business; everything the reader computes from
//! them is specified here.

use vstd::prelude::*;

use crate::GridEntry;
use crate::GridError;
use crate::GridKey;
use crate::MatchEntry;
use crate::MatchKey;
use crate::MatchOpts;
use crate::MatchPhrase;
use crate::codec::decode_ids;
use crate::codec::decode_record;
use crate::codec::entries_of_record;
use crate::codec::expand_record;
use crate::codec::sd_ids;
use crate::codec::spec_decode_record;
use crate::heap::heap_model;
use crate::heap::tup_le;
use crate::keys::TypeMarker;
use crate::keys::enc_key;
use crate::keys::marker_byte;
use crate::keys::parse_key;
use crate::keys::parse_key_spec;
use crate::keys::spec_matches_language;
use crate::keys::type_marker_byte;
use crate::matching::me_wf;
use crate::matching::spec_match_stream;
use crate::spatial::rank_of;
use crate::spatial::rank_of_entry;
use vstd::multiset::Multiset;

verus! {

/// The reserved key under which the bin-boundary table is stored
/// (the ASCII bytes of `~BOUNDS`).
pub open spec fn bounds_key_bytes() -> Seq<u8> {
    seq![126u8, 66u8, 79u8, 85u8, 78u8, 68u8, 83u8]
}

/// The reserved key under which the bin-boundary table is stored.
pub fn bounds_key() -> (r: Vec<u8>)
    ensures
        r@ == bounds_key_bytes(),
{
    let mut r: Vec<u8> = Vec::new();
    r.push(126);
    r.push(66);
    r.push(79);
    r.push(85);
    r.push(78);
    r.push(68);
    r.push(83);
    proof {
        assert(r@ =~= bounds_key_bytes());
    }
    r
}

/// Byte-lexicographic order on keys: the order of an ascending scan of the
/// backing store.
pub open spec fn lex_le(a: Seq<u8>, b: Seq<u8>) -> bool
    decreases a.len(),
{
    if a.len() == 0 {
        true
    } else if b.len() == 0 {
        false
    } else if a[0] < b[0] {
        true
    } else if a[0] > b[0] {
        false
    } else {
        lex_le(a.drop_first(), b.drop_first())
    }
}

/// Whether the pairs come in ascending key order, as a key-ordered read of
/// the backing store hands them over. The reader's results are exact
/// functions of the order given; this is the order the format intends.
pub open spec fn scan_ordered(pairs: Seq<(Vec<u8>, Vec<u8>)>) -> bool {
    forall|i: int, j: int|
        0 <= i < j < pairs.len() ==> lex_le((#[trigger] pairs[i]).0@, (#[trigger] pairs[j]).0@)
}

/// The value stored under the first pair whose key is `kb`.
pub open spec fn find_value(pairs: Seq<(Vec<u8>, Vec<u8>)>, kb: Seq<u8>) -> Option<Seq<u8>>
    decreases pairs.len(),
{
    if pairs.len() == 0 {
        None
    } else if pairs[0].0@ == kb {
        Some(pairs[0].1@)
    } else {
        find_value(pairs.drop_first(), kb)
    }
}

/// Adding pairs at the end does not change what an earlier key finds.
pub proof fn lemma_find_value_push(pairs: Seq<(Vec<u8>, Vec<u8>)>, kb: Seq<u8>, p: (Vec<u8>, Vec<u8>))
    requires
        find_value(pairs, kb) is Some,
    ensures
        find_value(pairs.push(p), kb) == find_value(pairs, kb),
    decreases pairs.len(),
{
    if pairs.len() > 0 {
        assert(pairs.push(p)[0] == pairs[0]);
        if pairs[0].0@ == kb {
        } else {
            assert(pairs.push(p).drop_first() =~= pairs.drop_first().push(p));
            lemma_find_value_push(pairs.drop_first(), kb, p);
        }
    }
}

/// A key none of the pairs holds finds nothing.
pub proof fn lemma_find_value_none_no_key(pairs: Seq<(Vec<u8>, Vec<u8>)>, kb: Seq<u8>)
    requires
        forall|j: int| 0 <= j < pairs.len() ==> (#[trigger] pairs[j]).0@ != kb,
    ensures
        find_value(pairs, kb) is None,
    decreases pairs.len(),
{
    if pairs.len() > 0 {
        assert(pairs[0].0@ != kb);
        assert(forall|j: int|
            0 <= j < pairs.drop_first().len() ==> (#[trigger] pairs.drop_first()[j]).0@ != kb);
        lemma_find_value_none_no_key(pairs.drop_first(), kb);
    }
}

/// Appending a pair whose key was absent makes it the one that is found.
pub proof fn lemma_find_value_push_hit(
    pairs: Seq<(Vec<u8>, Vec<u8>)>,
    kb: Seq<u8>,
    p: (Vec<u8>, Vec<u8>),
)
    requires
        find_value(pairs, kb) is None,
        p.0@ == kb,
    ensures
        find_value(pairs.push(p), kb) == Some(p.1@),
    decreases pairs.len(),
{
    if pairs.len() == 0 {
        assert(pairs.push(p)[0] == p);
    } else {
        assert(pairs.push(p)[0] == pairs[0]);
        assert(pairs.push(p).drop_first() =~= pairs.drop_first().push(p));
        lemma_find_value_push_hit(pairs.drop_first(), kb, p);
    }
}

/// The first match decides: with no earlier pair holding `kb`, the `j`-th
/// pair's value is what is found.
pub proof fn lemma_find_value_at(pairs: Seq<(Vec<u8>, Vec<u8>)>, kb: Seq<u8>, j: int)
    requires
        0 <= j < pairs.len(),
        forall|j2: int| 0 <= j2 < j ==> (#[trigger] pairs[j2]).0@ != kb,
        pairs[j].0@ == kb,
    ensures
        find_value(pairs, kb) == Some(pairs[j].1@),
    decreases j,
{
    if j == 0 {
    } else {
        assert(pairs[0].0@ != kb);
        assert(forall|j2: int|
            0 <= j2 < j - 1 ==> (#[trigger] pairs.drop_first()[j2]).0@ != kb);
        assert(pairs.drop_first()[j - 1] == pairs[j]);
        lemma_find_value_at(pairs.drop_first(), kb, j - 1);
    }
}

/// Byte-for-byte equality of two byte strings.
pub fn bytes_eq(a: &[u8], b: &[u8]) -> (r: bool)
    ensures
        r == (a@ == b@),
{
    if a.len() != b.len() {
        proof {
            assert(a@ != b@);
        }
        return false;
    }
    let n = a.len();
    let mut i: usize = 0;
    while i < n
        invariant
            i <= n,
            n == a@.len(),
            n == b@.len(),
            forall|k: int| 0 <= k < i ==> a@[k] == b@[k],
        decreases n - i,
    {
        if a[i] != b[i] {
            proof {
                assert(a@[i as int] != b@[i as int]);
            }
            return false;
        }
        i = i + 1;
    }
    proof {
        assert(a@ =~= b@);
    }
    true
}

/// Finds the value stored under `kb`, scanning in store order.
fn lookup<'a>(pairs: &'a Vec<(Vec<u8>, Vec<u8>)>, kb: &[u8]) -> (r: Option<&'a Vec<u8>>)
    ensures
        match r {
            None => find_value(pairs@, kb@) is None,
            Some(v) => find_value(pairs@, kb@) == Some(v@),
        },
{
    let n = pairs.len();
    let mut i: usize = 0;
    proof {
        assert(pairs@.skip(0) =~= pairs@);
    }
    while i < n
        invariant
            i <= n,
            n == pairs@.len(),
            find_value(pairs@.skip(i as int), kb@) == find_value(pairs@, kb@),
        decreases n - i,
    {
        if bytes_eq(pairs[i].0.as_slice(), kb) {
            proof {
                assert(pairs@.skip(i as int)[0] == pairs@[i as int]);
            }
            return Some(&pairs[i].1);
        }
        proof {
            assert(pairs@.skip(i as int)[0] == pairs@[i as int]);
            assert(pairs@.skip(i as int).drop_first() =~= pairs@.skip(i + 1));
        }
        i = i + 1;
    }
    proof {
        assert(pairs@.skip(n as int) =~= Seq::<(Vec<u8>, Vec<u8>)>::empty());
    }
    None
}

/// The bin boundaries a store's pairs carry: the reserved row's value read
/// as packed little-endian words, or none if the row is absent.
pub open spec fn bounds_of(pairs: Seq<(Vec<u8>, Vec<u8>)>) -> Seq<u32> {
    match find_value(pairs, bounds_key_bytes()) {
        None => seq![],
        Some(v) => sd_ids(v, 0, v.len() as int),
    }
}

/// An immutable reader over a closed store. The pairs are scanned in the
/// order given: hand them ascending by encoded key ([`scan_ordered`]), as a
/// key-ordered read of the backing store does, and the scan walks the key
/// space ascending as the format intends ([`crate::laws`] proves the
/// listing consequence).
pub struct GridStore {
    /// The store's key/value pairs, in store order.
    pub pairs: Vec<(Vec<u8>, Vec<u8>)>,
    /// The phrase-id boundaries of the precomputed prefix bins.
    pub bin_boundaries: Vec<u32>,
    /// The tile zoom the stored coordinates live at.
    pub zoom: u16,
    /// The index type this store holds (carried for the query planner).
    pub type_id: u16,
    /// The configured proximity radius.
    pub coalesce_radius: u32,
    /// The coverage of this store (carried for the query planner).
    pub bboxes: Vec<[u16; 4]>,
    /// The highest score in the store (carried for the query planner).
    pub max_score: u32,
}

impl GridStore {
    /// The arithmetic headroom the scoring needs: tile coordinates are 16
    /// bits, so zooms stop at 16, and the radius keeps scoredists under 48
    /// bits.
    pub open spec fn wf(self) -> bool {
        self.zoom <= 16 && self.coalesce_radius <= 4000000
    }

    /// Opens a reader over the given pairs with the given options; the bin
    /// boundaries are read from the reserved row.
    pub fn new_with_options(
        data: Vec<(Vec<u8>, Vec<u8>)>,
        zoom: u16,
        type_id: u16,
        coalesce_radius: u32,
        bboxes: Vec<[u16; 4]>,
        max_score: u32,
    ) -> (r: GridStore)
        requires
            zoom <= 16,
            coalesce_radius <= 4000000,
        ensures
            r.wf(),
            r.pairs@ == data@,
            r.bin_boundaries@ == bounds_of(data@),
            r.zoom == zoom && r.type_id == type_id && r.coalesce_radius == coalesce_radius,
            r.bboxes@ == bboxes@ && r.max_score == max_score,
    {
        let bk = bounds_key();
        let bin_boundaries: Vec<u32> = match lookup(&data, bk.as_slice()) {
            None => Vec::new(),
            Some(v) => decode_ids(v.as_slice(), 0, v.len()),
        };
        proof {
            assert(bounds_of(data@) =~= bin_boundaries@);
        }
        GridStore { pairs: data, bin_boundaries, zoom, type_id, coalesce_radius, bboxes, max_score }
    }

    /// Opens a reader with the default options: zoom 6, type 0, no
    /// proximity radius, the whole zoom-6 grid, no score ceiling.
    pub fn new(data: Vec<(Vec<u8>, Vec<u8>)>) -> (r: GridStore)
        ensures
            r.wf(),
            r.pairs@ == data@,
            r.bin_boundaries@ == bounds_of(data@),
            r.zoom == 6 && r.type_id == 0 && r.coalesce_radius == 0,
            r.bboxes@.len() == 1,
            r.bboxes@[0][0] == 0 && r.bboxes@[0][1] == 0 && r.bboxes@[0][2] == 63
                && r.bboxes@[0][3] == 63,
            r.max_score == 0,
    {
        let bboxes = vec![[0u16, 0u16, 63u16, 63u16]];
        assert(bboxes@[0][0] == 0 && bboxes@[0][1] == 0 && bboxes@[0][2] == 63 && bboxes@[0][3]
            == 63);
        GridStore::new_with_options(data, 6, 0, 0, bboxes, 0)
    }

    /// Whether queries against this store may be expensive.
    pub fn might_be_slow(&self) -> (r: bool)
        ensures
            r == (self.zoom >= 14),
    {
        self.zoom >= 14
    }

    /// Fetches one phrase's entries: `Ok(None)` when the key is absent,
    /// `Err` when its record does not decode, and otherwise the entries in
    /// the record's stored order.
    pub fn get(&self, key: &GridKey) -> (r: Result<Option<Vec<GridEntry>>, GridError>)
        ensures
            match find_value(self.pairs@, enc_key(TypeMarker::SinglePhrase, *key)) {
                None => r matches Ok(ro) && ro is None,
                Some(v) => match spec_decode_record(v) {
                    None => r matches Err(e) && e == GridError::CorruptRecord,
                    Some(ms) => r matches Ok(ro) && ro matches Some(es) && es@
                        == entries_of_record(ms),
                },
            },
    {
        let kb = crate::keys::encode_key(TypeMarker::SinglePhrase, key);
        match lookup(&self.pairs, kb.as_slice()) {
            None => Ok(None),
            Some(v) => match decode_record(v.as_slice()) {
                Ok(buckets) => Ok(Some(expand_record(&buckets))),
                Err(e) => Err(e),
            },
        }
    }

    /// The grid keys of all rows, in store order; `Err` when a stored key
    /// does not parse.
    pub fn keys(&self) -> (r: Result<Vec<GridKey>, GridError>)
        ensures
            match r {
                Ok(ks) => parse_keys_spec(self.pairs@, 0) == Some(ks@),
                Err(e) => parse_keys_spec(self.pairs@, 0) is None && e == GridError::CorruptRecord,
            },
    {
        let n = self.pairs.len();
        let mut out: Vec<GridKey> = Vec::new();
        let mut i: usize = 0;
        while i < n
            invariant
                i <= n,
                n == self.pairs@.len(),
                glue_keys(out@, parse_keys_spec(self.pairs@, i as int)) == parse_keys_spec(
                    self.pairs@,
                    0,
                ),
            decreases n - i,
        {
            let ghost done = out@;
            match parse_key(self.pairs[i].0.as_slice()) {
                Ok(k) => {
                    out.push(k);
                    proof {
                        match parse_keys_spec(self.pairs@, i + 1) {
                            None => {},
                            Some(rest) => {
                                assert(done + (seq![k] + rest) =~= done.push(k) + rest);
                            },
                        }
                    }
                },
                Err(e) => {
                    return Err(e);
                },
            }
            i = i + 1;
        }
        proof {
            assert(out@ + Seq::<GridKey>::empty() =~= out@);
        }
        Ok(out)
    }

    /// Every row as a parsed key and its decoded entries, in store order.
    pub fn iter(&self) -> (r: Result<Vec<(GridKey, Vec<GridEntry>)>, GridError>)
        ensures
            match r {
                Ok(rows) => iter_spec(self.pairs@, 0) == Some(
                    rows@.map_values(|p: (GridKey, Vec<GridEntry>)| (p.0, p.1@)),
                ),
                Err(e) => iter_spec(self.pairs@, 0) is None,
            },
    {
        let n = self.pairs.len();
        let mut out: Vec<(GridKey, Vec<GridEntry>)> = Vec::new();
        let mut i: usize = 0;
        while i < n
            invariant
                i <= n,
                n == self.pairs@.len(),
                glue_rows(
                    out@.map_values(|p: (GridKey, Vec<GridEntry>)| (p.0, p.1@)),
                    iter_spec(self.pairs@, i as int),
                ) == iter_spec(self.pairs@, 0),
            decreases n - i,
        {
            let ghost done = out@.map_values(|p: (GridKey, Vec<GridEntry>)| (p.0, p.1@));
            let k = match parse_key(self.pairs[i].0.as_slice()) {
                Ok(k) => k,
                Err(e) => {
                    return Err(e);
                },
            };
            let buckets = match decode_record(self.pairs[i].1.as_slice()) {
                Ok(b) => b,
                Err(e) => {
                    return Err(e);
                },
            };
            let es = expand_record(&buckets);
            out.push((k, es));
            proof {
                let row = (k, entries_of_record(spec_decode_record(self.pairs@[i as int].1@)->Some_0));
                assert(out@.map_values(|p: (GridKey, Vec<GridEntry>)| (p.0, p.1@)) =~= done.push(
                    row,
                ));
                match iter_spec(self.pairs@, i + 1) {
                    None => {},
                    Some(rest) => {
                        assert(done + (seq![row] + rest) =~= done.push(row) + rest);
                    },
                }
            }
            i = i + 1;
        }
        proof {
            let mapped = out@.map_values(|p: (GridKey, Vec<GridEntry>)| (p.0, p.1@));
            assert(mapped + Seq::<(GridKey, Seq<GridEntry>)>::empty() =~= mapped);
        }
        Ok(out)
    }
}

/// The parsed keys of the rows from `i` on, or `None` if one does not parse.
pub open spec fn parse_keys_spec(pairs: Seq<(Vec<u8>, Vec<u8>)>, i: int) -> Option<Seq<GridKey>>
    decreases pairs.len() - i,
{
    if i < 0 || i >= pairs.len() {
        Some(seq![])
    } else {
        match parse_key_spec(pairs[i].0@) {
            None => None,
            Some(k) => match parse_keys_spec(pairs, i + 1) {
                None => None,
                Some(rest) => Some(seq![k] + rest),
            },
        }
    }
}

spec fn glue_keys(acc: Seq<GridKey>, r: Option<Seq<GridKey>>) -> Option<Seq<GridKey>> {
    match r {
        None => None,
        Some(s) => Some(acc + s),
    }
}

/// The parsed and decoded rows from `i` on, or `None` if a key or record is
/// corrupt.
pub open spec fn iter_spec(pairs: Seq<(Vec<u8>, Vec<u8>)>, i: int) -> Option<
    Seq<(GridKey, Seq<GridEntry>)>,
>
    decreases pairs.len() - i,
{
    if i < 0 || i >= pairs.len() {
        Some(seq![])
    } else {
        match parse_key_spec(pairs[i].0@) {
            None => None,
            Some(k) => match spec_decode_record(pairs[i].1@) {
                None => None,
                Some(ms) => match iter_spec(pairs, i + 1) {
                    None => None,
                    Some(rest) => Some(seq![(k, entries_of_record(ms))] + rest),
                },
            },
        }
    }
}

spec fn glue_rows(acc: Seq<(GridKey, Seq<GridEntry>)>, r: Option<Seq<(GridKey, Seq<GridEntry>)>>) -> Option<
    Seq<(GridKey, Seq<GridEntry>)>,
> {
    match r {
        None => None,
        Some(s) => Some(acc + s),
    }
}

// ---------------------------------------------------------------------------
// The top-K streaming merger
// ---------------------------------------------------------------------------
/// The minimum of a queue under the lexicographic `(rank, slot)` order.
pub open spec fn mset_min(q: Multiset<(u128, usize)>) -> (u128, usize) {
    choose|m: (u128, usize)|
        q.count(m) > 0 && forall|e: (u128, usize)| q.count(e) > 0 ==> tup_le(m, e)
}

/// The maximum of a queue under the lexicographic `(rank, slot)` order.
pub open spec fn mset_max(q: Multiset<(u128, usize)>) -> (u128, usize) {
    choose|m: (u128, usize)|
        q.count(m) > 0 && forall|e: (u128, usize)| q.count(e) > 0 ==> tup_le(e, m)
}

/// A nonempty queue has a maximum (and it is what `mset_max` names).
pub proof fn lemma_mset_max_exists(q: Multiset<(u128, usize)>)
    requires
        q.len() > 0,
    ensures
        q.count(mset_max(q)) > 0,
        forall|e: (u128, usize)| q.count(e) > 0 ==> tup_le(e, mset_max(q)),
    decreases q.len(),
{
    broadcast use vstd::multiset::group_multiset_axioms;

    let x = q.choose();
    let q2 = q.remove(x);
    if q2.len() == 0 {
        assert forall|e: (u128, usize)| q.count(e) > 0 implies tup_le(e, x) by {
            if e != x {
                assert(q2.count(e) == q.count(e));
                assert(q2.count(e) <= q2.len());
            }
        }
        assert(q.count(x) > 0 && forall|e: (u128, usize)| q.count(e) > 0 ==> tup_le(e, x));
    } else {
        lemma_mset_max_exists(q2);
        let m2 = mset_max(q2);
        let m = if tup_le(m2, x) {
            x
        } else {
            m2
        };
        assert forall|e: (u128, usize)| q.count(e) > 0 implies tup_le(e, m) by {
            if e == x {
                if tup_le(m2, x) {
                } else {
                    assert(tup_le(x, m2));
                }
            } else {
                assert(q2.count(e) == q.count(e));
                assert(tup_le(e, m2));
            }
        }
        assert(q.count(m) > 0) by {
            if m != x {
                assert(q.count(m) >= q2.count(m));
            }
        }
        assert(q.count(m) > 0 && forall|e: (u128, usize)| q.count(e) > 0 ==> tup_le(e, m));
    }
}

/// A nonempty queue has a minimum (and it is what `mset_min` names).
pub proof fn lemma_mset_min_exists(q: Multiset<(u128, usize)>)
    requires
        q.len() > 0,
    ensures
        q.count(mset_min(q)) > 0,
        forall|e: (u128, usize)| q.count(e) > 0 ==> tup_le(mset_min(q), e),
    decreases q.len(),
{
    broadcast use vstd::multiset::group_multiset_axioms;

    let x = q.choose();
    let q2 = q.remove(x);
    if q2.len() == 0 {
        assert forall|e: (u128, usize)| q.count(e) > 0 implies tup_le(x, e) by {
            if e != x {
                assert(q2.count(e) == q.count(e));
                assert(q2.count(e) <= q2.len());
            }
        }
        assert(q.count(x) > 0 && forall|e: (u128, usize)| q.count(e) > 0 ==> tup_le(x, e));
    } else {
        lemma_mset_min_exists(q2);
        let m2 = mset_min(q2);
        let m = if tup_le(x, m2) {
            x
        } else {
            m2
        };
        assert forall|e: (u128, usize)| q.count(e) > 0 implies tup_le(m, e) by {
            if e == x {
                if tup_le(x, m2) {
                } else {
                    assert(tup_le(m2, x));
                }
            } else {
                assert(q2.count(e) == q.count(e));
                assert(tup_le(m2, e));
            }
        }
        assert(q.count(m) > 0) by {
            if m != x {
                assert(q.count(m) >= q2.count(m));
            }
        }
        assert(q.count(m) > 0 && forall|e: (u128, usize)| q.count(e) > 0 ==> tup_le(m, e));
    }
}

/// Any element at least as large as every element is the maximum.
pub proof fn lemma_mset_max_agrees(q: Multiset<(u128, usize)>, m: (u128, usize))
    requires
        q.count(m) > 0,
        forall|e: (u128, usize)| q.count(e) > 0 ==> tup_le(e, m),
    ensures
        mset_max(q) == m,
{
    broadcast use vstd::multiset::group_multiset_axioms;

    assert(q.len() > 0) by {
        assert(q.count(m) <= q.len());
    }
    lemma_mset_max_exists(q);
    let c = mset_max(q);
    assert(tup_le(c, m) && tup_le(m, c));
}

/// Any element at most as large as every element is the minimum.
pub proof fn lemma_mset_min_agrees(q: Multiset<(u128, usize)>, m: (u128, usize))
    requires
        q.count(m) > 0,
        forall|e: (u128, usize)| q.count(e) > 0 ==> tup_le(m, e),
    ensures
        mset_min(q) == m,
{
    broadcast use vstd::multiset::group_multiset_axioms;

    assert(q.len() > 0) by {
        assert(q.count(m) <= q.len());
    }
    lemma_mset_min_exists(q);
    let c = mset_min(q);
    assert(tup_le(c, m) && tup_le(m, c));
}

/// The queue's elements in descending order: the drain order of the merger.
pub open spec fn mset_drain(q: Multiset<(u128, usize)>) -> Seq<(u128, usize)>
    decreases q.len(),
    via mset_drain_decreases
{
    if q.len() == 0 {
        seq![]
    } else {
        seq![mset_max(q)] + mset_drain(q.remove(mset_max(q)))
    }
}

#[via_fn]
proof fn mset_drain_decreases(q: Multiset<(u128, usize)>) {
    broadcast use vstd::multiset::group_multiset_axioms;

    if q.len() > 0 {
        lemma_mset_max_exists(q);
    }
}

/// The concatenation of the selected streams, in drain order.
pub open spec fn concat_sel(
    streams: Seq<Seq<MatchEntry>>,
    order: Seq<(u128, usize)>,
    k: int,
) -> Seq<MatchEntry>
    decreases order.len() - k,
{
    if k < 0 || k >= order.len() {
        seq![]
    } else {
        streams[order[k].1 as int] + concat_sel(streams, order, k + 1)
    }
}

/// Draining one more slot appends its stream.
pub proof fn lemma_concat_sel_push(
    streams: Seq<Seq<MatchEntry>>,
    order: Seq<(u128, usize)>,
    m: (u128, usize),
    k: int,
)
    requires
        0 <= k <= order.len(),
    ensures
        concat_sel(streams, order.push(m), k) == concat_sel(streams, order, k) + streams[m.1 as int],
    decreases order.len() - k,
{
    if k == order.len() {
        assert(order.push(m)[k] == m);
        assert(concat_sel(streams, order.push(m), k + 1) =~= seq![]);
        assert(concat_sel(streams, order.push(m), k) =~= concat_sel(streams, order, k)
            + streams[m.1 as int]);
    } else {
        assert(order.push(m)[k] == order[k]);
        lemma_concat_sel_push(streams, order, m, k + 1);
        assert(concat_sel(streams, order.push(m), k) =~= concat_sel(streams, order, k)
            + streams[m.1 as int]);
    }
}

/// Inserts a match entry into a rank-descending sequence, after equals.
pub open spec fn insert_rank(s: Seq<MatchEntry>, x: MatchEntry) -> Seq<MatchEntry>
    decreases s.len(),
{
    if s.len() == 0 {
        seq![x]
    } else if rank_of(x) > rank_of(s[0]) {
        seq![x] + s
    } else {
        seq![s[0]] + insert_rank(s.drop_first(), x)
    }
}

/// The entries ordered by descending composite rank, stably.
pub open spec fn sort_rank(s: Seq<MatchEntry>) -> Seq<MatchEntry>
    decreases s.len(),
{
    if s.len() == 0 {
        seq![]
    } else {
        insert_rank(sort_rank(s.drop_last()), s.last())
    }
}

proof fn lemma_insert_rank_at(s: Seq<MatchEntry>, x: MatchEntry, idx: int)
    requires
        0 <= idx <= s.len(),
        forall|k: int| 0 <= k < idx ==> !(rank_of(x) > rank_of(s[k])),
        idx < s.len() ==> rank_of(x) > rank_of(s[idx]),
    ensures
        insert_rank(s, x) == s.insert(idx, x),
    decreases s.len(),
{
    if s.len() == 0 {
        assert(insert_rank(s, x) =~= s.insert(0, x));
    } else if rank_of(x) > rank_of(s[0]) {
        assert(idx == 0);
        assert(insert_rank(s, x) =~= s.insert(0, x));
    } else {
        assert(idx >= 1);
        assert(forall|k: int|
            0 <= k < idx - 1 ==> !(rank_of(x) > rank_of(#[trigger] s.drop_first()[k])));
        lemma_insert_rank_at(s.drop_first(), x, idx - 1);
        assert(seq![s[0]] + s.drop_first().insert(idx - 1, x) =~= s.insert(idx, x));
    }
}

/// Membership is preserved by rank insertion.
pub proof fn lemma_insert_rank_elems(s: Seq<MatchEntry>, x: MatchEntry)
    ensures
        forall|i: int|
            0 <= i < insert_rank(s, x).len() ==> (insert_rank(s, x)[i] == x || exists|j: int|
                0 <= j < s.len() && s[j] == #[trigger] insert_rank(s, x)[i]),
    decreases s.len(),
{
    if s.len() == 0 {
    } else if rank_of(x) > rank_of(s[0]) {
        assert forall|i: int| 0 <= i < insert_rank(s, x).len() implies (insert_rank(s, x)[i] == x
            || exists|j: int| 0 <= j < s.len() && s[j] == #[trigger] insert_rank(s, x)[i]) by {
            if i > 0 {
                assert(s[i - 1] == insert_rank(s, x)[i]);
            }
        }
    } else {
        lemma_insert_rank_elems(s.drop_first(), x);
        let inner = insert_rank(s.drop_first(), x);
        assert forall|i: int| 0 <= i < insert_rank(s, x).len() implies (insert_rank(s, x)[i] == x
            || exists|j: int| 0 <= j < s.len() && s[j] == #[trigger] insert_rank(s, x)[i]) by {
            if i == 0 {
                assert(s[0] == insert_rank(s, x)[0]);
            } else {
                assert(insert_rank(s, x)[i] == inner[i - 1]);
                if inner[i - 1] == x {
                } else {
                    let j = choose|j: int| 0 <= j < s.drop_first().len() && s.drop_first()[j]
                        == inner[i - 1];
                    assert(s[j + 1] == inner[i - 1]);
                }
            }
        }
    }
}

/// Inserts into a rank-descending vector, after any equal ranks.
fn insert_rank_exec(v: &mut Vec<MatchEntry>, x: MatchEntry)
    requires
        me_wf(x),
        forall|i: int| 0 <= i < old(v)@.len() ==> me_wf(#[trigger] old(v)@[i]),
    ensures
        final(v)@ == insert_rank(old(v)@, x),
        forall|i: int| 0 <= i < final(v)@.len() ==> me_wf(#[trigger] final(v)@[i]),
{
    let ghost s = old(v)@;
    let xk = rank_of_entry(&x);
    let mut idx: usize = 0;
    let n = v.len();
    while idx < n
        invariant
            0 <= idx <= n,
            n == v@.len(),
            v@ == s,
            s == old(v)@,
            me_wf(x),
            xk == rank_of(x),
            forall|i: int| 0 <= i < s.len() ==> me_wf(#[trigger] s[i]),
            forall|k: int| 0 <= k < idx ==> !(rank_of(x) > rank_of(s[k])),
        decreases n - idx,
    {
        let ck = rank_of_entry(&v[idx]);
        if xk > ck {
            v.insert(idx, x);
            proof {
                lemma_insert_rank_at(s, x, idx as int);
                lemma_insert_rank_elems(s, x);
            }
            return ;
        }
        idx = idx + 1;
    }
    v.push(x);
    proof {
        lemma_insert_rank_at(s, x, s.len() as int);
        assert(s.insert(s.len() as int, x) =~= s.push(x));
        lemma_insert_rank_elems(s, x);
    }
}

/// Orders the drained entries by descending composite rank, stably.
fn sort_rank_exec(v: Vec<MatchEntry>) -> (r: Vec<MatchEntry>)
    requires
        forall|i: int| 0 <= i < v@.len() ==> me_wf(#[trigger] v@[i]),
    ensures
        r@ == sort_rank(v@),
        forall|i: int| 0 <= i < r@.len() ==> me_wf(#[trigger] r@[i]),
{
    let mut out: Vec<MatchEntry> = Vec::new();
    let n = v.len();
    let mut i: usize = 0;
    while i < n
        invariant
            i <= n,
            n == v@.len(),
            forall|k: int| 0 <= k < v@.len() ==> me_wf(#[trigger] v@[k]),
            out@ == sort_rank(v@.take(i as int)),
            forall|k: int| 0 <= k < out@.len() ==> me_wf(#[trigger] out@[k]),
        decreases n - i,
    {
        insert_rank_exec(&mut out, v[i]);
        proof {
            assert(v@.take(i + 1).drop_last() =~= v@.take(i as int));
            assert(v@.take(i + 1).last() == v@[i as int]);
        }
        i = i + 1;
    }
    proof {
        assert(v@.take(n as int) =~= v@);
    }
    out
}

/// The phrase range and marker a query fetches: an exact phrase becomes the
/// one-phrase range; a range whose two ends are both bin boundaries is
/// served from the pre-merged prefix-bin records.
pub open spec fn spec_fetch_range(mk: MatchKey, bounds: Seq<u32>) -> (u32, u32, TypeMarker) {
    match mk.match_phrase {
        MatchPhrase::Exact(id) => (id, (id + 1) as u32, TypeMarker::SinglePhrase),
        MatchPhrase::Range { start, end } => if bounds.contains(start) && bounds.contains(end) {
            (start, end, TypeMarker::PrefixBin)
        } else {
            (start, end, TypeMarker::SinglePhrase)
        },
    }
}

/// Whether a word occurs in the boundary table.
fn contains_u32(v: &Vec<u32>, x: u32) -> (r: bool)
    ensures
        r == v@.contains(x),
{
    let n = v.len();
    let mut i: usize = 0;
    while i < n
        invariant
            i <= n,
            n == v@.len(),
            forall|k: int| 0 <= k < i ==> v@[k] != x,
        decreases n - i,
    {
        if v[i] == x {
            return true;
        }
        i = i + 1;
    }
    proof {
        assert(!v@.contains(x));
    }
    false
}

/// The admission scan: walks the pairs in store order, turns each record in
/// the fetched range into its match stream, and keeps at most `maxv` streams
/// in the queue keyed by the composite rank of their best entry; when the
/// queue is full, a stream whose best entry does not beat the current worst
/// is dropped whole, otherwise it replaces the worst.
pub open spec fn admission(
    pairs: Seq<(Vec<u8>, Vec<u8>)>,
    j: int,
    streams: Seq<Seq<MatchEntry>>,
    queue: Multiset<(u128, usize)>,
    marker: TypeMarker,
    start: u32,
    end: u32,
    qlang: u128,
    opts: MatchOpts,
    radius: u32,
    maxv: int,
) -> Result<(Seq<Seq<MatchEntry>>, Multiset<(u128, usize)>), GridError>
    decreases pairs.len() - j,
{
    if j < 0 || j >= pairs.len() {
        Ok((streams, queue))
    } else {
        let kb = pairs[j].0@;
        if kb.len() < 1 || kb[0] != marker_byte(marker) {
            admission(pairs, j + 1, streams, queue, marker, start, end, qlang, opts, radius, maxv)
        } else {
            match parse_key_spec(kb) {
                None => Err(GridError::CorruptRecord),
                Some(k) => if !(start <= k.phrase_id < end) {
                    admission(
                        pairs,
                        j + 1,
                        streams,
                        queue,
                        marker,
                        start,
                        end,
                        qlang,
                        opts,
                        radius,
                        maxv,
                    )
                } else {
                    match spec_decode_record(pairs[j].1@) {
                        None => Err(GridError::CorruptRecord),
                        Some(ms) => {
                            let ml = spec_matches_language(kb, qlang);
                            let stream = spec_match_stream(ms, opts, ml, radius);
                            if stream.len() == 0 {
                                admission(
                                    pairs,
                                    j + 1,
                                    streams,
                                    queue,
                                    marker,
                                    start,
                                    end,
                                    qlang,
                                    opts,
                                    radius,
                                    maxv,
                                )
                            } else {
                                let key = rank_of(stream[0]);
                                let idx = streams.len() as usize;
                                if queue.len() < maxv {
                                    admission(
                                        pairs,
                                        j + 1,
                                        streams.push(stream),
                                        queue.insert((key, idx)),
                                        marker,
                                        start,
                                        end,
                                        qlang,
                                        opts,
                                        radius,
                                        maxv,
                                    )
                                } else if maxv == 0 {
                                    admission(
                                        pairs,
                                        j + 1,
                                        streams,
                                        queue,
                                        marker,
                                        start,
                                        end,
                                        qlang,
                                        opts,
                                        radius,
                                        maxv,
                                    )
                                } else {
                                    let worst = mset_min(queue);
                                    if worst.0 >= key {
                                        admission(
                                            pairs,
                                            j + 1,
                                            streams,
                                            queue,
                                            marker,
                                            start,
                                            end,
                                            qlang,
                                            opts,
                                            radius,
                                            maxv,
                                        )
                                    } else {
                                        admission(
                                            pairs,
                                            j + 1,
                                            streams.push(stream),
                                            queue.remove(worst).insert((key, idx)),
                                            marker,
                                            start,
                                            end,
                                            qlang,
                                            opts,
                                            radius,
                                            maxv,
                                        )
                                    }
                                }
                            }
                        },
                    }
                },
            }
        }
    }
}

impl GridStore {
    /// The streaming query: scans the fetched phrase range in store order,
    /// admits up to `max_values` record streams into the double-ended queue
    /// by the composite rank of their best entries, and hands the surviving
    /// streams' entries back in descending composite rank.
    pub fn streaming_get_matching(
        &self,
        match_key: &MatchKey,
        match_opts: &MatchOpts,
        max_values: usize,
    ) -> (r: Result<Vec<MatchEntry>, GridError>)
        requires
            self.wf(),
            match_opts.zoom <= 16,
            match_key.match_phrase matches MatchPhrase::Exact(id) ==> id < 0xFFFFFFFFu32,
        ensures
            ({
                let (start, end, marker) = spec_fetch_range(*match_key, self.bin_boundaries@);
                let adm = admission(
                    self.pairs@,
                    0,
                    Seq::<Seq<MatchEntry>>::empty(),
                    Multiset::<(u128, usize)>::empty(),
                    marker,
                    start,
                    end,
                    match_key.lang_set,
                    *match_opts,
                    self.coalesce_radius,
                    max_values as int,
                );
                match r {
                    Ok(out) => adm matches Ok(sq) && out@ == sort_rank(
                        concat_sel(sq.0, mset_drain(sq.1), 0),
                    ),
                    Err(e) => adm matches Err(e2) && e == e2,
                }
            }),
            r matches Ok(out) ==> forall|i: int| 0 <= i < out@.len() ==> me_wf(#[trigger] out@[i]),
    {
        broadcast use vstd::multiset::group_multiset_axioms;

        let ghost bounds = self.bin_boundaries@;
        let fetch_start: u32;
        let fetch_end: u32;
        let marker: TypeMarker;
        match match_key.match_phrase {
            MatchPhrase::Exact(id) => {
                fetch_start = id;
                fetch_end = id + 1;
                marker = TypeMarker::SinglePhrase;
            },
            MatchPhrase::Range { start, end } => {
                fetch_start = start;
                fetch_end = end;
                if contains_u32(&self.bin_boundaries, start) && contains_u32(
                    &self.bin_boundaries,
                    end,
                ) {
                    marker = TypeMarker::PrefixBin;
                } else {
                    marker = TypeMarker::SinglePhrase;
                }
            },
        }
        proof {
            assert((fetch_start, fetch_end, marker) == spec_fetch_range(*match_key, bounds));
        }
        let mb = type_marker_byte(marker);
        let qlang = match_key.lang_set;
        let radius = self.coalesce_radius;
        let ghost params_opts = *match_opts;
        let mut tails: Vec<Vec<MatchEntry>> = Vec::new();
        let mut heap = crate::heap::heap_new();
        let n = self.pairs.len();
        let mut j: usize = 0;
        proof {
            assert(tails@.map_values(|v: Vec<MatchEntry>| v@) =~= Seq::<Seq<MatchEntry>>::empty());
        }
        while j < n
            invariant
                j <= n,
                n == self.pairs@.len(),
                self.wf(),
                params_opts == *match_opts,
                params_opts.zoom <= 16,
                radius == self.coalesce_radius,
                qlang == match_key.lang_set,
                mb == marker_byte(marker),
                (fetch_start, fetch_end, marker) == spec_fetch_range(
                    *match_key,
                    self.bin_boundaries@,
                ),
                admission(
                    self.pairs@,
                    j as int,
                    tails@.map_values(|v: Vec<MatchEntry>| v@),
                    heap_model(heap),
                    marker,
                    fetch_start,
                    fetch_end,
                    qlang,
                    params_opts,
                    radius,
                    max_values as int,
                ) == admission(
                    self.pairs@,
                    0,
                    Seq::<Seq<MatchEntry>>::empty(),
                    Multiset::<(u128, usize)>::empty(),
                    marker,
                    fetch_start,
                    fetch_end,
                    qlang,
                    params_opts,
                    radius,
                    max_values as int,
                ),
                forall|e: (u128, usize)|
                    #[trigger] heap_model(heap).count(e) > 0 ==> e.1 < tails@.len()
                        && tails@[e.1 as int]@.len() >= 1 && e.0 == rank_of(tails@[e.1 as int]@[0]),
                forall|t: int, i: int|
                    0 <= t < tails@.len() && 0 <= i < (#[trigger] tails@[t])@.len() ==> me_wf(
                        #[trigger] tails@[t]@[i],
                    ),
            decreases n - j,
        {
            let ghost streams0 = tails@.map_values(|v: Vec<MatchEntry>| v@);
            let ghost queue0 = heap_model(heap);
            let kb = &self.pairs[j].0;
            if kb.len() < 1 || kb.as_slice()[0] != mb {
                j = j + 1;
                continue ;
            }
            let k = match crate::keys::parse_key(kb.as_slice()) {
                Ok(k) => k,
                Err(e) => {
                    return Err(e);
                },
            };
            if !(fetch_start <= k.phrase_id && k.phrase_id < fetch_end) {
                j = j + 1;
                continue ;
            }
            let buckets = match decode_record(self.pairs[j].1.as_slice()) {
                Ok(b) => b,
                Err(e) => {
                    return Err(e);
                },
            };
            let ml = kb.len() == 5 || (k.lang_set & qlang != 0);
            proof {
                assert(ml == spec_matches_language(self.pairs@[j as int].0@, qlang));
                crate::codec::lemma_decode_nibble(self.pairs@[j as int].1@);
            }
            let stream = crate::matching::match_stream(&buckets, match_opts, ml, radius);
            if stream.len() == 0 {
                j = j + 1;
                continue ;
            }
            let key = rank_of_entry(&stream[0]);
            let idx = tails.len();
            let hl = crate::heap::heap_len(&heap);
            if hl < max_values {
                crate::heap::heap_push(&mut heap, (key, idx));
                tails.push(stream);
                proof {
                    assert(tails@.map_values(|v: Vec<MatchEntry>| v@) =~= streams0.push(
                        tails@.last()@,
                    ));
                }
            } else if max_values > 0 {
                match crate::heap::heap_peek_min(&heap) {
                    None => {
                        proof {
                            assert(false);
                        }
                    },
                    Some(worst) => {
                        proof {
                            lemma_mset_min_agrees(queue0, worst);
                        }
                        if worst.0 >= key {
                            // the record's best cannot beat the current worst
                        } else {
                            match crate::heap::heap_replace_min(&mut heap, (key, idx)) {
                                None => {
                                    proof {
                                        assert(false);
                                    }
                                },
                                Some(popped) => {
                                    proof {
                                        lemma_mset_min_agrees(queue0, popped);
                                    }
                                },
                            }
                            tails.push(stream);
                            proof {
                                assert(tails@.map_values(|v: Vec<MatchEntry>| v@) =~= streams0.push(
                                    tails@.last()@,
                                ));
                            }
                        }
                    },
                }
            }
            j = j + 1;
        }
        // drain: pop the queue empty in descending order, then hand the
        // selected streams' entries back ordered by composite rank
        let ghost streams_fin = tails@.map_values(|v: Vec<MatchEntry>| v@);
        let ghost queue_fin = heap_model(heap);
        let mut buf: Vec<MatchEntry> = Vec::new();
        let ghost mut order: Seq<(u128, usize)> = Seq::empty();
        loop
            invariant
                mset_drain(queue_fin) == order + mset_drain(heap_model(heap)),
                buf@ == concat_sel(streams_fin, order, 0),
                streams_fin == tails@.map_values(|v: Vec<MatchEntry>| v@),
                forall|e: (u128, usize)|
                    #[trigger] heap_model(heap).count(e) > 0 ==> e.1 < tails@.len(),
                forall|t: int, i: int|
                    0 <= t < tails@.len() && 0 <= i < (#[trigger] tails@[t])@.len() ==> me_wf(
                        #[trigger] tails@[t]@[i],
                    ),
                forall|i: int| 0 <= i < buf@.len() ==> me_wf(#[trigger] buf@[i]),
            ensures
                heap_model(heap).len() == 0,
                mset_drain(queue_fin) == order,
                buf@ == concat_sel(streams_fin, order, 0),
                forall|i: int| 0 <= i < buf@.len() ==> me_wf(#[trigger] buf@[i]),
            decreases heap_model(heap).len(),
        {
            let ghost q_before = heap_model(heap);
            match crate::heap::heap_pop_max(&mut heap) {
                None => {
                    proof {
                        assert(mset_drain(q_before) =~= Seq::<(u128, usize)>::empty());
                        assert(order + Seq::<(u128, usize)>::empty() =~= order);
                    }
                    break ;
                },
                Some(m) => {
                    proof {
                        lemma_mset_max_agrees(q_before, m);
                        assert(mset_drain(q_before) == seq![m] + mset_drain(q_before.remove(m)));
                        lemma_concat_sel_push(streams_fin, order, m, 0);
                        assert(order + (seq![m] + mset_drain(q_before.remove(m))) =~= order.push(m)
                            + mset_drain(q_before.remove(m)));
                    }
                    let ghost buf0 = buf@;
                    let src = &tails[m.1];
                    let sn = src.len();
                    let mut t: usize = 0;
                    while t < sn
                        invariant
                            t <= sn,
                            sn == src@.len(),
                            src == &tails@[m.1 as int],
                            src@ == streams_fin[m.1 as int],
                            buf@ == buf0 + src@.take(t as int),
                            forall|i: int| 0 <= i < src@.len() ==> me_wf(#[trigger] src@[i]),
                            forall|i: int| 0 <= i < buf0.len() ==> me_wf(#[trigger] buf0[i]),
                        decreases sn - t,
                    {
                        buf.push(src[t]);
                        proof {
                            assert(src@.take(t + 1) =~= src@.take(t as int).push(src@[t as int]));
                        }
                        t = t + 1;
                    }
                    proof {
                        assert(src@.take(sn as int) =~= src@);
                        order = order.push(m);
                    }
                },
            }
        }
        let out = sort_rank_exec(buf);
        Ok(out)
    }
}

} // verus!
