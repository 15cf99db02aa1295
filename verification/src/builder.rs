//! The builder: collects entries per key, optionally renumbers ids and
//! records bin boundaries, and lays the closed store out as key/value pairs.
//! Each record holds its entries in natural descending order with duplicates
//! collapsed; for every pair of consecutive bin boundaries a pre-merged
//! record is written per language set under the prefix-bin marker.

use vstd::prelude::*;

use crate::GridEntry;
use crate::GridError;
use crate::GridKey;
use crate::codec::encode_record;
use crate::codec::entries_of_record;
use crate::codec::spec_decode_record;
use crate::codec::lemma_record_roundtrip;
use crate::bytes::push_le32;
use crate::codec::enc_ids;
use crate::keys::TypeMarker;
use crate::keys::enc_key;
use crate::keys::encode_key;
use crate::keys::lemma_enc_key_injective;
use crate::keys::lemma_enc_key_marker;
use crate::keys::marker_byte;
use crate::sorting::build_record;
use crate::sorting::sort_e;
use crate::sorting::sort_entries;
use crate::store::bounds_key;
use crate::store::bounds_key_bytes;
use crate::store::bounds_of;
use crate::store::find_value;
use crate::store::lemma_find_value_none_no_key;
use crate::store::lemma_find_value_push;
use crate::store::lemma_find_value_push_hit;

verus! {

/// What a store's pairs say about one key under one marker: the decoded
/// entries of the first record stored under its encoding.
pub open spec fn stored_under(
    pairs: Seq<(Vec<u8>, Vec<u8>)>,
    marker: TypeMarker,
    k: GridKey,
) -> Option<Seq<GridEntry>> {
    match find_value(pairs, enc_key(marker, k)) {
        None => None,
        Some(v) => match spec_decode_record(v) {
            None => None,
            Some(ms) => Some(entries_of_record(ms)),
        },
    }
}

/// What a store's pairs say about one collected key: the decoded entries of
/// the first single-phrase record stored under it.
pub open spec fn stored_entries(pairs: Seq<(Vec<u8>, Vec<u8>)>, k: GridKey) -> Option<
    Seq<GridEntry>,
> {
    stored_under(pairs, TypeMarker::SinglePhrase, k)
}

/// The number of entries collected over the first `t` keys.
pub open spec fn total_entries(m: Seq<(GridKey, Seq<GridEntry>)>, t: int) -> int
    decreases t,
{
    if t <= 0 {
        0
    } else {
        total_entries(m, t - 1) + m[t - 1].1.len()
    }
}

/// The entries of the first `t` collected keys whose phrase lies in
/// `[lo, hi)` and whose language set is `lang`, in collection order: what a
/// pre-merged prefix-bin record for that span and language holds before
/// sorting.
pub open spec fn span_lang_entries(
    m: Seq<(GridKey, Seq<GridEntry>)>,
    lo: u32,
    hi: u32,
    lang: u128,
    t: int,
) -> Seq<GridEntry>
    decreases t,
{
    if t <= 0 {
        seq![]
    } else {
        let prev = span_lang_entries(m, lo, hi, lang, t - 1);
        if lo <= m[t - 1].0.phrase_id < hi && m[t - 1].0.lang_set == lang {
            prev + m[t - 1].1
        } else {
            prev
        }
    }
}

/// Whether one of the first `t` collected keys lies in `[lo, hi)` with this
/// language set.
pub open spec fn span_has_lang(
    m: Seq<(GridKey, Seq<GridEntry>)>,
    lo: u32,
    hi: u32,
    lang: u128,
    t: int,
) -> bool
    decreases t,
{
    if t <= 0 {
        false
    } else {
        (lo <= m[t - 1].0.phrase_id < hi && m[t - 1].0.lang_set == lang) || span_has_lang(
            m,
            lo,
            hi,
            lang,
            t - 1,
        )
    }
}

/// A language no key in the span carries contributes nothing.
proof fn lemma_span_no_lang_empty(m: Seq<(GridKey, Seq<GridEntry>)>, lo: u32, hi: u32, lang: u128, t: int)
    requires
        !span_has_lang(m, lo, hi, lang, t),
    ensures
        span_lang_entries(m, lo, hi, lang, t) == Seq::<GridEntry>::empty(),
    decreases t,
{
    if t > 0 {
        lemma_span_no_lang_empty(m, lo, hi, lang, t - 1);
        assert(span_lang_entries(m, lo, hi, lang, t) =~= Seq::<GridEntry>::empty());
    } else {
        assert(span_lang_entries(m, lo, hi, lang, t) =~= Seq::<GridEntry>::empty());
    }
}

/// An empty span holds no language.
proof fn lemma_empty_span(m: Seq<(GridKey, Seq<GridEntry>)>, lo: u32, hi: u32, lang: u128, t: int)
    requires
        hi <= lo,
    ensures
        !span_has_lang(m, lo, hi, lang, t),
    decreases t,
{
    if t > 0 {
        lemma_empty_span(m, lo, hi, lang, t - 1);
    }
}

/// A span's entries are valid and no more numerous than everything
/// collected.
pub proof fn lemma_span_entries_bound(
    m: Seq<(GridKey, Seq<GridEntry>)>,
    lo: u32,
    hi: u32,
    lang: u128,
    t: int,
)
    requires
        t <= m.len(),
        forall|i: int|
            0 <= i < m.len() ==> forall|j: int|
                0 <= j < (#[trigger] m[i]).1.len() ==> (#[trigger] m[i].1[j]).wf(),
    ensures
        span_lang_entries(m, lo, hi, lang, t).len() <= total_entries(m, t),
        forall|j: int|
            0 <= j < span_lang_entries(m, lo, hi, lang, t).len() ==> (#[trigger] span_lang_entries(
                m,
                lo,
                hi,
                lang,
                t,
            )[j]).wf(),
    decreases t,
{
    if t > 0 {
        lemma_span_entries_bound(m, lo, hi, lang, t - 1);
        let prev = span_lang_entries(m, lo, hi, lang, t - 1);
        let whole = span_lang_entries(m, lo, hi, lang, t);
        assert forall|j: int| 0 <= j < whole.len() implies (#[trigger] whole[j]).wf() by {
            if j < prev.len() {
                assert(whole[j] == prev[j]);
            } else {
                assert(whole[j] == m[t - 1].1[j - prev.len()]);
            }
        }
    }
}

/// What is collected so far never shrinks.
proof fn lemma_total_entries_mono(m: Seq<(GridKey, Seq<GridEntry>)>, t1: int, t2: int)
    requires
        t1 <= t2,
    ensures
        total_entries(m, t1) <= total_entries(m, t2),
    decreases t2 - t1,
{
    if t1 < t2 {
        lemma_total_entries_mono(m, t1, t2 - 1);
    }
}


/// The shape of a pre-merged pair's key: the prefix-bin encoding of one of
/// the first `wlim` boundary spans' starts and a language that span holds.
spec fn bin_pair_ok(
    kb: Seq<u8>,
    mo: Seq<(GridKey, Seq<GridEntry>)>,
    sb: Seq<u32>,
    wlim: int,
) -> bool {
    exists|w: int, lang: u128|
        0 <= w < wlim && w + 1 < sb.len() && kb == enc_key(
            TypeMarker::PrefixBin,
            GridKey { phrase_id: sb[w], lang_set: lang },
        ) && #[trigger] span_has_lang(mo, sb[w], sb[w + 1], lang, mo.len() as int)
}

/// The first index holding `k`, or `-1`.
pub open spec fn key_idx(m: Seq<(GridKey, Seq<GridEntry>)>, k: GridKey) -> int
    decreases m.len(),
{
    if m.len() == 0 {
        -1
    } else if m[0].0 == k {
        0
    } else {
        let rest = key_idx(m.drop_first(), k);
        if rest == -1 {
            -1
        } else {
            1 + rest
        }
    }
}

pub proof fn lemma_key_idx_scan(m: Seq<(GridKey, Seq<GridEntry>)>, k: GridKey, i: int)
    requires
        0 <= i <= m.len(),
        forall|j: int| 0 <= j < i ==> (#[trigger] m[j]).0 != k,
        i < m.len() ==> m[i].0 == k,
    ensures
        i < m.len() ==> key_idx(m, k) == i,
        i == m.len() ==> key_idx(m, k) == -1,
    decreases m.len(),
{
    if m.len() > 0 {
        if m[0].0 == k {
        } else {
            assert(forall|j: int|
                0 <= j < i - 1 ==> (#[trigger] m.drop_first()[j]).0 != k);
            if i < m.len() {
                assert(m.drop_first()[i - 1] == m[i]);
            }
            lemma_key_idx_scan(m.drop_first(), k, i - 1);
        }
    }
}

/// Collects records and writes the closed store's pairs.
pub struct GridStoreBuilder {
    pub items: Vec<(GridKey, Vec<GridEntry>)>,
    pub bin_boundaries: Vec<u32>,
}

impl GridStoreBuilder {
    /// The keyed records collected so far, in insertion order.
    pub open spec fn model(self) -> Seq<(GridKey, Seq<GridEntry>)> {
        self.items@.map_values(|p: (GridKey, Vec<GridEntry>)| (p.0, p.1@))
    }

    /// The bin boundaries loaded so far.
    pub open spec fn bounds(self) -> Seq<u32> {
        self.bin_boundaries@
    }

    /// Keys are unique and every collected entry is valid and countable.
    pub open spec fn wf(self) -> bool {
        &&& forall|i: int, j: int|
            0 <= i < j < self.model().len() ==> (#[trigger] self.model()[i]).0 != (
            #[trigger] self.model()[j]).0
        &&& forall|i: int|
            0 <= i < self.model().len() ==> {
                &&& (#[trigger] self.model()[i]).1.len() <= 0x3FFFFFFF
                &&& forall|j: int|
                    0 <= j < self.model()[i].1.len() ==> (#[trigger] self.model()[i].1[j]).wf()
            }
    }

    /// An empty builder.
    pub fn new() -> (r: GridStoreBuilder)
        ensures
            r.wf(),
            r.model() == Seq::<(GridKey, Seq<GridEntry>)>::empty(),
            r.bounds() == Seq::<u32>::empty(),
    {
        let r = GridStoreBuilder { items: Vec::new(), bin_boundaries: Vec::new() };
        proof {
            assert(r.model() =~= Seq::<(GridKey, Seq<GridEntry>)>::empty());
        }
        r
    }

    /// Collects the entries for one key, replacing what the key already had.
    /// Invalid entries (a relevance level over 5, a score over 15, an id
    /// over 24 bits) or an uncountable list are rejected whole.
    pub fn insert(&mut self, key: &GridKey, entries: Vec<GridEntry>) -> (r: Result<(), GridError>)
        requires
            old(self).wf(),
        ensures
            final(self).wf(),
            final(self).bounds() == old(self).bounds(),
            match r {
                Ok(()) => (forall|j: int|
                    0 <= j < entries@.len() ==> (#[trigger] entries@[j]).wf()) && entries@.len()
                    <= 0x3FFFFFFF && final(self).model() == {
                    let idx = key_idx(old(self).model(), *key);
                    if idx == -1 {
                        old(self).model().push((*key, entries@))
                    } else {
                        old(self).model().update(idx, (*key, entries@))
                    }
                },
                Err(e) => e == GridError::CorruptRecord && *final(self) == *old(self) && !((
                forall|j: int| 0 <= j < entries@.len() ==> (#[trigger] entries@[j]).wf())
                    && entries@.len() <= 0x3FFFFFFF),
            },
    {
        if entries.len() > 0x3FFFFFFF {
            return Err(GridError::CorruptRecord);
        }
        let n = entries.len();
        let mut j: usize = 0;
        while j < n
            invariant
                j <= n,
                n == entries@.len(),
                self == old(self),
                old(self).wf(),
                forall|t: int| 0 <= t < j ==> (#[trigger] entries@[t]).wf(),
            decreases n - j,
        {
            let e = &entries[j];
            if !(e.relev <= 5 && e.score <= 15 && e.id < 0x1000000) {
                proof {
                    assert(!entries@[j as int].wf());
                }
                return Err(GridError::CorruptRecord);
            }
            j = j + 1;
        }
        let m = self.items.len();
        let mut i: usize = 0;
        while i < m
            invariant
                i <= m,
                m == self.items@.len(),
                self == old(self),
                old(self).wf(),
                entries@.len() <= 0x3FFFFFFF,
                forall|t: int| 0 <= t < entries@.len() ==> (#[trigger] entries@[t]).wf(),
                forall|t: int| 0 <= t < i ==> (#[trigger] old(self).model()[t]).0 != *key,
            decreases m - i,
        {
            if self.items[i].0.phrase_id == key.phrase_id && self.items[i].0.lang_set
                == key.lang_set {
                proof {
                    assert(old(self).model()[i as int].0 == *key);
                    lemma_key_idx_scan(old(self).model(), *key, i as int);
                }
                self.items.set(i, (*key, entries));
                proof {
                    assert(final(self).model() =~= old(self).model().update(
                        i as int,
                        (*key, entries@),
                    ));
                    lemma_model_update_wf(old(self).model(), i as int, (*key, entries@));
                }
                return Ok(());
            }
            proof {
                assert(old(self).model()[i as int].0 != *key);
            }
            i = i + 1;
        }
        proof {
            lemma_key_idx_scan(old(self).model(), *key, m as int);
        }
        self.items.push((*key, entries));
        proof {
            assert(final(self).model() =~= old(self).model().push((*key, entries@)));
            lemma_model_push_wf(old(self).model(), (*key, entries@));
        }
        Ok(())
    }

    /// Rewrites every entry's id through the index array `mapping`; rejected
    /// whole if an id is not covered or maps outside 24 bits.
    pub fn renumber(&mut self, mapping: &Vec<u32>) -> (r: Result<(), GridError>)
        requires
            old(self).wf(),
        ensures
            final(self).wf(),
            final(self).bounds() == old(self).bounds(),
            match r {
                Ok(()) => renum_ok(old(self).model(), mapping@) && final(self).model()
                    == renum_model(old(self).model(), mapping@),
                Err(e) => e == GridError::BadRenumber && *final(self) == *old(self) && !renum_ok(
                    old(self).model(),
                    mapping@,
                ),
            },
    {
        let m = self.items.len();
        let mut i: usize = 0;
        while i < m
            invariant
                i <= m,
                m == self.items@.len(),
                self == old(self),
                old(self).wf(),
                forall|a: int, b: int|
                    0 <= a < i && 0 <= b < (#[trigger] old(self).model()[a]).1.len() ==> (
                    #[trigger] old(self).model()[a].1[b]).id < mapping@.len()
                        && mapping@[old(self).model()[a].1[b].id as int] < 0x1000000,
            decreases m - i,
        {
            let es = &self.items[i].1;
            let n = es.len();
            let mut j: usize = 0;
            while j < n
                invariant
                    j <= n,
                    n == es@.len(),
                    es == &old(self).items@[i as int].1,
                    i < m,
                    m == old(self).items@.len(),
                    self == old(self),
                    old(self).wf(),
                    forall|b: int|
                        0 <= b < j ==> (#[trigger] old(self).model()[i as int].1[b]).id < mapping@.len() && mapping@[(old(self).model()[i as int].1[b]).id as int] < 0x1000000,
                decreases n - j,
            {
                let id = es[j].id;
                if !((id as usize) < mapping.len() && mapping[id as usize] < 0x1000000) {
                    proof {
                        assert(old(self).model()[i as int].1[j as int].id == id);
                        assert(!renum_ok(old(self).model(), mapping@));
                    }
                    return Err(GridError::BadRenumber);
                }
                proof {
                    assert(old(self).model()[i as int].1[j as int].id == id);
                }
                j = j + 1;
            }
            i = i + 1;
        }
        assert(renum_ok(old(self).model(), mapping@));
        // apply
        let mut out: Vec<(GridKey, Vec<GridEntry>)> = Vec::new();
        let mut i2: usize = 0;
        while i2 < m
            invariant
                i2 <= m,
                m == self.items@.len(),
                self == old(self),
                old(self).wf(),
                renum_ok(old(self).model(), mapping@),
                out@.map_values(|p: (GridKey, Vec<GridEntry>)| (p.0, p.1@)) == renum_model(
                    old(self).model(),
                    mapping@,
                ).take(i2 as int),
            decreases m - i2,
        {
            let ghost done = out@.map_values(|p: (GridKey, Vec<GridEntry>)| (p.0, p.1@));
            let es = &self.items[i2].1;
            let n = es.len();
            let mut ne: Vec<GridEntry> = Vec::new();
            let mut j: usize = 0;
            while j < n
                invariant
                    j <= n,
                    n == es@.len(),
                    es == &old(self).items@[i2 as int].1,
                    i2 < m,
                    m == old(self).items@.len(),
                    renum_ok(old(self).model(), mapping@),
                    ne@ == old(self).model()[i2 as int].1.take(j as int).map_values(
                        |e: GridEntry| renum_entry(e, mapping@),
                    ),
                decreases n - j,
            {
                let e = es[j];
                proof {
                    assert(old(self).model()[i2 as int].1[j as int] == e);
                }
                let ne1 = GridEntry { id: mapping[e.id as usize], ..e };
                ne.push(ne1);
                proof {
                    let src = old(self).model()[i2 as int].1;
                    assert(src.take(j + 1) =~= src.take(j as int).push(e));
                    assert(src.take(j + 1).map_values(|w: GridEntry| renum_entry(w, mapping@))
                        =~= src.take(j as int).map_values(|w: GridEntry| renum_entry(w, mapping@)).push(
                        renum_entry(e, mapping@),
                    ));
                }
                j = j + 1;
            }
            let k = self.items[i2].0;
            out.push((k, ne));
            proof {
                let src = old(self).model()[i2 as int].1;
                assert(src.take(n as int) =~= src);
                let row = (k, src.map_values(|w: GridEntry| renum_entry(w, mapping@)));
                assert(renum_model(old(self).model(), mapping@)[i2 as int] == row);
                assert(out@.map_values(|p: (GridKey, Vec<GridEntry>)| (p.0, p.1@)) =~= done.push(
                    row,
                ));
                assert(renum_model(old(self).model(), mapping@).take(i2 + 1) =~= done.push(row));
            }
            i2 = i2 + 1;
        }
        self.items = out;
        proof {
            assert(renum_model(old(self).model(), mapping@).take(m as int) =~= renum_model(
                old(self).model(),
                mapping@,
            ));
            lemma_renum_wf(old(self).model(), mapping@);
        }
        Ok(())
    }

    /// Lays out the closed store: one record per collected key in natural
    /// descending order with duplicates collapsed, then — when boundaries
    /// were loaded — one pre-merged record per consecutive pair of sorted
    /// bin boundaries and language set stored in that span, and finally the
    /// bin table itself under the reserved key. Every collected key reads
    /// back as exactly its sorted entries, and every bin record as the
    /// merged union of its span. It fails only when a merged span outgrows
    /// the format's length fields, which cannot happen while the collection
    /// holds at most `0x3FFFFFFF` entries in all.
    #[verifier::rlimit(100)]
    #[verifier::spinoff_prover]
    pub fn finish(self) -> (r: Result<Vec<(Vec<u8>, Vec<u8>)>, GridError>)
        requires
            self.wf(),
        ensures
            self.bounds().len() == 0 ==> r is Ok,
            total_entries(self.model(), self.model().len() as int) <= 0x3FFFFFFF ==> r is Ok,
            match r {
                Ok(pairs) => ({
                    let mo = self.model();
                    let sb = sort_bounds(self.bounds());
                    // the collected records come first, in collection order;
                    // everything after them carries another marker
                    &&& pairs@.len() >= mo.len()
                    &&& forall|j: int|
                        0 <= j < mo.len() ==> (#[trigger] pairs@[j]).0@ == enc_key(
                            TypeMarker::SinglePhrase,
                            mo[j].0,
                        )
                    &&& forall|j: int|
                        mo.len() <= j < pairs@.len() ==> (#[trigger] pairs@[j]).0@.len() >= 1
                            && pairs@[j].0@[0] != marker_byte(TypeMarker::SinglePhrase)
                    &&& forall|i: int|
                        0 <= i < mo.len() ==> stored_entries(pairs@, (#[trigger] mo[i]).0) == Some(
                            sort_e(mo[i].1),
                        )
                    // one pre-merged record per boundary span and language in it
                    &&& forall|w: int, lang: u128|
                        0 <= w < sb.len() - 1 && #[trigger] span_has_lang(
                            mo,
                            sb[w],
                            sb[w + 1],
                            lang,
                            mo.len() as int,
                        ) ==> stored_under(
                            pairs@,
                            TypeMarker::PrefixBin,
                            GridKey { phrase_id: sb[w], lang_set: lang },
                        ) == Some(
                            sort_e(span_lang_entries(mo, sb[w], sb[w + 1], lang, mo.len() as int)),
                        )
                    // without boundaries the collected records are all there is
                    &&& self.bounds().len() == 0 ==> pairs@.len() == mo.len()
                    // the bin table itself, sorted ascending
                    &&& self.bounds().len() > 0 ==> find_value(pairs@, bounds_key_bytes()) == Some(
                        enc_ids(sb),
                    )
                    &&& self.bounds().len() > 0 ==> bounds_of(pairs@) == sb
                    &&& self.bounds().len() == 0 ==> find_value(pairs@, bounds_key_bytes()) is None
                }),
                Err(e) => e == GridError::RecordTooLong && self.bounds().len() > 0
                    && total_entries(self.model(), self.model().len() as int) > 0x3FFFFFFF,
            },
    {
        let ghost mo = self.model();
        let mut pairs: Vec<(Vec<u8>, Vec<u8>)> = Vec::new();
        let m = self.items.len();
        let mut i: usize = 0;
        while i < m
            invariant
                i <= m,
                m == self.items@.len(),
                self.wf(),
                mo == self.model(),
                pairs@.len() == i,
                forall|j: int|
                    0 <= j < i ==> (#[trigger] pairs@[j]).0@ == enc_key(
                        TypeMarker::SinglePhrase,
                        mo[j].0,
                    ),
                forall|j: int|
                    0 <= j < i ==> stored_entries(pairs@, (#[trigger] mo[j]).0) == Some(
                        sort_e(mo[j].1),
                    ),
            decreases m - i,
        {
            let ghost prev = pairs@;
            proof {
                assert(mo[i as int].1 == self.items@[i as int].1@);
            }
            let sorted = sort_entries(&self.items[i].1);
            let bks = build_record(&sorted);
            let value = encode_record(&bks);
            let kb = encode_key(TypeMarker::SinglePhrase, &self.items[i].0);
            let ghost kbs = enc_key(TypeMarker::SinglePhrase, mo[i as int].0);
            pairs.push((kb, value));
            proof {
                let p = (kb, value);
                assert(pairs@ =~= prev.push(p));
                // earlier keys still find their records
                assert forall|j: int| 0 <= j < i implies stored_entries(
                    pairs@,
                    (#[trigger] mo[j]).0,
                ) == Some(sort_e(mo[j].1)) by {
                    lemma_find_value_push(prev, enc_key(TypeMarker::SinglePhrase, mo[j].0), p);
                }
                // no earlier pair holds this key
                assert forall|j: int| 0 <= j < i implies (#[trigger] prev[j]).0@ != kbs by {
                    if prev[j].0@ == kbs {
                        lemma_enc_key_injective(TypeMarker::SinglePhrase, mo[j].0, mo[i as int].0);
                    }
                }
                lemma_find_value_none_no_key(prev, kbs);
                lemma_find_value_push_hit(prev, kbs, p);
                lemma_record_roundtrip(crate::codec::bucket_models(bks@));
            }
            i = i + 1;
        }
        if self.bin_boundaries.len() == 0 {
            proof {
                assert forall|j: int| 0 <= j < pairs@.len() implies (#[trigger] pairs@[j]).0@
                    != bounds_key_bytes() by {
                    lemma_enc_key_marker(TypeMarker::SinglePhrase, mo[j].0);
                    assert(pairs@[j].0@[0] == 0 && bounds_key_bytes()[0] == 126);
                }
                lemma_find_value_none_no_key(pairs@, bounds_key_bytes());
            }
            return Ok(pairs);
        }
        // the pre-merged prefix-bin records, one per boundary span and
        // language set stored in it
        let sb = sort_u32(&self.bin_boundaries);
        let wn = sb.len() - 1;
        let mut w: usize = 0;
        while w < wn
            invariant
                w <= wn,
                wn + 1 == sb@.len(),
                self.bin_boundaries@.len() > 0,
                sb@ == sort_bounds(self.bounds()),
                forall|a: int, b2: int| 0 <= a < b2 < sb@.len() ==> sb@[a] <= sb@[b2],
                self.wf(),
                mo == self.model(),
                m == self.items@.len(),
                pairs@.len() >= m,
                forall|j: int|
                    0 <= j < m ==> (#[trigger] pairs@[j]).0@ == enc_key(
                        TypeMarker::SinglePhrase,
                        mo[j].0,
                    ),
                forall|j: int|
                    0 <= j < m ==> stored_entries(pairs@, (#[trigger] mo[j]).0) == Some(
                        sort_e(mo[j].1),
                    ),
                forall|j: int|
                    m <= j < pairs@.len() ==> bin_pair_ok(
                        (#[trigger] pairs@[j]).0@,
                        mo,
                        sb@,
                        w as int,
                    ),
                forall|w2: int, lang: u128|
                    0 <= w2 < w && #[trigger] span_has_lang(mo, sb@[w2], sb@[w2 + 1], lang, m as int)
                        ==> stored_under(
                        pairs@,
                        TypeMarker::PrefixBin,
                        GridKey { phrase_id: sb@[w2], lang_set: lang },
                    ) == Some(sort_e(span_lang_entries(mo, sb@[w2], sb@[w2 + 1], lang, m as int))),
            decreases wn - w,
        {
            let lo = sb[w];
            let hi = sb[w + 1];
            let mut langs: Vec<u128> = Vec::new();
            let mut accs: Vec<Vec<GridEntry>> = Vec::new();
            let mut t: usize = 0;
            while t < m
                invariant
                    t <= m,
                    m == self.items@.len(),
                    self.wf(),
                    mo == self.model(),
                    self.bin_boundaries@.len() > 0,
                    langs@.len() == accs@.len(),
                    langs@.no_duplicates(),
                    forall|li: int|
                        0 <= li < langs@.len() ==> span_has_lang(
                            mo,
                            lo,
                            hi,
                            #[trigger] langs@[li],
                            t as int,
                        ),
                    forall|lang: u128|
                        #[trigger] span_has_lang(mo, lo, hi, lang, t as int) ==> langs@.contains(
                            lang,
                        ),
                    forall|li: int|
                        0 <= li < accs@.len() ==> (#[trigger] accs@[li])@ == span_lang_entries(
                            mo,
                            lo,
                            hi,
                            langs@[li],
                            t as int,
                        ),
                    forall|li: int| 0 <= li < accs@.len() ==> (#[trigger] accs@[li])@.len() <= 0x3FFFFFFF,
                decreases m - t,
            {
                let ghost langs0 = langs@;
                let ghost accs0 = accs@;
                let item_phrase = self.items[t].0.phrase_id;
                proof {
                    assert(mo[t as int].0 == self.items@[t as int].0);
                    assert(mo[t as int].1 == self.items@[t as int].1@);
                }
                if lo <= item_phrase && item_phrase < hi {
                    let lang = self.items[t].0.lang_set;
                    let ln = langs.len();
                    let mut li: usize = 0;
                    while li < ln && langs[li] != lang
                        invariant
                            li <= ln,
                            ln == langs@.len(),
                            langs@ == langs0,
                            forall|k: int| 0 <= k < li ==> langs@[k] != lang,
                        decreases ln - li,
                    {
                        li = li + 1;
                    }
                    let mut cur: Vec<GridEntry>;
                    if li < ln {
                        // this language already has an accumulator
                        cur = accs.remove(li);
                        langs.remove(li);
                        proof {
                            langs0.remove_ensures(li as int);
                            accs0.remove_ensures(li as int);
                            assert(langs0[li as int] == lang);
                            assert(langs@.no_duplicates()) by {
                                assert forall|a: int, b2: int|
                                    0 <= a < langs@.len() && 0 <= b2 < langs@.len() && a != b2
                                    implies langs@[a] != langs@[b2] by {
                                    assert(langs@[a] == (if a < li as int {
                                        langs0[a]
                                    } else {
                                        langs0[a + 1]
                                    }));
                                    assert(langs@[b2] == (if b2 < li as int {
                                        langs0[b2]
                                    } else {
                                        langs0[b2 + 1]
                                    }));
                                }
                            }
                            assert forall|k: int| 0 <= k < langs@.len() implies langs@[k]
                                != lang by {
                                assert(langs@[k] == (if k < li as int {
                                    langs0[k]
                                } else {
                                    langs0[k + 1]
                                }));
                            }
                        }
                    } else {
                        cur = Vec::new();
                        proof {
                            assert(!langs0.contains(lang)) by {
                                if langs0.contains(lang) {
                                    let k = choose|k: int|
                                        0 <= k < langs0.len() && langs0[k] == lang;
                                    assert(langs@[k] == lang);
                                }
                            }
                            assert(!span_has_lang(mo, lo, hi, lang, t as int));
                            lemma_span_no_lang_empty(mo, lo, hi, lang, t as int);
                        }
                    }
                    proof {
                        assert(cur@ == span_lang_entries(mo, lo, hi, lang, t as int));
                        assert(!langs@.contains(lang)) by {
                            if langs@.contains(lang) {
                                let k = choose|k: int|
                                    0 <= k < langs@.len() && langs@[k] == lang;
                            }
                        }
                        // removing this language keeps every other one
                        assert forall|lang2: u128|
                            #[trigger] span_has_lang(mo, lo, hi, lang2, t as int) && lang2 != lang
                            implies langs@.contains(lang2) by {
                            assert(langs0.contains(lang2));
                            let k = choose|k: int| 0 <= k < langs0.len() && langs0[k] == lang2;
                            if langs@ == langs0 {
                                assert(langs@[k] == lang2);
                            } else {
                                assert(langs@ == langs0.remove(li as int));
                                langs0.remove_ensures(li as int);
                                if k < li as int {
                                    assert(langs@[k] == lang2);
                                } else {
                                    assert(langs0[li as int] == lang);
                                    assert(k > li as int);
                                    assert(langs@[k - 1] == lang2);
                                }
                            }
                        }
                    }
                    let ghost langs1 = langs@;
                    let ghost accs1 = accs@;
                    let es = &self.items[t].1;
                    let en = es.len();
                    let mut b: usize = 0;
                    while b < en
                        invariant
                            b <= en,
                            en == es@.len(),
                            es == &self.items@[t as int].1,
                            t < m,
                            m == self.items@.len(),
                            self.wf(),
                            mo == self.model(),
                            mo[t as int].1 == es@,
                            lang == mo[t as int].0.lang_set,
                            lo <= mo[t as int].0.phrase_id < hi,
                            self.bin_boundaries@.len() > 0,
                            langs@ == langs1,
                            accs@ == accs1,
                            langs@.len() == accs@.len(),
                            langs@.no_duplicates(),
                            !langs@.contains(lang),
                            forall|li3: int|
                                0 <= li3 < langs@.len() ==> span_has_lang(
                                    mo,
                                    lo,
                                    hi,
                                    #[trigger] langs@[li3],
                                    t as int,
                                ),
                            forall|lang2: u128|
                                #[trigger] span_has_lang(mo, lo, hi, lang2, t as int) && lang2
                                    != lang ==> langs@.contains(lang2),
                            forall|li3: int|
                                0 <= li3 < accs@.len() ==> (#[trigger] accs@[li3])@
                                    == span_lang_entries(mo, lo, hi, langs@[li3], t as int),
                            forall|li3: int|
                                0 <= li3 < accs@.len() ==> (#[trigger] accs@[li3])@.len()
                                    <= 0x3FFFFFFF,
                            cur@ == span_lang_entries(mo, lo, hi, lang, t as int) + es@.take(
                                b as int,
                            ),
                            cur@.len() <= 0x3FFFFFFF,
                        decreases en - b,
                    {
                        if cur.len() >= 0x3FFFFFFF {
                            proof {
                                // the collection itself exceeds what one
                                // record can count
                                assert(forall|a: int|
                                    0 <= a < mo.len() ==> forall|c: int|
                                        0 <= c < (#[trigger] mo[a]).1.len() ==> (
                                        #[trigger] mo[a].1[c]).wf());
                                lemma_span_entries_bound(mo, lo, hi, lang, t + 1);
                                lemma_total_entries_mono(mo, t + 1, m as int);
                                assert(span_lang_entries(mo, lo, hi, lang, t + 1)
                                    == span_lang_entries(mo, lo, hi, lang, t as int) + es@);
                                assert(total_entries(mo, m as int) > 0x3FFFFFFF);
                            }
                            return Err(GridError::RecordTooLong);
                        }
                        cur.push(es[b]);
                        proof {
                            assert(es@.take(b + 1) =~= es@.take(b as int).push(es@[b as int]));
                            assert(cur@ =~= span_lang_entries(mo, lo, hi, lang, t as int)
                                + es@.take(b + 1));
                        }
                        b = b + 1;
                    }
                    langs.push(lang);
                    accs.push(cur);
                    proof {
                        assert(es@.take(en as int) =~= es@);
                        assert(span_lang_entries(mo, lo, hi, lang, t + 1) == span_lang_entries(
                            mo,
                            lo,
                            hi,
                            lang,
                            t as int,
                        ) + es@);
                        // the run of invariants at t + 1
                        assert(langs@ =~= langs1.push(lang));
                        assert(accs@ =~= accs1.push(cur));
                        assert(langs@.no_duplicates()) by {
                            assert forall|a: int, b2: int|
                                0 <= a < langs@.len() && 0 <= b2 < langs@.len() && a != b2
                                implies langs@[a] != langs@[b2] by {
                                if a == langs@.len() - 1 {
                                    assert(langs@[b2] == langs1[b2]);
                                } else if b2 == langs@.len() - 1 {
                                    assert(langs@[a] == langs1[a]);
                                }
                            }
                        }
                        assert forall|li2: int| 0 <= li2 < langs@.len() implies span_has_lang(
                            mo,
                            lo,
                            hi,
                            #[trigger] langs@[li2],
                            t + 1,
                        ) by {
                            if li2 < langs@.len() - 1 {
                                assert(langs@[li2] == langs1[li2]);
                                assert(span_has_lang(mo, lo, hi, langs1[li2], t as int));
                            }
                        }
                        assert forall|lang2: u128|
                            #[trigger] span_has_lang(mo, lo, hi, lang2, t + 1) implies langs@.contains(
                            lang2,
                        ) by {
                            if lang2 == lang {
                                assert(langs@[langs@.len() - 1] == lang);
                            } else {
                                assert(span_has_lang(mo, lo, hi, lang2, t as int));
                                assert(langs1.contains(lang2));
                                let k = choose|k: int|
                                    0 <= k < langs1.len() && langs1[k] == lang2;
                                assert(langs@[k] == lang2);
                            }
                        }
                        assert forall|li2: int| 0 <= li2 < accs@.len() implies (
                        #[trigger] accs@[li2])@ == span_lang_entries(
                            mo,
                            lo,
                            hi,
                            langs@[li2],
                            t + 1,
                        ) by {
                            if li2 < accs@.len() - 1 {
                                assert(accs@[li2] == accs1[li2] && langs@[li2] == langs1[li2]);
                                assert(langs1[li2] != lang);
                                assert(span_lang_entries(mo, lo, hi, langs1[li2], t + 1)
                                    == span_lang_entries(mo, lo, hi, langs1[li2], t as int));
                            }
                        }
                    }
                } else {
                    proof {
                        assert forall|lang2: u128|
                            #[trigger] span_has_lang(mo, lo, hi, lang2, t + 1) implies langs@.contains(
                            lang2,
                        ) by {
                            assert(span_has_lang(mo, lo, hi, lang2, t as int));
                        }
                        assert forall|li2: int| 0 <= li2 < langs@.len() implies span_has_lang(
                            mo,
                            lo,
                            hi,
                            #[trigger] langs@[li2],
                            t + 1,
                        ) by {}
                        assert forall|li2: int| 0 <= li2 < accs@.len() implies (
                        #[trigger] accs@[li2])@ == span_lang_entries(
                            mo,
                            lo,
                            hi,
                            langs@[li2],
                            t + 1,
                        ) by {
                            assert(span_lang_entries(mo, lo, hi, langs@[li2], t + 1)
                                == span_lang_entries(mo, lo, hi, langs@[li2], t as int));
                        }
                    }
                }
                t = t + 1;
            }
            // one pre-merged record per language set in this span
            let ghost span_base = pairs@.len();
            let ln2 = langs.len();
            let mut li2: usize = 0;
            while li2 < ln2
                invariant
                    li2 <= ln2,
                    ln2 == langs@.len(),
                    ln2 == accs@.len(),
                    self.wf(),
                    mo == self.model(),
                    m == self.items@.len(),
                    w < wn,
                    wn + 1 == sb@.len(),
                    sb@ == sort_bounds(self.bounds()),
                    forall|a: int, b2: int| 0 <= a < b2 < sb@.len() ==> sb@[a] <= sb@[b2],
                    lo == sb@[w as int],
                    hi == sb@[w + 1],
                    langs@.no_duplicates(),
                    forall|li: int|
                        0 <= li < langs@.len() ==> span_has_lang(
                            mo,
                            lo,
                            hi,
                            #[trigger] langs@[li],
                            m as int,
                        ),
                    forall|lang: u128|
                        #[trigger] span_has_lang(mo, lo, hi, lang, m as int) ==> langs@.contains(
                            lang,
                        ),
                    forall|li: int|
                        0 <= li < accs@.len() ==> (#[trigger] accs@[li])@ == span_lang_entries(
                            mo,
                            lo,
                            hi,
                            langs@[li],
                            m as int,
                        ),
                    forall|li: int| 0 <= li < accs@.len() ==> (#[trigger] accs@[li])@.len() <= 0x3FFFFFFF,
                    span_base >= m,
                    pairs@.len() == span_base + li2,
                    forall|j: int|
                        0 <= j < m ==> (#[trigger] pairs@[j]).0@ == enc_key(
                            TypeMarker::SinglePhrase,
                            mo[j].0,
                        ),
                    forall|j: int|
                        0 <= j < m ==> stored_entries(pairs@, (#[trigger] mo[j]).0) == Some(
                            sort_e(mo[j].1),
                        ),
                    forall|j: int|
                        m <= j < span_base ==> bin_pair_ok(
                            (#[trigger] pairs@[j]).0@,
                            mo,
                            sb@,
                            w as int,
                        ),
                    forall|w2: int, lang: u128|
                        0 <= w2 < w && #[trigger] span_has_lang(
                            mo,
                            sb@[w2],
                            sb@[w2 + 1],
                            lang,
                            m as int,
                        ) ==> stored_under(
                            pairs@,
                            TypeMarker::PrefixBin,
                            GridKey { phrase_id: sb@[w2], lang_set: lang },
                        ) == Some(
                            sort_e(span_lang_entries(mo, sb@[w2], sb@[w2 + 1], lang, m as int)),
                        ),
                    forall|j: int|
                        span_base <= j < pairs@.len() ==> exists|li: int|
                            0 <= li < li2 && (#[trigger] pairs@[j]).0@ == enc_key(
                                TypeMarker::PrefixBin,
                                GridKey { phrase_id: lo, lang_set: langs@[li] },
                            ),
                    forall|li: int|
                        0 <= li < li2 ==> stored_under(
                            pairs@,
                            TypeMarker::PrefixBin,
                            GridKey { phrase_id: lo, lang_set: #[trigger] langs@[li] },
                        ) == Some(sort_e(span_lang_entries(mo, lo, hi, langs@[li], m as int))),
                decreases ln2 - li2,
            {
                let ghost prev2 = pairs@;
                proof {
                    assert(forall|a: int|
                        0 <= a < mo.len() ==> forall|c: int|
                            0 <= c < (#[trigger] mo[a]).1.len() ==> (#[trigger] mo[a].1[c]).wf());
                    lemma_span_entries_bound(mo, lo, hi, langs@[li2 as int], m as int);
                    assert(accs@[li2 as int]@ == span_lang_entries(
                        mo,
                        lo,
                        hi,
                        langs@[li2 as int],
                        m as int,
                    ));
                }
                let sorted2 = sort_entries(&accs[li2]);
                let bks2 = build_record(&sorted2);
                let value2 = encode_record(&bks2);
                let bk = GridKey { phrase_id: lo, lang_set: langs[li2] };
                let kb2 = encode_key(TypeMarker::PrefixBin, &bk);
                let ghost kbs2 = enc_key(TypeMarker::PrefixBin, bk);
                pairs.push((kb2, value2));
                proof {
                    let p = (kb2, value2);
                    assert(pairs@ =~= prev2.push(p));
                    // no earlier pair holds this bin's key
                    assert forall|j: int| 0 <= j < prev2.len() implies (#[trigger] prev2[j]).0@
                        != kbs2 by {
                        if j < m {
                            lemma_enc_key_marker(TypeMarker::SinglePhrase, mo[j].0);
                            lemma_enc_key_marker(TypeMarker::PrefixBin, bk);
                        } else if j < span_base {
                            if prev2[j].0@ == kbs2 {
                                let (w2, lang2): (int, u128) = choose|w2: int, lang2: u128|
                                    0 <= w2 < w && w2 + 1 < sb@.len() && prev2[j].0@ == enc_key(
                                        TypeMarker::PrefixBin,
                                        GridKey { phrase_id: sb@[w2], lang_set: lang2 },
                                    ) && #[trigger] span_has_lang(
                                        mo,
                                        sb@[w2],
                                        sb@[w2 + 1],
                                        lang2,
                                        mo.len() as int,
                                    );
                                lemma_enc_key_injective(
                                    TypeMarker::PrefixBin,
                                    GridKey { phrase_id: sb@[w2], lang_set: lang2 },
                                    bk,
                                );
                                // an earlier span with this start is empty
                                assert(sb@[w2] == lo && sb@[w2 + 1] <= sb@[w as int]);
                                lemma_empty_span(mo, sb@[w2], sb@[w2 + 1], lang2, mo.len() as int);
                            }
                        } else {
                            if prev2[j].0@ == kbs2 {
                                let li = choose|li: int|
                                    0 <= li < li2 && prev2[j].0@ == enc_key(
                                        TypeMarker::PrefixBin,
                                        GridKey { phrase_id: lo, lang_set: langs@[li] },
                                    );
                                lemma_enc_key_injective(
                                    TypeMarker::PrefixBin,
                                    GridKey { phrase_id: lo, lang_set: langs@[li] },
                                    bk,
                                );
                            }
                        }
                    }
                    lemma_find_value_none_no_key(prev2, kbs2);
                    lemma_find_value_push_hit(prev2, kbs2, p);
                    lemma_record_roundtrip(crate::codec::bucket_models(bks2@));
                    // earlier finds are untouched
                    assert forall|j: int| 0 <= j < m implies stored_entries(
                        pairs@,
                        (#[trigger] mo[j]).0,
                    ) == Some(sort_e(mo[j].1)) by {
                        lemma_find_value_push(prev2, enc_key(TypeMarker::SinglePhrase, mo[j].0), p);
                    }
                    assert forall|w2: int, lang: u128|
                        0 <= w2 < w && #[trigger] span_has_lang(
                            mo,
                            sb@[w2],
                            sb@[w2 + 1],
                            lang,
                            m as int,
                        ) implies stored_under(
                        pairs@,
                        TypeMarker::PrefixBin,
                        GridKey { phrase_id: sb@[w2], lang_set: lang },
                    ) == Some(
                        sort_e(span_lang_entries(mo, sb@[w2], sb@[w2 + 1], lang, m as int)),
                    ) by {
                        lemma_find_value_push(
                            prev2,
                            enc_key(
                                TypeMarker::PrefixBin,
                                GridKey { phrase_id: sb@[w2], lang_set: lang },
                            ),
                            p,
                        );
                    }
                    assert forall|li: int| 0 <= li < li2 + 1 implies stored_under(
                        pairs@,
                        TypeMarker::PrefixBin,
                        GridKey { phrase_id: lo, lang_set: #[trigger] langs@[li] },
                    ) == Some(sort_e(span_lang_entries(mo, lo, hi, langs@[li], m as int))) by {
                        if li < li2 {
                            lemma_find_value_push(
                                prev2,
                                enc_key(
                                    TypeMarker::PrefixBin,
                                    GridKey { phrase_id: lo, lang_set: langs@[li] },
                                ),
                                p,
                            );
                        }
                    }
                    assert forall|j: int| span_base <= j < pairs@.len() implies exists|li: int|
                        0 <= li < li2 + 1 && (#[trigger] pairs@[j]).0@ == enc_key(
                            TypeMarker::PrefixBin,
                            GridKey { phrase_id: lo, lang_set: langs@[li] },
                        ) by {
                        if j < prev2.len() {
                            let li = choose|li: int|
                                0 <= li < li2 && prev2[j].0@ == enc_key(
                                    TypeMarker::PrefixBin,
                                    GridKey { phrase_id: lo, lang_set: langs@[li] },
                                );
                            assert(pairs@[j].0@ == enc_key(
                                TypeMarker::PrefixBin,
                                GridKey { phrase_id: lo, lang_set: langs@[li] },
                            ));
                        } else {
                            assert(pairs@[j].0@ == enc_key(
                                TypeMarker::PrefixBin,
                                GridKey { phrase_id: lo, lang_set: langs@[li2 as int] },
                            ));
                        }
                    }
                }
                li2 = li2 + 1;
            }
            proof {
                // fold this span's records into the completed set
                assert forall|j: int| m <= j < pairs@.len() implies bin_pair_ok(
                    (#[trigger] pairs@[j]).0@,
                    mo,
                    sb@,
                    w + 1,
                ) by {
                    if j < span_base {
                        let (w2, lang2): (int, u128) = choose|w2: int, lang2: u128|
                            0 <= w2 < w && w2 + 1 < sb@.len() && pairs@[j].0@ == enc_key(
                                TypeMarker::PrefixBin,
                                GridKey { phrase_id: sb@[w2], lang_set: lang2 },
                            ) && #[trigger] span_has_lang(
                                mo,
                                sb@[w2],
                                sb@[w2 + 1],
                                lang2,
                                mo.len() as int,
                            );
                        assert(bin_pair_ok(pairs@[j].0@, mo, sb@, w + 1));
                    } else {
                        let li = choose|li: int|
                            0 <= li < langs@.len() && pairs@[j].0@ == enc_key(
                                TypeMarker::PrefixBin,
                                GridKey { phrase_id: lo, lang_set: langs@[li] },
                            );
                        assert(span_has_lang(mo, sb@[w as int], sb@[w + 1], langs@[li], mo.len() as int));
                        assert(bin_pair_ok(pairs@[j].0@, mo, sb@, w + 1));
                    }
                }
                assert forall|w2: int, lang: u128|
                    0 <= w2 < w + 1 && #[trigger] span_has_lang(
                        mo,
                        sb@[w2],
                        sb@[w2 + 1],
                        lang,
                        m as int,
                    ) implies stored_under(
                    pairs@,
                    TypeMarker::PrefixBin,
                    GridKey { phrase_id: sb@[w2], lang_set: lang },
                ) == Some(sort_e(span_lang_entries(mo, sb@[w2], sb@[w2 + 1], lang, m as int))) by {
                    if w2 == w {
                        assert(langs@.contains(lang));
                        let li = choose|li: int| 0 <= li < langs@.len() && langs@[li] == lang;
                    }
                }
            }
            w = w + 1;
        }
        // the bin table itself, as packed little-endian words
        let ghost prev3 = pairs@;
        let mut bv: Vec<u8> = Vec::new();
        let bn = sb.len();
        let mut bi: usize = 0;
        while bi < bn
            invariant
                bi <= bn,
                bn == sb@.len(),
                bv@ == enc_ids(sb@.take(bi as int)),
            decreases bn - bi,
        {
            proof {
                crate::codec::lemma_enc_ids_push(sb@.take(bi as int), sb@[bi as int]);
                assert(sb@.take(bi + 1) =~= sb@.take(bi as int).push(sb@[bi as int]));
            }
            push_le32(&mut bv, sb[bi]);
            bi = bi + 1;
        }
        let bkey = bounds_key();
        let ghost bvv = bv@;
        pairs.push((bkey, bv));
        proof {
            let p = (pairs@.last().0, pairs@.last().1);
            assert(pairs@ =~= prev3.push(p));
            assert(sb@.take(bn as int) =~= sb@);
            assert(p.1@ == enc_ids(sb@));
            // nothing before it holds the reserved key
            assert forall|j: int| 0 <= j < prev3.len() implies (#[trigger] prev3[j]).0@
                != bounds_key_bytes() by {
                if j < m {
                    lemma_enc_key_marker(TypeMarker::SinglePhrase, mo[j].0);
                    assert(prev3[j].0@[0] == 0 && bounds_key_bytes()[0] == 126);
                } else {
                    let (w2, lang2): (int, u128) = choose|w2: int, lang2: u128|
                        0 <= w2 < wn && w2 + 1 < sb@.len() && prev3[j].0@ == enc_key(
                            TypeMarker::PrefixBin,
                            GridKey { phrase_id: sb@[w2], lang_set: lang2 },
                        ) && #[trigger] span_has_lang(
                            mo,
                            sb@[w2],
                            sb@[w2 + 1],
                            lang2,
                            mo.len() as int,
                        );
                    lemma_enc_key_marker(
                        TypeMarker::PrefixBin,
                        GridKey { phrase_id: sb@[w2], lang_set: lang2 },
                    );
                    assert(prev3[j].0@[0] == 1 && bounds_key_bytes()[0] == 126);
                }
            }
            lemma_find_value_none_no_key(prev3, bounds_key_bytes());
            lemma_find_value_push_hit(prev3, bounds_key_bytes(), p);
            // the table reads back as the sorted boundaries
            crate::codec::lemma_enc_ids_len(sb@);
            assert(p.1@.subrange(0, 4 * sb@.len() as int) =~= enc_ids(sb@));
            crate::codec::lemma_sd_ids_enc(p.1@, 0, sb@);
            // earlier finds are untouched
            assert forall|j: int| 0 <= j < m implies stored_entries(
                pairs@,
                (#[trigger] mo[j]).0,
            ) == Some(sort_e(mo[j].1)) by {
                lemma_find_value_push(prev3, enc_key(TypeMarker::SinglePhrase, mo[j].0), p);
            }
            assert forall|w2: int, lang: u128|
                0 <= w2 < wn && #[trigger] span_has_lang(mo, sb@[w2], sb@[w2 + 1], lang, m as int)
                    implies stored_under(
                pairs@,
                TypeMarker::PrefixBin,
                GridKey { phrase_id: sb@[w2], lang_set: lang },
            ) == Some(sort_e(span_lang_entries(mo, sb@[w2], sb@[w2 + 1], lang, m as int))) by {
                lemma_find_value_push(
                    prev3,
                    enc_key(TypeMarker::PrefixBin, GridKey { phrase_id: sb@[w2], lang_set: lang }),
                    p,
                );
            }
            // the trailing pairs all carry other markers
            assert forall|j: int| m <= j < pairs@.len() implies (#[trigger] pairs@[j]).0@.len()
                >= 1 && pairs@[j].0@[0] != marker_byte(TypeMarker::SinglePhrase) by {
                if j < prev3.len() {
                    let (w2, lang2): (int, u128) = choose|w2: int, lang2: u128|
                        0 <= w2 < wn && w2 + 1 < sb@.len() && pairs@[j].0@ == enc_key(
                            TypeMarker::PrefixBin,
                            GridKey { phrase_id: sb@[w2], lang_set: lang2 },
                        ) && #[trigger] span_has_lang(
                            mo,
                            sb@[w2],
                            sb@[w2 + 1],
                            lang2,
                            mo.len() as int,
                        );
                    lemma_enc_key_marker(
                        TypeMarker::PrefixBin,
                        GridKey { phrase_id: sb@[w2], lang_set: lang2 },
                    );
                }
            }
        }
        Ok(pairs)
    }

    /// Records the phrase-id boundaries of the precomputed prefix bins.
    pub fn load_bin_boundaries(&mut self, boundaries: Vec<u32>) -> (r: Result<(), GridError>)
        requires
            old(self).wf(),
        ensures
            final(self).wf(),
            final(self).model() == old(self).model(),
            final(self).bounds() == boundaries@,
            r is Ok,
    {
        self.bin_boundaries = boundaries;
        proof {
            assert(self.model() =~= old(self).model());
        }
        Ok(())
    }
}

/// Inserts a boundary word into an ascending sequence, after any equals.
pub open spec fn insert_bound(s: Seq<u32>, x: u32) -> Seq<u32>
    decreases s.len(),
{
    if s.len() == 0 {
        seq![x]
    } else if x < s[0] {
        seq![x] + s
    } else {
        seq![s[0]] + insert_bound(s.drop_first(), x)
    }
}

/// The boundary words in ascending order.
pub open spec fn sort_bounds(s: Seq<u32>) -> Seq<u32>
    decreases s.len(),
{
    if s.len() == 0 {
        seq![]
    } else {
        insert_bound(sort_bounds(s.drop_last()), s.last())
    }
}

proof fn lemma_insert_bound_at(s: Seq<u32>, x: u32, idx: int)
    requires
        0 <= idx <= s.len(),
        forall|k: int| 0 <= k < idx ==> s[k] <= x,
        idx < s.len() ==> x < s[idx],
    ensures
        insert_bound(s, x) == s.insert(idx, x),
    decreases s.len(),
{
    if s.len() == 0 {
        assert(insert_bound(s, x) =~= s.insert(0, x));
    } else if x < s[0] {
        assert(idx == 0);
        assert(insert_bound(s, x) =~= s.insert(0, x));
    } else {
        assert(idx >= 1);
        assert(forall|k: int| 0 <= k < idx - 1 ==> #[trigger] s.drop_first()[k] <= x);
        lemma_insert_bound_at(s.drop_first(), x, idx - 1);
        if idx < s.len() {
            assert(s.drop_first()[idx - 1] == s[idx]);
        }
        assert(seq![s[0]] + s.drop_first().insert(idx - 1, x) =~= s.insert(idx, x));
    }
}

/// Sorting the boundaries leaves them ascending.
pub proof fn lemma_sort_bounds_sorted(s: Seq<u32>)
    ensures
        forall|i: int, j: int|
            0 <= i < j < sort_bounds(s).len() ==> sort_bounds(s)[i] <= sort_bounds(s)[j],
        sort_bounds(s).len() == s.len(),
    decreases s.len(),
{
    if s.len() > 0 {
        lemma_sort_bounds_sorted(s.drop_last());
        lemma_insert_bound_sorted(sort_bounds(s.drop_last()), s.last());
    }
}

proof fn lemma_insert_bound_sorted(s: Seq<u32>, x: u32)
    requires
        forall|i: int, j: int| 0 <= i < j < s.len() ==> s[i] <= s[j],
    ensures
        forall|i: int, j: int|
            0 <= i < j < insert_bound(s, x).len() ==> insert_bound(s, x)[i] <= insert_bound(
                s,
                x,
            )[j],
        insert_bound(s, x).len() == s.len() + 1,
    decreases s.len(),
{
    if s.len() == 0 {
    } else if x < s[0] {
        let r = seq![x] + s;
        assert forall|i: int, j: int| 0 <= i < j < r.len() implies r[i] <= r[j] by {
            if i > 0 {
                assert(r[i] == s[i - 1] && r[j] == s[j - 1]);
            } else {
                assert(r[j] == s[j - 1]);
                assert(s[0] <= s[j - 1]);
            }
        }
    } else {
        assert(forall|i: int, j: int|
            0 <= i < j < s.drop_first().len() ==> #[trigger] s.drop_first()[i] <= #[trigger] s.drop_first()[j]);
        lemma_insert_bound_sorted(s.drop_first(), x);
        let inner = insert_bound(s.drop_first(), x);
        let r = seq![s[0]] + inner;
        assert forall|i: int, j: int| 0 <= i < j < r.len() implies r[i] <= r[j] by {
            if i == 0 {
                assert(r[j] == inner[j - 1]);
                lemma_insert_bound_head(s.drop_first(), x, s[0]);
            } else {
                assert(r[i] == inner[i - 1] && r[j] == inner[j - 1]);
            }
        }
    }
}

proof fn lemma_insert_bound_head(s: Seq<u32>, x: u32, cap: u32)
    requires
        cap <= x,
        forall|i: int| 0 <= i < s.len() ==> cap <= s[i],
    ensures
        forall|i: int| 0 <= i < insert_bound(s, x).len() ==> cap <= insert_bound(s, x)[i],
    decreases s.len(),
{
    if s.len() == 0 {
    } else if x < s[0] {
        assert forall|i: int| 0 <= i < insert_bound(s, x).len() implies cap <= insert_bound(
            s,
            x,
        )[i] by {
            if i > 0 {
                assert(insert_bound(s, x)[i] == s[i - 1]);
            }
        }
    } else {
        assert(forall|i: int| 0 <= i < s.drop_first().len() ==> cap <= #[trigger] s.drop_first()[i]);
        lemma_insert_bound_head(s.drop_first(), x, cap);
        let inner = insert_bound(s.drop_first(), x);
        assert forall|i: int| 0 <= i < insert_bound(s, x).len() implies cap <= insert_bound(
            s,
            x,
        )[i] by {
            if i > 0 {
                assert(insert_bound(s, x)[i] == inner[i - 1]);
            }
        }
    }
}

/// Sorts the boundary words ascending (equal words keep their order).
fn sort_u32(v: &Vec<u32>) -> (r: Vec<u32>)
    ensures
        r@ == sort_bounds(v@),
        r@.len() == v@.len(),
        forall|i: int, j: int| 0 <= i < j < r@.len() ==> r@[i] <= r@[j],
{
    let mut out: Vec<u32> = Vec::new();
    let n = v.len();
    let mut i: usize = 0;
    while i < n
        invariant
            i <= n,
            n == v@.len(),
            out@ == sort_bounds(v@.take(i as int)),
        decreases n - i,
    {
        let x = v[i];
        let on = out.len();
        let mut p: usize = 0;
        while p < on && out[p] <= x
            invariant
                p <= on,
                on == out@.len(),
                out@ == sort_bounds(v@.take(i as int)),
                forall|a: int| 0 <= a < p ==> out@[a] <= x,
            decreases on - p,
        {
            p = p + 1;
        }
        out.insert(p, x);
        proof {
            lemma_insert_bound_at(sort_bounds(v@.take(i as int)), x, p as int);
            assert(v@.take(i + 1).drop_last() =~= v@.take(i as int));
            assert(v@.take(i + 1).last() == v@[i as int]);
        }
        i = i + 1;
    }
    proof {
        assert(v@.take(n as int) =~= v@);
        lemma_sort_bounds_sorted(v@);
    }
    out
}

/// Whether a mapping covers every collected id and stays inside 24 bits.
pub open spec fn renum_ok(m: Seq<(GridKey, Seq<GridEntry>)>, mp: Seq<u32>) -> bool {
    forall|a: int, b: int|
        0 <= a < m.len() && 0 <= b < (#[trigger] m[a]).1.len() ==> (#[trigger] m[a].1[b]).id
            < mp.len() && mp[m[a].1[b].id as int] < 0x1000000
}

/// One entry with its id rewritten.
pub open spec fn renum_entry(e: GridEntry, mp: Seq<u32>) -> GridEntry {
    GridEntry { id: mp[e.id as int], ..e }
}

/// The whole collection with every id rewritten.
pub open spec fn renum_model(m: Seq<(GridKey, Seq<GridEntry>)>, mp: Seq<u32>) -> Seq<
    (GridKey, Seq<GridEntry>),
> {
    m.map_values(|p: (GridKey, Seq<GridEntry>)| (p.0, p.1.map_values(|e: GridEntry| renum_entry(e, mp))))
}

proof fn lemma_renum_wf(m: Seq<(GridKey, Seq<GridEntry>)>, mp: Seq<u32>)
    requires
        renum_ok(m, mp),
        forall|i: int, j: int|
            0 <= i < j < m.len() ==> (#[trigger] m[i]).0 != (#[trigger] m[j]).0,
        forall|i: int|
            0 <= i < m.len() ==> (#[trigger] m[i]).1.len() <= 0x3FFFFFFF && forall|j: int|
                0 <= j < m[i].1.len() ==> (#[trigger] m[i].1[j]).wf(),
    ensures
        forall|i: int, j: int|
            0 <= i < j < renum_model(m, mp).len() ==> (#[trigger] renum_model(m, mp)[i]).0 != (
            #[trigger] renum_model(m, mp)[j]).0,
        forall|i: int|
            0 <= i < renum_model(m, mp).len() ==> (#[trigger] renum_model(m, mp)[i]).1.len()
                <= 0x3FFFFFFF && forall|j: int|
                0 <= j < renum_model(m, mp)[i].1.len() ==> (#[trigger] renum_model(
                    m,
                    mp,
                )[i].1[j]).wf(),
{
    let r = renum_model(m, mp);
    assert forall|i: int|
        0 <= i < r.len() implies (#[trigger] r[i]).1.len() <= 0x3FFFFFFF && forall|j: int|
        0 <= j < r[i].1.len() ==> (#[trigger] r[i].1[j]).wf() by {
        assert(r[i].1 == m[i].1.map_values(|e: GridEntry| renum_entry(e, mp)));
        assert forall|j: int| 0 <= j < r[i].1.len() implies (#[trigger] r[i].1[j]).wf() by {
            assert(r[i].1[j] == renum_entry(m[i].1[j], mp));
            assert(m[i].1[j].wf());
        }
    }
    assert forall|i: int, j: int|
        0 <= i < j < r.len() implies (#[trigger] r[i]).0 != (#[trigger] r[j]).0 by {
        assert(r[i].0 == m[i].0 && r[j].0 == m[j].0);
    }
}

proof fn lemma_model_update_wf(
    m: Seq<(GridKey, Seq<GridEntry>)>,
    idx: int,
    row: (GridKey, Seq<GridEntry>),
)
    requires
        0 <= idx < m.len(),
        m[idx].0 == row.0,
        forall|i: int, j: int|
            0 <= i < j < m.len() ==> (#[trigger] m[i]).0 != (#[trigger] m[j]).0,
        forall|i: int|
            0 <= i < m.len() ==> (#[trigger] m[i]).1.len() <= 0x3FFFFFFF && forall|j: int|
                0 <= j < m[i].1.len() ==> (#[trigger] m[i].1[j]).wf(),
        row.1.len() <= 0x3FFFFFFF,
        forall|j: int| 0 <= j < row.1.len() ==> (#[trigger] row.1[j]).wf(),
    ensures
        forall|i: int, j: int|
            0 <= i < j < m.update(idx, row).len() ==> (#[trigger] m.update(idx, row)[i]).0 != (
            #[trigger] m.update(idx, row)[j]).0,
        forall|i: int|
            0 <= i < m.update(idx, row).len() ==> (#[trigger] m.update(idx, row)[i]).1.len()
                <= 0x3FFFFFFF && forall|j: int|
                0 <= j < m.update(idx, row)[i].1.len() ==> (#[trigger] m.update(
                    idx,
                    row,
                )[i].1[j]).wf(),
{
    let r = m.update(idx, row);
    assert forall|i: int, j: int|
        0 <= i < j < r.len() implies (#[trigger] r[i]).0 != (#[trigger] r[j]).0 by {
        assert(r[i].0 == (if i == idx { row.0 } else { m[i].0 }));
        assert(r[j].0 == (if j == idx { row.0 } else { m[j].0 }));
    }
}

proof fn lemma_model_push_wf(m: Seq<(GridKey, Seq<GridEntry>)>, row: (GridKey, Seq<GridEntry>))
    requires
        forall|i: int| 0 <= i < m.len() ==> (#[trigger] m[i]).0 != row.0,
        forall|i: int, j: int|
            0 <= i < j < m.len() ==> (#[trigger] m[i]).0 != (#[trigger] m[j]).0,
        forall|i: int|
            0 <= i < m.len() ==> (#[trigger] m[i]).1.len() <= 0x3FFFFFFF && forall|j: int|
                0 <= j < m[i].1.len() ==> (#[trigger] m[i].1[j]).wf(),
        row.1.len() <= 0x3FFFFFFF,
        forall|j: int| 0 <= j < row.1.len() ==> (#[trigger] row.1[j]).wf(),
    ensures
        forall|i: int, j: int|
            0 <= i < j < m.push(row).len() ==> (#[trigger] m.push(row)[i]).0 != (#[trigger] m.push(
                row,
            )[j]).0,
        forall|i: int|
            0 <= i < m.push(row).len() ==> (#[trigger] m.push(row)[i]).1.len() <= 0x3FFFFFFF
                && forall|j: int|
                0 <= j < m.push(row)[i].1.len() ==> (#[trigger] m.push(row)[i].1[j]).wf(),
{
    let r = m.push(row);
    assert forall|i: int, j: int|
        0 <= i < j < r.len() implies (#[trigger] r[i]).0 != (#[trigger] r[j]).0 by {
        assert(r[i] == (if i < m.len() { m[i] } else { row }));
        assert(r[j] == (if j < m.len() { m[j] } else { row }));
    }
    assert forall|i: int|
        0 <= i < r.len() implies (#[trigger] r[i]).1.len() <= 0x3FFFFFFF && forall|j: int|
        0 <= j < r[i].1.len() ==> (#[trigger] r[i].1[j]).wf() by {
        assert(r[i] == (if i < m.len() { m[i] } else { row }));
    }
}

} // verus!
