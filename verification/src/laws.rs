//! The laws the store keeps, proved once and for all over the specification
//! functions its contracts are written in.

use vstd::prelude::*;
use vstd::multiset::Multiset;

use crate::GridEntry;
use crate::GridKey;
use crate::MatchEntry;
use crate::MatchOpts;
use crate::builder::lemma_span_entries_bound;
use crate::builder::span_lang_entries;
use crate::builder::stored_entries;
use crate::bytes::be32_value;
use crate::codec::entries_of_record;
use crate::codec::spec_decode_record;
use crate::keys::TypeMarker;
use crate::keys::enc_key;
use crate::keys::lemma_enc_key_injective;
use crate::keys::lemma_enc_key_marker;
use crate::keys::lemma_key_roundtrip;
use crate::matching::ScoredCoord;
use crate::keys::marker_byte;
use crate::keys::parse_key_spec;
use crate::keys::spec_matches_language;
use crate::matching::expand_all;
use crate::matching::group_end;
use crate::matching::lemma_group_end_bounds;
use crate::matching::lemma_sort_desc_elems;
use crate::matching::me_of;
use crate::matching::nibble;
use crate::matching::sc_of;
use crate::matching::scored_coords;
use crate::matching::scored_of_range;
use crate::matching::sort_desc;
use crate::matching::spec_match_stream;
use crate::matching::stream_from;
use crate::sorting::ekey;
use crate::sorting::idc_of;
use crate::sorting::insert_e;
use crate::sorting::lemma_sort_e_elems;
use crate::sorting::lemma_sort_e_sorted;
use crate::sorting::rs_of;
use crate::sorting::sort_e;
use crate::sorting::strictly_sorted;
use crate::spatial::rank_of;
use crate::spatial::spec_within_radius;
use crate::store::admission;
use crate::store::concat_sel;
use crate::store::mset_drain;
use crate::store::mset_max;
use crate::store::mset_min;
use crate::store::find_value;
use crate::store::lemma_find_value_at;
use crate::store::lex_le;
use crate::store::scan_ordered;
use crate::store::lemma_find_value_none_no_key;
use crate::store::parse_keys_spec;
use crate::store::insert_rank;
use crate::store::sort_rank;
use crate::zorder::lemma_morton_roundtrip;
use crate::zorder::spec_interleave;

verus! {

// ---------------------------------------------------------------------------
// Round trip: write, then read
// ---------------------------------------------------------------------------
/// What the builder's `finish` promises for a collected key is exactly what
/// the reader's `get` decodes: the entries come back as the same collection
/// in the record's natural descending order, duplicates collapsed.
pub proof fn lemma_round_trip(pairs: Seq<(Vec<u8>, Vec<u8>)>, k: GridKey, es: Seq<GridEntry>)
    requires
        stored_entries(pairs, k) == Some(sort_e(es)),
    ensures
        match find_value(pairs, enc_key(TypeMarker::SinglePhrase, k)) {
            Some(v) => spec_decode_record(v) matches Some(ms) && entries_of_record(ms) == sort_e(
                es,
            ),
            None => false,
        },
{
}

/// A key the builder never collected is absent from the finished store:
/// looking it up finds nothing, so `get` returns `Ok(None)`. The premises
/// are exactly what `finish` ensures of its output's layout.
pub proof fn lemma_uncollected_key_absent(
    pairs: Seq<(Vec<u8>, Vec<u8>)>,
    mo: Seq<(GridKey, Seq<GridEntry>)>,
    k: GridKey,
)
    requires
        pairs.len() >= mo.len(),
        forall|j: int|
            0 <= j < mo.len() ==> (#[trigger] pairs[j]).0@ == enc_key(
                TypeMarker::SinglePhrase,
                mo[j].0,
            ),
        forall|j: int|
            mo.len() <= j < pairs.len() ==> (#[trigger] pairs[j]).0@.len() >= 1
                && pairs[j].0@[0] != marker_byte(TypeMarker::SinglePhrase),
        forall|j: int| 0 <= j < mo.len() ==> (#[trigger] mo[j]).0 != k,
    ensures
        find_value(pairs, enc_key(TypeMarker::SinglePhrase, k)) is None,
        stored_entries(pairs, k) is None,
{
    let kb = enc_key(TypeMarker::SinglePhrase, k);
    lemma_enc_key_marker(TypeMarker::SinglePhrase, k);
    assert forall|j: int| 0 <= j < pairs.len() implies (#[trigger] pairs[j]).0@ != kb by {
        if j < mo.len() {
            if pairs[j].0@ == kb {
                lemma_enc_key_injective(TypeMarker::SinglePhrase, mo[j].0, k);
            }
        } else {
            assert(kb[0] == marker_byte(TypeMarker::SinglePhrase));
        }
    }
    lemma_find_value_none_no_key(pairs, kb);
}

/// A lexicographic comparison either agrees on a prefix or finds a first
/// strictly smaller byte inside it.
proof fn lemma_lex_prefix(a: Seq<u8>, b: Seq<u8>, n: int)
    requires
        lex_le(a, b),
        0 <= n <= a.len(),
        n <= b.len(),
    ensures
        (forall|k: int| 0 <= k < n ==> a[k] == b[k]) || exists|p: int|
            0 <= p < n && #[trigger] a[p] < b[p] && forall|k: int| 0 <= k < p ==> a[k] == b[k],
    decreases n,
{
    if n > 0 {
        if a[0] < b[0] {
            assert(exists|p: int|
                0 <= p < n && #[trigger] a[p] < b[p] && forall|k: int| 0 <= k < p ==> a[k] == b[k])
                by {
                assert(a[0] < b[0] && (forall|k: int| 0 <= k < 0 ==> a[k] == b[k]));
            }
        } else {
            assert(a[0] == b[0]);
            lemma_lex_prefix(a.drop_first(), b.drop_first(), n - 1);
            if forall|k: int| 0 <= k < n - 1 ==> a.drop_first()[k] == b.drop_first()[k] {
                assert forall|k: int| 0 <= k < n implies a[k] == b[k] by {
                    if k > 0 {
                        assert(a.drop_first()[k - 1] == b.drop_first()[k - 1]);
                    }
                }
            } else {
                let p = choose|p: int|
                    0 <= p < n - 1 && #[trigger] a.drop_first()[p] < b.drop_first()[p] && forall|
                        k: int,
                    | 0 <= k < p ==> a.drop_first()[k] == b.drop_first()[k];
                assert(a[p + 1] < b[p + 1]);
                assert(forall|k: int| 0 <= k < p + 1 ==> a[k] == b[k]) by {
                    assert forall|k: int| 0 <= k < p + 1 implies a[k] == b[k] by {
                        if k > 0 {
                            assert(a.drop_first()[k - 1] == b.drop_first()[k - 1]);
                        }
                    }
                }
                assert(exists|p2: int|
                    0 <= p2 < n && #[trigger] a[p2] < b[p2] && forall|k: int|
                        0 <= k < p2 ==> a[k] == b[k]);
            }
        }
    }
}

/// A big-endian word as the weighted sum of its bytes.
proof fn lemma_be32_as_sum(s: Seq<u8>)
    requires
        s.len() == 4,
    ensures
        be32_value(s) == s[0] * 0x1000000 + s[1] * 0x10000 + s[2] * 0x100 + s[3],
{
    let x0 = s[0];
    let x1 = s[1];
    let x2 = s[2];
    let x3 = s[3];
    assert((((x0 as u32) << 24) | ((x1 as u32) << 16) | ((x2 as u32) << 8) | (x3 as u32)) == x0
        * 0x1000000 + x1 * 0x10000 + x2 * 0x100 + x3) by (bit_vector);
}

/// Keys in lexicographic order under one marker carry non-decreasing phrase
/// ids: the big-endian phrase field follows the byte order.
proof fn lemma_lex_phrases(a: Seq<u8>, b: Seq<u8>)
    requires
        lex_le(a, b),
        5 <= a.len(),
        5 <= b.len(),
        a[0] == b[0],
    ensures
        be32_value(a.subrange(1, 5)) <= be32_value(b.subrange(1, 5)),
{
    lemma_lex_prefix(a, b, 5);
    let a4 = a.subrange(1, 5);
    let b4 = b.subrange(1, 5);
    lemma_be32_as_sum(a4);
    lemma_be32_as_sum(b4);
    if forall|k: int| 0 <= k < 5 ==> a[k] == b[k] {
        assert(a4 =~= b4);
    } else {
        let p = choose|p: int|
            0 <= p < 5 && #[trigger] a[p] < b[p] && forall|k: int| 0 <= k < p ==> a[k] == b[k];
        assert(p != 0);
        assert(a4[p - 1] < b4[p - 1] && forall|k: int| 0 <= k < p - 1 ==> a4[k] == b4[k]);
    }
}

/// An ascending single-marker store lists its keys in ascending phrase
/// order: the sorted-scan assumption of the format, stated once.
pub proof fn lemma_ordered_store_lists_phrases_ascending(pairs: Seq<(Vec<u8>, Vec<u8>)>)
    requires
        scan_ordered(pairs),
        forall|j: int| 0 <= j < pairs.len() ==> parse_key_spec((#[trigger] pairs[j]).0@) is Some,
        forall|i: int, j: int|
            0 <= i < pairs.len() && 0 <= j < pairs.len() ==> (#[trigger] pairs[i]).0@[0] == (
            #[trigger] pairs[j]).0@[0],
    ensures
        match parse_keys_spec(pairs, 0) {
            Some(ks) => ks.len() == pairs.len() && forall|i: int, j: int|
                0 <= i < j < ks.len() ==> (#[trigger] ks[i]).phrase_id <= (
                #[trigger] ks[j]).phrase_id,
            None => false,
        },
{
    lemma_parse_keys_pointwise(pairs, 0);
    let ks = parse_keys_spec(pairs, 0)->Some_0;
    assert forall|i: int, j: int| 0 <= i < j < ks.len() implies (#[trigger] ks[i]).phrase_id <= (
    #[trigger] ks[j]).phrase_id by {
        let a = pairs[i].0@;
        let b = pairs[j].0@;
        assert(lex_le(a, b));
        lemma_lex_phrases(a, b);
        assert(ks[i] == parse_key_spec(a)->Some_0);
        assert(ks[j] == parse_key_spec(b)->Some_0);
    }
}

/// When every stored key parses, the listing succeeds and is pointwise the
/// parse of each key.
proof fn lemma_parse_keys_pointwise(pairs: Seq<(Vec<u8>, Vec<u8>)>, i: int)
    requires
        0 <= i <= pairs.len(),
        forall|j: int| 0 <= j < pairs.len() ==> parse_key_spec((#[trigger] pairs[j]).0@) is Some,
    ensures
        match parse_keys_spec(pairs, i) {
            Some(ks) => ks.len() == pairs.len() - i && forall|j: int|
                i <= j < pairs.len() ==> ks[j - i] == parse_key_spec(
                    (#[trigger] pairs[j]).0@,
                )->Some_0,
            None => false,
        },
    decreases pairs.len() - i,
{
    if i < pairs.len() {
        lemma_parse_keys_pointwise(pairs, i + 1);
        let k = parse_key_spec(pairs[i].0@)->Some_0;
        match parse_keys_spec(pairs, i + 1) {
            None => {},
            Some(rest) => {
                assert forall|j: int| i <= j < pairs.len() implies (seq![k] + rest)[j - i]
                    == parse_key_spec((#[trigger] pairs[j]).0@)->Some_0 by {
                    if j > i {
                        assert((seq![k] + rest)[j - i] == rest[j - i - 1]);
                    }
                }
            },
        }
    }
}

/// Row `j` of a finished store holds exactly the record `get` of its key
/// finds: what `iter` yields for a collected key and what `get` returns
/// agree. The premises are `finish`'s layout clauses plus the builder's key
/// uniqueness.
pub proof fn lemma_iter_matches_get(
    pairs: Seq<(Vec<u8>, Vec<u8>)>,
    mo: Seq<(GridKey, Seq<GridEntry>)>,
    j: int,
)
    requires
        pairs.len() >= mo.len(),
        0 <= j < mo.len(),
        forall|j2: int|
            0 <= j2 < mo.len() ==> (#[trigger] pairs[j2]).0@ == enc_key(
                TypeMarker::SinglePhrase,
                mo[j2].0,
            ),
        forall|a: int, b: int| 0 <= a < b < mo.len() ==> (#[trigger] mo[a]).0 != (#[trigger] mo[b]).0,
    ensures
        find_value(pairs, enc_key(TypeMarker::SinglePhrase, mo[j].0)) == Some(pairs[j].1@),
{
    let kb = enc_key(TypeMarker::SinglePhrase, mo[j].0);
    assert forall|j2: int| 0 <= j2 < j implies (#[trigger] pairs[j2]).0@ != kb by {
        if pairs[j2].0@ == kb {
            lemma_enc_key_injective(TypeMarker::SinglePhrase, mo[j2].0, mo[j].0);
        }
    }
    lemma_find_value_at(pairs, kb, j);
}

/// The keys of a finished store without boundaries are the collected keys in
/// collection order, a zero language set reading back as "matches any".
pub proof fn lemma_keys_of_finished_store(
    pairs: Seq<(Vec<u8>, Vec<u8>)>,
    mo: Seq<(GridKey, Seq<GridEntry>)>,
)
    requires
        pairs.len() == mo.len(),
        forall|j: int|
            0 <= j < mo.len() ==> (#[trigger] pairs[j]).0@ == enc_key(
                TypeMarker::SinglePhrase,
                mo[j].0,
            ),
    ensures
        match parse_keys_spec(pairs, 0) {
            Some(ks) => ks.len() == mo.len() && forall|j: int|
                0 <= j < mo.len() ==> ks[j] == (if (#[trigger] mo[j]).0.lang_set == 0 {
                    GridKey {
                        phrase_id: mo[j].0.phrase_id,
                        lang_set: 0xffffffffffffffffffffffffffffffff,
                    }
                } else {
                    mo[j].0
                }),
            None => false,
        },
{
    lemma_parse_keys_from(pairs, mo, 0);
}

proof fn lemma_parse_keys_from(
    pairs: Seq<(Vec<u8>, Vec<u8>)>,
    mo: Seq<(GridKey, Seq<GridEntry>)>,
    i: int,
)
    requires
        pairs.len() == mo.len(),
        0 <= i <= mo.len(),
        forall|j: int|
            0 <= j < mo.len() ==> (#[trigger] pairs[j]).0@ == enc_key(
                TypeMarker::SinglePhrase,
                mo[j].0,
            ),
    ensures
        match parse_keys_spec(pairs, i) {
            Some(ks) => ks.len() == mo.len() - i && forall|j: int|
                i <= j < mo.len() ==> ks[j - i] == (if (#[trigger] mo[j]).0.lang_set == 0 {
                    GridKey {
                        phrase_id: mo[j].0.phrase_id,
                        lang_set: 0xffffffffffffffffffffffffffffffff,
                    }
                } else {
                    mo[j].0
                }),
            None => false,
        },
    decreases mo.len() - i,
{
    if i < mo.len() {
        lemma_key_roundtrip(TypeMarker::SinglePhrase, mo[i].0);
        lemma_parse_keys_from(pairs, mo, i + 1);
        let k = parse_key_spec(pairs[i].0@)->Some_0;
        match parse_keys_spec(pairs, i + 1) {
            None => {},
            Some(rest) => {
                assert forall|j: int|
                    i <= j < mo.len() implies (seq![k] + rest)[j - i] == (if (
                    #[trigger] mo[j]).0.lang_set == 0 {
                    GridKey {
                        phrase_id: mo[j].0.phrase_id,
                        lang_set: 0xffffffffffffffffffffffffffffffff,
                    }
                } else {
                    mo[j].0
                }) by {
                    if j > i {
                        assert((seq![k] + rest)[j - i] == rest[j - i - 1]);
                    }
                }
            },
        }
    }
}

/// Bin-table groundwork: what a pre-merged prefix-bin record holds for a
/// boundary span is the span's entries merged and deduplicated, in the
/// record's natural descending order — the same reading a scan of the
/// span's own records yields entry for entry.
pub proof fn lemma_bin_merged_union(
    mo: Seq<(GridKey, Seq<GridEntry>)>,
    lo: u32,
    hi: u32,
    lang: u128,
)
    requires
        forall|i: int|
            0 <= i < mo.len() ==> forall|j: int|
                0 <= j < (#[trigger] mo[i]).1.len() ==> (#[trigger] mo[i].1[j]).wf(),
    ensures
        ({
            let merged = sort_e(span_lang_entries(mo, lo, hi, lang, mo.len() as int));
            let union = span_lang_entries(mo, lo, hi, lang, mo.len() as int);
            &&& strictly_sorted(merged)
            &&& forall|i: int| 0 <= i < merged.len() ==> union.contains(#[trigger] merged[i])
            &&& forall|j: int| 0 <= j < union.len() ==> merged.contains(#[trigger] union[j])
        }),
{
    let union = span_lang_entries(mo, lo, hi, lang, mo.len() as int);
    lemma_span_entries_bound(mo, lo, hi, lang, mo.len() as int);
    lemma_natural_order(union);
    assert forall|i: int| 0 <= i < sort_e(union).len() implies union.contains(
        #[trigger] sort_e(union)[i],
    ) by {}
}

/// The natural key is injective on valid entries: equal keys mean equal
/// entries.
pub proof fn lemma_ekey_injective(a: GridEntry, b: GridEntry)
    requires
        a.wf(),
        b.wf(),
        ekey(a) == ekey(b),
    ensures
        a == b,
{
    let ra = rs_of(a) as int;
    let rb = rs_of(b) as int;
    let ma = spec_interleave(a.x, a.y) as int;
    let mb = spec_interleave(b.x, b.y) as int;
    let ia = idc_of(a) as int;
    let ib = idc_of(b) as int;
    assert(ra * 0x10000000000000000 + ma * 0x100000000 + ia == rb * 0x10000000000000000 + mb
        * 0x100000000 + ib);
    assert(ra == rb && ma == mb && ia == ib) by (nonlinear_arith)
        requires
            0 <= ra < 0x100 && 0 <= rb < 0x100,
            0 <= ma < 0x100000000 && 0 <= mb < 0x100000000,
            0 <= ia < 0x100000000 && 0 <= ib < 0x100000000,
            ra * 0x10000000000000000 + ma * 0x100000000 + ia == rb * 0x10000000000000000 + mb
                * 0x100000000 + ib,
    ;
    assert(a.relev == b.relev && a.score == b.score) by {
        assert(rs_of(a) == a.relev * 16 + a.score && rs_of(b) == b.relev * 16 + b.score);
    }
    lemma_morton_roundtrip(a.x, a.y);
    lemma_morton_roundtrip(b.x, b.y);
    assert(a.id == b.id && a.source_phrase_hash == b.source_phrase_hash) by {
        assert(idc_of(a) == a.id * 256 + a.source_phrase_hash && idc_of(b) == b.id * 256
            + b.source_phrase_hash);
    }
}

/// Insertion keeps the new entry (or an exact duplicate already present).
proof fn lemma_insert_e_keeps_x(s: Seq<GridEntry>, x: GridEntry)
    requires
        x.wf(),
        forall|i: int| 0 <= i < s.len() ==> (#[trigger] s[i]).wf(),
    ensures
        insert_e(s, x).contains(x),
    decreases s.len(),
{
    if s.len() == 0 {
        assert(insert_e(s, x)[0] == x);
    } else if ekey(x) > ekey(s[0]) {
        assert(insert_e(s, x)[0] == x);
    } else if ekey(x) == ekey(s[0]) {
        lemma_ekey_injective(x, s[0]);
        assert(insert_e(s, x)[0] == x);
    } else {
        lemma_insert_e_keeps_x(s.drop_first(), x);
        let inner = insert_e(s.drop_first(), x);
        let i = choose|i: int| 0 <= i < inner.len() && inner[i] == x;
        assert(insert_e(s, x)[i + 1] == x);
    }
}

/// Insertion keeps everything that was already there.
proof fn lemma_insert_e_keeps_all(s: Seq<GridEntry>, x: GridEntry)
    ensures
        forall|j: int| 0 <= j < s.len() ==> insert_e(s, x).contains(#[trigger] s[j]),
    decreases s.len(),
{
    if s.len() == 0 {
    } else if ekey(x) > ekey(s[0]) {
        assert forall|j: int| 0 <= j < s.len() implies insert_e(s, x).contains(
            #[trigger] s[j],
        ) by {
            assert(insert_e(s, x)[j + 1] == s[j]);
        }
    } else if ekey(x) == ekey(s[0]) {
        assert forall|j: int| 0 <= j < s.len() implies insert_e(s, x).contains(
            #[trigger] s[j],
        ) by {
            assert(insert_e(s, x)[j] == s[j]);
        }
    } else {
        lemma_insert_e_keeps_all(s.drop_first(), x);
        let inner = insert_e(s.drop_first(), x);
        assert forall|j: int| 0 <= j < s.len() implies insert_e(s, x).contains(
            #[trigger] s[j],
        ) by {
            if j == 0 {
                assert(insert_e(s, x)[0] == s[0]);
            } else {
                assert(s.drop_first()[j - 1] == s[j]);
                assert(inner.contains(s[j]));
                let i = choose|i: int| 0 <= i < inner.len() && inner[i] == s[j];
                assert(insert_e(s, x)[i + 1] == s[j]);
            }
        }
    }
}

/// Everything in the input is still found after sorting.
#[verifier::spinoff_prover]
proof fn lemma_sort_e_complete(s: Seq<GridEntry>)
    requires
        forall|i: int| 0 <= i < s.len() ==> (#[trigger] s[i]).wf(),
    ensures
        forall|j: int| 0 <= j < s.len() ==> sort_e(s).contains(#[trigger] s[j]),
    decreases s.len(),
{
    if s.len() > 0 {
        assert(forall|i: int|
            0 <= i < s.drop_last().len() ==> (#[trigger] s.drop_last()[i]).wf());
        lemma_sort_e_complete(s.drop_last());
        let sorted = sort_e(s.drop_last());
        lemma_sort_e_elems(s.drop_last());
        assert forall|i: int| 0 <= i < sorted.len() implies (#[trigger] sorted[i]).wf() by {
            let j = choose|j: int| 0 <= j < s.drop_last().len() && s.drop_last()[j] == sorted[i];
        }
        lemma_insert_e_keeps_x(sorted, s.last());
        lemma_insert_e_keeps_all(sorted, s.last());
        assert forall|j: int| 0 <= j < s.len() implies sort_e(s).contains(#[trigger] s[j]) by {
            if j == s.len() - 1 {
                assert(sort_e(s).contains(s.last()));
            } else {
                assert(s.drop_last()[j] == s[j]);
                assert(sorted.contains(s[j]));
                let i0 = choose|i0: int| 0 <= i0 < sorted.len() && sorted[i0] == s[j];
                assert(insert_e(sorted, s.last()).contains(sorted[i0]));
            }
        }
    }
}

/// Reverse ordering: sorting for the record is faithful. The result is
/// strictly descending by the natural key `(relev, score, morton(x, y), id)`
/// and holds exactly the distinct entries of the input: nothing is invented,
/// and only exact duplicates are dropped.
pub proof fn lemma_natural_order(s: Seq<GridEntry>)
    requires
        forall|i: int| 0 <= i < s.len() ==> (#[trigger] s[i]).wf(),
    ensures
        strictly_sorted(sort_e(s)),
        forall|i: int| 0 <= i < sort_e(s).len() ==> s.contains(#[trigger] sort_e(s)[i]),
        forall|j: int| 0 <= j < s.len() ==> sort_e(s).contains(#[trigger] s[j]),
{
    lemma_sort_e_sorted(s);
    lemma_sort_e_elems(s);
    lemma_sort_e_complete(s);
    assert forall|i: int| 0 <= i < sort_e(s).len() implies s.contains(
        #[trigger] sort_e(s)[i],
    ) by {
        let j = choose|j: int| 0 <= j < s.len() && s[j] == sort_e(s)[i];
    }
}

// ---------------------------------------------------------------------------
// Ordering of the streamed result
// ---------------------------------------------------------------------------
pub open spec fn sorted_by_rank(s: Seq<MatchEntry>) -> bool {
    forall|i: int, j: int| 0 <= i < j < s.len() ==> rank_of(s[i]) >= rank_of(s[j])
}

proof fn lemma_insert_rank_head(s: Seq<MatchEntry>, x: MatchEntry, cap: u128)
    requires
        rank_of(x) <= cap,
        forall|i: int| 0 <= i < s.len() ==> rank_of(s[i]) <= cap,
    ensures
        forall|i: int| 0 <= i < insert_rank(s, x).len() ==> rank_of(insert_rank(s, x)[i]) <= cap,
    decreases s.len(),
{
    if s.len() == 0 {
    } else if rank_of(x) > rank_of(s[0]) {
        assert forall|i: int| 0 <= i < insert_rank(s, x).len() implies rank_of(
            insert_rank(s, x)[i],
        ) <= cap by {
            if i > 0 {
                assert(insert_rank(s, x)[i] == s[i - 1]);
            }
        }
    } else {
        assert(forall|i: int|
            0 <= i < s.drop_first().len() ==> rank_of(#[trigger] s.drop_first()[i]) <= cap);
        lemma_insert_rank_head(s.drop_first(), x, cap);
        let inner = insert_rank(s.drop_first(), x);
        assert forall|i: int| 0 <= i < insert_rank(s, x).len() implies rank_of(
            insert_rank(s, x)[i],
        ) <= cap by {
            if i > 0 {
                assert(insert_rank(s, x)[i] == inner[i - 1]);
            }
        }
    }
}

proof fn lemma_insert_rank_sorted(s: Seq<MatchEntry>, x: MatchEntry)
    requires
        sorted_by_rank(s),
    ensures
        sorted_by_rank(insert_rank(s, x)),
    decreases s.len(),
{
    if s.len() == 0 {
    } else if rank_of(x) > rank_of(s[0]) {
    } else {
        assert(sorted_by_rank(s.drop_first()));
        lemma_insert_rank_sorted(s.drop_first(), x);
        let inner = insert_rank(s.drop_first(), x);
        let r = seq![s[0]] + inner;
        assert forall|i: int, j: int| 0 <= i < j < r.len() implies rank_of(r[i]) >= rank_of(
            r[j],
        ) by {
            if i == 0 {
                assert(forall|k: int|
                    0 <= k < s.drop_first().len() ==> rank_of(#[trigger] s.drop_first()[k])
                        <= rank_of(s[0]));
                lemma_insert_rank_head(s.drop_first(), x, rank_of(s[0]));
                assert(r[j] == inner[j - 1]);
            }
        }
    }
}

/// The streamed result is non-increasing in the composite rank
/// `(relev, scoredist, matches_language, x, y, id)`: the ordering guarantee
/// of the merger, since its output is exactly `sort_rank` of the drained
/// streams.
pub proof fn lemma_stream_output_ordered(s: Seq<MatchEntry>)
    ensures
        sorted_by_rank(sort_rank(s)),
    decreases s.len(),
{
    if s.len() > 0 {
        lemma_stream_output_ordered(s.drop_last());
        lemma_insert_rank_sorted(sort_rank(s.drop_last()), s.last());
    }
}

// ---------------------------------------------------------------------------
// The language boost
// ---------------------------------------------------------------------------
/// What every emitted entry's relevance owes to the language flag: the
/// stored level is scaled by 25 when the language matches or the coordinate
/// lies within the proximity radius, and by 24 (a 4% penalty) otherwise.
pub open spec fn boost_ok(e: MatchEntry, opts: MatchOpts, ml: bool, radius: u32) -> bool {
    let f = if ml || (opts.proximity is Some && spec_within_radius(
        opts.zoom,
        e.distance,
        radius,
    )) {
        25int
    } else {
        24int
    };
    &&& e.matches_language == ml
    &&& e.relev as int % f == 0
    &&& e.relev as int / f <= 5
}

/// What scoring guarantees of each scored coordinate.
spec fn sc_consistent(sc: ScoredCoord, opts: MatchOpts, radius: u32) -> bool {
    match opts.proximity {
        Some(p) => sc.within == spec_within_radius(opts.zoom, sc.distance, radius),
        None => !sc.within && sc.distance == 0,
    }
}

proof fn lemma_scored_coords_consistent(
    bi: usize,
    bm: (u8, Seq<(u32, Seq<u32>)>),
    ci: int,
    opts: MatchOpts,
    radius: u32,
)
    ensures
        forall|i: int|
            0 <= i < scored_coords(bi, bm, ci, opts, radius).len() ==> sc_consistent(
                #[trigger] scored_coords(bi, bm, ci, opts, radius)[i],
                opts,
                radius,
            ),
    decreases bm.1.len() - ci,
{
    if ci < 0 || ci >= bm.1.len() {
    } else {
        lemma_scored_coords_consistent(bi, bm, ci + 1, opts, radius);
        let rest = scored_coords(bi, bm, ci + 1, opts, radius);
        let whole = scored_coords(bi, bm, ci, opts, radius);
        assert forall|i: int| 0 <= i < whole.len() implies sc_consistent(
            #[trigger] whole[i],
            opts,
            radius,
        ) by {
            if whole.len() == rest.len() + 1 {
                if i > 0 {
                    assert(whole[i] == rest[i - 1]);
                }
            } else {
                assert(whole[i] == rest[i]);
            }
        }
    }
}

proof fn lemma_scored_range_consistent(
    ms: Seq<(u8, Seq<(u32, Seq<u32>)>)>,
    b: int,
    end: int,
    opts: MatchOpts,
    radius: u32,
)
    ensures
        forall|i: int|
            0 <= i < scored_of_range(ms, b, end, opts, radius).len() ==> sc_consistent(
                #[trigger] scored_of_range(ms, b, end, opts, radius)[i],
                opts,
                radius,
            ),
    decreases end - b,
{
    if b < 0 || b >= end || end > ms.len() {
    } else {
        lemma_scored_coords_consistent(b as usize, ms[b], 0, opts, radius);
        lemma_scored_range_consistent(ms, b + 1, end, opts, radius);
        let head = scored_coords(b as usize, ms[b], 0, opts, radius);
        let rest = scored_of_range(ms, b + 1, end, opts, radius);
        let whole = scored_of_range(ms, b, end, opts, radius);
        assert forall|i: int| 0 <= i < whole.len() implies sc_consistent(
            #[trigger] whole[i],
            opts,
            radius,
        ) by {
            if i < head.len() {
                assert(whole[i] == head[i]);
            } else {
                assert(whole[i] == rest[i - head.len()]);
            }
        }
    }
}

proof fn lemma_expand_boost(
    ms: Seq<(u8, Seq<(u32, Seq<u32>)>)>,
    scs: Seq<ScoredCoord>,
    level: u8,
    ml: bool,
    opts: MatchOpts,
    radius: u32,
    k: int,
)
    requires
        level <= 5,
        forall|i: int| 0 <= i < scs.len() ==> sc_consistent(#[trigger] scs[i], opts, radius),
    ensures
        forall|i: int|
            0 <= i < expand_all(ms, scs, level, ml, k).len() ==> boost_ok(
                #[trigger] expand_all(ms, scs, level, ml, k)[i],
                opts,
                ml,
                radius,
            ),
    decreases scs.len() - k,
{
    if k < 0 || k >= scs.len() {
    } else {
        lemma_expand_boost(ms, scs, level, ml, opts, radius, k + 1);
        let sc = scs[k];
        let ids = ms[sc.b as int].1[sc.c as int].1;
        let head = ids.map_values(|idc: u32| me_of(sc, level, ml, idc));
        let rest = expand_all(ms, scs, level, ml, k + 1);
        let whole = expand_all(ms, scs, level, ml, k);
        assert forall|i: int| 0 <= i < whole.len() implies boost_ok(
            #[trigger] whole[i],
            opts,
            ml,
            radius,
        ) by {
            if i < head.len() {
                assert(whole[i] == head[i]);
                let e = me_of(sc, level, ml, ids[i]);
                assert(e.distance == sc.distance && e.matches_language == ml);
                assert(level <= 5 && e.relev == (if ml || sc.within {
                    25int
                } else {
                    24int
                }) * level);
                if ml || sc.within {
                    assert((25 * level) as int % 25 == 0 && (25 * level) as int / 25 == level);
                } else {
                    assert((24 * level) as int % 24 == 0 && (24 * level) as int / 24 == level);
                }
            } else {
                assert(whole[i] == rest[i - head.len()]);
            }
        }
    }
}

proof fn lemma_stream_from_boost(
    ms: Seq<(u8, Seq<(u32, Seq<u32>)>)>,
    start: int,
    opts: MatchOpts,
    ml: bool,
    radius: u32,
)
    requires
        forall|i: int| 0 <= i < ms.len() ==> nibble(#[trigger] ms[i]) <= 5,
    ensures
        forall|i: int|
            0 <= i < stream_from(ms, start, opts, ml, radius).len() ==> boost_ok(
                #[trigger] stream_from(ms, start, opts, ml, radius)[i],
                opts,
                ml,
                radius,
            ),
    decreases ms.len() - start,
{
    if start < 0 || start >= ms.len() {
    } else {
        let e = group_end(ms, start);
        lemma_group_end_bounds(ms, start);
        lemma_stream_from_boost(ms, e, opts, ml, radius);
        lemma_scored_range_consistent(ms, start, e, opts, radius);
        let unsorted = scored_of_range(ms, start, e, opts, radius);
        let scs = sort_desc(unsorted);
        lemma_sort_desc_elems(unsorted);
        assert forall|i: int| 0 <= i < scs.len() implies sc_consistent(
            #[trigger] scs[i],
            opts,
            radius,
        ) by {
            let j = choose|j: int| 0 <= j < unsorted.len() && unsorted[j] == scs[i];
        }
        lemma_expand_boost(ms, scs, nibble(ms[start]), ml, opts, radius, 0);
        let head = expand_all(ms, scs, nibble(ms[start]), ml, 0);
        let rest = stream_from(ms, e, opts, ml, radius);
        let whole = stream_from(ms, start, opts, ml, radius);
        assert forall|i: int| 0 <= i < whole.len() implies boost_ok(
            #[trigger] whole[i],
            opts,
            ml,
            radius,
        ) by {
            if i < head.len() {
                assert(whole[i] == head[i]);
            } else {
                assert(whole[i] == rest[i - head.len()]);
            }
        }
    }
}

/// Language boost law: for a record whose key's language set misses the
/// query's (`ml == false`), every emitted entry carries the 4% relevance
/// penalty (`24 * level` over 125) unless it lies within the proximity
/// radius, in which case the stored relevance stands (`25 * level`); and for
/// a matching record the stored relevance always stands.
pub proof fn lemma_language_boost(
    ms: Seq<(u8, Seq<(u32, Seq<u32>)>)>,
    opts: MatchOpts,
    ml: bool,
    radius: u32,
)
    requires
        forall|i: int| 0 <= i < ms.len() ==> nibble(#[trigger] ms[i]) <= 5,
    ensures
        forall|i: int|
            0 <= i < spec_match_stream(ms, opts, ml, radius).len() ==> boost_ok(
                #[trigger] spec_match_stream(ms, opts, ml, radius)[i],
                opts,
                ml,
                radius,
            ),
{
    lemma_stream_from_boost(ms, 0, opts, ml, radius);
}

// ---------------------------------------------------------------------------
// Bounding-box idempotence
// ---------------------------------------------------------------------------
proof fn lemma_scored_coords_bbox(
    bi: usize,
    bm: (u8, Seq<(u32, Seq<u32>)>),
    ci: int,
    opts1: MatchOpts,
    opts2: MatchOpts,
    radius: u32,
)
    requires
        opts1.zoom == opts2.zoom,
        opts1.proximity == opts2.proximity,
        opts1.bbox matches Some(bb) && bb[0] == 0 && bb[1] == 0 && bb[2] == 0xFFFF && bb[3]
            == 0xFFFF,
        opts2.bbox is None,
    ensures
        scored_coords(bi, bm, ci, opts1, radius) == scored_coords(bi, bm, ci, opts2, radius),
    decreases bm.1.len() - ci,
{
    if ci < 0 || ci >= bm.1.len() {
    } else {
        lemma_scored_coords_bbox(bi, bm, ci + 1, opts1, opts2, radius);
        assert(sc_of(bi, ci as usize, bm.0, bm.1[ci].0, opts1, radius) == sc_of(
            bi,
            ci as usize,
            bm.0,
            bm.1[ci].0,
            opts2,
            radius,
        ));
    }
}

proof fn lemma_scored_range_bbox(
    ms: Seq<(u8, Seq<(u32, Seq<u32>)>)>,
    b: int,
    end: int,
    opts1: MatchOpts,
    opts2: MatchOpts,
    radius: u32,
)
    requires
        opts1.zoom == opts2.zoom,
        opts1.proximity == opts2.proximity,
        opts1.bbox matches Some(bb) && bb[0] == 0 && bb[1] == 0 && bb[2] == 0xFFFF && bb[3]
            == 0xFFFF,
        opts2.bbox is None,
    ensures
        scored_of_range(ms, b, end, opts1, radius) == scored_of_range(ms, b, end, opts2, radius),
    decreases end - b,
{
    if b < 0 || b >= end || end > ms.len() {
    } else {
        lemma_scored_coords_bbox(b as usize, ms[b], 0, opts1, opts2, radius);
        lemma_scored_range_bbox(ms, b + 1, end, opts1, opts2, radius);
    }
}

proof fn lemma_stream_from_bbox(
    ms: Seq<(u8, Seq<(u32, Seq<u32>)>)>,
    start: int,
    opts1: MatchOpts,
    opts2: MatchOpts,
    ml: bool,
    radius: u32,
)
    requires
        opts1.zoom == opts2.zoom,
        opts1.proximity == opts2.proximity,
        opts1.bbox matches Some(bb) && bb[0] == 0 && bb[1] == 0 && bb[2] == 0xFFFF && bb[3]
            == 0xFFFF,
        opts2.bbox is None,
    ensures
        stream_from(ms, start, opts1, ml, radius) == stream_from(ms, start, opts2, ml, radius),
    decreases ms.len() - start,
{
    if start < 0 || start >= ms.len() {
    } else {
        let e = group_end(ms, start);
        lemma_group_end_bounds(ms, start);
        lemma_scored_range_bbox(ms, start, e, opts1, opts2, radius);
        lemma_stream_from_bbox(ms, e, opts1, opts2, ml, radius);
    }
}

/// bbox idempotence: filtering by a bounding box that covers the whole
/// 16-bit tile grid yields exactly the stream of the same query without a
/// bounding box.
pub proof fn lemma_bbox_idempotent(
    ms: Seq<(u8, Seq<(u32, Seq<u32>)>)>,
    opts1: MatchOpts,
    opts2: MatchOpts,
    ml: bool,
    radius: u32,
)
    requires
        opts1.zoom == opts2.zoom,
        opts1.proximity == opts2.proximity,
        opts1.bbox matches Some(bb) && bb[0] == 0 && bb[1] == 0 && bb[2] == 0xFFFF && bb[3]
            == 0xFFFF,
        opts2.bbox is None,
    ensures
        spec_match_stream(ms, opts1, ml, radius) == spec_match_stream(ms, opts2, ml, radius),
{
    lemma_stream_from_bbox(ms, 0, opts1, opts2, ml, radius);
}

// ---------------------------------------------------------------------------
// The queue bound
// ---------------------------------------------------------------------------
/// The admission scan with no bound at all: every nonempty matched stream is
/// kept.
pub open spec fn admission_unbounded(
    pairs: Seq<(Vec<u8>, Vec<u8>)>,
    j: int,
    streams: Seq<Seq<MatchEntry>>,
    queue: Multiset<(u128, usize)>,
    marker: TypeMarker,
    start: u32,
    end: u32,
    qlang: u128,
    opts: MatchOpts,
    radius: u32,
) -> Result<(Seq<Seq<MatchEntry>>, Multiset<(u128, usize)>), crate::GridError>
    decreases pairs.len() - j,
{
    if j < 0 || j >= pairs.len() {
        Ok((streams, queue))
    } else {
        let kb = pairs[j].0@;
        if kb.len() < 1 || kb[0] != marker_byte(marker) {
            admission_unbounded(pairs, j + 1, streams, queue, marker, start, end, qlang, opts, radius)
        } else {
            match parse_key_spec(kb) {
                None => Err(crate::GridError::CorruptRecord),
                Some(k) => if !(start <= k.phrase_id < end) {
                    admission_unbounded(
                        pairs,
                        j + 1,
                        streams,
                        queue,
                        marker,
                        start,
                        end,
                        qlang,
                        opts,
                        radius,
                    )
                } else {
                    match spec_decode_record(pairs[j].1@) {
                        None => Err(crate::GridError::CorruptRecord),
                        Some(ms) => {
                            let ml = spec_matches_language(kb, qlang);
                            let stream = spec_match_stream(ms, opts, ml, radius);
                            if stream.len() == 0 {
                                admission_unbounded(
                                    pairs,
                                    j + 1,
                                    streams,
                                    queue,
                                    marker,
                                    start,
                                    end,
                                    qlang,
                                    opts,
                                    radius,
                                )
                            } else {
                                admission_unbounded(
                                    pairs,
                                    j + 1,
                                    streams.push(stream),
                                    queue.insert((rank_of(stream[0]), streams.len() as usize)),
                                    marker,
                                    start,
                                    end,
                                    qlang,
                                    opts,
                                    radius,
                                )
                            }
                        },
                    }
                },
            }
        }
    }
}

/// Top-K degenerates to the full merge when the bound suffices: a queue
/// bound of at least the number of remaining rows never prunes or replaces
/// anything, so the query returns every matching entry.
pub proof fn lemma_bound_covers_all(
    pairs: Seq<(Vec<u8>, Vec<u8>)>,
    j: int,
    streams: Seq<Seq<MatchEntry>>,
    queue: Multiset<(u128, usize)>,
    marker: TypeMarker,
    start: u32,
    end: u32,
    qlang: u128,
    opts: MatchOpts,
    radius: u32,
    maxv: int,
)
    requires
        0 <= j <= pairs.len(),
        queue.len() + (pairs.len() - j) <= maxv,
    ensures
        admission(pairs, j, streams, queue, marker, start, end, qlang, opts, radius, maxv)
            == admission_unbounded(pairs, j, streams, queue, marker, start, end, qlang, opts, radius),
    decreases pairs.len() - j,
{
    broadcast use vstd::multiset::group_multiset_axioms;

    if j < pairs.len() {
        let kb = pairs[j].0@;
        if kb.len() < 1 || kb[0] != marker_byte(marker) {
            lemma_bound_covers_all(
                pairs,
                j + 1,
                streams,
                queue,
                marker,
                start,
                end,
                qlang,
                opts,
                radius,
                maxv,
            );
        } else {
            match parse_key_spec(kb) {
                None => {},
                Some(k) => if !(start <= k.phrase_id < end) {
                    lemma_bound_covers_all(
                        pairs,
                        j + 1,
                        streams,
                        queue,
                        marker,
                        start,
                        end,
                        qlang,
                        opts,
                        radius,
                        maxv,
                    );
                } else {
                    match spec_decode_record(pairs[j].1@) {
                        None => {},
                        Some(ms) => {
                            let ml = spec_matches_language(kb, qlang);
                            let stream = spec_match_stream(ms, opts, ml, radius);
                            if stream.len() == 0 {
                                lemma_bound_covers_all(
                                    pairs,
                                    j + 1,
                                    streams,
                                    queue,
                                    marker,
                                    start,
                                    end,
                                    qlang,
                                    opts,
                                    radius,
                                    maxv,
                                );
                            } else {
                                assert(queue.len() < maxv);
                                lemma_bound_covers_all(
                                    pairs,
                                    j + 1,
                                    streams.push(stream),
                                    queue.insert((rank_of(stream[0]), streams.len() as usize)),
                                    marker,
                                    start,
                                    end,
                                    qlang,
                                    opts,
                                    radius,
                                    maxv,
                                );
                            }
                        },
                    }
                },
            }
        }
    }
}

// ---------------------------------------------------------------------------
// The queue bound, continued: soundness of pruning
// ---------------------------------------------------------------------------
/// Rank insertion keeps the inserted entry and everything already there.
proof fn lemma_insert_rank_keeps(s: Seq<MatchEntry>, x: MatchEntry)
    ensures
        insert_rank(s, x).contains(x),
        forall|j: int| 0 <= j < s.len() ==> insert_rank(s, x).contains(#[trigger] s[j]),
    decreases s.len(),
{
    if s.len() == 0 {
        assert(insert_rank(s, x)[0] == x);
    } else if rank_of(x) > rank_of(s[0]) {
        assert(insert_rank(s, x)[0] == x);
        assert forall|j: int| 0 <= j < s.len() implies insert_rank(s, x).contains(
            #[trigger] s[j],
        ) by {
            assert(insert_rank(s, x)[j + 1] == s[j]);
        }
    } else {
        lemma_insert_rank_keeps(s.drop_first(), x);
        let inner = insert_rank(s.drop_first(), x);
        let i = choose|i: int| 0 <= i < inner.len() && inner[i] == x;
        assert(insert_rank(s, x)[i + 1] == x);
        assert forall|j: int| 0 <= j < s.len() implies insert_rank(s, x).contains(
            #[trigger] s[j],
        ) by {
            if j == 0 {
                assert(insert_rank(s, x)[0] == s[0]);
            } else {
                assert(s.drop_first()[j - 1] == s[j]);
                assert(inner.contains(s[j]));
                let i2 = choose|i2: int| 0 <= i2 < inner.len() && inner[i2] == s[j];
                assert(insert_rank(s, x)[i2 + 1] == s[j]);
            }
        }
    }
}

/// Ordering by rank neither invents nor drops entries.
pub proof fn lemma_sort_rank_keeps(s: Seq<MatchEntry>)
    ensures
        forall|i: int| 0 <= i < sort_rank(s).len() ==> s.contains(#[trigger] sort_rank(s)[i]),
        forall|j: int| 0 <= j < s.len() ==> sort_rank(s).contains(#[trigger] s[j]),
    decreases s.len(),
{
    if s.len() > 0 {
        lemma_sort_rank_keeps(s.drop_last());
        let sorted = sort_rank(s.drop_last());
        lemma_insert_rank_keeps(sorted, s.last());
        crate::store::lemma_insert_rank_elems(sorted, s.last());
        assert forall|i: int| 0 <= i < sort_rank(s).len() implies s.contains(
            #[trigger] sort_rank(s)[i],
        ) by {
            let v = sort_rank(s)[i];
            if v == s.last() {
                assert(s[s.len() - 1] == v);
            } else {
                let j = choose|j: int| 0 <= j < sorted.len() && sorted[j] == v;
                assert(s.drop_last().contains(v));
                let k = choose|k: int| 0 <= k < s.drop_last().len() && s.drop_last()[k] == v;
                assert(s[k] == v);
            }
        }
        assert forall|j: int| 0 <= j < s.len() implies sort_rank(s).contains(#[trigger] s[j]) by {
            if j < s.len() - 1 {
                assert(s.drop_last()[j] == s[j]);
                assert(sorted.contains(s[j]));
                let i = choose|i: int| 0 <= i < sorted.len() && sorted[i] == s[j];
            }
        }
    }
}

/// Every drained entry comes from one of the selected streams.
proof fn lemma_concat_sel_elems(
    streams: Seq<Seq<MatchEntry>>,
    order: Seq<(u128, usize)>,
    p: int,
)
    ensures
        forall|i: int|
            0 <= i < concat_sel(streams, order, p).len() ==> exists|k: int|
                p <= k < order.len() && streams[(#[trigger] order[k]).1 as int].contains(
                    #[trigger] concat_sel(streams, order, p)[i],
                ),
    decreases order.len() - p,
{
    if p < 0 || p >= order.len() {
    } else {
        lemma_concat_sel_elems(streams, order, p + 1);
        let head = streams[order[p].1 as int];
        let rest = concat_sel(streams, order, p + 1);
        assert forall|i: int| 0 <= i < concat_sel(streams, order, p).len() implies exists|k: int|
            p <= k < order.len() && streams[(#[trigger] order[k]).1 as int].contains(
                #[trigger] concat_sel(streams, order, p)[i],
            ) by {
            if i < head.len() {
                assert(concat_sel(streams, order, p)[i] == head[i]);
                assert(head.contains(concat_sel(streams, order, p)[i]));
                assert(streams[order[p].1 as int].contains(concat_sel(streams, order, p)[i]));
            } else {
                assert(concat_sel(streams, order, p)[i] == rest[i - head.len()]);
                let k = choose|k: int|
                    p + 1 <= k < order.len() && streams[(#[trigger] order[k]).1 as int].contains(
                        rest[i - head.len()],
                    );
                assert(streams[order[k].1 as int].contains(concat_sel(streams, order, p)[i]));
            }
        }
    }
}

/// A selected stream's entries all reach the drained sequence.
proof fn lemma_concat_sel_covers(
    streams: Seq<Seq<MatchEntry>>,
    order: Seq<(u128, usize)>,
    p: int,
    k0: int,
)
    requires
        p <= k0 < order.len(),
        0 <= p,
    ensures
        forall|n: int|
            0 <= n < streams[order[k0].1 as int].len() ==> concat_sel(streams, order, p).contains(
                #[trigger] streams[order[k0].1 as int][n],
            ),
    decreases order.len() - p,
{
    let head = streams[order[p].1 as int];
    let rest = concat_sel(streams, order, p + 1);
    if k0 == p {
        assert forall|n: int| 0 <= n < streams[order[k0].1 as int].len() implies concat_sel(
            streams,
            order,
            p,
        ).contains(#[trigger] streams[order[k0].1 as int][n]) by {
            assert(concat_sel(streams, order, p)[n] == streams[order[k0].1 as int][n]);
        }
    } else {
        lemma_concat_sel_covers(streams, order, p + 1, k0);
        assert forall|n: int| 0 <= n < streams[order[k0].1 as int].len() implies concat_sel(
            streams,
            order,
            p,
        ).contains(#[trigger] streams[order[k0].1 as int][n]) by {
            let v = streams[order[k0].1 as int][n];
            let i = choose|i: int| 0 <= i < rest.len() && rest[i] == v;
            assert(concat_sel(streams, order, p)[head.len() + i] == v);
        }
    }
}

/// Draining a queue enumerates every element it holds.
proof fn lemma_mset_drain_all(q: Multiset<(u128, usize)>, e: (u128, usize))
    requires
        q.count(e) > 0,
    ensures
        mset_drain(q).contains(e),
    decreases q.len(),
{
    broadcast use vstd::multiset::group_multiset_axioms;

    assert(q.len() > 0) by {
        assert(q.count(e) <= q.len());
    }
    crate::store::lemma_mset_max_exists(q);
    let m = mset_max(q);
    if e == m {
        assert(mset_drain(q)[0] == m);
    } else {
        assert(q.remove(m).count(e) == q.count(e));
        lemma_mset_drain_all(q.remove(m), e);
        let rest = mset_drain(q.remove(m));
        let i = choose|i: int| 0 <= i < rest.len() && rest[i] == e;
        assert(mset_drain(q)[i + 1] == e);
    }
}

/// The unbounded scan keeps every stream it admits queued: the result's
/// queue holds one slot per admitted stream, old streams stay in place, and
/// the old queue's contents survive.
proof fn lemma_unbounded_queue_full(
    pairs: Seq<(Vec<u8>, Vec<u8>)>,
    j: int,
    streams: Seq<Seq<MatchEntry>>,
    queue: Multiset<(u128, usize)>,
    marker: TypeMarker,
    start: u32,
    end: u32,
    qlang: u128,
    opts: MatchOpts,
    radius: u32,
)
    requires
        0 <= j <= pairs.len(),
        streams.len() + (pairs.len() - j) <= usize::MAX,
        admission_unbounded(pairs, j, streams, queue, marker, start, end, qlang, opts, radius)
            is Ok,
    ensures
        ({
            let (t2, r2) = admission_unbounded(
                pairs,
                j,
                streams,
                queue,
                marker,
                start,
                end,
                qlang,
                opts,
                radius,
            )->Ok_0;
            &&& t2.len() >= streams.len()
            &&& t2.len() <= streams.len() + (pairs.len() - j)
            &&& forall|k: int| 0 <= k < streams.len() ==> t2[k] == streams[k]
            &&& forall|e: (u128, usize)| queue.count(e) > 0 ==> r2.count(e) > 0
            &&& forall|k: int|
                streams.len() <= k < t2.len() ==> r2.count(
                    (rank_of((#[trigger] t2[k])[0]), k as usize),
                ) > 0 && t2[k].len() >= 1
        }),
    decreases pairs.len() - j,
{
    broadcast use vstd::multiset::group_multiset_axioms;

    if j < 0 || j >= pairs.len() {
    } else {
        let kb = pairs[j].0@;
        if kb.len() < 1 || kb[0] != marker_byte(marker) {
            lemma_unbounded_queue_full(
                pairs, j + 1, streams, queue, marker, start, end, qlang, opts, radius,
            );
        } else {
            match parse_key_spec(kb) {
                None => {},
                Some(k) => if !(start <= k.phrase_id < end) {
                    lemma_unbounded_queue_full(
                        pairs, j + 1, streams, queue, marker, start, end, qlang, opts, radius,
                    );
                } else {
                    match spec_decode_record(pairs[j].1@) {
                        None => {},
                        Some(ms) => {
                            let ml = spec_matches_language(kb, qlang);
                            let stream = spec_match_stream(ms, opts, ml, radius);
                            if stream.len() == 0 {
                                lemma_unbounded_queue_full(
                                    pairs, j + 1, streams, queue, marker, start, end, qlang, opts, radius,
                                );
                            } else {
                                let idx = streams.len() as usize;
                                lemma_unbounded_queue_full(
                                    pairs,
                                    j + 1,
                                    streams.push(stream),
                                    queue.insert((rank_of(stream[0]), idx)),
                                    marker,
                                    start,
                                    end,
                                    qlang,
                                    opts,
                                    radius,
                                );
                            }
                        },
                    }
                },
            }
        }
    }
}

/// The bounded scan only ever selects streams the unbounded scan also keeps.
#[verifier::rlimit(100)]
#[verifier::spinoff_prover]
proof fn lemma_admission_streams_subset(
    pairs: Seq<(Vec<u8>, Vec<u8>)>,
    j: int,
    s: Seq<Seq<MatchEntry>>,
    q: Multiset<(u128, usize)>,
    t: Seq<Seq<MatchEntry>>,
    rq: Multiset<(u128, usize)>,
    marker: TypeMarker,
    start: u32,
    end: u32,
    qlang: u128,
    opts: MatchOpts,
    radius: u32,
    maxv: int,
)
    requires
        forall|i: int| 0 <= i < s.len() ==> t.contains(#[trigger] s[i]),
    ensures
        admission(pairs, j, s, q, marker, start, end, qlang, opts, radius, maxv) is Ok
            <==> admission_unbounded(pairs, j, t, rq, marker, start, end, qlang, opts, radius)
            is Ok,
        admission(pairs, j, s, q, marker, start, end, qlang, opts, radius, maxv) matches Ok(bres)
            ==> (admission_unbounded(pairs, j, t, rq, marker, start, end, qlang, opts, radius)
            matches Ok(ures) && forall|i: int|
            0 <= i < bres.0.len() ==> ures.0.contains(#[trigger] bres.0[i])),
    decreases pairs.len() - j,
{
    broadcast use vstd::multiset::group_multiset_axioms;

    if j < 0 || j >= pairs.len() {
    } else {
        let kb = pairs[j].0@;
        if kb.len() < 1 || kb[0] != marker_byte(marker) {
            lemma_admission_streams_subset(
                pairs, j + 1, s, q, t, rq, marker, start, end, qlang, opts, radius, maxv,
            );
        } else {
            match parse_key_spec(kb) {
                None => {},
                Some(k) => if !(start <= k.phrase_id < end) {
                    lemma_admission_streams_subset(
                        pairs, j + 1, s, q, t, rq, marker, start, end, qlang, opts, radius, maxv,
                    );
                } else {
                    match spec_decode_record(pairs[j].1@) {
                        None => {},
                        Some(ms) => {
                            let ml = spec_matches_language(kb, qlang);
                            let stream = spec_match_stream(ms, opts, ml, radius);
                            if stream.len() == 0 {
                                lemma_admission_streams_subset(
                                    pairs, j + 1, s, q, t, rq, marker, start, end, qlang, opts, radius, maxv,
                                );
                            } else {
                                let t2 = t.push(stream);
                                let rq2 = rq.insert((rank_of(stream[0]), t.len() as usize));
                                let spush = s.push(stream);
                                assert forall|i: int| 0 <= i < spush.len() implies t2.contains(
                                    #[trigger] spush[i],
                                ) by {
                                    if i < s.len() {
                                        assert(t.contains(s[i]));
                                        let k2 = choose|k2: int|
                                            0 <= k2 < t.len() && t[k2] == s[i];
                                        assert(t2[k2] == spush[i]);
                                    } else {
                                        assert(t2[t.len() as int] == spush[i]);
                                    }
                                }
                                assert forall|i: int| 0 <= i < s.len() implies t2.contains(
                                    #[trigger] s[i],
                                ) by {
                                    assert(spush[i] == s[i]);
                                }
                                let key = rank_of(stream[0]);
                                let idx = s.len() as usize;
                                if q.len() < maxv {
                                    lemma_admission_streams_subset(
                                        pairs, j + 1, spush, q.insert((key, idx)), t2, rq2,
                                        marker, start, end, qlang, opts, radius, maxv,
                                    );
                                } else if maxv == 0 {
                                    lemma_admission_streams_subset(
                                        pairs, j + 1, s, q, t2, rq2, marker, start, end, qlang,
                                        opts, radius, maxv,
                                    );
                                } else {
                                    let worst = mset_min(q);
                                    if worst.0 >= key {
                                        lemma_admission_streams_subset(
                                            pairs, j + 1, s, q, t2, rq2, marker, start, end,
                                            qlang, opts, radius, maxv,
                                        );
                                    } else {
                                        lemma_admission_streams_subset(
                                            pairs, j + 1, spush, q.remove(worst).insert((key, idx)),
                                            t2, rq2, marker, start, end, qlang, opts, radius, maxv,
                                        );
                                    }
                                }
                            }
                        },
                    }
                },
            }
        }
    }
}

/// The bounded scan's queue only points at streams it kept, each nonempty.
#[verifier::rlimit(100)]
#[verifier::spinoff_prover]
proof fn lemma_admission_queue_valid(
    pairs: Seq<(Vec<u8>, Vec<u8>)>,
    j: int,
    s: Seq<Seq<MatchEntry>>,
    q: Multiset<(u128, usize)>,
    marker: TypeMarker,
    start: u32,
    end: u32,
    qlang: u128,
    opts: MatchOpts,
    radius: u32,
    maxv: int,
)
    requires
        s.len() + (pairs.len() - j) <= usize::MAX,
        forall|e: (u128, usize)|
            #[trigger] q.count(e) > 0 ==> e.1 < s.len() && s[e.1 as int].len() >= 1,
        admission(pairs, j, s, q, marker, start, end, qlang, opts, radius, maxv) is Ok,
    ensures
        ({
            let (s2, q2) = admission(
                pairs,
                j,
                s,
                q,
                marker,
                start,
                end,
                qlang,
                opts,
                radius,
                maxv,
            )->Ok_0;
            forall|e: (u128, usize)|
                #[trigger] q2.count(e) > 0 ==> e.1 < s2.len() && s2[e.1 as int].len() >= 1
        }),
    decreases pairs.len() - j,
{
    broadcast use vstd::multiset::group_multiset_axioms;

    if j < 0 || j >= pairs.len() {
    } else {
        let kb = pairs[j].0@;
        if kb.len() < 1 || kb[0] != marker_byte(marker) {
            lemma_admission_queue_valid(
                pairs, j + 1, s, q, marker, start, end, qlang, opts, radius, maxv,
            );
        } else {
            match parse_key_spec(kb) {
                None => {},
                Some(k) => if !(start <= k.phrase_id < end) {
                    lemma_admission_queue_valid(
                        pairs, j + 1, s, q, marker, start, end, qlang, opts, radius, maxv,
                    );
                } else {
                    match spec_decode_record(pairs[j].1@) {
                        None => {},
                        Some(ms) => {
                            let ml = spec_matches_language(kb, qlang);
                            let stream = spec_match_stream(ms, opts, ml, radius);
                            if stream.len() == 0 {
                                lemma_admission_queue_valid(
                                    pairs, j + 1, s, q, marker, start, end, qlang, opts, radius, maxv,
                                );
                            } else {
                                let spush = s.push(stream);
                                let key = rank_of(stream[0]);
                                let idx = s.len() as usize;
                                assert(forall|e: (u128, usize)|
                                    #[trigger] q.count(e) > 0 ==> e.1 < spush.len()
                                        && spush[e.1 as int].len() >= 1) by {
                                    assert forall|e: (u128, usize)|
                                        #[trigger] q.count(e) > 0 implies e.1 < spush.len()
                                        && spush[e.1 as int].len() >= 1 by {
                                        assert(spush[e.1 as int] == s[e.1 as int]);
                                    }
                                }
                                if q.len() < maxv {
                                    let qi = q.insert((key, idx));
                                    assert forall|e: (u128, usize)|
                                        #[trigger] qi.count(e) > 0 implies e.1 < spush.len()
                                        && spush[e.1 as int].len() >= 1 by {
                                        if e == (key, idx) {
                                            assert(spush[idx as int] == stream);
                                        } else {
                                            assert(q.count(e) == qi.count(e));
                                            assert(spush[e.1 as int] == s[e.1 as int]);
                                        }
                                    }
                                    lemma_admission_queue_valid(
                                        pairs, j + 1, spush, qi, marker, start,
                                        end, qlang, opts, radius, maxv,
                                    );
                                } else if maxv == 0 {
                                    lemma_admission_queue_valid(
                                        pairs, j + 1, s, q, marker, start, end, qlang, opts,
                                        radius, maxv,
                                    );
                                } else {
                                    let worst = mset_min(q);
                                    if worst.0 >= key {
                                        lemma_admission_queue_valid(
                                            pairs, j + 1, s, q, marker, start, end, qlang, opts,
                                            radius, maxv,
                                        );
                                    } else {
                                        let q2 = q.remove(worst).insert((key, idx));
                                        assert forall|e: (u128, usize)|
                                            #[trigger] q2.count(e) > 0 implies e.1 < spush.len()
                                            && spush[e.1 as int].len() >= 1 by {
                                            if e == (key, idx) {
                                                assert(spush[idx as int] == stream);
                                            } else {
                                                assert(q.count(e) >= q2.count(e));
                                                assert(spush[e.1 as int] == s[e.1 as int]);
                                            }
                                        }
                                        lemma_admission_queue_valid(
                                            pairs, j + 1, spush, q2, marker, start, end, qlang,
                                            opts, radius, maxv,
                                        );
                                    }
                                }
                            }
                        },
                    }
                },
            }
        }
    }
}

/// Top-K soundness: the bounded query invents nothing — every entry it
/// returns, the same query with an unfilled queue returns too. (Which of the
/// equally-ranked entries the first `max_values` keep is decided by each
/// stream's best entry, as the scan's definition states.)
#[verifier::rlimit(100)]
#[verifier::spinoff_prover]
pub proof fn lemma_topk_sound(
    pairs: Seq<(Vec<u8>, Vec<u8>)>,
    marker: TypeMarker,
    start: u32,
    end: u32,
    qlang: u128,
    opts: MatchOpts,
    radius: u32,
    maxv: int,
    big: int,
)
    requires
        big >= pairs.len(),
        pairs.len() <= usize::MAX,
        admission(
            pairs,
            0,
            Seq::<Seq<MatchEntry>>::empty(),
            Multiset::<(u128, usize)>::empty(),
            marker,
            start,
            end,
            qlang,
            opts,
            radius,
            maxv,
        ) is Ok,
    ensures
        ({
            let bres = admission(
                pairs,
                0,
                Seq::<Seq<MatchEntry>>::empty(),
                Multiset::<(u128, usize)>::empty(),
                marker,
                start,
                end,
                qlang,
                opts,
                radius,
                maxv,
            )->Ok_0;
            let ures = admission(
                pairs,
                0,
                Seq::<Seq<MatchEntry>>::empty(),
                Multiset::<(u128, usize)>::empty(),
                marker,
                start,
                end,
                qlang,
                opts,
                radius,
                big,
            );
            let bout = sort_rank(concat_sel(bres.0, mset_drain(bres.1), 0));
            &&& ures is Ok
            &&& forall|i: int|
                0 <= i < bout.len() ==> sort_rank(
                    concat_sel(ures->Ok_0.0, mset_drain(ures->Ok_0.1), 0),
                ).contains(#[trigger] bout[i])
        }),
{
    broadcast use vstd::multiset::group_multiset_axioms;

    let se = Seq::<Seq<MatchEntry>>::empty();
    let qe = Multiset::<(u128, usize)>::empty();
    lemma_bound_covers_all(pairs, 0, se, qe, marker, start, end, qlang, opts, radius, big);
    lemma_admission_streams_subset(
        pairs, 0, se, qe, se, qe, marker, start, end, qlang, opts, radius, maxv,
    );
    let bres = admission(pairs, 0, se, qe, marker, start, end, qlang, opts, radius, maxv)->Ok_0;
    let ures = admission_unbounded(pairs, 0, se, qe, marker, start, end, qlang, opts, radius)->Ok_0;
    lemma_admission_queue_valid(pairs, 0, se, qe, marker, start, end, qlang, opts, radius, maxv);
    lemma_unbounded_queue_full(pairs, 0, se, qe, marker, start, end, qlang, opts, radius);
    let bdrained = concat_sel(bres.0, mset_drain(bres.1), 0);
    let udrained = concat_sel(ures.0, mset_drain(ures.1), 0);
    let border = mset_drain(bres.1);
    let uorder = mset_drain(ures.1);
    let bout = sort_rank(bdrained);
    lemma_sort_rank_keeps(bdrained);
    lemma_sort_rank_keeps(udrained);
    lemma_concat_sel_elems(bres.0, border, 0);
    assert forall|i: int| 0 <= i < bout.len() implies sort_rank(udrained).contains(
        #[trigger] bout[i],
    ) by {
        let v = bout[i];
        assert(bdrained.contains(v));
        let i2 = choose|i2: int| 0 <= i2 < bdrained.len() && bdrained[i2] == v;
        assert(bdrained[i2] == v);
        let k = choose|k: int|
            0 <= k < border.len() && bres.0[(#[trigger] border[k]).1 as int].contains(
                bdrained[i2],
            );
        let e = border[k];
        lemma_mset_drain_elem(bres.1, k);
        assert(e.1 < bres.0.len() && bres.0[e.1 as int].len() >= 1);
        let sidx = e.1 as int;
        let n = choose|n: int| 0 <= n < bres.0[sidx].len() && bres.0[sidx][n] == v;
        // the stream this entry came from is one the unbounded scan kept
        assert(ures.0.contains(bres.0[sidx]));
        let uidx = choose|uidx: int| 0 <= uidx < ures.0.len() && ures.0[uidx] == bres.0[sidx];
        assert(ures.1.count((rank_of(ures.0[uidx][0]), uidx as usize)) > 0);
        lemma_mset_drain_all(ures.1, (rank_of(ures.0[uidx][0]), uidx as usize));
        let k2 = choose|k2: int|
            0 <= k2 < uorder.len() && uorder[k2] == (rank_of(ures.0[uidx][0]), uidx as usize);
        lemma_concat_sel_covers(ures.0, uorder, 0, k2);
        assert(uorder[k2].1 as int == uidx);
        assert(udrained.contains(ures.0[uidx][n]));
        assert(ures.0[uidx][n] == v);
        assert(udrained.contains(v));
        let i3 = choose|i3: int| 0 <= i3 < udrained.len() && udrained[i3] == v;
    }
}

/// Every drained slot was in the queue.
proof fn lemma_mset_drain_elem(q: Multiset<(u128, usize)>, k: int)
    requires
        0 <= k < mset_drain(q).len(),
    ensures
        q.count(mset_drain(q)[k]) > 0,
    decreases q.len(),
{
    broadcast use vstd::multiset::group_multiset_axioms;

    assert(q.len() > 0);
    crate::store::lemma_mset_max_exists(q);
    let m = mset_max(q);
    if k == 0 {
    } else {
        lemma_mset_drain_elem(q.remove(m), k - 1);
        let e = mset_drain(q.remove(m))[k - 1];
        assert(mset_drain(q)[k] == e);
        if e != m {
            assert(q.count(e) == q.remove(m).count(e));
        }
    }
}

} // verus!
