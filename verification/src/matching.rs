//! The per-record decode pipeline: buckets grouped by relevance level,
//! coordinates spatially filtered and proximity-scored, each group ordered by
//! descending scoredist (ties keep bucket then coordinate order), and the
//! packed ids expanded into match entries.

use vstd::prelude::*;

use crate::MatchEntry;
use crate::MatchOpts;
use crate::codec::Bucket;
use crate::codec::bucket_models;
use crate::spatial::spec_in_bbox;
use crate::spatial::in_bbox;
use crate::spatial::spec_scoredist;
use crate::spatial::scoredist;
use crate::spatial::spec_tile_dist;
use crate::spatial::tile_dist;
use crate::spatial::spec_within_radius;
use crate::spatial::within_radius;
use crate::zorder::deinterleave_morton;
use crate::zorder::spec_deinterleave_x;
use crate::zorder::spec_deinterleave_y;

verus! {

/// One coordinate after filtering and scoring: its provenance (`b`-th
/// bucket, `c`-th coordinate) and the derived per-query values.
#[derive(Clone, Copy, Debug, PartialEq, Eq, Structural)]
pub struct ScoredCoord {
    pub b: usize,
    pub c: usize,
    pub score: u8,
    pub x: u16,
    pub y: u16,
    pub distance: u16,
    pub within: bool,
    pub scoredist: u64,
}

/// The relevance level a bucket stores (its high nibble).
pub open spec fn nibble(bm: (u8, Seq<(u32, Seq<u32>)>)) -> u8 {
    bm.0 >> 4
}

/// Whether a coordinate passes the query's bounding box, if any.
pub open spec fn passes_bbox(x: u16, y: u16, opts: MatchOpts) -> bool {
    match opts.bbox {
        None => true,
        Some(bb) => spec_in_bbox(x, y, bb),
    }
}

/// The scored coordinate for the `c`-th coordinate of the `b`-th bucket.
pub open spec fn sc_of(bi: usize, ci: usize, rs: u8, m: u32, opts: MatchOpts, radius: u32) -> ScoredCoord {
    let x = spec_deinterleave_x(m);
    let y = spec_deinterleave_y(m);
    let score = (rs & 15) as u8;
    match opts.proximity {
        Some(p) => {
            let d = spec_tile_dist(p[0], p[1], x, y);
            ScoredCoord {
                b: bi,
                c: ci,
                score,
                x,
                y,
                distance: d,
                within: spec_within_radius(opts.zoom, d, radius),
                scoredist: spec_scoredist(opts.zoom, d, score, radius) as u64,
            }
        },
        None => ScoredCoord {
            b: bi,
            c: ci,
            score,
            x,
            y,
            distance: 0,
            within: false,
            scoredist: ((rs & 15) as u64 * 1048576) as u64,
        },
    }
}

/// The scored coordinates of bucket `bi` from coordinate `ci` on, bounding
/// box misses dropped.
pub open spec fn scored_coords(
    bi: usize,
    bm: (u8, Seq<(u32, Seq<u32>)>),
    ci: int,
    opts: MatchOpts,
    radius: u32,
) -> Seq<ScoredCoord>
    decreases bm.1.len() - ci,
{
    if ci < 0 || ci >= bm.1.len() {
        seq![]
    } else {
        let m = bm.1[ci].0;
        let rest = scored_coords(bi, bm, ci + 1, opts, radius);
        if passes_bbox(spec_deinterleave_x(m), spec_deinterleave_y(m), opts) {
            seq![sc_of(bi, ci as usize, bm.0, m, opts, radius)] + rest
        } else {
            rest
        }
    }
}

/// The scored coordinates of the buckets in `[b, end)`, in bucket order.
pub open spec fn scored_of_range(
    ms: Seq<(u8, Seq<(u32, Seq<u32>)>)>,
    b: int,
    end: int,
    opts: MatchOpts,
    radius: u32,
) -> Seq<ScoredCoord>
    decreases end - b,
{
    if b < 0 || b >= end || end > ms.len() {
        seq![]
    } else {
        scored_coords(b as usize, ms[b], 0, opts, radius) + scored_of_range(
            ms,
            b + 1,
            end,
            opts,
            radius,
        )
    }
}

// ---------------------------------------------------------------------------
// Ordering a group by descending scoredist (stable)
// ---------------------------------------------------------------------------
/// Inserts `x` into a descending sequence, after any equal scoredists.
pub open spec fn insert_desc(s: Seq<ScoredCoord>, x: ScoredCoord) -> Seq<ScoredCoord>
    decreases s.len(),
{
    if s.len() == 0 {
        seq![x]
    } else if x.scoredist > s[0].scoredist {
        seq![x] + s
    } else {
        seq![s[0]] + insert_desc(s.drop_first(), x)
    }
}

/// Stable insertion sort by descending scoredist.
pub open spec fn sort_desc(s: Seq<ScoredCoord>) -> Seq<ScoredCoord>
    decreases s.len(),
{
    if s.len() == 0 {
        seq![]
    } else {
        insert_desc(sort_desc(s.drop_last()), s.last())
    }
}

pub open spec fn sorted_desc(s: Seq<ScoredCoord>) -> bool {
    forall|i: int, j: int| 0 <= i < j < s.len() ==> s[i].scoredist >= s[j].scoredist
}

pub proof fn lemma_insert_desc_sorted(s: Seq<ScoredCoord>, x: ScoredCoord)
    requires
        sorted_desc(s),
    ensures
        sorted_desc(insert_desc(s, x)),
        insert_desc(s, x).len() == s.len() + 1,
    decreases s.len(),
{
    if s.len() == 0 {
    } else if x.scoredist > s[0].scoredist {
    } else {
        assert(sorted_desc(s.drop_first()));
        lemma_insert_desc_sorted(s.drop_first(), x);
        let r = seq![s[0]] + insert_desc(s.drop_first(), x);
        let inner = insert_desc(s.drop_first(), x);
        assert forall|i: int, j: int| 0 <= i < j < r.len() implies r[i].scoredist
            >= r[j].scoredist by {
            if i == 0 {
                lemma_insert_desc_head(s.drop_first(), x, s[0]);
            }
        }
    }
}

/// Every element of `insert_desc(s, x)` is `x` or from `s`; used to push
/// bounds through the sort.
proof fn lemma_insert_desc_head(s: Seq<ScoredCoord>, x: ScoredCoord, cap: ScoredCoord)
    requires
        sorted_desc(s),
        x.scoredist <= cap.scoredist,
        forall|i: int| 0 <= i < s.len() ==> s[i].scoredist <= cap.scoredist,
    ensures
        forall|i: int|
            0 <= i < insert_desc(s, x).len() ==> insert_desc(s, x)[i].scoredist <= cap.scoredist,
    decreases s.len(),
{
    if s.len() == 0 {
    } else if x.scoredist > s[0].scoredist {
        assert forall|i: int| 0 <= i < insert_desc(s, x).len() implies insert_desc(
            s,
            x,
        )[i].scoredist <= cap.scoredist by {
            if i > 0 {
                assert(insert_desc(s, x)[i] == s[i - 1]);
            }
        }
    } else {
        assert(forall|i: int| 0 <= i < s.drop_first().len() ==> s.drop_first()[i].scoredist <= cap.scoredist);
        lemma_insert_desc_head(s.drop_first(), x, cap);
        let inner = insert_desc(s.drop_first(), x);
        assert forall|i: int| 0 <= i < insert_desc(s, x).len() implies insert_desc(
            s,
            x,
        )[i].scoredist <= cap.scoredist by {
            if i > 0 {
                assert(insert_desc(s, x)[i] == inner[i - 1]);
            }
        }
    }
}

/// Membership is preserved by insertion: used to carry well-formedness of
/// the scored coordinates through the sort.
pub proof fn lemma_insert_desc_elems(s: Seq<ScoredCoord>, x: ScoredCoord)
    ensures
        forall|i: int|
            0 <= i < insert_desc(s, x).len() ==> (insert_desc(s, x)[i] == x || exists|j: int|
                0 <= j < s.len() && s[j] == #[trigger] insert_desc(s, x)[i]),
    decreases s.len(),
{
    if s.len() == 0 {
    } else if x.scoredist > s[0].scoredist {
        assert forall|i: int| 0 <= i < insert_desc(s, x).len() implies (insert_desc(s, x)[i] == x
            || exists|j: int| 0 <= j < s.len() && s[j] == #[trigger] insert_desc(s, x)[i]) by {
            if i > 0 {
                assert(s[i - 1] == insert_desc(s, x)[i]);
            }
        }
    } else {
        lemma_insert_desc_elems(s.drop_first(), x);
        let inner = insert_desc(s.drop_first(), x);
        assert forall|i: int| 0 <= i < insert_desc(s, x).len() implies (insert_desc(s, x)[i] == x
            || exists|j: int| 0 <= j < s.len() && s[j] == #[trigger] insert_desc(s, x)[i]) by {
            if i == 0 {
                assert(s[0] == insert_desc(s, x)[0]);
            } else {
                assert(insert_desc(s, x)[i] == inner[i - 1]);
                if inner[i - 1] == x {
                } else {
                    let j = choose|j: int| 0 <= j < s.drop_first().len() && s.drop_first()[j]
                        == inner[i - 1];
                    assert(s[j + 1] == inner[i - 1]);
                }
            }
        }
    }
}

/// Each relevance group is emitted in non-increasing scoredist order.
pub proof fn lemma_sort_desc_sorted(s: Seq<ScoredCoord>)
    ensures
        sorted_desc(sort_desc(s)),
        sort_desc(s).len() == s.len(),
    decreases s.len(),
{
    if s.len() > 0 {
        lemma_sort_desc_sorted(s.drop_last());
        lemma_insert_desc_sorted(sort_desc(s.drop_last()), s.last());
    }
}

pub proof fn lemma_sort_desc_elems(s: Seq<ScoredCoord>)
    ensures
        forall|i: int|
            0 <= i < sort_desc(s).len() ==> exists|j: int|
                0 <= j < s.len() && s[j] == #[trigger] sort_desc(s)[i],
    decreases s.len(),
{
    if s.len() > 0 {
        lemma_sort_desc_elems(s.drop_last());
        lemma_insert_desc_elems(sort_desc(s.drop_last()), s.last());
        assert forall|i: int| 0 <= i < sort_desc(s).len() implies exists|j: int|
            0 <= j < s.len() && s[j] == #[trigger] sort_desc(s)[i] by {
            let v = sort_desc(s)[i];
            if v == s.last() {
                assert(s[s.len() - 1] == v);
            } else {
                let j = choose|j: int| 0 <= j < sort_desc(s.drop_last()).len() && sort_desc(
                    s.drop_last(),
                )[j] == v;
                let k = choose|k: int| 0 <= k < s.drop_last().len() && s.drop_last()[k]
                    == sort_desc(s.drop_last())[j];
                assert(s[k] == v);
            }
        }
    }
}

/// Where `insert_desc` puts the element: before the first strictly smaller
/// scoredist.
proof fn lemma_insert_desc_at(s: Seq<ScoredCoord>, x: ScoredCoord, idx: int)
    requires
        0 <= idx <= s.len(),
        forall|k: int| 0 <= k < idx ==> !(x.scoredist > s[k].scoredist),
        idx < s.len() ==> x.scoredist > s[idx].scoredist,
    ensures
        insert_desc(s, x) == s.insert(idx, x),
    decreases s.len(),
{
    if s.len() == 0 {
        assert(insert_desc(s, x) =~= s.insert(0, x));
    } else if x.scoredist > s[0].scoredist {
        assert(idx == 0);
        assert(insert_desc(s, x) =~= s.insert(0, x));
    } else {
        assert(idx >= 1);
        assert(forall|k: int|
            0 <= k < idx - 1 ==> !(x.scoredist > #[trigger] s.drop_first()[k].scoredist));
        lemma_insert_desc_at(s.drop_first(), x, idx - 1);
        assert(seq![s[0]] + s.drop_first().insert(idx - 1, x) =~= s.insert(idx, x));
    }
}

/// Inserts a scored coordinate into a vector ordered by descending
/// scoredist, after any equal ones.
fn insert_desc_exec(v: &mut Vec<ScoredCoord>, x: ScoredCoord)
    ensures
        final(v)@ == insert_desc(old(v)@, x),
{
    let ghost s = old(v)@;
    let mut idx: usize = 0;
    let n = v.len();
    while idx < n
        invariant
            0 <= idx <= n,
            n == v@.len(),
            v@ == s,
            s == old(v)@,
            forall|k: int| 0 <= k < idx ==> !(x.scoredist > s[k].scoredist),
        decreases n - idx,
    {
        if x.scoredist > v[idx].scoredist {
            v.insert(idx, x);
            proof {
                lemma_insert_desc_at(s, x, idx as int);
            }
            return ;
        }
        idx = idx + 1;
    }
    v.push(x);
    proof {
        lemma_insert_desc_at(s, x, s.len() as int);
        assert(s.insert(s.len() as int, x) =~= s.push(x));
    }
}

/// Stable sort of a group's scored coordinates by descending scoredist.
fn sort_desc_exec(v: Vec<ScoredCoord>) -> (r: Vec<ScoredCoord>)
    ensures
        r@ == sort_desc(v@),
{
    let mut out: Vec<ScoredCoord> = Vec::new();
    let n = v.len();
    let mut i: usize = 0;
    while i < n
        invariant
            i <= n,
            n == v@.len(),
            out@ == sort_desc(v@.take(i as int)),
        decreases n - i,
    {
        insert_desc_exec(&mut out, v[i]);
        proof {
            assert(v@.take(i + 1).drop_last() =~= v@.take(i as int));
            assert(v@.take(i + 1).last() == v@[i as int]);
        }
        i = i + 1;
    }
    proof {
        assert(v@.take(n as int) =~= v@);
    }
    out
}

// ---------------------------------------------------------------------------
// Expansion into match entries
// ---------------------------------------------------------------------------
/// The match entry one id word yields: the 4% relevance penalty is withheld
/// when the language matches or the coordinate is within the proximity
/// radius.
pub open spec fn me_of(sc: ScoredCoord, level: u8, ml: bool, idc: u32) -> MatchEntry {
    MatchEntry {
        relev: ((if ml || sc.within {
            25int
        } else {
            24int
        }) * level) as u8,
        score: sc.score,
        x: sc.x,
        y: sc.y,
        id: idc >> 8,
        source_phrase_hash: (idc & 255) as u8,
        matches_language: ml,
        distance: sc.distance,
        scoredist: sc.scoredist,
    }
}

/// The entries of one scored coordinate: one per id word, in stored order.
pub open spec fn expand_sc(
    ms: Seq<(u8, Seq<(u32, Seq<u32>)>)>,
    sc: ScoredCoord,
    level: u8,
    ml: bool,
) -> Seq<MatchEntry> {
    ms[sc.b as int].1[sc.c as int].1.map_values(|idc: u32| me_of(sc, level, ml, idc))
}

/// The entries of the scored coordinates from index `k` on.
pub open spec fn expand_all(
    ms: Seq<(u8, Seq<(u32, Seq<u32>)>)>,
    scs: Seq<ScoredCoord>,
    level: u8,
    ml: bool,
    k: int,
) -> Seq<MatchEntry>
    decreases scs.len() - k,
{
    if k < 0 || k >= scs.len() {
        seq![]
    } else {
        expand_sc(ms, scs[k], level, ml) + expand_all(ms, scs, level, ml, k + 1)
    }
}

// ---------------------------------------------------------------------------
// Grouping by relevance level
// ---------------------------------------------------------------------------
/// The end of the maximal run of buckets sharing `ms[start]`'s relevance
/// level.
pub open spec fn group_end(ms: Seq<(u8, Seq<(u32, Seq<u32>)>)>, start: int) -> int
    decreases ms.len() - start,
{
    if start + 1 >= ms.len() || nibble(ms[start + 1]) != nibble(ms[start]) {
        start + 1
    } else {
        group_end(ms, start + 1)
    }
}

pub proof fn lemma_group_end_bounds(ms: Seq<(u8, Seq<(u32, Seq<u32>)>)>, start: int)
    requires
        0 <= start < ms.len(),
    ensures
        start < group_end(ms, start) <= ms.len(),
    decreases ms.len() - start,
{
    if !(start + 1 >= ms.len() || nibble(ms[start + 1]) != nibble(ms[start])) {
        lemma_group_end_bounds(ms, start + 1);
    }
}

/// The scan that finds the end of a run finds exactly `group_end`.
proof fn lemma_group_end_scan(ms: Seq<(u8, Seq<(u32, Seq<u32>)>)>, start: int, e: int)
    requires
        0 <= start < ms.len(),
        start < e <= ms.len(),
        forall|k: int| start < k < e ==> nibble(#[trigger] ms[k]) == nibble(ms[start]),
        e < ms.len() ==> nibble(ms[e]) != nibble(ms[start]),
    ensures
        group_end(ms, start) == e,
    decreases ms.len() - start,
{
    if start + 1 >= ms.len() || nibble(ms[start + 1]) != nibble(ms[start]) {
        assert(e == start + 1);
    } else {
        lemma_group_end_scan(ms, start + 1, e);
    }
}

/// The match entries of a whole record from bucket `start` on: each
/// relevance-level group ordered by descending scoredist, groups in stored
/// (descending-relevance) order.
pub open spec fn stream_from(
    ms: Seq<(u8, Seq<(u32, Seq<u32>)>)>,
    start: int,
    opts: MatchOpts,
    ml: bool,
    radius: u32,
) -> Seq<MatchEntry>
    decreases ms.len() - start,
{
    if start < 0 || start >= ms.len() {
        seq![]
    } else {
        let e = group_end(ms, start);
        let scs = sort_desc(scored_of_range(ms, start, e, opts, radius));
        let group = expand_all(ms, scs, nibble(ms[start]), ml, 0);
        if start < e <= ms.len() {
            group + stream_from(ms, e, opts, ml, radius)
        } else {
            seq![]
        }
    }
}

/// The match entries a record yields under the given options.
pub open spec fn spec_match_stream(
    ms: Seq<(u8, Seq<(u32, Seq<u32>)>)>,
    opts: MatchOpts,
    ml: bool,
    radius: u32,
) -> Seq<MatchEntry> {
    stream_from(ms, 0, opts, ml, radius)
}

/// A match entry the pipeline may emit: bounded so it can be rank-packed.
pub open spec fn me_wf(e: MatchEntry) -> bool {
    e.relev <= 125 && e.scoredist < 0x1000000000000 && e.id < 0x1000000
}

/// What the collection loops know of every scored coordinate of one group.
spec fn sc_inv(sc: ScoredCoord, ms: Seq<(u8, Seq<(u32, Seq<u32>)>)>, start: int, e: int) -> bool {
    &&& start <= sc.b < e <= ms.len()
    &&& sc.c < ms[sc.b as int].1.len()
    &&& sc.score <= 15
    &&& sc.scoredist < 0x1000000000000
}

/// The per-record decode pipeline: the match entries of one decoded record,
/// in emission order.
pub fn match_stream(buckets: &Vec<Bucket>, opts: &MatchOpts, ml: bool, radius: u32) -> (r: Vec<
    MatchEntry,
>)
    requires
        opts.zoom <= 16,
        radius <= 4000000,
        forall|i: int|
            0 <= i < buckets@.len() ==> nibble(#[trigger] bucket_models(buckets@)[i]) <= 5,
    ensures
        r@ == spec_match_stream(bucket_models(buckets@), *opts, ml, radius),
        forall|i: int| 0 <= i < r@.len() ==> me_wf(#[trigger] r@[i]),
{
    let ghost ms = bucket_models(buckets@);
    let n = buckets.len();
    let mut out: Vec<MatchEntry> = Vec::new();
    let mut start: usize = 0;
    while start < n
        invariant
            start <= n,
            n == buckets@.len(),
            ms == bucket_models(buckets@),
            opts.zoom <= 16,
            radius <= 4000000,
            forall|i: int| 0 <= i < buckets@.len() ==> nibble(#[trigger] ms[i]) <= 5,
            out@ + stream_from(ms, start as int, *opts, ml, radius) == stream_from(
                ms,
                0,
                *opts,
                ml,
                radius,
            ),
            forall|i: int| 0 <= i < out@.len() ==> me_wf(#[trigger] out@[i]),
        decreases n - start,
    {
        let ghost out_before = out@;
        let lvl = buckets[start].relev_score >> 4;
        assert(lvl == nibble(ms[start as int]));
        // find the end of the run of buckets at this relevance level
        let mut e = start + 1;
        while e < n && (buckets[e].relev_score >> 4) == lvl
            invariant
                start < e <= n,
                n == buckets@.len(),
                ms == bucket_models(buckets@),
                lvl == nibble(ms[start as int]),
                forall|k: int| start < k < e ==> nibble(#[trigger] ms[k]) == lvl,
            decreases n - e,
        {
            assert(nibble(ms[e as int]) == buckets@[e as int].relev_score >> 4);
            e = e + 1;
        }
        proof {
            if e < n {
                assert(nibble(ms[e as int]) == buckets@[e as int].relev_score >> 4);
            }
            lemma_group_end_scan(ms, start as int, e as int);
        }
        // collect the group's scored coordinates, bounding-box misses dropped
        let mut scs: Vec<ScoredCoord> = Vec::new();
        let mut b = start;
        while b < e
            invariant
                start <= b <= e <= n,
                n == buckets@.len(),
                ms == bucket_models(buckets@),
                opts.zoom <= 16,
                radius <= 4000000,
                scs@ + scored_of_range(ms, b as int, e as int, *opts, radius) == scored_of_range(
                    ms,
                    start as int,
                    e as int,
                    *opts,
                    radius,
                ),
                forall|i: int|
                    0 <= i < scs@.len() ==> sc_inv(#[trigger] scs@[i], ms, start as int, e as int),
            decreases e - b,
        {
            let bu = &buckets[b];
            assert(ms[b as int] == buckets@[b as int]@);
            let nc = bu.coords.len();
            let mut ci: usize = 0;
            while ci < nc
                invariant
                    0 <= ci <= nc,
                    start <= b < e <= n,
                    n == buckets@.len(),
                    ms == bucket_models(buckets@),
                    bu == &buckets@[b as int],
                    nc == bu.coords@.len(),
                    ms[b as int] == buckets@[b as int]@,
                    opts.zoom <= 16,
                    radius <= 4000000,
                    scs@ + scored_coords(b, ms[b as int], ci as int, *opts, radius)
                        + scored_of_range(ms, b + 1, e as int, *opts, radius) == scored_of_range(
                        ms,
                        start as int,
                        e as int,
                        *opts,
                        radius,
                    ),
                    forall|i: int|
                        0 <= i < scs@.len() ==> sc_inv(
                            #[trigger] scs@[i],
                            ms,
                            start as int,
                            e as int,
                        ),
                decreases nc - ci,
            {
                let ghost scs_before = scs@;
                let m = bu.coords[ci].morton;
                assert(m == ms[b as int].1[ci as int].0);
                let xy = deinterleave_morton(m);
                let x = xy.0;
                let y = xy.1;
                let pass = match opts.bbox {
                    None => true,
                    Some(bb) => in_bbox(x, y, &bb),
                };
                assert(pass == passes_bbox(x, y, *opts));
                if pass {
                    let score = bu.relev_score & 15;
                    proof {
                        let rs = bu.relev_score;
                        assert(rs & 15 <= 15) by (bit_vector);
                        assert(ms[b as int].1.len() == bu.coords@.len());
                    }
                    let sc = match opts.proximity {
                        Some(p) => {
                            let d = tile_dist(p[0], p[1], x, y);
                            ScoredCoord {
                                b,
                                c: ci,
                                score,
                                x,
                                y,
                                distance: d,
                                within: within_radius(opts.zoom, d, radius),
                                scoredist: scoredist(opts.zoom, d, score, radius),
                            }
                        },
                        None => ScoredCoord {
                            b,
                            c: ci,
                            score,
                            x,
                            y,
                            distance: 0,
                            within: false,
                            scoredist: (score as u64) * 1048576,
                        },
                    };
                    assert(sc == sc_of(b, ci, ms[b as int].0, m, *opts, radius));
                    scs.push(sc);
                    proof {
                        assert(scs@ =~= scs_before.push(sc));
                        assert(scs_before.push(sc) + scored_coords(
                            b,
                            ms[b as int],
                            ci + 1,
                            *opts,
                            radius,
                        ) =~= scs_before + (seq![sc] + scored_coords(
                            b,
                            ms[b as int],
                            ci + 1,
                            *opts,
                            radius,
                        )));
                    }
                }
                ci = ci + 1;
            }
            proof {
                assert(scored_coords(b, ms[b as int], nc as int, *opts, radius) =~= seq![]);
                assert(scs@ + seq![] + scored_of_range(ms, b + 1, e as int, *opts, radius)
                    =~= scs@ + scored_of_range(ms, b + 1, e as int, *opts, radius));
            }
            b = b + 1;
        }
        proof {
            assert(scored_of_range(ms, e as int, e as int, *opts, radius) =~= seq![]);
            assert(scs@ + seq![] =~= scs@);
            assert(scs@ == scored_of_range(ms, start as int, e as int, *opts, radius));
        }
        // order the group by descending scoredist
        let ghost unsorted = scs@;
        let sorted = sort_desc_exec(scs);
        proof {
            lemma_sort_desc_elems(unsorted);
            assert forall|i: int| 0 <= i < sorted@.len() implies sc_inv(
                #[trigger] sorted@[i],
                ms,
                start as int,
                e as int,
            ) by {
                let j = choose|j: int| 0 <= j < unsorted.len() && unsorted[j] == sorted@[i];
            }
        }
        // expand the ids of each surviving coordinate
        let ghost group_base = out@;
        let sn = sorted.len();
        let mut k: usize = 0;
        while k < sn
            invariant
                0 <= k <= sn,
                sn == sorted@.len(),
                n == buckets@.len(),
                ms == bucket_models(buckets@),
                start < e <= n,
                lvl == nibble(ms[start as int]),
                lvl <= 5,
                ml == ml,
                forall|i: int|
                    0 <= i < sorted@.len() ==> sc_inv(
                        #[trigger] sorted@[i],
                        ms,
                        start as int,
                        e as int,
                    ),
                out@ + expand_all(ms, sorted@, lvl, ml, k as int) == group_base + expand_all(
                    ms,
                    sorted@,
                    lvl,
                    ml,
                    0,
                ),
                forall|i: int| 0 <= i < out@.len() ==> me_wf(#[trigger] out@[i]),
            decreases sn - k,
        {
            let ghost out_k = out@;
            let sc = sorted[k];
            assert(sc_inv(sc, ms, start as int, e as int));
            assert(buckets@[sc.b as int]@ == ms[sc.b as int]);
            let crd = &buckets[sc.b].coords[sc.c];
            assert(crd@ == ms[sc.b as int].1[sc.c as int]);
            let tn = crd.ids.len();
            let mut t: usize = 0;
            while t < tn
                invariant
                    0 <= t <= tn,
                    tn == crd.ids@.len(),
                    crd@ == ms[sc.b as int].1[sc.c as int],
                    lvl <= 5,
                    sc.score <= 15,
                    sc.scoredist < 0x1000000000000,
                    out@ == out_k + ms[sc.b as int].1[sc.c as int].1.take(t as int).map_values(
                        |idc: u32| me_of(sc, lvl, ml, idc),
                    ),
                    forall|i: int| 0 <= i < out@.len() ==> me_wf(#[trigger] out@[i]),
                decreases tn - t,
            {
                let idc = crd.ids[t];
                let rel = if ml || sc.within {
                    25 * lvl
                } else {
                    24 * lvl
                };
                let ent = MatchEntry {
                    relev: rel,
                    score: sc.score,
                    x: sc.x,
                    y: sc.y,
                    id: idc >> 8,
                    source_phrase_hash: (idc & 255) as u8,
                    matches_language: ml,
                    distance: sc.distance,
                    scoredist: sc.scoredist,
                };
                proof {
                    assert(idc >> 8 < 0x1000000) by (bit_vector);
                    assert(ent == me_of(sc, lvl, ml, idc));
                }
                out.push(ent);
                proof {
                    let ids = ms[sc.b as int].1[sc.c as int].1;
                    assert(ids.take(t + 1) =~= ids.take(t as int).push(idc));
                    assert(ids.take(t + 1).map_values(|w: u32| me_of(sc, lvl, ml, w)) =~= ids.take(
                        t as int,
                    ).map_values(|w: u32| me_of(sc, lvl, ml, w)).push(me_of(sc, lvl, ml, idc)));
                    assert(out@ =~= out_k + ids.take(t + 1).map_values(
                        |w: u32| me_of(sc, lvl, ml, w),
                    ));
                }
                t = t + 1;
            }
            proof {
                let ids = ms[sc.b as int].1[sc.c as int].1;
                assert(ids.take(tn as int) =~= ids);
                assert(out@ == out_k + expand_sc(ms, sc, lvl, ml));
                assert(expand_all(ms, sorted@, lvl, ml, k as int) == expand_sc(ms, sorted@[k as int], lvl, ml)
                    + expand_all(ms, sorted@, lvl, ml, k + 1));
                assert(out_k + (expand_sc(ms, sc, lvl, ml) + expand_all(ms, sorted@, lvl, ml, k + 1))
                    =~= (out_k + expand_sc(ms, sc, lvl, ml)) + expand_all(ms, sorted@, lvl, ml, k + 1));
            }
            k = k + 1;
        }
        proof {
            assert(expand_all(ms, sorted@, lvl, ml, sn as int) =~= seq![]);
            assert(out@ + seq![] =~= out@);
            // one whole group done: step the outer glue
            assert(stream_from(ms, start as int, *opts, ml, radius) == expand_all(
                ms,
                sort_desc(scored_of_range(ms, start as int, e as int, *opts, radius)),
                nibble(ms[start as int]),
                ml,
                0,
            ) + stream_from(ms, e as int, *opts, ml, radius));
            assert(sorted@ == sort_desc(scored_of_range(ms, start as int, e as int, *opts, radius)));
            assert(out_before + (expand_all(ms, sorted@, lvl, ml, 0) + stream_from(
                ms,
                e as int,
                *opts,
                ml,
                radius,
            )) =~= (out_before + expand_all(ms, sorted@, lvl, ml, 0)) + stream_from(
                ms,
                e as int,
                *opts,
                ml,
                radius,
            ));
            assert(group_base == out_before);
        }
        start = e;
    }
    proof {
        assert(stream_from(ms, n as int, *opts, ml, radius) =~= seq![]);
        assert(out@ + seq![] =~= out@);
    }
    out
}

} // verus!
