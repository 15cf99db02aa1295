//! The record's natural order: entries sorted by descending
//! `(relev, score, morton(x, y), id)`, exact duplicates collapsed. The
//! builder lays records out in this order; the reader hands it back.

use vstd::prelude::*;

use crate::GridEntry;
use crate::codec::Bucket;
use crate::codec::CoordRec;
use crate::codec::bucket_models;
use crate::codec::coord_ents;
use crate::codec::entries_of_bucket;
use crate::codec::entries_of_coord;
use crate::codec::entries_of_record;
use crate::codec::entry_of;
use crate::codec::lemma_coord_ents_push;
use crate::codec::lemma_rec_ents_push;
use crate::codec::rec_wf;
use crate::zorder::interleave_morton;
use crate::zorder::spec_interleave;

verus! {

/// The packed `relev_score` byte of an entry.
pub open spec fn rs_of(e: GridEntry) -> u8 {
    (e.relev * 16 + e.score) as u8
}

/// The packed id word of an entry.
pub open spec fn idc_of(e: GridEntry) -> u32 {
    (e.id * 256 + e.source_phrase_hash) as u32
}

/// The natural descending sort key, packed so numeric order is the
/// lexicographic order of `(relev, score, morton(x, y), id_word)`.
pub open spec fn ekey(e: GridEntry) -> u128 {
    ((rs_of(e) as u128) * 0x10000000000000000 + (spec_interleave(e.x, e.y) as u128) * 0x100000000
        + idc_of(e) as u128) as u128
}

/// The packed sort key of an entry.
pub fn ekey_exec(e: &GridEntry) -> (r: u128)
    requires
        e.wf(),
    ensures
        r == ekey(*e),
{
    let m = interleave_morton(e.x, e.y);
    ((e.relev * 16 + e.score) as u128) * 0x10000000000000000 + (m as u128) * 0x100000000 + ((
    e.id * 256 + e.source_phrase_hash as u32) as u128)
}

/// Inserts `x` into a strictly-descending sequence, dropping it if an equal
/// key is already there.
pub open spec fn insert_e(s: Seq<GridEntry>, x: GridEntry) -> Seq<GridEntry>
    decreases s.len(),
{
    if s.len() == 0 {
        seq![x]
    } else if ekey(x) > ekey(s[0]) {
        seq![x] + s
    } else if ekey(x) == ekey(s[0]) {
        s
    } else {
        seq![s[0]] + insert_e(s.drop_first(), x)
    }
}

/// The entries in natural descending order, duplicates collapsed.
pub open spec fn sort_e(s: Seq<GridEntry>) -> Seq<GridEntry>
    decreases s.len(),
{
    if s.len() == 0 {
        seq![]
    } else {
        insert_e(sort_e(s.drop_last()), s.last())
    }
}

/// Strictly descending by the packed key.
pub open spec fn strictly_sorted(s: Seq<GridEntry>) -> bool {
    forall|i: int, j: int| 0 <= i < j < s.len() ==> ekey(s[i]) > ekey(s[j])
}

proof fn lemma_insert_e_head(s: Seq<GridEntry>, x: GridEntry, cap: u128)
    requires
        ekey(x) < cap,
        forall|i: int| 0 <= i < s.len() ==> ekey(s[i]) < cap,
    ensures
        forall|i: int| 0 <= i < insert_e(s, x).len() ==> ekey(insert_e(s, x)[i]) < cap,
    decreases s.len(),
{
    if s.len() == 0 {
    } else if ekey(x) > ekey(s[0]) {
        assert forall|i: int| 0 <= i < insert_e(s, x).len() implies ekey(insert_e(s, x)[i])
            < cap by {
            if i > 0 {
                assert(insert_e(s, x)[i] == s[i - 1]);
            }
        }
    } else if ekey(x) == ekey(s[0]) {
    } else {
        assert(forall|i: int| 0 <= i < s.drop_first().len() ==> ekey(s.drop_first()[i]) < cap);
        lemma_insert_e_head(s.drop_first(), x, cap);
        let inner = insert_e(s.drop_first(), x);
        assert forall|i: int| 0 <= i < insert_e(s, x).len() implies ekey(insert_e(s, x)[i])
            < cap by {
            if i > 0 {
                assert(insert_e(s, x)[i] == inner[i - 1]);
            }
        }
    }
}

pub proof fn lemma_insert_e_sorted(s: Seq<GridEntry>, x: GridEntry)
    requires
        strictly_sorted(s),
    ensures
        strictly_sorted(insert_e(s, x)),
    decreases s.len(),
{
    if s.len() == 0 {
    } else if ekey(x) > ekey(s[0]) {
    } else if ekey(x) == ekey(s[0]) {
    } else {
        assert(strictly_sorted(s.drop_first()));
        lemma_insert_e_sorted(s.drop_first(), x);
        let inner = insert_e(s.drop_first(), x);
        let r = seq![s[0]] + inner;
        assert forall|i: int, j: int| 0 <= i < j < r.len() implies ekey(r[i]) > ekey(r[j]) by {
            if i == 0 {
                assert(forall|k: int|
                    0 <= k < s.drop_first().len() ==> ekey(s.drop_first()[k]) < ekey(s[0]));
                lemma_insert_e_head(s.drop_first(), x, ekey(s[0]));
                assert(r[j] == inner[j - 1]);
            }
        }
    }
}

pub proof fn lemma_sort_e_sorted(s: Seq<GridEntry>)
    ensures
        strictly_sorted(sort_e(s)),
    decreases s.len(),
{
    if s.len() > 0 {
        lemma_sort_e_sorted(s.drop_last());
        lemma_insert_e_sorted(sort_e(s.drop_last()), s.last());
    }
}

/// Every element of the sorted sequence came from the input.
pub proof fn lemma_insert_e_elems(s: Seq<GridEntry>, x: GridEntry)
    ensures
        forall|i: int|
            0 <= i < insert_e(s, x).len() ==> (insert_e(s, x)[i] == x || exists|j: int|
                0 <= j < s.len() && s[j] == #[trigger] insert_e(s, x)[i]),
    decreases s.len(),
{
    if s.len() == 0 {
    } else if ekey(x) > ekey(s[0]) {
        assert forall|i: int| 0 <= i < insert_e(s, x).len() implies (insert_e(s, x)[i] == x
            || exists|j: int| 0 <= j < s.len() && s[j] == #[trigger] insert_e(s, x)[i]) by {
            if i > 0 {
                assert(s[i - 1] == insert_e(s, x)[i]);
            }
        }
    } else if ekey(x) == ekey(s[0]) {
        assert forall|i: int| 0 <= i < insert_e(s, x).len() implies (insert_e(s, x)[i] == x
            || exists|j: int| 0 <= j < s.len() && s[j] == #[trigger] insert_e(s, x)[i]) by {
            assert(s[i] == insert_e(s, x)[i]);
        }
    } else {
        lemma_insert_e_elems(s.drop_first(), x);
        let inner = insert_e(s.drop_first(), x);
        assert forall|i: int| 0 <= i < insert_e(s, x).len() implies (insert_e(s, x)[i] == x
            || exists|j: int| 0 <= j < s.len() && s[j] == #[trigger] insert_e(s, x)[i]) by {
            if i == 0 {
                assert(s[0] == insert_e(s, x)[0]);
            } else {
                assert(insert_e(s, x)[i] == inner[i - 1]);
                if inner[i - 1] == x {
                } else {
                    let j = choose|j: int| 0 <= j < s.drop_first().len() && s.drop_first()[j]
                        == inner[i - 1];
                    assert(s[j + 1] == inner[i - 1]);
                }
            }
        }
    }
}

pub proof fn lemma_sort_e_elems(s: Seq<GridEntry>)
    ensures
        forall|i: int|
            0 <= i < sort_e(s).len() ==> exists|j: int|
                0 <= j < s.len() && s[j] == #[trigger] sort_e(s)[i],
        sort_e(s).len() <= s.len(),
    decreases s.len(),
{
    if s.len() > 0 {
        lemma_sort_e_elems(s.drop_last());
        lemma_insert_e_elems(sort_e(s.drop_last()), s.last());
        lemma_insert_e_len(sort_e(s.drop_last()), s.last());
        assert forall|i: int| 0 <= i < sort_e(s).len() implies exists|j: int|
            0 <= j < s.len() && s[j] == #[trigger] sort_e(s)[i] by {
            let v = sort_e(s)[i];
            if v == s.last() {
                assert(s[s.len() - 1] == v);
            } else {
                let j = choose|j: int| 0 <= j < sort_e(s.drop_last()).len() && sort_e(
                    s.drop_last(),
                )[j] == v;
                let k = choose|k: int| 0 <= k < s.drop_last().len() && s.drop_last()[k] == sort_e(
                    s.drop_last(),
                )[j];
                assert(s[k] == v);
            }
        }
    }
}

proof fn lemma_insert_e_len(s: Seq<GridEntry>, x: GridEntry)
    ensures
        insert_e(s, x).len() <= s.len() + 1,
    decreases s.len(),
{
    if s.len() > 0 && ekey(x) < ekey(s[0]) {
        lemma_insert_e_len(s.drop_first(), x);
    }
}

/// Where `insert_e` puts (or drops) the element.
proof fn lemma_insert_e_at(s: Seq<GridEntry>, x: GridEntry, idx: int)
    requires
        0 <= idx <= s.len(),
        forall|k: int| 0 <= k < idx ==> ekey(s[k]) > ekey(x),
    ensures
        idx < s.len() && ekey(x) > ekey(s[idx]) ==> insert_e(s, x) == s.insert(idx, x),
        idx < s.len() && ekey(x) == ekey(s[idx]) ==> insert_e(s, x) == s,
        idx == s.len() ==> insert_e(s, x) == s.push(x),
    decreases s.len(),
{
    if s.len() == 0 {
        assert(insert_e(s, x) =~= s.push(x));
    } else if idx == 0 {
        if ekey(x) > ekey(s[0]) {
            assert(insert_e(s, x) =~= s.insert(0, x));
        }
    } else {
        assert(ekey(s[0]) > ekey(x));
        assert(forall|k: int|
            0 <= k < idx - 1 ==> ekey(#[trigger] s.drop_first()[k]) > ekey(x));
        lemma_insert_e_at(s.drop_first(), x, idx - 1);
        if idx < s.len() && ekey(x) > ekey(s[idx]) {
            assert(s.drop_first()[idx - 1] == s[idx]);
            assert(seq![s[0]] + s.drop_first().insert(idx - 1, x) =~= s.insert(idx, x));
        } else if idx < s.len() && ekey(x) == ekey(s[idx]) {
            assert(s.drop_first()[idx - 1] == s[idx]);
            assert(seq![s[0]] + s.drop_first() =~= s);
        } else if idx == s.len() {
            assert(seq![s[0]] + s.drop_first().push(x) =~= s.push(x));
        }
    }
}

/// Inserts an entry into a strictly-descending vector, dropping duplicates.
fn insert_e_exec(v: &mut Vec<GridEntry>, x: GridEntry)
    requires
        x.wf(),
        forall|i: int| 0 <= i < old(v)@.len() ==> (#[trigger] old(v)@[i]).wf(),
    ensures
        final(v)@ == insert_e(old(v)@, x),
        forall|i: int| 0 <= i < final(v)@.len() ==> (#[trigger] final(v)@[i]).wf(),
{
    let ghost s = old(v)@;
    let xk = ekey_exec(&x);
    let mut idx: usize = 0;
    let n = v.len();
    while idx < n
        invariant
            0 <= idx <= n,
            n == v@.len(),
            v@ == s,
            s == old(v)@,
            x.wf(),
            xk == ekey(x),
            forall|i: int| 0 <= i < s.len() ==> (#[trigger] s[i]).wf(),
            forall|k: int| 0 <= k < idx ==> ekey(s[k]) > xk,
        decreases n - idx,
    {
        let ck = ekey_exec(&v[idx]);
        if xk > ck {
            v.insert(idx, x);
            proof {
                lemma_insert_e_at(s, x, idx as int);
                lemma_insert_e_elems(s, x);
            }
            return ;
        }
        if xk == ck {
            proof {
                lemma_insert_e_at(s, x, idx as int);
            }
            return ;
        }
        idx = idx + 1;
    }
    v.push(x);
    proof {
        lemma_insert_e_at(s, x, s.len() as int);
    }
}

/// Sorts entries into the record's natural descending order, collapsing
/// exact duplicates.
pub fn sort_entries(v: &Vec<GridEntry>) -> (r: Vec<GridEntry>)
    requires
        forall|i: int| 0 <= i < v@.len() ==> (#[trigger] v@[i]).wf(),
    ensures
        r@ == sort_e(v@),
        strictly_sorted(r@),
        r@.len() <= v@.len(),
        forall|i: int| 0 <= i < r@.len() ==> (#[trigger] r@[i]).wf(),
{
    let mut out: Vec<GridEntry> = Vec::new();
    let n = v.len();
    let mut i: usize = 0;
    while i < n
        invariant
            i <= n,
            n == v@.len(),
            forall|k: int| 0 <= k < v@.len() ==> (#[trigger] v@[k]).wf(),
            out@ == sort_e(v@.take(i as int)),
            out@.len() <= i,
            forall|k: int| 0 <= k < out@.len() ==> (#[trigger] out@[k]).wf(),
        decreases n - i,
    {
        proof {
            lemma_insert_e_len(out@, v@[i as int]);
        }
        insert_e_exec(&mut out, v[i]);
        proof {
            assert(v@.take(i + 1).drop_last() =~= v@.take(i as int));
            assert(v@.take(i + 1).last() == v@[i as int]);
        }
        i = i + 1;
    }
    proof {
        assert(v@.take(n as int) =~= v@);
        lemma_sort_e_sorted(v@);
    }
    out
}

/// Groups entries in natural order into the nested record shape; its
/// expansion reads back exactly the input.
pub fn build_record(entries: &Vec<GridEntry>) -> (r: Vec<Bucket>)
    requires
        entries@.len() <= 0x3FFFFFFF,
        forall|i: int| 0 <= i < entries@.len() ==> (#[trigger] entries@[i]).wf(),
    ensures
        rec_wf(bucket_models(r@)),
        entries_of_record(bucket_models(r@)) == entries@,
        forall|i: int|
            0 <= i < r@.len() ==> (#[trigger] bucket_models(r@)[i]).0 >> 4 <= 5,
{
    let mut bks: Vec<Bucket> = Vec::new();
    let n = entries.len();
    if n == 0 {
        proof {
            assert(bucket_models(bks@) =~= Seq::<(u8, Seq<(u32, Seq<u32>)>)>::empty());
            assert(entries_of_record(bucket_models(bks@)) =~= entries@);
        }
        return bks;
    }
    let mut cur_rs: u8 = entries[0].relev * 16 + entries[0].score;
    let mut cur_coords: Vec<CoordRec> = Vec::new();
    let mut cur_m: u32 = interleave_morton(entries[0].x, entries[0].y);
    let mut cur_ids: Vec<u32> = Vec::new();
    cur_ids.push(entries[0].id * 256 + entries[0].source_phrase_hash as u32);
    proof {
        let e0 = entries@[0];
        lemma_entry_roundtrip(e0);
        assert(entries_of_coord(cur_rs, (cur_m, cur_ids@)) =~= entries@.take(1));
    }
    let mut i: usize = 1;
    while i < n
        invariant
            1 <= i <= n,
            n == entries@.len(),
            n <= 0x3FFFFFFF,
            forall|k: int| 0 <= k < entries@.len() ==> (#[trigger] entries@[k]).wf(),
            cur_rs >> 4 <= 5,
            cur_ids@.len() >= 1,
            cur_ids@.len() <= i,
            cur_coords@.len() <= i,
            bks@.len() <= i,
            forall|k: int|
                0 <= k < cur_coords@.len() ==> (#[trigger] cur_coords@[k]).ids@.len() <= i,
            rec_wf(bucket_models(bks@)),
            forall|k: int|
                0 <= k < bks@.len() ==> (#[trigger] bucket_models(bks@)[k]).0 >> 4 <= 5,
            entries_of_record(bucket_models(bks@)) + coord_ents(
                cur_rs,
                cur_coords@.map_values(|c: CoordRec| c@),
                0,
            ) + entries_of_coord(cur_rs, (cur_m, cur_ids@)) == entries@.take(i as int),
        decreases n - i,
    {
        let e = &entries[i];
        let rs = e.relev * 16 + e.score;
        let m = interleave_morton(e.x, e.y);
        let idc = e.id * 256 + e.source_phrase_hash as u32;
        proof {
            lemma_entry_roundtrip(entries@[i as int]);
        }
        let ghost prev_ids = cur_ids@;
        let ghost prev_coords = cur_coords@;
        let ghost prev_models = bucket_models(bks@);
        if rs == cur_rs && m == cur_m {
            cur_ids.push(idc);
            proof {
                assert(entries_of_coord(cur_rs, (cur_m, cur_ids@)) =~= entries_of_coord(
                    cur_rs,
                    (cur_m, prev_ids),
                ).push(entry_of(cur_rs, cur_m, idc)));
                lemma_take_push(entries@, i as int);
                assert(entries_of_record(bucket_models(bks@)) + coord_ents(
                    cur_rs,
                    cur_coords@.map_values(|c: CoordRec| c@),
                    0,
                ) + entries_of_coord(cur_rs, (cur_m, cur_ids@)) =~= entries@.take(i + 1));
            }
        } else if rs == cur_rs {
            let done = CoordRec { morton: cur_m, ids: cur_ids };
            cur_coords.push(done);
            proof {
                lemma_coord_ents_push(
                    cur_rs,
                    prev_coords.map_values(|c: CoordRec| c@),
                    (cur_m, prev_ids),
                    0,
                );
                assert(cur_coords@.map_values(|c: CoordRec| c@) =~= prev_coords.map_values(
                    |c: CoordRec| c@,
                ).push((cur_m, prev_ids)));
            }
            cur_m = m;
            cur_ids = Vec::new();
            cur_ids.push(idc);
            proof {
                assert(entries_of_coord(cur_rs, (cur_m, cur_ids@)) =~= seq![
                    entry_of(cur_rs, cur_m, idc),
                ]);
                lemma_take_push(entries@, i as int);
                assert(entries_of_record(bucket_models(bks@)) + coord_ents(
                    cur_rs,
                    cur_coords@.map_values(|c: CoordRec| c@),
                    0,
                ) + entries_of_coord(cur_rs, (cur_m, cur_ids@)) =~= entries@.take(i + 1));
            }
        } else {
            let done = CoordRec { morton: cur_m, ids: cur_ids };
            cur_coords.push(done);
            proof {
                lemma_coord_ents_push(
                    cur_rs,
                    prev_coords.map_values(|c: CoordRec| c@),
                    (cur_m, prev_ids),
                    0,
                );
                assert(cur_coords@.map_values(|c: CoordRec| c@) =~= prev_coords.map_values(
                    |c: CoordRec| c@,
                ).push((cur_m, prev_ids)));
            }
            let ghost newb = (cur_rs, cur_coords@.map_values(|c: CoordRec| c@));
            let ghost closed_coords = cur_coords@;
            let bdone = Bucket { relev_score: cur_rs, coords: cur_coords };
            bks.push(bdone);
            proof {
                assert(bks@.last()@ == newb);
                assert(bucket_models(bks@) =~= prev_models.push(newb));
                lemma_rec_ents_push(prev_models, newb, 0);
                assert forall|k: int| 0 <= k < closed_coords.len() implies (#[trigger] closed_coords[k]).ids@.len()
                    <= i + 1 by {
                    if k < prev_coords.len() {
                        assert(closed_coords[k] == prev_coords[k]);
                    }
                }
                lemma_bucket_facts(bks@.last(), i + 1);
                lemma_rec_wf_push(prev_models, newb);
                assert forall|k: int| 0 <= k < bks@.len() implies (#[trigger] bucket_models(
                    bks@,
                )[k]).0 >> 4 <= 5 by {
                    if k < bks@.len() - 1 {
                        assert(bucket_models(bks@)[k] == prev_models[k]);
                    }
                }
            }
            cur_rs = rs;
            cur_coords = Vec::new();
            cur_m = m;
            cur_ids = Vec::new();
            cur_ids.push(idc);
            proof {
                assert(coord_ents(cur_rs, cur_coords@.map_values(|c: CoordRec| c@), 0) =~= Seq::<
                    GridEntry,
                >::empty());
                assert(entries_of_coord(cur_rs, (cur_m, cur_ids@)) =~= seq![
                    entry_of(cur_rs, cur_m, idc),
                ]);
                lemma_take_push(entries@, i as int);
                assert(entries_of_record(bucket_models(bks@)) + coord_ents(
                    cur_rs,
                    cur_coords@.map_values(|c: CoordRec| c@),
                    0,
                ) + entries_of_coord(cur_rs, (cur_m, cur_ids@)) =~= entries@.take(i + 1));
            }
        }
        i = i + 1;
    }
    // close the open coordinate and bucket
    let ghost prev_ids = cur_ids@;
    let ghost prev_coords = cur_coords@;
    let ghost prev_models = bucket_models(bks@);
    let done = CoordRec { morton: cur_m, ids: cur_ids };
    cur_coords.push(done);
    proof {
        lemma_coord_ents_push(
            cur_rs,
            prev_coords.map_values(|c: CoordRec| c@),
            (cur_m, prev_ids),
            0,
        );
        assert(cur_coords@.map_values(|c: CoordRec| c@) =~= prev_coords.map_values(
            |c: CoordRec| c@,
        ).push((cur_m, prev_ids)));
    }
    let ghost newb = (cur_rs, cur_coords@.map_values(|c: CoordRec| c@));
    let ghost closed_coords = cur_coords@;
    let bdone = Bucket { relev_score: cur_rs, coords: cur_coords };
    bks.push(bdone);
    proof {
        assert(bks@.last()@ == newb);
        assert(bucket_models(bks@) =~= prev_models.push(newb));
        lemma_rec_ents_push(prev_models, newb, 0);
        assert forall|k: int| 0 <= k < closed_coords.len() implies (#[trigger] closed_coords[k]).ids@.len()
            <= n as int by {
            if k < prev_coords.len() {
                assert(closed_coords[k] == prev_coords[k]);
            }
        }
        lemma_bucket_facts(bks@.last(), n as int);
        lemma_rec_wf_push(prev_models, newb);
        assert forall|k: int| 0 <= k < bks@.len() implies (#[trigger] bucket_models(bks@)[k]).0
            >> 4 <= 5 by {
            if k < bks@.len() - 1 {
                assert(bucket_models(bks@)[k] == prev_models[k]);
            }
        }
        assert(entries@.take(n as int) =~= entries@);
        assert(entries_of_record(bucket_models(bks@)) =~= entries_of_record(prev_models)
            + entries_of_bucket(newb));
    }
    bks
}

/// Pushing a well-formed bucket keeps the record well-formed.
proof fn lemma_rec_wf_push(ms: Seq<(u8, Seq<(u32, Seq<u32>)>)>, bm: (u8, Seq<(u32, Seq<u32>)>))
    requires
        rec_wf(ms),
        ms.len() < 0xFFFFFFFF,
        bm.0 >> 4 <= 5,
        bm.1.len() <= 0xFFFFFFFF,
        forall|j: int| 0 <= j < bm.1.len() ==> (#[trigger] bm.1[j]).1.len() <= 0x3FFFFFFF,
    ensures
        rec_wf(ms.push(bm)),
{
    let r = ms.push(bm);
    assert forall|i: int| 0 <= i < r.len() implies {
        &&& (#[trigger] r[i]).0 >> 4 <= 5
        &&& r[i].1.len() <= 0xFFFFFFFF
        &&& forall|j: int| 0 <= j < r[i].1.len() ==> (#[trigger] r[i].1[j]).1.len() <= 0x3FFFFFFF
    } by {
        if i < ms.len() {
            assert(r[i] == ms[i]);
        } else {
            assert(r[i] == bm);
        }
    }
}

/// The model facts of a bucket just built from the current run.
proof fn lemma_bucket_facts(b: Bucket, bound: int)
    requires
        forall|k: int| 0 <= k < b.coords@.len() ==> (#[trigger] b.coords@[k]).ids@.len() <= bound,
    ensures
        b@.1.len() == b.coords@.len(),
        forall|j: int| 0 <= j < b@.1.len() ==> (#[trigger] b@.1[j]).1.len() <= bound,
{
    assert forall|j: int| 0 <= j < b@.1.len() implies (#[trigger] b@.1[j]).1.len() <= bound by {
        assert(b@.1[j] == b.coords@[j]@);
    }
}

/// `take(i + 1)` is `take(i)` plus the `i`-th element.
proof fn lemma_take_push(s: Seq<GridEntry>, i: int)
    requires
        0 <= i < s.len(),
    ensures
        s.take(i + 1) == s.take(i).push(s[i]),
{
    assert(s.take(i + 1) =~= s.take(i).push(s[i]));
}

/// Packing an entry and expanding the packed fields gives the entry back.
pub proof fn lemma_entry_roundtrip(e: GridEntry)
    requires
        e.wf(),
    ensures
        entry_of(rs_of(e), spec_interleave(e.x, e.y), idc_of(e)) == e,
{
    let rs = rs_of(e);
    let idc = idc_of(e);
    let relev = e.relev;
    let score = e.score;
    let id = e.id;
    let h = e.source_phrase_hash;
    assert(relev <= 5 && score <= 15 ==> ((relev * 16 + score) as u8) >> 4 == relev && ((relev
        * 16 + score) as u8) & 15 == score) by (bit_vector);
    assert(id < 0x1000000 ==> ((id * 256 + h as u32) as u32) >> 8 == id && ((id * 256
        + h as u32) as u32) & 255 == h as u32) by (bit_vector);
    crate::zorder::lemma_morton_roundtrip(e.x, e.y);
}

} // verus!
