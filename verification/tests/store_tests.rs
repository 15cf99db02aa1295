// The write-then-read behavior of the store: insertion, renumbering,
// provenance hashes, morton order, score order, and the streaming matcher
// under language sets, bounding boxes and proximity.

use gridstore::GridEntry;
use gridstore::GridKey;
use gridstore::MatchEntry;
use gridstore::MatchKey;
use gridstore::MatchOpts;
use gridstore::MatchPhrase;
use gridstore::MAX_CONTEXTS;
use gridstore::SCOREDIST_SCALE;
use gridstore::builder::GridStoreBuilder;
use gridstore::spatial::global_bbox_for_zoom;
use gridstore::store::GridStore;

fn me(
    relev: u8,
    score: u8,
    x: u16,
    y: u16,
    id: u32,
    matches_language: bool,
    distance: u16,
    scoredist: u64,
) -> MatchEntry {
    MatchEntry {
        relev,
        score,
        x,
        y,
        id,
        source_phrase_hash: 0,
        matches_language,
        distance,
        scoredist,
    }
}

fn assert_scoredist_close(got: u64, want: f64) {
    let got_f = got as f64 / SCOREDIST_SCALE as f64;
    assert!(
        (got_f - want).abs() <= 1e-4 * want.max(1.0),
        "scoredist {} != {}",
        got_f,
        want
    );
}

#[test]
fn combined_test() {
    let mut builder = GridStoreBuilder::new();

    let key = GridKey { phrase_id: 1, lang_set: 1 };

    let mut entries = vec![
        GridEntry { id: 2, x: 2, y: 2, relev: 4, score: 3, source_phrase_hash: 0 },
        GridEntry { id: 3, x: 3, y: 3, relev: 5, score: 1, source_phrase_hash: 1 },
        GridEntry { id: 1, x: 1, y: 1, relev: 5, score: 7, source_phrase_hash: 2 },
    ];
    builder.insert(&key, entries.clone()).expect("Unable to insert record");

    let pairs = builder.finish().unwrap();

    let reader = GridStore::new(pairs);
    let record = reader.get(&key).unwrap().unwrap();

    entries.sort_by(|a, b| b.partial_cmp(a).unwrap());
    assert_eq!(
        record, entries,
        "identical entries come out as went in, in reverse-sorted order"
    );

    {
        let key = GridKey { phrase_id: 2, lang_set: 1 };
        let record = reader.get(&key).expect("Failed to get key");
        assert!(record.is_none(), "Retrieved no results");
    }
}

#[test]
fn renumber_test() {
    let mut builder = GridStoreBuilder::new();

    // phrase IDs are descending, grid IDs are ascending
    let items = vec![
        (
            GridKey { phrase_id: 2, lang_set: 1 },
            GridEntry { id: 0, x: 1, y: 1, relev: 5, score: 7, source_phrase_hash: 2 },
        ),
        (
            GridKey { phrase_id: 1, lang_set: 1 },
            GridEntry { id: 1, x: 1, y: 1, relev: 5, score: 7, source_phrase_hash: 2 },
        ),
        (
            GridKey { phrase_id: 0, lang_set: 1 },
            GridEntry { id: 2, x: 1, y: 1, relev: 5, score: 7, source_phrase_hash: 2 },
        ),
    ];

    for (key, val) in items {
        builder.insert(&key, vec![val]).expect("Unable to insert record");
    }
    builder.renumber(&vec![2, 1, 0]).unwrap();
    // after renumbering, the IDs should match
    let pairs = builder.finish().unwrap();

    let reader = GridStore::new(pairs);

    for id in 0..=2 {
        let entries = reader.get(&GridKey { phrase_id: id, lang_set: 1 }).unwrap().unwrap();
        assert_eq!(id, entries[0].id);
    }
}

#[test]
fn phrase_hash_test() {
    let mut builder = GridStoreBuilder::new();

    let key = GridKey { phrase_id: 1, lang_set: 1 };

    let mut entries = vec![
        GridEntry { id: 1, x: 1, y: 1, relev: 5, score: 1, source_phrase_hash: 0 },
        GridEntry { id: 1, x: 1, y: 1, relev: 3, score: 1, source_phrase_hash: 2 },
        GridEntry { id: 1, x: 1, y: 1, relev: 2, score: 1, source_phrase_hash: 3 },
    ];
    builder.insert(&key, entries.clone()).expect("Unable to insert record");

    let pairs = builder.finish().unwrap();

    let reader = GridStore::new(pairs);
    let record = reader.get(&key).unwrap().unwrap();

    entries.sort_by(|a, b| b.partial_cmp(a).unwrap());
    assert_eq!(
        record, entries,
        "identical entries come out as went in, in reverse-sorted order"
    );
}

#[test]
fn cover_test() {
    let mut builder = GridStoreBuilder::new();

    let key = GridKey { phrase_id: 1, lang_set: 1 };

    let entries = vec![
        GridEntry { id: 1, x: 1, y: 1, relev: 5, score: 1, source_phrase_hash: 0 },
        GridEntry { id: 1, x: 1, y: 2, relev: 5, score: 1, source_phrase_hash: 0 },
        GridEntry { id: 1, x: 2, y: 1, relev: 5, score: 1, source_phrase_hash: 0 },
    ];
    builder.insert(&key, entries.clone()).expect("Unable to insert record");

    let pairs = builder.finish().unwrap();

    let reader = GridStore::new(pairs);
    let record = reader.get(&key).unwrap().unwrap();

    // Results come back in morton order.
    assert_eq!(record[0], entries[1], "expected first result");
    assert_eq!(record[1], entries[2], "expected second result");
    assert_eq!(record[2], entries[0], "expected second result");
}

#[test]
fn score_test() {
    let mut builder = GridStoreBuilder::new();

    let key = GridKey { phrase_id: 1, lang_set: 1 };

    let mut entries = vec![
        GridEntry { id: 1, x: 1, y: 1, relev: 5, score: 1, source_phrase_hash: 0 },
        GridEntry { id: 1, x: 1, y: 1, relev: 5, score: 7, source_phrase_hash: 0 },
    ];
    builder.insert(&key, entries.clone()).expect("Unable to insert record");

    let pairs = builder.finish().unwrap();

    let reader = GridStore::new(pairs);
    let record = reader.get(&key).unwrap().unwrap();

    entries.sort_by(|a, b| b.partial_cmp(a).unwrap());
    assert_eq!(
        record, entries,
        "identical entries come out as went in, in reverse-sorted order"
    );
}

fn matching_reader() -> (GridStore, Vec<GridKey>) {
    let mut builder = GridStoreBuilder::new();

    let keys = vec![
        GridKey { phrase_id: 1, lang_set: 1 },
        GridKey { phrase_id: 1, lang_set: 2 },
        GridKey { phrase_id: 2, lang_set: 1 },
        GridKey { phrase_id: 1, lang_set: 1 },
    ];

    let mut i: u32 = 0;
    for key in keys.iter() {
        for _j in 0..2 {
            let entries = vec![
                GridEntry { id: i, x: (2 * i) as u16, y: 1, relev: 5, score: 1, source_phrase_hash: 0 },
                GridEntry { id: i + 1, x: ((2 * i) + 1) as u16, y: 1, relev: 5, score: 7, source_phrase_hash: 0 },
                GridEntry { id: i + 2, x: ((2 * i) + 2) as u16, y: 1, relev: 5, score: 7, source_phrase_hash: 0 },
                GridEntry { id: i + 3, x: ((2 * i) + 1) as u16, y: 1, relev: 5, score: 7, source_phrase_hash: 0 },
            ];
            i += 4;

            builder.insert(key, entries).expect("Unable to insert record");
        }
    }

    let pairs = builder.finish().unwrap();
    let reader = GridStore::new_with_options(pairs, 14, 0, 1000, global_bbox_for_zoom(14), 1);
    (reader, keys)
}

#[test]
fn matching_test() {
    let (reader, keys) = matching_reader();
    let sd7 = 7 * SCOREDIST_SCALE;
    let sd1 = SCOREDIST_SCALE;

    let search_key = MatchKey { match_phrase: MatchPhrase::Range { start: 1, end: 2 }, lang_set: 1 };
    let records = reader
        .streaming_get_matching(&search_key, &MatchOpts::default(), MAX_CONTEXTS)
        .unwrap();
    assert_eq!(
        records,
        [
            me(125, 7, 58, 1, 30, true, 0, sd7),
            me(125, 7, 57, 1, 31, true, 0, sd7),
            me(125, 7, 57, 1, 29, true, 0, sd7),
            me(125, 1, 56, 1, 28, true, 0, sd1),
            me(120, 7, 26, 1, 14, false, 0, sd7),
            me(120, 7, 25, 1, 15, false, 0, sd7),
            me(120, 7, 25, 1, 13, false, 0, sd7),
            me(120, 1, 24, 1, 12, false, 0, sd1),
        ]
    );

    let search_key = MatchKey { match_phrase: MatchPhrase::Range { start: 1, end: 3 }, lang_set: 1 };
    let records = reader
        .streaming_get_matching(&search_key, &MatchOpts::default(), MAX_CONTEXTS)
        .unwrap();
    assert_eq!(
        records,
        [
            me(125, 7, 58, 1, 30, true, 0, sd7),
            me(125, 7, 57, 1, 31, true, 0, sd7),
            me(125, 7, 57, 1, 29, true, 0, sd7),
            me(125, 7, 42, 1, 22, true, 0, sd7),
            me(125, 7, 41, 1, 23, true, 0, sd7),
            me(125, 7, 41, 1, 21, true, 0, sd7),
            me(125, 1, 56, 1, 28, true, 0, sd1),
            me(125, 1, 40, 1, 20, true, 0, sd1),
            me(120, 7, 26, 1, 14, false, 0, sd7),
            me(120, 7, 25, 1, 15, false, 0, sd7),
            me(120, 7, 25, 1, 13, false, 0, sd7),
            me(120, 1, 24, 1, 12, false, 0, sd1),
        ]
    );

    let search_key = MatchKey { match_phrase: MatchPhrase::Range { start: 1, end: 3 }, lang_set: 0 };
    let records = reader
        .streaming_get_matching(&search_key, &MatchOpts::default(), MAX_CONTEXTS)
        .unwrap();
    assert_eq!(
        records,
        [
            me(120, 7, 58, 1, 30, false, 0, sd7),
            me(120, 7, 57, 1, 31, false, 0, sd7),
            me(120, 7, 57, 1, 29, false, 0, sd7),
            me(120, 7, 42, 1, 22, false, 0, sd7),
            me(120, 7, 41, 1, 23, false, 0, sd7),
            me(120, 7, 41, 1, 21, false, 0, sd7),
            me(120, 7, 26, 1, 14, false, 0, sd7),
            me(120, 7, 25, 1, 15, false, 0, sd7),
            me(120, 7, 25, 1, 13, false, 0, sd7),
            me(120, 1, 56, 1, 28, false, 0, sd1),
            me(120, 1, 40, 1, 20, false, 0, sd1),
            me(120, 1, 24, 1, 12, false, 0, sd1),
        ]
    );

    let search_key = MatchKey { match_phrase: MatchPhrase::Range { start: 1, end: 3 }, lang_set: 2 };
    let records = reader
        .streaming_get_matching(&search_key, &MatchOpts::default(), MAX_CONTEXTS)
        .unwrap();
    assert_eq!(
        records,
        [
            me(125, 7, 26, 1, 14, true, 0, sd7),
            me(125, 7, 25, 1, 15, true, 0, sd7),
            me(125, 7, 25, 1, 13, true, 0, sd7),
            me(125, 1, 24, 1, 12, true, 0, sd1),
            me(120, 7, 58, 1, 30, false, 0, sd7),
            me(120, 7, 57, 1, 31, false, 0, sd7),
            me(120, 7, 57, 1, 29, false, 0, sd7),
            me(120, 7, 42, 1, 22, false, 0, sd7),
            me(120, 7, 41, 1, 23, false, 0, sd7),
            me(120, 7, 41, 1, 21, false, 0, sd7),
            me(120, 1, 56, 1, 28, false, 0, sd1),
            me(120, 1, 40, 1, 20, false, 0, sd1),
        ]
    );

    let search_key = MatchKey { match_phrase: MatchPhrase::Range { start: 1, end: 3 }, lang_set: 3 };
    let records = reader
        .streaming_get_matching(&search_key, &MatchOpts::default(), MAX_CONTEXTS)
        .unwrap();
    assert_eq!(
        records,
        [
            me(125, 7, 58, 1, 30, true, 0, sd7),
            me(125, 7, 57, 1, 31, true, 0, sd7),
            me(125, 7, 57, 1, 29, true, 0, sd7),
            me(125, 7, 42, 1, 22, true, 0, sd7),
            me(125, 7, 41, 1, 23, true, 0, sd7),
            me(125, 7, 41, 1, 21, true, 0, sd7),
            me(125, 7, 26, 1, 14, true, 0, sd7),
            me(125, 7, 25, 1, 15, true, 0, sd7),
            me(125, 7, 25, 1, 13, true, 0, sd7),
            me(125, 1, 56, 1, 28, true, 0, sd1),
            me(125, 1, 40, 1, 20, true, 0, sd1),
            me(125, 1, 24, 1, 12, true, 0, sd1),
        ]
    );

    let search_key = MatchKey { match_phrase: MatchPhrase::Range { start: 1, end: 1 }, lang_set: 1 };
    let records = reader
        .streaming_get_matching(&search_key, &MatchOpts::default(), MAX_CONTEXTS)
        .unwrap();
    assert_eq!(records, []);

    let search_key = MatchKey { match_phrase: MatchPhrase::Range { start: 3, end: 4 }, lang_set: 1 };
    let records = reader
        .streaming_get_matching(&search_key, &MatchOpts::default(), MAX_CONTEXTS)
        .unwrap();
    assert_eq!(records, []);

    let search_key = MatchKey { match_phrase: MatchPhrase::Range { start: 1, end: 3 }, lang_set: 1 };
    let records = reader
        .streaming_get_matching(
            &search_key,
            &MatchOpts { bbox: Some([26, 0, 41, 2]), ..MatchOpts::default() },
            MAX_CONTEXTS,
        )
        .unwrap();
    assert_eq!(
        records,
        [
            me(125, 7, 41, 1, 23, true, 0, sd7),
            me(125, 7, 41, 1, 21, true, 0, sd7),
            me(125, 1, 40, 1, 20, true, 0, sd1),
            me(120, 7, 26, 1, 14, false, 0, sd7),
        ]
    );

    // Search just below existing records where the z-order curve overlaps
    // with the bbox, but we do not want records.
    let search_key = MatchKey { match_phrase: MatchPhrase::Range { start: 1, end: 3 }, lang_set: 1 };
    let records = reader
        .streaming_get_matching(
            &search_key,
            &MatchOpts { bbox: Some([0, 2, 100, 2]), proximity: None, ..MatchOpts::default() },
            MAX_CONTEXTS,
        )
        .unwrap();
    assert_eq!(records.len(), 0, "no matching recods in bbox");

    // Search where neither z-order curve or actual x,y overlap with bbox.
    let search_key = MatchKey { match_phrase: MatchPhrase::Range { start: 1, end: 3 }, lang_set: 1 };
    let records = reader
        .streaming_get_matching(
            &search_key,
            &MatchOpts { bbox: Some([100, 100, 100, 100]), proximity: None, ..MatchOpts::default() },
            MAX_CONTEXTS,
        )
        .unwrap();
    assert_eq!(records.len(), 0, "no matching recods in bbox");

    let search_key = MatchKey { match_phrase: MatchPhrase::Range { start: 1, end: 3 }, lang_set: 2 };
    let records = reader
        .streaming_get_matching(
            &search_key,
            &MatchOpts { bbox: None, proximity: Some([26, 1]), zoom: 14, ..MatchOpts::default() },
            MAX_CONTEXTS,
        )
        .unwrap();
    let expected = [
        (125u8, 7u8, 26u16, 1u16, 14u32, true, 0u16, 15750.000000000002f64),
        (125, 7, 25, 1, 15, true, 1, 12600.000000000002),
        (125, 7, 25, 1, 13, true, 1, 12600.000000000002),
        (125, 1, 24, 1, 12, true, 2, 913.3852617539986),
        (125, 7, 41, 1, 23, false, 15, 840.0000000000002),
        (125, 7, 41, 1, 21, false, 15, 840.0000000000002),
        (125, 7, 42, 1, 22, false, 16, 787.5000000000001),
        (125, 7, 57, 1, 31, false, 31, 406.4516129032259),
        (125, 7, 57, 1, 29, false, 31, 406.4516129032259),
        (125, 7, 58, 1, 30, false, 32, 393.75000000000006),
        (125, 1, 40, 1, 20, false, 14, 130.48360882199978),
        (125, 1, 56, 1, 28, false, 30, 60.89235078359991),
    ];
    assert_eq!(records.len(), expected.len());
    for (got, want) in records.iter().zip(expected.iter()) {
        assert_eq!(
            (got.relev, got.score, got.x, got.y, got.id, got.matches_language, got.distance),
            (want.0, want.1, want.2, want.3, want.4, want.5, want.6)
        );
        assert_scoredist_close(got.scoredist, want.7);
    }

    let search_key = MatchKey { match_phrase: MatchPhrase::Range { start: 1, end: 3 }, lang_set: 2 };
    let records = reader
        .streaming_get_matching(
            &search_key,
            &MatchOpts {
                bbox: Some([10, 0, 41, 2]),
                proximity: Some([26, 1]),
                zoom: 14,
            },
            MAX_CONTEXTS,
        )
        .unwrap();
    let expected = [
        (125u8, 7u8, 26u16, 1u16, 14u32, true, 0u16, 15750.000000000002f64),
        (125, 7, 25, 1, 15, true, 1, 12600.000000000002),
        (125, 7, 25, 1, 13, true, 1, 12600.000000000002),
        (125, 1, 24, 1, 12, true, 2, 913.3852617539986),
        (125, 7, 41, 1, 23, false, 15, 840.0000000000002),
        (125, 7, 41, 1, 21, false, 15, 840.0000000000002),
        (125, 1, 40, 1, 20, false, 14, 130.48360882199978),
    ];
    assert_eq!(records.len(), expected.len());
    for (got, want) in records.iter().zip(expected.iter()) {
        assert_eq!(
            (got.relev, got.score, got.x, got.y, got.id, got.matches_language, got.distance),
            (want.0, want.1, want.2, want.3, want.4, want.5, want.6)
        );
        assert_scoredist_close(got.scoredist, want.7);
    }

    let listed_keys = reader.keys().unwrap();
    let mut orig_keys = keys.clone();
    orig_keys.sort();
    orig_keys.dedup();
    assert_eq!(listed_keys, orig_keys);
}
