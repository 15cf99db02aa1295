// Unit checks of the pieces: the proximity scoring at its calibrated
// values, the spatial predicates, the key and record codecs, the error
// variants, and the queue bound of the streaming matcher.

use gridstore::GridEntry;
use gridstore::GridError;
use gridstore::GridKey;
use gridstore::MatchKey;
use gridstore::RELEV_DEN;
use gridstore::RELEV_LEVELS;
use gridstore::MatchOpts;
use gridstore::MatchPhrase;
use gridstore::SCOREDIST_SCALE;
use gridstore::builder::GridStoreBuilder;
use gridstore::spatial::global_bbox_for_zoom;
use gridstore::spatial::in_bbox;
use gridstore::spatial::scoredist;
use gridstore::spatial::tile_dist;
use gridstore::spatial::within_radius;
use gridstore::store::GridStore;
use gridstore::zorder::deinterleave_morton;
use gridstore::zorder::interleave_morton;

fn sd(zoom: u16, d: u16, score: u8, radius: u32) -> f64 {
    scoredist(zoom, d, score, radius) as f64 / SCOREDIST_SCALE as f64
}

fn close(got: f64, want: f64) -> bool {
    (got - want).abs() <= 1e-4 * want.max(1.0)
}

#[test]
fn scoredist_calibration() {
    // the proximity scoring at zoom 14 with radius 1000
    assert!(close(sd(14, 0, 7, 1000), 15750.0));
    assert!(close(sd(14, 1, 7, 1000), 12600.0));
    assert!(close(sd(14, 2, 1, 1000), 913.3852617539986));
    assert!(close(sd(14, 15, 7, 1000), 840.0));
    assert!(close(sd(14, 16, 7, 1000), 787.5));
    assert!(close(sd(14, 31, 7, 1000), 406.4516129032259));
    assert!(close(sd(14, 32, 7, 1000), 393.75));
    assert!(close(sd(14, 14, 1, 1000), 130.48360882199978));
    assert!(close(sd(14, 30, 1, 1000), 60.89235078359991));
    // scores above 7 are capped
    assert_eq!(scoredist(14, 5, 15, 1000), scoredist(14, 5, 7, 1000));
    // monotonically decreasing in distance
    assert!(scoredist(14, 3, 7, 1000) > scoredist(14, 4, 7, 1000));
    // one zoom level down halves the radius scale
    assert!(close(sd(13, 1, 7, 1000), 6300.0));
}

#[test]
fn within_radius_boundary() {
    // radius 1000 at zoom 14 is 1800 tiles
    assert!(within_radius(14, 32, 1000));
    assert!(within_radius(14, 1800, 1000));
    assert!(!within_radius(14, 1801, 1000));
    // at zoom 13 the same radius is 900 tiles
    assert!(within_radius(13, 900, 1000));
    assert!(!within_radius(13, 901, 1000));
}

#[test]
fn tile_dist_is_chebyshev() {
    assert_eq!(tile_dist(26, 1, 26, 1), 0);
    assert_eq!(tile_dist(26, 1, 25, 1), 1);
    assert_eq!(tile_dist(26, 1, 58, 1), 32);
    assert_eq!(tile_dist(5, 9, 9, 2), 7);
    assert_eq!(tile_dist(9, 2, 5, 9), 7);
}

#[test]
fn bbox_membership() {
    assert!(in_bbox(26, 1, &[10, 0, 41, 2]));
    assert!(!in_bbox(42, 1, &[10, 0, 41, 2]));
    assert!(!in_bbox(26, 3, &[10, 0, 41, 2]));
    let global = global_bbox_for_zoom(14);
    assert_eq!(global, vec![[0, 0, 16383, 16383]]);
}

#[test]
fn morton_round_trip() {
    // would fail if the interleave handed an argument back unchanged
    assert_eq!(interleave_morton(1, 2), 9);
    assert_eq!(interleave_morton(2, 1), 6);
    assert_eq!(interleave_morton(1, 1), 3);
    assert_eq!(deinterleave_morton(9), (1, 2));
    assert_eq!(deinterleave_morton(6), (2, 1));
    assert_eq!(deinterleave_morton(interleave_morton(12345, 54321)), (12345, 54321));
}

#[test]
fn bbox_covering_global_range_is_no_filter() {
    // filtering by a bbox that covers the whole grid equals no bbox
    let mut builder = GridStoreBuilder::new();
    let key = GridKey { phrase_id: 7, lang_set: 1 };
    let entries = vec![
        GridEntry { id: 1, x: 100, y: 200, relev: 5, score: 3, source_phrase_hash: 0 },
        GridEntry { id: 2, x: 16000, y: 3, relev: 4, score: 9, source_phrase_hash: 0 },
        GridEntry { id: 3, x: 0, y: 0, relev: 5, score: 0, source_phrase_hash: 0 },
    ];
    builder.insert(&key, entries).unwrap();
    let pairs = builder.finish().unwrap();
    let reader = GridStore::new_with_options(pairs, 14, 0, 1000, global_bbox_for_zoom(14), 1);
    let mk = MatchKey { match_phrase: MatchPhrase::Exact(7), lang_set: 1 };
    let with_bbox = reader
        .streaming_get_matching(
            &mk,
            &MatchOpts { zoom: 14, proximity: Some([50, 50]), bbox: Some([0, 0, 65535, 65535]) },
            10,
        )
        .unwrap();
    let without_bbox = reader
        .streaming_get_matching(
            &mk,
            &MatchOpts { zoom: 14, proximity: Some([50, 50]), bbox: None },
            10,
        )
        .unwrap();
    assert_eq!(with_bbox, without_bbox);
    assert_eq!(with_bbox.len(), 3);
}

#[test]
fn language_mismatch_penalty() {
    // without proximity, a language mismatch costs exactly 4% of relevance
    let mut builder = GridStoreBuilder::new();
    let key = GridKey { phrase_id: 3, lang_set: 4 };
    let entries =
        vec![GridEntry { id: 9, x: 4, y: 4, relev: 5, score: 2, source_phrase_hash: 1 }];
    builder.insert(&key, entries).unwrap();
    let pairs = builder.finish().unwrap();
    let reader = GridStore::new(pairs);
    let mk = MatchKey { match_phrase: MatchPhrase::Exact(3), lang_set: 8 };
    let records = reader.streaming_get_matching(&mk, &MatchOpts::default(), 10).unwrap();
    assert_eq!(records.len(), 1);
    assert!(!records[0].matches_language);
    assert_eq!(records[0].relev, 24 * RELEV_LEVELS);
    assert_eq!(records[0].relev as f64 / RELEV_DEN as f64, 0.96);
}

#[test]
fn corrupt_record_is_an_error() {
    // a truncated blob under a well-formed key
    let mut builder = GridStoreBuilder::new();
    let key = GridKey { phrase_id: 1, lang_set: 1 };
    builder
        .insert(&key, vec![GridEntry { id: 1, x: 1, y: 1, relev: 5, score: 1, source_phrase_hash: 0 }])
        .unwrap();
    let mut pairs = builder.finish().unwrap();
    pairs[0].1.truncate(3);
    let reader = GridStore::new(pairs);
    assert_eq!(reader.get(&key), Err(GridError::CorruptRecord));
    let mk = MatchKey { match_phrase: MatchPhrase::Exact(1), lang_set: 1 };
    assert_eq!(
        reader.streaming_get_matching(&mk, &MatchOpts::default(), 10),
        Err(GridError::CorruptRecord)
    );
}

#[test]
fn corrupt_key_surfaces_as_corrupt_record() {
    let pairs = vec![(vec![0u8, 1u8], vec![0u8, 0, 0, 0])];
    let reader = GridStore::new(pairs);
    assert_eq!(reader.keys(), Err(GridError::CorruptRecord));
    assert_eq!(reader.iter(), Err(GridError::CorruptRecord));
    let mk = MatchKey { match_phrase: MatchPhrase::Range { start: 0, end: 10 }, lang_set: 1 };
    assert_eq!(
        reader.streaming_get_matching(&mk, &MatchOpts::default(), 10),
        Err(GridError::CorruptRecord)
    );
}

#[test]
fn invalid_entries_are_rejected() {
    let mut builder = GridStoreBuilder::new();
    let key = GridKey { phrase_id: 1, lang_set: 1 };
    // relevance level above 5
    let bad = vec![GridEntry { id: 1, x: 1, y: 1, relev: 6, score: 1, source_phrase_hash: 0 }];
    assert_eq!(builder.insert(&key, bad), Err(GridError::CorruptRecord));
    // id above 24 bits
    let bad = vec![GridEntry { id: 0x1000000, x: 1, y: 1, relev: 5, score: 1, source_phrase_hash: 0 }];
    assert_eq!(builder.insert(&key, bad), Err(GridError::CorruptRecord));
}

#[test]
fn renumber_out_of_range_is_an_error() {
    let mut builder = GridStoreBuilder::new();
    let key = GridKey { phrase_id: 1, lang_set: 1 };
    builder
        .insert(&key, vec![GridEntry { id: 5, x: 1, y: 1, relev: 5, score: 1, source_phrase_hash: 0 }])
        .unwrap();
    assert_eq!(builder.renumber(&vec![0, 1, 2]), Err(GridError::BadRenumber));
}

#[test]
fn duplicate_entries_collapse() {
    let mut builder = GridStoreBuilder::new();
    let key = GridKey { phrase_id: 1, lang_set: 1 };
    let e = GridEntry { id: 1, x: 1, y: 1, relev: 5, score: 1, source_phrase_hash: 0 };
    builder.insert(&key, vec![e, e, e]).unwrap();
    let pairs = builder.finish().unwrap();
    let reader = GridStore::new(pairs);
    assert_eq!(reader.get(&key).unwrap().unwrap(), vec![e]);
}

#[test]
fn reinsert_replaces() {
    let mut builder = GridStoreBuilder::new();
    let key = GridKey { phrase_id: 1, lang_set: 1 };
    let e1 = GridEntry { id: 1, x: 1, y: 1, relev: 5, score: 1, source_phrase_hash: 0 };
    let e2 = GridEntry { id: 2, x: 2, y: 2, relev: 4, score: 2, source_phrase_hash: 0 };
    builder.insert(&key, vec![e1]).unwrap();
    builder.insert(&key, vec![e2]).unwrap();
    let pairs = builder.finish().unwrap();
    let reader = GridStore::new(pairs);
    assert_eq!(reader.get(&key).unwrap().unwrap(), vec![e2]);
}

#[test]
fn queue_bound_keeps_best_records() {
    // two records; with max_values = 1 only the better record survives whole
    let mut builder = GridStoreBuilder::new();
    builder
        .insert(
            &GridKey { phrase_id: 1, lang_set: 1 },
            vec![
                GridEntry { id: 1, x: 1, y: 1, relev: 4, score: 2, source_phrase_hash: 0 },
                GridEntry { id: 2, x: 2, y: 2, relev: 4, score: 1, source_phrase_hash: 0 },
            ],
        )
        .unwrap();
    builder
        .insert(
            &GridKey { phrase_id: 2, lang_set: 1 },
            vec![GridEntry { id: 3, x: 3, y: 3, relev: 5, score: 9, source_phrase_hash: 0 }],
        )
        .unwrap();
    let pairs = builder.finish().unwrap();
    let reader = GridStore::new(pairs);
    let mk = MatchKey { match_phrase: MatchPhrase::Range { start: 1, end: 3 }, lang_set: 1 };
    let top = reader.streaming_get_matching(&mk, &MatchOpts::default(), 1).unwrap();
    assert_eq!(top.len(), 1);
    assert_eq!(top[0].id, 3);
    // and with no queue at all nothing comes back
    let none = reader.streaming_get_matching(&mk, &MatchOpts::default(), 0).unwrap();
    assert_eq!(none, vec![]);
}

#[test]
fn keys_and_iter_round_trip() {
    let mut builder = GridStoreBuilder::new();
    let k1 = GridKey { phrase_id: 1, lang_set: 0x0123456789abcdef0123456789abcdefu128 };
    let k2 = GridKey { phrase_id: 2, lang_set: 1 };
    let e = GridEntry { id: 1, x: 1, y: 1, relev: 5, score: 1, source_phrase_hash: 0 };
    builder.insert(&k1, vec![e]).unwrap();
    builder.insert(&k2, vec![e]).unwrap();
    let pairs = builder.finish().unwrap();
    let reader = GridStore::new(pairs);
    assert_eq!(reader.keys().unwrap(), vec![k1, k2]);
    assert_eq!(reader.iter().unwrap(), vec![(k1, vec![e]), (k2, vec![e])]);
}

#[test]
fn zero_lang_set_reads_back_as_any() {
    // the empty language segment stands for every language
    let mut builder = GridStoreBuilder::new();
    let k = GridKey { phrase_id: 1, lang_set: 0 };
    let e = GridEntry { id: 1, x: 1, y: 1, relev: 5, score: 1, source_phrase_hash: 0 };
    builder.insert(&k, vec![e]).unwrap();
    let pairs = builder.finish().unwrap();
    let reader = GridStore::new(pairs);
    assert_eq!(reader.keys().unwrap(), vec![GridKey { phrase_id: 1, lang_set: u128::MAX }]);
    let mk = MatchKey { match_phrase: MatchPhrase::Exact(1), lang_set: 64 };
    let records = reader.streaming_get_matching(&mk, &MatchOpts::default(), 10).unwrap();
    assert_eq!(records.len(), 1);
    assert!(records[0].matches_language);
    // even a query with no languages at all matches the empty segment
    let mk0 = MatchKey { match_phrase: MatchPhrase::Exact(1), lang_set: 0 };
    let records = reader.streaming_get_matching(&mk0, &MatchOpts::default(), 10).unwrap();
    assert_eq!(records.len(), 1);
    assert!(records[0].matches_language);
    assert_eq!(records[0].relev, 125);
}

#[test]
fn zero_lang_query_misses_labeled_records() {
    // a query with no languages gets no boost from a labeled record
    let mut builder = GridStoreBuilder::new();
    let k = GridKey { phrase_id: 1, lang_set: 1 };
    let e = GridEntry { id: 1, x: 1, y: 1, relev: 5, score: 1, source_phrase_hash: 0 };
    builder.insert(&k, vec![e]).unwrap();
    let pairs = builder.finish().unwrap();
    let reader = GridStore::new(pairs);
    let mk0 = MatchKey { match_phrase: MatchPhrase::Exact(1), lang_set: 0 };
    let records = reader.streaming_get_matching(&mk0, &MatchOpts::default(), 10).unwrap();
    assert_eq!(records.len(), 1);
    assert!(!records[0].matches_language);
    assert_eq!(records[0].relev, 120);
}

#[test]
fn bin_boundaries_round_trip() {
    let mut builder = GridStoreBuilder::new();
    let e = GridEntry { id: 1, x: 1, y: 1, relev: 5, score: 1, source_phrase_hash: 0 };
    builder.insert(&GridKey { phrase_id: 0, lang_set: 1 }, vec![e]).unwrap();
    builder.insert(&GridKey { phrase_id: 1, lang_set: 1 }, vec![e]).unwrap();
    builder.load_bin_boundaries(vec![2, 0]).unwrap();
    let pairs = builder.finish().unwrap();
    let reader = GridStore::new(pairs);
    assert_eq!(reader.bin_boundaries, vec![0, 2]);
}

#[test]
fn empty_store_and_empty_range() {
    let reader = GridStore::new(Vec::new());
    assert_eq!(reader.get(&GridKey { phrase_id: 1, lang_set: 1 }).unwrap(), None);
    assert_eq!(reader.keys().unwrap(), vec![]);
    let mk = MatchKey { match_phrase: MatchPhrase::Range { start: 5, end: 5 }, lang_set: 1 };
    assert_eq!(reader.streaming_get_matching(&mk, &MatchOpts::default(), 10).unwrap(), vec![]);
}
