// The prefix-bin behavior: a range query whose ends are both bin boundaries
// is served from the pre-merged records and returns the same results as a
// store without bins.

use gridstore::GridEntry;
use gridstore::GridKey;
use gridstore::MatchEntry;
use gridstore::MatchKey;
use gridstore::MatchOpts;
use gridstore::MatchPhrase;
use gridstore::SCOREDIST_SCALE;
use gridstore::builder::GridStoreBuilder;
use gridstore::spatial::global_bbox_for_zoom;
use gridstore::store::GridStore;

// 5000 phrases aaa, aab, aac, ...
fn phrases() -> Vec<String> {
    let alphabet = "abcdefghijklmnopqrstuvwxyz";
    let mut out: Vec<String> = Vec::new();
    for l1 in alphabet.bytes() {
        for l2 in alphabet.bytes() {
            for l3 in alphabet.bytes() {
                if out.len() < 5000 {
                    out.push(String::from_utf8(vec![l1, l2, l3]).unwrap());
                }
            }
        }
    }
    out
}

fn prefix_data() -> (GridStore, GridStore, Vec<String>) {
    let mut builder_with_boundaries = GridStoreBuilder::new();
    let mut builder_without_boundaries = GridStoreBuilder::new();

    let phrases = phrases();

    // insert phrases
    for i in 0..=(phrases.len() as u32) {
        let key = GridKey { phrase_id: i, lang_set: 1 };
        let entries = vec![GridEntry {
            id: i,
            x: i as u16,
            y: 1,
            relev: 5,
            score: 1,
            source_phrase_hash: 0,
        }];
        builder_with_boundaries.insert(&key, entries.clone()).expect("Unable to insert record");
        builder_without_boundaries.insert(&key, entries.clone()).expect("Unable to insert record");
    }

    // the first occurrence of every one-letter prefix becomes a boundary
    let mut boundaries: Vec<u32> = Vec::new();
    let mut seen: Vec<u8> = Vec::new();
    for (i, phrase) in phrases.iter().enumerate() {
        let first = phrase.bytes().next().unwrap();
        if !seen.contains(&first) {
            seen.push(first);
            boundaries.push(i as u32);
        }
    }
    boundaries.push(phrases.len() as u32);

    builder_with_boundaries.load_bin_boundaries(boundaries).expect("Failed to load boundaries");

    let pairs_with = builder_with_boundaries.finish().unwrap();
    let pairs_without = builder_without_boundaries.finish().unwrap();

    let reader_with_boundaries =
        GridStore::new_with_options(pairs_with, 14, 0, 200, global_bbox_for_zoom(14), 1);
    let reader_without_boundaries =
        GridStore::new_with_options(pairs_without, 14, 0, 200, global_bbox_for_zoom(14), 1);

    (reader_with_boundaries, reader_without_boundaries, phrases)
}

fn find_prefix_range(phrases: &Vec<String>, prefix: &str) -> (u32, u32) {
    let start = phrases.iter().enumerate().find(|(_, phrase)| phrase.starts_with(prefix)).unwrap().0;
    let end = phrases
        .iter()
        .enumerate()
        .rev()
        .find(|(_, phrase)| phrase.starts_with(prefix))
        .unwrap()
        .0
        + 1;
    (start as u32, end as u32)
}

#[test]
fn prefix_make_bins() {
    let (reader_with, _reader_without, _phrases) = prefix_data();
    assert!(!reader_with.bin_boundaries.is_empty());
}

#[test]
fn prefix_test_with_bins() {
    let (reader_with_boundaries, reader_without_boundaries, phrases) = prefix_data();
    let starts_with_b = find_prefix_range(&phrases, "b");

    // query that we expect to use the pre-merged ranges
    let search_key = MatchKey {
        match_phrase: MatchPhrase::Range { start: starts_with_b.0, end: starts_with_b.1 },
        lang_set: 1,
    };
    let mut records_with_boundaries = reader_with_boundaries
        .streaming_get_matching(&search_key, &MatchOpts::default(), usize::MAX)
        .unwrap();
    let mut records_without_boundaries = reader_without_boundaries
        .streaming_get_matching(&search_key, &MatchOpts::default(), usize::MAX)
        .unwrap();

    records_with_boundaries.sort_by(|a, b| a.partial_cmp(b).unwrap());
    records_without_boundaries.sort_by(|a, b| a.partial_cmp(b).unwrap());

    let mut expected = Vec::new();
    for i in starts_with_b.0..starts_with_b.1 {
        expected.push(MatchEntry {
            relev: 125,
            score: 1,
            x: i as u16,
            y: 1,
            id: i,
            source_phrase_hash: 0,
            matches_language: true,
            distance: 0,
            scoredist: SCOREDIST_SCALE,
        })
    }

    assert_eq!(records_with_boundaries, expected);
    assert_eq!(records_without_boundaries, expected);
}

#[test]
fn prefix_test_no_bins() {
    let (reader_with_boundaries, reader_without_boundaries, phrases) = prefix_data();
    let starts_with_bc = find_prefix_range(&phrases, "bc");

    // query that we expect not to use the pre-merged ranges
    let search_key = MatchKey {
        match_phrase: MatchPhrase::Range { start: starts_with_bc.0, end: starts_with_bc.1 },
        lang_set: 1,
    };
    let mut records_with_boundaries = reader_with_boundaries
        .streaming_get_matching(&search_key, &MatchOpts::default(), usize::MAX)
        .unwrap();
    let mut records_without_boundaries = reader_without_boundaries
        .streaming_get_matching(&search_key, &MatchOpts::default(), usize::MAX)
        .unwrap();

    records_with_boundaries.sort_by(|a, b| a.partial_cmp(b).unwrap());
    records_without_boundaries.sort_by(|a, b| a.partial_cmp(b).unwrap());

    let mut expected = Vec::new();
    for i in starts_with_bc.0..starts_with_bc.1 {
        expected.push(MatchEntry {
            relev: 125,
            score: 1,
            x: i as u16,
            y: 1,
            id: i,
            source_phrase_hash: 0,
            matches_language: true,
            distance: 0,
            scoredist: SCOREDIST_SCALE,
        })
    }
    assert_eq!(records_with_boundaries, expected);
    assert_eq!(records_without_boundaries, expected);
}
