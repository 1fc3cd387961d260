use ao_analysis::models::listing::{RawListing, RawStats};
use ao_analysis::models::{
    zip_history, Category, ChapterCount, Completion, History, Listing, Rating, Stats, UnixMillis,
    Warning,
};

fn raw_stats(chapters: Option<&str>) -> RawStats {
    RawStats {
        language: Some("English".to_string()),
        words: Some(1200),
        chapters: chapters.map(|c| c.to_string()),
        kudos: Some(40),
        bookmarks: None,
        hits: Some(900),
        comments: Some(3),
    }
}

fn raw_listing(history: Option<Vec<String>>, history_unix: Option<Vec<i64>>) -> RawListing {
    RawListing {
        id: "123".to_string(),
        title: "A Title".to_string(),
        rating: Rating::TeenAndUp,
        warnings: vec![Warning::NoWarnings],
        category: vec![Category::FM, Category::Gen],
        tags: vec!["Fluff".to_string()],
        summary: None,
        series: vec![],
        fandoms: vec!["Superman (2025)".to_string()],
        archetypes: vec![],
        completion: Completion::CompleteWork,
        authors: vec!["someone".to_string()],
        restricted: false,
        stats: raw_stats(Some("1/1")),
        update: "04 Apr 2012".to_string(),
        update_unix: 1333497600000,
        history,
        history_unix,
    }
}

#[test]
fn unix_millis_as_millis_is_the_value() {
    assert_eq!(UnixMillis(1333497600123).as_millis(), 1333497600123);
}

#[test]
fn unix_millis_as_seconds_divides_by_1000() {
    assert_eq!(UnixMillis(1333497600123).as_seconds(), 1333497600);
    assert_eq!(UnixMillis(999).as_seconds(), 0);
}

#[test]
fn unix_millis_as_seconds_rounds_toward_zero() {
    assert_eq!(UnixMillis(-1500).as_seconds(), -1);
    assert_eq!(UnixMillis(-999).as_seconds(), 0);
}

#[test]
fn zip_history_pairs_labels_and_timestamps() {
    let entries = zip_history(
        vec!["2026-04-11".to_string(), "2026-04-12".to_string()],
        vec![1775865600000, 1775952000000],
    )
    .unwrap();
    assert_eq!(entries.len(), 2);
    assert_eq!(entries[0].label, "2026-04-11");
    assert_eq!(entries[0].unix.as_millis(), 1775865600000);
    assert_eq!(entries[1].label, "2026-04-12");
    assert_eq!(entries[1].unix.as_millis(), 1775952000000);
}

#[test]
fn zip_history_of_empty_arrays_is_empty() {
    assert!(zip_history(vec![], vec![]).unwrap().is_empty());
}

#[test]
fn zip_history_rejects_length_mismatch() {
    let err = zip_history(vec!["a".to_string(), "b".to_string()], vec![1]).unwrap_err();
    assert_eq!(err, "history/historyUNIX length mismatch: 2 labels vs 1 timestamps");
}

#[test]
fn zip_history_mismatch_message_counts_large_lengths() {
    let labels = vec![String::new(); 12];
    let err = zip_history(labels, vec![0; 105]).unwrap_err();
    assert_eq!(err, "history/historyUNIX length mismatch: 12 labels vs 105 timestamps");
}

#[test]
fn history_from_parts_builds_entries() {
    let h = History::from_parts("77".to_string(), vec!["2026-04-11".to_string()], vec![5]).unwrap();
    assert_eq!(h.id, "77");
    assert_eq!(h.entries.len(), 1);
    assert_eq!(h.entries[0].label, "2026-04-11");
    assert_eq!(h.entries[0].unix.as_millis(), 5);
}

#[test]
fn history_from_parts_rejects_mismatch() {
    let err = History::from_parts("77".to_string(), vec![], vec![5]).unwrap_err();
    assert_eq!(err, "history/historyUNIX length mismatch: 0 labels vs 1 timestamps");
}

#[test]
fn chapter_count_parses_known_total() {
    assert_eq!(ChapterCount::parse("3/5"), Some(ChapterCount { published: 3, total: Some(5) }));
}

#[test]
fn chapter_count_parses_unknown_total() {
    assert_eq!(ChapterCount::parse("3/?"), Some(ChapterCount { published: 3, total: None }));
}

#[test]
fn chapter_count_trims_both_parts() {
    assert_eq!(
        ChapterCount::parse(" 12 /\t? "),
        Some(ChapterCount { published: 12, total: None })
    );
    assert_eq!(
        ChapterCount::parse("1 / 1\r"),
        Some(ChapterCount { published: 1, total: Some(1) })
    );
}

#[test]
fn chapter_count_accepts_plus_sign_and_leading_zeros() {
    assert_eq!(ChapterCount::parse("+007/010"), Some(ChapterCount { published: 7, total: Some(10) }));
}

#[test]
fn chapter_count_rejects_malformed() {
    assert_eq!(ChapterCount::parse("3"), None);
    assert_eq!(ChapterCount::parse(""), None);
    assert_eq!(ChapterCount::parse("/5"), None);
    assert_eq!(ChapterCount::parse("3/"), None);
    assert_eq!(ChapterCount::parse("a/5"), None);
    assert_eq!(ChapterCount::parse("3/x"), None);
    assert_eq!(ChapterCount::parse("-3/5"), None);
    assert_eq!(ChapterCount::parse("3/5/7"), None);
    assert_eq!(ChapterCount::parse("3 4/5"), None);
    assert_eq!(ChapterCount::parse("+/5"), None);
}

#[test]
fn chapter_count_rejects_values_beyond_u32() {
    assert_eq!(ChapterCount::parse("4294967296/1"), None);
    assert_eq!(
        ChapterCount::parse("4294967295/1"),
        Some(ChapterCount { published: 4294967295, total: Some(1) })
    );
}

#[test]
fn stats_from_raw_parses_chapters() {
    let s: Stats = raw_stats(Some("2/?")).into();
    assert_eq!(s.chapters, Some(ChapterCount { published: 2, total: None }));
    assert_eq!(s.words, Some(1200));
    assert_eq!(s.kudos, Some(40));
    assert_eq!(s.bookmarks, None);
    assert_eq!(s.hits, Some(900));
    assert_eq!(s.comments, Some(3));
    assert_eq!(s.language.as_deref(), Some("English"));
}

#[test]
fn stats_from_raw_drops_unparseable_chapters() {
    let s = Stats::from(raw_stats(Some("many")));
    assert_eq!(s.chapters, None);
    let s = Stats::from(raw_stats(None));
    assert_eq!(s.chapters, None);
}

#[test]
fn listing_from_raw_zips_inline_history() {
    let l = Listing::from_raw(raw_listing(
        Some(vec!["04 Apr 2012".to_string()]),
        Some(vec![1333497600000]),
    ))
    .unwrap();
    assert_eq!(l.id, "123");
    assert_eq!(l.title, "A Title");
    assert_eq!(l.rating, Rating::TeenAndUp);
    assert_eq!(l.update_unix.as_millis(), 1333497600000);
    assert_eq!(l.stats.chapters, Some(ChapterCount { published: 1, total: Some(1) }));
    let h = l.history.unwrap();
    assert_eq!(h.len(), 1);
    assert_eq!(h[0].label, "04 Apr 2012");
    assert_eq!(h[0].unix.as_millis(), 1333497600000);
}

#[test]
fn listing_from_raw_without_history_leaves_it_unset() {
    let l = Listing::from_raw(raw_listing(None, None)).unwrap();
    assert!(l.history.is_none());
    assert_eq!(l.category, vec![Category::FM, Category::Gen]);
}

#[test]
fn listing_from_raw_rejects_one_sided_history() {
    let err = Listing::from_raw(raw_listing(Some(vec!["x".to_string()]), None)).unwrap_err();
    assert_eq!(err, "history and historyUNIX must both be present or both be null");
    let err = Listing::from_raw(raw_listing(None, Some(vec![1]))).unwrap_err();
    assert_eq!(err, "history and historyUNIX must both be present or both be null");
}

#[test]
fn listing_from_raw_rejects_history_length_mismatch() {
    let err = Listing::from_raw(raw_listing(Some(vec![]), Some(vec![1, 2]))).unwrap_err();
    assert_eq!(err, "history/historyUNIX length mismatch: 0 labels vs 2 timestamps");
}
