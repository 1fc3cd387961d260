use ao_analysis::models::listing::RawStats;
use ao_analysis::models::{Category, Completion, History, HistoryEntry, Listing, Rating, Stats, UnixMillis};
use ao_analysis::state::loader::{
    assemble_state, build_fandom, classify_data_file, group_data_files, merge_histories, record_lines,
    DataFileKind,
};

fn stats() -> Stats {
    Stats::from(RawStats {
        language: None,
        words: None,
        chapters: Some("2/3".to_string()),
        kudos: None,
        bookmarks: None,
        hits: None,
        comments: None,
    })
}

fn listing(id: &str, history: Option<Vec<HistoryEntry>>) -> Listing {
    Listing {
        id: id.to_string(),
        title: format!("work {}", id),
        rating: Rating::GeneralAudiences,
        warnings: vec![],
        category: vec![Category::Gen],
        tags: vec![],
        summary: None,
        series: vec![],
        fandoms: vec![],
        archetypes: vec![],
        completion: Completion::WorkInProgress,
        authors: vec![],
        restricted: false,
        stats: stats(),
        update: "01 Jan 2020".to_string(),
        update_unix: UnixMillis(1577836800000),
        history,
    }
}

fn entry(label: &str, unix: i64) -> HistoryEntry {
    HistoryEntry { label: label.to_string(), unix: UnixMillis(unix) }
}

fn history(id: &str, label: &str) -> History {
    History { id: id.to_string(), entries: vec![entry(label, 7)] }
}

#[test]
fn merge_fills_missing_history_by_id() {
    let mut hs = vec![history("b", "hb"), history("a", "ha")];
    let out = merge_histories(vec![listing("a", None), listing("b", None)], &mut hs);
    assert_eq!(out.len(), 2);
    assert_eq!(out[0].history.as_ref().unwrap()[0].label, "ha");
    assert_eq!(out[1].history.as_ref().unwrap()[0].label, "hb");
    assert!(hs.is_empty());
}

#[test]
fn merge_keeps_inline_history() {
    let inline = vec![entry("inline", 1)];
    let mut hs = vec![history("a", "from file")];
    let out = merge_histories(vec![listing("a", Some(inline))], &mut hs);
    assert_eq!(out[0].history.as_ref().unwrap()[0].label, "inline");
    // not taken, so still reported as left over
    assert_eq!(hs.len(), 1);
    assert_eq!(hs[0].id, "a");
}

#[test]
fn merge_uses_last_history_of_repeated_id() {
    let mut hs = vec![history("a", "first"), history("a", "second")];
    let out = merge_histories(vec![listing("a", None)], &mut hs);
    assert_eq!(out[0].history.as_ref().unwrap()[0].label, "second");
    assert_eq!(hs.len(), 1);
    assert_eq!(hs[0].entries[0].label, "first");
}

#[test]
fn merge_leaves_unmatched_histories() {
    let mut hs = vec![history("x", "hx"), history("a", "ha"), history("y", "hy"), history("z", "hz")];
    let out = merge_histories(vec![listing("a", None), listing("q", None)], &mut hs);
    assert_eq!(out[0].history.as_ref().unwrap()[0].label, "ha");
    assert!(out[1].history.is_none());
    // position 1 removed by swap_remove: the last record takes its place
    let ids: Vec<&str> = hs.iter().map(|h| h.id.as_str()).collect();
    assert_eq!(ids, vec!["x", "z", "y"]);
}

#[test]
fn merge_with_no_histories_returns_listings_unchanged() {
    let mut hs: Vec<History> = vec![];
    let out = merge_histories(vec![listing("a", None)], &mut hs);
    assert_eq!(out.len(), 1);
    assert!(out[0].history.is_none());
    assert_eq!(out[0].title, "work a");
}

#[test]
fn merge_serves_two_listings_with_the_same_id() {
    let mut hs = vec![history("a", "ha")];
    let out = merge_histories(vec![listing("a", None), listing("a", None)], &mut hs);
    assert_eq!(out[0].history.as_ref().unwrap()[0].label, "ha");
    assert_eq!(out[1].history.as_ref().unwrap()[0].label, "ha");
    assert!(hs.is_empty());
}

#[test]
fn record_lines_trims_and_skips_blank_lines() {
    let recs = record_lines("{\"a\":1}\n\n  {\"b\":2}  \r\n{\"c\":3}");
    let got: Vec<(usize, &str)> = recs.iter().map(|(n, l)| (*n, l.as_str())).collect();
    assert_eq!(got, vec![(1, "{\"a\":1}"), (3, "{\"b\":2}"), (4, "{\"c\":3}")]);
}

#[test]
fn record_lines_of_empty_or_blank_content() {
    assert!(record_lines("").is_empty());
    assert!(record_lines("\n \n\t\n").is_empty());
}

#[test]
fn record_lines_ignores_final_newline() {
    let recs = record_lines("x\ny\n");
    let got: Vec<(usize, &str)> = recs.iter().map(|(n, l)| (*n, l.as_str())).collect();
    assert_eq!(got, vec![(1, "x"), (2, "y")]);
}

#[test]
fn classify_recognises_data_files() {
    let v: Vec<char> = "Superman_CLEAN.jsonl".chars().collect();
    let (f, k) = classify_data_file(&v).unwrap();
    assert_eq!(f.iter().collect::<String>(), "Superman");
    assert_eq!(k, DataFileKind::Clean);
    let v: Vec<char> = "a.b_HISTORIES.jsonl".chars().collect();
    let (f, k) = classify_data_file(&v).unwrap();
    assert_eq!(f.iter().collect::<String>(), "a.b");
    assert_eq!(k, DataFileKind::Histories);
}

#[test]
fn classify_ignores_other_files() {
    for name in ["notes.txt", "X_CLEAN.json", "X_COMMENTS.jsonl", ".jsonl", "jsonl", "X_CLEAN"] {
        let v: Vec<char> = name.chars().collect();
        assert!(classify_data_file(&v).is_none(), "{}", name);
    }
}

#[test]
fn classify_empty_fandom_name() {
    let v: Vec<char> = "_CLEAN.jsonl".chars().collect();
    let (f, k) = classify_data_file(&v).unwrap();
    assert!(f.is_empty());
    assert_eq!(k, DataFileKind::Clean);
}

#[test]
fn group_data_files_pairs_clean_and_histories() {
    let names: Vec<String> = [
        "B_HISTORIES.jsonl",
        "A_CLEAN.jsonl",
        "readme.md",
        "B_CLEAN.jsonl",
        "C_HISTORIES.jsonl",
    ]
    .iter()
    .map(|s| s.to_string())
    .collect();
    let groups = group_data_files(&names);
    assert_eq!(groups.len(), 3);
    assert_eq!(groups[0].0, "B");
    assert_eq!(groups[0].1.clean.as_deref(), Some("B_CLEAN.jsonl"));
    assert_eq!(groups[0].1.histories.as_deref(), Some("B_HISTORIES.jsonl"));
    assert_eq!(groups[1].0, "A");
    assert_eq!(groups[1].1.clean.as_deref(), Some("A_CLEAN.jsonl"));
    assert_eq!(groups[1].1.histories, None);
    assert_eq!(groups[2].0, "C");
    assert_eq!(groups[2].1.clean, None);
    assert_eq!(groups[2].1.histories.as_deref(), Some("C_HISTORIES.jsonl"));
}

#[test]
fn build_fandom_merges_indexes_and_counts() {
    let mut hs = vec![history("a", "ha"), history("zz", "hz")];
    let data = build_fandom(vec![listing("a", None), listing("b", None)], &mut hs);
    assert_eq!(data.listing_count(), 2);
    assert_eq!(data.listings[0].history.as_ref().unwrap()[0].label, "ha");
    assert_eq!(data.stats.total_listings, 2);
    assert_eq!(data.index.category.len(), 1);
    assert_eq!(data.index.category[0].1, vec!["a".to_string(), "b".to_string()]);
    assert_eq!(hs.len(), 1);
    assert_eq!(hs[0].id, "zz");
}

#[test]
fn assemble_state_skips_groups_without_listings() {
    let groups = vec![
        ("A".to_string(), Some(vec![listing("1", None), listing("2", None)]), vec![history("1", "h1"), history("9", "h9")]),
        ("B".to_string(), None, vec![history("5", "h5")]),
        ("C".to_string(), Some(vec![]), vec![]),
    ];
    let (st, leftovers) = assemble_state(groups, "A".to_string());
    assert_eq!(st.featured_fandom, "A");
    let names: Vec<&str> = st.fandoms.iter().map(|(n, _)| n.as_str()).collect();
    assert_eq!(names, vec!["A", "C"]);
    let a = &st.featured().unwrap();
    assert_eq!(a.listings.len(), 2);
    assert_eq!(a.listings[0].history.as_ref().unwrap()[0].label, "h1");
    assert!(a.listings[1].history.is_none());
    assert_eq!(a.stats.total_listings, 2);
    assert_eq!(leftovers.len(), 3);
    assert_eq!(leftovers[0].iter().map(|h| h.id.as_str()).collect::<Vec<_>>(), vec!["9"]);
    assert_eq!(leftovers[1].iter().map(|h| h.id.as_str()).collect::<Vec<_>>(), vec!["5"]);
    assert!(leftovers[2].is_empty());
}
