use ao_analysis::charts::{
    category_label, chart_kind, completion_slices, creation_points, dataset_summary,
    display_title, featured_overview, format_us_number, homepage_chart_data, month_label,
    pick_ranked, sort_by_count_desc, featured_months_valid,
};
use ao_analysis::models::listing::RawStats;
use ao_analysis::models::{Category, Completion, Listing, Rating, Stats, UnixMillis};
use ao_analysis::state::loader::build_fandom;
use ao_analysis::state::{AppState, FandomData};

fn listing(id: &str, words: u32, author: &str, category: Category) -> Listing {
    Listing {
        id: id.to_string(),
        title: id.to_string(),
        rating: Rating::NotRated,
        warnings: vec![],
        category: vec![category],
        tags: vec![],
        summary: None,
        series: vec![],
        fandoms: vec![],
        archetypes: vec![],
        completion: Completion::CompleteWork,
        authors: vec![author.to_string()],
        restricted: false,
        stats: Stats::from(RawStats {
            language: None,
            words: Some(words),
            chapters: Some("1/1".to_string()),
            kudos: None,
            bookmarks: None,
            hits: None,
            comments: None,
        }),
        update: String::new(),
        // 2024-01-15
        update_unix: UnixMillis(1705276800000),
        history: None,
    }
}

fn fandom(listings: Vec<Listing>) -> FandomData {
    let mut hs = vec![];
    build_fandom(listings, &mut hs)
}

fn state() -> AppState {
    let mut st = AppState::empty("Stranger-Things".to_string());
    st.insert_fandom(
        "Stranger-Things".to_string(),
        fandom(vec![
            listing("1", 1500, "x", Category::Gen),
            listing("2", 2500, "y", Category::FM),
            listing("3", 1000, "x", Category::FM),
        ]),
    );
    st.insert_fandom("Clair Obscur".to_string(), fandom(vec![listing("4", 10, "z", Category::FF)]));
    st.insert_fandom("Superman (2025)".to_string(), fandom(vec![]));
    st
}

#[test]
fn listing_count_counts_listings() {
    assert_eq!(fandom(vec![listing("1", 1, "a", Category::Gen)]).listing_count(), 1);
    assert_eq!(fandom(vec![]).listing_count(), 0);
}

#[test]
fn total_listings_sums_fandoms() {
    assert_eq!(state().total_listings(), 4);
    assert_eq!(AppState::empty(String::new()).total_listings(), 0);
}

#[test]
fn fandom_names_are_sorted() {
    let st = state();
    assert_eq!(st.fandom_names(), vec!["Clair Obscur", "Stranger-Things", "Superman (2025)"]);
}

#[test]
fn featured_finds_the_configured_fandom() {
    let st = state();
    assert_eq!(st.featured().unwrap().listing_count(), 3);
    let other = AppState::empty("missing".to_string());
    assert!(other.featured().is_none());
}

#[test]
fn insert_fandom_replaces_same_name() {
    let mut st = state();
    st.insert_fandom("Clair Obscur".to_string(), fandom(vec![]));
    assert_eq!(st.fandoms.len(), 3);
    assert_eq!(st.fandoms[1].0, "Clair Obscur");
    assert_eq!(st.fandoms[1].1.listing_count(), 0);
    assert_eq!(st.total_listings(), 3);
}

#[test]
fn dataset_summary_orders_by_name() {
    let s = dataset_summary(&state());
    let rows: Vec<(&str, usize)> = s.fandom_counts.iter().map(|(n, c)| (n.as_str(), *c)).collect();
    assert_eq!(rows, vec![("Clair Obscur", 1), ("Stranger-Things", 3), ("Superman (2025)", 0)]);
    assert_eq!(s.total, 4);
}

#[test]
fn featured_overview_reads_featured_stats() {
    assert_eq!(featured_overview(&state()), (3, 2, 5000));
    assert_eq!(featured_overview(&AppState::empty("none".to_string())), (0, 0, 0));
}

#[test]
fn homepage_chart_data_of_featured_fandom() {
    let d = homepage_chart_data(&state()).unwrap();
    assert_eq!(d.fandom_name, "Stranger-Things");
    assert_eq!(d.line.len(), 1);
    assert_eq!(d.line[0].x, 2024 * 12);
    assert_eq!(d.line[0].count, 3);
    assert_eq!(d.line[0].label, "Jan 2024");
    assert_eq!(d.pie[0], ("One Shots".to_string(), 3));
    assert_eq!(d.pie[1], ("Complete".to_string(), 0));
    assert_eq!(d.pie[2], ("Work in Progress".to_string(), 0));
    assert_eq!(d.bar, vec![(Category::FM, 2), (Category::Gen, 1)]);
}

#[test]
fn homepage_chart_data_without_featured_fandom() {
    let err = homepage_chart_data(&AppState::empty("gone".to_string())).err().unwrap();
    assert_eq!(err, "Featured fandom not found");
}

#[test]
fn format_us_number_groups_thousands() {
    assert_eq!(format_us_number(0), "0");
    assert_eq!(format_us_number(7), "7");
    assert_eq!(format_us_number(999), "999");
    assert_eq!(format_us_number(1000), "1,000");
    assert_eq!(format_us_number(1234567), "1,234,567");
    assert_eq!(format_us_number(100000), "100,000");
    assert_eq!(format_us_number(u64::MAX), "18,446,744,073,709,551,615");
}

#[test]
fn format_us_number_digits_round_trip() {
    for n in [0u64, 5, 12, 999, 1000, 65536, 123456789, u64::MAX] {
        assert_eq!(format_us_number(n).replace(',', ""), n.to_string());
    }
}

#[test]
fn month_labels() {
    assert_eq!(month_label(2024, 1), "Jan 2024");
    assert_eq!(month_label(2024, 2), "Feb");
    assert_eq!(month_label(1999, 12), "Dec");
    assert_eq!(month_label(-44, 1), "Jan -44");
    assert_eq!(month_label(0, 1), "Jan 0");
}

#[test]
fn creation_points_count_months() {
    let pts = creation_points(&vec![(2023, 12, 4), (2024, 1, 2)]);
    assert_eq!(pts.len(), 2);
    assert_eq!(pts[0].x, 2023 * 12 + 11);
    assert_eq!(pts[0].label, "Dec");
    assert_eq!(pts[0].count, 4);
    assert_eq!(pts[1].x, 2024 * 12);
    assert_eq!(pts[1].label, "Jan 2024");
}

#[test]
fn category_labels() {
    assert_eq!(category_label(Category::Gen), "Gen");
    assert_eq!(category_label(Category::FM), "F/M");
    assert_eq!(category_label(Category::MM), "M/M");
    assert_eq!(category_label(Category::FF), "F/F");
    assert_eq!(category_label(Category::Multi), "Multi");
    assert_eq!(category_label(Category::Other), "Other");
    assert_eq!(category_label(Category::NoCategory), "No category");
}

#[test]
fn display_title_replaces_dashes() {
    assert_eq!(display_title("Stranger-Things"), "Stranger Things");
    assert_eq!(display_title("a--b"), "a  b");
    assert_eq!(display_title(""), "");
}

#[test]
fn chart_kind_defaults_to_timeline() {
    assert_eq!(chart_kind(None), "timeline");
    assert_eq!(chart_kind(Some("compare".to_string())), "compare");
}

#[test]
fn completion_slices_label_counts() {
    let s = completion_slices((4, 5, 6));
    assert_eq!(
        s,
        vec![
            ("One Shots".to_string(), 4),
            ("Complete".to_string(), 5),
            ("Work in Progress".to_string(), 6)
        ]
    );
}

#[test]
fn sort_by_count_desc_orders_bars() {
    let v = vec![(Category::Gen, 2), (Category::FM, 9), (Category::Multi, 2), (Category::FF, 5)];
    let s = sort_by_count_desc(v);
    assert_eq!(s, vec![(Category::FM, 9), (Category::FF, 5), (Category::Gen, 2), (Category::Multi, 2)]);
    assert!(sort_by_count_desc(vec![]).is_empty());
}

#[test]
fn pick_ranked_clamps_and_handles_empty() {
    let sorted = vec![1, 3, 3, 8, 20];
    assert_eq!(pick_ranked(&sorted, &vec![0, 2, 4, 9]), vec![1, 3, 20, 20]);
    assert_eq!(pick_ranked(&vec![], &vec![0, 1, 2]), vec![0, 0, 0]);
}

#[test]
fn pick_ranked_is_monotone_in_rank() {
    let sorted = vec![2, 4, 4, 7, 9, 11];
    let got = pick_ranked(&sorted, &vec![0, 1, 1, 3, 5, 6]);
    for w in got.windows(2) {
        assert!(w[0] <= w[1]);
    }
}

#[test]
fn total_listings_fits_for_small_states() {
    assert!(state().total_listings_fits());
    assert!(AppState::empty(String::new()).total_listings_fits());
}

#[test]
fn featured_months_valid_of_loaded_state() {
    assert!(featured_months_valid(&state()));
    let mut st = state();
    // Only the featured fandom's months matter.
    let other = st.fandoms.iter().position(|(n, _)| n != "Stranger-Things").unwrap();
    st.fandoms[other].1.stats.creations_by_month.push((2024, 13, 1));
    assert!(featured_months_valid(&st));
    let featured = st.fandoms.iter().position(|(n, _)| n == "Stranger-Things").unwrap();
    st.fandoms[featured].1.stats.creations_by_month.push((2024, 0, 1));
    assert!(!featured_months_valid(&st));
    assert!(featured_months_valid(&AppState::empty("none".to_string())));
}

#[test]
fn dataset_summary_names_every_fandom() {
    let st = state();
    let s = dataset_summary(&st);
    for (name, data) in &st.fandoms {
        assert!(s.fandom_counts.contains(&(name.clone(), data.listing_count())));
    }
}

#[test]
fn format_us_number_group_shape() {
    for n in [0u64, 12, 999, 1000, 123456, 1234567, u64::MAX] {
        let r = format_us_number(n);
        assert!(!r.starts_with(',') && !r.ends_with(','));
        let groups: Vec<&str> = r.split(',').collect();
        assert!((1..=3).contains(&groups[0].len()));
        assert!(groups[1..].iter().all(|g| g.len() == 3));
        assert_eq!(r.replace(',', ""), n.to_string());
    }
}
