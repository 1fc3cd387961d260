use ao_analysis::calendar::{span_end_year, span_start_year, year_start_ticks};
use ao_analysis::models::listing::RawStats;
use ao_analysis::models::{Category, Completion, HistoryEntry, Listing, Rating, Stats, UnixMillis, Warning};
use ao_analysis::state::index::{build_index, ListingIndex};
use ao_analysis::state::stats::{
    category_counts, completion_breakdown, compute_stats, creation_month_of, distinct_count,
    fits_stat_counters,
    metric_total, sorted_metric, tally_months, Metric, TextField,
};
use ao_analysis::state::IdIndex;

// 2012-04-04T00:00:00Z
const APR_2012: i64 = 1333497600000;
// 2015-12-31T23:59:59.999Z
const END_2015: i64 = 1451606399999;
// 2016-01-01T00:00:00Z
const JAN_2016: i64 = 1451606400000;

fn stats(chapters: &str, kudos: Option<u32>, words: Option<u32>) -> Stats {
    Stats::from(RawStats {
        language: None,
        words,
        chapters: Some(chapters.to_string()),
        kudos,
        bookmarks: Some(1),
        hits: Some(10),
        comments: None,
    })
}

fn listing(id: &str, update: i64, first_read: Option<i64>, chapters: &str, complete: bool) -> Listing {
    Listing {
        id: id.to_string(),
        title: id.to_string(),
        rating: Rating::Mature,
        warnings: vec![Warning::NoWarnings],
        category: vec![Category::MM],
        tags: vec!["Angst".to_string(), "Fluff".to_string()],
        summary: None,
        series: vec![],
        fandoms: vec!["F".to_string()],
        archetypes: vec![],
        completion: if complete { Completion::CompleteWork } else { Completion::WorkInProgress },
        authors: vec![format!("author-{}", id)],
        restricted: false,
        stats: stats(chapters, Some(id.len() as u32 * 10), Some(1000)),
        update: String::new(),
        update_unix: UnixMillis(update),
        history: first_read.map(|t| vec![HistoryEntry { label: String::new(), unix: UnixMillis(t) }]),
    }
}

#[test]
fn creation_month_prefers_first_history_entry() {
    let l = listing("a", JAN_2016, Some(APR_2012), "1/1", true);
    assert_eq!(creation_month_of(&l), (2012, 4));
    let l = listing("a", END_2015, None, "1/1", true);
    assert_eq!(creation_month_of(&l), (2015, 12));
    let l = listing("a", JAN_2016, Some(APR_2012), "1/1", true);
    let mut l2 = l.clone();
    l2.history = Some(vec![]);
    assert_eq!(creation_month_of(&l2), (2016, 1));
}

#[test]
fn creation_month_before_1970() {
    let l = listing("a", -1, None, "1/1", true);
    assert_eq!(creation_month_of(&l), (1969, 12));
}

#[test]
fn creation_month_out_of_calendar_range_is_year_zero() {
    let l = listing("a", i64::MIN, None, "1/1", true);
    assert_eq!(creation_month_of(&l), (0, 1));
}

#[test]
fn tally_months_counts_and_orders() {
    let months = vec![(2016, 1), (2012, 4), (2016, 1), (2012, 11), (2012, 4), (2016, 1)];
    assert_eq!(tally_months(&months), vec![(2012, 4, 2), (2012, 11, 1), (2016, 1, 3)]);
    assert!(tally_months(&vec![]).is_empty());
}

#[test]
fn completion_breakdown_partitions_listings() {
    let ls = vec![
        listing("a", 0, None, "1/1", true),
        listing("b", 0, None, "1/1", false),
        listing("c", 0, None, "3/3", true),
        listing("d", 0, None, "2/?", false),
        listing("e", 0, None, "1/?", false),
    ];
    assert_eq!(completion_breakdown(&ls), (2, 1, 2));
}

#[test]
fn category_counts_count_every_entry() {
    let mut a = listing("a", 0, None, "1/1", true);
    a.category = vec![Category::FM, Category::FF, Category::FM];
    let b = listing("b", 0, None, "1/1", true);
    let mut c = listing("c", 0, None, "1/1", true);
    c.category = vec![];
    let mut t = category_counts(&vec![a, b, c]);
    t.sort_by_key(|(_, n)| *n);
    assert_eq!(t.len(), 3);
    assert!(t.contains(&(Category::FM, 2)));
    assert!(t.contains(&(Category::FF, 1)));
    assert!(t.contains(&(Category::MM, 1)));
}

#[test]
fn sorted_metric_sorts_with_missing_as_zero() {
    let mut a = listing("a", 0, None, "1/1", true);
    a.stats.kudos = Some(30);
    let mut b = listing("b", 0, None, "1/1", true);
    b.stats.kudos = None;
    let mut c = listing("c", 0, None, "1/1", true);
    c.stats.kudos = Some(5);
    assert_eq!(sorted_metric(&vec![a, b, c], Metric::Kudos), vec![0, 5, 30]);
}

#[test]
fn metric_total_sums_without_overflow() {
    let mut a = listing("a", 0, None, "1/1", true);
    a.stats.words = Some(u32::MAX);
    let mut b = listing("b", 0, None, "1/1", true);
    b.stats.words = Some(u32::MAX);
    assert_eq!(metric_total(&vec![a, b], Metric::Words), 2 * u32::MAX as u64);
}

#[test]
fn distinct_count_counts_each_name_once() {
    let a = listing("a", 0, None, "1/1", true);
    let b = listing("b", 0, None, "1/1", true);
    let ls = vec![a, b];
    assert_eq!(distinct_count(&ls, TextField::Tags), 2);
    assert_eq!(distinct_count(&ls, TextField::Authors), 2);
    assert_eq!(distinct_count(&ls, TextField::Series), 0);
}

#[test]
fn compute_stats_of_a_fandom() {
    let ls = vec![
        listing("a", JAN_2016, Some(APR_2012), "1/1", true),
        listing("bb", APR_2012, None, "2/5", false),
        listing("ccc", JAN_2016, None, "4/4", true),
    ];
    let st = compute_stats(&ls);
    assert_eq!(st.creations_by_month, vec![(2012, 4, 2), (2016, 1, 1)]);
    assert_eq!(st.completion_breakdown, (1, 1, 1));
    assert_eq!(st.category_counts, vec![(Category::MM, 3)]);
    assert_eq!(st.kudos_sorted, vec![10, 20, 30]);
    assert_eq!(st.hits_sorted, vec![10, 10, 10]);
    assert_eq!(st.words_sorted, vec![1000, 1000, 1000]);
    assert_eq!(st.bookmarks_sorted, vec![1, 1, 1]);
    assert_eq!(st.total_listings, 3);
    assert_eq!(st.unique_tags, 2);
    assert_eq!(st.unique_authors, 3);
    assert_eq!(st.unique_series, 0);
    assert_eq!(st.total_words, 3000);
    assert_eq!(st.total_hits, 30);
    assert_eq!(st.total_kudos, 60);
    assert_eq!(st.total_bookmarks, 3);
    assert_eq!(st.total_comments, 0);
    let sum: u32 = st.creations_by_month.iter().map(|r| r.2).sum();
    assert_eq!(sum as usize, ls.len());
}

#[test]
fn compute_stats_of_no_listings() {
    let st = compute_stats(&vec![]);
    assert!(st.creations_by_month.is_empty());
    assert_eq!(st.completion_breakdown, (0, 0, 0));
    assert!(st.category_counts.is_empty());
    assert_eq!(st.total_listings, 0);
}

#[test]
fn index_lists_ids_under_each_name() {
    let mut a = listing("a", 0, None, "1/1", true);
    a.tags = vec!["T".to_string(), "U".to_string(), "T".to_string()];
    a.warnings = vec![Warning::GraphicViolence];
    let mut b = listing("b", 0, None, "1/1", true);
    b.tags = vec!["T".to_string()];
    let ix = build_index(&vec![a, b]);
    assert_eq!(ix.tags.len(), 2);
    assert_eq!(ix.tags.get("T").unwrap(), &vec!["a".to_string(), "a".to_string(), "b".to_string()]);
    assert_eq!(ix.tags.get("U").unwrap(), &vec!["a".to_string()]);
    assert!(ix.tags.get("V").is_none());
    assert_eq!(ix.fandoms.get("F").unwrap(), &vec!["a".to_string(), "b".to_string()]);
    assert_eq!(ix.authors.get("author-b").unwrap(), &vec!["b".to_string()]);
    assert_eq!(ix.series.len(), 0);
    assert_eq!(ix.warnings.len(), 2);
    assert_eq!(ix.warnings[0], (Warning::GraphicViolence, vec!["a".to_string()]));
    assert_eq!(ix.warnings[1], (Warning::NoWarnings, vec!["b".to_string()]));
    assert_eq!(ix.category, vec![(Category::MM, vec!["a".to_string(), "b".to_string()])]);
}

#[test]
fn index_insert_str_appends() {
    let mut m = IdIndex::new();
    ListingIndex::insert_str(&mut m, "k", "1");
    ListingIndex::insert_str(&mut m, "k", "2");
    ListingIndex::insert_str(&mut m, "j", "3");
    assert_eq!(m.len(), 2);
    assert_eq!(m.get("k").unwrap(), &vec!["1".to_string(), "2".to_string()]);
    assert_eq!(m.names(), &vec!["k".to_string(), "j".to_string()]);
}

#[test]
fn index_add_one_listing() {
    let mut ix = ListingIndex::new();
    ix.add(&listing("a", 0, None, "1/1", true));
    assert_eq!(ix.tags.get("Angst").unwrap(), &vec!["a".to_string()]);
    assert_eq!(ix.fandoms.len(), 1);
}

#[test]
fn year_ticks_span_the_years_of_the_domain() {
    let ticks = year_start_ticks(APR_2012, JAN_2016);
    assert_eq!(
        ticks,
        vec![1325376000000, 1356998400000, 1388534400000, 1420070400000, 1451606400000]
    );
}

#[test]
fn year_ticks_of_one_year() {
    assert_eq!(year_start_ticks(0, 1000), vec![0]);
}

#[test]
fn year_ticks_fall_back_to_default_years() {
    let ticks = year_start_ticks(i64::MIN, i64::MIN);
    // 2000 ..= 2030 when neither end can be placed
    assert_eq!(ticks.len(), 31);
    assert_eq!(ticks[0], 946684800000);
}

#[test]
fn span_years_fall_back() {
    assert_eq!(span_start_year(None), 2000);
    assert_eq!(span_end_year(None), 2030);
    assert_eq!(span_start_year(Some((1999, 3))), 1999);
    assert_eq!(span_end_year(Some((2001, 12))), 2001);
}

#[test]
fn stat_counters_fit_small_fandoms() {
    assert!(fits_stat_counters(&vec![]));
    let mut a = listing("a", 0, None, "1/1", true);
    a.category = vec![Category::MM, Category::FF, Category::MM];
    let b = listing("b", 0, None, "1/1", true);
    assert!(fits_stat_counters(&vec![a, b]));
}

#[test]
fn year_ticks_ascend_through_leap_years() {
    // 1999-01-01 .. 2002-01-01; 2000 is a leap year.
    let ticks = year_start_ticks(915148800000, 1009843200000);
    assert_eq!(ticks, vec![915148800000, 946684800000, 978307200000, 1009843200000]);
    assert!(ticks.windows(2).all(|w| w[0] < w[1]));
}

#[test]
fn year_ticks_start_at_or_before_the_domain() {
    let ticks = year_start_ticks(APR_2012, END_2015);
    assert_eq!(ticks.len(), 4);
    assert!(ticks[0] <= APR_2012);
    assert!(*ticks.last().unwrap() <= END_2015);
}

#[test]
fn creation_month_at_month_boundaries() {
    // 2000-02-29T23:59:59.999Z and 2000-03-01T00:00:00Z
    let l = listing("a", 951868799999, None, "1/1", true);
    assert_eq!(creation_month_of(&l), (2000, 2));
    let l = listing("a", 951868800000, None, "1/1", true);
    assert_eq!(creation_month_of(&l), (2000, 3));
}
