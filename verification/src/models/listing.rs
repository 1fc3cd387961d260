//! Listings (work metadata) and their parts.
use vstd::prelude::*;

use crate::models::common::{zip_history, zipped, mismatch_message, HistoryEntry, UnixMillis};
use crate::text::{chars_of, parse_u32, parse_u32_range, sub_chars, trim, trim_bounds};

verus! {

// ---------------------------------------------------------------------------
// Enums
// ---------------------------------------------------------------------------

/// Content rating.
#[derive(Debug, Clone, Copy, PartialEq, Eq, Structural, Hash)]
pub enum Rating {
    GeneralAudiences,
    TeenAndUp,
    Mature,
    Explicit,
    NotRated,
}

/// Archive warning.
#[derive(Debug, Clone, Copy, PartialEq, Eq, Structural, Hash)]
pub enum Warning {
    NoWarnings,
    CreatorChoseNotToWarn,
    GraphicViolence,
    MajorCharacterDeath,
    UnderlageSex,
    RapeNonCon,
}

/// Relationship category.
#[derive(Debug, Clone, Copy, PartialEq, Eq, Structural, Hash)]
pub enum Category {
    Gen,
    FM,
    MM,
    FF,
    Multi,
    Other,
    NoCategory,
}

/// Whether a work is finished.
#[derive(Debug, Clone, Copy, PartialEq, Eq, Structural, Hash)]
pub enum Completion {
    CompleteWork,
    WorkInProgress,
}

// ---------------------------------------------------------------------------
// Chapter counts
// ---------------------------------------------------------------------------

/// The "Chapters" statistic, written `"3/5"` or `"3/?"` in the source data.
#[derive(Debug, Clone, Copy, PartialEq, Eq, Structural)]
pub struct ChapterCount {
    pub published: u32,
    /// `None` means the total is unknown (`"?"`).
    pub total: Option<u32>,
}

/// Index of the first `c` in `s` at or after `i`, or the length of `s`.
pub open spec fn find_from(s: Seq<char>, c: char, i: int) -> int
    decreases s.len() - i,
{
    if i < 0 || i >= s.len() {
        s.len() as int
    } else if s[i] == c {
        i
    } else {
        find_from(s, c, i + 1)
    }
}

/// What a chapters string means: the part before the first `/` is the number
/// published, the part after it the total or `?`; both parts are trimmed.
/// Anything else means no chapter count.
pub open spec fn chapter_count_of(s: Seq<char>) -> Option<ChapterCount> {
    let k = find_from(s, '/', 0);
    if k >= s.len() {
        None
    } else {
        match parse_u32(trim(s.subrange(0, k))) {
            None => None,
            Some(p) => {
                let rest = trim(s.subrange(k + 1, s.len() as int));
                if rest == seq!['?'] {
                    Some(ChapterCount { published: p, total: None })
                } else {
                    match parse_u32(rest) {
                        Some(t) => Some(ChapterCount { published: p, total: Some(t) }),
                        None => None,
                    }
                }
            },
        }
    }
}

/// Parses the trimmed contents of `v` as a `u32`.
fn parse_trimmed(v: &Vec<char>) -> (r: Option<u32>)
    ensures
        r == parse_u32(trim(v@)),
{
    let (a, b) = trim_bounds(v);
    parse_u32_range(v, a, b)
}

impl ChapterCount {
    /// Parses `"3/5"` or `"3/?"`.
    pub fn parse(s: &str) -> (r: Option<Self>)
        ensures
            r == chapter_count_of(s@),
    {
        let v = chars_of(s);
        let n = v.len();
        let mut k: usize = 0;
        while k < n && v[k] != '/'
            invariant
                n == v@.len(),
                k <= n,
                find_from(v@, '/', k as int) == find_from(v@, '/', 0),
            decreases n - k,
        {
            k = k + 1;
        }
        if k >= n {
            return None;
        }
        let first = sub_chars(&v, 0, k);
        let published = match parse_trimmed(&first) {
            Some(p) => p,
            None => {
                return None;
            },
        };
        let rest = sub_chars(&v, k + 1, n);
        let (a, b) = trim_bounds(&rest);
        if b - a == 1 && rest[a] == '?' {
            assert(rest@.subrange(a as int, b as int) == seq!['?']);
            return Some(ChapterCount { published, total: None });
        }
        assert(trim(rest@) != seq!['?']) by {
            if trim(rest@) == seq!['?'] {
                assert(rest@.subrange(a as int, b as int)[0] == rest@[a as int]);
            }
        }
        match parse_u32_range(&rest, a, b) {
            Some(t) => Some(ChapterCount { published, total: Some(t) }),
            None => None,
        }
    }
}

// ---------------------------------------------------------------------------
// Stats
// ---------------------------------------------------------------------------

/// Stats as they appear in a source record; every value may be missing.
pub struct RawStats {
    pub language: Option<String>,
    pub words: Option<u32>,
    pub chapters: Option<String>,
    pub kudos: Option<u32>,
    pub bookmarks: Option<u32>,
    pub hits: Option<u32>,
    pub comments: Option<u32>,
}

/// Work statistics.
#[derive(Debug, Clone)]
pub struct Stats {
    pub language: Option<String>,
    pub words: Option<u32>,
    pub chapters: Option<ChapterCount>,
    pub kudos: Option<u32>,
    pub bookmarks: Option<u32>,
    pub hits: Option<u32>,
    pub comments: Option<u32>,
}

/// The stats a raw record stands for: everything as given, the chapters
/// string parsed (an unparseable one counts as missing).
pub open spec fn stats_of(raw: RawStats) -> Stats {
    Stats {
        language: raw.language,
        words: raw.words,
        chapters: match raw.chapters {
            Some(c) => chapter_count_of(c@),
            None => None,
        },
        kudos: raw.kudos,
        bookmarks: raw.bookmarks,
        hits: raw.hits,
        comments: raw.comments,
    }
}

impl From<RawStats> for Stats {
    fn from(raw: RawStats) -> (r: Self) {
        let chapters = match &raw.chapters {
            Some(c) => ChapterCount::parse(c.as_str()),
            None => None,
        };
        Stats {
            language: raw.language,
            words: raw.words,
            chapters,
            kudos: raw.kudos,
            bookmarks: raw.bookmarks,
            hits: raw.hits,
            comments: raw.comments,
        }
    }
}

impl vstd::std_specs::convert::FromSpecImpl<RawStats> for Stats {
    open spec fn obeys_from_spec() -> bool {
        true
    }

    open spec fn from_spec(raw: RawStats) -> Stats {
        stats_of(raw)
    }
}

// ---------------------------------------------------------------------------
// Listing
// ---------------------------------------------------------------------------

/// A listing as it appears in a `_CLEAN` record, before the parallel history
/// arrays are paired up.
pub struct RawListing {
    pub id: String,
    pub title: String,
    pub rating: Rating,
    pub warnings: Vec<Warning>,
    pub category: Vec<Category>,
    pub tags: Vec<String>,
    pub summary: Option<String>,
    pub series: Vec<String>,
    pub fandoms: Vec<String>,
    pub archetypes: Vec<String>,
    pub completion: Completion,
    pub authors: Vec<String>,
    pub restricted: bool,
    pub stats: RawStats,
    pub update: String,
    pub update_unix: i64,
    /// History labels; missing for multi-chapter works.
    pub history: Option<Vec<String>>,
    /// History timestamps; missing for multi-chapter works.
    pub history_unix: Option<Vec<i64>>,
}

/// A fully parsed listing (work metadata).
///
/// `history` is `None` for multi-chapter works; their read history lives in
/// the fandom's `_HISTORIES` records and is merged in at load time.
#[derive(Debug, Clone)]
pub struct Listing {
    pub id: String,
    pub title: String,
    pub rating: Rating,
    pub warnings: Vec<Warning>,
    pub category: Vec<Category>,
    pub tags: Vec<String>,
    pub summary: Option<String>,
    pub series: Vec<String>,
    pub fandoms: Vec<String>,
    pub archetypes: Vec<String>,
    pub completion: Completion,
    pub authors: Vec<String>,
    pub restricted: bool,
    pub stats: Stats,
    /// Human-readable update date, e.g. `"04 Apr 2012"`.
    pub update: String,
    pub update_unix: UnixMillis,
    /// Read history entries; `None` until merged for multi-chapter works.
    pub history: Option<Vec<HistoryEntry>>,
}

/// The message given when only one of the two history arrays is present.
pub open spec fn nullity_message() -> Seq<char> {
    "history and historyUNIX must both be present or both be null"@
}

/// Whether a raw record's history arrays can be paired: both present with
/// equal lengths, or both missing.
pub open spec fn raw_history_ok(raw: &RawListing) -> bool {
    match (raw.history, raw.history_unix) {
        (Some(l), Some(u)) => l@.len() == u@.len(),
        (None, None) => true,
        _ => false,
    }
}

/// Every field of `l` other than the history is that of `raw`, the stats
/// parsed as `stats_of` says.
pub open spec fn same_fields(l: Listing, raw: RawListing) -> bool {
    &&& l.id == raw.id
    &&& l.title == raw.title
    &&& l.rating == raw.rating
    &&& l.warnings == raw.warnings
    &&& l.category == raw.category
    &&& l.tags == raw.tags
    &&& l.summary == raw.summary
    &&& l.series == raw.series
    &&& l.fandoms == raw.fandoms
    &&& l.archetypes == raw.archetypes
    &&& l.completion == raw.completion
    &&& l.authors == raw.authors
    &&& l.restricted == raw.restricted
    &&& l.stats == stats_of(raw.stats)
    &&& l.update == raw.update
    &&& l.update_unix == UnixMillis(raw.update_unix)
}

/// A listing with the same fields as a raw record keeps every list and
/// text under its own name: its tags are the record's tags, its fandoms the
/// record's fandoms, and so on for series, archetypes, authors, warnings and
/// categories.
pub proof fn lemma_same_fields_keep_names(l: Listing, raw: RawListing)
    requires
        same_fields(l, raw),
    ensures
        l.id == raw.id,
        l.title == raw.title,
        l.tags == raw.tags,
        l.fandoms == raw.fandoms,
        l.series == raw.series,
        l.archetypes == raw.archetypes,
        l.authors == raw.authors,
        l.warnings == raw.warnings,
        l.category == raw.category,
        l.summary == raw.summary,
        l.update == raw.update,
        l.update_unix.0 == raw.update_unix,
{
}

impl Listing {
    /// Builds a listing from a raw record, pairing its history arrays.
    /// Fails when exactly one array is present, or when their lengths differ.
    pub fn from_raw(raw: RawListing) -> (r: Result<Listing, String>)
        ensures
            r is Ok <==> raw_history_ok(&raw),
            r matches Ok(l) ==> {
                &&& same_fields(l, raw)
                &&& l.id == raw.id && l.title == raw.title
                &&& l.warnings == raw.warnings && l.category == raw.category
                &&& l.tags == raw.tags && l.fandoms == raw.fandoms
                &&& l.series == raw.series && l.archetypes == raw.archetypes
                &&& l.authors == raw.authors
                &&& l.summary == raw.summary && l.update == raw.update
                &&& match (raw.history, raw.history_unix) {
                    (Some(lb), Some(u)) => l.history matches Some(h) && h@ == zipped(lb@, u@),
                    _ => l.history is None,
                }
            },
            r matches Err(e) ==> match (raw.history, raw.history_unix) {
                (Some(lb), Some(u)) => e@ == mismatch_message(lb@.len(), u@.len()),
                _ => e@ == nullity_message(),
            },
    {
        let ghost old_raw = raw;
        let RawListing {
            id,
            title,
            rating,
            warnings,
            category,
            tags,
            summary,
            series,
            fandoms,
            archetypes,
            completion,
            authors,
            restricted,
            stats,
            update,
            update_unix,
            history,
            history_unix,
        } = raw;
        let history = match (history, history_unix) {
            (Some(labels), Some(unix_vals)) => {
                match zip_history(labels, unix_vals) {
                    Ok(entries) => Some(entries),
                    Err(e) => {
                        return Err(e);
                    },
                }
            },
            (None, None) => None,
            _ => {
                return Err(
                    String::from_str("history and historyUNIX must both be present or both be null"),
                );
            },
        };
        Ok(
            Listing {
                id,
                title,
                rating,
                warnings,
                category,
                tags,
                summary,
                series,
                fandoms,
                archetypes,
                completion,
                authors,
                restricted,
                stats: Stats::from(stats),
                update,
                update_unix: UnixMillis(update_unix),
                history,
            },
        )
    }
}

} // verus!
