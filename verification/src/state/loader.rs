//! Loading logic: grouping data files, splitting JSON-lines content, and
//! merging histories into listings. The file system and JSON decoding stay
//! with the caller.
use vstd::prelude::*;
use vstd::hash_map::StringHashMap;

use crate::charts::months_valid;
use crate::models::common::copy_entries;
use crate::models::{Category, History, Listing};
use crate::state::index::{build_index, indexes};
use crate::state::stats::{category_total, compute_stats, stat_counters_fit, stats_of_listings};
use crate::state::{fandom_name_views, fandom_position, names_unique, AppState, FandomData};
use crate::text::{chars_eq, chars_of, string_of, sub_chars, trim, trim_bounds};

verus! {

// ---------------------------------------------------------------------------
// History merging
// ---------------------------------------------------------------------------

/// Position of the last history among the first `n` whose id is `id`.
pub open spec fn last_match(hs: Seq<History>, id: Seq<char>, n: int) -> Option<int>
    decreases n,
{
    if n <= 0 {
        None
    } else if hs[n - 1].id@ == id {
        Some(n - 1)
    } else {
        last_match(hs, id, n - 1)
    }
}

/// Position of the last history whose id is `id`: an id that occurs more
/// than once is resolved to its last occurrence.
pub open spec fn last_index_of(hs: Seq<History>, id: Seq<char>) -> Option<int> {
    last_match(hs, id, hs.len() as int)
}

/// The history position, if any, that a listing takes its history from: only
/// a listing without inline history takes one.
pub open spec fn source_of(l: Listing, hs: Seq<History>) -> Option<int> {
    if l.history is None {
        last_index_of(hs, l.id@)
    } else {
        None
    }
}

/// Whether some listing takes its history from position `p`.
pub open spec fn is_matched(ls: Seq<Listing>, hs: Seq<History>, p: int) -> bool {
    exists|i: int| 0 <= i < ls.len() && source_of(#[trigger] ls[i], hs) == Some(p)
}

/// For each history position, whether some listing takes it.
pub open spec fn matched_marks(ls: Seq<Listing>, hs: Seq<History>) -> Seq<bool> {
    Seq::new(hs.len(), |p: int| is_matched(ls, hs, p))
}

/// `r` is `l` with its history filled from `hs` as `source_of` says.
pub open spec fn merged_from(r: Listing, l: Listing, hs: Seq<History>) -> bool {
    &&& r.id == l.id
    &&& r.title == l.title
    &&& r.rating == l.rating
    &&& r.warnings == l.warnings
    &&& r.category == l.category
    &&& r.tags == l.tags
    &&& r.summary == l.summary
    &&& r.series == l.series
    &&& r.fandoms == l.fandoms
    &&& r.archetypes == l.archetypes
    &&& r.completion == l.completion
    &&& r.authors == l.authors
    &&& r.restricted == l.restricted
    &&& r.stats == l.stats
    &&& r.update == l.update
    &&& r.update_unix == l.update_unix
    &&& match source_of(l, hs) {
        Some(p) => r.history matches Some(h) && h@ == hs[p].entries@,
        None => r.history == l.history,
    }
}

/// `Vec::swap_remove` on a sequence.
pub open spec fn swap_removed<A>(s: Seq<A>, i: int) -> Seq<A> {
    s.update(i, s.last()).drop_last()
}

/// The histories after removing, by `swap_remove` from the highest position
/// down to `k`, every position that `marks` flags.
pub open spec fn after_removals(s: Seq<History>, marks: Seq<bool>, k: int) -> Seq<History>
    decreases marks.len() - k,
{
    if k < 0 || k >= marks.len() {
        s
    } else {
        let t = after_removals(s, marks, k + 1);
        if marks[k] {
            swap_removed(t, k)
        } else {
            t
        }
    }
}

/// The histories at positions `k..` that `marks` does not flag, in order.
pub open spec fn kept(s: Seq<History>, marks: Seq<bool>, k: int) -> Seq<History>
    decreases marks.len() - k,
{
    if k < 0 || k >= marks.len() {
        Seq::empty()
    } else if marks[k] {
        kept(s, marks, k + 1)
    } else {
        seq![s[k]] + kept(s, marks, k + 1)
    }
}

proof fn lemma_last_match_bounds(hs: Seq<History>, id: Seq<char>, n: int)
    requires
        n <= hs.len(),
    ensures
        last_match(hs, id, n) matches Some(p) ==> 0 <= p < n && hs[p].id@ == id,
    decreases n,
{
    if n > 0 && hs[n - 1].id@ != id {
        lemma_last_match_bounds(hs, id, n - 1);
    }
}

proof fn lemma_after_removals_prefix(s: Seq<History>, marks: Seq<bool>, k: int)
    requires
        marks.len() == s.len(),
        0 <= k <= s.len(),
    ensures
        after_removals(s, marks, k).len() >= k,
        after_removals(s, marks, k).subrange(0, k) == s.subrange(0, k),
    decreases s.len() - k,
{
    if k < s.len() {
        lemma_after_removals_prefix(s, marks, k + 1);
        let t = after_removals(s, marks, k + 1);
        assert(t.subrange(0, k) == t.subrange(0, k + 1).subrange(0, k));
        assert(s.subrange(0, k) == s.subrange(0, k + 1).subrange(0, k));
        if marks[k] {
            assert(swap_removed(t, k).subrange(0, k) == t.subrange(0, k));
        }
    } else {
        assert(after_removals(s, marks, k) == s);
    }
}

proof fn lemma_after_removals_multiset(s: Seq<History>, marks: Seq<bool>, k: int)
    requires
        marks.len() == s.len(),
        0 <= k <= s.len(),
    ensures
        after_removals(s, marks, k).to_multiset() == s.subrange(0, k).to_multiset().add(
            kept(s, marks, k).to_multiset(),
        ),
    decreases s.len() - k,
{
    broadcast use vstd::seq_lib::group_to_multiset_ensures;

    if k == s.len() {
        assert(s.subrange(0, k) == s);
        assert(kept(s, marks, k) == Seq::<History>::empty());
        assert(kept(s, marks, k).to_multiset() =~= vstd::multiset::Multiset::empty());
        assert(after_removals(s, marks, k).to_multiset() =~= s.to_multiset().add(
            vstd::multiset::Multiset::empty(),
        ));
    } else {
        lemma_after_removals_multiset(s, marks, k + 1);
        lemma_after_removals_prefix(s, marks, k + 1);
        let t = after_removals(s, marks, k + 1);
        assert(s.subrange(0, k + 1) == s.subrange(0, k).push(s[k]));
        assert(t[k] == t.subrange(0, k + 1)[k]);
        assert(t[k] == s[k]);
        if marks[k] {
            let u = swap_removed(t, k);
            // swap_remove = move the last element into slot k, then drop the last
            assert(u.to_multiset() =~= t.to_multiset().remove(t[k])) by {
                let x = t.last();
                let w = t.update(k, x);
                assert(w.remove(k) == t.remove(k));
                assert(w.remove(w.len() - 1) == u);
                assert(w[w.len() - 1] == x);
                assert(w[k] == x);
            }
            assert(after_removals(s, marks, k) == u);
            assert(kept(s, marks, k) == kept(s, marks, k + 1));
            assert(after_removals(s, marks, k).to_multiset() =~= s.subrange(
                0,
                k,
            ).to_multiset().add(kept(s, marks, k).to_multiset()));
        } else {
            assert(after_removals(s, marks, k) == t);
            let kk = kept(s, marks, k + 1);
            assert(kept(s, marks, k) == seq![s[k]] + kk);
            assert((seq![s[k]] + kk).to_multiset() =~= kk.to_multiset().insert(s[k])) by {
                vstd::seq_lib::lemma_multiset_commutative(seq![s[k]], kk);
                assert(seq![s[k]].to_multiset() =~= vstd::multiset::Multiset::empty().insert(
                    s[k],
                )) by {
                    assert(seq![s[k]] == Seq::<History>::empty().push(s[k]));
                    assert(Seq::<History>::empty().to_multiset() =~= vstd::multiset::Multiset::empty());
                }
            }
            assert(after_removals(s, marks, k).to_multiset() =~= s.subrange(
                0,
                k,
            ).to_multiset().add(kept(s, marks, k).to_multiset()));
        }
    }
}

/// The histories that `merge_histories` leaves behind are exactly those that
/// no listing took, each as often as it was there (in some order).
pub proof fn lemma_leftover_histories_are_unmatched(ls: Seq<Listing>, hs: Seq<History>)
    ensures
        after_removals(hs, matched_marks(ls, hs), 0).to_multiset() == kept(
            hs,
            matched_marks(ls, hs),
            0,
        ).to_multiset(),
{
    let m = matched_marks(ls, hs);
    lemma_after_removals_multiset(hs, m, 0);
    assert(hs.subrange(0, 0) == Seq::<History>::empty());
    broadcast use vstd::seq_lib::group_to_multiset_ensures;

    assert(hs.subrange(0, 0).to_multiset() =~= vstd::multiset::Multiset::empty());
    assert(after_removals(hs, m, 0).to_multiset() =~= kept(hs, m, 0).to_multiset());
}

/// Merges `histories` into the listings without inline history, matching on
/// `id` (an id given by several histories takes the last of them).
///
/// Matched histories are removed from `histories` so that the remaining
/// entries can be reported as unmatched by the caller.
pub fn merge_histories(listings: Vec<Listing>, histories: &mut Vec<History>) -> (r: Vec<Listing>)
    ensures
        r@.len() == listings@.len(),
        forall|i: int|
            0 <= i < listings@.len() ==> merged_from(#[trigger] r@[i], listings@[i], old(histories)@),
        final(histories)@ == after_removals(
            old(histories)@,
            matched_marks(listings@, old(histories)@),
            0,
        ),
{
    let ghost hs = histories@;
    let ghost ls = listings@;
    let n = histories.len();
    if n == 0 {
        proof {
            assert forall|i: int| 0 <= i < ls.len() implies merged_from(
                #[trigger] listings@[i],
                ls[i],
                hs,
            ) by {
                assert(last_match(hs, ls[i].id@, 0) is None);
            }
            assert(after_removals(hs, matched_marks(ls, hs), 0) == hs);
        }
        return listings;
    }
    // Index: id -> position of its last occurrence.

    let mut id_to_pos: StringHashMap<usize> = StringHashMap::new();
    let mut i: usize = 0;
    while i < n
        invariant
            n == histories@.len(),
            histories@ == hs,
            i <= n,
            forall|id: Seq<char>|
                #![trigger id_to_pos@.contains_key(id)]
                id_to_pos@.contains_key(id) <==> last_match(hs, id, i as int) is Some,
            forall|id: Seq<char>|
                id_to_pos@.contains_key(id) ==> last_match(hs, id, i as int) == Some(
                    #[trigger] id_to_pos@[id] as int,
                ),
        decreases n - i,
    {
        let key = histories[i].id.clone();
        id_to_pos.insert(key, i);
        i = i + 1;
    }
    let mut marks: Vec<bool> = Vec::new();
    let mut j: usize = 0;
    while j < n
        invariant
            j <= n,
            marks@.len() == j,
            forall|p: int| 0 <= p < j ==> !marks@[p],
        decreases n - j,
    {
        marks.push(false);
        j = j + 1;
    }
    let mut out: Vec<Listing> = Vec::new();
    for listing in it: listings
        invariant
            it.seq() == ls,
            n == hs.len(),
            histories@ == hs,
            marks@.len() == n,
            out@.len() == it.index(),
            forall|id: Seq<char>|
                #![trigger id_to_pos@.contains_key(id)]
                id_to_pos@.contains_key(id) <==> last_index_of(hs, id) is Some,
            forall|id: Seq<char>|
                id_to_pos@.contains_key(id) ==> last_index_of(hs, id) == Some(
                    #[trigger] id_to_pos@[id] as int,
                ),
            forall|k: int| 0 <= k < out@.len() ==> merged_from(#[trigger] out@[k], ls[k], hs),
            forall|p: int|
                0 <= p < n ==> (#[trigger] marks@[p] <==> exists|k: int|
                    0 <= k < it.index() && source_of(#[trigger] ls[k], hs) == Some(p)),
    {
        let ghost idx = out@.len() as int;
        let mut l = listing;
        let ghost l0 = l;
        let ghost old_marks = marks@;
        proof {
            lemma_last_match_bounds(hs, l0.id@, hs.len() as int);
        }
        if l.history.is_none() {
            match id_to_pos.get(l.id.as_str()) {
                Some(pos) => {
                    let p = *pos;
                    l.history = Some(copy_entries(&histories[p].entries));
                    marks.set(p, true);
                },
                None => {},
            }
        }
        out.push(l);
        proof {
            assert(ls[idx] == l0);
            assert(merged_from(out@[idx], ls[idx], hs));
            assert forall|p: int| 0 <= p < n implies (#[trigger] marks@[p] <==> exists|k: int|
                0 <= k < idx + 1 && source_of(#[trigger] ls[k], hs) == Some(p)) by {
                assert(marks@[p] == (old_marks[p] || source_of(ls[idx], hs) == Some(p)));
                if old_marks[p] {
                    let k = choose|k: int| 0 <= k < idx && source_of(#[trigger] ls[k], hs) == Some(p);
                    assert(0 <= k < idx + 1 && source_of(ls[k], hs) == Some(p));
                }
                if exists|k: int| 0 <= k < idx + 1 && source_of(#[trigger] ls[k], hs) == Some(p) {
                    let k = choose|k: int| 0 <= k < idx + 1 && source_of(#[trigger] ls[k], hs) == Some(p);
                    if k < idx {
                        assert(old_marks[p]);
                    }
                }
            }
        }
    }
    let ghost m = matched_marks(ls, hs);
    assert(marks@ == m) by {
        assert forall|p: int| 0 <= p < n implies marks@[p] == m[p] by {
            if m[p] {
                let k = choose|k: int| 0 <= k < ls.len() && source_of(#[trigger] ls[k], hs) == Some(p);
                assert(0 <= k < ls.len() && source_of(ls[k], hs) == Some(p));
            }
        }
    }
    // Remove matched histories from the highest position down.

    let mut k: usize = n;
    while k > 0
        invariant
            k <= n,
            n == hs.len(),
            marks@ == m,
            m.len() == n,
            histories@ == after_removals(hs, m, k as int),
        decreases k,
    {
        k = k - 1;
        proof {
            lemma_after_removals_prefix(hs, m, k + 1);
        }
        if marks[k] {
            histories.swap_remove(k);
        }
    }
    out
}

// ---------------------------------------------------------------------------
// JSON-lines content
// ---------------------------------------------------------------------------

/// The pieces of `s` between `\n` characters (one more piece than there are
/// newlines; a trailing newline leaves an empty last piece).
pub open spec fn split_newlines(s: Seq<char>) -> Seq<Seq<char>>
    decreases s.len(),
{
    if s.len() == 0 {
        seq![Seq::<char>::empty()]
    } else {
        let p = split_newlines(s.drop_last());
        if s.last() == '\n' {
            p.push(Seq::empty())
        } else {
            p.update(p.len() - 1, p.last().push(s.last()))
        }
    }
}

/// The non-blank lines among `pieces`, trimmed, each with its 1-based line
/// number.
pub open spec fn numbered_records(pieces: Seq<Seq<char>>) -> Seq<(int, Seq<char>)>
    decreases pieces.len(),
{
    if pieces.len() == 0 {
        Seq::empty()
    } else {
        let prev = numbered_records(pieces.drop_last());
        let t = trim(pieces.last());
        if t.len() == 0 {
            prev
        } else {
            prev.push((pieces.len() as int, t))
        }
    }
}

/// What `record_lines` gives for `content`: its lines, trimmed, without the
/// blank ones, numbered from 1.
pub open spec fn records_of(content: Seq<char>) -> Seq<(int, Seq<char>)> {
    numbered_records(split_newlines(content))
}

proof fn lemma_split_newlines_nonempty(s: Seq<char>)
    ensures
        split_newlines(s).len() >= 1,
    decreases s.len(),
{
    if s.len() > 0 {
        lemma_split_newlines_nonempty(s.drop_last());
    }
}

/// Appends the record for piece number `line_no` holding `v[lo..hi]`, if it is
/// not blank.
fn push_record(out: &mut Vec<(usize, String)>, v: &Vec<char>, lo: usize, hi: usize, line_no: usize)
    requires
        lo <= hi <= v@.len(),
    ensures
        trim(v@.subrange(lo as int, hi as int)).len() == 0 ==> final(out)@ == old(out)@,
        trim(v@.subrange(lo as int, hi as int)).len() > 0 ==> final(out)@.len() == old(out)@.len()
            + 1 && final(out)@.drop_last() == old(out)@ && final(out)@.last().0 == line_no
            && final(out)@.last().1@ == trim(v@.subrange(lo as int, hi as int)),
{
    let piece = sub_chars(v, lo, hi);
    let (a, b) = trim_bounds(&piece);
    if a < b {
        let line = string_of(&piece, a, b);
        out.push((line_no, line));
    }
}

/// The views of numbered lines.
pub open spec fn record_views(r: Seq<(usize, String)>) -> Seq<(int, Seq<char>)> {
    r.map_values(|e: (usize, String)| (e.0 as int, e.1@))
}

/// The non-blank lines of `content`, trimmed, with their 1-based line
/// numbers. Lines end at `\n`; a `\r` before it is whitespace and trimmed.
pub fn record_lines(content: &str) -> (r: Vec<(usize, String)>)
    requires
        content@.len() < usize::MAX,
    ensures
        record_views(r@) == records_of(content@),
{
    let v = chars_of(content);
    let n = v.len();
    let mut out: Vec<(usize, String)> = Vec::new();
    let mut start: usize = 0;
    let mut line_no: usize = 1;
    let mut i: usize = 0;
    while i < n
        invariant
            n == v@.len(),
            n < usize::MAX,
            start <= i <= n,
            1 <= line_no <= i + 1,
            split_newlines(v@.take(i as int)).len() == line_no,
            split_newlines(v@.take(i as int)).last() == v@.subrange(start as int, i as int),
            record_views(out@) == numbered_records(split_newlines(v@.take(i as int)).drop_last()),
        decreases n - i,
    {
        let ghost t0 = v@.take(i as int);
        let ghost t1 = v@.take(i + 1);
        assert(t1.drop_last() == t0);
        assert(t1.last() == v@[i as int]);
        let ghost p0 = split_newlines(t0);
        proof {
            lemma_split_newlines_nonempty(t0);
        }
        if v[i] == '\n' {
            let ghost o0 = out@;
            push_record(&mut out, &v, start, i, line_no);
            proof {
                let p1 = split_newlines(t1);
                assert(p1 == p0.push(Seq::<char>::empty()));
                assert(p1.drop_last() == p0);
                assert(p0.drop_last() == split_newlines(t0).drop_last());
                if trim(v@.subrange(start as int, i as int)).len() > 0 {
                    assert(record_views(out@) =~= record_views(o0).push(
                        (line_no as int, trim(v@.subrange(start as int, i as int))),
                    ));
                }
            }
            start = i + 1;
            line_no = line_no + 1;
        } else {
            proof {
                let p1 = split_newlines(t1);
                assert(p1 == p0.update(p0.len() - 1, p0.last().push(v@[i as int])));
                assert(p1.drop_last() =~= p0.drop_last());
                assert(p1.last() =~= v@.subrange(start as int, i + 1));
            }
        }
        i = i + 1;
    }
    assert(v@.take(n as int) == v@);
    let ghost pieces = split_newlines(v@);
    proof {
        lemma_split_newlines_nonempty(v@);
    }
    let ghost o0 = out@;
    push_record(&mut out, &v, start, n, line_no);
    proof {
        if trim(v@.subrange(start as int, n as int)).len() > 0 {
            assert(record_views(out@) =~= record_views(o0).push(
                (line_no as int, trim(v@.subrange(start as int, n as int))),
            ));
        }
    }
    out
}

// ---------------------------------------------------------------------------
// Data file discovery
// ---------------------------------------------------------------------------

/// Position of the last `.` before position `j` of `n`, or -1.
pub open spec fn last_dot(n: Seq<char>, j: int) -> int
    decreases j,
{
    if j <= 0 || j > n.len() {
        -1
    } else if n[j - 1] == '.' {
        j - 1
    } else {
        last_dot(n, j - 1)
    }
}

/// The stem and extension of a file name, as `Path::file_stem` and
/// `Path::extension` give them: no extension when the name has no `.` or its
/// only `.` is the first character; otherwise the parts around the last `.`.
pub open spec fn stem_and_extension(n: Seq<char>) -> (Seq<char>, Option<Seq<char>>) {
    let k = last_dot(n, n.len() as int);
    if k <= 0 {
        (n, None)
    } else {
        (n.subrange(0, k), Some(n.subrange(k + 1, n.len() as int)))
    }
}

/// The extension of data files.
pub open spec fn jsonl_extension() -> Seq<char> {
    seq!['j', 's', 'o', 'n', 'l']
}

/// The suffix of a listings file's stem.
pub open spec fn clean_suffix() -> Seq<char> {
    seq!['_', 'C', 'L', 'E', 'A', 'N']
}

/// The suffix of a histories file's stem.
pub open spec fn histories_suffix() -> Seq<char> {
    seq!['_', 'H', 'I', 'S', 'T', 'O', 'R', 'I', 'E', 'S']
}

/// `s` ends with `suffix`.
pub open spec fn ends_with(s: Seq<char>, suffix: Seq<char>) -> bool {
    s.len() >= suffix.len() && s.subrange(s.len() - suffix.len(), s.len() as int) == suffix
}

/// What a data file holds.
#[derive(Debug, Clone, Copy, PartialEq, Eq, Structural)]
pub enum DataFileKind {
    /// Listings (`<fandom>_CLEAN.jsonl`).
    Clean,
    /// Histories of multi-chapter works (`<fandom>_HISTORIES.jsonl`).
    Histories,
}

/// The fandom and kind of a data file, from its name; `None` for any other
/// file.
pub open spec fn data_file(n: Seq<char>) -> Option<(Seq<char>, DataFileKind)> {
    let (stem, ext) = stem_and_extension(n);
    if ext == Some(jsonl_extension()) {
        if ends_with(stem, clean_suffix()) {
            Some((stem.subrange(0, stem.len() - clean_suffix().len()), DataFileKind::Clean))
        } else if ends_with(stem, histories_suffix()) {
            Some((stem.subrange(0, stem.len() - histories_suffix().len()), DataFileKind::Histories))
        } else {
            None
        }
    } else {
        None
    }
}

/// The data files of one fandom, by file name.
pub struct FileGroup {
    pub clean: Option<String>,
    pub histories: Option<String>,
}

/// The characters of an optional string.
pub open spec fn opt_view(o: Option<String>) -> Option<Seq<char>> {
    match o {
        Some(s) => Some(s@),
        None => None,
    }
}

/// A group as (fandom, listings file, histories file).
pub type GroupView = (Seq<char>, Option<Seq<char>>, Option<Seq<char>>);

/// The groups as (fandom, listings file, histories file) views.
pub open spec fn group_views(g: Seq<(String, FileGroup)>) -> Seq<GroupView> {
    g.map_values(|e: (String, FileGroup)| (e.0@, opt_view(e.1.clean), opt_view(e.1.histories)))
}

/// Files `names`, in order, grouped by fandom: fandoms in the order first
/// seen, and for each kind the last file of that kind; other files ignored.
pub open spec fn grouped(names: Seq<Seq<char>>) -> Seq<GroupView>
    decreases names.len(),
{
    if names.len() == 0 {
        Seq::empty()
    } else {
        let g = grouped(names.drop_last());
        let n = names.last();
        match data_file(n) {
            None => g,
            Some((fandom, kind)) => {
                let p = first_group(g, fandom, 0);
                if p < g.len() {
                    if kind == DataFileKind::Clean {
                        g.update(p, (fandom, Some(n), g[p].2))
                    } else {
                        g.update(p, (fandom, g[p].1, Some(n)))
                    }
                } else if kind == DataFileKind::Clean {
                    g.push((fandom, Some(n), None))
                } else {
                    g.push((fandom, None, Some(n)))
                }
            },
        }
    }
}

/// Index of the first group at or after `i` for `fandom`, or the length.
pub open spec fn first_group(g: Seq<GroupView>, fandom: Seq<char>, i: int) -> int
    decreases g.len() - i,
{
    if i < 0 || i >= g.len() {
        g.len() as int
    } else if g[i].0 == fandom {
        i
    } else {
        first_group(g, fandom, i + 1)
    }
}

proof fn lemma_first_group(g: Seq<GroupView>, fandom: Seq<char>, i: int)
    requires
        0 <= i <= g.len(),
    ensures
        i <= first_group(g, fandom, i) <= g.len(),
        first_group(g, fandom, i) < g.len() ==> g[first_group(g, fandom, i)].0 == fandom,
        forall|q: int| i <= q < first_group(g, fandom, i) ==> g[q].0 != fandom,
    decreases g.len() - i,
{
    if i < g.len() && g[i].0 != fandom {
        lemma_first_group(g, fandom, i + 1);
    }
}

proof fn lemma_last_dot(n: Seq<char>, j: int)
    requires
        0 <= j <= n.len(),
    ensures
        -1 <= last_dot(n, j) < j,
        last_dot(n, j) >= 0 ==> n[last_dot(n, j)] == '.',
        forall|q: int| last_dot(n, j) < q < j ==> n[q] != '.',
    decreases j,
{
    if j > 0 && n[j - 1] != '.' {
        lemma_last_dot(n, j - 1);
    }
}

/// Whether `v[..end]` ends with `suffix`.
fn chars_end_with(v: &Vec<char>, end: usize, suffix: &Vec<char>) -> (r: bool)
    requires
        end <= v@.len(),
    ensures
        r == ends_with(v@.subrange(0, end as int), suffix@),
{
    if end < suffix.len() {
        return false;
    }
    let start = end - suffix.len();
    let tail = sub_chars(v, start, end);
    let r = chars_eq(&tail, suffix);
    assert(v@.subrange(0, end as int).subrange(start as int, end as int) == tail@);
    r
}

/// Classifies one file name.
pub fn classify_data_file(name: &Vec<char>) -> (r: Option<(Vec<char>, DataFileKind)>)
    ensures
        match r {
            Some((f, k)) => data_file(name@) == Some((f@, k)),
            None => data_file(name@) is None,
        },
{
    let n = name.len();
    let mut j = n;
    while j > 0 && name[j - 1] != '.'
        invariant
            j <= n,
            n == name@.len(),
            last_dot(name@, j as int) == last_dot(name@, n as int),
        decreases j,
    {
        j = j - 1;
    }
    proof {
        lemma_last_dot(name@, n as int);
    }
    // `j - 1` is the last dot, if any
    if j <= 1 {
        return None;
    }
    let k = j - 1;
    let ext = sub_chars(name, k + 1, n);
    let jsonl = vec!['j', 's', 'o', 'n', 'l'];
    assert(jsonl@ == jsonl_extension());
    if !chars_eq(&ext, &jsonl) {
        return None;
    }
    let clean = vec!['_', 'C', 'L', 'E', 'A', 'N'];
    assert(clean@ == clean_suffix());
    let hist = vec!['_', 'H', 'I', 'S', 'T', 'O', 'R', 'I', 'E', 'S'];
    assert(hist@ == histories_suffix());
    let ghost stem = name@.subrange(0, k as int);
    if chars_end_with(name, k, &clean) {
        let f = sub_chars(name, 0, k - clean.len());
        assert(f@ == stem.subrange(0, stem.len() - clean_suffix().len()));
        Some((f, DataFileKind::Clean))
    } else if chars_end_with(name, k, &hist) {
        let f = sub_chars(name, 0, k - hist.len());
        assert(f@ == stem.subrange(0, stem.len() - histories_suffix().len()));
        Some((f, DataFileKind::Histories))
    } else {
        None
    }
}

/// Groups data file names by fandom: `<fandom>_CLEAN.jsonl` holds listings,
/// `<fandom>_HISTORIES.jsonl` histories; any other file is ignored.
pub fn group_data_files(names: &Vec<String>) -> (r: Vec<(String, FileGroup)>)
    ensures
        group_views(r@) == grouped(names@.map_values(|s: String| s@)),
{
    let ghost nv = names@.map_values(|s: String| s@);
    let mut groups: Vec<(String, FileGroup)> = Vec::new();
    let mut keys: Vec<Vec<char>> = Vec::new();
    let mut i: usize = 0;
    while i < names.len()
        invariant
            i <= names@.len(),
            nv == names@.map_values(|s: String| s@),
            keys@.len() == groups@.len(),
            forall|q: int| 0 <= q < keys@.len() ==> (#[trigger] keys@[q])@ == groups@[q].0@,
            group_views(groups@) == grouped(nv.take(i as int)),
        decreases names@.len() - i,
    {
        let ghost g0 = group_views(groups@);
        assert(nv.take(i + 1).drop_last() == nv.take(i as int));
        assert(nv.take(i + 1).last() == names@[i as int]@);
        let name_chars = chars_of(names[i].as_str());
        match classify_data_file(&name_chars) {
            None => {},
            Some((fandom, kind)) => {
                let mut p: usize = 0;
                while p < keys.len() && !chars_eq(&keys[p], &fandom)
                    invariant
                        p <= keys@.len(),
                        keys@.len() == groups@.len(),
                        g0 == group_views(groups@),
                        forall|q: int| 0 <= q < keys@.len() ==> (#[trigger] keys@[q])@ == groups@[q].0@,
                        first_group(g0, fandom@, p as int) == first_group(g0, fandom@, 0),
                    decreases keys@.len() - p,
                {
                    assert(g0[p as int].0 == keys@[p as int]@);
                    p = p + 1;
                }
                proof {
                    lemma_first_group(g0, fandom@, 0);
                    if p < keys@.len() {
                        assert(g0[p as int].0 == fandom@);
                    }
                }
                let file = names[i].clone();
                if p < groups.len() {
                    let ghost gold = groups@;
                    if kind == DataFileKind::Clean {
                        groups[p].1.clean = Some(file);
                    } else {
                        groups[p].1.histories = Some(file);
                    }
                    proof {
                        assert forall|q: int| 0 <= q < keys@.len() implies (#[trigger] keys@[q])@
                            == groups@[q].0@ by {
                            if q != p {
                                assert(groups@[q] == gold[q]);
                            }
                        }
                        assert(group_views(groups@) =~= grouped(nv.take(i + 1)));
                    }
                } else {
                    let fandom_name = string_of(&fandom, 0, fandom.len());
                    assert(fandom@.subrange(0, fandom@.len() as int) == fandom@);
                    let group = if kind == DataFileKind::Clean {
                        FileGroup { clean: Some(file), histories: None }
                    } else {
                        FileGroup { clean: None, histories: Some(file) }
                    };
                    groups.push((fandom_name, group));
                    keys.push(fandom);
                    proof {
                        assert(group_views(groups@) =~= grouped(nv.take(i + 1)));
                    }
                }
            },
        }
        i = i + 1;
    }
    assert(nv.take(i as int) == nv);
    groups
}

// ---------------------------------------------------------------------------
// Assembling a fandom
// ---------------------------------------------------------------------------

/// Listings with the same categories, position by position, list each
/// category equally often.
proof fn lemma_category_total_same(a: Seq<Listing>, b: Seq<Listing>, c: Category)
    requires
        a.len() == b.len(),
        forall|i: int| 0 <= i < a.len() ==> (#[trigger] a[i]).category == b[i].category,
    ensures
        category_total(a, c) == category_total(b, c),
    decreases a.len(),
{
    if a.len() > 0 {
        lemma_category_total_same(a.drop_last(), b.drop_last(), c);
        assert(a.last().category == b.last().category);
    }
}

/// All data of one fandom: its listings with histories merged in, their
/// index and their statistics. Matched histories are removed from
/// `histories`, as `merge_histories` does.
pub fn build_fandom(listings: Vec<Listing>, histories: &mut Vec<History>) -> (r: FandomData)
    requires
        stat_counters_fit(listings@),
    ensures
        r.listings@.len() == listings@.len(),
        forall|i: int|
            0 <= i < listings@.len() ==> merged_from(#[trigger] r.listings@[i], listings@[i], old(histories)@),
        final(histories)@ == after_removals(
            old(histories)@,
            matched_marks(listings@, old(histories)@),
            0,
        ),
        indexes(r.index, r.listings@),
        stats_of_listings(r.stats, r.listings@),
        months_valid(r.stats.creations_by_month@),
{
    let ghost ls = listings@;
    let ghost hs = histories@;
    let merged = merge_histories(listings, histories);
    proof {
        assert forall|i: int| 0 <= i < merged@.len() implies (#[trigger] merged@[i]).category
            == ls[i].category by {
            assert(merged_from(merged@[i], ls[i], hs));
        }
        assert forall|c: Category| #[trigger] category_total(merged@, c) <= u32::MAX by {
            lemma_category_total_same(merged@, ls, c);
        }
    }
    let index = build_index(&merged);
    let stats = compute_stats(&merged);
    FandomData { listings: merged, index, stats }
}

// ---------------------------------------------------------------------------
// Assembling the state
// ---------------------------------------------------------------------------

/// A fandom's files as read: its name, its listings when it has a listings
/// file, and its histories (empty when it has no histories file).
pub type LoadedGroup = (String, Option<Vec<Listing>>, Vec<History>);

/// `d` is what `build_fandom` makes of listings `ls` and histories `hs`.
#[verifier::opaque]
pub open spec fn built_from(d: FandomData, ls: Seq<Listing>, hs: Seq<History>) -> bool {
    &&& d.listings@.len() == ls.len()
    &&& forall|i: int| 0 <= i < ls.len() ==> merged_from(#[trigger] d.listings@[i], ls[i], hs)
    &&& indexes(d.index, d.listings@)
    &&& stats_of_listings(d.stats, d.listings@)
    &&& months_valid(d.stats.creations_by_month@)
}

/// Fandom `f` is what group `g` becomes: the group has listings, and the
/// fandom has the group's name and the data built from its files.
pub open spec fn fandom_of_group(f: (String, FandomData), g: LoadedGroup) -> bool {
    &&& g.1 is Some
    &&& f.0 == g.0
    &&& built_from(f.1, g.1->0@, g.2@)
}

/// Some fandom of `fs` is what group `g` becomes.
pub open spec fn group_has_fandom(fs: Seq<(String, FandomData)>, g: LoadedGroup) -> bool {
    exists|k: int| 0 <= k < fs.len() && fandom_of_group(#[trigger] fs[k], g)
}

/// Fandom `f` is what one of the first `n` groups of `gs` becomes.
pub open spec fn fandom_has_group(gs: Seq<LoadedGroup>, f: (String, FandomData), n: int) -> bool {
    exists|g: int| 0 <= g < n && g < gs.len() && fandom_of_group(f, #[trigger] gs[g])
}

/// The histories that group `g` leaves over: those no listing took, or all
/// of them when the group has no listings.
pub open spec fn leftover_of(g: LoadedGroup) -> Seq<History> {
    match g.1 {
        Some(ls) => after_removals(g.2@, matched_marks(ls@, g.2@), 0),
        None => g.2@,
    }
}

/// The names of the groups.
pub open spec fn loaded_group_names(gs: Seq<LoadedGroup>) -> Seq<Seq<char>> {
    gs.map_values(|g: LoadedGroup| g.0@)
}

/// A group's listings, if any, can be counted in `u32`.
pub open spec fn group_fits(g: LoadedGroup) -> bool {
    g.1 matches Some(ls) ==> stat_counters_fit(ls@)
}

/// What the fandoms built from the first `n` groups satisfy.
pub open spec fn assembled_upto(gs: Seq<LoadedGroup>, fs: Seq<(String, FandomData)>, n: int) -> bool {
    &&& forall|g: int| 0 <= g < n && gs[g].1 is Some ==> group_has_fandom(fs, #[trigger] gs[g])
    &&& forall|k: int| 0 <= k < fs.len() ==> fandom_has_group(gs, #[trigger] fs[k], n)
    &&& names_unique(fandom_name_views(fs))
}

/// Every fandom kept or added while taking group `i` in comes from one of
/// the first `i + 1` groups.
proof fn lemma_step_fandoms_have_groups(
    gs: Seq<LoadedGroup>,
    f0: Seq<(String, FandomData)>,
    f1: Seq<(String, FandomData)>,
    i: int,
)
    requires
        0 <= i < gs.len(),
        forall|k: int| 0 <= k < f0.len() ==> fandom_has_group(gs, #[trigger] f0[k], i),
        f1.len() == f0.len() || f1.len() == f0.len() + 1,
        forall|k: int| 0 <= k < f0.len() ==> f1[k] == f0[k],
        f1.len() == f0.len() + 1 ==> fandom_of_group(f1.last(), gs[i]),
    ensures
        forall|k: int| 0 <= k < f1.len() ==> fandom_has_group(gs, #[trigger] f1[k], i + 1),
{
    assert forall|k: int| 0 <= k < f1.len() implies fandom_has_group(gs, #[trigger] f1[k], i + 1) by {
        if k < f0.len() {
            assert(fandom_has_group(gs, f0[k], i));
            let g = choose|g: int| 0 <= g < i && g < gs.len() && fandom_of_group(f0[k], #[trigger] gs[g]);
            assert(fandom_of_group(f1[k], gs[g]));
        } else {
            assert(fandom_of_group(f1[k], gs[i]));
        }
    }
}

/// Every group with listings among the first `i + 1` has its fandom after
/// group `i` is taken in.
proof fn lemma_step_groups_have_fandoms(
    gs: Seq<LoadedGroup>,
    f0: Seq<(String, FandomData)>,
    f1: Seq<(String, FandomData)>,
    i: int,
)
    requires
        0 <= i < gs.len(),
        forall|g: int| 0 <= g < i && gs[g].1 is Some ==> group_has_fandom(f0, #[trigger] gs[g]),
        f1.len() >= f0.len(),
        forall|k: int| 0 <= k < f0.len() ==> f1[k] == f0[k],
        gs[i].1 is Some ==> f1.len() == f0.len() + 1 && fandom_of_group(f1.last(), gs[i]),
    ensures
        forall|g: int| 0 <= g < i + 1 && gs[g].1 is Some ==> group_has_fandom(f1, #[trigger] gs[g]),
{
    assert forall|g: int| 0 <= g < i + 1 && gs[g].1 is Some implies group_has_fandom(f1, #[trigger] gs[g]) by {
        if g < i {
            assert(group_has_fandom(f0, gs[g]));
            let k = choose|k: int| 0 <= k < f0.len() && fandom_of_group(#[trigger] f0[k], gs[g]);
            assert(fandom_of_group(f1[k], gs[g]));
        } else {
            assert(fandom_of_group(f1[f1.len() - 1], gs[g]));
        }
    }
}

/// Adding the fandom of group `i` keeps the fandom names distinct, as the
/// groups' names are.
proof fn lemma_step_names_unique(
    gs: Seq<LoadedGroup>,
    nv: Seq<Seq<char>>,
    f0: Seq<(String, FandomData)>,
    f: (String, FandomData),
    i: int,
)
    requires
        0 <= i < gs.len(),
        nv == loaded_group_names(gs),
        names_unique(nv),
        forall|k: int| 0 <= k < f0.len() ==> fandom_has_group(gs, #[trigger] f0[k], i),
        names_unique(fandom_name_views(f0)),
        fandom_of_group(f, gs[i]),
    ensures
        names_unique(fandom_name_views(f0.push(f))),
{
    let f1 = f0.push(f);
    let fv = fandom_name_views(f1);
    let fv0 = fandom_name_views(f0);
    assert forall|a: int, b: int| 0 <= a < b < fv.len() implies fv[a] != fv[b] by {
        assert(fv[a] == f0[a].0@);
        if b == f0.len() {
            assert(fandom_has_group(gs, f0[a], i));
            let g = choose|g: int| 0 <= g < i && g < gs.len() && fandom_of_group(f0[a], #[trigger] gs[g]);
            assert(fv[a] == nv[g]);
            assert(fv[b] == nv[i]);
        } else {
            assert(fv[a] == fv0[a]);
            assert(fv[b] == fv0[b]);
        }
    }
}

/// Builds the state from the loaded fandom groups: each group with listings
/// becomes a fandom with the data `build_fandom` gives; a group without
/// listings is skipped. Also returns, per group, the histories that no
/// listing took.
pub fn assemble_state(groups: Vec<LoadedGroup>, featured: String) -> (r: (AppState, Vec<Vec<History>>))
    requires
        names_unique(loaded_group_names(groups@)),
        forall|g: int| 0 <= g < groups@.len() ==> group_fits(#[trigger] groups@[g]),
    ensures
        r.0.wf(),
        r.0.featured_fandom == featured,
        forall|g: int|
            0 <= g < groups@.len() && groups@[g].1 is Some ==> group_has_fandom(
                r.0.fandoms@,
                #[trigger] groups@[g],
            ),
        forall|k: int|
            0 <= k < r.0.fandoms@.len() ==> fandom_has_group(
                groups@,
                #[trigger] r.0.fandoms@[k],
                groups@.len() as int,
            ),
        forall|g: int|
            0 <= g < groups@.len() && groups@[g].1 is None ==> fandom_position(
                r.0.fandoms@,
                (#[trigger] groups@[g]).0@,
            ) is None,
        r.1@.len() == groups@.len(),
        forall|g: int| 0 <= g < groups@.len() ==> (#[trigger] r.1@[g])@ == leftover_of(groups@[g]),
{
    let ghost gs = groups@;
    let ghost nv = loaded_group_names(gs);
    let mut fandoms: Vec<(String, FandomData)> = Vec::new();
    let mut leftovers: Vec<Vec<History>> = Vec::new();
    for grp in it: groups
        invariant
            it.seq() == gs,
            nv == loaded_group_names(gs),
            names_unique(nv),
            forall|g: int| 0 <= g < gs.len() ==> group_fits(#[trigger] gs[g]),
            assembled_upto(gs, fandoms@, it.index() as int),
            leftovers@.len() == it.index(),
            forall|g: int| 0 <= g < it.index() ==> (#[trigger] leftovers@[g])@ == leftover_of(gs[g]),
    {
        let ghost i = it.index() as int;
        let (name, listings, mut hs) = grp;
        assert(gs[i] == (name, listings, hs));
        assert(group_fits(gs[i]));
        let ghost hs0 = hs@;
        match listings {
            Some(ls) => {
                let ghost ls0 = ls@;
                let data = build_fandom(ls, &mut hs);
                assert(built_from(data, ls0, hs0)) by {
                    reveal(built_from);
                }
                let ghost f0 = fandoms@;
                let ghost entry = (name, data);
                fandoms.push((name, data));
                proof {
                    assert(fandoms@ == f0.push(entry));
                    assert(gs[i].1 is Some && gs[i].1->0@ == ls0 && gs[i].2@ == hs0);
                    assert(fandom_of_group(entry, gs[i]));
                    lemma_step_fandoms_have_groups(gs, f0, fandoms@, i);
                    lemma_step_groups_have_fandoms(gs, f0, fandoms@, i);
                    lemma_step_names_unique(gs, nv, f0, entry, i);
                }
            },
            None => {
                proof {
                    lemma_step_fandoms_have_groups(gs, fandoms@, fandoms@, i);
                    lemma_step_groups_have_fandoms(gs, fandoms@, fandoms@, i);
                }
            },
        }
        leftovers.push(hs);
        assert(leftovers@[i]@ == leftover_of(gs[i]));
    }
    let state = AppState::new(fandoms, featured);
    proof {
        assert forall|g: int|
            0 <= g < gs.len() && gs[g].1 is None implies fandom_position(
            state.fandoms@,
            (#[trigger] gs[g]).0@,
        ) is None by {
            if fandom_position(state.fandoms@, gs[g].0@) is Some {
                let k = choose|k: int|
                    0 <= k < state.fandoms@.len() && (#[trigger] state.fandoms@[k]).0@ == gs[g].0@;
                assert(fandom_has_group(gs, state.fandoms@[k], gs.len() as int));
                let g2 = choose|g2: int|
                    0 <= g2 < gs.len() && g2 < gs.len() && fandom_of_group(state.fandoms@[k], #[trigger] gs[g2]);
                assert(nv[g] == nv[g2]);
            }
        }
    }
    (state, leftovers)
}

/// No fandom gets two groups: the groups' fandom names are distinct.
pub proof fn lemma_grouped_fandoms_distinct(names: Seq<Seq<char>>)
    ensures
        forall|i: int, j: int|
            0 <= i < j < grouped(names).len() ==> grouped(names)[i].0 != grouped(names)[j].0,
    decreases names.len(),
{
    if names.len() > 0 {
        lemma_grouped_fandoms_distinct(names.drop_last());
        let g = grouped(names.drop_last());
        match data_file(names.last()) {
            None => {},
            Some((fandom, kind)) => {
                lemma_first_group(g, fandom, 0);
                let g2 = grouped(names);
                assert forall|i: int, j: int| 0 <= i < j < g2.len() implies g2[i].0 != g2[j].0 by {
                    if first_group(g, fandom, 0) < g.len() {
                        assert(g2[i].0 == g[i].0);
                        assert(g2[j].0 == g[j].0);
                    } else if j == g.len() {
                        assert(g2[i].0 == g[i].0);
                    } else {
                        assert(g2[i].0 == g[i].0);
                        assert(g2[j].0 == g[j].0);
                    }
                }
            },
        }
    }
}

} // verus!
