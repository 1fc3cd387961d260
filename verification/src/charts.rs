//! Figures for the overview page: chart series, labels and formatted
//! numbers, all derived from the loaded state.
use vstd::prelude::*;

use crate::models::Category;
use crate::state::{
    fandom_name_views, fandom_position, is_name_order, lists_position, listing_total, AppState,
};
use crate::text::{
    chars_of, decimal, decimal_chars, lex_lt, lemma_lex_order, push_chars, push_decimal,
};

verus! {

// ---------------------------------------------------------------------------
// Numbers with thousands separators
// ---------------------------------------------------------------------------

/// Digits grouped in threes from the right, separated by commas.
pub open spec fn with_commas(d: Seq<char>) -> Seq<char>
    decreases d.len(),
{
    if d.len() <= 3 {
        d
    } else {
        with_commas(d.subrange(0, d.len() - 3)) + seq![','] + d.subrange(d.len() - 3, d.len() as int)
    }
}

/// `s` without its commas.
pub open spec fn without_commas(s: Seq<char>) -> Seq<char>
    decreases s.len(),
{
    if s.len() == 0 {
        s
    } else if s.last() == ',' {
        without_commas(s.drop_last())
    } else {
        without_commas(s.drop_last()).push(s.last())
    }
}

/// Writes `d[..hi]` with commas between groups of three.
fn push_grouped(out: &mut String, d: &Vec<char>, hi: usize)
    requires
        hi <= d@.len(),
    ensures
        final(out)@ == old(out)@ + with_commas(d@.subrange(0, hi as int)),
    decreases hi,
{
    if hi <= 3 {
        push_chars(out, d, 0, hi);
    } else {
        push_grouped(out, d, hi - 3);
        let ghost mid = out@;
        push_char_comma(out);
        push_chars(out, d, hi - 3, hi);
        proof {
            let s = d@.subrange(0, hi as int);
            assert(s.subrange(0, s.len() - 3) == d@.subrange(0, hi - 3));
            assert(s.subrange(s.len() - 3, s.len() as int) == d@.subrange(hi - 3, hi as int));
            assert(out@ =~= old(out)@ + with_commas(s));
        }
    }
}

fn push_char_comma(out: &mut String)
    ensures
        final(out)@ == old(out)@ + seq![','],
{
    let v = vec![','];
    push_chars(out, &v, 0, 1);
    assert(v@.subrange(0, 1) == seq![',']);
}

/// `n` written in decimal with commas between groups of three digits, as
/// in US English (`1234567` is `"1,234,567"`).
pub fn format_us_number(n: u64) -> (r: String)
    ensures
        r@ == with_commas(decimal(n as nat)),
{
    let d = decimal_chars(n);
    let mut out = String::new();
    push_grouped(&mut out, &d, d.len());
    assert(d@.subrange(0, d@.len() as int) == d@);
    out
}

proof fn lemma_without_commas_concat(a: Seq<char>, b: Seq<char>)
    ensures
        without_commas(a + b) == without_commas(a) + without_commas(b),
    decreases b.len(),
{
    if b.len() == 0 {
        assert(a + b == a);
        assert(without_commas(b) == b);
    } else {
        lemma_without_commas_concat(a, b.drop_last());
        assert((a + b).drop_last() == a + b.drop_last());
        assert((a + b).last() == b.last());
    }
}

proof fn lemma_without_commas_digits(d: Seq<char>)
    requires
        forall|i: int| 0 <= i < d.len() ==> d[i] != ',',
    ensures
        without_commas(d) == d,
    decreases d.len(),
{
    if d.len() > 0 {
        lemma_without_commas_digits(d.drop_last());
        assert(d.drop_last().push(d.last()) == d);
    }
}

proof fn lemma_decimal_digits(n: nat)
    ensures
        forall|i: int| 0 <= i < decimal(n).len() ==> '0' <= #[trigger] decimal(n)[i] <= '9',
        decimal(n).len() >= 1,
    decreases n,
{
    if n >= 10 {
        lemma_decimal_digits(n / 10);
    }
}

proof fn lemma_with_commas_strips(d: Seq<char>)
    requires
        forall|i: int| 0 <= i < d.len() ==> d[i] != ',',
    ensures
        without_commas(with_commas(d)) == d,
    decreases d.len(),
{
    if d.len() <= 3 {
        lemma_without_commas_digits(d);
    } else {
        let a = d.subrange(0, d.len() - 3);
        let b = d.subrange(d.len() - 3, d.len() as int);
        lemma_with_commas_strips(a);
        lemma_without_commas_concat(with_commas(a) + seq![','], b);
        lemma_without_commas_concat(with_commas(a), seq![',']);
        assert(seq![','].drop_last() == Seq::<char>::empty());
        assert(seq![','].last() == ',');
        assert(without_commas(Seq::<char>::empty()) == Seq::<char>::empty());
        assert(without_commas(seq![',']) == Seq::<char>::empty());
        lemma_without_commas_digits(b);
        assert(a + b == d);
    }
}

/// Removing the commas from a formatted number gives back its plain decimal
/// digits: the separators are the only thing added.
pub proof fn lemma_format_us_number_digits(n: nat)
    ensures
        without_commas(with_commas(decimal(n))) == decimal(n),
{
    lemma_decimal_digits(n);
    lemma_with_commas_strips(decimal(n));
}

/// Where the commas of a grouped digit string fall: counting from the
/// right, every fourth character is a comma and no other is, and the length
/// is never a multiple of four.
proof fn lemma_with_commas_groups(d: Seq<char>)
    requires
        d.len() >= 1,
        forall|i: int| 0 <= i < d.len() ==> '0' <= #[trigger] d[i] <= '9',
    ensures
        with_commas(d).len() % 4 != 0,
        forall|i: int|
            0 <= i < with_commas(d).len() ==> (#[trigger] with_commas(d)[i] == ',' <==> (
            with_commas(d).len() - i) % 4 == 0),
        forall|i: int|
            0 <= i < with_commas(d).len() && #[trigger] with_commas(d)[i] != ',' ==> '0'
                <= with_commas(d)[i] <= '9',
    decreases d.len(),
{
    let r = with_commas(d);
    if d.len() > 3 {
        let a = d.subrange(0, d.len() - 3);
        let b = d.subrange(d.len() - 3, d.len() as int);
        lemma_with_commas_groups(a);
        let w = with_commas(a);
        assert(r == w + seq![','] + b);
        assert(r.len() == w.len() + 4);
        assert forall|i: int| 0 <= i < r.len() implies (#[trigger] r[i] == ',' <==> (r.len() - i)
            % 4 == 0) && (r[i] != ',' ==> '0' <= r[i] <= '9') by {
            if i < w.len() {
                assert(r[i] == w[i]);
                assert((r.len() - i) % 4 == (w.len() - i) % 4);
            } else if i == w.len() {
                assert(r[i] == ',');
            } else {
                assert(r[i] == b[i - w.len() - 1]);
                assert(b[i - w.len() - 1] == d[d.len() - 3 + i - w.len() - 1]);
            }
        }
    }
}

/// A formatted number is groups of digits separated by single commas: it
/// neither starts nor ends with a comma, every comma stands a multiple of
/// four places from the end (so the last groups hold exactly three digits
/// and the first one to three), and every other character is a digit.
pub proof fn lemma_format_us_number_groups(n: nat)
    ensures
        with_commas(decimal(n)).len() > 0,
        with_commas(decimal(n))[0] != ',',
        with_commas(decimal(n)).last() != ',',
        with_commas(decimal(n)).len() % 4 != 0,
        forall|i: int|
            0 <= i < with_commas(decimal(n)).len() ==> (#[trigger] with_commas(decimal(n))[i] == ','
                <==> (with_commas(decimal(n)).len() - i) % 4 == 0),
        forall|i: int|
            0 <= i < with_commas(decimal(n)).len() && #[trigger] with_commas(decimal(n))[i] != ','
                ==> '0' <= with_commas(decimal(n))[i] <= '9',
{
    lemma_decimal_digits(n);
    lemma_with_commas_groups(decimal(n));
    let r = with_commas(decimal(n));
    assert(r.len() > 0);
    assert(r[0] == ',' <==> (r.len() - 0) % 4 == 0);
    assert(r[r.len() - 1] == ',' <==> (r.len() - (r.len() - 1)) % 4 == 0);
}

// ---------------------------------------------------------------------------
// Labels
// ---------------------------------------------------------------------------

/// The three-letter English name of month `m` (1-based).
pub open spec fn month_abbrev(m: u32) -> Seq<char> {
    if m == 1 {
        "Jan"@
    } else if m == 2 {
        "Feb"@
    } else if m == 3 {
        "Mar"@
    } else if m == 4 {
        "Apr"@
    } else if m == 5 {
        "May"@
    } else if m == 6 {
        "Jun"@
    } else if m == 7 {
        "Jul"@
    } else if m == 8 {
        "Aug"@
    } else if m == 9 {
        "Sep"@
    } else if m == 10 {
        "Oct"@
    } else if m == 11 {
        "Nov"@
    } else {
        "Dec"@
    }
}

/// The English three-letter month names, January first.
pub open spec fn english_month_abbrevs() -> Seq<Seq<char>> {
    seq![
        "Jan"@, "Feb"@, "Mar"@, "Apr"@, "May"@, "Jun"@,
        "Jul"@, "Aug"@, "Sep"@, "Oct"@, "Nov"@, "Dec"@,
    ]
}

/// Month `m` is labelled with the `m`-th English month name, and a label
/// other than January's is just that name.
pub proof fn lemma_month_names_are_english(year: i32, m: u32)
    requires
        1 <= m <= 12,
    ensures
        month_abbrev(m) == english_month_abbrevs()[m - 1],
        m != 1 ==> month_label_of(year, m) == english_month_abbrevs()[m - 1],
        month_label_of(year, 1) == english_month_abbrevs()[0] + seq![' '] + signed_decimal(year as int),
{
}

/// A signed integer in decimal.
pub open spec fn signed_decimal(y: int) -> Seq<char> {
    if y < 0 {
        seq!['-'] + decimal((-y) as nat)
    } else {
        decimal(y as nat)
    }
}

/// The axis label of a month: `"Jan 2024"` for January, `"Feb"` for the others.
pub open spec fn month_label_of(year: i32, month: u32) -> Seq<char> {
    if month == 1 {
        month_abbrev(1) + seq![' '] + signed_decimal(year as int)
    } else {
        month_abbrev(month)
    }
}

/// The three-letter name of a month.
pub fn month_abbrev_string(m: u32) -> (r: String)
    requires
        1 <= m <= 12,
    ensures
        r@ == month_abbrev(m),
        r@ == english_month_abbrevs()[m - 1],
{
    if m == 1 {
        String::from_str("Jan")
    } else if m == 2 {
        String::from_str("Feb")
    } else if m == 3 {
        String::from_str("Mar")
    } else if m == 4 {
        String::from_str("Apr")
    } else if m == 5 {
        String::from_str("May")
    } else if m == 6 {
        String::from_str("Jun")
    } else if m == 7 {
        String::from_str("Jul")
    } else if m == 8 {
        String::from_str("Aug")
    } else if m == 9 {
        String::from_str("Sep")
    } else if m == 10 {
        String::from_str("Oct")
    } else if m == 11 {
        String::from_str("Nov")
    } else {
        String::from_str("Dec")
    }
}

/// The axis label of a month on the creation chart.
pub fn month_label(year: i32, month: u32) -> (r: String)
    requires
        1 <= month <= 12,
    ensures
        r@ == month_label_of(year, month),
{
    let mut s = month_abbrev_string(month);
    if month == 1 {
        s.append(" ");
        if year < 0 {
            s.append("-");
            let mag: u64 = (-(year as i64)) as u64;
            push_decimal(&mut s, mag);
        } else {
            push_decimal(&mut s, year as u64);
        }
        proof {
            reveal_strlit(" ");
            reveal_strlit("-");
        }
        assert(s@ =~= month_label_of(year, month));
    }
    s
}

/// The name the archive uses for a category.
pub open spec fn category_name(c: Category) -> Seq<char> {
    match c {
        Category::Gen => "Gen"@,
        Category::FM => "F/M"@,
        Category::MM => "M/M"@,
        Category::FF => "F/F"@,
        Category::Multi => "Multi"@,
        Category::Other => "Other"@,
        Category::NoCategory => "No category"@,
    }
}

/// The name the archive uses for a category.
pub fn category_label(c: Category) -> (r: String)
    ensures
        r@ == category_name(c),
{
    match c {
        Category::Gen => String::from_str("Gen"),
        Category::FM => String::from_str("F/M"),
        Category::MM => String::from_str("M/M"),
        Category::FF => String::from_str("F/F"),
        Category::Multi => String::from_str("Multi"),
        Category::Other => String::from_str("Other"),
        Category::NoCategory => String::from_str("No category"),
    }
}

/// The fandom name as a page title: dashes become spaces.
pub open spec fn title_of(name: Seq<char>) -> Seq<char> {
    Seq::new(name.len(), |i: int| if name[i] == '-' { ' ' } else { name[i] })
}

/// The fandom name as a page title: dashes become spaces.
pub fn display_title(name: &str) -> (r: String)
    ensures
        r@ == title_of(name@),
{
    let v = chars_of(name);
    let mut out: Vec<char> = Vec::new();
    let mut i: usize = 0;
    while i < v.len()
        invariant
            i <= v@.len(),
            v@ == name@,
            out@ == title_of(name@).take(i as int),
        decreases v@.len() - i,
    {
        if v[i] == '-' {
            out.push(' ');
        } else {
            out.push(v[i]);
        }
        assert(out@ =~= title_of(name@).take(i + 1));
        i = i + 1;
    }
    assert(out@ =~= title_of(name@));
    let mut s = String::new();
    push_chars(&mut s, &out, 0, out.len());
    assert(out@.subrange(0, out@.len() as int) == out@);
    s
}

/// The chart the explore page shows: the `chart` query parameter, or the
/// timeline when there is none.
pub fn chart_kind(param: Option<String>) -> (r: String)
    ensures
        r@ == match param {
            Some(p) => p@,
            None => "timeline"@,
        },
{
    match param {
        Some(p) => p,
        None => String::from_str("timeline"),
    }
}

// ---------------------------------------------------------------------------
// Chart series
// ---------------------------------------------------------------------------

/// One point of the creation chart: `x` counts months (`year * 12 + month -
/// 1`), `count` works were created then.
pub struct CreationPoint {
    pub x: i64,
    pub count: u32,
    pub label: String,
}

/// The months of the rows are 1-based calendar months.
pub open spec fn months_valid(rows: Seq<(i32, u32, u32)>) -> bool {
    forall|i: int| 0 <= i < rows.len() ==> 1 <= (#[trigger] rows[i]).1 <= 12
}

/// `p` is the chart point of row `row`.
pub open spec fn is_point_of(p: CreationPoint, row: (i32, u32, u32)) -> bool {
    &&& p.x == row.0 as int * 12 + row.1 as int - 1
    &&& p.count == row.2
    &&& p.label@ == month_label_of(row.0, row.1)
}

/// The points of the creation chart, one per (year, month, count) row.
pub fn creation_points(rows: &Vec<(i32, u32, u32)>) -> (r: Vec<CreationPoint>)
    requires
        months_valid(rows@),
    ensures
        r@.len() == rows@.len(),
        forall|i: int| 0 <= i < rows@.len() ==> is_point_of(#[trigger] r@[i], rows@[i]),
{
    let mut out: Vec<CreationPoint> = Vec::new();
    let mut i: usize = 0;
    while i < rows.len()
        invariant
            i <= rows@.len(),
            months_valid(rows@),
            out@.len() == i,
            forall|k: int| 0 <= k < i ==> is_point_of(#[trigger] out@[k], rows@[k]),
        decreases rows@.len() - i,
    {
        let (year, month, count) = rows[i];
        assert(1 <= rows@[i as int].1 <= 12);
        let x = (year as i64) * 12 + (month as i64) - 1;
        out.push(CreationPoint { x, count, label: month_label(year, month) });
        i = i + 1;
    }
    out
}

/// The completion pie: labelled counts of one-shots, complete works and
/// works in progress.
pub fn completion_slices(breakdown: (u32, u32, u32)) -> (r: Vec<(String, u32)>)
    ensures
        r@.len() == 3,
        r@[0].0@ == "One Shots"@ && r@[0].1 == breakdown.0,
        r@[1].0@ == "Complete"@ && r@[1].1 == breakdown.1,
        r@[2].0@ == "Work in Progress"@ && r@[2].1 == breakdown.2,
{
    let mut v: Vec<(String, u32)> = Vec::new();
    v.push((String::from_str("One Shots"), breakdown.0));
    v.push((String::from_str("Complete"), breakdown.1));
    v.push((String::from_str("Work in Progress"), breakdown.2));
    v
}

/// `s` is in order of non-increasing count.
pub open spec fn by_count_desc(s: Seq<(Category, u32)>) -> bool {
    forall|i: int, j: int| 0 <= i <= j < s.len() ==> s[i].1 >= s[j].1
}

proof fn lemma_insert_multiset<A>(s: Seq<A>, p: int, x: A)
    requires
        0 <= p <= s.len(),
    ensures
        s.insert(p, x).to_multiset() == s.to_multiset().insert(x),
{
    broadcast use vstd::seq_lib::group_to_multiset_ensures;

    let t = s.insert(p, x);
    assert(t.remove(p) == s);
    assert(t[p] == x);
    assert(t.to_multiset().remove(x) == s.to_multiset());
    assert(t.to_multiset().count(x) > 0) by {
        assert(t.contains(x));
    }
    assert(t.to_multiset() =~= s.to_multiset().insert(x));
}

/// The category counts ordered from the most to the least frequent.
pub fn sort_by_count_desc(v: Vec<(Category, u32)>) -> (r: Vec<(Category, u32)>)
    ensures
        by_count_desc(r@),
        r@.to_multiset() == v@.to_multiset(),
{
    broadcast use vstd::seq_lib::group_to_multiset_ensures;

    let mut out: Vec<(Category, u32)> = Vec::new();
    let mut i: usize = 0;
    while i < v.len()
        invariant
            i <= v@.len(),
            by_count_desc(out@),
            out@.to_multiset() == v@.take(i as int).to_multiset(),
        decreases v@.len() - i,
    {
        let e = v[i];
        let ghost o0 = out@;
        // after every entry counted at least as often (keeps equal counts in
        // arrival order)
        let mut p: usize = 0;
        while p < out.len() && out[p].1 >= e.1
            invariant
                out@ == o0,
                p <= o0.len(),
                forall|q: int| 0 <= q < p ==> o0[q].1 >= e.1,
            decreases o0.len() - p,
        {
            p = p + 1;
        }
        out.insert(p, e);
        proof {
            lemma_insert_multiset(o0, p as int, e);
            assert(v@[i as int] == e);
            assert(v@.take(i + 1) == v@.take(i as int).push(e));
            vstd::seq_lib::to_multiset_build(v@.take(i as int), e);
            assert(v@.take(i + 1).to_multiset() == v@.take(i as int).to_multiset().insert(e));
            assert forall|a: int, b: int| 0 <= a <= b < out@.len() implies out@[a].1 >= out@[b].1 by {
                if a < p && b > p {
                    assert(out@[a] == o0[a]);
                    assert(out@[b] == o0[b - 1]);
                } else if a == p && b > p {
                    assert(out@[b] == o0[b - 1]);
                    assert(o0[p as int].1 < e.1);
                } else if a < p && b == p {
                    assert(out@[a] == o0[a]);
                } else if b < p {
                    assert(out@[a] == o0[a]);
                    assert(out@[b] == o0[b]);
                } else if a > p {
                    assert(out@[a] == o0[a - 1]);
                    assert(out@[b] == o0[b - 1]);
                }
            }
        }
        i = i + 1;
    }
    assert(v@.take(i as int) == v@);
    out
}

// ---------------------------------------------------------------------------
// Percentiles
// ---------------------------------------------------------------------------

/// The value at rank `k` of a sorted list, a rank past the end meaning the
/// last value; 0 for an empty list.
pub open spec fn ranked_value(sorted: Seq<u32>, k: int) -> u32 {
    if sorted.len() == 0 {
        0
    } else if k < sorted.len() {
        sorted[k]
    } else {
        sorted[sorted.len() - 1]
    }
}

/// The values at the given ranks of a sorted list (a rank past the end
/// meaning the last value); all 0 when the list is empty.
pub fn pick_ranked(sorted: &Vec<u32>, ranks: &Vec<usize>) -> (r: Vec<u32>)
    ensures
        r@.len() == ranks@.len(),
        forall|i: int| 0 <= i < ranks@.len() ==> r@[i] == ranked_value(sorted@, ranks@[i] as int),
{
    let mut out: Vec<u32> = Vec::new();
    let mut i: usize = 0;
    while i < ranks.len()
        invariant
            i <= ranks@.len(),
            out@.len() == i,
            forall|k: int| 0 <= k < i ==> out@[k] == ranked_value(sorted@, ranks@[k] as int),
        decreases ranks@.len() - i,
    {
        let v = if sorted.len() == 0 {
            0
        } else if ranks[i] < sorted.len() {
            sorted[ranks[i]]
        } else {
            sorted[sorted.len() - 1]
        };
        out.push(v);
        i = i + 1;
    }
    out
}

/// Picking from a sorted list at non-decreasing ranks gives non-decreasing
/// values: a higher percentile never shows a smaller value.
pub proof fn lemma_ranked_values_monotone(sorted: Seq<u32>, j: int, k: int)
    requires
        forall|a: int, b: int| 0 <= a <= b < sorted.len() ==> sorted[a] <= sorted[b],
        0 <= j <= k,
    ensures
        ranked_value(sorted, j) <= ranked_value(sorted, k),
{
}

// ---------------------------------------------------------------------------
// Dataset summary
// ---------------------------------------------------------------------------

/// Listing counts per fandom, sent from server to client.
pub struct DatasetSummary {
    /// (fandom name, listing count), ordered by name.
    pub fandom_counts: Vec<(String, usize)>,
    pub total: usize,
}

/// The sum of the counts of a summary.
pub open spec fn count_sum(c: Seq<(String, usize)>) -> nat
    decreases c.len(),
{
    if c.len() == 0 {
        0
    } else {
        count_sum(c.drop_last()) + (c.last().1 as nat)
    }
}

/// Row `row` names some fandom of `fs` with that fandom's listing count.
pub open spec fn row_names_fandom(fs: Seq<(String, crate::state::FandomData)>, row: (String, usize)) -> bool {
    exists|k: int| 0 <= k < fs.len() && (#[trigger] fs[k]).0@ == row.0@ && row.1 == fs[k].1.listings@.len()
}

/// Some row of `counts` names fandom `f` with its listing count.
pub open spec fn has_row_for(counts: Seq<(String, usize)>, f: (String, crate::state::FandomData)) -> bool {
    exists|i: int| 0 <= i < counts.len() && (#[trigger] counts[i]).0@ == f.0@ && counts[i].1 == f.1.listings@.len()
}

/// `s` holds one row per fandom of `state`, ordered by name, with the
/// fandom's listing count.
pub open spec fn summarizes(s: DatasetSummary, state: AppState) -> bool {
    &&& s.fandom_counts@.len() == state.fandoms@.len()
    &&& forall|i: int, j: int|
        0 <= i < j < s.fandom_counts@.len() ==> lex_lt(s.fandom_counts@[i].0@, s.fandom_counts@[j].0@)
    &&& forall|i: int|
        0 <= i < s.fandom_counts@.len() ==> row_names_fandom(state.fandoms@, #[trigger] s.fandom_counts@[i])
    &&& forall|k: int|
        0 <= k < state.fandoms@.len() ==> has_row_for(s.fandom_counts@, #[trigger] state.fandoms@[k])
    &&& s.total == count_sum(s.fandom_counts@)
}

/// Listing counts per fandom, ordered by fandom name, with their total.
pub fn dataset_summary(state: &AppState) -> (r: DatasetSummary)
    requires
        state.wf(),
        listing_total(state.fandoms@) <= usize::MAX,
    ensures
        summarizes(r, *state),
        r.total == listing_total(state.fandoms@),
{
    let order = state.name_order();
    let ghost nv = fandom_name_views(state.fandoms@);
    let mut counts: Vec<(String, usize)> = Vec::new();
    let mut total: usize = 0;
    let mut i: usize = 0;
    proof {
        lemma_order_sum(order@, state.fandoms@);
    }
    while i < order.len()
        invariant
            i <= order@.len(),
            is_name_order(order@, nv),
            nv == fandom_name_views(state.fandoms@),
            listing_total(state.fandoms@) <= usize::MAX,
            order_sum(order@, state.fandoms@) == listing_total(state.fandoms@),
            counts@.len() == i,
            forall|a: int| 0 <= a < i ==> (#[trigger] counts@[a]).0@ == nv[order@[a] as int] && counts@[a].1
                == state.fandoms@[order@[a] as int].1.listings@.len(),
            total == count_sum(counts@),
            total == order_sum(order@.take(i as int), state.fandoms@),
        decreases order@.len() - i,
    {
        let k = order[i];
        let name = state.fandoms[k].0.clone();
        let c = state.fandoms[k].1.listing_count();
        proof {
            lemma_order_sum_prefix(order@, state.fandoms@, i + 1);
            assert(order@.take(i + 1).drop_last() == order@.take(i as int));
        }
        let ghost c0 = counts@;
        counts.push((name, c));
        assert(counts@.drop_last() == c0);
        total = total + c;
        i = i + 1;
    }
    proof {
        assert(order@.take(i as int) == order@);
        lemma_counts_cover(order@, state.fandoms@, counts@);
    }
    DatasetSummary { fandom_counts: counts, total }
}

/// Rows taken in a name order of the fandoms name fandoms, and every
/// fandom.
proof fn lemma_counts_cover(
    order: Seq<usize>,
    fs: Seq<(String, crate::state::FandomData)>,
    counts: Seq<(String, usize)>,
)
    requires
        is_name_order(order, fandom_name_views(fs)),
        counts.len() == order.len(),
        forall|a: int| 0 <= a < counts.len() ==> (#[trigger] counts[a]).0@ == fandom_name_views(fs)[order[a] as int]
            && counts[a].1 == fs[order[a] as int].1.listings@.len(),
    ensures
        forall|a: int, b: int| 0 <= a < b < counts.len() ==> lex_lt(counts[a].0@, counts[b].0@),
        forall|a: int| 0 <= a < counts.len() ==> row_names_fandom(fs, #[trigger] counts[a]),
        forall|k: int| 0 <= k < fs.len() ==> has_row_for(counts, #[trigger] fs[k]),
{
    let nv = fandom_name_views(fs);
    assert forall|a: int, b: int| 0 <= a < b < counts.len() implies lex_lt(counts[a].0@, counts[b].0@) by {
        assert(counts[a].0@ == nv[order[a] as int]);
        assert(counts[b].0@ == nv[order[b] as int]);
    }
    assert forall|a: int| 0 <= a < counts.len() implies row_names_fandom(fs, #[trigger] counts[a]) by {
        let k = order[a] as int;
        assert(fs[k].0@ == nv[k]);
    }
    assert forall|k: int| 0 <= k < fs.len() implies has_row_for(counts, #[trigger] fs[k]) by {
        assert(lists_position(order, k));
        let a = choose|a: int| 0 <= a < order.len() && order[a] == k;
        assert(nv[k] == fs[k].0@);
        assert(counts[a].0@ == fs[k].0@);
    }
}

/// The sum of the listing counts of the fandoms at the positions `order`.
pub open spec fn order_sum(order: Seq<usize>, fs: Seq<(String, crate::state::FandomData)>) -> nat
    decreases order.len(),
{
    if order.len() == 0 {
        0
    } else {
        order_sum(order.drop_last(), fs) + fs[order.last() as int].1.listings@.len()
    }
}

proof fn lemma_order_sum_prefix(order: Seq<usize>, fs: Seq<(String, crate::state::FandomData)>, i: int)
    requires
        0 <= i <= order.len(),
    ensures
        order_sum(order.take(i), fs) <= order_sum(order, fs),
    decreases order.len() - i,
{
    if i < order.len() {
        lemma_order_sum_prefix(order, fs, i + 1);
        assert(order.take(i + 1).drop_last() == order.take(i));
    } else {
        assert(order.take(i) == order);
    }
}

proof fn lemma_order_sum_remove(order: Seq<usize>, fs: Seq<(String, crate::state::FandomData)>, j: int)
    requires
        0 <= j < order.len(),
    ensures
        order_sum(order, fs) == order_sum(order.remove(j), fs) + fs[order[j] as int].1.listings@.len(),
    decreases order.len(),
{
    if j < order.len() - 1 {
        lemma_order_sum_remove(order.drop_last(), fs, j);
        assert(order.remove(j).drop_last() == order.drop_last().remove(j));
        assert(order.remove(j).last() == order.last());
    } else {
        assert(order.remove(j) == order.drop_last());
    }
}

/// Visiting each fandom once, in any order, adds up to the total.
proof fn lemma_order_sum(order: Seq<usize>, fs: Seq<(String, crate::state::FandomData)>)
    requires
        is_name_order(order, fandom_name_views(fs)),
    ensures
        order_sum(order, fs) == listing_total(fs),
{
    lemma_perm_sum(order, fs, fs.len() as int);
    assert(fs.take(fs.len() as int) == fs);
}

/// A sequence of distinct positions below `n` that lists each of them.
pub open spec fn is_perm(order: Seq<usize>, n: int) -> bool {
    &&& order.len() == n
    &&& forall|i: int| 0 <= i < order.len() ==> (#[trigger] order[i]) < n
    &&& forall|i: int, j: int| 0 <= i < j < order.len() ==> order[i] != order[j]
    &&& forall|k: int| 0 <= k < n ==> #[trigger] lists_position(order, k)
}

proof fn lemma_perm_sum(order: Seq<usize>, fs: Seq<(String, crate::state::FandomData)>, n: int)
    requires
        is_name_order(order, fandom_name_views(fs)) || is_perm(order, n),
        is_name_order(order, fandom_name_views(fs)) ==> n == fs.len(),
        0 <= n <= fs.len(),
    ensures
        order_sum(order, fs) == listing_total(fs.take(n)),
    decreases n,
{
    let nv = fandom_name_views(fs);
    if is_name_order(order, nv) {
        assert forall|i: int, j: int| 0 <= i < j < order.len() implies order[i] != order[j] by {
            lemma_lex_order(nv[order[i] as int], nv[order[j] as int], nv[order[i] as int]);
        }
        assert(is_perm(order, n));
    }
    assert(is_perm(order, n));
    if n == 0 {
        assert(order.len() == 0);
        assert(fs.take(0) == Seq::<(String, crate::state::FandomData)>::empty());
    } else {
        assert(lists_position(order, n - 1));
        let j = choose|j: int| 0 <= j < order.len() && order[j] == n - 1;
        let o2 = order.remove(j);
        assert(is_perm(o2, n - 1)) by {
            assert forall|i: int| 0 <= i < o2.len() implies (#[trigger] o2[i]) < n - 1 by {
                let i0 = if i < j { i } else { i + 1 };
                assert(o2[i] == order[i0]);
                assert(order[i0] != order[j]);
            }
            assert forall|a: int, b: int| 0 <= a < b < o2.len() implies o2[a] != o2[b] by {
                let a0 = if a < j { a } else { a + 1 };
                let b0 = if b < j { b } else { b + 1 };
                assert(o2[a] == order[a0]);
                assert(o2[b] == order[b0]);
            }
            assert forall|k: int| 0 <= k < n - 1 implies #[trigger] lists_position(o2, k) by {
                assert(lists_position(order, k));
                let i = choose|i: int| 0 <= i < order.len() && order[i] == k;
                if i < j {
                    assert(o2[i] == k);
                } else {
                    assert(i != j);
                    assert(o2[i - 1] == k);
                }
            }
        }
        lemma_perm_sum(o2, fs, n - 1);
        lemma_order_sum_remove(order, fs, j);
        assert(fs.take(n).drop_last() == fs.take(n - 1));
    }
}

// ---------------------------------------------------------------------------
// Overview of the featured fandom
// ---------------------------------------------------------------------------

/// (works, authors, words) of the featured fandom, or zeros when no fandom
/// has the featured name.
pub fn featured_overview(state: &AppState) -> (r: (u32, u32, u64))
    requires
        state.wf(),
    ensures
        match fandom_position(state.fandoms@, state.featured_fandom@) {
            Some(p) => r == (
                state.fandoms@[p].1.stats.total_listings,
                state.fandoms@[p].1.stats.unique_authors,
                state.fandoms@[p].1.stats.total_words,
            ),
            None => r == (0u32, 0u32, 0u64),
        },
{
    match state.featured() {
        Some(f) => (f.stats.total_listings, f.stats.unique_authors, f.stats.total_words),
        None => (0, 0, 0),
    }
}

/// The chart data of the featured fandom's overview (percentiles aside).
pub struct HomepageChartData {
    pub fandom_name: String,
    pub line: Vec<CreationPoint>,
    pub pie: Vec<(String, u32)>,
    /// Categories from the most to the least frequent.
    pub bar: Vec<(Category, u32)>,
}

/// The message given when no fandom has the featured name.
pub open spec fn featured_missing_message() -> Seq<char> {
    "Featured fandom not found"@
}

/// Whether every stored month of the featured fandom's statistics is a
/// calendar month (vacuously so when no fandom has the featured name), as
/// `homepage_chart_data` needs.
pub fn featured_months_valid(state: &AppState) -> (r: bool)
    requires
        state.wf(),
    ensures
        r == (fandom_position(state.fandoms@, state.featured_fandom@) matches Some(p) ==> months_valid(
            state.fandoms@[p].1.stats.creations_by_month@,
        )),
{
    match state.featured() {
        None => true,
        Some(f) => {
            let ghost p = fandom_position(state.fandoms@, state.featured_fandom@)->0;
            let rows = &f.stats.creations_by_month;
            let mut i: usize = 0;
            while i < rows.len()
                invariant
                    fandom_position(state.fandoms@, state.featured_fandom@) == Some(p),
                    *rows == state.fandoms@[p].1.stats.creations_by_month,
                    i <= rows@.len(),
                    forall|a: int| 0 <= a < i ==> 1 <= (#[trigger] rows@[a]).1 <= 12,
                decreases rows@.len() - i,
            {
                if rows[i].1 < 1 || rows[i].1 > 12 {
                    assert(!months_valid(rows@));
                    return false;
                }
                i = i + 1;
            }
            true
        },
    }
}

/// Chart data for the featured fandom; fails when no fandom has the
/// featured name.
pub fn homepage_chart_data(state: &AppState) -> (r: Result<HomepageChartData, String>)
    requires
        state.wf(),
        fandom_position(state.fandoms@, state.featured_fandom@) matches Some(p) ==> months_valid(
            state.fandoms@[p].1.stats.creations_by_month@,
        ),
    ensures
        r is Err <==> fandom_position(state.fandoms@, state.featured_fandom@) is None,
        r matches Err(e) ==> e@ == featured_missing_message(),
        r matches Ok(d) ==> {
            let st = state.fandoms@[fandom_position(state.fandoms@, state.featured_fandom@)->0].1.stats;
            &&& d.fandom_name@ == state.featured_fandom@
            &&& d.line@.len() == st.creations_by_month@.len()
            &&& forall|i: int|
                0 <= i < d.line@.len() ==> is_point_of(
                    #[trigger] d.line@[i],
                    st.creations_by_month@[i],
                )
            &&& d.pie@.len() == 3
            &&& d.pie@[0].0@ == "One Shots"@ && d.pie@[0].1 == st.completion_breakdown.0
            &&& d.pie@[1].0@ == "Complete"@ && d.pie@[1].1 == st.completion_breakdown.1
            &&& d.pie@[2].0@ == "Work in Progress"@ && d.pie@[2].1 == st.completion_breakdown.2
            &&& by_count_desc(d.bar@)
            &&& d.bar@.to_multiset() == st.category_counts@.to_multiset()
        },
{
    match state.featured() {
        None => Err(String::from_str("Featured fandom not found")),
        Some(f) => {
            let ghost p = fandom_position(state.fandoms@, state.featured_fandom@)->0;
            assert(months_valid(state.fandoms@[p].1.stats.creations_by_month@));
            let line = creation_points(&f.stats.creations_by_month);
            let pie = completion_slices(f.stats.completion_breakdown);
            let bar = sort_by_count_desc(copy_counts(&f.stats.category_counts));
            Ok(HomepageChartData { fandom_name: state.featured_fandom.clone(), line, pie, bar })
        },
    }
}

/// A copy of a category table.
fn copy_counts(v: &Vec<(Category, u32)>) -> (r: Vec<(Category, u32)>)
    ensures
        r@ == v@,
{
    let mut out: Vec<(Category, u32)> = Vec::new();
    let mut i: usize = 0;
    while i < v.len()
        invariant
            i <= v@.len(),
            out@ == v@.take(i as int),
        decreases v@.len() - i,
    {
        out.push(v[i]);
        i = i + 1;
    }
    assert(out@ == v@.take(i as int));
    assert(v@.take(i as int) == v@);
    out
}

} // verus!
