//! Per-fandom statistics derived from the listings at load time.
use vstd::prelude::*;
use vstd::hash_map::StringHashMap;

use crate::calendar::{utc_year_month, year_month_of_millis};
use crate::charts::months_valid;
use crate::models::{Category, ChapterCount, Completion, Listing};
use crate::state::FandomStats;

verus! {

// ---------------------------------------------------------------------------
// Creation months
// ---------------------------------------------------------------------------

/// When a work was created: the timestamp of its first history entry, or its
/// update timestamp when it has no history.
pub open spec fn created_millis(l: Listing) -> i64 {
    match l.history {
        Some(h) => if h@.len() > 0 {
            h@[0].unix.0
        } else {
            l.update_unix.0
        },
        None => l.update_unix.0,
    }
}

/// The UTC (year, month) a work was created in; `(0, 1)` when the calendar
/// cannot place its timestamp.
pub open spec fn creation_month(l: Listing) -> (i32, u32) {
    match utc_year_month(created_millis(l)) {
        Some(ym) => ym,
        None => (0i32, 1u32),
    }
}

/// `(year, month)` comes strictly before `b`.
pub open spec fn ym_lt(a: (i32, u32), b: (i32, u32)) -> bool {
    a.0 < b.0 || (a.0 == b.0 && a.1 < b.1)
}

/// How often `k` occurs in `ms`.
pub open spec fn count_key(ms: Seq<(i32, u32)>, k: (i32, u32)) -> nat
    decreases ms.len(),
{
    if ms.len() == 0 {
        0
    } else {
        count_key(ms.drop_last(), k) + if ms.last() == k {
            1nat
        } else {
            0nat
        }
    }
}

/// The key of a `(year, month, count)` row.
pub open spec fn row_key(r: (i32, u32, u32)) -> (i32, u32) {
    (r.0, r.1)
}

/// `h` is the month histogram of `ms`: one row per month that occurs, in
/// increasing (year, month) order, with how often it occurs.
pub open spec fn is_month_tally(h: Seq<(i32, u32, u32)>, ms: Seq<(i32, u32)>) -> bool {
    &&& forall|i: int, j: int| 0 <= i < j < h.len() ==> ym_lt(row_key(h[i]), row_key(h[j]))
    &&& forall|i: int|
        0 <= i < h.len() ==> (#[trigger] h[i]).2 == count_key(ms, row_key(h[i])) && h[i].2 > 0
    &&& forall|j: int|
        0 <= j < ms.len() ==> exists|i: int| 0 <= i < h.len() && row_key(h[i]) == #[trigger] ms[j]
}

/// The sum of the counts of a histogram.
pub open spec fn tally_total(h: Seq<(i32, u32, u32)>) -> nat
    decreases h.len(),
{
    if h.len() == 0 {
        0
    } else {
        tally_total(h.drop_last()) + (h.last().2 as nat)
    }
}

proof fn lemma_count_key_le(ms: Seq<(i32, u32)>, k: (i32, u32))
    ensures
        count_key(ms, k) <= ms.len(),
    decreases ms.len(),
{
    if ms.len() > 0 {
        lemma_count_key_le(ms.drop_last(), k);
    }
}

proof fn lemma_tally_total_update(h: Seq<(i32, u32, u32)>, p: int, e: (i32, u32, u32))
    requires
        0 <= p < h.len(),
    ensures
        tally_total(h.update(p, e)) == tally_total(h) - h[p].2 + e.2,
    decreases h.len(),
{
    if p == h.len() - 1 {
        assert(h.update(p, e).drop_last() == h.drop_last());
    } else {
        assert(h.update(p, e).drop_last() == h.drop_last().update(p, e));
        lemma_tally_total_update(h.drop_last(), p, e);
    }
}

proof fn lemma_tally_total_insert(h: Seq<(i32, u32, u32)>, p: int, e: (i32, u32, u32))
    requires
        0 <= p <= h.len(),
    ensures
        tally_total(h.insert(p, e)) == tally_total(h) + e.2,
    decreases h.len(),
{
    if p == h.len() {
        assert(h.insert(p, e).drop_last() == h);
    } else {
        assert(h.insert(p, e).drop_last() == h.drop_last().insert(p, e));
        lemma_tally_total_insert(h.drop_last(), p, e);
    }
}

/// The creation month of one listing.
pub fn creation_month_of(l: &Listing) -> (r: (i32, u32))
    ensures
        r == creation_month(*l),
        1 <= r.1 <= 12,
        l.history matches Some(h) ==> (h@.len() > 0 ==> r == match utc_year_month(h@[0].unix.0) {
            Some(ym) => ym,
            None => (0i32, 1u32),
        }),
        !(l.history matches Some(h) && h@.len() > 0) ==> r == match utc_year_month(l.update_unix.0) {
            Some(ym) => ym,
            None => (0i32, 1u32),
        },
{
    let created = match &l.history {
        Some(h) => if h.len() > 0 {
            h[0].unix.0
        } else {
            l.update_unix.0
        },
        None => l.update_unix.0,
    };
    match year_month_of_millis(created) {
        Some(ym) => ym,
        None => (0, 1),
    }
}

/// A work is created in the month of its first history entry (the earliest
/// read), or, without history entries, in the month of its last update.
pub proof fn lemma_creation_month_is_first_read(l: Listing)
    ensures
        l.history matches Some(h) ==> (h@.len() > 0 ==> creation_month(l) == match utc_year_month(
            h@[0].unix.0,
        ) {
            Some(ym) => ym,
            None => (0i32, 1u32),
        }),
        !(l.history matches Some(h) && h@.len() > 0) ==> creation_month(l) == match utc_year_month(
            l.update_unix.0,
        ) {
            Some(ym) => ym,
            None => (0i32, 1u32),
        },
{
}

/// Counts how many times each (year, month) occurs, rows in increasing
/// (year, month) order.
pub fn tally_months(months: &Vec<(i32, u32)>) -> (r: Vec<(i32, u32, u32)>)
    requires
        months@.len() <= u32::MAX,
    ensures
        is_month_tally(r@, months@),
        tally_total(r@) == months@.len(),
{
    let mut h: Vec<(i32, u32, u32)> = Vec::new();
    let mut i: usize = 0;
    while i < months.len()
        invariant
            i <= months@.len() <= u32::MAX,
            is_month_tally(h@, months@.take(i as int)),
            tally_total(h@) == i,
        decreases months@.len() - i,
    {
        let k = months[i];
        let ghost ms0 = months@.take(i as int);
        let ghost ms1 = months@.take(i + 1);
        assert(ms1.drop_last() == ms0);
        assert(ms1.last() == k);
        let ghost h0 = h@;
        // First row whose key is not below `k`.
        let mut p: usize = 0;
        while p < h.len() && (h[p].0 < k.0 || (h[p].0 == k.0 && h[p].1 < k.1))
            invariant
                h@ == h0,
                p <= h0.len(),
                forall|q: int| 0 <= q < p ==> ym_lt(row_key(h0[q]), k),
            decreases h0.len() - p,
        {
            p = p + 1;
        }
        proof {
            lemma_count_key_le(ms0, k);
        }
        if p < h.len() && h[p].0 == k.0 && h[p].1 == k.1 {
            let row = h[p];
            h.set(p, (row.0, row.1, row.2 + 1));
            proof {
                lemma_tally_total_update(h0, p as int, (row.0, row.1, (row.2 + 1) as u32));
                assert forall|a: int| 0 <= a < h@.len() implies (#[trigger] h@[a]).2 == count_key(
                    ms1,
                    row_key(h@[a]),
                ) && h@[a].2 > 0 by {
                    assert(h0[a].2 == count_key(ms0, row_key(h0[a])));
                    if a != p {
                        assert(h@[a] == h0[a]);
                        if a < p {
                            assert(ym_lt(row_key(h0[a]), row_key(h0[p as int])));
                        } else {
                            assert(ym_lt(row_key(h0[p as int]), row_key(h0[a])));
                        }
                        assert(row_key(h0[a]) != k);
                    }
                }
                assert forall|j: int| 0 <= j < ms1.len() implies exists|a: int|
                    0 <= a < h@.len() && row_key(h@[a]) == #[trigger] ms1[j] by {
                    if j < ms0.len() {
                        assert(ms1[j] == ms0[j]);
                        let a = choose|a: int| 0 <= a < h0.len() && row_key(h0[a]) == ms0[j];
                        assert(row_key(h@[a]) == ms1[j]);
                    } else {
                        assert(row_key(h@[p as int]) == ms1[j]);
                    }
                }
            }
        } else {
            h.insert(p, (k.0, k.1, 1));
            proof {
                lemma_tally_total_insert(h0, p as int, (k.0, k.1, 1u32));
                if p < h0.len() {
                    assert(ym_lt(k, row_key(h0[p as int])));
                }
                assert forall|a: int, b: int| 0 <= a < b < h@.len() implies ym_lt(
                    row_key(h@[a]),
                    row_key(h@[b]),
                ) by {
                    if a < p && b > p {
                        assert(ym_lt(row_key(h0[a]), k));
                        if b - 1 > p {
                            assert(ym_lt(row_key(h0[p as int]), row_key(h0[b - 1])));
                        }
                    } else if a == p && b > p + 1 {
                        assert(ym_lt(row_key(h0[p as int]), row_key(h0[b - 1])));
                    }
                }
                assert(count_key(ms0, k) == 0) by {
                    if count_key(ms0, k) > 0 {
                        lemma_count_key_present(ms0, k);
                        let j = choose|j: int| 0 <= j < ms0.len() && ms0[j] == k;
                        let a = choose|a: int| 0 <= a < h0.len() && row_key(h0[a]) == ms0[j];
                        if a < p {
                            assert(ym_lt(row_key(h0[a]), k));
                        } else if a > p {
                            assert(ym_lt(row_key(h0[p as int]), row_key(h0[a])));
                        }
                    }
                }
                assert forall|a: int| 0 <= a < h@.len() implies (#[trigger] h@[a]).2 == count_key(
                    ms1,
                    row_key(h@[a]),
                ) && h@[a].2 > 0 by {
                    if a < p {
                        assert(h@[a] == h0[a]);
                        assert(h0[a].2 == count_key(ms0, row_key(h0[a])));
                        assert(row_key(h0[a]) != k);
                    } else if a > p {
                        assert(h@[a] == h0[a - 1]);
                        assert(h0[a - 1].2 == count_key(ms0, row_key(h0[a - 1])));
                        if p < h0.len() {
                            assert(ym_lt(k, row_key(h0[p as int])));
                            if a - 1 > p {
                                assert(ym_lt(row_key(h0[p as int]), row_key(h0[a - 1])));
                            }
                        }
                        assert(row_key(h0[a - 1]) != k);
                    }
                }
                assert forall|j: int| 0 <= j < ms1.len() implies exists|a: int|
                    0 <= a < h@.len() && row_key(h@[a]) == #[trigger] ms1[j] by {
                    if j < ms0.len() {
                        assert(ms1[j] == ms0[j]);
                        let a = choose|a: int| 0 <= a < h0.len() && row_key(h0[a]) == ms0[j];
                        if a < p {
                            assert(row_key(h@[a]) == ms1[j]);
                        } else {
                            assert(row_key(h@[a + 1]) == ms1[j]);
                        }
                    } else {
                        assert(row_key(h@[p as int]) == ms1[j]);
                    }
                }
            }
        }
        i = i + 1;
    }
    assert(months@.take(i as int) == months@);
    h
}

/// A histogram of calendar months holds calendar months only.
proof fn lemma_tally_months_valid(h: Seq<(i32, u32, u32)>, ms: Seq<(i32, u32)>)
    requires
        is_month_tally(h, ms),
        forall|j: int| 0 <= j < ms.len() ==> 1 <= (#[trigger] ms[j]).1 <= 12,
    ensures
        months_valid(h),
{
    assert forall|i: int| 0 <= i < h.len() implies 1 <= (#[trigger] h[i]).1 <= 12 by {
        assert(h[i].2 == count_key(ms, row_key(h[i])) && h[i].2 > 0);
        lemma_count_key_present(ms, row_key(h[i]));
        let j = choose|j: int| 0 <= j < ms.len() && ms[j] == row_key(h[i]);
        assert(1 <= ms[j].1 <= 12);
    }
}

proof fn lemma_count_key_present(ms: Seq<(i32, u32)>, k: (i32, u32))
    requires
        count_key(ms, k) > 0,
    ensures
        exists|j: int| 0 <= j < ms.len() && ms[j] == k,
    decreases ms.len(),
{
    if ms.last() != k {
        lemma_count_key_present(ms.drop_last(), k);
        let j = choose|j: int| 0 <= j < ms.drop_last().len() && ms.drop_last()[j] == k;
        assert(ms[j] == k);
    } else {
        assert(ms[ms.len() - 1] == k);
    }
}

// ---------------------------------------------------------------------------
// Completion breakdown
// ---------------------------------------------------------------------------

/// A one-shot: exactly one chapter published out of one.
pub open spec fn is_one_shot(l: Listing) -> bool {
    l.stats.chapters == Some(ChapterCount { published: 1, total: Some(1u32) })
}

/// The work is marked complete.
pub open spec fn is_complete(l: Listing) -> bool {
    l.completion == Completion::CompleteWork
}

/// How many listings satisfy `f`.
pub open spec fn count_if(ls: Seq<Listing>, f: spec_fn(Listing) -> bool) -> nat
    decreases ls.len(),
{
    if ls.len() == 0 {
        0
    } else {
        count_if(ls.drop_last(), f) + if f(ls.last()) {
            1nat
        } else {
            0nat
        }
    }
}

/// (one-shots, complete multi-chapter works, multi-chapter works in progress).
pub open spec fn completion_counts(ls: Seq<Listing>) -> (nat, nat, nat) {
    (
        count_if(ls, |l: Listing| is_one_shot(l)),
        count_if(ls, |l: Listing| !is_one_shot(l) && is_complete(l)),
        count_if(ls, |l: Listing| !is_one_shot(l) && !is_complete(l)),
    )
}

proof fn lemma_completion_partition(ls: Seq<Listing>)
    ensures
        completion_counts(ls).0 + completion_counts(ls).1 + completion_counts(ls).2 == ls.len(),
    decreases ls.len(),
{
    if ls.len() > 0 {
        lemma_completion_partition(ls.drop_last());
    }
}

/// Every listing falls in exactly one part of the completion breakdown.
pub proof fn lemma_completion_breakdown_covers_all(ls: Seq<Listing>)
    ensures
        completion_counts(ls).0 + completion_counts(ls).1 + completion_counts(ls).2 == ls.len(),
{
    lemma_completion_partition(ls);
}

/// Whether a listing is a one-shot.
pub fn listing_is_one_shot(l: &Listing) -> (r: bool)
    ensures
        r == is_one_shot(*l),
{
    match &l.stats.chapters {
        Some(c) => c.published == 1 && match c.total {
            Some(t) => t == 1,
            None => false,
        },
        None => false,
    }
}

/// Counts one-shots, complete multi-chapter works and multi-chapter works in
/// progress.
pub fn completion_breakdown(listings: &Vec<Listing>) -> (r: (u32, u32, u32))
    requires
        listings@.len() <= u32::MAX,
    ensures
        r.0 == completion_counts(listings@).0,
        r.1 == completion_counts(listings@).1,
        r.2 == completion_counts(listings@).2,
{
    let mut one_shots: u32 = 0;
    let mut complete_multi: u32 = 0;
    let mut incomplete_multi: u32 = 0;
    let mut i: usize = 0;
    while i < listings.len()
        invariant
            i <= listings@.len() <= u32::MAX,
            one_shots == completion_counts(listings@.take(i as int)).0,
            complete_multi == completion_counts(listings@.take(i as int)).1,
            incomplete_multi == completion_counts(listings@.take(i as int)).2,
        decreases listings@.len() - i,
    {
        let l = &listings[i];
        let ghost t0 = listings@.take(i as int);
        let ghost t1 = listings@.take(i + 1);
        assert(t1.drop_last() == t0);
        proof {
            lemma_completion_partition(t0);
        }
        let one = listing_is_one_shot(l);
        let complete = l.completion == Completion::CompleteWork;
        if one {
            one_shots = one_shots + 1;
        } else if complete {
            complete_multi = complete_multi + 1;
        } else {
            incomplete_multi = incomplete_multi + 1;
        }
        i = i + 1;
    }
    assert(listings@.take(i as int) == listings@);
    (one_shots, complete_multi, incomplete_multi)
}

// ---------------------------------------------------------------------------
// Category counts
// ---------------------------------------------------------------------------

/// How often `c` occurs in `cs`.
pub open spec fn count_cat(cs: Seq<Category>, c: Category) -> nat
    decreases cs.len(),
{
    if cs.len() == 0 {
        0
    } else {
        count_cat(cs.drop_last(), c) + if cs.last() == c {
            1nat
        } else {
            0nat
        }
    }
}

/// How many works list category `c`, counting a work once per time it
/// lists `c`.
pub open spec fn category_total(ls: Seq<Listing>, c: Category) -> nat
    decreases ls.len(),
{
    if ls.len() == 0 {
        0
    } else {
        category_total(ls.drop_last(), c) + count_cat(ls.last().category@, c)
    }
}

/// Each category is listed at most `u32::MAX` times over the listings, so
/// each category's count fits a `u32`.
pub open spec fn category_totals_fit(ls: Seq<Listing>) -> bool {
    forall|c: Category| #[trigger] category_total(ls, c) <= u32::MAX
}

/// The counters of a fandom's statistics fit their `u32`s: at most
/// `u32::MAX` works, and each category listed at most `u32::MAX` times.
pub open spec fn stat_counters_fit(ls: Seq<Listing>) -> bool {
    ls.len() <= u32::MAX && category_totals_fit(ls)
}

/// `t` has each of its keys once.
pub open spec fn keys_unique<K, V>(t: Seq<(K, V)>) -> bool {
    forall|i: int, j: int| 0 <= i < j < t.len() ==> t[i].0 != t[j].0
}

/// `t` lists exactly the categories with a positive `f`, each with its `f`.
pub open spec fn is_category_table(t: Seq<(Category, u32)>, f: spec_fn(Category) -> nat) -> bool {
    &&& keys_unique(t)
    &&& forall|i: int| 0 <= i < t.len() ==> (#[trigger] t[i]).1 == f(t[i].0) && t[i].1 > 0
    &&& forall|c: Category| #[trigger] f(c) > 0 ==> has_key(t, c)
}

/// Some entry of `t` has key `k`.
pub open spec fn has_key<K, V>(t: Seq<(K, V)>, k: K) -> bool {
    exists|i: int| 0 <= i < t.len() && (#[trigger] t[i]).0 == k
}

/// A prefix of the listings lists a category no more often than all of them.
proof fn lemma_category_total_prefix(ls: Seq<Listing>, c: Category, i: int)
    requires
        0 <= i <= ls.len(),
    ensures
        category_total(ls.take(i), c) <= category_total(ls, c),
    decreases ls.len() - i,
{
    if i < ls.len() {
        lemma_category_total_prefix(ls, c, i + 1);
        assert(ls.take(i + 1).drop_last() == ls.take(i));
    } else {
        assert(ls.take(i) == ls);
    }
}

/// Adds one occurrence of `c` to a category table.
fn bump_category(t: &mut Vec<(Category, u32)>, c: Category, Ghost(f): Ghost<spec_fn(Category) -> nat>)
    requires
        is_category_table(old(t)@, f),
        f(c) < u32::MAX,
    ensures
        is_category_table(final(t)@, |x: Category| if x == c { f(x) + 1 } else { f(x) }),
{
    let ghost g = |x: Category| if x == c { f(x) + 1 } else { f(x) };
    let ghost t0 = t@;
    let mut k: usize = 0;
    while k < t.len() && t[k].0 != c
        invariant
            t@ == t0,
            k <= t0.len(),
            forall|q: int| 0 <= q < k ==> t0[q].0 != c,
        decreases t0.len() - k,
    {
        k = k + 1;
    }
    if k < t.len() {
        let n = t[k].1;
        t.set(k, (c, n + 1));
        assert(is_category_table(t@, g)) by {
            assert forall|c2: Category| #[trigger] g(c2) > 0 implies has_key(t@, c2) by {
                if c2 == c {
                    assert(t@[k as int].0 == c2);
                } else {
                    assert(f(c2) > 0);
                    let i = choose|i: int| 0 <= i < t0.len() && (#[trigger] t0[i]).0 == c2;
                    assert(t@[i].0 == c2);
                }
            }
        }
    } else {
        assert(f(c) == 0) by {
            if f(c) > 0 {
                assert(has_key(t0, c));
                let i = choose|i: int| 0 <= i < t0.len() && (#[trigger] t0[i]).0 == c;
            }
        }
        t.push((c, 1));
        assert(is_category_table(t@, g)) by {
            assert forall|i: int| 0 <= i < t@.len() implies (#[trigger] t@[i]).1 == g(t@[i].0)
                && t@[i].1 > 0 by {
                if i < t0.len() {
                    assert(t@[i] == t0[i]);
                }
            }
            assert forall|c2: Category| #[trigger] g(c2) > 0 implies has_key(t@, c2) by {
                if c2 == c {
                    assert(t@[t0.len() as int].0 == c2);
                } else {
                    assert(f(c2) > 0);
                    let i = choose|i: int| 0 <= i < t0.len() && (#[trigger] t0[i]).0 == c2;
                    assert(t@[i].0 == c2);
                }
            }
        }
    }
}

/// How many works list each category (a work counts once per time it lists
/// a category); only categories that occur have a row.
pub fn category_counts(listings: &Vec<Listing>) -> (r: Vec<(Category, u32)>)
    requires
        category_totals_fit(listings@),
    ensures
        is_category_table(r@, |c: Category| category_total(listings@, c)),
{
    let mut t: Vec<(Category, u32)> = Vec::new();
    let mut i: usize = 0;
    while i < listings.len()
        invariant
            i <= listings@.len(),
            category_totals_fit(listings@),
            is_category_table(t@, |c: Category| category_total(listings@.take(i as int), c)),
        decreases listings@.len() - i,
    {
        let cats = &listings[i].category;
        let ghost t0 = listings@.take(i as int);
        let ghost t1 = listings@.take(i + 1);
        assert(t1.drop_last() == t0);
        assert(is_category_table(
            t@,
            |c: Category| category_total(t0, c) + count_cat(cats@.take(0), c),
        )) by {
            let g1 = |c: Category| category_total(listings@.take(i as int), c);
            let g2 = |c: Category| category_total(t0, c) + count_cat(cats@.take(0), c);
            assert(cats@.take(0).len() == 0);
            assert(g1 =~= g2);
        }
        let mut j: usize = 0;
        while j < cats.len()
            invariant
                i < listings@.len(),
                cats@ == listings@[i as int].category@,
                j <= cats@.len(),
                t1.drop_last() == t0,
                t1.last() == listings@[i as int],
                t1 == listings@.take(i + 1),
                category_totals_fit(listings@),
                is_category_table(
                    t@,
                    |c: Category| category_total(t0, c) + count_cat(cats@.take(j as int), c),
                ),
            decreases cats@.len() - j,
        {
            let c = cats[j];
            let ghost f = |x: Category| category_total(t0, x) + count_cat(cats@.take(j as int), x);
            assert(cats@.take(j + 1).drop_last() == cats@.take(j as int));
            proof {
                lemma_category_total_prefix(listings@, c, i + 1);
                assert(category_total(listings@, c) <= u32::MAX);
                assert(category_total(t1, c) == category_total(t0, c) + count_cat(cats@, c));
                lemma_count_cat_prefix(cats@, c, j + 1);
            }
            bump_category(&mut t, c, Ghost(f));
            assert(is_category_table(
                t@,
                |c2: Category| category_total(t0, c2) + count_cat(cats@.take(j + 1), c2),
            )) by {
                let g1 = |x: Category| if x == c { f(x) + 1 } else { f(x) };
                let g2 = |c2: Category| category_total(t0, c2) + count_cat(cats@.take(j + 1), c2);
                assert forall|x: Category| #[trigger] g1(x) == g2(x) by {}
                assert(g1 =~= g2);
            }
            j = j + 1;
        }
        assert(cats@.take(j as int) == cats@);
        assert(is_category_table(t@, |c: Category| category_total(t1, c))) by {
            let g1 = |c: Category| category_total(t0, c) + count_cat(cats@.take(j as int), c);
            let g2 = |c: Category| category_total(t1, c);
            assert(g1 =~= g2);
        }
        i = i + 1;
    }
    assert(listings@.take(i as int) == listings@);
    t
}

proof fn lemma_count_cat_prefix(cs: Seq<Category>, c: Category, j: int)
    requires
        0 <= j <= cs.len(),
    ensures
        count_cat(cs.take(j), c) <= count_cat(cs, c),
    decreases cs.len() - j,
{
    if j < cs.len() {
        lemma_count_cat_prefix(cs, c, j + 1);
        assert(cs.take(j + 1).drop_last() == cs.take(j));
    } else {
        assert(cs.take(j) == cs);
    }
}

// ---------------------------------------------------------------------------
// Numeric metrics
// ---------------------------------------------------------------------------

/// A numeric statistic of a work; a missing value counts as 0.
#[derive(Debug, Clone, Copy, PartialEq, Eq, Structural)]
pub enum Metric {
    Kudos,
    Hits,
    Words,
    Bookmarks,
    Comments,
}

/// A missing value counts as 0.
pub open spec fn or_zero(v: Option<u32>) -> u32 {
    match v {
        Some(x) => x,
        None => 0u32,
    }
}

/// The value of metric `m` for a listing.
pub open spec fn metric_of(l: Listing, m: Metric) -> u32 {
    match m {
        Metric::Kudos => or_zero(l.stats.kudos),
        Metric::Hits => or_zero(l.stats.hits),
        Metric::Words => or_zero(l.stats.words),
        Metric::Bookmarks => or_zero(l.stats.bookmarks),
        Metric::Comments => or_zero(l.stats.comments),
    }
}

/// The values of metric `m`, one per listing, in listing order.
pub open spec fn metric_values(ls: Seq<Listing>, m: Metric) -> Seq<u32> {
    Seq::new(ls.len(), |i: int| metric_of(ls[i], m))
}

/// The sum of metric `m` over the listings.
pub open spec fn metric_sum(ls: Seq<Listing>, m: Metric) -> nat
    decreases ls.len(),
{
    if ls.len() == 0 {
        0
    } else {
        metric_sum(ls.drop_last(), m) + metric_of(ls.last(), m) as nat
    }
}

/// `s` is in ascending order.
pub open spec fn sorted_asc(s: Seq<u32>) -> bool {
    forall|i: int, j: int| 0 <= i <= j < s.len() ==> s[i] <= s[j]
}

/// The value of metric `m` for a listing.
pub fn metric_value(l: &Listing, m: Metric) -> (r: u32)
    ensures
        r == metric_of(*l, m),
{
    let v = match m {
        Metric::Kudos => l.stats.kudos,
        Metric::Hits => l.stats.hits,
        Metric::Words => l.stats.words,
        Metric::Bookmarks => l.stats.bookmarks,
        Metric::Comments => l.stats.comments,
    };
    match v {
        Some(x) => x,
        None => 0,
    }
}

/// Sorts a vector of `u32` in ascending order (`slice::sort_unstable`).
///
/// Trusted: the result is in ascending order and holds the same values as
/// before, each as often, which is what `sort_unstable` documents.
#[verifier::external_body]
fn sort_u32s(v: &mut Vec<u32>)
    ensures
        final(v)@.to_multiset() == old(v)@.to_multiset(),
        sorted_asc(final(v)@),
{
    v.sort_unstable();
}

/// The values of metric `m`, sorted ascending, for percentile queries.
pub fn sorted_metric(listings: &Vec<Listing>, m: Metric) -> (r: Vec<u32>)
    ensures
        sorted_asc(r@),
        r@.to_multiset() == metric_values(listings@, m).to_multiset(),
{
    let mut v: Vec<u32> = Vec::with_capacity(listings.len());
    let mut i: usize = 0;
    while i < listings.len()
        invariant
            i <= listings@.len(),
            v@ == metric_values(listings@, m).take(i as int),
        decreases listings@.len() - i,
    {
        v.push(metric_value(&listings[i], m));
        assert(v@ == metric_values(listings@, m).take(i + 1));
        i = i + 1;
    }
    assert(v@ == metric_values(listings@, m));
    sort_u32s(&mut v);
    v
}

/// The sum of metric `m` over the listings.
pub fn metric_total(listings: &Vec<Listing>, m: Metric) -> (r: u64)
    requires
        listings@.len() <= u32::MAX,
    ensures
        r == metric_sum(listings@, m),
{
    let mut total: u64 = 0;
    let mut i: usize = 0;
    while i < listings.len()
        invariant
            i <= listings@.len() <= u32::MAX,
            total == metric_sum(listings@.take(i as int), m),
            total <= i * (u32::MAX as int),
        decreases listings@.len() - i,
    {
        let x = metric_value(&listings[i], m);
        assert(listings@.take(i + 1).drop_last() == listings@.take(i as int));
        assert(total + x <= (i + 1) * (u32::MAX as int)) by (nonlinear_arith)
            requires
                total <= i * (u32::MAX as int),
                x <= u32::MAX,
        ;
        assert((i + 1) * (u32::MAX as int) <= (u32::MAX as int) * (u32::MAX as int)) by (nonlinear_arith)
            requires
                i + 1 <= u32::MAX,
        ;
        total = total + x as u64;
        i = i + 1;
    }
    assert(listings@.take(i as int) == listings@);
    total
}

// ---------------------------------------------------------------------------
// Distinct names
// ---------------------------------------------------------------------------

/// A list of names that each work carries.
#[derive(Debug, Clone, Copy, PartialEq, Eq, Structural)]
pub enum TextField {
    Tags,
    Authors,
    Series,
}

/// The names field `f` lists for a work.
pub open spec fn texts_of(l: Listing, f: TextField) -> Vec<String> {
    match f {
        TextField::Tags => l.tags,
        TextField::Authors => l.authors,
        TextField::Series => l.series,
    }
}

/// The distinct names of field `f` over all listings.
pub open spec fn distinct_texts(ls: Seq<Listing>, f: TextField) -> Set<Seq<char>> {
    Set::new(
        |s: Seq<char>|
            exists|a: int, b: int|
                0 <= a < ls.len() && 0 <= b < texts_of(ls[a], f)@.len() && (#[trigger] texts_of(
                    ls[a],
                    f,
                )@[b])@ == s,
    )
}

/// The names of field `f` of one listing.
pub fn field_texts(l: &Listing, f: TextField) -> (r: &Vec<String>)
    ensures
        *r == texts_of(*l, f),
{
    match f {
        TextField::Tags => &l.tags,
        TextField::Authors => &l.authors,
        TextField::Series => &l.series,
    }
}

/// How many distinct names field `f` has over all listings, as a `u32`
/// (the count modulo 2^32).
pub fn distinct_count(listings: &Vec<Listing>, f: TextField) -> (r: u32)
    ensures
        r as int == distinct_texts(listings@, f).len() as int % 0x1_0000_0000,
{
    let mut seen: StringHashMap<bool> = StringHashMap::new();
    let mut i: usize = 0;
    while i < listings.len()
        invariant
            i <= listings@.len(),
            forall|s: Seq<char>|
                #![trigger seen@.dom().contains(s)]
                seen@.dom().contains(s) <==> exists|a: int, b: int|
                    0 <= a < i && 0 <= b < texts_of(listings@[a], f)@.len() && (#[trigger] texts_of(
                        listings@[a],
                        f,
                    )@[b])@ == s,
        decreases listings@.len() - i,
    {
        let texts = field_texts(&listings[i], f);
        let mut j: usize = 0;
        while j < texts.len()
            invariant
                i < listings@.len(),
                *texts == texts_of(listings@[i as int], f),
                j <= texts@.len(),
                forall|s: Seq<char>|
                    #![trigger seen@.dom().contains(s)]
                    seen@.dom().contains(s) <==> (exists|a: int, b: int|
                        0 <= a < i && 0 <= b < texts_of(listings@[a], f)@.len() && (#[trigger] texts_of(
                            listings@[a],
                            f,
                        )@[b])@ == s) || (exists|b: int| 0 <= b < j && (#[trigger] texts@[b])@ == s),
            decreases texts@.len() - j,
        {
            let key = texts[j].clone();
            seen.insert(key, true);
            proof {
                assert forall|s: Seq<char>| #[trigger] seen@.dom().contains(s) implies ((exists|
                    a: int,
                    b: int,
                |
                    0 <= a < i && 0 <= b < texts_of(listings@[a], f)@.len() && (#[trigger] texts_of(
                        listings@[a],
                        f,
                    )@[b])@ == s) || (exists|b: int|
                    0 <= b < j + 1 && (#[trigger] texts@[b])@ == s)) by {
                    if s == texts@[j as int]@ {
                        assert(0 <= j < j + 1 && texts@[j as int]@ == s);
                    }
                }
            }
            j = j + 1;
        }
        proof {
            assert forall|s: Seq<char>| #[trigger] seen@.dom().contains(s) implies exists|
                a: int,
                b: int,
            |
                0 <= a < i + 1 && 0 <= b < texts_of(listings@[a], f)@.len() && (#[trigger] texts_of(
                    listings@[a],
                    f,
                )@[b])@ == s by {
                if exists|b: int| 0 <= b < j && (#[trigger] texts@[b])@ == s {
                    let b = choose|b: int| 0 <= b < j && (#[trigger] texts@[b])@ == s;
                    assert(texts_of(listings@[i as int], f)@[b]@ == s);
                }
            }
            assert forall|s: Seq<char>|
                (exists|a: int, b: int|
                    0 <= a < i + 1 && 0 <= b < texts_of(listings@[a], f)@.len() && (#[trigger] texts_of(
                        listings@[a],
                        f,
                    )@[b])@ == s) implies #[trigger] seen@.dom().contains(s) by {
                let (a, b) = choose|a: int, b: int|
                    0 <= a < i + 1 && 0 <= b < texts_of(listings@[a], f)@.len() && (#[trigger] texts_of(
                        listings@[a],
                        f,
                    )@[b])@ == s;
                if a == i {
                    assert(texts@[b]@ == s);
                }
            }
        }
        i = i + 1;
    }
    assert(seen@.dom() =~= distinct_texts(listings@, f));
    let n = seen.len();
    ((n as u64) % 0x1_0000_0000) as u32
}

// ---------------------------------------------------------------------------
// All statistics of a fandom
// ---------------------------------------------------------------------------

/// Each statistic reads the listing's own field: kudos from `kudos`, hits
/// from `hits` and so on (a missing value counting as 0), and the distinct
/// counts from `tags`, `authors` and `series` respectively.
pub proof fn lemma_statistics_read_own_fields(l: Listing)
    ensures
        metric_of(l, Metric::Kudos) == match l.stats.kudos {
            Some(x) => x,
            None => 0u32,
        },
        metric_of(l, Metric::Hits) == match l.stats.hits {
            Some(x) => x,
            None => 0u32,
        },
        metric_of(l, Metric::Words) == match l.stats.words {
            Some(x) => x,
            None => 0u32,
        },
        metric_of(l, Metric::Bookmarks) == match l.stats.bookmarks {
            Some(x) => x,
            None => 0u32,
        },
        metric_of(l, Metric::Comments) == match l.stats.comments {
            Some(x) => x,
            None => 0u32,
        },
        texts_of(l, TextField::Tags) == l.tags,
        texts_of(l, TextField::Authors) == l.authors,
        texts_of(l, TextField::Series) == l.series,
{
}

/// The creation months of the listings, in listing order.
pub open spec fn creation_months(ls: Seq<Listing>) -> Seq<(i32, u32)> {
    Seq::new(ls.len(), |i: int| creation_month(ls[i]))
}

/// What `compute_stats` gives for `ls`.
pub open spec fn stats_of_listings(st: FandomStats, ls: Seq<Listing>) -> bool {
    &&& is_month_tally(st.creations_by_month@, creation_months(ls))
    &&& st.completion_breakdown.0 == completion_counts(ls).0
    &&& st.completion_breakdown.1 == completion_counts(ls).1
    &&& st.completion_breakdown.2 == completion_counts(ls).2
    &&& is_category_table(st.category_counts@, |c: Category| category_total(ls, c))
    &&& sorted_asc(st.kudos_sorted@)
    &&& st.kudos_sorted@.to_multiset() == metric_values(ls, Metric::Kudos).to_multiset()
    &&& sorted_asc(st.hits_sorted@)
    &&& st.hits_sorted@.to_multiset() == metric_values(ls, Metric::Hits).to_multiset()
    &&& sorted_asc(st.words_sorted@)
    &&& st.words_sorted@.to_multiset() == metric_values(ls, Metric::Words).to_multiset()
    &&& sorted_asc(st.bookmarks_sorted@)
    &&& st.bookmarks_sorted@.to_multiset() == metric_values(ls, Metric::Bookmarks).to_multiset()
    &&& st.total_listings == ls.len()
    &&& st.unique_tags as int == distinct_texts(ls, TextField::Tags).len() as int % 0x1_0000_0000
    &&& st.unique_authors as int == distinct_texts(ls, TextField::Authors).len() as int
        % 0x1_0000_0000
    &&& st.unique_series as int == distinct_texts(ls, TextField::Series).len() as int
        % 0x1_0000_0000
    &&& st.total_words == metric_sum(ls, Metric::Words)
    &&& st.total_hits == metric_sum(ls, Metric::Hits)
    &&& st.total_kudos == metric_sum(ls, Metric::Kudos)
    &&& st.total_bookmarks == metric_sum(ls, Metric::Bookmarks)
    &&& st.total_comments == metric_sum(ls, Metric::Comments)
}

/// The creation months of the listings.
pub fn listing_creation_months(listings: &Vec<Listing>) -> (r: Vec<(i32, u32)>)
    ensures
        r@ == creation_months(listings@),
        forall|i: int| 0 <= i < r@.len() ==> 1 <= (#[trigger] r@[i]).1 <= 12,
{
    let mut months: Vec<(i32, u32)> = Vec::with_capacity(listings.len());
    let mut i: usize = 0;
    while i < listings.len()
        invariant
            i <= listings@.len(),
            months@ == creation_months(listings@).take(i as int),
            forall|k: int| 0 <= k < months@.len() ==> 1 <= (#[trigger] months@[k]).1 <= 12,
        decreases listings@.len() - i,
    {
        months.push(creation_month_of(&listings[i]));
        assert(months@ == creation_months(listings@).take(i + 1));
        i = i + 1;
    }
    assert(months@ == creation_months(listings@));
    months
}

/// The slot of a category in a per-category table.
pub open spec fn cat_slot(c: Category) -> int {
    match c {
        Category::Gen => 0,
        Category::FM => 1,
        Category::MM => 2,
        Category::FF => 3,
        Category::Multi => 4,
        Category::Other => 5,
        Category::NoCategory => 6,
    }
}

fn slot_of(c: Category) -> (r: usize)
    ensures
        r == cat_slot(c),
{
    match c {
        Category::Gen => 0,
        Category::FM => 1,
        Category::MM => 2,
        Category::FF => 3,
        Category::Multi => 4,
        Category::Other => 5,
        Category::NoCategory => 6,
    }
}

/// Whether the statistics of `listings` can be counted in `u32`: at most
/// `u32::MAX` works, and each category listed at most `u32::MAX` times.
pub fn fits_stat_counters(listings: &Vec<Listing>) -> (r: bool)
    ensures
        r == stat_counters_fit(listings@),
{
    if listings.len() > 4294967295usize {
        return false;
    }
    let mut counts: Vec<u64> = vec![0, 0, 0, 0, 0, 0, 0];
    let mut i: usize = 0;
    while i < listings.len()
        invariant
            i <= listings@.len(),
            counts@.len() == 7,
            forall|c: Category|
                #![trigger cat_slot(c)]
                counts@[cat_slot(c)] == category_total(listings@.take(i as int), c)
                    && counts@[cat_slot(c)] <= u32::MAX,
        decreases listings@.len() - i,
    {
        let cats = &listings[i].category;
        let ghost t0 = listings@.take(i as int);
        let ghost t1 = listings@.take(i + 1);
        assert(t1.drop_last() == t0);
        let mut j: usize = 0;
        while j < cats.len()
            invariant
                i < listings@.len(),
                cats@ == listings@[i as int].category@,
                t1.drop_last() == t0,
                t1.last() == listings@[i as int],
                t1 == listings@.take(i + 1),
                j <= cats@.len(),
                counts@.len() == 7,
                forall|c: Category|
                    #![trigger cat_slot(c)]
                    counts@[cat_slot(c)] == category_total(t0, c) + count_cat(cats@.take(j as int), c)
                        && counts@[cat_slot(c)] <= u32::MAX,
            decreases cats@.len() - j,
        {
            let c = cats[j];
            let k = slot_of(c);
            assert(cats@.take(j + 1).drop_last() == cats@.take(j as int));
            if counts[k] == 4294967295u64 {
                proof {
                    lemma_count_cat_prefix(cats@, c, j + 1);
                    lemma_category_total_prefix(listings@, c, i + 1);
                    assert(category_total(t1, c) == category_total(t0, c) + count_cat(cats@, c));
                    assert(category_total(listings@, c) > u32::MAX);
                }
                return false;
            }
            counts.set(k, counts[k] + 1);
            j = j + 1;
        }
        proof {
            assert(cats@.take(j as int) == cats@);
            assert forall|c: Category| #![trigger cat_slot(c)] counts@[cat_slot(c)] == category_total(t1, c) by {
                assert(category_total(t1, c) == category_total(t0, c) + count_cat(cats@, c));
            }
        }
        i = i + 1;
    }
    proof {
        assert(listings@.take(i as int) == listings@);
        assert forall|c: Category| #[trigger] category_total(listings@, c) <= u32::MAX by {
            assert(counts@[cat_slot(c)] <= u32::MAX);
        }
    }
    true
}

/// Computes all statistics of a fandom from its listings.
pub fn compute_stats(listings: &Vec<Listing>) -> (r: FandomStats)
    requires
        stat_counters_fit(listings@),
    ensures
        stats_of_listings(r, listings@),
        months_valid(r.creations_by_month@),
{
    let months = listing_creation_months(listings);
    let creations_by_month = tally_months(&months);
    proof {
        lemma_tally_months_valid(creations_by_month@, months@);
    }
    let completion = completion_breakdown(listings);
    let categories = category_counts(listings);
    FandomStats {
        creations_by_month,
        completion_breakdown: completion,
        category_counts: categories,
        kudos_sorted: sorted_metric(listings, Metric::Kudos),
        hits_sorted: sorted_metric(listings, Metric::Hits),
        words_sorted: sorted_metric(listings, Metric::Words),
        bookmarks_sorted: sorted_metric(listings, Metric::Bookmarks),
        total_listings: listings.len() as u32,
        unique_tags: distinct_count(listings, TextField::Tags),
        unique_authors: distinct_count(listings, TextField::Authors),
        unique_series: distinct_count(listings, TextField::Series),
        total_words: metric_total(listings, Metric::Words),
        total_hits: metric_total(listings, Metric::Hits),
        total_kudos: metric_total(listings, Metric::Kudos),
        total_bookmarks: metric_total(listings, Metric::Bookmarks),
        total_comments: metric_total(listings, Metric::Comments),
    }
}

/// The month histogram has a row for the month of each work's first history
/// entry (its last update when it has no history entries), counting it.
pub proof fn lemma_creation_row_of_first_read(st: FandomStats, ls: Seq<Listing>, i: int)
    requires
        stats_of_listings(st, ls),
        0 <= i < ls.len(),
    ensures
        ls[i].history matches Some(h) ==> (h@.len() > 0 ==> exists|j: int|
            0 <= j < st.creations_by_month@.len() && (#[trigger] st.creations_by_month@[j]).2 > 0 && (
            st.creations_by_month@[j].0, st.creations_by_month@[j].1) == match utc_year_month(
                h@[0].unix.0,
            ) {
                Some(ym) => ym,
                None => (0i32, 1u32),
            }),
        !(ls[i].history matches Some(h) && h@.len() > 0) ==> exists|j: int|
            0 <= j < st.creations_by_month@.len() && (#[trigger] st.creations_by_month@[j]).2 > 0 && (
            st.creations_by_month@[j].0, st.creations_by_month@[j].1) == match utc_year_month(
                ls[i].update_unix.0,
            ) {
                Some(ym) => ym,
                None => (0i32, 1u32),
            },
{
    let ms = creation_months(ls);
    assert(ms[i] == creation_month(ls[i]));
    let j = choose|j: int| 0 <= j < st.creations_by_month@.len() && row_key(st.creations_by_month@[j]) == ms[i];
    assert(st.creations_by_month@[j].2 > 0);
    lemma_creation_month_is_first_read(ls[i]);
}

/// Every work is counted once in the month histogram: the counts add up to
/// the number of listings.
pub proof fn lemma_creation_counts_cover_all(st: FandomStats, ls: Seq<Listing>)
    requires
        stats_of_listings(st, ls),
    ensures
        tally_total(st.creations_by_month@) == ls.len(),
{
    lemma_tally_total_of_tally(st.creations_by_month@, creation_months(ls));
}

proof fn lemma_count_key_pos(ms: Seq<(i32, u32)>, j: int)
    requires
        0 <= j < ms.len(),
    ensures
        count_key(ms, ms[j]) > 0,
    decreases ms.len(),
{
    if j < ms.len() - 1 {
        lemma_count_key_pos(ms.drop_last(), j);
        assert(ms.drop_last()[j] == ms[j]);
    }
}

proof fn lemma_tally_total_remove(h: Seq<(i32, u32, u32)>, p: int)
    requires
        0 <= p < h.len(),
    ensures
        tally_total(h.remove(p)) == tally_total(h) - h[p].2,
{
    assert(h.remove(p).insert(p, h[p]) == h);
    lemma_tally_total_insert(h.remove(p), p, h[p]);
}

/// Any histogram of `ms` has counts that add up to the length of `ms`.
proof fn lemma_tally_total_of_tally(h: Seq<(i32, u32, u32)>, ms: Seq<(i32, u32)>)
    requires
        is_month_tally(h, ms),
    ensures
        tally_total(h) == ms.len(),
    decreases ms.len(),
{
    if ms.len() == 0 {
        if h.len() > 0 {
            assert(h[0].2 == count_key(ms, row_key(h[0])));
        }
        assert(h.len() == 0);
    } else {
        let k = ms.last();
        let ms2 = ms.drop_last();
        assert(ms[ms.len() - 1] == k);
        let p = choose|i: int| 0 <= i < h.len() && row_key(h[i]) == ms[ms.len() - 1];
        assert(h[p].2 == count_key(ms, k));
        assert(count_key(ms, k) == count_key(ms2, k) + 1);
        // rows other than `p` keep their counts
        assert forall|i: int| 0 <= i < h.len() && i != p implies row_key(#[trigger] h[i]) != k by {
            if i < p {
                assert(ym_lt(row_key(h[i]), row_key(h[p])));
            } else {
                assert(ym_lt(row_key(h[p]), row_key(h[i])));
            }
        }
        if count_key(ms2, k) == 0 {
            let h2 = h.remove(p);
            assert(is_month_tally(h2, ms2)) by {
                assert forall|i: int| 0 <= i < h2.len() implies (#[trigger] h2[i]).2 == count_key(
                    ms2,
                    row_key(h2[i]),
                ) && h2[i].2 > 0 by {
                    let i0 = if i < p {
                        i
                    } else {
                        i + 1
                    };
                    assert(h2[i] == h[i0]);
                    assert(h[i0].2 == count_key(ms, row_key(h[i0])));
                }
                assert forall|j: int| 0 <= j < ms2.len() implies exists|i: int|
                    0 <= i < h2.len() && row_key(h2[i]) == #[trigger] ms2[j] by {
                    assert(ms2[j] == ms[j]);
                    let i = choose|i: int| 0 <= i < h.len() && row_key(h[i]) == ms[j];
                    if i == p {
                        lemma_count_key_pos(ms2, j);
                    } else if i < p {
                        assert(row_key(h2[i]) == ms2[j]);
                    } else {
                        assert(row_key(h2[i - 1]) == ms2[j]);
                    }
                }
                assert forall|a: int, b: int| 0 <= a < b < h2.len() implies ym_lt(
                    row_key(h2[a]),
                    row_key(h2[b]),
                ) by {
                    let a0 = if a < p {
                        a
                    } else {
                        a + 1
                    };
                    let b0 = if b < p {
                        b
                    } else {
                        b + 1
                    };
                    assert(h2[a] == h[a0]);
                    assert(h2[b] == h[b0]);
                }
            }
            lemma_tally_total_of_tally(h2, ms2);
            lemma_tally_total_remove(h, p);
        } else {
            let e = (h[p].0, h[p].1, (h[p].2 - 1) as u32);
            let h2 = h.update(p, e);
            assert(is_month_tally(h2, ms2)) by {
                assert forall|i: int| 0 <= i < h2.len() implies (#[trigger] h2[i]).2 == count_key(
                    ms2,
                    row_key(h2[i]),
                ) && h2[i].2 > 0 by {
                    if i != p {
                        assert(h2[i] == h[i]);
                        assert(h[i].2 == count_key(ms, row_key(h[i])));
                    }
                }
                assert forall|j: int| 0 <= j < ms2.len() implies exists|i: int|
                    0 <= i < h2.len() && row_key(h2[i]) == #[trigger] ms2[j] by {
                    assert(ms2[j] == ms[j]);
                    let i = choose|i: int| 0 <= i < h.len() && row_key(h[i]) == ms[j];
                    assert(row_key(h2[i]) == ms2[j]);
                }
                assert forall|a: int, b: int| 0 <= a < b < h2.len() implies ym_lt(
                    row_key(h2[a]),
                    row_key(h2[b]),
                ) by {
                    assert(row_key(h2[a]) == row_key(h[a]));
                    assert(row_key(h2[b]) == row_key(h[b]));
                }
            }
            lemma_tally_total_of_tally(h2, ms2);
            lemma_tally_total_update(h, p, e);
        }
    }
}

} // verus!
