//! Application state: per-fandom data, its index and statistics. Loaded
//! once at startup and never changed afterwards.
pub mod index;
pub mod loader;
pub mod stats;

use vstd::prelude::*;

use crate::models::{Category, Listing};
use crate::text::{chars_of, chars_lt, lex_lt, lemma_lex_order};

pub use index::{IdIndex, ListingIndex};

verus! {

/// Statistics of a fandom, derived at load time.
#[derive(Debug)]
pub struct FandomStats {
    /// Works created per (year, month): `(year, month, count)`, month 1-based,
    /// in increasing (year, month) order.
    pub creations_by_month: Vec<(i32, u32, u32)>,
    /// Completion breakdown: (one-shots, complete multi-chapter works,
    /// multi-chapter works in progress).
    pub completion_breakdown: (u32, u32, u32),
    /// Works per category (a work may list several).
    pub category_counts: Vec<(Category, u32)>,
    /// Kudos values, sorted, for percentiles.
    pub kudos_sorted: Vec<u32>,
    /// Hit counts, sorted, for percentiles.
    pub hits_sorted: Vec<u32>,
    /// Word counts, sorted, for percentiles.
    pub words_sorted: Vec<u32>,
    /// Bookmark counts, sorted, for percentiles.
    pub bookmarks_sorted: Vec<u32>,
    pub total_listings: u32,
    pub unique_tags: u32,
    pub unique_authors: u32,
    pub unique_series: u32,
    pub total_words: u64,
    pub total_hits: u64,
    pub total_kudos: u64,
    pub total_bookmarks: u64,
    pub total_comments: u64,
}

impl FandomStats {
    /// Statistics of a fandom with no works.
    pub fn empty() -> (r: FandomStats)
        ensures
            r.creations_by_month@.len() == 0,
            r.completion_breakdown == (0u32, 0u32, 0u32),
            r.category_counts@.len() == 0,
            r.kudos_sorted@.len() == 0,
            r.hits_sorted@.len() == 0,
            r.words_sorted@.len() == 0,
            r.bookmarks_sorted@.len() == 0,
            r.total_listings == 0,
            r.unique_tags == 0,
            r.unique_authors == 0,
            r.unique_series == 0,
            r.total_words == 0,
            r.total_hits == 0,
            r.total_kudos == 0,
            r.total_bookmarks == 0,
            r.total_comments == 0,
    {
        FandomStats {
            creations_by_month: Vec::new(),
            completion_breakdown: (0, 0, 0),
            category_counts: Vec::new(),
            kudos_sorted: Vec::new(),
            hits_sorted: Vec::new(),
            words_sorted: Vec::new(),
            bookmarks_sorted: Vec::new(),
            total_listings: 0,
            unique_tags: 0,
            unique_authors: 0,
            unique_series: 0,
            total_words: 0,
            total_hits: 0,
            total_kudos: 0,
            total_bookmarks: 0,
            total_comments: 0,
        }
    }
}

/// All data for a single fandom, loaded once at startup.
pub struct FandomData {
    pub listings: Vec<Listing>,
    pub index: ListingIndex,
    /// Figures for the fandom's overview page.
    pub stats: FandomStats,
}

impl FandomData {
    /// The number of listings of the fandom.
    pub fn listing_count(&self) -> (r: usize)
        ensures
            r == self.listings@.len(),
    {
        self.listings.len()
    }
}

/// App configuration, read from `assets/config.toml` at startup.
pub struct AppConfig {
    pub featured_fandom: String,
}

/// Global application state. Loaded once at server startup, never mutated.
pub struct AppState {
    /// Each fandom's name and data; every name occurs once.
    pub fandoms: Vec<(String, FandomData)>,
    pub featured_fandom: String,
}

/// The contents of character vectors.
pub open spec fn char_views(s: Seq<Vec<char>>) -> Seq<Seq<char>> {
    s.map_values(|v: Vec<char>| v@)
}

/// The character sequences of string slices.
pub open spec fn str_views(s: Seq<&str>) -> Seq<Seq<char>> {
    s.map_values(|x: &str| x@)
}

/// The names of the fandoms, in stored order.
pub open spec fn fandom_name_views(fs: Seq<(String, FandomData)>) -> Seq<Seq<char>> {
    fs.map_values(|e: (String, FandomData)| e.0@)
}

/// The total number of listings over the fandoms.
pub open spec fn listing_total(fs: Seq<(String, FandomData)>) -> nat
    decreases fs.len(),
{
    if fs.len() == 0 {
        0
    } else {
        listing_total(fs.drop_last()) + fs.last().1.listings@.len()
    }
}

/// The position of the fandom named `name`, if any.
pub open spec fn fandom_position(fs: Seq<(String, FandomData)>, name: Seq<char>) -> Option<int> {
    if exists|i: int| 0 <= i < fs.len() && (#[trigger] fs[i]).0@ == name {
        Some(choose|i: int| 0 <= i < fs.len() && (#[trigger] fs[i]).0@ == name)
    } else {
        None
    }
}

/// `new` is `old` after inserting fandom `name` with `data`: an existing
/// fandom of that name gets the new data, otherwise the fandom is appended.
pub open spec fn inserted(
    new: Seq<(String, FandomData)>,
    old: Seq<(String, FandomData)>,
    name: String,
    data: FandomData,
) -> bool {
    match fandom_position(old, name@) {
        Some(p) => new == old.update(p, (old[p].0, data)),
        None => new == old.push((name, data)),
    }
}

/// After inserting a fandom, looking up its name finds the inserted data.
pub proof fn lemma_insert_then_find(
    new: Seq<(String, FandomData)>,
    old: Seq<(String, FandomData)>,
    name: String,
    data: FandomData,
)
    requires
        names_unique(fandom_name_views(new)),
        inserted(new, old, name, data),
    ensures
        fandom_position(new, name@) matches Some(p) && new[p].1 == data,
{
    let q = match fandom_position(old, name@) {
        Some(p) => p,
        None => old.len() as int,
    };
    assert(new[q].0@ == name@);
    assert(0 <= q < new.len());
    let p = fandom_position(new, name@)->0;
    let nv = fandom_name_views(new);
    assert(nv[p] == name@ && nv[q] == name@);
    if p < q {
        assert(nv[p] != nv[q]);
    } else if p > q {
        assert(nv[q] != nv[p]);
    }
}

/// `order` lists each position of `names` once, sorted by name.
pub open spec fn is_name_order(order: Seq<usize>, names: Seq<Seq<char>>) -> bool {
    &&& order.len() == names.len()
    &&& forall|i: int| 0 <= i < order.len() ==> (#[trigger] order[i]) < names.len()
    &&& forall|i: int, j: int|
        0 <= i < j < order.len() ==> lex_lt(names[order[i] as int], names[order[j] as int])
    &&& forall|k: int| 0 <= k < names.len() ==> #[trigger] lists_position(order, k)
}

/// Some entry of `order` is `k`.
pub open spec fn lists_position(order: Seq<usize>, k: int) -> bool {
    exists|i: int| 0 <= i < order.len() && order[i] == k
}

/// No name occurs twice.
pub open spec fn names_unique(names: Seq<Seq<char>>) -> bool {
    forall|i: int, j: int| 0 <= i < j < names.len() ==> names[i] != names[j]
}

/// The positions of `names` in increasing name order.
pub fn name_order(names: &Vec<Vec<char>>) -> (r: Vec<usize>)
    requires
        names_unique(char_views(names@)),
    ensures
        is_name_order(r@, char_views(names@)),
{
    let ghost nv = char_views(names@);
    let mut order: Vec<usize> = Vec::new();
    let mut k: usize = 0;
    while k < names.len()
        invariant
            k <= names@.len(),
            nv == char_views(names@),
            names_unique(nv),
            order@.len() == k,
            forall|i: int| 0 <= i < order@.len() ==> (#[trigger] order@[i]) < k,
            forall|i: int, j: int|
                0 <= i < j < order@.len() ==> lex_lt(nv[order@[i] as int], nv[order@[j] as int]),
            forall|m: int| 0 <= m < k ==> #[trigger] lists_position(order@, m),
        decreases names@.len() - k,
    {
        let ghost o0 = order@;
        let mut p: usize = 0;
        while p < order.len() && chars_lt(&names[order[p]], &names[k])
            invariant
                order@ == o0,
                p <= o0.len(),
                k < names@.len(),
                nv == char_views(names@),
                forall|i: int| 0 <= i < o0.len() ==> (#[trigger] o0[i]) < k,
                forall|q: int| 0 <= q < p ==> lex_lt(nv[o0[q] as int], nv[k as int]),
            decreases o0.len() - p,
        {
            p = p + 1;
        }
        proof {
            if p < o0.len() {
                let a = nv[o0[p as int] as int];
                let b = nv[k as int];
                assert(o0[p as int] < k);
                assert(a != b);
                lemma_lex_order(a, b, b);
                assert(lex_lt(b, a));
            }
        }
        order.insert(p, k);
        proof {
            assert forall|i: int, j: int| 0 <= i < j < order@.len() implies lex_lt(
                nv[order@[i] as int],
                nv[order@[j] as int],
            ) by {
                if i < p && j == p {
                } else if i == p && j > p {
                    let a = nv[k as int];
                    let b = nv[o0[p as int] as int];
                    let c = nv[o0[j - 1] as int];
                    if j - 1 > p {
                        lemma_lex_order(a, b, c);
                    }
                } else if i < p && j > p {
                    assert(order@[i] == o0[i]);
                    assert(order@[j] == o0[j - 1]);
                } else if j < p {
                    assert(order@[i] == o0[i]);
                    assert(order@[j] == o0[j]);
                } else {
                    assert(order@[i] == o0[i - 1]);
                    assert(order@[j] == o0[j - 1]);
                }
            }
            assert forall|m: int| 0 <= m < k + 1 implies #[trigger] lists_position(order@, m) by {
                if m == k {
                    assert(order@[p as int] == m);
                } else {
                    assert(lists_position(o0, m));
                    let i = choose|i: int| 0 <= i < o0.len() && o0[i] == m;
                    if i < p {
                        assert(order@[i] == m);
                    } else {
                        assert(order@[i + 1] == m);
                    }
                }
            }
        }
        k = k + 1;
    }
    order
}

impl AppState {
    /// Every fandom name occurs once.
    pub open spec fn wf(&self) -> bool {
        names_unique(fandom_name_views(self.fandoms@))
    }

    /// Global state from the loaded fandoms and the configured featured
    /// fandom.
    pub fn new(fandoms: Vec<(String, FandomData)>, featured_fandom: String) -> (r: AppState)
        requires
            names_unique(fandom_name_views(fandoms@)),
        ensures
            r.wf(),
            r.fandoms == fandoms,
            r.featured_fandom == featured_fandom,
    {
        AppState { fandoms, featured_fandom }
    }

    /// State with no fandoms yet.
    pub fn empty(featured_fandom: String) -> (r: AppState)
        ensures
            r.wf(),
            r.fandoms@.len() == 0,
            r.featured_fandom == featured_fandom,
    {
        AppState { fandoms: Vec::new(), featured_fandom }
    }

    /// Adds fandom `name` with its data, replacing the data of a fandom of
    /// the same name (as a map insert does).
    pub fn insert_fandom(&mut self, name: String, data: FandomData)
        requires
            old(self).wf(),
        ensures
            final(self).wf(),
            final(self).featured_fandom == old(self).featured_fandom,
            inserted(final(self).fandoms@, old(self).fandoms@, name, data),
    {
        let ghost f0 = self.fandoms@;
        let mut i: usize = 0;
        while i < self.fandoms.len()
            invariant
                i <= f0.len(),
                self.fandoms@ == f0,
                f0 == old(self).fandoms@,
                names_unique(fandom_name_views(f0)),
                self.featured_fandom == old(self).featured_fandom,
                forall|q: int| 0 <= q < i ==> f0[q].0@ != name@,
            decreases f0.len() - i,
        {
            if self.fandoms[i].0 == name {
                proof {
                    let nv = fandom_name_views(f0);
                    let p = choose|q: int| 0 <= q < f0.len() && (#[trigger] f0[q]).0@ == name@;
                    assert(nv[i as int] == name@);
                    assert(nv[p] == name@);
                    if p > i {
                        assert(nv[i as int] != nv[p]);
                    }
                }
                let old_entry = self.fandoms.remove(i);
                self.fandoms.insert(i, (old_entry.0, data));
                proof {
                    assert(self.fandoms@ =~= f0.update(i as int, (f0[i as int].0, data)));
                    assert(fandom_name_views(self.fandoms@) =~= fandom_name_views(f0));
                }
                return;
            }
            i = i + 1;
        }
        self.fandoms.push((name, data));
        proof {
            let nv = fandom_name_views(self.fandoms@);
            assert(fandom_name_views(self.fandoms@) =~= fandom_name_views(f0).push(name@));
            assert forall|a: int, b: int| 0 <= a < b < nv.len() implies nv[a] != nv[b] by {
                if b == f0.len() {
                    assert(nv[a] == f0[a].0@);
                } else {
                    assert(nv[a] == fandom_name_views(f0)[a]);
                    assert(nv[b] == fandom_name_views(f0)[b]);
                }
            }
        }
    }

    /// The number of listings over all fandoms.
    pub fn total_listings(&self) -> (r: usize)
        requires
            listing_total(self.fandoms@) <= usize::MAX,
        ensures
            r == listing_total(self.fandoms@),
    {
        let mut total: usize = 0;
        let mut i: usize = 0;
        while i < self.fandoms.len()
            invariant
                i <= self.fandoms@.len(),
                listing_total(self.fandoms@) <= usize::MAX,
                total == listing_total(self.fandoms@.take(i as int)),
            decreases self.fandoms@.len() - i,
        {
            assert(self.fandoms@.take(i + 1).drop_last() == self.fandoms@.take(i as int));
            proof {
                lemma_listing_total_prefix(self.fandoms@, i + 1);
            }
            total = total + self.fandoms[i].1.listing_count();
            i = i + 1;
        }
        assert(self.fandoms@.take(i as int) == self.fandoms@);
        total
    }

    /// Whether the number of listings over all fandoms fits in a `usize`,
    /// as `total_listings` and the dataset summary need.
    pub fn total_listings_fits(&self) -> (r: bool)
        ensures
            r == (listing_total(self.fandoms@) <= usize::MAX),
    {
        let mut total: usize = 0;
        let mut i: usize = 0;
        while i < self.fandoms.len()
            invariant
                i <= self.fandoms@.len(),
                total == listing_total(self.fandoms@.take(i as int)),
            decreases self.fandoms@.len() - i,
        {
            assert(self.fandoms@.take(i + 1).drop_last() == self.fandoms@.take(i as int));
            let c = self.fandoms[i].1.listing_count();
            if c > usize::MAX - total {
                proof {
                    lemma_listing_total_prefix(self.fandoms@, i + 1);
                }
                return false;
            }
            total = total + c;
            i = i + 1;
        }
        assert(self.fandoms@.take(i as int) == self.fandoms@);
        true
    }

    /// The positions of the fandoms in name order.
    pub fn name_order(&self) -> (r: Vec<usize>)
        requires
            self.wf(),
        ensures
            is_name_order(r@, fandom_name_views(self.fandoms@)),
    {
        let mut keys: Vec<Vec<char>> = Vec::new();
        let mut i: usize = 0;
        while i < self.fandoms.len()
            invariant
                i <= self.fandoms@.len(),
                keys@.len() == i,
                char_views(keys@) == fandom_name_views(self.fandoms@).take(i as int),
            decreases self.fandoms@.len() - i,
        {
            let ghost k0 = keys@;
            let key = chars_of(self.fandoms[i].0.as_str());
            assert(key@ == self.fandoms@[i as int].0@);
            keys.push(key);
            assert(keys@ == k0.push(key));
            proof {
                let nv = fandom_name_views(self.fandoms@);
                assert forall|j: int| 0 <= j < i + 1 implies #[trigger] char_views(keys@)[j] == nv.take(
                    i + 1,
                )[j] by {
                    if j < i {
                        assert(keys@[j] == k0[j]);
                        assert(char_views(k0)[j] == nv.take(i as int)[j]);
                    }
                }
            }
            assert(char_views(keys@) =~= fandom_name_views(self.fandoms@).take(
                i + 1,
            ));
            i = i + 1;
        }
        assert(fandom_name_views(self.fandoms@).take(i as int) == fandom_name_views(self.fandoms@));
        name_order(&keys)
    }

    /// The fandom names in increasing (lexicographic) order.
    pub fn fandom_names(&self) -> (r: Vec<&str>)
        requires
            self.wf(),
        ensures
            r@.len() == self.fandoms@.len(),
            forall|i: int, j: int| 0 <= i < j < r@.len() ==> lex_lt(r@[i]@, r@[j]@),
            str_views(r@).to_set() == fandom_name_views(self.fandoms@).to_set(),
    {
        let order = self.name_order();
        let ghost nv = fandom_name_views(self.fandoms@);
        let mut names: Vec<&str> = Vec::new();
        let mut i: usize = 0;
        while i < order.len()
            invariant
                i <= order@.len(),
                is_name_order(order@, nv),
                nv == fandom_name_views(self.fandoms@),
                names@.len() == i,
                forall|a: int| 0 <= a < i ==> (#[trigger] names@[a])@ == nv[order@[a] as int],
            decreases order@.len() - i,
        {
            names.push(self.fandoms[order[i]].0.as_str());
            i = i + 1;
        }
        proof {
            let sv = str_views(names@);
            assert forall|x: Seq<char>| sv.contains(x) implies nv.contains(x) by {
                let a = choose|a: int| 0 <= a < sv.len() && sv[a] == x;
                assert(nv[order@[a] as int] == x);
            }
            assert forall|x: Seq<char>| nv.contains(x) implies sv.contains(x) by {
                let k = choose|k: int| 0 <= k < nv.len() && nv[k] == x;
                assert(lists_position(order@, k));
                let a = choose|a: int| 0 <= a < order@.len() && order@[a] == k;
                assert(sv[a] == x);
            }
            assert(sv.to_set() =~= nv.to_set());
        }
        names
    }

    /// The data of the featured fandom, if a fandom has that name.
    pub fn featured(&self) -> (r: Option<&FandomData>)
        requires
            self.wf(),
        ensures
            match fandom_position(self.fandoms@, self.featured_fandom@) {
                Some(p) => r == Some(&self.fandoms@[p].1),
                None => r is None,
            },
    {
        let mut i: usize = 0;
        while i < self.fandoms.len()
            invariant
                i <= self.fandoms@.len(),
                self.wf(),
                forall|q: int| 0 <= q < i ==> self.fandoms@[q].0@ != self.featured_fandom@,
            decreases self.fandoms@.len() - i,
        {
            if self.fandoms[i].0 == self.featured_fandom {
                proof {
                    let p = choose|q: int|
                        0 <= q < self.fandoms@.len() && (#[trigger] self.fandoms@[q]).0@
                            == self.featured_fandom@;
                    let nv = fandom_name_views(self.fandoms@);
                    assert(nv[i as int] == self.featured_fandom@);
                    assert(nv[p] == self.featured_fandom@);
                    if p < i {
                        assert(nv[p] != nv[i as int]);
                    } else if p > i {
                        assert(nv[i as int] != nv[p]);
                    }
                }
                return Some(&self.fandoms[i].1);
            }
            i = i + 1;
        }
        None
    }
}

proof fn lemma_listing_total_prefix(fs: Seq<(String, FandomData)>, i: int)
    requires
        0 <= i <= fs.len(),
    ensures
        listing_total(fs.take(i)) <= listing_total(fs),
    decreases fs.len() - i,
{
    if i < fs.len() {
        lemma_listing_total_prefix(fs, i + 1);
        assert(fs.take(i + 1).drop_last() == fs.take(i));
    } else {
        assert(fs.take(i) == fs);
    }
}

} // verus!
