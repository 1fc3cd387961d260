//! Lookup tables from tags, fandoms, authors and the like to the ids of the
//! listings that carry them.
use vstd::prelude::*;
use vstd::hash_map::StringHashMap;

use crate::models::{Category, Listing, Warning};

verus! {

/// The character sequences of a list of strings.
pub open spec fn views(s: Seq<String>) -> Seq<Seq<char>> {
    s.map_values(|x: String| x@)
}

/// Appends `id` to the list of key `k`, starting an empty list if `k` has none.
pub open spec fn push_one<K>(m: Map<K, Seq<Seq<char>>>, k: K, id: Seq<char>) -> Map<
    K,
    Seq<Seq<char>>,
> {
    m.insert(
        k,
        (if m.contains_key(k) {
            m[k]
        } else {
            Seq::empty()
        }).push(id),
    )
}

/// Appends `id` to the list of each key of `keys`, in order (a key listed
/// twice gets `id` twice).
pub open spec fn push_all<K>(m: Map<K, Seq<Seq<char>>>, keys: Seq<K>, id: Seq<char>) -> Map<
    K,
    Seq<Seq<char>>,
>
    decreases keys.len(),
{
    if keys.len() == 0 {
        m
    } else {
        push_one(push_all(m, keys.drop_last(), id), keys.last(), id)
    }
}

/// A map from names to the ids of the listings that carry them.
pub struct IdIndex {
    slots: StringHashMap<usize>,
    keys: Vec<String>,
    ids: Vec<Vec<String>>,
}

impl IdIndex {
    /// The slots, keys and id lists agree.
    pub closed spec fn wf(&self) -> bool {
        &&& self.keys@.len() == self.ids@.len()
        &&& forall|s: Seq<char>|
            #![trigger self.slots@.contains_key(s)]
            self.slots@.contains_key(s) ==> self.slots@[s] < self.keys@.len()
                && self.keys@[self.slots@[s] as int]@ == s
        &&& forall|i: int|
            0 <= i < self.keys@.len() ==> self.slots@.contains_key(#[trigger] self.keys@[i]@)
                && self.slots@[self.keys@[i]@] == i
    }

    /// The map this index stands for.
    pub closed spec fn view(&self) -> Map<Seq<char>, Seq<Seq<char>>> {
        Map::new(
            |s: Seq<char>| self.slots@.contains_key(s),
            |s: Seq<char>| views(self.ids@[self.slots@[s] as int]@),
        )
    }

    /// An empty index.
    pub fn new() -> (r: IdIndex)
        ensures
            r.wf(),
            r.view() == Map::<Seq<char>, Seq<Seq<char>>>::empty(),
    {
        let r = IdIndex { slots: StringHashMap::new(), keys: Vec::new(), ids: Vec::new() };
        assert(r.view() =~= Map::<Seq<char>, Seq<Seq<char>>>::empty());
        r
    }

    /// How many names the index holds.
    pub fn len(&self) -> (r: usize)
        requires
            self.wf(),
        ensures
            r == self.view().dom().len(),
    {
        proof {
            assert(self.view().dom() =~= self.slots@.dom());
        }
        self.slots.len()
    }

    /// The ids listed under `key`, if any.
    pub fn get(&self, key: &str) -> (r: Option<&Vec<String>>)
        requires
            self.wf(),
        ensures
            match r {
                Some(v) => self.view().contains_key(key@) && views(v@) == self.view()[key@],
                None => !self.view().contains_key(key@),
            },
    {
        match self.slots.get(key) {
            Some(slot) => Some(&self.ids[*slot]),
            None => None,
        }
    }

    /// The names the index holds, each once.
    pub fn names(&self) -> (r: &Vec<String>)
        requires
            self.wf(),
        ensures
            forall|i: int| 0 <= i < r@.len() ==> self.view().contains_key(#[trigger] r@[i]@),
            forall|s: Seq<char>|
                self.view().contains_key(s) ==> exists|i: int| 0 <= i < r@.len() && (#[trigger] r@[i])@ == s,
            forall|i: int, j: int| 0 <= i < j < r@.len() ==> (#[trigger] r@[i])@ != (#[trigger] r@[j])@,
    {
        proof {
            assert forall|i: int, j: int| 0 <= i < j < self.keys@.len() implies (
            #[trigger] self.keys@[i])@ != (#[trigger] self.keys@[j])@ by {
                assert(self.slots@[self.keys@[i]@] == i);
                assert(self.slots@[self.keys@[j]@] == j);
            }
            assert forall|s: Seq<char>| self.view().contains_key(s) implies exists|i: int|
                0 <= i < self.keys@.len() && (#[trigger] self.keys@[i])@ == s by {
                assert(self.slots@.contains_key(s));
                let i = self.slots@[s] as int;
                assert(self.keys@[i]@ == s);
            }
        }
        &self.keys
    }

    /// Appends `id` to the list of `key`.
    pub fn push(&mut self, key: &str, id: &str)
        requires
            old(self).wf(),
        ensures
            final(self).wf(),
            final(self).view() == push_one(old(self).view(), key@, id@),
    {
        let ghost old_view = self.view();
        let new_id = id.to_owned();
        match self.slots.get(key) {
            Some(slot) => {
                let p = *slot;
                self.ids[p].push(new_id);
                proof {
                    assert(views(self.ids@[p as int]@) == views(old(self).ids@[p as int]@).push(id@));
                    assert(self.view() =~= push_one(old_view, key@, id@)) by {
                        assert forall|s: Seq<char>| #[trigger] self.view().contains_key(s) implies self.view()[s]
                            == push_one(old_view, key@, id@)[s] by {
                            if s != key@ {
                                assert(self.slots@[s] != p);
                            }
                        }
                    }
                }
            },
            None => {
                let p = self.keys.len();
                let k = key.to_owned();
                self.keys.push(k);
                let mut list: Vec<String> = Vec::new();
                list.push(new_id);
                self.ids.push(list);
                self.slots.insert(key.to_owned(), p);
                proof {
                    assert(views(self.ids@[p as int]@) == seq![id@]);
                    assert forall|i: int| 0 <= i < self.keys@.len() implies self.slots@.contains_key(
                        #[trigger] self.keys@[i]@,
                    ) && self.slots@[self.keys@[i]@] == i by {
                        if i < p {
                            assert(old(self).slots@.contains_key(old(self).keys@[i]@));
                            assert(old(self).keys@[i]@ != key@);
                        }
                    }
                    assert(self.view() =~= push_one(old_view, key@, id@)) by {
                        assert forall|s: Seq<char>| #[trigger] self.view().contains_key(s) implies self.view()[s]
                            == push_one(old_view, key@, id@)[s] by {
                            if s != key@ {
                                assert(self.ids@[self.slots@[s] as int] == old(self).ids@[old(
                                    self,
                                ).slots@[s] as int]);
                            } else {
                                assert(Seq::<Seq<char>>::empty().push(id@) == seq![id@]);
                            }
                        }
                    }
                }
            },
        }
    }
}

/// The character views of the id lists of an association list.
pub open spec fn pair_views<K>(t: Seq<(K, Vec<String>)>) -> Seq<(K, Seq<Seq<char>>)> {
    t.map_values(|e: (K, Vec<String>)| (e.0, views(e.1@)))
}

/// Index of the first entry at or after `i` whose key is `k`, or the length.
pub open spec fn first_key_index<K, V>(t: Seq<(K, V)>, k: K, i: int) -> int
    decreases t.len() - i,
{
    if i < 0 || i >= t.len() {
        t.len() as int
    } else if t[i].0 == k {
        i
    } else {
        first_key_index(t, k, i + 1)
    }
}

/// Appends `id` to the entry of `k`, or adds an entry `(k, [id])` at the end.
pub open spec fn push_keyed<K>(t: Seq<(K, Seq<Seq<char>>)>, k: K, id: Seq<char>) -> Seq<
    (K, Seq<Seq<char>>),
> {
    let p = first_key_index(t, k, 0);
    if p < t.len() {
        t.update(p, (k, t[p].1.push(id)))
    } else {
        t.push((k, seq![id]))
    }
}

/// `push_keyed` for each key of `keys`, in order.
pub open spec fn push_all_keyed<K>(t: Seq<(K, Seq<Seq<char>>)>, keys: Seq<K>, id: Seq<char>) -> Seq<
    (K, Seq<Seq<char>>),
>
    decreases keys.len(),
{
    if keys.len() == 0 {
        t
    } else {
        push_keyed(push_all_keyed(t, keys.drop_last(), id), keys.last(), id)
    }
}

proof fn lemma_first_key_index<K, V>(t: Seq<(K, V)>, k: K, i: int)
    requires
        0 <= i <= t.len(),
    ensures
        i <= first_key_index(t, k, i) <= t.len(),
        first_key_index(t, k, i) < t.len() ==> t[first_key_index(t, k, i)].0 == k,
    decreases t.len() - i,
{
    if i < t.len() && t[i].0 != k {
        lemma_first_key_index(t, k, i + 1);
    }
}

/// Appends `id` to the ids of warning `w`.
pub fn push_warning_id(t: &mut Vec<(Warning, Vec<String>)>, w: Warning, id: &str)
    ensures
        pair_views(final(t)@) == push_keyed(pair_views(old(t)@), w, id@),
{
    let ghost t0 = t@;
    let mut p: usize = 0;
    while p < t.len() && t[p].0 != w
        invariant
            t@ == t0,
            p <= t0.len(),
            first_key_index(t0, w, p as int) == first_key_index(t0, w, 0),
        decreases t0.len() - p,
    {
        p = p + 1;
    }
    proof {
        lemma_first_key_index_views(t0, w, 0);
        lemma_first_key_index(t0, w, 0);
    }
    if p < t.len() {
        let owned = id.to_owned();
        t[p].1.push(owned);
        proof {
            let pv = pair_views(t0);
            assert(views(t@[p as int].1@) =~= views(t0[p as int].1@).push(id@));
            assert forall|i: int| 0 <= i < t@.len() implies #[trigger] pair_views(t@)[i] == push_keyed(
                pv,
                w,
                id@,
            )[i] by {
                if i != p {
                    assert(t@[i] == t0[i]);
                }
            }
            assert(pair_views(t@) =~= push_keyed(pv, w, id@));
        }
    } else {
        let mut list: Vec<String> = Vec::new();
        list.push(id.to_owned());
        t.push((w, list));
        proof {
            let pv = pair_views(t0);
            assert(views(t@[p as int].1@) =~= seq![id@]);
            assert forall|i: int| 0 <= i < t@.len() implies #[trigger] pair_views(t@)[i] == push_keyed(
                pv,
                w,
                id@,
            )[i] by {
                if i < p {
                    assert(t@[i] == t0[i]);
                }
            }
            assert(pair_views(t@) =~= push_keyed(pv, w, id@));
        }
    }
}

/// Appends `id` to the ids of category `c`.
pub fn push_category_id(t: &mut Vec<(Category, Vec<String>)>, c: Category, id: &str)
    ensures
        pair_views(final(t)@) == push_keyed(pair_views(old(t)@), c, id@),
{
    let ghost t0 = t@;
    let mut p: usize = 0;
    while p < t.len() && t[p].0 != c
        invariant
            t@ == t0,
            p <= t0.len(),
            first_key_index(t0, c, p as int) == first_key_index(t0, c, 0),
        decreases t0.len() - p,
    {
        p = p + 1;
    }
    proof {
        lemma_first_key_index_views(t0, c, 0);
        lemma_first_key_index(t0, c, 0);
    }
    if p < t.len() {
        let owned = id.to_owned();
        t[p].1.push(owned);
        proof {
            let pv = pair_views(t0);
            assert(views(t@[p as int].1@) =~= views(t0[p as int].1@).push(id@));
            assert forall|i: int| 0 <= i < t@.len() implies #[trigger] pair_views(t@)[i] == push_keyed(
                pv,
                c,
                id@,
            )[i] by {
                if i != p {
                    assert(t@[i] == t0[i]);
                }
            }
            assert(pair_views(t@) =~= push_keyed(pv, c, id@));
        }
    } else {
        let mut list: Vec<String> = Vec::new();
        list.push(id.to_owned());
        t.push((c, list));
        proof {
            let pv = pair_views(t0);
            assert(views(t@[p as int].1@) =~= seq![id@]);
            assert forall|i: int| 0 <= i < t@.len() implies #[trigger] pair_views(t@)[i] == push_keyed(
                pv,
                c,
                id@,
            )[i] by {
                if i < p {
                    assert(t@[i] == t0[i]);
                }
            }
            assert(pair_views(t@) =~= push_keyed(pv, c, id@));
        }
    }
}

proof fn lemma_first_key_index_views<K>(t: Seq<(K, Vec<String>)>, k: K, i: int)
    requires
        0 <= i <= t.len(),
    ensures
        first_key_index(pair_views(t), k, i) == first_key_index(t, k, i),
    decreases t.len() - i,
{
    if i < t.len() {
        lemma_first_key_index_views(t, k, i + 1);
    }
}

/// Adds `id` under each of `names`.
fn push_names(index: &mut IdIndex, names: &Vec<String>, id: &str)
    requires
        old(index).wf(),
    ensures
        final(index).wf(),
        final(index).view() == push_all(old(index).view(), views(names@), id@),
{
    let ghost start = index.view();
    let mut j: usize = 0;
    while j < names.len()
        invariant
            j <= names@.len(),
            index.wf(),
            index.view() == push_all(start, views(names@).take(j as int), id@),
        decreases names@.len() - j,
    {
        assert(views(names@).take(j + 1).drop_last() == views(names@).take(j as int));
        index.push(names[j].as_str(), id);
        j = j + 1;
    }
    assert(views(names@).take(j as int) == views(names@));
}

/// Adds `id` under each of `ws`.
fn push_warnings(t: &mut Vec<(Warning, Vec<String>)>, ws: &Vec<Warning>, id: &str)
    ensures
        pair_views(final(t)@) == push_all_keyed(pair_views(old(t)@), ws@, id@),
{
    let ghost start = pair_views(t@);
    let mut j: usize = 0;
    while j < ws.len()
        invariant
            j <= ws@.len(),
            pair_views(t@) == push_all_keyed(start, ws@.take(j as int), id@),
        decreases ws@.len() - j,
    {
        assert(ws@.take(j + 1).drop_last() == ws@.take(j as int));
        push_warning_id(t, ws[j], id);
        j = j + 1;
    }
    assert(ws@.take(j as int) == ws@);
}

/// Adds `id` under each of `cs`.
fn push_categories(t: &mut Vec<(Category, Vec<String>)>, cs: &Vec<Category>, id: &str)
    ensures
        pair_views(final(t)@) == push_all_keyed(pair_views(old(t)@), cs@, id@),
{
    let ghost start = pair_views(t@);
    let mut j: usize = 0;
    while j < cs.len()
        invariant
            j <= cs@.len(),
            pair_views(t@) == push_all_keyed(start, cs@.take(j as int), id@),
        decreases cs@.len() - j,
    {
        assert(cs@.take(j + 1).drop_last() == cs@.take(j as int));
        push_category_id(t, cs[j], id);
        j = j + 1;
    }
    assert(cs@.take(j as int) == cs@);
}

/// Lookup tables from the names a listing carries to listing ids, for fast
/// filtering by tag, fandom, archetype, author, series, warning or category.
pub struct ListingIndex {
    pub tags: IdIndex,
    pub fandoms: IdIndex,
    pub archetypes: IdIndex,
    pub authors: IdIndex,
    pub series: IdIndex,
    /// Warnings with the ids carrying them, each warning once, in the order
    /// first seen.
    pub warnings: Vec<(Warning, Vec<String>)>,
    /// Categories with the ids carrying them, each category once, in the
    /// order first seen.
    pub category: Vec<(Category, Vec<String>)>,
}

/// The state of an index after adding one listing to it.
pub open spec fn added(new: ListingIndex, old: ListingIndex, l: Listing) -> bool {
    &&& new.wf()
    &&& new.tags.view() == push_all(old.tags.view(), views(l.tags@), l.id@)
    &&& new.fandoms.view() == push_all(old.fandoms.view(), views(l.fandoms@), l.id@)
    &&& new.archetypes.view() == push_all(old.archetypes.view(), views(l.archetypes@), l.id@)
    &&& new.authors.view() == push_all(old.authors.view(), views(l.authors@), l.id@)
    &&& new.series.view() == push_all(old.series.view(), views(l.series@), l.id@)
    &&& pair_views(new.warnings@) == push_all_keyed(pair_views(old.warnings@), l.warnings@, l.id@)
    &&& pair_views(new.category@) == push_all_keyed(pair_views(old.category@), l.category@, l.id@)
}

impl ListingIndex {
    /// Each name index is well formed.
    pub open spec fn wf(&self) -> bool {
        &&& self.tags.wf()
        &&& self.fandoms.wf()
        &&& self.archetypes.wf()
        &&& self.authors.wf()
        &&& self.series.wf()
    }

    /// An empty index.
    pub fn new() -> (r: ListingIndex)
        ensures
            r.wf(),
            r.tags.view() == Map::<Seq<char>, Seq<Seq<char>>>::empty(),
            r.fandoms.view() == Map::<Seq<char>, Seq<Seq<char>>>::empty(),
            r.archetypes.view() == Map::<Seq<char>, Seq<Seq<char>>>::empty(),
            r.authors.view() == Map::<Seq<char>, Seq<Seq<char>>>::empty(),
            r.series.view() == Map::<Seq<char>, Seq<Seq<char>>>::empty(),
            r.warnings@.len() == 0,
            r.category@.len() == 0,
    {
        ListingIndex {
            tags: IdIndex::new(),
            fandoms: IdIndex::new(),
            archetypes: IdIndex::new(),
            authors: IdIndex::new(),
            series: IdIndex::new(),
            warnings: Vec::new(),
            category: Vec::new(),
        }
    }

    /// Appends `id` to the list of `key` in `map`.
    pub fn insert_str(map: &mut IdIndex, key: &str, id: &str)
        requires
            old(map).wf(),
        ensures
            final(map).wf(),
            final(map).view() == push_one(old(map).view(), key@, id@),
    {
        map.push(key, id);
    }

    /// Adds a listing: its id goes under each of its tags, fandoms,
    /// archetypes, authors, series, warnings and categories.
    pub fn add(&mut self, listing: &Listing)
        requires
            old(self).wf(),
        ensures
            added(*final(self), *old(self), *listing),
    {
        let id = listing.id.as_str();
        push_names(&mut self.tags, &listing.tags, id);
        push_names(&mut self.fandoms, &listing.fandoms, id);
        push_names(&mut self.archetypes, &listing.archetypes, id);
        push_names(&mut self.authors, &listing.authors, id);
        push_names(&mut self.series, &listing.series, id);
        push_warnings(&mut self.warnings, &listing.warnings, id);
        push_categories(&mut self.category, &listing.category, id);
    }
}

/// A list of names that the index files listing ids under.
#[derive(Debug, Clone, Copy, PartialEq, Eq, Structural)]
pub enum IndexField {
    Tags,
    Fandoms,
    Archetypes,
    Authors,
    Series,
}

/// The names a listing is indexed under in field `f`.
pub open spec fn names_of(l: Listing, f: IndexField) -> Seq<Seq<char>> {
    views(
        match f {
            IndexField::Tags => l.tags,
            IndexField::Fandoms => l.fandoms,
            IndexField::Archetypes => l.archetypes,
            IndexField::Authors => l.authors,
            IndexField::Series => l.series,
        }@,
    )
}

/// The map of field `f` after adding `ls` in order to an empty index.
pub open spec fn name_index_of(ls: Seq<Listing>, f: IndexField) -> Map<Seq<char>, Seq<Seq<char>>>
    decreases ls.len(),
{
    if ls.len() == 0 {
        Map::empty()
    } else {
        push_all(name_index_of(ls.drop_last(), f), names_of(ls.last(), f), ls.last().id@)
    }
}

/// The warning lists after adding `ls` in order to an empty index.
pub open spec fn warning_index_of(ls: Seq<Listing>) -> Seq<(Warning, Seq<Seq<char>>)>
    decreases ls.len(),
{
    if ls.len() == 0 {
        Seq::empty()
    } else {
        push_all_keyed(warning_index_of(ls.drop_last()), ls.last().warnings@, ls.last().id@)
    }
}

/// The category lists after adding `ls` in order to an empty index.
pub open spec fn category_index_of(ls: Seq<Listing>) -> Seq<(Category, Seq<Seq<char>>)>
    decreases ls.len(),
{
    if ls.len() == 0 {
        Seq::empty()
    } else {
        push_all_keyed(category_index_of(ls.drop_last()), ls.last().category@, ls.last().id@)
    }
}

/// `ix` is the index of the listings `ls`.
pub open spec fn indexes(ix: ListingIndex, ls: Seq<Listing>) -> bool {
    &&& ix.wf()
    &&& ix.tags.view() == name_index_of(ls, IndexField::Tags)
    &&& ix.fandoms.view() == name_index_of(ls, IndexField::Fandoms)
    &&& ix.archetypes.view() == name_index_of(ls, IndexField::Archetypes)
    &&& ix.authors.view() == name_index_of(ls, IndexField::Authors)
    &&& ix.series.view() == name_index_of(ls, IndexField::Series)
    &&& pair_views(ix.warnings@) == warning_index_of(ls)
    &&& pair_views(ix.category@) == category_index_of(ls)
}

/// The index of a list of listings, built by adding them in order.
pub fn build_index(listings: &Vec<Listing>) -> (r: ListingIndex)
    ensures
        indexes(r, listings@),
{
    let mut ix = ListingIndex::new();
    assert(pair_views(ix.warnings@) =~= Seq::<(Warning, Seq<Seq<char>>)>::empty());
    assert(pair_views(ix.category@) =~= Seq::<(Category, Seq<Seq<char>>)>::empty());
    let mut i: usize = 0;
    while i < listings.len()
        invariant
            i <= listings@.len(),
            indexes(ix, listings@.take(i as int)),
        decreases listings@.len() - i,
    {
        assert(listings@.take(i + 1).drop_last() == listings@.take(i as int));
        assert(listings@.take(i + 1).last() == listings@[i as int]);
        ix.add(&listings[i]);
        i = i + 1;
    }
    assert(listings@.take(i as int) == listings@);
    ix
}

/// The ids listed under `k` in `m` (none when `k` is absent).
pub open spec fn lookup(m: Map<Seq<char>, Seq<Seq<char>>>, k: Seq<char>) -> Seq<Seq<char>> {
    if m.contains_key(k) {
        m[k]
    } else {
        Seq::empty()
    }
}

/// `id`, `n` times.
pub open spec fn repeat_id(id: Seq<char>, n: nat) -> Seq<Seq<char>> {
    Seq::new(n, |i: int| id)
}

/// How often `k` occurs in `names`.
pub open spec fn count_name(names: Seq<Seq<char>>, k: Seq<char>) -> nat
    decreases names.len(),
{
    if names.len() == 0 {
        0
    } else {
        count_name(names.drop_last(), k) + if names.last() == k {
            1nat
        } else {
            0nat
        }
    }
}

/// The ids of the listings whose field `f` carries `k`, in listing order, an
/// id repeated as often as its listing carries `k`.
pub open spec fn ids_carrying(ls: Seq<Listing>, f: IndexField, k: Seq<char>) -> Seq<Seq<char>>
    decreases ls.len(),
{
    if ls.len() == 0 {
        Seq::empty()
    } else {
        ids_carrying(ls.drop_last(), f, k) + repeat_id(
            ls.last().id@,
            count_name(names_of(ls.last(), f), k),
        )
    }
}

proof fn lemma_push_all_lookup(
    m: Map<Seq<char>, Seq<Seq<char>>>,
    keys: Seq<Seq<char>>,
    id: Seq<char>,
    k: Seq<char>,
)
    ensures
        lookup(push_all(m, keys, id), k) == lookup(m, k) + repeat_id(id, count_name(keys, k)),
    decreases keys.len(),
{
    if keys.len() == 0 {
        assert(lookup(m, k) + repeat_id(id, 0) =~= lookup(m, k));
    } else {
        lemma_push_all_lookup(m, keys.drop_last(), id, k);
        let n = count_name(keys.drop_last(), k);
        if keys.last() == k {
            assert(repeat_id(id, n + 1) =~= repeat_id(id, n).push(id));
            assert(lookup(m, k) + repeat_id(id, n + 1) =~= (lookup(m, k) + repeat_id(id, n)).push(
                id,
            ));
        }
    }
}

/// Under each name, the index built from a list of listings holds exactly
/// the ids of the listings that carry that name, in listing order.
pub proof fn lemma_index_lists_carriers(ls: Seq<Listing>, f: IndexField, k: Seq<char>)
    ensures
        lookup(name_index_of(ls, f), k) == ids_carrying(ls, f, k),
    decreases ls.len(),
{
    if ls.len() > 0 {
        lemma_index_lists_carriers(ls.drop_last(), f, k);
        lemma_push_all_lookup(
            name_index_of(ls.drop_last(), f),
            names_of(ls.last(), f),
            ls.last().id@,
            k,
        );
    }
}

/// `k` occurs in `names` exactly when it is counted there.
proof fn lemma_count_name_positive(names: Seq<Seq<char>>, k: Seq<char>)
    ensures
        (count_name(names, k) > 0) == names.contains(k),
    decreases names.len(),
{
    if names.len() > 0 {
        lemma_count_name_positive(names.drop_last(), k);
        if names.drop_last().contains(k) {
            let i = choose|i: int| 0 <= i < names.drop_last().len() && names.drop_last()[i] == k;
            assert(names[i] == k);
        }
        if names.contains(k) && names.last() != k {
            let i = choose|i: int| 0 <= i < names.len() && names[i] == k;
            assert(names.drop_last()[i] == k);
        }
        if names.last() == k {
            assert(names[names.len() - 1] == k);
        }
    }
}

/// An id is among the carriers of `k` exactly when some listing with that
/// id carries `k` in field `f`.
proof fn lemma_carriers_membership(ls: Seq<Listing>, f: IndexField, k: Seq<char>, id: Seq<char>)
    ensures
        ids_carrying(ls, f, k).contains(id) == exists|i: int|
            0 <= i < ls.len() && (#[trigger] ls[i]).id@ == id && names_of(ls[i], f).contains(k),
    decreases ls.len(),
{
    if ls.len() > 0 {
        let init = ls.drop_last();
        let l = ls.last();
        lemma_carriers_membership(init, f, k, id);
        lemma_count_name_positive(names_of(l, f), k);
        let rest = ids_carrying(init, f, k);
        let rep = repeat_id(l.id@, count_name(names_of(l, f), k));
        assert(ids_carrying(ls, f, k) == rest + rep);
        if (rest + rep).contains(id) {
            let p = choose|p: int| 0 <= p < (rest + rep).len() && (rest + rep)[p] == id;
            if p < rest.len() {
                assert(rest[p] == id);
                let i = choose|i: int|
                    0 <= i < init.len() && (#[trigger] init[i]).id@ == id && names_of(init[i], f).contains(k);
                assert(ls[i] == init[i]);
            } else {
                assert(rep[p - rest.len()] == id);
                assert(ls[ls.len() - 1] == l);
            }
        }
        if exists|i: int| 0 <= i < ls.len() && (#[trigger] ls[i]).id@ == id && names_of(ls[i], f).contains(k) {
            let i = choose|i: int| 0 <= i < ls.len() && (#[trigger] ls[i]).id@ == id && names_of(ls[i], f).contains(k);
            if i < init.len() {
                assert(init[i] == ls[i]);
                let p = choose|p: int| 0 <= p < rest.len() && rest[p] == id;
                assert((rest + rep)[p] == id);
            } else {
                assert(ls[i] == l);
                assert(rep[0] == id);
                assert((rest + rep)[rest.len() as int] == id);
            }
        }
    }
}

/// The ids of the listings that carry `k` in field `f`, as the index lists them.
proof fn lemma_field_membership(ix_map: Map<Seq<char>, Seq<Seq<char>>>, ls: Seq<Listing>, f: IndexField, k: Seq<char>)
    requires
        ix_map == name_index_of(ls, f),
    ensures
        forall|id: Seq<char>|
            lookup(ix_map, k).contains(id) == exists|i: int|
                0 <= i < ls.len() && (#[trigger] ls[i]).id@ == id && names_of(ls[i], f).contains(k),
{
    lemma_index_lists_carriers(ls, f, k);
    assert forall|id: Seq<char>|
        lookup(ix_map, k).contains(id) == exists|i: int|
            0 <= i < ls.len() && (#[trigger] ls[i]).id@ == id && names_of(ls[i], f).contains(k) by {
        lemma_carriers_membership(ls, f, k, id);
    }
}

/// Each index of a list of listings files a listing's id under exactly the
/// names of its own field: under `k`, the tags index lists the ids of the
/// listings whose `tags` hold `k`, and likewise fandoms, archetypes, authors
/// and series, each against that same field of the listing.
pub proof fn lemma_index_fields_hold_carriers(ix: ListingIndex, ls: Seq<Listing>, k: Seq<char>, id: Seq<char>)
    requires
        indexes(ix, ls),
    ensures
        lookup(ix.tags.view(), k).contains(id) == exists|i: int|
            0 <= i < ls.len() && (#[trigger] ls[i]).id@ == id && views(ls[i].tags@).contains(k),
        lookup(ix.fandoms.view(), k).contains(id) == exists|i: int|
            0 <= i < ls.len() && (#[trigger] ls[i]).id@ == id && views(ls[i].fandoms@).contains(k),
        lookup(ix.archetypes.view(), k).contains(id) == exists|i: int|
            0 <= i < ls.len() && (#[trigger] ls[i]).id@ == id && views(ls[i].archetypes@).contains(k),
        lookup(ix.authors.view(), k).contains(id) == exists|i: int|
            0 <= i < ls.len() && (#[trigger] ls[i]).id@ == id && views(ls[i].authors@).contains(k),
        lookup(ix.series.view(), k).contains(id) == exists|i: int|
            0 <= i < ls.len() && (#[trigger] ls[i]).id@ == id && views(ls[i].series@).contains(k),
{
    lemma_field_membership(ix.tags.view(), ls, IndexField::Tags, k);
    lemma_field_membership(ix.fandoms.view(), ls, IndexField::Fandoms, k);
    lemma_field_membership(ix.archetypes.view(), ls, IndexField::Archetypes, k);
    lemma_field_membership(ix.authors.view(), ls, IndexField::Authors, k);
    lemma_field_membership(ix.series.view(), ls, IndexField::Series, k);
}

} // verus!
