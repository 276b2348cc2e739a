//! The item catalog: items keyed by id, and the category index with its clamp flags.
use vstd::prelude::*;
use crate::points::{points_for, score, valid_rate};
use crate::table::{ItemView, CollectionLogItem};
use crate::text::{contains_seq, contains_str};

verus! {

/// A stored item.
pub struct ItemRecord {
    pub item_id: u64,
    pub item_name: String,
    pub preferred_name: String,
    /// Completion rate in thousandths of a percent.
    pub rate: u32,
    pub categories: Vec<String>,
    /// Exempts the item from any category clamp.
    pub whitelist: bool,
}

/// A stored item without its id, as mathematical values.
pub struct RecordView {
    pub item_name: Seq<char>,
    pub preferred_name: Seq<char>,
    pub rate: int,
    pub categories: Seq<Seq<char>>,
    pub whitelist: bool,
}

impl View for ItemRecord {
    type V = RecordView;

    open spec fn view(&self) -> RecordView {
        RecordView {
            item_name: self.item_name@,
            preferred_name: self.preferred_name@,
            rate: self.rate as int,
            categories: self.categories@.map_values(|c: String| c@),
            whitelist: self.whitelist,
        }
    }
}

/// How many names a suggestion lists at most.
pub const SUGGESTION_LIMIT: usize = 25;

/// What `str::to_lowercase` makes of a text.
pub uninterp spec fn lower_of(s: Seq<char>) -> Seq<char>;

/// Relies on `str::to_lowercase`: the result depends on the text alone.
#[verifier::external_body]
fn lowercase(s: &str) -> (r: String)
    ensures
        r@ == lower_of(s@),
{
    s.to_lowercase()
}

/// `name` holds `partial`, ignoring case.
pub open spec fn suggests(partial: Seq<char>, name: Seq<char>) -> bool {
    contains_seq(lower_of(name), lower_of(partial))
}

/// Some item is named `name`, and `name` holds `partial`, ignoring case.
pub open spec fn name_suggested(m: Map<int, RecordView>, partial: Seq<char>, name: Seq<char>) -> bool {
    exists|k: int| m.contains_key(k) && #[trigger] m[k].item_name == name && suggests(partial, name)
}

pub open spec fn listed_suggested(v: Seq<ItemRecord>, partial: Seq<char>, name: Seq<char>) -> bool {
    exists|a: int| 0 <= a < v.len() && (#[trigger] v[a]).item_name@ == name && suggests(partial, name)
}

/// Whether `s` is among `v`.
fn holds_string(v: &Vec<String>, s: &String) -> (r: bool)
    ensures
        r == exists|x: int| 0 <= x < v@.len() && (#[trigger] v@[x])@ == s@,
{
    let mut i: usize = 0;
    while i < v.len()
        invariant
            i <= v@.len(),
            forall|x: int| 0 <= x < i ==> (#[trigger] v@[x])@ != s@,
        decreases v@.len() - i,
    {
        if v[i] == *s {
            return true;
        }
        i = i + 1;
    }
    false
}

/// No two entries of the list are equal.
pub open spec fn distinct_strings(v: Seq<String>) -> bool {
    forall|x: int, y: int| 0 <= x < y < v.len() ==> v[x]@ != v[y]@
}

/// What scoring and reconciliation read of an item.
pub struct ItemDetail {
    pub item_id: u64,
    /// Completion rate in thousandths of a percent.
    pub rate: u32,
    pub whitelist: bool,
    /// One of the item's categories is clamped.
    pub clamped: bool,
    /// The points the item is worth now.
    pub points: i64,
}

/// An entry of the category index.
pub struct CategoryEntry {
    pub category: String,
    /// Caps the items of this category at the clamp ceiling.
    pub clamp: bool,
}

/// The items of a list, keyed by id (a later entry wins).
pub open spec fn items_view(v: Seq<ItemRecord>) -> Map<int, RecordView>
    decreases v.len(),
{
    if v.len() == 0 {
        Map::empty()
    } else {
        items_view(v.drop_last()).insert(v.last().item_id as int, v.last()@)
    }
}

/// The category index of a list, category to clamp flag (a later entry wins).
pub open spec fn categories_view(v: Seq<CategoryEntry>) -> Map<Seq<char>, bool>
    decreases v.len(),
{
    if v.len() == 0 {
        Map::empty()
    } else {
        categories_view(v.drop_last()).insert(v.last().category@, v.last().clamp)
    }
}

pub open spec fn unique_ids(v: Seq<ItemRecord>) -> bool {
    forall|i: int, j: int|
        0 <= i < v.len() && 0 <= j < v.len() && i != j ==> #[trigger] v[i].item_id
            != #[trigger] v[j].item_id
}

pub open spec fn unique_categories(v: Seq<CategoryEntry>) -> bool {
    forall|i: int, j: int|
        0 <= i < v.len() && 0 <= j < v.len() && i != j ==> #[trigger] v[i].category@
            != #[trigger] v[j].category@
}

/// What an item becomes when a record of the table is stored over it (or
/// into an empty place): the record's fields, and the whitelist flag kept.
pub open spec fn stored(old: Option<RecordView>, item: ItemView) -> RecordView {
    RecordView {
        item_name: item.item_name,
        preferred_name: item.preferred_name,
        rate: item.rate,
        categories: item.categories,
        whitelist: match old {
            Some(r) => r.whitelist,
            None => false,
        },
    }
}

/// Inserts or updates one item, keyed by id.
pub open spec fn upsert_one(m: Map<int, RecordView>, item: ItemView) -> Map<int, RecordView> {
    m.insert(
        item.item_id,
        stored(
            if m.contains_key(item.item_id) {
                Some(m[item.item_id])
            } else {
                None
            },
            item,
        ),
    )
}

/// Inserts or updates each item in turn.
pub open spec fn upsert_all(m: Map<int, RecordView>, items: Seq<ItemView>) -> Map<int, RecordView>
    decreases items.len(),
{
    if items.len() == 0 {
        m
    } else {
        upsert_one(upsert_all(m, items.drop_last()), items.last())
    }
}

pub proof fn lemma_items_view_index(v: Seq<ItemRecord>, i: int)
    requires
        unique_ids(v),
        0 <= i < v.len(),
    ensures
        items_view(v).contains_key(v[i].item_id as int),
        items_view(v)[v[i].item_id as int] == v[i]@,
    decreases v.len(),
{
    if i < v.len() - 1 {
        lemma_items_view_index(v.drop_last(), i);
    }
}

pub proof fn lemma_items_view_dom(v: Seq<ItemRecord>, k: int)
    ensures
        items_view(v).contains_key(k) <==> exists|i: int|
            0 <= i < v.len() && #[trigger] v[i].item_id as int == k,
    decreases v.len(),
{
    if v.len() > 0 {
        lemma_items_view_dom(v.drop_last(), k);
        if items_view(v.drop_last()).contains_key(k) {
            let i = choose|i: int| 0 <= i < v.len() - 1 && #[trigger] v.drop_last()[i].item_id as int == k;
            assert(v[i].item_id as int == k);
        }
        if exists|i: int| 0 <= i < v.len() && #[trigger] v[i].item_id as int == k {
            let i = choose|i: int| 0 <= i < v.len() && #[trigger] v[i].item_id as int == k;
            if i < v.len() - 1 {
                assert(v.drop_last()[i].item_id as int == k);
            }
        }
    }
}

proof fn lemma_items_view_update(v: Seq<ItemRecord>, i: int, x: ItemRecord)
    requires
        unique_ids(v),
        0 <= i < v.len(),
        x.item_id == v[i].item_id,
    ensures
        items_view(v.update(i, x)) == items_view(v).insert(x.item_id as int, x@),
    decreases v.len(),
{
    let w = v.update(i, x);
    if i == v.len() - 1 {
        assert(w.drop_last() =~= v.drop_last());
        assert(!items_view(v.drop_last()).contains_key(x.item_id as int)) by {
            lemma_items_view_dom(v.drop_last(), x.item_id as int);
            if exists|j: int| 0 <= j < v.len() - 1 && #[trigger] v.drop_last()[j].item_id as int == x.item_id as int {
                let j = choose|j: int| 0 <= j < v.len() - 1 && #[trigger] v.drop_last()[j].item_id as int == x.item_id as int;
                assert(v[j].item_id == v[i].item_id);
            }
        }
        assert(items_view(w) =~= items_view(v).insert(x.item_id as int, x@));
    } else {
        assert(w.drop_last() =~= v.drop_last().update(i, x));
        lemma_items_view_update(v.drop_last(), i, x);
        assert(v.last().item_id != x.item_id);
        assert(items_view(w) =~= items_view(v).insert(x.item_id as int, x@));
    }
}

/// The last item of the list with id `k`, if any.
pub open spec fn last_with(items: Seq<ItemView>, k: int) -> Option<ItemView>
    decreases items.len(),
{
    if items.len() == 0 {
        None
    } else if items.last().item_id == k {
        Some(items.last())
    } else {
        last_with(items.drop_last(), k)
    }
}

/// `upsert_all` in closed form: each id of the list takes its last record.
pub open spec fn upserted(m: Map<int, RecordView>, items: Seq<ItemView>) -> Map<int, RecordView> {
    Map::new(
        |k: int| m.contains_key(k) || last_with(items, k) is Some,
        |k: int|
            match last_with(items, k) {
                Some(item) => stored(
                    if m.contains_key(k) {
                        Some(m[k])
                    } else {
                        None
                    },
                    item,
                ),
                None => m[k],
            },
    )
}

proof fn lemma_last_with_id(items: Seq<ItemView>, k: int)
    ensures
        last_with(items, k) is Some ==> last_with(items, k)->0.item_id == k,
    decreases items.len(),
{
    if items.len() > 0 {
        lemma_last_with_id(items.drop_last(), k);
    }
}

pub proof fn lemma_upsert_all_closed(m: Map<int, RecordView>, items: Seq<ItemView>)
    ensures
        upsert_all(m, items) == upserted(m, items),
    decreases items.len(),
{
    if items.len() == 0 {
        assert(upsert_all(m, items) =~= upserted(m, items));
    } else {
        let before = items.drop_last();
        lemma_upsert_all_closed(m, before);
        let r = items.last();
        assert forall|k: int| #[trigger] last_with(items, k) == (if r.item_id == k {
            Some(r)
        } else {
            last_with(before, k)
        }) by {}
        assert forall|k: int| last_with(before, k) is Some implies #[trigger] last_with(before, k)->0.item_id == k by {
            lemma_last_with_id(before, k);
        }
        assert(upsert_all(m, items) =~= upserted(m, items));
    }
}

/// Storing the same records a second time changes nothing.
pub proof fn lemma_upsert_idempotent(m: Map<int, RecordView>, items: Seq<ItemView>)
    ensures
        upsert_all(upsert_all(m, items), items) == upsert_all(m, items),
{
    lemma_upsert_all_closed(m, items);
    lemma_upsert_all_closed(upsert_all(m, items), items);
    assert(upserted(upserted(m, items), items) =~= upserted(m, items));
}

/// Every category that some item lists.
pub open spec fn tokens(m: Map<int, RecordView>) -> Set<Seq<char>> {
    Set::new(|c: Seq<char>| exists|k: int| m.contains_key(k) && #[trigger] m[k].categories.contains(c))
}

/// The index with each category of `s` added, unclamped, where it is absent;
/// the flags already there are kept.
pub open spec fn with_categories(cats: Map<Seq<char>, bool>, s: Set<Seq<char>>) -> Map<Seq<char>, bool> {
    Map::new(
        |c: Seq<char>| cats.contains_key(c) || s.contains(c),
        |c: Seq<char>|
            if cats.contains_key(c) {
                cats[c]
            } else {
                false
            },
    )
}

/// The category index after a refresh from the items `m`.
pub open spec fn refreshed(cats: Map<Seq<char>, bool>, m: Map<int, RecordView>) -> Map<Seq<char>, bool> {
    with_categories(cats, tokens(m))
}

/// The catalog as mathematical values.
pub struct CatalogView {
    pub items: Map<int, RecordView>,
    pub categories: Map<Seq<char>, bool>,
}

/// The catalog after one ingestion of the records `items`: they are stored,
/// then the category index is refreshed.
pub open spec fn ingested(c: CatalogView, items: Seq<ItemView>) -> CatalogView {
    CatalogView {
        items: upsert_all(c.items, items),
        categories: refreshed(c.categories, upsert_all(c.items, items)),
    }
}

/// Ingesting the same records twice leaves the catalog as one ingestion did,
/// and adds no category a second time.
pub proof fn lemma_ingest_idempotent(c: CatalogView, items: Seq<ItemView>)
    ensures
        ingested(ingested(c, items), items) == ingested(c, items),
{
    lemma_upsert_idempotent(c.items, items);
    let m = upsert_all(c.items, items);
    assert(refreshed(refreshed(c.categories, m), m) =~= refreshed(c.categories, m));
}

pub proof fn lemma_categories_view_dom(v: Seq<CategoryEntry>, c: Seq<char>)
    ensures
        categories_view(v).contains_key(c) <==> exists|i: int|
            0 <= i < v.len() && #[trigger] v[i].category@ == c,
    decreases v.len(),
{
    if v.len() > 0 {
        lemma_categories_view_dom(v.drop_last(), c);
        if categories_view(v.drop_last()).contains_key(c) {
            let i = choose|i: int| 0 <= i < v.len() - 1 && #[trigger] v.drop_last()[i].category@ == c;
            assert(v[i].category@ == c);
        }
        if exists|i: int| 0 <= i < v.len() && #[trigger] v[i].category@ == c {
            let i = choose|i: int| 0 <= i < v.len() && #[trigger] v[i].category@ == c;
            if i < v.len() - 1 {
                assert(v.drop_last()[i].category@ == c);
            }
        }
    }
}

proof fn lemma_unique_categories_prefix(v: Seq<CategoryEntry>)
    requires
        unique_categories(v),
        v.len() > 0,
    ensures
        unique_categories(v.drop_last()),
{
    let w = v.drop_last();
    assert forall|i: int, j: int|
        0 <= i < w.len() && 0 <= j < w.len() && i != j implies #[trigger] w[i].category@
            != #[trigger] w[j].category@ by {
        assert(w[i] == v[i] && w[j] == v[j]);
    }
}

pub proof fn lemma_categories_view_index(v: Seq<CategoryEntry>, i: int)
    requires
        unique_categories(v),
        0 <= i < v.len(),
    ensures
        categories_view(v).contains_key(v[i].category@),
        categories_view(v)[v[i].category@] == v[i].clamp,
    decreases v.len(),
{
    if i < v.len() - 1 {
        lemma_unique_categories_prefix(v);
        assert(v.drop_last()[i] == v[i]);
        assert(v[v.len() - 1].category@ != v[i].category@);
        lemma_categories_view_index(v.drop_last(), i);
    }
}

proof fn lemma_categories_view_update(v: Seq<CategoryEntry>, i: int, x: CategoryEntry)
    requires
        unique_categories(v),
        0 <= i < v.len(),
        x.category@ == v[i].category@,
    ensures
        categories_view(v.update(i, x)) == categories_view(v).insert(x.category@, x.clamp),
    decreases v.len(),
{
    let w = v.update(i, x);
    if i == v.len() - 1 {
        assert(w.drop_last() =~= v.drop_last());
        assert(categories_view(w) =~= categories_view(v).insert(x.category@, x.clamp));
    } else {
        assert(w.drop_last() =~= v.drop_last().update(i, x));
        lemma_unique_categories_prefix(v);
        assert(v[v.len() - 1].category@ != v[i].category@);
        lemma_categories_view_update(v.drop_last(), i, x);
        assert(categories_view(w) =~= categories_view(v).insert(x.category@, x.clamp));
    }
}

/// The position of the entry for `name`, if there is one.
fn find_category(v: &Vec<CategoryEntry>, name: &String) -> (r: Option<usize>)
    ensures
        r is Some ==> r->0 < v@.len() && v@[r->0 as int].category@ == name@,
        r is None ==> forall|i: int| 0 <= i < v@.len() ==> #[trigger] v@[i].category@ != name@,
{
    let mut i: usize = 0;
    while i < v.len()
        invariant
            i <= v@.len(),
            forall|k: int| 0 <= k < i ==> #[trigger] v@[k].category@ != name@,
        decreases v@.len() - i,
    {
        if v[i].category == *name {
            return Some(i);
        }
        i = i + 1;
    }
    None
}

/// Adds `name` to the index, unclamped, where it is absent.
fn ensure_category(v: &mut Vec<CategoryEntry>, name: &String)
    requires
        unique_categories(old(v)@),
    ensures
        unique_categories(final(v)@),
        categories_view(final(v)@) == with_categories(categories_view(old(v)@), set![name@]),
{
    let ghost before = categories_view(v@);
    match find_category(v, name) {
        Some(i) => {
            proof {
                lemma_categories_view_index(v@, i as int);
                assert(before =~= with_categories(before, set![name@]));
            }
        },
        None => {
            let ghost old_v = v@;
            v.push(CategoryEntry { category: name.clone(), clamp: false });
            proof {
                assert forall|i: int, j: int|
                    0 <= i < v@.len() && 0 <= j < v@.len() && i != j implies #[trigger] v@[i].category@
                        != #[trigger] v@[j].category@ by {
                    if i < old_v.len() {
                        assert(v@[i] == old_v[i]);
                    }
                    if j < old_v.len() {
                        assert(v@[j] == old_v[j]);
                    }
                }
                assert(v@.drop_last() =~= old_v);
                lemma_categories_view_dom(old_v, name@);
                assert(categories_view(v@) =~= with_categories(before, set![name@]));
            }
        },
    }
}

/// The store of items and categories that ingestion fills and scoring reads.
pub struct CollectionLogManager {
    items: Vec<ItemRecord>,
    categories: Vec<CategoryEntry>,
}

impl View for CollectionLogManager {
    type V = CatalogView;

    closed spec fn view(&self) -> CatalogView {
        CatalogView { items: items_view(self.items@), categories: categories_view(self.categories@) }
    }
}

/// The position of the item with id `id`, if there is one.
fn find_item_id(v: &Vec<ItemRecord>, id: u64) -> (r: Option<usize>)
    ensures
        r is Some ==> r->0 < v@.len() && v@[r->0 as int].item_id == id,
        r is None ==> forall|i: int| 0 <= i < v@.len() ==> #[trigger] v@[i].item_id != id,
{
    let mut i: usize = 0;
    while i < v.len()
        invariant
            i <= v@.len(),
            forall|k: int| 0 <= k < i ==> #[trigger] v@[k].item_id != id,
        decreases v@.len() - i,
    {
        if v[i].item_id == id {
            return Some(i);
        }
        i = i + 1;
    }
    None
}

impl CollectionLogManager {
    /// Each id and each category is stored once.
    pub closed spec fn wf(&self) -> bool {
        &&& unique_ids(self.items@)
        &&& unique_categories(self.categories@)
        &&& forall|i: int| 0 <= i < self.items@.len() ==> valid_rate(#[trigger] self.items@[i].rate as int)
    }

    /// Every stored rate lies in (0%, 100%].
    pub proof fn lemma_rates_valid(&self)
        requires
            self.wf(),
        ensures
            forall|k: int| #[trigger] self@.items.contains_key(k) ==> valid_rate(self@.items[k].rate),
    {
        assert forall|k: int| #[trigger] self@.items.contains_key(k) implies valid_rate(self@.items[k].rate) by {
            lemma_items_view_dom(self.items@, k);
            let a = choose|a: int| 0 <= a < self.items@.len() && #[trigger] self.items@[a].item_id as int == k;
            lemma_items_view_index(self.items@, a);
        }
    }

    pub fn new() -> (r: CollectionLogManager)
        ensures
            r.wf(),
            r@.items == Map::<int, RecordView>::empty(),
            r@.categories == Map::<Seq<char>, bool>::empty(),
    {
        CollectionLogManager { items: Vec::new(), categories: Vec::new() }
    }

    /// Stores one record: a new id is added, not whitelisted; an id already
    /// there takes the record's fields and keeps its whitelist flag.
    pub fn upsert_item(&mut self, item: CollectionLogItem)
        requires
            old(self).wf(),
            valid_rate(item.rate as int),
        ensures
            final(self).wf(),
            final(self)@.items == upsert_one(old(self)@.items, item@),
            final(self)@.categories == old(self)@.categories,
    {
        let ghost before = self.items@;
        let id = item.item_id;
        match find_item_id(&self.items, id) {
            Some(i) => {
                let whitelist = self.items[i].whitelist;
                let rec = ItemRecord {
                    item_id: id,
                    item_name: item.item_name,
                    preferred_name: item.preferred_name,
                    rate: item.rate,
                    categories: item.categories,
                    whitelist,
                };
                let ghost rv = rec@;
                proof {
                    lemma_items_view_index(before, i as int);
                    lemma_items_view_update(before, i as int, rec);
                }
                self.items.set(i, rec);
                proof {
                    assert(self.items@ == before.update(i as int, rec));
                    assert(rv == stored(Some(items_view(before)[id as int]), item@));
                }
            },
            None => {
                let rec = ItemRecord {
                    item_id: id,
                    item_name: item.item_name,
                    preferred_name: item.preferred_name,
                    rate: item.rate,
                    categories: item.categories,
                    whitelist: false,
                };
                let ghost rv = rec@;
                self.items.push(rec);
                proof {
                    assert(self.items@.drop_last() =~= before);
                    lemma_items_view_dom(before, id as int);
                    assert(rv == stored(None, item@));
                }
            },
        }
    }

    /// Stores each record in turn, keyed by id.
    pub fn upsert_items(&mut self, items: Vec<CollectionLogItem>)
        requires
            old(self).wf(),
            forall|i: int| 0 <= i < items@.len() ==> valid_rate(#[trigger] items@[i].rate as int),
        ensures
            final(self).wf(),
            final(self)@.items == upsert_all(
                old(self)@.items,
                items@.map_values(|p: CollectionLogItem| p@),
            ),
            final(self)@.categories == old(self)@.categories,
    {
        let ghost views = items@.map_values(|p: CollectionLogItem| p@);
        let ghost start = self@.items;
        let mut src = items;
        let n = src.len();
        let mut rest: Vec<CollectionLogItem> = Vec::new();
        while src.len() > 0
            invariant
                n == views.len(),
                src@.len() + rest@.len() == n,
                forall|j: int| 0 <= j < src@.len() ==> #[trigger] src@[j]@ == views[j],
                forall|j: int| 0 <= j < src@.len() ==> valid_rate(#[trigger] src@[j].rate as int),
                forall|j: int| 0 <= j < rest@.len() ==> valid_rate(#[trigger] rest@[j].rate as int),
                forall|j: int| 0 <= j < rest@.len() ==> #[trigger] rest@[j]@ == views[n - 1 - j],
            decreases src@.len(),
        {
            let item = src.pop().unwrap();
            rest.push(item);
        }
        let mut k: usize = 0;
        assert(views.subrange(0, 0) =~= Seq::<ItemView>::empty());
        while k < n
            invariant
                self.wf(),
                n == views.len(),
                k <= n,
                rest@.len() == n - k,
                forall|j: int| 0 <= j < rest@.len() ==> valid_rate(#[trigger] rest@[j].rate as int),
                forall|j: int| 0 <= j < rest@.len() ==> #[trigger] rest@[j]@ == views[n - 1 - j],
                self@.items == upsert_all(start, views.subrange(0, k as int)),
                self@.categories == old(self)@.categories,
            decreases n - k,
        {
            let item = rest.pop().unwrap();
            proof {
                assert(item@ == views[k as int]);
                assert(views.subrange(0, k + 1).drop_last() =~= views.subrange(0, k as int));
            }
            self.upsert_item(item);
            k = k + 1;
        }
        assert(views.subrange(0, n as int) =~= views);
    }

    /// Adds each category that an item lists to the index, unclamped, where
    /// it is absent; clamp flags already set are kept.
    pub fn refresh_category_index(&mut self)
        requires
            old(self).wf(),
        ensures
            final(self).wf(),
            final(self)@.items == old(self)@.items,
            final(self)@.categories == refreshed(old(self)@.categories, old(self)@.items),
    {
        let ghost start = categories_view(self.categories@);
        let ghost v = self.items@;
        let ghost mut seen: Set<Seq<char>> = Set::empty();
        let mut i: usize = 0;
        assert(start =~= with_categories(start, seen));
        while i < self.items.len()
            invariant
                self.wf(),
                self.items@ == v,
                i <= v.len(),
                categories_view(self.categories@) == with_categories(start, seen),
                forall|c: Seq<char>| seen.contains(c) ==> tokens(items_view(v)).contains(c),
                forall|a: int, b: int|
                    0 <= a < i && 0 <= b < v[a]@.categories.len() ==> seen.contains(
                        #[trigger] v[a]@.categories[b],
                    ),
            decreases v.len() - i,
        {
            let mut j: usize = 0;
            proof {
                lemma_items_view_index(v, i as int);
            }
            while j < self.items[i].categories.len()
                invariant
                    self.wf(),
                    self.items@ == v,
                    i < v.len(),
                    j <= v[i as int]@.categories.len(),
                    items_view(v)[v[i as int].item_id as int] == v[i as int]@,
                    items_view(v).contains_key(v[i as int].item_id as int),
                    categories_view(self.categories@) == with_categories(start, seen),
                    forall|c: Seq<char>| seen.contains(c) ==> tokens(items_view(v)).contains(c),
                    forall|a: int, b: int|
                        0 <= a < i && 0 <= b < v[a]@.categories.len() ==> seen.contains(
                            #[trigger] v[a]@.categories[b],
                        ),
                    forall|b: int| 0 <= b < j ==> seen.contains(#[trigger] v[i as int]@.categories[b]),
                decreases v[i as int]@.categories.len() - j,
            {
                let ghost c = self.items@[i as int].categories@[j as int]@;
                assert(v[i as int]@.categories[j as int] == c);
                ensure_category(&mut self.categories, &self.items[i].categories[j]);
                proof {
                    assert(items_view(v)[v[i as int].item_id as int].categories.contains(c));
                    assert(with_categories(with_categories(start, seen), set![c]) =~= with_categories(
                        start,
                        seen.insert(c),
                    ));
                    seen = seen.insert(c);
                }
                j = j + 1;
            }
            i = i + 1;
        }
        proof {
            assert forall|c: Seq<char>| tokens(items_view(v)).contains(c) implies seen.contains(c) by {
                let k = choose|k: int| items_view(v).contains_key(k) && #[trigger] items_view(v)[k].categories.contains(c);
                lemma_items_view_dom(v, k);
                let a = choose|a: int| 0 <= a < v.len() && #[trigger] v[a].item_id as int == k;
                lemma_items_view_index(v, a);
                let b = choose|b: int| 0 <= b < v[a]@.categories.len() && v[a]@.categories[b] == c;
                assert(seen.contains(v[a]@.categories[b]));
            }
            assert(seen =~= tokens(items_view(v)));
        }
    }

    /// Stores the records read from `rows`, refreshes the category index, and
    /// returns how many records the rows gave.
    pub fn ingest(&mut self, rows: &Vec<crate::table::RawRow>) -> (r: usize)
        requires
            old(self).wf(),
        ensures
            final(self).wf(),
            final(self)@ == ingested(old(self)@, crate::table::table_items(rows@)),
            r == crate::table::table_items(rows@).len(),
    {
        let parsed = crate::table::parse_table(rows);
        let count = parsed.len();
        self.upsert_items(parsed);
        self.refresh_category_index();
        count
    }

    /// The position of the item named `name` with the least id, if there is one.
    fn find_item_name(&self, name: &str) -> (r: Option<usize>)
        ensures
            r is Some ==> r->0 < self.items@.len() && self.items@[r->0 as int].item_name@ == name@
                && forall|i: int|
                0 <= i < self.items@.len() && (#[trigger] self.items@[i]).item_name@ == name@
                    ==> self.items@[r->0 as int].item_id <= self.items@[i].item_id,
            r is None ==> forall|i: int|
                0 <= i < self.items@.len() ==> #[trigger] self.items@[i].item_name@ != name@,
    {
        let key = String::from_str(name);
        let mut best: Option<usize> = None;
        let mut i: usize = 0;
        while i < self.items.len()
            invariant
                i <= self.items@.len(),
                key@ == name@,
                best is Some ==> best->0 < i && self.items@[best->0 as int].item_name@ == name@
                    && forall|j: int|
                    0 <= j < i && (#[trigger] self.items@[j]).item_name@ == name@
                        ==> self.items@[best->0 as int].item_id <= self.items@[j].item_id,
                best is None ==> forall|k: int| 0 <= k < i ==> #[trigger] self.items@[k].item_name@ != name@,
            decreases self.items@.len() - i,
        {
            if self.items[i].item_name == key {
                match best {
                    Some(b) => {
                        if self.items[i].item_id < self.items[b].item_id {
                            best = Some(i);
                        }
                    },
                    None => {
                        best = Some(i);
                    },
                }
            }
            i = i + 1;
        }
        best
    }

    proof fn lemma_named(&self, name: Seq<char>, r: Option<usize>)
        requires
            self.wf(),
            r is Some ==> r->0 < self.items@.len() && self.items@[r->0 as int].item_name@ == name
                && forall|i: int|
                0 <= i < self.items@.len() && (#[trigger] self.items@[i]).item_name@ == name
                    ==> self.items@[r->0 as int].item_id <= self.items@[i].item_id,
            r is None ==> forall|i: int|
                0 <= i < self.items@.len() ==> #[trigger] self.items@[i].item_name@ != name,
        ensures
            r is Some ==> self@.items.contains_key(self.items@[r->0 as int].item_id as int)
                && self@.items[self.items@[r->0 as int].item_id as int] == self.items@[r->0 as int]@
                && named_key(self@.items, name) == Some(self.items@[r->0 as int].item_id as int),
            r is None ==> !has_item_named(self@.items, name) && named_key(self@.items, name) is None,
    {
        match r {
            Some(i) => {
                let v = self.items@;
                let k = v[i as int].item_id as int;
                lemma_items_view_index(v, i as int);
                assert(least_named(self@.items, name, k)) by {
                    assert forall|k2: int|
                        self@.items.contains_key(k2) && #[trigger] self@.items[k2].item_name == name
                        implies k <= k2 by {
                        lemma_items_view_dom(v, k2);
                        let a = choose|a: int| 0 <= a < v.len() && #[trigger] v[a].item_id as int == k2;
                        lemma_items_view_index(v, a);
                        assert(v[a].item_name@ == name);
                    }
                }
                let c = choose|k2: int| least_named(self@.items, name, k2);
                assert(c <= k && k <= c);
            },
            None => {
                if has_item_named(self@.items, name) {
                    let k = choose|k: int| self@.items.contains_key(k) && #[trigger] self@.items[k].item_name == name;
                    lemma_items_view_dom(self.items@, k);
                    let a = choose|a: int| 0 <= a < self.items@.len() && #[trigger] self.items@[a].item_id as int == k;
                    lemma_items_view_index(self.items@, a);
                }
            },
        }
    }

    /// The completion rate of the item named `name`; `None` for an unknown name.
    pub fn lookup_rate(&self, name: &str) -> (r: Option<u32>)
        requires
            self.wf(),
        ensures
            r is None <==> !has_item_named(self@.items, name@),
            r is None <==> named_key(self@.items, name@) is None,
            r is Some ==> r->0 as int == self@.items[named_key(self@.items, name@)->0].rate,
    {
        let found = self.find_item_name(name);
        proof {
            self.lemma_named(name@, found);
        }
        match found {
            Some(i) => {
                let ghost k = self.items@[i as int].item_id as int;
                assert(self@.items[k].item_name == name@);
                Some(self.items[i].rate)
            },
            None => None,
        }
    }

    /// Whether any entry of `cats` is clamped in the index.
    fn any_clamped(&self, cats: &Vec<String>) -> (r: bool)
        requires
            self.wf(),
        ensures
            r == in_clamped_category(self@.categories, cats@.map_values(|c: String| c@)),
    {
        let ghost views = cats@.map_values(|c: String| c@);
        let mut i: usize = 0;
        while i < cats.len()
            invariant
                self.wf(),
                i <= cats@.len(),
                views == cats@.map_values(|c: String| c@),
                forall|j: int| 0 <= j < i ==> !(self@.categories.contains_key(#[trigger] views[j]) && self@.categories[views[j]]),
            decreases cats@.len() - i,
        {
            match find_category(&self.categories, &cats[i]) {
                Some(p) => {
                    proof {
                        lemma_categories_view_index(self.categories@, p as int);
                    }
                    if self.categories[p].clamp {
                        assert(views[i as int] == cats@[i as int]@);
                        return true;
                    }
                },
                None => {
                    proof {
                        lemma_categories_view_dom(self.categories@, cats@[i as int]@);
                    }
                },
            }
            i = i + 1;
        }
        false
    }

    /// Points for the item named `name`: its rate scored with the clamp when
    /// one of its categories is clamped and it is not whitelisted. `None` for
    /// an unknown name.
    pub fn calculate_points(&self, name: &str) -> (r: Option<i64>)
        requires
            self.wf(),
        ensures
            r is None <==> !has_item_named(self@.items, name@),
            r is None <==> named_key(self@.items, name@) is None,
            r is Some ==> r->0 as int == points_now(self@, name@),
    {
        let found = self.find_item_name(name);
        proof {
            self.lemma_named(name@, found);
        }
        match found {
            Some(i) => {
                let item = &self.items[i];
                let eligible = !item.whitelist && self.any_clamped(&item.categories);
                proof {
                    assert(valid_rate(self.items@[i as int].rate as int));
                }
                let ghost k = self.items@[i as int].item_id as int;
                assert(self@.items[k].item_name == name@);
                Some(score(item.rate, eligible))
            },
            None => None,
        }
    }

    /// What scoring needs of the item that `name` refers to; `None` for an unknown name.
    pub fn fetch_item_detail(&self, name: &str) -> (r: Option<ItemDetail>)
        requires
            self.wf(),
        ensures
            r is None <==> named_key(self@.items, name@) is None,
            r is Some ==> ({
                let k = named_key(self@.items, name@)->0;
                let rec = self@.items[k];
                &&& r->0.item_id as int == k
                &&& r->0.rate as int == rec.rate
                &&& r->0.whitelist == rec.whitelist
                &&& r->0.clamped == in_clamped_category(self@.categories, rec.categories)
                &&& r->0.points as int == points_now(self@, name@)
                &&& valid_rate(rec.rate)
            }),
    {
        let found = self.find_item_name(name);
        proof {
            self.lemma_named(name@, found);
        }
        match found {
            Some(i) => {
                let item = &self.items[i];
                let clamped = self.any_clamped(&item.categories);
                proof {
                    assert(valid_rate(self.items@[i as int].rate as int));
                }
                let points = score(item.rate, !item.whitelist && clamped);
                Some(ItemDetail { item_id: item.item_id, rate: item.rate, whitelist: item.whitelist, clamped, points })
            },
            None => None,
        }
    }

    /// Up to `SUGGESTION_LIMIT` item names that hold `partial`, ignoring case.
    pub fn get_suggestions(&self, partial: &str) -> (r: Vec<String>)
        requires
            self.wf(),
        ensures
            r@.len() <= SUGGESTION_LIMIT,
            distinct_strings(r@),
            forall|x: int| 0 <= x < r@.len() ==> name_suggested(self@.items, partial@, #[trigger] r@[x]@),
            r@.len() < SUGGESTION_LIMIT ==> forall|k: int|
                self@.items.contains_key(k) && suggests(partial@, #[trigger] self@.items[k].item_name)
                    ==> exists|x: int| 0 <= x < r@.len() && r@[x]@ == self@.items[k].item_name,
    {
        let query = lowercase(partial);
        let mut out: Vec<String> = Vec::new();
        let mut i: usize = 0;
        let ghost v = self.items@;
        while i < self.items.len() && out.len() < SUGGESTION_LIMIT
            invariant
                self.wf(),
                v == self.items@,
                query@ == lower_of(partial@),
                i <= v.len(),
                out@.len() <= SUGGESTION_LIMIT,
                distinct_strings(out@),
                forall|x: int| 0 <= x < out@.len() ==> listed_suggested(v, partial@, #[trigger] out@[x]@),
                out@.len() < SUGGESTION_LIMIT ==> forall|a: int|
                    0 <= a < i && suggests(partial@, (#[trigger] v[a]).item_name@)
                        ==> exists|x: int| 0 <= x < out@.len() && out@[x]@ == v[a].item_name@,
            decreases v.len() - i,
        {
            let name = lowercase(self.items[i].item_name.as_str());
            if contains_str(name.as_str(), query.as_str()) && !holds_string(&out, &self.items[i].item_name) {
                let ghost before = out@;
                out.push(self.items[i].item_name.clone());
                proof {
                    assert(out@[before.len() as int]@ == v[i as int].item_name@);
                    assert forall|x: int| 0 <= x < out@.len() implies listed_suggested(v, partial@, #[trigger] out@[x]@) by {
                        if x < before.len() {
                            assert(out@[x] == before[x]);
                        } else {
                            assert(v[i as int].item_name@ == out@[x]@);
                        }
                    }
                    assert forall|a: int|
                        0 <= a < i + 1 && suggests(partial@, (#[trigger] v[a]).item_name@)
                        implies exists|x: int| 0 <= x < out@.len() && out@[x]@ == v[a].item_name@ by {
                        if a == i {
                            assert(out@[before.len() as int]@ == v[a].item_name@);
                        } else if before.len() < SUGGESTION_LIMIT {
                            let x0 = choose|x: int| 0 <= x < before.len() && before[x]@ == v[a].item_name@;
                            assert(out@[x0] == before[x0]);
                        }
                    }
                }
            }
            i = i + 1;
        }
        proof {
            assert forall|x: int| 0 <= x < out@.len() implies name_suggested(self@.items, partial@, #[trigger] out@[x]@) by {
                let a = choose|a: int| 0 <= a < v.len() && (#[trigger] v[a]).item_name@ == out@[x]@
                    && suggests(partial@, v[a].item_name@);
                lemma_items_view_index(v, a);
                assert(self@.items[v[a].item_id as int].item_name == out@[x]@);
            }
            if out@.len() < SUGGESTION_LIMIT {
                assert forall|k: int|
                    self@.items.contains_key(k) && suggests(partial@, #[trigger] self@.items[k].item_name)
                    implies exists|x: int| 0 <= x < out@.len() && out@[x]@ == self@.items[k].item_name by {
                    lemma_items_view_dom(v, k);
                    let a = choose|a: int| 0 <= a < v.len() && #[trigger] v[a].item_id as int == k;
                    lemma_items_view_index(v, a);
                    assert(suggests(partial@, v[a].item_name@));
                }
            }
        }
        out
    }

    /// Up to `SUGGESTION_LIMIT` categories of the index that hold `partial`, ignoring case.
    pub fn get_category_suggestions(&self, partial: &str) -> (r: Vec<String>)
        requires
            self.wf(),
        ensures
            r@.len() <= SUGGESTION_LIMIT,
            distinct_strings(r@),
            forall|x: int| 0 <= x < r@.len() ==> self@.categories.contains_key(#[trigger] r@[x]@)
                && suggests(partial@, r@[x]@),
            r@.len() < SUGGESTION_LIMIT ==> forall|c: Seq<char>|
                #[trigger] self@.categories.contains_key(c) && suggests(partial@, c)
                    ==> exists|x: int| 0 <= x < r@.len() && r@[x]@ == c,
    {
        let query = lowercase(partial);
        let mut out: Vec<String> = Vec::new();
        let mut i: usize = 0;
        let ghost v = self.categories@;
        while i < self.categories.len() && out.len() < SUGGESTION_LIMIT
            invariant
                self.wf(),
                v == self.categories@,
                query@ == lower_of(partial@),
                i <= v.len(),
                out@.len() <= SUGGESTION_LIMIT,
                distinct_strings(out@),
                forall|x: int| 0 <= x < out@.len() ==> self@.categories.contains_key(#[trigger] out@[x]@)
                    && suggests(partial@, out@[x]@),
                out@.len() < SUGGESTION_LIMIT ==> forall|a: int|
                    0 <= a < i && suggests(partial@, (#[trigger] v[a]).category@)
                        ==> exists|x: int| 0 <= x < out@.len() && out@[x]@ == v[a].category@,
            decreases v.len() - i,
        {
            let name = lowercase(self.categories[i].category.as_str());
            if contains_str(name.as_str(), query.as_str()) && !holds_string(&out, &self.categories[i].category) {
                let ghost before = out@;
                out.push(self.categories[i].category.clone());
                proof {
                    lemma_categories_view_index(v, i as int);
                    assert forall|x: int| 0 <= x < out@.len() implies self@.categories.contains_key(#[trigger] out@[x]@)
                        && suggests(partial@, out@[x]@) by {
                        if x < before.len() {
                            assert(out@[x] == before[x]);
                        }
                    }
                    assert forall|a: int|
                        0 <= a < i + 1 && suggests(partial@, (#[trigger] v[a]).category@)
                        implies exists|x: int| 0 <= x < out@.len() && out@[x]@ == v[a].category@ by {
                        if a == i {
                            assert(out@[before.len() as int]@ == v[a].category@);
                        } else if before.len() < SUGGESTION_LIMIT {
                            let x0 = choose|x: int| 0 <= x < before.len() && before[x]@ == v[a].category@;
                            assert(out@[x0] == before[x0]);
                        }
                    }
                }
            }
            i = i + 1;
        }
        proof {
            if out@.len() < SUGGESTION_LIMIT {
                assert forall|c: Seq<char>|
                    #[trigger] self@.categories.contains_key(c) && suggests(partial@, c)
                    implies exists|x: int| 0 <= x < out@.len() && out@[x]@ == c by {
                    lemma_categories_view_dom(v, c);
                    let a = choose|a: int| 0 <= a < v.len() && #[trigger] v[a].category@ == c;
                    assert(suggests(partial@, v[a].category@));
                }
            }
        }
        out
    }

    /// Sets the clamp flag of `category`; returns whether the index holds it.
    pub fn set_category_clamp(&mut self, category: &str, clamp: bool) -> (r: bool)
        requires
            old(self).wf(),
        ensures
            final(self).wf(),
            r == old(self)@.categories.contains_key(category@),
            final(self)@.items == old(self)@.items,
            final(self)@.categories == if r {
                old(self)@.categories.insert(category@, clamp)
            } else {
                old(self)@.categories
            },
    {
        let key = String::from_str(category);
        match find_category(&self.categories, &key) {
            Some(p) => {
                let ghost before = self.categories@;
                let entry = CategoryEntry { category: key, clamp };
                proof {
                    lemma_categories_view_index(before, p as int);
                    lemma_categories_view_update(before, p as int, entry);
                }
                self.categories.set(p, entry);
                proof {
                    assert forall|i: int, j: int|
                        0 <= i < self.categories@.len() && 0 <= j < self.categories@.len() && i != j implies #[trigger] self.categories@[i].category@
                            != #[trigger] self.categories@[j].category@ by {
                        assert(before[i].category@ == self.categories@[i].category@);
                        assert(before[j].category@ == self.categories@[j].category@);
                    }
                }
                true
            },
            None => {
                proof {
                    lemma_categories_view_dom(self.categories@, category@);
                }
                false
            },
        }
    }

    /// Sets the whitelist flag of every item named `name`; returns whether
    /// there was one.
    pub fn set_item_whitelist(&mut self, name: &str, whitelist: bool) -> (r: bool)
        requires
            old(self).wf(),
        ensures
            final(self).wf(),
            r == has_item_named(old(self)@.items, name@),
            final(self)@.categories == old(self)@.categories,
            final(self)@.items == with_whitelist(old(self)@.items, name@, whitelist),
    {
        let key = String::from_str(name);
        let mut found = false;
        let mut i: usize = 0;
        let ghost v0 = self.items@;
        while i < self.items.len()
            invariant
                key@ == name@,
                i <= self.items@.len(),
                self.items@.len() == v0.len(),
                self.categories == old(self).categories,
                v0 == old(self).items@,
                forall|j: int|
                    0 <= j < v0.len() ==> (#[trigger] self.items@[j]).item_id == v0[j].item_id
                        && self.items@[j].item_name@ == v0[j].item_name@
                        && self.items@[j].rate == v0[j].rate
                        && self.items@[j]@ == (if j < i && v0[j].item_name@ == name@ {
                        RecordView { whitelist, ..v0[j]@ }
                    } else {
                        v0[j]@
                    }),
                found <==> exists|j: int| 0 <= j < i && (#[trigger] v0[j]).item_name@ == name@,
            decreases v0.len() - i,
        {
            if self.items[i].item_name == key {
                self.items[i].whitelist = whitelist;
                found = true;
            }
            i = i + 1;
        }
        proof {
            lemma_items_view_whitelist(v0, self.items@, name@, whitelist);
            assert forall|a: int, b: int|
                0 <= a < self.items@.len() && 0 <= b < self.items@.len() && a != b implies #[trigger] self.items@[a].item_id
                    != #[trigger] self.items@[b].item_id by {
                assert(v0[a].item_id != v0[b].item_id);
            }
            assert forall|a: int| 0 <= a < self.items@.len() implies valid_rate(#[trigger] self.items@[a].rate as int) by {
                assert(valid_rate(v0[a].rate as int));
            }
            if found {
                let j = choose|j: int| 0 <= j < v0.len() && (#[trigger] v0[j]).item_name@ == name@;
                lemma_items_view_index(v0, j);
                assert(items_view(v0)[v0[j].item_id as int].item_name == name@);
            } else {
                if has_item_named(items_view(v0), name@) {
                    let k = choose|k: int| items_view(v0).contains_key(k) && #[trigger] items_view(v0)[k].item_name == name@;
                    lemma_items_view_dom(v0, k);
                    let a = choose|a: int| 0 <= a < v0.len() && #[trigger] v0[a].item_id as int == k;
                    lemma_items_view_index(v0, a);
                }
            }
        }
        found
    }
}

proof fn lemma_items_view_whitelist(v: Seq<ItemRecord>, w: Seq<ItemRecord>, name: Seq<char>, flag: bool)
    requires
        w.len() == v.len(),
        forall|j: int|
            0 <= j < v.len() ==> (#[trigger] w[j]).item_id == v[j].item_id && w[j]@ == (if v[j]@.item_name
                == name {
                RecordView { whitelist: flag, ..v[j]@ }
            } else {
                v[j]@
            }),
    ensures
        items_view(w) == with_whitelist(items_view(v), name, flag),
    decreases v.len(),
{
    if v.len() > 0 {
        lemma_items_view_whitelist(v.drop_last(), w.drop_last(), name, flag);
        assert(w[w.len() - 1].item_id == v[v.len() - 1].item_id);
    }
    assert(items_view(w) =~= with_whitelist(items_view(v), name, flag));
}

/// `k` is the least id of the items named `name`.
pub open spec fn least_named(m: Map<int, RecordView>, name: Seq<char>, k: int) -> bool {
    &&& m.contains_key(k)
    &&& m[k].item_name == name
    &&& forall|k2: int| m.contains_key(k2) && #[trigger] m[k2].item_name == name ==> k <= k2
}

/// The id that a name refers to: the least id of the items of that name.
pub open spec fn named_key(m: Map<int, RecordView>, name: Seq<char>) -> Option<int> {
    if exists|k: int| least_named(m, name, k) {
        Some(choose|k: int| least_named(m, name, k))
    } else {
        None
    }
}

/// Some item is named `name`.
pub open spec fn has_item_named(m: Map<int, RecordView>, name: Seq<char>) -> bool {
    exists|k: int| m.contains_key(k) && #[trigger] m[k].item_name == name
}

/// Some category of the list is clamped in the index.
pub open spec fn in_clamped_category(cats: Map<Seq<char>, bool>, list: Seq<Seq<char>>) -> bool {
    exists|j: int| 0 <= j < list.len() && cats.contains_key(#[trigger] list[j]) && cats[list[j]]
}

/// The item is capped at the clamp ceiling: one of its categories is clamped
/// and it is not whitelisted.
pub open spec fn clamp_eligible(cats: Map<Seq<char>, bool>, item: RecordView) -> bool {
    !item.whitelist && in_clamped_category(cats, item.categories)
}

/// The points that the item a name refers to is worth now (0 for an unknown name).
pub open spec fn points_now(c: CatalogView, name: Seq<char>) -> int {
    match named_key(c.items, name) {
        Some(k) => points_for(c.items[k].rate, clamp_eligible(c.categories, c.items[k])),
        None => 0,
    }
}

/// The items with the whitelist flag of those named `name` set to `flag`.
pub open spec fn with_whitelist(m: Map<int, RecordView>, name: Seq<char>, flag: bool) -> Map<int, RecordView> {
    Map::new(
        |k: int| m.contains_key(k),
        |k: int|
            if m[k].item_name == name {
                RecordView { whitelist: flag, ..m[k] }
            } else {
                m[k]
            },
    )
}

/// Sets the clamp flag of `category`; returns whether the index holds it.
pub fn handle_clamp(manager: &mut CollectionLogManager, category: &str, on_or_off: bool) -> (r: bool)
    requires
        old(manager).wf(),
    ensures
        final(manager).wf(),
        r == old(manager)@.categories.contains_key(category@),
        final(manager)@.items == old(manager)@.items,
        final(manager)@.categories == if r {
            old(manager)@.categories.insert(category@, on_or_off)
        } else {
            old(manager)@.categories
        },
{
    manager.set_category_clamp(category, on_or_off)
}

/// Sets the whitelist flag of the items named `item`; returns whether there was one.
pub fn handle_whitelist(manager: &mut CollectionLogManager, item: &str, on_or_off: bool) -> (r: bool)
    requires
        old(manager).wf(),
    ensures
        final(manager).wf(),
        r == has_item_named(old(manager)@.items, item@),
        final(manager)@.categories == old(manager)@.categories,
        final(manager)@.items == with_whitelist(old(manager)@.items, item@, on_or_off),
{
    manager.set_item_whitelist(item, on_or_off)
}

} // verus!
