//! Reconciliation: re-scores the items whose recorded points may be stale and
//! corrects the ledger entries under the asymmetric correction policy.
use vstd::prelude::*;
use crate::catalog::{clamp_eligible, in_clamped_category, named_key, points_now, CollectionLogManager, CatalogView};

verus! {

/// One player's completion of one item, and the points last awarded for it.
pub struct ClogRow {
    pub id: i64,
    pub discord_id: String,
    pub points: i64,
    pub item_name: String,
}

/// A ledger entry as mathematical values.
pub struct EntryView {
    pub id: int,
    pub player: Seq<char>,
    pub points: int,
    pub item_name: Seq<char>,
}

impl View for ClogRow {
    type V = EntryView;

    open spec fn view(&self) -> EntryView {
        EntryView {
            id: self.id as int,
            player: self.discord_id@,
            points: self.points as int,
            item_name: self.item_name@,
        }
    }
}

/// Points above which a clamped item's award is looked at again.
pub const RECHECK_ABOVE: i64 = 3000;

/// Rate (thousandths of a percent) below which an item is always looked at again (10%).
pub const RECHECK_RATE_BELOW: u32 = 10000;

pub open spec fn ledger_view(v: Seq<ClogRow>) -> Seq<EntryView> {
    v.map_values(|e: ClogRow| e@)
}

/// Some entry of the ledger is for `name`.
pub open spec fn has_entry(l: Seq<EntryView>, name: Seq<char>) -> bool {
    exists|i: int| 0 <= i < l.len() && (#[trigger] l[i]).item_name == name
}

/// Some entry for `name` was awarded more than `bound` points.
pub open spec fn has_entry_over(l: Seq<EntryView>, name: Seq<char>, bound: int) -> bool {
    exists|i: int| 0 <= i < l.len() && (#[trigger] l[i]).item_name == name && l[i].points > bound
}

/// The item named `name` may hold stale awards: it has ledger entries, and
/// it is in a clamped category with an award above the ceiling, or it is
/// whitelisted, or its rate is below 10%.
pub open spec fn is_candidate(c: CatalogView, l: Seq<EntryView>, name: Seq<char>) -> bool {
    match named_key(c.items, name) {
        None => false,
        Some(k) => {
            let rec = c.items[k];
            &&& has_entry(l, name)
            &&& ((in_clamped_category(c.categories, rec.categories) && has_entry_over(
                l,
                name,
                RECHECK_ABOVE as int,
            )) || rec.whitelist || rec.rate < RECHECK_RATE_BELOW)
        },
    }
}

/// The clamp applies now to the item that `name` refers to.
pub open spec fn eligible_now(c: CatalogView, name: Seq<char>) -> bool {
    match named_key(c.items, name) {
        None => false,
        Some(k) => clamp_eligible(c.categories, c.items[k]),
    }
}

/// The correction policy: a clamped item's award may only go down, any
/// other award may only go up.
pub open spec fn policy_allows(delta: int, eligible: bool) -> bool {
    (delta < 0 && eligible) || (delta > 0 && !eligible)
}

/// The entry `e` of the ledger `l` is corrected.
pub open spec fn corrects(c: CatalogView, l: Seq<EntryView>, e: EntryView) -> bool {
    &&& is_candidate(c, l, e.item_name)
    &&& policy_allows(points_now(c, e.item_name) - e.points, eligible_now(c, e.item_name))
}

/// The entry after reconciliation of the ledger `l`.
pub open spec fn reconciled_entry(c: CatalogView, l: Seq<EntryView>, e: EntryView) -> EntryView {
    if corrects(c, l, e) {
        EntryView { points: points_now(c, e.item_name), ..e }
    } else {
        e
    }
}

/// The ledger after one reconciliation.
pub open spec fn reconciled(c: CatalogView, l: Seq<EntryView>) -> Seq<EntryView> {
    Seq::new(l.len(), |i: int| reconciled_entry(c, l, l[i]))
}

/// How many entries of `l[..n]` one reconciliation of `l` corrects.
pub open spec fn corrected_upto(c: CatalogView, l: Seq<EntryView>, n: int) -> int
    decreases n,
{
    if n <= 0 {
        0
    } else {
        corrected_upto(c, l, n - 1) + if corrects(c, l, l[n - 1]) {
            1int
        } else {
            0
        }
    }
}

/// The sum of the corrections to `player`'s entries among `l[..n]`.
pub open spec fn change_upto(c: CatalogView, l: Seq<EntryView>, player: Seq<char>, n: int) -> int
    decreases n,
{
    if n <= 0 {
        0
    } else {
        change_upto(c, l, player, n - 1) + if corrects(c, l, l[n - 1]) && l[n - 1].player == player {
            points_now(c, l[n - 1].item_name) - l[n - 1].points
        } else {
            0
        }
    }
}

/// Every entry that a reconciliation changes moves in the direction the
/// policy allows: down for an item under the clamp, up otherwise; its other
/// fields stay, and every other entry stays as it was.
pub proof fn lemma_corrections_follow_policy(c: CatalogView, l: Seq<EntryView>, i: int)
    requires
        0 <= i < l.len(),
    ensures
        reconciled(c, l)[i].id == l[i].id,
        reconciled(c, l)[i].player == l[i].player,
        reconciled(c, l)[i].item_name == l[i].item_name,
        reconciled(c, l)[i].points != l[i].points ==> policy_allows(
            reconciled(c, l)[i].points - l[i].points,
            eligible_now(c, l[i].item_name),
        ),
        !corrects(c, l, l[i]) ==> reconciled(c, l)[i] == l[i],
{
}

/// A second reconciliation right after a first, with the catalog unchanged,
/// corrects no entry and leaves the ledger as it is.
pub proof fn lemma_reconcile_fixed_point(c: CatalogView, l: Seq<EntryView>)
    ensures
        forall|i: int| 0 <= i < l.len() ==> !corrects(c, reconciled(c, l), #[trigger] reconciled(c, l)[i]),
        reconciled(c, reconciled(c, l)) == reconciled(c, l),
{
    let r = reconciled(c, l);
    assert forall|i: int| 0 <= i < l.len() implies !corrects(c, r, #[trigger] r[i]) by {
        let e = r[i];
        let name = e.item_name;
        if corrects(c, r, e) {
            if corrects(c, l, l[i]) {
                assert(e.points == points_now(c, name));
            } else {
                assert(e == l[i]);
                let k = named_key(c.items, name)->0;
                let rec = c.items[k];
                assert(has_entry(l, name)) by {
                    assert(l[i].item_name == name);
                }
                assert(in_clamped_category(c.categories, rec.categories));
                assert(has_entry_over(r, name, RECHECK_ABOVE as int));
                let j = choose|j: int| 0 <= j < r.len() && (#[trigger] r[j]).item_name == name && r[j].points > RECHECK_ABOVE;
                if corrects(c, l, l[j]) {
                    assert(l[j].item_name == name);
                    assert(!eligible_now(c, name) || points_now(c, name) < l[j].points);
                    assert(!has_entry_over(l, name, RECHECK_ABOVE as int));
                    assert(l[j].points <= RECHECK_ABOVE);
                    assert(rec.whitelist);
                } else {
                    assert(r[j] == l[j]);
                    assert(l[j].item_name == name);
                }
            }
        }
    }
    assert forall|i: int| 0 <= i < l.len() implies #[trigger] reconciled(c, r)[i] == r[i] by {
        assert(!corrects(c, r, r[i]));
    }
    assert(reconciled(c, r) =~= r);
}

/// How many entries for `name` among `l[..n]` one reconciliation of `l` corrects.
pub open spec fn affected_upto(c: CatalogView, l: Seq<EntryView>, name: Seq<char>, n: int) -> int
    decreases n,
{
    if n <= 0 {
        0
    } else {
        affected_upto(c, l, name, n - 1) + if corrects(c, l, l[n - 1]) && l[n - 1].item_name == name {
            1int
        } else {
            0
        }
    }
}

proof fn lemma_change_absent(c: CatalogView, l: Seq<EntryView>, player: Seq<char>, n: int)
    requires
        0 <= n <= l.len(),
        forall|j: int| 0 <= j < n && corrects(c, l, #[trigger] l[j]) ==> l[j].player != player,
    ensures
        change_upto(c, l, player, n) == 0,
    decreases n,
{
    if n > 0 {
        lemma_change_absent(c, l, player, n - 1);
    }
}

/// The corrections of one reconciled item.
pub struct ItemData {
    pub item_id: u64,
    pub item_name: String,
    /// Completion rate in thousandths of a percent.
    pub rate: u32,
    /// The clamp applies to the item.
    pub clamp: bool,
    /// The highest award recorded for the item before the corrections.
    pub old_points: i64,
    /// The points the item is worth now.
    pub points: i64,
    /// How many entries were corrected.
    pub affected: u64,
}

/// The sum of the corrections to one player's entries.
pub struct PlayerStats {
    pub discord_id: String,
    pub change: i128,
}

/// What one reconciliation did.
pub struct Recalculation {
    /// How many entries were corrected.
    pub corrected: u64,
    /// One record per item with a corrected entry, in the order first met.
    pub items: Vec<ItemData>,
    /// One record per player with a corrected entry, in the order first met.
    pub players: Vec<PlayerStats>,
}

impl Recalculation {
    /// Nothing was corrected.
    pub fn is_noop(&self) -> (r: bool)
        ensures
            r == (self.corrected == 0),
    {
        self.corrected == 0
    }
}

/// Some entry for `name` in `ledger` was awarded more than `bound` points.
fn entry_over(ledger: &Vec<ClogRow>, name: &String, bound: i64) -> (r: bool)
    ensures
        r == has_entry_over(ledger_view(ledger@), name@, bound as int),
{
    let ghost l = ledger_view(ledger@);
    let mut i: usize = 0;
    while i < ledger.len()
        invariant
            i <= ledger@.len(),
            l == ledger_view(ledger@),
            forall|j: int| 0 <= j < i ==> !((#[trigger] l[j]).item_name == name@ && l[j].points > bound),
        decreases ledger@.len() - i,
    {
        if ledger[i].item_name == *name && ledger[i].points > bound {
            assert(l[i as int].item_name == name@);
            return true;
        }
        i = i + 1;
    }
    false
}

/// The points to which the entry `ledger[i]` is corrected, if it is.
fn decide(catalog: &CollectionLogManager, ledger: &Vec<ClogRow>, i: usize) -> (r: Option<i64>)
    requires
        catalog.wf(),
        i < ledger@.len(),
    ensures
        r is Some <==> corrects(catalog@, ledger_view(ledger@), ledger@[i as int]@),
        r is Some ==> r->0 as int == points_now(catalog@, ledger@[i as int].item_name@),
{
    let ghost l = ledger_view(ledger@);
    let e = &ledger[i];
    assert(l[i as int] == e@);
    match catalog.fetch_item_detail(e.item_name.as_str()) {
        None => None,
        Some(d) => {
            assert(has_entry(l, e.item_name@));
            let over = d.clamped && entry_over(ledger, &e.item_name, RECHECK_ABOVE);
            let candidate = over || d.whitelist || d.rate < RECHECK_RATE_BELOW;
            let eligible = !d.whitelist && d.clamped;
            let delta: i128 = d.points as i128 - e.points as i128;
            if candidate && ((delta < 0 && eligible) || (delta > 0 && !eligible)) {
                Some(d.points)
            } else {
                None
            }
        },
    }
}

/// `v` is the highest award among the entries for `name`.
pub open spec fn is_highest(l: Seq<EntryView>, name: Seq<char>, v: int) -> bool {
    &&& exists|j: int| 0 <= j < l.len() && (#[trigger] l[j]).item_name == name && l[j].points == v
    &&& forall|j: int| 0 <= j < l.len() && (#[trigger] l[j]).item_name == name ==> l[j].points <= v
}

/// The highest award among the entries for `ledger[i]`'s item.
fn highest_award(ledger: &Vec<ClogRow>, i: usize) -> (r: i64)
    requires
        i < ledger@.len(),
    ensures
        is_highest(ledger_view(ledger@), ledger@[i as int].item_name@, r as int),
{
    let ghost l = ledger_view(ledger@);
    let name = &ledger[i].item_name;
    let mut best: i64 = ledger[i].points;
    let mut w: usize = 0;
    assert(l[i as int] == ledger@[i as int]@);
    while w < ledger.len()
        invariant
            i < ledger@.len(),
            w <= ledger@.len(),
            l == ledger_view(ledger@),
            *name == ledger@[i as int].item_name,
            exists|j: int| 0 <= j < l.len() && (#[trigger] l[j]).item_name == name@ && l[j].points == best,
            forall|j: int| 0 <= j < w && (#[trigger] l[j]).item_name == name@ ==> l[j].points <= best,
        decreases ledger@.len() - w,
    {
        assert(l[w as int] == ledger@[w as int]@);
        if ledger[w].item_name == *name && ledger[w].points > best {
            best = ledger[w].points;
        }
        w = w + 1;
    }
    best
}

/// The position of `id`'s record in `players`, if there is one.
fn find_player(players: &Vec<PlayerStats>, id: &String) -> (r: Option<usize>)
    ensures
        r is Some ==> r->0 < players@.len() && players@[r->0 as int].discord_id@ == id@,
        r is None ==> forall|j: int| 0 <= j < players@.len() ==> #[trigger] players@[j].discord_id@ != id@,
{
    let mut j: usize = 0;
    while j < players.len()
        invariant
            j <= players@.len(),
            forall|k: int| 0 <= k < j ==> #[trigger] players@[k].discord_id@ != id@,
        decreases players@.len() - j,
    {
        if players[j].discord_id == *id {
            return Some(j);
        }
        j = j + 1;
    }
    None
}

/// The position of `name`'s record in `items`, if there is one.
fn find_item(items: &Vec<ItemData>, name: &String) -> (r: Option<usize>)
    ensures
        r is Some ==> r->0 < items@.len() && items@[r->0 as int].item_name@ == name@,
        r is None ==> forall|j: int| 0 <= j < items@.len() ==> #[trigger] items@[j].item_name@ != name@,
{
    let mut j: usize = 0;
    while j < items.len()
        invariant
            j <= items@.len(),
            forall|k: int| 0 <= k < j ==> #[trigger] items@[k].item_name@ != name@,
        decreases items@.len() - j,
    {
        if items[j].item_name == *name {
            return Some(j);
        }
        j = j + 1;
    }
    None
}

/// Some entry of `player` among `l[..i]` is corrected.
#[verifier::opaque]
pub open spec fn player_corrected(c: CatalogView, l: Seq<EntryView>, player: Seq<char>, i: int) -> bool {
    exists|j: int| 0 <= j < i && corrects(c, l, #[trigger] l[j]) && l[j].player == player
}

/// An item record names the item its name refers to, with its rate and
/// clamp, and some entry for it among `l[..i]` is corrected.
#[verifier::opaque]
pub open spec fn item_record_ok(c: CatalogView, l: Seq<EntryView>, it: ItemData, i: int) -> bool {
    let name = it.item_name@;
    &&& named_key(c.items, name) is Some
    &&& it.item_id as int == named_key(c.items, name)->0
    &&& it.rate as int == c.items[named_key(c.items, name)->0].rate
    &&& it.clamp == eligible_now(c, name)
    &&& exists|j: int| 0 <= j < i && corrects(c, l, #[trigger] l[j]) && l[j].item_name == name
}

proof fn lemma_player_corrected_grow(c: CatalogView, l: Seq<EntryView>, player: Seq<char>, i: int)
    requires
        player_corrected(c, l, player, i),
    ensures
        player_corrected(c, l, player, i + 1),
{
    reveal(player_corrected);
    let j = choose|j: int| 0 <= j < i && corrects(c, l, #[trigger] l[j]) && l[j].player == player;
    assert(0 <= j < i + 1);
}

proof fn lemma_player_corrected_here(c: CatalogView, l: Seq<EntryView>, i: int)
    requires
        0 <= i < l.len(),
        corrects(c, l, l[i]),
    ensures
        player_corrected(c, l, l[i].player, i + 1),
{
    reveal(player_corrected);
}

proof fn lemma_item_record_grow(c: CatalogView, l: Seq<EntryView>, x: ItemData, y: ItemData, i: int)
    requires
        item_record_ok(c, l, x, i),
        y.item_name@ == x.item_name@,
        y.item_id == x.item_id,
        y.rate == x.rate,
        y.clamp == x.clamp,
    ensures
        item_record_ok(c, l, y, i + 1),
{
    reveal(item_record_ok);
    let j = choose|j: int| 0 <= j < i && corrects(c, l, #[trigger] l[j]) && l[j].item_name == x.item_name@;
    assert(0 <= j < i + 1);
}

proof fn lemma_item_record_here(c: CatalogView, l: Seq<EntryView>, x: ItemData, i: int)
    requires
        0 <= i < l.len(),
        corrects(c, l, l[i]),
        l[i].item_name == x.item_name@,
        named_key(c.items, x.item_name@) is Some,
        x.item_id as int == named_key(c.items, x.item_name@)->0,
        x.rate as int == c.items[named_key(c.items, x.item_name@)->0].rate,
        x.clamp == eligible_now(c, x.item_name@),
    ensures
        item_record_ok(c, l, x, i + 1),
{
    reveal(item_record_ok);
}

proof fn lemma_reports_start(c: CatalogView, l: Seq<EntryView>)
    ensures
        players_ok(c, l, Seq::<PlayerStats>::empty(), 0),
        items_ok(c, l, Seq::<ItemData>::empty(), 0),
{
    reveal(players_ok);
    reveal(items_ok);
}

/// The per-player records after the entries `l[..i]` were gone through.
#[verifier::opaque]
pub open spec fn players_ok(c: CatalogView, l: Seq<EntryView>, ps: Seq<PlayerStats>, i: int) -> bool {
    &&& forall|a: int, b: int| 0 <= a < b < ps.len() ==> ps[a].discord_id@ != ps[b].discord_id@
    &&& forall|a: int|
        0 <= a < ps.len() ==> (#[trigger] ps[a]).change as int == change_upto(c, l, ps[a].discord_id@, i)
    &&& forall|a: int| 0 <= a < ps.len() ==> player_corrected(c, l, #[trigger] ps[a].discord_id@, i)
    &&& forall|j: int|
        0 <= j < i && corrects(c, l, #[trigger] l[j]) ==> exists|a: int|
            0 <= a < ps.len() && (#[trigger] ps[a]).discord_id@ == l[j].player
}

/// The per-item records after the entries `l[..i]` were gone through.
#[verifier::opaque]
pub open spec fn items_ok(c: CatalogView, l: Seq<EntryView>, its: Seq<ItemData>, i: int) -> bool {
    &&& forall|a: int, b: int| 0 <= a < b < its.len() ==> its[a].item_name@ != its[b].item_name@
    &&& forall|a: int|
        0 <= a < its.len() ==> (#[trigger] its[a]).affected as int == affected_upto(c, l, its[a].item_name@, i)
            && its[a].points as int == points_now(c, its[a].item_name@)
            && is_highest(l, its[a].item_name@, its[a].old_points as int)
    &&& forall|a: int| 0 <= a < its.len() ==> item_record_ok(c, l, #[trigger] its[a], i)
    &&& forall|j: int|
        0 <= j < i && corrects(c, l, #[trigger] l[j]) ==> exists|a: int|
            0 <= a < its.len() && (#[trigger] its[a]).item_name@ == l[j].item_name
}

proof fn lemma_players_skip(c: CatalogView, l: Seq<EntryView>, ps: Seq<PlayerStats>, i: int)
    requires
        0 <= i < l.len(),
        players_ok(c, l, ps, i),
        !corrects(c, l, l[i]),
    ensures
        players_ok(c, l, ps, i + 1),
{
    reveal(players_ok);
    assert forall|a: int| 0 <= a < ps.len() implies player_corrected(c, l, #[trigger] ps[a].discord_id@, i + 1) by {
        lemma_player_corrected_grow(c, l, ps[a].discord_id@, i);
    }
}

proof fn lemma_items_skip(c: CatalogView, l: Seq<EntryView>, its: Seq<ItemData>, i: int)
    requires
        0 <= i < l.len(),
        items_ok(c, l, its, i),
        !corrects(c, l, l[i]),
    ensures
        items_ok(c, l, its, i + 1),
{
    reveal(items_ok);
    assert forall|a: int| 0 <= a < its.len() implies item_record_ok(c, l, #[trigger] its[a], i + 1) by {
        lemma_item_record_grow(c, l, its[a], its[a], i);
    }
}

/// No correction moves an award by `2^64` or more, so `n` of them sum to
/// less than `n * 2^64` in size.
proof fn lemma_change_bound(c: CatalogView, l: Seq<EntryView>, player: Seq<char>, n: int)
    requires
        0 <= n <= l.len(),
        forall|j: int|
            0 <= j < n && corrects(c, l, #[trigger] l[j]) ==> -0x1_0000_0000_0000_0000 < points_now(c, l[j].item_name)
                - l[j].points < 0x1_0000_0000_0000_0000,
    ensures
        -n * 0x1_0000_0000_0000_0000 <= change_upto(c, l, player, n) <= n * 0x1_0000_0000_0000_0000,
    decreases n,
{
    if n > 0 {
        lemma_change_bound(c, l, player, n - 1);
    }
}

/// Adds the correction of entry `i` to the record at `a`, its player's.
fn bump_player(
    players: &mut Vec<PlayerStats>,
    a: usize,
    delta: i128,
    Ghost(c): Ghost<CatalogView>,
    Ghost(l): Ghost<Seq<EntryView>>,
    Ghost(i): Ghost<int>,
)
    requires
        0 <= i < l.len(),
        a < old(players)@.len(),
        players_ok(c, l, old(players)@, i),
        corrects(c, l, l[i]),
        l[i].player == old(players)@[a as int].discord_id@,
        delta == points_now(c, l[i].item_name) - l[i].points,
        -0x1_0000_0000 * 0x1_0000_0000_0000_0000 <= change_upto(c, l, l[i].player, i + 1)
            <= 0x1_0000_0000 * 0x1_0000_0000_0000_0000,
    ensures
        players_ok(c, l, final(players)@, i + 1),
{
    reveal(players_ok);
    let ghost ps = players@;
    let ch = players[a].change;
    assert(change_upto(c, l, l[i].player, i + 1) == ch + delta);
    players[a].change = ch + delta;
    assert forall|b: int| 0 <= b < players@.len() implies (#[trigger] players@[b]).change as int
        == change_upto(c, l, players@[b].discord_id@, i + 1) by {
        if b != a {
            assert(players@[b] == ps[b]);
        }
    }
    assert forall|j: int| 0 <= j < i + 1 && corrects(c, l, #[trigger] l[j]) implies exists|b: int|
        0 <= b < players@.len() && (#[trigger] players@[b]).discord_id@ == l[j].player by {
        if j == i {
            assert(players@[a as int].discord_id@ == l[j].player);
        } else {
            let b0 = choose|b: int| 0 <= b < ps.len() && (#[trigger] ps[b]).discord_id@ == l[j].player;
            assert(players@[b0].discord_id@ == l[j].player);
        }
    }
    assert forall|b: int| 0 <= b < players@.len() implies player_corrected(c, l, #[trigger] players@[b].discord_id@, i + 1) by {
        if b < ps.len() && players@[b].discord_id@ == ps[b].discord_id@ {
            lemma_player_corrected_grow(c, l, ps[b].discord_id@, i);
        } else {
            assert(l[i].player == players@[b].discord_id@);
            lemma_player_corrected_here(c, l, i);
        }
    }
}

/// Starts a record for the player of entry `i`, who has none yet.
fn add_player(
    players: &mut Vec<PlayerStats>,
    id: String,
    delta: i128,
    Ghost(c): Ghost<CatalogView>,
    Ghost(l): Ghost<Seq<EntryView>>,
    Ghost(i): Ghost<int>,
)
    requires
        0 <= i < l.len(),
        players_ok(c, l, old(players)@, i),
        forall|b: int| 0 <= b < old(players)@.len() ==> #[trigger] old(players)@[b].discord_id@ != id@,
        corrects(c, l, l[i]),
        l[i].player == id@,
        delta == points_now(c, l[i].item_name) - l[i].points,
    ensures
        players_ok(c, l, final(players)@, i + 1),
{
    reveal(players_ok);
    let ghost ps = players@;
    assert(change_upto(c, l, id@, i) == 0) by {
        assert forall|j: int| 0 <= j < i && corrects(c, l, #[trigger] l[j]) implies l[j].player != id@ by {
            let b0 = choose|b: int| 0 <= b < ps.len() && (#[trigger] ps[b]).discord_id@ == l[j].player;
            assert(ps[b0].discord_id@ != id@);
        }
        lemma_change_absent(c, l, id@, i);
    }
    players.push(PlayerStats { discord_id: id, change: delta });
    assert forall|b: int| 0 <= b < players@.len() implies (#[trigger] players@[b]).change as int
        == change_upto(c, l, players@[b].discord_id@, i + 1) by {
        if b < ps.len() {
            assert(players@[b] == ps[b]);
        }
    }
    assert forall|j: int| 0 <= j < i + 1 && corrects(c, l, #[trigger] l[j]) implies exists|b: int|
        0 <= b < players@.len() && (#[trigger] players@[b]).discord_id@ == l[j].player by {
        if j == i {
            assert(players@[ps.len() as int].discord_id@ == l[j].player);
        } else {
            let b0 = choose|b: int| 0 <= b < ps.len() && (#[trigger] ps[b]).discord_id@ == l[j].player;
            assert(players@[b0].discord_id@ == l[j].player);
        }
    }
    assert forall|b: int| 0 <= b < players@.len() implies player_corrected(c, l, #[trigger] players@[b].discord_id@, i + 1) by {
        if b < ps.len() && players@[b].discord_id@ == ps[b].discord_id@ {
            lemma_player_corrected_grow(c, l, ps[b].discord_id@, i);
        } else {
            assert(l[i].player == players@[b].discord_id@);
            lemma_player_corrected_here(c, l, i);
        }
    }
}

/// Counts the correction of entry `i` in the record at `a`, its item's.
#[verifier::rlimit(40)]
fn bump_item(
    items: &mut Vec<ItemData>,
    a: usize,
    Ghost(c): Ghost<CatalogView>,
    Ghost(l): Ghost<Seq<EntryView>>,
    Ghost(i): Ghost<int>,
)
    requires
        0 <= i < l.len() <= u32::MAX,
        a < old(items)@.len(),
        items_ok(c, l, old(items)@, i),
        corrects(c, l, l[i]),
        l[i].item_name == old(items)@[a as int].item_name@,
    ensures
        items_ok(c, l, final(items)@, i + 1),
{
    reveal(items_ok);
    let ghost its = items@;
    let k = items[a].affected;
    assert(k as int == affected_upto(c, l, l[i].item_name, i));
    assert(affected_upto(c, l, l[i].item_name, i) <= i) by {
        lemma_affected_bound(c, l, l[i].item_name, i);
    }
    items[a].affected = k + 1;
    assert(items@[a as int].item_name@ == its[a as int].item_name@);
    assert(items@[a as int].old_points == its[a as int].old_points);
    assert(items@[a as int].points == its[a as int].points);
    assert(items@[a as int].item_id == its[a as int].item_id && items@[a as int].rate == its[a as int].rate
        && items@[a as int].clamp == its[a as int].clamp);
    assert forall|b: int| 0 <= b < items@.len() implies (#[trigger] items@[b]).affected as int
        == affected_upto(c, l, items@[b].item_name@, i + 1) && items@[b].points as int == points_now(c, items@[b].item_name@)
        && is_highest(l, items@[b].item_name@, items@[b].old_points as int) by {
        if b != a {
            assert(items@[b] == its[b]);
        }
    }
    assert forall|j: int| 0 <= j < i + 1 && corrects(c, l, #[trigger] l[j]) implies exists|b: int|
        0 <= b < items@.len() && (#[trigger] items@[b]).item_name@ == l[j].item_name by {
        if j == i {
            assert(items@[a as int].item_name@ == l[j].item_name);
        } else {
            let b0 = choose|b: int| 0 <= b < its.len() && (#[trigger] its[b]).item_name@ == l[j].item_name;
            assert(items@[b0].item_name@ == l[j].item_name);
        }
    }
    assert forall|b: int| 0 <= b < items@.len() implies item_record_ok(c, l, #[trigger] items@[b], i + 1) by {
        lemma_item_record_grow(c, l, its[b], items@[b], i);
    }
}

/// Starts a record for the item of entry `i`, which has none yet.
fn add_item(
    items: &mut Vec<ItemData>,
    data: ItemData,
    Ghost(c): Ghost<CatalogView>,
    Ghost(l): Ghost<Seq<EntryView>>,
    Ghost(i): Ghost<int>,
)
    requires
        0 <= i < l.len(),
        items_ok(c, l, old(items)@, i),
        forall|b: int| 0 <= b < old(items)@.len() ==> #[trigger] old(items)@[b].item_name@ != data.item_name@,
        corrects(c, l, l[i]),
        l[i].item_name == data.item_name@,
        data.affected == 1,
        data.points as int == points_now(c, data.item_name@),
        is_highest(l, data.item_name@, data.old_points as int),
        named_key(c.items, data.item_name@) is Some,
        data.item_id as int == named_key(c.items, data.item_name@)->0,
        data.rate as int == c.items[named_key(c.items, data.item_name@)->0].rate,
        data.clamp == eligible_now(c, data.item_name@),
    ensures
        items_ok(c, l, final(items)@, i + 1),
{
    reveal(items_ok);
    let ghost its = items@;
    let ghost name = data.item_name@;
    assert(affected_upto(c, l, name, i) == 0) by {
        assert forall|j: int| 0 <= j < i && corrects(c, l, #[trigger] l[j]) implies l[j].item_name != name by {
            let b0 = choose|b: int| 0 <= b < its.len() && (#[trigger] its[b]).item_name@ == l[j].item_name;
            assert(its[b0].item_name@ != name);
        }
        lemma_affected_absent(c, l, name, i);
    }
    items.push(data);
    assert forall|b: int| 0 <= b < items@.len() implies (#[trigger] items@[b]).affected as int
        == affected_upto(c, l, items@[b].item_name@, i + 1) && items@[b].points as int == points_now(c, items@[b].item_name@)
        && is_highest(l, items@[b].item_name@, items@[b].old_points as int) by {
        if b < its.len() {
            assert(items@[b] == its[b]);
        }
    }
    assert forall|j: int| 0 <= j < i + 1 && corrects(c, l, #[trigger] l[j]) implies exists|b: int|
        0 <= b < items@.len() && (#[trigger] items@[b]).item_name@ == l[j].item_name by {
        if j == i {
            assert(items@[its.len() as int].item_name@ == l[j].item_name);
        } else {
            let b0 = choose|b: int| 0 <= b < its.len() && (#[trigger] its[b]).item_name@ == l[j].item_name;
            assert(items@[b0].item_name@ == l[j].item_name);
        }
    }
    assert forall|b: int| 0 <= b < items@.len() implies item_record_ok(c, l, #[trigger] items@[b], i + 1) by {
        if b < its.len() {
            lemma_item_record_grow(c, l, its[b], items@[b], i);
        } else {
            lemma_item_record_here(c, l, items@[b], i);
        }
    }
}

proof fn lemma_affected_absent(c: CatalogView, l: Seq<EntryView>, name: Seq<char>, n: int)
    requires
        0 <= n <= l.len(),
        forall|j: int| 0 <= j < n && corrects(c, l, #[trigger] l[j]) ==> l[j].item_name != name,
    ensures
        affected_upto(c, l, name, n) == 0,
    decreases n,
{
    if n > 0 {
        lemma_affected_absent(c, l, name, n - 1);
    }
}

proof fn lemma_affected_bound(c: CatalogView, l: Seq<EntryView>, name: Seq<char>, n: int)
    requires
        0 <= n <= l.len(),
    ensures
        0 <= affected_upto(c, l, name, n) <= n,
    decreases n,
{
    if n > 0 {
        lemma_affected_bound(c, l, name, n - 1);
    }
}

proof fn lemma_corrected_bound(c: CatalogView, l: Seq<EntryView>, n: int)
    requires
        0 <= n <= l.len(),
    ensures
        0 <= corrected_upto(c, l, n) <= n,
    decreases n,
{
    if n > 0 {
        lemma_corrected_bound(c, l, n - 1);
    }
}

/// Re-scores the items whose awards may be stale and corrects the ledger:
/// each entry that `corrects` selects takes the points its item is worth now,
/// and every other entry stays. Reports how many entries changed, the sum of
/// the changes per player, and the changed entries per item.
pub fn handle_recalculate(catalog: &CollectionLogManager, ledger: &mut Vec<ClogRow>) -> (r: Recalculation)
    requires
        catalog.wf(),
        old(ledger)@.len() <= u32::MAX,
    ensures
        ledger_view(final(ledger)@) == reconciled(catalog@, ledger_view(old(ledger)@)),
        r.corrected as int == corrected_upto(
            catalog@,
            ledger_view(old(ledger)@),
            old(ledger)@.len() as int,
        ),
        players_ok(catalog@, ledger_view(old(ledger)@), r.players@, old(ledger)@.len() as int),
        items_ok(catalog@, ledger_view(old(ledger)@), r.items@, old(ledger)@.len() as int),
{
    let ghost c = catalog@;
    let ghost l = ledger_view(ledger@);
    let n = ledger.len();
    let mut decisions: Vec<Option<i64>> = Vec::new();
    let mut highest: Vec<i64> = Vec::new();
    let mut i: usize = 0;
    while i < n
        invariant
            catalog.wf(),
            c == catalog@,
            n == ledger@.len(),
            l == ledger_view(ledger@),
            i <= n,
            decisions@.len() == i,
            highest@.len() == i,
            forall|j: int| 0 <= j < i ==> is_highest(l, l[j].item_name, #[trigger] highest@[j] as int),
            forall|j: int|
                0 <= j < i ==> ((#[trigger] decisions@[j]) is Some <==> corrects(c, l, l[j])),
            forall|j: int|
                0 <= j < i && decisions@[j] is Some ==> (#[trigger] decisions@[j])->0 as int == points_now(
                    c,
                    l[j].item_name,
                ),
        decreases n - i,
    {
        let d = decide(catalog, ledger, i);
        assert(l[i as int] == ledger@[i as int]@);
        decisions.push(d);
        let h = highest_award(ledger, i);
        highest.push(h);
        i = i + 1;
    }
    let ghost l0 = ledger@;
    let mut corrected: u64 = 0;
    let mut items: Vec<ItemData> = Vec::new();
    let mut players: Vec<PlayerStats> = Vec::new();
    proof {
        lemma_reports_start(c, l);
    }
    let mut i: usize = 0;
    while i < n
        invariant
            catalog.wf(),
            c == catalog@,
            n == ledger@.len(),
            n == l.len(),
            n <= u32::MAX,
            i <= n,
            l == ledger_view(l0),
            decisions@.len() == n,
            highest@.len() == n,
            forall|j: int| 0 <= j < n ==> is_highest(l, l[j].item_name, #[trigger] highest@[j] as int),
            forall|j: int|
                0 <= j < n ==> ((#[trigger] decisions@[j]) is Some <==> corrects(c, l, l[j])),
            forall|j: int|
                0 <= j < n && decisions@[j] is Some ==> (#[trigger] decisions@[j])->0 as int == points_now(
                    c,
                    l[j].item_name,
                ),
            forall|j: int| 0 <= j < i ==> #[trigger] ledger_view(ledger@)[j] == reconciled(c, l)[j],
            forall|j: int| i <= j < n ==> #[trigger] ledger_view(ledger@)[j] == l[j],
            corrected as int == corrected_upto(c, l, i as int),
            players_ok(c, l, players@, i as int),
            items_ok(c, l, items@, i as int),
        decreases n - i,
    {
        assert(ledger_view(ledger@)[i as int] == ledger@[i as int]@);
        let ghost prev = ledger@;
        match decisions[i] {
            None => {
                proof {
                    lemma_players_skip(c, l, players@, i as int);
                    lemma_items_skip(c, l, items@, i as int);
                }
            },
            Some(p) => {
                let old_points = ledger[i].points;
                let delta: i128 = p as i128 - old_points as i128;
                ledger[i].points = p;
                proof {
                    lemma_corrected_bound(c, l, i as int);
                    assert forall|j: int|
                        0 <= j < i + 1 && corrects(c, l, #[trigger] l[j]) implies -0x1_0000_0000_0000_0000
                            < points_now(c, l[j].item_name) - l[j].points < 0x1_0000_0000_0000_0000 by {
                        assert(decisions@[j] is Some);
                        assert(l[j] == l0[j]@);
                    }
                    lemma_change_bound(c, l, l[i as int].player, i + 1);
                }
                corrected = corrected + 1;
                let id = ledger[i].discord_id.clone();
                match find_player(&players, &id) {
                    Some(a) => bump_player(&mut players, a, delta, Ghost(c), Ghost(l), Ghost(i as int)),
                    None => add_player(&mut players, id, delta, Ghost(c), Ghost(l), Ghost(i as int)),
                }
                let name = ledger[i].item_name.clone();
                match find_item(&items, &name) {
                    Some(a) => bump_item(&mut items, a, Ghost(c), Ghost(l), Ghost(i as int)),
                    None => {
                        let d = catalog.fetch_item_detail(name.as_str());
                        match d {
                            Some(d) => {
                                let data = ItemData {
                                    item_id: d.item_id,
                                    item_name: name,
                                    rate: d.rate,
                                    clamp: !d.whitelist && d.clamped,
                                    old_points: highest[i],
                                    points: d.points,
                                    affected: 1,
                                };
                                assert(is_highest(l, l[i as int].item_name, highest@[i as int] as int));
                                add_item(&mut items, data, Ghost(c), Ghost(l), Ghost(i as int));
                            },
                            None => {
                                assert(false);
                            },
                        }
                    },
                }
            },
        }
        proof {
            assert forall|j: int| 0 <= j < n && j != i implies #[trigger] ledger_view(ledger@)[j] == ledger_view(prev)[j] by {
                assert(ledger@[j] == prev[j]);
            }
            assert(ledger_view(ledger@)[i as int] == ledger@[i as int]@);
            assert(ledger_view(ledger@)[i as int] == reconciled(c, l)[i as int]);
        }
        i = i + 1;
    }
    assert(ledger_view(ledger@) =~= reconciled(c, l));
    Recalculation { corrected, items, players }
}

} // verus!
