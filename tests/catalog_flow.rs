use clog_points::catalog::{handle_clamp, handle_whitelist, CollectionLogManager};
use clog_points::reconcile::{handle_recalculate, ClogRow};
use clog_points::table::{RawCell, RawLink, RawRow};

fn cell(links: Vec<RawLink>, text: &str) -> RawCell {
    RawCell { links, text: text.to_string(), first_text: Some(text.to_string()) }
}

fn row(id: &str, name: &str, cats: &str, rate: &str) -> RawRow {
    let name_links = vec![
        RawLink { title: None, text: String::new() },
        RawLink { title: Some(name.to_string()), text: name.to_string() },
    ];
    RawRow {
        item_id: id.to_string(),
        cells: vec![cell(name_links, name), cell(Vec::new(), cats), cell(Vec::new(), rate)],
    }
}

fn document() -> Vec<RawRow> {
    vec![
        row("1", "Pet snakeling", "Zulrah", "0.5%"),
        row("2", "Uncut onyx", "Zalcano, Zulrah", "17.9%"),
        row("3", "Bones", "Miscellaneous", "60%"),
        row("4", "Broken row", "Zulrah", "n/a"),
    ]
}

fn entry(id: i64, player: &str, item: &str, points: i64) -> ClogRow {
    ClogRow { id, discord_id: player.to_string(), points, item_name: item.to_string() }
}

#[test]
fn ingestion_counts_and_scores() {
    let mut m = CollectionLogManager::new();
    assert_eq!(m.ingest(&document()), 3);
    assert_eq!(m.lookup_rate("Uncut onyx"), Some(17900));
    assert_eq!(m.lookup_rate("Broken row"), None);
    assert_eq!(m.calculate_points("Bones"), Some(70));
    assert_eq!(m.calculate_points("Pet snakeling"), Some(8485));
    assert_eq!(m.calculate_points("Nothing"), None);
}

#[test]
fn ingesting_twice_keeps_the_same_state() {
    let mut once = CollectionLogManager::new();
    once.ingest(&document());
    let mut twice = CollectionLogManager::new();
    twice.ingest(&document());
    assert!(handle_clamp(&mut twice, "Zulrah", true));
    assert!(handle_clamp(&mut once, "Zulrah", true));
    twice.ingest(&document());
    let mut a = once.get_category_suggestions("");
    let mut b = twice.get_category_suggestions("");
    a.sort();
    b.sort();
    assert_eq!(a, b);
    assert_eq!(a, vec!["Miscellaneous", "Zalcano", "Zulrah"]);
    for name in ["Pet snakeling", "Uncut onyx", "Bones"] {
        assert_eq!(once.lookup_rate(name), twice.lookup_rate(name));
        assert_eq!(once.calculate_points(name), twice.calculate_points(name));
    }
    assert_eq!(twice.calculate_points("Pet snakeling"), Some(3000));
}

#[test]
fn reingestion_overwrites_rate_and_keeps_whitelist() {
    let mut m = CollectionLogManager::new();
    m.ingest(&document());
    assert!(handle_whitelist(&mut m, "Pet snakeling", true));
    m.ingest(&vec![row("1", "Pet snakeling", "Zulrah", "1%")]);
    let d = m.fetch_item_detail("Pet snakeling").unwrap();
    assert_eq!(d.rate, 1000);
    assert!(d.whitelist);
    assert!(!handle_whitelist(&mut m, "Unknown", true));
    assert!(!handle_clamp(&mut m, "Unknown", true));
}

#[test]
fn suggestions_ignore_case() {
    let mut m = CollectionLogManager::new();
    m.ingest(&document());
    assert_eq!(m.get_suggestions("UNCUT"), vec!["Uncut onyx"]);
    assert_eq!(m.get_category_suggestions("zul"), vec!["Zulrah"]);
    assert!(m.get_suggestions("dragon").is_empty());
}

#[test]
fn suggestions_stop_at_limit() {
    let mut m = CollectionLogManager::new();
    let rows: Vec<RawRow> = (1..=30).map(|i| row(&i.to_string(), &format!("Item {}", i), "Misc", "50%")).collect();
    m.ingest(&rows);
    assert_eq!(m.get_suggestions("item").len(), 25);
}

#[test]
fn corrections_follow_policy() {
    let mut m = CollectionLogManager::new();
    m.ingest(&document());
    handle_clamp(&mut m, "Zulrah", true);
    let mut ledger = vec![
        entry(1, "alice", "Pet snakeling", 8485),
        entry(2, "bob", "Pet snakeling", 2000),
        entry(3, "alice", "Uncut onyx", 100),
        entry(4, "carol", "Bones", 10),
    ];
    let report = handle_recalculate(&m, &mut ledger);
    // clamped item above the ceiling goes down; below it is left alone
    assert_eq!(ledger[0].points, 3000);
    assert_eq!(ledger[1].points, 2000);
    // not a candidate (rate above 10%, not whitelisted, no award above 3000)
    assert_eq!(ledger[2].points, 100);
    assert_eq!(ledger[3].points, 10);
    assert_eq!(report.corrected, 1);
    assert_eq!(report.players.len(), 1);
    assert_eq!(report.players[0].discord_id, "alice");
    assert_eq!(report.players[0].change, -5485);
    assert_eq!(report.items.len(), 1);
    assert_eq!(report.items[0].item_name, "Pet snakeling");
    assert_eq!(report.items[0].old_points, 8485);
    assert_eq!(report.items[0].points, 3000);
    assert_eq!(report.items[0].affected, 1);
    assert_eq!(report.items[0].item_id, 1);
    assert_eq!(report.items[0].rate, 500);
    assert!(report.items[0].clamp);
}

#[test]
fn whitelisted_item_is_raised_not_lowered() {
    let mut m = CollectionLogManager::new();
    m.ingest(&document());
    handle_clamp(&mut m, "Zulrah", true);
    handle_whitelist(&mut m, "Pet snakeling", true);
    let mut ledger = vec![
        entry(1, "alice", "Pet snakeling", 3000),
        entry(2, "bob", "Pet snakeling", 9000),
        entry(3, "alice", "Pet snakeling", 3000),
    ];
    let report = handle_recalculate(&m, &mut ledger);
    assert_eq!(ledger[0].points, 8485);
    assert_eq!(ledger[1].points, 9000);
    assert_eq!(ledger[2].points, 8485);
    assert_eq!(report.corrected, 2);
    assert_eq!(report.players[0].change, 2 * 5485);
    assert_eq!(report.items[0].affected, 2);
    assert_eq!(report.items[0].old_points, 9000);
    assert_eq!(report.items[0].points, 8485);
}

#[test]
fn second_reconciliation_changes_nothing() {
    let mut m = CollectionLogManager::new();
    m.ingest(&document());
    handle_clamp(&mut m, "Zulrah", true);
    let mut ledger = vec![
        entry(1, "alice", "Pet snakeling", 8485),
        entry(2, "bob", "Pet snakeling", 12000),
        entry(3, "carol", "Pet snakeling", 100),
    ];
    let first = handle_recalculate(&m, &mut ledger);
    assert_eq!(first.corrected, 2);
    let after_first: Vec<i64> = ledger.iter().map(|e| e.points).collect();
    let second = handle_recalculate(&m, &mut ledger);
    assert!(second.is_noop());
    assert!(second.players.is_empty());
    let after_second: Vec<i64> = ledger.iter().map(|e| e.points).collect();
    assert_eq!(after_first, after_second);
}

#[test]
fn empty_ledger_is_a_noop() {
    let mut m = CollectionLogManager::new();
    m.ingest(&document());
    let mut ledger: Vec<ClogRow> = Vec::new();
    assert!(handle_recalculate(&m, &mut ledger).is_noop());
}

#[test]
fn suggestions_list_each_name_once() {
    let mut m = CollectionLogManager::new();
    m.ingest(&vec![
        row("1", "Uncut onyx", "Zulrah", "1%"),
        row("2", "Uncut onyx", "Zulrah", "2%"),
        row("3", "Dragon axe", "Zulrah", "3%"),
    ]);
    assert_eq!(m.get_suggestions("ONYX"), vec!["Uncut onyx"]);
    assert_eq!(m.get_category_suggestions("ZUL"), vec!["Zulrah"]);
    assert_eq!(m.lookup_rate("Uncut onyx"), Some(1000));
}
