use clog_points::table::{decode_title, parse_rate, parse_row, parse_table, RawCell, RawLink, RawRow};
use clog_points::text::split_commas;

fn cell(links: Vec<RawLink>, text: &str) -> RawCell {
    let first = if text.is_empty() { None } else { Some(text.to_string()) };
    RawCell { links, text: text.to_string(), first_text: first }
}

fn row(id: &str, title: Option<&str>, text: &str, cats: &str, rate: &str) -> RawRow {
    let name_links = vec![
        RawLink { title: None, text: String::new() },
        RawLink { title: title.map(|t| t.to_string()), text: text.to_string() },
    ];
    RawRow {
        item_id: id.to_string(),
        cells: vec![cell(name_links, text), cell(Vec::new(), cats), cell(Vec::new(), rate)],
    }
}

#[test]
fn below_floor_rate_parses_to_tenth_percent() {
    assert_eq!(parse_rate("<0.1%"), Some(100));
    let item = parse_row(&row("6571", Some("Uncut onyx"), "Uncut onyx", "Zulrah", "<0.1%")).unwrap();
    assert_eq!(item.rate, 100);
}

#[test]
fn item_name_comes_from_second_link_title() {
    let item = parse_row(&row(
        "6571",
        Some("Uncut onyx"),
        "Uncut Onyx",
        "Fortis Colosseum, Skotizo, Zalcano, Zulrah, Miscellaneous",
        "17.9%",
    ))
    .unwrap();
    assert_eq!(item.item_id, 6571);
    assert_eq!(item.item_name, "Uncut onyx");
    assert_eq!(item.preferred_name, "Uncut Onyx");
    assert_eq!(item.rate, 17900);
    assert_eq!(
        item.categories,
        vec!["Fortis Colosseum", "Skotizo", "Zalcano", "Zulrah", "Miscellaneous"]
    );
}

#[test]
fn rates_outside_range_are_excluded() {
    let rows = vec![
        row("1", Some("A"), "A", "X", "0%"),
        row("2", Some("B"), "B", "X", "150%"),
        row("3", Some("C"), "C", "X", "abc"),
        row("4", Some("D"), "D", "X", "100%"),
        row("5", Some("E"), "E", "X", " 12.4% "),
    ];
    let items = parse_table(&rows);
    assert_eq!(items.len(), 2);
    assert_eq!(items[0].item_name, "D");
    assert_eq!(items[0].rate, 100000);
    assert_eq!(items[1].rate, 12400);
    for it in &items {
        assert!(it.rate > 0 && it.rate <= 100000);
    }
}

#[test]
fn rate_text_forms() {
    assert_eq!(parse_rate("12"), Some(12000));
    assert_eq!(parse_rate("0.25%"), Some(250));
    assert_eq!(parse_rate(".5%"), Some(500));
    assert_eq!(parse_rate("1.2345%"), Some(1235));
    assert_eq!(parse_rate("1.2344%"), Some(1234));
    assert_eq!(parse_rate("99.99951%"), Some(100000));
    assert_eq!(parse_rate("0.0004%"), None);
    assert_eq!(parse_rate("17.9%\u{a0}"), Some(17900));
    assert_eq!(parse_rate("\u{2003}5%"), Some(5000));
    assert_eq!(parse_rate("1.2.3%"), None);
    assert_eq!(parse_rate(""), None);
    assert_eq!(parse_rate("<5%"), Some(100));
}

#[test]
fn rows_without_usable_name_or_id_are_skipped() {
    assert!(parse_row(&row("abc", Some("X"), "X", "Y", "1%")).is_none());
    assert!(parse_row(&row("", Some("X"), "X", "Y", "1%")).is_none());
    assert!(parse_row(&row("7", None, "X", "Y", "1%")).is_none());
    assert!(parse_row(&row("7", Some(""), "X", "Y", "1%")).is_none());
    let mut r = row("7", Some("X"), "X", "Y", "1%");
    r.cells[0].links.truncate(1);
    assert!(parse_row(&r).is_none());
    let mut r = row("7", Some("X"), "X", "Y", "1%");
    r.cells.truncate(1);
    assert!(parse_row(&r).is_none());
}

#[test]
fn title_entities_are_decoded() {
    let item = parse_row(&row("9", Some("Ahrim&#039;s hood &amp; robe"), "Ahrim's hood", "Barrows", "3.1%")).unwrap();
    assert_eq!(item.item_name, "Ahrim's hood & robe");
}

#[test]
fn synthetic_categories_are_added() {
    let a = parse_row(&row("10", Some("3rd age longsword"), "3rd age longsword", "Treasure Trails", "0.2%")).unwrap();
    assert_eq!(a.categories, vec!["Treasure Trails", "Third Age"]);
    let b = parse_row(&row("11", Some("Gilded scimitar"), "Gilded scimitar", "Treasure Trails", "1%")).unwrap();
    assert_eq!(b.categories, vec!["Treasure Trails", "Gilded"]);
    let c = parse_row(&row("12", Some("3rd age Gilded thing"), "x", "", "1%")).unwrap();
    assert_eq!(c.categories, vec!["Third Age", "Gilded"]);
}

#[test]
fn commas_split_and_trim() {
    assert_eq!(split_commas(" a ,b,, c\n"), vec!["a", "b", "c"]);
    assert!(split_commas("").is_empty());
}

#[test]
fn rate_is_read_from_the_last_cell() {
    let mut r = row("8", Some("Y"), "Y", "Z", "oops");
    r.cells.push(cell(Vec::new(), "2.5%"));
    assert_eq!(parse_row(&r).unwrap().rate, 2500);
}

#[test]
fn plain_titles_decode_to_themselves() {
    assert_eq!(decode_title("Uncut onyx"), "Uncut onyx");
    assert_eq!(decode_title("A &lt; B"), "A < B");
}
