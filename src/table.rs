//! The rarity table: one record per row that names an item, its categories
//! and its completion rate.
use vstd::prelude::*;
use crate::points::{valid_rate, RATE_FULL};
use crate::text::{
    all_digits, comma_list, contains_seq, contains_str, digits_in, digits_value, first_non_digit,
    is_digit, number_upto, split_commas, trim, trimmed,
};

verus! {

/// A link of a table cell: its `title` attribute, if any, and its text.
pub struct RawLink {
    pub title: Option<String>,
    pub text: String,
}

/// One table cell as it stands in the document.
pub struct RawCell {
    /// The cell's links, in document order.
    pub links: Vec<RawLink>,
    /// The cell's text, all of it concatenated.
    pub text: String,
    /// The cell's first text, if it has any.
    pub first_text: Option<String>,
}

/// One table row as it stands in the document, before any interpretation.
pub struct RawRow {
    /// The row's item-id attribute.
    pub item_id: String,
    /// The row's cells, in document order.
    pub cells: Vec<RawCell>,
}

/// The title of the row's name link (the first cell's second link; the
/// first is its picture), if it has one.
pub open spec fn name_title(row: RawRow) -> Option<String> {
    if row.cells@.len() >= 1 && row.cells@[0].links@.len() >= 2 {
        row.cells@[0].links@[1].title
    } else {
        None
    }
}

/// An item read from the table.
pub struct CollectionLogItem {
    pub item_id: u64,
    pub item_name: String,
    pub preferred_name: String,
    /// Completion rate in thousandths of a percent.
    pub rate: u32,
    pub categories: Vec<String>,
}

/// What a `CollectionLogItem` holds, as mathematical values.
pub struct ItemView {
    pub item_id: int,
    pub item_name: Seq<char>,
    pub preferred_name: Seq<char>,
    pub rate: int,
    pub categories: Seq<Seq<char>>,
}

impl View for CollectionLogItem {
    type V = ItemView;

    open spec fn view(&self) -> ItemView {
        ItemView {
            item_id: self.item_id as int,
            item_name: self.item_name@,
            preferred_name: self.preferred_name@,
            rate: self.rate as int,
            categories: self.categories@.map_values(|c: String| c@),
        }
    }
}

/// What `html_escape::decode_html_entities` makes of a text.
pub uninterp spec fn entities_decoded(s: Seq<char>) -> Seq<char>;

/// Relies on `html_escape::decode_html_entities`: the result depends on the
/// text alone, and a text without `&` holds no entity and comes back as it is.
#[verifier::external_body]
fn decode_entities(s: &str) -> (r: String)
    ensures
        r@ == entities_decoded(s@),
        (forall|i: int| 0 <= i < s@.len() ==> s@[i] != '&') ==> r@ == s@,
{
    html_escape::decode_html_entities(s).into_owned()
}

/// A link title with its HTML entities decoded; a title without `&` is kept as it is.
pub fn decode_title(s: &str) -> (r: String)
    ensures
        r@ == entities_decoded(s@),
        (forall|i: int| 0 <= i < s@.len() ==> s@[i] != '&') ==> r@ == s@,
{
    decode_entities(s)
}

/// The item id that an attribute spells: a non-empty run of digits that fits in `u64`.
pub open spec fn item_id_of(s: Seq<char>) -> Option<int> {
    if s.len() > 0 {
        number_upto(s, u64::MAX as int)
    } else {
        None
    }
}

pub open spec fn strip_percent(s: Seq<char>) -> Seq<char>
    decreases s.len(),
{
    if s.len() > 0 && s.last() == '%' {
        strip_percent(s.drop_last())
    } else {
        s
    }
}

/// `d[p]` is a dot with digits only on either side of it.
pub open spec fn is_dot_split(d: Seq<char>, p: int) -> bool {
    &&& 0 <= p < d.len()
    &&& d[p] == '.'
    &&& all_digits(d.subrange(0, p))
    &&& all_digits(d.subrange(p + 1, d.len() as int))
}

pub open spec fn scale_of(frac_len: int) -> int {
    if frac_len == 0 {
        1000
    } else if frac_len == 1 {
        100
    } else if frac_len == 2 {
        10
    } else {
        1
    }
}

/// The fraction digits `frac` in thousandths, rounded to the nearest
/// thousandth (halves up).
pub open spec fn frac_milli(frac: Seq<char>) -> int {
    if frac.len() <= 3 {
        digits_value(frac) * scale_of(frac.len() as int)
    } else {
        digits_value(frac.subrange(0, 3)) + if frac[3] >= '5' {
            1int
        } else {
            0
        }
    }
}

/// The value in thousandths of a percent of a decimal such as `12`, `12.4` or
/// `.25`, rounded to the nearest thousandth.
pub open spec fn decimal_milli(d: Seq<char>) -> Option<int> {
    if all_digits(d) {
        if d.len() > 0 {
            Some(digits_value(d) * 1000)
        } else {
            None
        }
    } else if exists|p: int| is_dot_split(d, p) {
        let p = choose|p: int| is_dot_split(d, p);
        let whole = d.subrange(0, p);
        let frac = d.subrange(p + 1, d.len() as int);
        if d.len() > 1 {
            Some(digits_value(whole) * 1000 + frac_milli(frac))
        } else {
            None
        }
    } else {
        None
    }
}

/// The completion rate that a rate cell's text gives, in thousandths of a
/// percent: a text that starts with `<` is the floor of 0.1%; otherwise the
/// trimmed text without trailing `%` signs is a decimal. Only rates in
/// (0%, 100%] are kept.
pub open spec fn rate_of(s: Seq<char>) -> Option<int> {
    let t = trimmed(s);
    if t.len() > 0 && t[0] == '<' {
        Some(100)
    } else {
        match decimal_milli(strip_percent(t)) {
            Some(v) => if valid_rate(v) {
                Some(v)
            } else {
                None
            },
            None => None,
        }
    }
}

proof fn lemma_dot_split_unique(d: Seq<char>, p: int, q: int)
    requires
        is_dot_split(d, p),
        is_dot_split(d, q),
    ensures
        p == q,
{
    if p < q {
        assert(d.subrange(0, q)[p] == d[p]);
    } else if q < p {
        assert(d.subrange(0, p)[q] == d[q]);
    }
}

/// Parses the completion rate of a rate cell (see `rate_of`).
pub fn parse_rate(s: &str) -> (r: Option<u32>)
    ensures
        r is Some <==> rate_of(s@) is Some,
        r is Some ==> r->0 as int == rate_of(s@)->0,
        r is Some ==> valid_rate(r->0 as int),
{
    let t = trim(s);
    let ts = t.as_str();
    let n = ts.unicode_len();
    if n > 0 && ts.get_char(0) == '<' {
        return Some(100);
    }
    let mut e: usize = n;
    assert(t@.subrange(0, n as int) =~= t@);
    while e > 0 && ts.get_char(e - 1) == '%'
        invariant
            e <= n == t@.len(),
            ts@ == t@,
            strip_percent(t@) == strip_percent(t@.subrange(0, e as int)),
        decreases e,
    {
        assert(t@.subrange(0, e as int).drop_last() =~= t@.subrange(0, e - 1));
        e = e - 1;
    }
    let ghost d = t@.subrange(0, e as int);
    assert(strip_percent(t@) == d);
    let p = first_non_digit(ts, 0, e);
    if p == e {
        assert(all_digits(d));
        if e == 0 {
            return None;
        }
        let whole = digits_in(ts, 0, e, 100);
        match whole {
            Some(w) => {
                assert(d.subrange(0, e as int) =~= d);
                if w == 0 {
                    return None;
                }
                Some((w * 1000) as u32)
            },
            None => {
                proof {
                    assert(t@.subrange(0, e as int) =~= d);
                }
                None
            },
        }
    } else {
        assert(!all_digits(d)) by {
            assert(d[p as int] == t@[p as int]);
        }
        if ts.get_char(p) != '.' {
            assert forall|q: int| !is_dot_split(d, q) by {
                if is_dot_split(d, q) {
                    if q < p {
                        assert(d[q] == t@[q]);
                    } else if q > p {
                        assert(d.subrange(0, q)[p as int] == d[p as int]);
                    }
                }
            }
            return None;
        }
        let ghost whole_s = d.subrange(0, p as int);
        let ghost frac_s = d.subrange(p + 1, e as int);
        assert(all_digits(whole_s)) by {
            assert forall|k: int| 0 <= k < whole_s.len() implies is_digit(#[trigger] whole_s[k]) by {
                assert(whole_s[k] == t@[k]);
            }
        }
        assert(t@.subrange(0, p as int) =~= whole_s);
        assert(t@.subrange(p + 1, e as int) =~= frac_s);
        let q = first_non_digit(ts, p + 1, e);
        if q < e {
            proof {
                assert(frac_s[q - p - 1] == t@[q as int]);
                assert(!is_dot_split(d, p as int));
                assert forall|r: int| !is_dot_split(d, r) by {
                    if is_dot_split(d, r) {
                        if r < p {
                            assert(d[r] == t@[r]);
                        } else if r > p {
                            assert(d.subrange(0, r)[p as int] == d[p as int]);
                        }
                    }
                }
            }
            return None;
        }
        assert(all_digits(frac_s)) by {
            assert forall|k: int| 0 <= k < frac_s.len() implies is_digit(#[trigger] frac_s[k]) by {
                assert(frac_s[k] == t@[p + 1 + k]);
            }
        }
        assert(is_dot_split(d, p as int));
        proof {
            assert forall|r: int| is_dot_split(d, r) implies r == p by {
                lemma_dot_split_unique(d, p as int, r);
            }
        }
        if e <= 1 {
            return None;
        }
        let flen = e - (p + 1);
        let fm: u64;
        if flen <= 3 {
            proof {
                crate::text::lemma_digits_below(frac_s);
                assert(crate::text::ten_pow(0) == 1);
                assert(crate::text::ten_pow(1) == 10);
                assert(crate::text::ten_pow(2) == 100);
                assert(crate::text::ten_pow(3) == 1000);
                assert(crate::text::ten_pow(frac_s.len()) <= 1000);
            }
            let f = match digits_in(ts, p + 1, e, 999) {
                Some(f) => f,
                None => return None,
            };
            let scale: u64 = if flen == 0 {
                1000
            } else if flen == 1 {
                100
            } else if flen == 2 {
                10
            } else {
                1
            };
            fm = f * scale;
        } else {
            let ghost head = frac_s.subrange(0, 3);
            assert(t@.subrange(p + 1, p + 4) =~= head);
            assert(all_digits(head)) by {
                assert forall|k: int| 0 <= k < head.len() implies is_digit(#[trigger] head[k]) by {
                    assert(head[k] == frac_s[k]);
                }
            }
            proof {
                crate::text::lemma_digits_below(head);
                assert(crate::text::ten_pow(0) == 1);
                assert(crate::text::ten_pow(1) == 10);
                assert(crate::text::ten_pow(2) == 100);
                assert(crate::text::ten_pow(3) == 1000);
            }
            let f = match digits_in(ts, p + 1, p + 4, 999) {
                Some(f) => f,
                None => return None,
            };
            let c4 = ts.get_char(p + 4);
            assert(frac_s[3] == c4);
            fm = if c4 >= '5' {
                f + 1
            } else {
                f
            };
        }
        assert(fm as int == frac_milli(frac_s));
        let whole = digits_in(ts, 0, p, 100);
        match whole {
            None => {
                proof {
                    crate::text::lemma_digits_below(frac_s.subrange(0, 0));
                }
                None
            },
            Some(w) => {
                let v: u64 = w * 1000 + fm;
                if v == 0 || v > RATE_FULL as u64 {
                    return None;
                }
                Some(v as u32)
            },
        }
    }
}

/// Parses an item id attribute (see `item_id_of`).
pub fn parse_item_id(s: &str) -> (r: Option<u64>)
    ensures
        r is Some <==> item_id_of(s@) is Some,
        r is Some ==> r->0 as int == item_id_of(s@)->0,
{
    let n = s.unicode_len();
    if n == 0 {
        return None;
    }
    assert(s@.subrange(0, n as int) =~= s@);
    digits_in(s, 0, n, u64::MAX)
}

/// The categories of an item: those of its row, then "Third Age" for a name
/// that holds "3rd age" and "Gilded" for one that holds "Gilded".
pub open spec fn tagged_categories(name: Seq<char>, listed: Seq<Seq<char>>) -> Seq<Seq<char>> {
    let with_third = if contains_seq(name, "3rd age"@) {
        listed.push("Third Age"@)
    } else {
        listed
    };
    if contains_seq(name, "Gilded"@) {
        with_third.push("Gilded"@)
    } else {
        with_third
    }
}

/// The record that a row gives, if it gives one: its item id parses, its
/// first cell has a second link whose decoded title is not empty, its second
/// cell lists the categories, and the first text of its last cell is a valid
/// rate.
pub open spec fn row_result(row: RawRow) -> Option<ItemView> {
    match item_id_of(row.item_id@) {
        None => None,
        Some(id) => if row.cells@.len() < 2 || row.cells@[0].links@.len() < 2 {
            None
        } else {
            let link = row.cells@[0].links@[1];
            let cats = row.cells@[1].text;
            match (link.title, row.cells@.last().first_text) {
                (Some(title), Some(rate_text)) => {
                    let name = entities_decoded(title@);
                    if name.len() == 0 {
                        None
                    } else {
                        match rate_of(rate_text@) {
                            None => None,
                            Some(rate) => Some(
                                ItemView {
                                    item_id: id,
                                    item_name: name,
                                    preferred_name: link.text@,
                                    rate,
                                    categories: tagged_categories(name, comma_list(cats@)),
                                },
                            ),
                        }
                    }
                },
                _ => None,
            }
        },
    }
}

/// A row gives a record only with a rate in (0%, 100%]: a row whose rate
/// text is missing, unreadable or out of range gives none, whatever else it holds.
pub proof fn lemma_rows_need_valid_rate(row: RawRow)
    ensures
        row_result(row) is Some ==> valid_rate(row_result(row)->0.rate),
        row.cells@.len() >= 2 && (row.cells@.last().first_text is None || rate_of(
            row.cells@.last().first_text->0@,
        ) is None) ==> row_result(row) is None,
{
}

/// Every record read from a table has a rate in (0%, 100%], and a table of
/// rows without a valid rate gives no record.
pub proof fn lemma_table_rates_valid(rows: Seq<RawRow>)
    ensures
        forall|i: int| 0 <= i < table_items(rows).len() ==> valid_rate(#[trigger] table_items(rows)[i].rate),
        (forall|i: int| 0 <= i < rows.len() ==> #[trigger] row_result(rows[i]) is None) ==> table_items(rows).len() == 0,
    decreases rows.len(),
{
    if rows.len() > 0 {
        let before = rows.drop_last();
        lemma_table_rates_valid(before);
        lemma_rows_need_valid_rate(rows.last());
        if forall|i: int| 0 <= i < rows.len() ==> #[trigger] row_result(rows[i]) is None {
            assert forall|i: int| 0 <= i < before.len() implies #[trigger] row_result(before[i]) is None by {
                assert(before[i] == rows[i]);
            }
            assert(row_result(rows[rows.len() - 1]) is None);
        }
    }
}

proof fn lemma_push_views(v: Seq<String>, x: String)
    ensures
        v.push(x).map_values(|c: String| c@) == v.map_values(|c: String| c@).push(x@),
{
    assert(v.push(x).map_values(|c: String| c@) =~= v.map_values(|c: String| c@).push(x@));
}

/// Reads one table row (see `row_result`); rows that give no record are skipped.
pub fn parse_row(row: &RawRow) -> (r: Option<CollectionLogItem>)
    ensures
        r is Some <==> row_result(*row) is Some,
        r is Some ==> r->0@ == row_result(*row)->0,
        r is Some ==> valid_rate(r->0.rate as int),
        r is Some ==> (forall|i: int|
            0 <= i < name_title(*row)->0@.len() ==> name_title(*row)->0@[i] != '&')
            ==> r->0.item_name@ == name_title(*row)->0@,
        name_title(*row) is Some && (forall|i: int|
            0 <= i < name_title(*row)->0@.len() ==> name_title(*row)->0@[i] != '&')
            ==> entities_decoded(name_title(*row)->0@) == name_title(*row)->0@,
{
    if row.cells.len() < 1 || row.cells[0].links.len() < 2 {
        return None;
    }
    let link = &row.cells[0].links[1];
    let title = match &link.title {
        Some(t) => t,
        None => return None,
    };
    let item_name = decode_title(title.as_str());
    let item_id = match parse_item_id(row.item_id.as_str()) {
        Some(id) => id,
        None => return None,
    };
    if row.cells.len() < 2 {
        return None;
    }
    let cats = &row.cells[1].text;
    let rate_text = match &row.cells[row.cells.len() - 1].first_text {
        Some(t) => t,
        None => return None,
    };
    if item_name.unicode_len() == 0 {
        return None;
    }
    let rate = match parse_rate(rate_text.as_str()) {
        Some(r) => r,
        None => return None,
    };
    let mut categories = split_commas(cats.as_str());
    if contains_str(item_name.as_str(), "3rd age") {
        let tag = String::from_str("Third Age");
        proof {
            lemma_push_views(categories@, tag);
        }
        categories.push(tag);
    }
    if contains_str(item_name.as_str(), "Gilded") {
        let tag = String::from_str("Gilded");
        proof {
            lemma_push_views(categories@, tag);
        }
        categories.push(tag);
    }
    Some(CollectionLogItem { item_id, item_name, preferred_name: link.text.clone(), rate, categories })
}

/// The records of the rows that give one, in row order.
pub open spec fn table_items(rows: Seq<RawRow>) -> Seq<ItemView>
    decreases rows.len(),
{
    if rows.len() == 0 {
        Seq::empty()
    } else {
        let before = table_items(rows.drop_last());
        match row_result(rows.last()) {
            Some(item) => before.push(item),
            None => before,
        }
    }
}

/// Reads every row of the table; rows that give no record are left out.
pub fn parse_table(rows: &Vec<RawRow>) -> (r: Vec<CollectionLogItem>)
    ensures
        r@.map_values(|p: CollectionLogItem| p@) == table_items(rows@),
        forall|i: int| 0 <= i < r@.len() ==> valid_rate(#[trigger] r@[i].rate as int),
{
    let mut out: Vec<CollectionLogItem> = Vec::new();
    let mut i: usize = 0;
    while i < rows.len()
        invariant
            i <= rows@.len(),
            out@.map_values(|p: CollectionLogItem| p@) == table_items(rows@.subrange(0, i as int)),
            forall|k: int| 0 <= k < out@.len() ==> valid_rate(#[trigger] out@[k].rate as int),
        decreases rows@.len() - i,
    {
        assert(rows@.subrange(0, i + 1).drop_last() =~= rows@.subrange(0, i as int));
        assert(rows@.subrange(0, i + 1).last() == rows@[i as int]);
        let parsed = parse_row(&rows[i]);
        match parsed {
            Some(item) => {
                let ghost before = out@;
                out.push(item);
                assert(out@.map_values(|p: CollectionLogItem| p@) =~= before.map_values(
                    |p: CollectionLogItem| p@,
                ).push(item@));
            },
            None => {},
        }
        i = i + 1;
    }
    assert(rows@.subrange(0, rows@.len() as int) =~= rows@);
    out
}

} // verus!
