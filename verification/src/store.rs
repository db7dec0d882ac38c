//! The record store's compute core: a whole collection rendered to
//! the text of its backing file and read back from it. An empty
//! collection is an empty file (no header is written then, and none
//! is expected). A non-empty file must open with the fixed header
//! row; every following row must decode, or the whole load fails
//! with `MalformedRecord` — partial collections are never returned.
//! The surrounding file reads, writes and advisory locks live with
//! the caller that owns the file handle.

use vstd::prelude::*;
use crate::codec::{item_row, item_from_row, encode_item_row, decode_item_row,
    lemma_item_row_round_trip, money_row, money_from_row, encode_money_row, decode_money_row,
    lemma_money_row_round_trip};
use crate::delim::{encode_table, parse_table, encode_table_exec, parse_table_exec, views_of,
    views2_of, lemma_table_round_trip};
use crate::errors::StoreError;
use crate::records::{ItemRecord, ItemView, item_view_valid, MoneyRecord, MoneyView,
    money_view_valid};
use crate::stamp::{Stamp, stamp_valid};
use crate::text::{string_to_chars, chars_to_string};

verus! {

/// The header row of an item file.
pub open spec fn item_header() -> Seq<Seq<char>> {
    seq![
        "id"@,
        "date"@,
        "product"@,
        "description"@,
        "location"@,
        "reference"@,
        "cost"@,
        "urgency"@,
        "value"@,
        "price_comp"@,
        "effect"@,
        "justification"@,
        "recurrence"@,
        "overall_score"@,
    ]
}

/// The header row of a money file.
pub open spec fn money_header() -> Seq<Seq<char>> {
    seq![
        "id"@,
        "date"@,
        "entry_type"@,
        "source_or_destination"@,
        "amount"@,
        "notes"@,
        "linked_item_id"@,
    ]
}

/// The views of a vector of item records.
pub open spec fn item_views(items: Seq<ItemRecord>) -> Seq<ItemView> {
    Seq::new(items.len(), |i: int| items[i]@)
}

/// The views of a vector of money records.
pub open spec fn money_views(entries: Seq<MoneyRecord>) -> Seq<MoneyView> {
    Seq::new(entries.len(), |i: int| entries[i]@)
}

/// The rows of a collection of items.
pub open spec fn item_rows(vs: Seq<ItemView>) -> Seq<Seq<Seq<char>>> {
    Seq::new(vs.len(), |i: int| item_row(vs[i]))
}

/// The rows of a collection of money entries.
pub open spec fn money_rows(vs: Seq<MoneyView>) -> Seq<Seq<Seq<char>>> {
    Seq::new(vs.len(), |i: int| money_row(vs[i]))
}

/// The file text of an item collection: empty for an empty
/// collection, else the header row and one row per record.
pub open spec fn encode_items_spec(vs: Seq<ItemView>) -> Seq<char> {
    if vs.len() == 0 {
        Seq::empty()
    } else {
        encode_table(seq![item_header()] + item_rows(vs))
    }
}

/// The file text of a money collection.
pub open spec fn encode_money_spec(vs: Seq<MoneyView>) -> Seq<char> {
    if vs.len() == 0 {
        Seq::empty()
    } else {
        encode_table(seq![money_header()] + money_rows(vs))
    }
}

/// Decodes data rows one by one; any bad row fails the lot.
pub open spec fn decode_item_rows(ls: Seq<Seq<Seq<char>>>, now: Stamp) -> Option<Seq<ItemView>>
    decreases ls.len(),
{
    if ls.len() == 0 {
        Some(Seq::empty())
    } else {
        match item_from_row(ls[0], now) {
            None => None,
            Some(v) => match decode_item_rows(ls.drop_first(), now) {
                Some(vs) => Some(seq![v] + vs),
                None => None,
            },
        }
    }
}

/// Decodes money data rows one by one.
pub open spec fn decode_money_rows(ls: Seq<Seq<Seq<char>>>, now: Stamp) -> Option<Seq<MoneyView>>
    decreases ls.len(),
{
    if ls.len() == 0 {
        Some(Seq::empty())
    } else {
        match money_from_row(ls[0], now) {
            None => None,
            Some(v) => match decode_money_rows(ls.drop_first(), now) {
                Some(vs) => Some(seq![v] + vs),
                None => None,
            },
        }
    }
}

/// What an item file's text decodes to: `None` when the text is not
/// in the table format, when a non-empty file lacks the item
/// header, or when a data row is malformed.
pub open spec fn decode_items_spec(text: Seq<char>, now: Stamp) -> Option<Seq<ItemView>> {
    match parse_table(text, 0) {
        None => None,
        Some(ls) => if ls.len() == 0 {
            Some(Seq::empty())
        } else if ls[0] != item_header() {
            None
        } else {
            decode_item_rows(ls.drop_first(), now)
        },
    }
}

/// What a money file's text decodes to.
pub open spec fn decode_money_spec(text: Seq<char>, now: Stamp) -> Option<Seq<MoneyView>> {
    match parse_table(text, 0) {
        None => None,
        Some(ls) => if ls.len() == 0 {
            Some(Seq::empty())
        } else if ls[0] != money_header() {
            None
        } else {
            decode_money_rows(ls.drop_first(), now)
        },
    }
}

/// Builds the item header row.
fn item_header_row() -> (out: Vec<Vec<char>>)
    ensures
        views_of(out@) == item_header(),
{
    let mut out: Vec<Vec<char>> = Vec::new();
    out.push(string_to_chars("id"));
    out.push(string_to_chars("date"));
    out.push(string_to_chars("product"));
    out.push(string_to_chars("description"));
    out.push(string_to_chars("location"));
    out.push(string_to_chars("reference"));
    out.push(string_to_chars("cost"));
    out.push(string_to_chars("urgency"));
    out.push(string_to_chars("value"));
    out.push(string_to_chars("price_comp"));
    out.push(string_to_chars("effect"));
    out.push(string_to_chars("justification"));
    out.push(string_to_chars("recurrence"));
    out.push(string_to_chars("overall_score"));
    proof {
        assert(views_of(out@) =~= item_header());
    }
    out
}

/// Builds the money header row.
fn money_header_row() -> (out: Vec<Vec<char>>)
    ensures
        views_of(out@) == money_header(),
{
    let mut out: Vec<Vec<char>> = Vec::new();
    out.push(string_to_chars("id"));
    out.push(string_to_chars("date"));
    out.push(string_to_chars("entry_type"));
    out.push(string_to_chars("source_or_destination"));
    out.push(string_to_chars("amount"));
    out.push(string_to_chars("notes"));
    out.push(string_to_chars("linked_item_id"));
    proof {
        assert(views_of(out@) =~= money_header());
    }
    out
}

/// Character-for-character equality of two cells.
fn chars_eq(a: &Vec<char>, b: &Vec<char>) -> (r: bool)
    ensures
        r == (a@ == b@),
{
    let n = a.len();
    if n != b.len() {
        return false;
    }
    let mut i: usize = 0;
    while i < n
        invariant
            i <= n,
            n == a@.len(),
            n == b@.len(),
            forall|j: int| 0 <= j < i ==> a@[j] == b@[j],
        decreases n - i,
    {
        if a[i] != b[i] {
            return false;
        }
        i = i + 1;
    }
    proof {
        assert(a@ =~= b@);
    }
    true
}

/// Whether a parsed row is exactly the expected header row.
fn row_matches(row: &Vec<Vec<char>>, expected: &Vec<Vec<char>>) -> (r: bool)
    ensures
        r == (views_of(row@) == views_of(expected@)),
{
    let n = row.len();
    if n != expected.len() {
        proof {
            assert(views_of(row@).len() != views_of(expected@).len());
        }
        return false;
    }
    let mut i: usize = 0;
    while i < n
        invariant
            i <= n,
            n == row@.len(),
            n == expected@.len(),
            forall|j: int| 0 <= j < i ==> views_of(row@)[j] == views_of(expected@)[j],
        decreases n - i,
    {
        if !chars_eq(&row[i], &expected[i]) {
            proof {
                assert(views_of(row@)[i as int] != views_of(expected@)[i as int]);
            }
            return false;
        }
        i = i + 1;
    }
    proof {
        assert(views_of(row@) =~= views_of(expected@));
    }
    true
}

/// Renders a whole item collection as its file text.
pub fn encode_items(items: &Vec<ItemRecord>) -> (out: String)
    requires
        forall|i: int| 0 <= i < items@.len() ==> stamp_valid(#[trigger] items@[i]@.date),
    ensures
        out@ == encode_items_spec(item_views(items@)),
{
    let n = items.len();
    if n == 0 {
        return String::new();
    }
    let mut table: Vec<Vec<Vec<char>>> = Vec::new();
    let header = item_header_row();
    proof {
        crate::delim::lemma_views2_push(table@, header);
        assert(item_views(items@).subrange(0, 0) =~= Seq::<ItemView>::empty());
        assert(item_rows(Seq::<ItemView>::empty()) =~= Seq::<Seq<Seq<char>>>::empty());
        assert(views2_of(table@).push(views_of(header@)) =~= seq![item_header()] + item_rows(
            item_views(items@).subrange(0, 0),
        ));
    }
    table.push(header);
    let mut i: usize = 0;
    while i < n
        invariant
            i <= n,
            n == items@.len(),
            forall|k: int| 0 <= k < items@.len() ==> stamp_valid(#[trigger] items@[k]@.date),
            views2_of(table@) =~= seq![item_header()] + item_rows(
                item_views(items@).subrange(0, i as int),
            ),
        decreases n - i,
    {
        let row = encode_item_row(&items[i]);
        proof {
            crate::delim::lemma_views2_push(table@, row);
            let vso = item_views(items@).subrange(0, i as int);
            let vsn = item_views(items@).subrange(0, i as int + 1);
            assert(item_rows(vsn) =~= item_rows(vso).push(item_row(items@[i as int]@)));
            assert((seq![item_header()] + item_rows(vsn)) =~= (seq![item_header()] + item_rows(
                vso,
            )).push(item_row(items@[i as int]@)));
        }
        table.push(row);
        i = i + 1;
    }
    proof {
        assert(item_views(items@).subrange(0, n as int) =~= item_views(items@));
    }
    let chars = encode_table_exec(&table);
    chars_to_string(&chars)
}

/// Renders a whole money collection as its file text.
pub fn encode_money(entries: &Vec<MoneyRecord>) -> (out: String)
    requires
        forall|i: int| 0 <= i < entries@.len() ==> stamp_valid(#[trigger] entries@[i]@.date),
    ensures
        out@ == encode_money_spec(money_views(entries@)),
{
    let n = entries.len();
    if n == 0 {
        return String::new();
    }
    let mut table: Vec<Vec<Vec<char>>> = Vec::new();
    let header = money_header_row();
    proof {
        crate::delim::lemma_views2_push(table@, header);
        assert(money_views(entries@).subrange(0, 0) =~= Seq::<MoneyView>::empty());
        assert(money_rows(Seq::<MoneyView>::empty()) =~= Seq::<Seq<Seq<char>>>::empty());
        assert(views2_of(table@).push(views_of(header@)) =~= seq![money_header()] + money_rows(
            money_views(entries@).subrange(0, 0),
        ));
    }
    table.push(header);
    let mut i: usize = 0;
    while i < n
        invariant
            i <= n,
            n == entries@.len(),
            forall|k: int| 0 <= k < entries@.len() ==> stamp_valid(#[trigger] entries@[k]@.date),
            views2_of(table@) =~= seq![money_header()] + money_rows(
                money_views(entries@).subrange(0, i as int),
            ),
        decreases n - i,
    {
        let row = encode_money_row(&entries[i]);
        proof {
            crate::delim::lemma_views2_push(table@, row);
            let vso = money_views(entries@).subrange(0, i as int);
            let vsn = money_views(entries@).subrange(0, i as int + 1);
            assert(money_rows(vsn) =~= money_rows(vso).push(money_row(entries@[i as int]@)));
            assert((seq![money_header()] + money_rows(vsn)) =~= (seq![money_header()] + money_rows(
                vso,
            )).push(money_row(entries@[i as int]@)));
        }
        table.push(row);
        i = i + 1;
    }
    proof {
        assert(money_views(entries@).subrange(0, n as int) =~= money_views(entries@));
    }
    let chars = encode_table_exec(&table);
    chars_to_string(&chars)
}

/// Reads a whole item collection back from its file text; `now`
/// replaces any unreadable date. Returns `Ok` exactly when the text
/// decodes, and `MalformedRecord` otherwise; the collection keeps
/// file order.
pub fn decode_items(text: &str, now: Stamp) -> (r: Result<Vec<ItemRecord>, StoreError>)
    requires
        stamp_valid(now),
        now.second == 0,
    ensures
        match r {
            Ok(v) => decode_items_spec(text@, now) == Some(item_views(v@)) && forall|i: int|
                0 <= i < v@.len() ==> item_view_valid(#[trigger] v@[i]@),
            Err(e) => decode_items_spec(text@, now) is None && e matches
                StoreError::MalformedRecord(_),
        },
{
    let chars = string_to_chars(text);
    let table = match parse_table_exec(&chars) {
        Some(t) => t,
        None => {
            return Err(StoreError::MalformedRecord(String::from_str("unreadable record file")));
        },
    };
    let n = table.len();
    if n == 0 {
        let empty: Vec<ItemRecord> = Vec::new();
        proof {
            assert(item_views(empty@) =~= Seq::<ItemView>::empty());
        }
        return Ok(empty);
    }
    let header = item_header_row();
    if !row_matches(&table[0], &header) {
        proof {
            assert(views2_of(table@)[0] == views_of(table@[0]@));
        }
        return Err(StoreError::MalformedRecord(String::from_str("unexpected header row")));
    }
    let ghost rows = views2_of(table@).drop_first();
    let mut out: Vec<ItemRecord> = Vec::new();
    let mut i: usize = 1;
    proof {
        assert(views2_of(table@)[0] == views_of(table@[0]@));
        assert(rows =~= views2_of(table@).subrange(1, n as int));
        if let Some(vs) = decode_item_rows(rows, now) {
            assert(item_views(out@) + vs =~= vs);
        }
    }
    while i < n
        invariant
            1 <= i <= n,
            n == table@.len(),
            stamp_valid(now),
            now.second == 0,
            rows == views2_of(table@).subrange(1, n as int),
            rows == views2_of(table@).drop_first(),
            parse_table(text@, 0) == Some(views2_of(table@)),
            views2_of(table@)[0] == item_header(),
            forall|k: int| 0 <= k < out@.len() ==> item_view_valid(#[trigger] out@[k]@),
            decode_item_rows(rows, now) == match decode_item_rows(
                views2_of(table@).subrange(i as int, n as int),
                now,
            ) {
                Some(vs) => Some(item_views(out@) + vs),
                None => None::<Seq<ItemView>>,
            },
        decreases n - i,
    {
        let ghost rest = views2_of(table@).subrange(i as int, n as int);
        proof {
            assert(rest[0] == views_of(table@[i as int]@));
            assert(rest.drop_first() =~= views2_of(table@).subrange(i as int + 1, n as int));
        }
        let rec = match decode_item_row(&table[i], now) {
            Some(rec) => rec,
            None => {
                return Err(
                    StoreError::MalformedRecord(String::from_str("malformed record row")),
                );
            },
        };
        proof {
            if let Some(vs) = decode_item_rows(rest.drop_first(), now) {
                assert(item_views(out@) + (seq![rec@] + vs) =~= item_views(out@.push(rec)) + vs);
            }
        }
        out.push(rec);
        i = i + 1;
    }
    proof {
        assert(views2_of(table@).subrange(n as int, n as int)
            =~= Seq::<Seq<Seq<char>>>::empty());
        assert(item_views(out@) + Seq::<ItemView>::empty() =~= item_views(out@));
    }
    Ok(out)
}

/// Reads a whole money collection back from its file text.
pub fn decode_money(text: &str, now: Stamp) -> (r: Result<Vec<MoneyRecord>, StoreError>)
    requires
        stamp_valid(now),
        now.second == 0,
    ensures
        match r {
            Ok(v) => decode_money_spec(text@, now) == Some(money_views(v@)) && forall|i: int|
                0 <= i < v@.len() ==> money_view_valid(#[trigger] v@[i]@),
            Err(e) => decode_money_spec(text@, now) is None && e matches
                StoreError::MalformedRecord(_),
        },
{
    let chars = string_to_chars(text);
    let table = match parse_table_exec(&chars) {
        Some(t) => t,
        None => {
            return Err(StoreError::MalformedRecord(String::from_str("unreadable record file")));
        },
    };
    let n = table.len();
    if n == 0 {
        let empty: Vec<MoneyRecord> = Vec::new();
        proof {
            assert(money_views(empty@) =~= Seq::<MoneyView>::empty());
        }
        return Ok(empty);
    }
    let header = money_header_row();
    if !row_matches(&table[0], &header) {
        proof {
            assert(views2_of(table@)[0] == views_of(table@[0]@));
        }
        return Err(StoreError::MalformedRecord(String::from_str("unexpected header row")));
    }
    let ghost rows = views2_of(table@).drop_first();
    let mut out: Vec<MoneyRecord> = Vec::new();
    let mut i: usize = 1;
    proof {
        assert(views2_of(table@)[0] == views_of(table@[0]@));
        assert(rows =~= views2_of(table@).subrange(1, n as int));
        if let Some(vs) = decode_money_rows(rows, now) {
            assert(money_views(out@) + vs =~= vs);
        }
    }
    while i < n
        invariant
            1 <= i <= n,
            n == table@.len(),
            stamp_valid(now),
            now.second == 0,
            rows == views2_of(table@).subrange(1, n as int),
            rows == views2_of(table@).drop_first(),
            parse_table(text@, 0) == Some(views2_of(table@)),
            views2_of(table@)[0] == money_header(),
            forall|k: int| 0 <= k < out@.len() ==> money_view_valid(#[trigger] out@[k]@),
            decode_money_rows(rows, now) == match decode_money_rows(
                views2_of(table@).subrange(i as int, n as int),
                now,
            ) {
                Some(vs) => Some(money_views(out@) + vs),
                None => None::<Seq<MoneyView>>,
            },
        decreases n - i,
    {
        let ghost rest = views2_of(table@).subrange(i as int, n as int);
        proof {
            assert(rest[0] == views_of(table@[i as int]@));
            assert(rest.drop_first() =~= views2_of(table@).subrange(i as int + 1, n as int));
        }
        let rec = match decode_money_row(&table[i], now) {
            Some(rec) => rec,
            None => {
                return Err(
                    StoreError::MalformedRecord(String::from_str("malformed record row")),
                );
            },
        };
        proof {
            if let Some(vs) = decode_money_rows(rest.drop_first(), now) {
                assert(money_views(out@) + (seq![rec@] + vs) =~= money_views(out@.push(rec)) + vs);
            }
        }
        out.push(rec);
        i = i + 1;
    }
    proof {
        assert(views2_of(table@).subrange(n as int, n as int)
            =~= Seq::<Seq<Seq<char>>>::empty());
        assert(money_views(out@) + Seq::<MoneyView>::empty() =~= money_views(out@));
    }
    Ok(out)
}

proof fn lemma_decode_item_rows_of_rows(vs: Seq<ItemView>, now: Stamp)
    requires
        forall|i: int| 0 <= i < vs.len() ==> item_view_valid(#[trigger] vs[i]),
    ensures
        decode_item_rows(item_rows(vs), now) == Some(vs),
    decreases vs.len(),
{
    let ls = item_rows(vs);
    if vs.len() == 0 {
        assert(ls.len() == 0);
        assert(vs =~= Seq::<ItemView>::empty());
    } else {
        assert(ls[0] == item_row(vs[0]));
        lemma_item_row_round_trip(vs[0], now);
        assert(ls.drop_first() =~= item_rows(vs.drop_first()));
        assert(forall|i: int|
            0 <= i < vs.drop_first().len() ==> item_view_valid(#[trigger] vs.drop_first()[i]));
        lemma_decode_item_rows_of_rows(vs.drop_first(), now);
        assert(seq![vs[0]] + vs.drop_first() =~= vs);
    }
}

proof fn lemma_decode_money_rows_of_rows(vs: Seq<MoneyView>, now: Stamp)
    requires
        forall|i: int| 0 <= i < vs.len() ==> money_view_valid(#[trigger] vs[i]),
    ensures
        decode_money_rows(money_rows(vs), now) == Some(vs),
    decreases vs.len(),
{
    let ls = money_rows(vs);
    if vs.len() == 0 {
        assert(ls.len() == 0);
        assert(vs =~= Seq::<MoneyView>::empty());
    } else {
        assert(ls[0] == money_row(vs[0]));
        lemma_money_row_round_trip(vs[0], now);
        assert(ls.drop_first() =~= money_rows(vs.drop_first()));
        assert(forall|i: int|
            0 <= i < vs.drop_first().len() ==> money_view_valid(#[trigger] vs.drop_first()[i]));
        lemma_decode_money_rows_of_rows(vs.drop_first(), now);
        assert(seq![vs[0]] + vs.drop_first() =~= vs);
    }
}

/// The collection round trip: the file text of any valid item
/// collection — optional columns absent or present — decodes back
/// to exactly that collection, whatever fallback stamp the reader
/// uses.
pub proof fn lemma_items_round_trip(vs: Seq<ItemView>, now: Stamp)
    requires
        forall|i: int| 0 <= i < vs.len() ==> item_view_valid(#[trigger] vs[i]),
    ensures
        decode_items_spec(encode_items_spec(vs), now) == Some(vs),
{
    if vs.len() == 0 {
        let empty = Seq::<char>::empty();
        assert(parse_table(empty, 0) == Some(Seq::<Seq<Seq<char>>>::empty()));
        assert(vs =~= Seq::<ItemView>::empty());
    } else {
        let ls = seq![item_header()] + item_rows(vs);
        assert forall|r: int| 0 <= r < ls.len() implies #[trigger] ls[r].len() >= 1 by {
            if r > 0 {
                assert(ls[r] == item_row(vs[r - 1]));
            }
        }
        lemma_table_round_trip(ls);
        assert(ls[0] == item_header());
        assert(ls.drop_first() =~= item_rows(vs));
        lemma_decode_item_rows_of_rows(vs, now);
    }
}

/// Empty-file semantics: an empty file text is an empty collection,
/// never an error, whatever fallback stamp the reader uses. A
/// missing file is read the same way by the callers that own the
/// file handles.
pub proof fn lemma_empty_text_empty_collection(now: Stamp)
    ensures
        decode_items_spec(Seq::empty(), now) == Some(Seq::<ItemView>::empty()),
        decode_money_spec(Seq::empty(), now) == Some(Seq::<MoneyView>::empty()),
{
    assert(parse_table(Seq::empty(), 0) == Some(Seq::<Seq<Seq<char>>>::empty()));
}

/// The collection round trip for money entries.
pub proof fn lemma_money_round_trip(vs: Seq<MoneyView>, now: Stamp)
    requires
        forall|i: int| 0 <= i < vs.len() ==> money_view_valid(#[trigger] vs[i]),
    ensures
        decode_money_spec(encode_money_spec(vs), now) == Some(vs),
{
    if vs.len() == 0 {
        let empty = Seq::<char>::empty();
        assert(parse_table(empty, 0) == Some(Seq::<Seq<Seq<char>>>::empty()));
        assert(vs =~= Seq::<MoneyView>::empty());
    } else {
        let ls = seq![money_header()] + money_rows(vs);
        assert forall|r: int| 0 <= r < ls.len() implies #[trigger] ls[r].len() >= 1 by {
            if r > 0 {
                assert(ls[r] == money_row(vs[r - 1]));
            }
        }
        lemma_table_round_trip(ls);
        assert(ls[0] == money_header());
        assert(ls.drop_first() =~= money_rows(vs));
        lemma_decode_money_rows_of_rows(vs, now);
    }
}

/// The items of `s` whose identifier is not `id`, in order.
pub open spec fn items_without_id(s: Seq<ItemRecord>, id: Seq<char>) -> Seq<ItemRecord>
    decreases s.len(),
{
    if s.len() == 0 {
        s
    } else if s.last()@.id == id {
        items_without_id(s.drop_last(), id)
    } else {
        items_without_id(s.drop_last(), id).push(s.last())
    }
}

/// The entries of `s` whose identifier is not `id`, in order.
pub open spec fn money_without_id(s: Seq<MoneyRecord>, id: Seq<char>) -> Seq<MoneyRecord>
    decreases s.len(),
{
    if s.len() == 0 {
        s
    } else if s.last()@.id == id {
        money_without_id(s.drop_last(), id)
    } else {
        money_without_id(s.drop_last(), id).push(s.last())
    }
}

proof fn lemma_items_without_id_len(s: Seq<ItemRecord>, id: Seq<char>)
    ensures
        items_without_id(s, id).len() <= s.len(),
        (items_without_id(s, id).len() == s.len()) <==> (forall|j: int|
            0 <= j < s.len() ==> (#[trigger] s[j])@.id != id),
    decreases s.len(),
{
    if s.len() > 0 {
        lemma_items_without_id_len(s.drop_last(), id);
        if s.last()@.id == id {
        } else {
            if items_without_id(s, id).len() == s.len() {
                assert forall|j: int| 0 <= j < s.len() implies (#[trigger] s[j])@.id != id by {
                    if j < s.len() - 1 {
                        assert(s.drop_last()[j] == s[j]);
                    }
                }
            } else {
                assert(exists|j: int| 0 <= j < s.drop_last().len() && (#[trigger] s.drop_last()[j])@.id == id);
                let j = choose|j: int|
                    0 <= j < s.drop_last().len() && (#[trigger] s.drop_last()[j])@.id == id;
                assert(s[j]@.id == id);
            }
        }
    }
}

proof fn lemma_money_without_id_len(s: Seq<MoneyRecord>, id: Seq<char>)
    ensures
        money_without_id(s, id).len() <= s.len(),
        (money_without_id(s, id).len() == s.len()) <==> (forall|j: int|
            0 <= j < s.len() ==> (#[trigger] s[j])@.id != id),
    decreases s.len(),
{
    if s.len() > 0 {
        lemma_money_without_id_len(s.drop_last(), id);
        if s.last()@.id == id {
        } else {
            if money_without_id(s, id).len() == s.len() {
                assert forall|j: int| 0 <= j < s.len() implies (#[trigger] s[j])@.id != id by {
                    if j < s.len() - 1 {
                        assert(s.drop_last()[j] == s[j]);
                    }
                }
            } else {
                assert(exists|j: int| 0 <= j < s.drop_last().len() && (#[trigger] s.drop_last()[j])@.id == id);
                let j = choose|j: int|
                    0 <= j < s.drop_last().len() && (#[trigger] s.drop_last()[j])@.id == id;
                assert(s[j]@.id == id);
            }
        }
    }
}

/// Equality of a record's identifier and a given identifier text.
fn id_eq(a: &str, b: &str) -> (r: bool)
    ensures
        r == (a@ == b@),
{
    let ca = string_to_chars(a);
    let cb = string_to_chars(b);
    chars_eq(&ca, &cb)
}

/// Index of the first item carrying this identifier.
pub fn find_item_index(items: &Vec<ItemRecord>, id: &str) -> (r: Option<usize>)
    ensures
        match r {
            Some(k) => k < items@.len() && items@[k as int]@.id == id@ && forall|j: int|
                0 <= j < k ==> (#[trigger] items@[j])@.id != id@,
            None => forall|j: int| 0 <= j < items@.len() ==> (#[trigger] items@[j])@.id != id@,
        },
{
    let n = items.len();
    let mut i: usize = 0;
    while i < n
        invariant
            i <= n,
            n == items@.len(),
            forall|j: int| 0 <= j < i ==> (#[trigger] items@[j])@.id != id@,
        decreases n - i,
    {
        if id_eq(items[i].id.as_str(), id) {
            return Some(i);
        }
        i = i + 1;
    }
    None
}

/// Index of the first money entry carrying this identifier.
pub fn find_money_index(entries: &Vec<MoneyRecord>, id: &str) -> (r: Option<usize>)
    ensures
        match r {
            Some(k) => k < entries@.len() && entries@[k as int]@.id == id@ && forall|j: int|
                0 <= j < k ==> (#[trigger] entries@[j])@.id != id@,
            None => forall|j: int| 0 <= j < entries@.len() ==> (#[trigger] entries@[j])@.id != id@,
        },
{
    let n = entries.len();
    let mut i: usize = 0;
    while i < n
        invariant
            i <= n,
            n == entries@.len(),
            forall|j: int| 0 <= j < i ==> (#[trigger] entries@[j])@.id != id@,
        decreases n - i,
    {
        if id_eq(entries[i].id.as_str(), id) {
            return Some(i);
        }
        i = i + 1;
    }
    None
}

/// Removes every item carrying this identifier, keeping the order
/// of the rest; reports whether any was removed.
pub fn delete_item_by_id(items: &mut Vec<ItemRecord>, id: &str) -> (found: bool)
    ensures
        final(items)@ == items_without_id(old(items)@, id@),
        found <==> exists|j: int|
            0 <= j < old(items)@.len() && (#[trigger] old(items)@[j])@.id == id@,
{
    let ghost orig = items@;
    let mut pending: Vec<ItemRecord> = Vec::new();
    core::mem::swap(items, &mut pending);
    let start = pending.len();
    let ghost mut done: Seq<ItemRecord> = Seq::empty();
    proof {
        assert(done + pending@ =~= orig);
        assert(items_without_id(done, id@) =~= items@);
    }
    while pending.len() > 0
        invariant
            done + pending@ == orig,
            items@ == items_without_id(done, id@),
        decreases pending@.len(),
    {
        let ghost pre = pending@;
        let r = pending.remove(0);
        proof {
            assert(pending@ =~= pre.drop_first());
            assert(done.push(r) + pending@ =~= orig);
            assert(done.push(r).drop_last() =~= done);
            assert(done.push(r).last() == r);
        }
        if !id_eq(r.id.as_str(), id) {
            items.push(r);
        }
        proof {
            done = done.push(r);
        }
    }
    proof {
        assert(done =~= orig);
        lemma_items_without_id_len(orig, id@);
    }
    items.len() != start
}

/// Removes every money entry carrying this identifier, keeping the
/// order of the rest; reports whether any was removed.
pub fn delete_money_by_id(entries: &mut Vec<MoneyRecord>, id: &str) -> (found: bool)
    ensures
        final(entries)@ == money_without_id(old(entries)@, id@),
        found <==> exists|j: int|
            0 <= j < old(entries)@.len() && (#[trigger] old(entries)@[j])@.id == id@,
{
    let ghost orig = entries@;
    let mut pending: Vec<MoneyRecord> = Vec::new();
    core::mem::swap(entries, &mut pending);
    let start = pending.len();
    let ghost mut done: Seq<MoneyRecord> = Seq::empty();
    proof {
        assert(done + pending@ =~= orig);
        assert(money_without_id(done, id@) =~= entries@);
    }
    while pending.len() > 0
        invariant
            done + pending@ == orig,
            entries@ == money_without_id(done, id@),
        decreases pending@.len(),
    {
        let ghost pre = pending@;
        let r = pending.remove(0);
        proof {
            assert(pending@ =~= pre.drop_first());
            assert(done.push(r) + pending@ =~= orig);
            assert(done.push(r).drop_last() =~= done);
            assert(done.push(r).last() == r);
        }
        if !id_eq(r.id.as_str(), id) {
            entries.push(r);
        }
        proof {
            done = done.push(r);
        }
    }
    proof {
        assert(done =~= orig);
        lemma_money_without_id_len(orig, id@);
    }
    entries.len() != start
}

} // verus!
