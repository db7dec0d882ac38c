//! The record codec: a lossless mapping between a record and its
//! row of fields, in the fixed column order of the record file. An
//! absent optional column (score, linked identifier) is written as
//! an empty cell. A timestamp cell that does not parse is read as
//! the caller's fallback stamp; every other malformed cell fails
//! the row.

use vstd::prelude::*;
use crate::records::{ItemRecord, ItemView, item_view_valid, MoneyRecord, MoneyView,
    money_view_valid};
use crate::stamp::{Stamp, stamp_valid, stamp_text, parse_stamp_spec, format_stamp,
    parse_stamp_or, lemma_stamp_round_trip};
use crate::syntax::{is_number_text, is_uuid_text, is_number, is_uuid, lemma_number_text_nonempty};
use crate::text::{int_text_of, int_text_value, is_i32_text, push_dec_i32, parse_i32_chars,
    string_to_chars, chars_to_string, lemma_int_text_round_trip};
use crate::delim::views_of;

verus! {

/// How an optional score column is written: the text when present,
/// an empty cell when absent.
pub open spec fn option_cell(o: Option<Seq<char>>) -> Seq<char> {
    match o {
        Some(s) => s,
        None => Seq::empty(),
    }
}

/// The row of an item record, in column order: id, date, product,
/// description, location, reference, cost, urgency, value,
/// price_comp, effect, justification, recurrence, overall_score.
pub open spec fn item_row(v: ItemView) -> Seq<Seq<char>> {
    seq![
        v.id,
        stamp_text(v.date),
        v.product,
        v.description,
        v.location,
        v.reference,
        v.cost,
        int_text_of(v.urgency),
        int_text_of(v.value),
        int_text_of(v.price_comp),
        int_text_of(v.effect),
        v.justification,
        v.recurrence,
        option_cell(v.overall_score),
    ]
}

/// What a row of fields decodes to as an item, with `now` standing
/// in for an unreadable date. `None` on a wrong column count, a bad
/// identifier, or a numeric cell that is not a number.
pub open spec fn item_from_row(fs: Seq<Seq<char>>, now: Stamp) -> Option<ItemView> {
    if fs.len() != 14 {
        None
    } else if !is_uuid_text(fs[0]) {
        None
    } else if !is_number_text(fs[6]) {
        None
    } else if !(is_i32_text(fs[7]) && is_i32_text(fs[8]) && is_i32_text(fs[9]) && is_i32_text(
        fs[10],
    )) {
        None
    } else if fs[13].len() != 0 && !is_number_text(fs[13]) {
        None
    } else {
        Some(
            ItemView {
                id: fs[0],
                date: match parse_stamp_spec(fs[1]) {
                    Some(st) => st,
                    None => now,
                },
                product: fs[2],
                description: fs[3],
                location: fs[4],
                reference: fs[5],
                cost: fs[6],
                urgency: int_text_value(fs[7]),
                value: int_text_value(fs[8]),
                price_comp: int_text_value(fs[9]),
                effect: int_text_value(fs[10]),
                justification: fs[11],
                recurrence: fs[12],
                overall_score: if fs[13].len() == 0 {
                    None
                } else {
                    Some(fs[13])
                },
            },
        )
    }
}

/// Renders a signed integer as a fresh character vector.
fn format_i32(v: i32) -> (r: Vec<char>)
    ensures
        r@ == int_text_of(v as int),
{
    let mut out: Vec<char> = Vec::new();
    push_dec_i32(&mut out, v);
    proof {
        assert(out@ =~= int_text_of(v as int));
    }
    out
}

/// Encodes an item record as its row of fields.
pub fn encode_item_row(r: &ItemRecord) -> (out: Vec<Vec<char>>)
    requires
        stamp_valid(r@.date),
    ensures
        views_of(out@) == item_row(r@),
{
    let mut out: Vec<Vec<char>> = Vec::new();
    out.push(string_to_chars(r.id.as_str()));
    out.push(format_stamp(&r.date));
    out.push(string_to_chars(r.product.as_str()));
    out.push(string_to_chars(r.description.as_str()));
    out.push(string_to_chars(r.location.as_str()));
    out.push(string_to_chars(r.reference.as_str()));
    out.push(string_to_chars(r.cost.as_str()));
    out.push(format_i32(r.urgency));
    out.push(format_i32(r.value));
    out.push(format_i32(r.price_comp));
    out.push(format_i32(r.effect));
    out.push(string_to_chars(r.justification.as_str()));
    out.push(string_to_chars(r.recurrence.as_str()));
    match &r.overall_score {
        Some(s) => out.push(string_to_chars(s.as_str())),
        None => out.push(Vec::new()),
    }
    proof {
        assert(views_of(out@) =~= item_row(r@));
    }
    out
}

/// Decodes a row of fields as an item record; `now` replaces an
/// unreadable date.
pub fn decode_item_row(fs: &Vec<Vec<char>>, now: Stamp) -> (r: Option<ItemRecord>)
    requires
        stamp_valid(now),
        now.second == 0,
    ensures
        match r {
            Some(rec) => item_from_row(views_of(fs@), now) == Some(rec@) && item_view_valid(rec@),
            None => item_from_row(views_of(fs@), now) is None,
        },
{
    if fs.len() != 14 {
        return None;
    }
    if !is_uuid(&fs[0]) {
        return None;
    }
    if !is_number(&fs[6]) {
        return None;
    }
    let urgency = match parse_i32_chars(&fs[7]) {
        Some(v) => v,
        None => {
            return None;
        },
    };
    let value = match parse_i32_chars(&fs[8]) {
        Some(v) => v,
        None => {
            return None;
        },
    };
    let price_comp = match parse_i32_chars(&fs[9]) {
        Some(v) => v,
        None => {
            return None;
        },
    };
    let effect = match parse_i32_chars(&fs[10]) {
        Some(v) => v,
        None => {
            return None;
        },
    };
    let overall_score: Option<String> = if fs[13].len() == 0 {
        None
    } else {
        if !is_number(&fs[13]) {
            return None;
        }
        Some(chars_to_string(&fs[13]))
    };
    let date = parse_stamp_or(&fs[1], now);
    let rec = ItemRecord {
        id: chars_to_string(&fs[0]),
        date,
        product: chars_to_string(&fs[2]),
        description: chars_to_string(&fs[3]),
        location: chars_to_string(&fs[4]),
        reference: chars_to_string(&fs[5]),
        cost: chars_to_string(&fs[6]),
        urgency,
        value,
        price_comp,
        effect,
        justification: chars_to_string(&fs[11]),
        recurrence: chars_to_string(&fs[12]),
        overall_score,
    };
    proof {
        assert(item_from_row(views_of(fs@), now) == Some(rec@)) by {
            assert(item_from_row(views_of(fs@), now)->0 =~= rec@);
        }
    }
    Some(rec)
}

/// The item row round trip: a valid item decodes back from its row
/// unchanged, whatever fallback stamp the reader uses.
pub proof fn lemma_item_row_round_trip(v: ItemView, now: Stamp)
    requires
        item_view_valid(v),
    ensures
        item_from_row(item_row(v), now) == Some(v),
{
    let fs = item_row(v);
    lemma_stamp_round_trip(v.date);
    lemma_int_text_round_trip(v.urgency);
    lemma_int_text_round_trip(v.value);
    lemma_int_text_round_trip(v.price_comp);
    lemma_int_text_round_trip(v.effect);
    match v.overall_score {
        Some(s) => {
            lemma_number_text_nonempty(s);
        },
        None => {},
    }
    assert(item_from_row(fs, now)->0 =~= v);
}

/// The row of a money entry, in column order: id, date, entry_type,
/// source_or_destination, amount, notes, linked_item_id.
pub open spec fn money_row(v: MoneyView) -> Seq<Seq<char>> {
    seq![
        v.id,
        stamp_text(v.date),
        v.entry_type,
        v.source_or_destination,
        v.amount,
        v.notes,
        option_cell(v.linked_item_id),
    ]
}

/// What a row of fields decodes to as a money entry.
pub open spec fn money_from_row(fs: Seq<Seq<char>>, now: Stamp) -> Option<MoneyView> {
    if fs.len() != 7 {
        None
    } else if !is_uuid_text(fs[0]) {
        None
    } else if !is_number_text(fs[4]) {
        None
    } else if fs[6].len() != 0 && !is_uuid_text(fs[6]) {
        None
    } else {
        Some(
            MoneyView {
                id: fs[0],
                date: match parse_stamp_spec(fs[1]) {
                    Some(st) => st,
                    None => now,
                },
                entry_type: fs[2],
                source_or_destination: fs[3],
                amount: fs[4],
                notes: fs[5],
                linked_item_id: if fs[6].len() == 0 {
                    None
                } else {
                    Some(fs[6])
                },
            },
        )
    }
}

/// Encodes a money entry as its row of fields.
pub fn encode_money_row(r: &MoneyRecord) -> (out: Vec<Vec<char>>)
    requires
        stamp_valid(r@.date),
    ensures
        views_of(out@) == money_row(r@),
{
    let mut out: Vec<Vec<char>> = Vec::new();
    out.push(string_to_chars(r.id.as_str()));
    out.push(format_stamp(&r.date));
    out.push(string_to_chars(r.entry_type.as_str()));
    out.push(string_to_chars(r.source_or_destination.as_str()));
    out.push(string_to_chars(r.amount.as_str()));
    out.push(string_to_chars(r.notes.as_str()));
    match &r.linked_item_id {
        Some(s) => out.push(string_to_chars(s.as_str())),
        None => out.push(Vec::new()),
    }
    proof {
        assert(views_of(out@) =~= money_row(r@));
    }
    out
}

/// Decodes a row of fields as a money entry; `now` replaces an
/// unreadable date.
pub fn decode_money_row(fs: &Vec<Vec<char>>, now: Stamp) -> (r: Option<MoneyRecord>)
    requires
        stamp_valid(now),
        now.second == 0,
    ensures
        match r {
            Some(rec) => money_from_row(views_of(fs@), now) == Some(rec@) && money_view_valid(
                rec@,
            ),
            None => money_from_row(views_of(fs@), now) is None,
        },
{
    if fs.len() != 7 {
        return None;
    }
    if !is_uuid(&fs[0]) {
        return None;
    }
    if !is_number(&fs[4]) {
        return None;
    }
    let linked_item_id: Option<String> = if fs[6].len() == 0 {
        None
    } else {
        if !is_uuid(&fs[6]) {
            return None;
        }
        Some(chars_to_string(&fs[6]))
    };
    let date = parse_stamp_or(&fs[1], now);
    let rec = MoneyRecord {
        id: chars_to_string(&fs[0]),
        date,
        entry_type: chars_to_string(&fs[2]),
        source_or_destination: chars_to_string(&fs[3]),
        amount: chars_to_string(&fs[4]),
        notes: chars_to_string(&fs[5]),
        linked_item_id,
    };
    proof {
        assert(money_from_row(views_of(fs@), now) == Some(rec@)) by {
            assert(money_from_row(views_of(fs@), now)->0 =~= rec@);
        }
    }
    Some(rec)
}

/// The money row round trip: a valid entry decodes back from its
/// row unchanged, whatever fallback stamp the reader uses.
pub proof fn lemma_money_row_round_trip(v: MoneyView, now: Stamp)
    requires
        money_view_valid(v),
    ensures
        money_from_row(money_row(v), now) == Some(v),
{
    let fs = money_row(v);
    lemma_stamp_round_trip(v.date);
    match v.linked_item_id {
        Some(s) => {
            assert(s.len() == 36);
        },
        None => {},
    }
    assert(money_from_row(fs, now)->0 =~= v);
}

} // verus!
