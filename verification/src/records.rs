//! The record model: expenditure items and money ledger entries.
//! Identifiers are canonical UUID texts, dates are minute-precision
//! stamps, and the numeric cost, amount and score columns are kept
//! as validated decimal number texts, exactly as the record file
//! holds them.

use vstd::prelude::*;
use crate::stamp::{Stamp, stamp_valid};
use crate::syntax::{is_number_text, is_uuid_text};

verus! {

/// One expenditure item.
pub struct ItemRecord {
    pub id: String,
    pub date: Stamp,
    pub product: String,
    pub description: String,
    pub location: String,
    pub reference: String,
    pub cost: String,
    pub urgency: i32,
    pub value: i32,
    pub price_comp: i32,
    pub effect: i32,
    pub justification: String,
    pub recurrence: String,
    pub overall_score: Option<String>,
}

/// The mathematical content of an item record.
#[verifier::ext_equal]
pub struct ItemView {
    pub id: Seq<char>,
    pub date: Stamp,
    pub product: Seq<char>,
    pub description: Seq<char>,
    pub location: Seq<char>,
    pub reference: Seq<char>,
    pub cost: Seq<char>,
    pub urgency: int,
    pub value: int,
    pub price_comp: int,
    pub effect: int,
    pub justification: Seq<char>,
    pub recurrence: Seq<char>,
    pub overall_score: Option<Seq<char>>,
}

impl View for ItemRecord {
    type V = ItemView;

    open spec fn view(&self) -> ItemView {
        ItemView {
            id: self.id@,
            date: self.date,
            product: self.product@,
            description: self.description@,
            location: self.location@,
            reference: self.reference@,
            cost: self.cost@,
            urgency: self.urgency as int,
            value: self.value as int,
            price_comp: self.price_comp as int,
            effect: self.effect as int,
            justification: self.justification@,
            recurrence: self.recurrence@,
            overall_score: match self.overall_score {
                Some(s) => Some(s@),
                None => None,
            },
        }
    }
}

/// The invariant every stored item satisfies: a canonical
/// identifier, a real minute-precision date, number texts in the
/// numeric columns, and an `i32` range on the ratings.
pub open spec fn item_view_valid(v: ItemView) -> bool {
    &&& is_uuid_text(v.id)
    &&& stamp_valid(v.date)
    &&& v.date.second == 0
    &&& is_number_text(v.cost)
    &&& i32::MIN <= v.urgency <= i32::MAX
    &&& i32::MIN <= v.value <= i32::MAX
    &&& i32::MIN <= v.price_comp <= i32::MAX
    &&& i32::MIN <= v.effect <= i32::MAX
    &&& match v.overall_score {
        Some(s) => is_number_text(s),
        None => true,
    }
}

/// One money ledger entry.
pub struct MoneyRecord {
    pub id: String,
    pub date: Stamp,
    pub entry_type: String,
    pub source_or_destination: String,
    pub amount: String,
    pub notes: String,
    pub linked_item_id: Option<String>,
}

/// The mathematical content of a money entry.
#[verifier::ext_equal]
pub struct MoneyView {
    pub id: Seq<char>,
    pub date: Stamp,
    pub entry_type: Seq<char>,
    pub source_or_destination: Seq<char>,
    pub amount: Seq<char>,
    pub notes: Seq<char>,
    pub linked_item_id: Option<Seq<char>>,
}

impl View for MoneyRecord {
    type V = MoneyView;

    open spec fn view(&self) -> MoneyView {
        MoneyView {
            id: self.id@,
            date: self.date,
            entry_type: self.entry_type@,
            source_or_destination: self.source_or_destination@,
            amount: self.amount@,
            notes: self.notes@,
            linked_item_id: match self.linked_item_id {
                Some(s) => Some(s@),
                None => None,
            },
        }
    }
}

/// The invariant every stored money entry satisfies.
pub open spec fn money_view_valid(v: MoneyView) -> bool {
    &&& is_uuid_text(v.id)
    &&& stamp_valid(v.date)
    &&& v.date.second == 0
    &&& is_number_text(v.amount)
    &&& match v.linked_item_id {
        Some(s) => is_uuid_text(s),
        None => true,
    }
}

/// Relies on uuid's `Uuid::new_v4` and its `Display`: a fresh
/// version-4 UUID rendered as 36-character lowercase hyphenated
/// text.
#[verifier::external_body]
fn fresh_uuid_text() -> (r: String)
    ensures
        is_uuid_text(r@),
{
    uuid::Uuid::new_v4().to_string()
}

impl ItemRecord {
    /// A new item with a fresh identifier, no derived score, and
    /// every other field exactly as given; the date must already be
    /// minute precision, as the record file keeps it.
    pub fn new(
        date: Stamp,
        product: String,
        description: String,
        location: String,
        reference: String,
        cost: String,
        urgency: i32,
        value: i32,
        price_comp: i32,
        effect: i32,
        justification: String,
        recurrence: String,
    ) -> (r: ItemRecord)
        requires
            stamp_valid(date),
            date.second == 0,
            is_number_text(cost@),
        ensures
            is_uuid_text(r@.id),
            r@.date == date,
            r@.product == product@,
            r@.description == description@,
            r@.location == location@,
            r@.reference == reference@,
            r@.cost == cost@,
            r@.urgency == urgency as int,
            r@.value == value as int,
            r@.price_comp == price_comp as int,
            r@.effect == effect as int,
            r@.justification == justification@,
            r@.recurrence == recurrence@,
            r@.overall_score is None,
            item_view_valid(r@),
    {
        ItemRecord {
            id: fresh_uuid_text(),
            date,
            product,
            description,
            location,
            reference,
            cost,
            urgency,
            value,
            price_comp,
            effect,
            justification,
            recurrence,
            overall_score: None,
        }
    }
}

impl MoneyRecord {
    /// A new money entry with a fresh identifier and every other
    /// field exactly as given; the date must already be minute
    /// precision, as the record file keeps it.
    pub fn new(
        date: Stamp,
        entry_type: String,
        source_or_destination: String,
        amount: String,
        notes: String,
        linked_item_id: Option<String>,
    ) -> (r: MoneyRecord)
        requires
            stamp_valid(date),
            date.second == 0,
            is_number_text(amount@),
            match linked_item_id {
                Some(s) => is_uuid_text(s@),
                None => true,
            },
        ensures
            is_uuid_text(r@.id),
            r@.date == date,
            r@.entry_type == entry_type@,
            r@.source_or_destination == source_or_destination@,
            r@.amount == amount@,
            r@.notes == notes@,
            r@.linked_item_id == match linked_item_id {
                Some(s) => Some(s@),
                None => None::<Seq<char>>,
            },
            money_view_valid(r@),
    {
        MoneyRecord {
            id: fresh_uuid_text(),
            date,
            entry_type,
            source_or_destination,
            amount,
            notes,
            linked_item_id,
        }
    }
}

} // verus!
