use finance_planner::records::{ItemRecord, MoneyRecord};
use finance_planner::stamp::Stamp;
use finance_planner::store::{encode_items, decode_items, encode_money, decode_money,
    find_item_index, find_money_index, delete_item_by_id, delete_money_by_id};
use finance_planner::errors::StoreError;

fn st(year: u32, month: u32, day: u32, hour: u32, minute: u32) -> Stamp {
    Stamp { year, month, day, hour, minute, second: 0 }
}

fn item(id: &str, date: Stamp, product: &str, cost: &str, score: Option<&str>) -> ItemRecord {
    ItemRecord {
        id: id.to_string(),
        date,
        product: product.to_string(),
        description: String::new(),
        location: "local".to_string(),
        reference: String::new(),
        cost: cost.to_string(),
        urgency: 3,
        value: 4,
        price_comp: 5,
        effect: 2,
        justification: String::new(),
        recurrence: "none".to_string(),
        overall_score: score.map(|s| s.to_string()),
    }
}

const ID0: &str = "00000000-0000-0000-0000-000000000000";
const ID1: &str = "11111111-2222-3333-4444-555555555555";

#[test]
fn item_round_trip_with_score() {
    let items = vec![item(ID0, st(2024, 1, 2, 3, 4), "Widget", "12.50", Some("3.25"))];
    let text = encode_items(&items);
    let back = decode_items(&text, st(1999, 9, 9, 9, 9)).unwrap();
    assert_eq!(back.len(), 1);
    assert_eq!(back[0].id, ID0);
    assert_eq!(back[0].date, st(2024, 1, 2, 3, 4));
    assert_eq!(back[0].product, "Widget");
    assert_eq!(back[0].cost, "12.50");
    assert_eq!(back[0].urgency, 3);
    assert_eq!(back[0].value, 4);
    assert_eq!(back[0].price_comp, 5);
    assert_eq!(back[0].effect, 2);
    assert_eq!(back[0].overall_score.as_deref(), Some("3.25"));
}

#[test]
fn item_round_trip_absent_score() {
    let items = vec![item(ID0, st(2024, 1, 2, 3, 4), "Widget", "12.50", None)];
    let text = encode_items(&items);
    let back = decode_items(&text, st(1999, 9, 9, 9, 9)).unwrap();
    assert_eq!(back[0].overall_score, None);
}

#[test]
fn item_round_trip_awkward_text() {
    let mut rec = item(ID0, st(2024, 12, 31, 23, 59), "a,b\"c\nd", "-0.5", None);
    rec.description = "line one\r\nline two".to_string();
    rec.justification = "said \"why\"".to_string();
    let items = vec![rec];
    let text = encode_items(&items);
    let back = decode_items(&text, st(1999, 9, 9, 9, 9)).unwrap();
    assert_eq!(back[0].product, "a,b\"c\nd");
    assert_eq!(back[0].description, "line one\r\nline two");
    assert_eq!(back[0].justification, "said \"why\"");
}

#[test]
fn item_file_exact_text() {
    let items = vec![item(ID0, st(2024, 1, 2, 3, 4), "Widget", "12.50", None)];
    let text = encode_items(&items);
    let expected = "id,date,product,description,location,reference,cost,urgency,value,\
        price_comp,effect,justification,recurrence,overall_score\n\
        00000000-0000-0000-0000-000000000000,2024-01-02 03:04,Widget,,local,,12.50,3,4,5,2,,none,\n";
    assert_eq!(text, expected);
}

#[test]
fn empty_collection_is_empty_file() {
    let items: Vec<ItemRecord> = Vec::new();
    assert_eq!(encode_items(&items), "");
    let back = decode_items("", st(2000, 1, 1, 0, 0)).unwrap();
    assert!(back.is_empty());
}

#[test]
fn unreadable_date_falls_back_to_now() {
    let text = "id,date,product,description,location,reference,cost,urgency,value,\
        price_comp,effect,justification,recurrence,overall_score\n\
        00000000-0000-0000-0000-000000000000,not a date,Widget,,,,1,1,1,1,1,,none,\n";
    let now = st(2031, 5, 6, 7, 8);
    let back = decode_items(text, now).unwrap();
    assert_eq!(back[0].date, now);
}

#[test]
fn impossible_calendar_date_falls_back() {
    let text = "id,date,product,description,location,reference,cost,urgency,value,\
        price_comp,effect,justification,recurrence,overall_score\n\
        00000000-0000-0000-0000-000000000000,2023-02-29 10:00,Widget,,,,1,1,1,1,1,,none,\n";
    let now = st(2031, 5, 6, 7, 8);
    let back = decode_items(text, now).unwrap();
    assert_eq!(back[0].date, now);
}

#[test]
fn leap_day_parses() {
    let items = vec![item(ID0, st(2024, 2, 29, 0, 0), "Widget", "1", None)];
    let text = encode_items(&items);
    let back = decode_items(&text, st(1999, 9, 9, 9, 9)).unwrap();
    assert_eq!(back[0].date, st(2024, 2, 29, 0, 0));
}

#[test]
fn malformed_cost_aborts_load() {
    let text = "id,date,product,description,location,reference,cost,urgency,value,\
        price_comp,effect,justification,recurrence,overall_score\n\
        00000000-0000-0000-0000-000000000000,2024-01-02 03:04,Widget,,,,ten,1,1,1,1,,none,\n";
    match decode_items(text, st(2000, 1, 1, 0, 0)) {
        Err(StoreError::MalformedRecord(_)) => {}
        other => panic!("expected MalformedRecord, got {:?}", other.is_ok()),
    }
}

#[test]
fn malformed_id_aborts_load() {
    let text = "id,date,product,description,location,reference,cost,urgency,value,\
        price_comp,effect,justification,recurrence,overall_score\n\
        not-a-uuid,2024-01-02 03:04,Widget,,,,1,1,1,1,1,,none,\n";
    assert!(decode_items(text, st(2000, 1, 1, 0, 0)).is_err());
}

#[test]
fn malformed_rating_aborts_load() {
    let text = "id,date,product,description,location,reference,cost,urgency,value,\
        price_comp,effect,justification,recurrence,overall_score\n\
        00000000-0000-0000-0000-000000000000,2024-01-02 03:04,Widget,,,,1,high,1,1,1,,none,\n";
    assert!(decode_items(text, st(2000, 1, 1, 0, 0)).is_err());
}

#[test]
fn wrong_header_aborts_load() {
    let text = "product,cost\nWidget,1\n";
    match decode_items(text, st(2000, 1, 1, 0, 0)) {
        Err(StoreError::MalformedRecord(_)) => {}
        _ => panic!("expected MalformedRecord"),
    }
}

#[test]
fn missing_column_aborts_load() {
    let text = "id,date,product,description,location,reference,cost,urgency,value,\
        price_comp,effect,justification,recurrence,overall_score\n\
        00000000-0000-0000-0000-000000000000,2024-01-02 03:04,Widget,,,,1,1,1,1,1,,none\n";
    assert!(decode_items(text, st(2000, 1, 1, 0, 0)).is_err());
}

#[test]
fn crlf_line_ends_accepted() {
    let text = "id,date,product,description,location,reference,cost,urgency,value,\
        price_comp,effect,justification,recurrence,overall_score\r\n\
        00000000-0000-0000-0000-000000000000,2024-01-02 03:04,Widget,,,,1,1,1,1,1,,none,\r\n";
    let back = decode_items(text, st(2000, 1, 1, 0, 0)).unwrap();
    assert_eq!(back[0].product, "Widget");
}

#[test]
fn money_round_trip_linked_and_unlinked() {
    let entries = vec![
        MoneyRecord {
            id: ID0.to_string(),
            date: st(2024, 6, 1, 12, 0),
            entry_type: "income".to_string(),
            source_or_destination: "salary".to_string(),
            amount: "1000".to_string(),
            notes: String::new(),
            linked_item_id: None,
        },
        MoneyRecord {
            id: ID1.to_string(),
            date: st(2024, 6, 2, 8, 30),
            entry_type: "expense".to_string(),
            source_or_destination: "shop".to_string(),
            amount: "-12.99".to_string(),
            notes: "weekly".to_string(),
            linked_item_id: Some(ID0.to_string()),
        },
    ];
    let text = encode_money(&entries);
    let back = decode_money(&text, st(1999, 9, 9, 9, 9)).unwrap();
    assert_eq!(back.len(), 2);
    assert_eq!(back[0].linked_item_id, None);
    assert_eq!(back[1].linked_item_id.as_deref(), Some(ID0));
    assert_eq!(back[1].amount, "-12.99");
    assert_eq!(back[0].date, st(2024, 6, 1, 12, 0));
}

#[test]
fn constructors_assign_fresh_canonical_ids() {
    let rec = ItemRecord::new(
        Stamp { year: 2024, month: 3, day: 1, hour: 12, minute: 34, second: 0 },
        "Widget".to_string(),
        String::new(),
        "local".to_string(),
        String::new(),
        "12.50".to_string(),
        3,
        3,
        3,
        3,
        String::new(),
        "none".to_string(),
    );
    assert_eq!(rec.id.len(), 36);
    for (i, c) in rec.id.chars().enumerate() {
        if i == 8 || i == 13 || i == 18 || i == 23 {
            assert_eq!(c, '-');
        } else {
            assert!(c.is_ascii_hexdigit());
        }
    }
    assert_eq!(
        rec.date,
        Stamp { year: 2024, month: 3, day: 1, hour: 12, minute: 34, second: 0 },
        "the date is stored exactly as given"
    );
    assert_eq!(rec.overall_score, None);
    let other = MoneyRecord::new(
        st(2024, 3, 1, 0, 0),
        "income".to_string(),
        "salary".to_string(),
        "5".to_string(),
        String::new(),
        None,
    );
    assert_ne!(rec.id, other.id);
}

#[test]
fn find_and_delete_by_id() {
    let mut items = vec![
        item(ID0, st(2024, 1, 1, 0, 0), "first", "1", None),
        item(ID1, st(2024, 1, 2, 0, 0), "second", "2", None),
    ];
    assert_eq!(find_item_index(&items, ID1), Some(1));
    assert_eq!(find_item_index(&items, "99999999-0000-0000-0000-000000000000"), None);
    assert!(delete_item_by_id(&mut items, ID0));
    assert_eq!(items.len(), 1);
    assert_eq!(items[0].product, "second");
    assert!(!delete_item_by_id(&mut items, ID0));
    assert_eq!(items.len(), 1);
}

#[test]
fn find_and_delete_money_by_id() {
    let mut entries = vec![MoneyRecord {
        id: ID0.to_string(),
        date: st(2024, 6, 1, 12, 0),
        entry_type: "income".to_string(),
        source_or_destination: "salary".to_string(),
        amount: "1000".to_string(),
        notes: String::new(),
        linked_item_id: None,
    }];
    assert_eq!(find_money_index(&entries, ID0), Some(0));
    assert!(delete_money_by_id(&mut entries, ID0));
    assert!(entries.is_empty());
    assert!(!delete_money_by_id(&mut entries, ID0));
}

#[test]
fn store_error_messages() {
    assert_eq!(StoreError::LockContention.message(), "lock contention");
    assert_eq!(StoreError::IoError("disk full".to_string()).message(), "disk full");
    assert_eq!(
        StoreError::MalformedRecord("bad row".to_string()).message(),
        "bad row"
    );
}
