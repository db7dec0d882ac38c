use finance_planner::retention::{BackupEntry, plan_retention, pick_historical,
    sort_entries};
use finance_planner::backup_name::{split_name, backup_file_name};
use finance_planner::stamp::Stamp;
use finance_planner::config::{default_settings, parse_int};

fn entry(name: &str, mtime: Option<u64>) -> BackupEntry {
    BackupEntry { name: name.to_string(), mtime }
}

/// A listing of `count` backups of one stem, newest with the
/// highest modification time and the latest timestamp in its name.
fn stem_listing(stem: &str, count: u64) -> Vec<BackupEntry> {
    let mut listing = Vec::new();
    for k in 0..count {
        let name = format!("{}_2024010100000{}.csv", stem, k);
        listing.push(entry(&name, Some(1000 + k)));
    }
    listing
}

fn names(plan_part: &[String]) -> Vec<&str> {
    plan_part.iter().map(|s| s.as_str()).collect()
}

#[test]
fn boundary_six_candidates_no_deletion() {
    let listing = stem_listing("items", 6);
    let plan = plan_retention(&listing, "items", 3, 3);
    assert!(plan.doomed.is_empty());
    assert_eq!(plan.survivors.len(), 6);
}

#[test]
fn boundary_seven_candidates_one_deletion() {
    let listing = stem_listing("items", 7);
    let plan = plan_retention(&listing, "items", 3, 3);
    // Ranked newest first: ..06, ..05, ..04, ..03, ..02, ..01, ..00.
    // The three newest survive; the rest is four entries, so the
    // stride is max(1, 4 / 3) = 1 and the three picks are the first
    // three of the rest. Only the oldest file goes.
    assert_eq!(plan.doomed, vec!["items_20240101000000.csv".to_string()]);
    assert_eq!(plan.survivors.len(), 6);
    assert_eq!(
        names(&plan.survivors),
        vec![
            "items_20240101000006.csv",
            "items_20240101000005.csv",
            "items_20240101000004.csv",
            "items_20240101000003.csv",
            "items_20240101000002.csv",
            "items_20240101000001.csv",
        ]
    );
}

#[test]
fn stride_sampling_length_ten_keep_three() {
    let paths: Vec<String> = (0..10).map(|k| format!("rest{}", k)).collect();
    let picked = pick_historical(paths, 3);
    // step = max(1, 10 / 3) = 3: indices 0, 3 and 6, never a random
    // subset.
    assert_eq!(names(&picked), vec!["rest0", "rest3", "rest6"]);
}

#[test]
fn stride_sampling_edge_cases() {
    let paths: Vec<String> = (0..4).map(|k| format!("rest{}", k)).collect();
    assert!(pick_historical(paths.clone(), 0).is_empty());
    assert!(pick_historical(Vec::new(), 3).is_empty());
    // Fewer entries than the keep count: everything is taken.
    let picked = pick_historical(paths, 9);
    assert_eq!(names(&picked), vec!["rest0", "rest1", "rest2", "rest3"]);
}

#[test]
fn keep_recent_zero_keeps_only_samples() {
    let listing = stem_listing("items", 4);
    let plan = plan_retention(&listing, "items", 0, 2);
    // rest is everything; step = max(1, 4 / 2) = 2: the newest and
    // the third-newest survive.
    assert_eq!(
        names(&plan.survivors),
        vec!["items_20240101000003.csv", "items_20240101000001.csv"]
    );
    assert_eq!(
        names(&plan.doomed),
        vec!["items_20240101000002.csv", "items_20240101000000.csv"]
    );
}

#[test]
fn keep_historical_zero_keeps_only_recent() {
    let listing = stem_listing("items", 4);
    let plan = plan_retention(&listing, "items", 2, 0);
    assert_eq!(
        names(&plan.survivors),
        vec!["items_20240101000003.csv", "items_20240101000002.csv"]
    );
    assert_eq!(plan.doomed.len(), 2);
}

#[test]
fn stems_do_not_interfere() {
    let mut listing = stem_listing("apples", 7);
    listing.extend(stem_listing("oranges", 2));
    let apples = plan_retention(&listing, "apples", 3, 3);
    assert_eq!(apples.ranked.len(), 7, "only apples files are candidates");
    assert_eq!(apples.doomed, vec!["apples_20240101000000.csv".to_string()]);
    for name in &apples.doomed {
        assert!(name.starts_with("apples"));
    }
    let oranges = plan_retention(&listing, "oranges", 3, 3);
    assert_eq!(oranges.ranked.len(), 2);
    assert!(oranges.doomed.is_empty());
}

#[test]
fn ranking_is_newest_first_with_name_tiebreak() {
    let listing = vec![
        entry("s_b", Some(5)),
        entry("s_d", None),
        entry("s_a", Some(9)),
        entry("s_c", Some(5)),
    ];
    let ranked = sort_entries(listing);
    let got: Vec<&str> = ranked.iter().map(|e| e.name.as_str()).collect();
    // Newest first; the tie at time 5 orders the later name first;
    // an unreadable time ranks oldest.
    assert_eq!(got, vec!["s_a", "s_c", "s_b", "s_d"]);
}

#[test]
fn split_name_cases() {
    assert_eq!(split_name("items.csv"), ("items".to_string(), "csv".to_string()));
    assert_eq!(split_name("noext"), ("noext".to_string(), "bak".to_string()));
    assert_eq!(split_name(".bashrc"), (".bashrc".to_string(), "bak".to_string()));
    assert_eq!(split_name(""), ("file".to_string(), "bak".to_string()));
    assert_eq!(split_name("a.b.c"), ("a.b".to_string(), "c".to_string()));
    assert_eq!(split_name("trailing."), ("trailing".to_string(), "".to_string()));
}

#[test]
fn backup_file_name_exact() {
    let ts = Stamp { year: 2024, month: 3, day: 1, hour: 12, minute: 34, second: 56 };
    assert_eq!(backup_file_name("items", "csv", &ts), "items_20240301123456.csv");
    let pad = Stamp { year: 987, month: 1, day: 2, hour: 3, minute: 4, second: 5 };
    assert_eq!(backup_file_name("money", "bak", &pad), "money_09870102030405.bak");
}

#[test]
fn snapshot_series_end_to_end() {
    // Seven snapshots of items.csv under keep_recent = 2 and
    // keep_historical = 1: the two newest and one sampled older
    // snapshot remain, the other four go.
    let stem = "items";
    let mut listing: Vec<BackupEntry> = Vec::new();
    for k in 0..7u32 {
        let ts = Stamp { year: 2024, month: 5, day: 1, hour: 10, minute: 0, second: k };
        let name = backup_file_name(stem, "csv", &ts);
        listing.push(BackupEntry { name, mtime: Some(1_700_000_000 + k as u64) });
    }
    let plan = plan_retention(&listing, stem, 2, 1);
    // rest is five entries; step = max(1, 5 / 1) = 5, so only the
    // newest of the rest (the third-newest overall) is sampled.
    assert_eq!(
        names(&plan.survivors),
        vec![
            "items_20240501100006.csv",
            "items_20240501100005.csv",
            "items_20240501100004.csv",
        ]
    );
    assert_eq!(plan.doomed.len(), 4);
    assert_eq!(
        names(&plan.doomed),
        vec![
            "items_20240501100003.csv",
            "items_20240501100002.csv",
            "items_20240501100001.csv",
            "items_20240501100000.csv",
        ]
    );
    assert_eq!(plan.ranked.len(), 7);
}

#[test]
fn default_settings_values() {
    let s = default_settings("/home/someone/.local/share/planner");
    assert_eq!(s.paths.items_csv, "/home/someone/.local/share/planner/data/items.csv");
    assert_eq!(s.paths.money_csv, "/home/someone/.local/share/planner/data/money.csv");
    assert_eq!(s.paths.backup_dir, "/home/someone/.local/share/planner/backups");
    assert_eq!(s.backup.keep_recent, 3);
    assert_eq!(s.backup.keep_historical, 3);
    assert_eq!(s.themes.default, "light");
    assert_eq!(s.ui.date_format, "%Y-%m-%d %H:%M");
    assert_eq!(s.ui.currency_symbol, "$");
    assert!(s.ui.autosave);
}

#[test]
fn parse_int_cases() {
    assert_eq!(parse_int(" 42 ", "urgency"), Ok(42));
    assert_eq!(parse_int("\u{00A0}7\u{3000}", "urgency"), Ok(7));
    assert_eq!(parse_int("\u{2003}\t-3\r\n", "urgency"), Ok(-3));
    assert_eq!(parse_int("-7", "value"), Ok(-7));
    assert_eq!(parse_int("+9", "effect"), Ok(9));
    assert_eq!(parse_int("-2147483648", "value"), Ok(i32::MIN));
    assert_eq!(parse_int("2147483647", "value"), Ok(i32::MAX));
    assert_eq!(parse_int("2147483648", "value"), Err("Invalid value".to_string()));
    assert_eq!(parse_int("ten", "urgency"), Err("Invalid urgency".to_string()));
    assert_eq!(parse_int("", "urgency"), Err("Invalid urgency".to_string()));
    assert_eq!(parse_int("4 2", "urgency"), Err("Invalid urgency".to_string()));
}
