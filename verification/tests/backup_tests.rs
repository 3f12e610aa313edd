use chrono::{Datelike, TimeZone, Timelike};
use clawpanel::backup::{
    backup_file_name, check_backup_name, delete_plan, has_json_extension, is_unsafe_backup_name,
    missing_backup_message, backup_name_at, restore_plan, sort_backups, BackupEntry, ClockReading,
};

fn reading(year: i32, month: u32, day: u32, hour: u32, minute: u32, second: u32, nanosecond: u32) -> ClockReading {
    ClockReading { year, month, day, hour, minute, second, nanosecond }
}

#[test]
fn unsafe_names_are_refused() {
    assert!(is_unsafe_backup_name("../openclaw.json"));
    assert!(is_unsafe_backup_name("a..json"));
    assert!(is_unsafe_backup_name("dir/openclaw.json"));
    assert!(is_unsafe_backup_name("dir\\openclaw.json"));
    assert!(!is_unsafe_backup_name("openclaw-20240101-000000.json"));
    assert!(!is_unsafe_backup_name(".json"));
    assert_eq!(check_backup_name("../x"), Err("非法文件名".to_string()));
    assert_eq!(check_backup_name("openclaw-1.json"), Ok(()));
}

#[test]
fn missing_backup_message_names_the_file() {
    assert_eq!(missing_backup_message("a.json"), "备份文件不存在: a.json");
}

#[test]
fn json_extension_as_path_reads_it() {
    assert!(has_json_extension("openclaw-20240101-000000.json"));
    assert!(has_json_extension("a.json"));
    assert!(has_json_extension("..json"));
    assert!(!has_json_extension(".json"));
    assert!(!has_json_extension("json"));
    assert!(!has_json_extension("a.JSON"));
    assert!(!has_json_extension("a.json.bak"));
    assert!(!has_json_extension("a.jsonl"));
}

#[test]
fn backup_names_carry_the_local_time() {
    assert_eq!(backup_file_name(&reading(2024, 3, 5, 7, 8, 9, 0)), "openclaw-20240305-070809.json");
    assert_eq!(backup_file_name(&reading(2025, 12, 31, 23, 59, 59, 999_999_999)), "openclaw-20251231-235959.json");
    // a leap second is written as second 60
    assert_eq!(backup_file_name(&reading(2016, 12, 31, 23, 59, 59, 1_500_000_000)), "openclaw-20161231-235960.json");
    assert_eq!(backup_file_name(&reading(987, 1, 2, 3, 4, 5, 0)), "openclaw-09870102-030405.json");
    assert_eq!(backup_file_name(&reading(10000, 1, 1, 0, 0, 0, 0)), "openclaw-+100000101-000000.json");
    assert_eq!(backup_file_name(&reading(-5, 1, 1, 0, 0, 0, 0)), "openclaw--00050101-000000.json");
}

#[test]
fn backup_names_match_chrono_formatting() {
    let t = chrono::Utc.with_ymd_and_hms(2023, 11, 4, 5, 6, 7).unwrap();
    let expected = format!("openclaw-{}.json", t.format("%Y%m%d-%H%M%S"));
    assert_eq!(backup_file_name(&reading(2023, 11, 4, 5, 6, 7, 0)), expected);
}

#[test]
fn new_backups_can_be_restored_and_listed() {
    let now = chrono::Local::now();
    let c = reading(now.year(), now.month(), now.day(), now.hour(), now.minute(), now.second(), now.nanosecond());
    let name = backup_name_at(&c).unwrap();
    assert!(!is_unsafe_backup_name(&name));
    assert!(has_json_extension(&name));
    assert!(name.starts_with("openclaw-"));
    assert_eq!(name.len(), "openclaw-20240101-000000.json".len());
}

#[test]
fn impossible_readings_give_no_name() {
    assert_eq!(backup_name_at(&reading(2024, 13, 1, 0, 0, 0, 0)), None);
    assert_eq!(backup_name_at(&reading(2024, 1, 0, 0, 0, 0, 0)), None);
    assert_eq!(backup_name_at(&reading(2024, 1, 1, 24, 0, 0, 0)), None);
    assert_eq!(backup_name_at(&reading(2024, 1, 1, 0, 60, 0, 0)), None);
    assert_eq!(backup_name_at(&reading(2024, 1, 1, 0, 0, 60, 0)), None);
    assert_eq!(backup_name_at(&reading(2024, 1, 1, 0, 0, 0, 2_000_000_000)), None);
    assert_eq!(backup_name_at(&reading(262143, 1, 1, 0, 0, 0, 0)), None);
    assert_eq!(
        backup_name_at(&reading(2024, 3, 5, 7, 8, 9, 0)),
        Some("openclaw-20240305-070809.json".to_string())
    );
}

fn entry(name: &str, created_at: u64) -> BackupEntry {
    BackupEntry { name: name.to_string(), size: 10, created_at }
}

#[test]
fn listing_is_newest_first_and_stable() {
    let sorted = sort_backups(vec![
        entry("a", 5),
        entry("b", 9),
        entry("c", 5),
        entry("d", 0),
        entry("e", 9),
        entry("f", 5),
    ]);
    let names: Vec<&str> = sorted.iter().map(|e| e.name.as_str()).collect();
    assert_eq!(names, vec!["b", "e", "a", "c", "f", "d"]);
    assert!(sort_backups(vec![]).is_empty());
}

#[test]
fn listing_keeps_every_backup() {
    let input = vec![entry("x", 3), entry("y", 1), entry("z", 3), entry("w", 2)];
    let mut names: Vec<String> = input.iter().map(|e| e.name.clone()).collect();
    let sorted = sort_backups(input);
    let mut listed: Vec<String> = sorted.iter().map(|e| e.name.clone()).collect();
    names.sort();
    listed.sort();
    assert_eq!(names, listed);
}

#[test]
fn restore_refuses_unsafe_and_missing_backups() {
    assert_eq!(restore_plan("../x.json", true, true), Err("非法文件名".to_string()));
    assert_eq!(restore_plan("a.json", false, true), Err("备份文件不存在: a.json".to_string()));
    assert_eq!(restore_plan("a.json", true, true), Ok(true));
    assert_eq!(restore_plan("a.json", true, false), Ok(false));
}

#[test]
fn delete_refuses_unsafe_and_missing_backups() {
    assert_eq!(delete_plan("a/b.json", true), Err("非法文件名".to_string()));
    assert_eq!(delete_plan("a\\b.json", false), Err("非法文件名".to_string()));
    assert_eq!(delete_plan("a.json", false), Err("备份文件不存在: a.json".to_string()));
    assert_eq!(delete_plan("a.json", true), Ok(()));
}
