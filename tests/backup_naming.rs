use file_backup::backup::{backup_name, base_name};
use file_backup::instant::UtcInstant;

fn at(year: i32, month: u32, day: u32, hour: u32, minute: u32, second: u32, micro: u32) -> UtcInstant {
    UtcInstant { year, month, day, hour, minute, second, micro }
}

#[test]
fn name_from_base_and_instant() {
    let t = at(2024, 3, 1, 12, 0, 0, 123456);
    assert_eq!(backup_name("data.txt", &t), "data.txt-20240301-120000-123456");
}

#[test]
fn name_pads_every_field() {
    let t = at(999, 1, 2, 3, 4, 5, 7);
    assert_eq!(backup_name("a", &t), "a-09990102-030405-000007");
}

#[test]
fn name_of_five_digit_year_carries_sign() {
    let t = at(10000, 12, 31, 23, 59, 59, 999999);
    assert_eq!(backup_name("x.log", &t), "x.log-+100001231-235959-999999");
}

#[test]
fn name_of_leap_day() {
    let t = at(2000, 2, 29, 0, 0, 0, 0);
    assert_eq!(backup_name("notes", &t), "notes-20000229-000000-000000");
}

#[test]
fn names_differ_for_distinct_instants() {
    let stamps = vec![
        at(2024, 3, 1, 12, 0, 0, 123456),
        at(2024, 3, 1, 12, 0, 0, 123457),
        at(2024, 3, 1, 12, 0, 5, 123456),
        at(2025, 3, 1, 12, 0, 0, 123456),
    ];
    let names: Vec<String> = stamps.iter().map(|t| backup_name("data.txt", t)).collect();
    assert_eq!(names.len(), 4);
    for i in 0..names.len() {
        for j in 0..names.len() {
            if i != j {
                assert_ne!(names[i], names[j]);
            }
        }
    }
}

#[test]
fn names_differ_for_distinct_bases_at_one_instant() {
    let t = at(2024, 3, 1, 12, 0, 0, 123456);
    assert_ne!(backup_name("a.txt", &t), backup_name("b.txt", &t));
}

#[test]
fn base_name_is_last_component() {
    assert_eq!(base_name("/home/u/data.txt"), Some("data.txt".to_string()));
    assert_eq!(base_name("data.txt"), Some("data.txt".to_string()));
    assert_eq!(base_name("/a/b.c/d"), Some("d".to_string()));
}

#[test]
fn base_name_of_root_or_parent_is_none() {
    assert_eq!(base_name("/"), None);
    assert_eq!(base_name(""), None);
    assert_eq!(base_name("/a/.."), None);
    assert_eq!(base_name("/a/b/"), None);
}

#[test]
fn names_sort_in_capture_order() {
    let stamps = vec![
        at(2023, 12, 31, 23, 59, 59, 999999),
        at(2024, 1, 1, 0, 0, 0, 0),
        at(2024, 1, 1, 0, 0, 0, 1),
        at(2024, 1, 1, 0, 0, 1, 0),
        at(2024, 2, 1, 0, 0, 0, 0),
    ];
    let names: Vec<String> = stamps.iter().map(|t| backup_name("data.txt", t)).collect();
    for i in 1..names.len() {
        assert!(names[i - 1] < names[i]);
    }
}
