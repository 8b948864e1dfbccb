use treenamer::backup::{
    backup_description, backup_kind, decimal, full_backup_dir, full_backup_origin, holding_dir,
    is_backup_area, is_json_file_name, local_backup, parse_timestamp, sort_newest_first,
    virtual_backup, virtual_backup_name, BackupInfo, BackupKind,
};

fn info(path: &str, timestamp: u64, is_virtual: bool) -> BackupInfo {
    BackupInfo { path: path.to_string(), timestamp, is_virtual }
}

#[test]
fn numbers_are_written_in_decimal() {
    assert_eq!(decimal(0), "0");
    assert_eq!(decimal(7), "7");
    assert_eq!(decimal(10), "10");
    assert_eq!(decimal(1700000000), "1700000000");
    assert_eq!(decimal(u64::MAX), "18446744073709551615");
}

#[test]
fn timestamps_are_read_from_names() {
    assert_eq!(parse_timestamp("1700000000"), Some(1700000000));
    assert_eq!(parse_timestamp("0"), Some(0));
    assert_eq!(parse_timestamp("007"), Some(7));
    assert_eq!(parse_timestamp("+5"), Some(5));
    assert_eq!(parse_timestamp("18446744073709551615"), Some(u64::MAX));
    assert_eq!(parse_timestamp("18446744073709551616"), None);
    assert_eq!(parse_timestamp("99999999999999999999999"), None);
    assert_eq!(parse_timestamp(""), None);
    assert_eq!(parse_timestamp("+"), None);
    assert_eq!(parse_timestamp("-5"), None);
    assert_eq!(parse_timestamp("12a"), None);
    assert_eq!(parse_timestamp(" 12"), None);
    assert_eq!(parse_timestamp("1+2"), None);
    for n in [0u64, 9, 10, 99, 100, 12345, u64::MAX] {
        assert_eq!(parse_timestamp(&decimal(n)), Some(n));
    }
}

#[test]
fn backups_are_ordered_newest_first() {
    let backups = vec![
        info("a", 5, false),
        info("b", 9, true),
        info("c", 5, true),
        info("d", 1, false),
        info("e", 9, false),
    ];
    assert_eq!(
        sort_newest_first(&backups),
        vec![
            info("b", 9, true),
            info("e", 9, false),
            info("a", 5, false),
            info("c", 5, true),
            info("d", 1, false),
        ]
    );
    assert_eq!(sort_newest_first(&Vec::new()), Vec::<BackupInfo>::new());
}

#[test]
fn names_of_backups() {
    assert_eq!(full_backup_dir("/home/u/proj", 42), "/home/u/proj/.treenamer_backup/42");
    assert_eq!(holding_dir("/home/u/proj", 42), "/home/u/proj/.treenamer_temp/42");
    assert_eq!(virtual_backup_name(1700000000), "virtual_backup_1700000000.json");
    assert_eq!(backup_description(1700000000), "Backup created at 1700000000");
}

#[test]
fn origin_of_a_full_backup() {
    assert_eq!(
        full_backup_origin("/home/u/proj/.treenamer_backup/42"),
        Some("/home/u/proj".to_string())
    );
    assert_eq!(full_backup_origin("/a/b"), Some("/".to_string()));
    assert_eq!(full_backup_origin("/a"), None);
    assert_eq!(full_backup_origin("b"), None);
    assert_eq!(full_backup_origin("x/y/z"), Some("x".to_string()));
}

#[test]
fn kinds_of_backups() {
    assert_eq!(backup_kind("/b/virtual_backup_1.json", true, false), BackupKind::Virtual);
    assert_eq!(backup_kind("/b/virtual_backup_1.txt", true, false), BackupKind::Invalid);
    assert_eq!(backup_kind("/p/.treenamer_backup/1", false, true), BackupKind::Full);
    assert_eq!(backup_kind("/p/thing.json", false, true), BackupKind::Full);
    assert_eq!(backup_kind("/p/thing", false, false), BackupKind::Invalid);
    assert!(is_json_file_name("a.json"));
    assert!(!is_json_file_name(".json"));
    assert!(!is_json_file_name("/dir/.json"));
    assert!(!is_json_file_name("a.jsonx"));
    assert!(!is_json_file_name("json"));
}

#[test]
fn entries_of_the_list() {
    assert_eq!(local_backup("/p/.treenamer_backup/17", "17"), Some(info("/p/.treenamer_backup/17", 17, false)));
    assert_eq!(local_backup("/p/.treenamer_backup/tmp", "tmp"), None);
    assert_eq!(virtual_backup("/c/v.json", "/p", "/p", 3), Some(info("/c/v.json", 3, true)));
    assert_eq!(virtual_backup("/c/v.json", "/p", "/q", 3), None);
}

#[test]
fn areas_of_backups() {
    assert!(is_backup_area(".treenamer_backup"));
    assert!(is_backup_area(".treenamer_temp"));
    assert!(!is_backup_area(".treenamer"));
    assert!(!is_backup_area("treenamer_backup"));
    assert!(!is_backup_area(""));
}
