use file_backup::backup::{finish_backup, plan_backup, prepare_backup, BackupError};
use file_backup::dispatcher::{dispatch, Action, FsEvent};
use file_backup::instant::UtcInstant;
use file_backup::registrar::{decide_rule, plan_registration, PathProbe, RuleDecision};
use file_backup::rule_table::RuleTable;

fn table(pairs: &[(&str, &str)]) -> RuleTable {
    RuleTable::from_pairs(pairs.iter().map(|(a, b)| (a.to_string(), b.to_string())).collect())
}

fn noon() -> UtcInstant {
    UtcInstant { year: 2024, month: 3, day: 1, hour: 12, minute: 0, second: 0, micro: 123456 }
}

#[test]
fn table_lookup_finds_each_rule() {
    let t = table(&[("/w/a.txt", "/b/a"), ("/w/b.txt", "/b/b")]);
    assert_eq!(t.rules().len(), 2);
    assert_eq!(t.lookup("/w/a.txt"), Some("/b/a".to_string()));
    assert_eq!(t.lookup("/w/b.txt"), Some("/b/b".to_string()));
    assert_eq!(t.lookup("/w/c.txt"), None);
}

#[test]
fn later_rule_for_same_file_wins() {
    let t = table(&[("/w/a.txt", "/b/first"), ("/w/b.txt", "/b/b"), ("/w/a.txt", "/b/second")]);
    assert_eq!(t.rules().len(), 2);
    assert_eq!(t.lookup("/w/a.txt"), Some("/b/second".to_string()));
}

#[test]
fn empty_table_has_no_rules() {
    let t = table(&[]);
    assert_eq!(t.rules().len(), 0);
    assert_eq!(t.lookup("/w/a.txt"), None);
}

#[test]
fn plan_for_ruled_file() {
    let t = table(&[("/w/data.txt", "/backups")]);
    let plan = plan_backup("/w/data.txt", &t, &noon()).unwrap();
    assert_eq!(plan.source, "/w/data.txt");
    assert_eq!(plan.backup_dir, "/backups");
    assert_eq!(plan.file_name, "data.txt-20240301-120000-123456");
}

#[test]
fn write_without_rule_is_refused() {
    let t = table(&[("/w/data.txt", "/backups")]);
    assert_eq!(
        plan_backup("/w/other.txt", &t, &noon()).unwrap_err(),
        BackupError::NoRuleForPath("/w/other.txt".to_string())
    );
}

#[test]
fn rule_on_root_has_no_file_name() {
    let t = table(&[("/", "/backups")]);
    assert_eq!(
        plan_backup("/", &t, &noon()).unwrap_err(),
        BackupError::InvalidFileName("/".to_string())
    );
}

#[test]
fn unresolvable_path_is_reported() {
    let t = table(&[("/w/data.txt", "/backups")]);
    assert_eq!(
        prepare_backup(Err("not found".to_string()), &t).unwrap_err(),
        BackupError::PathResolution("not found".to_string())
    );
}

#[test]
fn prepared_backup_is_named_after_now() {
    let t = table(&[("/w/data.txt", "/backups")]);
    let plan = prepare_backup(Ok("/w/data.txt".to_string()), &t).unwrap();
    assert_eq!(plan.backup_dir, "/backups");
    assert!(plan.file_name.starts_with("data.txt-"));
    assert_eq!(plan.file_name.len(), "data.txt-".len() + 22);
    assert_eq!(&plan.file_name[17..18], "-");
    assert_eq!(&plan.file_name[24..25], "-");
}

#[test]
fn prepared_backup_without_rule_is_refused() {
    let t = table(&[("/w/data.txt", "/backups")]);
    assert_eq!(
        prepare_backup(Ok("/w/x".to_string()), &t).unwrap_err(),
        BackupError::NoRuleForPath("/w/x".to_string())
    );
}

#[test]
fn failed_copy_is_reported_and_next_event_still_handled() {
    assert_eq!(
        finish_backup(Err("No such file or directory".to_string())),
        Err(BackupError::CopyFailed("No such file or directory".to_string()))
    );
    let next = Some(FsEvent::Write("/w/data.txt".to_string()));
    assert_eq!(dispatch(&next), Action::Backup("/w/data.txt".to_string()));
}

#[test]
fn successful_copy_is_success() {
    assert_eq!(finish_backup(Ok(42)), Ok(()));
}

#[test]
fn only_committed_write_backs_up() {
    let p = || "/w/a".to_string();
    assert_eq!(dispatch(&Some(FsEvent::Write(p()))), Action::Backup(p()));
    assert_eq!(dispatch(&Some(FsEvent::NoticeWrite(p()))), Action::LogDebug);
    assert_eq!(dispatch(&Some(FsEvent::NoticeRemove(p()))), Action::LogDebug);
    assert_eq!(dispatch(&Some(FsEvent::Create(p()))), Action::LogDebug);
    assert_eq!(dispatch(&Some(FsEvent::Chmod(p()))), Action::LogDebug);
    assert_eq!(dispatch(&Some(FsEvent::Remove(p()))), Action::LogDebug);
    assert_eq!(dispatch(&Some(FsEvent::Rename(p(), "/w/b".to_string()))), Action::LogDebug);
    assert_eq!(dispatch(&Some(FsEvent::Rescan)), Action::LogDebug);
    assert_eq!(dispatch(&Some(FsEvent::Error("boom".to_string(), None))), Action::LogError);
    assert_eq!(dispatch(&None), Action::Halt);
}

#[test]
fn rule_decisions() {
    let probe = |f, e, d| PathProbe { watched_is_file: f, backup_dir_exists: e, backup_dir_is_dir: d };
    assert_eq!(decide_rule(&probe(true, false, false)), RuleDecision::Watch);
    assert_eq!(decide_rule(&probe(true, true, true)), RuleDecision::Watch);
    assert_eq!(decide_rule(&probe(true, true, false)), RuleDecision::SkipBackupNotADirectory);
    assert_eq!(decide_rule(&probe(false, false, false)), RuleDecision::SkipNotAFile);
    assert_eq!(decide_rule(&probe(false, true, true)), RuleDecision::SkipNotAFile);
}

#[test]
fn registration_decides_each_rule_independently() {
    let t = table(&[("/w/a", "/b/a"), ("/w/missing", "/b/m"), ("/w/c", "/b/file")]);
    let probes = vec![
        PathProbe { watched_is_file: true, backup_dir_exists: false, backup_dir_is_dir: false },
        PathProbe { watched_is_file: false, backup_dir_exists: false, backup_dir_is_dir: false },
        PathProbe { watched_is_file: true, backup_dir_exists: true, backup_dir_is_dir: false },
    ];
    let steps = plan_registration(&t, &probes);
    assert_eq!(steps.len(), 3);
    assert_eq!(steps[0].watched, "/w/a");
    assert_eq!(steps[0].backup_dir, "/b/a");
    assert_eq!(steps[0].decision, RuleDecision::Watch);
    assert_eq!(steps[1].watched, "/w/missing");
    assert_eq!(steps[1].decision, RuleDecision::SkipNotAFile);
    assert_eq!(steps[2].decision, RuleDecision::SkipBackupNotADirectory);
}

#[test]
fn each_step_is_decided_from_its_own_rule() {
    let t = table(&[("/w/a", "/b/a"), ("/w/b", "/b/b")]);
    let probes = vec![
        PathProbe { watched_is_file: false, backup_dir_exists: false, backup_dir_is_dir: false },
        PathProbe { watched_is_file: true, backup_dir_exists: true, backup_dir_is_dir: true },
    ];
    let steps = plan_registration(&t, &probes);
    for (i, rule) in t.rules().iter().enumerate() {
        assert_eq!(steps[i].watched, rule.watched);
        assert_eq!(steps[i].backup_dir, rule.backup_dir);
        assert_eq!(steps[i].decision, decide_rule(&probes[i]));
    }
    assert_eq!(steps[0].decision, RuleDecision::SkipNotAFile);
    assert_eq!(steps[1].decision, RuleDecision::Watch);
}
