use saver::backup::create_backup;
use saver::dirs::DirAction;
use saver::entry::{Entry, Timestamp};
use saver::files::FileAction;
use saver::report::{Failure, Operation};
use saver::scan::Scanned;

fn at(secs: i64) -> Timestamp {
    Timestamp { secs, nanos: 0 }
}

fn entry(dir: &str, name: &str, secs: i64) -> Entry {
    Entry { path: format!("{}/{}", dir, name), name: name.to_string(), modified: at(secs) }
}

fn file(name: &str, secs: i64) -> Scanned {
    Scanned::Child { name: name.to_string(), is_dir: false, modified: at(secs) }
}

fn dir(name: &str, secs: i64) -> Scanned {
    Scanned::Child { name: name.to_string(), is_dir: true, modified: at(secs) }
}

fn strings(list: &[&str]) -> Vec<String> {
    list.iter().map(|s| s.to_string()).collect()
}

#[test]
fn source_only_file_is_copied_with_its_timestamp() {
    let plan = create_backup(
        "main".to_string(),
        "backup".to_string(),
        Ok(vec![file("notes.txt", 1)]),
        Ok(vec![]),
        &vec![],
    )
    .unwrap();
    assert!(plan.skipped.is_empty());
    assert!(plan.purge.is_empty());
    assert!(plan.dirs.is_empty());
    assert!(plan.pending.is_empty());
    assert_eq!(
        plan.files,
        vec![FileAction::Copy {
            source: entry("main", "notes.txt", 1),
            dest: "backup/notes.txt".to_string(),
        }]
    );
}

#[test]
fn backup_only_file_is_deleted() {
    let plan = create_backup(
        "main".to_string(),
        "backup".to_string(),
        Ok(vec![]),
        Ok(vec![file("stale.log", 3)]),
        &vec![],
    )
    .unwrap();
    assert_eq!(plan.files, vec![FileAction::Delete { target: entry("backup", "stale.log", 3) }]);
    assert!(plan.purge.is_empty());
    assert!(plan.dirs.is_empty());
    assert!(plan.pending.is_empty());
}

#[test]
fn excluded_directory_is_purged_from_the_backup_and_left_in_the_source() {
    let plan = create_backup(
        "main".to_string(),
        "backup".to_string(),
        Ok(vec![dir("cache", 1)]),
        Ok(vec![dir("cache", 2)]),
        &strings(&["cache"]),
    )
    .unwrap();
    assert_eq!(plan.purge, vec![entry("backup", "cache", 2)]);
    assert!(plan.files.is_empty());
    assert!(plan.dirs.is_empty());
    assert!(plan.pending.is_empty());
}

#[test]
fn excluded_source_directory_is_never_created_in_the_backup() {
    let plan = create_backup(
        "main".to_string(),
        "backup".to_string(),
        Ok(vec![dir("cache", 1), dir("docs", 2)]),
        Ok(vec![]),
        &strings(&["cache"]),
    )
    .unwrap();
    assert!(plan.purge.is_empty());
    assert_eq!(
        plan.dirs,
        vec![DirAction::Create { source: entry("main", "docs", 2), dest: "backup/docs".to_string() }]
    );
    assert_eq!(plan.pending, vec![("main/docs".to_string(), "backup/docs".to_string())]);
}

#[test]
fn exclusion_applies_to_directories_only() {
    let plan = create_backup(
        "main".to_string(),
        "backup".to_string(),
        Ok(vec![file("cache", 1)]),
        Ok(vec![]),
        &strings(&["cache"]),
    )
    .unwrap();
    assert!(plan.purge.is_empty());
    assert_eq!(
        plan.files,
        vec![FileAction::Copy { source: entry("main", "cache", 1), dest: "backup/cache".to_string() }]
    );
}

#[test]
fn unseen_subdirectory_is_created_and_queued() {
    let plan = create_backup(
        "main".to_string(),
        "backup".to_string(),
        Ok(vec![dir("sub", 5)]),
        Ok(vec![]),
        &vec![],
    )
    .unwrap();
    assert_eq!(
        plan.dirs,
        vec![DirAction::Create { source: entry("main", "sub", 5), dest: "backup/sub".to_string() }]
    );
    assert_eq!(plan.pending, vec![("main/sub".to_string(), "backup/sub".to_string())]);
}

#[test]
fn a_level_in_step_needs_nothing() {
    let plan = create_backup(
        "main".to_string(),
        "backup".to_string(),
        Ok(vec![file("a", 1), dir("d", 2), file("b", 3)]),
        Ok(vec![dir("d", 2), file("b", 3), file("a", 1)]),
        &vec![],
    )
    .unwrap();
    assert!(plan.skipped.is_empty());
    assert!(plan.purge.is_empty());
    assert!(plan.files.is_empty());
    assert!(plan.dirs.is_empty());
    assert!(plan.pending.is_empty());
}

#[test]
fn a_whole_level_is_planned_in_order() {
    let plan = create_backup(
        "main".to_string(),
        "backup".to_string(),
        Ok(vec![file("keep", 1), file("new", 2), file("old", 3), dir("tmp", 4), dir("fresh", 5), dir("both", 6)]),
        Ok(vec![file("old", 9), file("extra", 7), file("keep", 1), dir("both", 8), dir("tmp", 4), dir("lost", 2)]),
        &strings(&["tmp"]),
    )
    .unwrap();
    assert_eq!(plan.purge, vec![entry("backup", "tmp", 4)]);
    assert_eq!(
        plan.files,
        vec![
            FileAction::Delete { target: entry("backup", "extra", 7) },
            FileAction::Copy { source: entry("main", "new", 2), dest: "backup/new".to_string() },
            FileAction::Refresh { source: entry("main", "old", 3), target: entry("backup", "old", 9) },
        ]
    );
    assert_eq!(
        plan.dirs,
        vec![
            DirAction::Create { source: entry("main", "fresh", 5), dest: "backup/fresh".to_string() },
            DirAction::Delete { target: entry("backup", "lost", 2) },
        ]
    );
    assert_eq!(
        plan.pending,
        vec![
            ("main/fresh".to_string(), "backup/fresh".to_string()),
            ("main/both".to_string(), "backup/both".to_string()),
        ]
    );
}

#[test]
fn warnings_of_both_scans_are_kept_source_first() {
    let plan = create_backup(
        "main".to_string(),
        "backup".to_string(),
        Ok(vec![Scanned::Unreadable { error: "first".to_string() }]),
        Ok(vec![Scanned::Unreadable { error: "second".to_string() }]),
        &vec![],
    )
    .unwrap();
    assert_eq!(
        plan.skipped,
        vec![
            Failure { path: "main".to_string(), operation: Operation::Scan, error: "first".to_string() },
            Failure { path: "backup".to_string(), operation: Operation::Scan, error: "second".to_string() },
        ]
    );
}

#[test]
fn unlisted_source_directory_fails_the_level() {
    let failure = create_backup(
        "main".to_string(),
        "backup".to_string(),
        Err("not a directory".to_string()),
        Err("missing".to_string()),
        &vec![],
    )
    .unwrap_err();
    assert_eq!(
        failure,
        Failure { path: "main".to_string(), operation: Operation::Scan, error: "not a directory".to_string() }
    );
}

#[test]
fn unlisted_backup_directory_fails_the_level() {
    let failure = create_backup(
        "main".to_string(),
        "backup".to_string(),
        Ok(vec![file("a", 1)]),
        Err("missing".to_string()),
        &vec![],
    )
    .unwrap_err();
    assert_eq!(
        failure,
        Failure { path: "backup".to_string(), operation: Operation::Scan, error: "missing".to_string() }
    );
}
