use saver::differ::{diff_names, entries_in_both, entries_only_in};
use saver::dirs::{clear_inconsistencies_dirs, DirAction};
use saver::entry::{child_path, find_name, Entry, Timestamp};
use saver::exclusion::{filter_files, name_excluded, split_excluded};
use saver::files::{clear_inconsistencies_files, FileAction};
use saver::report::{Failure, Operation};
use saver::scan::{fetch_files, Scanned};

fn at(secs: i64) -> Timestamp {
    Timestamp { secs, nanos: 0 }
}

fn entry(dir: &str, name: &str, secs: i64) -> Entry {
    Entry { path: format!("{}/{}", dir, name), name: name.to_string(), modified: at(secs) }
}

fn strings(list: &[&str]) -> Vec<String> {
    list.iter().map(|s| s.to_string()).collect()
}

#[test]
fn child_path_puts_a_separator_between_directory_and_name() {
    assert_eq!(child_path(&"backup".to_string(), &"a.txt".to_string()), "backup/a.txt");
    assert_eq!(child_path(&"/srv/backup".to_string(), &"sub".to_string()), "/srv/backup/sub");
}

#[test]
fn child_path_adds_no_second_separator() {
    assert_eq!(child_path(&"backup/".to_string(), &"a.txt".to_string()), "backup/a.txt");
    assert_eq!(child_path(&"/".to_string(), &"etc".to_string()), "/etc");
}

#[test]
fn child_path_of_the_empty_directory_is_the_name() {
    assert_eq!(child_path(&String::new(), &"a.txt".to_string()), "a.txt");
}

#[test]
fn child_path_counts_characters_not_bytes() {
    assert_eq!(child_path(&"sauvegarde/été".to_string(), &"août".to_string()), "sauvegarde/été/août");
}

#[test]
fn find_name_gives_the_first_position() {
    let list = vec![entry("m", "a", 1), entry("m", "b", 2), entry("other", "a", 3)];
    assert_eq!(find_name(&list, &"a".to_string()), Some(0));
    assert_eq!(find_name(&list, &"b".to_string()), Some(1));
    assert_eq!(find_name(&list, &"c".to_string()), None);
    assert_eq!(find_name(&Vec::new(), &"a".to_string()), None);
}

#[test]
fn duplicate_keeps_every_field() {
    let e = entry("m", "a", 7);
    assert_eq!(e.duplicate(), e);
    let f = Failure { path: "p".to_string(), operation: Operation::Copy, error: "denied".to_string() };
    assert_eq!(f.duplicate(), f);
}

#[test]
fn diff_names_splits_by_name() {
    let a = vec![entry("m", "a", 1), entry("m", "b", 2), entry("m", "c", 3)];
    let b = vec![entry("b", "c", 9), entry("b", "d", 4), entry("b", "b", 2)];
    let diff = diff_names(&a, &b);
    assert_eq!(diff.only_in_a, vec![entry("m", "a", 1)]);
    assert_eq!(diff.only_in_b, vec![entry("b", "d", 4)]);
    assert_eq!(
        diff.in_both,
        vec![(entry("m", "c", 3), entry("b", "c", 9)), (entry("m", "b", 2), entry("b", "b", 2))]
    );
}

#[test]
fn diff_names_of_empty_listings_is_empty() {
    let diff = diff_names(&Vec::new(), &Vec::new());
    assert!(diff.only_in_a.is_empty());
    assert!(diff.only_in_b.is_empty());
    assert!(diff.in_both.is_empty());
}

#[test]
fn diff_names_against_an_empty_listing_keeps_everything_on_one_side() {
    let a = vec![entry("m", "a", 1), entry("m", "b", 2)];
    let diff = diff_names(&a, &Vec::new());
    assert_eq!(diff.only_in_a, a);
    assert!(diff.only_in_b.is_empty());
    assert!(diff.in_both.is_empty());
    let diff = diff_names(&Vec::new(), &a);
    assert!(diff.only_in_a.is_empty());
    assert_eq!(diff.only_in_b, a);
    assert!(diff.in_both.is_empty());
}

#[test]
fn entries_only_in_keeps_the_order_of_the_first_listing() {
    let a = vec![entry("m", "z", 1), entry("m", "k", 2), entry("m", "a", 3)];
    let b = vec![entry("b", "k", 2)];
    assert_eq!(entries_only_in(&a, &b), vec![entry("m", "z", 1), entry("m", "a", 3)]);
}

#[test]
fn entries_in_both_pairs_with_the_first_entry_of_the_name() {
    let a = vec![entry("m", "x", 1), entry("n", "x", 2)];
    let b = vec![entry("b", "x", 5)];
    assert_eq!(entries_in_both(&a, &b), vec![(entry("m", "x", 1), entry("b", "x", 5))]);
}

#[test]
fn names_are_compared_exactly() {
    let a = vec![entry("m", "Notes.txt", 1)];
    let b = vec![entry("b", "notes.txt", 1)];
    let diff = diff_names(&a, &b);
    assert_eq!(diff.only_in_a.len(), 1);
    assert_eq!(diff.only_in_b.len(), 1);
    assert!(diff.in_both.is_empty());
}

#[test]
fn file_plan_deletes_then_copies_then_refreshes() {
    let mfiles = vec![entry("main", "a.txt", 1), entry("main", "b.txt", 2), entry("main", "c.txt", 3)];
    let bfiles = vec![entry("backup", "b.txt", 2), entry("backup", "c.txt", 9), entry("backup", "d.txt", 4)];
    let actions = clear_inconsistencies_files(mfiles, bfiles, &"backup".to_string());
    assert_eq!(
        actions,
        vec![
            FileAction::Delete { target: entry("backup", "d.txt", 4) },
            FileAction::Copy { source: entry("main", "a.txt", 1), dest: "backup/a.txt".to_string() },
            FileAction::Refresh {
                source: entry("main", "c.txt", 3),
                target: entry("backup", "c.txt", 9),
            },
        ]
    );
}

#[test]
fn file_is_refreshed_when_the_backup_is_the_older_one() {
    let actions = clear_inconsistencies_files(
        vec![entry("main", "f", 10)],
        vec![entry("backup", "f", 5)],
        &"backup".to_string(),
    );
    assert_eq!(
        actions,
        vec![FileAction::Refresh { source: entry("main", "f", 10), target: entry("backup", "f", 5) }]
    );
}

#[test]
fn file_is_refreshed_when_the_backup_is_the_newer_one() {
    let actions = clear_inconsistencies_files(
        vec![entry("main", "f", 5)],
        vec![entry("backup", "f", 10)],
        &"backup".to_string(),
    );
    assert_eq!(
        actions,
        vec![FileAction::Refresh { source: entry("main", "f", 5), target: entry("backup", "f", 10) }]
    );
}

#[test]
fn file_is_refreshed_when_only_the_nanoseconds_differ() {
    let mut source = entry("main", "f", 5);
    source.modified = Timestamp { secs: 5, nanos: 1 };
    let actions =
        clear_inconsistencies_files(vec![source.clone()], vec![entry("backup", "f", 5)], &"backup".to_string());
    assert_eq!(actions, vec![FileAction::Refresh { source, target: entry("backup", "f", 5) }]);
}

#[test]
fn file_with_equal_timestamps_is_left_alone() {
    let actions = clear_inconsistencies_files(
        vec![entry("main", "f", 5)],
        vec![entry("backup", "f", 5)],
        &"backup".to_string(),
    );
    assert!(actions.is_empty());
}

#[test]
fn file_plan_of_two_empty_directories_is_empty() {
    assert!(clear_inconsistencies_files(Vec::new(), Vec::new(), &"backup".to_string()).is_empty());
}

#[test]
fn dir_plan_creates_then_deletes_and_visits_new_and_stale() {
    let mdirs = vec![entry("main", "new", 1), entry("main", "same", 2), entry("main", "stale", 3)];
    let bdirs = vec![entry("backup", "old", 7), entry("backup", "stale", 8), entry("backup", "same", 2)];
    let plan = clear_inconsistencies_dirs(mdirs, bdirs, &"backup".to_string());
    assert_eq!(
        plan.actions,
        vec![
            DirAction::Create { source: entry("main", "new", 1), dest: "backup/new".to_string() },
            DirAction::Delete { target: entry("backup", "old", 7) },
        ]
    );
    assert_eq!(
        plan.pending,
        vec![
            ("main/new".to_string(), "backup/new".to_string()),
            ("main/stale".to_string(), "backup/stale".to_string()),
        ]
    );
}

#[test]
fn shared_directory_with_equal_timestamps_is_not_visited() {
    let plan = clear_inconsistencies_dirs(
        vec![entry("main", "d", 4)],
        vec![entry("backup", "d", 4)],
        &"backup".to_string(),
    );
    assert!(plan.actions.is_empty());
    assert!(plan.pending.is_empty());
}

#[test]
fn shared_directory_is_visited_by_its_own_two_paths() {
    let source = Entry { path: "elsewhere/d".to_string(), name: "d".to_string(), modified: at(1) };
    let backup = Entry { path: "mirror/of/d".to_string(), name: "d".to_string(), modified: at(2) };
    let plan = clear_inconsistencies_dirs(vec![source], vec![backup], &"backup".to_string());
    assert!(plan.actions.is_empty());
    assert_eq!(plan.pending, vec![("elsewhere/d".to_string(), "mirror/of/d".to_string())]);
}

#[test]
fn name_excluded_looks_for_the_whole_name() {
    let list = strings(&["cache", "target"]);
    assert!(name_excluded(&"cache".to_string(), &list));
    assert!(name_excluded(&"target".to_string(), &list));
    assert!(!name_excluded(&"cach".to_string(), &list));
    assert!(!name_excluded(&"cache2".to_string(), &list));
    assert!(!name_excluded(&"cache".to_string(), &Vec::new()));
}

#[test]
fn split_excluded_keeps_both_orders() {
    let dirs = vec![entry("b", "x", 1), entry("b", "cache", 2), entry("b", "y", 3), entry("b", "tmp", 4)];
    let (kept, dropped) = split_excluded(&dirs, &strings(&["tmp", "cache"]));
    assert_eq!(kept, vec![entry("b", "x", 1), entry("b", "y", 3)]);
    assert_eq!(dropped, vec![entry("b", "cache", 2), entry("b", "tmp", 4)]);
}

#[test]
fn filter_files_drops_excluded_names_from_both_sides() {
    let mut main_dirs = vec![entry("main", "cache", 1), entry("main", "docs", 2)];
    let mut backup_dirs = vec![entry("backup", "docs", 2), entry("backup", "cache", 5)];
    let doomed = filter_files(&mut main_dirs, &mut backup_dirs, &strings(&["cache"]));
    assert_eq!(main_dirs, vec![entry("main", "docs", 2)]);
    assert_eq!(backup_dirs, vec![entry("backup", "docs", 2)]);
    assert_eq!(doomed, vec![entry("backup", "cache", 5)]);
}

#[test]
fn filter_files_with_no_exclusions_changes_nothing() {
    let mut main_dirs = vec![entry("main", "a", 1)];
    let mut backup_dirs = vec![entry("backup", "b", 2)];
    let doomed = filter_files(&mut main_dirs, &mut backup_dirs, &Vec::new());
    assert_eq!(main_dirs, vec![entry("main", "a", 1)]);
    assert_eq!(backup_dirs, vec![entry("backup", "b", 2)]);
    assert!(doomed.is_empty());
}

#[test]
fn fetch_files_parts_files_from_directories() {
    let scan = vec![
        Scanned::Child { name: "b.txt".to_string(), is_dir: false, modified: at(2) },
        Scanned::Child { name: "sub".to_string(), is_dir: true, modified: at(3) },
        Scanned::Child { name: "a.txt".to_string(), is_dir: false, modified: at(1) },
    ];
    let items = fetch_files(&"main".to_string(), Ok(scan)).unwrap();
    assert_eq!(items.files, vec![entry("main", "b.txt", 2), entry("main", "a.txt", 1)]);
    assert_eq!(items.dirs, vec![entry("main", "sub", 3)]);
    assert!(items.skipped.is_empty());
}

#[test]
fn fetch_files_skips_an_unreadable_child_with_a_warning() {
    let scan = vec![
        Scanned::Child { name: "a".to_string(), is_dir: false, modified: at(1) },
        Scanned::Unreadable { error: "permission denied".to_string() },
        Scanned::Child { name: "d".to_string(), is_dir: true, modified: at(2) },
    ];
    let items = fetch_files(&"main".to_string(), Ok(scan)).unwrap();
    assert_eq!(items.files, vec![entry("main", "a", 1)]);
    assert_eq!(items.dirs, vec![entry("main", "d", 2)]);
    assert_eq!(
        items.skipped,
        vec![Failure {
            path: "main".to_string(),
            operation: Operation::Scan,
            error: "permission denied".to_string(),
        }]
    );
}

#[test]
fn fetch_files_of_an_empty_directory_is_empty() {
    let items = fetch_files(&"main".to_string(), Ok(Vec::new())).unwrap();
    assert!(items.files.is_empty());
    assert!(items.dirs.is_empty());
    assert!(items.skipped.is_empty());
}

#[test]
fn fetch_files_fails_where_the_directory_cannot_be_listed() {
    let failure = fetch_files(&"gone".to_string(), Err("no such directory".to_string())).unwrap_err();
    assert_eq!(
        failure,
        Failure {
            path: "gone".to_string(),
            operation: Operation::Scan,
            error: "no such directory".to_string(),
        }
    );
}
