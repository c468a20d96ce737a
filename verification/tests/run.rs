use saver::dirs::DirAction;
use saver::entry::Timestamp;
use saver::files::FileAction;
use saver::orchestrator::Orchestrator;
use saver::report::{Failure, Operation};
use saver::scan::Scanned;
use std::collections::BTreeMap;

#[derive(Clone, Debug, PartialEq)]
struct Dir {
    modified: i64,
    files: BTreeMap<String, i64>,
    dirs: BTreeMap<String, Dir>,
    unreadable: bool,
}

fn dir(modified: i64) -> Dir {
    Dir { modified, files: BTreeMap::new(), dirs: BTreeMap::new(), unreadable: false }
}

impl Dir {
    fn file(mut self, name: &str, modified: i64) -> Dir {
        self.files.insert(name.to_string(), modified);
        self
    }

    fn sub(mut self, name: &str, child: Dir) -> Dir {
        self.dirs.insert(name.to_string(), child);
        self
    }

    fn locked(mut self) -> Dir {
        self.unreadable = true;
        self
    }

    fn at(&self, path: &[&str]) -> Option<&Dir> {
        match path.split_first() {
            None => Some(self),
            Some((first, rest)) => self.dirs.get(*first).and_then(|d| d.at(rest)),
        }
    }

    fn at_mut(&mut self, path: &[&str]) -> Option<&mut Dir> {
        match path.split_first() {
            None => Some(self),
            Some((first, rest)) => self.dirs.get_mut(*first).and_then(|d| d.at_mut(rest)),
        }
    }

    /// Every file of the tree by its path, with its timestamp. Directories
    /// called as `skip` says are left out with all they hold.
    fn all_files(&self, prefix: &str, skip: &[&str], out: &mut BTreeMap<String, i64>) {
        for (name, modified) in &self.files {
            out.insert(format!("{}/{}", prefix, name), *modified);
        }
        for (name, child) in &self.dirs {
            if !skip.contains(&name.as_str()) {
                child.all_files(&format!("{}/{}", prefix, name), skip, out);
            }
        }
    }

    /// Every directory of the tree by its path.
    fn all_dirs(&self, prefix: &str, skip: &[&str], out: &mut Vec<String>) {
        for (name, child) in &self.dirs {
            if !skip.contains(&name.as_str()) {
                out.push(format!("{}/{}", prefix, name));
                child.all_dirs(&format!("{}/{}", prefix, name), skip, out);
            }
        }
    }
}

/// Two trees under the names `main` and `backup`, and a log of every change
/// made to them.
struct Disk {
    main: Dir,
    backup: Dir,
    log: Vec<String>,
}

impl Disk {
    fn new(main: Dir, backup: Dir) -> Disk {
        Disk { main, backup, log: Vec::new() }
    }

    fn find(&self, path: &str) -> Option<&Dir> {
        let parts: Vec<&str> = path.split('/').collect();
        match parts[0] {
            "main" => self.main.at(&parts[1..]),
            "backup" => self.backup.at(&parts[1..]),
            _ => None,
        }
    }

    fn parent_mut(&mut self, path: &str) -> Result<(&mut Dir, String), String> {
        let parts: Vec<&str> = path.split('/').collect();
        let (last, front) = parts.split_last().unwrap();
        let root = match front[0] {
            "main" => &mut self.main,
            "backup" => &mut self.backup,
            _ => return Err("no such root".to_string()),
        };
        match root.at_mut(&front[1..]) {
            Some(d) => Ok((d, last.to_string())),
            None => Err("no such directory".to_string()),
        }
    }

    fn scan(&self, path: &str) -> Result<Vec<Scanned>, String> {
        let d = self.find(path).ok_or("no such directory".to_string())?;
        if d.unreadable {
            return Err("permission denied".to_string());
        }
        let mut out = Vec::new();
        for (name, modified) in &d.files {
            out.push(Scanned::Child {
                name: name.clone(),
                is_dir: false,
                modified: Timestamp { secs: *modified, nanos: 0 },
            });
        }
        for (name, child) in &d.dirs {
            out.push(Scanned::Child {
                name: name.clone(),
                is_dir: true,
                modified: Timestamp { secs: child.modified, nanos: 0 },
            });
        }
        Ok(out)
    }

    fn delete_file(&mut self, path: &str) -> Result<(), String> {
        let (d, name) = self.parent_mut(path)?;
        d.files.remove(&name).map(|_| ()).ok_or("no such file".to_string())?;
        self.log.push(format!("delete {}", path));
        Ok(())
    }

    fn copy(&mut self, from: &str, to: &str) -> Result<(), String> {
        let modified = {
            let (d, name) = self.parent_mut(from)?;
            *d.files.get(&name).ok_or("no such file".to_string())?
        };
        let (d, name) = self.parent_mut(to)?;
        if d.dirs.contains_key(&name) {
            return Err("is a directory".to_string());
        }
        d.files.insert(name, modified);
        self.log.push(format!("copy {} {}", from, to));
        Ok(())
    }

    fn create_dir(&mut self, path: &str) -> Result<(), String> {
        let (d, name) = self.parent_mut(path)?;
        if d.dirs.contains_key(&name) || d.files.contains_key(&name) {
            return Err("exists".to_string());
        }
        d.dirs.insert(name, dir(1_000_000));
        self.log.push(format!("create {}", path));
        Ok(())
    }

    fn delete_dir(&mut self, path: &str) -> Result<(), String> {
        let (d, name) = self.parent_mut(path)?;
        d.dirs.remove(&name).map(|_| ()).ok_or("no such directory".to_string())?;
        self.log.push(format!("delete-all {}", path));
        Ok(())
    }
}

fn failed(path: &str, operation: Operation, error: String) -> Failure {
    Failure { path: path.to_string(), operation, error }
}

/// Plays one whole run on the disk and gives back its report.
fn mirror(disk: &mut Disk, excluded: &[&str]) -> Result<Vec<Failure>, Failure> {
    let mut run = Orchestrator::new(
        "main".to_string(),
        "backup".to_string(),
        excluded.iter().map(|s| s.to_string()).collect(),
    );
    while let Some((source, backup)) = run.current() {
        let plan = match run.reconcile(disk.scan(&source), disk.scan(&backup)) {
            Some(plan) => plan,
            None => continue,
        };
        for doomed in &plan.purge {
            if let Err(e) = disk.delete_dir(&doomed.path) {
                run.record(failed(&doomed.path, Operation::Delete, e));
            }
        }
        for action in &plan.files {
            match action {
                FileAction::Delete { target } => {
                    if let Err(e) = disk.delete_file(&target.path) {
                        run.record(failed(&target.path, Operation::Delete, e));
                    }
                }
                FileAction::Copy { source, dest } => {
                    if let Err(e) = disk.copy(&source.path, dest) {
                        run.record(failed(dest, Operation::Copy, e));
                    }
                }
                FileAction::Refresh { source, target } => {
                    if let Err(e) = disk.delete_file(&target.path) {
                        run.record(failed(&target.path, Operation::Delete, e));
                    } else if let Err(e) = disk.copy(&source.path, &target.path) {
                        run.record(failed(&target.path, Operation::Copy, e));
                    }
                }
            }
        }
        for action in &plan.dirs {
            match action {
                DirAction::Create { dest, .. } => {
                    if let Err(e) = disk.create_dir(dest) {
                        run.record(failed(dest, Operation::Create, e));
                    }
                }
                DirAction::Delete { target } => {
                    if let Err(e) = disk.delete_dir(&target.path) {
                        run.record(failed(&target.path, Operation::Delete, e));
                    }
                }
            }
        }
    }
    assert!(run.is_done());
    run.finish()
}

fn source_tree() -> Dir {
    dir(10)
        .file("notes.txt", 1)
        .file("todo.md", 2)
        .sub("docs", dir(20).file("a.pdf", 3).sub("drafts", dir(30).file("d1", 4).file("d2", 5)))
        .sub("cache", dir(40).file("blob", 6))
        .sub("src", dir(50).file("main.rs", 7).sub("cache", dir(60).file("obj", 8)))
        .sub("empty", dir(70))
}

fn backup_tree() -> Dir {
    dir(11)
        .file("todo.md", 99)
        .file("stale.log", 5)
        .sub("docs", dir(21).file("a.pdf", 3).file("gone.pdf", 1).sub("old", dir(5).file("x", 1)))
        .sub("cache", dir(41).file("blob", 6))
        .sub("src", dir(51).sub("cache", dir(61).file("obj", 8)).sub("dead", dir(1)))
        .sub("lost", dir(2).file("y", 2))
}

fn files_of(tree: &Dir, skip: &[&str]) -> BTreeMap<String, i64> {
    let mut out = BTreeMap::new();
    tree.all_files("", skip, &mut out);
    out
}

fn dirs_of(tree: &Dir, skip: &[&str]) -> Vec<String> {
    let mut out = Vec::new();
    tree.all_dirs("", skip, &mut out);
    out
}

#[test]
fn orchestrator_starts_with_the_pair_of_the_roots() {
    let run = Orchestrator::new("main".to_string(), "backup".to_string(), vec!["cache".to_string()]);
    assert_eq!(run.queue, vec![("main".to_string(), "backup".to_string())]);
    assert_eq!(run.excluded, vec!["cache".to_string()]);
    assert!(run.failures.is_empty());
    assert!(run.at_root);
    assert_eq!(run.fatal, None);
    assert!(!run.is_done());
    assert_eq!(run.current(), Some(("main".to_string(), "backup".to_string())));
}

#[test]
fn orchestrator_queues_the_pending_pairs_and_takes_the_last_next() {
    let mut run = Orchestrator::new("main".to_string(), "backup".to_string(), Vec::new());
    let scan = vec![
        Scanned::Child { name: "a".to_string(), is_dir: true, modified: Timestamp { secs: 1, nanos: 0 } },
        Scanned::Child { name: "b".to_string(), is_dir: true, modified: Timestamp { secs: 2, nanos: 0 } },
    ];
    let plan = run.reconcile(Ok(scan), Ok(Vec::new())).unwrap();
    assert_eq!(
        plan.pending,
        vec![
            ("main/a".to_string(), "backup/a".to_string()),
            ("main/b".to_string(), "backup/b".to_string()),
        ]
    );
    assert_eq!(run.queue, plan.pending);
    assert!(!run.at_root);
    assert_eq!(run.current(), Some(("main/b".to_string(), "backup/b".to_string())));
    let plan = run.reconcile(Ok(Vec::new()), Ok(Vec::new())).unwrap();
    assert!(plan.pending.is_empty());
    assert_eq!(run.queue, vec![("main/a".to_string(), "backup/a".to_string())]);
    run.reconcile(Ok(Vec::new()), Ok(Vec::new())).unwrap();
    assert!(run.is_done());
    assert_eq!(run.current(), None);
    assert_eq!(run.finish(), Ok(Vec::new()));
}

#[test]
fn orchestrator_with_nothing_on_turn_does_nothing() {
    let mut run = Orchestrator::new("main".to_string(), "backup".to_string(), Vec::new());
    run.reconcile(Ok(Vec::new()), Ok(Vec::new())).unwrap();
    let before = run.clone();
    assert_eq!(run.reconcile(Ok(Vec::new()), Err("late".to_string())), None);
    assert_eq!(run, before);
}

#[test]
fn orchestrator_collects_warnings_and_recorded_failures_in_order() {
    let mut run = Orchestrator::new("main".to_string(), "backup".to_string(), Vec::new());
    run.reconcile(Ok(vec![Scanned::Unreadable { error: "w".to_string() }]), Ok(Vec::new())).unwrap();
    run.record(failed("backup/x", Operation::Copy, "disk full".to_string()));
    run.record(failed("backup/y", Operation::Create, "denied".to_string()));
    assert_eq!(
        run.finish(),
        Ok(vec![
            failed("main", Operation::Scan, "w".to_string()),
            failed("backup/x", Operation::Copy, "disk full".to_string()),
            failed("backup/y", Operation::Create, "denied".to_string()),
        ])
    );
}

#[test]
fn scan_failure_at_the_roots_ends_the_run() {
    let mut disk = Disk::new(dir(1).file("a", 1).locked(), dir(2).file("b", 2));
    let report = mirror(&mut disk, &[]);
    assert_eq!(report, Err(failed("main", Operation::Scan, "permission denied".to_string())));
    assert!(disk.log.is_empty());
    assert_eq!(disk.backup, dir(2).file("b", 2));
}

#[test]
fn scan_failure_of_the_backup_root_ends_the_run() {
    let mut run = Orchestrator::new("main".to_string(), "backup".to_string(), Vec::new());
    assert_eq!(run.reconcile(Ok(Vec::new()), Err("missing".to_string())), None);
    assert!(run.is_done());
    assert_eq!(run.finish(), Err(failed("backup", Operation::Scan, "missing".to_string())));
}

#[test]
fn scan_failure_below_the_roots_is_reported_and_the_run_goes_on() {
    let main = dir(1).sub("a", dir(2).file("x", 1).locked()).sub("b", dir(3).file("y", 2));
    let mut disk = Disk::new(main, dir(9));
    let report = mirror(&mut disk, &[]);
    assert_eq!(report, Ok(vec![failed("main/a", Operation::Scan, "permission denied".to_string())]));
    assert_eq!(disk.backup.at(&["b"]).unwrap().files.get("y"), Some(&2));
    assert!(disk.backup.at(&["a"]).unwrap().files.is_empty());
}

#[test]
fn blocked_copy_is_reported_and_the_run_goes_on() {
    let main = dir(1).file("x", 1).file("z", 3);
    let backup = dir(2).sub("x", dir(5));
    let mut disk = Disk::new(main, backup);
    let report = mirror(&mut disk, &[]);
    assert_eq!(report, Ok(vec![failed("backup/x", Operation::Copy, "is a directory".to_string())]));
    assert_eq!(disk.backup.files.get("z"), Some(&3));
    assert!(disk.backup.dirs.is_empty());
}

#[test]
fn run_copies_a_file_into_an_empty_backup() {
    let mut disk = Disk::new(dir(1).file("notes.txt", 100), dir(2));
    assert_eq!(mirror(&mut disk, &[]), Ok(Vec::new()));
    assert_eq!(disk.backup.files.get("notes.txt"), Some(&100));
    assert_eq!(disk.log, vec!["copy main/notes.txt backup/notes.txt".to_string()]);
}

#[test]
fn run_deletes_a_file_the_source_lacks() {
    let mut disk = Disk::new(dir(1), dir(2).file("stale.log", 5));
    assert_eq!(mirror(&mut disk, &[]), Ok(Vec::new()));
    assert!(disk.backup.files.is_empty());
    assert_eq!(disk.log, vec!["delete backup/stale.log".to_string()]);
}

#[test]
fn run_purges_an_excluded_directory_and_never_makes_it_again() {
    let main = dir(1).sub("cache", dir(2).file("blob", 1));
    let backup = dir(3).sub("cache", dir(4).file("blob", 1));
    let mut disk = Disk::new(main.clone(), backup);
    assert_eq!(mirror(&mut disk, &["cache"]), Ok(Vec::new()));
    assert_eq!(disk.main, main);
    assert!(disk.backup.dirs.is_empty());
    assert_eq!(disk.log, vec!["delete-all backup/cache".to_string()]);
    disk.log.clear();
    assert_eq!(mirror(&mut disk, &["cache"]), Ok(Vec::new()));
    assert!(disk.backup.dirs.is_empty());
    assert!(disk.log.is_empty());
}

#[test]
fn run_creates_an_unseen_subdirectory_with_all_it_holds() {
    let main = dir(1).sub("sub", dir(2).file("f", 7).sub("deep", dir(3).file("g", 8)));
    let mut disk = Disk::new(main.clone(), dir(9));
    assert_eq!(mirror(&mut disk, &[]), Ok(Vec::new()));
    assert_eq!(files_of(&disk.backup, &[]), files_of(&main, &[]));
    assert_eq!(dirs_of(&disk.backup, &[]), dirs_of(&main, &[]));
}

#[test]
fn run_mirrors_every_file_outside_excluded_directories() {
    let mut disk = Disk::new(source_tree(), backup_tree());
    assert_eq!(mirror(&mut disk, &["cache"]), Ok(Vec::new()));
    let wanted = files_of(&disk.main, &["cache"]);
    assert_eq!(wanted.len(), 6);
    let got = files_of(&disk.backup, &[]);
    for (path, modified) in &wanted {
        assert_eq!(got.get(path), Some(modified), "{}", path);
    }
}

#[test]
fn run_leaves_no_orphans() {
    let mut disk = Disk::new(source_tree(), backup_tree());
    assert_eq!(mirror(&mut disk, &["cache"]), Ok(Vec::new()));
    let source_files = files_of(&disk.main, &[]);
    for (path, modified) in &files_of(&disk.backup, &[]) {
        assert_eq!(source_files.get(path), Some(modified), "{}", path);
    }
    let source_dirs = dirs_of(&disk.main, &[]);
    for path in &dirs_of(&disk.backup, &[]) {
        assert!(source_dirs.contains(path), "{}", path);
    }
    assert_eq!(dirs_of(&disk.backup, &[]), dirs_of(&disk.main, &["cache"]));
}

#[test]
fn run_leaves_no_excluded_directory_in_the_backup() {
    let mut disk = Disk::new(source_tree(), backup_tree());
    assert_eq!(mirror(&mut disk, &["cache"]), Ok(Vec::new()));
    for path in &dirs_of(&disk.backup, &[]) {
        assert!(!path.split('/').any(|part| part == "cache"), "{}", path);
    }
    for path in files_of(&disk.backup, &[]).keys() {
        assert!(!path.split('/').any(|part| part == "cache"), "{}", path);
    }
    assert_eq!(disk.main, source_tree());
}

#[test]
fn second_run_changes_nothing() {
    let mut disk = Disk::new(source_tree(), backup_tree());
    assert_eq!(mirror(&mut disk, &["cache"]), Ok(Vec::new()));
    assert!(!disk.log.is_empty());
    let after_first = disk.backup.clone();
    disk.log.clear();
    assert_eq!(mirror(&mut disk, &["cache"]), Ok(Vec::new()));
    assert!(disk.log.is_empty(), "{:?}", disk.log);
    assert_eq!(disk.backup, after_first);
}

#[test]
fn altered_source_file_is_refreshed_once() {
    let mut disk = Disk::new(source_tree(), backup_tree());
    assert_eq!(mirror(&mut disk, &["cache"]), Ok(Vec::new()));
    disk.log.clear();
    disk.main.files.insert("notes.txt".to_string(), 777);
    assert_eq!(mirror(&mut disk, &["cache"]), Ok(Vec::new()));
    assert_eq!(
        disk.log,
        vec!["delete backup/notes.txt".to_string(), "copy main/notes.txt backup/notes.txt".to_string()]
    );
    assert_eq!(disk.backup.files.get("notes.txt"), Some(&777));
}

#[test]
fn shared_directory_with_equal_timestamps_is_passed_over() {
    let main = dir(1).sub("d", dir(5).file("new", 1));
    let backup = dir(2).sub("d", dir(5).file("old", 2).sub("cache", dir(3)));
    let mut disk = Disk::new(main, backup.clone());
    assert_eq!(mirror(&mut disk, &["cache"]), Ok(Vec::new()));
    assert!(disk.log.is_empty());
    assert_eq!(disk.backup, backup);
}
