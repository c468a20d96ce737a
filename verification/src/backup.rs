//! One level of a run: from what was read of a source directory and of the
//! backup directory that goes with it to everything that has to happen there.

use vstd::prelude::*;
use crate::dirs::{
    clear_inconsistencies_dirs, dir_actions, dir_plan, path_pairs, pending_pairs, DirAction,
    DirActionView,
};
use crate::entry::{listing, names, Entry, EntryView};
use crate::exclusion::{filter_files, purged, retained};
use crate::files::{clear_inconsistencies_files, file_actions, file_plan, FileAction, FileActionView};
use crate::report::{failures, Failure, FailureView};
use crate::scan::{dir_items, fetch_files, scan_failure, scanned, DirItemsView, Scanned, ScannedView};

verus! {

/// Everything to do at one level, in the order in which it is to be done:
/// `purge`, then `files`, then `dirs`. `pending` names the levels to visit
/// afterwards.
#[derive(Clone, Debug, PartialEq, Eq)]
pub struct LevelPlan {
    /// A warning for each child of either directory that could not be read.
    pub skipped: Vec<Failure>,
    /// The backup directories with an excluded name, to be deleted with all
    /// they hold.
    pub purge: Vec<Entry>,
    /// The file actions.
    pub files: Vec<FileAction>,
    /// The directory actions.
    pub dirs: Vec<DirAction>,
    /// The pairs of source and backup directory to reconcile next.
    pub pending: Vec<(String, String)>,
}

/// The mathematical value of a [`LevelPlan`].
pub ghost struct LevelPlanView {
    pub skipped: Seq<FailureView>,
    pub purge: Seq<EntryView>,
    pub files: Seq<FileActionView>,
    pub dirs: Seq<DirActionView>,
    pub pending: Seq<(Seq<char>, Seq<char>)>,
}

impl View for LevelPlan {
    type V = LevelPlanView;

    open spec fn view(&self) -> LevelPlanView {
        LevelPlanView {
            skipped: failures(self.skipped@),
            purge: listing(self.purge@),
            files: file_actions(self.files@),
            dirs: dir_actions(self.dirs@),
            pending: path_pairs(self.pending@),
        }
    }
}

impl LevelPlanView {
    /// The plan changes nothing in the backup: no purge, no file action, no
    /// directory action.
    pub open spec fn is_idle(self) -> bool {
        self.purge.len() == 0 && self.files.len() == 0 && self.dirs.len() == 0
    }
}

/// What a caller read of a directory, taken by its view: the children, or
/// the system's message where the directory could not be listed.
pub open spec fn scan_view(scan: Result<Vec<Scanned>, String>) -> Result<
    Seq<ScannedView>,
    Seq<char>,
> {
    match scan {
        Ok(children) => Ok(scanned(children@)),
        Err(error) => Err(error@),
    }
}

/// The plan for a level whose two listings are `source` and `backup`, the
/// backup directory being at `bfolder`.
///
/// Exclusion comes first: directories with an excluded name are out of both
/// listings before anything is compared, and those of the backup are purged.
/// Files are not subject to exclusion.
pub open spec fn level_plan(
    source: DirItemsView,
    backup: DirItemsView,
    bfolder: Seq<char>,
    excluded: Seq<Seq<char>>,
) -> LevelPlanView {
    let mdirs = retained(source.dirs, excluded);
    let bdirs = retained(backup.dirs, excluded);
    LevelPlanView {
        skipped: source.skipped + backup.skipped,
        purge: purged(backup.dirs, excluded),
        files: file_plan(source.files, backup.files, bfolder),
        dirs: dir_plan(mdirs, bdirs, bfolder),
        pending: pending_pairs(mdirs, bdirs, bfolder),
    }
}

/// What `create_backup` returns: the failure to list the source directory,
/// else the failure to list the backup directory, else the plan.
pub open spec fn level_outcome(
    mfolder: Seq<char>,
    bfolder: Seq<char>,
    mscan: Result<Seq<ScannedView>, Seq<char>>,
    bscan: Result<Seq<ScannedView>, Seq<char>>,
    excluded: Seq<Seq<char>>,
) -> Result<LevelPlanView, FailureView> {
    match mscan {
        Err(error) => Err(scan_failure(mfolder, error)),
        Ok(mchildren) => match bscan {
            Err(error) => Err(scan_failure(bfolder, error)),
            Ok(bchildren) => Ok(
                level_plan(
                    dir_items(mfolder, mchildren),
                    dir_items(bfolder, bchildren),
                    bfolder,
                    excluded,
                ),
            ),
        },
    }
}

/// The views of a result of `create_backup`.
pub open spec fn outcome_view(outcome: Result<LevelPlan, Failure>) -> Result<
    LevelPlanView,
    FailureView,
> {
    match outcome {
        Ok(plan) => Ok(plan@),
        Err(failure) => Err(failure@),
    }
}

/// Reconciles one level: the source directory at `mfolder` with the backup
/// directory at `bfolder`.
///
/// `mscan` and `bscan` are what the caller read of the two directories. The
/// result is the plan for this level. The caller carries it out and calls
/// this function again for each pair of `pending`. Where one of the two
/// directories could not be listed there is no plan, and the failure names
/// the directory.
pub fn create_backup(
    mfolder: String,
    bfolder: String,
    mscan: Result<Vec<Scanned>, String>,
    bscan: Result<Vec<Scanned>, String>,
    to_filter: &Vec<String>,
) -> (outcome: Result<LevelPlan, Failure>)
    ensures
        outcome_view(outcome) == level_outcome(
            mfolder@,
            bfolder@,
            scan_view(mscan),
            scan_view(bscan),
            names(to_filter@),
        ),
{
    let mut mfiles = match fetch_files(&mfolder, mscan) {
        Ok(items) => items,
        Err(failure) => {
            return Err(failure);
        },
    };
    let mut bfiles = match fetch_files(&bfolder, bscan) {
        Ok(items) => items,
        Err(failure) => {
            return Err(failure);
        },
    };
    let ghost source = mfiles@;
    let ghost backup = bfiles@;
    let purge = filter_files(&mut mfiles.dirs, &mut bfiles.dirs, to_filter);

    let mut skipped = mfiles.skipped;
    let mut more = bfiles.skipped;
    skipped.append(&mut more);
    assert(failures(skipped@) =~= source.skipped + backup.skipped);

    let files = clear_inconsistencies_files(mfiles.files, bfiles.files, &bfolder);
    let remaining_dirs = clear_inconsistencies_dirs(mfiles.dirs, bfiles.dirs, &bfolder);
    Ok(
        LevelPlan {
            skipped,
            purge,
            files,
            dirs: remaining_dirs.actions,
            pending: remaining_dirs.pending,
        },
    )
}

} // verus!
