//! The traversal orchestrator: the work queue of a run and the failures
//! collected over it.
//!
//! The orchestrator decides; the caller acts. The caller asks for the pair
//! on turn, scans its two directories, hands the scans in, carries out the
//! plan it gets back and reports what failed, until no pair is left.

use vstd::prelude::*;
use crate::backup::{create_backup, level_outcome, scan_view, LevelPlan, LevelPlanView};
use crate::dirs::path_pairs;
use crate::entry::names;
use crate::report::{failures, Failure, FailureView};
use crate::scan::{Scanned, ScannedView};

verus! {

/// The state of a run.
#[derive(Clone, Debug, PartialEq, Eq)]
pub struct Orchestrator {
    /// The names of the directories that are never mirrored.
    pub excluded: Vec<String>,
    /// The pairs of source and backup directory still to reconcile. The
    /// last one is on turn.
    pub queue: Vec<(String, String)>,
    /// The failures collected so far, none of them fatal.
    pub failures: Vec<Failure>,
    /// Whether the pair on turn is the pair of the two roots.
    pub at_root: bool,
    /// The failure that ended the run, if one did.
    pub fatal: Option<Failure>,
}

/// The mathematical value of an [`Orchestrator`].
pub ghost struct OrchestratorView {
    pub excluded: Seq<Seq<char>>,
    pub queue: Seq<(Seq<char>, Seq<char>)>,
    pub failures: Seq<FailureView>,
    pub at_root: bool,
    pub fatal: Option<FailureView>,
}

impl View for Orchestrator {
    type V = OrchestratorView;

    open spec fn view(&self) -> OrchestratorView {
        OrchestratorView {
            excluded: names(self.excluded@),
            queue: path_pairs(self.queue@),
            failures: failures(self.failures@),
            at_root: self.at_root,
            fatal: match self.fatal {
                Some(failure) => Some(failure@),
                None => None,
            },
        }
    }
}

/// The state at the start of a run: the pair of the roots is the one pair
/// in the queue, and nothing has failed.
pub open spec fn initial(
    source_root: Seq<char>,
    backup_root: Seq<char>,
    excluded: Seq<Seq<char>>,
) -> OrchestratorView {
    OrchestratorView {
        excluded,
        queue: seq![(source_root, backup_root)],
        failures: Seq::empty(),
        at_root: true,
        fatal: None,
    }
}

/// The state after the pair on turn has been reconciled from the two scans,
/// and the plan for the caller to carry out, if there is one.
///
/// With a plan, its pending pairs join the queue and its warnings join the
/// failures. Without one, a directory could not be listed: at the roots
/// that ends the run at once, anywhere else it is one more failure and the
/// run goes on. With no pair on turn nothing happens.
pub open spec fn reconciled(
    state: OrchestratorView,
    mscan: Result<Seq<ScannedView>, Seq<char>>,
    bscan: Result<Seq<ScannedView>, Seq<char>>,
) -> (OrchestratorView, Option<LevelPlanView>) {
    if state.queue.len() == 0 {
        (state, None)
    } else {
        let pair = state.queue.last();
        let rest = state.queue.drop_last();
        match level_outcome(pair.0, pair.1, mscan, bscan, state.excluded) {
            Ok(plan) => (
                OrchestratorView {
                    queue: rest + plan.pending,
                    failures: state.failures + plan.skipped,
                    at_root: false,
                    ..state
                },
                Some(plan),
            ),
            Err(failure) => if state.at_root {
                (
                    OrchestratorView {
                        queue: Seq::empty(),
                        at_root: false,
                        fatal: Some(failure),
                        ..state
                    },
                    None,
                )
            } else {
                (
                    OrchestratorView {
                        queue: rest,
                        failures: state.failures.push(failure),
                        ..state
                    },
                    None,
                )
            },
        }
    }
}

/// The view of a plan that may be missing.
pub open spec fn plan_view(plan: Option<LevelPlan>) -> Option<LevelPlanView> {
    match plan {
        Some(plan) => Some(plan@),
        None => None,
    }
}

/// The views of the outcome of a run.
pub open spec fn report_view(report: Result<Vec<Failure>, Failure>) -> Result<
    Seq<FailureView>,
    FailureView,
> {
    match report {
        Ok(list) => Ok(failures(list@)),
        Err(failure) => Err(failure@),
    }
}

impl Orchestrator {
    /// Starts a run that mirrors the tree at `source_root` into the tree at
    /// `backup_root`, leaving out the directories called as `excluded`
    /// says.
    pub fn new(source_root: String, backup_root: String, excluded: Vec<String>) -> (state:
        Orchestrator)
        ensures
            state@ == initial(source_root@, backup_root@, names(excluded@)),
    {
        let mut queue: Vec<(String, String)> = Vec::new();
        queue.push((source_root, backup_root));
        let state = Orchestrator {
            excluded,
            queue,
            failures: Vec::new(),
            at_root: true,
            fatal: None,
        };
        assert(state@.queue =~= seq![(source_root@, backup_root@)]);
        assert(state@.failures =~= Seq::empty());
        state
    }

    /// The pair on turn: the source directory and the backup directory to
    /// scan next. `None` once the run is over.
    pub fn current(&self) -> (pair: Option<(String, String)>)
        ensures
            match pair {
                Some(pair) => self@.queue.len() > 0 && (pair.0@, pair.1@) == self@.queue.last(),
                None => self@.queue.len() == 0,
            },
    {
        let n = self.queue.len();
        if n == 0 {
            None
        } else {
            Some((self.queue[n - 1].0.clone(), self.queue[n - 1].1.clone()))
        }
    }

    /// Whether the run is over: no pair is left to reconcile.
    pub fn is_done(&self) -> (done: bool)
        ensures
            done == (self@.queue.len() == 0),
    {
        self.queue.len() == 0
    }

    /// Reconciles the pair on turn from what the caller read of its source
    /// directory (`mscan`) and of its backup directory (`bscan`), and takes
    /// it off the queue.
    pub fn reconcile(
        &mut self,
        mscan: Result<Vec<Scanned>, String>,
        bscan: Result<Vec<Scanned>, String>,
    ) -> (plan: Option<LevelPlan>)
        ensures
            (final(self)@, plan_view(plan)) == reconciled(
                old(self)@,
                scan_view(mscan),
                scan_view(bscan),
            ),
    {
        let ghost before = self@;
        let pair = match self.queue.pop() {
            Some(pair) => pair,
            None => {
                return None;
            },
        };
        let ghost rest = path_pairs(self.queue@);
        assert(rest =~= before.queue.drop_last());
        assert((pair.0@, pair.1@) == before.queue.last());
        match create_backup(pair.0, pair.1, mscan, bscan, &self.excluded) {
            Ok(plan) => {
                let mut i: usize = 0;
                assert(path_pairs(self.queue@) =~= rest + plan@.pending.take(0));
                while i < plan.pending.len()
                    invariant
                        i <= plan.pending.len(),
                        path_pairs(self.queue@) == rest + plan@.pending.take(i as int),
                        self.excluded == old(self).excluded,
                        self.failures == old(self).failures,
                        self.fatal == old(self).fatal,
                    decreases plan.pending.len() - i,
                {
                    let ghost queued = path_pairs(self.queue@);
                    self.queue.push((plan.pending[i].0.clone(), plan.pending[i].1.clone()));
                    assert(path_pairs(self.queue@) =~= queued.push(plan@.pending[i as int]));
                    assert(rest + plan@.pending.take(i + 1) =~= queued.push(plan@.pending[i as int]));
                    i += 1;
                }
                assert(plan@.pending.take(plan.pending.len() as int) =~= plan@.pending);
                let mut i: usize = 0;
                assert(failures(self.failures@) =~= before.failures + plan@.skipped.take(0));
                while i < plan.skipped.len()
                    invariant
                        i <= plan.skipped.len(),
                        failures(self.failures@) == before.failures + plan@.skipped.take(i as int),
                        path_pairs(self.queue@) == rest + plan@.pending,
                        self.excluded == old(self).excluded,
                        self.fatal == old(self).fatal,
                    decreases plan.skipped.len() - i,
                {
                    let ghost collected = failures(self.failures@);
                    self.failures.push(plan.skipped[i].duplicate());
                    assert(failures(self.failures@) =~= collected.push(plan@.skipped[i as int]));
                    assert(before.failures + plan@.skipped.take(i + 1) =~= collected.push(
                        plan@.skipped[i as int],
                    ));
                    i += 1;
                }
                assert(plan@.skipped.take(plan.skipped.len() as int) =~= plan@.skipped);
                self.at_root = false;
                Some(plan)
            },
            Err(failure) => {
                if self.at_root {
                    self.queue.clear();
                    self.at_root = false;
                    self.fatal = Some(failure);
                    assert(path_pairs(self.queue@) =~= Seq::empty());
                } else {
                    let ghost collected = failures(self.failures@);
                    self.failures.push(failure);
                    assert(failures(self.failures@) =~= collected.push(failure@));
                }
                None
            },
        }
    }

    /// Adds the failure of an action that the caller could not carry out.
    /// The run goes on.
    pub fn record(&mut self, failure: Failure)
        ensures
            final(self)@ == (OrchestratorView {
                failures: old(self)@.failures.push(failure@),
                ..old(self)@
            }),
    {
        let ghost collected = failures(self.failures@);
        self.failures.push(failure);
        assert(failures(self.failures@) =~= collected.push(failure@));
    }

    /// Ends the run: the failure that aborted it, or else every failure
    /// collected, in the order in which they came.
    pub fn finish(self) -> (report: Result<Vec<Failure>, Failure>)
        ensures
            report_view(report) == match self@.fatal {
                Some(failure) => Err::<Seq<FailureView>, FailureView>(failure),
                None => Ok(self@.failures),
            },
    {
        match self.fatal {
            Some(failure) => Err(failure),
            None => Ok(self.failures),
        }
    }
}

} // verus!
