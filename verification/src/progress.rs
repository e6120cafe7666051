//! What an indexing run shares with the rest of the program: its flags and its progress.
use std::sync::{Arc, Mutex};
use vstd::prelude::*;

verus! {

/// `std::sync::Mutex`, carried and never looked into.
#[verifier::external_type_specification]
#[verifier::external_body]
#[verifier::reject_recursive_types(T)]
pub struct ExMutex<T: ?Sized>(std::sync::Mutex<T>);

/// The request to stop an indexing run.
#[derive(Clone)]
pub struct FaceIndexCancellation(pub Arc<Mutex<bool>>);

/// Whether an indexing run is under way.
#[derive(Clone)]
pub struct FaceIndexingStatus(pub Arc<Mutex<bool>>);

/// How far an indexing run has come.
#[derive(Clone)]
pub struct FaceIndexProgress {
    pub current: usize,
    pub total: usize,
    pub faces_found: usize,
    pub phase: String,
}

/// The progress as the run and its watchers share it.
#[derive(Clone)]
pub struct FaceIndexProgressState(pub Arc<Mutex<FaceIndexProgress>>);

/// Counts over the whole collection.
#[derive(Clone)]
pub struct FaceStats {
    pub total: usize,
    pub processed: usize,
    pub unprocessed: usize,
    pub faces: usize,
}

impl FaceIndexProgress {
    /// What a watcher sees.
    pub open spec fn shows(
        &self,
        current: int,
        total: int,
        faces_found: int,
        phase: Seq<char>,
    ) -> bool {
        &&& self.current == current
        &&& self.total == total
        &&& self.faces_found == faces_found
        &&& self.phase@ == phase
    }

    /// Forgets an earlier run.
    pub fn reset(&mut self)
        ensures
            final(self).shows(0, 0, 0, "indexing"@),
    {
        self.current = 0;
        self.total = 0;
        self.faces_found = 0;
        self.phase = String::from_str("indexing");
    }
}

/// What a report changes in the shared progress.
#[derive(Clone, Copy, Debug, PartialEq, Eq, Structural)]
pub enum ProgressUpdate {
    /// Everything: the run begins to go through its files.
    Begin,
    /// How many files are done and how many faces were found.
    Advance,
    /// The phase: all files are done, and faces are being grouped.
    Clustering,
}

/// A report of progress: what it changes in the shared progress, and what is announced.
pub struct ProgressReport {
    pub update: ProgressUpdate,
    pub announced: FaceIndexProgress,
}

impl ProgressReport {
    /// The shared progress once the report is entered.
    pub open spec fn enters(&self, before: FaceIndexProgress, after: FaceIndexProgress) -> bool {
        let now = self.announced;
        match self.update {
            ProgressUpdate::Begin => after.shows(
                now.current as int,
                now.total as int,
                now.faces_found as int,
                "indexing"@,
            ),
            ProgressUpdate::Advance => after.shows(
                now.current as int,
                before.total as int,
                now.faces_found as int,
                before.phase@,
            ),
            ProgressUpdate::Clustering => after.shows(
                before.current as int,
                before.total as int,
                before.faces_found as int,
                "clustering"@,
            ),
        }
    }

    /// Enters the report into the shared progress.
    pub fn enter(&self, shared: &mut FaceIndexProgress)
        ensures
            self.enters(*old(shared), *final(shared)),
    {
        match self.update {
            ProgressUpdate::Begin => {
                shared.total = self.announced.total;
                shared.current = self.announced.current;
                shared.faces_found = self.announced.faces_found;
                shared.phase = String::from_str("indexing");
            },
            ProgressUpdate::Advance => {
                shared.current = self.announced.current;
                shared.faces_found = self.announced.faces_found;
            },
            ProgressUpdate::Clustering => {
                shared.phase = String::from_str("clustering");
            },
        }
    }
}

/// Claims the right to run. Only one run may be under way: a second one is refused and changes
/// nothing.
pub fn claim_run(running: &mut bool) -> (outcome: Result<(), String>)
    ensures
        *final(running),
        outcome is Ok <==> !*old(running),
        outcome matches Err(message) ==> message@ == "Face indexing is already running"@,
{
    if *running {
        Err(String::from_str("Face indexing is already running"))
    } else {
        *running = true;
        Ok(())
    }
}

/// Gives the right to run back.
pub fn release_run(running: &mut bool)
    ensures
        !*final(running),
{
    *running = false;
}

/// Withdraws a request to stop that was meant for an earlier run.
pub fn withdraw_cancellation(cancelled: &mut bool)
    ensures
        !*final(cancelled),
{
    *cancelled = false;
}

/// Begins a run: claims the right to run, withdraws an old request to stop and forgets the
/// progress of an earlier run. Where another run is under way the new one is refused, and nothing
/// changes.
pub fn begin_run(
    running: &mut bool,
    cancelled: &mut bool,
    progress: &mut FaceIndexProgress,
) -> (outcome: Result<(), String>)
    ensures
        *final(running),
        outcome is Ok <==> !*old(running),
        outcome is Ok ==> !*final(cancelled) && final(progress).shows(0, 0, 0, "indexing"@),
        outcome matches Err(message) ==> message@ == "Face indexing is already running"@
            && *final(cancelled) == *old(cancelled) && *final(progress) == *old(progress),
{
    let outcome = claim_run(running);
    if outcome.is_ok() {
        withdraw_cancellation(cancelled);
        progress.reset();
    }
    outcome
}

/// What a report does to the shared progress: the first one sets all of it, one on the way sets the
/// photos done and the faces found, and the last one sets the phase; the rest stays.
pub proof fn law_report_entered(
    report: ProgressReport,
    before: FaceIndexProgress,
    after: FaceIndexProgress,
)
    requires
        report.enters(before, after),
    ensures
        report.update is Begin ==> {
            &&& after.current == report.announced.current
            &&& after.total == report.announced.total
            &&& after.faces_found == report.announced.faces_found
            &&& after.phase@ == "indexing"@
        },
        report.update is Advance ==> {
            &&& after.current == report.announced.current
            &&& after.total == before.total
            &&& after.faces_found == report.announced.faces_found
            &&& after.phase@ == before.phase@
        },
        report.update is Clustering ==> {
            &&& after.current == before.current
            &&& after.total == before.total
            &&& after.faces_found == before.faces_found
            &&& after.phase@ == "clustering"@
        },
{
}

/// What a watcher sees are the four parts of the progress, each in its place.
pub proof fn law_progress_shown(
    progress: FaceIndexProgress,
    current: int,
    total: int,
    faces_found: int,
    phase: Seq<char>,
)
    ensures
        progress.shows(current, total, faces_found, phase) <==> progress.current == current
            && progress.total == total && progress.faces_found == faces_found && progress.phase@
            == phase,
{
}

} // verus!
