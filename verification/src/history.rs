//! What holds of an indexing run as a whole, whatever events it meets.
use crate::indexing::{
    FinishReport, IndexAction, IndexEvent, IndexRun, IndexStep, Stage, Thumbnail,
};
use crate::progress::{FaceIndexProgress, ProgressUpdate};
use vstd::prelude::*;

verus! {

/// Whether the runs are the states of one run from its beginning, the events what it met in
/// between, and the steps what it said to each.
pub open spec fn is_history(
    runs: Seq<IndexRun>,
    events: Seq<IndexEvent>,
    steps: Seq<IndexStep>,
) -> bool {
    &&& runs.len() == events.len() + 1
    &&& steps.len() == events.len()
    &&& runs[0].is_fresh()
    &&& forall|k: int|
        0 <= k < events.len() ==> runs[k].accepts(#[trigger] events[k]) && runs[k].goes(
            events[k],
            runs[k + 1],
            steps[k],
        )
}

/// A step keeps the counts of a run fitting.
pub proof fn law_step_keeps_counts(
    run: IndexRun,
    event: IndexEvent,
    after: IndexRun,
    step: IndexStep,
)
    requires
        run.wf(),
        run.accepts(event),
        run.goes(event, after, step),
    ensures
        after.wf(),
{
}

/// The counts of a run fit its photos at every moment: it has never begun with more photos than
/// there are, and when faces are grouped it has begun with all of them.
pub proof fn law_counts_fit(
    runs: Seq<IndexRun>,
    events: Seq<IndexEvent>,
    steps: Seq<IndexStep>,
    k: int,
)
    requires
        is_history(runs, events, steps),
        0 <= k <= events.len(),
    ensures
        runs[k].wf(),
        runs[k].stage.knows_files() ==> runs[k].current <= runs[k].total,
        runs[k].stage is Cluster ==> runs[k].current == runs[k].total,
    decreases k,
{
    if k > 0 {
        law_counts_fit(runs, events, steps, k - 1);
        let event = events[k - 1];
        law_step_keeps_counts(runs[k - 1], event, runs[k], steps[k - 1]);
    }
}

/// How many faces the first `n` events say were stored.
pub open spec fn stored_count(events: Seq<IndexEvent>, n: int) -> int
    decreases n,
{
    if n <= 0 {
        0
    } else {
        stored_count(events, n - 1) + if events[n - 1] matches IndexEvent::Stored(Ok(_)) {
            1int
        } else {
            0int
        }
    }
}

/// The number of faces is the number found in earlier runs and one more for each face stored
/// since. A face that could not be stored is not counted.
pub proof fn law_faces_counted(
    runs: Seq<IndexRun>,
    events: Seq<IndexEvent>,
    steps: Seq<IndexStep>,
    k: int,
)
    requires
        is_history(runs, events, steps),
        0 <= k <= events.len(),
    ensures
        runs[k].faces == runs[k].existing_faces + stored_count(events, k),
    decreases k,
{
    if k > 0 {
        law_faces_counted(runs, events, steps, k - 1);
        law_counts_fit(runs, events, steps, k - 1);
        let event = events[k - 1];
        lemma_nothing_stored_early(runs, events, steps, k - 1);
    }
}

/// Before the photos are known, no face has been stored.
proof fn lemma_nothing_stored_early(
    runs: Seq<IndexRun>,
    events: Seq<IndexEvent>,
    steps: Seq<IndexStep>,
    k: int,
)
    requires
        is_history(runs, events, steps),
        0 <= k <= events.len(),
    ensures
        runs[k].stage is Models || runs[k].stage is ModelLoad || runs[k].stage is Stats
            ==> stored_count(events, k) == 0 && runs[k].faces == 0 && runs[k].current == 0,
    decreases k,
{
    if k > 0 {
        lemma_nothing_stored_early(runs, events, steps, k - 1);
        let event = events[k - 1];
    }
}

/// How many of the first `n` steps begin with a photo.
pub open spec fn begun_count(steps: Seq<IndexStep>, n: int) -> int
    decreases n,
{
    if n <= 0 {
        0
    } else {
        begun_count(steps, n - 1) + if steps[n - 1].action is FetchThumbnail {
            1int
        } else {
            0int
        }
    }
}

/// Each photo is begun with once: the run has begun with as many as it has counted, and with all
/// of them when it groups faces.
pub proof fn law_every_photo_once(
    runs: Seq<IndexRun>,
    events: Seq<IndexEvent>,
    steps: Seq<IndexStep>,
    k: int,
)
    requires
        is_history(runs, events, steps),
        0 <= k <= events.len(),
    ensures
        runs[k].next == begun_count(steps, k),
        runs[k].stage is Cluster ==> begun_count(steps, k) == runs[k].files@.len(),
    decreases k,
{
    law_counts_fit(runs, events, steps, k);
    if k > 0 {
        law_every_photo_once(runs, events, steps, k - 1);
        law_counts_fit(runs, events, steps, k - 1);
        lemma_photos_unknown_early(runs, events, steps, k - 1);
        let event = events[k - 1];
    }
}

proof fn lemma_photos_unknown_early(
    runs: Seq<IndexRun>,
    events: Seq<IndexEvent>,
    steps: Seq<IndexStep>,
    k: int,
)
    requires
        is_history(runs, events, steps),
        0 <= k <= events.len(),
    ensures
        runs[k].stage is Models || runs[k].stage is ModelLoad || runs[k].stage is Stats
            || runs[k].stage is Files ==> runs[k].next == 0 && runs[k].files@.len() == 0
            && runs[k].total == 0,
    decreases k,
{
    if k > 0 {
        lemma_photos_unknown_early(runs, events, steps, k - 1);
        let event = events[k - 1];
    }
}

/// Progress only grows: neither the photos begun with nor the faces nor the total ever go back.
pub proof fn law_progress_grows(
    runs: Seq<IndexRun>,
    events: Seq<IndexEvent>,
    steps: Seq<IndexStep>,
    i: int,
    j: int,
)
    requires
        is_history(runs, events, steps),
        0 <= i <= j <= events.len(),
    ensures
        runs[i].current <= runs[j].current,
        runs[i].faces <= runs[j].faces,
        runs[i].total <= runs[j].total,
    decreases j,
{
    if i < j {
        law_progress_grows(runs, events, steps, i, j - 1);
        law_counts_fit(runs, events, steps, j - 1);
        lemma_nothing_stored_early(runs, events, steps, j - 1);
        lemma_photos_unknown_early(runs, events, steps, j - 1);
        let event = events[j - 1];
    }
}

/// What is announced in a report is where the run stands: the photos begun with, the total and
/// the faces, and never more photos than there are.
pub proof fn law_reports_true(
    runs: Seq<IndexRun>,
    events: Seq<IndexEvent>,
    steps: Seq<IndexStep>,
    k: int,
    r: int,
)
    requires
        is_history(runs, events, steps),
        0 <= k < events.len(),
        0 <= r < steps[k].reports@.len(),
    ensures
        steps[k].reports@[r].announced.current == runs[k + 1].current,
        steps[k].reports@[r].announced.total == runs[k + 1].total,
        steps[k].reports@[r].announced.faces_found == runs[k + 1].faces,
        steps[k].reports@[r].announced.current <= steps[k].reports@[r].announced.total,
{
    law_counts_fit(runs, events, steps, k);
    law_counts_fit(runs, events, steps, k + 1);
    let event = events[k];
    let reports = steps[k].reports@;
    assert(reports.last() == reports[reports.len() - 1]);
}

/// The end is announced once, as the very last thing: the run is over when it has announced its
/// end, and only then, and takes no event after that.
pub proof fn law_end_announced_once(
    runs: Seq<IndexRun>,
    events: Seq<IndexEvent>,
    steps: Seq<IndexStep>,
    k: int,
)
    requires
        is_history(runs, events, steps),
        0 <= k < events.len(),
    ensures
        steps[k].action is Finish <==> runs[k + 1].stage is Finished,
        steps[k].action is Finish ==> k == events.len() - 1,
{
    let event = events[k];
    if runs[k + 1].stage is Finished && k + 1 < events.len() {
        let next = events[k + 1];
        assert(runs[k + 1].accepts(next));
    }
}

/// A run that was told to stop between photos ends at once, names no persons, and says so.
pub proof fn law_cancellation_obeyed(
    runs: Seq<IndexRun>,
    events: Seq<IndexEvent>,
    steps: Seq<IndexStep>,
    k: int,
)
    requires
        is_history(runs, events, steps),
        0 <= k < events.len(),
        runs[k].stage is Cancel,
        events[k] == IndexEvent::Cancel(true),
    ensures
        k == events.len() - 1,
        steps[k].action matches IndexAction::Finish(end) && end.cancelled && end.total_persons == 0
            && end.error is None && end.total_faces == runs[k].existing_faces + stored_count(
            events,
            k,
        ),
{
    law_end_announced_once(runs, events, steps, k);
    law_faces_counted(runs, events, steps, k);
}

/// A run that ends without an error and was not told to stop between photos has begun with every
/// photo, and names the persons that the grouping found.
pub proof fn law_complete_end(
    runs: Seq<IndexRun>,
    events: Seq<IndexEvent>,
    steps: Seq<IndexStep>,
    k: int,
)
    requires
        is_history(runs, events, steps),
        0 <= k < events.len(),
        steps[k].action is Finish,
        steps[k].action->Finish_0.error is None,
        !(runs[k].stage is Cancel),
    ensures
        runs[k].stage is LastCancel,
        runs[k].current == runs[k].total,
        begun_count(steps, k) == runs[k].files@.len(),
        steps[k].action->Finish_0.total_faces == runs[k].existing_faces + stored_count(events, k),
        runs[k].stage == (Stage::LastCancel {
            persons: steps[k].action->Finish_0.total_persons,
        }),
        events[k] == IndexEvent::Cancel(steps[k].action->Finish_0.cancelled),
{
    law_counts_fit(runs, events, steps, k);
    law_every_photo_once(runs, events, steps, k);
    law_faces_counted(runs, events, steps, k);
    let event = events[k];
}

/// A run that ends with an error found out nothing: it names no faces and no persons, and is not
/// called cancelled. It happens only before the first photo.
pub proof fn law_error_end(
    runs: Seq<IndexRun>,
    events: Seq<IndexEvent>,
    steps: Seq<IndexStep>,
    k: int,
)
    requires
        is_history(runs, events, steps),
        0 <= k < events.len(),
        steps[k].action is Finish,
        steps[k].action->Finish_0.error is Some,
    ensures
        runs[k].stage is ModelLoad || runs[k].stage is Files || runs[k].stage is Store,
        begun_count(steps, k) == 0,
        steps[k].action->Finish_0.total_faces == 0,
        steps[k].action->Finish_0.total_persons == 0,
        !steps[k].action->Finish_0.cancelled,
{
    law_counts_fit(runs, events, steps, k);
    law_every_photo_once(runs, events, steps, k);
    lemma_photos_unknown_early(runs, events, steps, k);
    let event = events[k];
}

/// The order in which stages follow one another, as long as no new photo is begun with.
pub open spec fn stage_left(stage: Stage) -> int {
    match stage {
        Stage::Models => 14,
        Stage::ModelLoad => 13,
        Stage::Stats => 12,
        Stage::Files => 11,
        Stage::Store => 10,
        Stage::Thumbnail => 9,
        Stage::ThumbnailImage => 8,
        Stage::FileImage => 7,
        Stage::Scale { .. } => 6,
        Stage::Mark { .. } => 5,
        Stage::StoreFace { .. } => 4,
        Stage::Cancel => 3,
        Stage::Cluster => 2,
        Stage::LastCancel { .. } => 1,
        Stage::Finished => 0,
    }
}

/// Whether a run has got to know its photos.
pub open spec fn photos_known(stage: Stage) -> bool {
    stage.knows_files() || stage is Finished
}

/// How many known photos are still to be begun with.
pub open spec fn photos_left(run: IndexRun) -> int {
    if run.stage.knows_files() {
        run.files@.len() - run.next
    } else {
        0
    }
}

/// How many faces of a photo are still to be stored.
pub open spec fn faces_left(stage: Stage) -> int {
    match stage {
        Stage::StoreFace { faces, index } => faces - index,
        _ => 0,
    }
}

/// A run comes to an end: with each event it gets to know its photos, or has fewer of them ahead,
/// or gets on with the stages of one, or has fewer faces of it left to store.
pub proof fn law_run_ends(run: IndexRun, event: IndexEvent, after: IndexRun, step: IndexStep)
    requires
        run.wf(),
        run.accepts(event),
        run.goes(event, after, step),
    ensures
        photos_left(after) >= 0,
        stage_left(after.stage) >= 0,
        faces_left(after.stage) >= 0,
        photos_known(run.stage) ==> photos_known(after.stage),
        ({
            ||| !photos_known(run.stage) && photos_known(after.stage)
            ||| photos_left(after) < photos_left(run)
            ||| photos_left(after) == photos_left(run) && stage_left(after.stage) < stage_left(
                run.stage,
            )
            ||| photos_left(after) == photos_left(run) && stage_left(after.stage) == stage_left(
                run.stage,
            ) && faces_left(after.stage) < faces_left(run.stage)
        }),
        photos_known(run.stage) ==> photos_left(after) <= photos_left(run),
{
}

/// What the shared progress shows while a run goes through its photos: the run's total, and before
/// the first photo all of its counts.
pub open spec fn mirrors(run: IndexRun, shared: FaceIndexProgress) -> bool {
    &&& run.stage.knows_files() ==> shared.total == run.total
    &&& run.stage is Store || run.stage is Cancel || run.stage.in_file() ==> shared.phase@
        == "indexing"@
    &&& run.stage is Store ==> shared.current == run.current && shared.faces_found == run.faces
}

/// What is announced is what the shared progress shows once the report is entered: watchers that
/// listen and watchers that look see the same.
pub proof fn law_announced_is_shared(
    run: IndexRun,
    event: IndexEvent,
    after: IndexRun,
    step: IndexStep,
    shared: Seq<FaceIndexProgress>,
)
    requires
        run.wf(),
        run.accepts(event),
        run.goes(event, after, step),
        mirrors(run, shared[0]),
        shared.len() == step.reports@.len() + 1,
        forall|r: int|
            0 <= r < step.reports@.len() ==> (#[trigger] step.reports@[r]).enters(
                shared[r],
                shared[r + 1],
            ),
    ensures
        mirrors(after, shared.last()),
        forall|r: int|
            0 <= r < step.reports@.len() ==> shared[r + 1].shows(
                (#[trigger] step.reports@[r]).announced.current as int,
                step.reports@[r].announced.total as int,
                step.reports@[r].announced.faces_found as int,
                step.reports@[r].announced.phase@,
            ),
{
    let reports = step.reports@;
    if reports.len() > 0 {
        assert(reports[0].enters(shared[0], shared[1]));
        assert(reports.last() == reports[reports.len() - 1]);
    }
    if reports.len() > 1 {
        assert(reports[1].enters(shared[1], shared[2]));
    }
    assert(reports.len() <= 2);
    assert(shared.last() == shared[reports.len() as int]);
}

/// Progress is reported whenever the number of photos done is a multiple of ten or all of them
/// are done, and never between.
pub proof fn law_reports_at_tens(
    run: IndexRun,
    event: IndexEvent,
    after: IndexRun,
    step: IndexStep,
)
    requires
        run.wf(),
        run.accepts(event),
        run.goes(event, after, step),
        run.stage.in_file(),
        !after.stage.in_file(),
    ensures
        (exists|r: int|
            0 <= r < step.reports@.len() && (#[trigger] step.reports@[r]).update
                == ProgressUpdate::Advance) <==> after.current % 10 == 0 || after.current
            == after.total,
{
    let reports = step.reports@;
    if after.current % 10 == 0 || after.current == after.total {
        assert(reports[0].update == ProgressUpdate::Advance);
    } else {
        assert forall|r: int| 0 <= r < reports.len() implies (#[trigger] reports[r]).update
            != ProgressUpdate::Advance by {
            assert(reports.last() == reports[reports.len() - 1]);
        }
    }
}

/// Boxes are brought to the size of the photo exactly where they were found in its thumbnail, and
/// a photo is marked only when its boxes are in place.
pub proof fn law_only_thumbnails_scaled(
    run: IndexRun,
    event: IndexEvent,
    after: IndexRun,
    step: IndexStep,
)
    requires
        run.wf(),
        run.accepts(event),
        run.goes(event, after, step),
    ensures
        step.action is ScaleFaces <==> run.stage is ThumbnailImage && (event matches IndexEvent::Processed(
            outcome,
        ) && outcome is Ok),
        step.action is MarkScanned <==> run.stage is Scale || (run.stage is FileImage && (
        event matches IndexEvent::Processed(outcome) && outcome is Ok)),
{
}

/// A photo is marked with 1 exactly if faces of it are about to be stored, and with 2 otherwise.
/// One that could not be processed is not marked at all.
pub proof fn law_mark_tells_faces(
    run: IndexRun,
    event: IndexEvent,
    after: IndexRun,
    step: IndexStep,
    marked: IndexEvent,
    later: IndexRun,
    next: IndexStep,
)
    requires
        run.wf(),
        run.accepts(event),
        run.goes(event, after, step),
        step.action is MarkScanned,
        after.accepts(marked),
        after.goes(marked, later, next),
    ensures
        step.action->status == 1 || step.action->status == 2,
        step.action->status == 1 <==> next.action is StoreFace,
{
}

/// The faces of a photo are stored one by one from the first to the last: each but the first
/// follows the one before it, the first follows the mark, and only the last is followed by
/// something else.
pub proof fn law_faces_stored_in_order(
    runs: Seq<IndexRun>,
    events: Seq<IndexEvent>,
    steps: Seq<IndexStep>,
    k: int,
)
    requires
        is_history(runs, events, steps),
        0 <= k < events.len(),
        steps[k].action is StoreFace,
    ensures
        k > 0,
        steps[k].action->StoreFace_index == 0 ==> steps[k - 1].action is MarkScanned,
        steps[k].action->StoreFace_index > 0 ==> steps[k - 1].action is StoreFace && steps[k
            - 1].action->StoreFace_index == steps[k].action->StoreFace_index - 1,
        runs[k + 1].stage is StoreFace,
        k + 1 < events.len() && steps[k].action->StoreFace_index + 1
            < runs[k + 1].stage->StoreFace_faces ==> steps[k + 1].action is StoreFace,
{
    let event = events[k];
    let before = events[k - 1];
    if k + 1 < events.len() {
        let next = events[k + 1];
    }
}

/// What was asked for before event `k` came: first whether the networks are loaded, and then what
/// the run said last.
pub open spec fn asked(steps: Seq<IndexStep>, k: int) -> IndexAction {
    if k <= 0 {
        IndexAction::CheckModels
    } else {
        steps[k - 1].action
    }
}

/// A run waits for what it has asked for.
proof fn lemma_waits_for_asked(
    runs: Seq<IndexRun>,
    events: Seq<IndexEvent>,
    steps: Seq<IndexStep>,
    k: int,
)
    requires
        is_history(runs, events, steps),
        0 <= k <= events.len(),
    ensures
        match asked(steps, k) {
            IndexAction::CheckModels => runs[k].stage is Models && k == 0,
            IndexAction::LoadModels => runs[k].stage is ModelLoad,
            IndexAction::ReadStats => runs[k].stage is Stats,
            IndexAction::ListFiles => runs[k].stage is Files,
            IndexAction::OpenStore => runs[k].stage is Store,
            IndexAction::ReadCancel => if events[k - 1] is Clustered {
                runs[k].stage is LastCancel
            } else {
                runs[k].stage is Cancel
            },
            IndexAction::FetchThumbnail => runs[k].stage is Thumbnail,
            IndexAction::ProcessThumbnail(_) => runs[k].stage is ThumbnailImage,
            IndexAction::ProcessFile => runs[k].stage is FileImage,
            IndexAction::ScaleFaces => runs[k].stage is Scale,
            IndexAction::MarkScanned { .. } => runs[k].stage is Mark,
            IndexAction::StoreFace { index } => runs[k].stage is StoreFace
                && runs[k].stage->StoreFace_index == index,
            IndexAction::Cluster => runs[k].stage is Cluster,
            IndexAction::Finish(_) => runs[k].stage is Finished,
        },
{
    if k > 0 {
        let event = events[k - 1];
        assert(runs[k - 1].goes(event, runs[k], steps[k - 1]));
    }
}

/// Whatever answers what was asked for can be taken, as long as what it counts can be counted.
pub proof fn law_answers_taken(
    runs: Seq<IndexRun>,
    events: Seq<IndexEvent>,
    steps: Seq<IndexStep>,
    k: int,
    event: IndexEvent,
)
    requires
        is_history(runs, events, steps),
        0 <= k <= events.len(),
        match asked(steps, k) {
            IndexAction::CheckModels => event is Models,
            IndexAction::LoadModels => event is ModelsLoaded,
            IndexAction::ReadStats => event is Stats,
            IndexAction::ListFiles => event is Files && (event->Files_0 matches Ok(files)
                ==> runs[k].processed + files@.len() <= usize::MAX),
            IndexAction::OpenStore => event is StoreOpened,
            IndexAction::ReadCancel => event is Cancel,
            IndexAction::FetchThumbnail => event is Thumbnail,
            IndexAction::ProcessThumbnail(_) => event is Processed,
            IndexAction::ProcessFile => event is Processed,
            IndexAction::ScaleFaces => event is Scaled,
            IndexAction::MarkScanned { .. } => event is Marked,
            IndexAction::StoreFace { .. } => event is Stored && runs[k].faces < usize::MAX,
            IndexAction::Cluster => event is Clustered,
            IndexAction::Finish(_) => false,
        },
    ensures
        runs[k].wf(),
        runs[k].accepts(event),
{
    lemma_waits_for_asked(runs, events, steps, k);
    law_counts_fit(runs, events, steps, k);
}

/// Nothing begins without the networks: they are loaded unless they are there, and where that fails
/// the run ends with the reason.
pub proof fn law_networks_first(
    runs: Seq<IndexRun>,
    events: Seq<IndexEvent>,
    steps: Seq<IndexStep>,
    k: int,
)
    requires
        is_history(runs, events, steps),
        0 <= k < events.len(),
    ensures
        k == 0 ==> events[0] is Models,
        events[k] == IndexEvent::Models(true) ==> k == 0 && steps[k].action is ReadStats,
        events[k] == IndexEvent::Models(false) ==> k == 0 && steps[k].action is LoadModels,
        events[k] matches IndexEvent::ModelsLoaded(outcome) ==> match outcome {
            Ok(_) => steps[k].action is ReadStats,
            Err(reason) => steps[k].action == IndexAction::Finish(
                (FinishReport {
                    total_faces: 0,
                    total_persons: 0,
                    cancelled: false,
                    error: Some(reason),
                }),
            ),
        },
        events[k] is Stats ==> steps[k].action is ListFiles,
{
    let event = events[k];
    assert(runs[k].goes(event, runs[k + 1], steps[k]));
    if event is Models {
        lemma_models_asked_once(runs, events, steps, k);
    }
}

/// Whether the networks are loaded is asked at the very beginning only.
proof fn lemma_models_asked_once(
    runs: Seq<IndexRun>,
    events: Seq<IndexEvent>,
    steps: Seq<IndexStep>,
    k: int,
)
    requires
        is_history(runs, events, steps),
        0 <= k < events.len(),
        events[k] is Models,
    ensures
        k == 0,
{
    if k > 0 {
        let event = events[k - 1];
        assert(runs[k - 1].goes(event, runs[k], steps[k - 1]));
        let next = events[k];
        assert(runs[k].accepts(next));
    }
}

/// The counts of earlier runs are those that were read, and none where they could not be read.
pub proof fn law_earlier_counts_kept(
    runs: Seq<IndexRun>,
    events: Seq<IndexEvent>,
    steps: Seq<IndexStep>,
    s: int,
    k: int,
)
    requires
        is_history(runs, events, steps),
        0 <= s < k <= events.len(),
        events[s] is Stats,
    ensures
        match events[s]->Stats_0 {
            Ok((photos, faces)) => runs[k].processed == photos && runs[k].existing_faces == faces,
            Err(_) => runs[k].processed == 0 && runs[k].existing_faces == 0,
        },
        !(runs[k].stage is Models || runs[k].stage is ModelLoad || runs[k].stage is Stats),
    decreases k,
{
    let event = events[k - 1];
    assert(runs[k - 1].goes(event, runs[k], steps[k - 1]));
    if s < k - 1 {
        law_earlier_counts_kept(runs, events, steps, s, k - 1);
    }
}

/// The photos of a run are those that were listed, to the end, and their number and that of the
/// photos looked at earlier make up the total.
pub proof fn law_listed_photos_kept(
    runs: Seq<IndexRun>,
    events: Seq<IndexEvent>,
    steps: Seq<IndexStep>,
    f: int,
    k: int,
)
    requires
        is_history(runs, events, steps),
        0 <= f < k <= events.len(),
        events[f] matches IndexEvent::Files(listed) && listed is Ok,
    ensures
        runs[k].files == events[f]->Files_0->Ok_0,
        runs[k].total == runs[k].processed + runs[k].files@.len(),
        runs[k].current == runs[k].processed + runs[k].next,
        runs[k].stage.knows_files() || runs[k].stage is Finished,
    decreases k,
{
    let event = events[k - 1];
    law_counts_fit(runs, events, steps, k - 1);
    assert(runs[k - 1].goes(event, runs[k], steps[k - 1]));
    if f < k - 1 {
        law_listed_photos_kept(runs, events, steps, f, k - 1);
    } else {
        lemma_photos_unknown_early(runs, events, steps, k - 1);
    }
}

/// What follows the listing: the store is opened, and then the first photo is come to, or faces are
/// grouped where there is no photo. A run that cannot list its photos or open the store ends with
/// the reason.
pub proof fn law_listing_then_store(
    runs: Seq<IndexRun>,
    events: Seq<IndexEvent>,
    steps: Seq<IndexStep>,
    k: int,
)
    requires
        is_history(runs, events, steps),
        0 <= k < events.len(),
    ensures
        events[k] matches IndexEvent::Files(outcome) ==> match outcome {
            Ok(_) => steps[k].action is OpenStore,
            Err(reason) => steps[k].action == IndexAction::Finish(
                (FinishReport {
                    total_faces: 0,
                    total_persons: 0,
                    cancelled: false,
                    error: Some(reason),
                }),
            ),
        },
        events[k] matches IndexEvent::StoreOpened(outcome) ==> match outcome {
            Ok(_) => if runs[k].files@.len() > 0 {
                steps[k].action is ReadCancel
            } else {
                steps[k].action is Cluster
            },
            Err(reason) => steps[k].action == IndexAction::Finish(
                (FinishReport {
                    total_faces: 0,
                    total_persons: 0,
                    cancelled: false,
                    error: Some(reason),
                }),
            ),
        },
{
    let event = events[k];
    assert(runs[k].goes(event, runs[k + 1], steps[k]));
}

/// A photo is begun with by fetching its thumbnail, unless the run was told to stop. The photos are
/// begun with in the order in which they were listed: the one in hand is the one begun with last.
pub proof fn law_photos_in_listed_order(
    runs: Seq<IndexRun>,
    events: Seq<IndexEvent>,
    steps: Seq<IndexStep>,
    f: int,
    k: int,
)
    requires
        is_history(runs, events, steps),
        0 <= f < k < events.len(),
        events[f] matches IndexEvent::Files(listed) && listed is Ok,
    ensures
        events[k] == IndexEvent::Cancel(false) && !(events[k - 1] is Clustered)
            ==> steps[k].action is FetchThumbnail,
        events[k] == IndexEvent::Cancel(true) ==> steps[k].action is Finish,
        events[k] is Thumbnail || events[k] is Processed || events[k] is Scaled || events[k] is Marked
            || events[k] is Stored ==> {
            &&& runs[k].stage.in_file()
            &&& 1 <= begun_count(steps, k) <= events[f]->Files_0->Ok_0@.len()
            &&& runs[k].files@[runs[k].next - 1] == events[f]->Files_0->Ok_0@[begun_count(steps, k)
                - 1]
        },
{
    let event = events[k];
    assert(runs[k].accepts(event));
    assert(runs[k].goes(event, runs[k + 1], steps[k]));
    lemma_waits_for_asked(runs, events, steps, k);
    law_counts_fit(runs, events, steps, k);
    law_every_photo_once(runs, events, steps, k);
    law_listed_photos_kept(runs, events, steps, f, k);
    let before = events[k - 1];
    assert(runs[k - 1].goes(before, runs[k], steps[k - 1]));
}

/// Faces are looked for in the picture of the thumbnail where there is one, and in the photo itself
/// where there is none or where that failed.
pub proof fn law_thumbnail_tried_first(
    runs: Seq<IndexRun>,
    events: Seq<IndexEvent>,
    steps: Seq<IndexStep>,
    k: int,
)
    requires
        is_history(runs, events, steps),
        0 <= k < events.len(),
    ensures
        events[k] matches IndexEvent::Thumbnail(fetched) ==> match fetched {
            Ok(Some(Thumbnail { data: Some(picture) })) => steps[k].action
                == IndexAction::ProcessThumbnail(picture),
            _ => steps[k].action is ProcessFile,
        },
        asked(steps, k) is ProcessThumbnail ==> match events[k]->Processed_0 {
            Ok(_) => steps[k].action is ScaleFaces,
            Err(_) => steps[k].action is ProcessFile,
        },
        asked(steps, k) is ProcessFile ==> match events[k]->Processed_0 {
            Ok(_) => steps[k].action is MarkScanned,
            Err(_) => steps[k].action is ReadCancel || steps[k].action is Cluster,
        },
        events[k] is Scaled ==> steps[k].action is MarkScanned,
{
    let event = events[k];
    assert(runs[k].accepts(event));
    assert(runs[k].goes(event, runs[k + 1], steps[k]));
    lemma_waits_for_asked(runs, events, steps, k);
}

/// Where the photo in which `events[k]` found faces is marked: at once where they were found in the
/// photo itself, and one event later, when the boxes have been scaled, where they were found in its
/// thumbnail.
pub open spec fn marked_at(steps: Seq<IndexStep>, k: int) -> int {
    if asked(steps, k) is ProcessThumbnail {
        k + 1
    } else {
        k
    }
}

/// Every face of a photo is stored. Where `n` faces were found, whether in the thumbnail or in the
/// photo itself, the photo is marked with 1 or, where `n` is 0, with 2; then the faces from number 0
/// to number `n` - 1 are stored, one after the other and nothing between, whatever comes of marking
/// and storing; and then the run leaves the photo.
pub proof fn law_every_face_stored(
    runs: Seq<IndexRun>,
    events: Seq<IndexEvent>,
    steps: Seq<IndexStep>,
    k: int,
    n: usize,
    j: int,
)
    requires
        is_history(runs, events, steps),
        0 <= k < events.len(),
        events[k] == IndexEvent::Processed(Ok(n)),
    ensures
        marked_at(steps, k) < events.len() ==> steps[marked_at(steps, k)].action
            == (IndexAction::MarkScanned {
            status: if n == 0 {
                2
            } else {
                1
            },
        }),
        0 <= j < n && marked_at(steps, k) + 1 + j < events.len() ==> steps[marked_at(steps, k) + 1
            + j].action == (IndexAction::StoreFace { index: j as usize }),
        marked_at(steps, k) + 1 + n < events.len() ==> steps[marked_at(steps, k) + 1 + n].action is ReadCancel
            || steps[marked_at(steps, k) + 1 + n].action is Cluster,
{
    let event = events[k];
    assert(runs[k].accepts(event));
    assert(runs[k].goes(event, runs[k + 1], steps[k]));
    lemma_waits_for_asked(runs, events, steps, k);
    let m = marked_at(steps, k);
    if m == k + 1 && m < events.len() {
        let scaled = events[m];
        assert(runs[m].accepts(scaled));
        assert(runs[m].goes(scaled, runs[m + 1], steps[m]));
    }
    if m < events.len() {
        assert(runs[m + 1].stage == Stage::Mark { faces: n });
        if 0 <= j < n && m + 1 + j < events.len() {
            lemma_faces_in_turn(runs, events, steps, m + 1, n, j);
        }
        if m + 1 + n < events.len() {
            let last = events[m + 1 + n];
            if n > 0 {
                lemma_faces_in_turn(runs, events, steps, m + 1, n, n - 1);
            }
            assert(runs[m + 1 + n].accepts(last));
            assert(runs[m + 1 + n].goes(last, runs[m + 2 + n], steps[m + 1 + n]));
        }
    }
}

/// The faces of a marked photo are stored in turn.
proof fn lemma_faces_in_turn(
    runs: Seq<IndexRun>,
    events: Seq<IndexEvent>,
    steps: Seq<IndexStep>,
    m: int,
    n: usize,
    j: int,
)
    requires
        is_history(runs, events, steps),
        0 <= m < events.len(),
        runs[m].stage == (Stage::Mark { faces: n }),
        0 <= j < n,
        m + j < events.len(),
    ensures
        steps[m + j].action == (IndexAction::StoreFace { index: j as usize }),
        runs[m + j + 1].stage == (Stage::StoreFace { faces: n, index: j as usize }),
    decreases j,
{
    let event = events[m + j];
    if j > 0 {
        lemma_faces_in_turn(runs, events, steps, m, n, j - 1);
    }
    assert(runs[m + j].accepts(event));
    assert(runs[m + j].goes(event, runs[m + j + 1], steps[m + j]));
}

/// Whether the run leaves a photo at event `k`: it was busy with one and turns to something else.
pub open spec fn leaves_photo(steps: Seq<IndexStep>, k: int) -> bool {
    &&& asked(steps, k) is ProcessFile || asked(steps, k) is MarkScanned || asked(
        steps,
        k,
    ) is StoreFace
    &&& steps[k].action is ReadCancel || steps[k].action is Cluster
}

/// A run that leaves a photo goes on with the next one as long as there is one that it has not
/// begun with, and groups the faces after the last.
pub proof fn law_next_photo_or_grouping(
    runs: Seq<IndexRun>,
    events: Seq<IndexEvent>,
    steps: Seq<IndexStep>,
    k: int,
)
    requires
        is_history(runs, events, steps),
        0 <= k < events.len(),
        leaves_photo(steps, k),
    ensures
        steps[k].action is ReadCancel <==> begun_count(steps, k) < runs[k].files@.len(),
        begun_count(steps, k + 1) == begun_count(steps, k),
{
    let event = events[k];
    assert(runs[k].accepts(event));
    assert(runs[k].goes(event, runs[k + 1], steps[k]));
    lemma_waits_for_asked(runs, events, steps, k);
    law_every_photo_once(runs, events, steps, k);
}

/// When the faces are grouped the run asks once more whether it was told to stop, and announces its
/// end: all faces, earlier runs included, the persons that were found, or none where grouping
/// failed, and whether it was told to stop.
pub proof fn law_end_tells_what_was_found(
    runs: Seq<IndexRun>,
    events: Seq<IndexEvent>,
    steps: Seq<IndexStep>,
    k: int,
)
    requires
        is_history(runs, events, steps),
        0 <= k < events.len(),
        events[k] is Clustered,
    ensures
        asked(steps, k) is Cluster,
        steps[k].action is ReadCancel,
        k + 1 < events.len() ==> {
            &&& events[k + 1] is Cancel
            &&& steps[k + 1].action is Finish
            &&& steps[k + 1].action->Finish_0.total_faces == runs[k].existing_faces + stored_count(
                events,
                k,
            )
            &&& steps[k + 1].action->Finish_0.total_persons == match events[k]->Clustered_0 {
                Ok(persons) => persons,
                Err(_) => 0,
            }
            &&& steps[k + 1].action->Finish_0.cancelled == events[k + 1]->Cancel_0
            &&& steps[k + 1].action->Finish_0.error is None
        },
{
    let event = events[k];
    assert(runs[k].accepts(event));
    assert(runs[k].goes(event, runs[k + 1], steps[k]));
    lemma_waits_for_asked(runs, events, steps, k);
    law_faces_counted(runs, events, steps, k);
    if k + 1 < events.len() {
        let next = events[k + 1];
        assert(runs[k + 1].accepts(next));
        assert(runs[k + 1].goes(next, runs[k + 2], steps[k + 1]));
    }
}

/// Exactly what is reported, and when. When the photos are known, the counts of earlier runs and the
/// total. When a photo is left, the counts if the number of photos is a multiple of ten or all are
/// done. When the faces are about to be grouped, that all photos are done. Nothing else.
pub proof fn law_reports_exact(
    runs: Seq<IndexRun>,
    events: Seq<IndexEvent>,
    steps: Seq<IndexStep>,
    k: int,
)
    requires
        is_history(runs, events, steps),
        0 <= k < events.len(),
    ensures
        ({
            let reports = steps[k].reports@;
            let total = runs[k + 1].processed + runs[k + 1].files@.len();
            let done = runs[k + 1].processed + begun_count(steps, k);
            let faces = runs[k + 1].existing_faces + stored_count(events, k + 1);
            let due = leaves_photo(steps, k) && (done % 10 == 0 || done == total);
            let begins = steps[k].action is OpenStore;
            let groups = steps[k].action is Cluster;
            &&& reports.len() == (if due || begins {
                1int
            } else {
                0int
            }) + (if groups {
                1int
            } else {
                0int
            })
            &&& begins ==> {
                &&& reports[0].update is Begin
                &&& reports[0].announced.current == runs[k + 1].processed
                &&& reports[0].announced.total == total
                &&& reports[0].announced.faces_found == runs[k + 1].existing_faces
                &&& reports[0].announced.phase@ == "indexing"@
            }
            &&& due ==> {
                &&& reports[0].update is Advance
                &&& reports[0].announced.current == done
                &&& reports[0].announced.total == total
                &&& reports[0].announced.faces_found == faces
                &&& reports[0].announced.phase@ == "indexing"@
            }
            &&& groups ==> {
                &&& reports[reports.len() - 1].update is Clustering
                &&& reports[reports.len() - 1].announced.current == total
                &&& reports[reports.len() - 1].announced.total == total
                &&& reports[reports.len() - 1].announced.faces_found == faces
                &&& reports[reports.len() - 1].announced.phase@ == "clustering"@
            }
        }),
{
    let event = events[k];
    assert(runs[k].accepts(event));
    assert(runs[k].goes(event, runs[k + 1], steps[k]));
    lemma_waits_for_asked(runs, events, steps, k);
    law_counts_fit(runs, events, steps, k);
    law_counts_fit(runs, events, steps, k + 1);
    law_every_photo_once(runs, events, steps, k);
    law_faces_counted(runs, events, steps, k);
    law_faces_counted(runs, events, steps, k + 1);
    let reports = steps[k].reports@;
    assert(reports.last() == reports[reports.len() - 1]);
}

} // verus!
