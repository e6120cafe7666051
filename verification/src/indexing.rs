//! An indexing run: which step follows which, from loading the networks to the final report. The
//! run decides; whoever drives it does the work that an action asks for and hands back the event.
use crate::progress::{FaceIndexProgress, ProgressReport, ProgressUpdate};
use crate::single::Single;
use vstd::prelude::*;

verus! {

/// A photo that has not been looked at yet.
pub struct ImageFile {
    pub id: i64,
    pub path: String,
    pub width: u32,
    pub height: u32,
}

/// A stored thumbnail, whose picture may be missing.
pub struct Thumbnail {
    pub data: Option<Vec<u8>>,
}

/// How a run ended.
pub struct FinishReport {
    pub total_faces: usize,
    pub total_persons: usize,
    pub cancelled: bool,
    pub error: Option<String>,
}

/// What a run waits for.
#[derive(Clone, Copy, Debug, PartialEq, Eq, Structural)]
pub enum Stage {
    /// Whether the networks are loaded.
    Models,
    /// The outcome of loading them.
    ModelLoad,
    /// How many photos were looked at and how many faces were found before.
    Stats,
    /// The photos that have not been looked at.
    Files,
    /// The outcome of opening the store.
    Store,
    /// Whether the run is to stop before the next photo.
    Cancel,
    /// The thumbnail of the photo.
    Thumbnail,
    /// The faces in the thumbnail.
    ThumbnailImage,
    /// The faces in the photo itself.
    FileImage,
    /// The boxes of the faces in the thumbnail brought to the size of the photo.
    Scale { faces: usize },
    /// The photo marked as looked at.
    Mark { faces: usize },
    /// The outcome of storing one of the faces.
    StoreFace { faces: usize, index: usize },
    /// The outcome of grouping faces into persons.
    Cluster,
    /// Whether the run was told to stop while faces were grouped.
    LastCancel { persons: usize },
    /// Nothing: the run is over.
    Finished,
}

/// What has to be done next.
pub enum IndexAction {
    CheckModels,
    LoadModels,
    ReadStats,
    ListFiles,
    OpenStore,
    ReadCancel,
    FetchThumbnail,
    /// Find the faces in this picture.
    ProcessThumbnail(Vec<u8>),
    /// Find the faces in the photo itself.
    ProcessFile,
    /// Bring the boxes of the faces just found to the size of the photo.
    ScaleFaces,
    /// Mark the photo as looked at: 1 with faces, 2 without.
    MarkScanned { status: i32 },
    /// Store one of the faces just found.
    StoreFace { index: usize },
    Cluster,
    /// Announce the end and give the right to run back.
    Finish(FinishReport),
}

/// What came of an action.
pub enum IndexEvent {
    /// Whether the networks are loaded.
    Models(bool),
    ModelsLoaded(Result<(), String>),
    /// Photos looked at and faces found in earlier runs.
    Stats(Result<(usize, usize), String>),
    Files(Result<Vec<ImageFile>, String>),
    StoreOpened(Result<(), String>),
    Cancel(bool),
    Thumbnail(Result<Option<Thumbnail>, String>),
    /// How many faces were found.
    Processed(Result<usize, String>),
    Scaled,
    Marked(Result<(), String>),
    Stored(Result<(), String>),
    /// How many persons there are.
    Clustered(Result<usize, String>),
}

/// What a run says when it has taken an event: progress to report, in order, and what to do next.
pub struct IndexStep {
    pub reports: Vec<ProgressReport>,
    pub action: IndexAction,
}

/// An indexing run.
pub struct IndexRun {
    pub stage: Stage,
    /// The photos to go through.
    pub files: Vec<ImageFile>,
    /// How many of them the run has begun with.
    pub next: usize,
    /// How many photos earlier runs have looked at.
    pub processed: usize,
    /// How many faces earlier runs have found.
    pub existing_faces: usize,
    /// How many photos have been begun with, earlier runs included.
    pub current: usize,
    /// How many photos there are in all.
    pub total: usize,
    /// How many faces are stored, earlier runs included.
    pub faces: usize,
}

/// The bit pattern of 0.42, how far apart two faces of one person may be unless told otherwise.
pub const DEFAULT_EPSILON_BITS: u32 = 0x3ED7_0A3D;

/// How far apart two faces of one person may be: what was asked for, or the default.
pub fn cluster_epsilon(asked: Option<Single>) -> (epsilon: Single)
    ensures
        epsilon == (match asked {
            Some(asked) => asked,
            None => Single { bits: DEFAULT_EPSILON_BITS },
        }),
{
    asked.unwrap_or(Single::from_bits(DEFAULT_EPSILON_BITS))
}

/// Whether a report announces these counts.
pub open spec fn is_report(
    report: ProgressReport,
    update: ProgressUpdate,
    current: int,
    total: int,
    faces: int,
    phase: Seq<char>,
) -> bool {
    report.update == update && report.announced.shows(current, total, faces, phase)
}

/// A run that ends before it found out anything.
pub open spec fn failed(reason: String) -> IndexAction {
    IndexAction::Finish(
        FinishReport { total_faces: 0, total_persons: 0, cancelled: false, error: Some(reason) },
    )
}

/// The picture of a thumbnail that was fetched, if there is one.
pub open spec fn picture_of(fetched: Result<Option<Thumbnail>, String>) -> Option<Vec<u8>> {
    match fetched {
        Ok(Some(thumbnail)) => thumbnail.data,
        _ => None,
    }
}

/// How a photo is marked: 1 with faces, 2 without.
pub open spec fn scan_status(faces: usize) -> i32 {
    if faces > 0 {
        1
    } else {
        2
    }
}

impl Stage {
    /// Whether the run is busy with a photo.
    pub open spec fn in_file(self) -> bool {
        self is Thumbnail || self is ThumbnailImage || self is FileImage || self is Scale
            || self is Mark || self is StoreFace
    }

    /// Whether the run knows its photos and is not over.
    pub open spec fn knows_files(self) -> bool {
        self is Store || self is Cancel || self.in_file() || self is Cluster || self is LastCancel
    }
}

impl IndexRun {
    /// The counts of a run fit its photos and what it waits for.
    pub open spec fn wf(self) -> bool {
        &&& self.next <= self.files@.len()
        &&& self.existing_faces <= self.faces
        &&& self.stage.knows_files() ==> {
            &&& self.total == self.processed + self.files@.len()
            &&& self.current == self.processed + self.next
        }
        &&& self.stage is Files ==> self.current == self.processed && self.faces
            == self.existing_faces
        &&& self.stage is Store ==> self.next == 0 && self.faces == self.existing_faces
        &&& self.stage is Cancel ==> self.next < self.files@.len()
        &&& self.stage.in_file() ==> self.next >= 1
        &&& self.stage matches Stage::StoreFace { faces, index } ==> index < faces
        &&& self.stage is Cluster || self.stage is LastCancel ==> self.next == self.files@.len()
    }

    /// Whether a run is at its very beginning.
    pub open spec fn is_fresh(self) -> bool {
        &&& self.stage is Models
        &&& self.files@.len() == 0
        &&& self.next == 0
        &&& self.processed == 0
        &&& self.existing_faces == 0
        &&& self.current == 0
        &&& self.total == 0
        &&& self.faces == 0
    }

    /// Whether an event is what the run waits for, and its counts can be counted.
    pub open spec fn accepts(self, event: IndexEvent) -> bool {
        match self.stage {
            Stage::Models => event is Models,
            Stage::ModelLoad => event is ModelsLoaded,
            Stage::Stats => event is Stats,
            Stage::Files => event matches IndexEvent::Files(listed) && (listed matches Ok(files)
                ==> self.current + files@.len() <= usize::MAX),
            Stage::Store => event is StoreOpened,
            Stage::Cancel | Stage::LastCancel { .. } => event is Cancel,
            Stage::Thumbnail => event is Thumbnail,
            Stage::ThumbnailImage | Stage::FileImage => event is Processed,
            Stage::Scale { .. } => event is Scaled,
            Stage::Mark { .. } => event is Marked,
            Stage::StoreFace { .. } => event matches IndexEvent::Stored(outcome) && (outcome is Ok
                ==> self.faces < usize::MAX),
            Stage::Cluster => event is Clustered,
            Stage::Finished => false,
        }
    }

    /// Whether progress is reported when a photo is done with: at every tenth one and at the last.
    pub open spec fn report_due(self) -> bool {
        self.current % 10 == 0 || self.current == self.total
    }

    /// How a run leaves a photo: it reports progress if that is due, and turns to the next photo
    /// or, after the last, to grouping faces.
    pub open spec fn leaves_file(self, after: IndexRun, step: IndexStep) -> bool {
        let due: int = if self.report_due() {
            1
        } else {
            0
        };
        let more = self.next < self.files@.len();
        let reports = step.reports@;
        &&& reports.len() == if more {
            due
        } else {
            due + 1
        }
        &&& due == 1 ==> is_report(
            reports[0],
            ProgressUpdate::Advance,
            self.current as int,
            self.total as int,
            self.faces as int,
            "indexing"@,
        )
        &&& if more {
            after == (IndexRun { stage: Stage::Cancel, ..self }) && step.action
                == IndexAction::ReadCancel
        } else {
            self.turns_to_grouping(after, step)
        }
    }

    /// How a run turns to grouping faces, with a report as its last word on the photos.
    pub open spec fn turns_to_grouping(self, after: IndexRun, step: IndexStep) -> bool {
        &&& after == (IndexRun { stage: Stage::Cluster, ..self })
        &&& step.action == IndexAction::Cluster
        &&& is_report(
            step.reports@.last(),
            ProgressUpdate::Clustering,
            self.total as int,
            self.total as int,
            self.faces as int,
            "clustering"@,
        )
    }

    /// A step without reports.
    pub open spec fn moves(
        self,
        stage: Stage,
        after: IndexRun,
        step: IndexStep,
        action: IndexAction,
    ) -> bool {
        after == (IndexRun { stage, ..self }) && step.reports@.len() == 0 && step.action == action
    }

    /// How a run goes on from an event.
    pub open spec fn goes(self, event: IndexEvent, after: IndexRun, step: IndexStep) -> bool {
        match (self.stage, event) {
            (Stage::Models, IndexEvent::Models(loaded)) => {
                if loaded {
                    self.moves(Stage::Stats, after, step, IndexAction::ReadStats)
                } else {
                    self.moves(Stage::ModelLoad, after, step, IndexAction::LoadModels)
                }
            },
            (Stage::ModelLoad, IndexEvent::ModelsLoaded(outcome)) => match outcome {
                Ok(_) => self.moves(Stage::Stats, after, step, IndexAction::ReadStats),
                Err(reason) => self.moves(Stage::Finished, after, step, failed(reason)),
            },
            (Stage::Stats, IndexEvent::Stats(outcome)) => {
                let (processed, faces) = match outcome {
                    Ok(counts) => counts,
                    Err(_) => (0, 0),
                };
                &&& after == (IndexRun {
                    stage: Stage::Files,
                    processed,
                    existing_faces: faces,
                    current: processed,
                    faces,
                    ..self
                })
                &&& step.reports@.len() == 0
                &&& step.action == IndexAction::ListFiles
            },
            (Stage::Files, IndexEvent::Files(outcome)) => match outcome {
                Ok(files) => {
                    let total = self.current + files@.len();
                    &&& after == (IndexRun {
                        stage: Stage::Store,
                        files,
                        next: 0,
                        total: total as usize,
                        ..self
                    })
                    &&& step.reports@.len() == 1
                    &&& is_report(
                        step.reports@[0],
                        ProgressUpdate::Begin,
                        self.current as int,
                        total,
                        self.faces as int,
                        "indexing"@,
                    )
                    &&& step.action == IndexAction::OpenStore
                },
                Err(reason) => self.moves(Stage::Finished, after, step, failed(reason)),
            },
            (Stage::Store, IndexEvent::StoreOpened(outcome)) => match outcome {
                Ok(_) => if self.files@.len() > 0 {
                    self.moves(Stage::Cancel, after, step, IndexAction::ReadCancel)
                } else {
                    step.reports@.len() == 1 && self.turns_to_grouping(after, step)
                },
                Err(reason) => self.moves(Stage::Finished, after, step, failed(reason)),
            },
            (Stage::Cancel, IndexEvent::Cancel(cancelled)) => {
                if cancelled {
                    self.moves(
                        Stage::Finished,
                        after,
                        step,
                        IndexAction::Finish(
                            FinishReport {
                                total_faces: self.faces,
                                total_persons: 0,
                                cancelled: true,
                                error: None,
                            },
                        ),
                    )
                } else {
                    &&& after == (IndexRun {
                        stage: Stage::Thumbnail,
                        next: (self.next + 1) as usize,
                        current: (self.current + 1) as usize,
                        ..self
                    })
                    &&& step.reports@.len() == 0
                    &&& step.action == IndexAction::FetchThumbnail
                }
            },
            (Stage::Thumbnail, IndexEvent::Thumbnail(fetched)) => match picture_of(fetched) {
                Some(picture) => self.moves(
                    Stage::ThumbnailImage,
                    after,
                    step,
                    IndexAction::ProcessThumbnail(picture),
                ),
                None => self.moves(Stage::FileImage, after, step, IndexAction::ProcessFile),
            },
            (Stage::ThumbnailImage, IndexEvent::Processed(outcome)) => match outcome {
                Ok(faces) => self.moves(
                    Stage::Scale { faces },
                    after,
                    step,
                    IndexAction::ScaleFaces,
                ),
                Err(_) => self.moves(Stage::FileImage, after, step, IndexAction::ProcessFile),
            },
            (Stage::FileImage, IndexEvent::Processed(outcome)) => match outcome {
                Ok(faces) => self.moves(
                    Stage::Mark { faces },
                    after,
                    step,
                    IndexAction::MarkScanned { status: scan_status(faces) },
                ),
                Err(_) => self.leaves_file(after, step),
            },
            (Stage::Scale { faces }, IndexEvent::Scaled) => self.moves(
                Stage::Mark { faces },
                after,
                step,
                IndexAction::MarkScanned { status: scan_status(faces) },
            ),
            (Stage::Mark { faces }, IndexEvent::Marked(_)) => {
                if faces > 0 {
                    self.moves(
                        Stage::StoreFace { faces, index: 0 },
                        after,
                        step,
                        IndexAction::StoreFace { index: 0 },
                    )
                } else {
                    self.leaves_file(after, step)
                }
            },
            (Stage::StoreFace { faces, index }, IndexEvent::Stored(outcome)) => {
                let counted = IndexRun {
                    faces: if outcome is Ok {
                        (self.faces + 1) as usize
                    } else {
                        self.faces
                    },
                    ..self
                };
                if index + 1 < faces {
                    counted.moves(
                        Stage::StoreFace { faces, index: (index + 1) as usize },
                        after,
                        step,
                        IndexAction::StoreFace { index: (index + 1) as usize },
                    )
                } else {
                    counted.leaves_file(after, step)
                }
            },
            (Stage::Cluster, IndexEvent::Clustered(outcome)) => {
                let persons = match outcome {
                    Ok(persons) => persons,
                    Err(_) => 0,
                };
                self.moves(
                    Stage::LastCancel { persons },
                    after,
                    step,
                    IndexAction::ReadCancel,
                )
            },
            (Stage::LastCancel { persons }, IndexEvent::Cancel(cancelled)) => self.moves(
                Stage::Finished,
                after,
                step,
                IndexAction::Finish(
                    FinishReport {
                        total_faces: self.faces,
                        total_persons: persons,
                        cancelled,
                        error: None,
                    },
                ),
            ),
            _ => false,
        }
    }

    /// A run at its beginning, which first wants to know whether the networks are loaded.
    pub fn start() -> (started: (IndexRun, IndexAction))
        ensures
            started.0.is_fresh(),
            started.0.wf(),
            started.1 == IndexAction::CheckModels,
    {
        (
            IndexRun {
                stage: Stage::Models,
                files: Vec::new(),
                next: 0,
                processed: 0,
                existing_faces: 0,
                current: 0,
                total: 0,
                faces: 0,
            },
            IndexAction::CheckModels,
        )
    }

    /// The photo that the run is busy with.
    pub fn current_file(&self) -> (file: &ImageFile)
        requires
            self.wf(),
            self.stage.in_file(),
        ensures
            *file == self.files@[self.next - 1],
    {
        &self.files[self.next - 1]
    }

    /// Tells whether an event is what the run waits for.
    pub fn can_take(&self, event: &IndexEvent) -> (answer: bool)
        ensures
            answer == self.accepts(*event),
    {
        match (self.stage, event) {
            (Stage::Models, IndexEvent::Models(_)) => true,
            (Stage::ModelLoad, IndexEvent::ModelsLoaded(_)) => true,
            (Stage::Stats, IndexEvent::Stats(_)) => true,
            (Stage::Files, IndexEvent::Files(Ok(files))) => files.len() <= usize::MAX
                - self.current,
            (Stage::Files, IndexEvent::Files(Err(_))) => true,
            (Stage::Store, IndexEvent::StoreOpened(_)) => true,
            (Stage::Cancel, IndexEvent::Cancel(_)) => true,
            (Stage::Thumbnail, IndexEvent::Thumbnail(_)) => true,
            (Stage::ThumbnailImage, IndexEvent::Processed(_)) => true,
            (Stage::FileImage, IndexEvent::Processed(_)) => true,
            (Stage::Scale { .. }, IndexEvent::Scaled) => true,
            (Stage::Mark { .. }, IndexEvent::Marked(_)) => true,
            (Stage::StoreFace { .. }, IndexEvent::Stored(Ok(_))) => self.faces < usize::MAX,
            (Stage::StoreFace { .. }, IndexEvent::Stored(Err(_))) => true,
            (Stage::Cluster, IndexEvent::Clustered(_)) => true,
            (Stage::LastCancel { .. }, IndexEvent::Cancel(_)) => true,
            _ => false,
        }
    }

    /// Announces where the run stands.
    fn report(&self, update: ProgressUpdate, current: usize, phase: &str) -> (report: ProgressReport)
        ensures
            is_report(
                report,
                update,
                current as int,
                self.total as int,
                self.faces as int,
                phase@,
            ),
    {
        ProgressReport {
            update,
            announced: FaceIndexProgress {
                current,
                total: self.total,
                faces_found: self.faces,
                phase: String::from_str(phase),
            },
        }
    }

    /// Goes to another stage without a report.
    fn move_to(&mut self, stage: Stage, action: IndexAction) -> (step: IndexStep)
        ensures
            old(self).moves(stage, *final(self), step, action),
    {
        self.stage = stage;
        IndexStep { reports: Vec::new(), action }
    }

    /// Is done with a photo.
    fn leave_file(&mut self) -> (step: IndexStep)
        requires
            old(self).next <= old(self).files@.len(),
        ensures
            old(self).leaves_file(*final(self), step),
    {
        let mut reports: Vec<ProgressReport> = Vec::new();
        if self.current % 10 == 0 || self.current == self.total {
            reports.push(self.report(ProgressUpdate::Advance, self.current, "indexing"));
        }
        if self.next < self.files.len() {
            self.stage = Stage::Cancel;
            IndexStep { reports, action: IndexAction::ReadCancel }
        } else {
            reports.push(self.report(ProgressUpdate::Clustering, self.total, "clustering"));
            self.stage = Stage::Cluster;
            IndexStep { reports, action: IndexAction::Cluster }
        }
    }

    /// Ends a run that found out nothing.
    fn fail(&mut self, reason: String) -> (step: IndexStep)
        ensures
            old(self).moves(Stage::Finished, *final(self), step, failed(reason)),
    {
        self.move_to(
            Stage::Finished,
            IndexAction::Finish(
                FinishReport {
                    total_faces: 0,
                    total_persons: 0,
                    cancelled: false,
                    error: Some(reason),
                },
            ),
        )
    }

    /// Has the photo marked as looked at.
    fn mark(&mut self, faces: usize) -> (step: IndexStep)
        ensures
            old(self).moves(
                Stage::Mark { faces },
                *final(self),
                step,
                IndexAction::MarkScanned { status: scan_status(faces) },
            ),
    {
        let status: i32 = if faces > 0 {
            1
        } else {
            2
        };
        self.move_to(Stage::Mark { faces }, IndexAction::MarkScanned { status })
    }

    /// Takes an event and says what follows.
    pub fn step(&mut self, event: IndexEvent) -> (step: IndexStep)
        requires
            old(self).wf(),
            old(self).accepts(event),
        ensures
            final(self).wf(),
            old(self).goes(event, *final(self), step),
    {
        match (self.stage, event) {
            (Stage::Models, IndexEvent::Models(loaded)) => {
                if loaded {
                    self.move_to(Stage::Stats, IndexAction::ReadStats)
                } else {
                    self.move_to(Stage::ModelLoad, IndexAction::LoadModels)
                }
            },
            (Stage::ModelLoad, IndexEvent::ModelsLoaded(outcome)) => match outcome {
                Ok(_) => self.move_to(Stage::Stats, IndexAction::ReadStats),
                Err(reason) => self.fail(reason),
            },
            (Stage::Stats, IndexEvent::Stats(outcome)) => {
                let (processed, faces): (usize, usize) = match outcome {
                    Ok(counts) => counts,
                    Err(_) => (0, 0),
                };
                self.processed = processed;
                self.existing_faces = faces;
                self.current = processed;
                self.faces = faces;
                self.move_to(Stage::Files, IndexAction::ListFiles)
            },
            (Stage::Files, IndexEvent::Files(outcome)) => match outcome {
                Ok(files) => {
                    self.total = self.current + files.len();
                    self.files = files;
                    self.next = 0;
                    self.stage = Stage::Store;
                    let mut reports: Vec<ProgressReport> = Vec::new();
                    reports.push(self.report(ProgressUpdate::Begin, self.current, "indexing"));
                    IndexStep { reports, action: IndexAction::OpenStore }
                },
                Err(reason) => self.fail(reason),
            },
            (Stage::Store, IndexEvent::StoreOpened(outcome)) => match outcome {
                Ok(_) => if self.files.len() > 0 {
                    self.move_to(Stage::Cancel, IndexAction::ReadCancel)
                } else {
                    let mut reports: Vec<ProgressReport> = Vec::new();
                    reports.push(self.report(ProgressUpdate::Clustering, self.total, "clustering"));
                    self.stage = Stage::Cluster;
                    IndexStep { reports, action: IndexAction::Cluster }
                },
                Err(reason) => self.fail(reason),
            },
            (Stage::Cancel, IndexEvent::Cancel(cancelled)) => {
                if cancelled {
                    self.move_to(
                        Stage::Finished,
                        IndexAction::Finish(
                            FinishReport {
                                total_faces: self.faces,
                                total_persons: 0,
                                cancelled: true,
                                error: None,
                            },
                        ),
                    )
                } else {
                    self.next += 1;
                    self.current += 1;
                    self.move_to(Stage::Thumbnail, IndexAction::FetchThumbnail)
                }
            },
            (Stage::Thumbnail, IndexEvent::Thumbnail(fetched)) => match fetched {
                Ok(Some(thumbnail)) => match thumbnail.data {
                    Some(picture) => self.move_to(
                        Stage::ThumbnailImage,
                        IndexAction::ProcessThumbnail(picture),
                    ),
                    None => self.move_to(Stage::FileImage, IndexAction::ProcessFile),
                },
                _ => self.move_to(Stage::FileImage, IndexAction::ProcessFile),
            },
            (Stage::ThumbnailImage, IndexEvent::Processed(outcome)) => match outcome {
                Ok(faces) => self.move_to(Stage::Scale { faces }, IndexAction::ScaleFaces),
                Err(_) => self.move_to(Stage::FileImage, IndexAction::ProcessFile),
            },
            (Stage::FileImage, IndexEvent::Processed(outcome)) => match outcome {
                Ok(faces) => self.mark(faces),
                Err(_) => self.leave_file(),
            },
            (Stage::Scale { faces }, IndexEvent::Scaled) => self.mark(faces),
            (Stage::Mark { faces }, IndexEvent::Marked(_)) => {
                if faces > 0 {
                    self.move_to(
                        Stage::StoreFace { faces, index: 0 },
                        IndexAction::StoreFace { index: 0 },
                    )
                } else {
                    self.leave_file()
                }
            },
            (Stage::StoreFace { faces, index }, IndexEvent::Stored(outcome)) => {
                if outcome.is_ok() {
                    self.faces += 1;
                }
                if index + 1 < faces {
                    self.move_to(
                        Stage::StoreFace { faces, index: index + 1 },
                        IndexAction::StoreFace { index: index + 1 },
                    )
                } else {
                    self.leave_file()
                }
            },
            (Stage::Cluster, IndexEvent::Clustered(outcome)) => {
                let persons: usize = match outcome {
                    Ok(persons) => persons,
                    Err(_) => 0,
                };
                self.move_to(Stage::LastCancel { persons }, IndexAction::ReadCancel)
            },
            (Stage::LastCancel { persons }, IndexEvent::Cancel(cancelled)) => self.move_to(
                Stage::Finished,
                IndexAction::Finish(
                    FinishReport {
                        total_faces: self.faces,
                        total_persons: persons,
                        cancelled,
                        error: None,
                    },
                ),
            ),
            (_, _) => {
                assert(false);
                self.move_to(Stage::Finished, IndexAction::ReadStats)
            },
        }
    }
}

} // verus!
