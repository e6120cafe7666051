use face_index::engine::{FaceEngine, FaceState, LoadAction, LoadFailure, LoadReply, ModelKind};
use face_index::indexing::{
    cluster_epsilon, FinishReport, ImageFile, IndexAction, IndexEvent, IndexRun, IndexStep, Stage,
    Thumbnail,
};
use face_index::progress::{
    begin_run, claim_run, release_run, withdraw_cancellation, FaceIndexCancellation, FaceIndexProgress,
    FaceIndexProgressState, FaceIndexingStatus, FaceStats, ProgressUpdate,
};
use face_index::single::Single;
use std::sync::{Arc, Mutex};

fn outcome(action: LoadAction) -> Result<(), String> {
    match action {
        LoadAction::Finish(outcome) => outcome,
        _ => panic!("loading goes on"),
    }
}

fn found(path: &str) -> LoadReply<u8> {
    LoadReply::File { found: true, path: path.to_string() }
}

/// Leads a fresh engine to the action that reads a file.
fn until_reading(engine: &mut FaceEngine<u8>) -> LoadAction {
    let action = engine.load_models();
    assert!(matches!(action, LoadAction::ResolveFolder));
    let action = engine.continue_loading(&action, LoadReply::Folder(Ok(())));
    assert!(matches!(action, LoadAction::CheckFile(ModelKind::Detection)));
    let action = engine.continue_loading(&action, found("d"));
    assert!(matches!(action, LoadAction::CheckFile(ModelKind::Embedding)));
    let action = engine.continue_loading(&action, found("e"));
    assert!(matches!(action, LoadAction::LoadFile(ModelKind::Detection)));
    action
}

#[test]
fn loads_both_networks() {
    let mut engine = FaceEngine::<u8>::new();
    assert!(!engine.is_loaded());
    let action = until_reading(&mut engine);
    let action = engine.continue_loading(&action, LoadReply::Model(Ok(1)));
    assert!(matches!(action, LoadAction::LoadFile(ModelKind::Embedding)));
    assert!(!engine.is_loaded());
    let action = engine.continue_loading(&action, LoadReply::Model(Ok(2)));
    assert_eq!(outcome(action), Ok(()));
    assert!(engine.is_loaded());
    assert_eq!(engine.detection_model, Some(1));
    assert_eq!(engine.embedding_model, Some(2));
    assert_eq!(outcome(engine.load_models()), Ok(()));
}

#[test]
fn loading_failures_are_explained() {
    let mut engine = FaceEngine::<u8>::new();
    let action = engine.load_models();
    let action = engine.continue_loading(&action, LoadReply::Folder(Err("no app".to_string())));
    assert_eq!(outcome(action), Err("Failed to resolve resource path: no app".to_string()));

    let missing = LoadReply::File { found: false, path: "\"m/d.onnx\"".to_string() };
    let action = engine.continue_loading(&LoadAction::CheckFile(ModelKind::Detection), missing);
    assert_eq!(outcome(action), Err("Detection model not found at \"m/d.onnx\"".to_string()));

    let missing = LoadReply::File { found: false, path: "\"m/e.onnx\"".to_string() };
    let action = engine.continue_loading(&LoadAction::CheckFile(ModelKind::Embedding), missing);
    assert_eq!(outcome(action), Err("Embedding model not found at \"m/e.onnx\"".to_string()));

    let action = until_reading(&mut engine);
    let failure = LoadReply::Model(Err(LoadFailure::Setup("no runtime".to_string())));
    assert_eq!(outcome(engine.continue_loading(&action, failure)), Err("no runtime".to_string()));
    let failure = LoadReply::Model(Err(LoadFailure::Read("garbage".to_string())));
    assert_eq!(
        outcome(engine.continue_loading(&action, failure)),
        Err("Failed to load detection model: garbage".to_string())
    );
    assert_eq!(engine.detection_model, None);
}

#[test]
fn half_loaded_engine_is_not_retried() {
    let mut engine = FaceEngine::<u8>::new();
    let action = until_reading(&mut engine);
    let action = engine.continue_loading(&action, LoadReply::Model(Ok(1)));
    let failure = LoadReply::Model(Err(LoadFailure::Read("garbage".to_string())));
    assert_eq!(
        outcome(engine.continue_loading(&action, failure)),
        Err("Failed to load embedding model: garbage".to_string())
    );
    assert_eq!(outcome(engine.load_models()), Ok(()));
    assert!(!engine.is_loaded());
}

#[test]
fn shared_engine_is_shared() {
    let state = FaceState(Arc::new(Mutex::new(FaceEngine::<u8>::new())));
    let other = state.clone();
    state.0.lock().unwrap().detection_model = Some(7);
    assert_eq!(other.0.lock().unwrap().detection_model, Some(7));
}

#[test]
fn one_run_at_a_time() {
    let status = FaceIndexingStatus(Arc::new(Mutex::new(false)));
    assert_eq!(claim_run(&mut status.0.lock().unwrap()), Ok(()));
    assert_eq!(
        claim_run(&mut status.0.lock().unwrap()),
        Err("Face indexing is already running".to_string())
    );
    assert!(*status.0.lock().unwrap());
    release_run(&mut status.0.lock().unwrap());
    assert_eq!(claim_run(&mut status.0.lock().unwrap()), Ok(()));
}

#[test]
fn a_new_run_forgets_the_last() {
    let cancel = FaceIndexCancellation(Arc::new(Mutex::new(true)));
    withdraw_cancellation(&mut cancel.0.lock().unwrap());
    assert!(!*cancel.0.lock().unwrap());
    let state = FaceIndexProgressState(Arc::new(Mutex::new(FaceIndexProgress {
        current: 3,
        total: 4,
        faces_found: 5,
        phase: "clustering".to_string(),
    })));
    state.0.lock().unwrap().reset();
    let progress = state.0.lock().unwrap().clone();
    assert_eq!((progress.current, progress.total, progress.faces_found), (0, 0, 0));
    assert_eq!(progress.phase, "indexing");
}

#[test]
fn a_refused_run_changes_nothing() {
    let mut progress = FaceIndexProgress {
        current: 3,
        total: 4,
        faces_found: 5,
        phase: "clustering".to_string(),
    };
    let (mut running, mut cancelled) = (true, true);
    assert_eq!(
        begin_run(&mut running, &mut cancelled, &mut progress),
        Err("Face indexing is already running".to_string())
    );
    assert!(running && cancelled);
    assert_eq!((progress.current, progress.total, progress.faces_found), (3, 4, 5));
    assert_eq!(progress.phase, "clustering");
    running = false;
    assert_eq!(begin_run(&mut running, &mut cancelled, &mut progress), Ok(()));
    assert!(running && !cancelled);
    assert_eq!((progress.current, progress.total, progress.faces_found), (0, 0, 0));
    assert_eq!(progress.phase, "indexing");
}

#[test]
fn stats_are_plain_counts() {
    let stats = FaceStats { total: 9, processed: 4, unprocessed: 5, faces: 2 };
    let copy = stats.clone();
    assert_eq!((copy.total, copy.processed, copy.unprocessed, copy.faces), (9, 4, 5, 2));
}

#[test]
fn epsilon_has_a_default() {
    let own = Single::from_bits(0.3f32.to_bits());
    assert_eq!(cluster_epsilon(Some(own)), own);
    assert_eq!(cluster_epsilon(None), Single::from_bits(0.42f32.to_bits()));
}

/// Drives a run and keeps what it says.
struct Driver {
    run: IndexRun,
    shared: FaceIndexProgress,
    announced: Vec<(ProgressUpdate, usize, usize, usize, String)>,
    finish: Option<FinishReport>,
}

impl Driver {
    fn new() -> Driver {
        let (run, action) = IndexRun::start();
        assert!(matches!(action, IndexAction::CheckModels));
        Driver {
            run,
            shared: FaceIndexProgress {
                current: 0,
                total: 0,
                faces_found: 0,
                phase: "indexing".to_string(),
            },
            announced: Vec::new(),
            finish: None,
        }
    }

    fn take(&mut self, event: IndexEvent) -> IndexAction {
        assert!(self.run.can_take(&event));
        let IndexStep { reports, action } = self.run.step(event);
        for report in reports {
            report.enter(&mut self.shared);
            let now = report.announced;
            assert_eq!(self.shared.current, now.current);
            assert_eq!(self.shared.total, now.total);
            assert_eq!(self.shared.faces_found, now.faces_found);
            assert_eq!(self.shared.phase, now.phase);
            self.announced.push((report.update, now.current, now.total, now.faces_found, now.phase));
        }
        action
    }

    fn end(&mut self, event: IndexEvent) -> FinishReport {
        match self.take(event) {
            IndexAction::Finish(report) => report,
            _ => panic!("the run goes on"),
        }
    }

    /// Leads a run to the moment at which its photos are known.
    fn until_store(counts: (usize, usize), files: usize) -> Driver {
        let mut driver = Driver::new();
        assert!(matches!(driver.take(IndexEvent::Models(true)), IndexAction::ReadStats));
        assert!(matches!(driver.take(IndexEvent::Stats(Ok(counts))), IndexAction::ListFiles));
        let action = driver.take(IndexEvent::Files(Ok(photos(files))));
        assert!(matches!(action, IndexAction::OpenStore));
        driver
    }

    /// Goes through one photo without a thumbnail.
    fn photo(&mut self, faces: usize) -> IndexAction {
        let action = self.take(IndexEvent::Cancel(false));
        assert!(matches!(action, IndexAction::FetchThumbnail));
        let action = self.take(IndexEvent::Thumbnail(Ok(None)));
        assert!(matches!(action, IndexAction::ProcessFile));
        let mut action = self.take(IndexEvent::Processed(Ok(faces)));
        assert!(matches!(action, IndexAction::MarkScanned { .. }));
        action = self.take(IndexEvent::Marked(Ok(())));
        for index in 0..faces {
            assert!(matches!(action, IndexAction::StoreFace { index: at } if at == index));
            action = self.take(IndexEvent::Stored(Ok(())));
        }
        action
    }
}

fn photos(count: usize) -> Vec<ImageFile> {
    (0..count)
        .map(|i| ImageFile { id: 100 + i as i64, path: format!("{i}.jpg"), width: 40, height: 30 })
        .collect()
}

#[test]
fn a_run_from_beginning_to_end() {
    let mut driver = Driver::until_store((7, 11), 5);
    let mut action = driver.take(IndexEvent::StoreOpened(Ok(())));
    for faces in [0, 2, 0, 1, 1] {
        assert!(matches!(action, IndexAction::ReadCancel));
        action = driver.photo(faces);
    }
    assert!(matches!(action, IndexAction::Cluster));
    let action = driver.take(IndexEvent::Clustered(Ok(3)));
    assert!(matches!(action, IndexAction::ReadCancel));
    let report = driver.end(IndexEvent::Cancel(false));
    assert_eq!((report.total_faces, report.total_persons), (15, 3));
    assert!(!report.cancelled);
    assert_eq!(report.error, None);
    let indexing = "indexing".to_string();
    assert_eq!(
        driver.announced,
        vec![
            (ProgressUpdate::Begin, 7, 12, 11, indexing.clone()),
            (ProgressUpdate::Advance, 10, 12, 13, indexing.clone()),
            (ProgressUpdate::Advance, 12, 12, 15, indexing),
            (ProgressUpdate::Clustering, 12, 12, 15, "clustering".to_string()),
        ]
    );
    assert_eq!(driver.run.stage, Stage::Finished);
    assert!(!driver.run.can_take(&IndexEvent::Cancel(false)));
    assert!(!driver.run.can_take(&IndexEvent::Models(true)));
}

#[test]
fn a_run_without_photos_groups_at_once() {
    let mut driver = Driver::until_store((4, 2), 0);
    assert!(matches!(driver.take(IndexEvent::StoreOpened(Ok(()))), IndexAction::Cluster));
    assert_eq!(driver.announced.len(), 2);
    assert_eq!(driver.announced[1].1, 4);
    assert!(matches!(
        driver.take(IndexEvent::Clustered(Err("no memory".to_string()))),
        IndexAction::ReadCancel
    ));
    let report = driver.end(IndexEvent::Cancel(true));
    assert_eq!((report.total_faces, report.total_persons, report.cancelled), (2, 0, true));
}

#[test]
fn a_run_stops_between_photos() {
    let mut driver = Driver::until_store((0, 0), 3);
    driver.take(IndexEvent::StoreOpened(Ok(())));
    driver.photo(1);
    let report = driver.end(IndexEvent::Cancel(true));
    assert_eq!((report.total_faces, report.total_persons, report.cancelled), (1, 0, true));
    assert_eq!(report.error, None);
}

#[test]
fn networks_that_cannot_be_loaded_end_a_run() {
    let mut driver = Driver::new();
    assert!(matches!(driver.take(IndexEvent::Models(false)), IndexAction::LoadModels));
    let report = driver.end(IndexEvent::ModelsLoaded(Err("no file".to_string())));
    assert_eq!((report.total_faces, report.total_persons, report.cancelled), (0, 0, false));
    assert_eq!(report.error, Some("no file".to_string()));
    assert!(driver.finish.is_none());
}

#[test]
fn networks_that_can_be_loaded_do_not() {
    let mut driver = Driver::new();
    driver.take(IndexEvent::Models(false));
    assert!(matches!(driver.take(IndexEvent::ModelsLoaded(Ok(()))), IndexAction::ReadStats));
}

#[test]
fn photos_that_cannot_be_listed_end_a_run() {
    let mut driver = Driver::new();
    driver.take(IndexEvent::Models(true));
    driver.take(IndexEvent::Stats(Ok((3, 4))));
    let report = driver.end(IndexEvent::Files(Err("locked".to_string())));
    assert_eq!((report.total_faces, report.error), (0, Some("locked".to_string())));
}

#[test]
fn a_store_that_cannot_be_opened_ends_a_run() {
    let mut driver = Driver::until_store((3, 4), 2);
    let report = driver.end(IndexEvent::StoreOpened(Err("locked".to_string())));
    assert_eq!((report.total_faces, report.error), (0, Some("locked".to_string())));
}

#[test]
fn unknown_stats_count_as_zero() {
    let mut driver = Driver::new();
    driver.take(IndexEvent::Models(true));
    driver.take(IndexEvent::Stats(Err("locked".to_string())));
    driver.take(IndexEvent::Files(Ok(photos(2))));
    assert_eq!(driver.announced[0].1, 0);
    assert_eq!(driver.announced[0].2, 2);
    assert_eq!(driver.announced[0].3, 0);
}

#[test]
fn thumbnails_come_first_and_are_scaled() {
    let mut driver = Driver::until_store((0, 0), 1);
    driver.take(IndexEvent::StoreOpened(Ok(())));
    driver.take(IndexEvent::Cancel(false));
    assert_eq!(driver.run.current_file().id, 100);
    assert_eq!(driver.run.current_file().path, "0.jpg");
    let thumbnail = Thumbnail { data: Some(vec![1, 2, 3]) };
    let action = driver.take(IndexEvent::Thumbnail(Ok(Some(thumbnail))));
    assert!(matches!(action, IndexAction::ProcessThumbnail(bytes) if bytes == vec![1, 2, 3]));
    assert!(matches!(driver.take(IndexEvent::Processed(Ok(1))), IndexAction::ScaleFaces));
    let action = driver.take(IndexEvent::Scaled);
    assert!(matches!(action, IndexAction::MarkScanned { status: 1 }));
    // A photo that cannot be marked is none the worse for it.
    let action = driver.take(IndexEvent::Marked(Err("locked".to_string())));
    assert!(matches!(action, IndexAction::StoreFace { index: 0 }));
    // A face that cannot be stored is not counted.
    let action = driver.take(IndexEvent::Stored(Err("locked".to_string())));
    assert!(matches!(action, IndexAction::Cluster));
    assert_eq!(driver.run.faces, 0);
}

#[test]
fn photos_stand_in_for_bad_thumbnails() {
    let mut driver = Driver::until_store((0, 0), 3);
    driver.take(IndexEvent::StoreOpened(Ok(())));
    driver.take(IndexEvent::Cancel(false));
    let empty = Thumbnail { data: None };
    let action = driver.take(IndexEvent::Thumbnail(Ok(Some(empty))));
    assert!(matches!(action, IndexAction::ProcessFile));
    let action = driver.take(IndexEvent::Processed(Ok(0)));
    assert!(matches!(action, IndexAction::MarkScanned { status: 2 }));
    driver.take(IndexEvent::Marked(Ok(())));

    driver.take(IndexEvent::Cancel(false));
    let action = driver.take(IndexEvent::Thumbnail(Err("locked".to_string())));
    assert!(matches!(action, IndexAction::ProcessFile));
    // A photo that cannot be processed is passed over, neither marked nor stored.
    let action = driver.take(IndexEvent::Processed(Err("torn".to_string())));
    assert!(matches!(action, IndexAction::ReadCancel));

    driver.take(IndexEvent::Cancel(false));
    let bad = Thumbnail { data: Some(vec![0]) };
    driver.take(IndexEvent::Thumbnail(Ok(Some(bad))));
    let action = driver.take(IndexEvent::Processed(Err("torn".to_string())));
    assert!(matches!(action, IndexAction::ProcessFile));
    let action = driver.take(IndexEvent::Processed(Err("torn".to_string())));
    assert!(matches!(action, IndexAction::Cluster));
}

#[test]
fn counts_that_cannot_be_counted_are_not_taken() {
    let mut driver = Driver::new();
    driver.take(IndexEvent::Models(true));
    driver.take(IndexEvent::Stats(Ok((usize::MAX, 0))));
    assert!(!driver.run.can_take(&IndexEvent::Files(Ok(photos(1)))));
    assert!(driver.run.can_take(&IndexEvent::Files(Ok(photos(0)))));
}
