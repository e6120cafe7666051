//! The engine: the two networks, and the order in which they are loaded.
use crate::picture::explain;
use std::sync::{Arc, Mutex};
use vstd::prelude::*;

verus! {

/// The two networks. `M` is whatever runs a network.
pub struct FaceEngine<M> {
    /// Finds faces.
    pub detection_model: Option<M>,
    /// Describes faces.
    pub embedding_model: Option<M>,
}

/// The engine as its users share it.
#[verifier::reject_recursive_types(M)]
pub struct FaceState<M>(pub Arc<Mutex<FaceEngine<M>>>);

impl<M> Clone for FaceState<M> {
    fn clone(&self) -> (copy: FaceState<M>)
        ensures
            copy.0 == self.0,
    {
        FaceState(self.0.clone())
    }
}

/// Which of the two networks.
#[derive(Clone, Copy, Debug, PartialEq, Eq, Structural)]
pub enum ModelKind {
    Detection,
    Embedding,
}

/// What has to be done next to load the networks.
pub enum LoadAction {
    /// Find the folder that the model files lie in.
    ResolveFolder,
    /// Look whether a model file is there.
    CheckFile(ModelKind),
    /// Read a model file.
    LoadFile(ModelKind),
    /// Nothing more: this is the outcome.
    Finish(Result<(), String>),
}

/// Why a model could not be loaded.
pub enum LoadFailure {
    /// The runtime could not be set up.
    Setup(String),
    /// The file could not be read as a model.
    Read(String),
}

/// What came of an action.
pub enum LoadReply<M> {
    Folder(Result<(), String>),
    /// Whether the file is there, and where it was looked for.
    File { found: bool, path: String },
    Model(Result<M, LoadFailure>),
}

/// Whether a reply answers an action.
pub open spec fn answers<M>(pending: LoadAction, reply: LoadReply<M>) -> bool {
    match pending {
        LoadAction::ResolveFolder => reply is Folder,
        LoadAction::CheckFile(_) => reply is File,
        LoadAction::LoadFile(_) => reply is Model,
        LoadAction::Finish(_) => false,
    }
}

/// Whether an action ends the attempt with this message.
pub open spec fn fails_with(action: LoadAction, message: Seq<char>) -> bool {
    action matches LoadAction::Finish(outcome) && outcome matches Err(text) && text@ == message
}

/// What is said of a model file that is not there.
pub open spec fn missing_message(kind: ModelKind, path: Seq<char>) -> Seq<char> {
    match kind {
        ModelKind::Detection => "Detection model not found at "@ + path,
        ModelKind::Embedding => "Embedding model not found at "@ + path,
    }
}

/// What is said of a model that could not be loaded.
pub open spec fn failure_message(kind: ModelKind, failure: LoadFailure) -> Seq<char> {
    match failure {
        LoadFailure::Setup(reason) => reason@,
        LoadFailure::Read(reason) => match kind {
            ModelKind::Detection => "Failed to load detection model"@ + ": "@ + reason@,
            ModelKind::Embedding => "Failed to load embedding model"@ + ": "@ + reason@,
        },
    }
}

impl<M> FaceEngine<M> {
    /// Whether both networks are there.
    pub open spec fn loaded(self) -> bool {
        self.detection_model is Some && self.embedding_model is Some
    }

    /// The engine with a network put in its place.
    pub open spec fn with_model(self, kind: ModelKind, model: M) -> FaceEngine<M> {
        match kind {
            ModelKind::Detection => FaceEngine { detection_model: Some(model), ..self },
            ModelKind::Embedding => FaceEngine { embedding_model: Some(model), ..self },
        }
    }

    /// How loading goes on from a pending action when its reply has come. Both files are looked
    /// for before either is read. A network that has been read stays, whatever comes after it.
    pub open spec fn loading_goes(
        self,
        pending: LoadAction,
        reply: LoadReply<M>,
        after: FaceEngine<M>,
        action: LoadAction,
    ) -> bool {
        match (pending, reply) {
            (LoadAction::ResolveFolder, LoadReply::Folder(Ok(_))) => {
                after == self && action == LoadAction::CheckFile(ModelKind::Detection)
            },
            (LoadAction::ResolveFolder, LoadReply::Folder(Err(reason))) => {
                after == self && fails_with(
                    action,
                    "Failed to resolve resource path"@ + ": "@ + reason@,
                )
            },
            (LoadAction::CheckFile(kind), LoadReply::File { found, path }) => {
                &&& after == self
                &&& if !found {
                    fails_with(action, missing_message(kind, path@))
                } else if kind == ModelKind::Detection {
                    action == LoadAction::CheckFile(ModelKind::Embedding)
                } else {
                    action == LoadAction::LoadFile(ModelKind::Detection)
                }
            },
            (LoadAction::LoadFile(kind), LoadReply::Model(Ok(model))) => {
                &&& after == self.with_model(kind, model)
                &&& if kind == ModelKind::Detection {
                    action == LoadAction::LoadFile(ModelKind::Embedding)
                } else {
                    action == LoadAction::Finish(Ok(()))
                }
            },
            (LoadAction::LoadFile(kind), LoadReply::Model(Err(failure))) => {
                after == self && fails_with(action, failure_message(kind, failure))
            },
            _ => false,
        }
    }

    /// What there is to do first when the networks are to be loaded: nothing, if the detection
    /// network is there.
    pub open spec fn first_action(self) -> LoadAction {
        if self.detection_model is Some {
            LoadAction::Finish(Ok(()))
        } else {
            LoadAction::ResolveFolder
        }
    }

    /// An engine without networks.
    pub fn new() -> (engine: FaceEngine<M>)
        ensures
            engine.detection_model is None,
            engine.embedding_model is None,
    {
        FaceEngine { detection_model: None, embedding_model: None }
    }

    /// Whether both networks are there.
    pub fn is_loaded(&self) -> (answer: bool)
        ensures
            answer == self.loaded(),
    {
        self.detection_model.is_some() && self.embedding_model.is_some()
    }

    /// Begins to load the networks. An engine that has its detection network is taken to be
    /// loaded: nothing is done.
    pub fn load_models(&self) -> (action: LoadAction)
        ensures
            action == self.first_action(),
    {
        if self.detection_model.is_some() {
            LoadAction::Finish(Ok(()))
        } else {
            LoadAction::ResolveFolder
        }
    }

    /// Goes on loading when the reply to the pending action has come.
    pub fn continue_loading(&mut self, pending: &LoadAction, reply: LoadReply<M>) -> (action:
        LoadAction)
        requires
            answers(*pending, reply),
        ensures
            old(self).loading_goes(*pending, reply, *final(self), action),
    {
        match (pending, reply) {
            (LoadAction::ResolveFolder, LoadReply::Folder(outcome)) => {
                match explain("Failed to resolve resource path", outcome) {
                    Ok(_) => LoadAction::CheckFile(ModelKind::Detection),
                    Err(message) => LoadAction::Finish(Err(message)),
                }
            },
            (LoadAction::CheckFile(kind), LoadReply::File { found, path }) => {
                if !found {
                    let mut message = match kind {
                        ModelKind::Detection => String::from_str("Detection model not found at "),
                        ModelKind::Embedding => String::from_str("Embedding model not found at "),
                    };
                    message.append(path.as_str());
                    LoadAction::Finish(Err(message))
                } else {
                    match kind {
                        ModelKind::Detection => LoadAction::CheckFile(ModelKind::Embedding),
                        ModelKind::Embedding => LoadAction::LoadFile(ModelKind::Detection),
                    }
                }
            },
            (LoadAction::LoadFile(kind), LoadReply::Model(Ok(model))) => {
                match kind {
                    ModelKind::Detection => {
                        self.detection_model = Some(model);
                        LoadAction::LoadFile(ModelKind::Embedding)
                    },
                    ModelKind::Embedding => {
                        self.embedding_model = Some(model);
                        LoadAction::Finish(Ok(()))
                    },
                }
            },
            (LoadAction::LoadFile(kind), LoadReply::Model(Err(failure))) => {
                let message = match failure {
                    LoadFailure::Setup(reason) => reason,
                    LoadFailure::Read(reason) => {
                        let mut message = match kind {
                            ModelKind::Detection => String::from_str(
                                "Failed to load detection model",
                            ),
                            ModelKind::Embedding => String::from_str(
                                "Failed to load embedding model",
                            ),
                        };
                        message.append(": ");
                        message.append(reason.as_str());
                        message
                    },
                };
                LoadAction::Finish(Err(message))
            },
            _ => {
                assert(false);
                LoadAction::Finish(Ok(()))
            },
        }
    }
}

/// Whether the engines are the states of one attempt at loading, the actions what was pending in
/// each and the replies what came of them.
pub open spec fn is_loading<M>(
    engines: Seq<FaceEngine<M>>,
    actions: Seq<LoadAction>,
    replies: Seq<LoadReply<M>>,
) -> bool {
    &&& engines.len() == replies.len() + 1
    &&& actions.len() == replies.len() + 1
    &&& engines[0].detection_model is None
    &&& actions[0] is ResolveFolder
    &&& forall|k: int|
        0 <= k < replies.len() ==> engines[k].loading_goes(
            actions[k],
            #[trigger] replies[k],
            engines[k + 1],
            actions[k + 1],
        )
}

/// An attempt at loading that was begun without a detection network has one exactly from the
/// moment on at which the file of the embedding network is to be read.
proof fn lemma_loading_stages<M>(
    engines: Seq<FaceEngine<M>>,
    actions: Seq<LoadAction>,
    replies: Seq<LoadReply<M>>,
    k: int,
)
    requires
        is_loading(engines, actions, replies),
        0 <= k <= replies.len(),
    ensures
        actions[k] == LoadAction::LoadFile(ModelKind::Embedding) ==> engines[k].detection_model is Some,
        actions[k] == LoadAction::Finish(Ok(())) ==> engines[k].loaded(),
    decreases k,
{
    if k > 0 {
        lemma_loading_stages(engines, actions, replies, k - 1);
        let reply = replies[k - 1];
    }
}

/// An attempt at loading that was begun without a detection network succeeds only with both
/// networks in place.
pub proof fn law_success_means_loaded<M>(
    engines: Seq<FaceEngine<M>>,
    actions: Seq<LoadAction>,
    replies: Seq<LoadReply<M>>,
)
    requires
        is_loading(engines, actions, replies),
        actions.last() == LoadAction::Finish(Ok(())),
    ensures
        engines.last().loaded(),
{
    lemma_loading_stages(engines, actions, replies, replies.len() as int);
}

/// An engine whose embedding network could not be read keeps its detection network; a new attempt
/// then reports success and does nothing, and the engine stays without its embedding network.
pub proof fn law_half_loaded_engine_not_retried<M>(
    before: FaceEngine<M>,
    failure: LoadFailure,
    after: FaceEngine<M>,
    action: LoadAction,
)
    requires
        before.detection_model is Some,
        before.embedding_model is None,
        before.loading_goes(
            LoadAction::LoadFile(ModelKind::Embedding),
            LoadReply::Model(Err(failure)),
            after,
            action,
        ),
    ensures
        action matches LoadAction::Finish(outcome) && outcome is Err,
        after.first_action() == LoadAction::Finish(Ok(())),
        !after.loaded(),
{
}

/// Loading never takes a network away.
pub proof fn law_models_stay<M>(
    before: FaceEngine<M>,
    pending: LoadAction,
    reply: LoadReply<M>,
    after: FaceEngine<M>,
    action: LoadAction,
)
    requires
        before.loading_goes(pending, reply, after, action),
    ensures
        before.detection_model is Some ==> after.detection_model is Some,
        before.embedding_model is Some ==> after.embedding_model is Some,
{
}

/// How many replies loading can still wait for.
pub open spec fn replies_left(pending: LoadAction) -> nat {
    match pending {
        LoadAction::ResolveFolder => 5,
        LoadAction::CheckFile(ModelKind::Detection) => 4,
        LoadAction::CheckFile(ModelKind::Embedding) => 3,
        LoadAction::LoadFile(ModelKind::Detection) => 2,
        LoadAction::LoadFile(ModelKind::Embedding) => 1,
        LoadAction::Finish(_) => 0,
    }
}

/// Loading comes to an end: each reply brings it closer.
pub proof fn law_loading_ends<M>(
    before: FaceEngine<M>,
    pending: LoadAction,
    reply: LoadReply<M>,
    after: FaceEngine<M>,
    action: LoadAction,
)
    requires
        before.loading_goes(pending, reply, after, action),
    ensures
        replies_left(action) < replies_left(pending),
{
}

/// An engine is loaded exactly if both networks are there, and there is something to load exactly if
/// the detection network is not.
pub proof fn law_loaded_by_networks<M>(engine: FaceEngine<M>)
    ensures
        engine.loaded() <==> engine.detection_model is Some && engine.embedding_model is Some,
        engine.detection_model is Some ==> engine.first_action() == LoadAction::Finish(Ok(())),
        engine.detection_model is None ==> engine.first_action() is ResolveFolder,
{
}

/// What answers what: the folder, a file that was looked for, or a network that was read.
pub proof fn law_replies_by_kind<M>(reply: LoadReply<M>, kind: ModelKind)
    ensures
        answers(LoadAction::ResolveFolder, reply) <==> reply is Folder,
        answers(LoadAction::CheckFile(kind), reply) <==> reply is File,
        answers(LoadAction::LoadFile(kind), reply) <==> reply is Model,
{
}

/// A network that was read is put in its own place, the other one is left alone, and nothing else
/// changes the engine.
pub proof fn law_network_in_its_place<M>(
    before: FaceEngine<M>,
    pending: LoadAction,
    reply: LoadReply<M>,
    after: FaceEngine<M>,
    action: LoadAction,
)
    requires
        before.loading_goes(pending, reply, after, action),
    ensures
        reply matches LoadReply::Model(Ok(model)) ==> {
            &&& pending is LoadFile
            &&& pending == LoadAction::LoadFile(ModelKind::Detection) ==> after.detection_model
                == Some(model) && after.embedding_model == before.embedding_model
            &&& pending == LoadAction::LoadFile(ModelKind::Embedding) ==> after.embedding_model
                == Some(model) && after.detection_model == before.detection_model
        },
        !(reply matches LoadReply::Model(outcome) && outcome is Ok) ==> after.detection_model
            == before.detection_model && after.embedding_model == before.embedding_model,
{
}

/// The order of loading: the folder, then both files are looked for, then both networks are read, the
/// detection network first each time.
pub proof fn law_order_of_loading<M>(
    before: FaceEngine<M>,
    pending: LoadAction,
    reply: LoadReply<M>,
    after: FaceEngine<M>,
    action: LoadAction,
)
    requires
        before.loading_goes(pending, reply, after, action),
    ensures
        reply matches LoadReply::Folder(outcome) && outcome is Ok ==> action
            == LoadAction::CheckFile(ModelKind::Detection),
        pending == LoadAction::CheckFile(ModelKind::Detection) && (reply matches LoadReply::File {
            found,
            ..
        } && found) ==> action == LoadAction::CheckFile(ModelKind::Embedding),
        pending == LoadAction::CheckFile(ModelKind::Embedding) && (reply matches LoadReply::File {
            found,
            ..
        } && found) ==> action == LoadAction::LoadFile(ModelKind::Detection),
        pending == LoadAction::LoadFile(ModelKind::Detection) && (reply matches LoadReply::Model(
            outcome,
        ) && outcome is Ok) ==> action == LoadAction::LoadFile(ModelKind::Embedding),
        pending == LoadAction::LoadFile(ModelKind::Embedding) && (reply matches LoadReply::Model(
            outcome,
        ) && outcome is Ok) ==> action == LoadAction::Finish(Ok(())),
{
}

/// What went wrong is said: where the folder cannot be found, where a file is missing, and where a
/// network cannot be read, with the reason or the place that was given.
pub proof fn law_failed_loading_explained<M>(
    before: FaceEngine<M>,
    pending: LoadAction,
    reply: LoadReply<M>,
    after: FaceEngine<M>,
    action: LoadAction,
)
    requires
        before.loading_goes(pending, reply, after, action),
        match reply {
            LoadReply::Folder(outcome) => outcome is Err,
            LoadReply::File { found, .. } => !found,
            LoadReply::Model(outcome) => outcome is Err,
        },
    ensures
        action is Finish,
        action->Finish_0 is Err,
        ({
            let message = action->Finish_0->Err_0@;
            match reply {
                LoadReply::Folder(outcome) => message == "Failed to resolve resource path: "@
                    + outcome->Err_0@,
                LoadReply::File { path, .. } => if pending == LoadAction::CheckFile(
                    ModelKind::Detection,
                ) {
                    message == "Detection model not found at "@ + path@
                } else {
                    message == "Embedding model not found at "@ + path@
                },
                LoadReply::Model(outcome) => match outcome->Err_0 {
                    LoadFailure::Setup(reason) => message == reason@,
                    LoadFailure::Read(reason) => if pending == LoadAction::LoadFile(
                        ModelKind::Detection,
                    ) {
                        message == "Failed to load detection model: "@ + reason@
                    } else {
                        message == "Failed to load embedding model: "@ + reason@
                    },
                },
            }
        }),
{
    reveal_strlit(": ");
    reveal_strlit("Failed to resolve resource path");
    reveal_strlit("Failed to resolve resource path: ");
    reveal_strlit("Failed to load detection model");
    reveal_strlit("Failed to load detection model: ");
    reveal_strlit("Failed to load embedding model");
    reveal_strlit("Failed to load embedding model: ");
    assert("Failed to resolve resource path"@ + ": "@ =~= "Failed to resolve resource path: "@);
    assert("Failed to load detection model"@ + ": "@ =~= "Failed to load detection model: "@);
    assert("Failed to load embedding model"@ + ": "@ =~= "Failed to load embedding model: "@);
}

/// Loading where nothing goes wrong: after five replies it has succeeded, and the engine has the two
/// networks that were read, each in its place.
pub proof fn law_loading_succeeds<M>(
    engines: Seq<FaceEngine<M>>,
    actions: Seq<LoadAction>,
    replies: Seq<LoadReply<M>>,
)
    requires
        is_loading(engines, actions, replies),
        replies.len() == 5,
        replies[0] matches LoadReply::Folder(outcome) && outcome is Ok,
        replies[1] matches LoadReply::File { found, .. } && found,
        replies[2] matches LoadReply::File { found, .. } && found,
        replies[3] matches LoadReply::Model(outcome) && outcome is Ok,
        replies[4] matches LoadReply::Model(outcome) && outcome is Ok,
    ensures
        actions[5] == LoadAction::Finish(Ok(())),
        engines[5].detection_model == Some(replies[3]->Model_0->Ok_0),
        engines[5].embedding_model == Some(replies[4]->Model_0->Ok_0),
{
    assert forall|k: int| 0 <= k < 5 implies engines[k].loading_goes(
        actions[k],
        #[trigger] replies[k],
        engines[k + 1],
        actions[k + 1],
    ) by {}
    assert(actions[1] == LoadAction::CheckFile(ModelKind::Detection));
    assert(actions[2] == LoadAction::CheckFile(ModelKind::Embedding));
    assert(actions[3] == LoadAction::LoadFile(ModelKind::Detection));
    assert(actions[4] == LoadAction::LoadFile(ModelKind::Embedding));
}

} // verus!
