//! The pipeline state machine: Idle, then Scanning, BuildingGraph,
//! QueryingOllama and Done, with Error reachable from each running stage.

use vstd::prelude::*;
use vstd::string::StringExecFns;
use crate::context::{ReviewContext, ReviewOutput};
use crate::review_mode::ReviewMode;

verus! {

/// Where the pipeline stands.
#[derive(Debug, Clone, PartialEq, Eq)]
pub enum AppStatus {
    Idle,
    Scanning,
    BuildingGraph,
    QueryingOllama,
    Done,
    Error(String),
}

/// The text shown for a status.
pub open spec fn status_text(s: AppStatus) -> Seq<char> {
    match s {
        AppStatus::Idle => "Ready"@,
        AppStatus::Scanning => "Scanning repository..."@,
        AppStatus::BuildingGraph => "Building dependency graph..."@,
        AppStatus::QueryingOllama => "Querying Ollama..."@,
        AppStatus::Done => "Review complete"@,
        AppStatus::Error(e) => "Error: "@ + e@,
    }
}

/// No run is in flight: a new run may start.
pub open spec fn at_rest(s: AppStatus) -> bool {
    s is Idle || s is Done || s is Error
}

/// A stage of a run is in flight.
pub open spec fn running(s: AppStatus) -> bool {
    s is Scanning || s is BuildingGraph || s is QueryingOllama
}

/// The status graph: a run starts from rest, each stage leads to the next,
/// and any running stage may fail.
pub open spec fn status_edge(a: AppStatus, b: AppStatus) -> bool {
    ||| at_rest(a) && b is Scanning
    ||| a is Scanning && b is BuildingGraph
    ||| a is BuildingGraph && b is QueryingOllama
    ||| a is QueryingOllama && b is Done
    ||| running(a) && b is Error
}

impl AppStatus {
    /// The human-readable text of the status.
    pub fn message(&self) -> (r: String)
        ensures
            r@ == status_text(*self),
    {
        match self {
            AppStatus::Idle => "Ready".to_owned(),
            AppStatus::Scanning => "Scanning repository...".to_owned(),
            AppStatus::BuildingGraph => "Building dependency graph...".to_owned(),
            AppStatus::QueryingOllama => "Querying Ollama...".to_owned(),
            AppStatus::Done => "Review complete".to_owned(),
            AppStatus::Error(e) => {
                let mut text = "Error: ".to_owned();
                text.append(e.as_str());
                text
            },
        }
    }
}

/// What the pipeline driver reports to the state machine.
pub enum PipelineEvent {
    RunRequested,
    ScanSucceeded,
    ContextReady(ReviewContext),
    ReviewReady(ReviewOutput),
    Failed(String),
}

/// The session record that the pipeline drives and the interface reads.
pub struct AppState {
    pub status: AppStatus,
    pub context: Option<ReviewContext>,
    pub output: Option<ReviewOutput>,
    pub scroll: u16,
    pub model: String,
    pub mode: ReviewMode,
    pub available_models: Vec<String>,
    pub selected_model_idx: usize,
}

/// The state after event `e`. An event that does not fit the current status
/// changes nothing.
pub open spec fn step(s: AppState, e: PipelineEvent) -> AppState {
    match e {
        PipelineEvent::RunRequested => if at_rest(s.status) {
            AppState { status: AppStatus::Scanning, context: None, output: None, ..s }
        } else {
            s
        },
        PipelineEvent::ScanSucceeded => if s.status is Scanning {
            AppState { status: AppStatus::BuildingGraph, ..s }
        } else {
            s
        },
        PipelineEvent::ContextReady(ctx) => if s.status is BuildingGraph {
            AppState { status: AppStatus::QueryingOllama, context: Some(ctx), ..s }
        } else {
            s
        },
        PipelineEvent::ReviewReady(out) => if s.status is QueryingOllama {
            AppState { status: AppStatus::Done, output: Some(out), ..s }
        } else {
            s
        },
        PipelineEvent::Failed(msg) => if running(s.status) {
            AppState { status: AppStatus::Error(msg), ..s }
        } else {
            s
        },
    }
}

impl AppState {
    /// A fresh session: idle, nothing scanned or reviewed yet.
    pub fn new(model: String, mode: ReviewMode) -> (r: AppState)
        ensures
            r.status == AppStatus::Idle,
            r.context is None,
            r.output is None,
            r.scroll == 0,
            r.model == model,
            r.mode == mode,
            r.available_models@.len() == 0,
            r.selected_model_idx == 0,
    {
        AppState {
            status: AppStatus::Idle,
            context: None,
            output: None,
            scroll: 0,
            model,
            mode,
            available_models: Vec::new(),
            selected_model_idx: 0,
        }
    }

    /// Applies one event; returns whether it fitted the current status.
    pub fn apply(&mut self, e: PipelineEvent) -> (applied: bool)
        ensures
            *final(self) == step(*old(self), e),
            applied == (*final(self) != *old(self)),
    {
        match e {
            PipelineEvent::RunRequested => {
                match self.status {
                    AppStatus::Idle | AppStatus::Done | AppStatus::Error(_) => {
                        self.status = AppStatus::Scanning;
                        self.context = None;
                        self.output = None;
                        true
                    },
                    _ => false,
                }
            },
            PipelineEvent::ScanSucceeded => {
                match self.status {
                    AppStatus::Scanning => {
                        self.status = AppStatus::BuildingGraph;
                        true
                    },
                    _ => false,
                }
            },
            PipelineEvent::ContextReady(ctx) => {
                match self.status {
                    AppStatus::BuildingGraph => {
                        self.status = AppStatus::QueryingOllama;
                        self.context = Some(ctx);
                        true
                    },
                    _ => false,
                }
            },
            PipelineEvent::ReviewReady(out) => {
                match self.status {
                    AppStatus::QueryingOllama => {
                        self.status = AppStatus::Done;
                        self.output = Some(out);
                        true
                    },
                    _ => false,
                }
            },
            PipelineEvent::Failed(msg) => {
                match self.status {
                    AppStatus::Scanning | AppStatus::BuildingGraph | AppStatus::QueryingOllama => {
                        self.status = AppStatus::Error(msg);
                        true
                    },
                    _ => false,
                }
            },
        }
    }
}

/// Every event either leaves the state as it is or moves the status along
/// one edge of the status graph. The context is written only on entry to
/// QueryingOllama and cleared only when a run starts; the output is written
/// only on entry to Done and cleared only when a run starts. The other
/// fields never change.
pub proof fn lemma_step_follows_graph(s: AppState, e: PipelineEvent)
    ensures
        step(s, e) == s || status_edge(s.status, step(s, e).status),
        step(s, e).context != s.context ==> (step(s, e).status is QueryingOllama && step(
            s,
            e,
        ).context is Some) || (step(s, e).status is Scanning && step(s, e).context is None),
        step(s, e).output != s.output ==> (step(s, e).status is Done && step(s, e).output is Some)
            || (step(s, e).status is Scanning && step(s, e).output is None),
        step(s, e).scroll == s.scroll,
        step(s, e).model == s.model,
        step(s, e).mode == s.mode,
        step(s, e).available_models == s.available_models,
        step(s, e).selected_model_idx == s.selected_model_idx,
{
}

/// A successful run from Idle visits Scanning, BuildingGraph,
/// QueryingOllama and Done in that order; the context is set once, on
/// entering QueryingOllama, and the output once, on entering Done.
pub proof fn lemma_successful_run(s: AppState, ctx: ReviewContext, out: ReviewOutput)
    requires
        s.status == AppStatus::Idle,
    ensures
        ({
            let s1 = step(s, PipelineEvent::RunRequested);
            let s2 = step(s1, PipelineEvent::ScanSucceeded);
            let s3 = step(s2, PipelineEvent::ContextReady(ctx));
            let s4 = step(s3, PipelineEvent::ReviewReady(out));
            &&& s1.status == AppStatus::Scanning && s1.context is None && s1.output is None
            &&& s2.status == AppStatus::BuildingGraph && s2.context is None && s2.output is None
            &&& s3.status == AppStatus::QueryingOllama && s3.context == Some(ctx) && s3.output is None
            &&& s4.status == AppStatus::Done && s4.context == Some(ctx) && s4.output == Some(out)
        }),
{
}

/// A run from Idle whose scan fails goes from Scanning to Error and never
/// sets the context or the output.
pub proof fn lemma_scan_failure(s: AppState, msg: String)
    requires
        s.status == AppStatus::Idle,
    ensures
        ({
            let s1 = step(s, PipelineEvent::RunRequested);
            let s2 = step(s1, PipelineEvent::Failed(msg));
            &&& s1.status == AppStatus::Scanning && s1.context is None && s1.output is None
            &&& s2.status == AppStatus::Error(msg) && s2.context is None && s2.output is None
        }),
{
}

} // verus!
