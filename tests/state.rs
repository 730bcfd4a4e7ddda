use repo_review::context::{build_context, ReviewOutput};
use repo_review::review_mode::ReviewMode;
use repo_review::state::{AppState, AppStatus, PipelineEvent};

fn fresh() -> AppState {
    AppState::new("llama3".to_string(), ReviewMode::Calm)
}

#[test]
fn new_state_is_idle_and_empty() {
    let s = fresh();
    assert_eq!(s.status, AppStatus::Idle);
    assert!(s.context.is_none());
    assert!(s.output.is_none());
    assert_eq!(s.scroll, 0);
    assert_eq!(s.model, "llama3");
    assert_eq!(s.mode, ReviewMode::Calm);
    assert!(s.available_models.is_empty());
    assert_eq!(s.selected_model_idx, 0);
}

#[test]
fn successful_run_visits_every_stage() {
    let mut s = fresh();
    assert!(s.apply(PipelineEvent::RunRequested));
    assert_eq!(s.status, AppStatus::Scanning);
    assert!(s.context.is_none() && s.output.is_none());
    assert!(s.apply(PipelineEvent::ScanSucceeded));
    assert_eq!(s.status, AppStatus::BuildingGraph);
    assert!(s.context.is_none() && s.output.is_none());
    let ctx = build_context(&vec![], &vec![], ReviewMode::Calm, "llama3".to_string(), 5, 100);
    assert!(s.apply(PipelineEvent::ContextReady(ctx)));
    assert_eq!(s.status, AppStatus::QueryingOllama);
    assert!(s.context.is_some() && s.output.is_none());
    assert!(s.apply(PipelineEvent::ReviewReady(ReviewOutput::from_raw("text".to_string()))));
    assert_eq!(s.status, AppStatus::Done);
    assert!(s.context.is_some());
    assert_eq!(s.output.as_ref().unwrap().raw, "text");
}

#[test]
fn scan_failure_stops_at_error() {
    let mut s = fresh();
    assert!(s.apply(PipelineEvent::RunRequested));
    assert!(s.apply(PipelineEvent::Failed("unreadable path".to_string())));
    assert_eq!(s.status, AppStatus::Error("unreadable path".to_string()));
    assert!(s.context.is_none());
    assert!(s.output.is_none());
}

#[test]
fn out_of_order_events_change_nothing() {
    let mut s = fresh();
    assert!(!s.apply(PipelineEvent::ScanSucceeded));
    assert!(!s.apply(PipelineEvent::Failed("x".to_string())));
    assert!(!s.apply(PipelineEvent::ReviewReady(ReviewOutput::default())));
    assert_eq!(s.status, AppStatus::Idle);
    assert!(s.apply(PipelineEvent::RunRequested));
    assert!(!s.apply(PipelineEvent::RunRequested));
    assert_eq!(s.status, AppStatus::Scanning);
}

#[test]
fn new_run_after_done_resets() {
    let mut s = fresh();
    s.apply(PipelineEvent::RunRequested);
    s.apply(PipelineEvent::ScanSucceeded);
    let ctx = build_context(&vec![], &vec![], ReviewMode::Calm, "m".to_string(), 1, 1);
    s.apply(PipelineEvent::ContextReady(ctx));
    s.apply(PipelineEvent::ReviewReady(ReviewOutput::default()));
    assert_eq!(s.status, AppStatus::Done);
    assert!(s.apply(PipelineEvent::RunRequested));
    assert_eq!(s.status, AppStatus::Scanning);
    assert!(s.context.is_none());
    assert!(s.output.is_none());
}

#[test]
fn error_is_left_only_by_a_new_run() {
    let mut s = fresh();
    s.apply(PipelineEvent::RunRequested);
    s.apply(PipelineEvent::ScanSucceeded);
    s.apply(PipelineEvent::Failed("graph".to_string()));
    assert_eq!(s.status, AppStatus::Error("graph".to_string()));
    assert!(!s.apply(PipelineEvent::ScanSucceeded));
    assert!(s.apply(PipelineEvent::RunRequested));
    assert_eq!(s.status, AppStatus::Scanning);
}

#[test]
fn status_messages() {
    assert_eq!(AppStatus::Idle.message(), "Ready");
    assert_eq!(AppStatus::Scanning.message(), "Scanning repository...");
    assert_eq!(AppStatus::BuildingGraph.message(), "Building dependency graph...");
    assert_eq!(AppStatus::QueryingOllama.message(), "Querying Ollama...");
    assert_eq!(AppStatus::Done.message(), "Review complete");
    assert_eq!(AppStatus::Error("boom".to_string()).message(), "Error: boom");
}
