use ccx_runner::config::reconcile_selection;
use ccx_runner::monitor::{Ansicht, PollOutcome, RunMonitor, TickAction};
use ccx_runner::solver::{LogParser, ResidualData, SolverMessage, StepInfo};

fn step(n: u32) -> StepInfo {
    StepInfo::fresh(n)
}

#[test]
fn update_replaces_last_row_whatever_its_step() {
    let mut m = RunMonitor::new();
    m.start_run();
    m.apply(SolverMessage::NewStepInfo(step(1)));
    m.apply(SolverMessage::NewStepInfo(step(2)));
    let mut other = step(7);
    other.iterations = 3;
    m.apply(SolverMessage::UpdateStepInfo(other));
    assert_eq!(m.step_info.len(), 2);
    assert_eq!(m.step_info[0].step, 1);
    assert_eq!(m.step_info[1].step, 7);
    assert_eq!(m.step_info[1].iterations, 3);
}

#[test]
fn update_without_rows_is_ignored() {
    let mut m = RunMonitor::new();
    m.apply(SolverMessage::UpdateStepInfo(step(1)));
    assert!(m.step_info.is_empty());
}

#[test]
fn reset_clears_residuals() {
    let mut m = RunMonitor::new();
    m.apply(SolverMessage::Residual(ResidualData { step: 1, total_iteration: 1, residual: "0.5".to_string() }));
    m.apply(SolverMessage::Residual(ResidualData { step: 1, total_iteration: 2, residual: "0.2".to_string() }));
    assert_eq!(m.residual_data.len(), 2);
    m.apply(SolverMessage::ResetResiduals);
    assert!(m.residual_data.is_empty());
}

#[test]
fn poll_outcomes() {
    let mut m = RunMonitor::new();
    m.start_run();
    assert!(m.is_running);
    assert_eq!(m.on_poll(PollOutcome::Message(SolverMessage::Line("a".to_string()))), TickAction::Continue);
    assert_eq!(m.on_poll(PollOutcome::Empty), TickAction::Idle);
    assert!(m.is_running);
    assert_eq!(m.on_poll(PollOutcome::Disconnected), TickAction::Finalize);
    assert!(!m.is_running);
    assert_eq!(m.output_lines, vec!["a".to_string()]);
}

#[test]
fn start_run_discards_previous_run() {
    let mut m = RunMonitor::new();
    m.apply(SolverMessage::Line("old".to_string()));
    m.apply(SolverMessage::NewStepInfo(step(1)));
    m.stop();
    m.start_run();
    assert!(m.output_lines.is_empty());
    assert!(m.step_info.is_empty());
    assert!(m.is_running);
    m.report("No '.inp' file selected.".to_string());
    assert_eq!(m.output_lines, vec!["No '.inp' file selected.".to_string()]);
}

#[test]
fn parsed_run_reaches_display_in_order() {
    let lines = [
        "CalculiX",
        " STEP 1",
        " increment 1 attempt 1",
        "increment 1 attempt 1",
        "iteration 1",
        "largest residual force= 0.005 N",
        " actual total time= 1.0",
        "job finished",
    ];
    let mut p = LogParser::new();
    let mut m = RunMonitor::new();
    m.start_run();
    for l in lines {
        for msg in p.process_line(l.to_string()) {
            m.on_poll(PollOutcome::Message(msg));
        }
    }
    m.on_poll(PollOutcome::Disconnected);
    let shown: Vec<&str> = m.output_lines.iter().map(|s| s.as_str()).collect();
    assert_eq!(shown, lines.to_vec());
    assert_eq!(m.step_info.len(), 1);
    assert_eq!(m.step_info[0].increment, 1);
    assert_eq!(m.step_info[0].iterations, 1);
    assert_eq!(m.step_info[0].total_time, "1.0");
    assert_eq!(m.residual_data.len(), 1);
    assert!(!m.is_running);
}

#[test]
fn tabs_compare() {
    assert_eq!(Ansicht::Overview, Ansicht::Overview);
    assert_ne!(Ansicht::Overview, Ansicht::SolverOutput);
}

#[test]
fn selection_is_kept_or_falls_back() {
    assert_eq!(reconcile_selection(Some(2), 3), Some(2));
    assert_eq!(reconcile_selection(None, 3), Some(0));
    assert_eq!(reconcile_selection(None, 0), None);
}
