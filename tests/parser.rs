use ccx_runner::solver::{LogParser, SolverMessage, StepInfo};

fn feed(p: &mut LogParser, line: &str) -> Vec<SolverMessage> {
    p.process_line(line.to_string())
}

fn assert_line(m: &SolverMessage, text: &str) {
    match m {
        SolverMessage::Line(l) => assert_eq!(l, text),
        other => panic!("expected a transcript line, got {:?}", other),
    }
}

fn assert_step(s: &StepInfo, step: u32, increment: u32, attempt: u32, iterations: u32, total_time: &str) {
    assert_eq!(s.step, step);
    assert_eq!(s.increment, increment);
    assert_eq!(s.attempt, attempt);
    assert_eq!(s.iterations, iterations);
    assert_eq!(s.total_time, total_time);
}

#[test]
fn step_line_opens_a_record() {
    let mut p = LogParser::new();
    let out = feed(&mut p, "STEP 3");
    assert_eq!(out.len(), 2);
    match &out[0] {
        SolverMessage::NewStepInfo(s) => assert_step(s, 3, 0, 0, 0, "0"),
        other => panic!("unexpected {:?}", other),
    }
    assert_line(&out[1], "STEP 3");
    assert_step(&p.current_step().unwrap(), 3, 0, 0, 0, "0");
}

#[test]
fn indented_step_line_opens_a_record() {
    let mut p = LogParser::new();
    let out = feed(&mut p, " STEP            12   ");
    assert_eq!(out.len(), 2);
    match &out[0] {
        SolverMessage::NewStepInfo(s) => assert_step(s, 12, 0, 0, 0, "0"),
        other => panic!("unexpected {:?}", other),
    }
    assert_line(&out[1], " STEP            12   ");
}

#[test]
fn step_line_without_number_is_only_text() {
    let mut p = LogParser::new();
    for line in ["STEP", "STEP x", "STEPS 3", "STEP -1", "STEP 4294967296"] {
        let out = feed(&mut p, line);
        assert_eq!(out.len(), 1, "{}", line);
        assert_line(&out[0], line);
    }
    assert!(p.current_step().is_none());
}

#[test]
fn step_number_limits() {
    let mut p = LogParser::new();
    let out = feed(&mut p, "STEP 4294967295");
    match &out[0] {
        SolverMessage::NewStepInfo(s) => assert_eq!(s.step, 4294967295),
        other => panic!("unexpected {:?}", other),
    }
    let out = feed(&mut p, "STEP +5");
    match &out[0] {
        SolverMessage::NewStepInfo(s) => assert_eq!(s.step, 5),
        other => panic!("unexpected {:?}", other),
    }
}

#[test]
fn increment_line_resets_and_updates() {
    let mut p = LogParser::new();
    feed(&mut p, "STEP 1");
    feed(&mut p, "largest residual force= 0.5 N");
    assert_eq!(p.residual_counter(), 1);
    let out = feed(&mut p, "increment 7 of 2");
    assert_eq!(out.len(), 3);
    assert!(matches!(out[0], SolverMessage::ResetResiduals));
    match &out[1] {
        SolverMessage::UpdateStepInfo(s) => assert_step(s, 1, 7, 2, 0, "0"),
        other => panic!("unexpected {:?}", other),
    }
    assert_line(&out[2], "increment 7 of 2");
    assert_eq!(p.residual_counter(), 0);
}

#[test]
fn increment_resets_iterations() {
    let mut p = LogParser::new();
    feed(&mut p, "STEP 1");
    feed(&mut p, "increment 1 attempt 1");
    feed(&mut p, "iteration 1");
    feed(&mut p, "iteration 2");
    assert_eq!(p.current_step().unwrap().iterations, 2);
    feed(&mut p, "increment 1 attempt 2");
    assert_step(&p.current_step().unwrap(), 1, 1, 2, 0, "0");
}

#[test]
fn increment_with_bad_numbers_still_resets() {
    let mut p = LogParser::new();
    feed(&mut p, "STEP 2");
    feed(&mut p, "increment 4 of 1");
    feed(&mut p, "largest residual force= 1.0");
    let out = feed(&mut p, "increment x of 2");
    assert_eq!(out.len(), 2);
    assert!(matches!(out[0], SolverMessage::ResetResiduals));
    assert_line(&out[1], "increment x of 2");
    assert_step(&p.current_step().unwrap(), 2, 4, 1, 0, "0");
    assert_eq!(p.residual_counter(), 0);
}

#[test]
fn short_or_indented_increment_line_is_only_text() {
    let mut p = LogParser::new();
    feed(&mut p, "STEP 2");
    for line in ["increment 4 of", " increment 4 of 1"] {
        let out = feed(&mut p, line);
        assert_eq!(out.len(), 1, "{}", line);
        assert_line(&out[0], line);
    }
}

#[test]
fn iteration_lines_count() {
    let mut p = LogParser::new();
    feed(&mut p, "STEP 1");
    let out = feed(&mut p, "   iteration 1");
    assert_eq!(out.len(), 2);
    match &out[0] {
        SolverMessage::UpdateStepInfo(s) => assert_eq!(s.iterations, 1),
        other => panic!("unexpected {:?}", other),
    }
    let out = feed(&mut p, "iteration 2 of many");
    match &out[0] {
        SolverMessage::UpdateStepInfo(s) => assert_eq!(s.iterations, 2),
        other => panic!("unexpected {:?}", other),
    }
    let out = feed(&mut p, "iteration");
    assert_eq!(out.len(), 1);
}

#[test]
fn total_time_updates_record() {
    let mut p = LogParser::new();
    feed(&mut p, "STEP 1");
    let out = feed(&mut p, " actual total time= 1.5E-01");
    assert_eq!(out.len(), 2);
    match &out[0] {
        SolverMessage::UpdateStepInfo(s) => assert_step(s, 1, 0, 0, 0, "1.5E-01"),
        other => panic!("unexpected {:?}", other),
    }
    assert_eq!(p.current_step().unwrap().total_time.parse::<f64>().unwrap(), 0.15);
}

#[test]
fn bad_total_time_is_only_text() {
    let mut p = LogParser::new();
    feed(&mut p, "STEP 1");
    for line in [" actual total time= abc", " actual total time=", "actual total time= 1.0"] {
        let out = feed(&mut p, line);
        assert_eq!(out.len(), 1, "{}", line);
        assert_line(&out[0], line);
    }
    assert_eq!(p.current_step().unwrap().total_time, "0");
}

#[test]
fn residual_samples_are_numbered() {
    let mut p = LogParser::new();
    let mut samples = Vec::new();
    for line in [
        "STEP 1",
        "increment 1 x 1",
        "iteration 1",
        "largest residual force= 0.005 N",
        "largest residual force= 0.002 N",
    ] {
        for m in feed(&mut p, line) {
            if let SolverMessage::Residual(d) = m {
                samples.push(d);
            }
        }
    }
    assert_eq!(samples.len(), 2);
    assert_eq!(samples[0].step, 1);
    assert_eq!(samples[0].total_iteration, 1);
    assert_eq!(samples[0].residual.parse::<f64>().unwrap(), 0.005);
    assert_eq!(samples[1].step, 1);
    assert_eq!(samples[1].total_iteration, 2);
    assert_eq!(samples[1].residual.parse::<f64>().unwrap(), 0.002);
}

#[test]
fn residual_line_gives_no_update() {
    let mut p = LogParser::new();
    feed(&mut p, "STEP 4");
    let out = feed(&mut p, "  largest residual force= 3.1e2 in node 7");
    assert_eq!(out.len(), 2);
    match &out[0] {
        SolverMessage::Residual(d) => {
            assert_eq!(d.step, 4);
            assert_eq!(d.total_iteration, 1);
            assert_eq!(d.residual, "3.1e2");
        }
        other => panic!("unexpected {:?}", other),
    }
}

#[test]
fn bad_residual_is_only_text() {
    let mut p = LogParser::new();
    feed(&mut p, "STEP 4");
    for line in ["largest residual force= n/a", "largest residual force="] {
        let out = feed(&mut p, line);
        assert_eq!(out.len(), 1, "{}", line);
    }
    assert_eq!(p.residual_counter(), 0);
}

#[test]
fn unstructured_line_gives_only_its_text() {
    let mut p = LogParser::new();
    let out = feed(&mut p, "iteration 1");
    assert_eq!(out.len(), 1);
    assert_line(&out[0], "iteration 1");
    feed(&mut p, "STEP 1");
    let out = feed(&mut p, "  Using up to 4 cpu(s) for the stress calculation.");
    assert_eq!(out.len(), 1);
    assert_line(&out[0], "  Using up to 4 cpu(s) for the stress calculation.");
    let out = feed(&mut p, "");
    assert_eq!(out.len(), 1);
    assert_line(&out[0], "");
}

#[test]
fn unrelated_lines_stay_apart() {
    let mut p = LogParser::new();
    let first = feed(&mut p, "CalculiX Version 2.21");
    let second = feed(&mut p, "reading the input file");
    assert_eq!(first.len(), 1);
    assert_eq!(second.len(), 1);
    assert_line(&first[0], "CalculiX Version 2.21");
    assert_line(&second[0], "reading the input file");
}

#[test]
fn new_step_replaces_record_and_keeps_counter() {
    let mut p = LogParser::new();
    feed(&mut p, "STEP 1");
    feed(&mut p, "increment 3 attempt 2");
    feed(&mut p, "largest residual force= 1");
    feed(&mut p, "STEP 2");
    assert_step(&p.current_step().unwrap(), 2, 0, 0, 0, "0");
    assert_eq!(p.residual_counter(), 1);
}

#[test]
fn snapshots_are_independent() {
    let a = StepInfo::fresh(9);
    let mut b = a.snapshot();
    b.iterations = 4;
    assert_eq!(a.iterations, 0);
    assert_eq!(b.step, 9);
}

#[test]
fn default_record_is_step_zero() {
    let d = StepInfo::default();
    assert_step(&d, 0, 0, 0, 0, "0");
    let c = d.clone();
    assert_eq!(c.step, 0);
}
