//! The display side of a run: the state that the consumer builds by applying
//! the parser's events, and the decisions of its once-per-tick polling.

use vstd::prelude::*;
use crate::solver::{
    lemma_transcript_complete, run_lines, transcript, Event, ParserModel, ResidualData,
    ResidualModel, SolverMessage, StepInfo, StepModel,
};

verus! {

/// The tab that the display shows.
#[derive(PartialEq, Eq, Structural, Clone, Copy, Debug)]
pub enum Ansicht {
    SolverOutput,
    Overview,
}

/// What the display holds of the current run.
pub struct RunMonitor {
    /// The transcript, one entry per line.
    pub output_lines: Vec<String>,
    /// The step table, one row per step.
    pub step_info: Vec<StepInfo>,
    /// The residual history since the last reset.
    pub residual_data: Vec<ResidualData>,
    /// Whether a run is in progress.
    pub is_running: bool,
}

pub struct MonitorModel {
    pub lines: Seq<Seq<char>>,
    pub steps: Seq<StepModel>,
    pub residuals: Seq<ResidualModel>,
    pub running: bool,
}

impl View for RunMonitor {
    type V = MonitorModel;

    open spec fn view(&self) -> MonitorModel {
        MonitorModel {
            lines: self.output_lines@.map_values(|s: String| s@),
            steps: self.step_info@.map_values(|s: StepInfo| s@),
            residuals: self.residual_data@.map_values(|d: ResidualData| d@),
            running: self.is_running,
        }
    }
}

/// The display after one event: a line is appended to the transcript, a new
/// step appends a row, an update replaces the last row (whatever its step),
/// a residual appends a point, and a reset clears the residual history.
pub open spec fn apply_event(m: MonitorModel, e: Event) -> MonitorModel {
    match e {
        Event::Line(l) => MonitorModel { lines: m.lines.push(l), ..m },
        Event::NewStep(s) => MonitorModel { steps: m.steps.push(s), ..m },
        Event::UpdateStep(s) => if m.steps.len() > 0 {
            MonitorModel { steps: m.steps.update(m.steps.len() - 1, s), ..m }
        } else {
            m
        },
        Event::Residual(r) => MonitorModel { residuals: m.residuals.push(r), ..m },
        Event::ResetResiduals => MonitorModel { residuals: seq![], ..m },
    }
}

/// The display after a sequence of events, applied in order.
pub open spec fn apply_events(m: MonitorModel, e: Seq<Event>) -> MonitorModel
    decreases e.len(),
{
    if e.len() == 0 {
        m
    } else {
        apply_event(apply_events(m, e.drop_last()), e.last())
    }
}

/// What one non-blocking poll of the event channel found.
pub enum PollOutcome {
    /// The next event of the run.
    Message(SolverMessage),
    /// No event is queued at the moment.
    Empty,
    /// The producer has ended: no event will come any more.
    Disconnected,
}

/// What the consumer does after a poll.
#[derive(PartialEq, Eq, Structural, Clone, Copy, Debug)]
pub enum TickAction {
    /// An event was applied: poll again within this tick.
    Continue,
    /// Nothing is queued: stop polling until the next tick.
    Idle,
    /// The run has ended: release the channel and the process handle.
    Finalize,
}

impl RunMonitor {
    /// A display with no run and nothing shown.
    pub fn new() -> (r: RunMonitor)
        ensures
            r@ == (MonitorModel { lines: seq![], steps: seq![], residuals: seq![], running: false }),
    {
        let r = RunMonitor {
            output_lines: Vec::new(),
            step_info: Vec::new(),
            residual_data: Vec::new(),
            is_running: false,
        };
        assert(r@.lines =~= seq![]);
        assert(r@.steps =~= seq![]);
        assert(r@.residuals =~= seq![]);
        r
    }

    /// Starts a run: what the previous run left is discarded.
    pub fn start_run(&mut self)
        ensures
            final(self)@ == (MonitorModel {
                lines: seq![],
                steps: seq![],
                residuals: seq![],
                running: true,
            }),
    {
        self.output_lines.clear();
        self.step_info.clear();
        self.residual_data.clear();
        self.is_running = true;
        assert(self@.lines =~= seq![]);
        assert(self@.steps =~= seq![]);
        assert(self@.residuals =~= seq![]);
    }

    /// Ends the run on the user's request; what is shown stays.
    pub fn stop(&mut self)
        ensures
            final(self)@ == (MonitorModel { running: false, ..old(self)@ }),
    {
        self.is_running = false;
    }

    /// Appends a status text to the transcript.
    pub fn report(&mut self, text: String)
        ensures
            final(self)@ == (MonitorModel { lines: old(self)@.lines.push(text@), ..old(self)@ }),
    {
        let ghost t = text@;
        self.output_lines.push(text);
        assert(self@.lines =~= old(self)@.lines.push(t));
    }

    /// Applies one event of the run.
    pub fn apply(&mut self, msg: SolverMessage)
        ensures
            final(self)@ == apply_event(old(self)@, msg@),
    {
        let ghost e = msg@;
        match msg {
            SolverMessage::Line(line) => {
                self.output_lines.push(line);
                assert(self@.lines =~= old(self)@.lines.push(e->Line_0));
            },
            SolverMessage::NewStepInfo(info) => {
                self.step_info.push(info);
                assert(self@.steps =~= old(self)@.steps.push(e->NewStep_0));
            },
            SolverMessage::UpdateStepInfo(info) => {
                let n = self.step_info.len();
                if n > 0 {
                    self.step_info[n - 1] = info;
                    assert(self@.steps =~= old(self)@.steps.update(n - 1, e->UpdateStep_0));
                }
            },
            SolverMessage::Residual(data) => {
                self.residual_data.push(data);
                assert(self@.residuals =~= old(self)@.residuals.push(e->Residual_0));
            },
            SolverMessage::ResetResiduals => {
                self.residual_data.clear();
                assert(self@.residuals =~= seq![]);
            },
        }
    }

    /// Handles the outcome of one poll: an event is applied, and the end of
    /// the producer ends the run.
    pub fn on_poll(&mut self, outcome: PollOutcome) -> (r: TickAction)
        ensures
            match outcome {
                PollOutcome::Message(m) => r == TickAction::Continue && final(self)@ == apply_event(
                    old(self)@,
                    m@,
                ),
                PollOutcome::Empty => r == TickAction::Idle && final(self)@ == old(self)@,
                PollOutcome::Disconnected => r == TickAction::Finalize && final(self)@ == (
                MonitorModel { running: false, ..old(self)@ }),
            },
    {
        match outcome {
            PollOutcome::Message(m) => {
                self.apply(m);
                TickAction::Continue
            },
            PollOutcome::Empty => TickAction::Idle,
            PollOutcome::Disconnected => {
                self.is_running = false;
                TickAction::Finalize
            },
        }
    }
}

/// An update replaces the step table's last row, also when that row belongs
/// to another step than the update; the other rows stay as they were.
pub proof fn lemma_update_replaces_last_row(m: MonitorModel, s: StepModel)
    requires
        m.steps.len() > 0,
    ensures
        apply_event(m, Event::UpdateStep(s)).steps.len() == m.steps.len(),
        apply_event(m, Event::UpdateStep(s)).steps.last() == s,
        forall|i: int|
            0 <= i < m.steps.len() - 1 ==> #[trigger] apply_event(m, Event::UpdateStep(s)).steps[i]
                == m.steps[i],
{
}

proof fn lemma_apply_events_lines(m: MonitorModel, e: Seq<Event>)
    ensures
        apply_events(m, e).lines == m.lines + transcript(e),
    decreases e.len(),
{
    if e.len() == 0 {
        assert(m.lines + transcript(e) =~= m.lines);
    } else {
        lemma_apply_events_lines(m, e.drop_last());
        match e.last() {
            Event::Line(l) => {
                assert(m.lines + transcript(e.drop_last()).push(l) =~= (m.lines + transcript(
                    e.drop_last(),
                )).push(l));
            },
            _ => {},
        }
    }
}

/// Delivering every event of the lines read, in order, appends exactly those
/// lines to the display's transcript, in order: no line is lost.
pub proof fn lemma_display_keeps_every_line(
    m: MonitorModel,
    p: ParserModel,
    lines: Seq<Seq<char>>,
)
    ensures
        apply_events(m, run_lines(p, lines).1).lines == m.lines + lines,
{
    lemma_apply_events_lines(m, run_lines(p, lines).1);
    lemma_transcript_complete(p, lines);
}

} // verus!
