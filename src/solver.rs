//! The log parser: a state machine that reads the solver's console output one
//! line at a time and emits the progress events found in it.
//!
//! Numeric values that the solver prints as floating-point numbers (total
//! time, residual force) are carried as their text, which the parser has
//! checked to be a valid `f64` literal.

use vstd::prelude::*;
use vstd::string::*;
use crate::text::{
    chars_of, eq_end, has_prefix, is_float_literal, is_float_text, parse_u32, same_chars, slice_chars,
    starts_with, trim, trim_bounds, trim_start, u32_of, until_eq, word_bounds, words,
};

verus! {

/// Progress of one solution step.
#[derive(Debug, Clone)]
pub struct StepInfo {
    pub step: u32,
    pub increment: u32,
    pub attempt: u32,
    pub iterations: u32,
    /// The total time as printed by the solver, a valid `f64` literal.
    pub total_time: String,
}

/// The mathematical value of a [`StepInfo`].
pub struct StepModel {
    pub step: u32,
    pub increment: u32,
    pub attempt: u32,
    pub iterations: u32,
    pub total_time: Seq<char>,
}

impl View for StepInfo {
    type V = StepModel;

    open spec fn view(&self) -> StepModel {
        StepModel {
            step: self.step,
            increment: self.increment,
            attempt: self.attempt,
            iterations: self.iterations,
            total_time: self.total_time@,
        }
    }
}

/// One residual-force sample of the convergence history.
#[derive(Debug, Clone)]
pub struct ResidualData {
    pub step: u32,
    /// Position of the sample since the residual history was last reset,
    /// counting from one.
    pub total_iteration: u32,
    /// The residual as printed by the solver, a valid `f64` literal.
    pub residual: String,
}

pub struct ResidualModel {
    pub step: u32,
    pub total_iteration: u32,
    pub residual: Seq<char>,
}

impl View for ResidualData {
    type V = ResidualModel;

    open spec fn view(&self) -> ResidualModel {
        ResidualModel {
            step: self.step,
            total_iteration: self.total_iteration,
            residual: self.residual@,
        }
    }
}

/// An event that the parser hands to the display.
#[derive(Debug, Clone)]
pub enum SolverMessage {
    /// A line of the transcript, exactly as read.
    Line(String),
    /// A new step has begun: append a row to the step table.
    NewStepInfo(StepInfo),
    /// The open step changed: replace the last row of the step table.
    UpdateStepInfo(StepInfo),
    /// A residual sample: append a point to the residual history.
    Residual(ResidualData),
    /// A new increment has begun: clear the residual history.
    ResetResiduals,
}

/// The mathematical value of a [`SolverMessage`].
pub enum Event {
    Line(Seq<char>),
    NewStep(StepModel),
    UpdateStep(StepModel),
    Residual(ResidualModel),
    ResetResiduals,
}

impl View for SolverMessage {
    type V = Event;

    open spec fn view(&self) -> Event {
        match self {
            SolverMessage::Line(s) => Event::Line(s@),
            SolverMessage::NewStepInfo(i) => Event::NewStep(i@),
            SolverMessage::UpdateStepInfo(i) => Event::UpdateStep(i@),
            SolverMessage::Residual(d) => Event::Residual(d@),
            SolverMessage::ResetResiduals => Event::ResetResiduals,
        }
    }
}

/// The events that a sequence of messages stands for.
pub open spec fn events_of(ms: Seq<SolverMessage>) -> Seq<Event> {
    ms.map_values(|m: SolverMessage| m@)
}

/// The state that the parser keeps between lines.
pub struct ParserModel {
    pub current: Option<StepModel>,
    pub counter: u32,
}

/// One more, stopping at the largest `u32`.
pub open spec fn bump(x: u32) -> u32 {
    if x < u32::MAX {
        (x + 1) as u32
    } else {
        x
    }
}

/// The record that a `STEP` line opens.
pub open spec fn fresh_step(step: u32) -> StepModel {
    StepModel { step, increment: 0, attempt: 0, iterations: 0, total_time: "0"@ }
}

/// The step number of a line whose first word is `STEP` and whose second
/// word is an unsigned integer.
pub open spec fn step_number(line: Seq<char>) -> Option<u32> {
    let w = words(line);
    if w.len() >= 2 && w[0] == "STEP"@ {
        u32_of(w[1])
    } else {
        None
    }
}

pub open spec fn is_increment_line(line: Seq<char>) -> bool {
    has_prefix(line, "increment "@) && words(line).len() >= 4
}

pub open spec fn is_iteration_line(line: Seq<char>) -> bool {
    has_prefix(trim(line), "iteration "@)
}

pub open spec fn is_total_time_line(line: Seq<char>) -> bool {
    has_prefix(line, " actual total time="@)
}

pub open spec fn is_residual_line(line: Seq<char>) -> bool {
    has_prefix(trim(line), "largest residual force="@)
}

/// The value text of a total-time line.
pub open spec fn total_time_text(line: Seq<char>) -> Seq<char> {
    trim(until_eq(line.skip(" actual total time="@.len() as int)))
}

/// The words after the `=` of a residual line.
pub open spec fn residual_words(line: Seq<char>) -> Seq<Seq<char>> {
    words(until_eq(trim_start(line).skip("largest residual force="@.len() as int)))
}

/// What a line does to the open record `cur` and the residual counter, and
/// the structured events it emits, when it is no `STEP` line.
pub open spec fn record_events(cur: StepModel, counter: u32, line: Seq<char>) -> (
    StepModel,
    u32,
    Seq<Event>,
) {
    let w = words(line);
    if is_increment_line(line) {
        match (u32_of(w[1]), u32_of(w[3])) {
            (Some(inc), Some(att)) => {
                let r = StepModel {
                    step: cur.step,
                    increment: inc,
                    attempt: att,
                    iterations: 0,
                    total_time: cur.total_time,
                };
                (r, 0, seq![Event::ResetResiduals, Event::UpdateStep(r)])
            },
            _ => (cur, 0, seq![Event::ResetResiduals]),
        }
    } else if is_iteration_line(line) {
        let r = StepModel {
            step: cur.step,
            increment: cur.increment,
            attempt: cur.attempt,
            iterations: bump(cur.iterations),
            total_time: cur.total_time,
        };
        (r, counter, seq![Event::UpdateStep(r)])
    } else if is_total_time_line(line) {
        let x = total_time_text(line);
        if is_float_literal(x) {
            let r = StepModel {
                step: cur.step,
                increment: cur.increment,
                attempt: cur.attempt,
                iterations: cur.iterations,
                total_time: x,
            };
            (r, counter, seq![Event::UpdateStep(r)])
        } else {
            (cur, counter, seq![])
        }
    } else if is_residual_line(line) {
        let rw = residual_words(line);
        if rw.len() > 0 && is_float_literal(rw[0]) {
            let c = bump(counter);
            (
                cur,
                c,
                seq![
                    Event::Residual(
                        ResidualModel { step: cur.step, total_iteration: c, residual: rw[0] },
                    ),
                ],
            )
        } else {
            (cur, counter, seq![])
        }
    } else {
        (cur, counter, seq![])
    }
}

/// The next state and the structured events of one line.
pub open spec fn structured_events(p: ParserModel, line: Seq<char>) -> (ParserModel, Seq<Event>) {
    match step_number(line) {
        Some(n) => (
            ParserModel { current: Some(fresh_step(n)), counter: p.counter },
            seq![Event::NewStep(fresh_step(n))],
        ),
        None => match p.current {
            None => (p, seq![]),
            Some(cur) => {
                let (r, c, e) = record_events(cur, p.counter, line);
                (ParserModel { current: Some(r), counter: c }, e)
            },
        },
    }
}

/// The next state and all events of one line: its structured events, then
/// the line itself.
pub open spec fn line_events(p: ParserModel, line: Seq<char>) -> (ParserModel, Seq<Event>) {
    let (q, e) = structured_events(p, line);
    (q, e.push(Event::Line(line)))
}

/// Whether a line, read in state `p`, matches one of the structured
/// patterns.
pub open spec fn is_structured(p: ParserModel, line: Seq<char>) -> bool {
    step_number(line) is Some || (p.current is Some && (is_increment_line(line)
        || is_iteration_line(line) || is_total_time_line(line) || is_residual_line(line)))
}

/// The state and events after reading `lines` in order from state `p`.
pub open spec fn run_lines(p: ParserModel, lines: Seq<Seq<char>>) -> (ParserModel, Seq<Event>)
    decreases lines.len(),
{
    if lines.len() == 0 {
        (p, seq![])
    } else {
        let (q, e) = run_lines(p, lines.drop_last());
        let (q2, e2) = line_events(q, lines.last());
        (q2, e + e2)
    }
}

/// The transcript lines carried by a sequence of events, in order.
pub open spec fn transcript(e: Seq<Event>) -> Seq<Seq<char>>
    decreases e.len(),
{
    if e.len() == 0 {
        seq![]
    } else {
        let t = transcript(e.drop_last());
        match e.last() {
            Event::Line(l) => t.push(l),
            _ => t,
        }
    }
}

proof fn lemma_transcript_concat(a: Seq<Event>, b: Seq<Event>)
    ensures
        transcript(a + b) == transcript(a) + transcript(b),
    decreases b.len(),
{
    if b.len() == 0 {
        assert(a + b =~= a);
        assert(transcript(a) + transcript(b) =~= transcript(a));
    } else {
        assert((a + b).drop_last() =~= a + b.drop_last());
        lemma_transcript_concat(a, b.drop_last());
        match b.last() {
            Event::Line(l) => {
                assert(transcript(a) + transcript(b.drop_last()).push(l) =~= (transcript(a)
                    + transcript(b.drop_last())).push(l));
            },
            _ => {},
        }
    }
}

proof fn lemma_structured_no_line(p: ParserModel, line: Seq<char>)
    ensures
        forall|i: int|
            0 <= i < structured_events(p, line).1.len() ==> !(#[trigger] structured_events(
                p,
                line,
            ).1[i] is Line),
        structured_events(p, line).1.len() <= 2,
{
}

proof fn lemma_transcript_no_line(s: Seq<Event>)
    requires
        forall|i: int| 0 <= i < s.len() ==> !(#[trigger] s[i] is Line),
    ensures
        transcript(s) == Seq::<Seq<char>>::empty(),
    decreases s.len(),
{
    if s.len() > 0 {
        assert(!(s[s.len() - 1] is Line));
        lemma_transcript_no_line(s.drop_last());
    }
}

/// Every line gives exactly one transcript event, which carries the line
/// unchanged and comes after all the other events of that line.
pub proof fn lemma_line_event_last(p: ParserModel, line: Seq<char>)
    ensures
        ({
            let e = line_events(p, line).1;
            &&& e.len() >= 1
            &&& e.last() == Event::Line(line)
            &&& forall|i: int| 0 <= i < e.len() - 1 ==> !(#[trigger] e[i] is Line)
        }),
{
    lemma_structured_no_line(p, line);
    let e = line_events(p, line).1;
    let s = structured_events(p, line).1;
    assert forall|i: int| 0 <= i < e.len() - 1 implies !(#[trigger] e[i] is Line) by {
        assert(e[i] == s[i]);
    }
}

/// A line that matches no structured pattern gives its transcript event and
/// nothing else, and leaves the parser's state as it was.
pub proof fn lemma_unstructured_line(p: ParserModel, line: Seq<char>)
    requires
        !is_structured(p, line),
    ensures
        line_events(p, line) == (p, seq![Event::Line(line)]),
{
    assert(seq![].push(Event::Line(line)) =~= seq![Event::Line(line)]);
    if p.current is Some {
        let cur = p.current->0;
        assert(record_events(cur, p.counter, line) == (cur, p.counter, Seq::<Event>::empty()));
        assert(ParserModel { current: Some(cur), counter: p.counter } == p);
    }
}

/// Two consecutive lines that match no structured pattern each give one
/// transcript event of their own, in the order they were read.
pub proof fn lemma_unstructured_pair(p: ParserModel, first: Seq<char>, second: Seq<char>)
    requires
        !is_structured(p, first),
        !is_structured(p, second),
    ensures
        run_lines(p, seq![first, second]) == (p, seq![Event::Line(first), Event::Line(second)]),
{
    lemma_unstructured_line(p, first);
    lemma_unstructured_line(p, second);
    let lines = seq![first, second];
    assert(lines.drop_last() =~= seq![first]);
    assert(seq![first].drop_last() =~= Seq::<Seq<char>>::empty());
    assert(Seq::<Event>::empty() + seq![Event::Line(first)] =~= seq![Event::Line(first)]);
    assert(run_lines(p, Seq::<Seq<char>>::empty()) == (p, Seq::<Event>::empty()));
    assert(run_lines(p, seq![first]) == (p, seq![Event::Line(first)]));
    assert(seq![Event::Line(first)] + seq![Event::Line(second)] =~= seq![
        Event::Line(first),
        Event::Line(second),
    ]);
}

/// Reading any sequence of lines loses none of them: the transcript events
/// carry exactly the lines read, in the order they were read.
pub proof fn lemma_transcript_complete(p: ParserModel, lines: Seq<Seq<char>>)
    ensures
        transcript(run_lines(p, lines).1) == lines,
    decreases lines.len(),
{
    if lines.len() == 0 {
        assert(transcript(Seq::<Event>::empty()) =~= lines);
    } else {
        let (q, e) = run_lines(p, lines.drop_last());
        lemma_transcript_complete(p, lines.drop_last());
        let l = lines.last();
        let s = structured_events(q, l).1;
        let e2 = line_events(q, l).1;
        lemma_structured_no_line(q, l);
        lemma_transcript_concat(e, e2);
        assert(e2.drop_last() =~= s);
        lemma_transcript_no_line(s);
        assert(transcript(e2) =~= seq![l]);
        assert(lines.drop_last().push(l) =~= lines);
    }
}

/// The residual counter is zero after any line that resets the residual
/// history; a residual sample carries the counter, one more than before the
/// line; and a line with neither keeps the counter as it was.
pub proof fn lemma_residual_numbering(p: ParserModel, line: Seq<char>)
    ensures
        ({
            let (q, e) = line_events(p, line);
            &&& (exists|i: int| 0 <= i < e.len() && #[trigger] e[i] == Event::ResetResiduals)
                ==> q.counter == 0
            &&& forall|i: int|
                0 <= i < e.len() && #[trigger] e[i] is Residual ==> e[i]->Residual_0.total_iteration
                    == q.counter && q.counter == bump(p.counter)
            &&& (forall|i: int|
                0 <= i < e.len() ==> !(#[trigger] e[i] is Residual) && e[i]
                    != Event::ResetResiduals) ==> q.counter == p.counter
        }),
{
    let (q, e) = line_events(p, line);
    let s = structured_events(p, line).1;
    assert forall|i: int| 0 <= i < s.len() implies #[trigger] e[i] == s[i] by {}
    if s.len() > 0 {
        assert(e[0] == s[0]);
    }
}

impl Default for StepInfo {
    /// The record of step zero, with nothing counted yet.
    fn default() -> (r: StepInfo)
        ensures
            r@ == fresh_step(0),
    {
        StepInfo::fresh(0)
    }
}

impl StepInfo {
    /// A copy of this record.
    pub fn snapshot(&self) -> (r: StepInfo)
        ensures
            r@ == self@,
    {
        StepInfo {
            step: self.step,
            increment: self.increment,
            attempt: self.attempt,
            iterations: self.iterations,
            total_time: self.total_time.clone(),
        }
    }

    /// The record that a `STEP` line opens.
    pub fn fresh(step: u32) -> (r: StepInfo)
        ensures
            r@ == fresh_step(step),
    {
        StepInfo {
            step,
            increment: 0,
            attempt: 0,
            iterations: 0,
            total_time: "0".to_owned(),
        }
    }
}

/// The parser's state: the open step record, if any, and the number of
/// residual samples since the last reset.
pub struct LogParser {
    current_step: Option<StepInfo>,
    residual_counter: u32,
}

impl View for LogParser {
    type V = ParserModel;

    closed spec fn view(&self) -> ParserModel {
        ParserModel {
            current: match self.current_step {
                Some(s) => Some(s@),
                None => None,
            },
            counter: self.residual_counter,
        }
    }
}

/// Word `k` of `v`, given the bounds of its words.
fn word_at(v: &Vec<char>, wb: &Vec<(usize, usize)>, k: usize) -> (r: Vec<char>)
    requires
        k < wb.len(),
        forall|i: int| 0 <= i < wb.len() ==> (#[trigger] wb@[i]).0 <= wb@[i].1 <= v.len(),
    ensures
        r@ == wb@.map_values(|b: (usize, usize)| v@.subrange(b.0 as int, b.1 as int))[k as int],
{
    let (lo, hi) = wb[k];
    assert(wb@[k as int].0 <= wb@[k as int].1 <= v.len());
    slice_chars(v, lo, hi)
}

/// The step number of a line, given its characters and the bounds of its
/// words.
fn step_number_in(v: &Vec<char>, wb: &Vec<(usize, usize)>) -> (r: Option<u32>)
    requires
        forall|i: int| 0 <= i < wb.len() ==> (#[trigger] wb@[i]).0 <= wb@[i].1 <= v.len(),
        wb@.map_values(|b: (usize, usize)| v@.subrange(b.0 as int, b.1 as int)) == words(v@),
    ensures
        r == step_number(v@),
{
    if wb.len() < 2 {
        return None;
    }
    let keyword = chars_of("STEP");
    let first = word_at(v, wb, 0);
    if !same_chars(&first, &keyword) {
        return None;
    }
    parse_u32(&word_at(v, wb, 1))
}

/// Pushes `m` onto `out`.
fn emit(out: &mut Vec<SolverMessage>, m: SolverMessage)
    ensures
        events_of(final(out)@) == events_of(old(out)@).push(m@),
{
    let ghost m_view = m@;
    out.push(m);
    assert(events_of(out@) =~= events_of(old(out)@).push(m_view));
}

/// Applies a line that is no `STEP` line to the open record `cur`.
fn advance(
    cur: StepInfo,
    counter: u32,
    line: &String,
    v: &Vec<char>,
    wb: &Vec<(usize, usize)>,
    out: &mut Vec<SolverMessage>,
) -> (r: (StepInfo, u32))
    requires
        v@ == line@,
        forall|i: int| 0 <= i < wb.len() ==> (#[trigger] wb@[i]).0 <= wb@[i].1 <= v.len(),
        wb@.map_values(|b: (usize, usize)| v@.subrange(b.0 as int, b.1 as int)) == words(v@),
    ensures
        ({
            let (m, c, e) = record_events(cur@, counter, line@);
            &&& r.0@ == m
            &&& r.1 == c
            &&& events_of(final(out)@) == events_of(old(out)@) + e
        }),
{
    let n = v.len();
    let ghost e0 = events_of(out@);
    let increment_p = chars_of("increment ");
    if starts_with(v, &increment_p) && wb.len() >= 4 {
        emit(out, SolverMessage::ResetResiduals);
        let inc = parse_u32(&word_at(v, wb, 1));
        let att = parse_u32(&word_at(v, wb, 3));
        match (inc, att) {
            (Some(i), Some(a)) => {
                let r = StepInfo {
                    step: cur.step,
                    increment: i,
                    attempt: a,
                    iterations: 0,
                    total_time: cur.total_time,
                };
                emit(out, SolverMessage::UpdateStepInfo(r.snapshot()));
                assert(events_of(out@) =~= e0 + seq![Event::ResetResiduals, Event::UpdateStep(r@)]);
                return (r, 0);
            },
            _ => {
                assert(events_of(out@) =~= e0 + seq![Event::ResetResiduals]);
                return (cur, 0);
            },
        }
    }
    let (a, b) = trim_bounds(v, 0, n);
    assert(v@.subrange(0, n as int) =~= v@);
    let t = slice_chars(v, a, b);
    let iteration_p = chars_of("iteration ");
    let total_time_p = chars_of(" actual total time=");
    let residual_p = chars_of("largest residual force=");
    if starts_with(&t, &iteration_p) {
        let it = if cur.iterations < u32::MAX {
            cur.iterations + 1
        } else {
            cur.iterations
        };
        let r = StepInfo {
            step: cur.step,
            increment: cur.increment,
            attempt: cur.attempt,
            iterations: it,
            total_time: cur.total_time,
        };
        emit(out, SolverMessage::UpdateStepInfo(r.snapshot()));
        assert(events_of(out@) =~= e0 + seq![Event::UpdateStep(r@)]);
        (r, counter)
    } else if starts_with(v, &total_time_p) {
        let lo = total_time_p.len();
        let e = eq_end(v, lo);
        let (i, j) = trim_bounds(v, lo, e);
        assert(v@.skip(lo as int) =~= v@.subrange(lo as int, n as int));
        let x = slice_chars(v, i, j);
        if is_float_text(&x) {
            let text = line.as_str().substring_char(i, j).to_owned();
            let r = StepInfo {
                step: cur.step,
                increment: cur.increment,
                attempt: cur.attempt,
                iterations: cur.iterations,
                total_time: text,
            };
            emit(out, SolverMessage::UpdateStepInfo(r.snapshot()));
            assert(events_of(out@) =~= e0 + seq![Event::UpdateStep(r@)]);
            (r, counter)
        } else {
            assert(events_of(out@) =~= e0 + seq![]);
            (cur, counter)
        }
    } else if starts_with(&t, &residual_p) {
        let lo = a + residual_p.len();
        assert(trim_start(v@).skip(residual_p.len() as int) =~= v@.subrange(lo as int, n as int));
        let e = eq_end(v, lo);
        let rb = word_bounds(v, lo, e);
        if rb.len() > 0 {
            let x = word_at(v, &rb, 0);
            if is_float_text(&x) {
                let c = if counter < u32::MAX {
                    counter + 1
                } else {
                    counter
                };
                let (p, q) = rb[0];
                assert(rb@[0].0 <= rb@[0].1 <= n);
                let text = line.as_str().substring_char(p, q).to_owned();
                let d = ResidualData { step: cur.step, total_iteration: c, residual: text };
                emit(out, SolverMessage::Residual(d));
                assert(events_of(out@) =~= e0 + seq![Event::Residual(d@)]);
                return (cur, c);
            }
        }
        assert(events_of(out@) =~= e0 + seq![]);
        (cur, counter)
    } else {
        assert(events_of(out@) =~= e0 + seq![]);
        (cur, counter)
    }
}

impl LogParser {
    /// A parser with no open record and a zero residual counter.
    pub fn new() -> (r: LogParser)
        ensures
            r@ == (ParserModel { current: None, counter: 0 }),
    {
        LogParser { current_step: None, residual_counter: 0 }
    }

    /// A copy of the open step record, if any.
    pub fn current_step(&self) -> (r: Option<StepInfo>)
        ensures
            match r {
                Some(s) => self@.current == Some(s@),
                None => self@.current is None,
            },
    {
        match &self.current_step {
            Some(s) => Some(s.snapshot()),
            None => None,
        }
    }

    /// The number of residual samples since the last reset.
    pub fn residual_counter(&self) -> (r: u32)
        ensures
            r == self@.counter,
    {
        self.residual_counter
    }

    /// Reads one line of output: updates the state and returns the line's
    /// events in the order they are to be delivered, the line itself last.
    pub fn process_line(&mut self, line: String) -> (r: Vec<SolverMessage>)
        ensures
            ({
                let (q, e) = line_events(old(self)@, line@);
                &&& final(self)@ == q
                &&& events_of(r@) == e
            }),
    {
        let v = chars_of(line.as_str());
        let n = v.len();
        let wb = word_bounds(&v, 0, n);
        assert(v@.subrange(0, n as int) =~= v@);
        let mut out: Vec<SolverMessage> = Vec::new();
        assert(events_of(out@) =~= seq![]);
        match step_number_in(&v, &wb) {
            Some(k) => {
                let rec = StepInfo::fresh(k);
                self.current_step = Some(rec.snapshot());
                emit(&mut out, SolverMessage::NewStepInfo(rec));
            },
            None => {
                match &self.current_step {
                    Some(cur) => {
                        let cur = cur.snapshot();
                        let (rec, c) = advance(
                            cur,
                            self.residual_counter,
                            &line,
                            &v,
                            &wb,
                            &mut out,
                        );
                        self.current_step = Some(rec);
                        self.residual_counter = c;
                    },
                    None => {},
                }
            },
        }
        emit(&mut out, SolverMessage::Line(line));
        out
    }
}

} // verus!
