//! What passes between the UI and the in-process Nushell engine.

use crate::cells::{body_of, value_to_body};
use crate::listing::{clone_option, has_text, text_option};
use crate::result::{
    BodyView, CellKind, ResultBody, ResultId, ResultStatus, ResultStore, StoreView,
};
use crate::text::{
    char_at, chars_of, contains_text, ends_with, finishes_with, lemma_trimmed_once, lowercase,
    occurs_in, pieces, split, texts, trim, trimmed,
};
use crate::value::{field_place, find_field, DurationUnit, Field, NuValue};
use std::time::Duration;
use vstd::prelude::*;

verus! {

/// The number of Results that a Session keeps.
pub const DEFAULT_RESULT_CAP: usize = 10;

/// The depth to which a Result opens nested values.
pub const NEST_DEPTH: usize = 8;

/// Request sent to the engine thread.
#[derive(Debug)]
pub enum EngineRequest {
    Parse { source: String },
    Eval { id: ResultId, source: String },
    ScopeCommands,
    ScopeVariables,
    Interrupt,
    Shutdown,
}

/// A request as characters and numbers.
pub enum RequestView {
    Parse { source: Seq<char> },
    Eval { id: ResultId, source: Seq<char> },
    ScopeCommands,
    ScopeVariables,
    Interrupt,
    Shutdown,
}

impl View for EngineRequest {
    type V = RequestView;

    open spec fn view(&self) -> RequestView {
        match *self {
            EngineRequest::Parse { source } => RequestView::Parse { source: source@ },
            EngineRequest::Eval { id, source } => RequestView::Eval { id, source: source@ },
            EngineRequest::ScopeCommands => RequestView::ScopeCommands,
            EngineRequest::ScopeVariables => RequestView::ScopeVariables,
            EngineRequest::Interrupt => RequestView::Interrupt,
            EngineRequest::Shutdown => RequestView::Shutdown,
        }
    }
}

/// Parse-time feedback for the REPL bar.
#[derive(Debug)]
pub struct ParseReport {
    pub source: String,
    pub complete: bool,
    pub error: Option<String>,
}

/// A parse report as characters.
pub struct ParseView {
    pub source: Seq<char>,
    pub complete: bool,
    pub error: Option<Seq<char>>,
}

impl View for ParseReport {
    type V = ParseView;

    open spec fn view(&self) -> ParseView {
        ParseView { source: self.source@, complete: self.complete, error: text_option(self.error) }
    }
}

impl Clone for ParseReport {
    fn clone(&self) -> (copy: Self)
        ensures
            copy@ == self@,
    {
        ParseReport {
            source: self.source.clone(),
            complete: self.complete,
            error: clone_option(&self.error),
        }
    }
}

/// Outcome of one Invocation.
#[derive(Debug)]
pub struct EvalReport {
    pub id: ResultId,
    pub source: String,
    pub status: ResultStatus,
    pub duration: Duration,
    pub exit_code: i64,
    pub body: ResultBody,
}

/// An outcome as characters and numbers.
pub struct EvalView {
    pub id: ResultId,
    pub source: Seq<char>,
    pub status: ResultStatus,
    pub duration: Duration,
    pub exit_code: i64,
    pub body: BodyView,
}

impl View for EvalReport {
    type V = EvalView;

    open spec fn view(&self) -> EvalView {
        EvalView {
            id: self.id,
            source: self.source@,
            status: self.status,
            duration: self.duration,
            exit_code: self.exit_code,
            body: self.body@,
        }
    }
}

impl Clone for EvalReport {
    fn clone(&self) -> (copy: Self)
        ensures
            copy@ == self@,
    {
        EvalReport {
            id: self.id,
            source: self.source.clone(),
            status: self.status,
            duration: self.duration,
            exit_code: self.exit_code,
            body: self.body.clone(),
        }
    }
}

/// Settings pulled from the live Nushell `config.nu`.
#[derive(Debug)]
pub struct EngineSnapshot {
    pub nu_version: String,
    pub config_path: String,
    pub env_path: String,
    pub color_config: Vec<(String, String)>,
    pub float_precision: i64,
}

/// A snapshot as characters and numbers.
pub struct SnapshotView {
    pub nu_version: Seq<char>,
    pub config_path: Seq<char>,
    pub env_path: Seq<char>,
    pub color_config: Seq<(Seq<char>, Seq<char>)>,
    pub float_precision: i64,
}

/// Pairs of texts.
pub open spec fn text_pairs(list: Seq<(String, String)>) -> Seq<(Seq<char>, Seq<char>)> {
    list.map_values(|pair: (String, String)| (pair.0@, pair.1@))
}

impl View for EngineSnapshot {
    type V = SnapshotView;

    open spec fn view(&self) -> SnapshotView {
        SnapshotView {
            nu_version: self.nu_version@,
            config_path: self.config_path@,
            env_path: self.env_path@,
            color_config: text_pairs(self.color_config@),
            float_precision: self.float_precision,
        }
    }
}

impl Clone for EngineSnapshot {
    fn clone(&self) -> (copy: Self)
        ensures
            copy@ == self@,
    {
        let mut color_config: Vec<(String, String)> = Vec::new();
        let n: usize = self.color_config.len();
        for i in 0..n
            invariant
                n == self.color_config@.len(),
                color_config@.len() == i,
                forall|k: int|
                    0 <= k < i ==> (#[trigger] color_config@[k]).0@ == self.color_config@[k].0@
                        && color_config@[k].1@ == self.color_config@[k].1@,
        {
            color_config.push((self.color_config[i].0.clone(), self.color_config[i].1.clone()));
        }
        let copy = EngineSnapshot {
            nu_version: self.nu_version.clone(),
            config_path: self.config_path.clone(),
            env_path: self.env_path.clone(),
            color_config,
            float_precision: self.float_precision,
        };
        assert(copy@.color_config =~= self@.color_config);
        copy
    }
}

/// A snapshot before the engine gave one.
pub open spec fn no_snapshot() -> SnapshotView {
    SnapshotView {
        nu_version: Seq::empty(),
        config_path: Seq::empty(),
        env_path: Seq::empty(),
        color_config: Seq::empty(),
        float_precision: 0,
    }
}

impl Default for EngineSnapshot {
    fn default() -> (snapshot: Self)
        ensures
            snapshot@ == no_snapshot(),
    {
        let snapshot = EngineSnapshot {
            nu_version: String::new(),
            config_path: String::new(),
            env_path: String::new(),
            color_config: Vec::new(),
            float_precision: 0,
        };
        assert(snapshot@.color_config =~= Seq::empty());
        snapshot
    }
}

/// Messages the UI consumes.
#[derive(Debug)]
pub enum EngineEvent {
    Ready(EngineSnapshot),
    Parse(ParseReport),
    Eval(EvalReport),
    ScopeCommands(ResultStore),
    ScopeVariables(ResultStore),
    Failed(String),
}

/// A message as characters and numbers.
pub enum EventView {
    Ready(SnapshotView),
    Parse(ParseView),
    Eval(EvalView),
    ScopeCommands(StoreView),
    ScopeVariables(StoreView),
    Failed(Seq<char>),
}

impl View for EngineEvent {
    type V = EventView;

    open spec fn view(&self) -> EventView {
        match *self {
            EngineEvent::Ready(snapshot) => EventView::Ready(snapshot@),
            EngineEvent::Parse(report) => EventView::Parse(report@),
            EngineEvent::Eval(report) => EventView::Eval(report@),
            EngineEvent::ScopeCommands(store) => EventView::ScopeCommands(store@),
            EngineEvent::ScopeVariables(store) => EventView::ScopeVariables(store@),
            EngineEvent::Failed(text) => EventView::Failed(text@),
        }
    }
}

// ---------------------------------------------------------------------------------------
// The handle

/// Handle used by the UI thread: the requests that wait to be sent, and whether a running
/// Invocation is to stop.
#[derive(Debug)]
pub struct EngineHandle {
    outbox: Vec<EngineRequest>,
    interrupt: bool,
}

impl EngineHandle {
    /// The requests that wait to be sent.
    pub closed spec fn requests(self) -> Seq<RequestView> {
        self.outbox@.map_values(|request: EngineRequest| request@)
    }

    /// Whether a running Invocation is to stop.
    pub closed spec fn stopping(self) -> bool {
        self.interrupt
    }

    /// A handle with nothing to send.
    pub fn new() -> (handle: Self)
        ensures
            handle.requests() == Seq::<RequestView>::empty(),
            !handle.stopping(),
    {
        let handle = EngineHandle { outbox: Vec::new(), interrupt: false };
        assert(handle.requests() =~= Seq::empty());
        handle
    }

    fn send(&mut self, request: EngineRequest)
        ensures
            final(self).requests() == old(self).requests().push(request@),
            final(self).stopping() == old(self).stopping(),
    {
        self.outbox.push(request);
        assert(self.requests() =~= old(self).requests().push(request@));
    }

    /// Asks for parse feedback on a source.
    pub fn parse(&mut self, source: &str)
        ensures
            final(self).requests() == old(self).requests().push(
                RequestView::Parse { source: source@ },
            ),
            final(self).stopping() == old(self).stopping(),
    {
        self.send(EngineRequest::Parse { source: source.to_owned() });
    }

    /// Asks for an Invocation of a source; an earlier call to stop no longer holds.
    pub fn eval(&mut self, id: ResultId, source: &str)
        ensures
            final(self).requests() == old(self).requests().push(
                RequestView::Eval { id, source: source@ },
            ),
            !final(self).stopping(),
    {
        self.interrupt = false;
        self.send(EngineRequest::Eval { id, source: source.to_owned() });
    }

    /// Calls the running Invocation to stop.
    pub fn interrupt(&mut self)
        ensures
            final(self).requests() == old(self).requests().push(RequestView::Interrupt),
            final(self).stopping(),
    {
        self.interrupt = true;
        self.send(EngineRequest::Interrupt);
    }

    /// Asks for the commands in scope.
    pub fn scope_commands(&mut self)
        ensures
            final(self).requests() == old(self).requests().push(RequestView::ScopeCommands),
            final(self).stopping() == old(self).stopping(),
    {
        self.send(EngineRequest::ScopeCommands);
    }

    /// Asks for the variables in scope.
    pub fn scope_variables(&mut self)
        ensures
            final(self).requests() == old(self).requests().push(RequestView::ScopeVariables),
            final(self).stopping() == old(self).stopping(),
    {
        self.send(EngineRequest::ScopeVariables);
    }

    /// Hands out the requests that wait, in the order in which they were made.
    pub fn take_requests(&mut self) -> (out: Vec<EngineRequest>)
        ensures
            out@.map_values(|request: EngineRequest| request@) == old(self).requests(),
            final(self).requests() == Seq::<RequestView>::empty(),
            final(self).stopping() == old(self).stopping(),
    {
        let mut out: Vec<EngineRequest> = Vec::new();
        out.append(&mut self.outbox);
        assert(self.requests() =~= Seq::empty());
        assert(out@ =~= old(self).outbox@);
        out
    }

    /// Whether a running Invocation is to stop.
    pub fn is_stopping(&self) -> (yes: bool)
        ensures
            yes == self.stopping(),
    {
        self.interrupt
    }
}

// ---------------------------------------------------------------------------------------
// Completeness

/// A bracket that opens.
pub open spec fn opens(c: char) -> bool {
    c == '{' || c == '(' || c == '['
}

/// A bracket that closes.
pub open spec fn closes(c: char) -> bool {
    c == '}' || c == ')' || c == ']'
}

/// The number of opening brackets.
pub open spec fn opening(s: Seq<char>) -> nat
    decreases s.len(),
{
    if s.len() == 0 {
        0
    } else if opens(s.last()) {
        opening(s.drop_last()) + 1
    } else {
        opening(s.drop_last())
    }
}

/// The number of closing brackets.
pub open spec fn closing(s: Seq<char>) -> nat
    decreases s.len(),
{
    if s.len() == 0 {
        0
    } else if closes(s.last()) {
        closing(s.drop_last()) + 1
    } else {
        closing(s.drop_last())
    }
}

/// Whether a source looks complete: it is not blank, it does not end in a pipe or a
/// redirection, and it closes as many brackets as it opens.
pub open spec fn looks_complete(source: Seq<char>) -> bool {
    let text = trimmed(source);
    &&& text.len() > 0
    &&& text.last() != '|'
    &&& !finishes_with(text, "out>"@)
    &&& opening(text) <= closing(text)
}

/// Cheap completeness check when the last parse report is stale or missing.
pub fn source_looks_complete(source: &str) -> (yes: bool)
    ensures
        yes == looks_complete(source@),
{
    let text = trim(source);
    let chars = chars_of(text.as_str());
    let n: usize = chars.len();
    if n == 0 {
        return false;
    }
    if char_at(&chars, n - 1) == '|' || ends_with(text.as_str(), "out>") {
        return false;
    }
    let mut up: usize = 0;
    let mut down: usize = 0;
    assert(chars@.take(0) =~= Seq::empty());
    for i in 0..n
        invariant
            n == chars@.len(),
            up == opening(chars@.take(i as int)),
            down == closing(chars@.take(i as int)),
            up <= i,
            down <= i,
    {
        let c = char_at(&chars, i);
        assert(chars@.take(i + 1).drop_last() =~= chars@.take(i as int));
        assert(chars@.take(i + 1).last() == c);
        if c == '{' || c == '(' || c == '[' {
            up += 1;
        }
        if c == '}' || c == ')' || c == ']' {
            down += 1;
        }
    }
    assert(chars@.take(n as int) =~= chars@);
    up <= down
}

/// White space around a source does not change whether it looks complete.
pub proof fn law_blank_edges_do_not_matter(source: Seq<char>)
    ensures
        looks_complete(trimmed(source)) == looks_complete(source),
{
    lemma_trimmed_once(source);
}

/// Whether a parse error says that the source ends too early.
pub open spec fn ends_early(error: Seq<char>) -> bool {
    let text = lowercase(error);
    ||| occurs_in(text, "unexpected end"@)
    ||| occurs_in(text, "unexpected eof"@)
    ||| occurs_in(text, "incomplete"@)
    ||| occurs_in(text, "unclosed"@)
}

/// Whether a source with these parse errors is incomplete.
pub open spec fn incomplete(source: Seq<char>, errors: Seq<Seq<char>>) -> bool {
    ||| !looks_complete(source)
    ||| exists|i: int| 0 <= i < errors.len() && ends_early(#[trigger] errors[i])
}

/// The report on a source with these parse errors: the first is the one that is told.
pub open spec fn report_of(source: Seq<char>, errors: Seq<Seq<char>>) -> ParseView {
    ParseView {
        source,
        complete: !incomplete(source, errors),
        error: if errors.len() > 0 {
            Some(errors[0])
        } else {
            None
        },
    }
}

fn error_ends_early(error: &str) -> (yes: bool)
    ensures
        yes == ends_early(error@),
{
    let text = error.to_lowercase();
    contains_text(text.as_str(), "unexpected end") || contains_text(text.as_str(), "unexpected eof")
        || contains_text(text.as_str(), "incomplete") || contains_text(text.as_str(), "unclosed")
}

/// Whether a source with these parse errors is incomplete.
pub fn is_incomplete(source: &str, errors: &Vec<String>) -> (yes: bool)
    ensures
        yes == incomplete(source@, texts(errors@)),
{
    if !source_looks_complete(source) {
        return true;
    }
    let n: usize = errors.len();
    for i in 0..n
        invariant
            n == errors@.len(),
            forall|k: int| 0 <= k < i ==> !ends_early(#[trigger] texts(errors@)[k]),
    {
        assert(texts(errors@)[i as int] == errors@[i as int]@);
        if error_ends_early(errors[i].as_str()) {
            return true;
        }
    }
    false
}

/// The first of some parse errors.
pub fn first_parse_error(errors: &Vec<String>) -> (error: Option<String>)
    ensures
        text_option(error) == if errors@.len() > 0 {
            Some(errors@[0]@)
        } else {
            None
        },
{
    if errors.len() > 0 {
        Some(errors[0].clone())
    } else {
        None
    }
}

/// The report on a source with these parse errors.
pub fn report_from_errors(source: &str, errors: &Vec<String>) -> (report: ParseReport)
    ensures
        report@ == report_of(source@, texts(errors@)),
{
    assert(texts(errors@).len() == errors@.len());
    ParseReport {
        source: source.to_owned(),
        complete: !is_incomplete(source, errors),
        error: first_parse_error(errors),
    }
}

/// The engine's state, which only the engine reads.
#[verifier::external_type_specification]
#[verifier::external_body]
pub struct ExEngineState(nu_protocol::engine::EngineState);

/// Parses a source with `nu_parser::parse` in a working set over the engine's state, and
/// gives the `Display` texts of the working set's parse errors in their order. Which errors
/// there are is left open: the parser reads the files that a source names.
#[verifier::external_body]
fn parse_errors(engine_state: &nu_protocol::engine::EngineState, source: &str) -> (errors: Vec<
    String,
>) {
    let mut working_set = nu_protocol::engine::StateWorkingSet::new(engine_state);
    let _block = nu_parser::parse(&mut working_set, None, source.as_bytes(), false);
    working_set.parse_errors.iter().map(|error| error.to_string()).collect()
}

/// Whether the parser may give these errors for a source in an engine's state.
pub closed spec fn parser_may_say(
    engine_state: &nu_protocol::engine::EngineState,
    source: &str,
    errors: Seq<Seq<char>>,
) -> bool {
    exists|list: Vec<String>|
        #[trigger] call_ensures(parse_errors, (engine_state, source), list) && texts(list@)
            == errors
}

/// Parses a source and reports on it.
pub fn parse_source(engine_state: &nu_protocol::engine::EngineState, source: &str) -> (report:
    ParseReport)
    ensures
        exists|errors: Seq<Seq<char>>| #[trigger]
            parser_may_say(engine_state, source, errors) && report@ == report_of(source@, errors),
        report@.source == source@,
        !looks_complete(source@) ==> !report@.complete,
        looks_complete(source@) && report@.error is None ==> report@.complete,
{
    let errors = parse_errors(engine_state, source);
    proof {
        assert(call_ensures(parse_errors, (engine_state, source), errors));
        assert(parser_may_say(engine_state, source, texts(errors@)));
    }
    report_from_errors(source, &errors)
}

// ---------------------------------------------------------------------------------------
// Invocations

/// How an evaluation ended.
#[derive(Debug)]
pub enum EvalOutcome {
    /// The source did not parse, or its definitions did not merge.
    Refused(String),
    /// The pipeline gave a value.
    Value(NuValue),
    /// The pipeline gave a stream that broke off.
    Broken(String),
    /// The evaluation raised an error.
    Raised(String),
}

/// The report on an Invocation by how its evaluation ended.
pub open spec fn invocation_report(
    id: ResultId,
    source: Seq<char>,
    duration: Duration,
    outcome: EvalOutcome,
    unit: DurationUnit,
) -> EvalView {
    let (status, exit_code, body) = match outcome {
        EvalOutcome::Refused(error) => (ResultStatus::Failed, 1i64, BodyView::Diagnostic(error@)),
        EvalOutcome::Value(value) => (
            ResultStatus::Succeeded,
            0i64,
            body_of(value, unit, NEST_DEPTH as nat),
        ),
        EvalOutcome::Broken(error) => (ResultStatus::Succeeded, 0i64, BodyView::Diagnostic(error@)),
        EvalOutcome::Raised(error) => (
            if occurs_in(lowercase(error@), "interrupt"@) {
                ResultStatus::Interrupted
            } else {
                ResultStatus::Failed
            },
            1i64,
            BodyView::Diagnostic(error@),
        ),
    };
    EvalView { id, source, status, duration, exit_code, body }
}

/// Reports on an Invocation by how its evaluation ended.
pub fn eval_report(
    id: ResultId,
    source: &str,
    duration: Duration,
    outcome: EvalOutcome,
    unit: DurationUnit,
) -> (report: EvalReport)
    ensures
        report@ == invocation_report(id, source@, duration, outcome, unit),
{
    let (status, exit_code, body): (ResultStatus, i64, ResultBody) = match outcome {
        EvalOutcome::Refused(error) => (ResultStatus::Failed, 1, ResultBody::Diagnostic(error)),
        EvalOutcome::Value(value) => (
            ResultStatus::Succeeded,
            0,
            value_to_body(&value, unit, NEST_DEPTH),
        ),
        EvalOutcome::Broken(error) => (ResultStatus::Succeeded, 0, ResultBody::Diagnostic(error)),
        EvalOutcome::Raised(error) => {
            let interrupted = contains_text(error.as_str().to_lowercase().as_str(), "interrupt");
            let status = if interrupted {
                ResultStatus::Interrupted
            } else {
                ResultStatus::Failed
            };
            (status, 1, ResultBody::Diagnostic(error))
        },
    };
    EvalReport { id, source: source.to_owned(), status, duration, exit_code, body }
}

/// The name under which the color configuration holds the style of a kind of cell.
pub open spec fn style_name(kind: CellKind) -> Seq<char> {
    match kind {
        CellKind::Text => "string"@,
        CellKind::Int => "int"@,
        CellKind::Float => "float"@,
        CellKind::Bool => "bool"@,
        CellKind::Filesize => "filesize"@,
        CellKind::Duration => "duration"@,
        CellKind::Date => "datetime"@,
        CellKind::Empty => "empty"@,
        CellKind::Other => "string"@,
    }
}

/// The name under which the color configuration holds the style of a kind of cell.
pub fn style_key(kind: CellKind) -> (key: &'static str)
    ensures
        key@ == style_name(kind),
{
    match kind {
        CellKind::Text => "string",
        CellKind::Int => "int",
        CellKind::Float => "float",
        CellKind::Bool => "bool",
        CellKind::Filesize => "filesize",
        CellKind::Duration => "duration",
        CellKind::Date => "datetime",
        CellKind::Empty => "empty",
        CellKind::Other => "string",
    }
}

/// Settings the Session uses for Result retention.
pub fn result_cap() -> (n: usize)
    ensures
        n == DEFAULT_RESULT_CAP,
{
    DEFAULT_RESULT_CAP
}

// ---------------------------------------------------------------------------------------
// Settings of the engine

/// The color that an entry of the color configuration names: the entry itself, or the
/// foreground of a record.
pub open spec fn color_named(v: NuValue) -> Option<Seq<char>> {
    match v {
        NuValue::Text { val, .. } => Some(val@),
        NuValue::Record { val } => match field_place(val@, "fg"@) {
            Some(i) => match val@[i].value {
                NuValue::Text { val, .. } => Some(val@),
                _ => None,
            },
            None => None,
        },
        _ => None,
    }
}

/// The entries of a color configuration that name a color.
pub open spec fn named_colors(entries: Seq<Field>) -> Seq<(Seq<char>, Seq<char>)>
    decreases entries.len(),
{
    if entries.len() == 0 {
        Seq::empty()
    } else {
        let before = named_colors(entries.drop_last());
        match color_named(entries.last().value) {
            Some(name) => before.push((entries.last().name@, name)),
            None => before,
        }
    }
}

/// The color that an entry of the color configuration names.
pub fn color_name(value: &NuValue) -> (name: Option<String>)
    ensures
        text_option(name) == color_named(*value),
{
    match value {
        NuValue::Text { val, .. } => Some(val.clone()),
        NuValue::Record { val } => match find_field(val, "fg") {
            Some(i) => match &val[i].value {
                NuValue::Text { val, .. } => Some(val.clone()),
                _ => None,
            },
            None => None,
        },
        _ => None,
    }
}

/// A snapshot of the engine's settings.
pub fn snapshot(
    config_path: String,
    env_path: String,
    color_entries: &Vec<Field>,
    float_precision: i64,
) -> (out: EngineSnapshot)
    ensures
        out@ == (SnapshotView {
            nu_version: "0.115.0"@,
            config_path: config_path@,
            env_path: env_path@,
            color_config: named_colors(color_entries@),
            float_precision,
        }),
{
    let mut color_config: Vec<(String, String)> = Vec::new();
    let n: usize = color_entries.len();
    assert(color_entries@.take(0) =~= Seq::empty());
    assert(text_pairs(color_config@) =~= Seq::empty());
    for i in 0..n
        invariant
            n == color_entries@.len(),
            text_pairs(color_config@) == named_colors(color_entries@.take(i as int)),
    {
        assert(color_entries@.take(i + 1).drop_last() =~= color_entries@.take(i as int));
        assert(color_entries@.take(i + 1).last() == color_entries@[i as int]);
        if let Some(name) = color_name(&color_entries[i].value) {
            let ghost before = color_config@;
            let ghost told = name@;
            color_config.push((color_entries[i].name.clone(), name));
            assert(text_pairs(color_config@) =~= text_pairs(before).push(
                (color_entries@[i as int].name@, told),
            ));
        }
    }
    assert(color_entries@.take(n as int) =~= color_entries@);
    EngineSnapshot {
        nu_version: "0.115.0".to_owned(),
        config_path,
        env_path,
        color_config,
        float_precision,
    }
}

// ---------------------------------------------------------------------------------------
// Library directories

/// Paths with one put behind them, where it is new and not empty.
pub open spec fn with_path(paths: Seq<Seq<char>>, path: Seq<char>) -> Seq<Seq<char>> {
    if path.len() == 0 || paths.contains(path) {
        paths
    } else {
        paths.push(path)
    }
}

/// Paths with others put behind them, where they are new and not empty.
pub open spec fn with_paths(paths: Seq<Seq<char>>, more: Seq<Seq<char>>) -> Seq<Seq<char>>
    decreases more.len(),
{
    if more.len() == 0 {
        paths
    } else {
        with_path(with_paths(paths, more.drop_last()), more.last())
    }
}

/// The texts among some values.
pub open spec fn text_items(vals: Seq<NuValue>) -> Seq<Seq<char>>
    decreases vals.len(),
{
    if vals.len() == 0 {
        Seq::empty()
    } else {
        match vals.last() {
            NuValue::Text { val, .. } => text_items(vals.drop_last()).push(val@),
            _ => text_items(vals.drop_last()),
        }
    }
}

/// The paths that a value of `$env.NU_LIB_DIRS` lists.
pub open spec fn listed_paths(v: Option<NuValue>, separator: char) -> Seq<Seq<char>> {
    match v {
        Some(NuValue::List { vals }) => text_items(vals@),
        Some(NuValue::Text { val, .. }) => pieces(val@, separator, separator).map_values(
            |part: Seq<char>| trimmed(part),
        ),
        _ => Seq::empty(),
    }
}

/// Puts a path behind others, where it is new and not empty.
pub fn push_unique_path(paths: &mut Vec<String>, path: String)
    ensures
        texts(final(paths)@) == with_path(texts(old(paths)@), path@),
{
    if !path.as_str().is_empty() && !has_text(paths, path.as_str()) {
        let ghost before = paths@;
        paths.push(path);
        assert(texts(paths@) =~= texts(before).push(path@));
    }
}

/// Puts the paths that a value of `$env.NU_LIB_DIRS` lists behind others.
pub fn collect_existing_lib_dirs(existing: &Option<NuValue>, separator: char, paths: &mut Vec<String>)
    ensures
        texts(final(paths)@) == with_paths(
            texts(old(paths)@),
            listed_paths(*existing, separator),
        ),
{
    let ghost start = texts(paths@);
    match existing {
        Some(NuValue::List { vals }) => {
            let n: usize = vals.len();
            assert(vals@.take(0) =~= Seq::empty());
            for i in 0..n
                invariant
                    n == vals@.len(),
                    texts(paths@) == with_paths(start, text_items(vals@.take(i as int))),
            {
                assert(vals@.take(i + 1).drop_last() =~= vals@.take(i as int));
                assert(vals@.take(i + 1).last() == vals@[i as int]);
                if let NuValue::Text { val, .. } = &vals[i] {
                    push_unique_path(paths, val.clone());
                    assert(text_items(vals@.take(i + 1)).drop_last() =~= text_items(
                        vals@.take(i as int),
                    ));
                }
            }
            assert(vals@.take(n as int) =~= vals@);
        },
        Some(NuValue::Text { val, .. }) => {
            let parts = split(val.as_str(), separator, separator);
            let ghost all = pieces(val@, separator, separator).map_values(
                |part: Seq<char>| trimmed(part),
            );
            let n: usize = parts.len();
            assert(texts(parts@).len() == n);
            assert(all.take(0) =~= Seq::empty());
            for i in 0..n
                invariant
                    n == parts@.len(),
                    n == all.len(),
                    texts(parts@) == pieces(val@, separator, separator),
                    all == pieces(val@, separator, separator).map_values(
                        |part: Seq<char>| trimmed(part),
                    ),
                    texts(paths@) == with_paths(start, all.take(i as int)),
            {
                assert(texts(parts@)[i as int] == parts@[i as int]@);
                assert(all.take(i + 1).drop_last() =~= all.take(i as int));
                assert(all.take(i + 1).last() == all[i as int]);
                push_unique_path(paths, trim(parts[i].as_str()));
            }
            assert(all.take(n as int) =~= all);
        },
        _ => {},
    }
}

/// The directories in which `source` looks for a file: those that are set, then further
/// ones, each once.
pub fn seed_lib_dirs(existing: &Option<NuValue>, separator: char, further: &Vec<String>) -> (paths:
    Vec<String>)
    ensures
        texts(paths@) == with_paths(
            with_paths(Seq::empty(), listed_paths(*existing, separator)),
            texts(further@),
        ),
{
    let mut paths: Vec<String> = Vec::new();
    assert(texts(paths@) =~= Seq::empty());
    collect_existing_lib_dirs(existing, separator, &mut paths);
    let ghost start = texts(paths@);
    let ghost all = texts(further@);
    let n: usize = further.len();
    assert(all.take(0) =~= Seq::empty());
    for i in 0..n
        invariant
            n == further@.len(),
            all == texts(further@),
            texts(paths@) == with_paths(start, all.take(i as int)),
    {
        assert(all.take(i + 1).drop_last() =~= all.take(i as int));
        assert(all.take(i + 1).last() == further@[i as int]@);
        push_unique_path(&mut paths, further[i].clone());
    }
    assert(all.take(n as int) =~= all);
    paths
}

/// Paths stay distinct and none becomes empty when others are put behind them; each of
/// the others that is not empty is there at the end, and those that were there stay where
/// they were.
pub proof fn law_paths_stay_distinct(paths: Seq<Seq<char>>, more: Seq<Seq<char>>)
    requires
        paths.no_duplicates(),
        forall|i: int| 0 <= i < paths.len() ==> (#[trigger] paths[i]).len() > 0,
    ensures
        with_paths(paths, more).no_duplicates(),
        forall|i: int|
            0 <= i < with_paths(paths, more).len() ==> (
            #[trigger] with_paths(paths, more)[i]).len() > 0,
        forall|i: int|
            0 <= i < more.len() && (#[trigger] more[i]).len() > 0 ==> with_paths(
                paths,
                more,
            ).contains(more[i]),
        paths.is_prefix_of(with_paths(paths, more)),
    decreases more.len(),
{
    if more.len() > 0 {
        let front = more.drop_last();
        law_paths_stay_distinct(paths, front);
        let before = with_paths(paths, front);
        let all = with_paths(paths, more);
        assert forall|i: int| 0 <= i < more.len() && (#[trigger] more[i]).len() > 0 implies all.contains(
            more[i],
        ) by {
            if i < front.len() {
                assert(before.contains(front[i]));
                let k = choose|k: int| 0 <= k < before.len() && before[k] == front[i];
                assert(all[k] == more[i]);
            } else if !before.contains(more[i]) {
                assert(all[all.len() - 1] == more[i]);
            }
        }
    }
}

// ---------------------------------------------------------------------------------------
// Laws on reports

/// A report carries the whole source and the first error. The source is complete exactly
/// when it looks so and no error speaks of an early end.
pub proof fn law_report_tells_the_first_error(source: Seq<char>, errors: Seq<Seq<char>>)
    ensures
        report_of(source, errors).source == source,
        errors.len() == 0 ==> report_of(source, errors).error is None,
        errors.len() > 0 ==> report_of(source, errors).error == Some(errors[0]),
        report_of(source, errors).complete <==> looks_complete(source) && forall|i: int|
            0 <= i < errors.len() ==> !occurs_in(lowercase(#[trigger] errors[i]), "unexpected end"@)
                && !occurs_in(lowercase(errors[i]), "unexpected eof"@) && !occurs_in(
                lowercase(errors[i]),
                "incomplete"@,
            ) && !occurs_in(lowercase(errors[i]), "unclosed"@),
{
    let complete = report_of(source, errors).complete;
    if looks_complete(source) && forall|i: int|
        0 <= i < errors.len() ==> !occurs_in(lowercase(#[trigger] errors[i]), "unexpected end"@)
            && !occurs_in(lowercase(errors[i]), "unexpected eof"@) && !occurs_in(
            lowercase(errors[i]),
            "incomplete"@,
        ) && !occurs_in(lowercase(errors[i]), "unclosed"@) {
        assert forall|i: int| 0 <= i < errors.len() implies !ends_early(#[trigger] errors[i]) by {}
    }
    if complete {
        assert forall|i: int| 0 <= i < errors.len() implies !occurs_in(
            lowercase(#[trigger] errors[i]),
            "unexpected end"@,
        ) && !occurs_in(lowercase(errors[i]), "unexpected eof"@) && !occurs_in(
            lowercase(errors[i]),
            "incomplete"@,
        ) && !occurs_in(lowercase(errors[i]), "unclosed"@) by {
            assert(!ends_early(errors[i]));
        }
    }
}

/// Each further character counts as an opening or a closing bracket exactly when it is one.
pub proof fn law_brackets_are_counted(s: Seq<char>, c: char)
    ensures
        opening(Seq::empty()) == 0,
        closing(Seq::empty()) == 0,
        opening(s.push(c)) == opening(s) + (if c == '{' || c == '(' || c == '[' {
            1nat
        } else {
            0nat
        }),
        closing(s.push(c)) == closing(s) + (if c == '}' || c == ')' || c == ']' {
            1nat
        } else {
            0nat
        }),
{
    assert(s.push(c).drop_last() =~= s);
    assert(s.push(c).last() == c);
}

/// A source without white space at its ends is complete exactly when it is not empty, ends
/// in neither a pipe nor `out>`, and opens no more brackets than it closes.
pub proof fn law_what_completes_a_source(text: Seq<char>)
    requires
        trimmed(text) == text,
    ensures
        text.len() == 0 ==> !looks_complete(text),
        text.len() > 0 && text[text.len() - 1] == '|' ==> !looks_complete(text),
        text.len() >= 4 && text.subrange(text.len() - 4, text.len() as int) == "out>"@
            ==> !looks_complete(text),
        opening(text) > closing(text) ==> !looks_complete(text),
        text.len() > 0 && text[text.len() - 1] != '|' && (text.len() < 4 || text.subrange(
            text.len() - 4,
            text.len() as int,
        ) != "out>"@) && opening(text) <= closing(text) ==> looks_complete(text),
{
    reveal_strlit("out>");
}

/// What an evaluation ended with decides the status, the exit code and the body: a value
/// succeeds with its own body, a stream that breaks off succeeds with its error, and an
/// error fails, unless it speaks of an interrupt.
pub proof fn law_outcomes_decide_the_report(
    id: ResultId,
    source: Seq<char>,
    duration: Duration,
    outcome: EvalOutcome,
    unit: DurationUnit,
)
    ensures
        ({
            let report = invocation_report(id, source, duration, outcome, unit);
            &&& report.id == id && report.source == source && report.duration == duration
            &&& outcome matches EvalOutcome::Value(value) ==> report.status
                == ResultStatus::Succeeded && report.exit_code == 0 && report.body == body_of(
                value,
                unit,
                8,
            )
            &&& outcome matches EvalOutcome::Broken(error) ==> report.status
                == ResultStatus::Succeeded && report.exit_code == 0 && report.body
                == BodyView::Diagnostic(error@)
            &&& outcome matches EvalOutcome::Refused(error) ==> report.status
                == ResultStatus::Failed && report.exit_code == 1 && report.body
                == BodyView::Diagnostic(error@)
            &&& outcome matches EvalOutcome::Raised(error) ==> report.exit_code == 1 && report.body
                == BodyView::Diagnostic(error@) && (report.status == ResultStatus::Interrupted
                <==> occurs_in(lowercase(error@), "interrupt"@)) && (report.status
                == ResultStatus::Failed <==> !occurs_in(lowercase(error@), "interrupt"@))
        }),
{
}

/// The paths that a value lists: of a list its texts in their order, of a text its trimmed
/// pieces between the separators, of anything else none.
pub proof fn law_listed_paths(items: Vec<NuValue>, text: NuValue, separator: char)
    requires
        text is Text,
        forall|i: int| 0 <= i < items@.len() ==> (#[trigger] items@[i]) is Text,
    ensures
        listed_paths(Some(NuValue::List { vals: items }), separator) == Seq::new(
            items@.len(),
            |i: int| items@[i]->Text_val@,
        ),
        listed_paths(Some(text), separator).len() == pieces(
            text->Text_val@,
            separator,
            separator,
        ).len(),
        forall|i: int|
            0 <= i < listed_paths(Some(text), separator).len() ==> #[trigger] listed_paths(
                Some(text),
                separator,
            )[i] == trimmed(pieces(text->Text_val@, separator, separator)[i]),
        listed_paths(None, separator).len() == 0,
{
    lemma_text_items(items@);
}

proof fn lemma_text_items(vals: Seq<NuValue>)
    requires
        forall|i: int| 0 <= i < vals.len() ==> (#[trigger] vals[i]) is Text,
    ensures
        text_items(vals) == Seq::new(vals.len(), |i: int| vals[i]->Text_val@),
    decreases vals.len(),
{
    if vals.len() > 0 {
        let front = vals.drop_last();
        assert forall|i: int| 0 <= i < front.len() implies (#[trigger] front[i]) is Text by {
            assert(front[i] == vals[i]);
        }
        lemma_text_items(front);
        assert(vals[vals.len() - 1] is Text);
    }
    assert(text_items(vals) =~= Seq::new(vals.len(), |i: int| vals[i]->Text_val@));
}

/// A color entry that is a text names itself; a record names the text in its first field
/// `fg`; anything else names nothing.
pub proof fn law_color_entries_name_their_color(v: NuValue)
    ensures
        v is Text ==> color_named(v) == Some(v->Text_val@),
        v is Record ==> match field_place(v->Record_val@, "fg"@) {
            Some(i) => color_named(v) == (match v->Record_val@[i].value {
                NuValue::Text { val, .. } => Some(val@),
                _ => None,
            }),
            None => color_named(v) is None,
        },
        !(v is Text) && !(v is Record) ==> color_named(v) is None,
{
}

/// Where every entry of a color configuration is a text, the snapshot has each entry with
/// its text.
pub proof fn law_color_entries_are_kept(entries: Seq<Field>)
    requires
        forall|i: int| 0 <= i < entries.len() ==> (#[trigger] entries[i]).value is Text,
    ensures
        named_colors(entries) == Seq::new(
            entries.len(),
            |i: int| (entries[i].name@, entries[i].value->Text_val@),
        ),
    decreases entries.len(),
{
    if entries.len() > 0 {
        let front = entries.drop_last();
        assert forall|i: int| 0 <= i < front.len() implies (#[trigger] front[i]).value is Text by {
            assert(front[i] == entries[i]);
        }
        law_color_entries_are_kept(front);
        assert(entries[entries.len() - 1].value is Text);
    }
    assert(named_colors(entries) =~= Seq::new(
        entries.len(),
        |i: int| (entries[i].name@, entries[i].value->Text_val@),
    ));
}

/// What the parser may say of a source is what a call of it on that very source, whole and in
/// that engine's state, may return, and nothing else.
proof fn law_the_parser_hears_the_whole_source(
    engine_state: &nu_protocol::engine::EngineState,
    source: &str,
    list: Vec<String>,
    errors: Seq<Seq<char>>,
)
    ensures
        call_ensures(parse_errors, (engine_state, source), list) ==> parser_may_say(
            engine_state,
            source,
            texts(list@),
        ),
        parser_may_say(engine_state, source, errors) ==> exists|said: Vec<String>|
            call_ensures(parse_errors, (engine_state, source), said) && #[trigger] texts(said@)
                == errors,
{
}

/// Of some values the texts are gathered in their order, and any other value is left out.
pub proof fn law_texts_are_gathered_in_order(vals: Seq<NuValue>, v: NuValue)
    ensures
        v matches NuValue::Text { val, .. } ==> text_items(vals.push(v)) == text_items(vals).push(
            val@,
        ),
        !(v is Text) ==> text_items(vals.push(v)) == text_items(vals),
        text_items(Seq::empty()).len() == 0,
{
    assert(vals.push(v).drop_last() =~= vals);
}

/// The style of each kind of cell has its own name, and what has no kind is a string.
pub proof fn law_styles_are_named_by_kind()
    ensures
        style_name(CellKind::Text) == "string"@,
        style_name(CellKind::Int) == "int"@,
        style_name(CellKind::Float) == "float"@,
        style_name(CellKind::Bool) == "bool"@,
        style_name(CellKind::Filesize) == "filesize"@,
        style_name(CellKind::Duration) == "duration"@,
        style_name(CellKind::Date) == "datetime"@,
        style_name(CellKind::Empty) == "empty"@,
        style_name(CellKind::Other) == "string"@,
{
}

} // verus!
