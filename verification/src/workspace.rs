//! The state of one Session window.

use crate::ansi::{ansi_like, looks_like_ansi};
use crate::engine::{
    looks_complete, no_snapshot, source_looks_complete, EngineEvent, EngineHandle, EngineSnapshot,
    EvalReport, EvalView, EventView, ParseReport, ParseView, RequestView, SnapshotView,
    DEFAULT_RESULT_CAP,
};
use crate::export::{copied, copy_result, format_name, CopyFormat};
use crate::listing::{plain_look, text_option, TableLook, TableView};
use crate::cells::store_option;
use crate::panels::{drawn_lines, scroll_lines};
use crate::paths;
use crate::paths::{
    expansion_views, expansions_of, flipped, keys_that_lead, leading_keys, nested_store, opened,
    toggled, Expansion, KeySet,
};
use crate::result::{
    nests, pairs_store, running_view, BodyView, InvocationResult, InvocationView, ResultBody,
    ResultId, ResultStatus, ResultStore, StoreView,
};
use crate::text::{contains_char, lines, lines_of, str_eq, texts, trim, trimmed};
use std::collections::HashMap;
use std::time::Duration;
use vstd::prelude::*;

verus! {

broadcast use vstd::std_specs::hash::group_hash_axioms;

/// One window's Session: its engine, its Results and what is open in it.
pub struct Workspace {
    pub engine: EngineHandle,
    pub results: Vec<InvocationResult>,
    pub next_id: u64,
    pub history: Vec<String>,
    pub parse: Option<ParseReport>,
    pub nu_version: String,
    pub cwd: String,
    pub busy: bool,
    pub help_open: bool,
    pub history_open: bool,
    pub variables_open: bool,
    pub last_exit: Option<i64>,
    pub last_duration: Option<Duration>,
    pub snapshot: EngineSnapshot,
    /// The lines of the Results that show a text of several lines.
    pub text_lines: HashMap<u64, Vec<String>>,
    /// Nested cells expanded inline under their parent row. Keys: `{path}/{row}/{col}`.
    pub inline_expand: KeySet,
    pub help_commands: ResultStore,
    pub variables: ResultStore,
    pub var_expand: KeySet,
    pub settings_open: bool,
    pub copy_status: String,
}

/// A Session as characters, numbers and sets.
pub struct SessionView {
    pub requests: Seq<RequestView>,
    pub stopping: bool,
    pub results: Seq<InvocationView>,
    pub next_id: u64,
    pub history: Seq<Seq<char>>,
    pub parse: Option<ParseView>,
    pub nu_version: Seq<char>,
    pub cwd: Seq<char>,
    pub busy: bool,
    pub help_open: bool,
    pub history_open: bool,
    pub variables_open: bool,
    pub last_exit: Option<i64>,
    pub last_duration: Option<Duration>,
    pub snapshot: SnapshotView,
    pub text_lines: Map<u64, Seq<Seq<char>>>,
    pub inline_expand: Set<Seq<char>>,
    pub help_commands: StoreView,
    pub variables: StoreView,
    pub var_expand: Set<Seq<char>>,
    pub settings_open: bool,
    pub copy_status: Seq<char>,
}

/// Results as characters and numbers.
pub open spec fn result_views(results: Seq<InvocationResult>) -> Seq<InvocationView> {
    results.map_values(|result: InvocationResult| result@)
}

/// Lines as characters.
pub open spec fn line_views(cache: Map<u64, Vec<String>>) -> Map<u64, Seq<Seq<char>>> {
    cache.map_values(|lines: Vec<String>| texts(lines@))
}

/// A parse report that may be there.
pub open spec fn report_option(report: Option<ParseReport>) -> Option<ParseView> {
    match report {
        Some(report) => Some(report@),
        None => None,
    }
}

impl View for Workspace {
    type V = SessionView;

    open spec fn view(&self) -> SessionView {
        SessionView {
            requests: self.engine.requests(),
            stopping: self.engine.stopping(),
            results: result_views(self.results@),
            next_id: self.next_id,
            history: texts(self.history@),
            parse: report_option(self.parse),
            nu_version: self.nu_version@,
            cwd: self.cwd@,
            busy: self.busy,
            help_open: self.help_open,
            history_open: self.history_open,
            variables_open: self.variables_open,
            last_exit: self.last_exit,
            last_duration: self.last_duration,
            snapshot: self.snapshot@,
            text_lines: line_views(self.text_lines@),
            inline_expand: self.inline_expand@,
            help_commands: self.help_commands@,
            variables: self.variables@,
            var_expand: self.var_expand@,
            settings_open: self.settings_open,
            copy_status: self.copy_status@,
        }
    }
}

// ---------------------------------------------------------------------------------------
// What every step keeps

/// Whether Results carry rising identifiers, all below the next one.
pub open spec fn numbered(results: Seq<InvocationView>, next_id: u64) -> bool {
    &&& forall|i: int, j: int|
        0 <= i < j < results.len() ==> (#[trigger] results[i]).id.0 < (#[trigger] results[j]).id.0
    &&& forall|i: int| 0 <= i < results.len() ==> (#[trigger] results[i]).id.0 < next_id
}

/// Whether a Result carries an identifier.
pub open spec fn holds_id(results: Seq<InvocationView>, id: u64) -> bool {
    exists|i: int| 0 <= i < results.len() && (#[trigger] results[i]).id.0 == id
}

/// What holds of a Session at every step: it keeps no more Results than the cap, they
/// carry rising identifiers, and lines are kept only for Results that are.
pub open spec fn sound(session: SessionView) -> bool {
    &&& session.results.len() <= DEFAULT_RESULT_CAP
    &&& numbered(session.results, session.next_id)
    &&& forall|id: u64| #[trigger]
        session.text_lines.contains_key(id) ==> holds_id(session.results, id)
}

impl Workspace {
    /// Whether the Session is sound, and its sets of keys are in order.
    pub open spec fn wf(&self) -> bool {
        &&& sound(self@)
        &&& self.inline_expand.wf()
        &&& self.var_expand.wf()
    }
}

// ---------------------------------------------------------------------------------------
// Steps

/// Results with none expanded but the one with an identifier, if any.
pub open spec fn only_expanded(results: Seq<InvocationView>, id: Option<ResultId>) -> Seq<
    InvocationView,
> {
    results.map_values(
        |result: InvocationView| InvocationView { expanded: id == Some(result.id), ..result },
    )
}

/// The newest Results up to the cap, and the lines of those.
pub open spec fn capped(
    results: Seq<InvocationView>,
    cache: Map<u64, Seq<Seq<char>>>,
) -> (Seq<InvocationView>, Map<u64, Seq<Seq<char>>>)
    decreases results.len(),
{
    if results.len() > DEFAULT_RESULT_CAP {
        capped(results.drop_first(), cache.remove(results[0].id.0))
    } else {
        (results, cache)
    }
}

/// A Session after a source was submitted.
pub open spec fn submitted(session: SessionView, source: Seq<char>) -> SessionView {
    let id = ResultId(session.next_id);
    let (results, text_lines) = capped(
        only_expanded(session.results, None).push(running_view(id, source)),
        session.text_lines,
    );
    SessionView {
        requests: session.requests.push(RequestView::Eval { id, source }),
        stopping: false,
        results,
        text_lines,
        next_id: (session.next_id + 1) as u64,
        history: session.history.push(source),
        inline_expand: Set::empty(),
        busy: true,
        ..session
    }
}

/// The text of a body that shows as lines.
pub open spec fn long_text(body: BodyView) -> Option<Seq<char>> {
    match body {
        BodyView::Text(text) => if text.contains('\n') {
            Some(text)
        } else {
            None
        },
        BodyView::Diagnostic(text) => if text.contains('\n') {
            Some(text)
        } else {
            None
        },
        BodyView::Scalar(text) => if text.contains('\n') {
            Some(text)
        } else {
            None
        },
        _ => None,
    }
}

/// A Result once its Invocation is over.
pub open spec fn finished(result: InvocationView, report: EvalView) -> InvocationView {
    InvocationView {
        status: report.status,
        duration: Some(report.duration),
        exit_code: Some(report.exit_code),
        body: report.body,
        view: match report.body {
            BodyView::Table(store) => plain_look(store.columns.len()),
            _ => result.view,
        },
        ..result
    }
}

/// The place of the first Result with an identifier.
pub open spec fn place_of(results: Seq<InvocationView>, id: ResultId) -> Option<int>
    decreases results.len(),
{
    if results.len() == 0 {
        None
    } else {
        match place_of(results.drop_last(), id) {
            Some(i) => Some(i),
            None => if results.last().id == id {
                Some(results.len() - 1)
            } else {
                None
            },
        }
    }
}

/// A Session after an Invocation is over.
pub open spec fn evaluated(session: SessionView, report: EvalView) -> SessionView {
    let place = place_of(session.results, report.id);
    SessionView {
        busy: false,
        last_exit: Some(report.exit_code),
        last_duration: Some(report.duration),
        results: match place {
            Some(i) => session.results.update(i, finished(session.results[i], report)),
            None => session.results,
        },
        text_lines: match (place, long_text(report.body)) {
            (Some(_), Some(text)) => if session.text_lines.contains_key(report.id.0) {
                session.text_lines
            } else {
                session.text_lines.insert(report.id.0, lines_of(text))
            },
            _ => session.text_lines,
        },
        requests: if session.variables_open {
            session.requests.push(RequestView::ScopeVariables)
        } else {
            session.requests
        },
        ..session
    }
}

/// The Result that tells of an engine that broke down.
pub open spec fn failed_view(id: ResultId, message: Seq<char>) -> InvocationView {
    InvocationView {
        status: ResultStatus::Failed,
        exit_code: Some(1),
        body: BodyView::Diagnostic(message),
        ..running_view(id, Seq::empty())
    }
}

/// A Session after a message of the engine.
pub open spec fn after_event(session: SessionView, event: EventView) -> SessionView {
    match event {
        EventView::Ready(snapshot) => SessionView {
            nu_version: snapshot.nu_version,
            snapshot,
            requests: session.requests.push(RequestView::ScopeCommands).push(
                RequestView::ScopeVariables,
            ),
            ..session
        },
        EventView::Parse(report) => SessionView { parse: Some(report), ..session },
        EventView::ScopeCommands(store) => SessionView { help_commands: store, ..session },
        EventView::ScopeVariables(store) => SessionView { variables: store, ..session },
        EventView::Eval(report) => evaluated(session, report),
        EventView::Failed(message) => {
            let (results, text_lines) = capped(
                session.results.push(failed_view(ResultId(session.next_id), message)),
                session.text_lines,
            );
            SessionView {
                busy: false,
                results,
                text_lines,
                next_id: (session.next_id + 1) as u64,
                ..session
            }
        },
    }
}

proof fn lemma_capped(
    results: Seq<InvocationView>,
    cache: Map<u64, Seq<Seq<char>>>,
    next_id: u64,
)
    requires
        numbered(results, next_id),
        forall|id: u64| #[trigger] cache.contains_key(id) ==> holds_id(results, id),
    ensures
        ({
            let (kept, lines) = capped(results, cache);
            &&& kept.len() <= DEFAULT_RESULT_CAP
            &&& numbered(kept, next_id)
            &&& forall|id: u64| #[trigger] lines.contains_key(id) ==> holds_id(kept, id)
            &&& results.len() > 0 ==> kept.len() > 0 && kept.last() == results.last()
            &&& kept == results.skip(results.len() - kept.len())
        }),
    decreases results.len(),
{
    if results.len() > DEFAULT_RESULT_CAP {
        let rest = results.drop_first();
        let lines = cache.remove(results[0].id.0);
        assert(numbered(rest, next_id)) by {
            assert forall|i: int, j: int| 0 <= i < j < rest.len() implies (#[trigger] rest[i]).id.0
                < (#[trigger] rest[j]).id.0 by {
                assert(rest[i] == results[i + 1] && rest[j] == results[j + 1]);
            }
            assert forall|i: int| 0 <= i < rest.len() implies (#[trigger] rest[i]).id.0
                < next_id by {
                assert(rest[i] == results[i + 1]);
            }
        }
        assert forall|id: u64| #[trigger] lines.contains_key(id) implies holds_id(rest, id) by {
            assert(cache.contains_key(id));
            let i = choose|i: int| 0 <= i < results.len() && (#[trigger] results[i]).id.0 == id;
            assert(i != 0);
            assert(rest[i - 1] == results[i]);
        }
        lemma_capped(rest, lines, next_id);
        let kept = capped(rest, lines).0;
        assert(kept =~= results.skip(results.len() - kept.len()));
    } else {
        assert(results =~= results.skip(0));
    }
}

proof fn lemma_numbered_push(results: Seq<InvocationView>, next_id: u64, result: InvocationView)
    requires
        numbered(results, next_id),
        next_id < u64::MAX,
        result.id == ResultId(next_id),
    ensures
        numbered(results.push(result), (next_id + 1) as u64),
        forall|id: u64| #[trigger] holds_id(results, id) ==> holds_id(results.push(result), id),
{
    let all = results.push(result);
    assert forall|id: u64| #[trigger] holds_id(results, id) implies holds_id(all, id) by {
        let i = choose|i: int| 0 <= i < results.len() && (#[trigger] results[i]).id.0 == id;
        assert(all[i] == results[i]);
    }
}

proof fn lemma_same_ids(before: Seq<InvocationView>, after: Seq<InvocationView>, next_id: u64)
    requires
        numbered(before, next_id),
        before.len() == after.len(),
        forall|i: int| 0 <= i < before.len() ==> (#[trigger] after[i]).id == before[i].id,
    ensures
        numbered(after, next_id),
        forall|id: u64| #[trigger] holds_id(before, id) ==> holds_id(after, id),
{
    assert forall|i: int, j: int| 0 <= i < j < after.len() implies (#[trigger] after[i]).id.0 < (
    #[trigger] after[j]).id.0 by {
        assert(after[i].id == before[i].id && after[j].id == before[j].id);
    }
    assert forall|id: u64| #[trigger] holds_id(before, id) implies holds_id(after, id) by {
        let i = choose|i: int| 0 <= i < before.len() && (#[trigger] before[i]).id.0 == id;
        assert(after[i].id == before[i].id);
    }
}

proof fn lemma_place_of(results: Seq<InvocationView>, id: ResultId)
    ensures
        place_of(results, id) matches Some(i) ==> 0 <= i < results.len() && results[i].id == id,
        place_of(results, id) is None ==> forall|i: int|
            0 <= i < results.len() ==> (#[trigger] results[i]).id != id,
    decreases results.len(),
{
    if results.len() > 0 {
        lemma_place_of(results.drop_last(), id);
        if place_of(results, id) is None {
            assert forall|i: int| 0 <= i < results.len() implies (#[trigger] results[i]).id
                != id by {
                if i < results.len() - 1 {
                    assert(results.drop_last()[i] == results[i]);
                }
            }
        }
    }
}

/// Every submission and every message of the engine keeps a Session sound, as long as
/// there are identifiers left.
pub proof fn law_steps_keep_a_session_sound(
    session: SessionView,
    source: Seq<char>,
    event: EventView,
)
    requires
        sound(session),
        session.next_id < u64::MAX,
    ensures
        sound(submitted(session, source)),
        sound(after_event(session, event)),
{
    let next = (session.next_id + 1) as u64;
    let id = ResultId(session.next_id);
    let calm = only_expanded(session.results, None);
    lemma_same_ids(session.results, calm, session.next_id);
    lemma_numbered_push(calm, session.next_id, running_view(id, source));
    assert forall|id: u64| #[trigger] session.text_lines.contains_key(id) implies holds_id(
        calm.push(running_view(ResultId(session.next_id), source)),
        id,
    ) by {
        assert(holds_id(session.results, id));
        assert(holds_id(calm, id));
    }
    lemma_capped(calm.push(running_view(id, source)), session.text_lines, next);
    match event {
        EventView::Eval(report) => {
            let after = evaluated(session, report);
            lemma_place_of(session.results, report.id);
            lemma_same_ids(session.results, after.results, session.next_id);
            assert forall|id: u64| #[trigger] after.text_lines.contains_key(id) implies holds_id(
                after.results,
                id,
            ) by {
                if session.text_lines.contains_key(id) {
                    assert(holds_id(session.results, id));
                } else {
                    let i = place_of(session.results, report.id)->0;
                    assert(after.results[i].id.0 == id);
                }
            }
        },
        EventView::Failed(message) => {
            lemma_numbered_push(session.results, session.next_id, failed_view(id, message));
            assert forall|id: u64| #[trigger] session.text_lines.contains_key(id) implies holds_id(
                session.results.push(failed_view(ResultId(session.next_id), message)),
                id,
            ) by {
                assert(holds_id(session.results, id));
            }
            lemma_capped(
                session.results.push(failed_view(id, message)),
                session.text_lines,
                next,
            );
        },
        _ => {},
    }
}

/// After a submission the new Result is the last one and the only one expanded, and the
/// Session is busy with it.
pub proof fn law_submission_comes_last_and_open(session: SessionView, source: Seq<char>)
    requires
        sound(session),
        session.next_id < u64::MAX,
    ensures
        ({
            let after = submitted(session, source);
            &&& after.busy
            &&& after.results.len() > 0
            &&& after.results.last() == running_view(ResultId(session.next_id), source)
            &&& forall|i: int|
                0 <= i < after.results.len() - 1 ==> !(#[trigger] after.results[i]).expanded
            &&& after.history.last() == source
        }),
{
    let id = ResultId(session.next_id);
    let calm = only_expanded(session.results, None);
    lemma_same_ids(session.results, calm, session.next_id);
    lemma_numbered_push(calm, session.next_id, running_view(id, source));
    assert forall|id: u64| #[trigger] session.text_lines.contains_key(id) implies holds_id(
        calm.push(running_view(ResultId(session.next_id), source)),
        id,
    ) by {
        assert(holds_id(session.results, id));
        assert(holds_id(calm, id));
    }
    let all = calm.push(running_view(id, source));
    lemma_capped(all, session.text_lines, (session.next_id + 1) as u64);
    let kept = submitted(session, source).results;
    assert forall|i: int| 0 <= i < kept.len() - 1 implies !(#[trigger] kept[i]).expanded by {
        assert(kept[i] == all[i + all.len() - kept.len()]);
    }
}

// ---------------------------------------------------------------------------------------
// Doing the steps

/// A Session before anything happened in it.
pub open spec fn fresh_session(requests: Seq<RequestView>, stopping: bool, cwd: Seq<char>) -> SessionView {
    SessionView {
        requests,
        stopping,
        results: Seq::empty(),
        next_id: 1,
        history: Seq::empty(),
        parse: None,
        nu_version: "…"@,
        cwd,
        busy: false,
        help_open: true,
        history_open: false,
        variables_open: false,
        last_exit: None,
        last_duration: None,
        snapshot: no_snapshot(),
        text_lines: Map::empty(),
        inline_expand: Set::empty(),
        help_commands: StoreView { columns: Seq::empty(), rows: Seq::empty() },
        variables: StoreView { columns: Seq::empty(), rows: Seq::empty() },
        var_expand: Set::empty(),
        settings_open: false,
        copy_status: Seq::empty(),
    }
}

fn expand_only(results: &mut Vec<InvocationResult>, id: Option<ResultId>)
    ensures
        result_views(final(results)@) == only_expanded(result_views(old(results)@), id),
{
    let n: usize = results.len();
    let ghost before = result_views(results@);
    for i in 0..n
        invariant
            n == results@.len(),
            before.len() == n,
            forall|k: int|
                0 <= k < i ==> (#[trigger] results@[k])@ == only_expanded(before, id)[k],
            forall|k: int| i <= k < n ==> (#[trigger] results@[k])@ == before[k],
    {
        assert(results@[i as int]@ == before[i as int]);
        let open = match id {
            Some(id) => results[i].id == id,
            None => false,
        };
        results[i].expanded = open;
        assert(results@[i as int]@ == only_expanded(before, id)[i as int]);
    }
    assert(result_views(results@) =~= only_expanded(before, id));
}

fn keep_newest(results: &mut Vec<InvocationResult>, cache: &mut HashMap<u64, Vec<String>>)
    ensures
        (result_views(final(results)@), line_views(final(cache)@)) == capped(
            result_views(old(results)@),
            line_views(old(cache)@),
        ),
{
    let ghost goal = capped(result_views(results@), line_views(cache@));
    while results.len() > DEFAULT_RESULT_CAP
        invariant
            capped(result_views(results@), line_views(cache@)) == goal,
        decreases results.len(),
    {
        let ghost before = result_views(results@);
        let ghost held = line_views(cache@);
        let removed = results.remove(0);
        assert(before[0] == removed@);
        assert(result_views(results@) =~= before.drop_first());
        cache.remove(&removed.id.0);
        assert(line_views(cache@) =~= held.remove(removed.id.0));
    }
}

impl Workspace {
    /// A Session over an engine, in a directory.
    pub fn new(engine: EngineHandle, cwd: String) -> (session: Self)
        ensures
            session.wf(),
            session@ == fresh_session(engine.requests(), engine.stopping(), cwd@),
    {
        let session = Workspace {
            engine,
            results: Vec::new(),
            next_id: 1,
            history: Vec::new(),
            parse: None,
            nu_version: "…".to_owned(),
            cwd,
            busy: false,
            help_open: true,
            history_open: false,
            variables_open: false,
            last_exit: None,
            last_duration: None,
            snapshot: EngineSnapshot::default(),
            text_lines: HashMap::new(),
            inline_expand: KeySet::new(),
            help_commands: ResultStore::default(),
            variables: ResultStore::default(),
            var_expand: KeySet::new(),
            settings_open: false,
            copy_status: String::new(),
        };
        proof {
            assert(session@.results =~= Seq::empty());
            assert(session@.history =~= Seq::empty());
            assert(session@.text_lines =~= Map::empty());
        }
        session
    }

    /// Takes a message of the engine.
    pub fn apply_event(&mut self, event: EngineEvent)
        requires
            old(self).wf(),
            old(self)@.next_id < u64::MAX,
        ensures
            final(self).wf(),
            final(self)@ == after_event(old(self)@, event@),
    {
        proof {
            law_steps_keep_a_session_sound(self@, Seq::empty(), event@);
        }
        match event {
            EngineEvent::Ready(snapshot) => {
                self.nu_version = snapshot.nu_version.clone();
                self.snapshot = snapshot;
                self.engine.scope_commands();
                self.engine.scope_variables();
            },
            EngineEvent::Parse(report) => {
                self.parse = Some(report);
            },
            EngineEvent::ScopeCommands(store) => {
                self.help_commands = store;
            },
            EngineEvent::ScopeVariables(store) => {
                self.variables = store;
            },
            EngineEvent::Eval(report) => {
                self.finish_eval(report);
            },
            EngineEvent::Failed(message) => {
                self.busy = false;
                let ghost before = self.results@;
                let mut result = InvocationResult::running(ResultId(self.next_id), "");
                proof {
                    reveal_strlit("");
                    assert(""@ =~= Seq::<char>::empty());
                }
                result.status = ResultStatus::Failed;
                result.exit_code = Some(1);
                result.body = ResultBody::Diagnostic(message);
                assert(result@ == failed_view(ResultId(self.next_id), message@));
                self.results.push(result);
                assert(result_views(self.results@) =~= result_views(before).push(result@));
                self.next_id = self.next_id + 1;
                keep_newest(&mut self.results, &mut self.text_lines);
            },
        }
        assert(self@ == after_event(old(self)@, event@));
    }

    fn finish_eval(&mut self, report: EvalReport)
        ensures
            final(self)@ == evaluated(old(self)@, report@),
            final(self).inline_expand == old(self).inline_expand,
            final(self).var_expand == old(self).var_expand,
    {
        self.busy = false;
        self.last_exit = Some(report.exit_code);
        self.last_duration = Some(report.duration);
        let ghost before = result_views(self.results@);
        let id = report.id;
        let ghost told = report@;
        match find_result(&self.results, id) {
            Some(i) => {
                let text = text_to_cache(&report.body);
                let mut result = self.results.remove(i);
                assert(result@ == before[i as int]);
                result.status = report.status;
                result.duration = Some(report.duration);
                result.exit_code = Some(report.exit_code);
                result.body = report.body;
                if let ResultBody::Table(store) = &result.body {
                    result.view = TableView::for_columns(store.columns.len());
                    assert(texts(store.columns@).len() == store.columns@.len());
                }
                assert(result@ == finished(before[i as int], told));
                self.results.insert(i, result);
                assert(result_views(self.results@) =~= before.update(
                    i as int,
                    finished(before[i as int], told),
                ));
                if let Some(text) = text {
                    self.cache_text_lines(id, text.as_str());
                }
            },
            None => {},
        }
        if self.variables_open {
            self.engine.scope_variables();
        }
        assert(self@ == evaluated(old(self)@, told));
    }

    fn cache_text_lines(&mut self, id: ResultId, text: &str)
        ensures
            final(self)@ == (SessionView {
                text_lines: if old(self)@.text_lines.contains_key(id.0) {
                    old(self)@.text_lines
                } else {
                    old(self)@.text_lines.insert(id.0, lines_of(text@))
                },
                ..old(self)@
            }),
            final(self).inline_expand == old(self).inline_expand,
            final(self).var_expand == old(self).var_expand,
    {
        if self.text_lines.contains_key(&id.0) {
            return;
        }
        let kept = lines(text);
        let ghost held = line_views(self.text_lines@);
        self.text_lines.insert(id.0, kept);
        assert(line_views(self.text_lines@) =~= held.insert(id.0, lines_of(text@)));
    }

    /// Runs a source.
    pub fn submit(&mut self, source: &str)
        requires
            old(self).wf(),
            old(self)@.next_id < u64::MAX,
        ensures
            final(self).wf(),
            final(self)@ == submitted(old(self)@, source@),
    {
        proof {
            law_steps_keep_a_session_sound(
                self@,
                source@,
                EventView::Failed(Seq::empty()),
            );
        }
        expand_only(&mut self.results, None);
        let id = ResultId(self.next_id);
        self.next_id = self.next_id + 1;
        let ghost before = self.results@;
        let result = InvocationResult::running(id, source);
        let ghost shown = result@;
        self.results.push(result);
        assert(result_views(self.results@) =~= result_views(before).push(shown));
        keep_newest(&mut self.results, &mut self.text_lines);
        let ghost told = self.history@;
        self.history.push(source.to_owned());
        assert(texts(self.history@) =~= texts(told).push(source@));
        self.inline_expand.clear();
        self.busy = true;
        self.engine.eval(id, source);
        assert(self@ == submitted(old(self)@, source@));
    }
}

/// Looks for the first Result with an identifier.
fn find_result(results: &Vec<InvocationResult>, id: ResultId) -> (place: Option<usize>)
    ensures
        match place {
            Some(i) => place_of(result_views(results@), id) == Some(i as int),
            None => place_of(result_views(results@), id) is None,
        },
        place is Some ==> place->0 < results@.len(),
{
    let n: usize = results.len();
    let ghost all = result_views(results@);
    assert(all.take(0) =~= Seq::empty());
    for i in 0..n
        invariant
            n == results@.len(),
            all == result_views(results@),
            place_of(all.take(i as int), id) is None,
    {
        assert(all.take(i + 1).drop_last() =~= all.take(i as int));
        assert(all.take(i + 1).last() == results@[i as int]@);
        if results[i].id == id {
            proof {
                lemma_place_kept(all, id, i + 1);
            }
            return Some(i);
        }
    }
    assert(all.take(n as int) =~= all);
    None
}

proof fn lemma_place_kept(results: Seq<InvocationView>, id: ResultId, k: int)
    requires
        0 <= k <= results.len(),
        place_of(results.take(k), id) is Some,
    ensures
        place_of(results, id) == place_of(results.take(k), id),
    decreases results.len() - k,
{
    if k < results.len() {
        assert(results.take(k + 1).drop_last() =~= results.take(k));
        lemma_place_kept(results, id, k + 1);
    } else {
        assert(results.take(k) =~= results);
    }
}

fn text_to_cache(body: &ResultBody) -> (text: Option<String>)
    ensures
        text_option(text) == long_text(body@),
{
    let text = match body {
        ResultBody::Text(text) => text,
        ResultBody::Diagnostic(text) => text,
        ResultBody::Scalar(text) => text,
        _ => {
            return None;
        },
    };
    if contains_char(text.as_str(), '\n') {
        Some(text.clone())
    } else {
        None
    }
}

// ---------------------------------------------------------------------------------------
// The REPL bar

/// Whether a source without blanks at its ends is complete: by the last parse report where
/// that is of the same source, else by its looks.
pub open spec fn pipeline_complete(parse: Option<ParseView>, source: Seq<char>) -> bool {
    match parse {
        Some(report) => if trimmed(report.source) == source {
            report.complete
        } else {
            looks_complete(source)
        },
        None => looks_complete(source),
    }
}

/// What the editor does when Enter was pressed.
#[derive(Debug, Clone, Copy, PartialEq, Eq, Structural)]
pub enum EnterAction {
    /// Nothing.
    Ignore,
    /// It breaks the line.
    BreakLine,
    /// It is emptied: its source was submitted.
    Submit,
}

/// What Enter does with a source in the editor.
pub open spec fn enter_action(
    session: SessionView,
    source: Seq<char>,
    secondary: bool,
    shift: bool,
) -> EnterAction {
    let text = trimmed(source);
    if shift || session.busy || text.len() == 0 {
        EnterAction::Ignore
    } else if !pipeline_complete(session.parse, text) && !secondary {
        EnterAction::BreakLine
    } else {
        EnterAction::Submit
    }
}

/// A Session after Enter was pressed.
pub open spec fn after_enter(
    session: SessionView,
    source: Seq<char>,
    secondary: bool,
    shift: bool,
) -> SessionView {
    match enter_action(session, source, secondary, shift) {
        EnterAction::Ignore => session,
        EnterAction::BreakLine => SessionView {
            requests: session.requests.push(RequestView::Parse { source: source.push('\n') }),
            ..session
        },
        EnterAction::Submit => submitted(session, trimmed(source)),
    }
}

impl Workspace {
    /// Whether a source without blanks at its ends is complete.
    pub fn pipeline_is_complete(&self, text: &str) -> (yes: bool)
        ensures
            yes == pipeline_complete(self@.parse, text@),
    {
        if let Some(report) = &self.parse {
            if str_eq(trim(report.source.as_str()).as_str(), text) {
                return report.complete;
            }
        }
        source_looks_complete(text)
    }

    /// Takes an Enter in the editor.
    pub fn on_repl_enter(&mut self, source: &str, secondary: bool, shift: bool) -> (action:
        EnterAction)
        requires
            old(self).wf(),
            old(self)@.next_id < u64::MAX,
        ensures
            final(self).wf(),
            action == enter_action(old(self)@, source@, secondary, shift),
            final(self)@ == after_enter(old(self)@, source@, secondary, shift),
    {
        if shift || self.busy {
            return EnterAction::Ignore;
        }
        let text = trim(source);
        if text.as_str().is_empty() {
            return EnterAction::Ignore;
        }
        if !self.pipeline_is_complete(text.as_str()) && !secondary {
            let mut longer = source.to_owned();
            longer.push('\n');
            self.engine.parse(longer.as_str());
            return EnterAction::BreakLine;
        }
        self.submit(text.as_str());
        EnterAction::Submit
    }

    /// Takes a change of the editor's text.
    pub fn on_repl_change(&mut self, source: &str)
        requires
            old(self).wf(),
        ensures
            final(self).wf(),
            final(self)@ == (SessionView {
                requests: old(self)@.requests.push(RequestView::Parse { source: source@ }),
                ..old(self)@
            }),
    {
        self.engine.parse(source);
    }

    /// Takes a source that was put into the editor from a list.
    pub fn insert_history(&mut self, source: &str)
        requires
            old(self).wf(),
        ensures
            final(self).wf(),
            final(self)@ == (SessionView {
                requests: old(self)@.requests.push(RequestView::Parse { source: source@ }),
                ..old(self)@
            }),
    {
        self.engine.parse(source);
    }

    /// Calls the running Invocation to stop.
    pub fn stop(&mut self)
        requires
            old(self).wf(),
        ensures
            final(self).wf(),
            final(self)@ == (SessionView {
                requests: old(self)@.requests.push(RequestView::Interrupt),
                stopping: true,
                ..old(self)@
            }),
    {
        self.engine.interrupt();
    }
}

/// A Session that is busy takes no submission from Enter, and a blank source is never
/// submitted.
pub proof fn law_enter_submits_only_when_idle(
    session: SessionView,
    source: Seq<char>,
    secondary: bool,
    shift: bool,
)
    requires
        session.busy || shift || trimmed(source).len() == 0,
    ensures
        after_enter(session, source, secondary, shift) == session,
{
}

// ---------------------------------------------------------------------------------------
// What is open

/// A Session with the Help panel opened or closed; opening it asks for the commands.
pub open spec fn help_toggled(session: SessionView) -> SessionView {
    SessionView {
        help_open: !session.help_open,
        requests: if session.help_open {
            session.requests
        } else {
            session.requests.push(RequestView::ScopeCommands)
        },
        ..session
    }
}

/// A Session with the Variables panel opened or closed; opening it asks for the variables.
pub open spec fn variables_toggled(session: SessionView) -> SessionView {
    SessionView {
        variables_open: !session.variables_open,
        requests: if session.variables_open {
            session.requests
        } else {
            session.requests.push(RequestView::ScopeVariables)
        },
        ..session
    }
}

/// The place of the last expanded Result.
pub open spec fn shown_place(results: Seq<InvocationView>) -> Option<int>
    decreases results.len(),
{
    if results.len() == 0 {
        None
    } else if results.last().expanded {
        Some(results.len() - 1)
    } else {
        shown_place(results.drop_last())
    }
}

/// The Result that the table shows, which is the last expanded one.
pub open spec fn shown_result(session: SessionView) -> Option<InvocationView> {
    match shown_place(session.results) {
        Some(i) => Some(session.results[i]),
        None => None,
    }
}

/// The shown Result is expanded and no later one is; where none is shown, none is
/// expanded.
pub proof fn law_shown_result_is_the_last_expanded(results: Seq<InvocationView>)
    ensures
        match shown_place(results) {
            Some(i) => 0 <= i < results.len() && results[i].expanded && forall|j: int|
                i < j < results.len() ==> !(#[trigger] results[j]).expanded,
            None => forall|j: int| 0 <= j < results.len() ==> !(#[trigger] results[j]).expanded,
        },
    decreases results.len(),
{
    if results.len() > 0 && !results.last().expanded {
        let front = results.drop_last();
        law_shown_result_is_the_last_expanded(front);
        assert forall|j: int|
            0 <= j < results.len() && (shown_place(results) is None || j > shown_place(
                results,
            )->0) implies !(#[trigger] results[j]).expanded by {
            if j < front.len() {
                assert(front[j] == results[j]);
            }
        }
    }
}

fn find_shown(results: &Vec<InvocationResult>) -> (place: Option<usize>)
    ensures
        match place {
            Some(i) => shown_place(result_views(results@)) == Some(i as int),
            None => shown_place(result_views(results@)) is None,
        },
        place is Some ==> place->0 < results@.len(),
{
    let ghost all = result_views(results@);
    let n: usize = results.len();
    let mut i: usize = n;
    assert(all.take(n as int) =~= all);
    while i > 0
        invariant
            i <= n,
            n == results@.len(),
            all == result_views(results@),
            shown_place(all) == shown_place(all.take(i as int)),
        decreases i,
    {
        i -= 1;
        assert(all.take(i + 1).drop_last() =~= all.take(i as int));
        assert(all.take(i + 1).last() == results@[i as int]@);
        if results[i].expanded {
            return Some(i);
        }
    }
    None
}

/// Whether there is a Result with a view, or neither.
pub open spec fn shows_result(result: Option<&InvocationResult>, view: Option<InvocationView>) -> bool {
    match result {
        Some(result) => view == Some(result@),
        None => view is None,
    }
}

/// A Session in which one Result is expanded.
pub open spec fn expanded_to(session: SessionView, id: ResultId) -> SessionView {
    SessionView {
        results: only_expanded(session.results, Some(id)),
        inline_expand: Set::empty(),
        ..session
    }
}

impl Workspace {
    /// Opens or closes the Help panel.
    pub fn toggle_help(&mut self)
        requires
            old(self).wf(),
        ensures
            final(self).wf(),
            final(self)@ == help_toggled(old(self)@),
    {
        self.help_open = !self.help_open;
        if self.help_open {
            self.engine.scope_commands();
        }
    }

    /// Opens or closes the History panel.
    pub fn toggle_history(&mut self)
        requires
            old(self).wf(),
        ensures
            final(self).wf(),
            final(self)@ == (SessionView {
                history_open: !old(self)@.history_open,
                ..old(self)@
            }),
    {
        self.history_open = !self.history_open;
    }

    /// Opens or closes the Variables panel.
    pub fn toggle_variables(&mut self)
        requires
            old(self).wf(),
        ensures
            final(self).wf(),
            final(self)@ == variables_toggled(old(self)@),
    {
        self.variables_open = !self.variables_open;
        if self.variables_open {
            self.engine.scope_variables();
        }
    }

    /// Opens the settings.
    pub fn open_settings(&mut self)
        requires
            old(self).wf(),
        ensures
            final(self).wf(),
            final(self)@ == (SessionView { settings_open: true, ..old(self)@ }),
    {
        self.settings_open = true;
    }

    /// Closes the settings.
    pub fn close_settings(&mut self)
        requires
            old(self).wf(),
        ensures
            final(self).wf(),
            final(self)@ == (SessionView { settings_open: false, ..old(self)@ }),
    {
        self.settings_open = false;
    }

    /// The Result that the table shows, which is the last expanded one.
    pub fn expanded_result(&self) -> (result: Option<&InvocationResult>)
        ensures
            shows_result(result, shown_result(self@)),
    {
        match find_shown(&self.results) {
            Some(i) => {
                assert(result_views(self.results@)[i as int] == self.results@[i as int]@);
                Some(&self.results[i])
            },
            None => None,
        }
    }

    /// Expands one Result and closes the others. Gives the search text of that Result, for
    /// the filter field.
    pub fn expand_result(&mut self, id: ResultId) -> (search: Option<String>)
        requires
            old(self).wf(),
        ensures
            final(self).wf(),
            final(self)@ == expanded_to(old(self)@, id),
            text_option(search) == match place_of(old(self)@.results, id) {
                Some(i) => Some(old(self)@.results[i].view.search),
                None => None,
            },
    {
        let search = match find_result(&self.results, id) {
            Some(i) => {
                assert(self@.results[i as int] == self.results@[i as int]@);
                Some(self.results[i].view.search.clone())
            },
            None => None,
        };
        proof {
            lemma_same_ids(
                self@.results,
                only_expanded(self@.results, Some(id)),
                self@.next_id,
            );
        }
        expand_only(&mut self.results, Some(id));
        self.inline_expand.clear();
        search
    }

    /// Takes a change of the filter field: the shown Result searches for the text.
    pub fn set_search(&mut self, text: &str)
        requires
            old(self).wf(),
        ensures
            final(self).wf(),
            final(self)@ == (SessionView {
                results: match shown_place(old(self)@.results) {
                    Some(i) => old(self)@.results.update(
                        i,
                        InvocationView {
                            view: TableLook {
                                search: text@,
                                ..old(self)@.results[i].view
                            },
                            ..old(self)@.results[i]
                        },
                    ),
                    None => old(self)@.results,
                },
                ..old(self)@
            }),
    {
        match find_shown(&self.results) {
            Some(i) => {
                let ghost before = result_views(self.results@);
                assert(before[i as int] == self.results@[i as int]@);
                self.results[i].view.search = text.to_owned();
                let ghost after = result_views(self.results@);
                proof {
                    assert(after =~= before.update(
                        i as int,
                        InvocationView {
                            view: TableLook { search: text@, ..before[i as int].view },
                            ..before[i as int]
                        },
                    ));
                    lemma_same_ids(before, after, self.next_id);
                }
            },
            None => {},
        }
    }

    /// Copies the shown Result in a format. Gives the text for the clipboard.
    pub fn copy_expanded(&mut self, format: CopyFormat) -> (text: Option<String>)
        requires
            old(self).wf(),
        ensures
            final(self).wf(),
            match shown_result(old(self)@) {
                Some(result) => {
                    &&& text is Some
                    &&& copied(result.body, result.view, format, text->0@)
                    &&& final(self)@ == (SessionView {
                        copy_status: "copied "@ + format_name(format),
                        ..old(self)@
                    })
                },
                None => text is None && final(self)@ == old(self)@,
            },
    {
        match find_shown(&self.results) {
            Some(i) => {
                assert(result_views(self.results@)[i as int] == self.results@[i as int]@);
                let text = copy_result(&self.results[i].body, &self.results[i].view, format);
                let mut status = "copied ".to_owned();
                status.push_str(format.label());
                self.copy_status = status;
                Some(text)
            },
            None => None,
        }
    }
}

// ---------------------------------------------------------------------------------------
// Nested tables

/// The table that the shown Result has.
pub open spec fn shown_table(session: SessionView) -> Option<StoreView> {
    match shown_result(session) {
        Some(result) => match result.body {
            BodyView::Table(store) => Some(store),
            _ => None,
        },
        None => None,
    }
}

/// Whether a store is large enough for a table that draws only what is in sight.
pub open spec fn is_large(store: StoreView) -> bool {
    !pairs_store(store) && store.rows.len() > 64
}

/// The store that the nested table binds when a key opens: a large one.
pub open spec fn bound_store(session: SessionView, key: Seq<char>) -> Option<StoreView> {
    match shown_table(session) {
        Some(root) => match opened(root, key) {
            Some(store) => if is_large(store) {
                Some(store)
            } else {
                None
            },
            None => None,
        },
        None => None,
    }
}

/// Which tables are to be fitted to the width in sight.
#[derive(Debug)]
pub struct FitPlan {
    /// Whether the table that draws only what is in sight is one of them.
    pub virtual_table: bool,
    /// The paths of the others.
    pub custom: Vec<String>,
}

/// Which tables are to be fitted for a shown table and open keys.
pub open spec fn fitted(root: StoreView, keys: Seq<Seq<char>>) -> (bool, Seq<Seq<char>>) {
    if is_large(root) {
        (true, leading_keys(keys, root))
    } else if pairs_store(root) || nests(root) {
        (false, seq!["root"@] + leading_keys(keys, root))
    } else {
        (true, Seq::empty())
    }
}

impl Workspace {
    /// The table that the shown Result has.
    pub fn shown_store(&self) -> (store: Option<&ResultStore>)
        ensures
            match store {
                Some(store) => shown_table(self@) == Some(store@),
                None => shown_table(self@) is None,
            },
    {
        match self.expanded_result() {
            Some(result) => match &result.body {
                ResultBody::Table(store) => Some(store),
                _ => None,
            },
            None => None,
        }
    }

    /// Opens a nested cell below its row, or closes it and all below it. Tells whether it
    /// is open now.
    pub fn toggle_inline_expand(&mut self, key: &str) -> (open: bool)
        requires
            old(self).wf(),
        ensures
            final(self).wf(),
            final(self)@ == (SessionView {
                inline_expand: toggled(old(self)@.inline_expand, key@),
                ..old(self)@
            }),
            open == !old(self)@.inline_expand.contains(key@),
    {
        self.inline_expand.toggle(key)
    }

    /// Whether a nested cell is open below its row.
    pub fn is_inline_expanded(&self, key: &str) -> (open: bool)
        ensures
            open == self@.inline_expand.contains(key@),
    {
        self.inline_expand.contains(key)
    }

    /// Opens a variable's value, or closes it.
    pub fn toggle_variable(&mut self, key: &str)
        requires
            old(self).wf(),
        ensures
            final(self).wf(),
            final(self)@ == (SessionView {
                var_expand: flipped(old(self)@.var_expand, key@),
                ..old(self)@
            }),
    {
        self.var_expand.flip(key);
    }

    /// The store that the nested table binds when a key opens.
    pub fn bind_nested_if_virtual(&self, key: &str) -> (store: Option<ResultStore>)
        ensures
            store_option(store) == bound_store(self@, key@),
    {
        let root = match self.shown_store() {
            Some(root) => root,
            None => {
                return None;
            },
        };
        match nested_store(root, key) {
            Some(store) => if store.prefers_virtual() {
                Some(store.clone())
            } else {
                None
            },
            None => None,
        }
    }

    /// The open cells of the shown table.
    pub fn root_expansions(&self, root: &ResultStore) -> (out: Vec<Expansion>)
        ensures
            expansion_views(out@) == expansions_of(self.inline_expand.listing(), root@),
    {
        paths::root_expansions(&self.inline_expand, root)
    }

    /// Which tables are to be fitted to the width in sight.
    pub fn auto_resize_visible_columns(&self) -> (plan: Option<FitPlan>)
        ensures
            match plan {
                Some(plan) => shown_table(self@) is Some && fitted(
                    shown_table(self@)->0,
                    self.inline_expand.listing(),
                ) == (plan.virtual_table, texts(plan.custom@)),
                None => shown_table(self@) is None,
            },
    {
        let root = match self.shown_store() {
            Some(root) => root,
            None => {
                return None;
            },
        };
        if root.prefers_virtual() {
            return Some(
                FitPlan { virtual_table: true, custom: keys_that_lead(&self.inline_expand, root) },
            );
        }
        if root.is_pairs() || root.has_nested() {
            let mut custom: Vec<String> = Vec::new();
            custom.push("root".to_owned());
            let mut open = keys_that_lead(&self.inline_expand, root);
            let ghost tail = open@;
            custom.append(&mut open);
            assert(texts(custom@) =~= seq!["root"@] + texts(tail));
            return Some(FitPlan { virtual_table: false, custom });
        }
        let none: Vec<String> = Vec::new();
        assert(texts(none@) =~= Seq::empty());
        Some(FitPlan { virtual_table: true, custom: none })
    }
}

// ---------------------------------------------------------------------------------------
// Texts of several lines

/// The lines of a Result's text: those that are kept, or those of the text.
pub open spec fn kept_lines(session: SessionView, id: ResultId, text: Seq<char>) -> Seq<Seq<char>> {
    if session.text_lines.contains_key(id.0) {
        session.text_lines[id.0]
    } else {
        lines_of(text)
    }
}

impl Workspace {
    /// The lines that are drawn of a Result's text.
    pub fn text_rows(&self, id: ResultId, text: &str) -> (out: Vec<String>)
        ensures
            texts(out@) == drawn_lines(kept_lines(self@, id, text@), ansi_like(text@)),
    {
        let styled = looks_like_ansi(text);
        match self.text_lines.get(&id.0) {
            Some(kept) => {
                assert(self@.text_lines[id.0] == texts(kept@));
                scroll_lines(kept, styled)
            },
            None => {
                let split = lines(text);
                scroll_lines(&split, styled)
            },
        }
    }
}

/// The lines that a Session keeps for a Result that it first hears of are those of its
/// text.
pub proof fn law_kept_lines_are_those_of_the_text(session: SessionView, report: EvalView)
    requires
        place_of(session.results, report.id) is Some,
        !session.text_lines.contains_key(report.id.0),
        long_text(report.body) is Some,
    ensures
        kept_lines(evaluated(session, report), report.id, long_text(report.body)->0) == lines_of(
            long_text(report.body)->0,
        ),
{
}

/// On overflow the oldest Results go: those that stay are the newest, in their order.
pub proof fn law_overflow_drops_the_oldest(
    results: Seq<InvocationView>,
    cache: Map<u64, Seq<Seq<char>>>,
)
    ensures
        capped(results, cache).0 == if results.len() > DEFAULT_RESULT_CAP {
            results.skip(results.len() - DEFAULT_RESULT_CAP)
        } else {
            results
        },
    decreases results.len(),
{
    if results.len() > DEFAULT_RESULT_CAP {
        let rest = results.drop_first();
        law_overflow_drops_the_oldest(rest, cache.remove(results[0].id.0));
        assert(capped(results, cache).0 =~= results.skip(results.len() - DEFAULT_RESULT_CAP));
    }
}

/// The end of an Invocation changes the one Result that carries its identifier and no
/// other.
pub proof fn law_a_report_changes_its_own_result(session: SessionView, report: EvalView, i: int)
    requires
        sound(session),
        0 <= i < session.results.len(),
    ensures
        evaluated(session, report).results.len() == session.results.len(),
        evaluated(session, report).results[i] == if session.results[i].id == report.id {
            finished(session.results[i], report)
        } else {
            session.results[i]
        },
{
    lemma_place_of(session.results, report.id);
    if let Some(k) = place_of(session.results, report.id) {
        if k < i {
            assert(session.results[k].id.0 < session.results[i].id.0);
        } else if i < k {
            assert(session.results[i].id.0 < session.results[k].id.0);
        }
    }
}

// ---------------------------------------------------------------------------------------
// Laws on steps

/// A submission asks the engine to run the source under the next identifier, ends an earlier
/// call to stop, goes to the history and closes nested cells; panels, variables and the last
/// report stay as they were.
pub proof fn law_submission_asks_for_its_source(session: SessionView, source: Seq<char>)
    requires
        session.next_id < u64::MAX,
    ensures
        ({
            let after = submitted(session, source);
            &&& after.requests == session.requests.push(
                RequestView::Eval { id: ResultId(session.next_id), source },
            )
            &&& !after.stopping
            &&& after.next_id == session.next_id + 1
            &&& after.history == session.history.push(source)
            &&& after.inline_expand == Set::<Seq<char>>::empty()
            &&& after.busy
            &&& after.parse == session.parse && after.last_exit == session.last_exit
            &&& after.last_duration == session.last_duration && after.snapshot == session.snapshot
            &&& after.help_commands == session.help_commands && after.variables
                == session.variables && after.var_expand == session.var_expand
            &&& after.help_open == session.help_open && after.history_open == session.history_open
                && after.variables_open == session.variables_open
        }),
{
}

/// Once the engine is ready the Session knows its version and settings and asks for the
/// commands and then the variables; reports and tables are kept where they belong, and the
/// Results stay.
pub proof fn law_messages_go_where_they_belong(
    session: SessionView,
    snapshot: SnapshotView,
    report: ParseView,
    store: StoreView,
)
    ensures
        after_event(session, EventView::Ready(snapshot)).nu_version == snapshot.nu_version,
        after_event(session, EventView::Ready(snapshot)).snapshot == snapshot,
        after_event(session, EventView::Ready(snapshot)).requests == session.requests.push(
            RequestView::ScopeCommands,
        ).push(RequestView::ScopeVariables),
        after_event(session, EventView::Ready(snapshot)).results == session.results,
        after_event(session, EventView::Parse(report)).parse == Some(report),
        after_event(session, EventView::Parse(report)).results == session.results,
        after_event(session, EventView::Parse(report)).busy == session.busy,
        after_event(session, EventView::ScopeCommands(store)).help_commands == store,
        after_event(session, EventView::ScopeCommands(store)).variables == session.variables,
        after_event(session, EventView::ScopeVariables(store)).variables == store,
        after_event(session, EventView::ScopeVariables(store)).help_commands
            == session.help_commands,
        after_event(session, EventView::ScopeVariables(store)).results == session.results,
{
}

/// The end of an Invocation frees the Session, is the last exit code and duration, and asks
/// for the variables where their panel is open.
pub proof fn law_the_end_of_an_invocation_frees_the_session(
    session: SessionView,
    report: EvalView,
)
    ensures
        ({
            let after = after_event(session, EventView::Eval(report));
            &&& !after.busy
            &&& after.last_exit == Some(report.exit_code)
            &&& after.last_duration == Some(report.duration)
            &&& after.requests == (if session.variables_open {
                session.requests.push(RequestView::ScopeVariables)
            } else {
                session.requests
            })
            &&& after.history == session.history && after.next_id == session.next_id
            &&& after.inline_expand == session.inline_expand && after.parse == session.parse
        }),
{
}

/// A finished Result has what the report says and keeps its identifier, its source, its log
/// and whether it is expanded; a table begins without filter, search and sort.
pub proof fn law_a_finished_result_has_what_the_report_says(
    result: InvocationView,
    report: EvalView,
)
    ensures
        ({
            let after = finished(result, report);
            &&& after.status == report.status && after.body == report.body
            &&& after.duration == Some(report.duration) && after.exit_code == Some(
                report.exit_code,
            )
            &&& after.id == result.id && after.source == result.source && after.log == result.log
                && after.expanded == result.expanded
            &&& report.body matches BodyView::Table(store) ==> after.view.sort_col is None
                && after.view.search.len() == 0 && after.view.equals.len() == store.columns.len()
                && forall|i: int|
                0 <= i < after.view.equals.len() ==> (#[trigger] after.view.equals[i]) is None
            &&& !(report.body is Table) ==> after.view == result.view
        }),
{
}

/// An engine that breaks down frees the Session and leaves a failed Result with its message
/// as the last one.
pub proof fn law_a_breakdown_leaves_a_failed_result(session: SessionView, message: Seq<char>)
    requires
        sound(session),
        session.next_id < u64::MAX,
    ensures
        ({
            let after = after_event(session, EventView::Failed(message));
            &&& !after.busy
            &&& after.next_id == session.next_id + 1
            &&& after.results.len() > 0
            &&& after.results.last().id == ResultId(session.next_id)
            &&& after.results.last().status == ResultStatus::Failed
            &&& after.results.last().body == BodyView::Diagnostic(message)
            &&& after.results.last().exit_code == Some(1i64)
            &&& after.results.last().expanded
            &&& after.requests == session.requests && after.history == session.history
        }),
{
    let all = session.results.push(failed_view(ResultId(session.next_id), message));
    law_overflow_drops_the_oldest(all, session.text_lines);
}

/// Enter submits a source that is complete, or any that is not blank with the secondary key;
/// an incomplete one gets a further line, and the engine is asked to parse it with that.
pub proof fn law_enter_submits_complete_sources(
    session: SessionView,
    source: Seq<char>,
    secondary: bool,
)
    requires
        !session.busy,
        trimmed(source).len() > 0,
    ensures
        secondary || pipeline_complete(session.parse, trimmed(source)) ==> after_enter(
            session,
            source,
            secondary,
            false,
        ) == submitted(session, trimmed(source)) && enter_action(session, source, secondary, false)
            == EnterAction::Submit,
        !secondary && !pipeline_complete(session.parse, trimmed(source)) ==> ({
            let after = after_enter(session, source, secondary, false);
            &&& enter_action(session, source, secondary, false) == EnterAction::BreakLine
            &&& after.requests == session.requests.push(
                RequestView::Parse { source: source + seq!['\n'] },
            )
            &&& after.results == session.results && after.history == session.history
        }),
{
    assert(source.push('\n') =~= source + seq!['\n']);
}

/// The last report decides on the source that it is of, white space at its ends aside; any
/// other source is judged by its looks.
pub proof fn law_reports_decide_on_their_own_source(
    report: ParseView,
    source: Seq<char>,
)
    ensures
        trimmed(report.source) == source ==> pipeline_complete(Some(report), source)
            == report.complete,
        trimmed(report.source) != source ==> pipeline_complete(Some(report), source)
            == looks_complete(source),
        pipeline_complete(None, source) == looks_complete(source),
{
}

/// Expanding a Result leaves that one expanded and no other, keeps everything else of each
/// Result, and closes nested cells.
pub proof fn law_one_result_is_expanded(session: SessionView, id: ResultId, i: int)
    requires
        0 <= i < session.results.len(),
    ensures
        ({
            let after = expanded_to(session, id);
            &&& after.results.len() == session.results.len()
            &&& after.results[i].expanded == (session.results[i].id == id)
            &&& after.results[i].id == session.results[i].id && after.results[i].body
                == session.results[i].body && after.results[i].view == session.results[i].view
                && after.results[i].status == session.results[i].status
                && after.results[i].source == session.results[i].source
            &&& after.inline_expand == Set::<Seq<char>>::empty()
            &&& after.requests == session.requests && after.busy == session.busy
        }),
{
}

/// Opening Help asks for the commands and opening Variables for the variables; closing
/// either asks for nothing, and neither touches the other.
pub proof fn law_opening_a_panel_asks_for_its_table(session: SessionView)
    ensures
        help_toggled(session).help_open == !session.help_open,
        help_toggled(session).variables_open == session.variables_open,
        !session.help_open ==> help_toggled(session).requests == session.requests.push(
            RequestView::ScopeCommands,
        ),
        session.help_open ==> help_toggled(session).requests == session.requests,
        variables_toggled(session).variables_open == !session.variables_open,
        variables_toggled(session).help_open == session.help_open,
        !session.variables_open ==> variables_toggled(session).requests == session.requests.push(
            RequestView::ScopeVariables,
        ),
        session.variables_open ==> variables_toggled(session).requests == session.requests,
{
}

/// A text with a line break is kept as lines, in whatever body that shows text, and no other
/// is.
pub proof fn law_texts_of_several_lines_are_kept(text: Seq<char>, store: StoreView)
    ensures
        text.contains('\n') ==> long_text(BodyView::Text(text)) == Some(text) && long_text(
            BodyView::Scalar(text),
        ) == Some(text) && long_text(BodyView::Diagnostic(text)) == Some(text),
        !text.contains('\n') ==> long_text(BodyView::Text(text)) is None && long_text(
            BodyView::Scalar(text),
        ) is None && long_text(BodyView::Diagnostic(text)) is None,
        long_text(BodyView::Table(store)) is None,
        long_text(BodyView::Empty) is None,
{
}

/// A large table is fitted as a whole with what is open in it, a table of pairs or with
/// nested cells as itself and what is open in it, and any other as a whole alone.
pub proof fn law_tables_in_sight_are_fitted(root: StoreView, keys: Seq<Seq<char>>)
    ensures
        fitted(root, keys).0 == (is_large(root) || !(pairs_store(root) || nests(root))),
        !fitted(root, keys).0 ==> fitted(root, keys).1.len() > 0 && fitted(root, keys).1[0]
            == "root"@ && fitted(root, keys).1.drop_first() == leading_keys(keys, root),
        is_large(root) ==> fitted(root, keys).1 == leading_keys(keys, root),
        !is_large(root) && !pairs_store(root) && !nests(root) ==> fitted(root, keys).1.len() == 0,
{
    assert((seq!["root"@] + leading_keys(keys, root)).drop_first() =~= leading_keys(keys, root));
}

/// A session begins idle, without a Result, a history or a report, with Help open and every
/// other panel closed, and counts its Results from one.
pub proof fn law_a_session_begins_with_nothing(
    requests: Seq<RequestView>,
    stopping: bool,
    cwd: Seq<char>,
)
    ensures
        ({
            let session = fresh_session(requests, stopping, cwd);
            &&& session.results.len() == 0 && session.history.len() == 0 && session.parse is None
            &&& session.next_id == 1 && session.cwd == cwd && session.requests == requests
                && session.stopping == stopping
            &&& !session.busy && session.help_open && !session.history_open
                && !session.variables_open && !session.settings_open
            &&& session.last_exit is None && session.last_duration is None
            &&& session.inline_expand == Set::<Seq<char>>::empty() && session.var_expand == Set::<
                Seq<char>,
            >::empty() && session.copy_status.len() == 0
            &&& session.help_commands.rows.len() == 0 && session.variables.rows.len() == 0
            &&& session.snapshot.config_path.len() == 0 && session.snapshot.color_config.len() == 0
                && session.snapshot.float_precision == 0
        }),
{
}

/// The shown table is that of the last expanded Result, if that has one, and a key binds a
/// store of it where that has more than 64 rows and is no table of pairs.
pub proof fn law_keys_bind_large_stores(
    session: SessionView,
    i: int,
    key: Seq<char>,
    store: StoreView,
)
    requires
        0 <= i < session.results.len(),
        session.results[i].expanded,
        forall|j: int| i < j < session.results.len() ==> !(#[trigger] session.results[j]).expanded,
    ensures
        shown_result(session) == Some(session.results[i]),
        session.results[i].body matches BodyView::Table(root) ==> shown_table(session) == Some(root)
            && (opened(root, key) == Some(store) ==> bound_store(session, key) == (if !pairs_store(
            store,
        ) && store.rows.len() > 64 {
            Some(store)
        } else {
            None
        })) && (opened(root, key) is None ==> bound_store(session, key) is None),
        !(session.results[i].body is Table) ==> shown_table(session) is None,
{
    law_shown_result_is_the_last_expanded(session.results);
    let place = shown_place(session.results);
    if place is None || place->0 < i {
        assert(session.results[i].expanded);
    }
}

/// The lines of a text are kept once: a later report under the same identifier leaves them,
/// and a report without a text of several lines, or of no Result, adds none.
pub proof fn law_lines_are_kept_once(session: SessionView, report: EvalView)
    ensures
        session.text_lines.contains_key(report.id.0) ==> evaluated(session, report).text_lines
            == session.text_lines,
        long_text(report.body) is None ==> evaluated(session, report).text_lines
            == session.text_lines,
        place_of(session.results, report.id) is None ==> evaluated(session, report).text_lines
            == session.text_lines,
        place_of(session.results, report.id) is Some && !session.text_lines.contains_key(
            report.id.0,
        ) ==> (long_text(report.body) matches Some(text) ==> evaluated(session, report).text_lines
            == session.text_lines.insert(report.id.0, lines_of(text))),
{
}

} // verus!
