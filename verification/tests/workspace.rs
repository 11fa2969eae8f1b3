use sisko::engine::{
    EngineEvent, EngineHandle, EngineRequest, EngineSnapshot, EvalReport, ParseReport,
};
use sisko::export::CopyFormat;
use sisko::grid::{ResultTableDelegate, Td};
use sisko::listing::TableView;
use sisko::paths::{
    is_under, keys_that_lead, nested_store, parse_root_row, root_expansions, table_path_key, KeySet,
};
use sisko::result::{Cell, ResultBody, ResultId, ResultStatus, ResultStore};
use sisko::workspace::{EnterAction, Workspace};
use std::time::Duration;

fn session() -> Workspace {
    Workspace::new(EngineHandle::new(), "/here".into())
}

fn table(columns: &[&str], rows: Vec<Vec<Cell>>) -> ResultStore {
    ResultStore { columns: columns.iter().map(|c| c.to_string()).collect(), rows }
}

fn done(id: u64, body: ResultBody) -> EngineEvent {
    EngineEvent::Eval(EvalReport {
        id: ResultId(id),
        source: "x".into(),
        status: ResultStatus::Succeeded,
        duration: Duration::from_millis(5),
        exit_code: 0,
        body,
    })
}

fn parsed(source: &str, complete: bool) -> EngineEvent {
    EngineEvent::Parse(ParseReport { source: source.into(), complete, error: None })
}

#[test]
fn parse_root_row_only_direct_children() {
    assert_eq!(parse_root_row("root/4/2"), Some(4));
    assert_eq!(parse_root_row("root/4/2/0/1"), None);
    assert_eq!(parse_root_row("sheet/1/0"), None);
}

#[test]
fn table_path_key_nests() {
    assert_eq!(table_path_key("root", 3, 1), "root/3/1");
    assert_eq!(table_path_key("root/3/1", 0, 2), "root/3/1/0/2");
    assert_eq!(table_path_key("", 3, 1), "3/1");
}

#[test]
fn nested_store_walks_row_col_pairs() {
    let inner = table(&["a"], vec![vec![Cell::text("1")]]);
    let mut cell = Cell::text("62 rows");
    cell.nested = Some(Box::new(inner.clone()));
    let root = table(
        &["field", "value"],
        vec![
            vec![Cell::text("hooks"), Cell::text("x")],
            vec![Cell::text("table"), cell],
        ],
    );
    assert_eq!(nested_store(&root, "root").map(|s| s.row_count()), Some(2));
    assert_eq!(
        nested_store(&root, "root/1/1").map(|s| s.columns.clone()),
        Some(vec!["a".into()])
    );
    assert!(nested_store(&root, "root/0/0").is_none());
    assert!(nested_store(&root, "sheet/1/1").is_some());
    assert!(nested_store(&root, "root/1").is_none());
    assert!(nested_store(&root, "leaf/1/1").is_none());
    assert!(nested_store(&root, "root/x/1").is_none());
    assert!(nested_store(&root, "root/9/1").is_none());
}

#[test]
fn submissions_stay_within_the_cap() {
    let mut work = session();
    for i in 0..14 {
        work.submit(&format!("cmd {i}"));
        assert!(work.busy);
        work.apply_event(done(i + 1, ResultBody::Text("a\nb".into())));
        assert!(!work.busy);
        assert!(work.results.len() <= 10);
    }
    assert_eq!(work.results.len(), 10);
    let ids: Vec<u64> = work.results.iter().map(|r| r.id.0).collect();
    assert_eq!(ids, (5..=14).collect::<Vec<_>>());
    let open: Vec<bool> = work.results.iter().map(|r| r.expanded).collect();
    assert_eq!(open.iter().filter(|o| **o).count(), 1);
    assert!(open[9]);
    assert_eq!(work.history.len(), 14);
    assert_eq!(work.text_lines.len(), 10);
    assert!(!work.text_lines.contains_key(&4));
    assert_eq!(work.text_lines[&14], ["a", "b"]);
}

#[test]
fn failures_stay_within_the_cap() {
    let mut work = session();
    for i in 0..12 {
        work.apply_event(EngineEvent::Failed(format!("broken {i}")));
    }
    assert_eq!(work.results.len(), 10);
    assert_eq!(work.results[0].id, ResultId(3));
    assert_eq!(work.results[9].status, ResultStatus::Failed);
    assert_eq!(work.results[9].exit_code, Some(1));
    assert!(matches!(&work.results[9].body, ResultBody::Diagnostic(t) if t == "broken 11"));
    assert_eq!(work.next_id, 13);
}

#[test]
fn events_fill_the_session() {
    let mut work = session();
    assert_eq!((work.nu_version.as_str(), work.cwd.as_str(), work.help_open), ("…", "/here", true));
    work.apply_event(EngineEvent::Ready(EngineSnapshot {
        nu_version: "0.115.0".into(),
        config_path: "/c".into(),
        env_path: "/e".into(),
        color_config: vec![],
        float_precision: 2,
    }));
    assert_eq!(work.nu_version, "0.115.0");
    let sent = work.engine.take_requests();
    assert!(matches!(sent[..], [EngineRequest::ScopeCommands, EngineRequest::ScopeVariables]));
    work.apply_event(EngineEvent::ScopeCommands(table(&["name"], vec![vec![Cell::text("ls")]])));
    assert_eq!(work.help_commands.row_count(), 1);
    work.apply_event(EngineEvent::ScopeVariables(table(&["name"], vec![vec![Cell::text("$x")]])));
    assert_eq!(work.variables.row_count(), 1);
    work.submit("ls");
    work.toggle_variables();
    work.engine.take_requests();
    let body = ResultBody::Table(table(&["a", "b"], vec![]));
    work.apply_event(done(1, body));
    assert_eq!(work.results[0].status, ResultStatus::Succeeded);
    assert_eq!(work.results[0].view.equals.len(), 2);
    assert_eq!((work.last_exit, work.last_duration), (Some(0), Some(Duration::from_millis(5))));
    assert!(matches!(work.engine.take_requests()[..], [EngineRequest::ScopeVariables]));
    work.apply_event(done(99, ResultBody::Empty));
    assert_eq!(work.results.len(), 1);
}

#[test]
fn enter_breaks_lines_or_submits() {
    let mut work = session();
    assert_eq!(work.on_repl_enter("ls", false, true), EnterAction::Ignore);
    assert_eq!(work.on_repl_enter("  ", false, false), EnterAction::Ignore);
    assert_eq!(work.on_repl_enter("ls |", false, false), EnterAction::BreakLine);
    assert!(matches!(
        &work.engine.take_requests()[..],
        [EngineRequest::Parse { source }] if source == "ls |\n"
    ));
    work.apply_event(parsed(" ls ", false));
    assert!(!work.pipeline_is_complete("ls"));
    assert!(work.pipeline_is_complete("pwd"));
    assert_eq!(work.on_repl_enter("ls", false, false), EnterAction::BreakLine);
    assert_eq!(work.on_repl_enter(" ls ", true, false), EnterAction::Submit);
    assert_eq!(work.results[0].source, "ls");
    assert_eq!(work.on_repl_enter("pwd", false, false), EnterAction::Ignore);
    work.apply_event(done(1, ResultBody::Empty));
    work.apply_event(parsed("ls |", true));
    assert_eq!(work.on_repl_enter("ls |", false, false), EnterAction::Submit);
}

#[test]
fn panels_open_and_close() {
    let mut work = session();
    work.toggle_help();
    assert!(!work.help_open);
    assert!(work.engine.take_requests().is_empty());
    work.toggle_help();
    assert!(matches!(work.engine.take_requests()[..], [EngineRequest::ScopeCommands]));
    work.toggle_history();
    assert!(work.history_open);
    work.toggle_variables();
    assert!(matches!(work.engine.take_requests()[..], [EngineRequest::ScopeVariables]));
    work.open_settings();
    assert!(work.settings_open);
    work.close_settings();
    assert!(!work.settings_open);
    work.stop();
    assert!(work.engine.is_stopping());
    work.on_repl_change("l");
    work.insert_history("ls");
    let sent = work.engine.take_requests();
    assert_eq!(sent.len(), 3);
    assert!(matches!(&sent[2], EngineRequest::Parse { source } if source == "ls"));
}

#[test]
fn one_result_is_shown() {
    let mut work = session();
    assert!(work.expanded_result().is_none());
    assert!(work.copy_expanded(CopyFormat::Csv).is_none());
    work.submit("a");
    work.apply_event(done(1, ResultBody::Table(table(&["n"], vec![vec![Cell::text("x")], vec![Cell::text("y")]]))));
    work.submit("b");
    assert_eq!(work.expanded_result().map(|r| r.id), Some(ResultId(2)));
    work.toggle_inline_expand("root/0/0");
    assert_eq!(work.expand_result(ResultId(1)), Some("".into()));
    assert!(!work.is_inline_expanded("root/0/0"));
    assert_eq!(work.expanded_result().map(|r| r.id), Some(ResultId(1)));
    work.set_search("y");
    assert_eq!(work.copy_expanded(CopyFormat::Csv).as_deref(), Some("n\ny\n"));
    assert_eq!(work.copy_status, "copied CSV");
    assert_eq!(work.expand_result(ResultId(1)), Some("y".into()));
    assert_eq!(work.expand_result(ResultId(7)), None);
    assert!(work.expanded_result().is_none());
}

#[test]
fn closing_a_cell_closes_what_lies_below() {
    let mut work = session();
    assert!(work.toggle_inline_expand("root/1/0"));
    assert!(work.toggle_inline_expand("root/1/0/2/3"));
    assert!(work.toggle_inline_expand("root/1/00"));
    assert!(!work.toggle_inline_expand("root/1/0"));
    assert!(!work.is_inline_expanded("root/1/0"));
    assert!(!work.is_inline_expanded("root/1/0/2/3"));
    assert!(work.is_inline_expanded("root/1/00"));
    work.toggle_variable("$env");
    work.toggle_variable("$env/PATH");
    work.toggle_variable("$env");
    assert!(!work.var_expand.contains("$env"));
    assert!(work.var_expand.contains("$env/PATH"));
    assert!(is_under("a/b", "a"));
    assert!(!is_under("ab", "a"));
}

#[test]
fn key_sets_stay_sorted() {
    let mut keys = KeySet::new();
    for key in ["b", "a", "c", "a"] {
        keys.insert(key);
    }
    assert_eq!(*keys.list(), ["a", "b", "c"]);
    keys.remove("b", true);
    assert_eq!(*keys.list(), ["a", "c"]);
    keys.clear();
    assert!(keys.list().is_empty());
}

fn nesting(rows: usize) -> ResultStore {
    let mut cell = Cell::text("many");
    cell.nested = Some(Box::new(table(
        &["n"],
        (0..rows).map(|i| vec![Cell::text(&format!("{i}"))]).collect(),
    )));
    table(&["name", "items"], vec![vec![Cell::text("x"), cell]])
}

#[test]
fn open_cells_are_listed_by_key() {
    let root = nesting(2);
    let mut keys = KeySet::new();
    keys.insert("root/0/1");
    keys.insert("root/0/0");
    keys.insert("root/0/1/0/0");
    assert_eq!(keys_that_lead(&keys, &root), ["root/0/1"]);
    let open = root_expansions(&keys, &root);
    assert_eq!(open.len(), 1);
    assert_eq!((open[0].key.as_str(), open[0].title.as_str()), ("root/0/1", "items"));
    assert_eq!(open[0].store.row_count(), 2);
}

#[test]
fn large_nested_stores_get_their_own_table() {
    let mut work = session();
    assert!(work.auto_resize_visible_columns().is_none());
    work.submit("a");
    work.apply_event(done(1, ResultBody::Table(nesting(65))));
    assert_eq!(work.bind_nested_if_virtual("root/0/1").map(|s| s.row_count()), Some(65));
    assert!(work.bind_nested_if_virtual("root/0/0").is_none());
    work.toggle_inline_expand("root/0/1");
    let plan = work.auto_resize_visible_columns().expect("a plan");
    assert!(!plan.virtual_table);
    assert_eq!(plan.custom, ["root", "root/0/1"]);
    assert_eq!(work.root_expansions(work.shown_store().expect("a table")).len(), 1);
    work.submit("b");
    work.apply_event(done(2, ResultBody::Table(nesting(3))));
    assert!(work.bind_nested_if_virtual("root/0/1").is_none());
    work.submit("c");
    work.apply_event(done(3, ResultBody::Table(table(&["a"], vec![]))));
    let plan = work.auto_resize_visible_columns().expect("a plan");
    assert!(plan.virtual_table);
    assert!(plan.custom.is_empty());
}

#[test]
fn the_table_shows_what_the_view_shows() {
    let mut grid = ResultTableDelegate::empty(false);
    assert_eq!((grid.rows_count(), grid.columns_count()), (0, 1));
    assert_eq!((grid.view.sort_col, grid.view.sort_asc, grid.view.equals.len()), (None, false, 0));
    let mut store = nesting(2);
    store.rows.push(vec![Cell::text("\u{1b}[31ma\u{1b}[0m"), Cell::text("plain")]);
    grid.bind(store, TableView::for_columns(2));
    assert_eq!((grid.rows_count(), grid.columns_count()), (2, 3));
    assert_eq!((grid.column(0).as_str(), grid.column(2).as_str(), grid.column(9).as_str()), ("#", "items", "?"));
    assert!(!grid.is_right(1));
    assert!(matches!(grid.render_td(1, 0), Td::Index(text) if text == "2"));
    assert!(matches!(grid.render_td(0, 2), Td::Nested { id, key, label } if key == "root/0/1" && id == "r-nested-0-2" && label == "many"));
    assert!(matches!(
        grid.render_td(0, 1),
        Td::Plain { text, color: None, bold: false, right: false } if text == "x"
    ));
    assert!(matches!(grid.render_td(1, 1), Td::Ansi(lines) if lines[0][0].text == "a"));
    assert!(matches!(grid.render_td(0, 7), Td::Blank));
    grid.expand_prefix = "root/4/4".into();
    assert!(matches!(grid.render_td(0, 2), Td::Nested { key, .. } if key == "root/4/4/0/1"));
    grid.perform_sort(0, true);
    assert_eq!(grid.visible, [0, 1]);
    grid.perform_sort(1, true);
    assert_eq!(grid.visible, [0, 1]);
    grid.perform_sort(1, false);
    assert_eq!(grid.visible, [1, 0]);
    assert_eq!(grid.cell_at(0, 2).map(|c| c.text.as_str()), Some("plain"));
    let mut sizes = ResultTableDelegate::empty(true);
    sizes.bind(table(&["size"], vec![]), TableView::for_columns(1));
    assert!(sizes.is_right(1));
}

#[test]
fn texts_are_drawn_line_by_line() {
    let mut work = session();
    work.submit("a");
    work.apply_event(done(1, ResultBody::Text("a\n\nb".into())));
    assert_eq!(work.text_rows(ResultId(1), "other"), ["a", " ", "b"]);
    assert_eq!(work.text_rows(ResultId(9), "x\ny"), ["x", "y"]);
    assert_eq!(work.text_rows(ResultId(9), ""), [" "]);
    assert_eq!(work.text_rows(ResultId(9), "\u{1b}[1mx\n\n"), ["\u{1b}[1mx", ""]);
}
