use nu_cmd_lang::create_default_context;
use sisko::cells::{
    list_to_body, nested_store, shallow_value_cell, should_pair_record, value_cell, value_to_body,
};
use sisko::color::{AnsiColor, AnsiStyle};
use sisko::engine::{
    collect_existing_lib_dirs, color_name, eval_report, is_incomplete, parse_source,
    push_unique_path, report_from_errors, result_cap, seed_lib_dirs, snapshot,
    source_looks_complete, style_key, EngineHandle, EngineRequest, EngineSnapshot, EvalOutcome,
};
use sisko::order::{FloatKey, SortKey};
use sisko::result::{CellKind, ResultBody, ResultId, ResultStatus, ResultStore};
use sisko::scope::{
    collect_command_store, collect_variable_store, command_store, variable_row, CommandInfo,
};
use sisko::value::{
    compact_value_text, is_scalar_leaf, scalar_text, DurationUnit, Field, Nanos, NuValue,
};
use std::time::Duration;

const UNIT: DurationUnit = DurationUnit::Week;

fn bare() -> AnsiStyle {
    AnsiStyle { foreground: None, is_bold: false }
}

fn string(text: &str) -> NuValue {
    NuValue::Text { val: text.to_string(), style: bare(), path_style: None }
}

fn number(val: i64) -> NuValue {
    NuValue::Int { val, style: bare() }
}

fn boolean(val: bool) -> NuValue {
    NuValue::Bool { val, style: bare() }
}

fn list(vals: Vec<NuValue>) -> NuValue {
    NuValue::List { vals }
}

fn record(fields: Vec<(&str, NuValue)>) -> NuValue {
    NuValue::Record {
        val: fields
            .into_iter()
            .map(|(name, value)| Field { name: name.to_string(), value })
            .collect(),
    }
}

#[test]
fn empty_source_is_incomplete() {
    let engine = create_default_context();
    let report = parse_source(&engine, "");
    assert!(!report.complete);
}

#[test]
fn ls_is_complete() {
    let engine = create_default_context();
    let report = parse_source(&engine, "ls");
    assert!(report.complete, "ls parse error: {:?}", report.error);
}

#[test]
fn trailing_pipe_is_incomplete() {
    assert!(!source_looks_complete("ls |"));
    assert!(source_looks_complete("ls"));
    assert!(source_looks_complete("ls\n"));
}

#[test]
fn nested_signature_record_flattens_to_rows() {
    let params = list(vec![
        record(vec![("parameter", string("path")), ("type", string("string"))]),
        record(vec![("parameter", string("all")), ("type", string("switch"))]),
    ]);
    let signatures = record(vec![("", params)]);
    let store = nested_store(&signatures, UNIT, 3).expect("nested store");
    assert_eq!(store.columns, vec!["parameter".to_string(), "type".to_string()]);
    assert_eq!(store.row_count(), 2);
    assert_eq!(store.rows[0][0].text, "path");
}

#[test]
fn compact_nested_int_lists() {
    let value = list(vec![list(vec![number(1), number(2)]), list(vec![number(3), number(4)])]);
    assert_eq!(compact_value_text(&value, UNIT).as_deref(), Some("[[1, 2], [3, 4]]"));
}

#[test]
fn large_or_nested_record_becomes_field_value_table() {
    let value = record(vec![
        ("ls", record(vec![("use_ls_colors", boolean(true))])),
        ("table", record(vec![("mode", string("compact"))])),
    ]);
    let body = value_to_body(&value, UNIT, 8);
    match body {
        ResultBody::Table(store) => {
            assert_eq!(store.columns, vec!["field".to_string(), "value".to_string()]);
            assert_eq!(store.row_count(), 2);
        }
        other => panic!("expected field/value table, got {other:?}"),
    }
}

#[test]
fn multiline_string_becomes_expandable_text_block() {
    let cell = value_cell("extra_description", &string("one\ntwo\nthree"), UNIT, 8);
    assert!(cell.text.contains("two"));
    assert_eq!(cell.expand_label(), "3 lines");
    assert!(cell.nested.as_deref().is_some_and(ResultStore::is_text_block));
}

#[test]
fn deep_menus_and_explore_keep_expandable_stores() {
    let items: Vec<NuValue> = (0..13)
        .map(|i| record(vec![("value", string(&format!("item-{i}")))]))
        .collect();
    let value = record(vec![
        (
            "explore",
            record(vec![(
                "table",
                record(vec![(
                    "selected_cell",
                    record(vec![("bg", string("blue")), ("fg", string("white"))]),
                )]),
            )]),
        ),
        (
            "menus",
            list(vec![record(vec![
                ("name", string("ide_completion")),
                ("marker", string("| ")),
                ("items", list(items)),
            ])]),
        ),
    ]);
    let body = value_to_body(&value, UNIT, 8);
    let ResultBody::Table(root) = body else {
        panic!("expected table");
    };
    let explore = root
        .rows
        .iter()
        .find(|row| row[0].text == "explore")
        .and_then(|row| row[1].nested.as_deref())
        .expect("explore nested");
    let table = explore
        .rows
        .iter()
        .find(|row| row[0].text == "table")
        .and_then(|row| row[1].nested.as_deref())
        .expect("table nested");
    let selected = table
        .rows
        .iter()
        .find(|row| row[0].text == "selected_cell")
        .and_then(|row| row[1].nested.as_deref())
        .expect("selected_cell nested");
    assert!(selected.row_count() >= 2);

    let menus = root
        .rows
        .iter()
        .find(|row| row[0].text == "menus")
        .and_then(|row| row[1].nested.as_deref())
        .expect("menus nested");
    let items = menus.rows[0]
        .iter()
        .find(|cell| cell.text.contains("13"))
        .and_then(|cell| cell.nested.as_deref())
        .expect("ide_completion items nested");
    assert_eq!(items.row_count(), 13);
}

#[test]
fn brackets_and_redirections_keep_a_source_open() {
    assert!(!source_looks_complete("   "));
    assert!(!source_looks_complete("each { |x|"));
    assert!(!source_looks_complete("[1 2"));
    assert!(!source_looks_complete("ls out>"));
    assert!(source_looks_complete("each { |x| $x }"));
    assert!(source_looks_complete(")"));
}

#[test]
fn parse_errors_tell_of_an_early_end() {
    let early = vec!["Unexpected end of code.".to_string()];
    let other = vec!["Unknown command.".to_string(), "Unclosed delimiter.".to_string()];
    let none: Vec<String> = Vec::new();
    assert!(is_incomplete("ls", &early));
    assert!(is_incomplete("ls", &other));
    assert!(!is_incomplete("ls", &none));
    assert!(is_incomplete("ls |", &none));
    let report = report_from_errors("ls", &other);
    assert_eq!(report.source, "ls");
    assert!(!report.complete);
    assert_eq!(report.error.as_deref(), Some("Unknown command."));
    let report = report_from_errors("ls", &vec!["Unknown command.".to_string()]);
    assert!(report.complete);
    assert_eq!(report_from_errors("ls", &none).error, None);
}

#[test]
fn parser_errors_reach_the_report() {
    let engine = create_default_context();
    let report = parse_source(&engine, "let x = )");
    assert_eq!(report.source, "let x = )");
    assert!(report.error.is_some());
    let open = parse_source(&engine, "do { ");
    assert!(!open.complete);
    assert!(open.error.is_some());
}

#[test]
fn outcomes_become_reports() {
    let took = Duration::from_millis(7);
    let report = eval_report(ResultId(3), "x", took, EvalOutcome::Refused("bad".into()), UNIT);
    assert_eq!((report.id, report.status, report.exit_code), (ResultId(3), ResultStatus::Failed, 1));
    assert_eq!((report.source.as_str(), report.duration), ("x", took));
    assert!(matches!(report.body, ResultBody::Diagnostic(text) if text == "bad"));

    let report = eval_report(ResultId(3), "1 + 1", took, EvalOutcome::Value(number(2)), UNIT);
    assert_eq!((report.status, report.exit_code), (ResultStatus::Succeeded, 0));
    assert!(matches!(report.body, ResultBody::Scalar(text) if text == "2"));

    let report = eval_report(ResultId(3), "x", took, EvalOutcome::Broken("pipe".into()), UNIT);
    assert_eq!((report.status, report.exit_code), (ResultStatus::Succeeded, 0));

    let stop = EvalOutcome::Raised("Operation Interrupted".into());
    assert_eq!(eval_report(ResultId(3), "x", took, stop, UNIT).status, ResultStatus::Interrupted);
    let fail = EvalOutcome::Raised("division by zero".into());
    let report = eval_report(ResultId(3), "x", took, fail, UNIT);
    assert_eq!((report.status, report.exit_code), (ResultStatus::Failed, 1));
}

#[test]
fn requests_leave_in_order() {
    let mut handle = EngineHandle::new();
    handle.interrupt();
    assert!(handle.is_stopping());
    handle.eval(ResultId(1), "ls");
    assert!(!handle.is_stopping());
    handle.parse("l");
    handle.scope_commands();
    handle.scope_variables();
    let sent = handle.take_requests();
    assert_eq!(sent.len(), 5);
    assert!(matches!(sent[0], EngineRequest::Interrupt));
    assert!(matches!(&sent[1], EngineRequest::Eval { id, source } if id.0 == 1 && source == "ls"));
    assert!(matches!(&sent[2], EngineRequest::Parse { source } if source == "l"));
    assert!(matches!(sent[3], EngineRequest::ScopeCommands));
    assert!(matches!(sent[4], EngineRequest::ScopeVariables));
    assert!(handle.take_requests().is_empty());
}

#[test]
fn library_directories_come_once() {
    let mut paths = vec!["/a".to_string()];
    push_unique_path(&mut paths, "/a".into());
    push_unique_path(&mut paths, "".into());
    push_unique_path(&mut paths, "/b".into());
    assert_eq!(paths, ["/a", "/b"]);

    let mut found = Vec::new();
    collect_existing_lib_dirs(&Some(string(" /x : :/y:/x")), ':', &mut found);
    assert_eq!(found, ["/x", "/y"]);
    let mut found = Vec::new();
    collect_existing_lib_dirs(&Some(list(vec![string("/p"), number(4), string("/q")])), ':', &mut found);
    assert_eq!(found, ["/p", "/q"]);
    let mut found = Vec::new();
    collect_existing_lib_dirs(&None, ':', &mut found);
    assert!(found.is_empty());

    let further = vec!["/y".to_string(), "/z".to_string()];
    assert_eq!(seed_lib_dirs(&Some(string("/x:/y")), ':', &further), ["/x", "/y", "/z"]);
    assert_eq!(seed_lib_dirs(&Some(string("/x;/y")), ';', &further), ["/x", "/y", "/z"]);
}

#[test]
fn snapshots_keep_named_colors() {
    assert_eq!(color_name(&string("red")).as_deref(), Some("red"));
    let styled = record(vec![("fg", string("blue")), ("attr", string("b"))]);
    assert_eq!(color_name(&styled).as_deref(), Some("blue"));
    assert_eq!(color_name(&record(vec![("bg", string("blue"))])), None);
    assert_eq!(color_name(&number(3)), None);
    let entries = vec![
        Field { name: "string".into(), value: string("green") },
        Field { name: "hints".into(), value: number(1) },
        Field { name: "int".into(), value: styled },
    ];
    let snap = snapshot("/c".into(), "/e".into(), &entries, 2);
    assert_eq!(snap.nu_version, "0.115.0");
    assert_eq!((snap.config_path.as_str(), snap.env_path.as_str()), ("/c", "/e"));
    assert_eq!(
        snap.color_config,
        vec![("string".to_string(), "green".to_string()), ("int".to_string(), "blue".to_string())]
    );
    assert_eq!(snap.float_precision, 2);
}

#[test]
fn style_keys_by_kind() {
    assert_eq!(style_key(CellKind::Text), "string");
    assert_eq!(style_key(CellKind::Date), "datetime");
    assert_eq!(style_key(CellKind::Empty), "empty");
    assert_eq!(style_key(CellKind::Other), "string");
    assert_eq!(result_cap(), 10);
}

#[test]
fn durations_are_written_by_the_outside_formatter() {
    let nanos = Nanos::new(90_061_000_000_000).expect("fits");
    let value = NuValue::Duration { val: nanos, style: bare() };
    assert_eq!(value.to_abbreviated_string(DurationUnit::Week), "1day 1hr 1min 1sec");
    assert_eq!(value.to_abbreviated_string(DurationUnit::Minute), "1501min 1sec");
    let cell = value_cell("took", &value, DurationUnit::Hour, 8);
    assert_eq!(cell.text, "25hr 1min 1sec");
    assert_eq!(cell.sort, SortKey::Int(90_061_000_000_000));
    assert_eq!(cell.kind, CellKind::Duration);
    assert!(Nanos::new(i64::MIN).is_none());
    assert_eq!(Nanos::new(-5).map(|n| n.count()), Some(-5));
}

#[test]
fn scalars_become_cells() {
    let cell = value_cell("n", &number(-4), UNIT, 8);
    assert_eq!((cell.text.as_str(), cell.kind, cell.sort), ("-4", CellKind::Int, SortKey::Int(-4)));
    let cell = value_cell("b", &boolean(true), UNIT, 8);
    assert_eq!((cell.text.as_str(), cell.kind, cell.sort), ("true", CellKind::Bool, SortKey::Int(1)));
    let cell = value_cell("e", &NuValue::Nothing { style: bare() }, UNIT, 8);
    assert_eq!((cell.text.as_str(), cell.kind, cell.sort), ("", CellKind::Empty, SortKey::Empty));
    let key = FloatKey { rank: 7, text: "1.5".into() };
    let float = NuValue::Float {
        val: key.clone(),
        fixed: "1.50".into(),
        obvious: "1.5".into(),
        style: bare(),
    };
    let cell = value_cell("f", &float, UNIT, 8);
    assert_eq!((cell.text.as_str(), cell.kind), ("1.50", CellKind::Float));
    assert_eq!(cell.sort, SortKey::Float(key));
    assert_eq!(float.to_abbreviated_string(UNIT), "1.5");
    let size = NuValue::Filesize { val: 2048, text: "2.0 kB".into(), style: bare() };
    let cell = value_cell("s", &size, UNIT, 8);
    assert_eq!((cell.text.as_str(), cell.sort), ("2.0 kB", SortKey::Int(2048)));
    let date = NuValue::Date { nanos: None, text: "now".into(), style: bare() };
    let cell = value_cell("d", &date, UNIT, 8);
    assert_eq!((cell.kind, cell.sort), (CellKind::Date, SortKey::Int(0)));
    let cell = value_cell("c", &NuValue::Closure { id: 9 }, UNIT, 8);
    assert_eq!((cell.text.as_str(), cell.sort), ("<closure>", SortKey::Text("<closure>".into())));
    let cell = value_cell("o", &NuValue::Binary { val: vec![1, 255] }, UNIT, 8);
    assert_eq!((cell.text.as_str(), cell.kind), ("[1, 255]", CellKind::Other));
}

#[test]
fn names_take_the_color_of_their_file() {
    let red = AnsiStyle { foreground: Some(AnsiColor::Red), is_bold: false };
    let blue = AnsiStyle { foreground: Some(AnsiColor::Blue), is_bold: true };
    let value = NuValue::Text { val: "src".into(), style: red, path_style: Some(blue) };
    let cell = value_cell("name", &value, UNIT, 8);
    assert_eq!((cell.color, cell.bold), (Some((88, 156, 232)), true));
    let cell = value_cell("other", &value, UNIT, 8);
    assert_eq!((cell.color, cell.bold), (Some((232, 88, 88)), false));
    let plain = NuValue::Text { val: "src".into(), style: red, path_style: Some(bare()) };
    assert_eq!(value_cell("name", &plain, UNIT, 8).color, Some((232, 88, 88)));
}

#[test]
fn nested_cells_say_how_large_they_are() {
    let rows = list(vec![record(vec![("a", number(1))]), record(vec![("b", number(2))])]);
    let cell = value_cell("x", &rows, UNIT, 8);
    assert_eq!(cell.text, "2 rows");
    let store = cell.nested.expect("table");
    assert_eq!(store.columns, ["a", "b"]);
    assert_eq!(store.rows[0][1].text, "");
    assert_eq!(store.rows[0][1].sort, SortKey::Empty);
    let one = value_cell("x", &list(vec![record(vec![("a", number(1))])]), UNIT, 8);
    assert_eq!(one.text, "1 row · 1 fields");
    let deep = value_cell("x", &record(vec![("a", number(1)), ("b", number(2))]), UNIT, 0);
    assert_eq!(deep.text, "2 fields");
    assert!(deep.nested.is_none());
    let many = value_cell("x", &list((0..30).map(number).collect()), UNIT, 1);
    assert_eq!(many.text, "30 rows");
    let bare_list = value_cell("x", &list((0..30).map(number).collect()), UNIT, 0);
    assert_eq!(bare_list.text, "30 items");
}

#[test]
fn compact_lists_have_limits() {
    assert_eq!(compact_value_text(&list(vec![]), UNIT).as_deref(), Some("[]"));
    assert_eq!(compact_value_text(&list((0..25).map(number).collect()), UNIT), None);
    let four = list(vec![list(vec![list(vec![list(vec![number(1)])])])]);
    assert_eq!(compact_value_text(&four, UNIT), None);
    let three = list(vec![list(vec![list(vec![number(1)])])]);
    assert_eq!(compact_value_text(&three, UNIT).as_deref(), Some("[[[1]]]"));
    assert_eq!(compact_value_text(&list(vec![record(vec![])]), UNIT), None);
    assert_eq!(compact_value_text(&number(1), UNIT), None);
    let mixed = list(vec![
        NuValue::Nothing { style: bare() },
        NuValue::Binary { val: vec![0, 171] },
        boolean(false),
    ]);
    assert_eq!(compact_value_text(&mixed, UNIT).as_deref(), Some("[null, 0x[00ab], false]"));
    assert!(is_scalar_leaf(&number(1)));
    assert!(!is_scalar_leaf(&NuValue::Closure { id: 1 }));
    assert_eq!(scalar_text(&string("s"), UNIT), "s");
}

#[test]
fn abbreviations_tell_sizes() {
    let table = list(vec![record(vec![("a", number(1))])]);
    assert_eq!(table.to_abbreviated_string(UNIT), "[table 1 row]");
    assert_eq!(list(vec![number(1), number(2)]).to_abbreviated_string(UNIT), "[list 2 items]");
    assert_eq!(list(vec![]).to_abbreviated_string(UNIT), "[list 0 items]");
    assert_eq!(record(vec![("a", number(1))]).to_abbreviated_string(UNIT), "{record 1 field}");
    assert_eq!(record(vec![]).to_abbreviated_string(UNIT), "{record 0 fields}");
    assert_eq!(NuValue::Closure { id: 12 }.to_abbreviated_string(UNIT), "closure_12");
}

#[test]
fn bodies_by_value() {
    let nothing = NuValue::Nothing { style: bare() };
    assert!(matches!(value_to_body(&nothing, UNIT, 8), ResultBody::Empty));
    let bytes = NuValue::Binary { val: vec![1, 2, 3] };
    assert!(matches!(
        value_to_body(&bytes, UNIT, 8),
        ResultBody::Binary { bytes: 3, summary } if summary == "3 bytes"
    ));
    assert!(matches!(value_to_body(&string("a\nb"), UNIT, 8), ResultBody::Text(t) if t == "a\nb"));
    assert!(matches!(value_to_body(&string("a"), UNIT, 8), ResultBody::Scalar(t) if t == "a"));
    assert!(matches!(list_to_body(&vec![], UNIT, 8), ResultBody::Empty));
    let ResultBody::Table(column) = list_to_body(&vec![number(1), string("x")], UNIT, 8) else {
        panic!("expected a column");
    };
    assert_eq!(column.columns, ["value"]);
    assert_eq!(column.rows[1][0].text, "x");
    let small = record(vec![("a", number(1)), ("b", string("x"))]);
    let ResultBody::Table(row) = value_to_body(&small, UNIT, 8) else {
        panic!("expected a row");
    };
    assert_eq!(row.columns, ["a", "b"]);
    assert_eq!(row.row_count(), 1);
    let NuValue::Record { val } = small else {
        panic!("a record");
    };
    assert!(!should_pair_record(&val));
}

#[test]
fn commands_without_aliases() {
    let command = |name: &str, is_alias: bool| CommandInfo {
        name: name.into(),
        category: "core".into(),
        kind: "built-in".into(),
        description: "does".into(),
        is_alias,
    };
    let store = command_store(&vec![command("ls", false), command("ll", true)]);
    assert_eq!(store.columns, ["name", "category", "type", "description"]);
    assert_eq!(store.row_count(), 1);
    assert_eq!(store.rows[0][2].text, "built-in");
}

#[test]
fn the_engine_lists_its_commands() {
    let store = collect_command_store(&create_default_context());
    assert!(store.row_count() > 10);
    let row = store.rows.iter().find(|row| row[0].text == "let").expect("a command");
    assert_eq!((row[1].text.as_str(), row[2].text.as_str()), ("core", "keyword"));
    assert!(!row[3].text.is_empty());
}

#[test]
fn variables_show_one_level() {
    let value = record(vec![("a", record(vec![("b", number(1))]))]);
    let cell = shallow_value_cell(&value, UNIT);
    assert_eq!(cell.text, "1 fields");
    let store = cell.nested.expect("fields");
    assert_eq!(store.columns, ["field", "value"]);
    assert_eq!(store.row_count(), 1);
    assert_eq!(store.rows[0][1].text, "1 fields");
    assert!(store.rows[0][1].nested.is_none());
    let list_of_records = list(vec![value]);
    let cell = shallow_value_cell(&list_of_records, UNIT);
    assert_eq!(cell.text, "1 items");
    assert!(cell.nested.expect("items").rows[0][0].nested.is_none());
}

#[test]
fn reports_and_snapshots_are_cloned() {
    let report = report_from_errors("ls", &vec!["bad".to_string()]);
    let copy = report.clone();
    assert_eq!((copy.source.as_str(), copy.complete, copy.error.as_deref()), ("ls", true, Some("bad")));
    let entries = vec![Field { name: "string".into(), value: string("green") }];
    let copy = snapshot("/c".into(), "/e".into(), &entries, 2).clone();
    assert_eq!(copy.color_config, vec![("string".to_string(), "green".to_string())]);
    let outcome = EvalOutcome::Value(list(vec![record(vec![("a", number(1))])]));
    let copy = eval_report(ResultId(4), "x", Duration::from_millis(3), outcome, UNIT).clone();
    assert_eq!((copy.id, copy.duration), (ResultId(4), Duration::from_millis(3)));
    assert!(matches!(copy.body, ResultBody::Table(store) if store.rows[0][0].text == "1"));
    assert_eq!(EngineSnapshot::default().float_precision, 0);
}

#[test]
fn variables_are_sorted_by_name() {
    let variable = |name: &str, value: NuValue| {
        record(vec![
            ("name", string(name)),
            ("type", string("any")),
            ("value", value),
            ("is_const", boolean(name == "$nu")),
        ])
    };
    let vals = vec![
        variable("$Zed", number(1)),
        number(5),
        variable("$nu", record(vec![("a", record(vec![("b", number(1))]))])),
        variable("$abc", list((0..50).map(|n| record(vec![("n", number(n))])).collect())),
    ];
    let store = collect_variable_store(&vals, &record(vec![]), UNIT);
    let names: Vec<_> = store.rows.iter().map(|row| row[0].text.as_str()).collect();
    assert_eq!(names, ["$abc", "$nu", "$Zed"]);
    assert_eq!(store.rows[0][2].text, "50 items");
    assert_eq!(store.rows[0][2].nested.as_ref().map(|s| s.row_count()), Some(40));
    assert_eq!(store.rows[1][3].text, "true");
    let inner = store.rows[1][2].nested.as_ref().expect("fields");
    assert_eq!(inner.rows[0][1].text, "1 fields");
    assert!(inner.rows[0][1].nested.is_none());
    assert!(variable_row(&number(3), UNIT).is_none());
    let lone = variable_row(&record(vec![("name", string("$x"))]), UNIT).expect("a row");
    assert_eq!((lone[1].text.as_str(), lone[2].text.as_str(), lone[3].text.as_str()), ("any", "—", "false"));
}

#[test]
fn environment_stands_in_for_variables() {
    let env = record(vec![("PATH", string("/bin")), ("PWD", string("/"))]);
    let store = collect_variable_store(&vec![], &env, UNIT);
    assert_eq!(store.columns, ["name", "type", "value", "is_const"]);
    assert_eq!(store.rows[0][0].text, "$env");
    assert_eq!(store.rows[0][2].text, "2 rows");
    assert!(store.rows[0][2].nested.is_some());
}

fn is_rectangular(store: &ResultStore) -> bool {
    store.rows.iter().all(|row| {
        row.len() == store.columns.len()
            && row.iter().all(|cell| cell.nested.as_deref().map_or(true, is_rectangular))
    })
}

#[test]
fn tables_have_a_cell_for_each_column() {
    let value = record(vec![
        ("rows", list(vec![record(vec![("a", number(1))]), record(vec![("b", string("x\ny"))])])),
        ("mixed", list(vec![number(1), record(vec![("c", list(vec![record(vec![])]))])])),
        ("deep", record(vec![("", list(vec![record(vec![("p", string("q"))])]))])),
    ]);
    let ResultBody::Table(store) = value_to_body(&value, UNIT, 8) else {
        panic!("expected a table");
    };
    assert!(is_rectangular(&store));
    assert_eq!(store.row_count(), 3);
}

#[test]
fn only_scalars_have_a_color() {
    let cell = value_cell("name", &list(vec![string("a")]), UNIT, 8);
    assert_eq!((cell.color, cell.bold), (None, false));
    let red = AnsiStyle { foreground: Some(AnsiColor::Red), is_bold: true };
    let cell = value_cell("x", &NuValue::Int { val: 1, style: red }, UNIT, 8);
    assert_eq!((cell.color, cell.bold), (Some((232, 88, 88)), true));
}

#[test]
fn blanks_around_a_source_do_not_matter() {
    for source in ["ls", "ls |", "[1", "", "f out>"] {
        let padded = format!(" \n{source}\t ");
        assert_eq!(source_looks_complete(&padded), source_looks_complete(source));
    }
}
