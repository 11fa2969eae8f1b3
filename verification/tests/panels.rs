use sisko::engine::ParseReport;
use sisko::listing::TableView;
use sisko::panels::{
    body_look, cell_look, column_flex_weight, control_text, element_key, empty_dash,
    engine_status, exit_status, expandable_label, fills, help_label, help_rows, history_rows,
    inspect_column_limits, inspect_items, inspect_rows, is_code_column, looks_like_nu_value, parse_label,
    parse_status, row_to_scroll_to, rows_status, scroll_lines, size_label, title_label, variable_lines, variables_label,
    virtual_label, BodyLook, CellLook, InspectItem,
};
use sisko::paths::KeySet;
use sisko::result::{Cell, ResultBody, ResultStore};

fn table(columns: &[&str], rows: Vec<Vec<Cell>>) -> ResultStore {
    ResultStore { columns: columns.iter().map(|c| c.to_string()).collect(), rows }
}

fn nested(text: &str, store: ResultStore) -> Cell {
    let mut cell = Cell::text(text);
    cell.nested = Some(Box::new(store));
    cell
}

#[test]
fn columns_by_name() {
    assert!(is_code_column("Example"));
    assert!(is_code_column("SOURCE"));
    assert!(!is_code_column("sources"));
    assert_eq!(column_flex_weight("value"), 4);
    assert_eq!(column_flex_weight("name"), 1);
    assert_eq!(column_flex_weight("other"), 2);
    assert_eq!(inspect_column_limits("Code"), (280, 720));
    assert_eq!(inspect_column_limits("value"), (280, 720));
    assert_eq!(inspect_column_limits("Value"), (88, 360));
}

#[test]
fn cells_by_their_text() {
    assert!(looks_like_nu_value("  [1, 2]"));
    assert!(looks_like_nu_value("ls | length"));
    assert!(!looks_like_nu_value("ls|length"));
    assert_eq!(cell_look("a", &Cell::text("plain")), CellLook::Plain);
    assert_eq!(cell_look("code", &Cell::text("ls")), CellLook::Highlighted);
    assert_eq!(cell_look("code", &Cell::text("  ")), CellLook::Plain);
    assert_eq!(cell_look("a", &Cell::text("{a: 1}")), CellLook::Highlighted);
    assert_eq!(cell_look("code", &Cell::text("\u{1b}[1mx")), CellLook::Ansi);
    assert_eq!(cell_look("a", &nested("x", table(&["a"], vec![]))), CellLook::Nested);
    assert_eq!(element_key("a b/ä-_9"), "a_b__-_9");
    assert_eq!(empty_dash(" \n"), "—");
    assert_eq!(empty_dash(" x"), " x");
    assert_eq!(control_text(true, "x"), "▾ x");
    assert_eq!(control_text(false, "x"), "▸ x");
}

#[test]
fn bodies_by_their_content() {
    assert_eq!(body_look(&ResultBody::Empty), BodyLook::Nothing);
    assert_eq!(body_look(&ResultBody::Scalar("a".into())), BodyLook::Line);
    assert_eq!(body_look(&ResultBody::Scalar("a\nb".into())), BodyLook::Lines);
    assert_eq!(body_look(&ResultBody::Text("a".into())), BodyLook::Lines);
    assert_eq!(body_look(&ResultBody::Diagnostic("a".into())), BodyLook::Danger);
    let binary = ResultBody::Binary { bytes: 1, summary: "1 bytes".into() };
    assert_eq!(body_look(&binary), BodyLook::Line);
    let pairs = table(&["field", "value"], vec![]);
    assert_eq!(body_look(&ResultBody::Table(pairs)), BodyLook::Expandable);
    let flat = ResultBody::Table(table(&["a"], vec![]));
    assert_eq!(body_look(&flat), BodyLook::Virtual);
    assert!(fills(&flat));
    assert!(!fills(&binary));
    let many = (0..65).map(|_| vec![nested("x", table(&["a"], vec![]))]).collect();
    assert_eq!(body_look(&ResultBody::Table(table(&["a"], many))), BodyLook::Virtual);
}

#[test]
fn help_lists_matching_commands() {
    let rows = (0..500)
        .map(|i| vec![Cell::text(&format!("cmd{i}")), Cell::text("Core"), Cell::text("built-in")])
        .collect();
    let store = table(&["name", "category", "type", "description"], rows);
    assert_eq!(help_rows(&store, "").len(), 400);
    let found = help_rows(&store, "CMD49");
    assert_eq!(found.len(), 11);
    assert_eq!(found[0].name, "cmd49");
    assert_eq!((found[0].category.as_str(), found[0].kind.as_str(), found[0].description.as_str()), ("Core", "built-in", ""));
    assert_eq!(help_label(&store, 11), "11 commands · click to insert");
    assert_eq!(help_label(&ResultStore::default(), 0), "Loading `scope commands`…");
}

#[test]
fn history_shows_the_newest_first() {
    let history: Vec<String> = (0..60).map(|i| format!("h{i}")).collect();
    let shown = history_rows(&history);
    assert_eq!(shown.len(), 50);
    assert_eq!((shown[0].as_str(), shown[49].as_str()), ("h59", "h10"));
    assert!(history_rows(&vec![]).is_empty());
}

#[test]
fn variables_open_line_by_line() {
    let inner = table(
        &["field", "value"],
        vec![
            vec![Cell::text("PATH"), nested("2 items", table(&["value"], vec![vec![Cell::text("/bin")], vec![]]))],
            vec![Cell::text("PWD"), Cell::text("")],
        ],
    );
    let store = table(
        &["name", "type", "value", "is_const"],
        vec![
            vec![Cell::text("$env"), Cell::text("record"), nested("2 fields", inner)],
            vec![Cell::text("$x"), Cell::text("int"), Cell::text("4")],
        ],
    );
    let mut open = KeySet::new();
    let lines = variable_lines(&store, &open);
    assert_eq!(lines.len(), 2);
    assert!(lines[0].insertable && lines[0].nested && !lines[0].open);
    assert_eq!((lines[1].display.as_str(), lines[1].ty.as_str(), lines[1].text.as_str()), ("$x", "int", "4"));
    open.insert("$env");
    open.insert("$env/PATH");
    let lines = variable_lines(&store, &open);
    let shown: Vec<_> = lines.iter().map(|l| (l.key.as_str(), l.indent, l.text.as_str())).collect();
    assert_eq!(
        shown,
        [
            ("$env", 0, "2 fields"),
            ("$env/PATH", 1, "2 items"),
            ("$env/PATH//bin", 2, "/bin"),
            ("$env/PATH/row", 2, "—"),
            ("$env/PWD", 1, "—"),
            ("$x", 0, "4"),
        ]
    );
    assert_eq!(variables_label(&store), "2 bindings · click name to insert, ▸ to expand");
    assert_eq!(variables_label(&ResultStore::default()), "Loading `scope variables`…");
    let failed = table(&["error"], vec![vec![Cell::text("no")]]);
    assert_eq!(variables_label(&failed), "error: no");
    assert_eq!(variables_label(&table(&["error"], vec![])), "Variables query failed");
}

#[test]
fn bars_tell_the_state() {
    let report = |complete, error: Option<&str>| {
        Some(ParseReport { source: "x".into(), complete, error: error.map(|e| e.to_string()) })
    };
    assert_eq!(parse_label(&None), "incomplete");
    assert_eq!(parse_label(&report(true, None)), "ready");
    assert_eq!(parse_label(&report(false, None)), "incomplete");
    assert_eq!(parse_label(&report(true, Some("bad"))), "bad");
    assert_eq!(parse_status(&None), "parse …");
    assert_eq!(parse_status(&report(true, None)), "parse ok");
    assert_eq!(parse_status(&report(false, None)), "incomplete");
    assert_eq!(parse_status(&report(true, Some("bad"))), "parse error");
    assert_eq!(engine_status(true, ""), "busy");
    assert_eq!(engine_status(false, "/c"), "idle · /c");
    assert_eq!(exit_status(Some(-1)), "exit -1");
    assert_eq!(exit_status(None), "");
}

#[test]
fn tables_tell_their_size() {
    let store = table(&["a"], vec![vec![Cell::text("x")], vec![Cell::text("y")]]);
    let mut view = TableView::for_columns(1);
    view.search = "y".into();
    assert_eq!(rows_status(&store, &view), "1 / 2 rows");
    assert_eq!(size_label(&store), "2 rows × 1 cols");
    assert_eq!(size_label(&ResultStore::text_block("a\nb")), "2 lines");
    assert_eq!(size_label(&ResultStore::text_block("a")), "1 line");
    assert_eq!(expandable_label(&store), "2 rows · click ▸ to expand under the row");
    let pairs = table(&["field", "value"], vec![]);
    assert_eq!(expandable_label(&pairs), "0 fields · click ▸ to expand under the row");
    assert_eq!(
        virtual_label(&store, &Some(&view)),
        "1 of 2 rows · filter to find a command, ▸ expands below"
    );
    assert_eq!(
        virtual_label(&store, &None),
        "2 of 2 rows · filter to find a command, ▸ expands below"
    );
    assert_eq!(inspect_rows(&store, "root", &Some(&view)), [1]);
    assert_eq!(inspect_rows(&store, "root/0/0", &Some(&view)), [0, 1]);
    assert_eq!(inspect_rows(&store, "root", &None), [0, 1]);
    assert_eq!(row_to_scroll_to("root/7/0", &vec![3, 7, 1]), Some(1));
    assert_eq!(row_to_scroll_to("root/8/0", &vec![3, 7, 1]), None);
    assert_eq!(row_to_scroll_to("root/7/0/1/1", &vec![3, 7, 1]), None);
}

#[test]
fn opened_tables_draw_open_cells_below_their_rows() {
    let inner = table(&["n"], vec![vec![Cell::text("1")]]);
    let store = table(
        &["a", "b"],
        vec![
            vec![Cell::text("x"), nested("1 row", inner)],
            vec![Cell::text("y"), Cell::text("z")],
        ],
    );
    let mut open = KeySet::new();
    open.insert("root/0/1");
    open.insert("root/1/1");
    let items = inspect_items(&store, "root", &vec![1, 5, 0], &open);
    assert_eq!(items.len(), 3);
    assert!(matches!(&items[0], InspectItem::Row { row: 1, number, even: true } if number == "2"));
    assert!(matches!(&items[1], InspectItem::Row { row: 0, number, even: true } if number == "1"));
    assert!(matches!(&items[2], InspectItem::Nested { row: 0, col: 1, key } if key == "root/0/1"));
    assert_eq!(title_label("b", &store), "b · 2 rows × 2 cols");
    assert_eq!(scroll_lines(&vec!["".into(), "x".into()], true), ["", "x"]);
}
