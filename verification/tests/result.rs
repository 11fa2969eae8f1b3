use sisko::export::{
    copy_result, escape_delimited, escape_json, json_value, nuon_key, reads_float, CopyFormat,
};
use sisko::listing::TableView;
use sisko::order::{FloatKey, SortKey};
use sisko::result::{
    Cell, CellKind, InvocationResult, ResultBody, ResultId, ResultStatus, ResultStore,
};

fn sized(text: &str, size: i64) -> Cell {
    Cell {
        text: text.into(),
        kind: CellKind::Filesize,
        sort: SortKey::Int(size),
        color: None,
        bold: false,
        nested: None,
    }
}

fn store() -> ResultStore {
    ResultStore {
        columns: vec!["name".into(), "size".into()],
        rows: vec![
            vec![Cell::text("b"), sized("20 B", 20)],
            vec![Cell::text("a"), sized("3 B", 3)],
            vec![Cell::text("c"), sized("10 B", 10)],
        ],
    }
}

fn keyed(sort: SortKey) -> Cell {
    let mut cell = Cell::text("x");
    cell.sort = sort;
    cell
}

fn column(keys: Vec<SortKey>) -> ResultStore {
    ResultStore {
        columns: vec!["k".into()],
        rows: keys.into_iter().map(|key| vec![keyed(key)]).collect(),
    }
}

fn sorted(store: &ResultStore, ascending: bool) -> Vec<usize> {
    let mut view = TableView::for_columns(1);
    view.sort_col = Some(0);
    view.sort_asc = ascending;
    store.visible_indices(&view)
}

#[test]
fn sort_numeric_column() {
    let store = store();
    let mut view = TableView::for_columns(2);
    view.sort_col = Some(1);
    view.sort_asc = true;
    let indices = store.visible_indices(&view);
    let sizes: Vec<_> = indices.iter().map(|&i| store.rows[i][1].text.as_str()).collect();
    assert_eq!(sizes, ["3 B", "10 B", "20 B"]);
}

#[test]
fn filter_equals_and_search() {
    let store = store();
    let mut view = TableView::for_columns(2);
    view.equals[0] = Some("a".into());
    assert_eq!(store.visible_indices(&view), vec![1]);
    view.equals[0] = None;
    view.search = "c".into();
    assert_eq!(store.visible_indices(&view), vec![2]);
}

#[test]
fn has_nested_detects_child_store() {
    let mut cell = Cell::text("13 rows");
    cell.nested = Some(Box::new(ResultStore {
        columns: vec!["value".into()],
        rows: vec![vec![Cell::text("a")]],
    }));
    let nested = ResultStore {
        columns: vec!["field".into(), "value".into()],
        rows: vec![vec![Cell::text("menus"), cell]],
    };
    assert!(nested.has_nested());
    assert!(!store().has_nested());
    assert!(!nested.prefers_virtual());
    let mut large = store();
    large.rows = (0..80).map(|_| vec![Cell::text("a"), Cell::text("b")]).collect();
    assert!(large.prefers_virtual());
}

#[test]
fn multiline_cell_keeps_text_for_search_and_labels_lines() {
    let mut cell = Cell::text("first\nsecond\nthird");
    cell.nested = Some(Box::new(ResultStore::text_block(&cell.text)));
    assert_eq!(cell.expand_label(), "3 lines");
    assert!(cell.text.contains("second"));
    let store = ResultStore {
        columns: vec!["extra_description".into()],
        rows: vec![vec![cell]],
    };
    let mut view = TableView::for_columns(1);
    view.search = "second".into();
    assert_eq!(store.visible_indices(&view), vec![0]);
    assert!(store.to_plain_text(&[0]).contains("first second third"));
}

#[test]
fn text_block_copy_returns_raw_text() {
    let store = ResultStore::text_block("a\nb\nc");
    assert!(store.is_text_block());
    assert_eq!(store.to_plain_text(&[0]), "a\nb\nc");
}

#[test]
fn csv_export_quotes_commas() {
    let store = ResultStore {
        columns: vec!["msg".into()],
        rows: vec![vec![Cell::text("hello, world")]],
    };
    let csv = store.to_delimited(&[0], ',');
    assert!(csv.contains("\"hello, world\""));
}

#[test]
fn sorting_is_stable_both_ways() {
    let keys = || [2, 1, 2, 1].into_iter().map(SortKey::Int).collect::<Vec<_>>();
    assert_eq!(sorted(&column(keys()), true), [1, 3, 0, 2]);
    assert_eq!(sorted(&column(keys()), false), [0, 2, 1, 3]);
}

#[test]
fn sorting_many_rows_matches_the_standard_sort() {
    let keys: Vec<i64> = (0..500).map(|i: i64| (i * 7919) % 61).collect();
    let store = column(keys.iter().map(|&k| SortKey::Int(k)).collect());
    let mut expected: Vec<usize> = (0..500).collect();
    expected.sort_by_key(|&i| keys[i]);
    assert_eq!(sorted(&store, true), expected);
    expected.sort_by(|&a, &b| keys[b].cmp(&keys[a]).then(a.cmp(&b)));
    assert_eq!(sorted(&store, false), expected);
}

#[test]
fn empty_keys_and_missing_cells_come_first() {
    let mut store = column(vec![SortKey::Int(1), SortKey::Empty, SortKey::Text("a".into())]);
    store.rows.push(Vec::new());
    assert_eq!(sorted(&store, true), [3, 1, 0, 2]);
}

#[test]
fn texts_sort_without_regard_to_case() {
    let keys = ["b", "A", "a", "B"].map(|t| SortKey::Text(t.into()));
    assert_eq!(sorted(&column(keys.into()), true), [1, 2, 0, 3]);
}

#[test]
fn integers_sort_among_floats() {
    let float = |x: f64| {
        let bits = x.to_bits() as i64;
        let rank = if bits < 0 { bits ^ i64::MAX } else { bits };
        SortKey::Float(FloatKey { rank, text: x.to_string() })
    };
    let keys = vec![float(2.5), SortKey::Int(3), float(-1.0), SortKey::Int(2), float(f64::NAN)];
    assert_eq!(sorted(&column(keys), true), [2, 3, 0, 1, 4]);
}

#[test]
fn search_ignores_case_and_blanks() {
    let store = ResultStore {
        columns: vec!["t".into()],
        rows: vec![vec![Cell::text("ÄPFEL")], vec![Cell::text("pear")]],
    };
    let mut view = TableView::for_columns(1);
    view.search = "  äpf ".into();
    assert_eq!(store.visible_indices(&view), [0]);
    view.search = "   ".into();
    assert_eq!(store.visible_indices(&view), [0, 1]);
    view.equals = vec![None, Some("".into())];
    assert_eq!(store.visible_indices(&view), [0, 1]);
    view.equals = vec![None, Some("x".into())];
    assert!(store.visible_indices(&view).is_empty());
}

#[test]
fn clicks_cycle_the_sort() {
    let mut view = TableView::for_columns(2);
    assert_eq!((view.sort_col, view.sort_asc), (None, true));
    view.cycle_sort(1);
    assert_eq!((view.sort_col, view.sort_asc), (Some(1), true));
    view.cycle_sort(1);
    assert_eq!((view.sort_col, view.sort_asc), (Some(1), false));
    view.cycle_sort(1);
    assert_eq!((view.sort_col, view.sort_asc), (None, true));
    view.cycle_sort(0);
    view.cycle_sort(1);
    assert_eq!((view.sort_col, view.sort_asc), (Some(1), true));
    let view = TableView::default();
    assert_eq!((view.sort_col, view.sort_asc, view.equals.len()), (None, false, 0));
}

#[test]
fn values_of_a_column_are_distinct_and_sorted() {
    let store = ResultStore {
        columns: vec!["t".into()],
        rows: ["b", "", "a", "b", "c"].into_iter().map(|t| vec![Cell::text(t)]).collect(),
    };
    assert_eq!(store.unique_values(0, 10), ["a", "b", "c"]);
    assert_eq!(store.unique_values(0, 2), ["a", "b"]);
    assert_eq!(store.unique_values(0, 1), ["b"]);
    assert_eq!(store.unique_values(0, 0), ["b"]);
    assert!(store.unique_values(4, 10).is_empty());
}

#[test]
fn exports_in_every_format() {
    let store = ResultStore {
        columns: vec!["a b".into(), "n".into()],
        rows: vec![
            vec![Cell::text("say \"hi\"\nyou"), Cell::text("1.5")],
            vec![Cell::text("true")],
        ],
    };
    let rows = [1, 7, 0];
    assert_eq!(store.to_delimited(&rows, ','), "a b,n\ntrue,\n\"say \"\"hi\"\"\nyou\",1.5\n");
    assert_eq!(store.to_delimited(&rows, '\t'), "a b\tn\ntrue\t\n\"say \"\"hi\"\"\nyou\"\t1.5\n");
    assert_eq!(
        store.to_json(&rows),
        "[\n  {\"a b\": true, \"n\": \"\"},\n  {\"a b\": \"say \\\"hi\\\"\nyou\", \"n\": 1.5}\n]"
    );
    assert_eq!(
        store.to_nuon(&rows),
        "[{\"a b\": true, n: \"\"}, {\"a b\": \"say \\\"hi\\\"\nyou\", n: 1.5}]"
    );
    assert_eq!(
        store.to_markdown(&rows),
        "| a b | n |\n| --- | --- |\n| true |  |\n| say \"hi\" you | 1.5 |\n"
    );
    assert_eq!(store.to_plain_text(&rows), "a b\tn\ntrue\t\nsay \"hi\" you\t1.5\n");
    assert_eq!(store.to_json(&[]), "[\n  \n]");
    assert_eq!(store.to_nuon(&[]), "[]");
}

#[test]
fn copies_follow_the_view() {
    let mut view = TableView::for_columns(2);
    view.sort_col = Some(1);
    view.equals[0] = None;
    view.search = "0".into();
    let body = ResultBody::Table(store());
    assert_eq!(copy_result(&body, &view, CopyFormat::Csv), "name,size\nc,10 B\nb,20 B\n");
    assert_eq!(copy_result(&body, &view, CopyFormat::Tsv), "name\tsize\nc\t10 B\nb\t20 B\n");
    assert_eq!(copy_result(&body, &view, CopyFormat::Text), "name\tsize\nc\t10 B\nb\t20 B\n");
    assert!(copy_result(&body, &view, CopyFormat::Json).starts_with("[\n  {\"name\": \"c\""));
    assert!(copy_result(&body, &view, CopyFormat::Nuon).starts_with("[{name: \"c\""));
    assert!(copy_result(&body, &view, CopyFormat::Markdown).starts_with("| name | size |\n"));
    assert_eq!(copy_result(&ResultBody::Scalar("2".into()), &view, CopyFormat::Csv), "2");
    assert_eq!(copy_result(&ResultBody::Text("t".into()), &view, CopyFormat::Csv), "t");
    assert_eq!(copy_result(&ResultBody::Diagnostic("d".into()), &view, CopyFormat::Csv), "d");
    let binary = ResultBody::Binary { bytes: 3, summary: "3 bytes".into() };
    assert_eq!(copy_result(&binary, &view, CopyFormat::Csv), "3 bytes");
    assert_eq!(copy_result(&ResultBody::Empty, &view, CopyFormat::Csv), "");
    assert_eq!(CopyFormat::Markdown.label(), "Markdown");
    assert_eq!(CopyFormat::Nuon.label(), "NUON");
}

#[test]
fn fields_are_escaped() {
    assert_eq!(escape_delimited("a,b", ','), "\"a,b\"");
    assert_eq!(escape_delimited("a,b", '\t'), "a,b");
    assert_eq!(escape_delimited("a\"b", ','), "\"a\"\"b\"");
    assert_eq!(escape_json("a\\\"b"), "a\\\\\\\"b");
    assert_eq!(json_value("false"), "false");
    assert_eq!(json_value("x"), "\"x\"");
    assert_eq!(json_value(""), "\"\"");
    assert_eq!(nuon_key("a_b-9"), "a_b-9");
    assert_eq!(nuon_key(""), "");
    assert_eq!(nuon_key("ä"), "\"ä\"");
}

#[test]
fn numbers_read_as_the_standard_library_reads_them() {
    let parts = ["", "+", "-", "1", "12", ".", "e", "E", "inf", "Infinity", "nan", "NaN", " ", "x"];
    for a in parts {
        for b in parts {
            for c in parts {
                for d in parts {
                    let text = format!("{a}{b}{c}{d}");
                    assert_eq!(reads_float(&text), text.parse::<f64>().is_ok(), "{text:?}");
                }
            }
        }
    }
    for text in ["1.5e+10", "-.5", "5.", "1e", "1e+", "١", "0x10", "1_000", "infinit", "+nan"] {
        assert_eq!(reads_float(text), text.parse::<f64>().is_ok(), "{text:?}");
    }
}

#[test]
fn cells_tell_their_lines() {
    assert_eq!(Cell::text("a\nb\n").line_count(), 2);
    assert_eq!(Cell::text("").line_count(), 0);
    assert_eq!(Cell::text("\n").line_count(), 1);
    assert!(Cell::text("a\nb").is_multiline());
    assert!(!Cell::text("a").is_multiline());
    assert_eq!(Cell::text("a").expand_label(), "a");
    assert_eq!(Cell::text("Ab").sort, SortKey::Text("ab".into()));
    assert_eq!(Cell::text("Ab").export_text(), "Ab");
    let mut one = Cell::text("only");
    one.nested = Some(Box::new(ResultStore::text_block("only")));
    assert_eq!(one.expand_label(), "1 line");
    assert!(one.is_nested());
    let copy = one.clone();
    assert_eq!(copy.text, "only");
    assert!(copy.nested.is_some_and(|s| s.is_text_block()));
    let plain = Cell::default();
    assert_eq!((plain.text.as_str(), plain.kind, plain.sort), ("", CellKind::Text, SortKey::Empty));
}

#[test]
fn stores_tell_their_shape() {
    let pairs = ResultStore {
        columns: vec!["field".into(), "value".into()],
        rows: vec![vec![Cell::text("a"), Cell::text("1")]],
    };
    assert!(pairs.is_pairs());
    assert!(pairs.can_inline());
    assert!(!store().is_pairs());
    assert!(!ResultStore::default().can_inline());
    assert_eq!(store().column_chars(0), 8);
    assert_eq!(store().column_chars(9), 8);
    let wide = ResultStore {
        columns: vec!["a".into()],
        rows: vec![vec![Cell::text("\u{1b}[31mäöüäöü\u{1b}[0m")], vec![]],
    };
    assert_eq!(wide.column_chars(0), 12);
    assert!(!wide.column_has_nested(0));
    assert_eq!(wide.row_line_count(0), 1);
    assert_eq!(wide.row_line_count(1), 1);
    assert_eq!(wide.row_line_count(9), 1);
    let tall = ResultStore {
        columns: vec!["a".into()],
        rows: vec![vec![Cell::text(&"x\n".repeat(30))], vec![Cell::text("a\nb\nc")]],
    };
    assert_eq!(tall.row_line_count(0), 18);
    assert_eq!(tall.row_line_count(1), 3);
    assert!(CellKind::Duration.is_numeric());
    assert!(!CellKind::Date.is_numeric());
    assert_eq!(CellKind::default(), CellKind::Text);
}

#[test]
fn results_start_running() {
    let mut result = InvocationResult::running(ResultId(4), "ls");
    assert_eq!((result.id, result.source.as_str(), result.expanded), (ResultId(4), "ls", true));
    assert!(matches!(result.body, ResultBody::Empty));
    assert_eq!(result.status_label(), "running");
    result.status = ResultStatus::Succeeded;
    assert_eq!(result.status_label(), "ok");
    result.status = ResultStatus::Failed;
    assert_eq!(result.status_label(), "error");
    result.status = ResultStatus::Interrupted;
    assert_eq!(result.status_label(), "interrupted");
}

#[test]
fn different_texts_are_written_differently() {
    let texts = ["", "\"", "\"\"", "a", "a,b", "\"a,b\"", "a\nb", "\\", "\\\"", "\\\\\"", "'"];
    for a in texts {
        for b in texts {
            if a != b {
                assert_ne!(escape_delimited(a, ','), escape_delimited(b, ','));
                assert_ne!(escape_json(a), escape_json(b));
            }
        }
    }
}

#[test]
fn results_are_cloned_with_their_view() {
    let mut result = InvocationResult::running(ResultId(2), "ls");
    result.body = ResultBody::Table(store());
    result.log = vec!["note".into()];
    result.view.equals = vec![None, Some("3 B".into())];
    let copy = result.clone();
    assert_eq!((copy.id, copy.source.as_str(), copy.expanded), (ResultId(2), "ls", true));
    assert_eq!((copy.log.len(), copy.view.equals), (1, vec![None, Some("3 B".to_string())]));
    assert!(matches!(copy.body, ResultBody::Table(store) if store.row_count() == 3));
}
