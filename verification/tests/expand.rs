use sisko::color::AnsiStyle;
use sisko::expand::{
    cell_display_width, cell_line_count, display_width, format_expanded, format_row,
};
use sisko::value::{DurationUnit, Field, NuValue};

const UNIT: DurationUnit = DurationUnit::Week;

fn string(text: &str) -> NuValue {
    let style = AnsiStyle { foreground: None, is_bold: false };
    NuValue::Text { val: text.to_string(), style, path_style: None }
}

fn record(fields: Vec<(&str, NuValue)>) -> NuValue {
    NuValue::Record {
        val: fields
            .into_iter()
            .map(|(name, value)| Field { name: name.to_string(), value })
            .collect(),
    }
}

#[test]
fn expands_record_list_as_inner_table() {
    let rows = vec![
        record(vec![("name", string("ls")), ("type", string("plugin"))]),
        record(vec![("name", string("open")), ("type", string("builtin"))]),
    ];
    let text = format_expanded(&NuValue::List { vals: rows }, UNIT);
    assert!(text.contains("name"));
    assert!(text.contains("ls"));
    assert!(text.contains("open"));
    assert!(!text.contains("[table"));
    assert_eq!(text, "name  type   \n----  -------\nls    plugin \nopen  builtin");
}

#[test]
fn expands_record_as_pairs() {
    let rec = record(vec![("input", string("nothing")), ("output", string("table"))]);
    let text = format_expanded(&rec, UNIT);
    assert!(text.contains("input"));
    assert!(text.contains("output"));
    assert!(!text.contains("[record"));
    assert_eq!(text, "input   nothing\noutput  table");
}

#[test]
fn further_lines_stand_below_the_first() {
    let rec = record(vec![("a", string("one\ntwo")), ("long", string(""))]);
    assert_eq!(format_expanded(&rec, UNIT), "a     one\n      two\nlong  ");
    let table = NuValue::List {
        vals: vec![
            record(vec![("k", string("x\ny")), ("v", string("1"))]),
            record(vec![("v", string("2"))]),
        ],
    };
    assert_eq!(format_expanded(&table, UNIT), "k  v\n-  -\nx  1\ny   \n   2");
}

#[test]
fn long_lists_are_cut() {
    let items = NuValue::List { vals: (0..26).map(|i| string(&format!("i{i}"))).collect() };
    let text = format_expanded(&items, UNIT);
    assert_eq!(text.lines().count(), 25);
    assert!(text.starts_with("• i0\n• i1\n"));
    assert!(text.ends_with("• i23\n• … 2 more"));
    let rows = NuValue::List {
        vals: (0..30).map(|i| record(vec![("n", string(&format!("{i}")))])).collect(),
    };
    assert!(format_expanded(&rows, UNIT).ends_with("\n23\n… 6 more rows"));
    let blank = NuValue::List { vals: vec![record(vec![]), record(vec![])] };
    assert_eq!(format_expanded(&blank, UNIT), "[2 rows]");
    assert_eq!(format_expanded(&NuValue::List { vals: vec![] }, UNIT), "[]");
    assert_eq!(format_expanded(&record(vec![]), UNIT), "{}");
}

#[test]
fn depth_ends_the_expansion() {
    let deep = record(vec![(
        "a",
        record(vec![("b", record(vec![("c", record(vec![("d", string("x"))]))]))]),
    )]);
    assert_eq!(format_expanded(&deep, UNIT), "a  b  c  {record 1 field}");
}

#[test]
fn widths_count_wide_characters_twice() {
    assert_eq!(display_width("abc"), 3);
    assert_eq!(display_width("äb"), 3);
    assert_eq!(cell_display_width("ab\nabcd\nx"), 4);
    assert_eq!(cell_display_width(""), 0);
    assert_eq!(cell_line_count(""), 1);
    assert_eq!(cell_line_count("a\nb"), 2);
    assert_eq!(format_row(&vec!["a".into(), "b".into()], &vec![3, 2, 9]), "a    b ");
}
