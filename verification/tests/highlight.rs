use nu_cmd_lang::create_default_context;
use sisko::highlight::{
    highlight_lines, highlight_runs, is_nushell, runs_of_shapes, split_runs_into_lines, styles,
    FlatSpan, NuInputHighlighter, Run, RunStyle,
};

fn bare() -> RunStyle {
    RunStyle { color: None, bold: false }
}

fn loud() -> RunStyle {
    RunStyle { color: None, bold: true }
}

fn run(start: usize, end: usize, style: RunStyle) -> Run {
    Run { start, end, style }
}

fn span(start: usize, end: usize, shape: &str) -> FlatSpan {
    FlatSpan { start, end, shape: shape.to_string() }
}

fn places(runs: &[Run]) -> Vec<(usize, usize)> {
    runs.iter().map(|r| (r.start, r.end)).collect()
}

#[test]
fn highlights_pipeline_tokens() {
    let engine = create_default_context();
    let runs = highlight_runs(&engine, "ls | where type == file");
    let lines = highlight_lines(&engine, "def foo [] { 1 }");
    assert!(!lines.is_empty());
    assert!(runs.len() >= 3, "expected several highlight runs, got {runs:?}");
    assert!(runs.iter().any(|r| r.start < 2 && r.style.color.is_some()));
}

#[test]
fn runs_cover_the_line() {
    let shapes = vec![
        span(3, 5, "shape_string"),
        span(10, 12, "shape_string"),
        span(11, 15, "shape_int"),
        span(18, 40, "shape_string"),
        span(50, 60, "shape_string"),
    ];
    let runs = runs_of_shapes(&shapes, 10, 12);
    assert_eq!(places(&runs), [(0, 2), (2, 5), (5, 8), (8, 12)]);
    assert!(runs[0].style.color.is_some());
    assert_eq!(runs[2].style, bare());
    assert_ne!(runs[0].style, runs[1].style);
    assert!(runs_of_shapes(&shapes, 10, 0).is_empty());
    assert_eq!(places(&runs_of_shapes(&vec![], 0, 4)), [(0, 4)]);
}

#[test]
fn parts_of_the_line_are_clipped() {
    let runs = vec![run(0, 4, loud()), run(4, 6, bare()), run(6, 10, loud())];
    assert_eq!(places(&styles(&runs, 2, 8)), [(2, 4), (4, 6), (6, 8)]);
    assert_eq!(places(&styles(&runs, 8, 14)), [(8, 10), (10, 14)]);
    assert_eq!(places(&styles(&runs, 3, 3)), [(3, 3)]);
    assert_eq!(places(&styles(&vec![], 1, 5)), [(1, 5)]);
    let gap = vec![run(4, 6, loud())];
    assert_eq!(places(&styles(&gap, 0, 8)), [(0, 4), (4, 6), (6, 8)]);
}

#[test]
fn lines_keep_the_text() {
    let source = "ab\nä\n\nc";
    let runs = vec![run(0, 1, loud()), run(1, 5, bare()), run(5, 8, loud())];
    let lines = split_runs_into_lines(source, &runs);
    let texts: Vec<String> = lines
        .iter()
        .map(|line| line.iter().map(|(text, _)| text.as_str()).collect())
        .collect();
    assert_eq!(texts, ["ab", "ä", "", "c"]);
    assert_eq!(lines[0], vec![("a".to_string(), loud()), ("b".to_string(), bare())]);
    let broken = split_runs_into_lines("ä", &vec![run(0, 1, loud())]);
    assert_eq!(broken, vec![vec![("ä".to_string(), bare())]]);
    assert_eq!(split_runs_into_lines("", &vec![]), vec![Vec::new()]);
}

#[test]
fn the_editor_asks_for_parts() {
    let mut highlighter = NuInputHighlighter::new(create_default_context());
    assert_eq!(places(&highlighter.styles(0, 3)), [(0, 3)]);
    highlighter.update("let x = 1");
    let part = highlighter.styles(0, 9);
    assert!(part.len() > 1);
    assert_eq!(part[0].start, 0);
    assert_eq!(part[part.len() - 1].end, 9);
    assert_eq!(highlighter.language(), "nushell");
    assert!(is_nushell("nu"));
    assert!(is_nushell("nushell"));
    assert!(!is_nushell("rust"));
}
