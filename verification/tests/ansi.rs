use sisko::ansi::{looks_like_ansi, parse_ansi_lines, unescape_ansi, visible_text};
use sisko::color::Rgb;

#[test]
fn plain_text_is_one_span() {
    let lines = parse_ansi_lines("hello");
    assert_eq!(lines.len(), 1);
    assert_eq!(lines[0][0].text, "hello");
    assert!(lines[0][0].fg.is_none());
}

#[test]
fn strips_sgr_and_keeps_color() {
    let lines = parse_ansi_lines("\u{1b}[32mgreen\u{1b}[0m plain");
    assert_eq!(lines[0].len(), 2);
    assert_eq!(lines[0][0].text, "green");
    assert!(lines[0][0].fg.is_some());
    assert_eq!(lines[0][1].text, " plain");
    assert!(lines[0][1].fg.is_none());
}

#[test]
fn splits_lines_and_preserves_style() {
    let lines = parse_ansi_lines("\u{1b}[1;34mA\nB\u{1b}[0m");
    assert_eq!(lines.len(), 2);
    assert_eq!(lines[0][0].text, "A");
    assert!(lines[0][0].bold);
    assert_eq!(lines[1][0].text, "B");
    assert!(lines[1][0].bold);
}

#[test]
fn xterm_256_foreground() {
    let lines = parse_ansi_lines("\u{1b}[38;5;196mred\u{1b}[m");
    assert_eq!(lines[0][0].text, "red");
    assert_eq!(lines[0][0].fg.map(|c| (c.r, c.g, c.b)), Some((255, 0, 0)));
}

#[test]
fn unescapes_common_literal_forms() {
    for input in [
        "\\e[32mgreen\\e[0m",
        "\\u{1b}[32mgreen\\u{1b}[0m",
        "\\x1b[32mgreen\\x1b[0m",
        "\\033[32mgreen\\033[0m",
    ] {
        let lines = parse_ansi_lines(input);
        assert_eq!(lines[0][0].text, "green", "input={input}");
        assert!(lines[0][0].fg.is_some(), "input={input}");
    }
}

#[test]
fn escape_sequences_are_recognised() {
    assert!(looks_like_ansi("\u{1b}[31mx"));
    assert!(looks_like_ansi("\\e[31mx"));
    assert!(!looks_like_ansi("plain text"));
}

#[test]
fn visible_text_drops_every_sequence() {
    assert_eq!(visible_text("\u{1b}[1;31mred\u{1b}[0m and plain"), "red and plain");
    assert_eq!(visible_text("nothing here"), "nothing here");
    assert_eq!(visible_text("a\nb"), "a\nb");
}

#[test]
fn unescaping_twice_changes_nothing() {
    for input in ["\\e[1m", "\\x1b[0m", "plain", "\\u{1b}[2m tail", "\\033[0m"] {
        let once = unescape_ansi(input);
        assert_eq!(unescape_ansi(&once), once);
    }
    assert_eq!(unescape_ansi("\\e[1mx"), "\u{1b}[1mx");
}

#[test]
fn direct_colors_and_backgrounds() {
    let lines = parse_ansi_lines("\u{1b}[38;2;1;2;3;48;2;4;5;6mx");
    assert_eq!(lines[0][0].fg, Some(Rgb::new(1, 2, 3)));
    assert_eq!(lines[0][0].bg, Some(Rgb::new(4, 5, 6)));
}

#[test]
fn spans_hold_no_line_break() {
    let lines = parse_ansi_lines("a\n\u{1b}[31mb\r\nc\u{1b}[0m\u{1b}[2Kd\n");
    assert_eq!(lines.len(), 3);
    for span in lines.iter().flatten() {
        assert!(!span.text.contains('\n') && !span.text.contains('\r'));
    }
    assert_eq!(visible_text("a\n\u{1b}[31mb\r\nc\u{1b}[0m\u{1b}[2Kd\n"), "a\nb\ncd");
}

#[test]
fn one_sequence_makes_two_spans() {
    let lines = parse_ansi_lines("left\u{1b}[1;31mright");
    assert_eq!(lines.len(), 1);
    assert_eq!(lines[0].len(), 2);
    assert_eq!((lines[0][0].text.as_str(), lines[0][0].fg, lines[0][0].bold), ("left", None, false));
    assert_eq!(lines[0][1].text, "right");
    assert_eq!(lines[0][1].fg, Some(Rgb::new(128, 0, 0)));
    assert!(lines[0][1].bold);
}

#[test]
fn parameters_apply_in_turn() {
    let joined = parse_ansi_lines("\u{1b}[1;31;48;5;21mx");
    let apart = parse_ansi_lines("\u{1b}[1;31m\u{1b}[48;5;21mx");
    assert_eq!(joined, apart);
}
