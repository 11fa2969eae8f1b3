//! Nushell-shaped syntax highlighting for the REPL editor.

use crate::color::{style_rgb, AnsiColor, AnsiStyle, Rgb};
use crate::expand::utf8_len;
use crate::listing::text_option;
use crate::text::{byte_len, chars_of, pieces, split, str_eq, string_of, texts};
use nu_ansi_term::Color;
use nu_ansi_term::Color::{
    Black, Blue, Cyan, DarkGray, Fixed, Green, LightBlue, LightCyan, LightGray, LightGreen,
    LightMagenta, LightPurple, LightRed, LightYellow, Magenta, Purple, Red, White, Yellow,
};
use nu_color_config::get_shape_color;
use nu_protocol::Config;
use vstd::prelude::*;
use vstd::utf8::encode_scalar;

verus! {

/// How a run of source text is painted.
#[derive(Debug, Clone, Copy, PartialEq, Eq, Structural)]
pub struct RunStyle {
    pub color: Option<Rgb>,
    pub bold: bool,
}

/// A run of source text in one style, by its bytes.
#[derive(Debug, Clone, Copy, PartialEq, Eq, Structural)]
pub struct Run {
    pub start: usize,
    pub end: usize,
    pub style: RunStyle,
}

/// A span of parsed source and the name of its shape. The parser counts bytes from where
/// the engine's own sources end.
#[derive(Debug)]
pub struct FlatSpan {
    pub start: usize,
    pub end: usize,
    pub shape: String,
}

/// The style of text that no shape covers.
pub open spec fn bare() -> RunStyle {
    RunStyle { color: None, bold: false }
}

/// The style that the default configuration gives to a shape.
pub uninterp spec fn default_shape_style(shape: Seq<char>) -> AnsiStyle;

/// Calls `nu_color_config::get_shape_color` with the default configuration: the result is
/// a function of the shape's name alone. Of the style it keeps the foreground and whether
/// it is bold.
#[verifier::external_body]
fn shape_style(shape: &str) -> (style: AnsiStyle)
    ensures
        style == default_shape_style(shape@),
{
    let found = get_shape_color(shape, &Config::default());
    let foreground = found.foreground.map(|color| match color {
        Black => AnsiColor::Black, DarkGray => AnsiColor::DarkGray,
        Red => AnsiColor::Red, LightRed => AnsiColor::LightRed,
        Green => AnsiColor::Green, LightGreen => AnsiColor::LightGreen,
        Yellow => AnsiColor::Yellow, LightYellow => AnsiColor::LightYellow,
        Blue => AnsiColor::Blue, LightBlue => AnsiColor::LightBlue,
        Purple => AnsiColor::Purple, LightPurple => AnsiColor::LightPurple,
        Magenta => AnsiColor::Magenta, LightMagenta => AnsiColor::LightMagenta,
        Cyan => AnsiColor::Cyan, LightCyan => AnsiColor::LightCyan,
        White => AnsiColor::White, LightGray => AnsiColor::LightGray,
        Fixed(n) => AnsiColor::Fixed(n), Color::Rgb(r, g, b) => AnsiColor::Rgb(r, g, b),
        Color::Default => AnsiColor::Default });
    AnsiStyle { foreground, is_bold: found.is_bold }
}

/// Parses a line with `nu_parser::parse` in a working set over the engine's state, and
/// gives what `nu_parser::flatten_block` makes of the block: the spans and the names of
/// their shapes, in their order. Which spans there are is left open: the parser reads the
/// files that a line names.
#[verifier::external_body]
fn flat_shapes(engine: &nu_protocol::engine::EngineState, line: &str) -> (shapes: Vec<FlatSpan>) {
    let mut working_set = nu_protocol::engine::StateWorkingSet::new(engine);
    let block = nu_parser::parse(&mut working_set, None, line.as_bytes(), false);
    let flat = nu_parser::flatten_block(&working_set, &block);
    flat.iter().map(|(span, shape)| FlatSpan {
        start: span.start, end: span.end, shape: shape.as_str().to_string() }).collect()
}

/// Where the spans of a new source begin.
pub uninterp spec fn span_start(engine: nu_protocol::engine::EngineState) -> usize;

/// `EngineState::next_span_start` depends on the engine's state alone, which is opaque here.
pub assume_specification[ nu_protocol::engine::EngineState::next_span_start ](
    engine: &nu_protocol::engine::EngineState,
) -> (offset: usize)
    ensures
        offset == span_start(*engine),
;

// ---------------------------------------------------------------------------------------
// Runs

/// The style of a shape.
pub open spec fn shape_run_style(shape: Seq<char>) -> RunStyle {
    let style = default_shape_style(shape);
    RunStyle { color: style_rgb(style), bold: style.is_bold }
}

/// Runs with one more behind them that begins no earlier than `last`, and with the gap
/// between filled.
pub open spec fn with_run(runs: Seq<Run>, last: int, run: Run) -> Seq<Run> {
    if run.start > last {
        runs.push(Run { start: last as usize, end: run.start, style: bare() }).push(run)
    } else {
        runs.push(run)
    }
}

/// The part of a span that lies in a line of `len` bytes and behind the first `last` of
/// them, where there is any.
pub open spec fn fresh_part(span: FlatSpan, offset: int, len: int, last: int) -> Option<
    (int, int),
> {
    let start = if span.start - offset > last {
        span.start - offset
    } else {
        last
    };
    let end = if span.end - offset < len {
        span.end - offset
    } else {
        len
    };
    if span.start < offset || start >= end {
        None
    } else {
        Some((start, end))
    }
}

/// The runs that some spans give, and where the last of them ends.
pub open spec fn covered(shapes: Seq<FlatSpan>, offset: int, len: int) -> (Seq<Run>, int)
    decreases shapes.len(),
{
    if shapes.len() == 0 {
        (Seq::empty(), 0)
    } else {
        let (runs, last) = covered(shapes.drop_last(), offset, len);
        match fresh_part(shapes.last(), offset, len, last) {
            Some((start, end)) => (
                with_run(
                    runs,
                    last,
                    Run {
                        start: start as usize,
                        end: end as usize,
                        style: shape_run_style(shapes.last().shape@),
                    },
                ),
                end,
            ),
            None => (runs, last),
        }
    }
}

/// The runs of a line: those that the spans give, and what they leave out.
pub open spec fn line_runs(shapes: Seq<FlatSpan>, offset: int, len: int) -> Seq<Run> {
    let (runs, last) = covered(shapes, offset, len);
    if last < len {
        runs.push(Run { start: last as usize, end: len as usize, style: bare() })
    } else {
        runs
    }
}

fn style_for_shape(shape: &str) -> (style: RunStyle)
    ensures
        style == shape_run_style(shape@),
{
    let style = shape_style(shape);
    RunStyle { color: Rgb::from_style(style), bold: style.is_bold }
}

/// The runs of a line of `len` bytes by the spans of its shapes.
pub fn runs_of_shapes(shapes: &Vec<FlatSpan>, offset: usize, len: usize) -> (runs: Vec<Run>)
    ensures
        runs@ == line_runs(shapes@, offset as int, len as int),
{
    let mut runs: Vec<Run> = Vec::new();
    let mut last: usize = 0;
    let n: usize = shapes.len();
    assert(shapes@.take(0) =~= Seq::empty());
    for i in 0..n
        invariant
            n == shapes@.len(),
            covered(shapes@.take(i as int), offset as int, len as int) == (runs@, last as int),
            last <= len,
    {
        let span = &shapes[i];
        assert(shapes@.take(i + 1).drop_last() =~= shapes@.take(i as int));
        assert(shapes@.take(i + 1).last() == *span);
        if span.start >= offset && span.end > offset {
            let start: usize = if span.start - offset > last {
                span.start - offset
            } else {
                last
            };
            let end: usize = if span.end - offset < len {
                span.end - offset
            } else {
                len
            };
            if start < end {
                if start > last {
                    runs.push(
                        Run { start: last, end: start, style: RunStyle { color: None, bold: false } },
                    );
                }
                runs.push(Run { start, end, style: style_for_shape(span.shape.as_str()) });
                last = end;
            }
        }
    }
    assert(shapes@.take(n as int) =~= shapes@);
    if last < len {
        runs.push(Run { start: last, end: len, style: RunStyle { color: None, bold: false } });
    }
    runs
}

/// Whether the parser may flatten a line in an engine's state into these spans.
pub closed spec fn parser_may_flatten(
    engine: &nu_protocol::engine::EngineState,
    line: &str,
    shapes: Seq<FlatSpan>,
) -> bool {
    exists|list: Vec<FlatSpan>|
        #[trigger] call_ensures(flat_shapes, (engine, line), list) && list@ == shapes
}

/// The runs of a line as the parser sees it.
pub fn highlight_runs(engine: &nu_protocol::engine::EngineState, line: &str) -> (runs: Vec<Run>)
    ensures
        line@.len() == 0 ==> runs@.len() == 0,
        partition(runs@, 0, byte_len(line@) as int),
        exists|shapes: Seq<FlatSpan>|
            (line@.len() > 0 ==> parser_may_flatten(engine, line, shapes)) && runs@
                == #[trigger] line_runs(
                shapes,
                span_start(*engine) as int,
                byte_len(line@) as int,
            ),
{
    let offset: usize = engine.next_span_start();
    if line.is_empty() {
        let none: Vec<FlatSpan> = Vec::new();
        let runs = runs_of_shapes(&none, offset, 0);
        assert(line@ =~= Seq::empty());
        return runs;
    }
    let shapes = flat_shapes(engine, line);
    let len: usize = utf8_len(line);
    proof {
        law_runs_partition_the_line(shapes@, offset as int, len as int);
        assert(call_ensures(flat_shapes, (engine, line), shapes));
        assert(parser_may_flatten(engine, line, shapes@));
    }
    runs_of_shapes(&shapes, offset, len)
}

/// Whether runs lie side by side from one place to another, none empty.
pub open spec fn partition(runs: Seq<Run>, from: int, to: int) -> bool
    decreases runs.len(),
{
    if runs.len() == 0 {
        from == to
    } else {
        runs.last().end == to && runs.last().start < to && partition(
            runs.drop_last(),
            from,
            runs.last().start as int,
        )
    }
}

proof fn lemma_covered(shapes: Seq<FlatSpan>, offset: int, len: int)
    requires
        0 <= len <= usize::MAX,
    ensures
        0 <= covered(shapes, offset, len).1 <= len,
        partition(covered(shapes, offset, len).0, 0, covered(shapes, offset, len).1),
    decreases shapes.len(),
{
    if shapes.len() > 0 {
        lemma_covered(shapes.drop_last(), offset, len);
        let (runs, last) = covered(shapes.drop_last(), offset, len);
        if let Some((start, end)) = fresh_part(shapes.last(), offset, len, last) {
            let all = covered(shapes, offset, len).0;
            if start > last {
                let gap = all.drop_last();
                assert(gap =~= runs.push(gap.last()));
                assert(gap.drop_last() =~= runs);
                assert(partition(gap, 0, start));
            } else {
                assert(all.drop_last() =~= runs);
            }
        }
    }
}

/// Whatever spans the parser gives, the runs of a line lie side by side and cover every
/// byte of it.
pub proof fn law_runs_partition_the_line(shapes: Seq<FlatSpan>, offset: int, len: int)
    requires
        0 <= len <= usize::MAX,
    ensures
        partition(line_runs(shapes, offset, len), 0, len),
{
    lemma_covered(shapes, offset, len);
    let (runs, last) = covered(shapes, offset, len);
    if last < len {
        assert(line_runs(shapes, offset, len).drop_last() =~= runs);
    }
}

// ---------------------------------------------------------------------------------------
// The styles of a part of the line

/// The runs of a part of a line: what the runs from the `i`-th on give from `pos` on, and
/// what they leave out.
pub open spec fn clipped(runs: Seq<Run>, i: int, pos: int, from: int, to: int) -> Seq<Run>
    decreases runs.len() - i,
{
    if i < 0 || i >= runs.len() || (runs[i].end > from && runs[i].start >= to) {
        if pos < to {
            seq![Run { start: pos as usize, end: to as usize, style: bare() }]
        } else {
            Seq::empty()
        }
    } else if runs[i].end <= from {
        clipped(runs, i + 1, pos, from, to)
    } else {
        let start = if runs[i].start > from {
            runs[i].start as int
        } else {
            from
        };
        let end = if runs[i].end < to {
            runs[i].end as int
        } else {
            to
        };
        let gap = if start > pos {
            seq![Run { start: pos as usize, end: start as usize, style: bare() }]
        } else {
            Seq::empty()
        };
        if start < end {
            gap + seq![Run { start: start as usize, end: end as usize, style: runs[i].style }]
                + clipped(runs, i + 1, end, from, to)
        } else {
            gap + clipped(runs, i + 1, pos, from, to)
        }
    }
}

/// The runs of a part of a line; where there are none, the part itself.
pub open spec fn styles_in(runs: Seq<Run>, from: usize, to: usize) -> Seq<Run> {
    let out = clipped(runs, 0, from as int, from as int, to as int);
    if out.len() == 0 {
        seq![Run { start: from, end: to, style: bare() }]
    } else {
        out
    }
}

/// The runs of a part of a line.
pub fn styles(runs: &Vec<Run>, from: usize, to: usize) -> (out: Vec<Run>)
    ensures
        out@ == styles_in(runs@, from, to),
{
    let mut out: Vec<Run> = Vec::new();
    let mut pos: usize = from;
    let mut i: usize = 0;
    let n: usize = runs.len();
    let ghost want = clipped(runs@, 0, from as int, from as int, to as int);
    assert(out@ + want =~= want);
    while i < n && (runs[i].end <= from || runs[i].start < to)
        invariant
            n == runs@.len(),
            i <= n,
            out@ + clipped(runs@, i as int, pos as int, from as int, to as int) == want,
        ensures
            i <= n,
            i < n ==> runs@[i as int].end > from && runs@[i as int].start >= to,
            out@ + clipped(runs@, i as int, pos as int, from as int, to as int) == want,
        decreases n - i,
    {
        let run = runs[i];
        if run.end > from {
            let start: usize = if run.start > from {
                run.start
            } else {
                from
            };
            let end: usize = if run.end < to {
                run.end
            } else {
                to
            };
            let ghost before = out@;
            let ghost rest = clipped(
                runs@,
                i + 1,
                if start < end {
                    end as int
                } else {
                    pos as int
                },
                from as int,
                to as int,
            );
            if start > pos {
                out.push(
                    Run { start: pos, end: start, style: RunStyle { color: None, bold: false } },
                );
            }
            if start < end {
                out.push(Run { start, end, style: run.style });
                pos = end;
            }
            assert(out@ + rest =~= want);
        }
        i += 1;
    }
    if pos < to {
        out.push(Run { start: pos, end: to, style: RunStyle { color: None, bold: false } });
    }
    assert(out@ =~= want);
    if out.len() == 0 {
        out.push(Run { start: from, end: to, style: RunStyle { color: None, bold: false } });
        assert(out@ =~= styles_in(runs@, from, to));
    }
    out
}

/// Runs that lie side by side, as a list read from its front.
proof fn lemma_partition_parts(runs: Seq<Run>, from: int, to: int)
    requires
        partition(runs, from, to),
    ensures
        from <= to,
        forall|i: int| 0 <= i < runs.len() ==> (#[trigger] runs[i]).start < runs[i].end,
        forall|i: int| 0 <= i < runs.len() ==> from <= (#[trigger] runs[i]).start && runs[i].end <= to,
        forall|i: int, j: int|
            0 <= i && j == i + 1 && j < runs.len() ==> (#[trigger] runs[i]).end == (
            #[trigger] runs[j]).start,
        runs.len() > 0 ==> runs[0].start == from && runs.last().end == to,
    decreases runs.len(),
{
    if runs.len() > 0 {
        let front = runs.drop_last();
        lemma_partition_parts(front, from, runs.last().start as int);
        assert forall|i: int| 0 <= i < runs.len() implies (#[trigger] runs[i]).start
            < runs[i].end by {
            if i < front.len() {
                assert(front[i] == runs[i]);
            }
        }
        assert forall|i: int| 0 <= i < runs.len() implies from <= (#[trigger] runs[i]).start
            && runs[i].end <= to by {
            if i < front.len() {
                assert(front[i] == runs[i]);
            }
        }
        assert forall|i: int, j: int| 0 <= i && j == i + 1 && j < runs.len() implies (
        #[trigger] runs[i]).end == (#[trigger] runs[j]).start by {
            if j < front.len() {
                assert(front[i] == runs[i] && front[j] == runs[j]);
            } else {
                assert(front.last() == runs[i]);
            }
        }
        if front.len() > 0 {
            assert(front[0] == runs[0]);
        }
    }
}

proof fn lemma_partition_joins(first: Seq<Run>, second: Seq<Run>, from: int, mid: int, to: int)
    requires
        partition(first, from, mid),
        partition(second, mid, to),
    ensures
        partition(first + second, from, to),
    decreases second.len(),
{
    if second.len() == 0 {
        assert(first + second =~= first);
    } else {
        lemma_partition_joins(first, second.drop_last(), from, mid, second.last().start as int);
        assert((first + second).drop_last() =~= first + second.drop_last());
    }
}

proof fn lemma_one_run(run: Run)
    requires
        run.start < run.end,
    ensures
        partition(seq![run], run.start as int, run.end as int),
{
    assert(seq![run].drop_last() =~= Seq::empty());
    assert(partition(Seq::empty(), run.start as int, run.start as int));
}

proof fn lemma_clipped(runs: Seq<Run>, i: int, pos: int, len: int, from: int, to: int)
    requires
        partition(runs, 0, len),
        0 <= i <= runs.len(),
        0 <= from < to <= usize::MAX,
        from <= pos <= to,
        pos > from ==> i > 0 && (pos == runs[i - 1].end || (pos == to && runs[i - 1].end >= to)),
        pos == from ==> forall|k: int| 0 <= k < i ==> (#[trigger] runs[k]).end <= from,
    ensures
        partition(clipped(runs, i, pos, from, to), pos, to),
    decreases runs.len() - i,
{
    lemma_partition_parts(runs, 0, len);
    assert(partition(Seq::empty(), to, to));
    if i >= runs.len() || (runs[i].end > from && runs[i].start >= to) {
        if pos < to {
            lemma_one_run(Run { start: pos as usize, end: to as usize, style: bare() });
        }
    } else if runs[i].end <= from {
        assert forall|k: int| 0 <= k < i + 1 implies pos > from || (#[trigger] runs[k]).end
            <= from by {
            if k == i {
                assert(runs[i].end <= from);
            }
        }
        if pos > from {
            lemma_ends_grow(runs, len, i - 1, i);
        }
        lemma_clipped(runs, i + 1, pos, len, from, to);
    } else {
        let start = if runs[i].start > from {
            runs[i].start as int
        } else {
            from
        };
        let end = if runs[i].end < to {
            runs[i].end as int
        } else {
            to
        };
        let run = Run { start: start as usize, end: end as usize, style: runs[i].style };
        if i > 0 {
            assert(runs[i - 1].end == runs[i].start);
        } else {
            assert(runs[0].start == 0);
        }
        assert(start < end);
        assert(start == pos);
        lemma_clipped(runs, i + 1, end, len, from, to);
        lemma_one_run(run);
        let rest = clipped(runs, i + 1, end, from, to);
        lemma_partition_joins(seq![run], rest, start, end, to);
        assert(Seq::<Run>::empty() + seq![run] + rest =~= seq![run] + rest);
    }
}

proof fn lemma_ends_grow(runs: Seq<Run>, len: int, i: int, j: int)
    requires
        partition(runs, 0, len),
        0 <= i < j < runs.len(),
    ensures
        runs[i].end < runs[j].end,
    decreases j,
{
    lemma_partition_parts(runs, 0, len);
    assert(runs[j - 1].end == runs[j].start);
    if j - 1 > i {
        lemma_ends_grow(runs, len, i, j - 1);
    }
}

/// The styles of a part of a line lie side by side and cover the part.
pub proof fn law_styles_partition_the_part(runs: Seq<Run>, len: int, from: usize, to: usize)
    requires
        partition(runs, 0, len),
        from < to,
    ensures
        partition(styles_in(runs, from, to), from as int, to as int),
{
    lemma_clipped(runs, 0, from as int, len, from as int, to as int);
    assert(clipped(runs, 0, from as int, from as int, to as int).len() > 0);
}

// ---------------------------------------------------------------------------------------
// Display lines

/// The bytes that a character takes in UTF-8.
pub open spec fn char_bytes(c: char) -> nat {
    encode_scalar(c as u32).len()
}

/// The number of characters before a byte, where a character begins there or the text
/// ends.
pub open spec fn char_place(s: Seq<char>, b: int) -> Option<int>
    decreases s.len(),
{
    if b == 0 {
        Some(0)
    } else if s.len() == 0 || char_bytes(s[0]) > b {
        None
    } else {
        match char_place(s.drop_first(), b - char_bytes(s[0])) {
            Some(k) => Some(k + 1),
            None => None,
        }
    }
}

/// The text from one byte to another, where both lie between characters.
pub open spec fn text_in(source: Seq<char>, start: int, end: int) -> Option<Seq<char>> {
    match (char_place(source, start), char_place(source, end)) {
        (Some(i), Some(j)) => if start <= end {
            Some(source.subrange(i, j))
        } else {
            None
        },
        _ => None,
    }
}

/// Display lines with the parts of a text put behind them: the first part continues the
/// last line, and each further one begins a line.
pub open spec fn with_parts(
    lines: Seq<Seq<(Seq<char>, RunStyle)>>,
    parts: Seq<Seq<char>>,
    style: RunStyle,
) -> Seq<Seq<(Seq<char>, RunStyle)>>
    decreases parts.len(),
{
    if parts.len() == 0 {
        lines
    } else {
        let before = with_parts(lines, parts.drop_last(), style);
        let begun = if parts.len() > 1 {
            before.push(Seq::empty())
        } else {
            before
        };
        if parts.last().len() > 0 {
            begun.drop_last().push(begun.last().push((parts.last(), style)))
        } else {
            begun
        }
    }
}

/// The display lines that some runs of a source give. A run whose ends do not lie between
/// characters gives nothing.
pub open spec fn split_lines(source: Seq<char>, runs: Seq<Run>) -> Seq<Seq<(Seq<char>, RunStyle)>>
    decreases runs.len(),
{
    if runs.len() == 0 {
        seq![Seq::empty()]
    } else {
        let before = split_lines(source, runs.drop_last());
        match text_in(source, runs.last().start as int, runs.last().end as int) {
            Some(text) => with_parts(before, pieces(text, '\n', '\n'), runs.last().style),
            None => before,
        }
    }
}

/// The display lines of a source; where its runs give nothing, the source itself.
pub open spec fn display_lines(source: Seq<char>, runs: Seq<Run>) -> Seq<
    Seq<(Seq<char>, RunStyle)>,
> {
    let lines = split_lines(source, runs);
    if lines.len() == 1 && lines[0].len() == 0 && source.len() > 0 {
        seq![seq![(source, bare())]]
    } else {
        lines
    }
}

/// A display line as characters.
pub open spec fn line_view(line: Vec<(String, RunStyle)>) -> Seq<(Seq<char>, RunStyle)> {
    line@.map_values(|part: (String, RunStyle)| (part.0@, part.1))
}

/// Display lines as characters.
pub open spec fn lines_view(lines: Seq<Vec<(String, RunStyle)>>) -> Seq<
    Seq<(Seq<char>, RunStyle)>,
> {
    lines.map_values(|line: Vec<(String, RunStyle)>| line_view(line))
}

fn bytes_of_char(c: char) -> (n: usize)
    ensures
        n == char_bytes(c),
        1 <= n <= 4,
{
    if c <= '\u{7f}' {
        1
    } else if c <= '\u{7ff}' {
        2
    } else if c <= '\u{ffff}' {
        3
    } else {
        4
    }
}

fn find_char(chars: &Vec<char>, b: usize) -> (place: Option<usize>)
    ensures
        match place {
            Some(k) => char_place(chars@, b as int) == Some(k as int) && k <= chars@.len(),
            None => char_place(chars@, b as int) is None,
        },
{
    let mut rest: usize = b;
    let mut i: usize = 0;
    let n: usize = chars.len();
    assert(chars@.skip(0) =~= chars@);
    while rest > 0
        invariant
            n == chars@.len(),
            i <= n,
            char_place(chars@, b as int) == match char_place(chars@.skip(i as int), rest as int) {
                Some(k) => Some(i + k),
                None => None,
            },
        decreases rest,
    {
        if i == n {
            return None;
        }
        let width: usize = bytes_of_char(chars[i]);
        assert(chars@.skip(i as int)[0] == chars@[i as int]);
        if width > rest {
            return None;
        }
        assert(chars@.skip(i as int).drop_first() =~= chars@.skip(i + 1));
        rest = rest - width;
        i += 1;
    }
    Some(i)
}

proof fn lemma_char_place(s: Seq<char>, a: int, b: int)
    requires
        char_place(s, a) is Some,
        char_place(s, b) is Some,
        a <= b,
    ensures
        0 <= char_place(s, a)->0 <= char_place(s, b)->0 <= s.len(),
    decreases s.len(),
{
    if s.len() > 0 && b != 0 {
        if a != 0 {
            lemma_char_place(s.drop_first(), a - char_bytes(s[0]), b - char_bytes(s[0]));
        } else {
            lemma_char_place(s.drop_first(), b - char_bytes(s[0]), b - char_bytes(s[0]));
        }
    }
}

fn text_between(source: &str, start: usize, end: usize) -> (text: Option<String>)
    ensures
        text_option(text) == text_in(source@, start as int, end as int),
{
    let chars = chars_of(source);
    match (find_char(&chars, start), find_char(&chars, end)) {
        (Some(i), Some(j)) => if start <= end {
            proof {
                lemma_char_place(source@, start as int, end as int);
            }
            Some(string_of(&chars, i, j))
        } else {
            None
        },
        _ => None,
    }
}

fn add_part(lines: &mut Vec<Vec<(String, RunStyle)>>, part: &str, style: RunStyle)
    requires
        old(lines)@.len() > 0,
    ensures
        lines_view(final(lines)@) == {
            let begun = lines_view(old(lines)@);
            begun.drop_last().push(begun.last().push((part@, style)))
        },
{
    let ghost begun = lines_view(lines@);
    let ghost before = lines@;
    let last = lines.pop();
    match last {
        Some(mut line) => {
            let ghost held = line;
            assert(line_view(held) == begun.last());
            line.push((part.to_owned(), style));
            assert(line_view(line) =~= begun.last().push((part@, style)));
            lines.push(line);
            assert(lines_view(lines@) =~= begun.drop_last().push(begun.last().push((part@, style))));
        },
        None => {},
    }
}

/// Splits the runs of a source into display lines.
pub fn split_runs_into_lines(source: &str, runs: &Vec<Run>) -> (lines: Vec<
    Vec<(String, RunStyle)>,
>)
    ensures
        lines_view(lines@) == display_lines(source@, runs@),
{
    let mut lines: Vec<Vec<(String, RunStyle)>> = Vec::new();
    let none: Vec<(String, RunStyle)> = Vec::new();
    assert(line_view(none) =~= Seq::empty());
    lines.push(none);
    assert(lines_view(lines@) =~= seq![Seq::empty()]);
    let n: usize = runs.len();
    assert(runs@.take(0) =~= Seq::empty());
    for i in 0..n
        invariant
            n == runs@.len(),
            lines@.len() > 0,
            lines_view(lines@) == split_lines(source@, runs@.take(i as int)),
    {
        let run = runs[i];
        assert(runs@.take(i + 1).drop_last() =~= runs@.take(i as int));
        assert(runs@.take(i + 1).last() == run);
        if let Some(text) = text_between(source, run.start, run.end) {
            let ghost before = lines_view(lines@);
            let parts = split(text.as_str(), '\n', '\n');
            let ghost all = texts(parts@);
            let m: usize = parts.len();
            assert(all.take(0) =~= Seq::empty());
            for j in 0..m
                invariant
                    m == parts@.len(),
                    all == texts(parts@),
                    lines@.len() > 0,
                    lines_view(lines@) == with_parts(before, all.take(j as int), run.style),
            {
                assert(all.take(j + 1).drop_last() =~= all.take(j as int));
                assert(all.take(j + 1).last() == parts@[j as int]@);
                if j > 0 {
                    let ghost held = lines@;
                    let line: Vec<(String, RunStyle)> = Vec::new();
                    assert(line_view(line) =~= Seq::empty());
                    lines.push(line);
                    assert(lines_view(lines@) =~= lines_view(held).push(Seq::empty()));
                }
                if !parts[j].as_str().is_empty() {
                    add_part(&mut lines, parts[j].as_str(), run.style);
                    assert(lines_view(lines@).len() == lines@.len());
                }
            }
            assert(all.take(m as int) =~= all);
        }
    }
    assert(runs@.take(n as int) =~= runs@);
    if lines.len() == 1 && lines[0].len() == 0 && !source.is_empty() {
        let mut line: Vec<(String, RunStyle)> = Vec::new();
        line.push((source.to_owned(), RunStyle { color: None, bold: false }));
        assert(line_view(line) =~= seq![(source@, bare())]);
        let mut only: Vec<Vec<(String, RunStyle)>> = Vec::new();
        only.push(line);
        assert(lines_view(only@) =~= seq![seq![(source@, bare())]]);
        assert(lines_view(lines@)[0] =~= Seq::empty());
        return only;
    }
    assert(lines_view(lines@).len() == lines@.len());
    assert(lines_view(lines@)[0].len() == lines@[0]@.len());
    lines
}

/// Highlight `source` into display lines of (text, style) runs.
pub fn highlight_lines(engine: &nu_protocol::engine::EngineState, source: &str) -> (lines: Vec<
    Vec<(String, RunStyle)>,
>)
    ensures
        exists|shapes: Seq<FlatSpan>|
            (source@.len() > 0 ==> parser_may_flatten(engine, source, shapes)) && partition(
                line_runs(shapes, span_start(*engine) as int, byte_len(source@) as int),
                0,
                byte_len(source@) as int,
            ) && lines_view(lines@) == display_lines(
                source@,
                #[trigger] line_runs(
                    shapes,
                    span_start(*engine) as int,
                    byte_len(source@) as int,
                ),
            ),
{
    let runs = highlight_runs(engine, source);
    split_runs_into_lines(source, &runs)
}

/// The text of a display line.
pub open spec fn line_text(line: Seq<(Seq<char>, RunStyle)>) -> Seq<char>
    decreases line.len(),
{
    if line.len() == 0 {
        Seq::empty()
    } else {
        line_text(line.drop_last()) + line.last().0
    }
}

/// The text of display lines.
pub open spec fn text_of_lines(lines: Seq<Seq<(Seq<char>, RunStyle)>>) -> Seq<char>
    decreases lines.len(),
{
    if lines.len() == 0 {
        Seq::empty()
    } else if lines.len() == 1 {
        line_text(lines[0])
    } else {
        text_of_lines(lines.drop_last()) + seq!['\n'] + line_text(lines.last())
    }
}

/// Parts with line breaks between them.
pub open spec fn text_of_parts(parts: Seq<Seq<char>>) -> Seq<char>
    decreases parts.len(),
{
    if parts.len() == 0 {
        Seq::empty()
    } else if parts.len() == 1 {
        parts[0]
    } else {
        text_of_parts(parts.drop_last()) + seq!['\n'] + parts.last()
    }
}

proof fn lemma_parts_of_text(text: Seq<char>)
    ensures
        text_of_parts(pieces(text, '\n', '\n')) == text,
        pieces(text, '\n', '\n').len() > 0,
    decreases text.len(),
{
    let parts = pieces(text, '\n', '\n');
    if text.len() == 0 {
        assert(text_of_parts(parts) =~= text);
    } else {
        let front = pieces(text.drop_last(), '\n', '\n');
        lemma_parts_of_text(text.drop_last());
        assert(text =~= text.drop_last().push(text.last()));
        if text.last() == '\n' {
            assert(parts.drop_last() =~= front);
            assert(text_of_parts(parts) =~= text);
        } else {
            assert(parts.drop_last() =~= front.drop_last());
            assert(text_of_parts(parts) =~= text);
        }
    }
}

proof fn lemma_line_grows(lines: Seq<Seq<(Seq<char>, RunStyle)>>, part: Seq<char>, style: RunStyle)
    requires
        lines.len() > 0,
    ensures
        text_of_lines(lines.drop_last().push(lines.last().push((part, style)))) == text_of_lines(
            lines,
        ) + part,
{
    let grown = lines.drop_last().push(lines.last().push((part, style)));
    let line = lines.last().push((part, style));
    assert(line.drop_last() =~= lines.last());
    assert(grown.drop_last() =~= lines.drop_last());
    assert(text_of_lines(grown) =~= text_of_lines(lines) + part);
}

proof fn lemma_with_parts(
    lines: Seq<Seq<(Seq<char>, RunStyle)>>,
    parts: Seq<Seq<char>>,
    style: RunStyle,
)
    requires
        lines.len() > 0,
    ensures
        with_parts(lines, parts, style).len() > 0,
        text_of_lines(with_parts(lines, parts, style)) == text_of_lines(lines) + text_of_parts(
            parts,
        ),
    decreases parts.len(),
{
    let all = with_parts(lines, parts, style);
    if parts.len() == 0 {
        assert(text_of_lines(all) =~= text_of_lines(lines) + text_of_parts(parts));
    } else {
        lemma_with_parts(lines, parts.drop_last(), style);
        let before = with_parts(lines, parts.drop_last(), style);
        let begun = if parts.len() > 1 {
            before.push(Seq::empty())
        } else {
            before
        };
        if parts.len() > 1 {
            assert(begun.drop_last() =~= before);
            assert(text_of_lines(begun) =~= text_of_lines(before) + seq!['\n']);
        }
        lemma_line_grows(begun, parts.last(), style);
        assert(text_of_lines(all) =~= text_of_lines(lines) + text_of_parts(parts));
    }
}

proof fn lemma_split_lines(source: Seq<char>, runs: Seq<Run>, to: int)
    requires
        partition(runs, 0, to),
        char_place(source, to) is Some,
        forall|i: int|
            0 <= i < runs.len() ==> char_place(source, (#[trigger] runs[i]).start as int) is Some,
    ensures
        split_lines(source, runs).len() > 0,
        text_of_lines(split_lines(source, runs)) == source.take(char_place(source, to)->0),
    decreases runs.len(),
{
    if runs.len() == 0 {
        assert(text_of_lines(split_lines(source, runs)) =~= source.take(0));
    } else {
        let front = runs.drop_last();
        let run = runs.last();
        assert(char_place(source, runs[runs.len() - 1].start as int) is Some);
        assert forall|i: int| 0 <= i < front.len() implies char_place(
            source,
            (#[trigger] front[i]).start as int,
        ) is Some by {
            assert(front[i] == runs[i]);
        }
        lemma_split_lines(source, front, run.start as int);
        lemma_char_place(source, run.start as int, to);
        let i = char_place(source, run.start as int)->0;
        let j = char_place(source, to)->0;
        let text = source.subrange(i, j);
        lemma_parts_of_text(text);
        lemma_with_parts(split_lines(source, front), pieces(text, '\n', '\n'), run.style);
        assert(source.take(i) + text =~= source.take(j));
    }
}

proof fn lemma_char_place_end(source: Seq<char>)
    ensures
        char_place(source, byte_len(source) as int) == Some(source.len() as int),
    decreases source.len(),
{
    if source.len() > 0 {
        lemma_char_place_end(source.drop_first());
        assert(byte_len(source) == char_bytes(source[0]) + byte_len(source.drop_first()));
        assert(char_bytes(source[0]) > 0);
    }
}

/// The display lines of a source hold its text, character for character, wherever its runs
/// cover it and begin between characters.
pub proof fn law_display_lines_keep_the_text(source: Seq<char>, runs: Seq<Run>)
    requires
        partition(runs, 0, byte_len(source) as int),
        forall|i: int|
            0 <= i < runs.len() ==> char_place(source, (#[trigger] runs[i]).start as int) is Some,
    ensures
        text_of_lines(display_lines(source, runs)) == source,
{
    lemma_char_place_end(source);
    lemma_split_lines(source, runs, byte_len(source) as int);
    assert(source.take(source.len() as int) =~= source);
    let lines = split_lines(source, runs);
    if lines.len() == 1 && lines[0].len() == 0 && source.len() > 0 {
        assert(text_of_lines(lines).len() == 0);
    }
}

// ---------------------------------------------------------------------------------------
// The editor's highlighter

/// Whether a language of the editor is Nushell.
pub fn is_nushell(language: &str) -> (yes: bool)
    ensures
        yes == (language@ == "nushell"@ || language@ == "nu"@),
{
    str_eq(language, "nushell") || str_eq(language, "nu")
}

/// The runs of the text in the editor, over an engine's state.
pub struct NuInputHighlighter {
    engine: nu_protocol::engine::EngineState,
    runs: Vec<Run>,
}

impl NuInputHighlighter {
    /// The runs of the text that was last given.
    pub closed spec fn runs(self) -> Seq<Run> {
        self.runs@
    }

    /// The engine's state over which texts are parsed.
    pub closed spec fn engine(self) -> nu_protocol::engine::EngineState {
        self.engine
    }

    /// A highlighter over an engine's state that was given no text.
    pub fn new(engine: nu_protocol::engine::EngineState) -> (highlighter: Self)
        ensures
            highlighter.engine() == engine,
            highlighter.runs() == Seq::<Run>::empty(),
    {
        NuInputHighlighter { engine, runs: Vec::new() }
    }

    /// The language that the highlighter is for.
    pub fn language(&self) -> (name: &'static str)
        ensures
            name@ == "nushell"@,
    {
        "nushell"
    }

    /// Takes the editor's text.
    pub fn update(&mut self, text: &str)
        ensures
            final(self).engine() == old(self).engine(),
            partition(final(self).runs(), 0, byte_len(text@) as int),
            exists|shapes: Seq<FlatSpan>|
                (text@.len() > 0 ==> parser_may_flatten(&old(self).engine(), text, shapes))
                    && final(self).runs() == #[trigger] line_runs(
                    shapes,
                    span_start(old(self).engine()) as int,
                    byte_len(text@) as int,
                ),
    {
        let runs = highlight_runs(&self.engine, text);
        proof {
            let shapes = choose|shapes: Seq<FlatSpan>|
                (text@.len() > 0 ==> parser_may_flatten(&self.engine, text, shapes)) && runs@
                    == #[trigger] line_runs(
                    shapes,
                    span_start(self.engine) as int,
                    byte_len(text@) as int,
                );
            assert(runs@ == line_runs(
                shapes,
                span_start(old(self).engine()) as int,
                byte_len(text@) as int,
            ));
        }
        self.runs = runs;
    }

    /// The styles of a part of the text.
    pub fn styles(&self, from: usize, to: usize) -> (out: Vec<Run>)
        ensures
            out@ == styles_in(self.runs(), from, to),
    {
        styles(&self.runs, from, to)
    }
}

// ---------------------------------------------------------------------------------------
// Laws on runs

/// Whether spans lie in a line of `len` bytes one behind the other, none empty.
pub open spec fn in_line(shapes: Seq<FlatSpan>, offset: int, len: int) -> bool {
    &&& forall|i: int|
        0 <= i < shapes.len() ==> offset <= (#[trigger] shapes[i]).start && shapes[i].start
            < shapes[i].end && shapes[i].end - offset <= len
    &&& forall|i: int, j: int|
        0 <= i < j < shapes.len() ==> (#[trigger] shapes[i]).end <= (#[trigger] shapes[j]).start
}

proof fn lemma_in_line(shapes: Seq<FlatSpan>, offset: int, len: int)
    requires
        in_line(shapes, offset, len),
        0 <= len <= usize::MAX,
        0 <= offset,
    ensures
        forall|i: int|
            0 <= i < shapes.len() ==> covered(shapes, offset, len).0.contains(
                Run {
                    start: ((#[trigger] shapes[i]).start - offset) as usize,
                    end: (shapes[i].end - offset) as usize,
                    style: RunStyle {
                        color: style_rgb(default_shape_style(shapes[i].shape@)),
                        bold: default_shape_style(shapes[i].shape@).is_bold,
                    },
                },
            ),
        covered(shapes, offset, len).1 == if shapes.len() == 0 {
            0
        } else {
            shapes.last().end - offset
        },
        forall|k: int|
            0 <= k < covered(shapes, offset, len).0.len() ==> (#[trigger] covered(
                shapes,
                offset,
                len,
            ).0[k]).style == bare() || exists|i: int|
                0 <= i < shapes.len() && covered(shapes, offset, len).0[k].start == (
                #[trigger] shapes[i]).start - offset && covered(shapes, offset, len).0[k].end
                    == shapes[i].end - offset,
    decreases shapes.len(),
{
    if shapes.len() > 0 {
        let front = shapes.drop_last();
        assert(in_line(front, offset, len)) by {
            assert forall|i: int| 0 <= i < front.len() implies offset <= (
            #[trigger] front[i]).start && front[i].start < front[i].end && front[i].end - offset
                <= len by {
                assert(front[i] == shapes[i]);
            }
            assert forall|i: int, j: int| 0 <= i < j < front.len() implies (
            #[trigger] front[i]).end <= (#[trigger] front[j]).start by {
                assert(front[i] == shapes[i] && front[j] == shapes[j]);
            }
        }
        lemma_in_line(front, offset, len);
        let (runs, last) = covered(front, offset, len);
        let all = covered(shapes, offset, len).0;
        let span = shapes[shapes.len() - 1];
        if front.len() > 0 {
            assert(shapes[front.len() - 1].end <= span.start);
        }
        assert(last <= span.start - offset);
        assert(fresh_part(span, offset, len, last) == Some(
            (span.start - offset, span.end - offset),
        ));
        assert(all.len() > 0);
        assert forall|i: int| 0 <= i < shapes.len() implies all.contains(
            Run {
                start: ((#[trigger] shapes[i]).start - offset) as usize,
                end: (shapes[i].end - offset) as usize,
                style: RunStyle {
                    color: style_rgb(default_shape_style(shapes[i].shape@)),
                    bold: default_shape_style(shapes[i].shape@).is_bold,
                },
            },
        ) by {
            let run = Run {
                start: (shapes[i].start - offset) as usize,
                end: (shapes[i].end - offset) as usize,
                style: RunStyle {
                    color: style_rgb(default_shape_style(shapes[i].shape@)),
                    bold: default_shape_style(shapes[i].shape@).is_bold,
                },
            };
            if i < front.len() {
                assert(front[i] == shapes[i]);
                assert(runs.contains(run));
                let k = choose|k: int| 0 <= k < runs.len() && runs[k] == run;
                assert(all[k] == run);
            } else {
                assert(all[all.len() - 1] == run);
            }
        }
        assert forall|k: int| 0 <= k < all.len() implies (#[trigger] all[k]).style == bare()
            || exists|i: int|
            0 <= i < shapes.len() && all[k].start == (#[trigger] shapes[i]).start - offset
                && all[k].end == shapes[i].end - offset by {
            if k < runs.len() {
                assert(all[k] == runs[k]);
                if runs[k].style != bare() {
                    let i = choose|i: int|
                        0 <= i < front.len() && runs[k].start == (#[trigger] front[i]).start
                            - offset && runs[k].end == front[i].end - offset;
                    assert(shapes[i] == front[i]);
                }
            } else if k == all.len() - 1 {
                assert(all[k].start == span.start - offset);
            }
        }
    }
}

/// Spans that lie in a line one behind the other each become a run of the same bytes in the
/// style of their shape, and what no span covers stays bare.
pub proof fn law_each_span_becomes_its_run(shapes: Seq<FlatSpan>, offset: int, len: int)
    requires
        in_line(shapes, offset, len),
        0 <= len <= usize::MAX,
        0 <= offset,
    ensures
        forall|i: int|
            0 <= i < shapes.len() ==> line_runs(shapes, offset, len).contains(
                Run {
                    start: ((#[trigger] shapes[i]).start - offset) as usize,
                    end: (shapes[i].end - offset) as usize,
                    style: RunStyle {
                        color: style_rgb(default_shape_style(shapes[i].shape@)),
                        bold: default_shape_style(shapes[i].shape@).is_bold,
                    },
                },
            ),
        forall|k: int|
            0 <= k < line_runs(shapes, offset, len).len() ==> (#[trigger] line_runs(
                shapes,
                offset,
                len,
            )[k]).style == (RunStyle { color: None, bold: false }) || exists|i: int|
                0 <= i < shapes.len() && line_runs(shapes, offset, len)[k].start == (
                #[trigger] shapes[i]).start - offset && line_runs(shapes, offset, len)[k].end
                    == shapes[i].end - offset,
{
    lemma_in_line(shapes, offset, len);
    let runs = covered(shapes, offset, len).0;
    let all = line_runs(shapes, offset, len);
    assert forall|i: int| 0 <= i < shapes.len() implies all.contains(
        Run {
            start: ((#[trigger] shapes[i]).start - offset) as usize,
            end: (shapes[i].end - offset) as usize,
            style: RunStyle {
                color: style_rgb(default_shape_style(shapes[i].shape@)),
                bold: default_shape_style(shapes[i].shape@).is_bold,
            },
        },
    ) by {
        let run = Run {
            start: (shapes[i].start - offset) as usize,
            end: (shapes[i].end - offset) as usize,
            style: RunStyle {
                color: style_rgb(default_shape_style(shapes[i].shape@)),
                bold: default_shape_style(shapes[i].shape@).is_bold,
            },
        };
        let k = choose|k: int| 0 <= k < runs.len() && runs[k] == run;
        assert(all[k] == run);
    }
    assert forall|k: int| 0 <= k < all.len() implies (#[trigger] all[k]).style == (RunStyle {
        color: None,
        bold: false,
    }) || exists|i: int|
        0 <= i < shapes.len() && all[k].start == (#[trigger] shapes[i]).start - offset
            && all[k].end == shapes[i].end - offset by {
        if k < runs.len() {
            assert(all[k] == runs[k]);
        }
    }
}

proof fn lemma_clipped_styles(
    runs: Seq<Run>,
    i: int,
    pos: int,
    len: int,
    from: int,
    to: int,
    k: int,
    b: int,
    j: int,
)
    requires
        partition(runs, 0, len),
        0 <= i <= runs.len(),
        0 <= from < to <= usize::MAX,
        from <= pos <= to,
        pos > from ==> i > 0 && (pos == runs[i - 1].end || (pos == to && runs[i - 1].end >= to)),
        pos == from ==> forall|x: int| 0 <= x < i ==> (#[trigger] runs[x]).end <= from,
        0 <= k < clipped(runs, i, pos, from, to).len(),
        clipped(runs, i, pos, from, to)[k].start <= b < clipped(runs, i, pos, from, to)[k].end,
    ensures
        b >= len ==> clipped(runs, i, pos, from, to)[k].style == bare(),
        0 <= j < runs.len() && runs[j].start <= b < runs[j].end ==> clipped(
            runs,
            i,
            pos,
            from,
            to,
        )[k].style == runs[j].style,
    decreases runs.len() - i,
{
    lemma_partition_parts(runs, 0, len);
    if i >= runs.len() {
        if 0 <= j < runs.len() && runs[j].start <= b < runs[j].end {
            if j < runs.len() - 1 {
                lemma_ends_grow(runs, len, j, runs.len() - 1);
            }
            assert(runs[j].end <= runs[runs.len() - 1].end);
        }
    } else if runs[i].end > from && runs[i].start >= to {
        if i > 0 {
            assert(runs[i - 1].end == runs[i].start);
        }
    } else if runs[i].end <= from {
        if pos > from {
            lemma_ends_grow(runs, len, i - 1, i);
        }
        lemma_clipped_styles(runs, i + 1, pos, len, from, to, k, b, j);
    } else {
        let start = if runs[i].start > from {
            runs[i].start as int
        } else {
            from
        };
        let end = if runs[i].end < to {
            runs[i].end as int
        } else {
            to
        };
        let run = Run { start: start as usize, end: end as usize, style: runs[i].style };
        if i > 0 {
            assert(runs[i - 1].end == runs[i].start);
        } else {
            assert(runs[0].start == 0);
        }
        let rest = clipped(runs, i + 1, end, from, to);
        let all = clipped(runs, i, pos, from, to);
        assert(all =~= seq![run] + rest);
        if k > 0 {
            assert(all[k] == rest[k - 1]);
            lemma_clipped_styles(runs, i + 1, end, len, from, to, k - 1, b, j);
        } else if 0 <= j < runs.len() && runs[j].start <= b < runs[j].end {
            if j < i {
                if j < i - 1 {
                    lemma_ends_grow(runs, len, j, i - 1);
                }
                assert(runs[j].end <= runs[i - 1].end);
            } else if j > i {
                assert(runs[j - 1].end == runs[j].start);
                if j - 1 > i {
                    lemma_ends_grow(runs, len, i, j - 1);
                }
            }
        }
    }
}

/// Each byte of a part of a line has the style of the run that it lies in, and none where the
/// runs have ended.
pub proof fn law_parts_keep_the_style_of_their_run(
    runs: Seq<Run>,
    len: int,
    from: usize,
    to: usize,
    k: int,
    b: int,
    j: int,
)
    requires
        partition(runs, 0, len),
        from < to,
        0 <= k < styles_in(runs, from, to).len(),
        styles_in(runs, from, to)[k].start <= b < styles_in(runs, from, to)[k].end,
    ensures
        0 <= j < runs.len() && runs[j].start <= b < runs[j].end ==> styles_in(runs, from, to)[k].style
            == runs[j].style,
        b >= len ==> styles_in(runs, from, to)[k].style.color is None && !styles_in(
            runs,
            from,
            to,
        )[k].style.bold,
{
    lemma_clipped(runs, 0, from as int, len, from as int, to as int);
    assert(clipped(runs, 0, from as int, from as int, to as int).len() > 0);
    lemma_clipped_styles(runs, 0, from as int, len, from as int, to as int, k, b, j);
}

proof fn lemma_parts_styled(
    lines: Seq<Seq<(Seq<char>, RunStyle)>>,
    parts: Seq<Seq<char>>,
    style: RunStyle,
)
    requires
        lines.len() > 0,
    ensures
        ({
            let all = with_parts(lines, parts, style);
            let n = lines.len() - 1;
            &&& all.len() >= lines.len()
            &&& parts.len() > 0 ==> all.len() == n + parts.len()
            &&& all.take(n) == lines.take(n)
            &&& all[n].len() >= lines[n].len() && all[n].take(lines[n].len() as int) == lines[n]
            &&& forall|x: int, y: int|
                n <= x < all.len() && 0 <= y < all[x].len() && (x > n || y >= lines[n].len())
                    ==> (#[trigger] all[x][y]).1 == style
        }),
    decreases parts.len(),
{
    let all = with_parts(lines, parts, style);
    let n = lines.len() - 1;
    if parts.len() == 0 {
        assert(all[n].take(lines[n].len() as int) =~= lines[n]);
    } else {
        lemma_parts_styled(lines, parts.drop_last(), style);
        let before = with_parts(lines, parts.drop_last(), style);
        let begun = if parts.len() > 1 {
            before.push(Seq::empty())
        } else {
            before
        };
        assert(begun.take(n) =~= before.take(n));
        assert(all.take(n) =~= begun.take(n));
        assert(begun[n] == before[n]);
        assert(all[n].take(lines[n].len() as int) =~= begun[n].take(lines[n].len() as int));
        assert forall|x: int, y: int|
            n <= x < all.len() && 0 <= y < all[x].len() && (x > n || y >= lines[n].len()) implies (
        #[trigger] all[x][y]).1 == style by {
            if x < begun.len() && y < begun[x].len() {
                assert(all[x][y] == begun[x][y]);
                assert(x < before.len());
                assert(begun[x][y] == before[x][y]);
            }
        }
    }
}

/// A further run leaves the lines before it as they are, continues the last one, begins a
/// line at each line break of its text, and gives its own style to all that it adds.
pub proof fn law_runs_style_what_they_add(
    source: Seq<char>,
    runs: Seq<Run>,
    run: Run,
    text: Seq<char>,
    x: int,
    y: int,
)
    requires
        split_lines(source, runs).len() > 0,
        text_in(source, run.start as int, run.end as int) == Some(text),
    ensures
        ({
            let before = split_lines(source, runs);
            let all = split_lines(source, runs.push(run));
            let n = before.len() - 1;
            &&& all.len() == n + pieces(text, '\n', '\n').len()
            &&& all.take(n) == before.take(n)
            &&& all[n].take(before[n].len() as int) == before[n]
            &&& n <= x < all.len() && 0 <= y < all[x].len() && (x > n || y >= before[n].len())
                ==> all[x][y].1 == run.style
        }),
{
    assert(runs.push(run).drop_last() =~= runs);
    lemma_parts_of_text(text);
    lemma_parts_styled(split_lines(source, runs), pieces(text, '\n', '\n'), run.style);
}

/// The spans that the parser may give for a line are those that a call of it on that very
/// line, whole and in that engine's state, may return, and nothing else.
proof fn law_the_parser_reads_the_whole_line(
    engine: &nu_protocol::engine::EngineState,
    line: &str,
    list: Vec<FlatSpan>,
    shapes: Seq<FlatSpan>,
)
    ensures
        call_ensures(flat_shapes, (engine, line), list) ==> parser_may_flatten(engine, line, list@),
        parser_may_flatten(engine, line, shapes) ==> exists|given: Vec<FlatSpan>|
            #[trigger] call_ensures(flat_shapes, (engine, line), given) && given@ == shapes,
{
}

} // verus!
