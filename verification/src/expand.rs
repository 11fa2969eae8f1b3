//! Expand nested records and lists the way `table -e` does in the REPL.

use crate::text::{
    byte_len, decimal, decimal_usize, join, joined, law_lines_end_at_breaks, lines, lines_of,
    occurs_at, occurs_in, pad_right, padded, repeat_char, repeated, signed_decimal, texts,
};
use crate::value::{
    abbreviated, all_records, columns_of, field_place, find_field, gather_columns, only_records,
    DurationUnit, Field, NuValue,
};
use vstd::prelude::*;
use vstd::utf8::encode_scalar;

verus! {

/// The columns that a character takes: one where it is ASCII, else two.
pub open spec fn char_width(c: char) -> nat {
    if c <= '\u{7f}' {
        1
    } else {
        2
    }
}

/// The columns that a text takes.
pub open spec fn width_of(s: Seq<char>) -> nat
    decreases s.len(),
{
    if s.len() == 0 {
        0
    } else {
        width_of(s.drop_last()) + char_width(s.last())
    }
}

/// The largest of a row of numbers, or zero where there is none.
pub open spec fn largest(row: Seq<nat>) -> nat
    decreases row.len(),
{
    if row.len() == 0 {
        0
    } else if row.last() > largest(row.drop_last()) {
        row.last()
    } else {
        largest(row.drop_last())
    }
}

/// The columns that the widest line of a text takes.
pub open spec fn widest_line(s: Seq<char>) -> nat {
    largest(lines_of(s).map_values(|line: Seq<char>| width_of(line)))
}

/// The lines that a cell takes, at least one.
pub open spec fn cell_lines(s: Seq<char>) -> nat {
    if lines_of(s).len() == 0 {
        1
    } else {
        lines_of(s).len()
    }
}

proof fn lemma_width_head(s: Seq<char>)
    requires
        s.len() > 0,
    ensures
        width_of(s) == char_width(s[0]) + width_of(s.drop_first()),
    decreases s.len(),
{
    if s.len() == 1 {
        assert(s.drop_last() =~= Seq::empty());
        assert(s.drop_first() =~= Seq::empty());
    } else {
        lemma_width_head(s.drop_last());
        assert(s.drop_last().drop_first() =~= s.drop_first().drop_last());
    }
}

proof fn lemma_scalar_width(c: char)
    ensures
        char_width(c) <= encode_scalar(c as u32).len(),
{
}

/// A text takes no more columns than it has bytes.
pub proof fn lemma_width_in_bytes(s: Seq<char>)
    ensures
        width_of(s) <= byte_len(s),
    decreases s.len(),
{
    if s.len() > 0 {
        lemma_width_head(s);
        lemma_width_in_bytes(s.drop_first());
        lemma_scalar_width(s[0]);
    }
}

proof fn lemma_width_grows(s: Seq<char>, k: int)
    requires
        0 <= k <= s.len(),
    ensures
        width_of(s.take(k)) <= width_of(s),
    decreases s.len() - k,
{
    if k < s.len() {
        lemma_width_grows(s, k + 1);
        assert(s.take(k + 1).drop_last() =~= s.take(k));
    } else {
        assert(s.take(k) =~= s);
    }
}

/// The number of bytes of a text in UTF-8.
pub fn utf8_len(text: &str) -> (n: usize)
    ensures
        n == byte_len(text@),
{
    text.as_bytes().len()
}

/// The columns that a text takes.
pub fn display_width(text: &str) -> (n: usize)
    ensures
        n == width_of(text@),
{
    let bytes: usize = utf8_len(text);
    let mut n: usize = 0;
    proof {
        lemma_width_in_bytes(text@);
        assert(text@.take(0) =~= Seq::empty());
    }
    for c in it: text.chars()
        invariant
            it.seq() == text@,
            width_of(text@) <= bytes,
            n == width_of(text@.take(it.index() as int)),
    {
        proof {
            let k = it.index() as int;
            assert(text@.take(k + 1).drop_last() =~= text@.take(k));
            lemma_width_grows(text@, k + 1);
        }
        if c <= '\u{7f}' {
            n += 1;
        } else {
            n += 2;
        }
    }
    assert(text@.take(text@.len() as int) =~= text@);
    n
}

/// The columns that the widest line of a cell takes.
pub fn cell_display_width(text: &str) -> (n: usize)
    ensures
        n == widest_line(text@),
{
    let parts = lines(text);
    let ghost widths = lines_of(text@).map_values(|line: Seq<char>| width_of(line));
    let mut n: usize = 0;
    let mut i: usize = 0;
    assert(widths.take(0) =~= Seq::empty());
    while i < parts.len()
        invariant
            i <= parts@.len(),
            texts(parts@) == lines_of(text@),
            widths == lines_of(text@).map_values(|line: Seq<char>| width_of(line)),
            n == largest(widths.take(i as int)),
        decreases parts.len() - i,
    {
        assert(texts(parts@)[i as int] == parts@[i as int]@);
        let w: usize = display_width(parts[i].as_str());
        if w > n {
            n = w;
        }
        i += 1;
        assert(widths.take(i as int).drop_last() =~= widths.take(i - 1));
    }
    assert(widths.take(parts@.len() as int) =~= widths);
    n
}

/// The lines that a cell takes, at least one.
pub fn cell_line_count(text: &str) -> (n: usize)
    ensures
        n == cell_lines(text@),
{
    let parts = lines(text);
    assert(texts(parts@).len() == parts@.len());
    if parts.len() == 0 {
        1
    } else {
        parts.len()
    }
}

// ---------------------------------------------------------------------------------------
// Layout

/// Cells side by side, each filled up to the width of its column.
pub open spec fn row_line(cells: Seq<Seq<char>>, widths: Seq<nat>) -> Seq<char> {
    joined(
        Seq::new(
            if cells.len() < widths.len() {
                cells.len()
            } else {
                widths.len()
            },
            |i: int| padded(cells[i], widths[i]),
        ),
        "  "@,
    )
}

/// A line of a cell, empty where it has no such line.
pub open spec fn line_at(cell: Seq<char>, k: int) -> Seq<char> {
    if 0 <= k < lines_of(cell).len() {
        lines_of(cell)[k]
    } else {
        Seq::empty()
    }
}

/// The lines that a row of cells takes, at least one.
pub open spec fn row_height(row: Seq<Seq<char>>) -> nat {
    let tallest = largest(Seq::new(row.len(), |i: int| lines_of(row[i]).len()));
    if tallest < 1 {
        1
    } else {
        tallest
    }
}

/// A row of cells as lines.
pub open spec fn row_lines(row: Seq<Seq<char>>, widths: Seq<nat>) -> Seq<Seq<char>> {
    Seq::new(
        row_height(row),
        |k: int| row_line(Seq::new(row.len(), |i: int| line_at(row[i], k)), widths),
    )
}

/// Rows of cells as lines, one row below the other.
pub open spec fn all_row_lines(rows: Seq<Seq<Seq<char>>>, widths: Seq<nat>) -> Seq<Seq<char>>
    decreases rows.len(),
{
    if rows.len() == 0 {
        Seq::empty()
    } else {
        all_row_lines(rows.drop_last(), widths) + row_lines(rows.last(), widths)
    }
}

/// The widest line of a column's cells.
pub open spec fn column_body(rows: Seq<Seq<Seq<char>>>, col: int) -> nat {
    largest(Seq::new(rows.len(), |i: int| widest_line(rows[i][col])))
}

/// The width of a column: that of its header or its widest line, at most 48, and no less
/// than the bytes of its name.
pub open spec fn column_width(name: Seq<char>, body: nat) -> nat {
    let wide = if body > width_of(name) {
        body
    } else {
        width_of(name)
    };
    let cut = if wide > 48 {
        48
    } else {
        wide
    };
    if cut < byte_len(name) {
        byte_len(name)
    } else {
        cut
    }
}

/// The widths of the columns of a table.
pub open spec fn column_widths(columns: Seq<Seq<char>>, rows: Seq<Seq<Seq<char>>>) -> Seq<nat> {
    Seq::new(columns.len(), |col: int| column_width(columns[col], column_body(rows, col)))
}

/// The line below a header.
pub open spec fn rule_line(widths: Seq<nat>) -> Seq<char> {
    joined(Seq::new(widths.len(), |i: int| repeated('-', widths[i])), "  "@)
}

/// What follows the rows of a table that shows the first 24.
pub open spec fn more_rows(total: nat) -> Seq<Seq<char>> {
    if total > 24 {
        seq!["… "@ + decimal((total - 24) as nat) + " more rows"@]
    } else {
        Seq::empty()
    }
}

/// A table of texts with its header and a line below it.
pub open spec fn table_layout(
    columns: Seq<Seq<char>>,
    rows: Seq<Seq<Seq<char>>>,
    total: nat,
) -> Seq<char> {
    let widths = column_widths(columns, rows);
    joined(
        seq![row_line(columns, widths), rule_line(widths)] + all_row_lines(rows, widths)
            + more_rows(total),
        "\n"@,
    )
}

/// The columns that the widest of some names takes.
pub open spec fn names_width(names: Seq<Seq<char>>) -> nat {
    largest(Seq::new(names.len(), |i: int| width_of(names[i])))
}

/// A name and a text beside it, whose further lines stand below its first.
pub open spec fn beside(name: Seq<char>, width: nat, text: Seq<char>) -> Seq<char> {
    padded(name, width) + "  "@ + joined(lines_of(text), "\n"@ + repeated(' ', width) + "  "@)
}

/// Names with their texts beside them.
pub open spec fn pairs_layout(names: Seq<Seq<char>>, bodies: Seq<Seq<char>>) -> Seq<char> {
    joined(
        Seq::new(names.len(), |i: int| beside(names[i], names_width(names), bodies[i])),
        "\n"@,
    )
}

/// What follows the items of a list that shows the first 24.
pub open spec fn more_items(total: nat) -> Seq<Seq<char>> {
    if total > 24 {
        seq!["• … "@ + decimal((total - 24) as nat) + " more"@]
    } else {
        Seq::empty()
    }
}

/// Items below one another.
pub open spec fn bullets_layout(items: Seq<Seq<char>>, total: nat) -> Seq<char> {
    joined(Seq::new(items.len(), |i: int| "• "@ + items[i]) + more_items(total), "\n"@)
}

/// Numbers as naturals.
pub open spec fn naturals(widths: Seq<usize>) -> Seq<nat> {
    widths.map_values(|w: usize| w as nat)
}

/// Rows of texts.
pub open spec fn grid(rows: Seq<Vec<String>>) -> Seq<Seq<Seq<char>>> {
    rows.map_values(|row: Vec<String>| texts(row@))
}

/// Writes cells side by side, each filled up to the width of its column.
pub fn format_row(cells: &Vec<String>, widths: &Vec<usize>) -> (line: String)
    ensures
        line@ == row_line(texts(cells@), naturals(widths@)),
{
    let n: usize = if cells.len() < widths.len() {
        cells.len()
    } else {
        widths.len()
    };
    let mut parts: Vec<String> = Vec::new();
    for i in 0..n
        invariant
            n <= cells@.len(),
            n <= widths@.len(),
            parts@.len() == i,
            forall|k: int|
                0 <= k < i ==> (#[trigger] parts@[k])@ == padded(
                    texts(cells@)[k],
                    naturals(widths@)[k],
                ),
    {
        assert(texts(cells@)[i as int] == cells@[i as int]@);
        parts.push(pad_right(cells[i].as_str(), widths[i]));
    }
    proof {
        let want = Seq::new(n as nat, |i: int| padded(texts(cells@)[i], naturals(widths@)[i]));
        assert(texts(parts@) =~= want);
        assert(texts(cells@).len() == cells@.len());
    }
    join(&parts, "  ")
}

fn write_rule(widths: &Vec<usize>) -> (line: String)
    ensures
        line@ == rule_line(naturals(widths@)),
{
    let mut parts: Vec<String> = Vec::new();
    let n: usize = widths.len();
    for i in 0..n
        invariant
            n == widths@.len(),
            parts@.len() == i,
            forall|k: int|
                0 <= k < i ==> (#[trigger] parts@[k])@ == repeated('-', naturals(widths@)[k]),
    {
        parts.push(repeat_char('-', widths[i]));
    }
    proof {
        let want = Seq::new(naturals(widths@).len(), |i: int| repeated('-', naturals(widths@)[i]));
        assert(texts(parts@) =~= want);
    }
    join(&parts, "  ")
}

/// The lines of each cell of a row.
fn split_row(row: &Vec<String>) -> (parts: Vec<Vec<String>>)
    ensures
        parts@.len() == row@.len(),
        forall|i: int|
            0 <= i < row@.len() ==> texts((#[trigger] parts@[i])@) == lines_of(row@[i]@),
{
    let mut parts: Vec<Vec<String>> = Vec::new();
    let n: usize = row.len();
    for i in 0..n
        invariant
            n == row@.len(),
            parts@.len() == i,
            forall|k: int|
                0 <= k < i ==> texts((#[trigger] parts@[k])@) == lines_of(row@[k]@),
    {
        parts.push(lines(row[i].as_str()));
    }
    parts
}

fn tallest_cell(parts: &Vec<Vec<String>>, Ghost(row): Ghost<Seq<Seq<char>>>) -> (n: usize)
    requires
        parts@.len() == row.len(),
        forall|i: int| 0 <= i < row.len() ==> texts((#[trigger] parts@[i])@) == lines_of(row[i]),
    ensures
        n == row_height(row),
{
    let ghost heights = Seq::new(row.len(), |i: int| lines_of(row[i]).len());
    let mut tallest: usize = 0;
    let n: usize = parts.len();
    assert(heights.take(0) =~= Seq::empty());
    for i in 0..n
        invariant
            n == parts@.len(),
            parts@.len() == row.len(),
            forall|i: int|
                0 <= i < row.len() ==> texts((#[trigger] parts@[i])@) == lines_of(row[i]),
            heights == Seq::new(row.len(), |i: int| lines_of(row[i]).len()),
            tallest == largest(heights.take(i as int)),
    {
        assert(heights.take(i + 1).drop_last() =~= heights.take(i as int));
        assert(texts(parts@[i as int]@).len() == parts@[i as int]@.len());
        if parts[i].len() > tallest {
            tallest = parts[i].len();
        }
    }
    assert(heights.take(n as int) =~= heights);
    if tallest < 1 {
        1
    } else {
        tallest
    }
}

fn push_row_lines(out: &mut Vec<String>, row: &Vec<String>, widths: &Vec<usize>)
    ensures
        texts(final(out)@) == texts(old(out)@) + row_lines(texts(row@), naturals(widths@)),
{
    let parts = split_row(row);
    let ghost cells = texts(row@);
    assert forall|i: int| 0 <= i < cells.len() implies texts((#[trigger] parts@[i])@) == lines_of(
        cells[i],
    ) by {
        assert(cells[i] == row@[i]@);
    }
    let height: usize = tallest_cell(&parts, Ghost(cells));
    let ghost want = row_lines(cells, naturals(widths@));
    let n: usize = parts.len();
    assert(texts(out@) =~= texts(old(out)@) + want.take(0));
    for k in 0..height
        invariant
            n == parts@.len(),
            n == cells.len(),
            height == row_height(cells),
            want == row_lines(cells, naturals(widths@)),
            forall|i: int|
                0 <= i < cells.len() ==> texts((#[trigger] parts@[i])@) == lines_of(cells[i]),
            texts(out@) == texts(old(out)@) + want.take(k as int),
    {
        let mut line: Vec<String> = Vec::new();
        let ghost wanted = Seq::new(cells.len(), |i: int| line_at(cells[i], k as int));
        for i in 0..n
            invariant
                n == parts@.len(),
                n == cells.len(),
                forall|i: int|
                    0 <= i < cells.len() ==> texts((#[trigger] parts@[i])@) == lines_of(cells[i]),
                wanted == Seq::new(cells.len(), |i: int| line_at(cells[i], k as int)),
                line@.len() == i,
                forall|l: int| 0 <= l < i ==> (#[trigger] line@[l])@ == wanted[l],
        {
            assert(texts(parts@[i as int]@) == lines_of(cells[i as int]));
            if k < parts[i].len() {
                assert(texts(parts@[i as int]@)[k as int] == parts@[i as int]@[k as int]@);
                line.push(parts[i][k].clone());
            } else {
                line.push(String::new());
            }
        }
        assert(texts(line@) =~= wanted);
        let text = format_row(&line, widths);
        assert(want[k as int] == row_line(wanted, naturals(widths@)));
        let ghost before = out@;
        out.push(text);
        assert(texts(out@) =~= texts(before).push(text@));
        assert(want.take(k + 1) =~= want.take(k as int).push(want[k as int]));
        assert(texts(out@) =~= texts(old(out)@) + want.take(k + 1));
    }
    assert(want.take(height as int) =~= want);
}

fn measure_column(name: &str, rows: &Vec<Vec<String>>, col: usize) -> (width: usize)
    requires
        forall|i: int| 0 <= i < rows@.len() ==> col < (#[trigger] rows@[i])@.len(),
    ensures
        width == column_width(name@, column_body(grid(rows@), col as int)),
{
    let ghost all = grid(rows@);
    let ghost bodies = Seq::new(all.len(), |i: int| widest_line(all[i][col as int]));
    let header: usize = display_width(name);
    let mut body: usize = 0;
    let n: usize = rows.len();
    assert(bodies.take(0) =~= Seq::empty());
    for i in 0..n
        invariant
            n == rows@.len(),
            all == grid(rows@),
            forall|i: int| 0 <= i < rows@.len() ==> col < (#[trigger] rows@[i])@.len(),
            bodies == Seq::new(all.len(), |i: int| widest_line(all[i][col as int])),
            body == largest(bodies.take(i as int)),
    {
        assert(bodies.take(i + 1).drop_last() =~= bodies.take(i as int));
        assert(all[i as int] == texts(rows@[i as int]@));
        assert(all[i as int][col as int] == rows@[i as int]@[col as int]@);
        let width: usize = cell_display_width(rows[i][col].as_str());
        if width > body {
            body = width;
        }
    }
    assert(bodies.take(n as int) =~= bodies);
    let wide: usize = if body > header {
        body
    } else {
        header
    };
    let cut: usize = if wide > 48 {
        48
    } else {
        wide
    };
    let bytes: usize = utf8_len(name);
    if cut < bytes {
        bytes
    } else {
        cut
    }
}

fn lay_out_table(columns: &Vec<String>, rows: &Vec<Vec<String>>, total: usize) -> (out: String)
    requires
        forall|i: int| 0 <= i < rows@.len() ==> (#[trigger] rows@[i])@.len() == columns@.len(),
    ensures
        out@ == table_layout(texts(columns@), grid(rows@), total as nat),
{
    let ghost names = texts(columns@);
    let ghost all = grid(rows@);
    let ghost want = column_widths(names, all);
    let mut widths: Vec<usize> = Vec::new();
    let m: usize = columns.len();
    for j in 0..m
        invariant
            m == columns@.len(),
            names == texts(columns@),
            all == grid(rows@),
            want == column_widths(names, all),
            forall|i: int| 0 <= i < rows@.len() ==> (#[trigger] rows@[i])@.len() == m,
            widths@.len() == j,
            forall|k: int| 0 <= k < j ==> (#[trigger] widths@[k]) as nat == want[k],
    {
        assert(names[j as int] == columns@[j as int]@);
        widths.push(measure_column(columns[j].as_str(), rows, j));
    }
    assert(naturals(widths@) =~= want);
    let mut out: Vec<String> = Vec::new();
    out.push(format_row(columns, &widths));
    out.push(write_rule(&widths));
    let ghost head = seq![row_line(names, want), rule_line(want)];
    assert(texts(out@) =~= head);
    let n: usize = rows.len();
    assert(all.take(0) =~= Seq::empty());
    assert(texts(out@) =~= head + all_row_lines(all.take(0), want));
    for i in 0..n
        invariant
            n == rows@.len(),
            all == grid(rows@),
            naturals(widths@) == want,
            texts(out@) == head + all_row_lines(all.take(i as int), want),
    {
        assert(all.take(i + 1).drop_last() =~= all.take(i as int));
        assert(all.take(i + 1).last() == texts(rows@[i as int]@));
        push_row_lines(&mut out, &rows[i], &widths);
        assert(texts(out@) =~= head + all_row_lines(all.take(i + 1), want));
    }
    assert(all.take(n as int) =~= all);
    let ghost body = texts(out@);
    if total > 24 {
        let mut more = "… ".to_owned();
        more.push_str(decimal_usize(total - 24).as_str());
        more.push_str(" more rows");
        let ghost before = out@;
        out.push(more);
        assert(texts(out@) =~= texts(before) + more_rows(total as nat));
    }
    assert(texts(out@) =~= body + more_rows(total as nat));
    join(&out, "\n")
}

fn widest_name(names: &Vec<String>) -> (n: usize)
    ensures
        n == names_width(texts(names@)),
{
    let ghost all = texts(names@);
    let ghost widths = Seq::new(all.len(), |i: int| width_of(all[i]));
    let mut width: usize = 0;
    let n: usize = names.len();
    assert(widths.take(0) =~= Seq::empty());
    for i in 0..n
        invariant
            n == names@.len(),
            all == texts(names@),
            widths == Seq::new(all.len(), |i: int| width_of(all[i])),
            width == largest(widths.take(i as int)),
    {
        assert(widths.take(i + 1).drop_last() =~= widths.take(i as int));
        assert(all[i as int] == names@[i as int]@);
        let w: usize = display_width(names[i].as_str());
        if w > width {
            width = w;
        }
    }
    assert(widths.take(n as int) =~= widths);
    width
}

fn lay_out_pairs(names: &Vec<String>, bodies: &Vec<String>) -> (out: String)
    requires
        names@.len() == bodies@.len(),
    ensures
        out@ == pairs_layout(texts(names@), texts(bodies@)),
{
    let width: usize = widest_name(names);
    let mut indent = "\n".to_owned();
    indent.push_str(repeat_char(' ', width).as_str());
    indent.push_str("  ");
    let ghost want = Seq::new(
        texts(names@).len(),
        |i: int| beside(texts(names@)[i], names_width(texts(names@)), texts(bodies@)[i]),
    );
    let mut parts: Vec<String> = Vec::new();
    let n: usize = names.len();
    for i in 0..n
        invariant
            n == names@.len(),
            n == bodies@.len(),
            width == names_width(texts(names@)),
            indent@ == "\n"@ + repeated(' ', width as nat) + "  "@,
            want == Seq::new(
                texts(names@).len(),
                |i: int| beside(texts(names@)[i], names_width(texts(names@)), texts(bodies@)[i]),
            ),
            parts@.len() == i,
            forall|k: int| 0 <= k < i ==> (#[trigger] parts@[k])@ == want[k],
    {
        assert(texts(names@)[i as int] == names@[i as int]@);
        assert(texts(bodies@)[i as int] == bodies@[i as int]@);
        let mut part = pad_right(names[i].as_str(), width);
        part.push_str("  ");
        part.push_str(join(&lines(bodies[i].as_str()), indent.as_str()).as_str());
        assert(part@ == want[i as int]);
        parts.push(part);
    }
    assert(texts(parts@) =~= want);
    join(&parts, "\n")
}

fn lay_out_bullets(items: &Vec<String>, total: usize) -> (out: String)
    ensures
        out@ == bullets_layout(texts(items@), total as nat),
{
    let ghost want = Seq::new(texts(items@).len(), |i: int| "• "@ + texts(items@)[i]);
    let mut parts: Vec<String> = Vec::new();
    let n: usize = items.len();
    for i in 0..n
        invariant
            n == items@.len(),
            want == Seq::new(texts(items@).len(), |i: int| "• "@ + texts(items@)[i]),
            parts@.len() == i,
            forall|k: int| 0 <= k < i ==> (#[trigger] parts@[k])@ == want[k],
    {
        assert(texts(items@)[i as int] == items@[i as int]@);
        let mut part = "• ".to_owned();
        part.push_str(items[i].as_str());
        parts.push(part);
    }
    assert(texts(parts@) =~= want);
    if total > 24 {
        let mut more = "• … ".to_owned();
        more.push_str(decimal_usize(total - 24).as_str());
        more.push_str(" more");
        let ghost before = parts@;
        parts.push(more);
        assert(texts(parts@) =~= texts(before) + more_items(total as nat));
    }
    assert(texts(parts@) =~= want + more_items(total as nat));
    join(&parts, "\n")
}

// ---------------------------------------------------------------------------------------
// Values

/// The text of a value that is no structure.
pub open spec fn primitive(v: NuValue, unit: DurationUnit) -> Seq<char> {
    match v {
        NuValue::Float { fixed, .. } => fixed@,
        NuValue::Record { .. } => "{}"@,
        _ => abbreviated(v, unit),
    }
}

/// The first 24 of some values.
pub open spec fn first_values(vals: Seq<NuValue>) -> Seq<NuValue> {
    if vals.len() < 24 {
        vals
    } else {
        vals.take(24)
    }
}

/// The names of some fields.
pub open spec fn field_names(fields: Seq<Field>) -> Seq<Seq<char>> {
    Seq::new(fields.len(), |i: int| fields[i].name@)
}

/// The text of a value with its structure laid out down to a depth.
pub open spec fn expanded(v: NuValue, unit: DurationUnit, depth: nat) -> Seq<char>
    decreases depth, 0nat,
{
    if depth == 0 {
        abbreviated(v, unit)
    } else {
        match v {
            NuValue::Record { val } => if val@.len() > 0 {
                pairs_layout(field_names(val@), expanded_fields(val@, unit, (depth - 1) as nat))
            } else {
                primitive(v, unit)
            },
            NuValue::List { vals } => {
                let shown = first_values(vals@);
                if vals@.len() == 0 {
                    "[]"@
                } else if all_records(vals@) {
                    let columns = columns_of(shown);
                    if columns.len() == 0 {
                        "["@ + decimal(vals@.len()) + " rows]"@
                    } else {
                        table_layout(
                            columns,
                            expanded_rows(shown, columns, unit, (depth - 1) as nat),
                            vals@.len(),
                        )
                    }
                } else {
                    bullets_layout(expanded_items(shown, unit, (depth - 1) as nat), vals@.len())
                }
            },
            _ => primitive(v, unit),
        }
    }
}

/// The texts of the values of some fields.
pub open spec fn expanded_fields(fields: Seq<Field>, unit: DurationUnit, depth: nat) -> Seq<
    Seq<char>,
>
    decreases depth, 1nat,
{
    Seq::new(fields.len(), |i: int| expanded(fields[i].value, unit, depth))
}

/// The texts of some values.
pub open spec fn expanded_items(vals: Seq<NuValue>, unit: DurationUnit, depth: nat) -> Seq<
    Seq<char>,
>
    decreases depth, 1nat,
{
    Seq::new(vals.len(), |i: int| expanded(vals[i], unit, depth))
}

/// The text of a record's value in a column, empty where it has none.
pub open spec fn expanded_cell(
    v: NuValue,
    column: Seq<char>,
    unit: DurationUnit,
    depth: nat,
) -> Seq<char>
    decreases depth, 1nat,
{
    match v {
        NuValue::Record { val } => match field_place(val@, column) {
            Some(k) => expanded(val@[k].value, unit, depth),
            None => Seq::empty(),
        },
        _ => Seq::empty(),
    }
}

/// The texts of some records, column by column.
pub open spec fn expanded_rows(
    vals: Seq<NuValue>,
    columns: Seq<Seq<char>>,
    unit: DurationUnit,
    depth: nat,
) -> Seq<Seq<Seq<char>>>
    decreases depth, 2nat,
{
    Seq::new(
        vals.len(),
        |i: int|
            Seq::new(columns.len(), |j: int| expanded_cell(vals[i], columns[j], unit, depth)),
    )
}

/// Pretty-print a value for a table cell, expanding nested tables/records.
pub fn format_expanded(value: &NuValue, unit: DurationUnit) -> (out: String)
    ensures
        out@ == expanded(*value, unit, 3),
{
    format_depth(value, unit, 3)
}

fn format_depth(value: &NuValue, unit: DurationUnit, depth: usize) -> (out: String)
    ensures
        out@ == expanded(*value, unit, depth as nat),
    decreases depth, 0nat,
{
    if depth == 0 {
        return value.to_abbreviated_string(unit);
    }
    match value {
        NuValue::Record { val } => if val.len() > 0 {
            format_record(val, unit, depth)
        } else {
            format_primitive(value, unit)
        },
        NuValue::List { vals } => if vals.len() == 0 {
            "[]".to_owned()
        } else if only_records(vals) {
            format_record_list(vals, unit, depth)
        } else {
            format_scalar_list(vals, unit, depth)
        },
        _ => format_primitive(value, unit),
    }
}

fn format_primitive(value: &NuValue, unit: DurationUnit) -> (out: String)
    ensures
        out@ == primitive(*value, unit),
{
    match value {
        NuValue::Float { fixed, .. } => fixed.clone(),
        NuValue::Record { .. } => "{}".to_owned(),
        _ => value.to_abbreviated_string(unit),
    }
}

fn format_record(fields: &Vec<Field>, unit: DurationUnit, depth: usize) -> (out: String)
    requires
        depth > 0,
    ensures
        out@ == pairs_layout(
            field_names(fields@),
            expanded_fields(fields@, unit, (depth - 1) as nat),
        ),
    decreases depth - 1, 1nat,
{
    let ghost want = expanded_fields(fields@, unit, (depth - 1) as nat);
    let mut names: Vec<String> = Vec::new();
    let mut bodies: Vec<String> = Vec::new();
    let n: usize = fields.len();
    for i in 0..n
        invariant
            depth > 0,
            n == fields@.len(),
            want == expanded_fields(fields@, unit, (depth - 1) as nat),
            names@.len() == i,
            bodies@.len() == i,
            forall|k: int| 0 <= k < i ==> (#[trigger] names@[k])@ == fields@[k].name@,
            forall|k: int| 0 <= k < i ==> (#[trigger] bodies@[k])@ == want[k],
    {
        names.push(fields[i].name.clone());
        let body = format_depth(&fields[i].value, unit, depth - 1);
        assert(body@ == want[i as int]);
        bodies.push(body);
    }
    assert(texts(names@) =~= field_names(fields@));
    assert(texts(bodies@) =~= want);
    lay_out_pairs(&names, &bodies)
}

fn format_record_list(vals: &Vec<NuValue>, unit: DurationUnit, depth: usize) -> (out: String)
    requires
        depth > 0,
    ensures
        ({
            let shown = first_values(vals@);
            let columns = columns_of(shown);
            out@ == if columns.len() == 0 {
                "["@ + decimal(vals@.len()) + " rows]"@
            } else {
                table_layout(
                    columns,
                    expanded_rows(shown, columns, unit, (depth - 1) as nat),
                    vals@.len(),
                )
            }
        }),
    decreases depth - 1, 2nat,
{
    let n: usize = if vals.len() < 24 {
        vals.len()
    } else {
        24
    };
    let ghost shown = first_values(vals@);
    assert(vals@.take(n as int) =~= shown);
    let columns = gather_columns(vals, n);
    let m: usize = columns.len();
    assert(texts(columns@).len() == m);
    if m == 0 {
        let mut out = "[".to_owned();
        out.push_str(decimal_usize(vals.len()).as_str());
        out.push_str(" rows]");
        return out;
    }
    let ghost want = expanded_rows(shown, texts(columns@), unit, (depth - 1) as nat);
    let mut rows: Vec<Vec<String>> = Vec::new();
    for i in 0..n
        invariant
            depth > 0,
            n <= vals@.len(),
            n == shown.len(),
            m == columns@.len(),
            forall|k: int| 0 <= k < n ==> shown[k] == #[trigger] vals@[k],
            want == expanded_rows(shown, texts(columns@), unit, (depth - 1) as nat),
            rows@.len() == i,
            forall|k: int| 0 <= k < i ==> (#[trigger] rows@[k])@.len() == m,
            forall|k: int| 0 <= k < i ==> texts((#[trigger] rows@[k])@) == want[k],
    {
        let mut row: Vec<String> = Vec::new();
        for j in 0..m
            invariant
                depth > 0,
                i < n,
                n <= vals@.len(),
                n == shown.len(),
                m == columns@.len(),
                shown[i as int] == vals@[i as int],
                want == expanded_rows(shown, texts(columns@), unit, (depth - 1) as nat),
                row@.len() == j,
                forall|l: int| 0 <= l < j ==> (#[trigger] row@[l])@ == want[i as int][l],
        {
            assert(texts(columns@)[j as int] == columns@[j as int]@);
            let cell = format_cell(&vals[i], columns[j].as_str(), unit, depth - 1);
            assert(cell@ == want[i as int][j as int]);
            row.push(cell);
        }
        assert(want[i as int].len() == texts(columns@).len());
        assert(texts(row@) =~= want[i as int]);
        rows.push(row);
    }
    assert(grid(rows@) =~= want);
    lay_out_table(&columns, &rows, vals.len())
}

fn format_cell(value: &NuValue, column: &str, unit: DurationUnit, depth: usize) -> (out: String)
    ensures
        out@ == expanded_cell(*value, column@, unit, depth as nat),
    decreases depth, 1nat,
{
    match value {
        NuValue::Record { val } => match find_field(val, column) {
            Some(k) => format_depth(&val[k].value, unit, depth),
            None => String::new(),
        },
        _ => String::new(),
    }
}

fn format_scalar_list(vals: &Vec<NuValue>, unit: DurationUnit, depth: usize) -> (out: String)
    requires
        depth > 0,
    ensures
        out@ == bullets_layout(
            expanded_items(first_values(vals@), unit, (depth - 1) as nat),
            vals@.len(),
        ),
    decreases depth - 1, 1nat,
{
    let n: usize = if vals.len() < 24 {
        vals.len()
    } else {
        24
    };
    let ghost shown = first_values(vals@);
    let ghost want = expanded_items(shown, unit, (depth - 1) as nat);
    let mut items: Vec<String> = Vec::new();
    for i in 0..n
        invariant
            depth > 0,
            n <= vals@.len(),
            n == shown.len(),
            forall|k: int| 0 <= k < n ==> shown[k] == #[trigger] vals@[k],
            want == expanded_items(shown, unit, (depth - 1) as nat),
            items@.len() == i,
            forall|k: int| 0 <= k < i ==> (#[trigger] items@[k])@ == want[k],
    {
        assert(shown[i as int] == vals@[i as int]);
        let item = format_depth(&vals[i], unit, depth - 1);
        assert(item@ == want[i as int]);
        items.push(item);
    }
    assert(texts(items@) =~= want);
    lay_out_bullets(&items, vals.len())
}

// ---------------------------------------------------------------------------------------
// Laws

proof fn lemma_occurs_within(outer: Seq<char>, before: Seq<char>, inner: Seq<char>, after: Seq<char>, pattern: Seq<char>)
    requires
        outer == before + inner + after,
        occurs_in(inner, pattern),
    ensures
        occurs_in(outer, pattern),
{
    let i = choose|i: int| occurs_at(inner, pattern, i);
    assert(outer.subrange(before.len() + i, before.len() + i + pattern.len()) =~= inner.subrange(
        i,
        i + pattern.len(),
    ));
    assert(occurs_at(outer, pattern, before.len() + i));
}

proof fn lemma_joined_holds(parts: Seq<Seq<char>>, separator: Seq<char>, i: int, pattern: Seq<char>)
    requires
        0 <= i < parts.len(),
        occurs_in(parts[i], pattern),
    ensures
        occurs_in(joined(parts, separator), pattern),
    decreases parts.len(),
{
    let whole = joined(parts, separator);
    let empty = Seq::<char>::empty();
    if parts.len() == 1 {
        assert(whole =~= empty + parts[0] + empty);
        lemma_occurs_within(whole, empty, parts[0], empty, pattern);
    } else if i == parts.len() - 1 {
        let front = joined(parts.drop_last(), separator) + separator;
        assert(whole =~= front + parts.last() + empty);
        lemma_occurs_within(whole, front, parts.last(), empty, pattern);
    } else {
        lemma_joined_holds(parts.drop_last(), separator, i, pattern);
        let front = joined(parts.drop_last(), separator);
        assert(whole =~= empty + front + (separator + parts.last()));
        lemma_occurs_within(whole, empty, front, separator + parts.last(), pattern);
    }
}

proof fn lemma_padded_holds(text: Seq<char>, width: nat)
    ensures
        occurs_in(padded(text, width), text),
{
    assert(padded(text, width).subrange(0, text.len() as int) =~= text);
    assert(occurs_at(padded(text, width), text, 0));
}

/// The text of a record names each of its fields.
pub proof fn law_expanded_record_names_its_fields(
    v: NuValue,
    unit: DurationUnit,
    depth: nat,
    i: int,
)
    requires
        v is Record,
        0 <= i < v->Record_val@.len(),
        depth > 0,
    ensures
        occurs_in(expanded(v, unit, depth), v->Record_val@[i].name@),
{
    let fields = v->Record_val@;
    let names = field_names(fields);
    let bodies = expanded_fields(fields, unit, (depth - 1) as nat);
    let width = names_width(names);
    let parts = Seq::new(names.len(), |i: int| beside(names[i], width, bodies[i]));
    let name = names[i];
    lemma_padded_holds(name, width);
    let rest = "  "@ + joined(lines_of(bodies[i]), "\n"@ + repeated(' ', width) + "  "@);
    assert(parts[i] =~= Seq::empty() + padded(name, width) + rest);
    lemma_occurs_within(parts[i], Seq::empty(), padded(name, width), rest, name);
    lemma_joined_holds(parts, "\n"@, i, name);
    assert(parts =~= Seq::new(
        names.len(),
        |i: int| beside(names[i], names_width(names), bodies[i]),
    ));
}

proof fn lemma_row_line_holds(cells: Seq<Seq<char>>, widths: Seq<nat>, i: int)
    requires
        0 <= i < cells.len(),
        cells.len() == widths.len(),
    ensures
        occurs_in(row_line(cells, widths), cells[i]),
{
    let parts = Seq::new(
        if cells.len() < widths.len() {
            cells.len()
        } else {
            widths.len()
        },
        |i: int| padded(cells[i], widths[i]),
    );
    lemma_padded_holds(cells[i], widths[i]);
    lemma_joined_holds(parts, "  "@, i, cells[i]);
}

proof fn lemma_table_layout_holds(
    columns: Seq<Seq<char>>,
    rows: Seq<Seq<Seq<char>>>,
    total: nat,
    i: int,
)
    requires
        0 <= i < columns.len(),
    ensures
        occurs_in(table_layout(columns, rows, total), columns[i]),
{
    let widths = column_widths(columns, rows);
    lemma_row_line_holds(columns, widths, i);
    let lines = seq![row_line(columns, widths), rule_line(widths)] + all_row_lines(rows, widths)
        + more_rows(total);
    assert(lines[0] == row_line(columns, widths));
    lemma_joined_holds(lines, "\n"@, 0, columns[i]);
}

/// The text of a list of records names each of its columns.
pub proof fn law_expanded_table_names_its_columns(
    v: NuValue,
    unit: DurationUnit,
    depth: nat,
    i: int,
)
    requires
        v is List,
        all_records(v->vals@),
        v->vals@.len() > 0,
        0 <= i < columns_of(first_values(v->vals@)).len(),
        depth > 0,
    ensures
        occurs_in(expanded(v, unit, depth), columns_of(first_values(v->vals@))[i]),
{
    let shown = first_values(v->vals@);
    let columns = columns_of(shown);
    let rows = expanded_rows(shown, columns, unit, (depth - 1) as nat);
    lemma_table_layout_holds(columns, rows, v->vals@.len(), i);
}

/// Each character of a text adds one column where it is ASCII and two where it is not.
pub proof fn law_widths_add_up(s: Seq<char>, c: char)
    ensures
        width_of(Seq::empty()) == 0,
        width_of(s.push(c)) == width_of(s) + (if c <= '\u{7f}' {
            1nat
        } else {
            2nat
        }),
{
    assert(s.push(c).drop_last() =~= s);
}

/// The widest line is as wide as one of the lines and no line is wider; a text without lines
/// takes no columns, and yet one line.
pub proof fn law_widest_line_bounds_all(text: Seq<char>, i: int)
    requires
        0 <= i < lines_of(text).len(),
    ensures
        width_of(lines_of(text)[i]) <= widest_line(text),
        exists|k: int|
            0 <= k < lines_of(text).len() && width_of(#[trigger] lines_of(text)[k]) == widest_line(
                text,
            ),
        cell_lines(text) == lines_of(text).len(),
{
    let widths = lines_of(text).map_values(|line: Seq<char>| width_of(line));
    lemma_largest(widths);
    assert(widths[i] == width_of(lines_of(text)[i]));
    let k = choose|k: int| 0 <= k < widths.len() && widths[k] == largest(widths);
    assert(width_of(lines_of(text)[k]) == widest_line(text));
}

/// The largest of some numbers is one of them and none is larger.
pub proof fn lemma_largest(row: Seq<nat>)
    ensures
        forall|i: int| 0 <= i < row.len() ==> #[trigger] row[i] <= largest(row),
        row.len() > 0 ==> exists|k: int| 0 <= k < row.len() && row[k] == largest(row),
    decreases row.len(),
{
    if row.len() > 0 {
        let front = row.drop_last();
        lemma_largest(front);
        assert forall|i: int| 0 <= i < row.len() implies #[trigger] row[i] <= largest(row) by {
            if i < front.len() {
                assert(front[i] == row[i]);
            }
        }
        if row.last() > largest(front) {
            assert(row[row.len() - 1] == largest(row));
        } else if front.len() > 0 {
            let k = choose|k: int| 0 <= k < front.len() && front[k] == largest(front);
            assert(row[k] == largest(row));
        } else {
            assert(row[row.len() - 1] == largest(row));
        }
    }
}

/// The text of a record of scalars, each of one line, has a line for each field: its name,
/// filled up to the widest name, two blanks, and the value of that same field.
pub proof fn law_flat_records_pair_names_and_values(v: NuValue, unit: DurationUnit, depth: nat)
    requires
        v is Record,
        v->Record_val@.len() > 0,
        depth > 1,
        forall|i: int|
            0 <= i < v->Record_val@.len() ==> (#[trigger] v->Record_val@[i]).value is Text
                && v->Record_val@[i].value->Text_val@.len() > 0
                && !v->Record_val@[i].value->Text_val@.contains('\n'),
    ensures
        expanded(v, unit, depth) == joined(
            Seq::new(
                v->Record_val@.len(),
                |i: int|
                    padded(
                        v->Record_val@[i].name@,
                        largest(
                            Seq::new(
                                v->Record_val@.len(),
                                |k: int| width_of(v->Record_val@[k].name@),
                            ),
                        ),
                    ) + "  "@ + v->Record_val@[i].value->Text_val@,
            ),
            "\n"@,
        ),
{
    let fields = v->Record_val@;
    let names = field_names(fields);
    let bodies = expanded_fields(fields, unit, (depth - 1) as nat);
    let width = largest(Seq::new(fields.len(), |k: int| width_of(fields[k].name@)));
    assert(Seq::new(names.len(), |i: int| width_of(names[i])) =~= Seq::new(
        fields.len(),
        |k: int| width_of(fields[k].name@),
    ));
    assert(names_width(names) == width);
    let lines = Seq::new(names.len(), |i: int| beside(names[i], names_width(names), bodies[i]));
    let wanted = Seq::new(
        fields.len(),
        |i: int| padded(fields[i].name@, width) + "  "@ + fields[i].value->Text_val@,
    );
    assert forall|i: int| 0 <= i < fields.len() implies lines[i] == wanted[i] by {
        let text = fields[i].value->Text_val@;
        assert(fields[i].value is Text);
        assert(bodies[i] == text);
        law_lines_end_at_breaks(text, Seq::empty());
        assert(lines_of(text) == seq![text]);
        assert(joined(seq![text], "\n"@ + repeated(' ', width) + "  "@) == text);
    }
    assert(lines =~= wanted);
}

/// The further lines of a value stand below its first, in the same column.
pub proof fn law_further_lines_are_indented(
    name: Seq<char>,
    width: nat,
    first: Seq<char>,
    second: Seq<char>,
)
    requires
        first.len() > 0,
        second.len() > 0,
        !first.contains('\n'),
        first.last() != '\r',
        !second.contains('\n'),
    ensures
        beside(name, width, first + seq!['\n'] + second) == padded(name, width) + "  "@ + (first + (
        "\n"@ + repeated(' ', width) + "  "@) + second),
{
    law_lines_end_at_breaks(first, second);
    law_lines_end_at_breaks(second, Seq::empty());
    let lines = seq![first, second];
    assert(seq![first] + seq![second] =~= lines);
    assert(lines.drop_last() =~= seq![first]);
    let gap = "\n"@ + repeated(' ', width) + "  "@;
    assert(joined(seq![first], gap) == first);
    assert(joined(lines, gap) == first + gap + second);
}

/// A column is no narrower than its name and, up to 48 columns, than each of its lines, and
/// no wider than these ask for.
pub proof fn law_columns_fit_what_they_hold(name: Seq<char>, body: nat)
    ensures
        column_width(name, body) >= byte_len(name),
        body <= 48 ==> column_width(name, body) >= body,
        column_width(name, body) <= 48 || column_width(name, body) == byte_len(name),
        column_width(name, body) == byte_len(name) || column_width(name, body) == width_of(name)
            || column_width(name, body) == body || column_width(name, body) == 48,
{
}

/// The text of a list of records whose values are texts of one line has the header, a rule
/// and a line for each record, in their order, with the record's own values under the
/// columns.
pub proof fn law_flat_tables_have_a_line_for_each_record(
    columns: Seq<Seq<char>>,
    rows: Seq<Seq<Seq<char>>>,
    total: nat,
)
    requires
        total <= 24,
        columns.len() > 0,
        forall|i: int| 0 <= i < rows.len() ==> (#[trigger] rows[i]).len() == columns.len(),
        forall|i: int, j: int|
            0 <= i < rows.len() && 0 <= j < columns.len() ==> (#[trigger] rows[i][j]).len() > 0
                && !rows[i][j].contains('\n'),
    ensures
        ({
            let widths = column_widths(columns, rows);
            table_layout(columns, rows, total) == joined(
                seq![row_line(columns, widths), rule_line(widths)] + Seq::new(
                    rows.len(),
                    |i: int| row_line(rows[i], widths),
                ),
                "\n"@,
            )
        }),
{
    let widths = column_widths(columns, rows);
    lemma_flat_rows(rows, columns.len(), widths);
    let lines = Seq::new(rows.len(), |i: int| row_line(rows[i], widths));
    let head = seq![row_line(columns, widths), rule_line(widths)];
    assert(head + lines + more_rows(total) =~= head + lines);
}

proof fn lemma_flat_rows(rows: Seq<Seq<Seq<char>>>, m: nat, widths: Seq<nat>)
    requires
        m > 0,
        forall|i: int| 0 <= i < rows.len() ==> (#[trigger] rows[i]).len() == m,
        forall|i: int, j: int|
            0 <= i < rows.len() && 0 <= j < m ==> (#[trigger] rows[i][j]).len() > 0
                && !rows[i][j].contains('\n'),
    ensures
        all_row_lines(rows, widths) == Seq::new(rows.len(), |i: int| row_line(rows[i], widths)),
    decreases rows.len(),
{
    if rows.len() > 0 {
        let front = rows.drop_last();
        let last = rows.last();
        assert forall|i: int| 0 <= i < front.len() implies (#[trigger] front[i]).len() == m by {
            assert(front[i] == rows[i]);
        }
        assert forall|i: int, j: int| 0 <= i < front.len() && 0 <= j < m implies (
        #[trigger] front[i][j]).len() > 0 && !front[i][j].contains('\n') by {
            assert(front[i][j] == rows[i][j]);
        }
        lemma_flat_rows(front, m, widths);
        assert(last == rows[rows.len() - 1]);
        assert forall|j: int| 0 <= j < m implies lines_of(#[trigger] last[j]) == seq![last[j]] by {
            assert(rows[rows.len() - 1][j].len() > 0);
            law_lines_end_at_breaks(last[j], Seq::empty());
        }
        let heights = Seq::new(last.len(), |i: int| lines_of(last[i]).len());
        lemma_largest(heights);
        assert(heights[0] == 1);
        let k = choose|k: int| 0 <= k < heights.len() && heights[k] == largest(heights);
        assert(lines_of(last[k]).len() == 1);
        assert(row_height(last) == 1);
        let cells = Seq::new(last.len(), |i: int| line_at(last[i], 0));
        assert(cells =~= last) by {
            assert forall|i: int| 0 <= i < last.len() implies cells[i] == last[i] by {
                assert(lines_of(last[i]) == seq![last[i]]);
            }
        }
        assert(row_lines(last, widths) =~= seq![row_line(last, widths)]);
    }
    assert(all_row_lines(rows, widths) =~= Seq::new(
        rows.len(),
        |i: int| row_line(rows[i], widths),
    ));
}

/// A list of records is laid out from its own first 24 records: in each row the text of the
/// record's own field of the column's name, or nothing.
pub proof fn law_table_texts_are_the_records_own(
    vals: Seq<NuValue>,
    columns: Seq<Seq<char>>,
    unit: DurationUnit,
    depth: nat,
    i: int,
    j: int,
)
    requires
        0 <= i < vals.len(),
        0 <= j < columns.len(),
        vals[i] is Record,
    ensures
        expanded_rows(vals, columns, unit, depth).len() == vals.len(),
        expanded_rows(vals, columns, unit, depth)[i].len() == columns.len(),
        match field_place(vals[i]->Record_val@, columns[j]) {
            Some(k) => expanded_rows(vals, columns, unit, depth)[i][j] == expanded(
                vals[i]->Record_val@[k].value,
                unit,
                depth,
            ),
            None => expanded_rows(vals, columns, unit, depth)[i][j].len() == 0,
        },
{
}

/// A text, a number and any other scalar is laid out as its text, at every depth; a list of
/// scalars as bullets in their order, the first 24 of them.
pub proof fn law_scalars_are_laid_out_as_their_text(v: NuValue, unit: DurationUnit, depth: nat)
    ensures
        v matches NuValue::Text { val, .. } ==> expanded(v, unit, depth) == val@,
        v matches NuValue::Int { val, .. } ==> expanded(v, unit, depth) == signed_decimal(
            val as int,
        ),
        v matches NuValue::Float { fixed, .. } ==> depth > 0 ==> expanded(v, unit, depth) == fixed@,
        v matches NuValue::List { vals } ==> depth > 1 && 0 < vals@.len() <= 24 && (forall|i: int|
            0 <= i < vals@.len() ==> (#[trigger] vals@[i]) is Text) ==> expanded(v, unit, depth)
            == joined(Seq::new(vals@.len(), |i: int| "• "@ + vals@[i]->Text_val@), "\n"@),
        depth == 0 ==> expanded(v, unit, depth) == abbreviated(v, unit),
{
    if let NuValue::List { vals } = v {
        if depth > 1 && 0 < vals@.len() <= 24 && (forall|i: int|
            0 <= i < vals@.len() ==> (#[trigger] vals@[i]) is Text) {
            assert(vals@[0] is Text);
            assert(!all_records(vals@));
            let shown = first_values(vals@);
            assert(shown =~= vals@);
            let items = expanded_items(shown, unit, (depth - 1) as nat);
            let lines = Seq::new(items.len(), |i: int| "• "@ + items[i]);
            let wanted = Seq::new(vals@.len(), |i: int| "• "@ + vals@[i]->Text_val@);
            assert forall|i: int| 0 <= i < wanted.len() implies lines[i] == wanted[i] by {
                assert(vals@[i] is Text);
                assert(items[i] == vals@[i]->Text_val@);
            }
            assert(lines =~= wanted);
            assert(lines + more_items(vals@.len()) =~= wanted);
        }
    }
}

/// A row is its cells from left to right, each filled up with blanks to its column's width,
/// with two blanks between them, and the rule below a header has dashes in their place.
pub proof fn law_cells_stand_side_by_side(
    cells: Seq<Seq<char>>,
    widths: Seq<nat>,
    cell: Seq<char>,
    width: nat,
)
    requires
        cells.len() == widths.len(),
    ensures
        row_line(seq![cell], seq![width]) == padded(cell, width),
        rule_line(seq![width]) == repeated('-', width),
        cells.len() > 0 ==> row_line(cells.push(cell), widths.push(width)) == row_line(cells, widths)
            + seq![' ', ' '] + padded(cell, width),
        cells.len() > 0 ==> rule_line(widths.push(width)) == rule_line(widths) + seq![' ', ' ']
            + repeated('-', width),
{
    reveal_strlit("  ");
    assert("  "@ =~= seq![' ', ' ']);
    let one = Seq::new(1, |i: int| padded(seq![cell][i], seq![width][i]));
    assert(one[0] == padded(cell, width));
    let dashes = Seq::new(1, |i: int| repeated('-', seq![width][i]));
    assert(dashes[0] == repeated('-', width));
    if cells.len() > 0 {
        let parts = Seq::new(cells.len(), |i: int| padded(cells[i], widths[i]));
        let more = Seq::new(
            cells.push(cell).len(),
            |i: int| padded(cells.push(cell)[i], widths.push(width)[i]),
        );
        assert(more =~= parts.push(padded(cell, width)));
        assert(more.drop_last() =~= parts);
        let rules = Seq::new(widths.len(), |i: int| repeated('-', widths[i]));
        let longer = Seq::new(
            widths.push(width).len(),
            |i: int| repeated('-', widths.push(width)[i]),
        );
        assert(longer =~= rules.push(repeated('-', width)));
        assert(longer.drop_last() =~= rules);
    }
}

/// What is empty says so: a list without items, a record without fields, and records that
/// have no field among them by their number.
pub proof fn law_empty_structures_say_so(v: NuValue, unit: DurationUnit, depth: nat)
    requires
        depth > 0,
    ensures
        v is List && v->vals@.len() == 0 ==> expanded(v, unit, depth) == "[]"@,
        v is Record && v->Record_val@.len() == 0 ==> expanded(v, unit, depth) == "{}"@,
        v is List && v->vals@.len() > 0 && all_records(v->vals@) && columns_of(
            first_values(v->vals@),
        ).len() == 0 ==> expanded(v, unit, depth) == "["@ + decimal(v->vals@.len()) + " rows]"@,
{
}

/// Past the first 24 rows or items a last line tells how many there are more, and up to 24
/// there is no such line.
pub proof fn law_what_is_left_out_is_counted(vals: Seq<NuValue>, more: nat)
    ensures
        more > 0 ==> more_rows(24 + more) == seq!["… "@ + decimal(more) + " more rows"@],
        more > 0 ==> more_items(24 + more) == seq!["• … "@ + decimal(more) + " more"@],
        more <= 24 ==> more_rows(more).len() == 0 && more_items(more).len() == 0,
        first_values(vals).len() <= 24,
        vals.len() <= 24 ==> first_values(vals) == vals,
        vals.len() > 24 ==> first_values(vals) == vals.take(24),
{
    if vals.len() == 24 {
        assert(vals.take(24) =~= vals);
    }
}

/// A row of cells of several lines has in its `k`-th line the `k`-th line of each cell, or
/// blanks where a cell has none, and as many lines as its tallest cell.
pub proof fn law_tall_rows_show_line_by_line(
    row: Seq<Seq<char>>,
    widths: Seq<nat>,
    k: int,
    i: int,
)
    requires
        0 <= i < row.len(),
        0 <= k < row_lines(row, widths).len(),
    ensures
        row_lines(row, widths).len() >= lines_of(row[i]).len(),
        row_lines(row, widths)[k] == row_line(
            Seq::new(
                row.len(),
                |j: int|
                    if k < lines_of(row[j]).len() {
                        lines_of(row[j])[k]
                    } else {
                        Seq::empty()
                    },
            ),
            widths,
        ),
{
    let heights = Seq::new(row.len(), |i: int| lines_of(row[i]).len());
    lemma_largest(heights);
    assert(heights[i] == lines_of(row[i]).len());
    assert(Seq::new(row.len(), |i: int| line_at(row[i], k)) =~= Seq::new(
        row.len(),
        |j: int|
            if k < lines_of(row[j]).len() {
                lines_of(row[j])[k]
            } else {
                Seq::empty()
            },
    ));
}

} // verus!
