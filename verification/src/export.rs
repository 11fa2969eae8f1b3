//! Clipboard payloads of a Result.

use crate::listing::{
    consistent, law_listing_is_unique, law_listing_shows_each_match_once, listed, matching, places,
    text_or_empty, TableLook, TableView,
};
use crate::result::{block_store, is_block, BodyView, CellView, ResultBody, ResultStore, StoreView};
use crate::text::{
    char_at, chars_of, contains_char, decimal, is_digit, join, joined, lemma_decimal_reads_back,
    replace_char, replaced, signed_decimal, str_eq, texts,
};
use vstd::prelude::*;

verus! {

// ---------------------------------------------------------------------------------------
// Numbers

/// The place of the first character from `i` on that is no digit.
pub open spec fn digits_end(s: Seq<char>, i: int) -> int
    decreases s.len() - i,
{
    if 0 <= i < s.len() && is_digit(s[i]) {
        digits_end(s, i + 1)
    } else {
        i
    }
}

/// Whether the characters from `i` on are an exponent: `e`, a sign or none, digits.
pub open spec fn exponent_at(s: Seq<char>, i: int) -> bool {
    let first = if 0 <= i && i + 1 < s.len() && (s[i + 1] == '+' || s[i + 1] == '-') {
        i + 2
    } else {
        i + 1
    };
    &&& 0 <= i < s.len()
    &&& s[i] == 'e' || s[i] == 'E'
    &&& first < s.len()
    &&& digits_end(s, first) == s.len()
}

/// Whether the characters from `i` on are a decimal number: digits with a point among
/// them or beside them, or none, and an exponent or none.
pub open spec fn number_at(s: Seq<char>, i: int) -> bool {
    let whole = digits_end(s, i);
    let pointed = whole < s.len() && s[whole] == '.';
    let end = if pointed {
        digits_end(s, whole + 1)
    } else {
        whole
    };
    &&& whole > i || end > whole + 1
    &&& end == s.len() || exponent_at(s, end)
}

/// Whether the characters from `i` on spell a word in letters of either case.
pub open spec fn word_at(s: Seq<char>, i: int, lower: Seq<char>, upper: Seq<char>) -> bool {
    &&& s.len() - i == lower.len()
    &&& s.len() - i == upper.len()
    &&& forall|k: int|
        0 <= k < lower.len() ==> #[trigger] s[i + k] == lower[k] || s[i + k] == upper[k]
}

/// Whether a text reads as a floating-point number.
pub open spec fn is_float(s: Seq<char>) -> bool {
    let i: int = if s.len() > 0 && (s[0] == '+' || s[0] == '-') {
        1
    } else {
        0
    };
    ||| number_at(s, i)
    ||| word_at(s, i, "inf"@, "INF"@)
    ||| word_at(s, i, "infinity"@, "INFINITY"@)
    ||| word_at(s, i, "nan"@, "NAN"@)
}

fn skip_digits(chars: &Vec<char>, from: usize) -> (end: usize)
    requires
        from <= chars@.len(),
    ensures
        end == digits_end(chars@, from as int),
        from <= end <= chars@.len(),
{
    let n: usize = chars.len();
    let mut i: usize = from;
    while i < n && '0' <= chars[i] && chars[i] <= '9'
        invariant
            n == chars@.len(),
            from <= i <= n,
            digits_end(chars@, from as int) == digits_end(chars@, i as int),
        decreases n - i,
    {
        i += 1;
    }
    i
}

fn reads_number(chars: &Vec<char>, from: usize) -> (yes: bool)
    requires
        from <= chars@.len(),
    ensures
        yes == number_at(chars@, from as int),
{
    let n: usize = chars.len();
    let whole: usize = skip_digits(chars, from);
    let pointed = whole < n && chars[whole] == '.';
    let end: usize = if pointed {
        skip_digits(chars, whole + 1)
    } else {
        whole
    };
    if whole == from && end - whole <= 1 {
        return false;
    }
    if end == n {
        return true;
    }
    if chars[end] != 'e' && chars[end] != 'E' {
        return false;
    }
    let mut first: usize = end + 1;
    if first < n && (chars[first] == '+' || chars[first] == '-') {
        first = first + 1;
    }
    first < n && skip_digits(chars, first) == n
}

/// Whether the characters from a place on spell a word in letters of either case.
pub fn reads_word(chars: &Vec<char>, from: usize, lower: &str, upper: &str) -> (yes: bool)
    requires
        from <= chars@.len(),
        lower@.len() == upper@.len(),
    ensures
        yes == word_at(chars@, from as int, lower@, upper@),
{
    let low = chars_of(lower);
    let high = chars_of(upper);
    let n: usize = low.len();
    let total: usize = chars.len();
    if total - from != n {
        return false;
    }
    for k in 0..n
        invariant
            n == low@.len(),
            n == high@.len(),
            low@ == lower@,
            high@ == upper@,
            total == chars@.len(),
            total - from == n,
            forall|l: int|
                0 <= l < k ==> #[trigger] chars@[from + l] == low@[l] || chars@[from + l]
                    == high@[l],
    {
        if chars[from + k] != low[k] && chars[from + k] != high[k] {
            assert(!(chars@[from + k] == lower@[k as int] || chars@[from + k]
                == upper@[k as int]));
            return false;
        }
    }
    true
}

/// Whether a text reads as a floating-point number.
pub fn reads_float(text: &str) -> (yes: bool)
    ensures
        yes == is_float(text@),
{
    proof {
        reveal_strlit("inf");
        reveal_strlit("INF");
        reveal_strlit("infinity");
        reveal_strlit("INFINITY");
        reveal_strlit("nan");
        reveal_strlit("NAN");
    }
    let chars = chars_of(text);
    let from: usize = if chars.len() > 0 && (chars[0] == '+' || chars[0] == '-') {
        1
    } else {
        0
    };
    reads_number(&chars, from) || reads_word(&chars, from, "inf", "INF") || reads_word(
        &chars,
        from,
        "infinity",
        "INFINITY",
    ) || reads_word(&chars, from, "nan", "NAN")
}

// ---------------------------------------------------------------------------------------
// Fields

/// A text in double quotes.
pub open spec fn quoted(text: Seq<char>) -> Seq<char> {
    seq!['"'] + text + seq!['"']
}

/// A field of a delimited table: in quotes, its own quotes doubled, where it holds the
/// delimiter, a quote or a line break.
pub open spec fn delimited_field(text: Seq<char>, delimiter: char) -> Seq<char> {
    if text.contains(delimiter) || text.contains('"') || text.contains('\n') {
        quoted(replaced(text, '"', "\"\""@))
    } else {
        text
    }
}

/// A text with a backslash before each backslash and each quote.
pub open spec fn json_escaped(text: Seq<char>) -> Seq<char> {
    replaced(replaced(text, '\\', "\\\\"@), '"', "\\\""@)
}

/// A text as a JSON value: numbers and truth values bare, all else in quotes.
pub open spec fn json_text(text: Seq<char>) -> Seq<char> {
    if is_float(text) || text == "true"@ || text == "false"@ {
        text
    } else {
        quoted(json_escaped(text))
    }
}

/// A character that a bare record key may hold.
pub open spec fn is_key_char(c: char) -> bool {
    ||| 'a' <= c <= 'z'
    ||| 'A' <= c <= 'Z'
    ||| '0' <= c <= '9'
    ||| c == '_'
    ||| c == '-'
}

/// A column's name as a record key: bare where every character allows it.
pub open spec fn key_text(text: Seq<char>) -> Seq<char> {
    if forall|i: int| 0 <= i < text.len() ==> is_key_char(#[trigger] text[i]) {
        text
    } else {
        quoted(json_escaped(text))
    }
}

fn quote(text: &str) -> (out: String)
    ensures
        out@ == quoted(text@),
{
    let mut out = String::new();
    out.push('"');
    out.push_str(text);
    out.push('"');
    assert(out@ =~= quoted(text@));
    out
}

/// A field of a delimited table.
pub fn escape_delimited(text: &str, delimiter: char) -> (out: String)
    ensures
        out@ == delimited_field(text@, delimiter),
{
    if contains_char(text, delimiter) || contains_char(text, '"') || contains_char(text, '\n') {
        quote(replace_char(text, '"', "\"\"").as_str())
    } else {
        text.to_owned()
    }
}

/// A text with a backslash before each backslash and each quote.
pub fn escape_json(text: &str) -> (out: String)
    ensures
        out@ == json_escaped(text@),
{
    replace_char(replace_char(text, '\\', "\\\\").as_str(), '"', "\\\"")
}

/// A text as a JSON value.
pub fn json_value(text: &str) -> (out: String)
    ensures
        out@ == json_text(text@),
{
    if reads_float(text) || str_eq(text, "true") || str_eq(text, "false") {
        text.to_owned()
    } else {
        quote(escape_json(text).as_str())
    }
}

/// A column's name as a record key.
pub fn nuon_key(text: &str) -> (out: String)
    ensures
        out@ == key_text(text@),
{
    let chars = chars_of(text);
    let n: usize = chars.len();
    for i in 0..n
        invariant
            n == chars@.len(),
            chars@ == text@,
            forall|k: int| 0 <= k < i ==> is_key_char(#[trigger] chars@[k]),
    {
        let c = char_at(&chars, i);
        let fits = ('a' <= c && c <= 'z') || ('A' <= c && c <= 'Z') || ('0' <= c && c <= '9') || c
            == '_' || c == '-';
        if !fits {
            assert(!is_key_char(text@[i as int]));
            return quote(escape_json(text).as_str());
        }
    }
    text.to_owned()
}

/// A text as a NUON value.
pub fn nuon_value(text: &str) -> (out: String)
    ensures
        out@ == json_text(text@),
{
    json_value(text)
}

// ---------------------------------------------------------------------------------------
// Rows

/// The way a row of cells is written.
#[derive(Debug, Clone, Copy, PartialEq, Eq, Structural)]
pub enum RowStyle {
    Delimited(char),
    Json,
    Nuon,
    Markdown,
    Text,
}

/// A field of a row: its column's name and its own text, as the style writes them.
pub open spec fn field_text(style: RowStyle, name: Seq<char>, text: Seq<char>) -> Seq<char> {
    match style {
        RowStyle::Delimited(delimiter) => delimited_field(text, delimiter),
        RowStyle::Json => quoted(json_escaped(name)) + ": "@ + json_text(text),
        RowStyle::Nuon => key_text(name) + ": "@ + json_text(text),
        RowStyle::Markdown => replaced(text, '\n', " "@),
        RowStyle::Text => replaced(text, '\n', " "@),
    }
}

/// What stands between two fields.
pub open spec fn between(style: RowStyle) -> Seq<char> {
    match style {
        RowStyle::Delimited(delimiter) => seq![delimiter],
        RowStyle::Json => ", "@,
        RowStyle::Nuon => ", "@,
        RowStyle::Markdown => " | "@,
        RowStyle::Text => "\t"@,
    }
}

/// The fields of a row, one for each column.
pub open spec fn row_fields(
    style: RowStyle,
    columns: Seq<Seq<char>>,
    row: Seq<CellView>,
) -> Seq<Seq<char>> {
    Seq::new(columns.len(), |col: int| field_text(style, columns[col], text_or_empty(row, col)))
}

/// Fields put together as the style writes a row.
pub open spec fn framed(style: RowStyle, fields: Seq<Seq<char>>) -> Seq<char> {
    let body = joined(fields, between(style));
    match style {
        RowStyle::Json => "{"@ + body + "}"@,
        RowStyle::Nuon => "{"@ + body + "}"@,
        RowStyle::Markdown => "| "@ + body + " |"@,
        _ => body,
    }
}

/// A row as the style writes it.
pub open spec fn row_text(
    style: RowStyle,
    columns: Seq<Seq<char>>,
    row: Seq<CellView>,
) -> Seq<char> {
    framed(style, row_fields(style, columns, row))
}

/// The rows at some places, as the style writes them; a place that the store lacks is
/// passed over.
pub open spec fn row_texts(style: RowStyle, store: StoreView, rows: Seq<int>) -> Seq<Seq<char>>
    decreases rows.len(),
{
    if rows.len() == 0 {
        Seq::empty()
    } else {
        let before = row_texts(style, store, rows.drop_last());
        if 0 <= rows.last() < store.rows.len() {
            before.push(row_text(style, store.columns, store.rows[rows.last()]))
        } else {
            before
        }
    }
}

/// Lines, each with a line break at its end.
pub open spec fn ended(lines: Seq<Seq<char>>) -> Seq<char>
    decreases lines.len(),
{
    if lines.len() == 0 {
        Seq::empty()
    } else {
        ended(lines.drop_last()) + lines.last() + seq!['\n']
    }
}

fn write_field(style: RowStyle, name: &str, text: &str) -> (out: String)
    ensures
        out@ == field_text(style, name@, text@),
{
    match style {
        RowStyle::Delimited(delimiter) => escape_delimited(text, delimiter),
        RowStyle::Json => {
            let mut out = quote(escape_json(name).as_str());
            out.push_str(": ");
            out.push_str(json_value(text).as_str());
            out
        },
        RowStyle::Nuon => {
            let mut out = nuon_key(name);
            out.push_str(": ");
            out.push_str(nuon_value(text).as_str());
            out
        },
        RowStyle::Markdown => replace_char(text, '\n', " "),
        RowStyle::Text => replace_char(text, '\n', " "),
    }
}

fn write_between(style: RowStyle) -> (out: String)
    ensures
        out@ == between(style),
{
    match style {
        RowStyle::Delimited(delimiter) => {
            let mut out = String::new();
            out.push(delimiter);
            assert(out@ =~= seq![delimiter]);
            out
        },
        RowStyle::Json => ", ".to_owned(),
        RowStyle::Nuon => ", ".to_owned(),
        RowStyle::Markdown => " | ".to_owned(),
        RowStyle::Text => "\t".to_owned(),
    }
}

fn surrounded(before: &str, body: &str, after: &str) -> (out: String)
    ensures
        out@ == before@ + body@ + after@,
{
    let mut out = before.to_owned();
    out.push_str(body);
    out.push_str(after);
    out
}

fn frame(style: RowStyle, fields: &Vec<String>) -> (out: String)
    ensures
        out@ == framed(style, texts(fields@)),
{
    let body = join(fields, write_between(style).as_str());
    match style {
        RowStyle::Json => surrounded("{", body.as_str(), "}"),
        RowStyle::Nuon => surrounded("{", body.as_str(), "}"),
        RowStyle::Markdown => surrounded("| ", body.as_str(), " |"),
        _ => body,
    }
}

fn end_lines(lines: &Vec<String>) -> (out: String)
    ensures
        out@ == ended(texts(lines@)),
{
    let mut out = String::new();
    let n: usize = lines.len();
    assert(texts(lines@).take(0) =~= Seq::empty());
    for i in 0..n
        invariant
            n == lines@.len(),
            out@ == ended(texts(lines@).take(i as int)),
    {
        out.push_str(lines[i].as_str());
        out.push('\n');
        let ghost all = texts(lines@);
        assert(all.take(i + 1).drop_last() =~= all.take(i as int));
        assert(all.take(i + 1).last() == lines@[i as int]@);
        assert(out@ =~= ended(all.take(i + 1)));
    }
    assert(texts(lines@).take(n as int) =~= texts(lines@));
    out
}

impl ResultStore {
    /// The row at a place, as the style writes it.
    fn write_row(&self, style: RowStyle, row: usize) -> (out: String)
        requires
            row < self@.rows.len(),
        ensures
            out@ == row_text(style, self@.columns, self@.rows[row as int]),
    {
        let mut fields: Vec<String> = Vec::new();
        let n: usize = self.columns.len();
        let ghost want = row_fields(style, self@.columns, self@.rows[row as int]);
        for col in 0..n
            invariant
                row < self.rows@.len(),
                n == self.columns@.len(),
                want == row_fields(style, self@.columns, self@.rows[row as int]),
                fields@.len() == col,
                forall|k: int| 0 <= k < col ==> (#[trigger] fields@[k])@ == want[k],
        {
            assert(self@.columns[col as int] == self.columns@[col as int]@);
            let field = if col < self.rows[row].len() {
                assert(self@.rows[row as int][col as int] == self.rows@[row as int]@[col as int]@);
                write_field(style, self.columns[col].as_str(), self.rows[row][col].export_text())
            } else {
                assert(""@ =~= Seq::<char>::empty()) by {
                    reveal_strlit("");
                }
                write_field(style, self.columns[col].as_str(), "")
            };
            assert(field@ == want[col as int]);
            fields.push(field);
        }
        assert(texts(fields@) =~= want);
        frame(style, &fields)
    }

    /// The rows at some places, as the style writes them.
    fn write_rows(&self, style: RowStyle, indices: &[usize]) -> (out: Vec<String>)
        ensures
            texts(out@) == row_texts(style, self@, places(indices@)),
    {
        let mut out: Vec<String> = Vec::new();
        let n: usize = indices.len();
        let ghost all = places(indices@);
        assert(all.take(0) =~= Seq::empty());
        assert(texts(out@) =~= Seq::empty());
        for i in 0..n
            invariant
                n == indices@.len(),
                all == places(indices@),
                texts(out@) == row_texts(style, self@, all.take(i as int)),
        {
            let ix: usize = indices[i];
            assert(all.take(i + 1).drop_last() =~= all.take(i as int));
            assert(all.take(i + 1).last() == ix as int);
            if ix < self.rows.len() {
                let ghost before = out@;
                out.push(self.write_row(style, ix));
                assert(texts(out@) =~= texts(before).push(out@.last()@));
            }
        }
        assert(all.take(n as int) =~= all);
        out
    }
}

// ---------------------------------------------------------------------------------------
// Tables

/// A table with a header line and a line for each row, fields apart by a delimiter.
pub open spec fn delimited_table(store: StoreView, rows: Seq<int>, delimiter: char) -> Seq<char> {
    joined(store.columns, seq![delimiter]) + seq!['\n'] + ended(
        row_texts(RowStyle::Delimited(delimiter), store, rows),
    )
}

/// A table as a JSON array of objects.
pub open spec fn json_table(store: StoreView, rows: Seq<int>) -> Seq<char> {
    "[\n  "@ + joined(row_texts(RowStyle::Json, store, rows), ",\n  "@) + "\n]"@
}

/// A table as a NUON list of records.
pub open spec fn nuon_table(store: StoreView, rows: Seq<int>) -> Seq<char> {
    "["@ + joined(row_texts(RowStyle::Nuon, store, rows), ", "@) + "]"@
}

/// A table in Markdown.
pub open spec fn markdown_table(store: StoreView, rows: Seq<int>) -> Seq<char> {
    let rule = Seq::new(store.columns.len(), |i: int| "---"@);
    ended(
        seq![framed(RowStyle::Markdown, store.columns), framed(RowStyle::Markdown, rule)]
            + row_texts(RowStyle::Markdown, store, rows),
    )
}

/// A table as lines with tabs, or the text itself where the store holds one text.
pub open spec fn plain_table(store: StoreView, rows: Seq<int>) -> Seq<char> {
    if is_block(store) {
        store.rows[0][0].text
    } else {
        joined(store.columns, "\t"@) + seq!['\n'] + ended(row_texts(RowStyle::Text, store, rows))
    }
}

impl ResultStore {
    /// Writes a table with a header line and a line for each row.
    pub fn to_delimited(&self, indices: &[usize], delimiter: char) -> (out: String)
        ensures
            out@ == delimited_table(self@, places(indices@), delimiter),
    {
        let style = RowStyle::Delimited(delimiter);
        let mut out = join(&self.columns, write_between(style).as_str());
        out.push('\n');
        let lines = self.write_rows(style, indices);
        out.push_str(end_lines(&lines).as_str());
        assert(out@ =~= delimited_table(self@, places(indices@), delimiter));
        out
    }

    /// Writes a table as a JSON array of objects.
    pub fn to_json(&self, indices: &[usize]) -> (out: String)
        ensures
            out@ == json_table(self@, places(indices@)),
    {
        let rows = self.write_rows(RowStyle::Json, indices);
        surrounded("[\n  ", join(&rows, ",\n  ").as_str(), "\n]")
    }

    /// Writes a table as a NUON list of records.
    pub fn to_nuon(&self, indices: &[usize]) -> (out: String)
        ensures
            out@ == nuon_table(self@, places(indices@)),
    {
        let rows = self.write_rows(RowStyle::Nuon, indices);
        surrounded("[", join(&rows, ", ").as_str(), "]")
    }

    /// Writes a table in Markdown.
    pub fn to_markdown(&self, indices: &[usize]) -> (out: String)
        ensures
            out@ == markdown_table(self@, places(indices@)),
    {
        let mut rule: Vec<String> = Vec::new();
        let n: usize = self.columns.len();
        for i in 0..n
            invariant
                n == self.columns@.len(),
                rule@.len() == i,
                forall|k: int| 0 <= k < i ==> (#[trigger] rule@[k])@ == "---"@,
        {
            rule.push("---".to_owned());
        }
        assert(texts(rule@) =~= Seq::new(self@.columns.len(), |i: int| "---"@));
        let mut lines: Vec<String> = Vec::new();
        lines.push(frame(RowStyle::Markdown, &self.columns));
        lines.push(frame(RowStyle::Markdown, &rule));
        let mut rows = self.write_rows(RowStyle::Markdown, indices);
        let ghost head = lines@;
        let ghost tail = rows@;
        lines.append(&mut rows);
        proof {
            assert(lines@ =~= head + tail);
            assert(texts(lines@) =~= texts(head) + texts(tail));
            assert(texts(head) =~= seq![
                framed(RowStyle::Markdown, self@.columns),
                framed(RowStyle::Markdown, texts(rule@)),
            ]);
        }
        end_lines(&lines)
    }

    /// Writes a table as lines with tabs, or the text itself where the store holds one.
    pub fn to_plain_text(&self, indices: &[usize]) -> (out: String)
        ensures
            out@ == plain_table(self@, places(indices@)),
    {
        if self.is_text_block() {
            assert(self@.rows[0][0] == self.rows@[0]@[0]@);
            return self.rows[0][0].text.clone();
        }
        let mut out = join(&self.columns, "\t");
        out.push('\n');
        let lines = self.write_rows(RowStyle::Text, indices);
        out.push_str(end_lines(&lines).as_str());
        assert(out@ =~= plain_table(self@, places(indices@)));
        out
    }
}

/// Clipboard payload for a Result.
#[derive(Debug, Clone, Copy, PartialEq, Eq, Structural)]
pub enum CopyFormat {
    Tsv,
    Csv,
    Json,
    Nuon,
    Markdown,
    Text,
}

/// The name of a format.
pub open spec fn format_name(format: CopyFormat) -> Seq<char> {
    match format {
        CopyFormat::Tsv => "TSV"@,
        CopyFormat::Csv => "CSV"@,
        CopyFormat::Json => "JSON"@,
        CopyFormat::Nuon => "NUON"@,
        CopyFormat::Markdown => "Markdown"@,
        CopyFormat::Text => "Text"@,
    }
}

impl CopyFormat {
    /// The name of the format.
    pub fn label(self) -> (label: &'static str)
        ensures
            label@ == format_name(self),
    {
        match self {
            CopyFormat::Tsv => "TSV",
            CopyFormat::Csv => "CSV",
            CopyFormat::Json => "JSON",
            CopyFormat::Nuon => "NUON",
            CopyFormat::Markdown => "Markdown",
            CopyFormat::Text => "Text",
        }
    }
}

/// The rows at some places of a store in a format.
pub open spec fn table_text(store: StoreView, rows: Seq<int>, format: CopyFormat) -> Seq<char> {
    match format {
        CopyFormat::Tsv => delimited_table(store, rows, '\t'),
        CopyFormat::Csv => delimited_table(store, rows, ','),
        CopyFormat::Json => json_table(store, rows),
        CopyFormat::Nuon => nuon_table(store, rows),
        CopyFormat::Markdown => markdown_table(store, rows),
        CopyFormat::Text => plain_table(store, rows),
    }
}

/// Whether a text is what copying a table gives: the rows that the view shows, in its
/// order.
pub open spec fn table_copied(
    store: StoreView,
    look: TableLook,
    format: CopyFormat,
    out: Seq<char>,
) -> bool {
    exists|rows: Seq<int>| #[trigger]
        listed(store, look, rows) && out == table_text(store, rows, format)
}

/// Whether a text is what copying a body gives: of a table the rows that the view shows,
/// in its order, and of anything else its text.
pub open spec fn copied(body: BodyView, look: TableLook, format: CopyFormat, out: Seq<char>) -> bool {
    match body {
        BodyView::Table(store) => table_copied(store, look, format, out),
        BodyView::Scalar(text) => out == text,
        BodyView::Text(text) => out == text,
        BodyView::Diagnostic(text) => out == text,
        BodyView::Binary { bytes, summary } => out == summary,
        BodyView::Empty => out.len() == 0,
    }
}

/// What copying a body puts on the clipboard.
pub fn copy_result(body: &ResultBody, view: &TableView, format: CopyFormat) -> (out: String)
    ensures
        copied(body@, view@, format, out@),
{
    match body {
        ResultBody::Table(store) => {
            let indices = store.visible_indices(view);
            assert(listed(store@, view@, places(indices@)));
            let rows = indices.as_slice();
            let out = match format {
                CopyFormat::Tsv => store.to_delimited(rows, '\t'),
                CopyFormat::Csv => store.to_delimited(rows, ','),
                CopyFormat::Json => store.to_json(rows),
                CopyFormat::Nuon => store.to_nuon(rows),
                CopyFormat::Markdown => store.to_markdown(rows),
                CopyFormat::Text => store.to_plain_text(rows),
            };
            assert(out@ == table_text(store@, places(indices@), format));
            out
        },
        ResultBody::Scalar(text) => text.clone(),
        ResultBody::Text(text) => text.clone(),
        ResultBody::Diagnostic(text) => text.clone(),
        ResultBody::Binary { summary, .. } => summary.clone(),
        ResultBody::Empty => String::new(),
    }
}

// ---------------------------------------------------------------------------------------
// Laws

proof fn lemma_replaced_tells_apart(a: Seq<char>, b: Seq<char>, c: char, with: Seq<char>)
    requires
        with.len() > 0,
        with.last() == c,
        replaced(a, c, with) == replaced(b, c, with),
    ensures
        a == b,
    decreases a.len(),
{
    let x = replaced(a, c, with);
    let y = replaced(b, c, with);
    if a.len() == 0 || b.len() == 0 {
        if b.len() > 0 {
            assert(y.len() > 0);
        }
        if a.len() > 0 {
            assert(x.len() > 0);
        }
        assert(a =~= b);
    } else {
        if a.last() == c {
            assert(x.last() == c);
        } else {
            assert(x.last() == a.last());
        }
        if b.last() == c {
            assert(y.last() == c);
        } else {
            assert(y.last() == b.last());
        }
        assert(a.last() == b.last());
        let p = replaced(a.drop_last(), c, with);
        let q = replaced(b.drop_last(), c, with);
        assert(p.len() == q.len());
        assert(p =~= x.take(p.len() as int));
        assert(q =~= y.take(q.len() as int));
        lemma_replaced_tells_apart(a.drop_last(), b.drop_last(), c, with);
        assert(a =~= a.drop_last().push(a.last()));
        assert(b =~= b.drop_last().push(b.last()));
    }
}

proof fn lemma_quoted_tells_apart(a: Seq<char>, b: Seq<char>)
    requires
        quoted(a) == quoted(b),
    ensures
        a == b,
{
    assert(a =~= quoted(a).subrange(1, quoted(a).len() - 1));
    assert(b =~= quoted(b).subrange(1, quoted(b).len() - 1));
}

/// Two texts that differ are written as fields that differ, so that a reader of the table
/// gets each text back.
pub proof fn law_delimited_fields_tell_apart(a: Seq<char>, b: Seq<char>, delimiter: char)
    requires
        delimited_field(a, delimiter) == delimited_field(b, delimiter),
    ensures
        a == b,
{
    reveal_strlit("\"\"");
    let x = replaced(a, '"', "\"\""@);
    let y = replaced(b, '"', "\"\""@);
    let bare_a = delimited_field(a, delimiter) == a && !a.contains('"');
    let bare_b = delimited_field(b, delimiter) == b && !b.contains('"');
    assert(quoted(x)[0] == '"');
    assert(quoted(y)[0] == '"');
    if !bare_a && !bare_b {
        lemma_quoted_tells_apart(x, y);
        lemma_replaced_tells_apart(a, b, '"', "\"\""@);
    }
}

/// Two texts that differ stay different when they are escaped for JSON.
pub proof fn law_json_escapes_tell_apart(a: Seq<char>, b: Seq<char>)
    requires
        json_escaped(a) == json_escaped(b),
    ensures
        a == b,
{
    reveal_strlit("\\\\");
    reveal_strlit("\\\"");
    lemma_replaced_tells_apart(
        replaced(a, '\\', "\\\\"@),
        replaced(b, '\\', "\\\\"@),
        '"',
        "\\\""@,
    );
    lemma_replaced_tells_apart(a, b, '\\', "\\\\"@);
}

/// Every row that a view shows is written once, in the order in which the view shows it.
pub proof fn law_every_listed_row_is_written(
    style: RowStyle,
    store: StoreView,
    look: TableLook,
    rows: Seq<int>,
)
    requires
        listed(store, look, rows),
    ensures
        row_texts(style, store, rows) == rows.map_values(
            |row: int| row_text(style, store.columns, store.rows[row]),
        ),
{
    law_listing_shows_each_match_once(store, look, rows);
    assert forall|i: int| 0 <= i < rows.len() implies 0 <= #[trigger] rows[i] < store.rows.len() by {
        assert(rows.contains(rows[i]));
    }
    lemma_rows_written(style, store, rows);
}

proof fn lemma_rows_written(style: RowStyle, store: StoreView, rows: Seq<int>)
    requires
        forall|i: int| 0 <= i < rows.len() ==> 0 <= #[trigger] rows[i] < store.rows.len(),
    ensures
        row_texts(style, store, rows) == rows.map_values(
            |row: int| row_text(style, store.columns, store.rows[row]),
        ),
    decreases rows.len(),
{
    if rows.len() > 0 {
        lemma_rows_written(style, store, rows.drop_last());
    }
    assert(row_texts(style, store, rows) =~= rows.map_values(
        |row: int| row_text(style, store.columns, store.rows[row]),
    ));
}

/// Copying a store that holds one text as text gives that text back, whatever rows are
/// asked for.
pub proof fn law_text_block_copies_raw(text: Seq<char>, rows: Seq<int>)
    ensures
        is_block(block_store(text)),
        table_text(block_store(text), rows, CopyFormat::Text) == text,
{
}

/// What copying a table gives follows from the rows that the view shows, wherever the sort
/// keys have a consistent order.
pub proof fn law_copy_follows_the_view(
    store: StoreView,
    look: TableLook,
    format: CopyFormat,
    out: Seq<char>,
    rows: Seq<int>,
)
    requires
        table_copied(store, look, format, out),
        listed(store, look, rows),
        look.sort_col is Some ==> consistent(
            store,
            look.sort_col->0 as int,
            matching(store, look),
        ),
    ensures
        out == table_text(store, rows, format),
{
    let other = choose|other: Seq<int>| #[trigger]
        listed(store, look, other) && out == table_text(store, other, format);
    law_listing_is_unique(store, look, rows, other);
}

// ---------------------------------------------------------------------------------------
// Laws on numbers and values

proof fn lemma_digits_reach(s: Seq<char>, i: int, j: int)
    requires
        0 <= i <= j <= s.len(),
        forall|k: int| i <= k < j ==> is_digit(#[trigger] s[k]),
        j < s.len() ==> !is_digit(s[j]),
    ensures
        digits_end(s, i) == j,
    decreases j - i,
{
    if i < j {
        lemma_digits_reach(s, i + 1, j);
    }
}

proof fn lemma_sign_and_number(sign: Seq<char>, body: Seq<char>)
    requires
        sign == Seq::<char>::empty() || sign == seq!['-'] || sign == seq!['+'],
        body.len() > 0,
        sign.len() == 0 ==> body[0] != '+' && body[0] != '-',
        number_at(sign + body, sign.len() as int),
    ensures
        is_float(sign + body),
{
    let s = sign + body;
    assert(s[sign.len() as int] == body[0]);
    if sign.len() > 0 {
        assert(s[0] == sign[0]);
    }
}

/// Whole numbers, and numbers with a point or an exponent, read as numbers.
pub proof fn law_written_numbers_read_as_numbers(n: int, fraction: nat, exponent: int)
    ensures
        is_float(signed_decimal(n)),
        is_float(signed_decimal(n) + seq!['.'] + decimal(fraction)),
        is_float(signed_decimal(n) + seq!['e'] + signed_decimal(exponent)),
{
    let m = if n < 0 {
        (-n) as nat
    } else {
        n as nat
    };
    let sign = if n < 0 {
        seq!['-']
    } else {
        Seq::<char>::empty()
    };
    let digits = decimal(m);
    let at = sign.len() as int;
    lemma_decimal_reads_back(m, m);
    lemma_decimal_reads_back(fraction, fraction);
    assert(is_digit(digits[0]));
    assert(signed_decimal(n) =~= sign + digits);

    let plain = sign + digits;
    assert forall|k: int| at <= k < plain.len() implies is_digit(#[trigger] plain[k]) by {
        assert(plain[k] == digits[k - at]);
    }
    lemma_digits_reach(plain, at, plain.len() as int);
    lemma_sign_and_number(sign, digits);

    let part = decimal(fraction);
    let body = digits + seq!['.'] + part;
    let pointed = sign + body;
    let dot = at + digits.len();
    assert(pointed =~= signed_decimal(n) + seq!['.'] + part);
    assert(pointed[dot] == '.');
    assert(body[0] == digits[0]);
    assert forall|k: int| at <= k < dot implies is_digit(#[trigger] pointed[k]) by {
        assert(pointed[k] == digits[k - at]);
    }
    assert forall|k: int| dot + 1 <= k < pointed.len() implies is_digit(#[trigger] pointed[k]) by {
        assert(pointed[k] == part[k - dot - 1]);
    }
    lemma_digits_reach(pointed, at, dot);
    lemma_digits_reach(pointed, dot + 1, pointed.len() as int);
    lemma_sign_and_number(sign, body);

    let tail = signed_decimal(exponent);
    let power = digits + seq!['e'] + tail;
    let scaled = sign + power;
    assert(scaled =~= signed_decimal(n) + seq!['e'] + tail);
    assert(scaled[dot] == 'e');
    assert(power[0] == digits[0]);
    assert forall|k: int| at <= k < dot implies is_digit(#[trigger] scaled[k]) by {
        assert(scaled[k] == digits[k - at]);
    }
    lemma_digits_reach(scaled, at, dot);
    let size = if exponent < 0 {
        (-exponent) as nat
    } else {
        exponent as nat
    };
    lemma_decimal_reads_back(size, size);
    let first = if exponent < 0 {
        dot + 2
    } else {
        dot + 1
    };
    assert(scaled[dot + 1] == tail[0]);
    assert(is_digit(decimal(size)[0]));
    assert forall|k: int| first <= k < scaled.len() implies is_digit(#[trigger] scaled[k]) by {
        assert(scaled[k] == tail[k - dot - 1]);
        assert(scaled[k] == decimal(size)[k - first]);
    }
    lemma_digits_reach(scaled, first, scaled.len() as int);
    assert(exponent_at(scaled, dot));
    lemma_sign_and_number(sign, power);
}

/// A text that begins with what begins no number is none, and neither is an empty text.
pub proof fn law_words_are_no_numbers(text: Seq<char>)
    requires
        text.len() == 0 || (!is_digit(text[0]) && text[0] != '.' && text[0] != '+' && text[0] != '-'
            && text[0] != 'i' && text[0] != 'I' && text[0] != 'n' && text[0] != 'N'),
    ensures
        !is_float(text),
{
    reveal_strlit("inf");
    reveal_strlit("INF");
    reveal_strlit("infinity");
    reveal_strlit("INFINITY");
    reveal_strlit("nan");
    reveal_strlit("NAN");
    if text.len() > 0 {
        assert(text[0int + 0int] == text[0]);
    }
}

/// A text that reads as a number, and a truth value, is written bare; every other text is
/// written in quotes, its own quotes and backslashes escaped.
pub proof fn law_numbers_are_written_bare(text: Seq<char>, n: int)
    ensures
        is_float(text) ==> json_text(text) == text,
        json_text(signed_decimal(n)) == signed_decimal(n),
        json_text("true"@) == "true"@,
        json_text("false"@) == "false"@,
        !is_float(text) && text != "true"@ && text != "false"@ ==> json_text(text).len() >= 2
            && json_text(text)[0] == '"' && json_text(text).last() == '"' && json_text(
            text,
        ).subrange(1, json_text(text).len() - 1) == json_escaped(text),
{
    law_written_numbers_read_as_numbers(n, 0, 0);
    let body = quoted(json_escaped(text));
    assert(body.subrange(1, body.len() - 1) =~= json_escaped(text));
}

/// A text without quotes and backslashes is escaped as it is; a quote and a backslash each
/// get a backslash before them, and what stands round them stays.
pub proof fn law_json_escapes_quotes_and_backslashes(first: Seq<char>, second: Seq<char>)
    requires
        !first.contains('"'),
        !first.contains('\\'),
        !second.contains('"'),
        !second.contains('\\'),
    ensures
        json_escaped(first) == first,
        json_escaped(first + seq!['"'] + second) == first + seq!['\\', '"'] + second,
        json_escaped(first + seq!['\\'] + second) == first + seq!['\\', '\\'] + second,
{
    reveal_strlit("\\\\");
    reveal_strlit("\\\"");
    let slashes = "\\\\"@;
    let quote = "\\\""@;
    assert(slashes =~= seq!['\\', '\\']);
    assert(quote =~= seq!['\\', '"']);
    lemma_replaced_nothing(first, '\\', slashes);
    lemma_replaced_nothing(first, '"', quote);
    lemma_replaced_nothing(second, '\\', slashes);
    lemma_replaced_nothing(second, '"', quote);

    let a = first + seq!['"'] + second;
    assert forall|k: int| 0 <= k < a.len() implies a[k] != '\\' by {
        if k < first.len() {
            assert(first.contains(first[k]));
        } else if k > first.len() {
            assert(second.contains(second[k - first.len() - 1]));
        }
    }
    lemma_replaced_nothing(a, '\\', slashes);
    lemma_replaced_once(first, '"', second, quote);

    let b = first + seq!['\\'] + second;
    lemma_replaced_once(first, '\\', second, slashes);
    let c = first + slashes + second;
    assert forall|k: int| 0 <= k < c.len() implies c[k] != '"' by {
        if k < first.len() {
            assert(first.contains(first[k]));
        } else if k >= first.len() + 2 {
            assert(second.contains(second[k - first.len() - 2]));
        }
    }
    lemma_replaced_nothing(c, '"', quote);
}

proof fn lemma_replaced_nothing(s: Seq<char>, c: char, with: Seq<char>)
    requires
        !s.contains(c),
    ensures
        replaced(s, c, with) == s,
    decreases s.len(),
{
    if s.len() > 0 {
        let front = s.drop_last();
        assert(s.contains(s[s.len() - 1]));
        assert forall|k: int| 0 <= k < front.len() implies front[k] != c by {
            assert(s.contains(s[k]));
        }
        lemma_replaced_nothing(front, c, with);
        assert(front.push(s.last()) =~= s);
    } else {
        assert(replaced(s, c, with) =~= s);
    }
}

proof fn lemma_replaced_once(first: Seq<char>, c: char, second: Seq<char>, with: Seq<char>)
    requires
        !first.contains(c),
        !second.contains(c),
    ensures
        replaced(first + seq![c] + second, c, with) == first + with + second,
    decreases second.len(),
{
    let s = first + seq![c] + second;
    if second.len() == 0 {
        assert(s.drop_last() =~= first);
        assert(s.last() == c);
        lemma_replaced_nothing(first, c, with);
        assert(first + with + second =~= first + with);
    } else {
        let front = second.drop_last();
        assert(second.contains(second[second.len() - 1]));
        assert forall|k: int| 0 <= k < front.len() implies front[k] != c by {
            assert(second.contains(second[k]));
        }
        lemma_replaced_once(first, c, front, with);
        assert(s.drop_last() =~= first + seq![c] + front);
        assert(s.last() == second.last());
        assert((first + with + front).push(second.last()) =~= first + with + second);
    }
}

/// A field without the delimiter, quotes and line breaks is written as it is; any other
/// begins and ends with a quote, and a text without quotes stands unchanged between them.
pub proof fn law_plain_fields_stay_and_others_are_quoted(text: Seq<char>, delimiter: char)
    ensures
        !text.contains(delimiter) && !text.contains('"') && !text.contains('\n')
            ==> delimited_field(text, delimiter) == text,
        text.contains(delimiter) || text.contains('"') || text.contains('\n') ==> delimited_field(
            text,
            delimiter,
        ).len() >= 2 && delimited_field(text, delimiter)[0] == '"' && delimited_field(
            text,
            delimiter,
        ).last() == '"',
        (text.contains(delimiter) || text.contains('\n')) && !text.contains('"')
            ==> delimited_field(text, delimiter) == seq!['"'] + text + seq!['"'],
{
    if !text.contains('"') {
        lemma_replaced_nothing(text, '"', "\"\""@);
    }
}

/// A quote within a field is doubled.
pub proof fn law_quotes_in_fields_are_doubled(
    first: Seq<char>,
    second: Seq<char>,
    delimiter: char,
)
    requires
        !first.contains('"'),
        !second.contains('"'),
    ensures
        delimited_field(first + seq!['"'] + second, delimiter) == seq!['"'] + first + seq!['"', '"']
            + second + seq!['"'],
{
    reveal_strlit("\"\"");
    let s = first + seq!['"'] + second;
    assert(s[first.len() as int] == '"');
    assert(s.contains('"'));
    lemma_replaced_once(first, '"', second, "\"\""@);
    assert("\"\""@ =~= seq!['"', '"']);
    assert(quoted(first + seq!['"', '"'] + second) =~= seq!['"'] + first + seq!['"', '"'] + second
        + seq!['"']);
}

/// A key of letters, digits, `_` and `-` is written bare, any other in quotes.
pub proof fn law_keys_are_bare_or_quoted(text: Seq<char>)
    ensures
        (forall|i: int|
            0 <= i < text.len() ==> ('a' <= #[trigger] text[i] <= 'z' || 'A' <= text[i] <= 'Z'
                || '0' <= text[i] <= '9' || text[i] == '_' || text[i] == '-')) ==> key_text(text)
            == text,
        (exists|i: int|
            0 <= i < text.len() && !('a' <= #[trigger] text[i] <= 'z' || 'A' <= text[i] <= 'Z'
                || '0' <= text[i] <= '9' || text[i] == '_' || text[i] == '-')) ==> key_text(text)
            == seq!['"'] + json_escaped(text) + seq!['"'],
{
    if exists|i: int|
        0 <= i < text.len() && !('a' <= #[trigger] text[i] <= 'z' || 'A' <= text[i] <= 'Z' || '0'
            <= text[i] <= '9' || text[i] == '_' || text[i] == '-') {
        let i = choose|i: int|
            0 <= i < text.len() && !('a' <= #[trigger] text[i] <= 'z' || 'A' <= text[i] <= 'Z'
                || '0' <= text[i] <= '9' || text[i] == '_' || text[i] == '-');
        assert(!is_key_char(text[i]));
    } else {
        assert forall|i: int| 0 <= i < text.len() implies is_key_char(#[trigger] text[i]) by {}
    }
}

// ---------------------------------------------------------------------------------------
// Laws on rows and tables

/// Every style writes the text of a column at that column: delimited fields, JSON and NUON
/// behind the column's own name, and Markdown and plain text with line breaks as blanks. A
/// row without the cell has an empty text there.
pub proof fn law_fields_stand_under_their_column(
    columns: Seq<Seq<char>>,
    row: Seq<CellView>,
    col: int,
    delimiter: char,
)
    requires
        0 <= col < columns.len(),
    ensures
        ({
            let text = if col < row.len() {
                row[col].text
            } else {
                Seq::empty()
            };
            let name = columns[col];
            &&& row_fields(RowStyle::Delimited(delimiter), columns, row)[col] == delimited_field(
                text,
                delimiter,
            )
            &&& row_fields(RowStyle::Json, columns, row)[col] == seq!['"'] + json_escaped(name)
                + seq!['"'] + ": "@ + json_text(text)
            &&& row_fields(RowStyle::Nuon, columns, row)[col] == key_text(name) + ": "@ + json_text(
                text,
            )
            &&& row_fields(RowStyle::Markdown, columns, row)[col] == replaced(text, '\n', " "@)
            &&& row_fields(RowStyle::Text, columns, row)[col] == replaced(text, '\n', " "@)
        }),
        row_fields(RowStyle::Json, columns, row).len() == columns.len(),
        row_fields(RowStyle::Nuon, columns, row).len() == columns.len(),
        row_fields(RowStyle::Delimited(delimiter), columns, row).len() == columns.len(),
        row_fields(RowStyle::Markdown, columns, row).len() == columns.len(),
        row_fields(RowStyle::Text, columns, row).len() == columns.len(),
{
}

/// Each further row of the store adds its own line to the text of a table, and a place that
/// the store lacks adds nothing.
pub proof fn law_each_row_adds_its_line(
    store: StoreView,
    rows: Seq<int>,
    row: int,
    delimiter: char,
)
    ensures
        ({
            let longer = rows.push(row);
            if 0 <= row < store.rows.len() {
                let cells = store.rows[row];
                &&& delimited_table(store, longer, delimiter) == delimited_table(
                    store,
                    rows,
                    delimiter,
                ) + joined(
                    row_fields(RowStyle::Delimited(delimiter), store.columns, cells),
                    seq![delimiter],
                ) + seq!['\n']
                &&& markdown_table(store, longer) == markdown_table(store, rows) + "| "@ + joined(
                    row_fields(RowStyle::Markdown, store.columns, cells),
                    " | "@,
                ) + " |"@ + seq!['\n']
                &&& !is_block(store) ==> plain_table(store, longer) == plain_table(store, rows)
                    + joined(row_fields(RowStyle::Text, store.columns, cells), "\t"@) + seq!['\n']
            } else {
                &&& delimited_table(store, longer, delimiter) == delimited_table(
                    store,
                    rows,
                    delimiter,
                )
                &&& markdown_table(store, longer) == markdown_table(store, rows)
                &&& plain_table(store, longer) == plain_table(store, rows)
                &&& json_table(store, longer) == json_table(store, rows)
                &&& nuon_table(store, longer) == nuon_table(store, rows)
            }
        }),
{
    let longer = rows.push(row);
    assert(longer.drop_last() =~= rows);
    assert(longer.last() == row);
    let head = joined(store.columns, seq![delimiter]) + seq!['\n'];
    let plain_head = joined(store.columns, "\t"@) + seq!['\n'];
    let rule = Seq::new(store.columns.len(), |i: int| "---"@);
    let top = seq![framed(RowStyle::Markdown, store.columns), framed(RowStyle::Markdown, rule)];
    let marked = row_texts(RowStyle::Markdown, store, rows);
    if 0 <= row < store.rows.len() {
        let cells = store.rows[row];
        let a = row_texts(RowStyle::Delimited(delimiter), store, rows);
        let la = row_text(RowStyle::Delimited(delimiter), store.columns, cells);
        lemma_ended_push(a, la);
        assert(head + (ended(a) + la + seq!['\n']) =~= head + ended(a) + la + seq!['\n']);
        let lm = row_text(RowStyle::Markdown, store.columns, cells);
        lemma_ended_push(top + marked, lm);
        assert(top + marked.push(lm) =~= (top + marked).push(lm));
        let inner = joined(row_fields(RowStyle::Markdown, store.columns, cells), " | "@);
        assert(ended(top + marked) + lm + seq!['\n'] =~= ended(top + marked) + "| "@ + inner + " |"@
            + seq!['\n']);
        let t = row_texts(RowStyle::Text, store, rows);
        let lt = row_text(RowStyle::Text, store.columns, cells);
        lemma_ended_push(t, lt);
        assert(plain_head + (ended(t) + lt + seq!['\n']) =~= plain_head + ended(t) + lt
            + seq!['\n']);
    }
}

proof fn lemma_ended_push(lines: Seq<Seq<char>>, line: Seq<char>)
    ensures
        ended(lines.push(line)) == ended(lines) + line + seq!['\n'],
{
    assert(lines.push(line).drop_last() =~= lines);
}

/// Before any row a table has its header: the names of the columns, and in Markdown a rule
/// below them.
pub proof fn law_tables_begin_with_their_header(store: StoreView, delimiter: char)
    ensures
        delimited_table(store, Seq::empty(), delimiter) == joined(store.columns, seq![delimiter])
            + seq!['\n'],
        !is_block(store) ==> plain_table(store, Seq::empty()) == joined(store.columns, "\t"@)
            + seq!['\n'],
        markdown_table(store, Seq::empty()) == "| "@ + joined(store.columns, " | "@) + " |"@
            + seq!['\n'] + ("| "@ + joined(
            Seq::new(store.columns.len(), |i: int| "---"@),
            " | "@,
        ) + " |"@) + seq!['\n'],
{
    let none = Seq::<Seq<char>>::empty();
    assert(ended(none) =~= Seq::<char>::empty());
    assert(delimited_table(store, Seq::empty(), delimiter) =~= joined(
        store.columns,
        seq![delimiter],
    ) + seq!['\n']);
    assert(!is_block(store) ==> plain_table(store, Seq::empty()) =~= joined(store.columns, "\t"@)
        + seq!['\n']);
    let rule = Seq::new(store.columns.len(), |i: int| "---"@);
    let one = framed(RowStyle::Markdown, store.columns);
    let two = framed(RowStyle::Markdown, rule);
    assert(seq![one, two] + none =~= none.push(one).push(two));
    lemma_ended_push(none, one);
    lemma_ended_push(none.push(one), two);
    assert(ended(none) + one + seq!['\n'] =~= one + seq!['\n']);
}

/// JSON puts rows as objects between brackets, a comma and a line break between two.
pub proof fn law_json_rows_are_objects(store: StoreView, a: int, b: int)
    requires
        0 <= a < store.rows.len(),
        0 <= b < store.rows.len(),
    ensures
        json_table(store, seq![a, b]) == "[\n  "@ + (("{"@ + joined(
            row_fields(RowStyle::Json, store.columns, store.rows[a]),
            ", "@,
        ) + "}"@) + ",\n  "@ + ("{"@ + joined(
            row_fields(RowStyle::Json, store.columns, store.rows[b]),
            ", "@,
        ) + "}"@)) + "\n]"@,
{
    lemma_two_rows(RowStyle::Json, store, a, b);
    lemma_two_joined(
        row_text(RowStyle::Json, store.columns, store.rows[a]),
        row_text(RowStyle::Json, store.columns, store.rows[b]),
        ",\n  "@,
    );
}

/// NUON puts rows as records between brackets, a comma between two.
pub proof fn law_nuon_rows_are_records(store: StoreView, a: int, b: int)
    requires
        0 <= a < store.rows.len(),
        0 <= b < store.rows.len(),
    ensures
        nuon_table(store, seq![a, b]) == "["@ + (("{"@ + joined(
            row_fields(RowStyle::Nuon, store.columns, store.rows[a]),
            ", "@,
        ) + "}"@) + ", "@ + ("{"@ + joined(
            row_fields(RowStyle::Nuon, store.columns, store.rows[b]),
            ", "@,
        ) + "}"@)) + "]"@,
{
    lemma_two_rows(RowStyle::Nuon, store, a, b);
    lemma_two_joined(
        row_text(RowStyle::Nuon, store.columns, store.rows[a]),
        row_text(RowStyle::Nuon, store.columns, store.rows[b]),
        ", "@,
    );
}

proof fn lemma_two_rows(style: RowStyle, store: StoreView, a: int, b: int)
    requires
        0 <= a < store.rows.len(),
        0 <= b < store.rows.len(),
    ensures
        row_texts(style, store, seq![a, b]) == seq![
            row_text(style, store.columns, store.rows[a]),
            row_text(style, store.columns, store.rows[b]),
        ],
{
    lemma_rows_written(style, store, seq![a, b]);
    assert(row_texts(style, store, seq![a, b]) =~= seq![
        row_text(style, store.columns, store.rows[a]),
        row_text(style, store.columns, store.rows[b]),
    ]);
}

proof fn lemma_two_joined(a: Seq<char>, b: Seq<char>, separator: Seq<char>)
    ensures
        joined(seq![a, b], separator) == a + separator + b,
{
    assert(seq![a, b].drop_last() =~= seq![a]);
    assert(joined(seq![a], separator) == a);
}

/// Each format is the table it is named for, and a body that is no table is copied as its
/// text in any format.
pub proof fn law_formats(
    store: StoreView,
    rows: Seq<int>,
    look: TableLook,
    format: CopyFormat,
    text: Seq<char>,
    bytes: nat,
    out: Seq<char>,
)
    ensures
        table_text(store, rows, CopyFormat::Tsv) == delimited_table(store, rows, '\t'),
        table_text(store, rows, CopyFormat::Csv) == delimited_table(store, rows, ','),
        table_text(store, rows, CopyFormat::Json) == json_table(store, rows),
        table_text(store, rows, CopyFormat::Nuon) == nuon_table(store, rows),
        table_text(store, rows, CopyFormat::Markdown) == markdown_table(store, rows),
        table_text(store, rows, CopyFormat::Text) == plain_table(store, rows),
        copied(BodyView::Scalar(text), look, format, out) == (out == text),
        copied(BodyView::Text(text), look, format, out) == (out == text),
        copied(BodyView::Diagnostic(text), look, format, out) == (out == text),
        copied(BodyView::Binary { bytes, summary: text }, look, format, out) == (out == text),
        copied(BodyView::Empty, look, format, out) == (out.len() == 0),
        listed(store, look, rows) && look.sort_col is None && copied(
            BodyView::Table(store),
            look,
            format,
            out,
        ) ==> out == table_text(store, rows, format),
{
    if listed(store, look, rows) && look.sort_col is None && copied(
        BodyView::Table(store),
        look,
        format,
        out,
    ) {
        law_copy_follows_the_view(store, look, format, out, rows);
    }
}

} // verus!
