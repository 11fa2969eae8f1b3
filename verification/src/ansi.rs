//! Parse ANSI/SGR sequences from Nushell help and other printed text.

use crate::color::{palette, palette_rgb, Rgb};
use crate::text::{
    all_digits, char_at, chars_of, contains_char, contains_text, decimal, is_digit, join, joined,
    lemma_decimal_reads_back, lemma_pieces_nonempty, occurs_at, occurs_in, parse_number,
    parsed_number, pieces, split, string_of, texts,
};
use vstd::prelude::*;

verus! {

/// The escape character.
pub const ESC: char = '\u{1b}';

/// One run of styled text.
#[derive(Debug, Clone, PartialEq, Eq)]
pub struct AnsiSpan {
    pub text: String,
    pub fg: Option<Rgb>,
    pub bg: Option<Rgb>,
    pub bold: bool,
}

/// One visual line of styled spans.
pub type AnsiLine = Vec<AnsiSpan>;

/// The style in force at a point of the text.
#[derive(Debug, Clone, Copy, PartialEq, Eq, Structural)]
pub struct Paint {
    pub fg: Option<Rgb>,
    pub bg: Option<Rgb>,
    pub bold: bool,
}

/// A span as characters and style.
pub struct SpanView {
    pub text: Seq<char>,
    pub fg: Option<Rgb>,
    pub bg: Option<Rgb>,
    pub bold: bool,
}

impl View for AnsiSpan {
    type V = SpanView;

    open spec fn view(&self) -> SpanView {
        SpanView { text: self.text@, fg: self.fg, bg: self.bg, bold: self.bold }
    }
}

/// The spans of a line.
pub open spec fn line_view(line: Seq<AnsiSpan>) -> Seq<SpanView> {
    line.map_values(|span: AnsiSpan| span@)
}

/// The spans of each line.
pub open spec fn lines_view(lines: Seq<AnsiLine>) -> Seq<Seq<SpanView>> {
    lines.map_values(|line: AnsiLine| line_view(line@))
}

// ---------------------------------------------------------------------------------------
// Escaped forms of the escape character

/// Whether a text has real or escaped CSI/SGR sequences.
pub open spec fn ansi_like(s: Seq<char>) -> bool {
    ||| s.contains(ESC)
    ||| occurs_in(s, "\\e["@)
    ||| occurs_in(s, "\\E["@)
    ||| occurs_in(s, "\\x1b"@)
    ||| occurs_in(s, "\\x1B"@)
    ||| occurs_in(s, "\\u{1b}"@)
    ||| occurs_in(s, "\\u{1B}"@)
    ||| occurs_in(s, "\\033["@)
}

/// True when `text` has real or escaped CSI/SGR sequences.
pub fn looks_like_ansi(text: &str) -> (yes: bool)
    ensures
        yes == ansi_like(text@),
{
    contains_char(text, ESC) || contains_text(text, "\\e[") || contains_text(text, "\\E[")
        || contains_text(text, "\\x1b") || contains_text(text, "\\x1B") || contains_text(
        text,
        "\\u{1b}",
    ) || contains_text(text, "\\u{1B}") || contains_text(text, "\\033[")
}

/// Whether a character is an ASCII hexadecimal digit.
pub open spec fn is_hex(c: char) -> bool {
    is_digit(c) || 'a' <= c <= 'f' || 'A' <= c <= 'F'
}

/// The value of a hexadecimal digit.
pub open spec fn hex_digit(c: char) -> nat {
    if is_digit(c) {
        (c as nat - '0' as nat) as nat
    } else if 'a' <= c <= 'f' {
        (c as nat - 'a' as nat + 10) as nat
    } else {
        (c as nat - 'A' as nat + 10) as nat
    }
}

/// The number that a row of hexadecimal digits stands for.
pub open spec fn hex_value(s: Seq<char>) -> nat
    decreases s.len(),
{
    if s.len() == 0 {
        0
    } else {
        hex_value(s.drop_last()) * 16 + hex_digit(s.last())
    }
}

/// How many hexadecimal digits stand in a row from position `j` on.
pub open spec fn hex_run(s: Seq<char>, j: int) -> nat
    decreases s.len() - j,
{
    if 0 <= j < s.len() && is_hex(s[j]) {
        1 + hex_run(s, j + 1)
    } else {
        0
    }
}

/// The end of the form `\u{1b}` that begins at `i`: one to seven hexadecimal digits of the
/// value of the escape character, in braces.
pub open spec fn unicode_escape_end(s: Seq<char>, i: int) -> Option<int> {
    let n = hex_run(s, i + 3);
    if i + 2 < s.len() && s[i + 2] == '{' && 1 <= n <= 7 && i + 3 + n < s.len() && s[i + 3 + n]
        == '}' && hex_value(s.subrange(i + 3, i + 3 + n)) == 0x1b {
        Some(i + 4 + n)
    } else {
        None
    }
}

/// The end of the escaped form of the escape character that begins with the backslash at
/// `i`: `\e`, `\x1b`, `\u{1b}` or `\033`.
pub open spec fn escape_end(s: Seq<char>, i: int) -> Option<int> {
    if i + 1 >= s.len() {
        None
    } else if s[i + 1] == 'e' || s[i + 1] == 'E' {
        Some(i + 2)
    } else if s[i + 1] == 'x' || s[i + 1] == 'X' {
        if i + 3 < s.len() && s[i + 2] == '1' && (s[i + 3] == 'b' || s[i + 3] == 'B') {
            Some(i + 4)
        } else {
            None
        }
    } else if s[i + 1] == 'u' || s[i + 1] == 'U' {
        unicode_escape_end(s, i)
    } else if s[i + 1] == '0' {
        if i + 3 < s.len() && s[i + 2] == '3' && s[i + 3] == '3' {
            Some(i + 4)
        } else {
            None
        }
    } else {
        None
    }
}

/// The text from position `i` on, with each escaped form of the escape character replaced
/// by the character itself.
pub open spec fn unescaped_from(s: Seq<char>, i: int) -> Seq<char>
    decreases s.len() - i,
{
    if i < 0 || i >= s.len() {
        Seq::empty()
    } else if s[i] == '\\' && escape_end(s, i) is Some {
        seq![ESC] + unescaped_from(s, escape_end(s, i)->0)
    } else {
        seq![s[i]] + unescaped_from(s, i + 1)
    }
}

/// A text with each escaped form of the escape character replaced by the character itself.
pub open spec fn unescaped(s: Seq<char>) -> Seq<char> {
    unescaped_from(s, 0)
}

fn is_hexdigit(c: char) -> (yes: bool)
    ensures
        yes == is_hex(c),
{
    ('0' <= c && c <= '9') || ('a' <= c && c <= 'f') || ('A' <= c && c <= 'F')
}

fn hexdigit_value(c: char) -> (d: u32)
    requires
        is_hex(c),
    ensures
        d == hex_digit(c),
        d < 16,
{
    if '0' <= c && c <= '9' {
        c as u32 - '0' as u32
    } else if 'a' <= c && c <= 'f' {
        c as u32 - 'a' as u32 + 10
    } else {
        c as u32 - 'A' as u32 + 10
    }
}

proof fn lemma_hex_run_splits(s: Seq<char>, from: int, j: int)
    requires
        0 <= from <= j <= s.len(),
        forall|k: int| from <= k < j ==> is_hex(#[trigger] s[k]),
    ensures
        hex_run(s, from) == (j - from) + hex_run(s, j),
    decreases j - from,
{
    if from < j {
        lemma_hex_run_splits(s, from + 1, j);
    }
}

/// Reads the form `\u{1b}` whose backslash stands at `i`.
fn decode_unicode_escape(chars: &Vec<char>, i: usize) -> (found: Option<(usize, char)>)
    ensures
        match found {
            Some((next, c)) => unicode_escape_end(chars@, i as int) == Some(next as int) && c
                == ESC,
            None => unicode_escape_end(chars@, i as int) is None,
        },
{
    let n: usize = chars.len();
    if i >= n || n - i <= 2 || chars[i + 2] != '{' {
        return None;
    }
    let start: usize = i + 3;
    let mut j: usize = start;
    let mut value: u32 = 0;
    assert(chars@.subrange(start as int, start as int) =~= Seq::empty());
    while j < n && chars[j] != '}'
        invariant
            n == chars@.len(),
            start == i + 3,
            start <= j <= n,
            j - start <= 7,
            chars@[i + 2] == '{',
            forall|k: int| start <= k < j ==> is_hex(#[trigger] chars@[k]),
            value == hex_value(chars@.subrange(start as int, j as int)),
            j - start == 0 ==> value < 1,
            j - start == 1 ==> value < 0x10,
            j - start == 2 ==> value < 0x100,
            j - start == 3 ==> value < 0x1000,
            j - start == 4 ==> value < 0x1_0000,
            j - start == 5 ==> value < 0x10_0000,
            j - start == 6 ==> value < 0x100_0000,
            j - start == 7 ==> value < 0x1000_0000,
        decreases n - j,
    {
        proof {
            lemma_hex_run_splits(chars@, start as int, j as int);
        }
        if !is_hexdigit(chars[j]) {
            return None;
        }
        if j - start > 6 {
            return None;
        }
        value = value * 16 + hexdigit_value(chars[j]);
        j += 1;
        assert(chars@.subrange(start as int, j as int).drop_last() =~= chars@.subrange(
            start as int,
            j - 1,
        ));
    }
    proof {
        lemma_hex_run_splits(chars@, start as int, j as int);
    }
    if j >= n {
        return None;
    }
    if j == start || value != 0x1b {
        return None;
    }
    Some((j + 1, ESC))
}

/// Reads the escaped form of the escape character whose backslash stands at `i`.
fn decode_escape(chars: &Vec<char>, i: usize) -> (found: Option<(usize, char)>)
    ensures
        match found {
            Some((next, c)) => escape_end(chars@, i as int) == Some(next as int) && c == ESC,
            None => escape_end(chars@, i as int) is None,
        },
{
    let n: usize = chars.len();
    if i >= n || n - i <= 1 {
        return None;
    }
    let next: char = chars[i + 1];
    if next == 'e' || next == 'E' {
        return Some((i + 2, ESC));
    }
    if next == 'x' || next == 'X' {
        if n - i > 3 && chars[i + 2] == '1' && (chars[i + 3] == 'b' || chars[i + 3] == 'B') {
            return Some((i + 4, ESC));
        }
        return None;
    }
    if next == 'u' || next == 'U' {
        return decode_unicode_escape(chars, i);
    }
    if next == '0' {
        if n - i > 3 && chars[i + 2] == '3' && chars[i + 3] == '3' {
            return Some((i + 4, ESC));
        }
        return None;
    }
    None
}

/// Turn common escaped ESC forms into a real ESC so SGR parsing can run.
pub fn unescape_ansi(input: &str) -> (out: String)
    ensures
        out@ == unescaped(input@),
{
    let chars = chars_of(input);
    let n: usize = chars.len();
    let mut out = String::new();
    let mut i: usize = 0;
    while i < n
        invariant
            i <= n == chars@.len(),
            chars@ == input@,
            out@ + unescaped_from(input@, i as int) == unescaped(input@),
        decreases n - i,
    {
        let ghost before = out@;
        let c: char = chars[i];
        if c == '\\' {
            if let Some((next, esc)) = decode_escape(&chars, i) {
                out.push(esc);
                assert(out@ + unescaped_from(input@, next as int) =~= before + unescaped_from(
                    input@,
                    i as int,
                ));
                i = next;
                continue;
            }
        }
        out.push(c);
        assert(out@ + unescaped_from(input@, i + 1) =~= before + unescaped_from(input@, i as int));
        i += 1;
    }
    out
}

// ---------------------------------------------------------------------------------------
// Tokens of a styled text

/// What a position of a styled text does: show a character, end a line, or change the style.
pub enum Token {
    Text(char),
    Break,
    Style(Seq<u16>),
}

/// Whether a character may stand among the parameters of an SGR sequence.
pub open spec fn is_param_char(c: char) -> bool {
    is_digit(c) || c == ';' || c == ':'
}

/// How many parameter characters stand in a row from position `j` on.
pub open spec fn param_run(s: Seq<char>, j: int) -> nat
    decreases s.len() - j,
{
    if 0 <= j < s.len() && is_param_char(s[j]) {
        1 + param_run(s, j + 1)
    } else {
        0
    }
}

/// The end of the SGR sequence `ESC [ parameters m` whose parameters begin at `j`.
pub open spec fn sgr_end(s: Seq<char>, j: int) -> Option<int> {
    let n = param_run(s, j);
    if j + n < s.len() && s[j + n] == 'm' {
        Some(j + n + 1)
    } else {
        None
    }
}

/// The number of one SGR parameter; what is no number up to 65535 counts as zero.
pub open spec fn param_value(part: Seq<char>) -> u16 {
    match parsed_number(part, u16::MAX as nat) {
        Some(n) => n as u16,
        None => 0,
    }
}

/// The SGR parameters that a text lists between `;` or `:`; an empty text stands for zero.
pub open spec fn param_list(raw: Seq<char>) -> Seq<u16> {
    pieces(raw, ';', ':').map_values(|part: Seq<char>| param_value(part))
}

/// The end of a control sequence whose body begins at `j`: behind the first character from
/// `@` to `~`, or the end of the text.
pub open spec fn csi_end(s: Seq<char>, j: int) -> int
    decreases s.len() - j,
{
    if j < 0 || j >= s.len() {
        s.len() as int
    } else if '@' <= s[j] <= '~' {
        j + 1
    } else {
        csi_end(s, j + 1)
    }
}

pub proof fn lemma_csi_end(s: Seq<char>, j: int)
    requires
        0 <= j <= s.len(),
    ensures
        j <= csi_end(s, j) <= s.len(),
        j < s.len() ==> j < csi_end(s, j),
    decreases s.len() - j,
{
    if j < s.len() && !('@' <= s[j] <= '~') {
        lemma_csi_end(s, j + 1);
    }
}

/// The tokens of a text from position `i` on. A CSI sequence that is no SGR sequence and a
/// carriage return leave no token.
pub open spec fn tokens_from(s: Seq<char>, i: int) -> Seq<Token>
    decreases s.len() - i,
{
    if i < 0 || i >= s.len() {
        Seq::empty()
    } else if s[i] == ESC && i + 1 < s.len() && s[i + 1] == '[' {
        match sgr_end(s, i + 2) {
            Some(end) => seq![Token::Style(param_list(s.subrange(i + 2, end - 1)))] + tokens_from(
                s,
                end,
            ),
            None => {
                proof {
                    lemma_csi_end(s, i + 2);
                }
                tokens_from(s, csi_end(s, i + 2))
            },
        }
    } else if s[i] == '\n' {
        seq![Token::Break] + tokens_from(s, i + 1)
    } else if s[i] == '\r' {
        tokens_from(s, i + 1)
    } else {
        seq![Token::Text(s[i])] + tokens_from(s, i + 1)
    }
}

/// The tokens of a text.
pub open spec fn tokens(s: Seq<char>) -> Seq<Token> {
    tokens_from(s, 0)
}

// ---------------------------------------------------------------------------------------
// SGR parameters

/// No color and no weight.
pub open spec fn no_paint() -> Paint {
    Paint { fg: None, bg: None, bold: false }
}

/// The lower eight bits of a parameter.
pub open spec fn low_byte(n: u16) -> u8 {
    (n % 256) as u8
}

/// The color that follows a 38 or 48, and how many parameters it takes: `5;n` from the
/// palette or `2;r;g;b`.
pub open spec fn extended_color(params: Seq<u16>) -> Option<(int, Rgb)> {
    if params.len() >= 2 && params[0] == 5 {
        Some((2int, palette_rgb(low_byte(params[1]), false)))
    } else if params.len() >= 4 && params[0] == 2 {
        Some(
            (
                4int,
                Rgb {
                    r: low_byte(params[1]),
                    g: low_byte(params[2]),
                    b: low_byte(params[3]),
                    bold: false,
                },
            ),
        )
    } else {
        None
    }
}

/// The effect of one parameter that stands alone.
pub open spec fn plain_sgr(paint: Paint, n: u16) -> Paint {
    if n == 0 {
        no_paint()
    } else if n == 1 {
        Paint { bold: true, ..paint }
    } else if n == 22 {
        Paint { bold: false, ..paint }
    } else if 30 <= n <= 37 {
        Paint { fg: Some(palette_rgb((n - 30) as u8, false)), ..paint }
    } else if 90 <= n <= 97 {
        Paint { fg: Some(palette_rgb((n - 90 + 8) as u8, true)), ..paint }
    } else if 40 <= n <= 47 {
        Paint { bg: Some(palette_rgb((n - 40) as u8, false)), ..paint }
    } else if 100 <= n <= 107 {
        Paint { bg: Some(palette_rgb((n - 100 + 8) as u8, true)), ..paint }
    } else if n == 39 {
        Paint { fg: None, ..paint }
    } else if n == 49 {
        Paint { bg: None, ..paint }
    } else {
        paint
    }
}

/// The style after an SGR sequence: its parameters take effect one after the other.
pub open spec fn sgr_applied(paint: Paint, params: Seq<u16>) -> Paint
    decreases params.len(),
{
    if params.len() == 0 {
        paint
    } else {
        let n = params[0];
        let rest = params.drop_first();
        if n == 38 || n == 48 {
            match extended_color(rest) {
                Some((used, color)) => sgr_applied(
                    if n == 38 {
                        Paint { fg: Some(color), ..paint }
                    } else {
                        Paint { bg: Some(color), ..paint }
                    },
                    rest.skip(used),
                ),
                None => sgr_applied(paint, rest),
            }
        } else {
            sgr_applied(plain_sgr(paint, n), rest)
        }
    }
}

fn byte_of(n: u16) -> (b: u8)
    ensures
        b == low_byte(n),
{
    (n % 256) as u8
}

/// Reads the color that follows a 38 or 48 at `from`.
fn read_extended(params: &Vec<u16>, from: usize) -> (color: Option<(usize, Rgb)>)
    requires
        from <= params@.len(),
    ensures
        match color {
            Some((used, rgb)) => extended_color(params@.skip(from as int)) == Some(
                (used as int, rgb),
            ) && from + used <= params@.len() && used > 0,
            None => extended_color(params@.skip(from as int)) is None,
        },
{
    let left: usize = params.len() - from;
    if left >= 2 && params[from] == 5 {
        return Some((2, Rgb::from_xterm(byte_of(params[from + 1]))));
    }
    if left >= 4 && params[from] == 2 {
        let r: u8 = byte_of(params[from + 1]);
        let g: u8 = byte_of(params[from + 2]);
        let b: u8 = byte_of(params[from + 3]);
        return Some((4, Rgb::new(r, g, b)));
    }
    None
}

fn apply_plain(paint: Paint, n: u16) -> (out: Paint)
    ensures
        out == plain_sgr(paint, n),
{
    if n == 0 {
        Paint { fg: None, bg: None, bold: false }
    } else if n == 1 {
        Paint { fg: paint.fg, bg: paint.bg, bold: true }
    } else if n == 22 {
        Paint { fg: paint.fg, bg: paint.bg, bold: false }
    } else if 30 <= n && n <= 37 {
        Paint {
            fg: Some(Rgb::from_ansi_index((n - 30) as u8, false)),
            bg: paint.bg,
            bold: paint.bold,
        }
    } else if 90 <= n && n <= 97 {
        Paint {
            fg: Some(Rgb::from_ansi_index((n - 90) as u8, true)),
            bg: paint.bg,
            bold: paint.bold,
        }
    } else if 40 <= n && n <= 47 {
        Paint {
            fg: paint.fg,
            bg: Some(Rgb::from_ansi_index((n - 40) as u8, false)),
            bold: paint.bold,
        }
    } else if 100 <= n && n <= 107 {
        Paint {
            fg: paint.fg,
            bg: Some(Rgb::from_ansi_index((n - 100) as u8, true)),
            bold: paint.bold,
        }
    } else if n == 39 {
        Paint { fg: None, bg: paint.bg, bold: paint.bold }
    } else if n == 49 {
        Paint { fg: paint.fg, bg: None, bold: paint.bold }
    } else {
        paint
    }
}

/// Applies the parameters of an SGR sequence to the style in force.
fn apply_sgr(paint: &mut Paint, params: &Vec<u16>)
    ensures
        *final(paint) == sgr_applied(*old(paint), params@),
{
    let mut current: Paint = *paint;
    let mut i: usize = 0;
    assert(params@.skip(0) =~= params@);
    while i < params.len()
        invariant
            i <= params@.len(),
            sgr_applied(current, params@.skip(i as int)) == sgr_applied(*old(paint), params@),
        decreases params.len() - i,
    {
        let n: u16 = params[i];
        assert(params@.skip(i as int).drop_first() =~= params@.skip(i + 1));
        assert(params@.skip(i as int)[0] == n);
        if n == 38 || n == 48 {
            if let Some((used, color)) = read_extended(params, i + 1) {
                assert(params@.skip(i + 1).skip(used as int) =~= params@.skip(i + 1 + used));
                current = if n == 38 {
                    Paint { fg: Some(color), bg: current.bg, bold: current.bold }
                } else {
                    Paint { fg: current.fg, bg: Some(color), bold: current.bold }
                };
                i += used;
            }
        } else {
            current = apply_plain(current, n);
        }
        i += 1;
    }
    assert(params@.skip(i as int) =~= Seq::empty());
    *paint = current;
}

fn parse_params(raw: &str) -> (params: Vec<u16>)
    ensures
        params@ == param_list(raw@),
{
    let parts = split(raw, ';', ':');
    let ghost all = pieces(raw@, ';', ':');
    let mut params: Vec<u16> = Vec::new();
    let mut i: usize = 0;
    while i < parts.len()
        invariant
            i <= parts@.len(),
            texts(parts@) == all,
            all.len() == parts@.len(),
            all == pieces(raw@, ';', ':'),
            params@ == param_list(raw@).take(i as int),
        decreases parts.len() - i,
    {
        assert(texts(parts@)[i as int] == parts@[i as int]@);
        let value: u16 = match parse_number(parts[i].as_str(), 65535) {
            Some(n) => n as u16,
            None => 0,
        };
        params.push(value);
        i += 1;
        assert(param_list(raw@).take(i as int) =~= param_list(raw@).take(i - 1).push(
            param_list(raw@)[i - 1],
        ));
    }
    assert(param_list(raw@).take(parts@.len() as int) =~= param_list(raw@));
    params
}

proof fn lemma_param_run_splits(s: Seq<char>, from: int, j: int)
    requires
        0 <= from <= j <= s.len(),
        forall|k: int| from <= k < j ==> is_param_char(#[trigger] s[k]),
    ensures
        param_run(s, from) == (j - from) + param_run(s, j),
    decreases j - from,
{
    if from < j {
        lemma_param_run_splits(s, from + 1, j);
    }
}

/// Reads the SGR sequence whose escape character stands at `start`.
fn read_csi_sgr(chars: &Vec<char>, start: usize) -> (found: Option<(usize, Vec<u16>)>)
    ensures
        match found {
            Some((next, params)) => sgr_end(chars@, start + 2) == Some(next as int) && params@
                == param_list(chars@.subrange(start + 2, next - 1)) && start < next
                <= chars@.len(),
            None => sgr_end(chars@, start + 2) is None,
        },
{
    let n: usize = chars.len();
    if start >= n || n - start <= 2 {
        return None;
    }
    let from: usize = start + 2;
    let mut i: usize = from;
    while i < n
        invariant
            n == chars@.len(),
            from == start + 2,
            from <= i <= n,
            forall|k: int| from <= k < i ==> is_param_char(#[trigger] chars@[k]),
        decreases n - i,
    {
        let c: char = chars[i];
        proof {
            lemma_param_run_splits(chars@, from as int, i as int);
        }
        if c == 'm' {
            let raw = string_of(chars, from, i);
            let params = parse_params(raw.as_str());
            return Some((i + 1, params));
        }
        if ('0' <= c && c <= '9') || c == ';' || c == ':' {
            i += 1;
            continue;
        }
        return None;
    }
    proof {
        lemma_param_run_splits(chars@, from as int, i as int);
    }
    None
}

/// The end of an operating system command whose body begins at `j`: behind the first bell
/// or the first `ESC \`, or the end of the text.
pub open spec fn osc_end(s: Seq<char>, j: int) -> int
    decreases s.len() - j,
{
    if j < 0 || j >= s.len() {
        s.len() as int
    } else if s[j] == '\u{7}' {
        j + 1
    } else if s[j] == ESC && j + 1 < s.len() && s[j + 1] == '\\' {
        j + 2
    } else {
        osc_end(s, j + 1)
    }
}

/// The end of the escape sequence whose escape character stands at `start`.
pub open spec fn skipped_to(s: Seq<char>, start: int) -> int {
    if start + 1 >= s.len() {
        start + 1
    } else if s[start + 1] == '[' {
        csi_end(s, start + 2)
    } else if s[start + 1] == ']' {
        osc_end(s, start + 2)
    } else {
        start + 2
    }
}

/// Skips the escape sequence whose escape character stands at `start`.
fn skip_escape(chars: &Vec<char>, start: usize) -> (next: usize)
    requires
        start < usize::MAX,
    ensures
        next == skipped_to(chars@, start as int),
{
    let n: usize = chars.len();
    if start >= n || n - start <= 1 {
        return start + 1;
    }
    let kind: char = chars[start + 1];
    if kind == '[' {
        let mut i: usize = start + 2;
        while i < n
            invariant
                start + 2 <= i <= n == chars@.len(),
                chars@[start + 1] == '[',
                csi_end(chars@, i as int) == csi_end(chars@, start + 2),
            decreases n - i,
        {
            let c: char = chars[i];
            if '@' <= c && c <= '~' {
                return i + 1;
            }
            i += 1;
        }
        return n;
    }
    if kind == ']' {
        let mut i: usize = start + 2;
        while i < n
            invariant
                start + 2 <= i <= n == chars@.len(),
                chars@[start + 1] == ']',
                osc_end(chars@, i as int) == osc_end(chars@, start + 2),
            decreases n - i,
        {
            if chars[i] == '\u{7}' {
                return i + 1;
            }
            if chars[i] == ESC && n - i > 1 && chars[i + 1] == '\\' {
                return i + 2;
            }
            i += 1;
        }
        return n;
    }
    start + 2
}

// ---------------------------------------------------------------------------------------
// Lines of spans

/// Lines under construction: the ended lines, the spans of the open line, the characters
/// that no span holds yet, and the style they have.
pub struct Canvas {
    pub ended: Seq<Seq<SpanView>>,
    pub open: Seq<SpanView>,
    pub run: Seq<char>,
    pub paint: Paint,
}

/// The open line with its pending characters made a span of their own.
pub open spec fn flushed(open: Seq<SpanView>, run: Seq<char>, paint: Paint) -> Seq<SpanView> {
    if run.len() == 0 {
        open
    } else {
        open.push(SpanView { text: run, fg: paint.fg, bg: paint.bg, bold: paint.bold })
    }
}

/// What a row of tokens draws. A span ends where the style may change and where the line
/// does.
pub open spec fn drawn(row: Seq<Token>) -> Canvas
    decreases row.len(),
{
    if row.len() == 0 {
        Canvas {
            ended: Seq::empty(),
            open: Seq::empty(),
            run: Seq::empty(),
            paint: no_paint(),
        }
    } else {
        let before = drawn(row.drop_last());
        match row.last() {
            Token::Text(c) => Canvas { run: before.run.push(c), ..before },
            Token::Style(params) => Canvas {
                open: flushed(before.open, before.run, before.paint),
                run: Seq::empty(),
                paint: sgr_applied(before.paint, params),
                ..before
            },
            Token::Break => Canvas {
                ended: before.ended.push(flushed(before.open, before.run, before.paint)),
                open: Seq::empty(),
                run: Seq::empty(),
                ..before
            },
        }
    }
}

/// The finished lines: an empty line at the end is dropped unless it is the only one.
pub open spec fn finished(canvas: Canvas) -> Seq<Seq<SpanView>> {
    let last = flushed(canvas.open, canvas.run, canvas.paint);
    if canvas.ended.len() > 0 && last.len() == 0 {
        canvas.ended
    } else {
        canvas.ended.push(last)
    }
}

/// The display lines of a text whose escape characters are real.
pub open spec fn styled_lines_raw(s: Seq<char>) -> Seq<Seq<SpanView>> {
    finished(drawn(tokens(s)))
}

/// The display lines of a text.
pub open spec fn styled_lines(s: Seq<char>) -> Seq<Seq<SpanView>> {
    styled_lines_raw(unescaped(s))
}

fn flush(open: &mut AnsiLine, run: String, paint: Paint)
    ensures
        line_view(final(open)@) == flushed(line_view(old(open)@), run@, paint),
{
    if run.as_str().is_empty() {
        return;
    }
    let ghost before = open@;
    open.push(AnsiSpan { text: run, fg: paint.fg, bg: paint.bg, bold: paint.bold });
    assert(line_view(open@) =~= flushed(line_view(before), run@, paint));
}

proof fn lemma_token_taken(seen: Seq<Token>, token: Token, rest: Seq<Token>)
    ensures
        seen.push(token).drop_last() == seen,
        seen.push(token) + rest == seen + (seq![token] + rest),
        seen.push(token).len() > 0,
        seen.push(token).last() == token,
{
    assert(seen.push(token).drop_last() =~= seen);
    assert(seen.push(token) + rest =~= seen + (seq![token] + rest));
}

proof fn lemma_text_head(s: Seq<char>, i: int, c: char)
    requires
        0 <= i < s.len(),
        s[i] == c,
        !(c == ESC && i + 1 < s.len() && s[i + 1] == '['),
        c != '\n',
        c != '\r',
    ensures
        tokens_from(s, i) == seq![Token::Text(c)] + tokens_from(s, i + 1),
{
}

proof fn lemma_text_token(s: Seq<char>, i: int, seen: Seq<Token>, c: char)
    requires
        0 <= i < s.len(),
        s[i] == c,
        !(c == ESC && i + 1 < s.len() && s[i + 1] == '['),
        c != '\n',
        c != '\r',
    ensures
        seen.push(Token::Text(c)) + tokens_from(s, i + 1) == seen + tokens_from(s, i),
        drawn(seen.push(Token::Text(c))) == (Canvas {
            run: drawn(seen).run.push(c),
            ..drawn(seen)
        }),
{
    lemma_token_taken(seen, Token::Text(c), tokens_from(s, i + 1));
}

/// Splits a text whose escape characters are real into display lines.
fn parse_ansi_lines_raw(input: &str) -> (lines: Vec<AnsiLine>)
    ensures
        lines_view(lines@) == styled_lines_raw(input@),
{
    let chars = chars_of(input);
    let n: usize = chars.len();
    let mut lines: Vec<AnsiLine> = Vec::new();
    let mut open: AnsiLine = Vec::new();
    let mut run = String::new();
    let mut paint: Paint = Paint { fg: None, bg: None, bold: false };
    let mut i: usize = 0;
    let ghost mut seen: Seq<Token> = Seq::empty();
    proof {
        assert(lines_view(lines@) =~= Seq::empty());
        assert(line_view(open@) =~= Seq::empty());
        assert(seen + tokens_from(input@, 0) =~= tokens(input@));
    }
    while i < n
        invariant
            i <= n == chars@.len(),
            chars@ == input@,
            seen + tokens_from(input@, i as int) == tokens(input@),
            drawn(seen) == (Canvas {
                ended: lines_view(lines@),
                open: line_view(open@),
                run: run@,
                paint,
            }),
        decreases n - i,
    {
        let ghost seen0 = seen;
        let ghost lines0 = lines@;
        let c: char = char_at(&chars, i);
        if c == ESC && n - i > 1 && chars[i + 1] == '[' {
            if let Some((next, params)) = read_csi_sgr(&chars, i) {
                flush(&mut open, run, paint);
                run = String::new();
                apply_sgr(&mut paint, &params);
                proof {
                    lemma_token_taken(
                        seen0,
                        Token::Style(params@),
                        tokens_from(input@, next as int),
                    );
                    seen = seen0.push(Token::Style(params@));
                }
                i = next;
                continue;
            }
            proof {
                lemma_csi_end(chars@, i + 2);
            }
            i = skip_escape(&chars, i);
            continue;
        }
        if c == '\n' {
            flush(&mut open, run, paint);
            run = String::new();
            let ghost ended = line_view(open@);
            lines.push(open);
            open = Vec::new();
            proof {
                assert(lines_view(lines@) =~= lines_view(lines0).push(ended));
                assert(line_view(open@) =~= Seq::empty());
                lemma_token_taken(seen0, Token::Break, tokens_from(input@, i + 1));
                seen = seen0.push(Token::Break);
            }
            i += 1;
            continue;
        }
        if c == '\r' {
            i += 1;
            continue;
        }
        run.push(c);
        proof {
            lemma_text_token(input@, i as int, seen0, c);
            seen = seen0.push(Token::Text(c));
        }
        i += 1;
    }
    assert(seen =~= tokens(input@));
    flush(&mut open, run, paint);
    let ghost lines1 = lines@;
    let ghost last = line_view(open@);
    if lines.len() == 0 || open.len() > 0 {
        lines.push(open);
        assert(lines_view(lines@) =~= lines_view(lines1).push(last));
    }
    lines
}

/// Split `input` into display lines, applying CSI SGR color/bold sequences.
pub fn parse_ansi_lines(input: &str) -> (lines: Vec<AnsiLine>)
    ensures
        lines_view(lines@) == styled_lines(input@),
{
    let raw = unescape_ansi(input);
    parse_ansi_lines_raw(raw.as_str())
}

/// The characters of a line's spans.
pub open spec fn line_text(line: Seq<SpanView>) -> Seq<char>
    decreases line.len(),
{
    if line.len() == 0 {
        Seq::empty()
    } else {
        line_text(line.drop_last()) + line.last().text
    }
}

/// The characters of each line.
pub open spec fn line_texts(lines: Seq<Seq<SpanView>>) -> Seq<Seq<char>> {
    lines.map_values(|line: Seq<SpanView>| line_text(line))
}

/// What of a text is visible: the characters of its display lines.
pub open spec fn visible(s: Seq<char>) -> Seq<char> {
    joined(line_texts(styled_lines(s)), seq!['\n'])
}

fn text_of_line(line: &AnsiLine) -> (s: String)
    ensures
        s@ == line_text(line_view(line@)),
{
    let ghost spans = line_view(line@);
    let mut s = String::new();
    let mut i: usize = 0;
    assert(spans.take(0) =~= Seq::empty());
    while i < line.len()
        invariant
            i <= line@.len(),
            spans == line_view(line@),
            s@ == line_text(spans.take(i as int)),
        decreases line.len() - i,
    {
        s.push_str(line[i].text.as_str());
        i += 1;
        assert(spans.take(i as int).drop_last() =~= spans.take(i - 1));
    }
    assert(spans.take(line@.len() as int) =~= spans);
    s
}

/// Text with CSI sequences removed, after unescaping literal forms.
pub fn visible_text(input: &str) -> (s: String)
    ensures
        s@ == visible(input@),
{
    let lines = parse_ansi_lines(input);
    let ghost views = lines_view(lines@);
    let mut parts: Vec<String> = Vec::new();
    let mut i: usize = 0;
    while i < lines.len()
        invariant
            i <= lines@.len(),
            views == lines_view(lines@),
            texts(parts@) == line_texts(views).take(i as int),
        decreases lines.len() - i,
    {
        let ghost parts0 = parts@;
        assert(views[i as int] == line_view(lines@[i as int]@));
        parts.push(text_of_line(&lines[i]));
        i += 1;
        assert(texts(parts@) =~= texts(parts0).push(line_texts(views)[i - 1]));
        assert(line_texts(views).take(i as int) =~= line_texts(views).take(i - 1).push(
            line_texts(views)[i - 1],
        ));
    }
    assert(line_texts(views).take(lines@.len() as int) =~= line_texts(views));
    proof {
        reveal_strlit("\n");
        assert("\n"@ =~= seq!['\n']);
    }
    join(&parts, "\n")
}

// ---------------------------------------------------------------------------------------
// Laws

/// What a row of tokens shows: its characters, and a line feed for each line it ends.
pub open spec fn shown(row: Seq<Token>) -> Seq<char>
    decreases row.len(),
{
    if row.len() == 0 {
        Seq::empty()
    } else {
        match row.last() {
            Token::Text(c) => shown(row.drop_last()).push(c),
            Token::Break => shown(row.drop_last()).push('\n'),
            Token::Style(_) => shown(row.drop_last()),
        }
    }
}

/// A text without the line feed that may end it.
pub open spec fn without_final_break(s: Seq<char>) -> Seq<char> {
    if s.len() > 0 && s.last() == '\n' {
        s.drop_last()
    } else {
        s
    }
}

/// Whether no text token of a row is a line ending.
pub open spec fn breaks_marked(row: Seq<Token>) -> bool {
    forall|k: int|
        0 <= k < row.len() ==> (#[trigger] row[k] matches Token::Text(c) ==> c != '\n' && c
            != '\r')
}

/// Whether a span holds at least one character and no line ending.
pub open spec fn span_inline(span: SpanView) -> bool {
    &&& span.text.len() > 0
    &&& !span.text.contains('\n')
    &&& !span.text.contains('\r')
}

/// Whether all spans of a line hold at least one character and no line ending.
pub open spec fn line_inline(line: Seq<SpanView>) -> bool {
    forall|k: int| 0 <= k < line.len() ==> span_inline(#[trigger] line[k])
}

proof fn lemma_tokens_breaks_marked(s: Seq<char>, i: int)
    ensures
        breaks_marked(tokens_from(s, i)),
    decreases s.len() - i,
{
    if 0 <= i < s.len() {
        if s[i] == ESC && i + 1 < s.len() && s[i + 1] == '[' {
            match sgr_end(s, i + 2) {
                Some(end) => {
                    lemma_tokens_breaks_marked(s, end);
                    let head = Token::Style(param_list(s.subrange(i + 2, end - 1)));
                    lemma_marked_head(head, tokens_from(s, end));
                },
                None => {
                    lemma_csi_end(s, i + 2);
                    lemma_tokens_breaks_marked(s, csi_end(s, i + 2));
                },
            }
        } else {
            lemma_tokens_breaks_marked(s, i + 1);
            if s[i] == '\n' {
                lemma_marked_head(Token::Break, tokens_from(s, i + 1));
            } else if s[i] != '\r' {
                lemma_marked_text(s, i, s[i]);
            }
        }
    }
}

proof fn lemma_marked_text(s: Seq<char>, i: int, c: char)
    requires
        0 <= i < s.len(),
        s[i] == c,
        !(c == ESC && i + 1 < s.len() && s[i + 1] == '['),
        c != '\n',
        c != '\r',
        breaks_marked(tokens_from(s, i + 1)),
    ensures
        breaks_marked(tokens_from(s, i)),
{
    lemma_text_head(s, i, c);
    lemma_marked_head(Token::Text(c), tokens_from(s, i + 1));
}

proof fn lemma_marked_head(head: Token, rest: Seq<Token>)
    requires
        breaks_marked(rest),
        head matches Token::Text(c) ==> c != '\n' && c != '\r',
    ensures
        breaks_marked(seq![head] + rest),
{
    assert forall|k: int| 0 <= k < (seq![head] + rest).len() implies (
    #[trigger] (seq![head] + rest)[k] matches Token::Text(c) ==> c != '\n' && c != '\r') by {
        if k > 0 {
            assert((seq![head] + rest)[k] == rest[k - 1]);
        }
    }
}

proof fn lemma_flushed_text(open: Seq<SpanView>, run: Seq<char>, paint: Paint)
    ensures
        line_text(flushed(open, run, paint)) == line_text(open) + run,
{
    if run.len() > 0 {
        assert(flushed(open, run, paint).drop_last() =~= open);
    } else {
        assert(line_text(open) + run =~= line_text(open));
    }
}

proof fn lemma_flushed_inline(open: Seq<SpanView>, run: Seq<char>, paint: Paint)
    requires
        line_inline(open),
        !run.contains('\n'),
        !run.contains('\r'),
    ensures
        line_inline(flushed(open, run, paint)),
{
}

proof fn lemma_inline_text(line: Seq<SpanView>)
    requires
        line_inline(line),
    ensures
        line.len() > 0 ==> line_text(line).len() > 0 && line_text(line).last() != '\n',
    decreases line.len(),
{
    if line.len() > 0 {
        assert(span_inline(line.last()));
        let tail = line.last().text;
        assert(tail.contains(tail.last()));
    }
}

proof fn lemma_joined_snoc(parts: Seq<Seq<char>>, last: Seq<char>, separator: Seq<char>)
    ensures
        joined(parts.push(last), separator) == (if parts.len() == 0 {
            last
        } else {
            joined(parts, separator) + separator + last
        }),
{
    assert(parts.push(last).drop_last() =~= parts);
}

proof fn lemma_drawn_inline(row: Seq<Token>)
    requires
        breaks_marked(row),
    ensures
        forall|k: int| 0 <= k < drawn(row).ended.len() ==> line_inline(
            #[trigger] drawn(row).ended[k],
        ),
        line_inline(drawn(row).open),
        !drawn(row).run.contains('\n'),
        !drawn(row).run.contains('\r'),
    decreases row.len(),
{
    if row.len() > 0 {
        let before = row.drop_last();
        assert(breaks_marked(before)) by {
            assert forall|k: int| 0 <= k < before.len() implies (
            #[trigger] before[k] matches Token::Text(c) ==> c != '\n' && c != '\r') by {
                assert(before[k] == row[k]);
            }
        }
        lemma_drawn_inline(before);
        let canvas = drawn(before);
        lemma_flushed_inline(canvas.open, canvas.run, canvas.paint);
        match row.last() {
            Token::Text(c) => {
                assert(row[row.len() - 1] == Token::Text(c));
                let run = canvas.run.push(c);
                assert forall|k: int| 0 <= k < run.len() implies run[k] != '\n' && run[k]
                    != '\r' by {
                    if k < canvas.run.len() {
                        assert(canvas.run.contains(canvas.run[k]));
                    }
                }
            },
            Token::Break => {},
            Token::Style(_) => {},
        }
    }
}

proof fn lemma_drawn_text(row: Seq<Token>)
    ensures
        joined(
            line_texts(drawn(row).ended).push(line_text(drawn(row).open) + drawn(row).run),
            seq!['\n'],
        ) == shown(row),
    decreases row.len(),
{
    let after = drawn(row);
    let newline = seq!['\n'];
    if row.len() == 0 {
        assert(line_texts(after.ended) =~= Seq::empty());
        lemma_joined_snoc(line_texts(after.ended), line_text(after.open) + after.run, newline);
        assert(line_text(after.open) + after.run =~= Seq::empty());
    } else {
        lemma_drawn_text(row.drop_last());
        let canvas = drawn(row.drop_last());
        let ended = line_texts(canvas.ended);
        let open = line_text(canvas.open) + canvas.run;
        lemma_joined_snoc(ended, open, newline);
        lemma_flushed_text(canvas.open, canvas.run, canvas.paint);
        match row.last() {
            Token::Text(c) => {
                lemma_joined_snoc(ended, line_text(canvas.open) + canvas.run.push(c), newline);
                assert(line_text(canvas.open) + canvas.run.push(c) =~= open.push(c));
                assert(joined(ended, newline) + newline + open.push(c) =~= (joined(ended, newline)
                    + newline + open).push(c));
            },
            Token::Style(_) => {
                assert(line_text(after.open) + after.run =~= open);
            },
            Token::Break => {
                assert(line_texts(after.ended) =~= ended.push(open));
                lemma_joined_snoc(ended.push(open), line_text(after.open) + after.run, newline);
                assert(line_text(after.open) + after.run =~= Seq::empty());
                assert(joined(ended.push(open), newline) + newline + Seq::<char>::empty()
                    =~= joined(ended.push(open), newline).push('\n'));
            },
        }
    }
}

/// Every span that a text is drawn with holds at least one character and no line ending,
/// and there is at least one line.
pub proof fn law_spans_stay_inline(s: Seq<char>)
    ensures
        styled_lines(s).len() > 0,
        forall|k: int| 0 <= k < styled_lines(s).len() ==> line_inline(
            #[trigger] styled_lines(s)[k],
        ),
{
    let row = tokens(unescaped(s));
    lemma_tokens_breaks_marked(unescaped(s), 0);
    lemma_drawn_inline(row);
    let canvas = drawn(row);
    lemma_flushed_inline(canvas.open, canvas.run, canvas.paint);
}

/// The visible text is exactly what the tokens show, up to one line feed at the end:
/// drawing styled lines neither loses nor adds a character.
pub proof fn law_visible_text_is_what_tokens_show(s: Seq<char>)
    ensures
        visible(s) == without_final_break(shown(tokens(unescaped(s)))),
{
    let row = tokens(unescaped(s));
    let canvas = drawn(row);
    let newline = seq!['\n'];
    let last = flushed(canvas.open, canvas.run, canvas.paint);
    let ended = line_texts(canvas.ended);
    lemma_tokens_breaks_marked(unescaped(s), 0);
    lemma_drawn_inline(row);
    lemma_drawn_text(row);
    lemma_flushed_inline(canvas.open, canvas.run, canvas.paint);
    lemma_flushed_text(canvas.open, canvas.run, canvas.paint);
    lemma_inline_text(last);
    lemma_joined_snoc(ended, line_text(last), newline);
    if canvas.ended.len() > 0 && last.len() == 0 {
        assert(joined(ended, newline) + newline + line_text(last) =~= joined(ended, newline).push(
            '\n',
        ));
        assert(joined(ended, newline).push('\n').drop_last() =~= joined(ended, newline));
    } else {
        assert(line_texts(canvas.ended.push(last)) =~= ended.push(line_text(last)));
    }
}

proof fn lemma_shown_concat(a: Seq<Token>, b: Seq<Token>)
    ensures
        shown(a + b) == shown(a) + shown(b),
    decreases b.len(),
{
    if b.len() == 0 {
        assert(a + b =~= a);
        assert(shown(a) + shown(b) =~= shown(a));
    } else {
        lemma_shown_concat(a, b.drop_last());
        assert((a + b).drop_last() =~= a + b.drop_last());
        assert((a + b).last() == b.last());
        match b.last() {
            Token::Text(c) => {
                assert(shown(a) + shown(b.drop_last()).push(c) =~= (shown(a) + shown(
                    b.drop_last(),
                )).push(c));
            },
            Token::Break => {
                assert(shown(a) + shown(b.drop_last()).push('\n') =~= (shown(a) + shown(
                    b.drop_last(),
                )).push('\n'));
            },
            Token::Style(_) => {},
        }
    }
}

proof fn lemma_shown_one(c: char)
    ensures
        shown(seq![Token::Text(c)]) == seq![c],
        shown(seq![Token::Break]) == seq!['\n'],
{
    reveal_with_fuel(shown, 2);
    let text = seq![Token::Text(c)];
    assert(text.drop_last() =~= Seq::empty());
    assert(shown(text) =~= seq![c]);
    let end = seq![Token::Break];
    assert(end.drop_last() =~= Seq::empty());
    assert(shown(end) =~= seq!['\n']);
}

proof fn lemma_unstyled_head(s: Seq<char>, i: int, c: char)
    requires
        0 <= i < s.len(),
        s[i] == c,
        c != ESC,
        c != '\r',
    ensures
        shown(tokens_from(s, i)) == seq![c] + shown(tokens_from(s, i + 1)),
{
    lemma_shown_one(c);
    if c == '\n' {
        lemma_shown_concat(seq![Token::Break], tokens_from(s, i + 1));
    } else {
        lemma_text_head(s, i, c);
        lemma_shown_concat(seq![Token::Text(c)], tokens_from(s, i + 1));
    }
}

proof fn lemma_unstyled_shown(s: Seq<char>, i: int)
    requires
        0 <= i <= s.len(),
        !s.contains(ESC),
        !s.contains('\r'),
    ensures
        shown(tokens_from(s, i)) == s.skip(i),
    decreases s.len() - i,
{
    if i < s.len() {
        assert(s.contains(s[i]));
        lemma_unstyled_shown(s, i + 1);
        lemma_unstyled_head(s, i, s[i]);
        assert(seq![s[i]] + s.skip(i + 1) =~= s.skip(i));
    } else {
        assert(s.skip(i) =~= Seq::empty());
    }
}

proof fn lemma_unescaped_plain(s: Seq<char>, i: int)
    requires
        0 <= i <= s.len(),
        !s.contains('\\'),
    ensures
        unescaped_from(s, i) == s.skip(i),
    decreases s.len() - i,
{
    if i < s.len() {
        assert(s.contains(s[i]));
        lemma_unescaped_plain(s, i + 1);
        assert(seq![s[i]] + s.skip(i + 1) =~= s.skip(i));
    } else {
        assert(s.skip(i) =~= Seq::empty());
    }
}

/// Text without escape characters, backslashes and carriage returns is visible as it
/// stands, but for one line feed at the end.
pub proof fn law_plain_text_is_visible(s: Seq<char>)
    requires
        !s.contains(ESC),
        !s.contains('\\'),
        !s.contains('\r'),
    ensures
        unescaped(s) == s,
        visible(s) == without_final_break(s),
{
    lemma_unescaped_plain(s, 0);
    assert(s.skip(0) =~= s);
    lemma_unstyled_shown(s, 0);
    law_visible_text_is_what_tokens_show(s);
}

/// How far the unescaped text from `i` on follows the text itself: up to the end, or up to
/// a backslash that gave way to an escape character.
proof fn lemma_unescaped_follows(s: Seq<char>, i: int) -> (m: int)
    requires
        0 <= i <= s.len(),
    ensures
        0 <= m <= unescaped_from(s, i).len(),
        i + m <= s.len(),
        forall|j: int| 0 <= j < m ==> unescaped_from(s, i)[j] == s[i + j],
        i + m == s.len() ==> unescaped_from(s, i).len() == m,
        i + m < s.len() ==> m < unescaped_from(s, i).len() && unescaped_from(s, i)[m] == ESC
            && s[i + m] == '\\' && escape_end(s, i + m) is Some,
    decreases s.len() - i,
{
    if i == s.len() {
        0
    } else if s[i] == '\\' && escape_end(s, i) is Some {
        0
    } else {
        let rest = lemma_unescaped_follows(s, i + 1);
        assert forall|j: int| 0 <= j < rest + 1 implies unescaped_from(s, i)[j] == s[i + j] by {
            if j > 0 {
                assert(unescaped_from(s, i + 1)[j - 1] == s[i + 1 + (j - 1)]);
            }
        }
        rest + 1
    }
}

proof fn lemma_hex_run_same(s: Seq<char>, i: int, t: Seq<char>, k: int, m: int, j: int)
    requires
        0 <= i,
        0 <= k,
        0 <= j <= m,
        i + m <= s.len(),
        k + m <= t.len(),
        t.subrange(k, k + m) == s.subrange(i, i + m),
        i + m < s.len() ==> !is_hex(s[i + m]),
        k + m < t.len() ==> !is_hex(t[k + m]),
    ensures
        hex_run(t, k + j) == hex_run(s, i + j),
        j + hex_run(s, i + j) <= m,
    decreases m - j,
{
    if j < m {
        assert(t.subrange(k, k + m)[j] == t[k + j]);
        assert(s.subrange(i, i + m)[j] == s[i + j]);
        if is_hex(s[i + j]) {
            lemma_hex_run_same(s, i, t, k, m, j + 1);
            assert(k + j + 1 == k + (j + 1));
            assert(i + j + 1 == i + (j + 1));
        }
    }
}

proof fn lemma_no_new_escape(s: Seq<char>, i: int, t: Seq<char>, k: int)
    requires
        0 <= i < s.len(),
        0 <= k,
        t.len() == k + unescaped_from(s, i).len(),
        t.skip(k) == unescaped_from(s, i),
        s[i] == '\\',
        escape_end(s, i) is None,
    ensures
        escape_end(t, k) is None,
{
    let u = unescaped_from(s, i);
    let m = lemma_unescaped_follows(s, i);
    assert forall|x: int| 0 <= x < u.len() implies t[k + x] == #[trigger] u[x] by {
        assert(t.skip(k)[x] == t[k + x]);
    }
    assert(t.subrange(k, k + m) =~= s.subrange(i, i + m)) by {
        assert forall|x: int| 0 <= x < m implies #[trigger] t.subrange(k, k + m)[x]
            == s.subrange(i, i + m)[x] by {
            assert(u[x] == s[i + x]);
        }
    }
    if i + m < s.len() {
        assert(t[k + m] == u[m]);
    }
    assert forall|x: int| 0 <= x < m implies #[trigger] t[k + x] == t.subrange(k, k + m)[x] by {}
    assert forall|x: int| 0 <= x < m implies #[trigger] s[i + x] == s.subrange(i, i + m)[x] by {}
    if m > 1 {
        assert(t[k + 1] == s[i + 1]);
    }
    if m > 2 {
        assert(t[k + 2] == s[i + 2]);
    }
    if m > 3 {
        assert(t[k + 3] == s[i + 3]);
    }
    if m >= 3 {
        lemma_hex_run_same(s, i, t, k, m, 3);
        let n = hex_run(s, i + 3) as int;
        assert(t.subrange(k, k + m).subrange(3, 3 + n) =~= t.subrange(k + 3, k + 3 + n));
        assert(s.subrange(i, i + m).subrange(3, 3 + n) =~= s.subrange(i + 3, i + 3 + n));
        if 3 + n < m {
            assert(t.subrange(k, k + m)[3 + n] == t[k + 3 + n]);
            assert(s.subrange(i, i + m)[3 + n] == s[i + 3 + n]);
        }
    }
}

proof fn lemma_unescaped_again(s: Seq<char>, i: int, t: Seq<char>, k: int)
    requires
        0 <= i <= s.len(),
        0 <= k,
        t.len() == k + unescaped_from(s, i).len(),
        t.skip(k) == unescaped_from(s, i),
    ensures
        unescaped_from(t, k) == unescaped_from(s, i),
    decreases s.len() - i,
{
    let u = unescaped_from(s, i);
    if i < s.len() {
        assert(t.skip(k)[0] == t[k]);
        let next = if s[i] == '\\' && escape_end(s, i) is Some {
            escape_end(s, i)->0
        } else {
            i + 1
        };
        if s[i] == '\\' && escape_end(s, i) is Some {
            assert(next <= s.len()) by {
                lemma_escape_end_in(s, i);
            }
        } else if s[i] == '\\' {
            lemma_no_new_escape(s, i, t, k);
        }
        assert(t.skip(k + 1) =~= unescaped_from(s, next)) by {
            assert forall|x: int| 0 <= x < unescaped_from(s, next).len() implies t.skip(k + 1)[x]
                == unescaped_from(s, next)[x] by {
                assert(t.skip(k)[x + 1] == u[x + 1]);
            }
        }
        lemma_unescaped_again(s, next, t, k + 1);
    }
}

proof fn lemma_escape_end_in(s: Seq<char>, i: int)
    requires
        0 <= i < s.len(),
    ensures
        escape_end(s, i) matches Some(end) ==> i < end <= s.len(),
{
}

/// Unescaping is done once and for all: an unescaped text holds no escaped form any more.
pub proof fn law_unescape_is_idempotent(s: Seq<char>)
    ensures
        unescaped(unescaped(s)) == unescaped(s),
{
    let t = unescaped(s);
    assert(t.skip(0) =~= t);
    lemma_unescaped_again(s, 0, t, 0);
}

/// Applying parameters without 38 and 48, and then others, is applying the two lists one
/// behind the other.
pub proof fn law_sgr_lists_apply_in_turn(paint: Paint, first: Seq<u16>, second: Seq<u16>)
    requires
        !first.contains(38),
        !first.contains(48),
    ensures
        sgr_applied(paint, first + second) == sgr_applied(sgr_applied(paint, first), second),
    decreases first.len(),
{
    if first.len() == 0 {
        assert(first + second =~= second);
    } else {
        let rest = first.drop_first();
        assert(first.contains(first[0]));
        assert forall|k: int| 0 <= k < rest.len() implies rest[k] != 38 && rest[k] != 48 by {
            assert(first.contains(first[k + 1]));
        }
        law_sgr_lists_apply_in_turn(plain_sgr(paint, first[0]), rest, second);
        assert((first + second).drop_first() =~= rest + second);
    }
}

/// Whether a text has neither an escape character nor a line ending.
pub open spec fn is_plain(s: Seq<char>) -> bool {
    forall|k: int|
        0 <= k < s.len() ==> (#[trigger] s[k]) != ESC && s[k] != '\n' && s[k] != '\r'
}

/// Takes the characters from `i` to `j` as tokens behind those that were seen.
proof fn lemma_plain_run(s: Seq<char>, i: int, j: int, seen: Seq<Token>) -> (after: Seq<Token>)
    requires
        0 <= i <= j <= s.len(),
        is_plain(s.subrange(i, j)),
    ensures
        after + tokens_from(s, j) == seen + tokens_from(s, i),
        drawn(after) == (Canvas { run: drawn(seen).run + s.subrange(i, j), ..drawn(seen) }),
    decreases j - i, 1nat,
{
    if i == j {
        assert(drawn(seen).run + s.subrange(i, j) =~= drawn(seen).run);
        seen
    } else {
        lemma_plain_step(s, i, j, seen, s[i])
    }
}

proof fn lemma_plain_step(s: Seq<char>, i: int, j: int, seen: Seq<Token>, c: char) -> (after: Seq<
    Token,
>)
    requires
        0 <= i < j <= s.len(),
        s[i] == c,
        is_plain(s.subrange(i, j)),
    ensures
        after + tokens_from(s, j) == seen + tokens_from(s, i),
        drawn(after) == (Canvas { run: drawn(seen).run + s.subrange(i, j), ..drawn(seen) }),
    decreases j - i, 0nat,
{
    assert(s.subrange(i, j)[0] == c);
    lemma_text_token(s, i, seen, c);
    assert forall|k: int| 0 <= k < s.subrange(i + 1, j).len() implies (
    #[trigger] s.subrange(i + 1, j)[k]) != ESC && s.subrange(i + 1, j)[k] != '\n' && s.subrange(
        i + 1,
        j,
    )[k] != '\r' by {
        assert(s.subrange(i + 1, j)[k] == s.subrange(i, j)[k + 1]);
    }
    let after = lemma_plain_run(s, i + 1, j, seen.push(Token::Text(c)));
    lemma_run_joins(drawn(seen).run, s, i, j, c);
    after
}

proof fn lemma_run_joins(run: Seq<char>, s: Seq<char>, i: int, j: int, c: char)
    requires
        0 <= i < j <= s.len(),
        s[i] == c,
    ensures
        run.push(c) + s.subrange(i + 1, j) == run + s.subrange(i, j),
{
    assert(run.push(c) + s.subrange(i + 1, j) =~= run + s.subrange(i, j));
}

/// A text that one SGR sequence splits is drawn as two spans of one line: what stands before
/// the sequence without style, and what stands behind it in the style that the sequence
/// gives.
pub proof fn law_one_sequence_makes_two_spans(first: Seq<char>, params: Seq<char>, second: Seq<char>)
    requires
        first.len() > 0,
        second.len() > 0,
        is_plain(first),
        is_plain(second),
        forall|k: int| 0 <= k < params.len() ==> is_param_char(#[trigger] params[k]),
    ensures
        styled_lines_raw(first + seq![ESC, '['] + params + seq!['m'] + second) == ({
            let paint = sgr_applied(no_paint(), param_list(params));
            seq![
                seq![
                    SpanView { text: first, fg: None, bg: None, bold: false },
                    SpanView { text: second, fg: paint.fg, bg: paint.bg, bold: paint.bold },
                ],
            ]
        }),
{
    let s = first + seq![ESC, '['] + params + seq!['m'] + second;
    let n = first.len() as int;
    let from = n + 2;
    let stop = from + params.len();
    let end = stop + 1;
    let paint = sgr_applied(no_paint(), param_list(params));
    let none = Seq::<Token>::empty();
    assert(s.subrange(0, n) =~= first);
    assert(s.subrange(from, stop) =~= params);
    assert(s.subrange(end, s.len() as int) =~= second);
    assert(s[n] == ESC && s[n + 1] == '[' && s[stop] == 'm');
    assert forall|k: int| from <= k < stop implies is_param_char(#[trigger] s[k]) by {
        assert(s[k] == params[k - from]);
    }
    lemma_param_run_splits(s, from, stop);
    assert(param_run(s, stop) == 0);
    assert(sgr_end(s, from) == Some(end));

    let before = lemma_plain_run(s, 0, n, none);
    let style = Token::Style(param_list(params));
    assert(tokens_from(s, n) == seq![style] + tokens_from(s, end));
    lemma_token_taken(before, style, tokens_from(s, end));
    let styled = before.push(style);
    assert(none + tokens_from(s, 0) =~= tokens(s));
    assert(drawn(none).run + first =~= first);
    let after = lemma_plain_run(s, end, s.len() as int, styled);
    assert(after + tokens_from(s, s.len() as int) =~= after);
    assert(after == tokens(s));
    let canvas = drawn(after);
    assert(drawn(styled).run + second =~= second);
    assert(canvas.ended =~= Seq::empty());
    let left = SpanView { text: first, fg: None, bg: None, bold: false };
    let right = SpanView { text: second, fg: paint.fg, bg: paint.bg, bold: paint.bold };
    assert(canvas.open =~= seq![left]);
    assert(flushed(canvas.open, canvas.run, canvas.paint) =~= seq![left, right]);
    assert(styled_lines_raw(s) =~= seq![seq![left, right]]);
}

// ---------------------------------------------------------------------------------------
// Laws on parameters

proof fn lemma_one_parameter(paint: Paint, n: u16)
    requires
        n != 38,
        n != 48,
    ensures
        sgr_applied(paint, seq![n]) == plain_sgr(paint, n),
{
    assert(seq![n].drop_first() =~= Seq::empty());
    assert(sgr_applied(plain_sgr(paint, n), Seq::empty()) == plain_sgr(paint, n));
}

/// The parameters 30 to 37 and 90 to 97 set the foreground alone, 40 to 47 and 100 to 107
/// the background alone: to one of the first eight colors of the palette, or of the next
/// eight, which are bold.
pub proof fn law_color_parameters_set_one_color(paint: Paint, k: u8)
    requires
        k < 8,
    ensures
        ({
            let (r, g, b) = palette(k);
            let (lr, lg, lb) = palette((k + 8) as u8);
            let dark = Some(Rgb { r, g, b, bold: false });
            let light = Some(Rgb { r: lr, g: lg, b: lb, bold: true });
            &&& sgr_applied(paint, seq![(30 + k) as u16]) == (Paint {
                fg: dark,
                bg: paint.bg,
                bold: paint.bold,
            })
            &&& sgr_applied(paint, seq![(40 + k) as u16]) == (Paint {
                fg: paint.fg,
                bg: dark,
                bold: paint.bold,
            })
            &&& sgr_applied(paint, seq![(90 + k) as u16]) == (Paint {
                fg: light,
                bg: paint.bg,
                bold: paint.bold,
            })
            &&& sgr_applied(paint, seq![(100 + k) as u16]) == (Paint {
                fg: paint.fg,
                bg: light,
                bold: paint.bold,
            })
        }),
{
    lemma_one_parameter(paint, (30 + k) as u16);
    lemma_one_parameter(paint, (40 + k) as u16);
    lemma_one_parameter(paint, (90 + k) as u16);
    lemma_one_parameter(paint, (100 + k) as u16);
}

/// Zero resets the style, 1 and 22 set the weight alone, 39 and 49 take one color away, and
/// a parameter without a meaning changes nothing.
pub proof fn law_other_parameters(paint: Paint, n: u16)
    ensures
        sgr_applied(paint, seq![0u16]) == (Paint { fg: None, bg: None, bold: false }),
        sgr_applied(paint, seq![1u16]) == (Paint { fg: paint.fg, bg: paint.bg, bold: true }),
        sgr_applied(paint, seq![22u16]) == (Paint { fg: paint.fg, bg: paint.bg, bold: false }),
        sgr_applied(paint, seq![39u16]) == (Paint { fg: None, bg: paint.bg, bold: paint.bold }),
        sgr_applied(paint, seq![49u16]) == (Paint { fg: paint.fg, bg: None, bold: paint.bold }),
        n != 0 && n != 1 && n != 22 && !(30 <= n <= 49) && !(90 <= n <= 97) && !(100 <= n <= 107)
            ==> sgr_applied(paint, seq![n]) == paint,
        sgr_applied(paint, Seq::empty()) == paint,
{
    lemma_one_parameter(paint, 0);
    lemma_one_parameter(paint, 1);
    lemma_one_parameter(paint, 22);
    lemma_one_parameter(paint, 39);
    lemma_one_parameter(paint, 49);
    if n != 38 && n != 48 {
        lemma_one_parameter(paint, n);
    }
}

/// `38;5;n` and `48;5;n` set a color by its number in the palette, `38;2;r;g;b` and
/// `48;2;r;g;b` by its channels; the parameters that follow then apply.
pub proof fn law_extended_parameters_set_one_color(
    paint: Paint,
    n: u8,
    r: u8,
    g: u8,
    b: u8,
    rest: Seq<u16>,
)
    ensures
        ({
            let (pr, pg, pb) = palette(n);
            let numbered = Some(Rgb { r: pr, g: pg, b: pb, bold: false });
            let direct = Some(Rgb { r, g, b, bold: false });
            &&& sgr_applied(paint, seq![38u16, 5u16, n as u16] + rest) == sgr_applied(
                Paint { fg: numbered, bg: paint.bg, bold: paint.bold },
                rest,
            )
            &&& sgr_applied(paint, seq![48u16, 5u16, n as u16] + rest) == sgr_applied(
                Paint { fg: paint.fg, bg: numbered, bold: paint.bold },
                rest,
            )
            &&& sgr_applied(paint, seq![38u16, 2u16, r as u16, g as u16, b as u16] + rest)
                == sgr_applied(Paint { fg: direct, bg: paint.bg, bold: paint.bold }, rest)
            &&& sgr_applied(paint, seq![48u16, 2u16, r as u16, g as u16, b as u16] + rest)
                == sgr_applied(Paint { fg: paint.fg, bg: direct, bold: paint.bold }, rest)
        }),
{
    lemma_numbered_color(paint, 38, n, rest);
    lemma_numbered_color(paint, 48, n, rest);
    lemma_direct_color(paint, 38, r, g, b, rest);
    lemma_direct_color(paint, 48, r, g, b, rest);
}

proof fn lemma_numbered_color(paint: Paint, lead: u16, n: u8, rest: Seq<u16>)
    requires
        lead == 38 || lead == 48,
    ensures
        sgr_applied(paint, seq![lead, 5u16, n as u16] + rest) == sgr_applied(
            if lead == 38 {
                Paint { fg: Some(palette_rgb(n, false)), ..paint }
            } else {
                Paint { bg: Some(palette_rgb(n, false)), ..paint }
            },
            rest,
        ),
{
    let all = seq![lead, 5u16, n as u16] + rest;
    let tail = seq![5u16, n as u16] + rest;
    assert(all.drop_first() =~= tail);
    assert(tail.skip(2) =~= rest);
    assert(all[0] == lead);
    assert(tail.len() >= 2 && tail[0] == 5 && tail[1] == n as u16);
    assert(extended_color(tail) == Some((2int, palette_rgb(n, false))));
}

proof fn lemma_direct_color(paint: Paint, lead: u16, r: u8, g: u8, b: u8, rest: Seq<u16>)
    requires
        lead == 38 || lead == 48,
    ensures
        sgr_applied(paint, seq![lead, 2u16, r as u16, g as u16, b as u16] + rest) == sgr_applied(
            if lead == 38 {
                Paint { fg: Some(Rgb { r, g, b, bold: false }), ..paint }
            } else {
                Paint { bg: Some(Rgb { r, g, b, bold: false }), ..paint }
            },
            rest,
        ),
{
    let all = seq![lead, 2u16, r as u16, g as u16, b as u16] + rest;
    let tail = seq![2u16, r as u16, g as u16, b as u16] + rest;
    assert(all.drop_first() =~= tail);
    assert(tail.skip(4) =~= rest);
    assert(all[0] == lead);
    assert(tail.len() >= 4 && tail[0] == 2 && tail[1] == r as u16 && tail[2] == g as u16 && tail[3]
        == b as u16);
    assert(extended_color(tail) == Some((4int, Rgb { r, g, b, bold: false })));
}

/// Numbers between separators are the parameters, in their order; an empty list is a
/// single zero.
pub proof fn law_parameters_are_the_numbers(front: Seq<char>, n: u16)
    ensures
        param_list(Seq::empty()) == seq![0u16],
        param_list(front + seq![';'] + decimal(n as nat)) == param_list(front).push(n),
        param_list(front + seq![':'] + decimal(n as nat)) == param_list(front).push(n),
        param_list(decimal(n as nat)) == seq![n],
{
    let digits = decimal(n as nat);
    lemma_decimal_reads_back(n as nat, u16::MAX as nat);
    lemma_one_part(digits);
    lemma_two_parts(front, ';', digits);
    lemma_two_parts(front, ':', digits);
    assert(param_value(Seq::empty()) == 0);
    assert(param_list(Seq::empty()) =~= seq![0u16]);
    assert(param_list(digits) =~= seq![n]);
    assert(param_list(front + seq![';'] + digits) =~= param_list(front).push(n));
    assert(param_list(front + seq![':'] + digits) =~= param_list(front).push(n));
}

proof fn lemma_one_part(digits: Seq<char>)
    requires
        all_digits(digits),
    ensures
        pieces(digits, ';', ':') == seq![digits],
{
    lemma_digits_part(Seq::empty(), digits);
    assert(pieces(Seq::<char>::empty(), ';', ':') =~= seq![Seq::<char>::empty()]);
    assert(Seq::<char>::empty() + digits =~= digits);
    assert(pieces(digits, ';', ':') =~= seq![digits]);
}

/// Digits behind a text go to its last piece.
proof fn lemma_digits_part(front: Seq<char>, digits: Seq<char>)
    requires
        forall|i: int| 0 <= i < digits.len() ==> is_digit(#[trigger] digits[i]),
    ensures
        pieces(front + digits, ';', ':') == pieces(front, ';', ':').drop_last().push(
            pieces(front, ';', ':').last() + digits,
        ),
    decreases digits.len(),
{
    let before = pieces(front, ';', ':');
    lemma_pieces_nonempty(front, ';', ':');
    if digits.len() == 0 {
        assert(front + digits =~= front);
        assert(before.last() + digits =~= before.last());
        assert(before =~= before.drop_last().push(before.last()));
    } else {
        let rest = digits.drop_last();
        let c = digits.last();
        assert(is_digit(digits[digits.len() - 1]));
        assert forall|i: int| 0 <= i < rest.len() implies is_digit(#[trigger] rest[i]) by {
            assert(rest[i] == digits[i]);
        }
        lemma_digits_part(front, rest);
        lemma_digit_pushed(front, rest, digits, c);
    }
}

proof fn lemma_digit_pushed(front: Seq<char>, rest: Seq<char>, digits: Seq<char>, c: char)
    requires
        digits.len() > 0,
        rest == digits.drop_last(),
        c == digits.last(),
        is_digit(c),
        pieces(front, ';', ':').len() > 0,
        pieces(front + rest, ';', ':') == pieces(front, ';', ':').drop_last().push(
            pieces(front, ';', ':').last() + rest,
        ),
    ensures
        pieces(front + digits, ';', ':') == pieces(front, ';', ':').drop_last().push(
            pieces(front, ';', ':').last() + digits,
        ),
{
    let before = pieces(front, ';', ':');
    let whole = front + digits;
    assert(whole.drop_last() =~= front + rest);
    assert(whole.last() == c);
    let mid = pieces(front + rest, ';', ':');
    assert(pieces(whole, ';', ':') == mid.drop_last().push(mid.last().push(c)));
    assert(mid.last() == before.last() + rest);
    assert((before.last() + rest).push(c) =~= before.last() + digits);
    assert(mid.drop_last() =~= before.drop_last());
}

proof fn lemma_two_parts(front: Seq<char>, separator: char, digits: Seq<char>)
    requires
        separator == ';' || separator == ':',
        all_digits(digits),
    ensures
        pieces(front + seq![separator] + digits, ';', ':') == pieces(front, ';', ':').push(digits),
{
    let with = front + seq![separator];
    assert(with.drop_last() =~= front);
    assert(with.last() == separator);
    let parts = pieces(with, ';', ':');
    assert(parts == pieces(front, ';', ':').push(Seq::empty()));
    lemma_digits_part(with, digits);
    assert(parts.drop_last() =~= pieces(front, ';', ':'));
    assert(parts.last() + digits =~= digits);
}

// ---------------------------------------------------------------------------------------
// Laws on lines

/// A line break ends a line and leaves the style in force: behind it the text goes on in the
/// style that stood before.
pub proof fn law_style_lasts_over_a_line_break(
    params: Seq<char>,
    first: Seq<char>,
    second: Seq<char>,
)
    requires
        first.len() > 0,
        second.len() > 0,
        is_plain(first),
        is_plain(second),
        forall|k: int| 0 <= k < params.len() ==> is_param_char(#[trigger] params[k]),
    ensures
        styled_lines_raw(seq![ESC, '['] + params + seq!['m'] + first + seq!['\n'] + second) == ({
            let paint = sgr_applied(no_paint(), param_list(params));
            seq![
                seq![SpanView { text: first, fg: paint.fg, bg: paint.bg, bold: paint.bold }],
                seq![SpanView { text: second, fg: paint.fg, bg: paint.bg, bold: paint.bold }],
            ]
        }),
{
    let s = seq![ESC, '['] + params + seq!['m'] + first + seq!['\n'] + second;
    let stop = 2 + params.len() as int;
    let start = stop + 1;
    let turn = start + first.len();
    let paint = sgr_applied(no_paint(), param_list(params));
    let none = Seq::<Token>::empty();
    assert(s.subrange(2, stop) =~= params);
    assert(s.subrange(start, turn) =~= first);
    assert(s.subrange(turn + 1, s.len() as int) =~= second);
    assert(s[0] == ESC && s[1] == '[' && s[stop] == 'm' && s[turn] == '\n');
    assert forall|k: int| 2 <= k < stop implies is_param_char(#[trigger] s[k]) by {
        assert(s[k] == params[k - 2]);
    }
    lemma_param_run_splits(s, 2, stop);
    assert(param_run(s, stop) == 0);
    assert(sgr_end(s, 2) == Some(start));
    let style = Token::Style(param_list(params));
    assert(tokens_from(s, 0) == seq![style] + tokens_from(s, start));
    lemma_token_taken(none, style, tokens_from(s, start));
    let styled = none.push(style);
    assert(none + tokens_from(s, 0) =~= tokens(s));
    let one = lemma_plain_run(s, start, turn, styled);
    assert(drawn(styled).run + first =~= first);
    assert(tokens_from(s, turn) == seq![Token::Break] + tokens_from(s, turn + 1));
    lemma_token_taken(one, Token::Break, tokens_from(s, turn + 1));
    let broken = one.push(Token::Break);
    let two = lemma_plain_run(s, turn + 1, s.len() as int, broken);
    assert(two + tokens_from(s, s.len() as int) =~= two);
    assert(two == tokens(s));
    assert(drawn(broken).run + second =~= second);
    let left = SpanView { text: first, fg: paint.fg, bg: paint.bg, bold: paint.bold };
    let empty = Seq::<SpanView>::empty();
    let start_canvas = drawn(none);
    assert(start_canvas.run.len() == 0 && start_canvas.open =~= empty);
    assert(start_canvas.paint == no_paint());
    assert(styled.drop_last() == none && styled.last() == style);
    assert(drawn(styled).paint == sgr_applied(start_canvas.paint, param_list(params)));
    assert(drawn(styled).open == flushed(start_canvas.open, start_canvas.run, no_paint()));
    assert(drawn(one).run == first);
    assert(flushed(empty, first, paint) =~= seq![left]);
    assert(drawn(broken).ended =~= seq![seq![left]]);
    let right = SpanView { text: second, fg: paint.fg, bg: paint.bg, bold: paint.bold };
    assert(drawn(two).ended =~= seq![seq![left]]);
    assert(flushed(drawn(two).open, drawn(two).run, drawn(two).paint) =~= seq![right]);
    assert(styled_lines_raw(s) =~= seq![seq![left], seq![right]]);
}

/// A control sequence that sets no style leaves no trace: the text round it is one span.
pub proof fn law_other_sequences_leave_no_trace(
    first: Seq<char>,
    params: Seq<char>,
    last: char,
    second: Seq<char>,
)
    requires
        first.len() > 0,
        is_plain(first),
        is_plain(second),
        forall|k: int| 0 <= k < params.len() ==> is_param_char(#[trigger] params[k]),
        '@' <= last <= '~',
        last != 'm',
    ensures
        styled_lines_raw(first + seq![ESC, '['] + params + seq![last] + second) == seq![
            seq![SpanView { text: first + second, fg: None, bg: None, bold: false }],
        ],
{
    let s = first + seq![ESC, '['] + params + seq![last] + second;
    let n = first.len() as int;
    let from = n + 2;
    let stop = from + params.len();
    let end = stop + 1;
    let none = Seq::<Token>::empty();
    assert(s.subrange(0, n) =~= first);
    assert(s.subrange(end, s.len() as int) =~= second);
    assert(s[n] == ESC && s[n + 1] == '[' && s[stop] == last);
    assert forall|k: int| from <= k < stop implies is_param_char(#[trigger] s[k]) by {
        assert(s[k] == params[k - from]);
    }
    lemma_param_run_splits(s, from, stop);
    assert(param_run(s, stop) == 0);
    assert(sgr_end(s, from) is None);
    lemma_csi_over_params(s, from, stop);
    assert(tokens_from(s, n) == tokens_from(s, end));
    let one = lemma_plain_run(s, 0, n, none);
    let two = lemma_plain_run(s, end, s.len() as int, one);
    assert(none + tokens_from(s, 0) =~= tokens(s));
    assert(two + tokens_from(s, s.len() as int) =~= two);
    assert(two == tokens(s));
    assert(drawn(none).run + first =~= first);
    assert(drawn(two).run == first + second);
    let span = SpanView { text: first + second, fg: None, bg: None, bold: false };
    assert(flushed(drawn(two).open, drawn(two).run, drawn(two).paint) =~= seq![span]);
    assert(styled_lines_raw(s) =~= seq![seq![span]]);
}

proof fn lemma_csi_over_params(s: Seq<char>, j: int, stop: int)
    requires
        0 <= j <= stop < s.len(),
        forall|k: int| j <= k < stop ==> is_param_char(#[trigger] s[k]),
        '@' <= s[stop] <= '~',
    ensures
        csi_end(s, j) == stop + 1,
    decreases stop - j,
{
    if j < stop {
        assert(is_param_char(s[j]));
        lemma_csi_over_params(s, j + 1, stop);
    }
}

// ---------------------------------------------------------------------------------------
// Laws on escaped forms

proof fn lemma_unescaped_front(first: Seq<char>, rest: Seq<char>, i: int)
    requires
        0 <= i <= first.len(),
        !first.contains('\\'),
    ensures
        unescaped_from(first + rest, i) == first.skip(i) + unescaped_from(
            first + rest,
            first.len() as int,
        ),
    decreases first.len() - i,
{
    let s = first + rest;
    if i < first.len() {
        lemma_unescaped_front(first, rest, i + 1);
        assert(s[i] == first[i]);
        assert(first.contains(first[i]));
        assert(seq![s[i]] + first.skip(i + 1) =~= first.skip(i));
        assert(seq![s[i]] + (first.skip(i + 1) + unescaped_from(s, first.len() as int))
            =~= first.skip(i) + unescaped_from(s, first.len() as int));
    } else {
        assert(first.skip(i) + unescaped_from(s, first.len() as int) =~= unescaped_from(
            s,
            first.len() as int,
        ));
    }
}

proof fn lemma_unescaped_rest(first: Seq<char>, rest: Seq<char>, i: int)
    requires
        0 <= i <= rest.len(),
        !rest.contains('\\'),
    ensures
        unescaped_from(first + rest, first.len() + i) == rest.skip(i),
    decreases rest.len() - i,
{
    let s = first + rest;
    if i < rest.len() {
        lemma_unescaped_rest(first, rest, i + 1);
        assert(s[first.len() + i] == rest[i]);
        assert(rest.contains(rest[i]));
        assert(seq![rest[i]] + rest.skip(i + 1) =~= rest.skip(i));
    } else {
        assert(unescaped_from(s, first.len() + i) =~= rest.skip(i));
    }
}

proof fn lemma_form_unescaped(first: Seq<char>, form: Seq<char>, second: Seq<char>)
    requires
        !first.contains('\\'),
        !second.contains('\\'),
        form.len() > 0,
        form[0] == '\\',
        escape_end(first + form + second, first.len() as int) == Some(
            (first.len() + form.len()) as int,
        ),
    ensures
        unescaped(first + form + second) == first + seq![ESC] + second,
{
    let s = first + form + second;
    lemma_unescaped_front(first, form + second, 0);
    assert(first + (form + second) =~= s);
    assert(first.skip(0) =~= first);
    lemma_unescaped_rest(first + form, second, 0);
    assert(second.skip(0) =~= second);
    let n = first.len() as int;
    assert(s[n] == form[0]);
    assert(unescaped_from(s, n) == seq![ESC] + second);
    assert(first + (seq![ESC] + second) =~= first + seq![ESC] + second);
}

/// Each escaped form of the escape character becomes the character itself, and the text
/// round it stays as it is.
pub proof fn law_escaped_forms_become_the_character(first: Seq<char>, second: Seq<char>)
    requires
        !first.contains('\\'),
        !second.contains('\\'),
    ensures
        unescaped(first + seq!['\\', 'e'] + second) == first + seq![ESC] + second,
        unescaped(first + seq!['\\', 'E'] + second) == first + seq![ESC] + second,
        unescaped(first + seq!['\\', 'x', '1', 'b'] + second) == first + seq![ESC] + second,
        unescaped(first + seq!['\\', 'x', '1', 'B'] + second) == first + seq![ESC] + second,
        unescaped(first + seq!['\\', '0', '3', '3'] + second) == first + seq![ESC] + second,
        unescaped(first + seq!['\\', 'u', '{', '1', 'b', '}'] + second) == first + seq![ESC]
            + second,
        unescaped(first + second) == first + second,
{
    lemma_form_unescaped(first, seq!['\\', 'e'], second);
    lemma_form_unescaped(first, seq!['\\', 'E'], second);
    lemma_form_unescaped(first, seq!['\\', 'x', '1', 'b'], second);
    lemma_form_unescaped(first, seq!['\\', 'x', '1', 'B'], second);
    lemma_form_unescaped(first, seq!['\\', '0', '3', '3'], second);
    let form = seq!['\\', 'u', '{', '1', 'b', '}'];
    let s = first + form + second;
    let n = first.len() as int;
    assert(s[n + 1] == 'u' && s[n + 2] == '{' && s[n + 3] == '1' && s[n + 4] == 'b' && s[n + 5]
        == '}');
    assert(hex_run(s, n + 5) == 0);
    assert(hex_run(s, n + 4) == 1);
    assert(hex_run(s, n + 3) == 2);
    let digits = s.subrange(n + 3, n + 5);
    assert(digits =~= seq!['1', 'b']);
    reveal_with_fuel(hex_value, 3);
    assert(digits.drop_last() =~= seq!['1']);
    assert(seq!['1'].drop_last() =~= Seq::<char>::empty());
    assert(hex_value(digits) == 0x1b);
    assert(unicode_escape_end(s, n) == Some(n + 6));
    lemma_form_unescaped(first, form, second);
    lemma_unescaped_front(first, second, 0);
    lemma_unescaped_rest(first, second, 0);
    assert(first.skip(0) + second.skip(0) =~= first + second);
}

/// A text with neither an escape character nor a backslash has no sequences; one with an
/// escape character, or with the beginning of an escaped sequence, may have some.
pub proof fn law_what_looks_like_ansi(s: Seq<char>)
    ensures
        !s.contains(ESC) && !s.contains('\\') ==> !ansi_like(s),
        s.contains(ESC) ==> ansi_like(s),
        occurs_in(s, "\\e["@) || occurs_in(s, "\\E["@) || occurs_in(s, "\\x1b"@) || occurs_in(
            s,
            "\\x1B"@,
        ) || occurs_in(s, "\\u{1b}"@) || occurs_in(s, "\\u{1B}"@) || occurs_in(s, "\\033["@)
            ==> ansi_like(s),
{
    reveal_strlit("\\e[");
    reveal_strlit("\\E[");
    reveal_strlit("\\x1b");
    reveal_strlit("\\x1B");
    reveal_strlit("\\u{1b}");
    reveal_strlit("\\u{1B}");
    reveal_strlit("\\033[");
    if !s.contains('\\') {
        lemma_backslash_needed(s, "\\e["@);
        lemma_backslash_needed(s, "\\E["@);
        lemma_backslash_needed(s, "\\x1b"@);
        lemma_backslash_needed(s, "\\x1B"@);
        lemma_backslash_needed(s, "\\u{1b}"@);
        lemma_backslash_needed(s, "\\u{1B}"@);
        lemma_backslash_needed(s, "\\033["@);
    }
}

proof fn lemma_backslash_needed(s: Seq<char>, pattern: Seq<char>)
    requires
        pattern.len() > 0,
        pattern[0] == '\\',
        !s.contains('\\'),
    ensures
        !occurs_in(s, pattern),
{
    if occurs_in(s, pattern) {
        let i = choose|i: int| occurs_at(s, pattern, i);
        assert(s.subrange(i, i + pattern.len())[0] == pattern[0]);
        assert(s[i] == '\\');
    }
}

/// Of a channel or a palette number beyond a byte the lower eight bits count.
pub proof fn law_wide_parameters_count_by_their_low_byte(
    paint: Paint,
    r: u8,
    wide: u16,
    rest: Seq<u16>,
)
    requires
        wide % 256 == r as u16,
    ensures
        sgr_applied(paint, seq![38u16, 2u16, wide, wide, wide] + rest) == sgr_applied(
            Paint { fg: Some(Rgb { r, g: r, b: r, bold: false }), bg: paint.bg, bold: paint.bold },
            rest,
        ),
        sgr_applied(paint, seq![38u16, 5u16, wide] + rest) == sgr_applied(
            paint,
            seq![38u16, 5u16, r as u16] + rest,
        ),
{
    lemma_numbered_color(paint, 38, r, rest);
    let all = seq![38u16, 2u16, wide, wide, wide] + rest;
    let tail = seq![2u16, wide, wide, wide] + rest;
    assert(all.drop_first() =~= tail);
    assert(tail.skip(4) =~= rest);
    assert(all[0] == 38);
    assert(tail.len() >= 4 && tail[0] == 2 && tail[1] == wide && tail[2] == wide && tail[3]
        == wide);
    assert(extended_color(tail) == Some((4int, Rgb { r, g: r, b: r, bold: false })));
    let short = seq![38u16, 5u16, wide] + rest;
    let end = seq![5u16, wide] + rest;
    assert(short.drop_first() =~= end);
    assert(end.skip(2) =~= rest);
    assert(short[0] == 38);
    assert(end.len() >= 2 && end[0] == 5 && end[1] == wide);
    assert(extended_color(end) == Some((2int, palette_rgb(r, false))));
}

/// Hexadecimal digits count from zero to fifteen in either case, and each further one counts
/// sixteen times less than the one before.
pub proof fn law_hexadecimal_counts_by_sixteen(s: Seq<char>, c: char)
    ensures
        '0' <= c <= '9' ==> hex_digit(c) == c as int - '0' as int,
        'a' <= c <= 'f' ==> hex_digit(c) == c as int - 'a' as int + 10,
        'A' <= c <= 'F' ==> hex_digit(c) == c as int - 'A' as int + 10,
        hex_value(s.push(c)) == 16 * hex_value(s) + hex_digit(c),
        hex_value(Seq::empty()) == 0,
        is_hex(c) <==> '0' <= c <= '9' || 'a' <= c <= 'f' || 'A' <= c <= 'F',
{
    assert(s.push(c).drop_last() =~= s);
}

} // verus!
