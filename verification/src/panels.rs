//! What the panels, the status bar and the cells of a Session say.

use crate::ansi::{ansi_like, looks_like_ansi};
use crate::cells::empty_cell;
use crate::engine::{ParseReport, ParseView};
use crate::export::{is_key_char, reads_word, word_at};
use crate::listing::{
    fold_case, folded, holds_text, listed, matching, places, text_or_empty, TableLook, TableView,
};
use crate::paths::{parse_root_row, path_key, root_row, table_path_key, KeySet};
use crate::result::{
    is_block, lemma_store_view, lines_label, nests, pairs_store, BodyView, Cell, CellView,
    ResultBody, ResultStore, StoreView,
};
use crate::text::{
    char_at, chars_of, contains_char, contains_text, decimal, decimal_i64, decimal_usize, lines_of,
    lowercase, occurs_in, signed_decimal, str_eq, texts, trim, trimmed,
};
use crate::workspace::{is_large, report_option};
use vstd::prelude::*;

verus! {

// ---------------------------------------------------------------------------------------
// Texts

/// Whether a column holds code, by its name in letters of either case.
pub open spec fn code_column(name: Seq<char>) -> bool {
    ||| word_at(name, 0, "example"@, "EXAMPLE"@)
    ||| word_at(name, 0, "examples"@, "EXAMPLES"@)
    ||| word_at(name, 0, "source"@, "SOURCE"@)
    ||| word_at(name, 0, "code"@, "CODE"@)
    ||| word_at(name, 0, "command"@, "COMMAND"@)
    ||| word_at(name, 0, "result"@, "RESULT"@)
}

/// Whether a column holds code.
pub fn is_code_column(name: &str) -> (yes: bool)
    ensures
        yes == code_column(name@),
{
    proof {
        reveal_strlit("example");
        reveal_strlit("EXAMPLE");
        reveal_strlit("examples");
        reveal_strlit("EXAMPLES");
        reveal_strlit("source");
        reveal_strlit("SOURCE");
        reveal_strlit("code");
        reveal_strlit("CODE");
        reveal_strlit("command");
        reveal_strlit("COMMAND");
        reveal_strlit("result");
        reveal_strlit("RESULT");
    }
    let chars = chars_of(name);
    reads_word(&chars, 0, "example", "EXAMPLE") || reads_word(&chars, 0, "examples", "EXAMPLES")
        || reads_word(&chars, 0, "source", "SOURCE") || reads_word(&chars, 0, "code", "CODE")
        || reads_word(&chars, 0, "command", "COMMAND") || reads_word(
        &chars,
        0,
        "result",
        "RESULT",
    )
}

/// Whether a text looks like a Nushell value or pipeline.
pub open spec fn nu_like(text: Seq<char>) -> bool {
    let t = trimmed(text);
    ||| t.len() > 0 && (t[0] == '[' || t[0] == '{')
    ||| occurs_in(t, " | "@)
}

/// Whether a text looks like a Nushell value or pipeline.
pub fn looks_like_nu_value(text: &str) -> (yes: bool)
    ensures
        yes == nu_like(text@),
{
    let t = trim(text);
    let chars = chars_of(t.as_str());
    if chars.len() > 0 {
        let first = char_at(&chars, 0);
        if first == '[' || first == '{' {
            return true;
        }
    }
    contains_text(t.as_str(), " | ")
}

/// A text with an underscore for each character that an element's name cannot hold.
pub open spec fn key_of(text: Seq<char>) -> Seq<char> {
    Seq::new(
        text.len(),
        |i: int|
            if is_key_char(text[i]) {
                text[i]
            } else {
                '_'
            },
    )
}

/// A text as the name of an element.
pub fn element_key(text: &str) -> (key: String)
    ensures
        key@ == key_of(text@),
{
    let chars = chars_of(text);
    let n: usize = chars.len();
    let mut key = String::new();
    assert(key_of(text@).take(0) =~= Seq::empty());
    for i in 0..n
        invariant
            n == chars@.len(),
            chars@ == text@,
            key@ == key_of(text@).take(i as int),
    {
        let c = char_at(&chars, i);
        let fits = ('a' <= c && c <= 'z') || ('A' <= c && c <= 'Z') || ('0' <= c && c <= '9') || c
            == '_' || c == '-';
        if fits {
            key.push(c);
        } else {
            key.push('_');
        }
        assert(key_of(text@).take(i + 1) =~= key_of(text@).take(i as int).push(
            key_of(text@)[i as int],
        ));
    }
    assert(key_of(text@).take(n as int) =~= key_of(text@));
    key
}

/// A text, or a dash where it is blank.
pub open spec fn dashed(text: Seq<char>) -> Seq<char> {
    if trimmed(text).len() == 0 {
        "—"@
    } else {
        text
    }
}

/// A text, or a dash where it is blank.
pub fn empty_dash(text: &str) -> (out: String)
    ensures
        out@ == dashed(text@),
{
    if trim(text).as_str().is_empty() {
        "—".to_owned()
    } else {
        text.to_owned()
    }
}

/// A control that opens or closes something, with its label.
pub open spec fn control(open: bool, label: Seq<char>) -> Seq<char> {
    if open {
        "▾ "@ + label
    } else {
        "▸ "@ + label
    }
}

/// A control that opens or closes something.
pub fn control_text(open: bool, label: &str) -> (out: String)
    ensures
        out@ == control(open, label@),
{
    let mut out = if open {
        "▾ ".to_owned()
    } else {
        "▸ ".to_owned()
    };
    out.push_str(label);
    out
}

/// The size of an opened store: the lines of a text, or rows and columns.
pub open spec fn size_words(store: StoreView) -> Seq<char> {
    if is_block(store) {
        lines_label(lines_of(store.rows[0][0].text).len())
    } else {
        decimal(store.rows.len()) + " rows × "@ + decimal(store.columns.len()) + " cols"@
    }
}

/// The size of an opened store.
pub fn size_label(store: &ResultStore) -> (label: String)
    ensures
        label@ == size_words(store@),
{
    if store.is_text_block() {
        proof {
            lemma_store_view(*store);
        }
        let n: usize = store.rows[0][0].line_count();
        if n == 1 {
            return "1 line".to_owned();
        }
        let mut label = decimal_usize(n);
        label.push_str(" lines");
        return label;
    }
    let mut label = decimal_usize(store.row_count());
    label.push_str(" rows × ");
    label.push_str(decimal_usize(store.columns.len()).as_str());
    label.push_str(" cols");
    assert(store@.columns.len() == store.columns@.len());
    label
}

// ---------------------------------------------------------------------------------------
// Columns

/// The share of a column in the room that is left over.
pub open spec fn flex_weight(name: Seq<char>) -> nat {
    if name == "value"@ || name == "result"@ || name == "example"@ || name == "examples"@ || name
        == "source"@ || name == "code"@ || name == "command"@ {
        4
    } else if name == "field"@ || name == "name"@ || name == "type"@ || name == "kind"@ {
        1
    } else {
        2
    }
}

/// The share of a column in the room that is left over.
pub fn column_flex_weight(name: &str) -> (weight: u8)
    ensures
        weight == flex_weight(name@),
{
    if str_eq(name, "value") || str_eq(name, "result") || str_eq(name, "example") || str_eq(
        name,
        "examples",
    ) || str_eq(name, "source") || str_eq(name, "code") || str_eq(name, "command") {
        4
    } else if str_eq(name, "field") || str_eq(name, "name") || str_eq(name, "type") || str_eq(
        name,
        "kind",
    ) {
        1
    } else {
        2
    }
}

/// The least and the greatest width of a column in pixels: code and values get more room.
pub open spec fn width_limits(name: Seq<char>) -> (u16, u16) {
    if code_column(name) || name == "value"@ || name == "result"@ {
        (280u16, 720u16)
    } else {
        (88u16, 360u16)
    }
}

/// The least and the greatest width of a column in pixels.
pub fn inspect_column_limits(name: &str) -> (limits: (u16, u16))
    ensures
        limits == width_limits(name@),
{
    if is_code_column(name) || str_eq(name, "value") || str_eq(name, "result") {
        (280, 720)
    } else {
        (88, 360)
    }
}

// ---------------------------------------------------------------------------------------
// Cells and bodies

/// How a cell is drawn.
#[derive(Debug, Clone, Copy, PartialEq, Eq, Structural)]
pub enum CellLook {
    /// As a control that opens the store behind it.
    Nested,
    /// As text with escape sequences.
    Ansi,
    /// As Nushell source.
    Highlighted,
    /// As it is, or as a dash where it is blank.
    Plain,
}

/// How a cell of a column is drawn.
pub open spec fn look_of(column: Seq<char>, cell: CellView) -> CellLook {
    if cell.nested is Some {
        CellLook::Nested
    } else if trimmed(cell.text).len() == 0 {
        CellLook::Plain
    } else if ansi_like(cell.text) {
        CellLook::Ansi
    } else if code_column(column) || nu_like(cell.text) {
        CellLook::Highlighted
    } else {
        CellLook::Plain
    }
}

/// How a cell of a column is drawn.
pub fn cell_look(column: &str, cell: &Cell) -> (look: CellLook)
    ensures
        look == look_of(column@, cell@),
{
    if cell.is_nested() {
        return CellLook::Nested;
    }
    let text = cell.text.as_str();
    if trim(text).as_str().is_empty() {
        return CellLook::Plain;
    }
    if looks_like_ansi(text) {
        return CellLook::Ansi;
    }
    if is_code_column(column) || looks_like_nu_value(text) {
        CellLook::Highlighted
    } else {
        CellLook::Plain
    }
}

/// How a body is drawn.
#[derive(Debug, Clone, Copy, PartialEq, Eq, Structural)]
pub enum BodyLook {
    /// As a word that says there is nothing.
    Nothing,
    /// As one line.
    Line,
    /// As lines that scroll.
    Lines,
    /// As lines that scroll, in the color of danger.
    Danger,
    /// As a table whose cells open below their rows.
    Expandable,
    /// As a table that draws only what is in sight.
    Virtual,
}

/// How a body is drawn.
pub open spec fn body_look_of(body: BodyView) -> BodyLook {
    match body {
        BodyView::Empty => BodyLook::Nothing,
        BodyView::Scalar(text) => if text.contains('\n') {
            BodyLook::Lines
        } else {
            BodyLook::Line
        },
        BodyView::Text(text) => BodyLook::Lines,
        BodyView::Diagnostic(text) => BodyLook::Danger,
        BodyView::Binary { bytes, summary } => BodyLook::Line,
        BodyView::Table(store) => if (pairs_store(store) || nests(store)) && !is_large(store) {
            BodyLook::Expandable
        } else {
            BodyLook::Virtual
        },
    }
}

/// How a body is drawn.
pub fn body_look(body: &ResultBody) -> (look: BodyLook)
    ensures
        look == body_look_of(body@),
{
    match body {
        ResultBody::Empty => BodyLook::Nothing,
        ResultBody::Scalar(text) => if contains_char(text.as_str(), '\n') {
            BodyLook::Lines
        } else {
            BodyLook::Line
        },
        ResultBody::Text(_) => BodyLook::Lines,
        ResultBody::Diagnostic(_) => BodyLook::Danger,
        ResultBody::Binary { .. } => BodyLook::Line,
        ResultBody::Table(store) => if (store.is_pairs() || store.has_nested())
            && !store.prefers_virtual() {
            BodyLook::Expandable
        } else {
            BodyLook::Virtual
        },
    }
}

/// Whether a body takes all the room that is left.
pub open spec fn body_fills(body: BodyView) -> bool {
    body is Table || body is Text || body is Diagnostic
}

/// Whether a body takes all the room that is left.
pub fn fills(body: &ResultBody) -> (yes: bool)
    ensures
        yes == body_fills(body@),
{
    matches!(body, ResultBody::Table(_) | ResultBody::Text(_) | ResultBody::Diagnostic(_))
}

// ---------------------------------------------------------------------------------------
// The Help panel

/// A command in the Help panel.
#[derive(Debug)]
pub struct HelpRow {
    pub name: String,
    pub category: String,
    pub kind: String,
    pub description: String,
}

/// A command in the Help panel as characters.
pub struct HelpView {
    pub name: Seq<char>,
    pub category: Seq<char>,
    pub kind: Seq<char>,
    pub description: Seq<char>,
}

impl View for HelpRow {
    type V = HelpView;

    open spec fn view(&self) -> HelpView {
        HelpView {
            name: self.name@,
            category: self.category@,
            kind: self.kind@,
            description: self.description@,
        }
    }
}

/// The commands that a filter leaves, from the first rows of a store: at most 400.
pub open spec fn help_list(store: StoreView, filter: Seq<char>, n: nat) -> Seq<HelpView>
    decreases n,
{
    if n == 0 {
        Seq::empty()
    } else {
        let before = help_list(store, filter, (n - 1) as nat);
        let row = store.rows[n - 1];
        if before.len() < 400 && (filter.len() == 0 || holds_text(row, filter)) {
            before.push(
                HelpView {
                    name: text_or_empty(row, 0),
                    category: text_or_empty(row, 1),
                    kind: text_or_empty(row, 2),
                    description: text_or_empty(row, 3),
                },
            )
        } else {
            before
        }
    }
}

/// The Help panel lists at most 400 commands, each of a row that the filter leaves.
pub proof fn law_help_lists_matching_rows(store: StoreView, filter: Seq<char>, n: nat)
    requires
        n <= store.rows.len(),
    ensures
        help_list(store, filter, n).len() <= 400,
        forall|i: int|
            0 <= i < help_list(store, filter, n).len() ==> exists|row: int|
                0 <= row < n && (filter.len() == 0 || holds_text(#[trigger] store.rows[row], filter))
                    && (#[trigger] help_list(store, filter, n)[i]).name == text_or_empty(
                    store.rows[row],
                    0,
                ),
    decreases n,
{
    if n > 0 {
        law_help_lists_matching_rows(store, filter, (n - 1) as nat);
        let before = help_list(store, filter, (n - 1) as nat);
        let all = help_list(store, filter, n);
        assert forall|i: int| 0 <= i < all.len() implies exists|row: int|
            0 <= row < n && (filter.len() == 0 || holds_text(#[trigger] store.rows[row], filter))
                && (#[trigger] all[i]).name == text_or_empty(store.rows[row], 0) by {
            if i < before.len() {
                assert(all[i] == before[i]);
                let row = choose|row: int|
                    0 <= row < n - 1 && (filter.len() == 0 || holds_text(
                        #[trigger] store.rows[row],
                        filter,
                    )) && before[i].name == text_or_empty(store.rows[row], 0);
                assert(0 <= row < n && all[i].name == text_or_empty(store.rows[row], 0));
            } else {
                assert(all[i].name == text_or_empty(store.rows[n - 1], 0));
            }
        }
    }
}

/// An empty filter hides no command: the Help panel lists the first 400.
pub proof fn law_empty_filter_hides_no_command(store: StoreView, n: nat)
    requires
        n <= store.rows.len(),
    ensures
        help_list(store, folded(Seq::empty()), n).len() == if n < 400 {
            n
        } else {
            400
        },
        forall|i: int|
            0 <= i < help_list(store, folded(Seq::empty()), n).len() ==> (#[trigger] help_list(
                store,
                folded(Seq::empty()),
                n,
            )[i]).name == text_or_empty(store.rows[i], 0),
    decreases n,
{
    if n > 0 {
        law_empty_filter_hides_no_command(store, (n - 1) as nat);
        let filter = folded(Seq::empty());
        let before = help_list(store, filter, (n - 1) as nat);
        let all = help_list(store, filter, n);
        assert forall|i: int| 0 <= i < all.len() implies (#[trigger] all[i]).name
            == text_or_empty(store.rows[i], 0) by {
            if i < before.len() {
                assert(all[i] == before[i]);
            }
        }
    }
}

/// Commands as characters.
pub open spec fn help_views(rows: Seq<HelpRow>) -> Seq<HelpView> {
    rows.map_values(|row: HelpRow| row@)
}

/// The text of a row's cell, empty where the row has no such cell.
fn cell_text_at(row: &Vec<Cell>, col: usize, Ghost(shown): Ghost<Seq<CellView>>) -> (text: String)
    requires
        shown.len() == row@.len(),
        forall|j: int| 0 <= j < row@.len() ==> #[trigger] shown[j] == row@[j]@,
    ensures
        text@ == text_or_empty(shown, col as int),
{
    if col < row.len() {
        assert(shown[col as int] == row@[col as int]@);
        row[col].text.clone()
    } else {
        String::new()
    }
}

fn row_holds(row: &Vec<Cell>, filter: &str, Ghost(shown): Ghost<Seq<CellView>>) -> (yes: bool)
    requires
        shown.len() == row@.len(),
        forall|j: int| 0 <= j < row@.len() ==> #[trigger] shown[j] == row@[j]@,
    ensures
        yes == holds_text(shown, filter@),
{
    let n: usize = row.len();
    for j in 0..n
        invariant
            n == row@.len(),
            shown.len() == row@.len(),
            forall|j: int| 0 <= j < row@.len() ==> #[trigger] shown[j] == row@[j]@,
            forall|k: int|
                0 <= k < j ==> !occurs_in(lowercase((#[trigger] shown[k]).text), filter@),
    {
        assert(shown[j as int] == row@[j as int]@);
        if contains_text(row[j].text.as_str().to_lowercase().as_str(), filter) {
            return true;
        }
    }
    false
}

/// The commands that the Help panel lists under a filter.
pub fn help_rows(store: &ResultStore, filter: &str) -> (out: Vec<HelpRow>)
    ensures
        help_views(out@) == help_list(store@, folded(filter@), store@.rows.len()),
{
    let wanted = fold_case(filter);
    let mut out: Vec<HelpRow> = Vec::new();
    let n: usize = store.rows.len();
    assert(help_views(out@) =~= Seq::empty());
    for i in 0..n
        invariant
            n == store.rows@.len(),
            wanted@ == folded(filter@),
            help_views(out@) == help_list(store@, wanted@, i as nat),
    {
        let ghost shown = store@.rows[i as int];
        let row = &store.rows[i];
        assert(help_views(out@).len() == out@.len());
        if out.len() < 400 && (wanted.as_str().is_empty() || row_holds(
            row,
            wanted.as_str(),
            Ghost(shown),
        )) {
            let help = HelpRow {
                name: cell_text_at(row, 0, Ghost(shown)),
                category: cell_text_at(row, 1, Ghost(shown)),
                kind: cell_text_at(row, 2, Ghost(shown)),
                description: cell_text_at(row, 3, Ghost(shown)),
            };
            let ghost before = out@;
            let ghost view = help@;
            out.push(help);
            assert(help_views(out@) =~= help_views(before).push(view));
        }
    }
    out
}

/// What the Help panel says above its list.
pub open spec fn help_words(store: StoreView, listed: nat) -> Seq<char> {
    if store.rows.len() == 0 {
        "Loading `scope commands`…"@
    } else {
        decimal(listed) + " commands · click to insert"@
    }
}

/// What the Help panel says above its list.
pub fn help_label(store: &ResultStore, listed: usize) -> (label: String)
    ensures
        label@ == help_words(store@, listed as nat),
{
    if store.row_count() == 0 {
        return "Loading `scope commands`…".to_owned();
    }
    let mut label = decimal_usize(listed);
    label.push_str(" commands · click to insert");
    label
}

// ---------------------------------------------------------------------------------------
// The History panel

/// The newest 50 sources, the newest first.
pub open spec fn newest(history: Seq<Seq<char>>) -> Seq<Seq<char>> {
    Seq::new(
        if history.len() < 50 {
            history.len()
        } else {
            50
        },
        |i: int| history[history.len() - 1 - i],
    )
}

/// The sources that the History panel lists.
pub fn history_rows(history: &Vec<String>) -> (out: Vec<String>)
    ensures
        texts(out@) == newest(texts(history@)),
{
    let n: usize = history.len();
    let m: usize = if n < 50 {
        n
    } else {
        50
    };
    let mut out: Vec<String> = Vec::new();
    for i in 0..m
        invariant
            m <= n,
            n == history@.len(),
            out@.len() == i,
            forall|k: int| 0 <= k < i ==> (#[trigger] out@[k])@ == history@[n - 1 - k]@,
    {
        out.push(history[n - 1 - i].clone());
    }
    assert(texts(history@).len() == n);
    assert(texts(out@) =~= newest(texts(history@)));
    out
}

// ---------------------------------------------------------------------------------------
// The REPL bar and the status bar

/// What the REPL bar says of the source.
pub open spec fn parse_words(parse: Option<ParseView>) -> Seq<char> {
    match parse {
        Some(report) => match report.error {
            Some(error) => error,
            None => if report.complete {
                "ready"@
            } else {
                "incomplete"@
            },
        },
        None => "incomplete"@,
    }
}

/// What the REPL bar says of the source.
pub fn parse_label(parse: &Option<ParseReport>) -> (label: String)
    ensures
        label@ == parse_words(report_option(*parse)),
{
    match parse {
        Some(report) => match &report.error {
            Some(error) => error.clone(),
            None => if report.complete {
                "ready".to_owned()
            } else {
                "incomplete".to_owned()
            },
        },
        None => "incomplete".to_owned(),
    }
}

/// What the status bar says of the source.
pub open spec fn parse_status_words(parse: Option<ParseView>) -> Seq<char> {
    match parse {
        Some(report) => if report.error is Some {
            "parse error"@
        } else if report.complete {
            "parse ok"@
        } else {
            "incomplete"@
        },
        None => "parse …"@,
    }
}

/// What the status bar says of the source.
pub fn parse_status(parse: &Option<ParseReport>) -> (label: &'static str)
    ensures
        label@ == parse_status_words(report_option(*parse)),
{
    match parse {
        Some(report) => if report.error.is_some() {
            "parse error"
        } else if report.complete {
            "parse ok"
        } else {
            "incomplete"
        },
        None => "parse …",
    }
}

/// What the status bar says of the engine.
pub open spec fn engine_words(busy: bool, config_path: Seq<char>) -> Seq<char> {
    let word = if busy {
        "busy"@
    } else {
        "idle"@
    };
    if config_path.len() == 0 {
        word
    } else {
        word + " · "@ + config_path
    }
}

/// What the status bar says of the engine.
pub fn engine_status(busy: bool, config_path: &str) -> (label: String)
    ensures
        label@ == engine_words(busy, config_path@),
{
    let mut label = if busy {
        "busy".to_owned()
    } else {
        "idle".to_owned()
    };
    if !config_path.is_empty() {
        label.push_str(" · ");
        label.push_str(config_path);
    }
    label
}

/// What the status bar says of the last exit code.
pub open spec fn exit_words(code: Option<i64>) -> Seq<char> {
    match code {
        Some(code) => "exit "@ + signed_decimal(code as int),
        None => Seq::empty(),
    }
}

/// What the status bar says of the last exit code.
pub fn exit_status(code: Option<i64>) -> (label: String)
    ensures
        label@ == exit_words(code),
{
    match code {
        Some(code) => {
            let mut label = "exit ".to_owned();
            label.push_str(decimal_i64(code).as_str());
            label
        },
        None => String::new(),
    }
}

/// What the status bar says of the shown Result's rows.
pub open spec fn rows_words(visible: nat, total: nat) -> Seq<char> {
    decimal(visible) + " / "@ + decimal(total) + " rows"@
}

/// What the status bar says of the rows of a store under a view.
pub fn rows_status(store: &ResultStore, view: &TableView) -> (label: String)
    ensures
        label@ == rows_words(matching(store@, view@).len(), store@.rows.len()),
{
    let visible = store.visible_indices(view);
    proof {
        lemma_listed_len(store@, view@, places(visible@));
    }
    let mut label = decimal_usize(visible.len());
    label.push_str(" / ");
    label.push_str(decimal_usize(store.row_count()).as_str());
    label.push_str(" rows");
    label
}

proof fn lemma_listed_len(store: StoreView, look: TableLook, rows: Seq<int>)
    requires
        listed(store, look, rows),
    ensures
        rows.len() == matching(store, look).len(),
{
    broadcast use vstd::seq_lib::group_to_multiset_ensures;

    assert(rows.to_multiset().len() == rows.len());
    assert(matching(store, look).to_multiset().len() == matching(store, look).len());
}

/// What stands above a table whose cells open below their rows.
pub open spec fn expandable_words(store: StoreView) -> Seq<char> {
    decimal(store.rows.len()) + (if pairs_store(store) {
        " fields"@
    } else {
        " rows"@
    }) + " · click ▸ to expand under the row"@
}

/// What stands above a table whose cells open below their rows.
pub fn expandable_label(store: &ResultStore) -> (label: String)
    ensures
        label@ == expandable_words(store@),
{
    let mut label = decimal_usize(store.row_count());
    if store.is_pairs() {
        label.push_str(" fields");
    } else {
        label.push_str(" rows");
    }
    label.push_str(" · click ▸ to expand under the row");
    label
}

/// What stands above a table that draws only what is in sight.
pub open spec fn virtual_words(visible: nat, total: nat) -> Seq<char> {
    decimal(visible) + " of "@ + decimal(total)
        + " rows · filter to find a command, ▸ expands below"@
}

/// What stands above a table that draws only what is in sight, under a view of it or none.
pub fn virtual_label(store: &ResultStore, view: &Option<&TableView>) -> (label: String)
    ensures
        label@ == virtual_words(
            match *view {
                Some(view) => matching(store@, view@).len(),
                None => store@.rows.len(),
            },
            store@.rows.len(),
        ),
{
    let visible: usize = match view {
        Some(view) => {
            let rows = store.visible_indices(view);
            proof {
                lemma_listed_len(store@, view@, places(rows@));
            }
            rows.len()
        },
        None => store.row_count(),
    };
    let mut label = decimal_usize(visible);
    label.push_str(" of ");
    label.push_str(decimal_usize(store.row_count()).as_str());
    label.push_str(" rows · filter to find a command, ▸ expands below");
    label
}

/// Whether rows are those that an opened table draws: the root table under the view of the
/// shown Result, any other as it comes.
pub open spec fn drawn_rows(
    store: StoreView,
    path: Seq<char>,
    look: Option<TableLook>,
    rows: Seq<int>,
) -> bool {
    if path == "root"@ && look is Some {
        listed(store, look->0, rows)
    } else {
        rows == Seq::new(store.rows.len(), |i: int| i)
    }
}

/// The rows that an opened table draws.
pub fn inspect_rows(store: &ResultStore, path: &str, view: &Option<&TableView>) -> (rows: Vec<
    usize,
>)
    ensures
        drawn_rows(
            store@,
            path@,
            match *view {
                Some(view) => Some(view@),
                None => None,
            },
            places(rows@),
        ),
{
    if str_eq(path, "root") {
        if let Some(view) = view {
            return store.visible_indices(view);
        }
    }
    let mut rows: Vec<usize> = Vec::new();
    let n: usize = store.rows.len();
    for i in 0..n
        invariant
            n == store.rows@.len(),
            rows@.len() == i,
            forall|k: int| 0 <= k < i ==> #[trigger] rows@[k] == k,
    {
        rows.push(i);
    }
    assert(places(rows@) =~= Seq::new(store@.rows.len(), |i: int| i));
    rows
}

/// The first place of a row among those in sight.
pub open spec fn sight_place(visible: Seq<int>, row: int) -> Option<int>
    decreases visible.len(),
{
    if visible.len() == 0 {
        None
    } else if visible[0] == row {
        Some(0)
    } else {
        match sight_place(visible.drop_first(), row) {
            Some(i) => Some(i + 1),
            None => None,
        }
    }
}

/// The place in sight of the root row that a key opens under.
pub fn row_to_scroll_to(key: &str, visible: &Vec<usize>) -> (place: Option<usize>)
    ensures
        match root_row(key@) {
            Some(row) => match place {
                Some(i) => sight_place(places(visible@), row as int) == Some(i as int),
                None => sight_place(places(visible@), row as int) is None,
            },
            None => place is None,
        },
{
    let row: usize = match parse_root_row(key) {
        Some(row) => row,
        None => {
            return None;
        },
    };
    let n: usize = visible.len();
    let ghost all = places(visible@);
    assert(all.skip(0) =~= all);
    for i in 0..n
        invariant
            n == visible@.len(),
            all == places(visible@),
            root_row(key@) == Some(row as nat),
            sight_place(all, row as int) == match sight_place(all.skip(i as int), row as int) {
                Some(k) => Some(i + k),
                None => None,
            },
    {
        assert(all.skip(i as int)[0] == visible@[i as int] as int);
        assert(all.skip(i as int).drop_first() =~= all.skip(i + 1));
        if visible[i] == row {
            return Some(i);
        }
    }
    None
}

// ---------------------------------------------------------------------------------------
// The Variables panel

/// A line of the Variables panel.
#[derive(Debug)]
pub struct VariableLine {
    pub display: String,
    pub key: String,
    pub ty: String,
    pub text: String,
    /// Whether a store lies behind the value.
    pub nested: bool,
    pub open: bool,
    /// Whether a click on the name puts it into the editor.
    pub insertable: bool,
    pub indent: usize,
}

/// A line of the Variables panel as characters and numbers.
pub struct LineView {
    pub display: Seq<char>,
    pub key: Seq<char>,
    pub ty: Seq<char>,
    pub text: Seq<char>,
    pub nested: bool,
    pub open: bool,
    pub insertable: bool,
    pub indent: usize,
}

impl View for VariableLine {
    type V = LineView;

    open spec fn view(&self) -> LineView {
        LineView {
            display: self.display@,
            key: self.key@,
            ty: self.ty@,
            text: self.text@,
            nested: self.nested,
            open: self.open,
            insertable: self.insertable,
            indent: self.indent,
        }
    }
}

/// Lines as characters and numbers.
pub open spec fn variable_views(lines: Seq<VariableLine>) -> Seq<LineView> {
    lines.map_values(|line: VariableLine| line@)
}

/// A row's cell, an empty one where the row has no such cell.
pub open spec fn cell_or_empty(row: Seq<CellView>, col: int) -> CellView {
    if 0 <= col < row.len() {
        row[col]
    } else {
        empty_cell()
    }
}

/// The line of a value.
pub open spec fn value_line(
    display: Seq<char>,
    key: Seq<char>,
    ty: Seq<char>,
    value: CellView,
    insertable: bool,
    indent: usize,
    open: Set<Seq<char>>,
) -> LineView {
    LineView {
        display,
        key,
        ty,
        text: dashed(value.text),
        nested: value.nested is Some,
        open: open.contains(key),
        insertable,
        indent,
    }
}

/// One step further in, as far as numbers go.
pub open spec fn further_in(indent: usize) -> usize {
    if indent < usize::MAX {
        (indent + 1) as usize
    } else {
        indent
    }
}

/// What names a row of an opened value: its field, or its first cell.
pub open spec fn row_display(store: StoreView, row: Seq<CellView>) -> Seq<char> {
    if pairs_store(store) {
        text_or_empty(row, 0)
    } else if row.len() > 0 {
        row[0].text
    } else {
        "row"@
    }
}

/// The value of a row of an opened value.
pub open spec fn row_value(store: StoreView, row: Seq<CellView>) -> CellView {
    if pairs_store(store) {
        cell_or_empty(row, 1)
    } else {
        cell_or_empty(row, 0)
    }
}

/// The lines of the first rows of an opened value, each with the lines of what is open
/// below it.
pub open spec fn nested_lines(
    parent: Seq<char>,
    store: StoreView,
    n: nat,
    indent: usize,
    open: Set<Seq<char>>,
) -> Seq<LineView>
    decreases store, n,
{
    if n == 0 || n > store.rows.len() {
        Seq::empty()
    } else {
        let row = store.rows[n - 1];
        let display = row_display(store, row);
        let value = row_value(store, row);
        let key = parent + seq!['/'] + display;
        nested_lines(parent, store, (n - 1) as nat, indent, open).push(
            value_line(display, key, Seq::empty(), value, false, indent, open),
        ) + (if open.contains(key) && row.len() > 0 && value.nested is Some {
            nested_lines(
                key,
                value.nested->0,
                shown_count(value.nested->0),
                further_in(indent),
                open,
            )
        } else {
            Seq::empty()
        })
    }
}

/// The number of rows that an opened value shows.
pub open spec fn shown_count(store: StoreView) -> nat {
    if store.rows.len() < 80 {
        store.rows.len()
    } else {
        80
    }
}

/// The lines of the first variables, each with the lines of what is open below it.
pub open spec fn panel_lines(store: StoreView, n: nat, open: Set<Seq<char>>) -> Seq<LineView>
    decreases n,
{
    if n == 0 {
        Seq::empty()
    } else {
        let row = store.rows[n - 1];
        let name = text_or_empty(row, 0);
        let value = cell_or_empty(row, 2);
        panel_lines(store, (n - 1) as nat, open).push(
            value_line(name, name, text_or_empty(row, 1), value, true, 0, open),
        ) + (if open.contains(name) && value.nested is Some {
            nested_lines(name, value.nested->0, shown_count(value.nested->0), 1, open)
        } else {
            Seq::empty()
        })
    }
}

fn write_line(
    display: &str,
    key: &str,
    ty: &str,
    text: &str,
    nested: bool,
    insertable: bool,
    indent: usize,
    open: &KeySet,
) -> (line: VariableLine)
    ensures
        line@ == (LineView {
            display: display@,
            key: key@,
            ty: ty@,
            text: dashed(text@),
            nested,
            open: open@.contains(key@),
            insertable,
            indent,
        }),
{
    VariableLine {
        display: display.to_owned(),
        key: key.to_owned(),
        ty: ty.to_owned(),
        text: empty_dash(text),
        nested,
        open: open.contains(key),
        insertable,
        indent,
    }
}

proof fn lemma_nested_smaller(store: ResultStore, i: int, j: int)
    requires
        0 <= i < store.rows@.len(),
        0 <= j < store.rows@[i]@.len(),
        store.rows@[i]@[j].nested is Some,
    ensures
        decreases_to!(store => *store.rows@[i]@[j].nested->0),
{
    assert(decreases_to!(store => store.rows));
    assert(decreases_to!(store.rows => store.rows@));
    assert(decreases_to!(store.rows@ => store.rows@[i]));
    assert(decreases_to!(store.rows@[i] => store.rows@[i]@));
    assert(decreases_to!(store.rows@[i]@ => store.rows@[i]@[j]));
}

fn push_nested_lines(
    out: &mut Vec<VariableLine>,
    parent: &str,
    store: &ResultStore,
    indent: usize,
    open: &KeySet,
)
    ensures
        variable_views(final(out)@) == variable_views(old(out)@) + nested_lines(
            parent@,
            store@,
            shown_count(store@),
            indent,
            open@,
        ),
    decreases *store,
{
    let pairs = store.is_pairs();
    let n: usize = if store.rows.len() < 80 {
        store.rows.len()
    } else {
        80
    };
    let ghost start = variable_views(out@);
    assert(start =~= start + nested_lines(parent@, store@, 0, indent, open@));
    for i in 0..n
        invariant
            n <= store.rows@.len(),
            pairs == pairs_store(store@),
            variable_views(out@) == start + nested_lines(
                parent@,
                store@,
                i as nat,
                indent,
                open@,
            ),
    {
        let ghost view = store@.rows[i as int];
        let ghost before = nested_lines(parent@, store@, i as nat, indent, open@);
        let row = &store.rows[i];
        let col: usize = if pairs {
            1
        } else {
            0
        };
        let display = if row.len() > 0 {
            assert(view[0] == row@[0]@);
            row[0].text.clone()
        } else if pairs {
            String::new()
        } else {
            "row".to_owned()
        };
        assert(display@ == row_display(store@, view));
        let mut key = parent.to_owned();
        key.push('/');
        key.push_str(display.as_str());
        assert(key@ =~= parent@ + seq!['/'] + display@);
        proof {
            reveal_strlit("");
            assert(""@ =~= Seq::<char>::empty());
            if col < row@.len() {
                assert(view[col as int] == row@[col as int]@);
            }
        }
        let line = if col < row.len() {
            write_line(
                display.as_str(),
                key.as_str(),
                "",
                row[col].text.as_str(),
                row[col].is_nested(),
                false,
                indent,
                open,
            )
        } else {
            write_line(display.as_str(), key.as_str(), "", "", false, false, indent, open)
        };
        let ghost shown = line@;
        let ghost value = row_value(store@, view);
        assert(shown == value_line(
            display@,
            key@,
            Seq::empty(),
            value,
            false,
            indent,
            open@,
        ));
        let is_open = line.open;
        let ghost held = out@;
        out.push(line);
        assert(variable_views(out@) =~= variable_views(held).push(shown));
        assert(variable_views(out@) =~= start + before.push(shown));
        if is_open && col < row.len() {
            if let Some(nested) = &row[col].nested {
                proof {
                    lemma_nested_smaller(*store, i as int, col as int);
                    assert(value.nested == Some(nested@));
                }
                let deeper: usize = if indent < usize::MAX {
                    indent + 1
                } else {
                    indent
                };
                push_nested_lines(out, key.as_str(), nested, deeper, open);
            }
        }
        assert(variable_views(out@) =~= start + nested_lines(
            parent@,
            store@,
            (i + 1) as nat,
            indent,
            open@,
        ));
    }
}

/// The lines of the Variables panel.
pub fn variable_lines(store: &ResultStore, open: &KeySet) -> (out: Vec<VariableLine>)
    ensures
        variable_views(out@) == panel_lines(store@, store@.rows.len(), open@),
{
    let mut out: Vec<VariableLine> = Vec::new();
    let n: usize = store.rows.len();
    assert(variable_views(out@) =~= Seq::empty());
    for i in 0..n
        invariant
            n == store.rows@.len(),
            variable_views(out@) == panel_lines(store@, i as nat, open@),
    {
        let ghost view = store@.rows[i as int];
        let row = &store.rows[i];
        let name = cell_text_at(row, 0, Ghost(view));
        let ty = cell_text_at(row, 1, Ghost(view));
        proof {
            reveal_strlit("");
            assert(""@ =~= Seq::<char>::empty());
            if 2 < row@.len() {
                assert(view[2] == row@[2]@);
            }
        }
        let line = if 2 < row.len() {
            write_line(
                name.as_str(),
                name.as_str(),
                ty.as_str(),
                row[2].text.as_str(),
                row[2].is_nested(),
                true,
                0,
                open,
            )
        } else {
            write_line(name.as_str(), name.as_str(), ty.as_str(), "", false, true, 0, open)
        };
        let ghost shown = line@;
        let ghost before = panel_lines(store@, i as nat, open@);
        let is_open = line.open;
        let ghost held = out@;
        out.push(line);
        assert(variable_views(out@) =~= variable_views(held).push(shown));
        if is_open && 2 < row.len() {
            if let Some(nested) = &row[2].nested {
                assert(cell_or_empty(view, 2).nested == Some(nested@));
                push_nested_lines(&mut out, name.as_str(), nested, 1, open);
            }
        }
        assert(variable_views(out@) =~= panel_lines(store@, (i + 1) as nat, open@));
    }
    out
}

/// What the Variables panel says above its list.
pub open spec fn variables_words(store: StoreView) -> Seq<char> {
    if store.columns.len() > 0 && store.columns[0] == "error"@ {
        if store.rows.len() > 0 && store.rows[0].len() > 0 {
            "error: "@ + store.rows[0][0].text
        } else {
            "Variables query failed"@
        }
    } else if store.rows.len() == 0 {
        "Loading `scope variables`…"@
    } else {
        decimal(store.rows.len()) + " bindings · click name to insert, ▸ to expand"@
    }
}

/// What the Variables panel says above its list.
pub fn variables_label(store: &ResultStore) -> (label: String)
    ensures
        label@ == variables_words(store@),
{
    proof {
        lemma_store_view(*store);
    }
    if store.columns.len() > 0 && str_eq(store.columns[0].as_str(), "error") {
        assert(store@.columns[0] == store.columns@[0]@);
        if store.rows.len() > 0 && store.rows[0].len() > 0 {
            assert(store@.rows[0][0] == store.rows@[0]@[0]@);
            let mut label = "error: ".to_owned();
            label.push_str(store.rows[0][0].text.as_str());
            return label;
        }
        return "Variables query failed".to_owned();
    }
    assert(store.columns@.len() > 0 ==> store@.columns[0] == store.columns@[0]@);
    if store.row_count() == 0 {
        return "Loading `scope variables`…".to_owned();
    }
    let mut label = decimal_usize(store.row_count());
    label.push_str(" bindings · click name to insert, ▸ to expand");
    label
}

/// With nothing open the Variables panel shows one line for each variable.
pub proof fn law_closed_variables_show_one_line_each(store: StoreView, n: nat)
    requires
        n <= store.rows.len(),
    ensures
        panel_lines(store, n, Set::empty()).len() == n,
    decreases n,
{
    if n > 0 {
        law_closed_variables_show_one_line_each(store, (n - 1) as nat);
    }
}

// ---------------------------------------------------------------------------------------
// Opened tables

/// What stands above a store that is open: a name and the size.
pub open spec fn title_words(name: Seq<char>, store: StoreView) -> Seq<char> {
    name + " · "@ + size_words(store)
}

/// What stands above a store that is open.
pub fn title_label(name: &str, store: &ResultStore) -> (label: String)
    ensures
        label@ == title_words(name@, store@),
{
    let mut label = name.to_owned();
    label.push_str(" · ");
    label.push_str(size_label(store).as_str());
    label
}

/// What an opened table draws, from top to bottom.
#[derive(Debug)]
pub enum InspectItem {
    /// A row of the store: its place, its number, and whether it is one of every other.
    Row { row: usize, number: String, even: bool },
    /// The store behind a cell of the row above, by its key.
    Nested { row: usize, col: usize, key: String },
}

/// What an opened table draws as characters and numbers.
pub enum InspectView {
    Row { row: nat, number: Seq<char>, even: bool },
    Nested { row: nat, col: nat, key: Seq<char> },
}

impl View for InspectItem {
    type V = InspectView;

    open spec fn view(&self) -> InspectView {
        match *self {
            InspectItem::Row { row, number, even } => InspectView::Row {
                row: row as nat,
                number: number@,
                even,
            },
            InspectItem::Nested { row, col, key } => InspectView::Nested {
                row: row as nat,
                col: col as nat,
                key: key@,
            },
        }
    }
}

/// Items as characters and numbers.
pub open spec fn inspect_views(items: Seq<InspectItem>) -> Seq<InspectView> {
    items.map_values(|item: InspectItem| item@)
}

/// The stores that are open behind the first cells of a row.
pub open spec fn open_below(
    store: StoreView,
    path: Seq<char>,
    row: int,
    cols: nat,
    open: Set<Seq<char>>,
) -> Seq<InspectView>
    decreases cols,
{
    if cols == 0 {
        Seq::empty()
    } else {
        let col = (cols - 1) as nat;
        let before = open_below(store, path, row, col, open);
        let key = path_key(path, row as nat, col);
        if open.contains(key) && col < store.rows[row].len() && store.rows[row][col as int].nested
            is Some {
            before.push(InspectView::Nested { row: row as nat, col, key })
        } else {
            before
        }
    }
}

/// What an opened table draws for some rows: each row with what is open below it. A row
/// that the store lacks is passed over.
pub open spec fn inspect_list(
    store: StoreView,
    path: Seq<char>,
    rows: Seq<int>,
    open: Set<Seq<char>>,
) -> Seq<InspectView>
    decreases rows.len(),
{
    if rows.len() == 0 {
        Seq::empty()
    } else {
        let before = inspect_list(store, path, rows.drop_last(), open);
        let row = rows.last();
        if 0 <= row < store.rows.len() {
            before.push(
                InspectView::Row {
                    row: row as nat,
                    number: decimal((row + 1) as nat),
                    even: (rows.len() - 1) % 2 == 0,
                },
            ) + open_below(store, path, row, store.columns.len(), open)
        } else {
            before
        }
    }
}

/// What an opened table draws for some rows.
pub fn inspect_items(
    store: &ResultStore,
    path: &str,
    rows: &Vec<usize>,
    open: &KeySet,
) -> (out: Vec<InspectItem>)
    ensures
        inspect_views(out@) == inspect_list(store@, path@, places(rows@), open@),
{
    let ghost all = places(rows@);
    let mut out: Vec<InspectItem> = Vec::new();
    let n: usize = rows.len();
    let m: usize = store.columns.len();
    assert(inspect_views(out@) =~= Seq::empty());
    assert(all.take(0) =~= Seq::empty());
    assert(store@.columns.len() == m);
    for i in 0..n
        invariant
            n == rows@.len(),
            m == store@.columns.len(),
            all == places(rows@),
            inspect_views(out@) == inspect_list(store@, path@, all.take(i as int), open@),
    {
        let row: usize = rows[i];
        assert(all.take(i + 1).drop_last() =~= all.take(i as int));
        assert(all.take(i + 1).last() == row as int);
        if row < store.rows.len() {
            let ghost before = inspect_views(out@);
            let item = InspectItem::Row {
                row,
                number: decimal_usize(row + 1),
                even: i % 2 == 0,
            };
            let ghost first = item@;
            let ghost held = out@;
            out.push(item);
            assert(inspect_views(out@) =~= before.push(first) + open_below(
                store@,
                path@,
                row as int,
                0,
                open@,
            ));
            for col in 0..m
                invariant
                    row < store.rows@.len(),
                    inspect_views(out@) == before.push(first) + open_below(
                        store@,
                        path@,
                        row as int,
                        col as nat,
                        open@,
                    ),
            {
                let key = table_path_key(path, row, col);
                let ghost told = key@;
                let ghost below = open_below(store@, path@, row as int, col as nat, open@);
                if col < store.rows[row].len() {
                    assert(store@.rows[row as int][col as int] == store.rows@[row as int]@[col as int]@);
                    if open.contains(key.as_str()) && store.rows[row][col].is_nested() {
                        let ghost held = out@;
                        let nested = InspectItem::Nested { row, col, key };
                        let ghost shown = nested@;
                        out.push(nested);
                        assert(inspect_views(out@) =~= inspect_views(held).push(shown));
                        assert(inspect_views(out@) =~= before.push(first) + below.push(shown));
                    }
                }
            }
        }
    }
    assert(all.take(n as int) =~= all);
    out
}

// ---------------------------------------------------------------------------------------
// Lines that scroll

/// A line as it is drawn: a blank stands for an empty one where the text has no escape
/// sequences.
pub open spec fn drawn_line(line: Seq<char>, styled: bool) -> Seq<char> {
    if !styled && line.len() == 0 {
        " "@
    } else {
        line
    }
}

/// The lines that are drawn of a text, at least one.
pub open spec fn drawn_lines(lines: Seq<Seq<char>>, styled: bool) -> Seq<Seq<char>> {
    if lines.len() == 0 {
        seq![drawn_line(Seq::empty(), styled)]
    } else {
        Seq::new(lines.len(), |i: int| drawn_line(lines[i], styled))
    }
}

fn draw_line(line: &str, styled: bool) -> (out: String)
    ensures
        out@ == drawn_line(line@, styled),
{
    if !styled && line.is_empty() {
        " ".to_owned()
    } else {
        line.to_owned()
    }
}

/// The lines that are drawn of a text.
pub fn scroll_lines(text_lines: &Vec<String>, styled: bool) -> (out: Vec<String>)
    ensures
        texts(out@) == drawn_lines(texts(text_lines@), styled),
{
    let ghost want = drawn_lines(texts(text_lines@), styled);
    let mut out: Vec<String> = Vec::new();
    let n: usize = text_lines.len();
    assert(texts(text_lines@).len() == n);
    if n == 0 {
        proof {
            reveal_strlit("");
            assert(""@ =~= Seq::<char>::empty());
        }
        out.push(draw_line("", styled));
        assert(texts(out@) =~= want);
        return out;
    }
    for i in 0..n
        invariant
            n == text_lines@.len(),
            n == want.len(),
            want == Seq::new(n as nat, |i: int| drawn_line(texts(text_lines@)[i], styled)),
            out@.len() == i,
            forall|k: int| 0 <= k < i ==> (#[trigger] out@[k])@ == want[k],
    {
        assert(texts(text_lines@)[i as int] == text_lines@[i as int]@);
        out.push(draw_line(text_lines[i].as_str(), styled));
    }
    assert(texts(out@) =~= want);
    out
}

/// Large tables stay virtual, and records as pairs never are.
pub proof fn law_large_tables_are_virtual_and_pairs_are_not(store: StoreView)
    ensures
        is_large(store) ==> body_look_of(BodyView::Table(store)) == BodyLook::Virtual,
        pairs_store(store) ==> body_look_of(BodyView::Table(store)) == BodyLook::Expandable,
{
}

// ---------------------------------------------------------------------------------------
// Laws on panels

/// The Help panel shows of each command the name, the category, the type and the description
/// of one and the same row.
pub proof fn law_help_rows_stay_together(store: StoreView, filter: Seq<char>, n: nat, i: int)
    requires
        n <= store.rows.len(),
        0 <= i < help_list(store, filter, n).len(),
    ensures
        exists|row: int|
            #![trigger store.rows[row]]
            0 <= row < n && (filter.len() == 0 || holds_text(store.rows[row], filter))
                && help_list(store, filter, n)[i].name == text_or_empty(store.rows[row], 0)
                && help_list(store, filter, n)[i].category == text_or_empty(store.rows[row], 1)
                && help_list(store, filter, n)[i].kind == text_or_empty(store.rows[row], 2)
                && help_list(store, filter, n)[i].description == text_or_empty(store.rows[row], 3),
    decreases n,
{
    if n > 0 {
        let before = help_list(store, filter, (n - 1) as nat);
        let all = help_list(store, filter, n);
        if i < before.len() {
            assert(all[i] == before[i]);
            law_help_rows_stay_together(store, filter, (n - 1) as nat, i);
        } else {
            let row = store.rows[n - 1];
            assert(all[i].name == text_or_empty(row, 0));
        }
    }
}

/// The text of a cell that a row lacks is empty, and any other is the cell's own.
pub proof fn law_missing_cells_are_empty(row: Seq<CellView>, col: int)
    ensures
        0 <= col < row.len() ==> text_or_empty(row, col) == row[col].text,
        !(0 <= col < row.len()) ==> text_or_empty(row, col).len() == 0,
{
}

/// The History panel shows the newest source first, each older one below, at most fifty.
pub proof fn law_history_runs_backwards(history: Seq<Seq<char>>, source: Seq<char>, i: int)
    ensures
        newest(history.push(source)).len() > 0,
        newest(history.push(source))[0] == source,
        newest(history).len() <= 50 && newest(history).len() <= history.len(),
        history.len() <= 50 ==> newest(history).len() == history.len(),
        0 <= i < newest(history).len() && i < 49 ==> newest(history.push(source))[i + 1] == newest(
            history,
        )[i],
{
}

/// With nothing open each line of the Variables panel tells the name, the type and the value
/// of its own variable.
pub proof fn law_closed_variables_tell_their_row(store: StoreView, n: nat, i: int)
    requires
        n <= store.rows.len(),
        0 <= i < n,
    ensures
        panel_lines(store, n, Set::empty()).len() == n,
        ({
            let line = panel_lines(store, n, Set::empty())[i];
            let row = store.rows[i];
            &&& line.display == text_or_empty(row, 0) && line.key == text_or_empty(row, 0)
            &&& line.ty == text_or_empty(row, 1)
            &&& row.len() > 2 ==> line.text == dashed(row[2].text) && line.nested == (
            row[2].nested is Some)
            &&& row.len() <= 2 ==> line.text == "—"@ && !line.nested
            &&& line.insertable && line.indent == 0 && !line.open
        }),
    decreases n,
{
    law_closed_variables_show_one_line_each(store, n);
    law_closed_variables_show_one_line_each(store, (n - 1) as nat);
    let before = panel_lines(store, (n - 1) as nat, Set::empty());
    let all = panel_lines(store, n, Set::empty());
    assert(trimmed(Seq::<char>::empty()).len() == 0);
    if i < n - 1 {
        law_closed_variables_tell_their_row(store, (n - 1) as nat, i);
        assert(all[i] == before[i]);
    } else {
        let row = store.rows[i];
        let name = text_or_empty(row, 0);
        let line = value_line(
            name,
            name,
            text_or_empty(row, 1),
            cell_or_empty(row, 2),
            true,
            0,
            Set::empty(),
        );
        assert(all =~= before.push(line));
    }
}

/// The fields of an opened variable stand below it, each with its own name and value, one
/// step further in, under the key of the variable and the field.
pub proof fn law_opened_fields_tell_their_row(
    parent: Seq<char>,
    store: StoreView,
    n: nat,
    indent: usize,
    i: int,
)
    requires
        n <= store.rows.len(),
        0 <= i < n,
        pairs_store(store),
        forall|k: int| 0 <= k < store.rows.len() ==> (#[trigger] store.rows[k]).len() == 2,
    ensures
        nested_lines(parent, store, n, indent, Set::empty()).len() == n,
        ({
            let line = nested_lines(parent, store, n, indent, Set::empty())[i];
            &&& line.display == store.rows[i][0].text
            &&& line.key == parent + seq!['/'] + store.rows[i][0].text
            &&& line.text == dashed(store.rows[i][1].text)
            &&& line.nested == (store.rows[i][1].nested is Some)
            &&& line.indent == indent && !line.insertable && !line.open
        }),
    decreases n,
{
    lemma_nested_lines_len(parent, store, n, indent);
    lemma_nested_lines_len(parent, store, (n - 1) as nat, indent);
    let none = Set::<Seq<char>>::empty();
    let before = nested_lines(parent, store, (n - 1) as nat, indent, none);
    let all = nested_lines(parent, store, n, indent, none);
    assert(store.rows[i].len() == 2);
    assert(all =~= before.push(all[n - 1]));
    if i < n - 1 {
        law_opened_fields_tell_their_row(parent, store, (n - 1) as nat, indent, i);
        assert(all[i] == before[i]);
    }
}

proof fn lemma_nested_lines_len(parent: Seq<char>, store: StoreView, n: nat, indent: usize)
    requires
        n <= store.rows.len(),
    ensures
        nested_lines(parent, store, n, indent, Set::empty()).len() == n,
    decreases n,
{
    if n > 0 {
        lemma_nested_lines_len(parent, store, (n - 1) as nat, indent);
    }
}

/// An opened variable shows its own line and below it the lines of its fields, before the
/// next variable.
pub proof fn law_open_variables_show_their_fields(
    store: StoreView,
    n: nat,
    open: Set<Seq<char>>,
)
    requires
        0 < n <= store.rows.len(),
        store.rows[n - 1].len() > 2,
        store.rows[n - 1][2].nested is Some,
        store.rows[n - 1][2].nested->0.rows.len() <= 80,
        open.contains(store.rows[n - 1][0].text),
    ensures
        ({
            let before = panel_lines(store, (n - 1) as nat, open);
            let all = panel_lines(store, n, open);
            let inner = store.rows[n - 1][2].nested->0;
            &&& all.take(before.len() as int) == before
            &&& all[before.len() as int].display == store.rows[n - 1][0].text
            &&& all[before.len() as int].open
            &&& all.skip(before.len() as int + 1) == nested_lines(
                store.rows[n - 1][0].text,
                inner,
                inner.rows.len(),
                1,
                open,
            )
        }),
{
    let before = panel_lines(store, (n - 1) as nat, open);
    let all = panel_lines(store, n, open);
    let inner = store.rows[n - 1][2].nested->0;
    let name = store.rows[n - 1][0].text;
    assert(all.take(before.len() as int) =~= before);
    assert(all.skip(before.len() as int + 1) =~= nested_lines(
        name,
        inner,
        inner.rows.len(),
        1,
        open,
    ));
}

/// With nothing open an opened table draws one item for each row, in their order, with the
/// number of the row in the store and every other one marked.
pub proof fn law_rows_are_drawn_in_order(store: StoreView, path: Seq<char>, rows: Seq<int>, i: int)
    requires
        forall|k: int| 0 <= k < rows.len() ==> 0 <= #[trigger] rows[k] < store.rows.len(),
        0 <= i < rows.len(),
    ensures
        inspect_list(store, path, rows, Set::empty()).len() == rows.len(),
        inspect_list(store, path, rows, Set::empty())[i] == (InspectView::Row {
            row: rows[i] as nat,
            number: decimal((rows[i] + 1) as nat),
            even: i % 2 == 0,
        }),
    decreases rows.len(),
{
    let front = rows.drop_last();
    let row = rows.last();
    let none = Set::<Seq<char>>::empty();
    assert forall|k: int| 0 <= k < front.len() implies 0 <= #[trigger] front[k]
        < store.rows.len() by {
        assert(front[k] == rows[k]);
    }
    assert(0 <= rows[rows.len() - 1] < store.rows.len());
    lemma_nothing_below(store, path, row, store.columns.len());
    lemma_rows_drawn(store, path, front);
    let before = inspect_list(store, path, front, none);
    let all = inspect_list(store, path, rows, none);
    assert(all =~= before.push(all[before.len() as int]));
    if i < front.len() {
        law_rows_are_drawn_in_order(store, path, front, i);
        assert(all[i] == before[i]);
    }
}

proof fn lemma_rows_drawn(store: StoreView, path: Seq<char>, rows: Seq<int>)
    requires
        forall|k: int| 0 <= k < rows.len() ==> 0 <= #[trigger] rows[k] < store.rows.len(),
    ensures
        inspect_list(store, path, rows, Set::empty()).len() == rows.len(),
    decreases rows.len(),
{
    if rows.len() > 0 {
        let front = rows.drop_last();
        assert forall|k: int| 0 <= k < front.len() implies 0 <= #[trigger] front[k]
            < store.rows.len() by {
            assert(front[k] == rows[k]);
        }
        assert(0 <= rows[rows.len() - 1] < store.rows.len());
        lemma_rows_drawn(store, path, front);
        lemma_nothing_below(store, path, rows.last(), store.columns.len());
    }
}

proof fn lemma_nothing_below(store: StoreView, path: Seq<char>, row: int, cols: nat)
    ensures
        open_below(store, path, row, cols, Set::empty()).len() == 0,
    decreases cols,
{
    if cols > 0 {
        lemma_nothing_below(store, path, row, (cols - 1) as nat);
    }
}

/// Below a row stand exactly the stores behind its open cells, by their keys.
pub proof fn law_open_cells_are_drawn_below(
    store: StoreView,
    path: Seq<char>,
    row: int,
    cols: nat,
    open: Set<Seq<char>>,
    col: nat,
)
    requires
        col < cols,
    ensures
        open.contains(path_key(path, row as nat, col)) && col < store.rows[row].len()
            && store.rows[row][col as int].nested is Some <==> open_below(
            store,
            path,
            row,
            cols,
            open,
        ).contains(
            InspectView::Nested { row: row as nat, col, key: path_key(path, row as nat, col) },
        ),
    decreases cols,
{
    let last = (cols - 1) as nat;
    let item = InspectView::Nested { row: row as nat, col, key: path_key(path, row as nat, col) };
    let before = open_below(store, path, row, last, open);
    let all = open_below(store, path, row, cols, open);
    if col < last {
        law_open_cells_are_drawn_below(store, path, row, last, open, col);
        if before.contains(item) {
            let k = choose|k: int| 0 <= k < before.len() && before[k] == item;
            assert(all[k] == item);
        }
        if all.contains(item) {
            let k = choose|k: int| 0 <= k < all.len() && all[k] == item;
            if k < before.len() {
                assert(before[k] == item);
            }
        }
    } else {
        lemma_below_columns(store, path, row, last, open);
        if all.contains(item) {
            let k = choose|k: int| 0 <= k < all.len() && all[k] == item;
            if k < before.len() {
                assert(before[k]->Nested_col < last);
            }
        }
        if open.contains(path_key(path, row as nat, col)) && col < store.rows[row].len()
            && store.rows[row][col as int].nested is Some {
            assert(all[all.len() - 1] == item);
        }
    }
}

proof fn lemma_below_columns(
    store: StoreView,
    path: Seq<char>,
    row: int,
    cols: nat,
    open: Set<Seq<char>>,
)
    ensures
        forall|k: int|
            0 <= k < open_below(store, path, row, cols, open).len() ==> (#[trigger] open_below(
                store,
                path,
                row,
                cols,
                open,
            )[k]) is Nested && open_below(store, path, row, cols, open)[k]->Nested_col < cols,
    decreases cols,
{
    if cols > 0 {
        lemma_below_columns(store, path, row, (cols - 1) as nat, open);
        let before = open_below(store, path, row, (cols - 1) as nat, open);
        let all = open_below(store, path, row, cols, open);
        assert forall|k: int| 0 <= k < all.len() implies (#[trigger] all[k]) is Nested
            && all[k]->Nested_col < cols by {
            if k < before.len() {
                assert(all[k] == before[k]);
            }
        }
    }
}

/// A cell is a control where a store lies behind it, styled where its text has escape
/// sequences, source where its column or its text says so, and plain otherwise; a blank one
/// is plain.
pub proof fn law_cells_are_drawn_by_what_they_hold(column: Seq<char>, cell: CellView)
    ensures
        look_of(column, cell) == CellLook::Nested <==> cell.nested is Some,
        cell.nested is None && trimmed(cell.text).len() > 0 && ansi_like(cell.text) ==> look_of(
            column,
            cell,
        ) == CellLook::Ansi,
        cell.nested is None && trimmed(cell.text).len() > 0 && !ansi_like(cell.text) && (
        code_column(column) || trimmed(cell.text)[0] == '[' || trimmed(cell.text)[0] == '{'
            || occurs_in(trimmed(cell.text), " | "@)) ==> look_of(column, cell)
            == CellLook::Highlighted,
        cell.nested is None && (trimmed(cell.text).len() == 0 || (!ansi_like(cell.text)
            && !code_column(column) && trimmed(cell.text)[0] != '[' && trimmed(cell.text)[0] != '{'
            && !occurs_in(trimmed(cell.text), " | "@))) ==> look_of(column, cell)
            == CellLook::Plain,
{
}

/// A text of several lines scrolls, a diagnostic in the color of danger, and what fits on a
/// line is a line; a table with nested cells that is not large opens below its rows.
pub proof fn law_bodies_are_drawn_by_what_they_hold(text: Seq<char>, store: StoreView)
    ensures
        text.contains('\n') ==> body_look_of(BodyView::Scalar(text)) == BodyLook::Lines,
        !text.contains('\n') ==> body_look_of(BodyView::Scalar(text)) == BodyLook::Line,
        body_look_of(BodyView::Text(text)) == BodyLook::Lines,
        body_look_of(BodyView::Diagnostic(text)) == BodyLook::Danger,
        body_look_of(BodyView::Empty) == BodyLook::Nothing,
        nests(store) && store.rows.len() <= 64 ==> body_look_of(BodyView::Table(store))
            == BodyLook::Expandable,
        !nests(store) && !pairs_store(store) ==> body_look_of(BodyView::Table(store))
            == BodyLook::Virtual,
{
}

/// The first place of a row in sight is found, and a row out of sight is not.
pub proof fn law_rows_are_found_in_sight(visible: Seq<int>, row: int)
    ensures
        match sight_place(visible, row) {
            Some(i) => 0 <= i < visible.len() && visible[i] == row && forall|k: int|
                0 <= k < i ==> #[trigger] visible[k] != row,
            None => !visible.contains(row),
        },
    decreases visible.len(),
{
    if visible.len() > 0 && visible[0] != row {
        let rest = visible.drop_first();
        law_rows_are_found_in_sight(rest, row);
        if let Some(i) = sight_place(rest, row) {
            assert forall|k: int| 0 <= k < i + 1 implies #[trigger] visible[k] != row by {
                if k > 0 {
                    assert(rest[k - 1] == visible[k]);
                }
            }
        } else {
            assert forall|k: int| 0 <= k < visible.len() implies visible[k] != row by {
                if k > 0 {
                    assert(rest.contains(rest[k - 1]));
                }
            }
        }
    }
}

// ---------------------------------------------------------------------------------------
// Laws on labels

/// The Help panel counts what it lists once the commands are there, and says that it waits
/// before that.
pub proof fn law_help_counts_its_commands(store: StoreView, listed: nat)
    ensures
        store.rows.len() > 0 ==> help_words(store, listed) == decimal(listed)
            + " commands · click to insert"@,
        store.rows.len() == 0 ==> help_words(store, listed) == "Loading `scope commands`…"@,
{
}

/// The Variables panel counts its variables, tells an error of the query with its message,
/// and says that it waits while there is nothing.
pub proof fn law_variables_panel_counts_or_tells_the_error(store: StoreView, message: Seq<char>)
    ensures
        store.columns.len() > 0 && store.columns[0] == "error"@ && store.rows.len() > 0
            && store.rows[0].len() > 0 && store.rows[0][0].text == message ==> variables_words(
            store,
        ) == "error: "@ + message,
        store.columns.len() > 0 && store.columns[0] == "error"@ && (store.rows.len() == 0
            || store.rows[0].len() == 0) ==> variables_words(store) == "Variables query failed"@,
        !(store.columns.len() > 0 && store.columns[0] == "error"@) && store.rows.len() > 0
            ==> variables_words(store) == decimal(store.rows.len())
            + " bindings · click name to insert, ▸ to expand"@,
        !(store.columns.len() > 0 && store.columns[0] == "error"@) && store.rows.len() == 0
            ==> variables_words(store) == "Loading `scope variables`…"@,
{
}

/// The REPL bar shows the error of the last report before anything else, is ready for a
/// source that is complete, and is incomplete for any other and while there is no report;
/// the status bar says the same in its own words.
pub proof fn law_reports_are_told(report: ParseView, error: Seq<char>)
    ensures
        report.error == Some(error) ==> parse_words(Some(report)) == error && parse_status_words(
            Some(report),
        ) == "parse error"@,
        report.error is None && report.complete ==> parse_words(Some(report)) == "ready"@
            && parse_status_words(Some(report)) == "parse ok"@,
        report.error is None && !report.complete ==> parse_words(Some(report)) == "incomplete"@
            && parse_status_words(Some(report)) == "incomplete"@,
        parse_words(None) == "incomplete"@,
        parse_status_words(None) == "parse …"@,
{
}

/// The status bar says whether the engine is at work, with the path of its configuration
/// where there is one, the last exit code with its sign, and the rows in sight before all.
pub proof fn law_status_bar_tells_the_state(
    busy: bool,
    path: Seq<char>,
    code: i64,
    visible: nat,
    total: nat,
)
    ensures
        engine_words(true, Seq::empty()) == "busy"@,
        engine_words(false, Seq::empty()) == "idle"@,
        path.len() > 0 ==> engine_words(busy, path) == engine_words(busy, Seq::empty()) + " · "@
            + path,
        exit_words(Some(code)) == "exit "@ + signed_decimal(code as int),
        exit_words(None).len() == 0,
        rows_words(visible, total) == decimal(visible) + " / "@ + decimal(total) + " rows"@,
{
}

/// The line above a table tells how many fields a table of pairs has, how many rows any
/// other, and how many of all are in sight; the title adds the size to the name.
pub proof fn law_tables_tell_their_size(
    store: StoreView,
    name: Seq<char>,
    visible: nat,
    total: nat,
)
    ensures
        pairs_store(store) ==> expandable_words(store) == decimal(store.rows.len()) + " fields"@
            + " · click ▸ to expand under the row"@,
        !pairs_store(store) ==> expandable_words(store) == decimal(store.rows.len()) + " rows"@
            + " · click ▸ to expand under the row"@,
        virtual_words(visible, total) == decimal(visible) + " of "@ + decimal(total)
            + " rows · filter to find a command, ▸ expands below"@,
        !is_block(store) ==> title_words(name, store) == name + " · "@ + (decimal(store.rows.len())
            + " rows × "@ + decimal(store.columns.len()) + " cols"@),
        is_block(store) && lines_of(store.rows[0][0].text).len() == 1 ==> title_words(name, store)
            == name + " · "@ + "1 line"@,
        is_block(store) && lines_of(store.rows[0][0].text).len() != 1 ==> title_words(name, store)
            == name + " · "@ + (decimal(lines_of(store.rows[0][0].text).len()) + " lines"@),
{
}

/// A control points down while it is open and to the right while it is not, before its label;
/// a blank text is a dash and no other text is touched.
pub proof fn law_controls_point_the_way(label: Seq<char>)
    ensures
        control(true, label) == seq!['▾', ' '] + label,
        control(false, label) == seq!['▸', ' '] + label,
        trimmed(label).len() > 0 ==> dashed(label) == label,
        trimmed(label).len() == 0 ==> dashed(label) == seq!['—'],
{
    reveal_strlit("▾ ");
    reveal_strlit("▸ ");
    reveal_strlit("—");
    assert("▾ "@ =~= seq!['▾', ' ']);
    assert("▸ "@ =~= seq!['▸', ' ']);
    assert("—"@ =~= seq!['—']);
}

/// The name of an element keeps letters, digits, `_` and `-` of a text and has `_` for any
/// other character.
pub proof fn law_element_names_are_plain(text: Seq<char>, i: int)
    requires
        0 <= i < text.len(),
    ensures
        key_of(text).len() == text.len(),
        'a' <= text[i] <= 'z' || 'A' <= text[i] <= 'Z' || '0' <= text[i] <= '9' || text[i] == '_'
            || text[i] == '-' ==> key_of(text)[i] == text[i],
        !('a' <= text[i] <= 'z' || 'A' <= text[i] <= 'Z' || '0' <= text[i] <= '9' || text[i] == '_'
            || text[i] == '-') ==> key_of(text)[i] == '_',
{
}

/// Columns of code and values take the largest share and the widest limits, names the
/// smallest share.
pub proof fn law_wide_columns_get_the_room(name: Seq<char>)
    ensures
        name == "value"@ || name == "result"@ || name == "example"@ || name == "examples"@ || name
            == "source"@ || name == "code"@ || name == "command"@ <==> flex_weight(name) == 4,
        name == "field"@ || name == "name"@ || name == "type"@ || name == "kind"@
            <==> flex_weight(name) == 1,
        flex_weight(name) == 4 || flex_weight(name) == 2 || flex_weight(name) == 1,
        name == "value"@ || code_column(name) ==> width_limits(name) == (280u16, 720u16),
        name != "value"@ && name != "result"@ && !code_column(name) ==> width_limits(name) == (
            88u16,
            360u16,
        ),
{
    reveal_strlit("value");
    reveal_strlit("result");
    reveal_strlit("example");
    reveal_strlit("examples");
    reveal_strlit("source");
    reveal_strlit("code");
    reveal_strlit("command");
    reveal_strlit("field");
    reveal_strlit("name");
    reveal_strlit("type");
    reveal_strlit("kind");
    assert("value"@[0] == 'v' && "result"@[0] == 'r' && "example"@[0] == 'e' && "examples"@[0]
        == 'e' && "source"@[0] == 's' && "code"@[0] == 'c' && "command"@[0] == 'c');
    assert("field"@[0] == 'f' && "name"@[0] == 'n' && "type"@[0] == 't' && "kind"@[0] == 'k');
}

/// Tables and texts of several lines take the room that is left, other bodies do not.
pub proof fn law_tables_and_texts_fill_the_room(text: Seq<char>, store: StoreView)
    ensures
        body_fills(BodyView::Table(store)),
        body_fills(BodyView::Text(text)),
        body_fills(BodyView::Diagnostic(text)),
        !body_fills(BodyView::Scalar(text)),
        !body_fills(BodyView::Empty),
{
}

/// The opened root table draws the rows that the view shows; any other table, and one without
/// a view, draws all of its rows in their order.
pub proof fn law_only_the_root_goes_by_the_view(
    store: StoreView,
    path: Seq<char>,
    look: TableLook,
    rows: Seq<int>,
    i: int,
)
    ensures
        drawn_rows(store, "root"@, Some(look), rows) <==> listed(store, look, rows),
        path != "root"@ && drawn_rows(store, path, Some(look), rows) ==> rows.len()
            == store.rows.len() && (0 <= i < rows.len() ==> rows[i] == i),
        drawn_rows(store, path, None, rows) ==> rows.len() == store.rows.len() && (0 <= i
            < rows.len() ==> rows[i] == i),
{
}

/// The rows of an opened list are named by their first cell, which is their value too.
pub proof fn law_opened_rows_are_named_by_their_first_cell(store: StoreView, row: Seq<CellView>)
    ensures
        !pairs_store(store) && row.len() > 0 ==> row_display(store, row) == row[0].text
            && row_value(store, row) == row[0],
        !pairs_store(store) && row.len() == 0 ==> row_display(store, row) == "row"@,
        pairs_store(store) && row.len() > 1 ==> row_display(store, row) == row[0].text
            && row_value(store, row) == row[1],
{
}

/// An opened value shows its first eighty rows at most, and what is open in it lies one step
/// further in.
pub proof fn law_opened_values_show_eighty_rows(store: StoreView, indent: usize)
    ensures
        shown_count(store) <= 80 && shown_count(store) <= store.rows.len(),
        store.rows.len() <= 80 ==> shown_count(store) == store.rows.len(),
        store.rows.len() >= 80 ==> shown_count(store) == 80,
        indent < usize::MAX ==> further_in(indent) == indent + 1,
{
}

/// Below the line of an open field stand the lines of its own rows, one step further in and
/// under its key.
pub proof fn law_open_fields_show_their_rows(
    parent: Seq<char>,
    store: StoreView,
    n: nat,
    indent: usize,
    open: Set<Seq<char>>,
    key: Seq<char>,
)
    requires
        0 < n <= store.rows.len(),
        pairs_store(store),
        store.rows[n - 1].len() == 2,
        store.rows[n - 1][1].nested is Some,
        store.rows[n - 1][1].nested->0.rows.len() <= 80,
        key == parent + seq!['/'] + store.rows[n - 1][0].text,
        indent < usize::MAX,
    ensures
        ({
            let before = nested_lines(parent, store, (n - 1) as nat, indent, open);
            let all = nested_lines(parent, store, n, indent, open);
            let inner = store.rows[n - 1][1].nested->0;
            &&& all.take(before.len() as int) == before
            &&& all[before.len() as int].key == key
            &&& all[before.len() as int].open == open.contains(key)
            &&& open.contains(key) ==> all.skip(before.len() as int + 1) == nested_lines(
                key,
                inner,
                inner.rows.len(),
                (indent + 1) as usize,
                open,
            )
            &&& !open.contains(key) ==> all.len() == before.len() + 1
        }),
{
    let before = nested_lines(parent, store, (n - 1) as nat, indent, open);
    let all = nested_lines(parent, store, n, indent, open);
    let inner = store.rows[n - 1][1].nested->0;
    assert(all.take(before.len() as int) =~= before);
    if open.contains(key) {
        assert(all.skip(before.len() as int + 1) =~= nested_lines(
            key,
            inner,
            inner.rows.len(),
            (indent + 1) as usize,
            open,
        ));
    }
}

/// A text is drawn line by line, an empty line as a blank unless it is styled, and at least
/// one line is drawn.
pub proof fn law_texts_are_drawn_line_by_line(lines: Seq<Seq<char>>, styled: bool, i: int)
    ensures
        lines.len() > 0 ==> drawn_lines(lines, styled).len() == lines.len(),
        0 <= i < lines.len() && (styled || lines[i].len() > 0) ==> drawn_lines(lines, styled)[i]
            == lines[i],
        0 <= i < lines.len() && !styled && lines[i].len() == 0 ==> drawn_lines(lines, styled)[i]
            == seq![' '],
        lines.len() == 0 ==> drawn_lines(lines, styled).len() == 1,
        lines.len() == 0 && !styled ==> drawn_lines(lines, styled)[0] == seq![' '],
        lines.len() == 0 && styled ==> drawn_lines(lines, styled)[0].len() == 0,
{
    reveal_strlit(" ");
    assert(" "@ =~= seq![' ']);
}

/// A column of code goes by its name without regard to case.
pub proof fn law_code_columns_go_by_name(name: Seq<char>)
    ensures
        name == "example"@ || name == "examples"@ || name == "source"@ || name == "code"@ || name
            == "command"@ || name == "result"@ || name == "SOURCE"@ || name == "CODE"@
            ==> code_column(name),
        code_column(name) ==> name.len() == 7 || name.len() == 8 || name.len() == 6 || name.len()
            == 4,
        code_column(name) ==> "eEsScCrR"@.contains(name[0]),
{
    reveal_strlit("eEsScCrR");
    let firsts = "eEsScCrR"@;
    assert(firsts[0] == 'e' && firsts[1] == 'E' && firsts[2] == 's' && firsts[3] == 'S'
        && firsts[4] == 'c' && firsts[5] == 'C' && firsts[6] == 'r' && firsts[7] == 'R');
    reveal_strlit("example");
    reveal_strlit("EXAMPLE");
    reveal_strlit("examples");
    reveal_strlit("EXAMPLES");
    reveal_strlit("source");
    reveal_strlit("SOURCE");
    reveal_strlit("code");
    reveal_strlit("CODE");
    reveal_strlit("command");
    reveal_strlit("COMMAND");
    reveal_strlit("result");
    reveal_strlit("RESULT");
    assert("example"@[0] == 'e' && "EXAMPLE"@[0] == 'E' && "examples"@[0] == 'e' && "EXAMPLES"@[0]
        == 'E' && "source"@[0] == 's' && "SOURCE"@[0] == 'S' && "code"@[0] == 'c' && "CODE"@[0]
        == 'C' && "command"@[0] == 'c' && "COMMAND"@[0] == 'C' && "result"@[0] == 'r'
        && "RESULT"@[0] == 'R');
    lemma_word_begins(name, "example"@, "EXAMPLE"@);
    lemma_word_begins(name, "examples"@, "EXAMPLES"@);
    lemma_word_begins(name, "source"@, "SOURCE"@);
    lemma_word_begins(name, "code"@, "CODE"@);
    lemma_word_begins(name, "command"@, "COMMAND"@);
    lemma_word_begins(name, "result"@, "RESULT"@);
}

proof fn lemma_word_begins(s: Seq<char>, lower: Seq<char>, upper: Seq<char>)
    requires
        lower.len() > 0,
    ensures
        word_at(s, 0, lower, upper) ==> s[0] == lower[0] || s[0] == upper[0],
{
    let k = 0int;
    if word_at(s, 0, lower, upper) {
        assert(s[0 + k] == lower[k] || s[0 + k] == upper[k]);
    }
}

} // verus!
