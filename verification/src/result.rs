//! Results produced by an Invocation.

use crate::ansi::{ansi_like, looks_like_ansi, visible, visible_text};
use crate::expand::{
    cell_display_width, cell_line_count, cell_lines, largest, lemma_largest, widest_line,
};
use crate::listing::{TableLook, TableView};
use crate::order::{FloatKey, SortKey, SortView};
use crate::text::{
    contains_char, decimal, decimal_usize, lemma_pieces_nonempty, lines, lines_of, lowercase,
    pieces, str_eq, texts,
};
use std::time::Duration;
use vstd::prelude::*;

verus! {

/// Identifier for a Result in the Session stack.
#[derive(Debug, Clone, Copy, PartialEq, Eq, Structural, Hash)]
pub struct ResultId(pub u64);

/// Lifecycle of a Result.
#[derive(Debug, Clone, Copy, PartialEq, Eq, Structural)]
pub enum ResultStatus {
    Running,
    Succeeded,
    Failed,
    Interrupted,
}

/// How a cell should be colored, aligned, and sorted.
#[derive(Debug, Clone, Copy, PartialEq, Eq, Structural)]
pub enum CellKind {
    Text,
    Int,
    Float,
    Bool,
    Filesize,
    Duration,
    Date,
    Empty,
    Other,
}

impl Default for CellKind {
    fn default() -> (kind: Self)
        ensures
            kind == CellKind::Text,
    {
        CellKind::Text
    }
}

impl CellKind {
    /// Whether a cell of this kind holds a number.
    pub fn is_numeric(self) -> (numeric: bool)
        ensures
            numeric == (self is Int || self is Float || self is Filesize || self is Duration),
    {
        matches!(self, CellKind::Int | CellKind::Float | CellKind::Filesize | CellKind::Duration)
    }
}

/// One display cell.
#[derive(Debug)]
pub struct Cell {
    pub text: String,
    pub kind: CellKind,
    pub sort: SortKey,
    pub color: Option<(u8, u8, u8)>,
    pub bold: bool,
    pub nested: Option<Box<ResultStore>>,
}

/// Compact display store for a table Result body.
#[derive(Debug)]
pub struct ResultStore {
    pub columns: Vec<String>,
    pub rows: Vec<Vec<Cell>>,
}

// ---------------------------------------------------------------------------------------
// Views

/// A cell as characters and numbers.
pub struct CellView {
    pub text: Seq<char>,
    pub kind: CellKind,
    pub sort: SortView,
    pub color: Option<(u8, u8, u8)>,
    pub bold: bool,
    pub nested: Option<StoreView>,
}

/// A store as its header and its rows of cells.
pub struct StoreView {
    pub columns: Seq<Seq<char>>,
    pub rows: Seq<Seq<CellView>>,
}

pub open spec fn cell_view(cell: Cell) -> CellView
    decreases cell,
{
    CellView {
        text: cell.text@,
        kind: cell.kind,
        sort: cell.sort@,
        color: cell.color,
        bold: cell.bold,
        nested: match cell.nested {
            Some(store) => Some(store_view(*store)),
            None => None,
        },
    }
}

pub open spec fn store_view(store: ResultStore) -> StoreView
    decreases store,
{
    StoreView {
        columns: texts(store.columns@),
        rows: Seq::new(
            store.rows@.len(),
            |i: int|
                if 0 <= i < store.rows@.len() {
                    Seq::new(
                        store.rows@[i]@.len(),
                        |j: int|
                            if 0 <= j < store.rows@[i]@.len() {
                                cell_view(store.rows@[i]@[j])
                            } else {
                                arbitrary()
                            },
                    )
                } else {
                    Seq::empty()
                },
        ),
    }
}

impl View for Cell {
    type V = CellView;

    open spec fn view(&self) -> CellView {
        cell_view(*self)
    }
}

impl View for ResultStore {
    type V = StoreView;

    open spec fn view(&self) -> StoreView {
        store_view(*self)
    }
}

proof fn lemma_nested_smaller(cell: Cell)
    requires
        cell.nested is Some,
    ensures
        decreases_to!(cell => *cell.nested->0),
{
}

proof fn lemma_cells_smaller(store: ResultStore, i: int, j: int)
    requires
        0 <= i < store.rows@.len(),
        0 <= j < store.rows@[i]@.len(),
    ensures
        decreases_to!(store => store.rows@[i]@[j]),
{
    assert(decreases_to!(store => store.rows));
    assert(decreases_to!(store.rows => store.rows@));
    assert(decreases_to!(store.rows@ => store.rows@[i]));
    assert(decreases_to!(store.rows@[i] => store.rows@[i]@));
    assert(decreases_to!(store.rows@[i]@ => store.rows@[i]@[j]));
}

/// What the view of a store says of its size and of each cell.
pub proof fn lemma_store_view(store: ResultStore)
    ensures
        store@.columns == texts(store.columns@),
        store@.columns.len() == store.columns@.len(),
        store@.rows.len() == store.rows@.len(),
        forall|i: int|
            0 <= i < store.rows@.len() ==> (#[trigger] store@.rows[i]).len()
                == store.rows@[i]@.len(),
        forall|i: int, j: int|
            0 <= i < store.rows@.len() && 0 <= j < store.rows@[i]@.len() ==> #[trigger] store@.rows[i][j]
                == store.rows@[i]@[j]@,
{
}

fn clone_cell(cell: &Cell) -> (copy: Cell)
    ensures
        copy@ == cell@,
    decreases *cell,
{
    let nested = match &cell.nested {
        Some(store) => {
            proof {
                lemma_nested_smaller(*cell);
            }
            Some(Box::new(clone_store(&**store)))
        },
        None => None,
    };
    Cell {
        text: cell.text.clone(),
        kind: cell.kind,
        sort: clone_key(&cell.sort),
        color: cell.color,
        bold: cell.bold,
        nested,
    }
}

fn clone_key(key: &SortKey) -> (copy: SortKey)
    ensures
        copy@ == key@,
{
    match key {
        SortKey::Empty => SortKey::Empty,
        SortKey::Text(text) => SortKey::Text(text.clone()),
        SortKey::Int(n) => SortKey::Int(*n),
        SortKey::Float(key) => SortKey::Float(FloatKey { rank: key.rank, text: key.text.clone() }),
    }
}

/// A copy of a list of texts.
pub fn clone_texts(list: &Vec<String>) -> (copy: Vec<String>)
    ensures
        texts(copy@) == texts(list@),
{
    let mut copy: Vec<String> = Vec::new();
    let n: usize = list.len();
    for i in 0..n
        invariant
            n == list@.len(),
            copy@.len() == i,
            forall|k: int| 0 <= k < i ==> (#[trigger] copy@[k])@ == list@[k]@,
    {
        copy.push(list[i].clone());
    }
    assert(texts(copy@) =~= texts(list@));
    copy
}

fn clone_store(store: &ResultStore) -> (copy: ResultStore)
    ensures
        copy@ == store@,
    decreases *store,
{
    let columns = clone_texts(&store.columns);
    let mut rows: Vec<Vec<Cell>> = Vec::new();
    let n: usize = store.rows.len();
    for i in 0..n
        invariant
            n == store.rows@.len(),
            rows@.len() == i,
            forall|k: int|
                0 <= k < i ==> (#[trigger] rows@[k])@.len() == store.rows@[k]@.len(),
            forall|k: int, l: int|
                0 <= k < i && 0 <= l < store.rows@[k]@.len() ==> (#[trigger] rows@[k]@[l])@
                    == store.rows@[k]@[l]@,
    {
        let mut row: Vec<Cell> = Vec::new();
        let m: usize = store.rows[i].len();
        for j in 0..m
            invariant
                i < n,
                n == store.rows@.len(),
                m == store.rows@[i as int]@.len(),
                row@.len() == j,
                forall|l: int| 0 <= l < j ==> (#[trigger] row@[l])@ == store.rows@[i as int]@[l]@,
        {
            proof {
                lemma_cells_smaller(*store, i as int, j as int);
            }
            row.push(clone_cell(&store.rows[i][j]));
        }
        rows.push(row);
    }
    let copy = ResultStore { columns, rows };
    proof {
        lemma_store_view(copy);
        lemma_store_view(*store);
        assert forall|i: int| 0 <= i < store@.rows.len() implies copy@.rows[i] == store@.rows[i] by {
            assert(copy@.rows[i] =~= store@.rows[i]);
        }
        assert(copy@.rows =~= store@.rows);
    }
    copy
}

// ---------------------------------------------------------------------------------------
// Cells

/// A cell that shows a text.
pub open spec fn text_cell(text: Seq<char>) -> CellView {
    CellView {
        text,
        kind: CellKind::Text,
        sort: SortView::Text(lowercase(text)),
        color: None,
        bold: false,
        nested: None,
    }
}

/// A store that holds one text.
pub open spec fn block_store(text: Seq<char>) -> StoreView {
    StoreView { columns: seq!["text"@], rows: seq![seq![text_cell(text)]] }
}

/// Whether a store holds one text, under the header for one.
pub open spec fn is_block(store: StoreView) -> bool {
    &&& store.columns == seq!["text"@]
    &&& store.rows.len() == 1
    &&& store.rows[0].len() > 0
    &&& store.rows[0][0].nested is None
}

/// The number of lines as a reader is told it.
pub open spec fn lines_label(n: nat) -> Seq<char> {
    if n == 1 {
        "1 line"@
    } else {
        decimal(n) + " lines"@
    }
}

/// What the control that opens a cell says: the number of lines where a text lies behind
/// it, else the cell's own text.
pub open spec fn label_of(cell: CellView) -> Seq<char> {
    if cell.nested is Some && is_block(cell.nested->0) {
        lines_label(lines_of(cell.text).len())
    } else {
        cell.text
    }
}

/// A text that is not empty has a line.
pub proof fn lemma_some_line(s: Seq<char>)
    requires
        s.len() > 0,
    ensures
        lines_of(s).len() > 0,
{
    let parts = pieces(s, '\n', '\n');
    lemma_pieces_nonempty(s, '\n', '\n');
    if s.last() == '\n' {
        lemma_pieces_nonempty(s.drop_last(), '\n', '\n');
    } else {
        lemma_pieces_nonempty(s.drop_last(), '\n', '\n');
        assert(parts.last().len() > 0);
    }
}

impl Clone for Cell {
    /// A copy of the cell and of all that is nested in it.
    fn clone(&self) -> (copy: Self)
        ensures
            copy@ == self@,
    {
        clone_cell(self)
    }
}

impl Default for Cell {
    fn default() -> (cell: Self)
        ensures
            cell@ == (CellView {
                text: Seq::empty(),
                kind: CellKind::Text,
                sort: SortView::Empty,
                color: None,
                bold: false,
                nested: None,
            }),
    {
        Cell {
            text: String::new(),
            kind: CellKind::Text,
            sort: SortKey::Empty,
            color: None,
            bold: false,
            nested: None,
        }
    }
}

impl Cell {
    /// A cell that shows a text, sorted without regard to case.
    pub fn text(text: &str) -> (cell: Self)
        ensures
            cell@ == text_cell(text@),
    {
        Cell {
            sort: SortKey::Text(text.to_lowercase()),
            text: text.to_owned(),
            kind: CellKind::Text,
            color: None,
            bold: false,
            nested: None,
        }
    }

    /// Whether a store lies behind the cell.
    pub fn is_nested(&self) -> (nested: bool)
        ensures
            nested == (self@.nested is Some),
    {
        self.nested.is_some()
    }

    /// The number of lines of the cell's text.
    pub fn line_count(&self) -> (n: usize)
        ensures
            n == lines_of(self@.text).len(),
    {
        let n: usize = lines(self.text.as_str()).len();
        if n == 0 && !self.text.as_str().is_empty() {
            proof {
                lemma_some_line(self.text@);
            }
            1
        } else {
            n
        }
    }

    /// Whether the cell's text has a line break.
    pub fn is_multiline(&self) -> (multiline: bool)
        ensures
            multiline == self@.text.contains('\n'),
    {
        contains_char(self.text.as_str(), '\n')
    }

    /// What the control that opens the cell says.
    pub fn expand_label(&self) -> (label: String)
        ensures
            label@ == label_of(self@),
    {
        let block = match &self.nested {
            Some(store) => store.is_text_block(),
            None => false,
        };
        if block {
            let n: usize = self.line_count();
            if n == 1 {
                "1 line".to_owned()
            } else {
                let mut label = decimal_usize(n);
                label.push_str(" lines");
                label
            }
        } else {
            self.text.clone()
        }
    }

    /// The text that an export writes.
    pub fn export_text(&self) -> (text: &str)
        ensures
            text@ == self@.text,
    {
        self.text.as_str()
    }
}

// ---------------------------------------------------------------------------------------
// Stores

/// Whether a store pairs fields with values.
pub open spec fn pairs_store(store: StoreView) -> bool {
    store.columns == seq!["field"@, "value"@]
}

/// Whether a column has a cell that a store lies behind.
pub open spec fn column_nested(store: StoreView, col: int) -> bool {
    exists|row: int|
        0 <= row < store.rows.len() && 0 <= col < (#[trigger] store.rows[row]).len()
            && store.rows[row][col].nested is Some
}

/// Whether a store has a cell that another store lies behind.
pub open spec fn nests(store: StoreView) -> bool {
    exists|col: int| column_nested(store, col)
}

/// What a reader sees of a cell's text: escape sequences show nothing.
pub open spec fn shown(text: Seq<char>) -> Seq<char> {
    if ansi_like(text) {
        visible(text)
    } else {
        text
    }
}

/// The columns that a cell takes, zero where the row has no such cell.
pub open spec fn cell_chars(row: Seq<CellView>, col: int) -> nat {
    if 0 <= col < row.len() {
        widest_line(shown(row[col].text))
    } else {
        0
    }
}

/// The columns that a header takes with its controls.
pub open spec fn header_chars(store: StoreView, col: int) -> nat {
    if 0 <= col < store.columns.len() {
        widest_line(store.columns[col]) + 4
    } else {
        8
    }
}

/// The columns that a table column takes: its header or its widest cell, at least six.
pub open spec fn chars_of_column(store: StoreView, col: int) -> nat {
    let header = header_chars(store, col);
    let body = largest(store.rows.map_values(|row: Seq<CellView>| cell_chars(row, col)));
    let both = if body > header {
        body
    } else {
        header
    };
    if both < 6 {
        6
    } else {
        both
    }
}

/// The lines that a row takes: as many as its tallest cell, from one to eighteen.
pub open spec fn lines_of_row(store: StoreView, row: int) -> nat {
    if 0 <= row < store.rows.len() {
        let tallest = largest(store.rows[row].map_values(|cell: CellView| cell_lines(cell.text)));
        if tallest < 1 {
            1
        } else if tallest > 18 {
            18
        } else {
            tallest
        }
    } else {
        1
    }
}

impl Clone for ResultStore {
    /// A copy of the store and of all that is nested in it.
    fn clone(&self) -> (copy: Self)
        ensures
            copy@ == self@,
    {
        clone_store(self)
    }
}

impl Default for ResultStore {
    fn default() -> (store: Self)
        ensures
            store@ == (StoreView { columns: Seq::empty(), rows: Seq::empty() }),
    {
        let store = ResultStore { columns: Vec::new(), rows: Vec::new() };
        assert(store@.columns =~= Seq::empty());
        assert(store@.rows =~= Seq::empty());
        store
    }
}

/// A list of one text.
pub fn one_text(text: &str) -> (list: Vec<String>)
    ensures
        texts(list@) == seq![text@],
{
    let mut list: Vec<String> = Vec::new();
    list.push(text.to_owned());
    assert(texts(list@) =~= seq![text@]);
    list
}

/// A list of two texts.
pub fn two_texts(first: &str, second: &str) -> (list: Vec<String>)
    ensures
        texts(list@) == seq![first@, second@],
{
    let mut list: Vec<String> = Vec::new();
    list.push(first.to_owned());
    list.push(second.to_owned());
    assert(texts(list@) =~= seq![first@, second@]);
    list
}

/// Whether a list holds one given text.
fn is_one_text(list: &Vec<String>, text: &str) -> (yes: bool)
    ensures
        yes == (texts(list@) == seq![text@]),
{
    let ghost held = texts(list@);
    assert(held.len() == list@.len());
    assert(forall|i: int| 0 <= i < list@.len() ==> held[i] == #[trigger] list@[i]@);
    let yes = list.len() == 1 && str_eq(list[0].as_str(), text);
    proof {
        if yes {
            assert(held =~= seq![text@]);
        } else if held == seq![text@] {
            assert(held.len() == 1);
            assert(held[0] == list@[0]@);
        }
    }
    yes
}

/// Whether a list holds two given texts.
fn is_two_texts(list: &Vec<String>, first: &str, second: &str) -> (yes: bool)
    ensures
        yes == (texts(list@) == seq![first@, second@]),
{
    let ghost held = texts(list@);
    assert(held.len() == list@.len());
    assert(forall|i: int| 0 <= i < list@.len() ==> held[i] == #[trigger] list@[i]@);
    let yes = list.len() == 2 && str_eq(list[0].as_str(), first) && str_eq(
        list[1].as_str(),
        second,
    );
    proof {
        if yes {
            assert(held =~= seq![first@, second@]);
        } else if held == seq![first@, second@] {
            assert(held.len() == 2);
            assert(held[0] == list@[0]@);
            assert(held[1] == list@[1]@);
        }
    }
    yes
}

impl ResultStore {
    /// The number of rows.
    pub fn row_count(&self) -> (n: usize)
        ensures
            n == self@.rows.len(),
    {
        self.rows.len()
    }

    /// Whether the store pairs fields with values.
    pub fn is_pairs(&self) -> (pairs: bool)
        ensures
            pairs == pairs_store(self@),
    {
        is_two_texts(&self.columns, "field", "value")
    }

    /// Whether the store is small enough to open within a row.
    pub fn can_inline(&self) -> (small: bool)
        ensures
            small == (0 < self@.rows.len() <= 12 && self@.columns.len() <= 8),
    {
        self.rows.len() != 0 && self.row_count() <= 12 && self.columns.len() <= 8
    }

    /// Whether a store lies behind one of the cells.
    pub fn has_nested(&self) -> (nested: bool)
        ensures
            nested == nests(self@),
    {
        let n: usize = self.rows.len();
        for i in 0..n
            invariant
                n == self.rows@.len(),
                forall|k: int, l: int|
                    0 <= k < i && 0 <= l < self@.rows[k].len() ==> (
                    #[trigger] self@.rows[k][l]).nested is None,
        {
            let m: usize = self.rows[i].len();
            for j in 0..m
                invariant
                    i < n,
                    n == self.rows@.len(),
                    m == self.rows@[i as int]@.len(),
                    forall|l: int|
                        0 <= l < j ==> (#[trigger] self@.rows[i as int][l]).nested is None,
            {
                if self.rows[i][j].is_nested() {
                    proof {
                        assert(self@.rows[i as int][j as int].nested is Some);
                        assert(column_nested(self@, j as int));
                    }
                    return true;
                }
                assert(self@.rows[i as int][j as int] == self.rows@[i as int]@[j as int]@);
            }
        }
        false
    }

    /// Large list-of-records tables must stay virtualized; pairs stay custom.
    pub fn prefers_virtual(&self) -> (large: bool)
        ensures
            large == (!pairs_store(self@) && self@.rows.len() > 64),
    {
        !self.is_pairs() && self.row_count() > 64
    }

    /// A store that holds one text.
    pub fn text_block(text: &str) -> (store: Self)
        ensures
            store@ == block_store(text@),
    {
        let cell = Cell::text(text);
        let mut row: Vec<Cell> = Vec::new();
        row.push(cell);
        let mut rows: Vec<Vec<Cell>> = Vec::new();
        rows.push(row);
        let store = ResultStore { columns: one_text("text"), rows };
        assert(store@.rows[0] =~= seq![text_cell(text@)]);
        assert(store@.rows =~= seq![seq![text_cell(text@)]]);
        store
    }

    /// Whether the store holds one text, under the header for one.
    pub fn is_text_block(&self) -> (block: bool)
        ensures
            block == is_block(self@),
    {
        let named = is_one_text(&self.columns, "text");
        let block = named && self.rows.len() == 1 && self.rows[0].len() > 0
            && self.rows[0][0].nested.is_none();
        proof {
            if self.rows@.len() == 1 && self.rows@[0]@.len() > 0 {
                assert(self@.rows[0][0] == self.rows@[0]@[0]@);
            }
        }
        block
    }

    /// The columns that a table column takes, from its content.
    pub fn column_chars(&self, col: usize) -> (n: usize)
        ensures
            n == if chars_of_column(self@, col as int) > usize::MAX {
                usize::MAX as nat
            } else {
                chars_of_column(self@, col as int)
            },
    {
        let mut header: usize = 8;
        if col < self.columns.len() {
            header = cell_display_width(self.columns[col].as_str());
            if header > usize::MAX - 4 {
                header = usize::MAX;
            } else {
                header = header + 4;
            }
            assert(self@.columns[col as int] == self.columns@[col as int]@);
        }
        let ghost widths = self@.rows.map_values(|row: Seq<CellView>| cell_chars(row, col as int));
        let mut body: usize = 0;
        let n: usize = self.rows.len();
        for i in 0..n
            invariant
                n == self.rows@.len(),
                widths == self@.rows.map_values(|row: Seq<CellView>| cell_chars(row, col as int)),
                body == largest(widths.take(i as int)),
        {
            let mut width: usize = 0;
            if col < self.rows[i].len() {
                let text = self.rows[i][col].text.as_str();
                width = if looks_like_ansi(text) {
                    cell_display_width(visible_text(text).as_str())
                } else {
                    cell_display_width(text)
                };
                assert(self@.rows[i as int][col as int] == self.rows@[i as int]@[col as int]@);
            }
            assert(widths.take(i + 1).drop_last() =~= widths.take(i as int));
            assert(widths[i as int] == cell_chars(self@.rows[i as int], col as int));
            if width > body {
                body = width;
            }
        }
        assert(widths.take(n as int) =~= widths);
        let both: usize = if body > header {
            body
        } else {
            header
        };
        if both < 6 {
            6
        } else {
            both
        }
    }

    /// Whether a column has a cell that a store lies behind.
    pub fn column_has_nested(&self, col: usize) -> (nested: bool)
        ensures
            nested == column_nested(self@, col as int),
    {
        let n: usize = self.rows.len();
        for i in 0..n
            invariant
                n == self.rows@.len(),
                forall|k: int|
                    0 <= k < i && col < (#[trigger] self@.rows[k]).len()
                        ==> self@.rows[k][col as int].nested is None,
        {
            if col < self.rows[i].len() {
                assert(self@.rows[i as int][col as int] == self.rows@[i as int]@[col as int]@);
                if self.rows[i][col].is_nested() {
                    return true;
                }
            }
        }
        false
    }

    /// The lines that a row takes on screen.
    pub fn row_line_count(&self, row: usize) -> (n: usize)
        ensures
            n == lines_of_row(self@, row as int),
    {
        if row >= self.rows.len() {
            return 1;
        }
        let ghost heights = self@.rows[row as int].map_values(
            |cell: CellView| cell_lines(cell.text),
        );
        let mut tallest: usize = 0;
        let n: usize = self.rows[row].len();
        for i in 0..n
            invariant
                row < self.rows@.len(),
                n == self.rows@[row as int]@.len(),
                heights == self@.rows[row as int].map_values(
                    |cell: CellView| cell_lines(cell.text),
                ),
                tallest == largest(heights.take(i as int)),
        {
            let lines: usize = cell_line_count(self.rows[row][i].text.as_str());
            assert(heights.take(i + 1).drop_last() =~= heights.take(i as int));
            assert(self@.rows[row as int][i as int] == self.rows@[row as int]@[i as int]@);
            assert(heights[i as int] == cell_lines(self.rows@[row as int]@[i as int].text@));
            if lines > tallest {
                tallest = lines;
            }
        }
        assert(heights.take(n as int) =~= heights);
        if tallest < 1 {
            1
        } else if tallest > 18 {
            18
        } else {
            tallest
        }
    }
}

// ---------------------------------------------------------------------------------------
// Results

/// Typed view inside a Result.
#[derive(Debug)]
pub enum ResultBody {
    Table(ResultStore),
    Scalar(String),
    Text(String),
    Diagnostic(String),
    Binary { bytes: usize, summary: String },
    Empty,
}

/// A body as characters and numbers.
pub enum BodyView {
    Table(StoreView),
    Scalar(Seq<char>),
    Text(Seq<char>),
    Diagnostic(Seq<char>),
    Binary { bytes: nat, summary: Seq<char> },
    Empty,
}

impl View for ResultBody {
    type V = BodyView;

    open spec fn view(&self) -> BodyView {
        match *self {
            ResultBody::Table(store) => BodyView::Table(store@),
            ResultBody::Scalar(text) => BodyView::Scalar(text@),
            ResultBody::Text(text) => BodyView::Text(text@),
            ResultBody::Diagnostic(text) => BodyView::Diagnostic(text@),
            ResultBody::Binary { bytes, summary } => BodyView::Binary {
                bytes: bytes as nat,
                summary: summary@,
            },
            ResultBody::Empty => BodyView::Empty,
        }
    }
}

impl Clone for ResultBody {
    fn clone(&self) -> (copy: Self)
        ensures
            copy@ == self@,
    {
        match self {
            ResultBody::Table(store) => ResultBody::Table(store.clone()),
            ResultBody::Scalar(text) => ResultBody::Scalar(text.clone()),
            ResultBody::Text(text) => ResultBody::Text(text.clone()),
            ResultBody::Diagnostic(text) => ResultBody::Diagnostic(text.clone()),
            ResultBody::Binary { bytes, summary } => ResultBody::Binary {
                bytes: *bytes,
                summary: summary.clone(),
            },
            ResultBody::Empty => ResultBody::Empty,
        }
    }
}

/// One Invocation's UI object.
#[derive(Debug)]
pub struct InvocationResult {
    pub id: ResultId,
    pub source: String,
    pub status: ResultStatus,
    pub duration: Option<Duration>,
    pub exit_code: Option<i64>,
    pub body: ResultBody,
    pub log: Vec<String>,
    pub expanded: bool,
    pub view: TableView,
}

/// A Result as characters and numbers.
pub struct InvocationView {
    pub id: ResultId,
    pub source: Seq<char>,
    pub status: ResultStatus,
    pub duration: Option<Duration>,
    pub exit_code: Option<i64>,
    pub body: BodyView,
    pub log: Seq<Seq<char>>,
    pub expanded: bool,
    pub view: TableLook,
}

impl View for InvocationResult {
    type V = InvocationView;

    open spec fn view(&self) -> InvocationView {
        InvocationView {
            id: self.id,
            source: self.source@,
            status: self.status,
            duration: self.duration,
            exit_code: self.exit_code,
            body: self.body@,
            log: texts(self.log@),
            expanded: self.expanded,
            view: self.view@,
        }
    }
}

impl Clone for InvocationResult {
    fn clone(&self) -> (copy: Self)
        ensures
            copy@ == self@,
    {
        InvocationResult {
            id: self.id,
            source: self.source.clone(),
            status: self.status,
            duration: self.duration,
            exit_code: self.exit_code,
            body: self.body.clone(),
            log: clone_texts(&self.log),
            expanded: self.expanded,
            view: self.view.clone(),
        }
    }
}

/// A Result as it stands while its Invocation runs.
pub open spec fn running_view(id: ResultId, source: Seq<char>) -> InvocationView {
    InvocationView {
        id,
        source,
        status: ResultStatus::Running,
        duration: None,
        exit_code: None,
        body: BodyView::Empty,
        log: Seq::empty(),
        expanded: true,
        view: TableLook {
            sort_col: None,
            sort_asc: false,
            equals: Seq::empty(),
            search: Seq::empty(),
        },
    }
}

/// The word for a Result's status.
pub open spec fn status_word(status: ResultStatus) -> Seq<char> {
    match status {
        ResultStatus::Running => "running"@,
        ResultStatus::Succeeded => "ok"@,
        ResultStatus::Failed => "error"@,
        ResultStatus::Interrupted => "interrupted"@,
    }
}

impl InvocationResult {
    /// A Result as it stands while its Invocation runs.
    pub fn running(id: ResultId, source: &str) -> (result: Self)
        ensures
            result@ == running_view(id, source@),
    {
        let result = InvocationResult {
            id,
            source: source.to_owned(),
            status: ResultStatus::Running,
            duration: None,
            exit_code: None,
            body: ResultBody::Empty,
            log: Vec::new(),
            expanded: true,
            view: TableView::default(),
        };
        assert(result@.log =~= Seq::empty());
        result
    }

    /// The word for the Result's status.
    pub fn status_label(&self) -> (label: &'static str)
        ensures
            label@ == status_word(self@.status),
    {
        match self.status {
            ResultStatus::Running => "running",
            ResultStatus::Succeeded => "ok",
            ResultStatus::Failed => "error",
            ResultStatus::Interrupted => "interrupted",
        }
    }
}

// ---------------------------------------------------------------------------------------
// Laws

/// A cell that a text lies behind says how many lines it has; any other says its own text.
pub proof fn law_labels_count_lines(cell: CellView)
    ensures
        cell.nested == Some(block_store(cell.text)) ==> label_of(cell) == (if lines_of(
            cell.text,
        ).len() == 1 {
            "1 line"@
        } else {
            decimal(lines_of(cell.text).len()) + " lines"@
        }),
        cell.nested is None ==> label_of(cell) == cell.text,
        cell.nested is Some && cell.nested->0.columns != seq!["text"@] ==> label_of(cell)
            == cell.text,
{
}

/// A row is as tall as its tallest cell, at least one line and at most eighteen.
pub proof fn law_rows_are_as_tall_as_their_cells(store: StoreView, row: int, col: int)
    requires
        0 <= row < store.rows.len(),
        0 <= col < store.rows[row].len(),
    ensures
        1 <= lines_of_row(store, row) <= 18,
        lines_of_row(store, row) == 18 || lines_of_row(store, row) >= cell_lines(
            store.rows[row][col].text,
        ),
        lines_of_row(store, row) == 1 || lines_of_row(store, row) == 18 || exists|k: int|
            0 <= k < store.rows[row].len() && cell_lines((#[trigger] store.rows[row][k]).text)
                == lines_of_row(store, row),
{
    let heights = store.rows[row].map_values(|cell: CellView| cell_lines(cell.text));
    lemma_largest(heights);
    assert(heights[col] == cell_lines(store.rows[row][col].text));
    let k = choose|k: int| 0 <= k < heights.len() && heights[k] == largest(heights);
    assert(cell_lines(store.rows[row][k].text) == largest(heights));
}

/// A column has room for its header with four columns to spare and for what is visible of
/// each of its cells, at least six columns, and takes no more than one of these asks for.
pub proof fn law_columns_have_room(store: StoreView, col: int, row: int)
    requires
        0 <= col < store.columns.len(),
        0 <= row < store.rows.len(),
        col < store.rows[row].len(),
    ensures
        chars_of_column(store, col) >= 6,
        chars_of_column(store, col) >= widest_line(store.columns[col]) + 4,
        chars_of_column(store, col) >= widest_line(
            if ansi_like(store.rows[row][col].text) {
                visible(store.rows[row][col].text)
            } else {
                store.rows[row][col].text
            },
        ),
        chars_of_column(store, col) == 6 || chars_of_column(store, col) == widest_line(
            store.columns[col],
        ) + 4 || exists|k: int|
            0 <= k < store.rows.len() && col < (#[trigger] store.rows[k]).len() && chars_of_column(
                store,
                col,
            ) == widest_line(shown(store.rows[k][col].text)),
{
    let widths = store.rows.map_values(|row: Seq<CellView>| cell_chars(row, col));
    lemma_largest(widths);
    assert(widths[row] == cell_chars(store.rows[row], col));
    let k = choose|k: int| 0 <= k < widths.len() && widths[k] == largest(widths);
    assert(cell_chars(store.rows[k], col) == largest(widths));
}

/// A store nests exactly when some cell has a store behind it.
pub proof fn law_a_store_nests_by_its_cells(store: StoreView)
    ensures
        nests(store) <==> exists|row: int, col: int|
            0 <= row < store.rows.len() && 0 <= col < store.rows[row].len() && (
            #[trigger] store.rows[row][col]).nested is Some,
{
    if nests(store) {
        let col = choose|col: int| column_nested(store, col);
        let row = choose|row: int|
            0 <= row < store.rows.len() && 0 <= col < (#[trigger] store.rows[row]).len()
                && store.rows[row][col].nested is Some;
        assert(store.rows[row][col].nested is Some);
    }
    if exists|row: int, col: int|
        0 <= row < store.rows.len() && 0 <= col < store.rows[row].len() && (
        #[trigger] store.rows[row][col]).nested is Some {
        let (row, col) = choose|row: int, col: int|
            0 <= row < store.rows.len() && 0 <= col < store.rows[row].len() && (
            #[trigger] store.rows[row][col]).nested is Some;
        assert(column_nested(store, col));
    }
}

/// A text as a cell shows itself without color, sorts without regard to case and opens as
/// nothing.
pub proof fn law_plain_cells_show_their_text(text: Seq<char>)
    ensures
        text_cell(text).text == text,
        text_cell(text).kind == CellKind::Text,
        text_cell(text).sort == SortView::Text(lowercase(text)),
        text_cell(text).color is None,
        !text_cell(text).bold,
        text_cell(text).nested is None,
{
}

/// Each status has its own word.
pub proof fn law_statuses_have_their_word()
    ensures
        status_word(ResultStatus::Running) == "running"@,
        status_word(ResultStatus::Succeeded) == "ok"@,
        status_word(ResultStatus::Failed) == "error"@,
        status_word(ResultStatus::Interrupted) == "interrupted"@,
{
}

/// A column without a header has room for eight characters.
pub proof fn law_columns_without_a_header_have_room(store: StoreView, col: int)
    requires
        col >= store.columns.len(),
        forall|k: int| 0 <= k < store.rows.len() ==> (#[trigger] store.rows[k]).len() <= col,
    ensures
        chars_of_column(store, col) == 8,
{
    let widths = store.rows.map_values(|row: Seq<CellView>| cell_chars(row, col));
    lemma_largest(widths);
    if widths.len() > 0 {
        let k = choose|k: int| 0 <= k < widths.len() && widths[k] == largest(widths);
        assert(store.rows[k].len() <= col);
        assert(cell_chars(store.rows[k], col) == largest(widths));
    }
}

/// A row that is not there, or that has no cell, takes one line.
pub proof fn law_empty_rows_take_a_line(store: StoreView, row: int)
    requires
        !(0 <= row < store.rows.len()) || store.rows[row].len() == 0,
    ensures
        lines_of_row(store, row) == 1,
{
}

} // verus!
