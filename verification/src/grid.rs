//! The Result table that draws only what is in sight.

use crate::ansi::{
    ansi_like, lines_view, looks_like_ansi, parse_ansi_lines, styled_lines, AnsiLine,
};
use crate::color::Rgb;
use crate::listing::{listed, matching, places, TableLook, TableView};
use crate::paths::{path_key, table_path_key};
use crate::result::{label_of, Cell, CellKind, CellView, ResultStore, StoreView};
use crate::text::{decimal, decimal_usize, str_eq, trim, trimmed};
use vstd::prelude::*;

verus! {

/// What the table shows: a store, the view on it and the rows in sight.
#[derive(Debug)]
pub struct ResultTableDelegate {
    pub store: ResultStore,
    pub view: TableView,
    pub visible: Vec<usize>,
    pub inspect: bool,
    pub expand_prefix: String,
}

/// What a cell of the table shows.
#[derive(Debug)]
pub enum Td {
    /// The number of the row.
    Index(String),
    /// Nothing.
    Blank,
    /// A control that opens the store behind the cell: the name of the element, the key
    /// that it opens and what it says.
    Nested { id: String, key: String, label: String },
    /// Styled text.
    Ansi(Vec<AnsiLine>),
    /// The cell's text, in its color if it has one, on the right where it is a number.
    Plain { text: String, color: Option<Rgb>, bold: bool, right: bool },
}

/// The name of the element of a cell that opens.
pub open spec fn nested_id(inspect: bool, row_ix: nat, col_ix: nat) -> Seq<char> {
    (if inspect {
        "i-nested-"@
    } else {
        "r-nested-"@
    }) + decimal(row_ix) + "-"@ + decimal(col_ix)
}

/// The color of a cell's text.
pub open spec fn cell_color(cell: CellView) -> Option<Rgb> {
    match cell.color {
        Some((r, g, b)) => Some(Rgb { r, g, b, bold: cell.bold }),
        None => None,
    }
}

/// Whether a cell holds a number.
pub open spec fn holds_number(cell: CellView) -> bool {
    cell.kind is Int || cell.kind is Float || cell.kind is Filesize || cell.kind is Duration
}

/// A cell of the store by its place in the table, whose first column numbers the rows.
pub open spec fn table_cell(
    store: StoreView,
    visible: Seq<int>,
    row_ix: int,
    col_ix: int,
) -> Option<CellView> {
    if col_ix >= 1 && 0 <= row_ix < visible.len() && 0 <= visible[row_ix] < store.rows.len()
        && col_ix - 1 < store.rows[visible[row_ix]].len() {
        Some(store.rows[visible[row_ix]][col_ix - 1])
    } else {
        None
    }
}

/// The path of the table among those that are open.
pub open spec fn table_prefix(prefix: Seq<char>) -> Seq<char> {
    if prefix.len() == 0 {
        "root"@
    } else {
        prefix
    }
}

/// The name of a column of the table.
pub open spec fn column_name(store: StoreView, col_ix: int) -> Seq<char> {
    if col_ix == 0 {
        "#"@
    } else if 0 <= col_ix - 1 < store.columns.len() {
        store.columns[col_ix - 1]
    } else {
        "?"@
    }
}

/// Whether a column's header stands on the right.
pub open spec fn header_right(store: StoreView, col_ix: int) -> bool {
    &&& 1 <= col_ix <= store.columns.len()
    &&& store.columns[col_ix - 1] == "size"@ || store.columns[col_ix - 1] == "type"@
}

impl ResultTableDelegate {
    /// Whether the rows in sight are those that the view shows of the store.
    pub open spec fn wf(&self) -> bool {
        listed(self.store@, self.view@, places(self.visible@))
    }

    /// A table of nothing.
    pub fn empty(inspect: bool) -> (table: Self)
        ensures
            table.wf(),
            table.store@ == (StoreView { columns: Seq::empty(), rows: Seq::empty() }),
            table.view@ == (TableLook {
                sort_col: None,
                sort_asc: false,
                equals: Seq::empty(),
                search: Seq::empty(),
            }),
            table.visible@.len() == 0,
            table.inspect == inspect,
            table.expand_prefix@.len() == 0,
    {
        let table = ResultTableDelegate {
            store: ResultStore::default(),
            view: TableView::default(),
            visible: Vec::new(),
            inspect,
            expand_prefix: String::new(),
        };
        assert(places(table.visible@) =~= matching(table.store@, table.view@));
        table
    }

    /// Shows a store under a view.
    pub fn bind(&mut self, store: ResultStore, view: TableView)
        ensures
            final(self).wf(),
            final(self).store@ == store@,
            final(self).view@ == view@,
            final(self).inspect == old(self).inspect,
            final(self).expand_prefix@ == old(self).expand_prefix@,
    {
        self.visible = store.visible_indices(&view);
        self.store = store;
        self.view = view;
    }

    /// The cell of the store at a place in the table.
    pub fn cell_at(&self, row_ix: usize, col_ix: usize) -> (cell: Option<&Cell>)
        ensures
            match cell {
                Some(cell) => table_cell(
                    self.store@,
                    places(self.visible@),
                    row_ix as int,
                    col_ix as int,
                ) == Some(cell@),
                None => table_cell(
                    self.store@,
                    places(self.visible@),
                    row_ix as int,
                    col_ix as int,
                ) is None,
            },
    {
        if col_ix == 0 || row_ix >= self.visible.len() {
            return None;
        }
        let row: usize = self.visible[row_ix];
        assert(places(self.visible@)[row_ix as int] == row as int);
        if row >= self.store.rows.len() || col_ix - 1 >= self.store.rows[row].len() {
            return None;
        }
        assert(self.store@.rows[row as int][col_ix - 1] == self.store.rows@[row as int]@[col_ix
            - 1]@);
        Some(&self.store.rows[row][col_ix - 1])
    }

    /// The number of columns, with that of the row numbers.
    pub fn columns_count(&self) -> (n: usize)
        requires
            self.store@.columns.len() < usize::MAX,
        ensures
            n == self.store@.columns.len() + 1,
    {
        self.store.columns.len() + 1
    }

    /// The number of rows in sight.
    pub fn rows_count(&self) -> (n: usize)
        ensures
            n == self.visible@.len(),
    {
        self.visible.len()
    }

    /// The name of a column.
    pub fn column(&self, col_ix: usize) -> (name: String)
        ensures
            name@ == column_name(self.store@, col_ix as int),
    {
        if col_ix == 0 {
            "#".to_owned()
        } else if col_ix - 1 < self.store.columns.len() {
            assert(self.store@.columns[col_ix - 1] == self.store.columns@[col_ix - 1]@);
            self.store.columns[col_ix - 1].clone()
        } else {
            "?".to_owned()
        }
    }

    /// Whether a column's header stands on the right.
    pub fn is_right(&self, col_ix: usize) -> (yes: bool)
        ensures
            yes == header_right(self.store@, col_ix as int),
    {
        if col_ix == 0 || col_ix > self.store.columns.len() {
            return false;
        }
        assert(self.store@.columns[col_ix - 1] == self.store.columns@[col_ix - 1]@);
        let name = self.store.columns[col_ix - 1].as_str();
        str_eq(name, "size") || str_eq(name, "type")
    }

    /// Sorts by a column of the table; the row numbers do not sort.
    pub fn perform_sort(&mut self, col_ix: usize, descending: bool)
        requires
            old(self).wf(),
        ensures
            final(self).wf(),
            final(self).store@ == old(self).store@,
            final(self).view@ == if col_ix == 0 {
                old(self).view@
            } else {
                TableLook {
                    sort_col: Some((col_ix - 1) as usize),
                    sort_asc: !descending,
                    ..old(self).view@
                }
            },
            final(self).inspect == old(self).inspect,
            final(self).expand_prefix@ == old(self).expand_prefix@,
    {
        if col_ix == 0 {
            return;
        }
        self.view.sort_col = Some(col_ix - 1);
        self.view.sort_asc = !descending;
        self.visible = self.store.visible_indices(&self.view);
    }

    /// What a cell of the table shows.
    pub fn render_td(&self, row_ix: usize, col_ix: usize) -> (td: Td)
        requires
            row_ix < usize::MAX,
        ensures
            td_of(
                td,
                self.store@,
                places(self.visible@),
                self.expand_prefix@,
                self.inspect,
                row_ix as int,
                col_ix as int,
            ),
    {
        if col_ix == 0 {
            return Td::Index(decimal_usize(row_ix + 1));
        }
        let cell = match self.cell_at(row_ix, col_ix) {
            Some(cell) => cell,
            None => {
                return Td::Blank;
            },
        };
        if cell.is_nested() {
            let prefix = if self.expand_prefix.as_str().is_empty() {
                "root"
            } else {
                self.expand_prefix.as_str()
            };
            assert(places(self.visible@)[row_ix as int] == self.visible@[row_ix as int] as int);
            proof {
                reveal_strlit("root");
            }
            let mut id = if self.inspect {
                "i-nested-".to_owned()
            } else {
                "r-nested-".to_owned()
            };
            id.push_str(decimal_usize(row_ix).as_str());
            id.push_str("-");
            id.push_str(decimal_usize(col_ix).as_str());
            return Td::Nested {
                id,
                key: table_path_key(prefix, self.visible[row_ix], col_ix - 1),
                label: cell.expand_label(),
            };
        }
        let text = cell.text.as_str();
        if looks_like_ansi(text) && !trim(text).as_str().is_empty() {
            return Td::Ansi(parse_ansi_lines(text));
        }
        let color = match cell.color {
            Some((r, g, b)) => Some(Rgb { r, g, b, bold: cell.bold }),
            None => None,
        };
        Td::Plain {
            text: cell.text.clone(),
            color,
            bold: cell.bold,
            right: cell.kind.is_numeric(),
        }
    }
}

/// Whether a cell of the table shows what it should.
pub open spec fn td_of(
    td: Td,
    store: StoreView,
    visible: Seq<int>,
    prefix: Seq<char>,
    inspect: bool,
    row_ix: int,
    col_ix: int,
) -> bool {
    if col_ix == 0 {
        td matches Td::Index(text) && text@ == decimal((row_ix + 1) as nat)
    } else {
        match table_cell(store, visible, row_ix, col_ix) {
            None => td is Blank,
            Some(cell) => if cell.nested is Some {
                td matches Td::Nested { id, key, label } && id@ == nested_id(
                    inspect,
                    row_ix as nat,
                    col_ix as nat,
                ) && key@ == path_key(
                    table_prefix(prefix),
                    visible[row_ix] as nat,
                    (col_ix - 1) as nat,
                ) && label@ == label_of(cell)
            } else if ansi_like(cell.text) && trimmed(cell.text).len() > 0 {
                td matches Td::Ansi(lines) && lines_view(lines@) == styled_lines(cell.text)
            } else {
                td matches Td::Plain { text, color, bold, right } && text@ == cell.text && color
                    == cell_color(cell) && bold == cell.bold && right == holds_number(cell)
            },
        }
    }
}

/// A cell of the table is the cell of the store in the row that stands there and the column
/// before it; the first column numbers the rows.
pub proof fn law_table_cells_are_the_stores(
    td: Td,
    store: StoreView,
    visible: Seq<int>,
    prefix: Seq<char>,
    inspect: bool,
    row_ix: int,
    col: int,
)
    requires
        0 <= row_ix < visible.len(),
        0 <= visible[row_ix] < store.rows.len(),
        0 <= col < store.rows[visible[row_ix]].len(),
    ensures
        table_cell(store, visible, row_ix, col + 1) == Some(store.rows[visible[row_ix]][col]),
        table_cell(store, visible, row_ix, 0) is None,
        td_of(td, store, visible, prefix, inspect, row_ix, 0) ==> td is Index && td->Index_0@
            == decimal((row_ix + 1) as nat),
        td_of(td, store, visible, prefix, inspect, row_ix, col + 1) ==> ({
            let cell = store.rows[visible[row_ix]][col];
            &&& cell.nested is Some ==> td is Nested && td->key@ == path_key(
                if prefix.len() == 0 {
                    "root"@
                } else {
                    prefix
                },
                visible[row_ix] as nat,
                col as nat,
            ) && td->label@ == label_of(cell)
            &&& cell.nested is None && !ansi_like(cell.text) ==> td is Plain && td->text@
                == cell.text && td->bold == cell.bold && td->right == (cell.kind
                == CellKind::Int || cell.kind == CellKind::Float || cell.kind == CellKind::Filesize
                || cell.kind == CellKind::Duration) && (cell.color is None <==> td->color is None)
                && (cell.color matches Some((r, g, b)) ==> td->color == Some(
                Rgb { r, g, b, bold: cell.bold },
            ))
            &&& cell.nested is None && ansi_like(cell.text) && trimmed(cell.text).len() > 0
                ==> td is Ansi && lines_view(td->Ansi_0@) == styled_lines(cell.text)
        }),
{
}

/// The first column numbers the rows, each further one is the store's, and what lies past
/// them is unknown; sizes and types stand on the right.
pub proof fn law_headers_are_the_stores(store: StoreView, col: int)
    ensures
        column_name(store, 0) == "#"@,
        0 <= col < store.columns.len() ==> column_name(store, col + 1) == store.columns[col],
        col >= store.columns.len() ==> column_name(store, col + 1) == "?"@,
        !header_right(store, 0),
        0 <= col < store.columns.len() ==> (header_right(store, col + 1) <==> store.columns[col]
            == "size"@ || store.columns[col] == "type"@),
        col >= store.columns.len() ==> !header_right(store, col + 1),
{
}

/// The name of the element of a cell tells the kind of the table, the row and the column.
pub proof fn law_elements_are_named_by_their_place(row_ix: nat, col_ix: nat)
    ensures
        nested_id(true, row_ix, col_ix) == "i-nested-"@ + decimal(row_ix) + "-"@ + decimal(col_ix),
        nested_id(false, row_ix, col_ix) == "r-nested-"@ + decimal(row_ix) + "-"@ + decimal(col_ix),
{
}

} // verus!
