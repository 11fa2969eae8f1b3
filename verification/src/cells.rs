//! Values as tables of cells.

use crate::color::{style_rgb, AnsiStyle, Rgb};
use crate::order::{FloatKey, SortKey, SortView};
use crate::result::{
    block_store, one_text, text_cell, two_texts, BodyView, Cell, CellKind, CellView, ResultBody,
    ResultStore, StoreView,
};
use crate::text::{
    contains_char, decimal, decimal_usize, lowercase, signed_decimal, str_eq, texts,
};
use crate::value::{
    abbreviated, all_records, columns_of, compact_text, compact_value_text, duration_words,
    field_place,
    find_field, gather_columns, lemma_field_place, only_records, DurationUnit, Field, NuValue,
};
use vstd::prelude::*;

verus! {

// ---------------------------------------------------------------------------------------
// One value in one cell

/// The kind of the cell that shows a value.
pub open spec fn kind_of(v: NuValue) -> CellKind {
    match v {
        NuValue::Text { .. } => CellKind::Text,
        NuValue::Int { .. } => CellKind::Int,
        NuValue::Float { .. } => CellKind::Float,
        NuValue::Bool { .. } => CellKind::Bool,
        NuValue::Nothing { .. } => CellKind::Empty,
        NuValue::Filesize { .. } => CellKind::Filesize,
        NuValue::Duration { .. } => CellKind::Duration,
        NuValue::Date { .. } => CellKind::Date,
        _ => CellKind::Other,
    }
}

/// The key by which a value is sorted: numbers by what they count, all else by its text.
pub open spec fn sort_of(v: NuValue, text: Seq<char>) -> SortView {
    match v {
        NuValue::Int { val, .. } => SortView::Int(val as int),
        NuValue::Float { val, .. } => SortView::Float(val.rank as int, val.text@),
        NuValue::Bool { val, .. } => SortView::Int(
            if val {
                1
            } else {
                0
            },
        ),
        NuValue::Nothing { .. } => SortView::Empty,
        NuValue::Filesize { val, .. } => SortView::Int(val as int),
        NuValue::Duration { val, .. } => SortView::Int(val@),
        NuValue::Date { nanos, .. } => SortView::Int(
            match nanos {
                Some(n) => n as int,
                None => 0,
            },
        ),
        NuValue::Closure { .. } => SortView::Text("<closure>"@),
        _ => SortView::Text(lowercase(text)),
    }
}

/// The style of a value. Only scalars have one.
pub open spec fn scalar_style(v: NuValue) -> Option<AnsiStyle> {
    match v {
        NuValue::Text { style, .. } => Some(style),
        NuValue::Int { style, .. } => Some(style),
        NuValue::Float { style, .. } => Some(style),
        NuValue::Bool { style, .. } => Some(style),
        NuValue::Filesize { style, .. } => Some(style),
        NuValue::Duration { style, .. } => Some(style),
        NuValue::Date { style, .. } => Some(style),
        NuValue::Nothing { style } => Some(style),
        _ => None,
    }
}

/// The color of a scalar.
pub open spec fn scalar_paint(v: NuValue) -> Option<Rgb> {
    match scalar_style(v) {
        Some(style) => style_rgb(style),
        None => None,
    }
}

/// The color of the file that a value names.
pub open spec fn path_paint(v: NuValue) -> Option<Rgb> {
    match v {
        NuValue::Text { path_style: Some(style), .. } => style_rgb(style),
        _ => None,
    }
}

/// The color of a value in a column: in the one for names, that of the file that it names,
/// if any.
pub open spec fn paint_of(column: Seq<char>, v: NuValue) -> Option<Rgb> {
    if column == "name"@ && path_paint(v) is Some {
        path_paint(v)
    } else {
        scalar_paint(v)
    }
}

/// What the cell of a table, list or record says where it does not print on one line.
pub open spec fn nested_words(v: NuValue, store: Option<StoreView>) -> Seq<char> {
    match store {
        Some(store) => if store.rows.len() == 1 {
            if store.columns.len() <= 4 {
                "1 row · "@ + decimal(store.columns.len()) + " fields"@
            } else {
                "1 row"@
            }
        } else {
            decimal(store.rows.len()) + " rows"@
        },
        None => match v {
            NuValue::List { vals } => decimal(vals@.len()) + (if all_records(vals@) {
                " rows"@
            } else {
                " items"@
            }),
            NuValue::Record { val } => decimal(val@.len()) + " fields"@,
            _ => "table"@,
        },
    }
}

/// The text of the cell that shows a value, given the store behind it.
pub open spec fn cell_text(v: NuValue, unit: DurationUnit, store: Option<StoreView>) -> Seq<char> {
    match v {
        NuValue::Float { fixed, .. } => fixed@,
        NuValue::Closure { .. } => "<closure>"@,
        NuValue::List { .. } => match compact_text(v, unit) {
            Some(text) => text,
            None => nested_words(v, store),
        },
        NuValue::Record { .. } => nested_words(v, store),
        _ => abbreviated(v, unit),
    }
}

/// The cell that shows a value, given the store behind it. A text of several lines is
/// itself a store.
pub open spec fn cell_over(
    column: Seq<char>,
    v: NuValue,
    unit: DurationUnit,
    store: Option<StoreView>,
) -> CellView {
    let text = cell_text(v, unit, store);
    let paint = paint_of(column, v);
    CellView {
        text,
        kind: kind_of(v),
        sort: sort_of(v, text),
        color: match paint {
            Some(c) => Some((c.r, c.g, c.b)),
            None => None,
        },
        bold: match paint {
            Some(c) => c.bold,
            None => false,
        },
        nested: if store is Some {
            store
        } else if text.contains('\n') {
            Some(block_store(text))
        } else {
            None
        },
    }
}

/// The cell of a record that lacks the column.
pub open spec fn empty_cell() -> CellView {
    CellView {
        text: Seq::empty(),
        kind: CellKind::Text,
        sort: SortView::Empty,
        color: None,
        bold: false,
        nested: None,
    }
}

// ---------------------------------------------------------------------------------------
// Values in tables

/// The cell that shows a value, with the store behind it down to a depth.
pub open spec fn cell_of(column: Seq<char>, v: NuValue, unit: DurationUnit, depth: nat) -> CellView
    decreases v, 1nat,
{
    cell_over(
        column,
        v,
        unit,
        if compact_text(v, unit) is Some {
            None
        } else {
            store_of(v, unit, depth)
        },
    )
}

/// The store that a table, list or record opens as, down to a depth.
pub open spec fn store_of(v: NuValue, unit: DurationUnit, depth: nat) -> Option<StoreView>
    decreases v, 0nat,
{
    if depth == 0 {
        None
    } else {
        match v {
            NuValue::Record { val } => if val@.len() == 1 && is_table(val@[0].value) {
                Some(table_of(val@[0].value->vals, unit, 2))
            } else {
                Some(pairs_of(val, unit, (depth - 1) as nat))
            },
            NuValue::List { vals } => if all_records(vals@) {
                if vals@.len() == 0 {
                    None
                } else {
                    Some(
                        table_of(
                            vals,
                            unit,
                            if depth > 1 {
                                (depth - 1) as nat
                            } else {
                                1
                            },
                        ),
                    )
                }
            } else {
                Some(column_of(vals, unit, (depth - 1) as nat))
            },
            _ => None,
        }
    }
}

/// Whether a value is a list of records with at least one.
pub open spec fn is_table(v: NuValue) -> bool {
    match v {
        NuValue::List { vals } => vals@.len() > 0 && all_records(vals@),
        _ => false,
    }
}

/// A record as a table of its fields.
pub open spec fn pairs_of(fields: Vec<Field>, unit: DurationUnit, depth: nat) -> StoreView
    decreases fields,
{
    StoreView {
        columns: seq!["field"@, "value"@],
        rows: Seq::new(
            fields@.len(),
            |i: int|
                if 0 <= i < fields@.len() {
                    seq![
                        text_cell(fields@[i].name@),
                        cell_of("value"@, fields@[i].value, unit, depth),
                    ]
                } else {
                    Seq::empty()
                },
        ),
    }
}

/// A list as a table of one column.
pub open spec fn column_of(vals: Vec<NuValue>, unit: DurationUnit, depth: nat) -> StoreView
    decreases vals,
{
    StoreView {
        columns: seq!["value"@],
        rows: Seq::new(
            vals@.len(),
            |i: int|
                if 0 <= i < vals@.len() {
                    seq![cell_of("value"@, vals@[i], unit, depth)]
                } else {
                    Seq::empty()
                },
        ),
    }
}

/// A list of records as a table with a column for each field.
pub open spec fn table_of(vals: Vec<NuValue>, unit: DurationUnit, depth: nat) -> StoreView
    decreases vals,
{
    let columns = columns_of(vals@);
    StoreView {
        columns,
        rows: Seq::new(
            vals@.len(),
            |i: int|
                if 0 <= i < vals@.len() {
                    Seq::new(
                        columns.len(),
                        |j: int| record_cell(vals@[i], columns[j], unit, depth),
                    )
                } else {
                    Seq::empty()
                },
        ),
    }
}

/// The cell of a record in a column.
pub open spec fn record_cell(
    v: NuValue,
    column: Seq<char>,
    unit: DurationUnit,
    depth: nat,
) -> CellView
    decreases v, 2nat,
{
    match v {
        NuValue::Record { val } => match field_place(val@, column) {
            Some(k) => if 0 <= k < val@.len() {
                cell_of(column, val@[k].value, unit, depth)
            } else {
                empty_cell()
            },
            None => empty_cell(),
        },
        _ => empty_cell(),
    }
}

// ---------------------------------------------------------------------------------------
// Building cells and tables

fn cell_kind(value: &NuValue) -> (kind: CellKind)
    ensures
        kind == kind_of(*value),
{
    match value {
        NuValue::Text { .. } => CellKind::Text,
        NuValue::Int { .. } => CellKind::Int,
        NuValue::Float { .. } => CellKind::Float,
        NuValue::Bool { .. } => CellKind::Bool,
        NuValue::Nothing { .. } => CellKind::Empty,
        NuValue::Filesize { .. } => CellKind::Filesize,
        NuValue::Duration { .. } => CellKind::Duration,
        NuValue::Date { .. } => CellKind::Date,
        _ => CellKind::Other,
    }
}

fn cell_sort(value: &NuValue, text: &str) -> (sort: SortKey)
    ensures
        sort@ == sort_of(*value, text@),
{
    match value {
        NuValue::Int { val, .. } => SortKey::Int(*val),
        NuValue::Float { val, .. } => SortKey::Float(
            FloatKey { rank: val.rank, text: val.text.clone() },
        ),
        NuValue::Bool { val, .. } => SortKey::Int(
            if *val {
                1
            } else {
                0
            },
        ),
        NuValue::Nothing { .. } => SortKey::Empty,
        NuValue::Filesize { val, .. } => SortKey::Int(*val),
        NuValue::Duration { val, .. } => SortKey::Int(val.count()),
        NuValue::Date { nanos, .. } => SortKey::Int(
            match nanos {
                Some(n) => *n,
                None => 0,
            },
        ),
        NuValue::Closure { .. } => SortKey::Text("<closure>".to_owned()),
        _ => SortKey::Text(text.to_lowercase()),
    }
}

/// Only style scalars.
fn style_for_scalar(value: &NuValue) -> (paint: Option<Rgb>)
    ensures
        paint == scalar_paint(*value),
{
    let style = match value {
        NuValue::Text { style, .. } => *style,
        NuValue::Int { style, .. } => *style,
        NuValue::Float { style, .. } => *style,
        NuValue::Bool { style, .. } => *style,
        NuValue::Filesize { style, .. } => *style,
        NuValue::Duration { style, .. } => *style,
        NuValue::Date { style, .. } => *style,
        NuValue::Nothing { style } => *style,
        _ => {
            return None;
        },
    };
    Rgb::from_style(style)
}

fn ls_color_for_name(value: &NuValue) -> (paint: Option<Rgb>)
    ensures
        paint == path_paint(*value),
{
    match value {
        NuValue::Text { path_style: Some(style), .. } => Rgb::from_style(*style),
        _ => None,
    }
}

fn cell_paint(column: &str, value: &NuValue) -> (paint: Option<Rgb>)
    ensures
        paint == paint_of(column@, *value),
{
    if str_eq(column, "name") {
        let named = ls_color_for_name(value);
        if named.is_some() {
            return named;
        }
    }
    style_for_scalar(value)
}

fn with_count(before: &str, n: usize, after: &str) -> (text: String)
    ensures
        text@ == before@ + decimal(n as nat) + after@,
{
    let mut text = before.to_owned();
    text.push_str(decimal_usize(n).as_str());
    text.push_str(after);
    text
}

fn count_of(n: usize, after: &str) -> (text: String)
    ensures
        text@ == decimal(n as nat) + after@,
{
    let mut text = decimal_usize(n);
    text.push_str(after);
    text
}

fn nested_label(value: &NuValue, store: &Option<Box<ResultStore>>) -> (label: String)
    ensures
        label@ == nested_words(*value, boxed_view(*store)),
{
    if let Some(store) = store {
        let rows: usize = store.row_count();
        let cols: usize = store.columns.len();
        return if rows == 1 {
            if cols <= 4 {
                with_count("1 row · ", cols, " fields")
            } else {
                "1 row".to_owned()
            }
        } else {
            count_of(rows, " rows")
        };
    }
    match value {
        NuValue::List { vals } => if only_records(vals) {
            count_of(vals.len(), " rows")
        } else {
            count_of(vals.len(), " items")
        },
        NuValue::Record { val } => count_of(val.len(), " fields"),
        _ => "table".to_owned(),
    }
}

/// The view of a store that may be there.
pub open spec fn boxed_view(store: Option<Box<ResultStore>>) -> Option<StoreView> {
    match store {
        Some(store) => Some(store@),
        None => None,
    }
}

/// The view of a store that may be there.
pub open spec fn store_option(store: Option<ResultStore>) -> Option<StoreView> {
    match store {
        Some(store) => Some(store@),
        None => None,
    }
}

fn finish_cell(
    column: &str,
    value: &NuValue,
    text: String,
    nested: Option<Box<ResultStore>>,
    Ghost(unit): Ghost<DurationUnit>,
) -> (cell: Cell)
    requires
        text@ == cell_text(*value, unit, boxed_view(nested)),
    ensures
        cell@ == cell_over(column@, *value, unit, boxed_view(nested)),
{
    let paint = cell_paint(column, value);
    let sort = cell_sort(value, text.as_str());
    let behind = match nested {
        Some(store) => Some(store),
        None => if contains_char(text.as_str(), '\n') {
            Some(Box::new(ResultStore::text_block(text.as_str())))
        } else {
            None
        },
    };
    let (color, bold) = match paint {
        Some(c) => (Some((c.r, c.g, c.b)), c.bold),
        None => (None, false),
    };
    Cell { text, kind: cell_kind(value), sort, color, bold, nested: behind }
}

/// The cell that shows a value in a column, with the store behind it down to a depth.
pub fn value_cell(column: &str, value: &NuValue, unit: DurationUnit, nest_depth: usize) -> (cell:
    Cell)
    ensures
        cell@ == cell_of(column@, *value, unit, nest_depth as nat),
    decreases *value, 1nat,
{
    let mut nested: Option<Box<ResultStore>> = None;
    let text = match value {
        NuValue::Float { fixed, .. } => fixed.clone(),
        NuValue::Closure { .. } => "<closure>".to_owned(),
        NuValue::List { .. } | NuValue::Record { .. } => match compact_value_text(value, unit) {
            Some(text) => text,
            None => {
                match nested_store(value, unit, nest_depth) {
                    Some(store) => {
                        nested = Some(Box::new(store));
                    },
                    None => {},
                }
                nested_label(value, &nested)
            },
        },
        _ => value.to_abbreviated_string(unit),
    };
    finish_cell(column, value, text, nested, Ghost(unit))
}

/// The store that a table, list or record opens as, down to a depth.
pub fn nested_store(value: &NuValue, unit: DurationUnit, depth: usize) -> (store: Option<
    ResultStore,
>)
    ensures
        store_option(store) == store_of(*value, unit, depth as nat),
    decreases *value, 0nat,
{
    if depth == 0 {
        return None;
    }
    match value {
        NuValue::Record { val } => {
            if let Some(store) = flatten_signature_record(val, unit) {
                return Some(store);
            }
            Some(pair_store(val, unit, depth - 1))
        },
        NuValue::List { vals } => if only_records(vals) {
            if vals.len() == 0 {
                None
            } else {
                Some(
                    record_store(
                        vals,
                        unit,
                        if depth > 1 {
                            depth - 1
                        } else {
                            1
                        },
                    ),
                )
            }
        } else {
            Some(column_store(vals, unit, depth - 1))
        },
        _ => None,
    }
}

/// `scope commands` stores signatures as `{ "": [param records] }`. Unwrap that
/// so Inspect opens a real parameter table instead of a one-field wrapper.
fn flatten_signature_record(fields: &Vec<Field>, unit: DurationUnit) -> (store: Option<ResultStore>)
    ensures
        store_option(store) == if fields@.len() == 1 && is_table(fields@[0].value) {
            Some(table_of(fields@[0].value->vals, unit, 2))
        } else {
            None
        },
    decreases *fields,
{
    if fields.len() != 1 {
        return None;
    }
    match &fields[0].value {
        NuValue::List { vals } => if vals.len() > 0 && only_records(vals) {
            proof {
                lemma_field_smaller(*fields, 0);
            }
            Some(record_store(vals, unit, 2))
        } else {
            None
        },
        _ => None,
    }
}

proof fn lemma_field_smaller(fields: Vec<Field>, i: int)
    requires
        0 <= i < fields@.len(),
    ensures
        decreases_to!(fields => fields@[i].value),
{
    assert(decreases_to!(fields => fields@));
    assert(decreases_to!(fields@ => fields@[i]));
}

proof fn lemma_item_smaller(vals: Vec<NuValue>, i: int)
    requires
        0 <= i < vals@.len(),
    ensures
        decreases_to!(vals => vals@[i]),
{
    assert(decreases_to!(vals => vals@));
    assert(decreases_to!(vals@ => vals@[i]));
}

/// A row of two cells.
fn two_cells(first: Cell, second: Cell) -> (row: Vec<Cell>)
    ensures
        row@.len() == 2,
        row@[0]@ == first@,
        row@[1]@ == second@,
{
    let mut row: Vec<Cell> = Vec::new();
    row.push(first);
    row.push(second);
    row
}

/// A row of one cell.
fn one_cell(cell: Cell) -> (row: Vec<Cell>)
    ensures
        row@.len() == 1,
        row@[0]@ == cell@,
{
    let mut row: Vec<Cell> = Vec::new();
    row.push(cell);
    row
}

/// Whether a row of cells has a view.
pub open spec fn shows_row(row: Vec<Cell>, view: Seq<CellView>) -> bool {
    &&& row@.len() == view.len()
    &&& forall|j: int| 0 <= j < view.len() ==> (#[trigger] row@[j])@ == view[j]
}

/// The view of a store by its rows.
pub proof fn lemma_store_from_rows(store: ResultStore, rows: Seq<Seq<CellView>>)
    requires
        store.rows@.len() == rows.len(),
        forall|i: int| 0 <= i < rows.len() ==> shows_row(#[trigger] store.rows@[i], rows[i]),
    ensures
        store@ == (StoreView { columns: texts(store.columns@), rows }),
{
    assert forall|i: int| 0 <= i < rows.len() implies store@.rows[i] == rows[i] by {
        assert(shows_row(store.rows@[i], rows[i]));
        assert(store@.rows[i] =~= rows[i]);
    }
    assert(store@.rows =~= rows);
}

fn pair_store(fields: &Vec<Field>, unit: DurationUnit, depth: usize) -> (store: ResultStore)
    ensures
        store@ == pairs_of(*fields, unit, depth as nat),
    decreases *fields,
{
    let ghost want = pairs_of(*fields, unit, depth as nat);
    let mut rows: Vec<Vec<Cell>> = Vec::new();
    let n: usize = fields.len();
    for i in 0..n
        invariant
            n == fields@.len(),
            want == pairs_of(*fields, unit, depth as nat),
            rows@.len() == i,
            forall|k: int| 0 <= k < i ==> shows_row(#[trigger] rows@[k], want.rows[k]),
    {
        proof {
            lemma_field_smaller(*fields, i as int);
        }
        let row = two_cells(
            Cell::text(fields[i].name.as_str()),
            value_cell("value", &fields[i].value, unit, depth),
        );
        assert(shows_row(row, want.rows[i as int]));
        rows.push(row);
    }
    let store = ResultStore { columns: two_texts("field", "value"), rows };
    proof {
        lemma_store_from_rows(store, want.rows);
    }
    store
}

fn column_store(vals: &Vec<NuValue>, unit: DurationUnit, depth: usize) -> (store: ResultStore)
    ensures
        store@ == column_of(*vals, unit, depth as nat),
    decreases *vals,
{
    let ghost want = column_of(*vals, unit, depth as nat);
    let mut rows: Vec<Vec<Cell>> = Vec::new();
    let n: usize = vals.len();
    for i in 0..n
        invariant
            n == vals@.len(),
            want == column_of(*vals, unit, depth as nat),
            rows@.len() == i,
            forall|k: int| 0 <= k < i ==> shows_row(#[trigger] rows@[k], want.rows[k]),
    {
        proof {
            lemma_item_smaller(*vals, i as int);
        }
        let row = one_cell(value_cell("value", &vals[i], unit, depth));
        assert(shows_row(row, want.rows[i as int]));
        rows.push(row);
    }
    let store = ResultStore { columns: one_text("value"), rows };
    proof {
        lemma_store_from_rows(store, want.rows);
    }
    store
}

fn field_cell(value: &NuValue, column: &str, unit: DurationUnit, depth: usize) -> (cell: Cell)
    ensures
        cell@ == record_cell(*value, column@, unit, depth as nat),
    decreases *value, 2nat,
{
    match value {
        NuValue::Record { val } => match find_field(val, column) {
            Some(k) => {
                proof {
                    lemma_field_smaller(*val, k as int);
                }
                value_cell(column, &val[k].value, unit, depth)
            },
            None => Cell::default(),
        },
        _ => Cell::default(),
    }
}

fn record_store(vals: &Vec<NuValue>, unit: DurationUnit, depth: usize) -> (store: ResultStore)
    ensures
        store@ == table_of(*vals, unit, depth as nat),
    decreases *vals,
{
    let ghost want = table_of(*vals, unit, depth as nat);
    let n: usize = vals.len();
    assert(vals@.take(n as int) =~= vals@);
    let columns = gather_columns(vals, n);
    let m: usize = columns.len();
    let mut rows: Vec<Vec<Cell>> = Vec::new();
    for i in 0..n
        invariant
            n == vals@.len(),
            m == columns@.len(),
            texts(columns@) == columns_of(vals@),
            want == table_of(*vals, unit, depth as nat),
            rows@.len() == i,
            forall|k: int| 0 <= k < i ==> shows_row(#[trigger] rows@[k], want.rows[k]),
    {
        let mut row: Vec<Cell> = Vec::new();
        for j in 0..m
            invariant
                i < n,
                n == vals@.len(),
                m == columns@.len(),
                texts(columns@) == columns_of(vals@),
                want == table_of(*vals, unit, depth as nat),
                row@.len() == j,
                forall|l: int| 0 <= l < j ==> (#[trigger] row@[l])@ == want.rows[i as int][l],
        {
            proof {
                lemma_item_smaller(*vals, i as int);
                assert(texts(columns@)[j as int] == columns@[j as int]@);
            }
            let cell = field_cell(&vals[i], columns[j].as_str(), unit, depth);
            assert(cell@ == want.rows[i as int][j as int]);
            row.push(cell);
        }
        assert(want.rows[i as int].len() == texts(columns@).len());
        assert(shows_row(row, want.rows[i as int]));
        rows.push(row);
    }
    let store = ResultStore { columns, rows };
    proof {
        lemma_store_from_rows(store, want.rows);
    }
    store
}

// ---------------------------------------------------------------------------------------
// Values as bodies

/// The body that shows a list.
pub open spec fn list_body(vals: Vec<NuValue>, unit: DurationUnit, depth: nat) -> BodyView {
    if vals@.len() == 0 {
        BodyView::Empty
    } else if all_records(vals@) {
        BodyView::Table(table_of(vals, unit, depth))
    } else {
        BodyView::Table(column_of(vals, unit, depth))
    }
}

/// Whether a record opens as a table of its fields: it has many, or one holds a structure.
pub open spec fn opens_as_pairs(fields: Seq<Field>) -> bool {
    ||| fields.len() > 6
    ||| exists|i: int|
        0 <= i < fields.len() && ((#[trigger] fields[i]).value is Record || fields[i].value is List)
}

/// A record as a table of one row.
pub open spec fn row_of(fields: Vec<Field>, unit: DurationUnit, depth: nat) -> StoreView {
    StoreView {
        columns: Seq::new(fields@.len(), |i: int| fields@[i].name@),
        rows: seq![
            Seq::new(
                fields@.len(),
                |i: int| cell_of(fields@[i].name@, fields@[i].value, unit, depth),
            ),
        ],
    }
}

/// The body that shows a value.
pub open spec fn body_of(v: NuValue, unit: DurationUnit, depth: nat) -> BodyView {
    match v {
        NuValue::Nothing { .. } => BodyView::Empty,
        NuValue::Binary { val } => BodyView::Binary {
            bytes: val@.len(),
            summary: decimal(val@.len()) + " bytes"@,
        },
        NuValue::Text { val, .. } => if val@.contains('\n') {
            BodyView::Text(val@)
        } else {
            BodyView::Scalar(val@)
        },
        NuValue::List { vals } => list_body(vals, unit, depth),
        NuValue::Record { val } => if opens_as_pairs(val@) {
            match store_of(
                v,
                unit,
                if depth > 2 {
                    depth
                } else {
                    2
                },
            ) {
                Some(store) => BodyView::Table(store),
                None => BodyView::Empty,
            }
        } else {
            BodyView::Table(row_of(val, unit, depth))
        },
        _ => BodyView::Scalar(cell_of("value"@, v, unit, depth).text),
    }
}

/// The body that shows a list.
pub fn list_to_body(vals: &Vec<NuValue>, unit: DurationUnit, nest_depth: usize) -> (body: ResultBody)
    ensures
        body@ == list_body(*vals, unit, nest_depth as nat),
{
    if vals.len() == 0 {
        return ResultBody::Empty;
    }
    if only_records(vals) {
        return ResultBody::Table(record_store(vals, unit, nest_depth));
    }
    ResultBody::Table(column_store(vals, unit, nest_depth))
}

/// Whether a record opens as a table of its fields.
pub fn should_pair_record(fields: &Vec<Field>) -> (yes: bool)
    ensures
        yes == opens_as_pairs(fields@),
{
    let n: usize = fields.len();
    if n > 6 {
        return true;
    }
    for i in 0..n
        invariant
            n == fields@.len(),
            forall|k: int|
                0 <= k < i ==> !((#[trigger] fields@[k]).value is Record || fields@[k].value is List),
    {
        if matches!(fields[i].value, NuValue::Record { .. } | NuValue::List { .. }) {
            assert(fields@[i as int].value is Record || fields@[i as int].value is List);
            return true;
        }
    }
    false
}

fn row_store(fields: &Vec<Field>, unit: DurationUnit, depth: usize) -> (store: ResultStore)
    ensures
        store@ == row_of(*fields, unit, depth as nat),
{
    let ghost want = row_of(*fields, unit, depth as nat);
    let mut columns: Vec<String> = Vec::new();
    let mut row: Vec<Cell> = Vec::new();
    let n: usize = fields.len();
    for i in 0..n
        invariant
            n == fields@.len(),
            want == row_of(*fields, unit, depth as nat),
            columns@.len() == i,
            row@.len() == i,
            forall|k: int| 0 <= k < i ==> (#[trigger] columns@[k])@ == want.columns[k],
            forall|k: int| 0 <= k < i ==> (#[trigger] row@[k])@ == want.rows[0][k],
    {
        columns.push(fields[i].name.clone());
        row.push(value_cell(fields[i].name.as_str(), &fields[i].value, unit, depth));
    }
    let mut rows: Vec<Vec<Cell>> = Vec::new();
    rows.push(row);
    let store = ResultStore { columns, rows };
    proof {
        assert(texts(columns@) =~= want.columns);
        assert(shows_row(store.rows@[0], want.rows[0]));
        lemma_store_from_rows(store, want.rows);
    }
    store
}

/// The body that shows a value, with nested stores down to a depth.
pub fn value_to_body(value: &NuValue, unit: DurationUnit, nest_depth: usize) -> (body: ResultBody)
    ensures
        body@ == body_of(*value, unit, nest_depth as nat),
{
    match value {
        NuValue::Nothing { .. } => ResultBody::Empty,
        NuValue::Binary { val } => ResultBody::Binary {
            bytes: val.len(),
            summary: count_of(val.len(), " bytes"),
        },
        NuValue::Text { val, .. } => if contains_char(val.as_str(), '\n') {
            ResultBody::Text(val.clone())
        } else {
            ResultBody::Scalar(val.clone())
        },
        NuValue::List { vals } => list_to_body(vals, unit, nest_depth),
        NuValue::Record { val } => if should_pair_record(val) {
            let depth: usize = if nest_depth > 2 {
                nest_depth
            } else {
                2
            };
            match nested_store(value, unit, depth) {
                Some(store) => ResultBody::Table(store),
                None => ResultBody::Empty,
            }
        } else {
            ResultBody::Table(row_store(val, unit, nest_depth))
        },
        _ => ResultBody::Scalar(value_cell("value", value, unit, nest_depth).text),
    }
}

// ---------------------------------------------------------------------------------------
// One level of structure

/// A cell that a store lies behind, by its label.
pub open spec fn labelled(label: Seq<char>, store: StoreView) -> CellView {
    CellView {
        text: label,
        kind: CellKind::Other,
        sort: SortView::Text(lowercase(label)),
        color: None,
        bold: false,
        nested: Some(store),
    }
}

/// The cell of a value below the first level: a structure by its size or its text on one
/// line, with nothing behind it.
pub open spec fn leaf_cell(v: NuValue, unit: DurationUnit) -> CellView {
    match v {
        NuValue::Record { val } => text_cell(decimal(val@.len()) + " fields"@),
        NuValue::List { vals } => match compact_text(v, unit) {
            Some(text) => text_cell(text),
            None => text_cell(decimal(vals@.len()) + " items"@),
        },
        _ => text_cell(abbreviated(v, unit)),
    }
}

/// The cell of a value with one level of structure behind it; a list shows its first
/// forty items.
pub open spec fn shallow_cell(v: NuValue, unit: DurationUnit) -> CellView {
    match v {
        NuValue::Record { val } => labelled(
            decimal(val@.len()) + " fields"@,
            StoreView {
                columns: seq!["field"@, "value"@],
                rows: Seq::new(
                    val@.len(),
                    |i: int| seq![text_cell(val@[i].name@), leaf_cell(val@[i].value, unit)],
                ),
            },
        ),
        NuValue::List { vals } => match compact_text(v, unit) {
            Some(text) => text_cell(text),
            None => labelled(
                decimal(vals@.len()) + " items"@,
                StoreView {
                    columns: seq!["value"@],
                    rows: Seq::new(
                        if vals@.len() < 40 {
                            vals@.len()
                        } else {
                            40
                        },
                        |i: int| seq![leaf_cell(vals@[i], unit)],
                    ),
                },
            ),
        },
        _ => cell_of("value"@, v, unit, 0),
    }
}

fn label_cell(label: String, store: ResultStore) -> (cell: Cell)
    ensures
        cell@ == labelled(label@, store@),
{
    Cell {
        sort: SortKey::Text(label.as_str().to_lowercase()),
        text: label,
        kind: CellKind::Other,
        color: None,
        bold: false,
        nested: Some(Box::new(store)),
    }
}

fn shallow_leaf(value: &NuValue, unit: DurationUnit) -> (cell: Cell)
    ensures
        cell@ == leaf_cell(*value, unit),
{
    match value {
        NuValue::Record { val } => Cell::text(count_of(val.len(), " fields").as_str()),
        NuValue::List { vals } => match compact_value_text(value, unit) {
            Some(text) => Cell::text(text.as_str()),
            None => Cell::text(count_of(vals.len(), " items").as_str()),
        },
        _ => Cell::text(value.to_abbreviated_string(unit).as_str()),
    }
}

/// The cell of a value with one level of structure behind it.
pub fn shallow_value_cell(value: &NuValue, unit: DurationUnit) -> (cell: Cell)
    ensures
        cell@ == shallow_cell(*value, unit),
{
    match value {
        NuValue::Record { val } => {
            let ghost want = shallow_cell(*value, unit).nested->0;
            let mut rows: Vec<Vec<Cell>> = Vec::new();
            let n: usize = val.len();
            for i in 0..n
                invariant
                    n == val@.len(),
                    *value is Record,
                    value->Record_val == *val,
                    want == shallow_cell(*value, unit).nested->0,
                    rows@.len() == i,
                    forall|k: int| 0 <= k < i ==> shows_row(#[trigger] rows@[k], want.rows[k]),
            {
                let row = two_cells(
                    Cell::text(val[i].name.as_str()),
                    shallow_leaf(&val[i].value, unit),
                );
                assert(shows_row(row, want.rows[i as int]));
                rows.push(row);
            }
            let store = ResultStore { columns: two_texts("field", "value"), rows };
            proof {
                lemma_store_from_rows(store, want.rows);
            }
            label_cell(count_of(val.len(), " fields"), store)
        },
        NuValue::List { vals } => {
            match compact_value_text(value, unit) {
                Some(text) => {
                    return Cell::text(text.as_str());
                },
                None => {},
            }
            let ghost want = shallow_cell(*value, unit).nested->0;
            let mut rows: Vec<Vec<Cell>> = Vec::new();
            let n: usize = if vals.len() < 40 {
                vals.len()
            } else {
                40
            };
            for i in 0..n
                invariant
                    n <= vals@.len(),
                    n == want.rows.len(),
                    *value is List,
                    value->vals == *vals,
                    compact_text(*value, unit) is None,
                    want == shallow_cell(*value, unit).nested->0,
                    rows@.len() == i,
                    forall|k: int| 0 <= k < i ==> shows_row(#[trigger] rows@[k], want.rows[k]),
            {
                let row = one_cell(shallow_leaf(&vals[i], unit));
                assert(shows_row(row, want.rows[i as int]));
                rows.push(row);
            }
            let store = ResultStore { columns: one_text("value"), rows };
            proof {
                lemma_store_from_rows(store, want.rows);
            }
            label_cell(count_of(vals.len(), " items"), store)
        },
        _ => value_cell("value", value, unit, 0),
    }
}

// ---------------------------------------------------------------------------------------
// Laws

/// Whether each row of a store has a cell for each column, and so on in every store that
/// lies behind a cell.
pub open spec fn rectangular(store: StoreView) -> bool
    decreases store,
{
    forall|i: int|
        0 <= i < store.rows.len() ==> (#[trigger] store.rows[i]).len() == store.columns.len()
            && forall|j: int|
            0 <= j < store.rows[i].len() ==> fits(#[trigger] store.rows[i][j])
}

/// Whether the store behind a cell, if there is one, is rectangular.
pub open spec fn fits(cell: CellView) -> bool
    decreases cell,
{
    match cell.nested {
        Some(store) => rectangular(store),
        None => true,
    }
}

proof fn lemma_block_fits(text: Seq<char>)
    ensures
        rectangular(block_store(text)),
{
    assert(fits(text_cell(text)));
}

proof fn lemma_cell_fits(column: Seq<char>, v: NuValue, unit: DurationUnit, depth: nat)
    ensures
        fits(cell_of(column, v, unit, depth)),
    decreases v, 1nat,
{
    lemma_store_fits(v, unit, depth);
    lemma_block_fits(cell_of(column, v, unit, depth).text);
}

proof fn lemma_store_fits(v: NuValue, unit: DurationUnit, depth: nat)
    ensures
        store_of(v, unit, depth) matches Some(store) ==> rectangular(store),
    decreases v, 0nat,
{
    if depth > 0 {
        match v {
            NuValue::Record { val } => if val@.len() == 1 && is_table(val@[0].value) {
                lemma_field_smaller(val, 0);
                lemma_table_fits(val@[0].value->vals, unit, 2);
            } else {
                lemma_pairs_fit(val, unit, (depth - 1) as nat);
            },
            NuValue::List { vals } => if all_records(vals@) {
                lemma_table_fits(
                    vals,
                    unit,
                    if depth > 1 {
                        (depth - 1) as nat
                    } else {
                        1
                    },
                );
            } else {
                lemma_column_fits(vals, unit, (depth - 1) as nat);
            },
            _ => {},
        }
    }
}

proof fn lemma_pairs_fit(fields: Vec<Field>, unit: DurationUnit, depth: nat)
    ensures
        rectangular(pairs_of(fields, unit, depth)),
    decreases fields,
{
    let store = pairs_of(fields, unit, depth);
    assert forall|i: int| 0 <= i < store.rows.len() implies (#[trigger] store.rows[i]).len()
        == store.columns.len() && forall|j: int|
        0 <= j < store.rows[i].len() ==> fits(#[trigger] store.rows[i][j]) by {
        lemma_field_smaller(fields, i);
        lemma_cell_fits("value"@, fields@[i].value, unit, depth);
        assert(fits(text_cell(fields@[i].name@)));
    }
}

proof fn lemma_column_fits(vals: Vec<NuValue>, unit: DurationUnit, depth: nat)
    ensures
        rectangular(column_of(vals, unit, depth)),
    decreases vals,
{
    let store = column_of(vals, unit, depth);
    assert forall|i: int| 0 <= i < store.rows.len() implies (#[trigger] store.rows[i]).len()
        == store.columns.len() && forall|j: int|
        0 <= j < store.rows[i].len() ==> fits(#[trigger] store.rows[i][j]) by {
        lemma_item_smaller(vals, i);
        lemma_cell_fits("value"@, vals@[i], unit, depth);
    }
}

proof fn lemma_record_cell_fits(v: NuValue, column: Seq<char>, unit: DurationUnit, depth: nat)
    ensures
        fits(record_cell(v, column, unit, depth)),
    decreases v, 2nat,
{
    if let NuValue::Record { val } = v {
        if let Some(k) = field_place(val@, column) {
            lemma_field_place(val@, column);
            lemma_field_smaller(val, k);
            lemma_cell_fits(column, val@[k].value, unit, depth);
        }
    }
}

proof fn lemma_table_fits(vals: Vec<NuValue>, unit: DurationUnit, depth: nat)
    ensures
        rectangular(table_of(vals, unit, depth)),
    decreases vals,
{
    let store = table_of(vals, unit, depth);
    let columns = columns_of(vals@);
    assert forall|i: int| 0 <= i < store.rows.len() implies (#[trigger] store.rows[i]).len()
        == store.columns.len() && forall|j: int|
        0 <= j < store.rows[i].len() ==> fits(#[trigger] store.rows[i][j]) by {
        assert forall|j: int| 0 <= j < store.rows[i].len() implies fits(
            #[trigger] store.rows[i][j],
        ) by {
            lemma_item_smaller(vals, i);
            lemma_record_cell_fits(vals@[i], columns[j], unit, depth);
        }
    }
}

/// Every table that shows a value, and every table behind one of its cells, has a cell for
/// each column in each row.
pub proof fn law_tables_are_rectangular(v: NuValue, unit: DurationUnit, depth: nat)
    ensures
        body_of(v, unit, depth) matches BodyView::Table(store) ==> rectangular(store),
{
    match v {
        NuValue::List { vals } => {
            lemma_table_fits(vals, unit, depth);
            lemma_column_fits(vals, unit, depth);
        },
        NuValue::Record { val } => {
            lemma_store_fits(
                v,
                unit,
                if depth > 2 {
                    depth
                } else {
                    2
                },
            );
            let store = row_of(val, unit, depth);
            assert forall|j: int| 0 <= j < store.rows[0].len() implies fits(
                #[trigger] store.rows[0][j],
            ) by {
                lemma_cell_fits(val@[j].name@, val@[j].value, unit, depth);
            }
        },
        _ => {},
    }
}

/// A record that wraps one list of records opens as the table of that list.
pub proof fn law_signature_record_opens_as_its_rows(v: NuValue, unit: DurationUnit, depth: nat)
    requires
        depth > 0,
        v is Record,
        v->Record_val@.len() == 1,
        is_table(v->Record_val@[0].value),
    ensures
        store_of(v, unit, depth) == Some(table_of(v->Record_val@[0].value->vals, unit, 2)),
{
}

/// Whether stores lie behind a cell to no more than a number of levels.
pub open spec fn within(cell: CellView, levels: nat) -> bool
    decreases levels,
{
    match cell.nested {
        Some(store) => levels > 0 && forall|i: int, j: int|
            0 <= i < store.rows.len() && 0 <= j < store.rows[i].len() ==> within(
                #[trigger] store.rows[i][j],
                (levels - 1) as nat,
            ),
        None => true,
    }
}

/// The cell of a variable opens at most one level deep, however deep its value is.
pub proof fn law_variables_open_one_level(v: NuValue, unit: DurationUnit)
    ensures
        within(shallow_cell(v, unit), 1),
{
    reveal_with_fuel(within, 2);
}

/// The text that a cell shows never drives the order of numbers, dates and truth values:
/// whatever the text, the sort key is the same.
pub proof fn law_shown_text_does_not_order_numbers(v: NuValue, shown: Seq<char>, other: Seq<char>)
    requires
        v is Int || v is Float || v is Bool || v is Filesize || v is Duration || v is Date || v is Nothing,
    ensures
        sort_of(v, shown) == sort_of(v, other),
        !(sort_of(v, shown) is Text),
{
}

/// Only scalars are painted: a list, a record, bytes and whatever is no scalar has neither
/// color nor weight, in any column.
pub proof fn law_only_scalars_are_painted(
    column: Seq<char>,
    v: NuValue,
    unit: DurationUnit,
    depth: nat,
)
    requires
        scalar_style(v) is None,
    ensures
        cell_of(column, v, unit, depth).color is None,
        !cell_of(column, v, unit, depth).bold,
{
}

// ---------------------------------------------------------------------------------------
// Laws on what is shown

/// The cell of a scalar shows its value: a text itself, a number its digits, a truth value
/// its word, and it sorts by what the value counts or, as a text, without regard to case.
pub proof fn law_scalar_cells_show_their_value(
    column: Seq<char>,
    v: NuValue,
    unit: DurationUnit,
    depth: nat,
)
    ensures
        ({
            let cell = cell_of(column, v, unit, depth);
            &&& v matches NuValue::Text { val, .. } ==> cell.text == val@ && cell.kind
                == CellKind::Text && cell.sort == SortView::Text(lowercase(val@))
            &&& v matches NuValue::Int { val, .. } ==> cell.text == signed_decimal(val as int)
                && cell.kind == CellKind::Int && cell.sort == SortView::Int(val as int)
            &&& v matches NuValue::Bool { val, .. } ==> cell.text == (if val {
                "true"@
            } else {
                "false"@
            }) && cell.kind == CellKind::Bool && cell.sort == SortView::Int(
                if val {
                    1
                } else {
                    0
                },
            )
            &&& v matches NuValue::Float { val, fixed, .. } ==> cell.text == fixed@ && cell.kind
                == CellKind::Float && cell.sort == SortView::Float(val.rank as int, val.text@)
            &&& v matches NuValue::Filesize { val, text, .. } ==> cell.text == text@ && cell.kind
                == CellKind::Filesize && cell.sort == SortView::Int(val as int)
            &&& v matches NuValue::Duration { val, .. } ==> cell.text == duration_words(val@, unit)
                && cell.kind == CellKind::Duration && cell.sort == SortView::Int(val@)
            &&& v matches NuValue::Date { nanos, text, .. } ==> cell.text == text@ && cell.kind
                == CellKind::Date && cell.sort == SortView::Int(
                match nanos {
                    Some(n) => n as int,
                    None => 0,
                },
            )
            &&& v is Nothing ==> cell.text.len() == 0 && cell.kind == CellKind::Empty && cell.sort
                == SortView::Empty
            &&& v is Closure ==> cell.text == "<closure>"@ && cell.kind == CellKind::Other
            &&& v matches NuValue::Other { text } ==> cell.text == text@ && cell.kind
                == CellKind::Other && cell.sort == SortView::Text(lowercase(text@))
        }),
{
}

/// A scalar of one line has nothing behind it; one of several lines opens as its own text.
pub proof fn law_lines_open_as_their_text(
    column: Seq<char>,
    v: NuValue,
    unit: DurationUnit,
    depth: nat,
)
    requires
        !(v is List),
        !(v is Record),
    ensures
        ({
            let cell = cell_of(column, v, unit, depth);
            &&& !cell.text.contains('\n') ==> cell.nested is None
            &&& cell.text.contains('\n') ==> cell.nested is Some && cell.nested->0.rows.len() == 1
                && cell.nested->0.rows[0].len() == 1 && cell.nested->0.rows[0][0].text == cell.text
                && cell.nested->0.columns == seq!["text"@]
        }),
{
}

/// A text takes the color of its own style; in the column for names that of the file that
/// it names, where that has one.
pub proof fn law_texts_take_the_color_of_their_style(
    column: Seq<char>,
    v: NuValue,
    unit: DurationUnit,
    depth: nat,
)
    requires
        v is Text,
    ensures
        ({
            let cell = cell_of(column, v, unit, depth);
            let own = style_rgb(v->Text_style);
            let file = match v->path_style {
                Some(style) => style_rgb(style),
                None => None,
            };
            let paint = if column == "name"@ && file is Some {
                file
            } else {
                own
            };
            &&& paint is None ==> cell.color is None && !cell.bold
            &&& paint is Some ==> cell.color == Some((paint->0.r, paint->0.g, paint->0.b))
                && cell.bold == paint->0.bold
        }),
{
}

/// A number takes the color of its own style in every column.
pub proof fn law_numbers_take_the_color_of_their_style(
    column: Seq<char>,
    v: NuValue,
    unit: DurationUnit,
    depth: nat,
)
    requires
        v is Int,
    ensures
        ({
            let cell = cell_of(column, v, unit, depth);
            match style_rgb(v->Int_style) {
                Some(paint) => cell.color == Some((paint.r, paint.g, paint.b)) && cell.bold
                    == paint.bold,
                None => cell.color is None && !cell.bold,
            }
        }),
{
}

/// The body of a value that is neither a list nor a record: nothing for nothing, the number
/// of bytes for bytes, a text as one line or as lines, and any other by its text.
pub proof fn law_scalar_bodies(v: NuValue, unit: DurationUnit, depth: nat)
    ensures
        v is Nothing ==> body_of(v, unit, depth) == BodyView::Empty,
        v matches NuValue::Text { val, .. } ==> body_of(v, unit, depth) == (if val@.contains('\n') {
            BodyView::Text(val@)
        } else {
            BodyView::Scalar(val@)
        }),
        v matches NuValue::Int { val, .. } ==> body_of(v, unit, depth) == BodyView::Scalar(
            signed_decimal(val as int),
        ),
        v matches NuValue::Bool { val, .. } ==> body_of(v, unit, depth) == BodyView::Scalar(
            if val {
                "true"@
            } else {
                "false"@
            },
        ),
        v matches NuValue::Float { fixed, .. } ==> body_of(v, unit, depth) == BodyView::Scalar(
            fixed@,
        ),
        v matches NuValue::Filesize { text, .. } ==> body_of(v, unit, depth) == BodyView::Scalar(
            text@,
        ),
        v matches NuValue::Date { text, .. } ==> body_of(v, unit, depth) == BodyView::Scalar(text@),
        v matches NuValue::Duration { val, .. } ==> body_of(v, unit, depth) == BodyView::Scalar(
            duration_words(val@, unit),
        ),
        v matches NuValue::Binary { val } ==> body_of(v, unit, depth) == (BodyView::Binary {
            bytes: val@.len(),
            summary: decimal(val@.len()) + " bytes"@,
        }),
{
}

/// A record of at most six fields without a structure among them is a table of one row, in
/// which each value stands under the name of its own field.
pub proof fn law_small_records_are_one_row(
    v: NuValue,
    unit: DurationUnit,
    depth: nat,
    i: int,
)
    requires
        v is Record,
        v->Record_val@.len() <= 6,
        forall|k: int|
            0 <= k < v->Record_val@.len() ==> !((#[trigger] v->Record_val@[k]).value is List)
                && !(v->Record_val@[k].value is Record),
        0 <= i < v->Record_val@.len(),
    ensures
        body_of(v, unit, depth) is Table,
        ({
            let store = body_of(v, unit, depth)->Table_0;
            let field = v->Record_val@[i];
            &&& store.columns.len() == v->Record_val@.len()
            &&& store.rows.len() == 1
            &&& store.rows[0].len() == v->Record_val@.len()
            &&& store.columns[i] == field.name@
            &&& store.rows[0][i] == cell_of(field.name@, field.value, unit, depth)
            &&& field.value matches NuValue::Text { val, .. } ==> store.rows[0][i].text == val@
            &&& field.value matches NuValue::Int { val, .. } ==> store.rows[0][i].text
                == signed_decimal(val as int)
        }),
{
    let fields = v->Record_val;
    assert(!opens_as_pairs(fields@));
    law_scalar_cells_show_their_value(fields@[i].name@, fields@[i].value, unit, depth);
}

/// A record with more fields, or with a structure among them, is a table of its fields: in
/// each row the name of a field and the value of that same field. The exception is a record
/// that wraps one list of records.
pub proof fn law_other_records_are_pairs(v: NuValue, unit: DurationUnit, depth: nat, i: int)
    requires
        v is Record,
        depth > 0,
        !(v->Record_val@.len() == 1 && is_table(v->Record_val@[0].value)),
        0 <= i < v->Record_val@.len(),
    ensures
        store_of(v, unit, depth) is Some,
        ({
            let store = store_of(v, unit, depth)->0;
            let field = v->Record_val@[i];
            &&& store.columns == seq!["field"@, "value"@]
            &&& store.rows.len() == v->Record_val@.len()
            &&& store.rows[i].len() == 2
            &&& store.rows[i][0].text == field.name@
            &&& store.rows[i][1] == cell_of("value"@, field.value, unit, (depth - 1) as nat)
            &&& field.value matches NuValue::Text { val, .. } ==> store.rows[i][1].text == val@
            &&& field.value matches NuValue::Int { val, .. } ==> store.rows[i][1].text
                == signed_decimal(val as int)
        }),
        v->Record_val@.len() > 6 || (exists|k: int|
            0 <= k < v->Record_val@.len() && ((#[trigger] v->Record_val@[k]).value is List
                || v->Record_val@[k].value is Record)) ==> body_of(v, unit, depth)
            == BodyView::Table(
            store_of(
                v,
                unit,
                if depth < 2 {
                    2
                } else {
                    depth
                },
            )->0,
        ),
{
    let field = v->Record_val@[i];
    law_scalar_cells_show_their_value("value"@, field.value, unit, (depth - 1) as nat);
    if v->Record_val@.len() > 6 || (exists|k: int|
        0 <= k < v->Record_val@.len() && ((#[trigger] v->Record_val@[k]).value is List
            || v->Record_val@[k].value is Record)) {
        assert(opens_as_pairs(v->Record_val@));
    }
}

proof fn lemma_first_place(fields: Seq<Field>, name: Seq<char>, k: int)
    requires
        0 <= k < fields.len(),
        fields[k].name@ == name,
        forall|l: int| 0 <= l < k ==> (#[trigger] fields[l]).name@ != name,
    ensures
        field_place(fields, name) == Some(k),
    decreases fields.len(),
{
    let front = fields.drop_last();
    if k < front.len() {
        assert(front[k] == fields[k]);
        assert forall|l: int| 0 <= l < k implies (#[trigger] front[l]).name@ != name by {
            assert(front[l] == fields[l]);
        }
        lemma_first_place(front, name, k);
    } else {
        lemma_no_place(front, name);
    }
}

proof fn lemma_no_place(fields: Seq<Field>, name: Seq<char>)
    requires
        forall|l: int| 0 <= l < fields.len() ==> (#[trigger] fields[l]).name@ != name,
    ensures
        field_place(fields, name) is None,
    decreases fields.len(),
{
    if fields.len() > 0 {
        let front = fields.drop_last();
        assert forall|l: int| 0 <= l < front.len() implies (#[trigger] front[l]).name@ != name by {
            assert(front[l] == fields[l]);
        }
        lemma_no_place(front, name);
        assert(fields[fields.len() - 1].name@ != name);
    }
}

/// A list of records is a table with a row for each record, in their order. In a column
/// stands the value of the record's own field of that name, and nothing where it has none.
pub proof fn law_record_lists_are_tables(
    v: NuValue,
    unit: DurationUnit,
    depth: nat,
    i: int,
    j: int,
    k: int,
)
    requires
        v is List,
        all_records(v->vals@),
        0 <= i < v->vals@.len(),
        0 <= j < columns_of(v->vals@).len(),
    ensures
        body_of(v, unit, depth) is Table,
        ({
            let store = body_of(v, unit, depth)->Table_0;
            let fields = v->vals@[i]->Record_val@;
            let name = store.columns[j];
            &&& store.columns == columns_of(v->vals@)
            &&& store.rows.len() == v->vals@.len()
            &&& store.rows[i].len() == store.columns.len()
            &&& 0 <= k < fields.len() && fields[k].name@ == name && (forall|l: int|
                0 <= l < k ==> (#[trigger] fields[l]).name@ != name) ==> store.rows[i][j]
                == cell_of(name, fields[k].value, unit, depth) && (
            fields[k].value matches NuValue::Text { val, .. } ==> store.rows[i][j].text == val@)
                && (fields[k].value matches NuValue::Int { val, .. } ==> store.rows[i][j].text
                == signed_decimal(val as int))
            &&& (forall|l: int|
                0 <= l < fields.len() ==> (#[trigger] fields[l]).name@ != name)
                ==> store.rows[i][j].text.len() == 0 && store.rows[i][j].nested is None
                && store.rows[i][j].sort == SortView::Empty
        }),
{
    let store = body_of(v, unit, depth)->Table_0;
    let fields = v->vals@[i]->Record_val@;
    let name = store.columns[j];
    assert(v->vals@[i] is Record);
    assert(store.rows[i][j] == record_cell(v->vals@[i], name, unit, depth));
    if 0 <= k < fields.len() && fields[k].name@ == name && (forall|l: int|
        0 <= l < k ==> (#[trigger] fields[l]).name@ != name) {
        lemma_first_place(fields, name, k);
        law_scalar_cells_show_their_value(name, fields[k].value, unit, depth);
    }
    if forall|l: int| 0 <= l < fields.len() ==> (#[trigger] fields[l]).name@ != name {
        lemma_no_place(fields, name);
    }
}

/// A list that holds something other than records is a table of one column with its items
/// in their order, and an empty list shows nothing.
pub proof fn law_other_lists_are_one_column(v: NuValue, unit: DurationUnit, depth: nat, i: int)
    requires
        v is List,
    ensures
        v->vals@.len() == 0 ==> body_of(v, unit, depth) == BodyView::Empty,
        v->vals@.len() > 0 && !all_records(v->vals@) ==> ({
            &&& body_of(v, unit, depth) is Table
            &&& body_of(v, unit, depth)->Table_0.columns == seq!["value"@]
            &&& body_of(v, unit, depth)->Table_0.rows.len() == v->vals@.len()
            &&& 0 <= i < v->vals@.len() ==> body_of(v, unit, depth)->Table_0.rows[i] == seq![
                cell_of("value"@, v->vals@[i], unit, depth),
            ]
        }),
{
}

/// Behind the cell of a list or record that does not print on one line lies the same store
/// that it opens as, and the label counts that store's rows; on one line it is its text with
/// nothing behind it.
pub proof fn law_structures_open_as_their_store(
    column: Seq<char>,
    v: NuValue,
    unit: DurationUnit,
    depth: nat,
)
    requires
        v is List || v is Record,
    ensures
        ({
            let cell = cell_of(column, v, unit, depth);
            match compact_text(v, unit) {
                Some(text) => cell.text == text && (text.contains('\n') || cell.nested is None),
                None => match store_of(v, unit, depth) {
                    Some(store) => cell.nested == Some(store) && (store.rows.len() != 1 ==> cell.text
                        == decimal(store.rows.len()) + " rows"@) && (store.rows.len() == 1
                        && store.columns.len() > 4 ==> cell.text == "1 row"@) && (store.rows.len()
                        == 1 && store.columns.len() <= 4 ==> cell.text == "1 row · "@ + decimal(
                        store.columns.len(),
                    ) + " fields"@),
                    None => v matches NuValue::Record { val } ==> cell.text == decimal(val@.len())
                        + " fields"@,
                },
            }
        }),
        store_of(v, unit, 0) is None,
{
}

/// A nested list of records opens as its table, and any other nested list as one column.
pub proof fn law_nested_lists_open_as_tables(v: NuValue, unit: DurationUnit, depth: nat, i: int)
    requires
        v is List,
        0 <= i < v->vals@.len(),
    ensures
        store_of(v, unit, depth + 1) is Some,
        ({
            let store = store_of(v, unit, depth + 1)->0;
            &&& store.rows.len() == v->vals@.len()
            &&& all_records(v->vals@) ==> BodyView::Table(store) == body_of(
                v,
                unit,
                if depth == 0 {
                    1
                } else {
                    depth
                },
            )
            &&& !all_records(v->vals@) ==> BodyView::Table(store) == body_of(v, unit, depth)
        }),
{
}

/// A variable that is a record opens as its fields: in each row the name of a field and what
/// that same field holds, a text or a number as it is.
pub proof fn law_variables_open_as_their_fields(v: NuValue, unit: DurationUnit, i: int)
    requires
        v is Record,
        0 <= i < v->Record_val@.len(),
    ensures
        ({
            let cell = shallow_cell(v, unit);
            let field = v->Record_val@[i];
            &&& cell.text == decimal(v->Record_val@.len()) + " fields"@
            &&& cell.nested is Some
            &&& cell.nested->0.columns == seq!["field"@, "value"@]
            &&& cell.nested->0.rows.len() == v->Record_val@.len()
            &&& cell.nested->0.rows[i].len() == 2
            &&& cell.nested->0.rows[i][0].text == field.name@
            &&& field.value matches NuValue::Text { val, .. } ==> cell.nested->0.rows[i][1].text
                == val@
            &&& field.value matches NuValue::Int { val, .. } ==> cell.nested->0.rows[i][1].text
                == signed_decimal(val as int)
            &&& field.value matches NuValue::Record { val } ==> cell.nested->0.rows[i][1].text
                == decimal(val@.len()) + " fields"@
        }),
{
}

/// A variable that is a list is its text on one line where it has one, and else opens as its
/// first forty items in their order.
pub proof fn law_variables_open_as_their_items(v: NuValue, unit: DurationUnit, i: int)
    requires
        v is List,
    ensures
        ({
            let cell = shallow_cell(v, unit);
            match compact_text(v, unit) {
                Some(text) => cell.text == text && cell.nested is None,
                None => {
                    &&& cell.text == decimal(v->vals@.len()) + " items"@
                    &&& cell.nested is Some
                    &&& cell.nested->0.columns == seq!["value"@]
                    &&& v->vals@.len() <= 40 ==> cell.nested->0.rows.len() == v->vals@.len()
                    &&& v->vals@.len() > 40 ==> cell.nested->0.rows.len() == 40
                    &&& 0 <= i < cell.nested->0.rows.len() ==> cell.nested->0.rows[i].len() == 1 && (
                    v->vals@[i] matches NuValue::Text { val, .. }
                        ==> cell.nested->0.rows[i][0].text == val@) && (
                    v->vals@[i] matches NuValue::Int { val, .. } ==> cell.nested->0.rows[i][0].text
                        == signed_decimal(val as int))
                },
            }
        }),
{
}

/// Every scalar takes the color of its own style, whatever its kind.
pub proof fn law_scalars_take_the_color_of_their_style(
    column: Seq<char>,
    v: NuValue,
    own: AnsiStyle,
    unit: DurationUnit,
    depth: nat,
)
    requires
        ({
            ||| v matches NuValue::Float { style, .. } && style == own
            ||| v matches NuValue::Bool { style, .. } && style == own
            ||| v matches NuValue::Filesize { style, .. } && style == own
            ||| v matches NuValue::Duration { style, .. } && style == own
            ||| v matches NuValue::Date { style, .. } && style == own
            ||| v matches NuValue::Nothing { style } && style == own
        }),
    ensures
        ({
            let cell = cell_of(column, v, unit, depth);
            match style_rgb(own) {
                Some(paint) => cell.color == Some((paint.r, paint.g, paint.b)) && cell.bold
                    == paint.bold,
                None => cell.color is None && !cell.bold,
            }
        }),
{
}

/// A list that opens as nothing is counted by its rows where all its items are records, and
/// by its items where they are not.
pub proof fn law_closed_lists_count_their_items(
    column: Seq<char>,
    v: NuValue,
    unit: DurationUnit,
    depth: nat,
)
    requires
        v is List,
        compact_text(v, unit) is None,
        store_of(v, unit, depth) is None,
    ensures
        all_records(v->vals@) ==> cell_of(column, v, unit, depth).text == decimal(v->vals@.len())
            + " rows"@,
        !all_records(v->vals@) ==> cell_of(column, v, unit, depth).text == decimal(v->vals@.len())
            + " items"@,
{
}

/// A nested record opens as its fields, in each row the name of a field and the cell of what
/// that same field holds, one level less deep; one whose only field is a table opens as that
/// table.
pub proof fn law_nested_records_open_as_their_fields(
    v: NuValue,
    unit: DurationUnit,
    depth: nat,
    i: int,
)
    requires
        v is Record,
    ensures
        v->Record_val@.len() == 1 && is_table(v->Record_val@[0].value) ==> store_of(
            v,
            unit,
            depth + 1,
        ) == Some(table_of(v->Record_val@[0].value->vals, unit, 2)),
        !(v->Record_val@.len() == 1 && is_table(v->Record_val@[0].value)) ==> ({
            let store = store_of(v, unit, depth + 1);
            let fields = v->Record_val@;
            &&& store is Some
            &&& store->0.columns == seq!["field"@, "value"@]
            &&& store->0.rows.len() == fields.len()
            &&& 0 <= i < fields.len() ==> store->0.rows[i].len() == 2 && store->0.rows[i][0].text
                == fields[i].name@ && store->0.rows[i][1] == cell_of(
                "value"@,
                fields[i].value,
                unit,
                depth,
            )
        }),
{
}

/// A closure sorts by its word, and a list or record by what its cell says, without regard to
/// case; none of them has a kind of its own.
pub proof fn law_structures_sort_by_what_they_say(
    column: Seq<char>,
    v: NuValue,
    unit: DurationUnit,
    depth: nat,
)
    ensures
        v is Closure ==> cell_of(column, v, unit, depth).sort == SortView::Text("<closure>"@),
        v is List || v is Record ==> cell_of(column, v, unit, depth).sort == SortView::Text(
            lowercase(cell_of(column, v, unit, depth).text),
        ),
        v is List || v is Record || v is Closure ==> cell_of(column, v, unit, depth).kind
            == CellKind::Other,
{
}

} // verus!
