//! The commands and variables in scope, as tables.

use crate::cells::{
    cell_of, lemma_store_from_rows, shallow_cell, shallow_value_cell, shows_row, value_cell,
};
use crate::listing::{places, text_option};
use crate::result::{text_cell, Cell, CellView, ResultStore, StoreView};
use crate::order::{
    lemma_one_order, lemma_text_order_same, lemma_text_order_transitive, lemma_text_order_turns,
};
use crate::text::{compare_text, lowercase, text_order, texts, Order};
use crate::value::{bool_str, bool_text, field_place, find_field, DurationUnit, Field, NuValue};
use vstd::prelude::*;

verus! {

/// A command in scope.
#[derive(Debug)]
pub struct CommandInfo {
    pub name: String,
    pub category: String,
    pub kind: String,
    pub description: String,
    pub is_alias: bool,
}

/// A command as its name, its category, its type, its description and whether it is an
/// alias.
pub open spec fn command_view(command: CommandInfo) -> (
    Seq<char>,
    Seq<char>,
    Seq<char>,
    Seq<char>,
    bool,
) {
    (
        command.name@,
        command.category@,
        command.kind@,
        command.description@,
        command.is_alias,
    )
}

/// Commands as characters.
pub open spec fn command_views(commands: Seq<CommandInfo>) -> Seq<
    (Seq<char>, Seq<char>, Seq<char>, Seq<char>, bool),
> {
    commands.map_values(|command: CommandInfo| command_view(command))
}

/// The row of a command.
pub open spec fn command_cells(
    command: (Seq<char>, Seq<char>, Seq<char>, Seq<char>, bool),
) -> Seq<CellView> {
    seq![
        text_cell(command.0),
        text_cell(command.1),
        text_cell(command.2),
        text_cell(command.3),
    ]
}

/// The rows of the commands that are no aliases.
pub open spec fn command_rows(
    commands: Seq<(Seq<char>, Seq<char>, Seq<char>, Seq<char>, bool)>,
) -> Seq<Seq<CellView>>
    decreases commands.len(),
{
    if commands.len() == 0 {
        Seq::empty()
    } else {
        let before = command_rows(commands.drop_last());
        if commands.last().4 {
            before
        } else {
            before.push(command_cells(commands.last()))
        }
    }
}

/// Every command that is no alias has its row, and every row is that of such a command.
pub proof fn law_catalog_lists_every_command(
    commands: Seq<(Seq<char>, Seq<char>, Seq<char>, Seq<char>, bool)>,
)
    ensures
        forall|i: int|
            0 <= i < commands.len() && !(#[trigger] commands[i]).4 ==> command_rows(
                commands,
            ).contains(command_cells(commands[i])),
        forall|k: int|
            0 <= k < command_rows(commands).len() ==> exists|i: int|
                0 <= i < commands.len() && !(#[trigger] commands[i]).4 && (
                #[trigger] command_rows(commands)[k]) == command_cells(commands[i]),
    decreases commands.len(),
{
    if commands.len() > 0 {
        let front = commands.drop_last();
        law_catalog_lists_every_command(front);
        let before = command_rows(front);
        let all = command_rows(commands);
        assert forall|i: int|
            0 <= i < commands.len() && !(#[trigger] commands[i]).4 implies all.contains(
            command_cells(commands[i]),
        ) by {
            if i < front.len() {
                assert(front[i] == commands[i]);
                assert(before.contains(command_cells(front[i])));
                let k = choose|k: int|
                    0 <= k < before.len() && before[k] == command_cells(front[i]);
                assert(all[k] == command_cells(commands[i]));
            } else {
                assert(all[all.len() - 1] == command_cells(commands[i]));
            }
        }
        assert forall|k: int| 0 <= k < all.len() implies exists|i: int|
            0 <= i < commands.len() && !(#[trigger] commands[i]).4 && (#[trigger] all[k])
                == command_cells(commands[i]) by {
            if k < before.len() {
                assert(all[k] == before[k]);
                let i = choose|i: int|
                    0 <= i < front.len() && !(#[trigger] front[i]).4 && before[k] == command_cells(
                        front[i],
                    );
                assert(commands[i] == front[i]);
                assert(!commands[i].4 && all[k] == command_cells(commands[i]));
            } else {
                let i = commands.len() - 1;
                assert(!commands[i].4 && all[k] == command_cells(commands[i]));
            }
        }
    }
}

fn four_texts(a: &str, b: &str, c: &str, d: &str) -> (list: Vec<String>)
    ensures
        texts(list@) == seq![a@, b@, c@, d@],
{
    let mut list: Vec<String> = Vec::new();
    list.push(a.to_owned());
    list.push(b.to_owned());
    list.push(c.to_owned());
    list.push(d.to_owned());
    assert(texts(list@) =~= seq![a@, b@, c@, d@]);
    list
}

fn four_cells(a: Cell, b: Cell, c: Cell, d: Cell) -> (row: Vec<Cell>)
    ensures
        shows_row(row, seq![a@, b@, c@, d@]),
{
    let mut row: Vec<Cell> = Vec::new();
    row.push(a);
    row.push(b);
    row.push(c);
    row.push(d);
    row
}

/// The table of some commands.
pub open spec fn commands_table(
    commands: Seq<(Seq<char>, Seq<char>, Seq<char>, Seq<char>, bool)>,
) -> StoreView {
    StoreView {
        columns: seq!["name"@, "category"@, "type"@, "description"@],
        rows: command_rows(commands),
    }
}

/// The commands that an engine declares, in the order of their names.
pub uninterp spec fn engine_commands(engine_state: nu_protocol::engine::EngineState) -> Seq<
    (Seq<char>, Seq<char>, Seq<char>, Seq<char>, bool),
>;

/// The commands that an engine knows, by `EngineState::get_decls_sorted` without the hidden
/// ones and `EngineState::get_decl`: of each, its name with replacement characters where
/// that is no UTF-8, and what the declaration says of its category, its type, its
/// description and whether it is an alias. They depend on the engine's state alone, which is
/// opaque here.
#[verifier::external_body]
fn declared_commands(engine_state: &nu_protocol::engine::EngineState) -> (commands: Vec<
    CommandInfo,
>)
    ensures
        command_views(commands@) == engine_commands(*engine_state),
{
    let declared = engine_state.get_decls_sorted(false).into_iter();
    declared.map(|(name, id)| {
        let decl = engine_state.get_decl(id);
        CommandInfo {
            name: String::from_utf8_lossy(&name).into_owned(),
            category: decl.signature().category.to_string(),
            kind: decl.command_type().to_string(),
            description: decl.description().to_string(),
            is_alias: decl.is_alias(),
        }
    }).collect()
}

/// The commands in scope as a table.
pub fn collect_command_store(engine_state: &nu_protocol::engine::EngineState) -> (store:
    ResultStore)
    ensures
        store@ == commands_table(engine_commands(*engine_state)),
{
    let commands = declared_commands(engine_state);
    command_store(&commands)
}

/// Some commands as a table. An alias is left out.
pub fn command_store(commands: &Vec<CommandInfo>) -> (store: ResultStore)
    ensures
        store@ == commands_table(command_views(commands@)),
{
    let mut rows: Vec<Vec<Cell>> = Vec::new();
    let n: usize = commands.len();
    let ghost all = command_views(commands@);
    assert(all.take(0) =~= Seq::empty());
    for i in 0..n
        invariant
            n == commands@.len(),
            all == command_views(commands@),
            rows@.len() == command_rows(all.take(i as int)).len(),
            forall|k: int|
                0 <= k < rows@.len() ==> shows_row(
                    #[trigger] rows@[k],
                    command_rows(all.take(i as int))[k],
                ),
    {
        assert(all.take(i + 1).drop_last() =~= all.take(i as int));
        assert(all.take(i + 1).last() == command_view(commands@[i as int]));
        if !commands[i].is_alias {
            let row = four_cells(
                Cell::text(commands[i].name.as_str()),
                Cell::text(commands[i].category.as_str()),
                Cell::text(commands[i].kind.as_str()),
                Cell::text(commands[i].description.as_str()),
            );
            assert(shows_row(row, command_cells(all[i as int])));
            rows.push(row);
        }
    }
    assert(all.take(n as int) =~= all);
    let store = ResultStore { columns: four_texts("name", "category", "type", "description"), rows };
    proof {
        lemma_store_from_rows(store, command_rows(all));
    }
    store
}

// ---------------------------------------------------------------------------------------
// Variables

/// The text in a field of a record.
pub open spec fn text_field(fields: Seq<Field>, name: Seq<char>) -> Option<Seq<char>> {
    match field_place(fields, name) {
        Some(i) => match fields[i].value {
            NuValue::Text { val, .. } => Some(val@),
            _ => None,
        },
        None => None,
    }
}

/// Whether a field of a record holds the truth value true.
pub open spec fn true_field(fields: Seq<Field>, name: Seq<char>) -> bool {
    match field_place(fields, name) {
        Some(i) => match fields[i].value {
            NuValue::Bool { val, .. } => val,
            _ => false,
        },
        None => false,
    }
}

/// The row of a variable: its name, its type, its value with one level of structure, and
/// whether it is constant. A value that is no record with a name has none.
pub open spec fn variable_cells(v: NuValue, unit: DurationUnit) -> Option<Seq<CellView>> {
    match v {
        NuValue::Record { val } => match text_field(val@, "name"@) {
            Some(name) => Some(
                seq![
                    text_cell(name),
                    text_cell(
                        match text_field(val@, "type"@) {
                            Some(ty) => ty,
                            None => "any"@,
                        },
                    ),
                    match field_place(val@, "value"@) {
                        Some(i) => shallow_cell(val@[i].value, unit),
                        None => text_cell("—"@),
                    },
                    text_cell(bool_text(true_field(val@, "is_const"@))),
                ],
            ),
            None => None,
        },
        _ => None,
    }
}

/// The rows of the values that have one.
pub open spec fn variable_rows(vals: Seq<NuValue>, unit: DurationUnit) -> Seq<Seq<CellView>>
    decreases vals.len(),
{
    if vals.len() == 0 {
        Seq::empty()
    } else {
        let before = variable_rows(vals.drop_last(), unit);
        match variable_cells(vals.last(), unit) {
            Some(row) => before.push(row),
            None => before,
        }
    }
}

fn read_text_field(fields: &Vec<Field>, name: &str) -> (text: Option<String>)
    ensures
        text_option(text) == text_field(fields@, name@),
{
    match find_field(fields, name) {
        Some(i) => match &fields[i].value {
            NuValue::Text { val, .. } => Some(val.clone()),
            _ => None,
        },
        None => None,
    }
}

fn read_true_field(fields: &Vec<Field>, name: &str) -> (yes: bool)
    ensures
        yes == true_field(fields@, name@),
{
    match find_field(fields, name) {
        Some(i) => match &fields[i].value {
            NuValue::Bool { val, .. } => *val,
            _ => false,
        },
        None => false,
    }
}

/// Whether there is a row of cells with a view, or neither.
pub open spec fn shows_option(row: Option<Vec<Cell>>, view: Option<Seq<CellView>>) -> bool {
    match row {
        Some(row) => view is Some && shows_row(row, view->0),
        None => view is None,
    }
}

/// The row of a variable.
pub fn variable_row(value: &NuValue, unit: DurationUnit) -> (row: Option<Vec<Cell>>)
    ensures
        shows_option(row, variable_cells(*value, unit)),
{
    let fields = match value {
        NuValue::Record { val } => val,
        _ => {
            return None;
        },
    };
    let name = match read_text_field(fields, "name") {
        Some(name) => name,
        None => {
            return None;
        },
    };
    let ty = match read_text_field(fields, "type") {
        Some(ty) => ty,
        None => "any".to_owned(),
    };
    let shown = match find_field(fields, "value") {
        Some(i) => shallow_value_cell(&fields[i].value, unit),
        None => Cell::text("—"),
    };
    Some(
        four_cells(
            Cell::text(name.as_str()),
            Cell::text(ty.as_str()),
            shown,
            Cell::text(bool_str(read_true_field(fields, "is_const"))),
        ),
    )
}

/// The header of the table of variables.
pub open spec fn variable_columns() -> Seq<Seq<char>> {
    seq!["name"@, "type"@, "value"@, "is_const"@]
}

/// The table that stands in where no variable is known: the environment alone.
pub open spec fn environment_store(env: NuValue, unit: DurationUnit) -> StoreView {
    StoreView {
        columns: variable_columns(),
        rows: seq![
            seq![
                text_cell("$env"@),
                text_cell("record"@),
                cell_of("value"@, env, unit, 2),
                text_cell("false"@),
            ],
        ],
    }
}

/// The table that stands in where no variable is known.
pub fn env_fallback_store(env: &NuValue, unit: DurationUnit) -> (store: ResultStore)
    ensures
        store@ == environment_store(*env, unit),
{
    let row = four_cells(
        Cell::text("$env"),
        Cell::text("record"),
        value_cell("value", env, unit, 2),
        Cell::text("false"),
    );
    let mut rows: Vec<Vec<Cell>> = Vec::new();
    rows.push(row);
    let store = ResultStore { columns: four_texts("name", "type", "value", "is_const"), rows };
    proof {
        let want = environment_store(*env, unit).rows;
        assert(shows_row(store.rows@[0], want[0]));
        lemma_store_from_rows(store, want);
    }
    store
}

// ---------------------------------------------------------------------------------------
// Alphabetical order

/// Whether a list of places puts the first `n` keys in alphabetical order, equal ones as
/// they come.
pub open spec fn alphabetical(keys: Seq<Seq<char>>, n: int, order: Seq<int>) -> bool {
    &&& order.len() == n
    &&& order.no_duplicates()
    &&& forall|x: int| #[trigger] order.contains(x) <==> 0 <= x < n
    &&& forall|i: int, j: int|
        0 <= i < j < order.len() ==> key_before(keys, #[trigger] order[i], #[trigger] order[j])
}

/// Whether a key goes before another: by the text, or by the place where they are equal.
pub open spec fn key_before(keys: Seq<Seq<char>>, a: int, b: int) -> bool {
    let order = text_order(keys[a], keys[b]);
    order == Order::Before || (order == Order::Same && a < b)
}

proof fn lemma_insert_place(keys: Seq<Seq<char>>, n: int, order: Seq<int>, at: int)
    requires
        0 <= n < keys.len(),
        alphabetical(keys, n, order),
        0 <= at <= n,
        forall|k: int| 0 <= k < at ==> text_order(keys[#[trigger] order[k]], keys[n]) != Order::After,
        at < n ==> text_order(keys[order[at]], keys[n]) == Order::After,
    ensures
        alphabetical(keys, n + 1, order.insert(at, n)),
{
    let all = order.insert(at, n);
    assert forall|k: int| 0 <= k < n implies 0 <= #[trigger] order[k] < n by {
        assert(order.contains(order[k]));
    }
    assert forall|x: int| #[trigger] all.contains(x) <==> 0 <= x < n + 1 by {
        if all.contains(x) {
            let k = choose|k: int| 0 <= k < all.len() && all[k] == x;
            if k < at {
                assert(order[k] == x);
            } else if k > at {
                assert(order[k - 1] == x);
            }
        }
        if 0 <= x < n {
            assert(order.contains(x));
            let k = choose|k: int| 0 <= k < order.len() && order[k] == x;
            assert(all[if k < at {
                k
            } else {
                k + 1
            }] == x);
        }
        if x == n {
            assert(all[at] == x);
        }
    }
    assert forall|i: int, j: int| 0 <= i < j < all.len() implies key_before(
        keys,
        #[trigger] all[i],
        #[trigger] all[j],
    ) by {
        if j < at {
            assert(all[i] == order[i] && all[j] == order[j]);
        } else if j == at {
            assert(all[i] == order[i]);
        } else if i < at {
            assert(all[i] == order[i] && all[j] == order[j - 1]);
        } else if i > at {
            assert(all[i] == order[i - 1] && all[j] == order[j - 1]);
        } else {
            let x = keys[order[at]];
            let y = keys[order[j - 1]];
            assert(all[j] == order[j - 1]);
            lemma_text_order_turns(x, keys[n]);
            if j - 1 > at {
                assert(key_before(keys, order[at], order[j - 1]));
                lemma_text_order_transitive(keys[n], x, y);
                lemma_text_order_same(keys[n], y);
                if keys[n] == y {
                    lemma_text_order_turns(x, y);
                }
            }
        }
    }
    assert(all.no_duplicates()) by {
        assert forall|i: int, j: int| 0 <= i < j < all.len() implies all[i] != all[j] by {
            if j < at {
                assert(all[i] == order[i] && all[j] == order[j]);
            } else if j == at {
                assert(all[i] == order[i]);
            } else if i < at {
                assert(all[i] == order[i] && all[j] == order[j - 1]);
            } else if i > at {
                assert(all[i] == order[i - 1] && all[j] == order[j - 1]);
            } else {
                assert(all[j] == order[j - 1]);
            }
        }
    }
}

/// Puts keys in alphabetical order.
fn alphabetical_order(keys: &Vec<String>) -> (order: Vec<usize>)
    ensures
        alphabetical(texts(keys@), keys@.len() as int, places(order@)),
{
    let mut order: Vec<usize> = Vec::new();
    let n: usize = keys.len();
    let ghost all = texts(keys@);
    assert(places(order@) =~= Seq::empty());
    for i in 0..n
        invariant
            n == keys@.len(),
            all == texts(keys@),
            alphabetical(all, i as int, places(order@)),
    {
        let ghost before = places(order@);
        let m: usize = order.len();
        assert forall|k: int| 0 <= k < m implies #[trigger] order@[k] < i by {
            assert(before[k] == order@[k] as int);
            assert(before.contains(before[k]));
        }
        let mut at: usize = 0;
        while at < m && compare_text(keys[order[at]].as_str(), keys[i].as_str()) != Order::After
            invariant
                n == keys@.len(),
                i < n,
                m == order@.len(),
                m == i,
                at <= m,
                all == texts(keys@),
                before == places(order@),
                forall|k: int| 0 <= k < m ==> #[trigger] order@[k] < i,
                forall|k: int|
                    0 <= k < at ==> text_order(all[#[trigger] before[k]], all[i as int])
                        != Order::After,
            ensures
                at <= m,
                forall|k: int|
                    0 <= k < at ==> text_order(all[#[trigger] before[k]], all[i as int])
                        != Order::After,
                at < m ==> text_order(all[before[at as int]], all[i as int]) == Order::After,
            decreases m - at,
        {
            assert(before[at as int] == order@[at as int] as int);
            at += 1;
        }
        proof {
            lemma_insert_place(all, i as int, before, at as int);
        }
        order.insert(at, i);
        assert(places(order@) =~= before.insert(at as int, i as int));
    }
    order
}

/// There is one alphabetical order of keys.
pub proof fn law_alphabetical_order_is_unique(
    keys: Seq<Seq<char>>,
    first: Seq<int>,
    second: Seq<int>,
)
    requires
        alphabetical(keys, keys.len() as int, first),
        alphabetical(keys, keys.len() as int, second),
    ensures
        first == second,
{
    let before = |a: int, b: int| key_before(keys, a, b);
    assert forall|a: int, b: int| a != b && #[trigger] before(a, b) implies !before(b, a) by {
        lemma_text_order_turns(keys[a], keys[b]);
    }
    assert forall|i: int, j: int| 0 <= i < j < first.len() implies before(
        #[trigger] first[i],
        #[trigger] first[j],
    ) by {}
    assert forall|i: int, j: int| 0 <= i < j < second.len() implies before(
        #[trigger] second[i],
        #[trigger] second[j],
    ) by {}
    lemma_one_order(before, first, second);
}

/// The names of some rows, without regard to case.
pub open spec fn row_names(rows: Seq<Seq<CellView>>) -> Seq<Seq<char>> {
    Seq::new(rows.len(), |i: int| lowercase(rows[i][0].text))
}

/// Rows in another order.
pub open spec fn rows_in(rows: Seq<Seq<CellView>>, order: Seq<int>) -> Seq<Seq<CellView>> {
    Seq::new(order.len(), |i: int| rows[order[i]])
}

/// Whether a store is the table of some variables: their rows in the alphabetical order of
/// their names, or the environment alone where there are none.
pub open spec fn shows_variables(
    store: StoreView,
    vals: Seq<NuValue>,
    env: NuValue,
    unit: DurationUnit,
) -> bool {
    let rows = variable_rows(vals, unit);
    if rows.len() == 0 {
        store == environment_store(env, unit)
    } else {
        &&& store.columns == variable_columns()
        &&& exists|order: Seq<int>| #[trigger]
            alphabetical(row_names(rows), rows.len() as int, order) && store.rows == rows_in(
                rows,
                order,
            )
    }
}

fn clone_row(row: &Vec<Cell>, Ghost(view): Ghost<Seq<CellView>>) -> (copy: Vec<Cell>)
    requires
        shows_row(*row, view),
    ensures
        shows_row(copy, view),
{
    let mut copy: Vec<Cell> = Vec::new();
    let n: usize = row.len();
    for j in 0..n
        invariant
            n == row@.len(),
            shows_row(*row, view),
            copy@.len() == j,
            forall|k: int| 0 <= k < j ==> (#[trigger] copy@[k])@ == view[k],
    {
        assert(row@[j as int]@ == view[j as int]);
        copy.push(row[j].clone());
    }
    copy
}

proof fn lemma_variable_rows(vals: Seq<NuValue>, unit: DurationUnit)
    ensures
        forall|i: int|
            0 <= i < variable_rows(vals, unit).len() ==> (
            #[trigger] variable_rows(vals, unit)[i]).len() == 4,
    decreases vals.len(),
{
    if vals.len() > 0 {
        lemma_variable_rows(vals.drop_last(), unit);
        let before = variable_rows(vals.drop_last(), unit);
        let all = variable_rows(vals, unit);
        assert forall|i: int| 0 <= i < all.len() implies (#[trigger] all[i]).len() == 4 by {
            if i < before.len() {
                assert(all[i] == before[i]);
            }
        }
    }
}

/// The variables in scope as a table.
pub fn collect_variable_store(vals: &Vec<NuValue>, env: &NuValue, unit: DurationUnit) -> (store:
    ResultStore)
    ensures
        shows_variables(store@, vals@, *env, unit),
{
    let mut rows: Vec<Vec<Cell>> = Vec::new();
    let n: usize = vals.len();
    assert(vals@.take(0) =~= Seq::empty());
    for i in 0..n
        invariant
            n == vals@.len(),
            rows@.len() == variable_rows(vals@.take(i as int), unit).len(),
            forall|k: int|
                0 <= k < rows@.len() ==> shows_row(
                    #[trigger] rows@[k],
                    variable_rows(vals@.take(i as int), unit)[k],
                ),
    {
        assert(vals@.take(i + 1).drop_last() =~= vals@.take(i as int));
        assert(vals@.take(i + 1).last() == vals@[i as int]);
        if let Some(row) = variable_row(&vals[i], unit) {
            rows.push(row);
        }
    }
    assert(vals@.take(n as int) =~= vals@);
    let ghost raw = variable_rows(vals@, unit);
    if rows.len() == 0 {
        return env_fallback_store(env, unit);
    }
    proof {
        lemma_variable_rows(vals@, unit);
    }
    let mut keys: Vec<String> = Vec::new();
    let m: usize = rows.len();
    for i in 0..m
        invariant
            m == rows@.len(),
            m == raw.len(),
            forall|k: int| 0 <= k < m ==> shows_row(#[trigger] rows@[k], raw[k]),
            forall|k: int| 0 <= k < m ==> (#[trigger] raw[k]).len() == 4,
            keys@.len() == i,
            forall|k: int| 0 <= k < i ==> (#[trigger] keys@[k])@ == row_names(raw)[k],
    {
        assert(shows_row(rows@[i as int], raw[i as int]));
        assert(raw[i as int].len() == 4);
        assert(rows@[i as int]@[0]@ == raw[i as int][0]);
        keys.push(rows[i][0].text.as_str().to_lowercase());
    }
    assert(texts(keys@) =~= row_names(raw));
    let order = alphabetical_order(&keys);
    let ghost placed = places(order@);
    let mut sorted: Vec<Vec<Cell>> = Vec::new();
    for i in 0..m
        invariant
            m == rows@.len(),
            m == raw.len(),
            m == order@.len(),
            placed == places(order@),
            alphabetical(row_names(raw), m as int, placed),
            forall|k: int| 0 <= k < m ==> shows_row(#[trigger] rows@[k], raw[k]),
            sorted@.len() == i,
            forall|k: int|
                0 <= k < i ==> shows_row(#[trigger] sorted@[k], rows_in(raw, placed)[k]),
    {
        assert(placed[i as int] == order@[i as int] as int);
        assert(placed.contains(placed[i as int]));
        let row = clone_row(&rows[order[i]], Ghost(raw[placed[i as int]]));
        assert(shows_row(row, rows_in(raw, placed)[i as int]));
        sorted.push(row);
    }
    let store = ResultStore {
        columns: four_texts("name", "type", "value", "is_const"),
        rows: sorted,
    };
    proof {
        lemma_store_from_rows(store, rows_in(raw, placed));
        assert(alphabetical(row_names(raw), raw.len() as int, placed));
    }
    store
}

// ---------------------------------------------------------------------------------------
// Laws

/// The row of a command has its name, its category, its type and its description.
pub proof fn law_command_rows(
    command: (Seq<char>, Seq<char>, Seq<char>, Seq<char>, bool),
    before: Seq<(Seq<char>, Seq<char>, Seq<char>, Seq<char>, bool)>,
)
    ensures
        command_cells(command).len() == 4,
        command_cells(command)[0].text == command.0,
        command_cells(command)[1].text == command.1,
        command_cells(command)[2].text == command.2,
        command_cells(command)[3].text == command.3,
        command_rows(before.push(command)) == (if command.4 {
            command_rows(before)
        } else {
            command_rows(before).push(command_cells(command))
        }),
{
    assert(before.push(command).drop_last() =~= before);
}

/// The row of a variable has the name, the type, the value and the constness that its
/// description gives; without a name there is no row, and what else is missing is `any`, a
/// dash and false.
pub proof fn law_variable_rows_tell_their_variable(
    v: NuValue,
    unit: DurationUnit,
    name: int,
    ty: int,
    value: int,
    constant: int,
)
    requires
        v is Record,
    ensures
        ({
            let fields = v->Record_val@;
            let row = variable_cells(v, unit);
            &&& field_place(fields, "name"@) == Some(name) && fields[name].value is Text ==> {
                &&& row is Some
                &&& row->0.len() == 4
                &&& row->0[0].text == fields[name].value->Text_val@
                &&& field_place(fields, "type"@) == Some(ty) && fields[ty].value is Text
                    ==> row->0[1].text == fields[ty].value->Text_val@
                &&& field_place(fields, "type"@) is None ==> row->0[1].text == "any"@
                &&& field_place(fields, "value"@) == Some(value) ==> row->0[2] == shallow_cell(
                    fields[value].value,
                    unit,
                )
                &&& field_place(fields, "value"@) is None ==> row->0[2].text == "—"@
                &&& field_place(fields, "is_const"@) == Some(constant)
                    && fields[constant].value is Bool ==> row->0[3].text == (
                if fields[constant].value->Bool_val {
                    "true"@
                } else {
                    "false"@
                })
                &&& field_place(fields, "is_const"@) is None ==> row->0[3].text == "false"@
            }
            &&& field_place(fields, "name"@) is None ==> row is None
        }),
{
}

/// The tables of commands and of variables name their four columns, and the table that
/// stands in for no variables shows the environment in its one row, with two levels of
/// structure.
pub proof fn law_tables_name_their_columns(
    commands: Seq<(Seq<char>, Seq<char>, Seq<char>, Seq<char>, bool)>,
    env: NuValue,
    unit: DurationUnit,
)
    ensures
        commands_table(commands).columns == seq!["name"@, "category"@, "type"@, "description"@],
        commands_table(commands).rows == command_rows(commands),
        environment_store(env, unit).columns == seq!["name"@, "type"@, "value"@, "is_const"@],
        environment_store(env, unit).rows.len() == 1,
        environment_store(env, unit).rows[0].len() == 4,
        environment_store(env, unit).rows[0][0].text == "$env"@,
        environment_store(env, unit).rows[0][1].text == "record"@,
        environment_store(env, unit).rows[0][2] == cell_of("value"@, env, unit, 2),
        environment_store(env, unit).rows[0][3].text == "false"@,
{
}

/// Each variable with a name adds its row after those before it, and no other value does.
pub proof fn law_variables_add_their_rows(vals: Seq<NuValue>, v: NuValue, unit: DurationUnit)
    ensures
        variable_cells(v, unit) matches Some(row) ==> variable_rows(vals.push(v), unit)
            == variable_rows(vals, unit).push(row),
        variable_cells(v, unit) is None ==> variable_rows(vals.push(v), unit) == variable_rows(
            vals,
            unit,
        ),
{
    assert(vals.push(v).drop_last() =~= vals);
}

/// The table of variables has the columns of variables and a row for each variable with a
/// name; of two of its rows the one whose name goes first by its lower case stands first.
pub proof fn law_variables_are_in_alphabetical_order(
    store: StoreView,
    vals: Seq<NuValue>,
    env: NuValue,
    unit: DurationUnit,
    i: int,
    j: int,
)
    requires
        shows_variables(store, vals, env, unit),
        variable_rows(vals, unit).len() > 0,
        0 <= i < j < store.rows.len(),
    ensures
        store.columns == seq!["name"@, "type"@, "value"@, "is_const"@],
        store.rows.len() == variable_rows(vals, unit).len(),
        variable_rows(vals, unit).contains(store.rows[i]),
        text_order(lowercase(store.rows[i][0].text), lowercase(store.rows[j][0].text))
            != Order::After,
{
    let rows = variable_rows(vals, unit);
    let order = choose|order: Seq<int>|
        alphabetical(row_names(rows), rows.len() as int, order) && store.rows == rows_in(
            rows,
            order,
        );
    assert(alphabetical(row_names(rows), rows.len() as int, order));
    assert(order.contains(order[i]));
    assert(order.contains(order[j]));
    assert(key_before(row_names(rows), order[i], order[j]));
    assert(store.rows[i] == rows[order[i]]);
}

/// Without a variable the table shows the environment.
pub proof fn law_the_environment_stands_in(
    store: StoreView,
    vals: Seq<NuValue>,
    env: NuValue,
    unit: DurationUnit,
)
    requires
        shows_variables(store, vals, env, unit),
        variable_rows(vals, unit).len() == 0,
    ensures
        store.rows.len() == 1,
        store.rows[0][0].text == "$env"@,
        store.rows[0][2] == cell_of("value"@, env, unit, 2),
{
}

/// Equal names keep the order in which their variables come.
pub proof fn law_equal_names_keep_their_order(
    keys: Seq<Seq<char>>,
    order: Seq<int>,
    i: int,
    j: int,
)
    requires
        alphabetical(keys, keys.len() as int, order),
        0 <= i < j < order.len(),
        keys[order[i]] == keys[order[j]],
    ensures
        order[i] < order[j],
{
    lemma_text_order_turns(keys[order[i]], keys[order[j]]);
    assert(key_before(keys, order[i], order[j]));
}

} // verus!
