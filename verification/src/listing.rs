//! View-only sort and filter on a Result store.

use crate::order::{
    alike, compare_keys, lemma_one_order, law_sort_order_is_transitive, law_sort_order_turns,
    lemma_text_order_same, lemma_text_order_transitive, lemma_text_order_turns, sort_order, turn,
    turned,
};
use crate::result::{Cell, CellView, ResultStore, StoreView};
use crate::text::{
    compare_text, contains_text, lowercase, occurs_in, str_eq, text_order, texts, trim, trimmed,
    Order,
};
use vstd::multiset::Multiset;
use vstd::prelude::*;

verus! {

/// View-only sort/filter on a Result store.
#[derive(Debug)]
pub struct TableView {
    pub sort_col: Option<usize>,
    pub sort_asc: bool,
    /// Exact-match filter per column (`None` = no column filter).
    pub equals: Vec<Option<String>>,
    /// Substring search across all columns.
    pub search: String,
}

/// A table view as characters and numbers.
pub struct TableLook {
    pub sort_col: Option<usize>,
    pub sort_asc: bool,
    pub equals: Seq<Option<Seq<char>>>,
    pub search: Seq<char>,
}

pub open spec fn text_option(text: Option<String>) -> Option<Seq<char>> {
    match text {
        Some(text) => Some(text@),
        None => None,
    }
}

impl View for TableView {
    type V = TableLook;

    open spec fn view(&self) -> TableLook {
        TableLook {
            sort_col: self.sort_col,
            sort_asc: self.sort_asc,
            equals: self.equals@.map_values(|text: Option<String>| text_option(text)),
            search: self.search@,
        }
    }
}

impl Clone for TableView {
    fn clone(&self) -> (copy: Self)
        ensures
            copy@ == self@,
    {
        let mut equals: Vec<Option<String>> = Vec::new();
        let n: usize = self.equals.len();
        for i in 0..n
            invariant
                n == self.equals@.len(),
                equals@.len() == i,
                forall|k: int|
                    0 <= k < i ==> text_option(#[trigger] equals@[k]) == text_option(
                        self.equals@[k],
                    ),
        {
            equals.push(clone_option(&self.equals[i]));
        }
        let copy = TableView {
            sort_col: self.sort_col,
            sort_asc: self.sort_asc,
            equals,
            search: self.search.clone(),
        };
        assert(copy@.equals =~= self@.equals);
        copy
    }
}

/// A copy of a text that may be there.
pub fn clone_option(text: &Option<String>) -> (copy: Option<String>)
    ensures
        text_option(copy) == text_option(*text),
{
    match text {
        Some(text) => Some(text.clone()),
        None => None,
    }
}

/// A view of a number of columns that shows every row as it comes.
pub open spec fn plain_look(n: nat) -> TableLook {
    TableLook {
        sort_col: None,
        sort_asc: true,
        equals: Seq::new(n, |i: int| None),
        search: Seq::empty(),
    }
}

/// The sort after a click on a column: ascending, then descending, then none.
pub open spec fn cycled(look: TableLook, col: usize) -> TableLook {
    if look.sort_col != Some(col) {
        TableLook { sort_col: Some(col), sort_asc: true, ..look }
    } else if look.sort_asc {
        TableLook { sort_asc: false, ..look }
    } else {
        TableLook { sort_col: None, sort_asc: true, ..look }
    }
}

impl Default for TableView {
    fn default() -> (view: Self)
        ensures
            view@ == (TableLook {
                sort_col: None,
                sort_asc: false,
                equals: Seq::empty(),
                search: Seq::empty(),
            }),
    {
        let view = TableView {
            sort_col: None,
            sort_asc: false,
            equals: Vec::new(),
            search: String::new(),
        };
        assert(view@.equals =~= Seq::empty());
        view
    }
}

impl TableView {
    /// A view of a number of columns that shows every row as it comes.
    pub fn for_columns(n: usize) -> (view: Self)
        ensures
            view@ == plain_look(n as nat),
    {
        let mut equals: Vec<Option<String>> = Vec::new();
        for i in 0..n
            invariant
                equals@.len() == i,
                forall|k: int| 0 <= k < i ==> #[trigger] equals@[k] is None,
        {
            equals.push(None);
        }
        let view = TableView { sort_col: None, sort_asc: true, equals, search: String::new() };
        assert(view@.equals =~= plain_look(n as nat).equals);
        view
    }

    /// Takes a click on a column: ascending, then descending, then no sort.
    pub fn cycle_sort(&mut self, col: usize)
        ensures
            final(self)@ == cycled(old(self)@, col),
    {
        match self.sort_col {
            Some(current) if current == col => {
                if self.sort_asc {
                    self.sort_asc = false;
                } else {
                    self.sort_col = None;
                    self.sort_asc = true;
                }
            },
            _ => {
                self.sort_col = Some(col);
                self.sort_asc = true;
            },
        }
    }
}

// ---------------------------------------------------------------------------------------
// Which rows a view shows

/// The text of a row's cell, empty where the row has no such cell.
pub open spec fn text_or_empty(row: Seq<CellView>, col: int) -> Seq<char> {
    if 0 <= col < row.len() {
        row[col].text
    } else {
        Seq::empty()
    }
}

/// Whether a row has the text that each column filter asks for.
pub open spec fn passes_filters(row: Seq<CellView>, equals: Seq<Option<Seq<char>>>) -> bool {
    forall|col: int|
        0 <= col < equals.len() && (#[trigger] equals[col]) is Some ==> text_or_empty(row, col)
            == equals[col]->0
}

/// Whether a cell of a row holds a text, without regard to case.
pub open spec fn holds_text(row: Seq<CellView>, search: Seq<char>) -> bool {
    exists|col: int|
        0 <= col < row.len() && occurs_in(lowercase((#[trigger] row[col]).text), search)
}

/// A text without regard to case; an empty text stays empty.
pub open spec fn folded(text: Seq<char>) -> Seq<char> {
    if text.len() == 0 {
        text
    } else {
        lowercase(text)
    }
}

/// A text without regard to case.
pub fn fold_case(text: &str) -> (out: String)
    ensures
        out@ == folded(text@),
{
    if text.is_empty() {
        let out = String::new();
        assert(out@ =~= text@);
        out
    } else {
        text.to_lowercase()
    }
}

/// What a search looks for.
pub open spec fn needle(search: Seq<char>) -> Seq<char> {
    folded(trimmed(search))
}

/// Whether a view shows a row.
pub open spec fn shows(row: Seq<CellView>, look: TableLook) -> bool {
    &&& passes_filters(row, look.equals)
    &&& needle(look.search).len() == 0 || holds_text(row, needle(look.search))
}

/// The places, among the first `n`, of the rows that a view shows.
pub open spec fn matching_of(store: StoreView, look: TableLook, n: nat) -> Seq<int>
    decreases n,
{
    if n == 0 {
        Seq::empty()
    } else {
        let before = matching_of(store, look, (n - 1) as nat);
        if shows(store.rows[n - 1], look) {
            before.push(n - 1)
        } else {
            before
        }
    }
}

/// The places of the rows that a view shows, as they come in the store.
pub open spec fn matching(store: StoreView, look: TableLook) -> Seq<int> {
    matching_of(store, look, store.rows.len())
}

/// Row places as integers.
pub open spec fn places(rows: Seq<usize>) -> Seq<int> {
    rows.map_values(|ix: usize| ix as int)
}

proof fn lemma_matching(store: StoreView, look: TableLook, n: nat)
    ensures
        forall|x: int|
            matching_of(store, look, n).contains(x) <==> 0 <= x < n && shows(store.rows[x], look),
        forall|i: int, j: int|
            0 <= i < j < matching_of(store, look, n).len() ==> matching_of(store, look, n)[i]
                < matching_of(store, look, n)[j],
    decreases n,
{
    let all = matching_of(store, look, n);
    if n > 0 {
        let before = matching_of(store, look, (n - 1) as nat);
        lemma_matching(store, look, (n - 1) as nat);
        assert forall|x: int|
            all.contains(x) <==> 0 <= x < n && shows(store.rows[x], look) by {
            if before.contains(x) {
                let i = choose|i: int| 0 <= i < before.len() && before[i] == x;
                assert(all[i] == x);
            }
            if x == n - 1 && shows(store.rows[x], look) {
                assert(all[all.len() - 1] == x);
            }
            if all.contains(x) {
                let i = choose|i: int| 0 <= i < all.len() && all[i] == x;
                if i < before.len() {
                    assert(before[i] == x);
                }
            }
        }
        assert forall|i: int, j: int| 0 <= i < j < all.len() implies all[i] < all[j] by {
            if j >= before.len() {
                assert(before.contains(before[i]));
            }
        }
    }
}

/// A view shows the rows that its filters and its search accept, each once, and in the
/// order of the store.
pub proof fn law_matching_rows(store: StoreView, look: TableLook)
    ensures
        forall|x: int|
            matching(store, look).contains(x) <==> 0 <= x < store.rows.len() && shows(
                store.rows[x],
                look,
            ),
        forall|i: int, j: int|
            0 <= i < j < matching(store, look).len() ==> matching(store, look)[i] < matching(
                store,
                look,
            )[j],
{
    lemma_matching(store, look, store.rows.len());
}

/// A blank search hides nothing: the view shows the rows that its filters accept, and
/// without filters every row.
pub proof fn law_blank_search_hides_nothing(row: Seq<CellView>, look: TableLook)
    requires
        trimmed(look.search).len() == 0,
    ensures
        shows(row, look) == passes_filters(row, look.equals),
        (forall|col: int|
            0 <= col < look.equals.len() ==> (#[trigger] look.equals[col]) is None) ==> shows(
            row,
            look,
        ),
{
}

fn row_matches(row: &Vec<Cell>, view: &TableView, search: &str, Ghost(shown): Ghost<Seq<CellView>>) -> (yes: bool)
    requires
        shown.len() == row@.len(),
        forall|j: int| 0 <= j < row@.len() ==> #[trigger] shown[j] == row@[j]@,
        search@ == needle(view@.search),
    ensures
        yes == shows(shown, view@),
{
    let filters: usize = view.equals.len();
    for col in 0..filters
        invariant
            filters == view.equals@.len(),
            shown.len() == row@.len(),
            forall|j: int| 0 <= j < row@.len() ==> #[trigger] shown[j] == row@[j]@,
            forall|k: int|
                0 <= k < col && (#[trigger] view@.equals[k]) is Some ==> text_or_empty(shown, k)
                    == view@.equals[k]->0,
    {
        assert(view@.equals[col as int] == text_option(view.equals@[col as int]));
        if let Some(expected) = &view.equals[col] {
            let same = if col < row.len() {
                assert(shown[col as int] == row@[col as int]@);
                str_eq(row[col].text.as_str(), expected.as_str())
            } else {
                assert(""@ =~= Seq::<char>::empty()) by {
                    reveal_strlit("");
                }
                str_eq("", expected.as_str())
            };
            if !same {
                return false;
            }
        }
    }
    if search.is_empty() {
        return true;
    }
    let n: usize = row.len();
    for j in 0..n
        invariant
            n == row@.len(),
            shown.len() == row@.len(),
            forall|j: int| 0 <= j < row@.len() ==> #[trigger] shown[j] == row@[j]@,
            search@ == needle(view@.search),
            search@.len() > 0,
            forall|k: int|
                0 <= k < j ==> !occurs_in(lowercase((#[trigger] shown[k]).text), search@),
            passes_filters(shown, view@.equals),
    {
        assert(shown[j as int] == row@[j as int]@);
        if contains_text(row[j].text.as_str().to_lowercase().as_str(), search) {
            return true;
        }
    }
    false
}

// ---------------------------------------------------------------------------------------
// The order in which a view shows them

/// The order of two rows by a column: by the cells' sort keys, a row without the cell
/// first.
pub open spec fn row_order(store: StoreView, col: int, a: int, b: int) -> Order {
    let left = store.rows[a];
    let right = store.rows[b];
    if 0 <= col < left.len() && 0 <= col < right.len() {
        sort_order(left[col].sort, right[col].sort)
    } else if 0 <= col < right.len() {
        Order::Before
    } else if 0 <= col < left.len() {
        Order::After
    } else {
        Order::Same
    }
}

/// Whether a row goes no later than another: by the column, upwards or downwards, and
/// where that says nothing, by the place in the store.
pub open spec fn at_most(store: StoreView, col: int, ascending: bool, a: int, b: int) -> bool {
    let order = if ascending {
        row_order(store, col, a, b)
    } else {
        turned(row_order(store, col, a, b))
    };
    order == Order::Before || (order == Order::Same && a <= b)
}

/// Whether each row goes no later than the rows after it.
pub open spec fn in_order(store: StoreView, col: int, ascending: bool, rows: Seq<int>) -> bool {
    forall|i: int, j: int|
        0 <= i < j < rows.len() ==> at_most(store, col, ascending, #[trigger] rows[i], #[trigger] rows[j])
}

/// Whether the order by a column is transitive on a set of rows.
pub open spec fn consistent(store: StoreView, col: int, rows: Seq<int>) -> bool {
    forall|a: int, b: int, c: int|
        rows.contains(a) && rows.contains(b) && rows.contains(c) && #[trigger] row_order(
            store,
            col,
            a,
            b,
        ) != Order::After && #[trigger] row_order(store, col, b, c) != Order::After ==> row_order(
            store,
            col,
            a,
            c,
        ) != Order::After
}

/// Whether a list of rows is what a view shows: the rows that it accepts, as they come
/// where it has no sort, and in order where it has one that the sort keys allow.
pub open spec fn listed(store: StoreView, look: TableLook, rows: Seq<int>) -> bool {
    &&& rows.to_multiset() == matching(store, look).to_multiset()
    &&& match look.sort_col {
        None => rows == matching(store, look),
        Some(col) => consistent(store, col as int, matching(store, look)) ==> in_order(
            store,
            col as int,
            look.sort_asc,
            rows,
        ),
    }
}

proof fn lemma_row_order_turns(store: StoreView, col: int, a: int, b: int)
    ensures
        row_order(store, col, b, a) == turned(row_order(store, col, a, b)),
        row_order(store, col, a, a) == Order::Same,
{
    let left = store.rows[a];
    let right = store.rows[b];
    if 0 <= col < left.len() {
        law_sort_order_turns(left[col].sort, left[col].sort);
    }
    if 0 <= col < left.len() && 0 <= col < right.len() {
        law_sort_order_turns(left[col].sort, right[col].sort);
    }
}

proof fn lemma_at_most_total(store: StoreView, col: int, ascending: bool, a: int, b: int)
    ensures
        at_most(store, col, ascending, a, b) || at_most(store, col, ascending, b, a),
{
    lemma_row_order_turns(store, col, a, b);
}

proof fn lemma_at_most_transitive(
    store: StoreView,
    col: int,
    ascending: bool,
    rows: Seq<int>,
    a: int,
    b: int,
    c: int,
)
    requires
        consistent(store, col, rows),
        rows.contains(a),
        rows.contains(b),
        rows.contains(c),
        at_most(store, col, ascending, a, b),
        at_most(store, col, ascending, b, c),
    ensures
        at_most(store, col, ascending, a, c),
{
    lemma_row_order_turns(store, col, a, b);
    lemma_row_order_turns(store, col, b, c);
    lemma_row_order_turns(store, col, a, c);
    assert(row_order(store, col, b, a) == turned(row_order(store, col, a, b)));
    assert(row_order(store, col, c, b) == turned(row_order(store, col, b, c)));
    assert(row_order(store, col, c, a) == turned(row_order(store, col, a, c)));
}

/// Compares two rows by a column, where both are in the store.
fn row_at_most(store: &ResultStore, col: usize, ascending: bool, a: usize, b: usize) -> (yes: bool)
    requires
        a < store@.rows.len(),
        b < store@.rows.len(),
    ensures
        yes == at_most(store@, col as int, ascending, a as int, b as int),
{
    let left = &store.rows[a];
    let right = &store.rows[b];
    let found = if col < left.len() && col < right.len() {
        assert(store@.rows[a as int][col as int] == store.rows@[a as int]@[col as int]@);
        assert(store@.rows[b as int][col as int] == store.rows@[b as int]@[col as int]@);
        compare_keys(&left[col].sort, &right[col].sort)
    } else if col < right.len() {
        Order::Before
    } else if col < left.len() {
        Order::After
    } else {
        Order::Same
    };
    let order = if ascending {
        found
    } else {
        turn(found)
    };
    match order {
        Order::Before => true,
        Order::Same => a <= b,
        Order::After => false,
    }
}

/// Merges two lists of rows.
fn merged(
    store: &ResultStore,
    col: usize,
    ascending: bool,
    left: &Vec<usize>,
    right: &Vec<usize>,
    Ghost(all): Ghost<Seq<int>>,
) -> (out: Vec<usize>)
    requires
        forall|i: int| 0 <= i < left@.len() ==> #[trigger] left@[i] < store@.rows.len(),
        forall|i: int| 0 <= i < right@.len() ==> #[trigger] right@[i] < store@.rows.len(),
        forall|i: int| 0 <= i < left@.len() ==> all.contains(#[trigger] left@[i] as int),
        forall|i: int| 0 <= i < right@.len() ==> all.contains(#[trigger] right@[i] as int),
    ensures
        out@.to_multiset() == left@.to_multiset().add(right@.to_multiset()),
        consistent(store@, col as int, all) && in_order(store@, col as int, ascending, places(left@))
            && in_order(store@, col as int, ascending, places(right@)) ==> in_order(
            store@,
            col as int,
            ascending,
            places(out@),
        ),
{
    let ghost ok = consistent(store@, col as int, all) && in_order(
        store@,
        col as int,
        ascending,
        places(left@),
    ) && in_order(store@, col as int, ascending, places(right@));
    let mut out: Vec<usize> = Vec::new();
    let mut i: usize = 0;
    let mut j: usize = 0;
    let n: usize = left.len();
    let m: usize = right.len();
    proof {
        assert(left@.take(0) =~= Seq::empty());
        assert(right@.take(0) =~= Seq::empty());
        assert(out@.to_multiset() =~= left@.take(0).to_multiset().add(right@.take(0).to_multiset()))
            by {
            broadcast use vstd::seq_lib::group_to_multiset_ensures;

            assert(out@ =~= Seq::empty());
            assert(Seq::<usize>::empty().to_multiset() =~= Multiset::empty());
        }
    }
    while i < n || j < m
        invariant
            n == left@.len(),
            m == right@.len(),
            i <= n,
            j <= m,
            forall|i: int| 0 <= i < left@.len() ==> #[trigger] left@[i] < store@.rows.len(),
            forall|i: int| 0 <= i < right@.len() ==> #[trigger] right@[i] < store@.rows.len(),
            forall|i: int| 0 <= i < left@.len() ==> all.contains(#[trigger] left@[i] as int),
            forall|i: int| 0 <= i < right@.len() ==> all.contains(#[trigger] right@[i] as int),
            out@.to_multiset() == left@.take(i as int).to_multiset().add(
                right@.take(j as int).to_multiset(),
            ),
            ok == (consistent(store@, col as int, all) && in_order(
                store@,
                col as int,
                ascending,
                places(left@),
            ) && in_order(store@, col as int, ascending, places(right@))),
            forall|k: int| 0 <= k < out@.len() ==> all.contains(#[trigger] out@[k] as int),
            ok ==> in_order(store@, col as int, ascending, places(out@)),
            ok ==> forall|k: int, l: int|
                0 <= k < out@.len() && i <= l < n ==> at_most(
                    store@,
                    col as int,
                    ascending,
                    #[trigger] out@[k] as int,
                    #[trigger] left@[l] as int,
                ),
            ok ==> forall|k: int, l: int|
                0 <= k < out@.len() && j <= l < m ==> at_most(
                    store@,
                    col as int,
                    ascending,
                    #[trigger] out@[k] as int,
                    #[trigger] right@[l] as int,
                ),
        decreases n - i + m - j,
    {
        let from_left = if i < n && j < m {
            row_at_most(store, col, ascending, left[i], right[j])
        } else {
            i < n
        };
        let ghost before = out@;
        let next: usize = if from_left {
            left[i]
        } else {
            right[j]
        };
        proof {
            broadcast use vstd::seq_lib::group_to_multiset_ensures;

            if from_left {
                assert(left@.take(i + 1) =~= left@.take(i as int).push(next));
            } else {
                assert(right@.take(j + 1) =~= right@.take(j as int).push(next));
            }
            if ok {
                if i < n && j < m {
                    lemma_at_most_total(
                        store@,
                        col as int,
                        ascending,
                        left@[i as int] as int,
                        right@[j as int] as int,
                    );
                }
                assert forall|l: int| i <= l < n implies at_most(
                    store@,
                    col as int,
                    ascending,
                    next as int,
                    #[trigger] left@[l] as int,
                ) || (from_left && l == i) by {
                    if l > i {
                        assert(places(left@)[i as int] == left@[i as int] as int);
                        assert(places(left@)[l] == left@[l] as int);
                    }
                    if !from_left && l > i {
                        lemma_at_most_transitive(
                            store@,
                            col as int,
                            ascending,
                            all,
                            next as int,
                            left@[i as int] as int,
                            left@[l] as int,
                        );
                    }
                }
                assert forall|l: int| j <= l < m implies at_most(
                    store@,
                    col as int,
                    ascending,
                    next as int,
                    #[trigger] right@[l] as int,
                ) || (!from_left && l == j) by {
                    if l > j {
                        assert(places(right@)[j as int] == right@[j as int] as int);
                        assert(places(right@)[l] == right@[l] as int);
                    }
                    if from_left && l > j {
                        lemma_at_most_transitive(
                            store@,
                            col as int,
                            ascending,
                            all,
                            next as int,
                            right@[j as int] as int,
                            right@[l] as int,
                        );
                    }
                }
            }
        }
        out.push(next);
        proof {
            broadcast use vstd::seq_lib::group_to_multiset_ensures;

            if from_left {
                assert(out@.to_multiset() =~= left@.take(i + 1).to_multiset().add(
                    right@.take(j as int).to_multiset(),
                ));
            } else {
                assert(out@.to_multiset() =~= left@.take(i as int).to_multiset().add(
                    right@.take(j + 1).to_multiset(),
                ));
            }
            if ok {
                assert forall|k: int, l: int| 0 <= k < l < places(out@).len() implies at_most(
                    store@,
                    col as int,
                    ascending,
                    #[trigger] places(out@)[k],
                    #[trigger] places(out@)[l],
                ) by {
                    if l < before.len() {
                        assert(places(before)[k] == places(out@)[k]);
                        assert(places(before)[l] == places(out@)[l]);
                    } else {
                        assert(out@[k] == before[k]);
                        assert(out@[l] == next);
                    }
                }
            }
        }
        if from_left {
            i += 1;
        } else {
            j += 1;
        }
    }
    assert(left@.take(n as int) =~= left@);
    assert(right@.take(m as int) =~= right@);
    out
}

/// Sorts a list of rows by a column.
fn sorted_rows(
    store: &ResultStore,
    col: usize,
    ascending: bool,
    rows: &Vec<usize>,
    Ghost(all): Ghost<Seq<int>>,
) -> (out: Vec<usize>)
    requires
        forall|i: int| 0 <= i < rows@.len() ==> #[trigger] rows@[i] < store@.rows.len(),
        forall|i: int| 0 <= i < rows@.len() ==> all.contains(#[trigger] rows@[i] as int),
    ensures
        out@.to_multiset() == rows@.to_multiset(),
        consistent(store@, col as int, all) ==> in_order(
            store@,
            col as int,
            ascending,
            places(out@),
        ),
    decreases rows@.len(),
{
    let n: usize = rows.len();
    if n <= 1 {
        assert(rows@.subrange(0, n as int) =~= rows@);
        return copy_rows(rows, 0, n);
    }
    let half: usize = n / 2;
    let front = copy_rows(rows, 0, half);
    let back = copy_rows(rows, half, n);
    let left = sorted_rows(store, col, ascending, &front, Ghost(all));
    let right = sorted_rows(store, col, ascending, &back, Ghost(all));
    proof {
        lemma_members_kept(left@, front@, |x: usize| x < store@.rows.len() && all.contains(x as int));
        lemma_members_kept(right@, back@, |x: usize| x < store@.rows.len() && all.contains(x as int));
        assert(front@ + back@ =~= rows@);
        vstd::seq_lib::lemma_multiset_commutative(front@, back@);
    }
    merged(store, col, ascending, &left, &right, Ghost(all))
}

fn copy_rows(rows: &Vec<usize>, from: usize, to: usize) -> (out: Vec<usize>)
    requires
        from <= to <= rows@.len(),
    ensures
        out@ == rows@.subrange(from as int, to as int),
{
    let mut out: Vec<usize> = Vec::new();
    for i in from..to
        invariant
            from <= i <= to <= rows@.len(),
            out@ == rows@.subrange(from as int, i as int),
    {
        out.push(rows[i]);
        assert(rows@.subrange(from as int, i + 1) =~= rows@.subrange(from as int, i as int).push(
            rows@[i as int],
        ));
    }
    out
}

proof fn lemma_members_kept(a: Seq<usize>, b: Seq<usize>, p: spec_fn(usize) -> bool)
    requires
        a.to_multiset() == b.to_multiset(),
        forall|i: int| 0 <= i < b.len() ==> p(#[trigger] b[i]),
    ensures
        forall|i: int| 0 <= i < a.len() ==> p(#[trigger] a[i]),
{
    broadcast use vstd::seq_lib::group_to_multiset_ensures;

    assert forall|i: int| 0 <= i < a.len() implies p(#[trigger] a[i]) by {
        assert(a.contains(a[i]));
        assert(b.to_multiset().count(a[i]) > 0);
        assert(b.contains(a[i]));
    }
}

proof fn lemma_places_multiset(a: Seq<usize>, b: Seq<usize>)
    requires
        a.to_multiset() == b.to_multiset(),
    ensures
        places(a).to_multiset() == places(b).to_multiset(),
{
    lemma_places_count(a);
    lemma_places_count(b);
    assert(places(a).to_multiset() =~= places(b).to_multiset());
}

proof fn lemma_places_count(a: Seq<usize>)
    ensures
        forall|x: int| #[trigger]
            places(a).to_multiset().count(x) == if 0 <= x <= usize::MAX {
                a.to_multiset().count(x as usize)
            } else {
                0
            },
    decreases a.len(),
{
    broadcast use vstd::seq_lib::group_to_multiset_ensures;

    if a.len() == 0 {
        assert(places(a) =~= Seq::empty());
        assert(a =~= Seq::empty());
    } else {
        lemma_places_count(a.drop_last());
        assert(a =~= a.drop_last().push(a.last()));
        assert(places(a) =~= places(a.drop_last()).push(a.last() as int));
    }
}

impl ResultStore {
    /// The places of the rows that a view shows, in the order in which it shows them.
    pub fn visible_indices(&self, view: &TableView) -> (out: Vec<usize>)
        ensures
            listed(self@, view@, places(out@)),
    {
        let search = fold_case(trim(view.search.as_str()).as_str());
        let mut indices: Vec<usize> = Vec::new();
        let n: usize = self.rows.len();
        assert(places(indices@) =~= Seq::empty());
        for i in 0..n
            invariant
                n == self.rows@.len(),
                search@ == needle(view@.search),
                places(indices@) == matching_of(self@, view@, i as nat),
                forall|k: int| 0 <= k < indices@.len() ==> #[trigger] indices@[k] < i,
        {
            if row_matches(&self.rows[i], view, search.as_str(), Ghost(self@.rows[i as int])) {
                let ghost before = indices@;
                indices.push(i);
                assert(places(indices@) =~= places(before).push(i as int));
            }
        }
        match view.sort_col {
            None => indices,
            Some(col) => {
                let ghost all = matching(self@, view@);
                assert forall|k: int| 0 <= k < indices@.len() implies all.contains(
                    #[trigger] indices@[k] as int,
                ) by {
                    assert(all[k] == indices@[k] as int);
                }
                let out = sorted_rows(self, col, view.sort_asc, &indices, Ghost(all));
                proof {
                    lemma_places_multiset(out@, indices@);
                }
                out
            },
        }
    }
}

proof fn lemma_row_in_store(store: StoreView, look: TableLook, rows: Seq<int>)
    requires
        listed(store, look, rows),
    ensures
        forall|x: int| rows.contains(x) <==> matching(store, look).contains(x),
        rows.no_duplicates(),
        rows.len() == matching(store, look).len(),
{
    broadcast use vstd::seq_lib::group_to_multiset_ensures;

    let all = matching(store, look);
    assert forall|x: int| rows.contains(x) <==> all.contains(x) by {
        assert(rows.contains(x) <==> rows.to_multiset().count(x) > 0);
        assert(all.contains(x) <==> all.to_multiset().count(x) > 0);
    }
    lemma_matching(store, look, store.rows.len());
    assert(all.no_duplicates());
    all.lemma_multiset_has_no_duplicates();
    assert(rows.to_multiset().len() == rows.len());
    assert forall|x: int| rows.to_multiset().contains(x) implies rows.to_multiset().count(x)
        == 1 by {}
    rows.lemma_multiset_has_no_duplicates_conv();
}

/// Each row that a view accepts is shown once, and no other row is.
pub proof fn law_listing_shows_each_match_once(store: StoreView, look: TableLook, rows: Seq<int>)
    requires
        listed(store, look, rows),
    ensures
        rows.no_duplicates(),
        forall|x: int|
            rows.contains(x) <==> 0 <= x < store.rows.len() && shows(store.rows[x], look),
{
    lemma_row_in_store(store, look, rows);
    lemma_matching(store, look, store.rows.len());
}

/// There is one listing of a store under a view, wherever the sort keys have a consistent
/// order.
pub proof fn law_listing_is_unique(
    store: StoreView,
    look: TableLook,
    first: Seq<int>,
    second: Seq<int>,
)
    requires
        listed(store, look, first),
        listed(store, look, second),
        look.sort_col is Some ==> consistent(
            store,
            look.sort_col->0 as int,
            matching(store, look),
        ),
    ensures
        first == second,
{
    if look.sort_col is Some {
        let col = look.sort_col->0 as int;
        lemma_row_in_store(store, look, first);
        lemma_row_in_store(store, look, second);
        let before = |a: int, b: int| at_most(store, col, look.sort_asc, a, b);
        assert forall|a: int, b: int| a != b && #[trigger] before(a, b) implies !before(b, a) by {
            lemma_row_order_turns(store, col, a, b);
        }
        assert forall|i: int, j: int| 0 <= i < j < first.len() implies before(
            #[trigger] first[i],
            #[trigger] first[j],
        ) by {}
        assert forall|i: int, j: int| 0 <= i < j < second.len() implies before(
            #[trigger] second[i],
            #[trigger] second[j],
        ) by {}
        lemma_one_order(before, first, second);
    }
}

/// A column whose keys are of one sort (texts, whole numbers, or numbers that a double
/// gives exactly) has a consistent order on any rows.
pub proof fn law_uniform_columns_are_consistent(store: StoreView, col: int, rows: Seq<int>)
    requires
        forall|a: int, b: int|
            #![trigger store.rows[a], store.rows[b]]
            rows.contains(a) && rows.contains(b) && 0 <= col < store.rows[a].len() && 0 <= col
                < store.rows[b].len() ==> alike(
                store.rows[a][col].sort,
                store.rows[b][col].sort,
            ),
    ensures
        consistent(store, col, rows),
{
    assert forall|a: int, b: int, c: int|
        rows.contains(a) && rows.contains(b) && rows.contains(c) && #[trigger] row_order(
            store,
            col,
            a,
            b,
        ) != Order::After && #[trigger] row_order(store, col, b, c)
            != Order::After implies row_order(store, col, a, c) != Order::After by {
        let x = store.rows[a];
        let y = store.rows[b];
        let z = store.rows[c];
        if 0 <= col < x.len() && 0 <= col < y.len() && 0 <= col < z.len() {
            law_sort_order_is_transitive(x[col].sort, y[col].sort, z[col].sort);
        }
    }
}

// ---------------------------------------------------------------------------------------
// The values of a column

/// The texts of a column's first `n` rows, each once and none empty, as they come. Once
/// there are `limit` of them, later rows add nothing.
pub open spec fn values_of(store: StoreView, col: int, limit: nat, n: nat) -> Seq<Seq<char>>
    decreases n,
{
    if n == 0 {
        Seq::empty()
    } else {
        let before = values_of(store, col, limit, (n - 1) as nat);
        let text = text_or_empty(store.rows[n - 1], col);
        if n > 1 && before.len() >= limit {
            before
        } else if text.len() == 0 || before.contains(text) {
            before
        } else {
            before.push(text)
        }
    }
}

/// Whether each text comes before the texts after it.
pub open spec fn ascending(list: Seq<Seq<char>>) -> bool {
    forall|i: int, j: int|
        0 <= i < j < list.len() ==> text_order(#[trigger] list[i], #[trigger] list[j])
            == Order::Before
}

proof fn lemma_values_distinct(store: StoreView, col: int, limit: nat, n: nat)
    ensures
        values_of(store, col, limit, n).no_duplicates(),
    decreases n,
{
    if n > 0 {
        lemma_values_distinct(store, col, limit, (n - 1) as nat);
    }
}

/// Whether a list holds a text.
pub fn has_text(list: &Vec<String>, text: &str) -> (found: bool)
    ensures
        found == texts(list@).contains(text@),
{
    let n: usize = list.len();
    for i in 0..n
        invariant
            n == list@.len(),
            forall|k: int| 0 <= k < i ==> (#[trigger] list@[k])@ != text@,
    {
        if str_eq(list[i].as_str(), text) {
            assert(texts(list@)[i as int] == text@);
            return true;
        }
    }
    assert forall|k: int| 0 <= k < texts(list@).len() implies texts(list@)[k] != text@ by {
        assert(texts(list@)[k] == list@[k]@);
    }
    false
}

/// Puts a text at its place in a list that is in order.
pub fn insert_text(list: &mut Vec<String>, text: String)
    requires
        ascending(texts(old(list)@)),
        !texts(old(list)@).contains(text@),
    ensures
        ascending(texts(final(list)@)),
        texts(final(list)@).to_multiset() == texts(old(list)@).to_multiset().insert(text@),
{
    let n: usize = list.len();
    let mut at: usize = 0;
    while at < n && compare_text(list[at].as_str(), text.as_str()) == Order::Before
        invariant
            n == list@.len(),
            list@ == old(list)@,
            at <= n,
            forall|k: int|
                0 <= k < at ==> text_order((#[trigger] list@[k])@, text@) == Order::Before,
        decreases n - at,
    {
        at += 1;
    }
    let ghost before = texts(list@);
    list.insert(at, text);
    proof {
        let after = texts(list@);
        assert(after =~= before.insert(at as int, text@));
        vstd::seq_lib::to_multiset_insert(before, at as int, text@);
        assert forall|i: int, j: int| 0 <= i < j < after.len() implies text_order(
            #[trigger] after[i],
            #[trigger] after[j],
        ) == Order::Before by {
            if i < at && j == at {
                assert(after[i] == old(list)@[i]@);
            } else if i == at {
                let x = before[at as int];
                lemma_text_order_same(x, text@);
                assert(before.contains(x));
                lemma_text_order_turns(x, text@);
                assert(x == old(list)@[at as int]@);
                assert(text_order(text@, x) == Order::Before);
                if j > at + 1 {
                    let y = before[j - 1];
                    assert(after[j] == y);
                    lemma_text_before(text@, x, y);
                } else {
                    assert(after[j] == x);
                }
            } else if j < at {
                assert(after[i] == before[i] && after[j] == before[j]);
            } else if i < at {
                assert(after[i] == before[i] && after[j] == before[j - 1]);
            } else {
                assert(after[i] == before[i - 1] && after[j] == before[j - 1]);
            }
        }
    }
}

proof fn lemma_text_before(a: Seq<char>, b: Seq<char>, c: Seq<char>)
    requires
        text_order(a, b) == Order::Before,
        text_order(b, c) == Order::Before,
    ensures
        text_order(a, c) == Order::Before,
{
    lemma_text_order_transitive(a, b, c);
    lemma_text_order_same(a, c);
    lemma_text_order_turns(a, b);
}

impl ResultStore {
    /// The values of a column that a filter menu offers, in alphabetical order.
    pub fn unique_values(&self, col: usize, limit: usize) -> (out: Vec<String>)
        ensures
            ascending(texts(out@)),
            texts(out@).to_multiset() == values_of(
                self@,
                col as int,
                limit as nat,
                self@.rows.len(),
            ).to_multiset(),
    {
        let mut out: Vec<String> = Vec::new();
        let n: usize = self.rows.len();
        let mut i: usize = 0;
        proof {
            assert(texts(out@) =~= Seq::empty());
        }
        while i < n && (i == 0 || out.len() < limit)
            invariant
                n == self.rows@.len(),
                i <= n,
                ascending(texts(out@)),
                texts(out@).to_multiset() == values_of(
                    self@,
                    col as int,
                    limit as nat,
                    i as nat,
                ).to_multiset(),
                out@.len() == values_of(self@, col as int, limit as nat, i as nat).len(),
            decreases n - i,
        {
            let ghost before = values_of(self@, col as int, limit as nat, i as nat);
            if col < self.rows[i].len() {
                let text = &self.rows[i][col].text;
                assert(self@.rows[i as int][col as int] == self.rows@[i as int]@[col as int]@);
                proof {
                    lemma_contained_alike(texts(out@), before, text@);
                }
                if !text.as_str().is_empty() && !has_text(&out, text.as_str()) {
                    proof {
                        broadcast use vstd::seq_lib::group_to_multiset_ensures;

                        assert(before.push(text@).to_multiset() =~= before.to_multiset().insert(
                            text@,
                        ));
                    }
                    insert_text(&mut out, text.clone());
                    proof {
                        broadcast use vstd::seq_lib::group_to_multiset_ensures;

                        assert(texts(out@).to_multiset().len() == texts(out@).len());
                        assert(before.push(text@).to_multiset().len() == before.push(text@).len());
                    }
                }
            }
            i += 1;
        }
        proof {
            if i < n {
                lemma_values_stop(self@, col as int, limit as nat, i as nat, n as nat);
            }
        }
        out
    }
}

proof fn lemma_contained_alike(a: Seq<Seq<char>>, b: Seq<Seq<char>>, x: Seq<char>)
    requires
        a.to_multiset() == b.to_multiset(),
    ensures
        a.contains(x) == b.contains(x),
{
    broadcast use vstd::seq_lib::group_to_multiset_ensures;

    assert(a.contains(x) <==> a.to_multiset().count(x) > 0);
    assert(b.contains(x) <==> b.to_multiset().count(x) > 0);
}

proof fn lemma_values_stop(store: StoreView, col: int, limit: nat, n: nat, m: nat)
    requires
        0 < n <= m,
        values_of(store, col, limit, n).len() >= limit,
    ensures
        values_of(store, col, limit, m) == values_of(store, col, limit, n),
    decreases m,
{
    if n < m {
        lemma_values_stop(store, col, limit, n, (m - 1) as nat);
    }
}

/// The values offered for a column are distinct texts of its cells, none empty, and no
/// more than asked for, or one where none is asked for.
pub proof fn law_values_are_distinct(store: StoreView, col: int, limit: nat)
    ensures
        values_of(store, col, limit, store.rows.len()).no_duplicates(),
        values_of(store, col, limit, store.rows.len()).len() <= limit || (limit == 0 && values_of(
            store,
            col,
            limit,
            store.rows.len(),
        ).len() == 1),
        forall|text: Seq<char>| #[trigger]
            values_of(store, col, limit, store.rows.len()).contains(text) ==> text.len() > 0
                && exists|row: int|
                0 <= row < store.rows.len() && text_or_empty(#[trigger] store.rows[row], col)
                    == text,
{
    lemma_values_distinct(store, col, limit, store.rows.len());
    lemma_values_sound(store, col, limit, store.rows.len());
}

proof fn lemma_values_sound(store: StoreView, col: int, limit: nat, n: nat)
    requires
        n <= store.rows.len(),
    ensures
        values_of(store, col, limit, n).len() <= limit || (limit == 0 && values_of(
            store,
            col,
            limit,
            n,
        ).len() == 1),
        forall|text: Seq<char>| #[trigger]
            values_of(store, col, limit, n).contains(text) ==> text.len() > 0 && exists|row: int|
                0 <= row < n && text_or_empty(#[trigger] store.rows[row], col) == text,
    decreases n,
{
    if n > 0 {
        lemma_values_sound(store, col, limit, (n - 1) as nat);
        let before = values_of(store, col, limit, (n - 1) as nat);
        let all = values_of(store, col, limit, n);
        assert forall|text: Seq<char>| #[trigger] all.contains(text) implies text.len() > 0
            && exists|row: int|
            0 <= row < n && text_or_empty(#[trigger] store.rows[row], col) == text by {
            if before.contains(text) {
                let row = choose|row: int|
                    0 <= row < n - 1 && text_or_empty(#[trigger] store.rows[row], col) == text;
                assert(0 <= row < n && text_or_empty(store.rows[row], col) == text);
            } else {
                let k = choose|k: int| 0 <= k < all.len() && all[k] == text;
                assert(k == before.len()) by {
                    if k < before.len() {
                        assert(before[k] == text);
                    }
                }
                assert(text_or_empty(store.rows[n - 1], col) == text);
            }
        }
    }
}

/// There is one alphabetical list of given texts.
pub proof fn law_ascending_list_is_unique(first: Seq<Seq<char>>, second: Seq<Seq<char>>)
    requires
        ascending(first),
        ascending(second),
        first.to_multiset() == second.to_multiset(),
    ensures
        first == second,
{
    broadcast use vstd::seq_lib::group_to_multiset_ensures;

    let before = |a: Seq<char>, b: Seq<char>| text_order(a, b) == Order::Before;
    assert forall|a: Seq<char>, b: Seq<char>| a != b && #[trigger] before(a, b) implies !before(
        b,
        a,
    ) by {
        lemma_text_order_turns(a, b);
    }
    assert forall|i: int, j: int| 0 <= i < j < first.len() implies before(
        #[trigger] first[i],
        #[trigger] first[j],
    ) by {}
    assert forall|i: int, j: int| 0 <= i < j < second.len() implies before(
        #[trigger] second[i],
        #[trigger] second[j],
    ) by {}
    lemma_ascending_distinct(first);
    lemma_ascending_distinct(second);
    assert(first.to_multiset().len() == first.len());
    assert(second.to_multiset().len() == second.len());
    assert forall|x: Seq<char>| first.contains(x) <==> second.contains(x) by {
        lemma_contained_alike(first, second, x);
    }
    lemma_one_order(before, first, second);
}

proof fn lemma_ascending_distinct(list: Seq<Seq<char>>)
    requires
        ascending(list),
    ensures
        list.no_duplicates(),
{
    assert forall|i: int, j: int| 0 <= i < j < list.len() implies list[i] != list[j] by {
        assert(text_order(list[i], list[j]) == Order::Before);
        lemma_text_order_same(list[i], list[j]);
    }
}

// ---------------------------------------------------------------------------------------
// Laws on what a view shows

/// A row that a view shows has the text of every column filter, whatever the search, and
/// holds the search in one of its cells where the search is not blank; a row with both is
/// shown.
pub proof fn law_shown_rows_pass_filters_and_search(row: Seq<CellView>, look: TableLook)
    ensures
        shows(row, look) ==> forall|col: int|
            0 <= col < look.equals.len() && (#[trigger] look.equals[col]) is Some ==> (if col
                < row.len() {
                row[col].text
            } else {
                Seq::empty()
            }) == look.equals[col]->0,
        shows(row, look) && lowercase(trimmed(look.search)).len() > 0 && trimmed(look.search).len()
            > 0 ==> exists|col: int|
            0 <= col < row.len() && occurs_in(
                lowercase((#[trigger] row[col]).text),
                lowercase(trimmed(look.search)),
            ),
        (forall|col: int|
            0 <= col < look.equals.len() && (#[trigger] look.equals[col]) is Some ==> (if col
                < row.len() {
                row[col].text
            } else {
                Seq::empty()
            }) == look.equals[col]->0) && (trimmed(look.search).len() == 0 || exists|col: int|
            0 <= col < row.len() && occurs_in(
                lowercase((#[trigger] row[col]).text),
                lowercase(trimmed(look.search)),
            )) ==> shows(row, look),
{
    let filtered = forall|col: int|
        0 <= col < look.equals.len() && (#[trigger] look.equals[col]) is Some ==> (if col
            < row.len() {
            row[col].text
        } else {
            Seq::empty()
        }) == look.equals[col]->0;
    if filtered {
        assert forall|col: int|
            0 <= col < look.equals.len() && (
            #[trigger] look.equals[col]) is Some implies text_or_empty(row, col)
            == look.equals[col]->0 by {}
        assert(passes_filters(row, look.equals));
    }
    if passes_filters(row, look.equals) {
        assert forall|col: int|
            0 <= col < look.equals.len() && (#[trigger] look.equals[col]) is Some implies (if col
            < row.len() {
            row[col].text
        } else {
            Seq::empty()
        }) == look.equals[col]->0 by {
            assert(text_or_empty(row, col) == look.equals[col]->0);
        }
    }
}

/// A stricter filter shows no further row: a row that is shown under a filter on a column
/// is shown without it.
pub proof fn law_filters_only_hide(row: Seq<CellView>, look: TableLook, col: int)
    requires
        0 <= col < look.equals.len(),
        shows(row, look),
    ensures
        shows(row, TableLook { equals: look.equals.update(col, None), ..look }),
{
    let free = look.equals.update(col, None);
    assert forall|k: int|
        0 <= k < free.len() && (#[trigger] free[k]) is Some implies text_or_empty(row, k)
        == free[k]->0 by {
        assert(free[k] == look.equals[k]);
    }
}

/// Under a sort by a column of whole numbers the numbers rise from row to row, or fall where
/// the sort goes down, and rows with the same number stay in the order of the store.
pub proof fn law_whole_numbers_are_sorted(
    store: StoreView,
    look: TableLook,
    rows: Seq<int>,
    i: int,
    j: int,
)
    requires
        listed(store, look, rows),
        look.sort_col is Some,
        0 <= i < j < rows.len(),
        forall|x: int|
            rows.contains(x) ==> (look.sort_col->0 as int) < (#[trigger] store.rows[x]).len()
                && store.rows[x][look.sort_col->0 as int].sort is Int,
    ensures
        ({
            let col = look.sort_col->0 as int;
            let a = store.rows[rows[i]][col].sort->Int_0;
            let b = store.rows[rows[j]][col].sort->Int_0;
            if look.sort_asc {
                a < b || (a == b && rows[i] < rows[j])
            } else {
                a > b || (a == b && rows[i] < rows[j])
            }
        }),
{
    let col = look.sort_col->0 as int;
    lemma_row_in_store(store, look, rows);
    let all = matching(store, look);
    assert forall|a: int, b: int|
        #![trigger store.rows[a], store.rows[b]]
        all.contains(a) && all.contains(b) && 0 <= col < store.rows[a].len() && 0 <= col
            < store.rows[b].len() implies alike(
        store.rows[a][col].sort,
        store.rows[b][col].sort,
    ) by {
        assert(rows.contains(a) && rows.contains(b));
    }
    law_uniform_columns_are_consistent(store, col, all);
    assert(at_most(store, col, look.sort_asc, rows[i], rows[j]));
    assert(rows.contains(rows[i]) && rows.contains(rows[j]));
    assert(rows[i] != rows[j]);
}

/// Under a sort by a column of texts the texts rise without regard to case, or fall where
/// the sort goes down, and rows with the same text stay in the order of the store.
pub proof fn law_texts_are_sorted(
    store: StoreView,
    look: TableLook,
    rows: Seq<int>,
    i: int,
    j: int,
)
    requires
        listed(store, look, rows),
        look.sort_col is Some,
        0 <= i < j < rows.len(),
        forall|x: int|
            rows.contains(x) ==> (look.sort_col->0 as int) < (#[trigger] store.rows[x]).len()
                && store.rows[x][look.sort_col->0 as int].sort is Text,
    ensures
        ({
            let col = look.sort_col->0 as int;
            let a = lowercase(store.rows[rows[i]][col].sort->Text_0);
            let b = lowercase(store.rows[rows[j]][col].sort->Text_0);
            if look.sort_asc {
                text_order(a, b) == Order::Before || (a == b && rows[i] < rows[j])
            } else {
                text_order(a, b) == Order::After || (a == b && rows[i] < rows[j])
            }
        }),
{
    let col = look.sort_col->0 as int;
    lemma_row_in_store(store, look, rows);
    let all = matching(store, look);
    assert forall|a: int, b: int|
        #![trigger store.rows[a], store.rows[b]]
        all.contains(a) && all.contains(b) && 0 <= col < store.rows[a].len() && 0 <= col
            < store.rows[b].len() implies alike(
        store.rows[a][col].sort,
        store.rows[b][col].sort,
    ) by {
        assert(rows.contains(a) && rows.contains(b));
    }
    law_uniform_columns_are_consistent(store, col, all);
    assert(at_most(store, col, look.sort_asc, rows[i], rows[j]));
    assert(rows.contains(rows[i]) && rows.contains(rows[j]));
    assert(rows[i] != rows[j]);
    let a = lowercase(store.rows[rows[i]][col].sort->Text_0);
    let b = lowercase(store.rows[rows[j]][col].sort->Text_0);
    lemma_text_order_same(a, b);
}

/// Without a sort the rows rise in the order of the store.
pub proof fn law_unsorted_rows_keep_their_order(
    store: StoreView,
    look: TableLook,
    rows: Seq<int>,
    i: int,
    j: int,
)
    requires
        listed(store, look, rows),
        look.sort_col is None,
        0 <= i < j < rows.len(),
    ensures
        rows[i] < rows[j],
{
    lemma_matching(store, look, store.rows.len());
}

/// A first click on a column sorts it upwards, a second downwards, and a third takes the
/// sort away; filters and search stay.
pub proof fn law_clicks_cycle_the_sort(look: TableLook, col: usize)
    requires
        look.sort_col != Some(col),
    ensures
        ({
            let once = cycled(look, col);
            let twice = cycled(once, col);
            let thrice = cycled(twice, col);
            &&& once.sort_col == Some(col) && once.sort_asc
            &&& twice.sort_col == Some(col) && !twice.sort_asc
            &&& thrice.sort_col is None && thrice.sort_asc
            &&& thrice.equals == look.equals && thrice.search == look.search
        }),
{
}

/// Where fewer values are offered than asked for, every text of the column that is not
/// empty is among them.
pub proof fn law_no_value_is_missing(store: StoreView, col: int, limit: nat, row: int)
    requires
        values_of(store, col, limit, store.rows.len()).len() < limit,
        0 <= row < store.rows.len(),
        0 <= col < store.rows[row].len(),
        store.rows[row][col].text.len() > 0,
    ensures
        values_of(store, col, limit, store.rows.len()).contains(store.rows[row][col].text),
{
    lemma_value_kept(store, col, limit, store.rows.len(), row);
}

proof fn lemma_value_kept(store: StoreView, col: int, limit: nat, n: nat, row: int)
    requires
        values_of(store, col, limit, n).len() < limit,
        0 <= row < n <= store.rows.len(),
        0 <= col < store.rows[row].len(),
        store.rows[row][col].text.len() > 0,
    ensures
        values_of(store, col, limit, n).contains(store.rows[row][col].text),
    decreases n,
{
    let text = store.rows[row][col].text;
    let before = values_of(store, col, limit, (n - 1) as nat);
    let all = values_of(store, col, limit, n);
    if row < n - 1 {
        lemma_value_kept(store, col, limit, (n - 1) as nat, row);
        let k = choose|k: int| 0 <= k < before.len() && before[k] == text;
        assert(all[k] == text);
    } else if !before.contains(text) {
        assert(all[all.len() - 1] == text);
    }
}

} // verus!
