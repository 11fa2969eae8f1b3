//! Where an opened cell lies: `{path}/{row}/{col}`, from the root down.

use crate::listing::{ascending, has_text, insert_text};
use crate::result::{ResultStore, StoreView};
use crate::text::{
    begins_with, decimal, decimal_usize, is_digit, lemma_decimal_reads_back, lemma_one_piece,
    lemma_pieces_nonempty, lemma_pieces_of_both, parse_usize, parsed_number, pieces, split,
    starts_with, str_eq, text_order, texts, Order,
};
use vstd::prelude::*;

verus! {

/// The key of a cell in the table at a path.
pub open spec fn path_key(path: Seq<char>, row: nat, col: nat) -> Seq<char> {
    if path.len() == 0 {
        decimal(row) + seq!['/'] + decimal(col)
    } else {
        path + seq!['/'] + decimal(row) + seq!['/'] + decimal(col)
    }
}

/// The parts of a key.
pub open spec fn key_parts(key: Seq<char>) -> Seq<Seq<char>> {
    pieces(key, '/', '/')
}

/// The row of a cell in the root table, where the key is of one.
pub open spec fn root_row(key: Seq<char>) -> Option<nat> {
    let parts = key_parts(key);
    if parts.len() == 3 && parts[0] == "root"@ {
        parsed_number(parts[1], usize::MAX as nat)
    } else {
        None
    }
}

/// The store behind a cell, by the row and the column as they are written.
pub open spec fn behind(store: StoreView, row: Seq<char>, col: Seq<char>) -> Option<StoreView> {
    match (parsed_number(row, usize::MAX as nat), parsed_number(col, usize::MAX as nat)) {
        (Some(i), Some(j)) => if i < store.rows.len() && j < store.rows[i as int].len() {
            store.rows[i as int][j as int].nested
        } else {
            None
        },
        _ => None,
    }
}

/// The store that rows and columns lead to, one pair after the other.
pub open spec fn walked(store: StoreView, steps: Seq<Seq<char>>) -> Option<StoreView>
    decreases steps.len(),
{
    if steps.len() == 0 {
        Some(store)
    } else if steps.len() == 1 {
        None
    } else {
        match behind(store, steps[0], steps[1]) {
            Some(inner) => walked(inner, steps.skip(2)),
            None => None,
        }
    }
}

/// The store that a path leads to.
pub open spec fn opened(root: StoreView, path: Seq<char>) -> Option<StoreView> {
    let parts = key_parts(path);
    if parts[0] == "root"@ || parts[0] == "sheet"@ {
        walked(root, parts.drop_first())
    } else {
        None
    }
}

/// The key of a cell in the table at a path.
pub fn table_path_key(path: &str, row: usize, col: usize) -> (key: String)
    ensures
        key@ == path_key(path@, row as nat, col as nat),
{
    let mut key = path.to_owned();
    if !path.is_empty() {
        key.push('/');
    }
    key.push_str(decimal_usize(row).as_str());
    key.push('/');
    key.push_str(decimal_usize(col).as_str());
    assert(key@ =~= path_key(path@, row as nat, col as nat));
    key
}

/// The row of a cell in the root table.
pub fn parse_root_row(key: &str) -> (row: Option<usize>)
    ensures
        match row {
            Some(row) => root_row(key@) == Some(row as nat),
            None => root_row(key@) is None,
        },
{
    let parts = split(key, '/', '/');
    assert(texts(parts@).len() == parts@.len());
    if parts.len() != 3 {
        return None;
    }
    assert(texts(parts@)[0] == parts@[0]@);
    assert(texts(parts@)[1] == parts@[1]@);
    if !str_eq(parts[0].as_str(), "root") {
        return None;
    }
    parse_usize(parts[1].as_str())
}

/// The store that a path leads to.
pub fn nested_store<'a>(root: &'a ResultStore, path: &str) -> (store: Option<&'a ResultStore>)
    ensures
        match store {
            Some(store) => opened(root@, path@) == Some(store@),
            None => opened(root@, path@) is None,
        },
{
    let parts = split(path, '/', '/');
    let ghost all = key_parts(path@);
    proof {
        lemma_pieces_nonempty(path@, '/', '/');
        assert(texts(parts@).len() == parts@.len());
        assert(texts(parts@)[0] == parts@[0]@);
    }
    if !str_eq(parts[0].as_str(), "root") && !str_eq(parts[0].as_str(), "sheet") {
        return None;
    }
    let n: usize = parts.len();
    let mut i: usize = 1;
    let mut current: &'a ResultStore = root;
    assert(all.skip(1) =~= all.drop_first());
    while i < n
        invariant
            n == parts@.len(),
            n == all.len(),
            texts(parts@) == all,
            1 <= i <= n,
            opened(root@, path@) == walked(current@, all.skip(i as int)),
        decreases n - i,
    {
        assert(all.skip(i as int)[0] == all[i as int]);
        if n - i == 1 {
            return None;
        }
        assert(all.skip(i as int)[1] == all[i + 1]);
        assert(texts(parts@)[i as int] == parts@[i as int]@);
        assert(texts(parts@)[i + 1] == parts@[i + 1]@);
        assert(all.skip(i as int).skip(2) =~= all.skip(i + 2));
        let row: usize = match parse_usize(parts[i].as_str()) {
            Some(row) => row,
            None => {
                return None;
            },
        };
        let col: usize = match parse_usize(parts[i + 1].as_str()) {
            Some(col) => col,
            None => {
                return None;
            },
        };
        if row >= current.rows.len() || col >= current.rows[row].len() {
            return None;
        }
        assert(current@.rows[row as int][col as int] == current.rows@[row as int]@[col as int]@);
        match &current.rows[row][col].nested {
            Some(inner) => {
                current = inner;
            },
            None => {
                return None;
            },
        }
        i += 2;
    }
    assert(all.skip(n as int) =~= Seq::empty());
    Some(current)
}

// ---------------------------------------------------------------------------------------
// Laws

proof fn lemma_decimal_piece(n: nat)
    ensures
        key_parts(decimal(n)) == seq![decimal(n)],
{
    lemma_decimal_reads_back(n, n);
    assert forall|i: int| 0 <= i < decimal(n).len() implies decimal(n)[i] != '/' by {
        assert(is_digit(decimal(n)[i]));
    }
    lemma_one_piece(decimal(n), '/');
}

proof fn lemma_key_parts(path: Seq<char>, row: nat, col: nat)
    requires
        path.len() > 0,
    ensures
        key_parts(path_key(path, row, col)) == key_parts(path).push(decimal(row)).push(
            decimal(col),
        ),
{
    let front = path + seq!['/'] + decimal(row);
    lemma_decimal_piece(row);
    lemma_decimal_piece(col);
    lemma_pieces_of_both(path, decimal(row), '/');
    lemma_pieces_of_both(front, decimal(col), '/');
    assert(path_key(path, row, col) =~= front + seq!['/'] + decimal(col));
    assert(key_parts(path_key(path, row, col)) =~= key_parts(path).push(decimal(row)).push(
        decimal(col),
    ));
}

proof fn lemma_walk_on(store: StoreView, steps: Seq<Seq<char>>, row: Seq<char>, col: Seq<char>)
    requires
        walked(store, steps) is Some,
    ensures
        walked(store, steps.push(row).push(col)) == behind(walked(store, steps)->0, row, col),
    decreases steps.len(),
{
    let all = steps.push(row).push(col);
    if steps.len() == 0 {
        assert(all.skip(2) =~= Seq::empty());
        if let Some(inner) = behind(store, row, col) {
            assert(walked(inner, all.skip(2)) == Some(inner));
        }
    } else {
        let inner = behind(store, steps[0], steps[1])->0;
        lemma_walk_on(inner, steps.skip(2), row, col);
        assert(all.skip(2) =~= steps.skip(2).push(row).push(col));
        assert(all[0] == steps[0] && all[1] == steps[1]);
    }
}

/// The key of a cell in a table that a path leads to leads to the store behind that cell.
pub proof fn law_key_opens_its_cell(root: StoreView, path: Seq<char>, row: usize, col: usize)
    requires
        opened(root, path) is Some,
    ensures
        opened(root, path_key(path, row as nat, col as nat)) == {
            let store = opened(root, path)->0;
            if row < store.rows.len() && col < store.rows[row as int].len() {
                store.rows[row as int][col as int].nested
            } else {
                None
            }
        },
{
    let parts = key_parts(path);
    lemma_pieces_nonempty(path, '/', '/');
    if path.len() == 0 {
        reveal_strlit("root");
        reveal_strlit("sheet");
        assert(parts[0].len() == 0);
    } else {
        lemma_key_parts(path, row as nat, col as nat);
        let r = decimal(row as nat);
        let c = decimal(col as nat);
        let all = parts.push(r).push(c);
        assert(all.drop_first() =~= parts.drop_first().push(r).push(c));
        assert(all[0] == parts[0]);
        lemma_walk_on(root, parts.drop_first(), r, c);
        lemma_decimal_reads_back(row as nat, usize::MAX as nat);
        lemma_decimal_reads_back(col as nat, usize::MAX as nat);
    }
}

/// The key of a cell in the root table tells its row, and the key of a cell further down
/// tells none.
pub proof fn law_root_keys_tell_their_row(row: usize, col: usize, i: usize, j: usize)
    ensures
        root_row(path_key("root"@, row as nat, col as nat)) == Some(row as nat),
        root_row(
            path_key(path_key("root"@, row as nat, col as nat), i as nat, j as nat),
        ) is None,
{
    reveal_strlit("root");
    let key = path_key("root"@, row as nat, col as nat);
    assert forall|k: int| 0 <= k < "root"@.len() implies "root"@[k] != '/' by {}
    lemma_one_piece("root"@, '/');
    lemma_key_parts("root"@, row as nat, col as nat);
    lemma_key_parts(key, i as nat, j as nat);
    lemma_decimal_reads_back(row as nat, usize::MAX as nat);
    assert(key_parts(key)[0] == "root"@);
    assert(key_parts(key)[1] == decimal(row as nat));
    assert(key_parts(key).len() == 3);
}

// ---------------------------------------------------------------------------------------
// Sets of keys

/// Whether a path is that of a key or lies below it.
pub open spec fn under(path: Seq<char>, key: Seq<char>) -> bool {
    path == key || begins_with(path, key + seq!['/'])
}

/// A set of keys, kept in alphabetical order.
#[derive(Debug)]
pub struct KeySet {
    keys: Vec<String>,
}

impl View for KeySet {
    type V = Set<Seq<char>>;

    closed spec fn view(&self) -> Set<Seq<char>> {
        texts(self.keys@).to_set()
    }
}

/// Whether a path goes when a key closes: the key itself, and what lies below it where that
/// closes too.
pub open spec fn goes(path: Seq<char>, key: Seq<char>, below: bool) -> bool {
    if below {
        under(path, key)
    } else {
        path == key
    }
}

/// Keys without those that go when a key closes.
pub open spec fn without(list: Seq<Seq<char>>, key: Seq<char>, below: bool) -> Seq<Seq<char>>
    decreases list.len(),
{
    if list.len() == 0 {
        Seq::empty()
    } else if goes(list.last(), key, below) {
        without(list.drop_last(), key, below)
    } else {
        without(list.drop_last(), key, below).push(list.last())
    }
}

proof fn lemma_without(list: Seq<Seq<char>>, key: Seq<char>, below: bool)
    requires
        ascending(list),
    ensures
        ascending(without(list, key, below)),
        forall|x: Seq<char>| #[trigger]
            without(list, key, below).contains(x) <==> list.contains(x) && !goes(x, key, below),
    decreases list.len(),
{
    if list.len() > 0 {
        let front = list.drop_last();
        let last = list.last();
        let kept = without(front, key, below);
        let all = without(list, key, below);
        assert(ascending(front)) by {
            assert forall|i: int, j: int| 0 <= i < j < front.len() implies text_order(
                #[trigger] front[i],
                #[trigger] front[j],
            ) == Order::Before by {
                assert(front[i] == list[i] && front[j] == list[j]);
            }
        }
        lemma_without(front, key, below);
        assert forall|x: Seq<char>| #[trigger] all.contains(x) <==> list.contains(x) && !goes(
            x,
            key,
            below,
        ) by {
            if all.contains(x) {
                let k = choose|k: int| 0 <= k < all.len() && all[k] == x;
                if k < kept.len() {
                    assert(kept[k] == x);
                    assert(kept.contains(x));
                    let l = choose|l: int| 0 <= l < front.len() && front[l] == x;
                    assert(list[l] == x);
                } else {
                    assert(list[list.len() - 1] == x);
                }
            }
            if list.contains(x) && !goes(x, key, below) {
                let l = choose|l: int| 0 <= l < list.len() && list[l] == x;
                if l < front.len() {
                    assert(front[l] == x);
                    assert(kept.contains(x));
                    let k = choose|k: int| 0 <= k < kept.len() && kept[k] == x;
                    assert(all[k] == x);
                } else {
                    assert(all[all.len() - 1] == x);
                }
            }
        }
        assert forall|i: int, j: int| 0 <= i < j < all.len() implies text_order(
            #[trigger] all[i],
            #[trigger] all[j],
        ) == Order::Before by {
            assert(all[i] == kept[i]);
            if j < kept.len() {
                assert(all[j] == kept[j]);
            } else {
                assert(kept.contains(kept[i]));
                let l = choose|l: int| 0 <= l < front.len() && front[l] == kept[i];
                assert(list[l] == kept[i]);
                assert(list[list.len() - 1] == last);
            }
        }
    }
}

impl KeySet {
    /// Whether the keys are in order.
    pub closed spec fn wf(&self) -> bool {
        ascending(self.listing())
    }

    /// The keys in alphabetical order.
    pub closed spec fn listing(&self) -> Seq<Seq<char>> {
        texts(self.keys@)
    }

    /// The keys, listed, are those of the set, each once and in alphabetical order.
    pub proof fn law_listing_is_the_set(&self)
        requires
            self.wf(),
        ensures
            ascending(self.listing()),
            forall|x: Seq<char>| #[trigger] self@.contains(x) <==> self.listing().contains(x),
    {
    }

    /// The empty set.
    pub fn new() -> (set: Self)
        ensures
            set.wf(),
            set@ == Set::<Seq<char>>::empty(),
    {
        let set = KeySet { keys: Vec::new() };
        assert(texts(set.keys@) =~= Seq::empty());
        assert(set@ =~= Set::<Seq<char>>::empty());
        set
    }

    /// Whether a key is in the set.
    pub fn contains(&self, key: &str) -> (yes: bool)
        ensures
            yes == self@.contains(key@),
    {
        has_text(&self.keys, key)
    }

    /// Puts a key into the set.
    pub fn insert(&mut self, key: &str)
        requires
            old(self).wf(),
        ensures
            final(self).wf(),
            final(self)@ == old(self)@.insert(key@),
    {
        if has_text(&self.keys, key) {
            assert(self@ =~= old(self)@.insert(key@));
            return;
        }
        let ghost before = texts(self.keys@);
        insert_text(&mut self.keys, key.to_owned());
        proof {
            broadcast use vstd::seq_lib::group_to_multiset_ensures;

            let after = texts(self.keys@);
            assert forall|x: Seq<char>| self@.contains(x) <==> old(self)@.insert(key@).contains(x) by {
                assert(after.contains(x) <==> after.to_multiset().count(x) > 0);
                assert(before.contains(x) <==> before.to_multiset().count(x) > 0);
            }
            assert(self@ =~= old(self)@.insert(key@));
        }
    }

    /// Takes a key out of the set, and all below it where that is asked for.
    pub fn remove(&mut self, key: &str, below: bool)
        requires
            old(self).wf(),
        ensures
            final(self).wf(),
            final(self)@ == old(self)@.filter(|path: Seq<char>| !goes(path, key@, below)),
    {
        let ghost all = texts(self.keys@);
        let mut kept: Vec<String> = Vec::new();
        let n: usize = self.keys.len();
        assert(all.take(0) =~= Seq::empty());
        assert(texts(kept@) =~= Seq::empty());
        for i in 0..n
            invariant
                n == self.keys@.len(),
                all == texts(self.keys@),
                self.keys@ == old(self).keys@,
                texts(kept@) == without(all.take(i as int), key@, below),
        {
            assert(all.take(i + 1).drop_last() =~= all.take(i as int));
            assert(all.take(i + 1).last() == self.keys@[i as int]@);
            let going = if below {
                is_under(self.keys[i].as_str(), key)
            } else {
                str_eq(self.keys[i].as_str(), key)
            };
            if !going {
                let ghost before = kept@;
                kept.push(self.keys[i].clone());
                assert(texts(kept@) =~= texts(before).push(self.keys@[i as int]@));
            }
        }
        assert(all.take(n as int) =~= all);
        proof {
            lemma_without(all, key@, below);
        }
        self.keys = kept;
        assert(self@ =~= old(self)@.filter(|path: Seq<char>| !goes(path, key@, below)));
    }

    /// Takes every key out of the set.
    pub fn clear(&mut self)
        ensures
            final(self).wf(),
            final(self)@ == Set::<Seq<char>>::empty(),
    {
        self.keys = Vec::new();
        assert(texts(self.keys@) =~= Seq::empty());
        assert(self@ =~= Set::<Seq<char>>::empty());
    }

    /// Opens a key, or closes it and all below it.
    pub fn toggle(&mut self, key: &str) -> (open: bool)
        requires
            old(self).wf(),
        ensures
            final(self).wf(),
            final(self)@ == toggled(old(self)@, key@),
            open == !old(self)@.contains(key@),
    {
        if self.contains(key) {
            self.remove(key, true);
            assert(self@ =~= toggled(old(self)@, key@));
            false
        } else {
            self.insert(key);
            true
        }
    }

    /// Opens a key, or closes it alone.
    pub fn flip(&mut self, key: &str)
        requires
            old(self).wf(),
        ensures
            final(self).wf(),
            final(self)@ == flipped(old(self)@, key@),
    {
        if self.contains(key) {
            self.remove(key, false);
            assert(self@ =~= flipped(old(self)@, key@));
        } else {
            self.insert(key);
        }
    }

    /// The keys in alphabetical order.
    pub fn list(&self) -> (keys: &Vec<String>)
        ensures
            texts(keys@) == self.listing(),
    {
        &self.keys
    }
}

/// A set of keys after a click on one: it opens, or it closes with all below it.
pub open spec fn toggled(set: Set<Seq<char>>, key: Seq<char>) -> Set<Seq<char>> {
    if set.contains(key) {
        set.filter(|path: Seq<char>| !under(path, key))
    } else {
        set.insert(key)
    }
}

/// A set of keys after a click on one: it opens, or it closes alone.
pub open spec fn flipped(set: Set<Seq<char>>, key: Seq<char>) -> Set<Seq<char>> {
    if set.contains(key) {
        set.remove(key)
    } else {
        set.insert(key)
    }
}

/// Whether a path is that of a key or lies below it.
pub fn is_under(path: &str, key: &str) -> (yes: bool)
    ensures
        yes == under(path@, key@),
{
    let mut prefix = key.to_owned();
    prefix.push('/');
    assert(prefix@ =~= key@ + seq!['/']);
    str_eq(path, key) || starts_with(path, prefix.as_str())
}

/// Two clicks on a closed key leave the other open keys as they were, but for those below
/// it, which close.
pub proof fn law_two_clicks_close_what_lies_below(set: Set<Seq<char>>, key: Seq<char>)
    requires
        !set.contains(key),
    ensures
        toggled(toggled(set, key), key) == set.filter(|path: Seq<char>| !under(path, key)),
{
    assert(toggled(toggled(set, key), key) =~= set.filter(|path: Seq<char>| !under(path, key)));
}

/// After a click that closes a key nothing at it or below it is open.
pub proof fn law_closed_means_all_below_closed(
    set: Set<Seq<char>>,
    key: Seq<char>,
    path: Seq<char>,
)
    requires
        set.contains(key),
        under(path, key),
    ensures
        !toggled(set, key).contains(path),
{
}

/// The key of a cell in a table lies below the table's own key.
pub proof fn law_cells_lie_under_their_table(path: Seq<char>, row: nat, col: nat)
    requires
        path.len() > 0,
    ensures
        under(path_key(path, row, col), path),
{
    let prefix = path + seq!['/'];
    assert(path_key(path, row, col).subrange(0, prefix.len() as int) =~= prefix);
}

// ---------------------------------------------------------------------------------------
// Open cells

/// The keys among some that lead to a store.
pub open spec fn leading_keys(keys: Seq<Seq<char>>, root: StoreView) -> Seq<Seq<char>>
    decreases keys.len(),
{
    if keys.len() == 0 {
        Seq::empty()
    } else if opened(root, keys.last()) is Some {
        leading_keys(keys.drop_last(), root).push(keys.last())
    } else {
        leading_keys(keys.drop_last(), root)
    }
}

/// The keys of a set that lead to a store, in alphabetical order.
pub fn keys_that_lead(set: &KeySet, root: &ResultStore) -> (out: Vec<String>)
    ensures
        texts(out@) == leading_keys(set.listing(), root@),
{
    let keys = set.list();
    let ghost all = texts(keys@);
    let mut out: Vec<String> = Vec::new();
    let n: usize = keys.len();
    assert(all.take(0) =~= Seq::empty());
    assert(texts(out@) =~= Seq::empty());
    for i in 0..n
        invariant
            n == keys@.len(),
            all == texts(keys@),
            texts(out@) == leading_keys(all.take(i as int), root@),
    {
        assert(all.take(i + 1).drop_last() =~= all.take(i as int));
        assert(all.take(i + 1).last() == keys@[i as int]@);
        if nested_store(root, keys[i].as_str()).is_some() {
            let ghost before = out@;
            out.push(keys[i].clone());
            assert(texts(out@) =~= texts(before).push(keys@[i as int]@));
        }
    }
    assert(all.take(n as int) =~= all);
    out
}

/// A cell of the root table that is open below it.
#[derive(Debug)]
pub struct Expansion {
    pub key: String,
    pub title: String,
    pub store: ResultStore,
}

/// An open cell as characters.
pub struct ExpansionView {
    pub key: Seq<char>,
    pub title: Seq<char>,
    pub store: StoreView,
}

impl View for Expansion {
    type V = ExpansionView;

    open spec fn view(&self) -> ExpansionView {
        ExpansionView { key: self.key@, title: self.title@, store: self.store@ }
    }
}

/// The open cell of the root table that a key leads to, under the name of its column.
pub open spec fn expansion_of(key: Seq<char>, root: StoreView) -> Option<ExpansionView> {
    let parts = key_parts(key);
    if root_row(key) is None {
        None
    } else {
        match (opened(root, key), parsed_number(parts[2], usize::MAX as nat)) {
            (Some(store), Some(col)) => Some(
                ExpansionView {
                    key,
                    title: if col < root.columns.len() {
                        root.columns[col as int]
                    } else {
                        "nested"@
                    },
                    store,
                },
            ),
            _ => None,
        }
    }
}

/// The open cells of the root table that some keys lead to.
pub open spec fn expansions_of(keys: Seq<Seq<char>>, root: StoreView) -> Seq<ExpansionView>
    decreases keys.len(),
{
    if keys.len() == 0 {
        Seq::empty()
    } else {
        match expansion_of(keys.last(), root) {
            Some(view) => expansions_of(keys.drop_last(), root).push(view),
            None => expansions_of(keys.drop_last(), root),
        }
    }
}

/// Open cells as characters.
pub open spec fn expansion_views(list: Seq<Expansion>) -> Seq<ExpansionView> {
    list.map_values(|expansion: Expansion| expansion@)
}

fn expansion_at(key: &str, root: &ResultStore) -> (out: Option<Expansion>)
    ensures
        match out {
            Some(out) => expansion_of(key@, root@) == Some(out@),
            None => expansion_of(key@, root@) is None,
        },
{
    if parse_root_row(key).is_none() {
        return None;
    }
    let store = match nested_store(root, key) {
        Some(store) => store,
        None => {
            return None;
        },
    };
    let parts = split(key, '/', '/');
    assert(texts(parts@).len() == parts@.len());
    assert(texts(parts@)[2] == parts@[2]@);
    match parse_usize(parts[2].as_str()) {
        Some(col) => {
            let title = if col < root.columns.len() {
                assert(root@.columns[col as int] == root.columns@[col as int]@);
                root.columns[col].clone()
            } else {
                "nested".to_owned()
            };
            Some(Expansion { key: key.to_owned(), title, store: store.clone() })
        },
        None => None,
    }
}

/// The open cells of the root table, in the alphabetical order of their keys.
pub fn root_expansions(set: &KeySet, root: &ResultStore) -> (out: Vec<Expansion>)
    ensures
        expansion_views(out@) == expansions_of(set.listing(), root@),
{
    let keys = set.list();
    let ghost all = texts(keys@);
    let mut out: Vec<Expansion> = Vec::new();
    let n: usize = keys.len();
    assert(all.take(0) =~= Seq::empty());
    assert(expansion_views(out@) =~= Seq::empty());
    for i in 0..n
        invariant
            n == keys@.len(),
            all == texts(keys@),
            expansion_views(out@) == expansions_of(all.take(i as int), root@),
    {
        assert(all.take(i + 1).drop_last() =~= all.take(i as int));
        assert(all.take(i + 1).last() == keys@[i as int]@);
        if let Some(expansion) = expansion_at(keys[i].as_str(), root) {
            let ghost before = out@;
            let ghost view = expansion@;
            out.push(expansion);
            assert(expansion_views(out@) =~= expansion_views(before).push(view));
        }
    }
    assert(all.take(n as int) =~= all);
    out
}

/// The key of a nested cell in the root table gives that cell, under the name of its column.
pub proof fn law_expansions_carry_their_column(root: StoreView, row: usize, col: usize)
    requires
        row < root.rows.len(),
        col < root.rows[row as int].len(),
        root.rows[row as int][col as int].nested is Some,
    ensures
        ({
            let key = path_key("root"@, row as nat, col as nat);
            let open = expansion_of(key, root);
            &&& open is Some
            &&& open->0.key == key
            &&& open->0.store == root.rows[row as int][col as int].nested->0
            &&& col < root.columns.len() ==> open->0.title == root.columns[col as int]
            &&& col >= root.columns.len() ==> open->0.title == "nested"@
        }),
{
    reveal_strlit("root");
    let key = path_key("root"@, row as nat, col as nat);
    assert forall|k: int| 0 <= k < "root"@.len() implies "root"@[k] != '/' by {}
    lemma_one_piece("root"@, '/');
    lemma_key_parts("root"@, row as nat, col as nat);
    law_root_keys_tell_their_row(row, col, 0, 0);
    lemma_decimal_reads_back(col as nat, usize::MAX as nat);
    assert(key_parts(key)[2] == decimal(col as nat));
    assert(key_parts("root"@).drop_first() =~= Seq::empty());
    assert(opened(root, "root"@) == Some(root));
    law_key_opens_its_cell(root, "root"@, row, col);
}

/// Of some keys those lead on that open a store, in their order.
pub proof fn law_leading_keys_open_a_store(keys: Seq<Seq<char>>, root: StoreView, key: Seq<char>)
    ensures
        leading_keys(keys, root).contains(key) <==> keys.contains(key) && opened(
            root,
            key,
        ) is Some,
        (forall|i: int| 0 <= i < keys.len() ==> opened(root, #[trigger] keys[i]) is Some)
            ==> leading_keys(keys, root) == keys,
    decreases keys.len(),
{
    if keys.len() > 0 {
        let front = keys.drop_last();
        law_leading_keys_open_a_store(front, root, key);
        let before = leading_keys(front, root);
        let all = leading_keys(keys, root);
        if before.contains(key) {
            let k = choose|k: int| 0 <= k < before.len() && before[k] == key;
            assert(all[k] == key);
        }
        if all.contains(key) {
            let k = choose|k: int| 0 <= k < all.len() && all[k] == key;
            if k < before.len() {
                assert(before[k] == key);
            } else {
                assert(keys[keys.len() - 1] == key);
            }
        }
        if front.contains(key) {
            let k = choose|k: int| 0 <= k < front.len() && front[k] == key;
            assert(keys[k] == key);
        }
        if keys.contains(key) && !front.contains(key) {
            let k = choose|k: int| 0 <= k < keys.len() && keys[k] == key;
            if k < front.len() {
                assert(front[k] == key);
            }
            if opened(root, key) is Some {
                assert(all[all.len() - 1] == key);
            }
        }
        if forall|i: int| 0 <= i < keys.len() ==> opened(root, #[trigger] keys[i]) is Some {
            assert forall|i: int| 0 <= i < front.len() implies opened(
                root,
                #[trigger] front[i],
            ) is Some by {
                assert(front[i] == keys[i]);
            }
            assert(opened(root, keys[keys.len() - 1]) is Some);
            assert(all =~= keys);
        }
    } else {
        assert(leading_keys(keys, root) =~= keys);
    }
}

/// A click on a variable opens or closes that one and no other, and a second click undoes it.
pub proof fn law_clicks_on_variables_undo_each_other(
    set: Set<Seq<char>>,
    key: Seq<char>,
    other: Seq<char>,
)
    ensures
        flipped(set, key).contains(key) == !set.contains(key),
        other != key ==> flipped(set, key).contains(other) == set.contains(other),
        flipped(flipped(set, key), key) == set,
{
    assert(flipped(flipped(set, key), key) =~= set);
}

/// A click opens a closed key and no other, and a click on an open key closes it and what lies
/// below it and nothing else.
pub proof fn law_clicks_touch_their_key_alone(
    set: Set<Seq<char>>,
    key: Seq<char>,
    other: Seq<char>,
)
    ensures
        !set.contains(key) ==> toggled(set, key) == set.insert(key),
        set.contains(key) ==> !toggled(set, key).contains(key),
        set.contains(key) && other != key && !begins_with(other, key + seq!['/']) ==> toggled(
            set,
            key,
        ).contains(other) == set.contains(other),
        set.contains(key) && begins_with(other, key + seq!['/']) ==> !toggled(set, key).contains(
            other,
        ),
{
}

/// Each key that leads to an open cell adds that cell behind those before it, and no other key
/// does.
pub proof fn law_open_cells_come_in_the_order_of_their_keys(
    keys: Seq<Seq<char>>,
    key: Seq<char>,
    root: StoreView,
)
    ensures
        expansions_of(Seq::empty(), root).len() == 0,
        expansion_of(key, root) matches Some(cell) ==> expansions_of(keys.push(key), root)
            == expansions_of(keys, root).push(cell),
        expansion_of(key, root) is None ==> expansions_of(keys.push(key), root) == expansions_of(
            keys,
            root,
        ),
{
    assert(keys.push(key).drop_last() =~= keys);
}

} // verus!
