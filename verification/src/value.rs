//! Nushell values as a Result shows them.

use crate::color::AnsiStyle;
use crate::listing::{has_text, text_option};
use crate::order::FloatKey;
use crate::text::{
    decimal, decimal_i64, decimal_usize, digit_char, join, joined, signed_decimal, str_eq, texts,
};
use vstd::prelude::*;

verus! {

/// The largest unit in which a duration is written.
#[derive(Debug, Clone, Copy, PartialEq, Eq, Structural)]
pub enum DurationUnit {
    Week,
    Day,
    Hour,
    Minute,
    Second,
    Millisecond,
    Microsecond,
    Nanosecond,
}

/// A signed length of time in nanoseconds whose opposite is one too.
#[derive(Debug, Clone, Copy, PartialEq, Eq)]
pub struct Nanos {
    count: i64,
}

impl Nanos {
    #[verifier::type_invariant]
    spec fn has_opposite(self) -> bool {
        self.count != i64::MIN
    }

    pub closed spec fn view(self) -> int {
        self.count as int
    }

    /// A length of time, where its opposite is one too.
    pub fn new(count: i64) -> (nanos: Option<Self>)
        ensures
            nanos is Some <==> count != i64::MIN,
            nanos is Some ==> nanos->0@ == count,
    {
        if count == i64::MIN {
            None
        } else {
            Some(Nanos { count })
        }
    }

    /// The number of nanoseconds.
    pub fn count(self) -> (count: i64)
        ensures
            count == self@,
            count != i64::MIN,
    {
        proof {
            use_type_invariant(&self);
        }
        self.count
    }
}

/// A value that an Invocation gives. A leaf holds the style that the color configuration
/// gives it, and the texts that rest on the machine's locale, clock or floating-point
/// arithmetic.
#[derive(Debug)]
pub enum NuValue {
    Nothing { style: AnsiStyle },
    Bool { val: bool, style: AnsiStyle },
    Int { val: i64, style: AnsiStyle },
    /// The number, its digits at the configured precision, and its shortest text with a
    /// point.
    Float { val: FloatKey, fixed: String, obvious: String, style: AnsiStyle },
    /// The text, and the style of the file that it names where it names one.
    Text { val: String, style: AnsiStyle, path_style: Option<AnsiStyle> },
    Filesize { val: i64, text: String, style: AnsiStyle },
    Duration { val: Nanos, style: AnsiStyle },
    /// The time since 1970 in nanoseconds where that fits, and the text in a table.
    Date { nanos: Option<i64>, text: String, style: AnsiStyle },
    Binary { val: Vec<u8> },
    Closure { id: usize },
    List { vals: Vec<NuValue> },
    Record { val: Vec<Field> },
    /// A value of any further type, by its text.
    Other { text: String },
}

/// A field of a record.
#[derive(Debug)]
pub struct Field {
    pub name: String,
    pub value: NuValue,
}

// ---------------------------------------------------------------------------------------
// Outside texts

/// The text of a length of time with units up to a largest one.
pub uninterp spec fn duration_words(nanos: int, unit: DurationUnit) -> Seq<char>;

/// Calls `nu_protocol::format_duration`: the result is a function of the length of time
/// and of the largest unit alone. The least length of time is left out: the function
/// negates it.
#[verifier::external_body]
fn duration_text(nanos: i64, unit: DurationUnit) -> (text: String)
    requires
        nanos != i64::MIN,
    ensures
        text@ == duration_words(nanos as int, unit),
{
    let unit = match unit {
        DurationUnit::Week => nu_protocol::DurationMaxUnit::Week,
        DurationUnit::Day => nu_protocol::DurationMaxUnit::Day,
        DurationUnit::Hour => nu_protocol::DurationMaxUnit::Hour,
        DurationUnit::Minute => nu_protocol::DurationMaxUnit::Minute,
        DurationUnit::Second => nu_protocol::DurationMaxUnit::Second,
        DurationUnit::Millisecond => nu_protocol::DurationMaxUnit::Millisecond,
        DurationUnit::Microsecond => nu_protocol::DurationMaxUnit::Microsecond,
        DurationUnit::Nanosecond => nu_protocol::DurationMaxUnit::Nanosecond,
    };
    nu_protocol::format_duration(nanos, unit)
}

// ---------------------------------------------------------------------------------------
// Texts

/// The text of a truth value.
pub open spec fn bool_text(val: bool) -> Seq<char> {
    if val {
        "true"@
    } else {
        "false"@
    }
}

/// Bytes as a list of numbers.
pub open spec fn bytes_text(val: Seq<u8>) -> Seq<char> {
    "["@ + joined(val.map_values(|b: u8| decimal(b as nat)), ", "@) + "]"@
}

/// The two hexadecimal digits of a byte.
pub open spec fn hex_pair(b: u8) -> Seq<char> {
    seq![hex_digit((b / 16) as nat), hex_digit((b % 16) as nat)]
}

/// A hexadecimal digit.
pub open spec fn hex_digit(d: nat) -> char {
    if d < 10 {
        digit_char(d)
    } else if d == 10 {
        'a'
    } else if d == 11 {
        'b'
    } else if d == 12 {
        'c'
    } else if d == 13 {
        'd'
    } else if d == 14 {
        'e'
    } else {
        'f'
    }
}

/// Bytes in hexadecimal.
pub open spec fn hex_text(val: Seq<u8>) -> Seq<char> {
    "0x["@ + joined(val.map_values(|b: u8| hex_pair(b)), Seq::empty()) + "]"@
}

/// Whether a list holds records alone.
pub open spec fn all_records(vals: Seq<NuValue>) -> bool {
    forall|i: int| 0 <= i < vals.len() ==> (#[trigger] vals[i]) is Record
}

/// A count of things, one or more.
pub open spec fn counted(n: nat, one: Seq<char>, many: Seq<char>) -> Seq<char> {
    decimal(n) + (if n == 1 {
        one
    } else {
        many
    })
}

/// The short text of a value: a table, list or record by its size alone.
pub open spec fn abbreviated(v: NuValue, unit: DurationUnit) -> Seq<char> {
    match v {
        NuValue::Nothing { .. } => Seq::empty(),
        NuValue::Bool { val, .. } => bool_text(val),
        NuValue::Int { val, .. } => signed_decimal(val as int),
        NuValue::Float { obvious, .. } => obvious@,
        NuValue::Text { val, .. } => val@,
        NuValue::Filesize { text, .. } => text@,
        NuValue::Duration { val, .. } => duration_words(val@, unit),
        NuValue::Date { text, .. } => text@,
        NuValue::Binary { val } => bytes_text(val@),
        NuValue::Closure { id } => "closure_"@ + decimal(id as nat),
        NuValue::List { vals } => if vals@.len() > 0 && all_records(vals@) {
            "[table "@ + counted(vals@.len(), " row]"@, " rows]"@)
        } else {
            "[list "@ + counted(vals@.len(), " item]"@, " items]"@)
        },
        NuValue::Record { val } => "{record "@ + counted(val@.len(), " field}"@, " fields}"@),
        NuValue::Other { text } => text@,
    }
}

/// Whether a value is a leaf of a list that prints on one line.
pub open spec fn scalar_leaf(v: NuValue) -> bool {
    match v {
        NuValue::Closure { .. } => false,
        NuValue::List { .. } => false,
        NuValue::Record { .. } => false,
        NuValue::Other { .. } => false,
        _ => true,
    }
}

/// The text of a leaf within a list.
pub open spec fn leaf_text(v: NuValue, unit: DurationUnit) -> Seq<char> {
    match v {
        NuValue::Nothing { .. } => "null"@,
        NuValue::Float { fixed, .. } => fixed@,
        NuValue::Binary { val } => hex_text(val@),
        _ => abbreviated(v, unit),
    }
}

/// The text of an item of a list that prints on one line, where it has one.
pub open spec fn item_text(v: NuValue, unit: DurationUnit, depth: nat) -> Option<Seq<char>>
    decreases depth, 0nat,
{
    if scalar_leaf(v) {
        Some(leaf_text(v, unit))
    } else if depth > 0 {
        match v {
            NuValue::List { vals } => {
                let items = item_texts(vals@, unit, (depth - 1) as nat);
                if vals@.len() <= 24 && all_some(items) {
                    Some("["@ + joined(held_texts(items), ", "@) + "]"@)
                } else {
                    None
                }
            },
            _ => None,
        }
    } else {
        None
    }
}

/// The texts of the items of a list that prints on one line, where they have one.
pub open spec fn item_texts(vals: Seq<NuValue>, unit: DurationUnit, depth: nat) -> Seq<
    Option<Seq<char>>,
>
    decreases depth, 1nat,
{
    Seq::new(vals.len(), |i: int| item_text(vals[i], unit, depth))
}

/// Whether there is a text at each place.
pub open spec fn all_some(items: Seq<Option<Seq<char>>>) -> bool {
    forall|i: int| 0 <= i < items.len() ==> (#[trigger] items[i]) is Some
}

/// The texts at each place, where there are.
pub open spec fn held_texts(items: Seq<Option<Seq<char>>>) -> Seq<Seq<char>> {
    Seq::new(items.len(), |i: int| items[i]->0)
}

/// The text on one line of a list whose leaves allow it, at most three lists deep and at
/// most 24 items in each.
pub open spec fn compact_text(v: NuValue, unit: DurationUnit) -> Option<Seq<char>> {
    if v is List {
        item_text(v, unit, 3)
    } else {
        None
    }
}

/// The text of a truth value.
pub fn bool_str(val: bool) -> (text: &'static str)
    ensures
        text@ == bool_text(val),
{
    if val {
        "true"
    } else {
        "false"
    }
}

fn write_bytes(val: &Vec<u8>) -> (text: String)
    ensures
        text@ == bytes_text(val@),
{
    let mut parts: Vec<String> = Vec::new();
    let n: usize = val.len();
    for i in 0..n
        invariant
            n == val@.len(),
            parts@.len() == i,
            forall|k: int| 0 <= k < i ==> (#[trigger] parts@[k])@ == decimal(val@[k] as nat),
    {
        parts.push(decimal_usize(val[i] as usize));
    }
    assert(texts(parts@) =~= val@.map_values(|b: u8| decimal(b as nat)));
    let mut text = "[".to_owned();
    text.push_str(join(&parts, ", ").as_str());
    text.push_str("]");
    text
}

fn hex_of(d: u8) -> (c: char)
    requires
        d < 16,
    ensures
        c == hex_digit(d as nat),
{
    match d {
        0 => '0',
        1 => '1',
        2 => '2',
        3 => '3',
        4 => '4',
        5 => '5',
        6 => '6',
        7 => '7',
        8 => '8',
        9 => '9',
        10 => 'a',
        11 => 'b',
        12 => 'c',
        13 => 'd',
        14 => 'e',
        _ => 'f',
    }
}

fn write_hex(val: &Vec<u8>) -> (text: String)
    ensures
        text@ == hex_text(val@),
{
    let mut parts: Vec<String> = Vec::new();
    let n: usize = val.len();
    for i in 0..n
        invariant
            n == val@.len(),
            parts@.len() == i,
            forall|k: int| 0 <= k < i ==> (#[trigger] parts@[k])@ == hex_pair(val@[k]),
    {
        let mut pair = String::new();
        pair.push(hex_of(val[i] / 16));
        pair.push(hex_of(val[i] % 16));
        assert(pair@ =~= hex_pair(val@[i as int]));
        parts.push(pair);
    }
    assert(texts(parts@) =~= val@.map_values(|b: u8| hex_pair(b)));
    let mut text = "0x[".to_owned();
    assert(""@ =~= Seq::<char>::empty()) by {
        reveal_strlit("");
    }
    text.push_str(join(&parts, "").as_str());
    text.push_str("]");
    text
}

/// Whether a list holds records alone.
pub fn only_records(vals: &Vec<NuValue>) -> (yes: bool)
    ensures
        yes == all_records(vals@),
{
    let n: usize = vals.len();
    for i in 0..n
        invariant
            n == vals@.len(),
            forall|k: int| 0 <= k < i ==> (#[trigger] vals@[k]) is Record,
    {
        if !matches!(vals[i], NuValue::Record { .. }) {
            return false;
        }
    }
    true
}

fn write_counted(before: &str, n: usize, one: &str, many: &str) -> (text: String)
    ensures
        text@ == before@ + counted(n as nat, one@, many@),
{
    let mut text = before.to_owned();
    text.push_str(decimal_usize(n).as_str());
    if n == 1 {
        text.push_str(one);
    } else {
        text.push_str(many);
    }
    assert(text@ =~= before@ + counted(n as nat, one@, many@));
    text
}

impl NuValue {
    /// The short text of the value.
    pub fn to_abbreviated_string(&self, unit: DurationUnit) -> (text: String)
        ensures
            text@ == abbreviated(*self, unit),
    {
        match self {
            NuValue::Nothing { .. } => String::new(),
            NuValue::Bool { val, .. } => bool_str(*val).to_owned(),
            NuValue::Int { val, .. } => decimal_i64(*val),
            NuValue::Float { obvious, .. } => obvious.clone(),
            NuValue::Text { val, .. } => val.clone(),
            NuValue::Filesize { text, .. } => text.clone(),
            NuValue::Duration { val, .. } => duration_text(val.count(), unit),
            NuValue::Date { text, .. } => text.clone(),
            NuValue::Binary { val } => write_bytes(val),
            NuValue::Closure { id } => {
                let mut text = "closure_".to_owned();
                text.push_str(decimal_usize(*id).as_str());
                text
            },
            NuValue::List { vals } => if vals.len() > 0 && only_records(vals) {
                write_counted("[table ", vals.len(), " row]", " rows]")
            } else {
                write_counted("[list ", vals.len(), " item]", " items]")
            },
            NuValue::Record { val } => write_counted("{record ", val.len(), " field}", " fields}"),
            NuValue::Other { text } => text.clone(),
        }
    }
}

/// Whether a value is a leaf of a list that prints on one line.
pub fn is_scalar_leaf(value: &NuValue) -> (leaf: bool)
    ensures
        leaf == scalar_leaf(*value),
{
    match value {
        NuValue::Closure { .. } => false,
        NuValue::List { .. } => false,
        NuValue::Record { .. } => false,
        NuValue::Other { .. } => false,
        _ => true,
    }
}

/// The text of a leaf within a list.
pub fn scalar_text(value: &NuValue, unit: DurationUnit) -> (text: String)
    ensures
        text@ == leaf_text(*value, unit),
{
    match value {
        NuValue::Nothing { .. } => "null".to_owned(),
        NuValue::Float { fixed, .. } => fixed.clone(),
        NuValue::Binary { val } => write_hex(val),
        _ => value.to_abbreviated_string(unit),
    }
}

/// Compact `[1, 2]` / `[[1, 2], [3, 4]]` the way `table -e` prints leaf lists.
pub fn compact_value_text(value: &NuValue, unit: DurationUnit) -> (text: Option<String>)
    ensures
        text_option(text) == compact_text(*value, unit),
{
    compact_value_text_depth(value, unit, 3)
}

fn compact_value_text_depth(value: &NuValue, unit: DurationUnit, depth: usize) -> (text: Option<
    String,
>)
    ensures
        text_option(text) == if *value is List {
            item_text(*value, unit, depth as nat)
        } else {
            None
        },
    decreases depth,
{
    if depth == 0 {
        return None;
    }
    let vals = match value {
        NuValue::List { vals } => vals,
        _ => {
            return None;
        },
    };
    let n: usize = vals.len();
    if n > 24 {
        return None;
    }
    let ghost items = item_texts(vals@, unit, (depth - 1) as nat);
    let mut parts: Vec<String> = Vec::new();
    for i in 0..n
        invariant
            n == vals@.len(),
            n <= 24,
            depth > 0,
            *value is List,
            value->vals == *vals,
            items == item_texts(vals@, unit, (depth - 1) as nat),
            parts@.len() == i,
            items.len() == n,
            forall|k: int| 0 <= k < i ==> (#[trigger] items[k]) is Some,
            forall|k: int| 0 <= k < i ==> (#[trigger] parts@[k])@ == held_texts(items)[k],
    {
        assert(items[i as int] == item_text(vals@[i as int], unit, (depth - 1) as nat));
        if is_scalar_leaf(&vals[i]) {
            let part = scalar_text(&vals[i], unit);
            assert(items[i as int] == Some(part@));
            parts.push(part);
        } else {
            match compact_value_text_depth(&vals[i], unit, depth - 1) {
                Some(part) => {
                    assert(items[i as int] == Some(part@));
                    parts.push(part);
                },
                None => {
                    assert(items[i as int] is None);
                    return None;
                },
            }
        }
    }
    assert(texts(parts@) =~= held_texts(items));
    let mut text = "[".to_owned();
    text.push_str(join(&parts, ", ").as_str());
    text.push_str("]");
    Some(text)
}

// ---------------------------------------------------------------------------------------
// Records

/// The place of a field by its name.
pub open spec fn field_place(fields: Seq<Field>, name: Seq<char>) -> Option<int>
    decreases fields.len(),
{
    if fields.len() == 0 {
        None
    } else {
        match field_place(fields.drop_last(), name) {
            Some(i) => Some(i),
            None => if fields.last().name@ == name {
                Some(fields.len() - 1)
            } else {
                None
            },
        }
    }
}

pub proof fn lemma_field_place(fields: Seq<Field>, name: Seq<char>)
    ensures
        field_place(fields, name) matches Some(i) ==> 0 <= i < fields.len() && fields[i].name@
            == name,
    decreases fields.len(),
{
    if fields.len() > 0 {
        lemma_field_place(fields.drop_last(), name);
    }
}

/// Looks for a field by its name.
pub fn find_field(fields: &Vec<Field>, name: &str) -> (place: Option<usize>)
    ensures
        match place {
            Some(i) => field_place(fields@, name@) == Some(i as int),
            None => field_place(fields@, name@) is None,
        },
        place is Some ==> place->0 < fields@.len(),
{
    let n: usize = fields.len();
    assert(fields@.take(0) =~= Seq::empty());
    for i in 0..n
        invariant
            n == fields@.len(),
            field_place(fields@.take(i as int), name@) is None,
    {
        assert(fields@.take(i + 1).drop_last() =~= fields@.take(i as int));
        if str_eq(fields[i].name.as_str(), name) {
            proof {
                lemma_place_kept(fields@, name@, i + 1);
            }
            return Some(i);
        }
    }
    assert(fields@.take(n as int) =~= fields@);
    None
}

proof fn lemma_place_kept(fields: Seq<Field>, name: Seq<char>, k: int)
    requires
        0 <= k <= fields.len(),
        field_place(fields.take(k), name) is Some,
    ensures
        field_place(fields, name) == field_place(fields.take(k), name),
    decreases fields.len() - k,
{
    if k < fields.len() {
        assert(fields.take(k + 1).drop_last() =~= fields.take(k));
        lemma_place_kept(fields, name, k + 1);
    } else {
        assert(fields.take(k) =~= fields);
    }
}

/// The names of the fields of some records, each once, as they come.
pub open spec fn columns_of(vals: Seq<NuValue>) -> Seq<Seq<char>>
    decreases vals.len(),
{
    if vals.len() == 0 {
        Seq::empty()
    } else {
        let before = columns_of(vals.drop_last());
        match vals.last() {
            NuValue::Record { val } => with_names(before, val@),
            _ => before,
        }
    }
}

/// Names with those of some fields put behind them where they are new.
pub open spec fn with_names(names: Seq<Seq<char>>, fields: Seq<Field>) -> Seq<Seq<char>>
    decreases fields.len(),
{
    if fields.len() == 0 {
        names
    } else {
        let before = with_names(names, fields.drop_last());
        if before.contains(fields.last().name@) {
            before
        } else {
            before.push(fields.last().name@)
        }
    }
}

/// The names of the fields of the first records, each once, as they come.
pub fn gather_columns(vals: &Vec<NuValue>, count: usize) -> (columns: Vec<String>)
    requires
        count <= vals@.len(),
    ensures
        texts(columns@) == columns_of(vals@.take(count as int)),
{
    let mut columns: Vec<String> = Vec::new();
    assert(texts(columns@) =~= Seq::empty());
    assert(vals@.take(0) =~= Seq::empty());
    for i in 0..count
        invariant
            count <= vals@.len(),
            texts(columns@) == columns_of(vals@.take(i as int)),
    {
        assert(vals@.take(i + 1).drop_last() =~= vals@.take(i as int));
        assert(vals@.take(i + 1).last() == vals@[i as int]);
        if let NuValue::Record { val } = &vals[i] {
            let ghost before = texts(columns@);
            let n: usize = val.len();
            assert(val@.take(0) =~= Seq::empty());
            for j in 0..n
                invariant
                    n == val@.len(),
                    texts(columns@) == with_names(before, val@.take(j as int)),
            {
                assert(val@.take(j + 1).drop_last() =~= val@.take(j as int));
                assert(val@.take(j + 1).last() == val@[j as int]);
                if !has_text(&columns, val[j].name.as_str()) {
                    let ghost held = columns@;
                    columns.push(val[j].name.clone());
                    assert(texts(columns@) =~= texts(held).push(val@[j as int].name@));
                }
            }
            assert(val@.take(n as int) =~= val@);
        }
    }
    columns
}

proof fn lemma_with_names(names: Seq<Seq<char>>, fields: Seq<Field>)
    requires
        names.no_duplicates(),
    ensures
        with_names(names, fields).no_duplicates(),
        forall|x: Seq<char>| #[trigger]
            with_names(names, fields).contains(x) <==> names.contains(x) || exists|i: int|
                0 <= i < fields.len() && (#[trigger] fields[i]).name@ == x,
    decreases fields.len(),
{
    if fields.len() > 0 {
        lemma_with_names(names, fields.drop_last());
        let before = with_names(names, fields.drop_last());
        let all = with_names(names, fields);
        assert forall|x: Seq<char>| #[trigger] all.contains(x) <==> names.contains(x)
            || exists|i: int| 0 <= i < fields.len() && (#[trigger] fields[i]).name@ == x by {
            if before.contains(x) {
                let k = choose|k: int| 0 <= k < before.len() && before[k] == x;
                assert(all[k] == x);
                if !names.contains(x) {
                    let i = choose|i: int|
                        0 <= i < fields.drop_last().len() && (
                        #[trigger] fields.drop_last()[i]).name@ == x;
                    assert(fields[i].name@ == x);
                }
            }
            if fields.last().name@ == x {
                assert(fields[fields.len() - 1].name@ == x);
                if !before.contains(x) {
                    assert(all[all.len() - 1] == x);
                }
            }
            if all.contains(x) && !before.contains(x) {
                let k = choose|k: int| 0 <= k < all.len() && all[k] == x;
                if k < before.len() {
                    assert(before[k] == x);
                }
                assert(fields[fields.len() - 1].name@ == x);
            }
            if exists|i: int| 0 <= i < fields.len() && (#[trigger] fields[i]).name@ == x {
                let i = choose|i: int| 0 <= i < fields.len() && (#[trigger] fields[i]).name@ == x;
                if i < fields.len() - 1 {
                    assert(fields.drop_last()[i].name@ == x);
                    assert(before.contains(x));
                }
            }
        }
    }
}

/// Whether one of some records has a field of a name.
pub open spec fn named_in(vals: Seq<NuValue>, name: Seq<char>) -> bool {
    exists|i: int, j: int|
        0 <= i < vals.len() && vals[i] is Record && 0 <= j < vals[i]->Record_val@.len() && (
        #[trigger] vals[i]->Record_val@[j]).name@ == name
}

/// The columns of a list of records are the names of its fields, each once.
pub proof fn law_columns_are_the_field_names(vals: Seq<NuValue>)
    ensures
        columns_of(vals).no_duplicates(),
        forall|x: Seq<char>| #[trigger] columns_of(vals).contains(x) <==> named_in(vals, x),
    decreases vals.len(),
{
    if vals.len() > 0 {
        let front = vals.drop_last();
        law_columns_are_the_field_names(front);
        if let NuValue::Record { val } = vals.last() {
            lemma_with_names(columns_of(front), val@);
        }
        assert forall|x: Seq<char>| #[trigger] columns_of(vals).contains(x) <==> named_in(
            vals,
            x,
        ) by {
            if named_in(front, x) {
                let (i, j) = choose|i: int, j: int|
                    0 <= i < front.len() && front[i] is Record && 0 <= j
                        < front[i]->Record_val@.len() && (
                    #[trigger] front[i]->Record_val@[j]).name@ == x;
                assert(vals[i]->Record_val@[j].name@ == x);
            }
            if columns_of(vals).contains(x) && !columns_of(front).contains(x) {
                let fields = vals.last()->Record_val@;
                let j = choose|j: int| 0 <= j < fields.len() && (#[trigger] fields[j]).name@ == x;
                assert(vals[vals.len() - 1]->Record_val@[j].name@ == x);
            }
            if named_in(vals, x) {
                let (i, j) = choose|i: int, j: int|
                    0 <= i < vals.len() && vals[i] is Record && 0 <= j
                        < vals[i]->Record_val@.len() && (
                    #[trigger] vals[i]->Record_val@[j]).name@ == x;
                if i < front.len() {
                    assert(front[i]->Record_val@[j].name@ == x);
                    assert(named_in(front, x));
                } else {
                    assert(vals.last()->Record_val@[j].name@ == x);
                }
            }
        }
    }
}

// ---------------------------------------------------------------------------------------
// Laws on texts

/// Within a list a leaf is written as it is: numbers by their digits, texts bare, truth
/// values by their word, nothing as `null`, floats at the configured precision.
pub proof fn law_leaves_are_written_as_they_are(v: NuValue, unit: DurationUnit)
    ensures
        v matches NuValue::Int { val, .. } ==> leaf_text(v, unit) == signed_decimal(val as int),
        v matches NuValue::Text { val, .. } ==> leaf_text(v, unit) == val@,
        v matches NuValue::Bool { val, .. } ==> leaf_text(v, unit) == (if val {
            "true"@
        } else {
            "false"@
        }),
        v is Nothing ==> leaf_text(v, unit) == "null"@,
        v matches NuValue::Float { fixed, .. } ==> leaf_text(v, unit) == fixed@,
        v matches NuValue::Filesize { text, .. } ==> leaf_text(v, unit) == text@,
        v matches NuValue::Date { text, .. } ==> leaf_text(v, unit) == text@,
        v matches NuValue::Duration { val, .. } ==> leaf_text(v, unit) == duration_words(
            val@,
            unit,
        ),
        scalar_leaf(v) == !(v is Closure || v is List || v is Record || v is Other),
{
}

/// A list of at most 24 leaves prints on one line, in brackets, with commas between and the
/// leaves in their order. A longer one does not, nor does one with a record, a closure or a
/// value of another type in it.
pub proof fn law_flat_lists_print_on_one_line(v: NuValue, unit: DurationUnit)
    requires
        v is List,
    ensures
        v->vals@.len() <= 24 && (forall|i: int|
            0 <= i < v->vals@.len() ==> scalar_leaf(#[trigger] v->vals@[i])) ==> compact_text(
            v,
            unit,
        ) == Some(
            "["@ + joined(Seq::new(v->vals@.len(), |i: int| leaf_text(v->vals@[i], unit)), ", "@)
                + "]"@,
        ),
        v->vals@.len() > 24 ==> compact_text(v, unit) is None,
        (exists|i: int|
            0 <= i < v->vals@.len() && ((#[trigger] v->vals@[i]) is Record || v->vals@[i] is Closure
                || v->vals@[i] is Other)) ==> compact_text(v, unit) is None,
{
    let vals = v->vals@;
    let items = item_texts(vals, unit, 2);
    let leaves = Seq::new(vals.len(), |i: int| leaf_text(vals[i], unit));
    if forall|i: int| 0 <= i < vals.len() ==> scalar_leaf(#[trigger] vals[i]) {
        assert forall|i: int| 0 <= i < items.len() implies (#[trigger] items[i]) == Some(
            leaves[i],
        ) by {
            assert(scalar_leaf(vals[i]));
        }
        assert(held_texts(items) =~= leaves);
        assert(all_some(items));
    }
    if exists|i: int|
        0 <= i < vals.len() && ((#[trigger] vals[i]) is Record || vals[i] is Closure
            || vals[i] is Other) {
        let i = choose|i: int|
            0 <= i < vals.len() && ((#[trigger] vals[i]) is Record || vals[i] is Closure
                || vals[i] is Other);
        assert(items[i] is None);
    }
}

/// A list of flat lists prints on one line as the list of their lines.
pub proof fn law_lists_of_flat_lists_print_on_one_line(v: NuValue, unit: DurationUnit)
    requires
        v is List,
        v->vals@.len() <= 24,
        forall|i: int|
            0 <= i < v->vals@.len() ==> (#[trigger] v->vals@[i]) is List
                && v->vals@[i]->vals@.len() <= 24 && forall|k: int|
                0 <= k < v->vals@[i]->vals@.len() ==> scalar_leaf(#[trigger] v->vals@[i]->vals@[k]),
    ensures
        compact_text(v, unit) == Some(
            "["@ + joined(
                Seq::new(v->vals@.len(), |i: int| compact_text(v->vals@[i], unit)->0),
                ", "@,
            ) + "]"@,
        ),
{
    let vals = v->vals@;
    let items = item_texts(vals, unit, 2);
    let wanted = Seq::new(vals.len(), |i: int| compact_text(vals[i], unit)->0);
    assert forall|i: int| 0 <= i < items.len() implies (#[trigger] items[i]) == Some(wanted[i]) by {
        assert(vals[i] is List);
        law_flat_lists_print_on_one_line(vals[i], unit);
        let inner = vals[i]->vals@;
        let two = item_texts(inner, unit, 2);
        let one = item_texts(inner, unit, 1);
        assert forall|k: int| 0 <= k < inner.len() implies one[k] == two[k] by {
            assert(scalar_leaf(v->vals@[i]->vals@[k]));
        }
        assert(one =~= two);
        assert forall|k: int| 0 <= k < one.len() implies (#[trigger] one[k]) is Some by {
            assert(scalar_leaf(v->vals@[i]->vals@[k]));
        }
        assert(all_some(one));
    }
    assert(held_texts(items) =~= wanted);
    assert(all_some(items));
}

/// The short text of a structure is its size: rows of a table, items of a list, fields of a
/// record, one or more; that of a scalar is its value.
pub proof fn law_short_texts_tell_sizes(v: NuValue, unit: DurationUnit)
    ensures
        v matches NuValue::List { vals } ==> abbreviated(v, unit) == (if vals@.len() > 0 && (
        forall|i: int| 0 <= i < vals@.len() ==> (#[trigger] vals@[i]) is Record) {
            "[table "@ + (decimal(vals@.len()) + (if vals@.len() == 1 {
                " row]"@
            } else {
                " rows]"@
            }))
        } else {
            "[list "@ + (decimal(vals@.len()) + (if vals@.len() == 1 {
                " item]"@
            } else {
                " items]"@
            }))
        }),
        v matches NuValue::Record { val } ==> abbreviated(v, unit) == "{record "@ + (decimal(
            val@.len(),
        ) + (if val@.len() == 1 {
            " field}"@
        } else {
            " fields}"@
        })),
        v matches NuValue::Text { val, .. } ==> abbreviated(v, unit) == val@,
        v matches NuValue::Int { val, .. } ==> abbreviated(v, unit) == signed_decimal(val as int),
        v matches NuValue::Float { obvious, .. } ==> abbreviated(v, unit) == obvious@,
        v matches NuValue::Filesize { text, .. } ==> abbreviated(v, unit) == text@,
        v matches NuValue::Date { text, .. } ==> abbreviated(v, unit) == text@,
        v matches NuValue::Duration { val, .. } ==> abbreviated(v, unit) == duration_words(
            val@,
            unit,
        ),
        v matches NuValue::Other { text } ==> abbreviated(v, unit) == text@,
        v is Nothing ==> abbreviated(v, unit).len() == 0,
{
}

/// The columns of records come as their fields first appear: a further record leaves the
/// columns before it where they are, and a single record with distinct names has its names
/// in their order.
pub proof fn law_columns_come_as_they_appear(vals: Seq<NuValue>, more: NuValue, one: NuValue)
    requires
        one is Record,
        forall|i: int, j: int|
            0 <= i < j < one->Record_val@.len() ==> (#[trigger] one->Record_val@[i]).name@ != (
            #[trigger] one->Record_val@[j]).name@,
    ensures
        columns_of(vals).is_prefix_of(columns_of(vals.push(more))),
        columns_of(seq![one]) == Seq::new(
            one->Record_val@.len(),
            |i: int| one->Record_val@[i].name@,
        ),
{
    let longer = vals.push(more);
    assert(longer.drop_last() =~= vals);
    if let NuValue::Record { val } = more {
        lemma_names_grow(columns_of(vals), val@);
    }
    assert(seq![one].drop_last() =~= Seq::empty());
    lemma_names_in_order(one->Record_val@, one->Record_val@.len());
    assert(one->Record_val@.take(one->Record_val@.len() as int) =~= one->Record_val@);
    assert(columns_of(Seq::<NuValue>::empty()) =~= Seq::empty());
    assert(seq![one].last() == one);
    assert(columns_of(seq![one]) == with_names(
        columns_of(seq![one].drop_last()),
        one->Record_val@,
    ));
}

proof fn lemma_names_grow(names: Seq<Seq<char>>, fields: Seq<Field>)
    ensures
        names.is_prefix_of(with_names(names, fields)),
    decreases fields.len(),
{
    if fields.len() > 0 {
        lemma_names_grow(names, fields.drop_last());
    }
}

proof fn lemma_names_in_order(fields: Seq<Field>, n: nat)
    requires
        n <= fields.len(),
        forall|i: int, j: int|
            0 <= i < j < fields.len() ==> (#[trigger] fields[i]).name@ != (
            #[trigger] fields[j]).name@,
    ensures
        with_names(Seq::empty(), fields.take(n as int)) == Seq::new(
            n,
            |i: int| fields[i].name@,
        ),
    decreases n,
{
    let part = fields.take(n as int);
    if n > 0 {
        lemma_names_in_order(fields, (n - 1) as nat);
        assert(part.drop_last() =~= fields.take(n - 1));
        let before = with_names(Seq::empty(), part.drop_last());
        let name = fields[n - 1].name@;
        assert forall|k: int| 0 <= k < before.len() implies before[k] != name by {
            assert(before[k] == fields[k].name@);
        }
        assert(!before.contains(name));
        assert(part.last() == fields[n - 1]);
    }
    assert(with_names(Seq::empty(), part) =~= Seq::new(n, |i: int| fields[i].name@));
}

/// The number that a hexadecimal digit stands for.
pub open spec fn digit_worth(c: char) -> int {
    if c <= '9' {
        c as int - '0' as int
    } else {
        c as int - 'a' as int + 10
    }
}

/// Bytes in a list on one line are two hexadecimal digits each, the higher one first, side by
/// side between brackets.
pub proof fn law_bytes_are_pairs_of_digits(val: Seq<u8>, b: u8)
    ensures
        hex_pair(b).len() == 2,
        16 * digit_worth(hex_pair(b)[0]) + digit_worth(hex_pair(b)[1]) == b,
        0 <= digit_worth(hex_pair(b)[1]) < 16,
        hex_text(val.push(b)) == hex_text(val).drop_last() + hex_pair(b) + "]"@,
        hex_text(Seq::empty()) == "0x[]"@,
{
    reveal_strlit("]");
    reveal_strlit("0x[");
    reveal_strlit("0x[]");
    let pairs = val.map_values(|b: u8| hex_pair(b));
    let more = val.push(b).map_values(|b: u8| hex_pair(b));
    assert(more =~= pairs.push(hex_pair(b)));
    assert(more.drop_last() =~= pairs);
    assert(joined(more, Seq::empty()) =~= joined(pairs, Seq::empty()) + hex_pair(b));
    assert(hex_text(val).drop_last() =~= "0x["@ + joined(pairs, Seq::empty()));
    let none = Seq::<u8>::empty().map_values(|b: u8| hex_pair(b));
    assert(none =~= Seq::empty());
    assert(hex_text(Seq::empty()) =~= "0x[]"@);
}

/// Bytes in a short text are their numbers with commas between them.
pub proof fn law_bytes_are_listed_as_numbers(val: Seq<u8>, b: u8)
    ensures
        bytes_text(seq![b]) == "["@ + decimal(b as nat) + "]"@,
        val.len() > 0 ==> bytes_text(val.push(b)) == bytes_text(val).drop_last() + ", "@ + decimal(
            b as nat,
        ) + "]"@,
{
    reveal_strlit("]");
    let numbers = val.map_values(|b: u8| decimal(b as nat));
    let more = val.push(b).map_values(|b: u8| decimal(b as nat));
    assert(more =~= numbers.push(decimal(b as nat)));
    assert(more.drop_last() =~= numbers);
    let one = seq![b].map_values(|b: u8| decimal(b as nat));
    assert(one =~= seq![decimal(b as nat)]);
    if val.len() > 0 {
        assert(bytes_text(val).drop_last() =~= "["@ + joined(numbers, ", "@));
        assert(bytes_text(val.push(b)) =~= bytes_text(val).drop_last() + ", "@ + decimal(b as nat)
            + "]"@);
    }
}

} // verus!
