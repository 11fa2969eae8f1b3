//! Typed sort keys, so that display text never drives the order of rows.

use crate::text::{compare_text, decimal_i64, lowercase, signed_decimal, text_order, Order};
use std::cmp::Ordering;
use vstd::prelude::*;

verus! {

/// A floating-point number as far as order and text need it: its place among all doubles
/// in IEEE 754 total order, zero for positive zero and minus one for negative zero, and
/// its shortest text.
#[derive(Debug, Clone, PartialEq, Eq)]
pub struct FloatKey {
    pub rank: i64,
    pub text: String,
}

/// Typed sort payload so display text never drives order.
#[derive(Debug, Clone, PartialEq, Eq, Default)]
pub enum SortKey {
    #[default]
    Empty,
    Text(String),
    Int(i64),
    Float(FloatKey),
}

/// A sort key as characters and numbers.
pub enum SortView {
    Empty,
    Text(Seq<char>),
    Int(int),
    Float(int, Seq<char>),
}

impl View for SortKey {
    type V = SortView;

    open spec fn view(&self) -> SortView {
        match *self {
            SortKey::Empty => SortView::Empty,
            SortKey::Text(text) => SortView::Text(text@),
            SortKey::Int(n) => SortView::Int(n as int),
            SortKey::Float(key) => SortView::Float(key.rank as int, key.text@),
        }
    }
}

// ---------------------------------------------------------------------------------------
// Integers among doubles

/// Two to the power of `e`.
pub open spec fn power(e: nat) -> nat
    decreases e,
{
    if e == 0 {
        1
    } else {
        2 * power((e - 1) as nat)
    }
}

/// The exponent of the largest power of two that is no larger than `m`.
pub open spec fn exponent(m: nat) -> nat
    decreases m,
{
    if m <= 1 {
        0
    } else {
        1 + exponent(m / 2)
    }
}

/// `m / d` rounded to the nearest whole number, halves to the even one.
pub open spec fn rounded_quotient(m: nat, d: nat) -> nat {
    let q = m / d;
    let r = m % d;
    if 2 * r > d || (2 * r == d && q % 2 == 1) {
        q + 1
    } else {
        q
    }
}

/// The significand of the double nearest to `m`: 53 bits, the leading one counted.
pub open spec fn significand(m: nat) -> nat {
    let e = exponent(m);
    if e <= 52 {
        m * power((52 - e) as nat)
    } else {
        rounded_quotient(m, power((e - 52) as nat))
    }
}

/// The place of the double nearest to `m` among the doubles from positive zero on: doubles
/// of one exponent stand in a block, and a significand counts within the block.
pub open spec fn magnitude_rank(m: nat) -> nat {
    if m == 0 {
        0
    } else {
        (1022 + exponent(m)) * power(52) + significand(m)
    }
}

/// The place of the double nearest to an integer in IEEE 754 total order.
pub open spec fn double_rank(n: int) -> int {
    if n < 0 {
        -1 - magnitude_rank((-n) as nat)
    } else {
        magnitude_rank(n as nat) as int
    }
}

proof fn lemma_power_grows(a: nat, b: nat)
    requires
        a <= b,
    ensures
        power(a) <= power(b),
        power(a) >= 1,
        a < b ==> 2 * power(a) <= power(b),
    decreases b,
{
    if a < b {
        lemma_power_grows(a, (b - 1) as nat);
    } else if a > 0 {
        lemma_power_grows((a - 1) as nat, (a - 1) as nat);
    }
}

proof fn lemma_power_sum(a: nat, b: nat)
    ensures
        power(a + b) == power(a) * power(b),
    decreases a,
{
    if a == 0 {
        assert(power(0) * power(b) == power(b)) by (nonlinear_arith)
            requires
                power(0) == 1,
        ;
    } else {
        lemma_power_sum((a - 1) as nat, b);
        assert(power(a) * power(b) == 2 * (power((a - 1) as nat) * power(b)))
            by (nonlinear_arith)
            requires
                power(a) == 2 * power((a - 1) as nat),
        ;
        assert(a + b - 1 == (a - 1) + b);
    }
}

proof fn lemma_power_values()
    ensures
        power(1) == 2,
        power(52) == 0x10_0000_0000_0000,
        power(53) == 0x20_0000_0000_0000,
        power(63) == 0x8000_0000_0000_0000,
        power(64) == 0x1_0000_0000_0000_0000,
{
    reveal_with_fuel(power, 65);
}

proof fn lemma_exponent(m: nat)
    requires
        m > 0,
    ensures
        power(exponent(m)) <= m < 2 * power(exponent(m)),
    decreases m,
{
    if m > 1 {
        lemma_exponent(m / 2);
    }
}

proof fn lemma_exponent_below(m: nat, e: nat)
    requires
        0 < m < power(e),
    ensures
        exponent(m) < e,
{
    lemma_exponent(m);
    if exponent(m) >= e {
        lemma_power_grows(e, exponent(m));
    }
}

proof fn lemma_exponent_grows(m: nat, n: nat)
    requires
        0 < m <= n,
    ensures
        exponent(m) <= exponent(n),
{
    lemma_exponent(n);
    lemma_exponent_below(m, exponent(n) + 1);
}

proof fn lemma_significand(m: nat)
    requires
        m > 0,
    ensures
        power(52) <= significand(m) <= power(53),
        exponent(m) <= 52 ==> significand(m) < power(53),
{
    let e = exponent(m);
    let k = power(52);
    lemma_power_values();
    lemma_exponent(m);
    if e <= 52 {
        let f = power((52 - e) as nat);
        lemma_power_sum(e, (52 - e) as nat);
        lemma_power_grows((52 - e) as nat, 52);
        assert(k <= m * f < 2 * k) by (nonlinear_arith)
            requires
                power(e) <= m < 2 * power(e),
                k == power(e) * f,
                f > 0,
        ;
    } else {
        let d = power((e - 52) as nat);
        lemma_power_grows((e - 52) as nat, e);
        lemma_power_sum(52, (e - 52) as nat);
        assert(k <= m / d < 2 * k) by (nonlinear_arith)
            requires
                power(e) <= m < 2 * power(e),
                power(e) == k * d,
                d > 0,
        ;
    }
}

fn top_of(m: u64) -> (top: (u64, u64))
    requires
        m > 0,
    ensures
        top.1 == exponent(m as nat),
        top.0 == power(top.1 as nat),
        top.0 <= m,
        top.1 <= 63,
    decreases m,
{
    if m == 1 {
        (1, 0)
    } else {
        proof {
            lemma_exponent(m as nat);
            lemma_power_values();
            lemma_exponent_below(m as nat, 64);
        }
        let (p, e) = top_of(m / 2);
        (2 * p, e + 1)
    }
}

/// The place of the double nearest to `m` among the doubles from positive zero on.
fn rank_of_magnitude(m: u64) -> (rank: i64)
    requires
        m <= 0x8000_0000_0000_0000,
    ensures
        rank == magnitude_rank(m as nat),
        0 <= rank < i64::MAX,
{
    if m == 0 {
        return 0;
    }
    let (p, e) = top_of(m);
    let k: u64 = 0x10_0000_0000_0000;
    proof {
        lemma_power_values();
        lemma_significand(m as nat);
        lemma_exponent(m as nat);
    }
    let s: u64 = if e <= 52 {
        proof {
            lemma_power_sum(e as nat, (52 - e) as nat);
            let f = power((52 - e) as nat);
            assert(k as nat / p as nat == f) by (nonlinear_arith)
                requires
                    k as nat == p as nat * f,
                    p > 0,
            ;
        }
        m * (k / p)
    } else {
        proof {
            lemma_power_sum(52, (e - 52) as nat);
            let d = power((e - 52) as nat);
            lemma_power_grows((e - 52) as nat, e as nat);
            assert(p as nat / k as nat == d) by (nonlinear_arith)
                requires
                    p as nat == k as nat * d,
                    k > 0,
            ;
        }
        let d: u64 = p / k;
        let q: u64 = m / d;
        let r: u64 = m % d;
        assert(r <= m);
        proof {
            assert(d <= 2048) by (nonlinear_arith)
                requires
                    d == p / k,
                    p <= 0x8000_0000_0000_0000,
                    k == 0x10_0000_0000_0000,
            ;
        }
        if r > d - r || (r == d - r && q % 2 == 1) {
            q + 1
        } else {
            q
        }
    };
    let rank: u64 = (1022 + e) * k + s;
    rank as i64
}

/// The place of the double nearest to an integer in IEEE 754 total order.
pub fn rank_of_integer(n: i64) -> (rank: i64)
    ensures
        rank == double_rank(n as int),
{
    if n >= 0 {
        rank_of_magnitude(n as u64)
    } else {
        let m: u64 = if n == i64::MIN {
            0x8000_0000_0000_0000u64
        } else {
            (-n) as u64
        };
        -1 - rank_of_magnitude(m)
    }
}

proof fn lemma_rounding_grows(m: nat, n: nat, d: nat)
    requires
        m <= n,
        d > 0,
    ensures
        rounded_quotient(m, d) <= rounded_quotient(n, d),
{
    assert(m / d <= n / d && (m / d == n / d ==> m % d <= n % d)) by (nonlinear_arith)
        requires
            m <= n,
            d > 0,
    ;
}

proof fn lemma_magnitude_grows(m: nat, n: nat)
    requires
        m <= n,
    ensures
        magnitude_rank(m) <= magnitude_rank(n),
        m < n <= power(53) ==> magnitude_rank(m) < magnitude_rank(n),
{
    if 0 < m < n {
        let e = exponent(m);
        let f = exponent(n);
        let k = power(52);
        lemma_power_values();
        lemma_exponent(m);
        lemma_exponent(n);
        lemma_exponent_grows(m, n);
        lemma_significand(m);
        lemma_significand(n);
        if n <= power(53) {
            lemma_exponent_below(m, 53);
        }
        if e < f {
            assert((1022 + f) * k >= (1022 + e) * k + k) by (nonlinear_arith)
                requires
                    f >= e + 1,
            ;
        } else if e <= 52 {
            let step = power((52 - e) as nat);
            lemma_power_grows((52 - e) as nat, 52);
            assert(m * step < n * step) by (nonlinear_arith)
                requires
                    m < n,
                    step > 0,
            ;
        } else {
            let d = power((e - 52) as nat);
            lemma_power_grows((e - 52) as nat, e);
            lemma_rounding_grows(m, n, d);
        }
    } else if m < n {
        lemma_power_values();
        lemma_significand(n);
    }
}

/// A larger integer never stands at a lower place among the doubles, and two integers of
/// at most 2^53 in magnitude never share a place unless they are equal.
pub proof fn law_integer_ranks_grow(a: int, b: int)
    requires
        a <= b,
    ensures
        double_rank(a) <= double_rank(b),
        a < b && -power(53) <= a && b <= power(53) ==> double_rank(a) < double_rank(b),
{
    if a >= 0 {
        lemma_magnitude_grows(a as nat, b as nat);
    } else if b < 0 {
        lemma_magnitude_grows((-b) as nat, (-a) as nat);
    }
}

// ---------------------------------------------------------------------------------------
// The order of keys

/// The order of two numbers.
pub open spec fn number_order(a: int, b: int) -> Order {
    if a < b {
        Order::Before
    } else if a == b {
        Order::Same
    } else {
        Order::After
    }
}

/// The order the other way round.
pub open spec fn turned(order: Order) -> Order {
    match order {
        Order::Before => Order::After,
        Order::Same => Order::Same,
        Order::After => Order::Before,
    }
}

/// The order of two keys. An empty key comes first. Numbers go by their value, an integer
/// beside a float by the nearest double. Texts go without regard to case. A number beside
/// a text goes by its digits.
pub open spec fn sort_order(a: SortView, b: SortView) -> Order {
    match (a, b) {
        (SortView::Empty, SortView::Empty) => Order::Same,
        (SortView::Empty, _) => Order::Before,
        (_, SortView::Empty) => Order::After,
        (SortView::Int(m), SortView::Int(n)) => number_order(m, n),
        (SortView::Float(r, _), SortView::Float(q, _)) => number_order(r, q),
        (SortView::Int(m), SortView::Float(q, _)) => number_order(double_rank(m), q),
        (SortView::Float(r, _), SortView::Int(n)) => number_order(r, double_rank(n)),
        (SortView::Text(s), SortView::Text(t)) => text_order(lowercase(s), lowercase(t)),
        (SortView::Int(m), SortView::Text(t)) => text_order(signed_decimal(m), t),
        (SortView::Float(_, s), SortView::Text(t)) => text_order(s, t),
        (SortView::Text(s), SortView::Int(n)) => text_order(s, signed_decimal(n)),
        (SortView::Text(s), SortView::Float(_, t)) => text_order(s, t),
    }
}

fn compare_numbers(a: i64, b: i64) -> (order: Order)
    ensures
        order == number_order(a as int, b as int),
{
    if a < b {
        Order::Before
    } else if a == b {
        Order::Same
    } else {
        Order::After
    }
}

/// The order the other way round.
pub fn turn(order: Order) -> (other: Order)
    ensures
        other == turned(order),
{
    match order {
        Order::Before => Order::After,
        Order::Same => Order::Same,
        Order::After => Order::Before,
    }
}

/// Compares two keys.
pub fn compare_keys(a: &SortKey, b: &SortKey) -> (order: Order)
    ensures
        order == sort_order(a@, b@),
{
    match (a, b) {
        (SortKey::Empty, SortKey::Empty) => Order::Same,
        (SortKey::Empty, _) => Order::Before,
        (_, SortKey::Empty) => Order::After,
        (SortKey::Int(m), SortKey::Int(n)) => compare_numbers(*m, *n),
        (SortKey::Float(x), SortKey::Float(y)) => compare_numbers(x.rank, y.rank),
        (SortKey::Int(m), SortKey::Float(y)) => compare_numbers(rank_of_integer(*m), y.rank),
        (SortKey::Float(x), SortKey::Int(n)) => compare_numbers(x.rank, rank_of_integer(*n)),
        (SortKey::Text(s), SortKey::Text(t)) => compare_text(
            s.as_str().to_lowercase().as_str(),
            t.as_str().to_lowercase().as_str(),
        ),
        (SortKey::Int(m), SortKey::Text(t)) => compare_text(decimal_i64(*m).as_str(), t.as_str()),
        (SortKey::Float(x), SortKey::Text(t)) => compare_text(x.text.as_str(), t.as_str()),
        (SortKey::Text(s), SortKey::Int(n)) => compare_text(s.as_str(), decimal_i64(*n).as_str()),
        (SortKey::Text(s), SortKey::Float(y)) => compare_text(s.as_str(), y.text.as_str()),
    }
}

/// The standard library's name for an order.
pub open spec fn standard(order: Order) -> Ordering {
    match order {
        Order::Before => Ordering::Less,
        Order::Same => Ordering::Equal,
        Order::After => Ordering::Greater,
    }
}

impl SortKey {
    /// Compares two keys.
    pub fn cmp(&self, other: &Self) -> (order: Ordering)
        ensures
            order == standard(sort_order(self@, other@)),
    {
        match compare_keys(self, other) {
            Order::Before => Ordering::Less,
            Order::Same => Ordering::Equal,
            Order::After => Ordering::Greater,
        }
    }
}

impl PartialOrd for SortKey {
    fn partial_cmp(&self, other: &Self) -> (order: Option<Ordering>) {
        Some(self.cmp(other))
    }
}

impl vstd::std_specs::cmp::PartialOrdSpecImpl for SortKey {
    open spec fn obeys_partial_cmp_spec() -> bool {
        true
    }

    open spec fn partial_cmp_spec(&self, other: &Self) -> Option<Ordering> {
        Some(standard(sort_order(self@, other@)))
    }
}

// ---------------------------------------------------------------------------------------
// Laws

/// Comparing two texts the other way round turns the answer.
pub proof fn lemma_text_order_turns(a: Seq<char>, b: Seq<char>)
    ensures
        text_order(b, a) == turned(text_order(a, b)),
    decreases a.len(),
{
    if a.len() > 0 && b.len() > 0 {
        lemma_text_order_turns(a.drop_first(), b.drop_first());
    }
}

/// Two texts stand at the same place exactly when they are equal.
pub proof fn lemma_text_order_same(a: Seq<char>, b: Seq<char>)
    ensures
        (text_order(a, b) == Order::Same) == (a == b),
    decreases a.len(),
{
    if a.len() > 0 && b.len() > 0 {
        lemma_text_order_same(a.drop_first(), b.drop_first());
        if a[0] == b[0] && a.drop_first() == b.drop_first() {
            assert forall|i: int| 0 <= i < a.len() implies a[i] == b[i] by {
                if i > 0 {
                    assert(a[i] == a.drop_first()[i - 1]);
                    assert(b[i] == b.drop_first()[i - 1]);
                }
            }
            assert(a =~= b);
        }
    } else if a.len() == 0 && b.len() == 0 {
        assert(a =~= b);
    }
}

/// The order of texts is transitive.
pub proof fn lemma_text_order_transitive(a: Seq<char>, b: Seq<char>, c: Seq<char>)
    requires
        text_order(a, b) != Order::After,
        text_order(b, c) != Order::After,
    ensures
        text_order(a, c) != Order::After,
    decreases a.len(),
{
    if a.len() > 0 && b.len() > 0 && c.len() > 0 && a[0] == b[0] && b[0] == c[0] {
        lemma_text_order_transitive(a.drop_first(), b.drop_first(), c.drop_first());
    }
}

/// Comparing two keys the other way round turns the answer, and a key stands at its own
/// place.
pub proof fn law_sort_order_turns(a: SortView, b: SortView)
    ensures
        sort_order(b, a) == turned(sort_order(a, b)),
        sort_order(a, a) == Order::Same,
{
    match (a, b) {
        (SortView::Text(s), SortView::Text(t)) => {
            lemma_text_order_turns(lowercase(s), lowercase(t));
        },
        (SortView::Int(m), SortView::Text(t)) => {
            lemma_text_order_turns(signed_decimal(m), t);
        },
        (SortView::Float(_, s), SortView::Text(t)) => {
            lemma_text_order_turns(s, t);
        },
        (SortView::Text(s), SortView::Int(n)) => {
            lemma_text_order_turns(s, signed_decimal(n));
        },
        (SortView::Text(s), SortView::Float(_, t)) => {
            lemma_text_order_turns(s, t);
        },
        _ => {},
    }
    if let SortView::Text(s) = a {
        lemma_text_order_same(lowercase(s), lowercase(s));
    }
}

/// Keys that hold text, or nothing.
pub open spec fn textual(key: SortView) -> bool {
    key is Empty || key is Text
}

/// Keys that hold a whole number, or nothing.
pub open spec fn whole(key: SortView) -> bool {
    key is Empty || key is Int
}

/// Keys that hold a number which a double gives exactly, or nothing.
pub open spec fn numeric(key: SortView) -> bool {
    match key {
        SortView::Empty => true,
        SortView::Int(n) => -power(53) <= n <= power(53),
        SortView::Float(_, _) => true,
        SortView::Text(_) => false,
    }
}

/// Keys of one sort, which have one consistent order.
pub open spec fn alike(a: SortView, b: SortView) -> bool {
    ||| textual(a) && textual(b)
    ||| whole(a) && whole(b)
    ||| numeric(a) && numeric(b)
}

/// The order is transitive among keys of one sort: texts, whole numbers, or numbers that
/// a double gives exactly.
pub proof fn law_sort_order_is_transitive(a: SortView, b: SortView, c: SortView)
    requires
        alike(a, b),
        alike(b, c),
        alike(a, c),
        sort_order(a, b) != Order::After,
        sort_order(b, c) != Order::After,
    ensures
        sort_order(a, c) != Order::After,
{
    if a is Text && b is Text && c is Text {
        lemma_text_order_transitive(lowercase(a->Text_0), lowercase(b->Text_0), lowercase(c->Text_0));
    }
    if a is Int && c is Int {
        if a->Int_0 <= c->Int_0 {
            law_integer_ranks_grow(a->Int_0, c->Int_0);
        } else {
            law_integer_ranks_grow(c->Int_0, a->Int_0);
        }
    }
    if a is Int && b is Int {
        if a->Int_0 <= b->Int_0 {
            law_integer_ranks_grow(a->Int_0, b->Int_0);
        } else {
            law_integer_ranks_grow(b->Int_0, a->Int_0);
        }
    }
    if b is Int && c is Int {
        if b->Int_0 <= c->Int_0 {
            law_integer_ranks_grow(b->Int_0, c->Int_0);
        } else {
            law_integer_ranks_grow(c->Int_0, b->Int_0);
        }
    }
}

// ---------------------------------------------------------------------------------------
// Sorted lists

/// There is one way to list distinct things such that each goes before all that follow it,
/// where of two things no more than one goes before the other.
pub proof fn lemma_one_order<T>(before: spec_fn(T, T) -> bool, first: Seq<T>, second: Seq<T>)
    requires
        forall|a: T, b: T| a != b && #[trigger] before(a, b) ==> !before(b, a),
        forall|i: int, j: int|
            0 <= i < j < first.len() ==> before(#[trigger] first[i], #[trigger] first[j]),
        forall|i: int, j: int|
            0 <= i < j < second.len() ==> before(#[trigger] second[i], #[trigger] second[j]),
        first.no_duplicates(),
        second.no_duplicates(),
        first.len() == second.len(),
        forall|x: T| first.contains(x) <==> second.contains(x),
    ensures
        first == second,
    decreases first.len(),
{
    if first.len() == 0 {
        assert(first =~= second);
    } else {
        let a = first[0];
        let b = second[0];
        assert(first.contains(a) && second.contains(b));
        assert(second.contains(a) && first.contains(b));
        let i = choose|i: int| 0 <= i < second.len() && second[i] == a;
        let j = choose|j: int| 0 <= j < first.len() && first[j] == b;
        if a != b {
            assert(before(first[0], first[j]));
            assert(before(second[0], second[i]));
        }
        let rest = first.drop_first();
        let other = second.drop_first();
        assert forall|i: int, j: int| 0 <= i < j < rest.len() implies before(
            #[trigger] rest[i],
            #[trigger] rest[j],
        ) by {
            assert(before(first[i + 1], first[j + 1]));
        }
        assert forall|i: int, j: int| 0 <= i < j < other.len() implies before(
            #[trigger] other[i],
            #[trigger] other[j],
        ) by {
            assert(before(second[i + 1], second[j + 1]));
        }
        assert forall|x: T| rest.contains(x) <==> other.contains(x) by {
            if rest.contains(x) {
                let k = choose|k: int| 0 <= k < rest.len() && rest[k] == x;
                assert(first[k + 1] == x);
                assert(first.contains(x));
                let l = choose|l: int| 0 <= l < second.len() && second[l] == x;
                assert(l != 0);
                assert(other[l - 1] == x);
            }
            if other.contains(x) {
                let k = choose|k: int| 0 <= k < other.len() && other[k] == x;
                assert(second[k + 1] == x);
                assert(second.contains(x));
                let l = choose|l: int| 0 <= l < first.len() && first[l] == x;
                assert(l != 0);
                assert(rest[l - 1] == x);
            }
        }
        lemma_one_order(before, rest, other);
        assert forall|k: int| 0 <= k < first.len() implies first[k] == second[k] by {
            if k > 0 {
                assert(rest[k - 1] == first[k]);
                assert(other[k - 1] == second[k]);
            }
        }
        assert(first =~= second);
    }
}

/// Whole numbers go by their value, texts by their lowercase forms, floats by their rank,
/// and nothing before everything else; beside a text a number goes by its own text, and
/// beside a float by the nearest double.
pub proof fn law_keys_go_by_what_they_hold(
    m: int,
    n: int,
    p: int,
    q: int,
    s: Seq<char>,
    t: Seq<char>,
)
    ensures
        (sort_order(SortView::Int(m), SortView::Int(n)) == Order::Before) == (m < n),
        (sort_order(SortView::Int(m), SortView::Int(n)) == Order::Same) == (m == n),
        (sort_order(SortView::Float(p, s), SortView::Float(q, t)) == Order::Before) == (p < q),
        (sort_order(SortView::Float(p, s), SortView::Float(q, t)) == Order::Same) == (p == q),
        (sort_order(SortView::Int(m), SortView::Float(q, t)) == Order::Before) == (double_rank(m)
            < q),
        (sort_order(SortView::Float(p, s), SortView::Int(n)) == Order::Before) == (p < double_rank(
            n,
        )),
        sort_order(SortView::Text(s), SortView::Text(t)) == text_order(lowercase(s), lowercase(t)),
        sort_order(SortView::Int(m), SortView::Text(t)) == text_order(signed_decimal(m), t),
        sort_order(SortView::Float(p, s), SortView::Text(t)) == text_order(s, t),
        sort_order(SortView::Empty, SortView::Int(n)) == Order::Before,
        sort_order(SortView::Empty, SortView::Float(q, t)) == Order::Before,
        sort_order(SortView::Empty, SortView::Text(t)) == Order::Before,
        sort_order(SortView::Empty, SortView::Empty) == Order::Same,
{
}

/// Texts go by the first character in which they differ, and a text before those that it
/// begins.
pub proof fn law_first_difference_orders_texts(
    common: Seq<char>,
    x: char,
    y: char,
    s: Seq<char>,
    t: Seq<char>,
)
    requires
        x < y,
    ensures
        text_order(common + seq![x] + s, common + seq![y] + t) == Order::Before,
        text_order(common, common + seq![x] + s) == Order::Before,
        text_order(common, common) == Order::Same,
    decreases common.len(),
{
    let a = common + seq![x] + s;
    let b = common + seq![y] + t;
    if common.len() > 0 {
        let rest = common.drop_first();
        law_first_difference_orders_texts(rest, x, y, s, t);
        assert(a.drop_first() =~= rest + seq![x] + s);
        assert(b.drop_first() =~= rest + seq![y] + t);
        assert(a[0] == common[0] && b[0] == common[0]);
    } else {
        assert(a[0] == x && b[0] == y);
    }
}

proof fn lemma_power_exponent(k: nat, m: nat)
    requires
        power(k) <= m < power(k + 1),
    ensures
        exponent(m) == k,
    decreases k,
{
    lemma_power_grows(k, k);
    if k > 0 {
        lemma_power_grows(0, (k - 1) as nat);
        assert(power(0) == 1);
        assert(power((k - 1) as nat) <= m / 2 < power(k));
        lemma_power_exponent((k - 1) as nat, m / 2);
    } else {
        assert(power(1) == 2 * power(0));
    }
}

/// From one power of two to the next the doubles of whole numbers of at most 53 bits stand in
/// even steps, beginning at a place that the exponent alone gives.
pub proof fn law_whole_numbers_have_their_place(k: nat, m: nat)
    requires
        k <= 52,
        power(k) <= m < power(k + 1),
    ensures
        double_rank(m as int) == (1023 + k) * power(52) + (m - power(k)) * power((52 - k) as nat),
        double_rank(-(m as int)) == -1 - double_rank(m as int),
        double_rank(0) == 0,
{
    lemma_power_exponent(k, m);
    lemma_power_grows(k, k);
    lemma_power_sum(k, (52 - k) as nat);
    let w = power((52 - k) as nat);
    assert((m - power(k)) * w == m * w - power(k) * w) by (nonlinear_arith);
    assert((1023 + k) * power(52) == (1022 + k) * power(52) + power(52)) by (nonlinear_arith);
}

/// A quotient is rounded to the nearest whole number, and a half to the even one.
pub proof fn law_quotients_are_rounded_to_the_nearest(m: nat, d: nat)
    requires
        d > 0,
    ensures
        -(d as int) <= 2 * (rounded_quotient(m, d) * d - m) <= d,
        2 * (rounded_quotient(m, d) * d - m) == d || 2 * (rounded_quotient(m, d) * d - m) == -(
        d as int) ==> rounded_quotient(m, d) % 2 == 0,
{
    let q = m / d;
    let r = m % d;
    assert(m == q * d + r && r < d) by (nonlinear_arith)
        requires
            d > 0,
            q == m / d,
            r == m % d,
    ;
    assert((q + 1) * d == q * d + d) by (nonlinear_arith);
}

} // verus!
