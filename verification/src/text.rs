//! Text as a sequence of characters: scanning, splitting, joining and numerals.

use vstd::prelude::*;
use vstd::utf8::encode_utf8;

verus! {

/// `String::push` appends one character.
pub assume_specification[ String::push ](s: &mut String, c: char)
    ensures
        final(s)@ == old(s)@.push(c),
;

/// `String::push_str` appends a string slice.
pub assume_specification[ String::push_str ](s: &mut String, t: &str)
    ensures
        final(s)@ == old(s)@ + t@,
;

/// Two string slices are equal when they hold the same characters.
pub assume_specification[ <str as PartialEq>::eq ](a: &str, b: &str) -> (same: bool)
    ensures
        same == (a@ == b@),
;

/// The lowercase form of a text by the Unicode derived property `Lowercase`, as
/// `str::to_lowercase` gives it.
pub uninterp spec fn lowercase(s: Seq<char>) -> Seq<char>;

/// `str::to_lowercase` depends on the text alone.
pub assume_specification[ str::to_lowercase ](s: &str) -> (lower: String)
    ensures
        lower@ == lowercase(s@),
;

/// The characters of each string of a list.
pub open spec fn texts(list: Seq<String>) -> Seq<Seq<char>> {
    list.map_values(|s: String| s@)
}

/// Whether two strings hold the same characters.
pub fn str_eq(a: &str, b: &str) -> (same: bool)
    ensures
        same == (a@ == b@),
{
    *a == *b
}

/// The characters of a string.
pub fn chars_of(s: &str) -> (chars: Vec<char>)
    ensures
        chars@ == s@,
{
    let mut chars: Vec<char> = Vec::new();
    for c in it: s.chars()
        invariant
            it.seq() == s@,
            chars@ == s@.take(it.index() as int),
    {
        chars.push(c);
    }
    assert(s@.take(s@.len() as int) == s@);
    chars
}

/// The character at position `i`.
pub fn char_at(chars: &Vec<char>, i: usize) -> (c: char)
    requires
        i < chars@.len(),
    ensures
        c == chars@[i as int],
{
    chars[i]
}

/// The string made of `chars[from..to]`.
pub fn string_of(chars: &Vec<char>, from: usize, to: usize) -> (s: String)
    requires
        from <= to <= chars@.len(),
    ensures
        s@ == chars@.subrange(from as int, to as int),
{
    let mut s = String::new();
    let mut i: usize = from;
    while i < to
        invariant
            from <= i <= to <= chars@.len(),
            s@ == chars@.subrange(from as int, i as int),
        decreases to - i,
    {
        s.push(chars[i]);
        i += 1;
        assert(chars@.subrange(from as int, i as int) == chars@.subrange(
            from as int,
            i - 1,
        ).push(chars@[i - 1]));
    }
    s
}

/// White space as Unicode's `White_Space` property lists it.
pub open spec fn is_space(c: char) -> bool {
    ||| '\u{9}' <= c <= '\u{d}'
    ||| c == '\u{20}'
    ||| c == '\u{85}'
    ||| c == '\u{a0}'
    ||| c == '\u{1680}'
    ||| '\u{2000}' <= c <= '\u{200a}'
    ||| c == '\u{2028}'
    ||| c == '\u{2029}'
    ||| c == '\u{202f}'
    ||| c == '\u{205f}'
    ||| c == '\u{3000}'
}

/// Whether a character is white space.
pub fn is_whitespace(c: char) -> (space: bool)
    ensures
        space == is_space(c),
{
    ('\u{9}' <= c && c <= '\u{d}') || c == '\u{20}' || c == '\u{85}' || c == '\u{a0}' || c
        == '\u{1680}' || ('\u{2000}' <= c && c <= '\u{200a}') || c == '\u{2028}' || c == '\u{2029}'
        || c == '\u{202f}' || c == '\u{205f}' || c == '\u{3000}'
}

/// A text without white space at either end.
pub open spec fn trimmed(s: Seq<char>) -> Seq<char>
    decreases s.len(),
{
    if s.len() == 0 {
        s
    } else if is_space(s.first()) {
        trimmed(s.drop_first())
    } else if is_space(s.last()) {
        trimmed(s.drop_last())
    } else {
        s
    }
}

/// A text without white space at either end stays as it is.
pub proof fn lemma_trimmed_once(s: Seq<char>)
    ensures
        trimmed(trimmed(s)) == trimmed(s),
    decreases s.len(),
{
    if s.len() > 0 {
        if is_space(s.first()) {
            lemma_trimmed_once(s.drop_first());
        } else if is_space(s.last()) {
            lemma_trimmed_once(s.drop_last());
        }
    }
}

/// Removes white space from both ends.
pub fn trim(s: &str) -> (t: String)
    ensures
        t@ == trimmed(s@),
{
    let chars = chars_of(s);
    let mut lo: usize = 0;
    let mut hi: usize = chars.len();
    assert(chars@.subrange(0, chars@.len() as int) == s@);
    while lo < hi && is_whitespace(chars[lo])
        invariant
            lo <= hi == chars@.len(),
            trimmed(chars@.subrange(lo as int, hi as int)) == trimmed(s@),
        decreases hi - lo,
    {
        assert(chars@.subrange(lo as int, hi as int).drop_first() == chars@.subrange(
            lo + 1,
            hi as int,
        ));
        lo += 1;
    }
    while lo < hi && is_whitespace(chars[hi - 1])
        invariant
            lo <= hi <= chars@.len(),
            lo < hi ==> !is_space(chars@[lo as int]),
            trimmed(chars@.subrange(lo as int, hi as int)) == trimmed(s@),
        decreases hi - lo,
    {
        assert(chars@.subrange(lo as int, hi as int).drop_last() == chars@.subrange(
            lo as int,
            hi - 1,
        ));
        hi -= 1;
    }
    string_of(&chars, lo, hi)
}

/// The pieces of a text between the separators `a` and `b`: one more than there are
/// separators.
pub open spec fn pieces(s: Seq<char>, a: char, b: char) -> Seq<Seq<char>>
    decreases s.len(),
{
    if s.len() == 0 {
        seq![Seq::<char>::empty()]
    } else {
        let before = pieces(s.drop_last(), a, b);
        if s.last() == a || s.last() == b {
            before.push(Seq::<char>::empty())
        } else {
            before.drop_last().push(before.last().push(s.last()))
        }
    }
}

/// There is always at least one piece.
pub proof fn lemma_pieces_nonempty(s: Seq<char>, a: char, b: char)
    ensures
        pieces(s, a, b).len() >= 1,
    decreases s.len(),
{
    if s.len() > 0 {
        lemma_pieces_nonempty(s.drop_last(), a, b);
    }
}

/// Splits a text at every `a` and every `b`.
pub fn split(s: &str, a: char, b: char) -> (parts: Vec<String>)
    ensures
        texts(parts@) == pieces(s@, a, b),
        parts@.len() >= 1,
{
    let mut done: Vec<String> = Vec::new();
    let mut last = String::new();
    proof {
        assert(s@.take(0) == Seq::<char>::empty());
        assert(texts(done@).push(last@) =~= pieces(s@.take(0), a, b));
    }
    for c in it: s.chars()
        invariant
            it.seq() == s@,
            texts(done@).push(last@) == pieces(s@.take(it.index() as int), a, b),
    {
        let ghost k = it.index() as int;
        let ghost done0 = done@;
        let ghost last0 = last@;
        proof {
            assert(s@.take(k + 1).drop_last() == s@.take(k));
            assert(texts(done0).push(last0).drop_last() =~= texts(done0));
        }
        if c == a || c == b {
            done.push(last);
            last = String::new();
            assert(texts(done@) =~= texts(done0).push(last0));
        } else {
            last.push(c);
        }
        assert(texts(done@).push(last@) =~= pieces(s@.take(k + 1), a, b));
    }
    assert(s@.take(s@.len() as int) == s@);
    let ghost done1 = done@;
    let ghost last1 = last@;
    done.push(last);
    assert(texts(done@) =~= texts(done1).push(last1));
    done
}

/// A line without the carriage return that ends it, if one does.
pub open spec fn strip_return(s: Seq<char>) -> Seq<char> {
    if s.len() > 0 && s.last() == '\r' {
        s.drop_last()
    } else {
        s
    }
}

/// The lines of a text. A line ends with `\n` or `\r\n`; a text that ends with a line
/// ending has no further empty line.
pub open spec fn lines_of(s: Seq<char>) -> Seq<Seq<char>> {
    let parts = pieces(s, '\n', '\n');
    let ended = parts.drop_last().map_values(|line: Seq<char>| strip_return(line));
    if parts.last().len() == 0 {
        ended
    } else {
        ended.push(parts.last())
    }
}

/// Removes one carriage return from the end of a line.
fn without_return(line: &str) -> (s: String)
    ensures
        s@ == strip_return(line@),
{
    let chars = chars_of(line);
    let n: usize = chars.len();
    let end: usize = if n > 0 && chars[n - 1] == '\r' {
        n - 1
    } else {
        n
    };
    let s = string_of(&chars, 0, end);
    assert(s@ =~= strip_return(line@));
    s
}

/// Splits a text into lines.
pub fn lines(s: &str) -> (out: Vec<String>)
    ensures
        texts(out@) == lines_of(s@),
{
    let parts = split(s, '\n', '\n');
    let ghost spec_parts = pieces(s@, '\n', '\n');
    let ghost ended = spec_parts.drop_last().map_values(|line: Seq<char>| strip_return(line));
    let n: usize = parts.len() - 1;
    let mut out: Vec<String> = Vec::new();
    let mut i: usize = 0;
    assert(spec_parts.len() == parts@.len());
    while i < n
        invariant
            i <= n,
            n == parts@.len() - 1,
            texts(parts@) == spec_parts,
            spec_parts.len() == parts@.len(),
            ended == spec_parts.drop_last().map_values(|line: Seq<char>| strip_return(line)),
            texts(out@) == ended.take(i as int),
        decreases n - i,
    {
        let ghost out0 = out@;
        assert(texts(parts@)[i as int] == parts@[i as int]@);
        out.push(without_return(parts[i].as_str()));
        assert(texts(out@) =~= texts(out0).push(ended[i as int]));
        i += 1;
        assert(ended.take(i as int) =~= ended.take(i - 1).push(ended[i - 1]));
    }
    assert(ended.take(n as int) =~= ended);
    assert(texts(parts@)[n as int] == parts@[n as int]@);
    if !parts[n].as_str().is_empty() {
        let ghost out0 = out@;
        let tail = parts[n].clone();
        out.push(tail);
        assert(texts(out@) =~= texts(out0).push(spec_parts.last()));
    }
    out
}

/// Whether `pattern` stands in `s` at position `i`.
pub open spec fn occurs_at(s: Seq<char>, pattern: Seq<char>, i: int) -> bool {
    &&& 0 <= i
    &&& i + pattern.len() <= s.len()
    &&& s.subrange(i, i + pattern.len()) == pattern
}

/// Whether `pattern` stands somewhere in `s`.
pub open spec fn occurs_in(s: Seq<char>, pattern: Seq<char>) -> bool {
    exists|i: int| occurs_at(s, pattern, i)
}

/// Whether `s` begins with `prefix`.
pub open spec fn begins_with(s: Seq<char>, prefix: Seq<char>) -> bool {
    occurs_at(s, prefix, 0)
}

/// Whether `s` ends with `suffix`.
pub open spec fn finishes_with(s: Seq<char>, suffix: Seq<char>) -> bool {
    occurs_at(s, suffix, s.len() - suffix.len())
}

/// Tests for `pattern` at position `at`.
pub fn chars_match_at(chars: &Vec<char>, pattern: &Vec<char>, at: usize) -> (found: bool)
    ensures
        found == occurs_at(chars@, pattern@, at as int),
{
    if at > chars.len() || pattern.len() > chars.len() - at {
        return false;
    }
    let total: usize = chars.len();
    let mut k: usize = 0;
    while k < pattern.len()
        invariant
            k <= pattern@.len(),
            total == chars@.len(),
            at + pattern@.len() <= chars@.len(),
            forall|j: int| 0 <= j < k ==> chars@[at + j] == pattern@[j],
        decreases pattern.len() - k,
    {
        if chars[at + k] != pattern[k] {
            assert(chars@.subrange(at as int, at + pattern@.len())[k as int] != pattern@[k as int]);
            return false;
        }
        k += 1;
    }
    assert(chars@.subrange(at as int, at + pattern@.len()) =~= pattern@);
    true
}

/// Whether a text holds `pattern`.
pub fn contains_text(s: &str, pattern: &str) -> (found: bool)
    ensures
        found == occurs_in(s@, pattern@),
{
    let chars = chars_of(s);
    let wanted = chars_of(pattern);
    if wanted.len() > chars.len() {
        return false;
    }
    let last: usize = chars.len() - wanted.len();
    let mut i: usize = 0;
    while i <= last
        invariant
            i <= last + 1,
            last + wanted@.len() == chars@.len(),
            chars@ == s@,
            wanted@ == pattern@,
            forall|j: int| 0 <= j < i ==> !occurs_at(s@, pattern@, j),
        decreases last + 1 - i,
    {
        if chars_match_at(&chars, &wanted, i) {
            return true;
        }
        if i == last {
            return false;
        }
        i += 1;
    }
    false
}

/// Whether a text holds the character `c`.
pub fn contains_char(s: &str, c: char) -> (found: bool)
    ensures
        found == s@.contains(c),
{
    let chars = chars_of(s);
    let mut i: usize = 0;
    while i < chars.len()
        invariant
            i <= chars@.len(),
            chars@ == s@,
            forall|j: int| 0 <= j < i ==> s@[j] != c,
        decreases chars.len() - i,
    {
        if chars[i] == c {
            return true;
        }
        i += 1;
    }
    false
}

/// Whether a text begins with `prefix`.
pub fn starts_with(s: &str, prefix: &str) -> (yes: bool)
    ensures
        yes == begins_with(s@, prefix@),
{
    let chars = chars_of(s);
    let wanted = chars_of(prefix);
    chars_match_at(&chars, &wanted, 0)
}

/// Whether a text ends with `suffix`.
pub fn ends_with(s: &str, suffix: &str) -> (yes: bool)
    ensures
        yes == finishes_with(s@, suffix@),
{
    let chars = chars_of(s);
    let wanted = chars_of(suffix);
    if wanted.len() > chars.len() {
        return false;
    }
    chars_match_at(&chars, &wanted, chars.len() - wanted.len())
}

/// The parts one after the other, with `separator` between neighbours.
pub open spec fn joined(parts: Seq<Seq<char>>, separator: Seq<char>) -> Seq<char>
    decreases parts.len(),
{
    if parts.len() == 0 {
        Seq::empty()
    } else if parts.len() == 1 {
        parts[0]
    } else {
        joined(parts.drop_last(), separator) + separator + parts.last()
    }
}

/// Joins the parts with `separator`.
pub fn join(parts: &Vec<String>, separator: &str) -> (s: String)
    ensures
        s@ == joined(texts(parts@), separator@),
{
    let ghost all = texts(parts@);
    let mut s = String::new();
    let mut i: usize = 0;
    assert(all.take(0) =~= Seq::empty());
    while i < parts.len()
        invariant
            i <= parts@.len(),
            all == texts(parts@),
            s@ == joined(all.take(i as int), separator@),
        decreases parts.len() - i,
    {
        proof {
            assert(all.take(i + 1).drop_last() =~= all.take(i as int));
            assert(all[i as int] == parts@[i as int]@);
        }
        if i > 0 {
            s.push_str(separator);
        }
        s.push_str(parts[i].as_str());
        i += 1;
        assert(s@ =~= joined(all.take(i as int), separator@));
    }
    assert(all.take(parts@.len() as int) =~= all);
    s
}

/// `s` with every `c` replaced by `with`.
pub open spec fn replaced(s: Seq<char>, c: char, with: Seq<char>) -> Seq<char>
    decreases s.len(),
{
    if s.len() == 0 {
        Seq::empty()
    } else if s.last() == c {
        replaced(s.drop_last(), c, with) + with
    } else {
        replaced(s.drop_last(), c, with).push(s.last())
    }
}

/// Replaces every `c` by `with`.
pub fn replace_char(s: &str, c: char, with: &str) -> (out: String)
    ensures
        out@ == replaced(s@, c, with@),
{
    let mut out = String::new();
    assert(s@.take(0) =~= Seq::empty());
    for x in it: s.chars()
        invariant
            it.seq() == s@,
            out@ == replaced(s@.take(it.index() as int), c, with@),
    {
        assert(s@.take(it.index() as int + 1).drop_last() =~= s@.take(it.index() as int));
        if x == c {
            out.push_str(with);
        } else {
            out.push(x);
        }
    }
    assert(s@.take(s@.len() as int) == s@);
    out
}

/// `n` copies of `c`.
pub open spec fn repeated(c: char, n: nat) -> Seq<char> {
    Seq::new(n, |i: int| c)
}

/// Makes `n` copies of `c`.
pub fn repeat_char(c: char, n: usize) -> (s: String)
    ensures
        s@ == repeated(c, n as nat),
{
    let mut s = String::new();
    let mut i: usize = 0;
    while i < n
        invariant
            i <= n,
            s@ =~= repeated(c, i as nat),
        decreases n - i,
    {
        s.push(c);
        i += 1;
    }
    s
}

/// A text filled up with spaces on the right to `width` characters.
pub open spec fn padded(s: Seq<char>, width: nat) -> Seq<char> {
    if s.len() >= width {
        s
    } else {
        s + repeated(' ', (width - s.len()) as nat)
    }
}

/// Fills a text up with spaces on the right.
pub fn pad_right(s: &str, width: usize) -> (out: String)
    ensures
        out@ == padded(s@, width as nat),
{
    let chars = chars_of(s);
    let mut out = string_of(&chars, 0, chars.len());
    assert(out@ =~= s@);
    if chars.len() < width {
        let fill = repeat_char(' ', width - chars.len());
        out.push_str(fill.as_str());
    }
    out
}

/// The character of a decimal digit.
pub open spec fn digit_char(d: nat) -> char {
    if d == 0 {
        '0'
    } else if d == 1 {
        '1'
    } else if d == 2 {
        '2'
    } else if d == 3 {
        '3'
    } else if d == 4 {
        '4'
    } else if d == 5 {
        '5'
    } else if d == 6 {
        '6'
    } else if d == 7 {
        '7'
    } else if d == 8 {
        '8'
    } else {
        '9'
    }
}

/// A natural number in decimal.
pub open spec fn decimal(n: nat) -> Seq<char>
    decreases n,
{
    if n < 10 {
        seq![digit_char(n)]
    } else {
        decimal(n / 10).push(digit_char(n % 10))
    }
}

/// An integer in decimal, with a minus sign where it is negative.
pub open spec fn signed_decimal(n: int) -> Seq<char> {
    if n < 0 {
        seq!['-'] + decimal((-n) as nat)
    } else {
        decimal(n as nat)
    }
}

fn digit_of(d: u64) -> (c: char)
    requires
        d < 10,
    ensures
        c == digit_char(d as nat),
{
    match d {
        0 => '0',
        1 => '1',
        2 => '2',
        3 => '3',
        4 => '4',
        5 => '5',
        6 => '6',
        7 => '7',
        8 => '8',
        _ => '9',
    }
}

/// Writes a number in decimal.
pub fn decimal_u64(n: u64) -> (s: String)
    ensures
        s@ == decimal(n as nat),
    decreases n,
{
    if n < 10 {
        let mut s = String::new();
        s.push(digit_of(n));
        assert(s@ =~= seq![digit_char(n as nat)]);
        s
    } else {
        let mut s = decimal_u64(n / 10);
        s.push(digit_of(n % 10));
        s
    }
}

/// Writes a size in decimal.
pub fn decimal_usize(n: usize) -> (s: String)
    ensures
        s@ == decimal(n as nat),
{
    decimal_u64(n as u64)
}

/// Writes a signed number in decimal.
pub fn decimal_i64(n: i64) -> (s: String)
    ensures
        s@ == signed_decimal(n as int),
{
    if n >= 0 {
        decimal_u64(n as u64)
    } else {
        let magnitude: u64 = if n == i64::MIN {
            0x8000_0000_0000_0000u64
        } else {
            (-n) as u64
        };
        let digits = decimal_u64(magnitude);
        let mut s = String::new();
        s.push('-');
        s.push_str(digits.as_str());
        assert(s@ =~= signed_decimal(n as int));
        s
    }
}

/// Whether a character is an ASCII decimal digit.
pub open spec fn is_digit(c: char) -> bool {
    '0' <= c <= '9'
}

/// The number that a row of decimal digits stands for.
pub open spec fn digits_value(s: Seq<char>) -> nat
    decreases s.len(),
{
    if s.len() == 0 {
        0
    } else {
        digits_value(s.drop_last()) * 10 + (s.last() as nat - '0' as nat) as nat
    }
}

/// Whether a text is a nonempty row of decimal digits.
pub open spec fn all_digits(s: Seq<char>) -> bool {
    s.len() > 0 && forall|i: int| 0 <= i < s.len() ==> is_digit(#[trigger] s[i])
}

/// A text without the plus sign that may lead it.
pub open spec fn unsigned_part(s: Seq<char>) -> Seq<char> {
    if s.len() > 0 && s[0] == '+' {
        s.drop_first()
    } else {
        s
    }
}

/// The unsigned number that a text stands for: decimal digits behind an optional plus
/// sign, up to `max`.
pub open spec fn parsed_number(s: Seq<char>, max: nat) -> Option<nat> {
    let digits = unsigned_part(s);
    if all_digits(digits) && digits_value(digits) <= max {
        Some(digits_value(digits))
    } else {
        None
    }
}

proof fn lemma_digits_value_grows(s: Seq<char>, k: int)
    requires
        0 <= k <= s.len(),
    ensures
        digits_value(s.take(k)) <= digits_value(s),
    decreases s.len() - k,
{
    if k < s.len() {
        lemma_digits_value_grows(s, k + 1);
        assert(s.take(k + 1).drop_last() =~= s.take(k));
    } else {
        assert(s.take(k) =~= s);
    }
}

/// Reads an unsigned number no larger than `max`.
pub fn parse_number(s: &str, max: u64) -> (n: Option<u64>)
    ensures
        match n {
            Some(value) => parsed_number(s@, max as nat) == Some(value as nat),
            None => parsed_number(s@, max as nat) is None,
        },
{
    let chars = chars_of(s);
    let start: usize = if chars.len() > 0 && chars[0] == '+' {
        1
    } else {
        0
    };
    let ghost digits = unsigned_part(s@);
    assert(digits =~= chars@.skip(start as int));
    if start == chars.len() {
        return None;
    }
    let mut value: u64 = 0;
    let mut i: usize = start;
    assert(digits.take(0) =~= Seq::empty());
    while i < chars.len()
        invariant
            start <= i <= chars@.len(),
            digits == chars@.skip(start as int),
            digits == unsigned_part(s@),
            start < chars@.len(),
            forall|j: int| 0 <= j < i - start ==> is_digit(#[trigger] digits[j]),
            value == digits_value(digits.take(i - start)),
            value <= max,
        decreases chars.len() - i,
    {
        let c: char = chars[i];
        let ghost k = i - start;
        assert(digits[k] == c);
        if c < '0' || c > '9' {
            assert(!is_digit(digits[k]));
            return None;
        }
        let d: u64 = (c as u32 - '0' as u32) as u64;
        assert(digits.take(k + 1).drop_last() =~= digits.take(k));
        proof {
            assert(digits_value(digits.take(k + 1)) == value * 10 + d);
            lemma_digits_value_grows(digits, k + 1);
        }
        if value > max / 10 || d > max - value * 10 {
            return None;
        }
        value = value * 10 + d;
        i += 1;
    }
    assert(digits.take(digits.len() as int) =~= digits);
    Some(value)
}

/// Reads a size.
pub fn parse_usize(s: &str) -> (n: Option<usize>)
    ensures
        match n {
            Some(value) => parsed_number(s@, usize::MAX as nat) == Some(value as nat),
            None => parsed_number(s@, usize::MAX as nat) is None,
        },
{
    match parse_number(s, usize::MAX as u64) {
        Some(value) => Some(value as usize),
        None => None,
    }
}

/// A number in decimal is made of digits and reads back as the number.
pub proof fn lemma_decimal_reads_back(n: nat, max: nat)
    requires
        n <= max,
    ensures
        all_digits(decimal(n)),
        digits_value(decimal(n)) == n,
        parsed_number(decimal(n), max) == Some(n),
    decreases n,
{
    let s = decimal(n);
    let d = n % 10;
    assert(digit_char(d) as nat - '0' as nat == d);
    if n < 10 {
        assert(d == n);
        assert(s.drop_last() =~= Seq::empty());
        assert(digits_value(Seq::empty()) == 0);
    } else {
        lemma_decimal_reads_back(n / 10, max);
        assert(s.drop_last() =~= decimal(n / 10));
        assert forall|i: int| 0 <= i < s.len() implies is_digit(#[trigger] s[i]) by {
            if i < s.len() - 1 {
                assert(s[i] == decimal(n / 10)[i]);
            }
        }
    }
    assert(is_digit(s[0]));
    assert(unsigned_part(s) == s);
}

/// Splitting two texts with a separator between them gives the pieces of both.
pub proof fn lemma_pieces_of_both(first: Seq<char>, second: Seq<char>, separator: char)
    ensures
        pieces(first + seq![separator] + second, separator, separator) == pieces(
            first,
            separator,
            separator,
        ) + pieces(second, separator, separator),
    decreases second.len(),
{
    let whole = first + seq![separator] + second;
    lemma_pieces_nonempty(second, separator, separator);
    if second.len() == 0 {
        assert(whole.drop_last() =~= first);
        assert(whole.last() == separator);
        assert(pieces(whole, separator, separator) =~= pieces(first, separator, separator)
            + pieces(second, separator, separator));
    } else {
        let front = second.drop_last();
        lemma_pieces_of_both(first, front, separator);
        lemma_pieces_nonempty(front, separator, separator);
        assert(whole.drop_last() =~= first + seq![separator] + front);
        assert(whole.last() == second.last());
        assert(pieces(whole, separator, separator) =~= pieces(first, separator, separator)
            + pieces(second, separator, separator));
    }
}

/// A text without separators is its only piece.
pub proof fn lemma_one_piece(text: Seq<char>, separator: char)
    requires
        !text.contains(separator),
    ensures
        pieces(text, separator, separator) == seq![text],
    decreases text.len(),
{
    if text.len() == 0 {
        assert(text =~= Seq::empty());
    } else {
        let front = text.drop_last();
        assert(text[text.len() - 1] != separator);
        assert forall|i: int| 0 <= i < front.len() implies front[i] != separator by {
            assert(front[i] == text[i]);
        }
        lemma_one_piece(front, separator);
        assert(front.push(text.last()) =~= text);
        let before = pieces(front, separator, separator);
        let c = text.last();
        assert(c != separator);
        assert(pieces(text, separator, separator) == before.drop_last().push(
            before.last().push(c),
        ));
        assert(before.drop_last().push(before.last().push(c)) =~= seq![text]);
    }
}

/// How one value stands to another in an order.
#[derive(Debug, Clone, Copy, PartialEq, Eq, Structural)]
pub enum Order {
    Before,
    Same,
    After,
}

/// The order of two texts: by the first character in which they differ, a prefix before
/// the longer text.
pub open spec fn text_order(a: Seq<char>, b: Seq<char>) -> Order
    decreases a.len(),
{
    if a.len() == 0 && b.len() == 0 {
        Order::Same
    } else if a.len() == 0 {
        Order::Before
    } else if b.len() == 0 {
        Order::After
    } else if a[0] < b[0] {
        Order::Before
    } else if b[0] < a[0] {
        Order::After
    } else {
        text_order(a.drop_first(), b.drop_first())
    }
}

/// Compares two texts.
pub fn compare_text(a: &str, b: &str) -> (order: Order)
    ensures
        order == text_order(a@, b@),
{
    let left = chars_of(a);
    let right = chars_of(b);
    let mut i: usize = 0;
    assert(left@.skip(0) =~= a@);
    assert(right@.skip(0) =~= b@);
    while i < left.len() && i < right.len()
        invariant
            i <= left@.len(),
            i <= right@.len(),
            text_order(left@.skip(i as int), right@.skip(i as int)) == text_order(a@, b@),
        decreases left.len() - i,
    {
        if left[i] < right[i] {
            return Order::Before;
        }
        if right[i] < left[i] {
            return Order::After;
        }
        assert(left@.skip(i as int).drop_first() =~= left@.skip(i + 1));
        assert(right@.skip(i as int).drop_first() =~= right@.skip(i + 1));
        i += 1;
    }
    if i < right.len() {
        Order::Before
    } else if i < left.len() {
        Order::After
    } else {
        Order::Same
    }
}

/// The number of bytes of a text in UTF-8.
pub open spec fn byte_len(s: Seq<char>) -> nat {
    encode_utf8(s).len()
}

// ---------------------------------------------------------------------------------------
// Laws

/// Trimming takes white space from both ends and nothing else.
pub proof fn law_trimming_takes_blanks_alone(before: Seq<char>, text: Seq<char>, after: Seq<char>)
    requires
        forall|i: int| 0 <= i < before.len() ==> is_space(#[trigger] before[i]),
        forall|i: int| 0 <= i < after.len() ==> is_space(#[trigger] after[i]),
        text.len() > 0 ==> !is_space(text[0]) && !is_space(text[text.len() - 1]),
    ensures
        trimmed(before + text + after) == text,
    decreases before.len() + after.len(),
{
    let whole = before + text + after;
    if before.len() > 0 {
        assert(whole[0] == before[0]);
        let rest = before.drop_first();
        assert forall|i: int| 0 <= i < rest.len() implies is_space(#[trigger] rest[i]) by {
            assert(rest[i] == before[i + 1]);
        }
        law_trimming_takes_blanks_alone(rest, text, after);
        assert(whole.drop_first() =~= rest + text + after);
    } else if after.len() > 0 {
        let front = after.drop_last();
        assert forall|i: int| 0 <= i < front.len() implies is_space(#[trigger] front[i]) by {
            assert(front[i] == after[i]);
        }
        assert(whole.last() == after[after.len() - 1]);
        if text.len() > 0 {
            assert(whole[0] == text[0]);
            law_trimming_takes_blanks_alone(before, text, front);
            assert(whole.drop_last() =~= before + text + front);
        } else {
            assert(whole[0] == after[0]);
            let tail = after.drop_first();
            assert forall|i: int| 0 <= i < tail.len() implies is_space(#[trigger] tail[i]) by {
                assert(tail[i] == after[i + 1]);
            }
            law_trimming_takes_blanks_alone(before, text, tail);
            assert(whole.drop_first() =~= before + text + tail);
        }
    } else {
        assert(whole =~= text);
    }
}

/// The pieces of a text, joined by the separator, are the text again, and no piece holds
/// the separator.
pub proof fn law_pieces_join_to_the_text(text: Seq<char>, separator: char)
    ensures
        joined(pieces(text, separator, separator), seq![separator]) == text,
        forall|i: int|
            0 <= i < pieces(text, separator, separator).len() ==> !(#[trigger] pieces(
                text,
                separator,
                separator,
            )[i]).contains(separator),
    decreases text.len(),
{
    let parts = pieces(text, separator, separator);
    if text.len() == 0 {
        assert(joined(parts, seq![separator]) =~= text);
    } else {
        let front = text.drop_last();
        let before = pieces(front, separator, separator);
        law_pieces_join_to_the_text(front, separator);
        lemma_pieces_nonempty(front, separator, separator);
        lemma_piece_step(text, front, before, parts, separator, text.last());
    }
}

proof fn lemma_piece_step(
    text: Seq<char>,
    front: Seq<char>,
    before: Seq<Seq<char>>,
    parts: Seq<Seq<char>>,
    separator: char,
    c: char,
)
    requires
        text.len() > 0,
        c == text.last(),
        front == text.drop_last(),
        before == pieces(front, separator, separator),
        parts == pieces(text, separator, separator),
        before.len() > 0,
        joined(before, seq![separator]) == front,
        forall|i: int| 0 <= i < before.len() ==> !(#[trigger] before[i]).contains(separator),
    ensures
        joined(parts, seq![separator]) == text,
        forall|i: int| 0 <= i < parts.len() ==> !(#[trigger] parts[i]).contains(separator),
{
    let between = seq![separator];
    assert(front.push(c) =~= text);
    if c == separator {
        assert(parts == before.push(Seq::empty()));
        assert(parts.drop_last() =~= before);
        assert(joined(parts, between) =~= text);
    } else {
        let last = before.last().push(c);
        assert(parts == before.drop_last().push(last));
        assert(parts.drop_last() =~= before.drop_last());
        assert(parts.last() == last);
        assert forall|k: int| 0 <= k < last.len() implies last[k] != separator by {
            if k < before.last().len() {
                assert(before[before.len() - 1].contains(before.last()[k]));
            }
        }
        assert forall|i: int| 0 <= i < parts.len() implies !(#[trigger] parts[i]).contains(
            separator,
        ) by {
            if i < before.len() - 1 {
                assert(parts[i] == before[i]);
            }
        }
        assert(joined(parts, between) =~= joined(before, between).push(c));
    }
}

/// The first line of a text ends at its first line break, without a carriage return before
/// it, and the lines of the rest follow; a text without a break is its own line.
pub proof fn law_lines_end_at_breaks(first: Seq<char>, rest: Seq<char>)
    requires
        !first.contains('\n'),
    ensures
        lines_of(first + seq!['\n'] + rest) == seq![strip_return(first)] + lines_of(rest),
        first.len() > 0 ==> lines_of(first) == seq![first],
        lines_of(Seq::empty()).len() == 0,
{
    lemma_pieces_of_both(first, rest, '\n');
    lemma_one_piece(first, '\n');
    lemma_pieces_nonempty(rest, '\n', '\n');
    let tail = pieces(rest, '\n', '\n');
    let all = seq![first] + tail;
    assert(all.drop_last() =~= seq![first] + tail.drop_last());
    assert(all.last() == tail.last());
    let ended = tail.drop_last().map_values(|line: Seq<char>| strip_return(line));
    assert(all.drop_last().map_values(|line: Seq<char>| strip_return(line)) =~= seq![
        strip_return(first),
    ] + ended);
    assert(lines_of(first + seq!['\n'] + rest) =~= seq![strip_return(first)] + lines_of(rest));
    assert(seq![first].drop_last() =~= Seq::empty());
    assert(first.len() > 0 ==> lines_of(first) =~= seq![first]);
    let none = Seq::<char>::empty();
    assert(pieces(none, '\n', '\n') =~= seq![none]);
}

/// A text is filled up with blanks to a width, and is never cut.
pub proof fn law_padding_adds_blanks(text: Seq<char>, width: nat)
    ensures
        padded(text, width).len() == if text.len() < width {
            width
        } else {
            text.len()
        },
        padded(text, width).take(text.len() as int) == text,
        forall|i: int|
            text.len() <= i < padded(text, width).len() ==> #[trigger] padded(text, width)[i]
                == ' ',
{
    assert(padded(text, width).take(text.len() as int) =~= text);
}

/// A text with anything but digits in it is no number, but for a plus sign before them.
pub proof fn law_only_digits_are_numbers(text: Seq<char>, max: nat, i: int)
    requires
        0 <= i < text.len(),
        !is_digit(text[i]),
        i > 0 || text[0] != '+',
    ensures
        parsed_number(text, max) is None,
        parsed_number(Seq::empty(), max) is None,
{
    let digits = unsigned_part(text);
    if text[0] == '+' {
        assert(digits[i - 1] == text[i]);
    } else {
        assert(digits[i] == text[i]);
    }
}

/// A number in decimal reads back as itself, each further digit counts ten times less than
/// the one before, and a minus sign leads a negative number.
pub proof fn law_decimals_count_by_ten(n: nat, max: nat, s: Seq<char>, d: char)
    requires
        n <= max,
        is_digit(d),
    ensures
        parsed_number(decimal(n), max) == Some(n),
        parsed_number(seq!['+'] + decimal(n), max) == Some(n),
        digits_value(s.push(d)) == 10 * digits_value(s) + (d as int - '0' as int),
        n > 0 ==> signed_decimal(-(n as int)) == seq!['-'] + decimal(n),
        signed_decimal(n as int) == decimal(n),
{
    lemma_decimal_reads_back(n, max);
    assert(s.push(d).drop_last() =~= s);
    assert((seq!['+'] + decimal(n)).drop_first() =~= decimal(n));
    let digits = unsigned_part(decimal(n));
    assert(all_digits(digits));
    assert(digits.len() > 0 && is_digit(digits[0]));
    assert(digits =~= decimal(n)) by {
        if decimal(n).len() > 0 && decimal(n)[0] == '+' {
            lemma_decimal_begins(n);
        }
    }
}

proof fn lemma_decimal_begins(n: nat)
    ensures
        decimal(n).len() > 0,
        is_digit(decimal(n)[0]),
    decreases n,
{
    if n >= 10 {
        lemma_decimal_begins(n / 10);
    }
}

/// A text occurs in another exactly where that is the text with something before and after
/// it, begins it where nothing is before and ends it where nothing is after.
pub proof fn law_texts_occur_between_others(before: Seq<char>, text: Seq<char>, after: Seq<char>)
    ensures
        occurs_in(before + text + after, text),
        begins_with(text + after, text),
        finishes_with(before + text, text),
        occurs_in(before, text) ==> exists|i: int|
            0 <= i <= before.len() - text.len() && before == #[trigger] before.take(i) + text
                + before.skip(i + text.len()),
        begins_with(before, text) ==> before == text + before.skip(text.len() as int),
        finishes_with(before, text) ==> before == before.take(before.len() - text.len()) + text,
{
    let all = before + text + after;
    assert(all.subrange(before.len() as int, (before.len() + text.len()) as int) =~= text);
    assert(occurs_at(all, text, before.len() as int));
    assert((text + after).subrange(0, text.len() as int) =~= text);
    assert((before + text).subrange(before.len() as int, (before + text).len() as int) =~= text);
    if occurs_in(before, text) {
        let i = choose|i: int| occurs_at(before, text, i);
        assert(before =~= before.take(i) + before.subrange(i, i + text.len()) + before.skip(
            i + text.len(),
        ));
    }
    if begins_with(before, text) {
        assert(before =~= before.subrange(0, text.len() as int) + before.skip(text.len() as int));
    }
    if finishes_with(before, text) {
        let i = before.len() - text.len();
        assert(before =~= before.take(i) + before.subrange(i, i + text.len()));
    }
}

/// Parts are joined one behind the other with the separator between them.
pub proof fn law_each_part_is_joined_behind_the_others(
    parts: Seq<Seq<char>>,
    part: Seq<char>,
    separator: Seq<char>,
)
    ensures
        joined(Seq::empty(), separator).len() == 0,
        parts.len() == 0 ==> joined(parts.push(part), separator) == part,
        parts.len() > 0 ==> joined(parts.push(part), separator) == joined(parts, separator)
            + separator + part,
{
    assert(parts.push(part).drop_last() =~= parts);
}

} // verus!
