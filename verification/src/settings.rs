//! The file that keeps the Session's font sizes.

use crate::export::{digits_end, is_float, number_at, reads_float, word_at};
use crate::listing::text_option;
use crate::text::{
    char_at, chars_of, is_digit, is_space, lemma_one_piece, lemma_pieces_of_both, lines, lines_of,
    pieces, str_eq, string_of, texts, trim, trimmed,
};
use vstd::prelude::*;

verus! {

/// The font sizes in a settings file, as they are written.
#[derive(Debug)]
pub struct FontTexts {
    pub repl: Option<String>,
    pub table: Option<String>,
}

/// The font sizes in a settings file as characters.
pub struct FontView {
    pub repl: Option<Seq<char>>,
    pub table: Option<Seq<char>>,
}

impl View for FontTexts {
    type V = FontView;

    open spec fn view(&self) -> FontView {
        FontView { repl: text_option(self.repl), table: text_option(self.table) }
    }
}

/// The place of the first equals sign from `i` on, or the end.
pub open spec fn equals_place(s: Seq<char>, i: int) -> int
    decreases s.len() - i,
{
    if 0 <= i < s.len() && s[i] != '=' {
        equals_place(s, i + 1)
    } else {
        i
    }
}

/// A line of a settings file as a key and a value, where the value reads as a number.
pub open spec fn entry_of(line: Seq<char>) -> Option<(Seq<char>, Seq<char>)> {
    let at = equals_place(line, 0);
    if at >= line.len() {
        None
    } else {
        let value = trimmed(line.skip(at + 1));
        if is_float(value) {
            Some((trimmed(line.take(at)), value))
        } else {
            None
        }
    }
}

/// Font sizes after a further line.
pub open spec fn with_line(fonts: FontView, line: Seq<char>) -> FontView {
    match entry_of(line) {
        Some((key, value)) => if key == "repl_font_size"@ {
            FontView { repl: Some(value), ..fonts }
        } else if key == "table_font_size"@ {
            FontView { table: Some(value), ..fonts }
        } else {
            fonts
        },
        None => fonts,
    }
}

/// The font sizes in some lines: of each, the last that reads as a number.
pub open spec fn fonts_in(lines: Seq<Seq<char>>) -> FontView
    decreases lines.len(),
{
    if lines.len() == 0 {
        FontView { repl: None, table: None }
    } else {
        with_line(fonts_in(lines.drop_last()), lines.last())
    }
}

/// A settings file with two font sizes.
pub open spec fn settings_text(repl: Seq<char>, table: Seq<char>) -> Seq<char> {
    "repl_font_size="@ + repl + "\ntable_font_size="@ + table + "\n"@
}

fn find_equals(chars: &Vec<char>) -> (at: usize)
    ensures
        at == equals_place(chars@, 0),
        at <= chars@.len(),
        at < chars@.len() ==> chars@[at as int] == '=',
{
    let n: usize = chars.len();
    let mut i: usize = 0;
    while i < n && char_at(chars, i) != '='
        invariant
            n == chars@.len(),
            i <= n,
            equals_place(chars@, 0) == equals_place(chars@, i as int),
        decreases n - i,
    {
        i += 1;
    }
    i
}

/// Reads a line of a settings file.
fn read_entry(line: &str) -> (entry: Option<(String, String)>)
    ensures
        match entry {
            Some((key, value)) => entry_of(line@) == Some((key@, value@)),
            None => entry_of(line@) is None,
        },
{
    let chars = chars_of(line);
    let n: usize = chars.len();
    let at: usize = find_equals(&chars);
    if at == n {
        return None;
    }
    let value = trim(string_of(&chars, at + 1, n).as_str());
    assert(chars@.subrange(at + 1, n as int) =~= chars@.skip(at + 1));
    if !reads_float(value.as_str()) {
        return None;
    }
    let key = trim(string_of(&chars, 0, at).as_str());
    assert(chars@.subrange(0, at as int) =~= chars@.take(at as int));
    Some((key, value))
}

/// Reads the font sizes of a settings file.
pub fn read_settings(text: &str) -> (fonts: FontTexts)
    ensures
        fonts@ == fonts_in(lines_of(text@)),
{
    let parts = lines(text);
    let ghost all = lines_of(text@);
    let mut fonts = FontTexts { repl: None, table: None };
    let n: usize = parts.len();
    assert(texts(parts@).len() == n);
    assert(all.take(0) =~= Seq::empty());
    for i in 0..n
        invariant
            n == parts@.len(),
            texts(parts@) == all,
            fonts@ == fonts_in(all.take(i as int)),
    {
        assert(all.take(i + 1).drop_last() =~= all.take(i as int));
        assert(texts(parts@)[i as int] == parts@[i as int]@);
        assert(all.take(i + 1).last() == parts@[i as int]@);
        if let Some((key, value)) = read_entry(parts[i].as_str()) {
            if str_eq(key.as_str(), "repl_font_size") {
                fonts.repl = Some(value);
            } else if str_eq(key.as_str(), "table_font_size") {
                fonts.table = Some(value);
            }
        }
    }
    assert(all.take(n as int) =~= all);
    fonts
}

/// Writes a settings file with two font sizes.
pub fn settings_body(repl: &str, table: &str) -> (text: String)
    ensures
        text@ == settings_text(repl@, table@),
{
    let mut text = "repl_font_size=".to_owned();
    text.push_str(repl);
    text.push_str("\ntable_font_size=");
    text.push_str(table);
    text.push_str("\n");
    text
}

// ---------------------------------------------------------------------------------------
// Where the file lies

/// The systems that keep settings at places of their own.
#[derive(Debug, Clone, Copy, PartialEq, Eq, Structural)]
pub enum Platform {
    MacOs,
    Windows,
    Other,
}

/// The directory from which the settings file is reached.
#[derive(Debug, Clone, Copy, PartialEq, Eq, Structural)]
pub enum BaseDir {
    /// `$HOME`.
    Home,
    /// `$USERPROFILE`.
    UserProfile,
    /// The current directory.
    Here,
    /// `$APPDATA`.
    AppData,
    /// `$XDG_CONFIG_HOME`.
    ConfigHome,
}

/// Which of the variables that name a directory are set.
#[derive(Debug, Clone, Copy, PartialEq, Eq, Structural)]
pub struct DirsSet {
    pub home: bool,
    pub user_profile: bool,
    pub app_data: bool,
    pub config_home: bool,
}

/// The directory that stands for the user's home.
pub open spec fn home_base(dirs: DirsSet) -> BaseDir {
    if dirs.home {
        BaseDir::Home
    } else if dirs.user_profile {
        BaseDir::UserProfile
    } else {
        BaseDir::Here
    }
}

/// The base directory of the settings file, and the way from there.
pub open spec fn settings_place(platform: Platform, dirs: DirsSet) -> (BaseDir, Seq<char>) {
    match platform {
        Platform::MacOs => (
            home_base(dirs),
            "Library/Application Support/sisko/settings.ini"@,
        ),
        Platform::Windows => (
            if dirs.app_data {
                BaseDir::AppData
            } else {
                home_base(dirs)
            },
            "sisko/settings.ini"@,
        ),
        Platform::Other => if dirs.config_home {
            (BaseDir::ConfigHome, "sisko/settings.ini"@)
        } else {
            (home_base(dirs), ".config/sisko/settings.ini"@)
        },
    }
}

/// The base directory of the settings file, and the way from there.
pub fn settings_path(platform: Platform, dirs: DirsSet) -> (place: (BaseDir, &'static str))
    ensures
        (place.0, place.1@) == settings_place(platform, dirs),
{
    let home = if dirs.home {
        BaseDir::Home
    } else if dirs.user_profile {
        BaseDir::UserProfile
    } else {
        BaseDir::Here
    };
    match platform {
        Platform::MacOs => (home, "Library/Application Support/sisko/settings.ini"),
        Platform::Windows => (
            if dirs.app_data {
                BaseDir::AppData
            } else {
                home
            },
            "sisko/settings.ini",
        ),
        Platform::Other => if dirs.config_home {
            (BaseDir::ConfigHome, "sisko/settings.ini")
        } else {
            (home, ".config/sisko/settings.ini")
        },
    }
}

// ---------------------------------------------------------------------------------------
// Laws

/// A character that neither ends a line nor a value and is no equals sign.
pub open spec fn is_solid(c: char) -> bool {
    !is_space(c) && c != '='
}

/// Whether a text has at least one character and no blank, line break or equals sign.
pub open spec fn solid(s: Seq<char>) -> bool {
    s.len() > 0 && forall|i: int| 0 <= i < s.len() ==> is_solid(#[trigger] s[i])
}

proof fn lemma_digits_solid(s: Seq<char>, i: int)
    requires
        0 <= i <= s.len(),
    ensures
        i <= digits_end(s, i) <= s.len(),
        forall|k: int| i <= k < digits_end(s, i) ==> is_solid(#[trigger] s[k]),
    decreases s.len() - i,
{
    if i < s.len() && is_digit(s[i]) {
        lemma_digits_solid(s, i + 1);
    }
}

proof fn lemma_number_solid(s: Seq<char>, i: int)
    requires
        0 <= i <= s.len(),
        number_at(s, i),
    ensures
        i < s.len(),
        forall|k: int| i <= k < s.len() ==> is_solid(#[trigger] s[k]),
{
    let whole = digits_end(s, i);
    lemma_digits_solid(s, i);
    let pointed = whole < s.len() && s[whole] == '.';
    let end = if pointed {
        digits_end(s, whole + 1)
    } else {
        whole
    };
    if pointed {
        lemma_digits_solid(s, whole + 1);
    }
    if end != s.len() {
        let first = if end + 1 < s.len() && (s[end + 1] == '+' || s[end + 1] == '-') {
            end + 2
        } else {
            end + 1
        };
        lemma_digits_solid(s, first);
        assert forall|k: int| i <= k < s.len() implies is_solid(#[trigger] s[k]) by {
            if whole < k < end {
                assert(is_solid(s[k]));
            }
        }
    }
}

proof fn lemma_word_solid(s: Seq<char>, i: int, lower: Seq<char>, upper: Seq<char>)
    requires
        0 <= i <= s.len(),
        word_at(s, i, lower, upper),
        solid(lower),
        solid(upper),
    ensures
        i < s.len(),
        forall|k: int| i <= k < s.len() ==> is_solid(#[trigger] s[k]),
{
    assert forall|k: int| i <= k < s.len() implies is_solid(#[trigger] s[k]) by {
        let j = k - i;
        assert(s[i + j] == lower[j] || s[i + j] == upper[j]);
        assert(is_solid(lower[j]) && is_solid(upper[j]));
    }
}

/// A text that reads as a number has no blank, line break or equals sign.
pub proof fn lemma_float_solid(s: Seq<char>)
    requires
        is_float(s),
    ensures
        solid(s),
{
    reveal_strlit("inf");
    reveal_strlit("INF");
    reveal_strlit("infinity");
    reveal_strlit("INFINITY");
    reveal_strlit("nan");
    reveal_strlit("NAN");
    assert(solid("inf"@) && solid("INF"@));
    assert(solid("infinity"@) && solid("INFINITY"@));
    assert(solid("nan"@) && solid("NAN"@));
    let i: int = if s.len() > 0 && (s[0] == '+' || s[0] == '-') {
        1
    } else {
        0
    };
    if number_at(s, i) {
        lemma_number_solid(s, i);
    } else if word_at(s, i, "inf"@, "INF"@) {
        lemma_word_solid(s, i, "inf"@, "INF"@);
    } else if word_at(s, i, "infinity"@, "INFINITY"@) {
        lemma_word_solid(s, i, "infinity"@, "INFINITY"@);
    } else {
        lemma_word_solid(s, i, "nan"@, "NAN"@);
    }
}

proof fn lemma_solid_trimmed(s: Seq<char>)
    requires
        solid(s),
    ensures
        trimmed(s) == s,
{
    assert(is_solid(s[0]) && is_solid(s[s.len() - 1]));
}

proof fn lemma_equals_place(s: Seq<char>, key: Seq<char>, i: int)
    requires
        solid(key),
        0 <= i <= key.len() < s.len(),
        s.take(key.len() as int) == key,
        s[key.len() as int] == '=',
    ensures
        equals_place(s, i) == key.len(),
    decreases key.len() - i,
{
    if i < key.len() {
        assert(s[i] == s.take(key.len() as int)[i]);
        assert(is_solid(key[i]));
        lemma_equals_place(s, key, i + 1);
    }
}

proof fn lemma_entry(key: Seq<char>, value: Seq<char>)
    requires
        solid(key),
        is_float(value),
    ensures
        entry_of(key + seq!['='] + value) == Some((key, value)),
        !(key + seq!['='] + value).contains('\n'),
        (key + seq!['='] + value).last() != '\r',
{
    let line = key + seq!['='] + value;
    lemma_float_solid(value);
    lemma_solid_trimmed(key);
    lemma_solid_trimmed(value);
    assert(line.take(key.len() as int) =~= key);
    assert(line.skip(key.len() as int + 1) =~= value);
    lemma_equals_place(line, key, 0);
    assert forall|i: int| 0 <= i < line.len() implies line[i] != '\n' by {
        if i < key.len() {
            assert(is_solid(key[i]));
        } else if i > key.len() {
            assert(is_solid(value[i - key.len() - 1]));
        }
    }
    assert(line.last() == value[value.len() - 1]);
}

proof fn lemma_two_lines(first: Seq<char>, second: Seq<char>)
    requires
        first.len() > 0,
        second.len() > 0,
        !first.contains('\n'),
        !second.contains('\n'),
        first.last() != '\r',
        second.last() != '\r',
    ensures
        lines_of(first + seq!['\n'] + second + seq!['\n']) == seq![first, second],
{
    let text = first + seq!['\n'] + second + seq!['\n'];
    let none = Seq::<char>::empty();
    let rest = second + seq!['\n'] + none;
    assert(text =~= first + seq!['\n'] + rest);
    lemma_pieces_of_both(first, rest, '\n');
    lemma_pieces_of_both(second, none, '\n');
    lemma_one_piece(first, '\n');
    lemma_one_piece(second, '\n');
    lemma_one_piece(none, '\n');
    let parts = pieces(text, '\n', '\n');
    assert(parts =~= seq![first, second, none]);
    assert(lines_of(text) =~= seq![first, second]);
}

/// A settings file gives back the font sizes that were written to it.
pub proof fn law_settings_read_back(repl: Seq<char>, table: Seq<char>)
    requires
        is_float(repl),
        is_float(table),
    ensures
        fonts_in(lines_of(settings_text(repl, table))) == (FontView {
            repl: Some(repl),
            table: Some(table),
        }),
{
    reveal_strlit("repl_font_size");
    reveal_strlit("repl_font_size=");
    reveal_strlit("table_font_size");
    reveal_strlit("\ntable_font_size=");
    reveal_strlit("\n");
    let a = "repl_font_size"@;
    let b = "table_font_size"@;
    assert(solid(a));
    assert(solid(b));
    let first = a + seq!['='] + repl;
    let second = b + seq!['='] + table;
    lemma_entry(a, repl);
    lemma_entry(b, table);
    assert("repl_font_size="@ =~= a + seq!['=']);
    assert("\ntable_font_size="@ =~= seq!['\n'] + b + seq!['=']);
    assert("\n"@ =~= seq!['\n']);
    assert(settings_text(repl, table) =~= first + seq!['\n'] + second + seq!['\n']);
    lemma_two_lines(first, second);
    let lines = seq![first, second];
    assert(a != b) by {
        assert(a.len() != b.len());
    }
    assert(lines.drop_last() =~= seq![first]);
    assert(seq![first].drop_last() =~= Seq::empty());
    assert(fonts_in(seq![first]) == with_line(
        fonts_in(Seq::empty()),
        first,
    ));
    assert(fonts_in(lines) == with_line(fonts_in(seq![first]), second));
}

/// A later line for a size replaces an earlier one, a line for the other size leaves it, and
/// a line that is no entry changes nothing.
pub proof fn law_later_lines_win(lines: Seq<Seq<char>>, value: Seq<char>, other: Seq<char>)
    requires
        is_float(value),
        !other.contains('='),
    ensures
        fonts_in(lines.push("repl_font_size"@ + seq!['='] + value)) == (FontView {
            repl: Some(value),
            table: fonts_in(lines).table,
        }),
        fonts_in(lines.push("table_font_size"@ + seq!['='] + value)) == (FontView {
            repl: fonts_in(lines).repl,
            table: Some(value),
        }),
        fonts_in(lines.push(other)) == fonts_in(lines),
        fonts_in(Seq::empty()) == (FontView { repl: None, table: None }),
{
    reveal_strlit("repl_font_size");
    reveal_strlit("table_font_size");
    let a = "repl_font_size"@;
    let b = "table_font_size"@;
    assert(solid(a));
    assert(solid(b));
    assert(a.len() != b.len());
    lemma_entry(a, value);
    lemma_entry(b, value);
    let first = a + seq!['='] + value;
    let second = b + seq!['='] + value;
    assert(lines.push(first).drop_last() =~= lines);
    assert(lines.push(second).drop_last() =~= lines);
    assert(lines.push(other).drop_last() =~= lines);
    lemma_no_equals(other, 0);
}

proof fn lemma_no_equals(s: Seq<char>, i: int)
    requires
        !s.contains('='),
        0 <= i <= s.len(),
    ensures
        equals_place(s, i) == s.len(),
    decreases s.len() - i,
{
    if i < s.len() {
        assert(s.contains(s[i]));
        lemma_no_equals(s, i + 1);
    }
}

/// The settings lie under the home directory, or under the directory that the platform keeps
/// for them where it is set.
pub proof fn law_settings_lie_where_the_platform_keeps_them(dirs: DirsSet)
    ensures
        dirs.home ==> settings_place(Platform::MacOs, dirs).0 == BaseDir::Home,
        dirs.app_data ==> settings_place(Platform::Windows, dirs).0 == BaseDir::AppData,
        dirs.config_home ==> settings_place(Platform::Other, dirs).0 == BaseDir::ConfigHome,
        !dirs.config_home && dirs.home ==> settings_place(Platform::Other, dirs).0 == BaseDir::Home,
        !dirs.app_data && dirs.home ==> settings_place(Platform::Windows, dirs).0 == BaseDir::Home,
        !dirs.home && dirs.user_profile ==> settings_place(Platform::MacOs, dirs).0
            == BaseDir::UserProfile,
        !dirs.home && !dirs.user_profile ==> settings_place(Platform::MacOs, dirs).0
            == BaseDir::Here,
{
}

/// The way from the base directory to the settings file.
pub proof fn law_settings_lie_below_their_directory(dirs: DirsSet)
    ensures
        settings_place(Platform::MacOs, dirs).1 == "Library/Application Support/sisko/settings.ini"@,
        settings_place(Platform::Windows, dirs).1 == "sisko/settings.ini"@,
        dirs.config_home ==> settings_place(Platform::Other, dirs).1 == "sisko/settings.ini"@,
        !dirs.config_home ==> settings_place(Platform::Other, dirs).1
            == ".config/sisko/settings.ini"@,
{
}

} // verus!
