//! Mathematical models of the string operations the library relies on, the
//! trusted wrappers around std's string functions, and verified helpers that
//! work on the characters of a string.
use vstd::prelude::*;

verus! {

/// Whether `c` has Unicode's `White_Space` property, as `char::is_whitespace`
/// reports it: the characters that `str::trim` removes.
pub open spec fn white_space(c: char) -> bool {
    let u = c as int;
    (0x09 <= u <= 0x0D) || u == 0x20 || u == 0x85 || u == 0xA0 || u == 0x1680 || (0x2000 <= u
        <= 0x200A) || u == 0x2028 || u == 0x2029 || u == 0x202F || u == 0x205F || u == 0x3000
}

/// What `str::to_lowercase` returns: the lowercase mapping of every character.
pub uninterp spec fn lower_of(s: Seq<char>) -> Seq<char>;

/// `s` with its leading whitespace removed.
pub open spec fn trim_start(s: Seq<char>) -> Seq<char>
    decreases s.len(),
{
    if s.len() > 0 && white_space(s[0]) {
        trim_start(s.drop_first())
    } else {
        s
    }
}

/// `s` with its trailing whitespace removed.
pub open spec fn trim_end(s: Seq<char>) -> Seq<char>
    decreases s.len(),
{
    if s.len() > 0 && white_space(s.last()) {
        trim_end(s.drop_last())
    } else {
        s
    }
}

/// `s` with leading and trailing whitespace removed.
pub open spec fn trimmed(s: Seq<char>) -> Seq<char> {
    trim_end(trim_start(s))
}

/// `l` without one trailing carriage return, if it has one.
pub open spec fn strip_cr(l: Seq<char>) -> Seq<char> {
    if l.len() > 0 && l.last() == '\r' {
        l.drop_last()
    } else {
        l
    }
}

/// The lines of `cur + s`, where `cur` is the part of a line already read.
/// A line ends at `\n`, and a `\r` right before that `\n` belongs to the line
/// ending; the last line needs no ending, and an empty last line is no line.
pub open spec fn lines_from(s: Seq<char>, cur: Seq<char>) -> Seq<Seq<char>>
    decreases s.len(),
{
    if s.len() == 0 {
        if cur.len() == 0 {
            seq![]
        } else {
            seq![cur]
        }
    } else if s[0] == '\n' {
        seq![strip_cr(cur)] + lines_from(s.drop_first(), seq![])
    } else {
        lines_from(s.drop_first(), cur.push(s[0]))
    }
}

/// The lines of a text.
pub open spec fn lines_spec(s: Seq<char>) -> Seq<Seq<char>> {
    lines_from(s, seq![])
}

/// The pieces of `cur + s` between occurrences of `sep`; there is always at
/// least one piece, possibly empty.
pub open spec fn split_from(s: Seq<char>, sep: char, cur: Seq<char>) -> Seq<Seq<char>>
    decreases s.len(),
{
    if s.len() == 0 {
        seq![cur]
    } else if s[0] == sep {
        seq![cur] + split_from(s.drop_first(), sep, seq![])
    } else {
        split_from(s.drop_first(), sep, cur.push(s[0]))
    }
}

/// The pieces of `s` between occurrences of `sep`.
pub open spec fn split_spec(s: Seq<char>, sep: char) -> Seq<Seq<char>> {
    split_from(s, sep, seq![])
}

/// Whether `suffix` ends `s`.
pub open spec fn ends_with(s: Seq<char>, suffix: Seq<char>) -> bool {
    suffix.len() <= s.len() && s.subrange(s.len() - suffix.len(), s.len() as int) == suffix
}

/// The views of a sequence of string slices.
pub open spec fn views(v: Seq<&str>) -> Seq<Seq<char>> {
    v.map_values(|x: &str| x@)
}

/// The views of a sequence of strings.
pub open spec fn string_views(v: Seq<String>) -> Seq<Seq<char>> {
    v.map_values(|x: String| x@)
}

/// Pushing a string pushes its view.
pub proof fn lemma_string_views_push(s: Seq<String>, x: String)
    ensures
        string_views(s.push(x)) == string_views(s).push(x@),
{
    assert(string_views(s.push(x)) =~= string_views(s).push(x@));
}

/// Relies on `str::to_lowercase`: the result depends on the characters alone,
/// and each character becomes one or more characters.
#[verifier::external_body]
pub(crate) fn lowercase(s: &str) -> (r: String)
    ensures
        r@ == lower_of(s@),
        s@.len() == 0 <==> r@.len() == 0,
{
    s.to_lowercase()
}

/// Relies on `str::trim`: leading and trailing characters with the
/// `White_Space` property are removed.
#[verifier::external_body]
pub(crate) fn trim(s: &str) -> (r: &str)
    ensures
        r@ == trimmed(s@),
{
    s.trim()
}

/// Relies on `str::lines`: the lines of the text, without their endings.
#[verifier::external_body]
pub(crate) fn lines(s: &str) -> (r: Vec<&str>)
    ensures
        views(r@) == lines_spec(s@),
{
    s.lines().collect()
}

/// Relies on `str::split` with a `char` pattern: the pieces between the
/// occurrences of `sep`.
#[verifier::external_body]
pub(crate) fn split(s: &str, sep: char) -> (r: Vec<&str>)
    ensures
        views(r@) == split_spec(s@, sep),
{
    s.split(sep).collect()
}

/// Relies on `str::strip_suffix`: `s` without `suffix`, if `s` ends with it.
#[verifier::external_body]
pub(crate) fn strip_suffix<'a>(s: &'a str, suffix: &str) -> (r: Option<&'a str>)
    ensures
        match r {
            Some(b) => b@ + suffix@ == s@,
            None => !ends_with(s@, suffix@),
        },
{
    s.strip_suffix(suffix)
}

/// The characters of `s`.
pub fn chars_of(s: &str) -> (r: Vec<char>)
    ensures
        r@ == s@,
{
    let mut r: Vec<char> = Vec::new();
    for c in it: s.chars()
        invariant
            r@ == it.seq().take(it.index() as int),
    {
        r.push(c);
    }
    r
}

} // verus!
