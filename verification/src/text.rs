//! Text handling: Unicode white space trimming, decimal numbers, and the
//! lines that searches print.
use vstd::prelude::*;

verus! {

/// The characters with the Unicode `White_Space` property, which is what
/// `char::is_whitespace` and the `trim` family of `str` go by.
pub open spec fn is_white_space(c: char) -> bool {
    let u = c as u32;
    ||| 0x9 <= u <= 0xd
    ||| u == 0x20
    ||| u == 0x85
    ||| u == 0xa0
    ||| u == 0x1680
    ||| 0x2000 <= u <= 0x200a
    ||| u == 0x2028
    ||| u == 0x2029
    ||| u == 0x202f
    ||| u == 0x205f
    ||| u == 0x3000
}

/// The number of white space characters at the start of `s`.
pub open spec fn leading_white(s: Seq<char>) -> nat
    decreases s.len(),
{
    if s.len() > 0 && is_white_space(s[0]) {
        1 + leading_white(s.drop_first())
    } else {
        0
    }
}

/// The number of white space characters at the end of `s`.
pub open spec fn trailing_white(s: Seq<char>) -> nat
    decreases s.len(),
{
    if s.len() > 0 && is_white_space(s.last()) {
        1 + trailing_white(s.drop_last())
    } else {
        0
    }
}

/// `s` without its leading white space.
pub open spec fn trim_start_spec(s: Seq<char>) -> Seq<char> {
    s.skip(leading_white(s) as int)
}

/// `s` without its leading and trailing white space.
pub open spec fn trim_spec(s: Seq<char>) -> Seq<char> {
    let t = trim_start_spec(s);
    t.take(t.len() - trailing_white(t))
}

pub proof fn lemma_leading_white_bound(s: Seq<char>)
    ensures
        leading_white(s) <= s.len(),
    decreases s.len(),
{
    if s.len() > 0 && is_white_space(s[0]) {
        lemma_leading_white_bound(s.drop_first());
    }
}

pub proof fn lemma_trailing_white_bound(s: Seq<char>)
    ensures
        trailing_white(s) <= s.len(),
    decreases s.len(),
{
    if s.len() > 0 && is_white_space(s.last()) {
        lemma_trailing_white_bound(s.drop_last());
    }
}

/// Law of trimming: `trim_start_spec` removes exactly the white space at the
/// start: what it removes is white space, and what remains is empty or does
/// not start with white space.
pub proof fn lemma_trim_start_shape(s: Seq<char>)
    ensures
        s == s.take(leading_white(s) as int) + trim_start_spec(s),
        forall|i: int| 0 <= i < leading_white(s) ==> is_white_space(#[trigger] s[i]),
        trim_start_spec(s).len() == 0 || !is_white_space(trim_start_spec(s)[0]),
    decreases s.len(),
{
    lemma_leading_white_bound(s);
    if s.len() > 0 && is_white_space(s[0]) {
        let t = s.drop_first();
        lemma_trim_start_shape(t);
        lemma_leading_white_bound(t);
        assert(trim_start_spec(s) =~= trim_start_spec(t));
        assert forall|i: int| 0 <= i < leading_white(s) implies is_white_space(#[trigger] s[i]) by {
            if i > 0 {
                assert(s[i] == t[i - 1]);
            }
        }
    }
    assert(s =~= s.take(leading_white(s) as int) + trim_start_spec(s));
}

/// Whether a character has the Unicode `White_Space` property.
pub fn white_space(c: char) -> (r: bool)
    ensures
        r == is_white_space(c),
{
    ('\u{9}' <= c && c <= '\u{d}') || c == ' ' || c == '\u{85}' || c == '\u{a0}' || c == '\u{1680}'
        || ('\u{2000}' <= c && c <= '\u{200a}') || c == '\u{2028}' || c == '\u{2029}' || c
        == '\u{202f}' || c == '\u{205f}' || c == '\u{3000}'
}

/// The position of the first character of `s` that is not white space
/// (the length of `s` when there is none).
fn count_leading_white(s: &str) -> (k: usize)
    ensures
        k == leading_white(s@),
{
    let n = s.unicode_len();
    let mut i: usize = 0;
    assert(s@.skip(0) =~= s@);
    while i < n && white_space(s.get_char(i))
        invariant
            n == s@.len(),
            i <= n,
            leading_white(s@) == i + leading_white(s@.skip(i as int)),
        decreases n - i,
    {
        assert(s@.skip(i as int).drop_first() =~= s@.skip(i + 1));
        i = i + 1;
    }
    i
}

/// The number of white space characters at the end of `s`.
fn count_trailing_white(s: &str) -> (k: usize)
    ensures
        k == trailing_white(s@),
{
    let n = s.unicode_len();
    let mut i: usize = n;
    assert(s@.take(n as int) =~= s@);
    while i > 0 && white_space(s.get_char(i - 1))
        invariant
            n == s@.len(),
            i <= n,
            trailing_white(s@) == (n - i) + trailing_white(s@.take(i as int)),
        decreases i,
    {
        assert(s@.take(i as int).drop_last() =~= s@.take(i - 1));
        i = i - 1;
    }
    n - i
}

/// `s` without its leading white space, as `str::trim_start` gives it.
pub fn trim_start(s: &str) -> (r: &str)
    ensures
        r@ == trim_start_spec(s@),
{
    let k = count_leading_white(s);
    proof {
        lemma_leading_white_bound(s@);
    }
    s.substring_char(k, s.unicode_len())
}

/// `s` without its leading and trailing white space, as `str::trim` gives
/// it.
pub fn trim(s: &str) -> (r: &str)
    ensures
        r@ == trim_spec(s@),
{
    let t = trim_start(s);
    let k = count_trailing_white(t);
    proof {
        lemma_trailing_white_bound(t@);
    }
    let n = t.unicode_len();
    t.substring_char(0, n - k)
}

/// The character of a decimal digit.
pub open spec fn digit_char(d: nat) -> char {
    ((d + 48) as u32) as char
}

/// The decimal representation of `n`, without leading zeros.
pub open spec fn decimal(n: nat) -> Seq<char>
    decreases n,
{
    if n < 10 {
        seq![digit_char(n)]
    } else {
        decimal(n / 10).push(digit_char(n % 10))
    }
}

/// Appends the character of the digit `d`.
fn push_digit(r: &mut String, d: usize)
    requires
        d < 10,
    ensures
        final(r)@ == old(r)@.push(digit_char(d as nat)),
{
    proof {
        reveal_strlit("0");
        reveal_strlit("1");
        reveal_strlit("2");
        reveal_strlit("3");
        reveal_strlit("4");
        reveal_strlit("5");
        reveal_strlit("6");
        reveal_strlit("7");
        reveal_strlit("8");
        reveal_strlit("9");
    }
    match d {
        0 => r.append("0"),
        1 => r.append("1"),
        2 => r.append("2"),
        3 => r.append("3"),
        4 => r.append("4"),
        5 => r.append("5"),
        6 => r.append("6"),
        7 => r.append("7"),
        8 => r.append("8"),
        _ => r.append("9"),
    }
    assert(r@ =~= old(r)@.push(digit_char(d as nat)));
}

/// The decimal representation of `n`: its digits, with no sign, padding or
/// leading zeros, as `Display` writes an integer.
pub(crate) fn decimal_text(n: usize) -> (r: String)
    ensures
        r@ == decimal(n as nat),
    decreases n,
{
    if n < 10 {
        let mut r = String::new();
        push_digit(&mut r, n);
        assert(r@ =~= decimal(n as nat));
        r
    } else {
        let mut r = decimal_text(n / 10);
        push_digit(&mut r, n % 10);
        r
    }
}

/// How `Display` writes a `bool`.
pub open spec fn bool_text(b: bool) -> Seq<char> {
    if b {
        "true"@
    } else {
        "false"@
    }
}

/// The line that completion prints for a tag record:
/// `path:row:name:is_definition:syntax kind`.
pub open spec fn completion_line(
    path: Seq<char>,
    row: usize,
    name: Seq<char>,
    is_definition: bool,
    syntax: Seq<char>,
) -> Seq<char> {
    path + ":"@ + decimal(row as nat) + ":"@ + name + ":"@ + bool_text(is_definition) + ":"@ + syntax
}

/// The line that a search for definitions or references prints for a tag
/// record: `path:row:context`.
pub open spec fn search_line(path: Seq<char>, row: usize, context: Seq<char>) -> Seq<char> {
    path + ":"@ + decimal(row as nat) + ":"@ + context
}

/// The line that completion prints for a tag record.
pub fn render_completion_line(path: &str, row: usize, name: &str, is_definition: bool, syntax: &str) -> (r:
    String)
    ensures
        r@ == completion_line(path@, row, name@, is_definition, syntax@),
{
    let mut r = path.to_owned();
    r.append(":");
    let d = decimal_text(row);
    r.append(d.as_str());
    r.append(":");
    r.append(name);
    r.append(":");
    if is_definition {
        r.append("true");
    } else {
        r.append("false");
    }
    r.append(":");
    r.append(syntax);
    r
}

/// The context shown for a tag: its source line without leading white
/// space.
pub fn line_context(line: &str) -> (r: String)
    ensures
        r@ == trim_start_spec(line@),
{
    trim_start(line).to_owned()
}

/// The line that a search for definitions or references prints for a tag
/// record.
pub fn render_search_line(path: &str, row: usize, context: &str) -> (r: String)
    ensures
        r@ == search_line(path@, row, context@),
{
    let mut r = path.to_owned();
    r.append(":");
    let d = decimal_text(row);
    r.append(d.as_str());
    r.append(":");
    r.append(context);
    r
}

/// The number that a string of decimal digits writes.
pub open spec fn digits_value(s: Seq<char>) -> int
    decreases s.len(),
{
    if s.len() == 0 {
        0
    } else {
        digits_value(s.drop_last()) * 10 + (s.last() as int - 48)
    }
}

/// Law of decimal text: it is made of the digits `0` to `9`, starts with a
/// digit other than `0` unless the number is 0, and reads back as the number.
pub proof fn lemma_decimal_reads_back(n: nat)
    ensures
        decimal(n).len() >= 1,
        forall|i: int| 0 <= i < decimal(n).len() ==> '0' <= #[trigger] decimal(n)[i] <= '9',
        n > 0 ==> decimal(n)[0] != '0',
        digits_value(decimal(n)) == n,
    decreases n,
{
    if n < 10 {
        assert(digits_value(decimal(n)) == digits_value(Seq::<char>::empty()) * 10 + (decimal(n).last() as int - 48)) by {
            assert(decimal(n).drop_last() =~= Seq::<char>::empty());
        }
    } else {
        lemma_decimal_reads_back(n / 10);
        let d = decimal(n);
        assert(d.drop_last() =~= decimal(n / 10));
        assert(d[0] == decimal(n / 10)[0]);
        assert(n == (n / 10) * 10 + n % 10);
        assert forall|i: int| 0 <= i < d.len() implies '0' <= #[trigger] d[i] <= '9' by {
            if i < d.len() - 1 {
                assert(d[i] == decimal(n / 10)[i]);
            }
        }
    }
}

} // verus!
