//! Source rewriting before tagging: a rules file holds lines of the form
//! `pattern | replacement`, and every rule's regular expression is replaced
//! throughout a file's text, rule after rule, before the file is tagged.
use vstd::prelude::*;
use vstd::utf8::{valid_utf8, decode_utf8};
use crate::text::{trim, trim_spec};

verus! {

#[verifier::external_type_specification]
#[verifier::external_body]
pub struct ExRegex(regex::Regex);

#[verifier::external_type_specification]
#[verifier::external_body]
pub struct ExRegexError(regex::Error);

/// Whether `regex::Regex::new` accepts a pattern.
pub uninterp spec fn regex_compiles(pattern: Seq<char>) -> bool;

/// What `regex::Regex::replace_all` gives for a pattern, a text and a
/// replacement.
pub uninterp spec fn regex_replace_all(pattern: Seq<char>, text: Seq<char>, replacement: Seq<char>) -> Seq<char>;

/// Calls `regex::Regex::new`. Claims that whether it succeeds depends on the
/// pattern alone (its size limit is the default one).
#[verifier::external_body]
fn compile(pattern: &str) -> (r: Result<regex::Regex, regex::Error>)
    ensures
        r is Ok <==> regex_compiles(pattern@),
{
    regex::Regex::new(pattern)
}

/// A rewriting rule: a regular expression and its replacement.
pub struct Rewrite {
    pattern: String,
    replacement: String,
    regex: regex::Regex,
}

/// Why a rules file cannot be used.
#[derive(Clone, Copy, Debug, PartialEq, Eq, Structural)]
pub enum RuleError {
    /// A line is not valid UTF-8.
    InvalidUtf8,
    /// The pattern of a rule is not a valid regular expression.
    InvalidPattern,
}

impl Rewrite {
    /// The rule's pattern.
    pub closed spec fn pattern(&self) -> Seq<char> {
        self.pattern@
    }

    /// The rule's replacement.
    pub closed spec fn replacement(&self) -> Seq<char> {
        self.replacement@
    }

    /// A rule, when its pattern is a valid regular expression.
    pub fn new(pattern: &str, replacement: &str) -> (r: Result<Rewrite, RuleError>)
        ensures
            r is Ok <==> regex_compiles(pattern@),
            r matches Ok(rw) ==> rw.pattern() == pattern@ && rw.replacement() == replacement@,
            r matches Err(e) ==> e == RuleError::InvalidPattern,
    {
        match compile(pattern) {
            Ok(regex) => Ok(Rewrite { pattern: pattern.to_owned(), replacement: replacement.to_owned(), regex }),
            Err(_) => Err(RuleError::InvalidPattern),
        }
    }

    /// Calls `regex::Regex::replace_all` with the rule's compiled pattern and
    /// its replacement. Claims that the result depends only on the pattern
    /// the regex was compiled from, the text and the replacement.
    #[verifier::external_body]
    pub(crate) fn apply(&self, text: &str) -> (r: String)
        ensures
            r@ == regex_replace_all(self.pattern(), text@, self.replacement()),
    {
        self.regex.replace_all(text, self.replacement.as_str()).to_string()
    }
}

/// The rules as plain values.
pub open spec fn rules_view(rules: Seq<Rewrite>) -> Seq<(Seq<char>, Seq<char>)> {
    rules.map_values(|r: Rewrite| (r.pattern(), r.replacement()))
}

/// The text after the rules have been applied one after the other.
pub open spec fn rewrite_all(rules: Seq<(Seq<char>, Seq<char>)>, text: Seq<char>) -> Seq<char>
    decreases rules.len(),
{
    if rules.len() == 0 {
        text
    } else {
        let last = rules.last();
        regex_replace_all(last.0, rewrite_all(rules.drop_last(), text), last.1)
    }
}

/// Applies every rule, in order, to the text.
pub fn apply_rewrites(rules: &Vec<Rewrite>, text: &str) -> (r: String)
    ensures
        r@ == rewrite_all(rules_view(rules@), text@),
{
    let mut result = text.to_owned();
    let mut i: usize = 0;
    assert(rules_view(rules@).take(0) =~= Seq::<(Seq<char>, Seq<char>)>::empty());
    while i < rules.len()
        invariant
            i <= rules@.len(),
            result@ == rewrite_all(rules_view(rules@).take(i as int), text@),
        decreases rules@.len() - i,
    {
        let next = rules[i].apply(result.as_str());
        assert(rules_view(rules@).take(i + 1).drop_last() =~= rules_view(rules@).take(i as int));
        result = next;
        i = i + 1;
    }
    assert(rules_view(rules@).take(i as int) =~= rules_view(rules@));
    result
}

/// The number of `|` characters in `s`.
pub open spec fn bar_count(s: Seq<char>) -> nat
    decreases s.len(),
{
    if s.len() == 0 {
        0
    } else {
        (if s[0] == '|' {
            1nat
        } else {
            0nat
        }) + bar_count(s.drop_first())
    }
}

/// The position of the first `|` in `s` (its length when there is none).
pub open spec fn first_bar(s: Seq<char>) -> int
    decreases s.len(),
{
    if s.len() == 0 {
        0
    } else if s[0] == '|' {
        0
    } else {
        1 + first_bar(s.drop_first())
    }
}

/// The rule on a line of the rules file: a line that `|` splits into
/// exactly two parts gives the rule of those parts, without surrounding
/// white space; any other line gives none.
pub open spec fn rule_of_line(line: Seq<char>) -> Option<(Seq<char>, Seq<char>)> {
    if bar_count(line) == 1 {
        let p = first_bar(line);
        Some((trim_spec(line.take(p)), trim_spec(line.skip(p + 1))))
    } else {
        None
    }
}

proof fn lemma_first_bar_bounds(s: Seq<char>)
    ensures
        0 <= first_bar(s) <= s.len(),
        first_bar(s) < s.len() ==> s[first_bar(s)] == '|',
        bar_count(s) > 0 ==> first_bar(s) < s.len(),
    decreases s.len(),
{
    if s.len() > 0 && s[0] != '|' {
        lemma_first_bar_bounds(s.drop_first());
    }
}

/// The rule on a line of the rules file, if it has one.
pub fn parse_rule_line(line: &str) -> (r: Option<(String, String)>)
    ensures
        match r {
            Some((p, q)) => rule_of_line(line@) == Some((p@, q@)),
            None => rule_of_line(line@) is None,
        },
{
    let n = line.unicode_len();
    let mut i: usize = 0;
    let mut bars: usize = 0;
    let mut first: usize = n;
    assert(line@.skip(0) =~= line@);
    while i < n
        invariant
            n == line@.len(),
            i <= n,
            bars <= i,
            bar_count(line@) == bars + bar_count(line@.skip(i as int)),
            bars == 0 ==> first_bar(line@) == i + first_bar(line@.skip(i as int)),
            bars > 0 ==> first_bar(line@) == first && first < i,
        decreases n - i,
    {
        assert(line@.skip(i as int).drop_first() =~= line@.skip(i + 1));
        if line.get_char(i) == '|' {
            if bars == 0 {
                first = i;
            }
            bars = bars + 1;
        }
        i = i + 1;
    }
    if bars == 1 {
        proof {
            lemma_first_bar_bounds(line@);
        }
        let before = line.substring_char(0, first);
        let after = line.substring_char(first + 1, n);
        assert(before@ =~= line@.take(first as int));
        Some((trim(before).to_owned(), trim(after).to_owned()))
    } else {
        None
    }
}

/// The position of the first newline byte in `b` at or after `start`
/// (the length of `b` when there is none).
pub open spec fn next_newline(b: Seq<u8>, start: int) -> int
    decreases b.len() - start,
{
    if start >= b.len() {
        b.len() as int
    } else if b[start] == 10u8 {
        start
    } else {
        next_newline(b, start + 1)
    }
}

/// A line without the carriage return that ends it, if any.
pub open spec fn strip_cr(line: Seq<u8>) -> Seq<u8> {
    if line.len() > 0 && line.last() == 13u8 {
        line.drop_last()
    } else {
        line
    }
}

/// The lines of `b` from position `start` on, as `BufRead::lines` splits
/// them: at each newline, dropping the newline and a carriage return just
/// before it; a last line without a newline is kept as it is.
pub open spec fn lines_from(b: Seq<u8>, start: int) -> Seq<Seq<u8>>
    decreases b.len() - start,
{
    if start < 0 || start >= b.len() {
        Seq::empty()
    } else {
        let nl = next_newline(b, start);
        proof {
            lemma_next_newline_range(b, start);
        }
        if nl >= b.len() {
            seq![b.subrange(start, b.len() as int)]
        } else {
            seq![strip_cr(b.subrange(start, nl))] + lines_from(b, nl + 1)
        }
    }
}

pub proof fn lemma_next_newline_range(b: Seq<u8>, start: int)
    requires
        0 <= start <= b.len(),
    ensures
        start <= next_newline(b, start) <= b.len(),
    decreases b.len() - start,
{
    if start < b.len() && b[start] != 10u8 {
        lemma_next_newline_range(b, start + 1);
    }
}

proof fn lemma_next_newline(b: Seq<u8>, start: int, i: int)
    requires
        0 <= start <= i <= b.len(),
        forall|j: int| start <= j < i ==> b[j] != 10u8,
        i == b.len() || b[i] == 10u8,
    ensures
        next_newline(b, start) == i,
    decreases i - start,
{
    if start < i {
        lemma_next_newline(b, start + 1, i);
    }
}

/// The lines of a file's bytes, as `BufRead::lines` splits them.
pub fn split_lines(b: &[u8]) -> (r: Vec<Vec<u8>>)
    ensures
        r@.map_values(|l: Vec<u8>| l@) == lines_from(b@, 0),
{
    let mut lines: Vec<Vec<u8>> = Vec::new();
    let mut start: usize = 0;
    while start < b.len()
        invariant
            start <= b@.len(),
            lines@.map_values(|l: Vec<u8>| l@) + lines_from(b@, start as int) == lines_from(b@, 0),
        decreases b@.len() - start,
    {
        let mut i = start;
        while i < b.len() && b[i] != 10u8
            invariant
                start <= i <= b@.len(),
                forall|j: int| start <= j < i ==> b@[j] != 10u8,
            decreases b@.len() - i,
        {
            i = i + 1;
        }
        proof {
            lemma_next_newline(b@, start as int, i as int);
        }
        let ghost old_lines = lines@.map_values(|l: Vec<u8>| l@);
        if i == b.len() {
            let line = vstd::slice::slice_to_vec(vstd::slice::slice_subrange(b, start, i));
            lines.push(line);
            assert(lines@.map_values(|l: Vec<u8>| l@) =~= old_lines.push(b@.subrange(start as int, i as int)));
            assert(lines_from(b@, i as int) =~= Seq::<Seq<u8>>::empty());
            assert(old_lines + lines_from(b@, start as int) =~= lines@.map_values(|l: Vec<u8>| l@)
                + lines_from(b@, i as int));
            start = i;
        } else {
            let end = if i > start && b[i - 1] == 13u8 {
                i - 1
            } else {
                i
            };
            let line = vstd::slice::slice_to_vec(vstd::slice::slice_subrange(b, start, end));
            assert(line@ =~= strip_cr(b@.subrange(start as int, i as int)));
            lines.push(line);
            assert(lines@.map_values(|l: Vec<u8>| l@) =~= old_lines.push(
                strip_cr(b@.subrange(start as int, i as int)),
            ));
            assert(old_lines + lines_from(b@, start as int) =~= lines@.map_values(|l: Vec<u8>| l@)
                + lines_from(b@, i + 1));
            start = i + 1;
        }
    }
    assert(lines_from(b@, start as int) =~= Seq::<Seq<u8>>::empty());
    assert(lines@.map_values(|l: Vec<u8>| l@) + Seq::<Seq<u8>>::empty() =~= lines@.map_values(
        |l: Vec<u8>| l@,
    ));
    lines
}

/// Calls `std::str::from_utf8`. Claims what its documentation gives: it
/// succeeds exactly on valid UTF-8, and the text it gives is the one the
/// bytes encode.
#[verifier::external_body]
pub(crate) fn utf8_text(bytes: &[u8]) -> (r: Option<&str>)
    ensures
        r is Some <==> valid_utf8(bytes@),
        r matches Some(s) ==> s@ == decode_utf8(bytes@),
{
    std::str::from_utf8(bytes).ok()
}

/// The rules of the lines of a rules file: each line must be UTF-8, lines
/// with a rule add it, and each rule's pattern must be valid.
pub open spec fn rules_of_lines(lines: Seq<Seq<u8>>) -> Result<Seq<(Seq<char>, Seq<char>)>, RuleError>
    decreases lines.len(),
{
    if lines.len() == 0 {
        Ok(Seq::empty())
    } else if !valid_utf8(lines[0]) {
        Err(RuleError::InvalidUtf8)
    } else {
        match rule_of_line(decode_utf8(lines[0])) {
            None => rules_of_lines(lines.drop_first()),
            Some(rule) => if !regex_compiles(rule.0) {
                Err(RuleError::InvalidPattern)
            } else {
                match rules_of_lines(lines.drop_first()) {
                    Ok(rest) => Ok(seq![rule] + rest),
                    Err(e) => Err(e),
                }
            },
        }
    }
}

/// The rules of a rules file's bytes.
pub open spec fn rules_of_file(b: Seq<u8>) -> Result<Seq<(Seq<char>, Seq<char>)>, RuleError> {
    rules_of_lines(lines_from(b, 0))
}

/// The rules of a rules file whose lines are all UTF-8 and whose rules all
/// have valid patterns, compiled.
pub fn read_rules(b: &[u8]) -> (r: Vec<Rewrite>)
    requires
        rules_of_file(b@) is Ok,
    ensures
        rules_of_file(b@) == Ok::<_, RuleError>(rules_view(r@)),
{
    match try_read_rules(b) {
        Ok(rules) => rules,
        Err(_) => {
            proof {
                assert(false);
            }
            Vec::new()
        },
    }
}

/// The rules of a rules file, compiled, or the first line's reason why the
/// file cannot be used.
pub fn try_read_rules(b: &[u8]) -> (r: Result<Vec<Rewrite>, RuleError>)
    ensures
        match r {
            Ok(v) => rules_of_file(b@) == Ok::<_, RuleError>(rules_view(v@)),
            Err(e) => rules_of_file(b@) == Err::<Seq<(Seq<char>, Seq<char>)>, _>(e),
        },
{
    let lines = split_lines(b);
    let ghost ls = lines@.map_values(|l: Vec<u8>| l@);
    let mut rules: Vec<Rewrite> = Vec::new();
    let mut i: usize = 0;
    assert(ls.skip(0) =~= ls);
    while i < lines.len()
        invariant
            ls == lines@.map_values(|l: Vec<u8>| l@),
            ls == lines_from(b@, 0),
            i <= lines@.len(),
            rules_of_lines(ls) == (match rules_of_lines(ls.skip(i as int)) {
                Ok(rest) => Ok(rules_view(rules@) + rest),
                Err(e) => Err(e),
            }),
        decreases lines@.len() - i,
    {
        let ghost rest = ls.skip(i as int);
        assert(rest[0] == lines@[i as int]@);
        assert(rest.drop_first() =~= ls.skip(i + 1));
        match utf8_text(lines[i].as_slice()) {
            None => {
                return Err(RuleError::InvalidUtf8);
            },
            Some(text) => {
                match parse_rule_line(text) {
                    None => {},
                    Some((p, q)) => {
                        match Rewrite::new(p.as_str(), q.as_str()) {
                            Err(e) => {
                                return Err(e);
                            },
                            Ok(rw) => {
                                let ghost before = rules_view(rules@);
                                rules.push(rw);
                                assert(rules_view(rules@) =~= before + seq![(p@, q@)]);
                                assert forall|tail: Seq<(Seq<char>, Seq<char>)>|
                                    true implies before + (seq![(p@, q@)] + tail) == rules_view(rules@) + tail by {
                                    assert(before + (seq![(p@, q@)] + tail) =~= rules_view(rules@) + tail);
                                }
                            },
                        }
                    },
                }
            },
        }
        i = i + 1;
    }
    assert(ls.skip(i as int) =~= Seq::<Seq<u8>>::empty());
    assert(rules_view(rules@) + Seq::<(Seq<char>, Seq<char>)>::empty() =~= rules_view(rules@));
    Ok(rules)
}

/// Law of rewriting: no rules leave the text as it is, and rewriting by
/// rules followed by one more rule applies that rule, with its replacement,
/// to the text that the rules before it gave; so every rule is applied
/// once, in order.
pub proof fn lemma_rewrite_rule_by_rule(
    rules: Seq<(Seq<char>, Seq<char>)>,
    rule: (Seq<char>, Seq<char>),
    text: Seq<char>,
)
    ensures
        rewrite_all(Seq::empty(), text) == text,
        rewrite_all(rules.push(rule), text) == regex_replace_all(rule.0, rewrite_all(rules, text), rule.1),
{
    assert(rules.push(rule).drop_last() =~= rules);
}

} // verus!
