//! Character classification used by the lexer and the line tokenizer.
//!
//! Two Unicode properties are needed: alphanumeric and white space.  Both are
//! computed by the standard library; their full tables are not restated here.
//! Instead each is an opaque predicate pinned down on the handful of ASCII
//! characters the proofs need, which the standard library documentation lists
//! explicitly.  ASCII punctuation is small enough to state exactly.

use vstd::prelude::*;
use vstd::string::StrSliceExecFns;

verus! {

/// Unicode alphanumeric characters other than the control and space
/// characters singled out in `alphanumeric`.
pub uninterp spec fn other_alphanumeric(c: char) -> bool;

/// Unicode white space characters other than the four singled out in
/// `whitespace`.
pub uninterp spec fn other_whitespace(c: char) -> bool;

/// `char::is_alphanumeric`.  A space, tab, newline or carriage return is
/// never alphanumeric; the remaining characters are left opaque.
pub open spec fn alphanumeric(c: char) -> bool {
    if c == ' ' || c == '\t' || c == '\n' || c == '\r' {
        false
    } else {
        other_alphanumeric(c)
    }
}

/// `char::is_whitespace`.  A space, tab, newline or carriage return has the
/// White_Space property; the remaining characters are left opaque.
pub open spec fn whitespace(c: char) -> bool {
    if c == ' ' || c == '\t' || c == '\n' || c == '\r' {
        true
    } else {
        other_whitespace(c)
    }
}

/// The four ASCII punctuation ranges: `!`..`/`, `:`..`@`, `[`..`` ` ``
/// and `{`..`~`.
pub open spec fn ascii_punctuation(c: char) -> bool {
    let n = c as u32;
    (0x21 <= n && n <= 0x2f) || (0x3a <= n && n <= 0x40) || (0x5b <= n && n <= 0x60) || (0x7b <= n
        && n <= 0x7e)
}

/// A character the lexer folds into a `Word` run.
pub open spec fn word_char(c: char) -> bool {
    alphanumeric(c) || ascii_punctuation(c)
}

/// Relies on `char::is_alphanumeric`: the Unicode Alphabetic and Number
/// properties, a function of the character alone; space, tab, newline and
/// carriage return are control or separator characters, never alphanumeric.
#[verifier::external_body]
pub fn is_alphanumeric_char(c: char) -> (r: bool)
    ensures
        r == alphanumeric(c),
        c != ' ' && c != '\t' && c != '\n' && c != '\r' ==> r == other_alphanumeric(c),
{
    c.is_alphanumeric()
}

/// Relies on `char::is_whitespace`: the Unicode White_Space property, a
/// function of the character alone; space, tab, newline and carriage return
/// are documented members.
#[verifier::external_body]
pub fn is_whitespace_char(c: char) -> (r: bool)
    ensures
        r == whitespace(c),
        c != ' ' && c != '\t' && c != '\n' && c != '\r' ==> r == other_whitespace(c),
{
    c.is_whitespace()
}

/// Decides `ascii_punctuation` by the four code point ranges.
pub fn is_ascii_punctuation_char(c: char) -> (r: bool)
    ensures
        r == ascii_punctuation(c),
{
    let n = c as u32;
    (0x21 <= n && n <= 0x2f) || (0x3a <= n && n <= 0x40) || (0x5b <= n && n <= 0x60) || (0x7b <= n
        && n <= 0x7e)
}

/// Decides `word_char`.
pub fn is_word_char(c: char) -> (r: bool)
    ensures
        r == word_char(c),
{
    is_alphanumeric_char(c) || is_ascii_punctuation_char(c)
}

/// Relies on `String::push`: appends the character to the end of the string.
#[verifier::external_body]
pub(crate) fn push_char(s: &mut String, c: char)
    ensures
        final(s)@ == old(s)@.push(c),
{
    s.push(c)
}

/// The characters of `s`, as an owned buffer.
pub fn text_chars(s: &str) -> (v: Vec<char>)
    ensures
        v@ == s@,
{
    let n = s.unicode_len();
    let mut v: Vec<char> = Vec::new();
    let mut i: usize = 0;
    while i < n
        invariant
            i <= n,
            n == s@.len(),
            v@ == s@.subrange(0, i as int),
        decreases n - i,
    {
        v.push(s.get_char(i));
        i = i + 1;
        proof {
            assert(v@ =~= s@.subrange(0, i as int));
        }
    }
    proof {
        assert(v@ =~= s@);
    }
    v
}

/// An owned string holding the characters `v[from..to]`.
pub fn string_of_range(v: &Vec<char>, from: usize, to: usize) -> (s: String)
    requires
        from <= to <= v@.len(),
    ensures
        s@ == v@.subrange(from as int, to as int),
{
    let mut s = String::new();
    let mut i: usize = from;
    while i < to
        invariant
            from <= i <= to <= v@.len(),
            s@ == v@.subrange(from as int, i as int),
        decreases to - i,
    {
        push_char(&mut s, v[i]);
        i = i + 1;
        proof {
            assert(s@ =~= v@.subrange(from as int, i as int));
        }
    }
    s
}

/// An owned string holding the single character `c`.
pub fn string_of_char(c: char) -> (s: String)
    ensures
        s@ == seq![c],
{
    let mut s = String::new();
    push_char(&mut s, c);
    proof {
        assert(s@ =~= seq![c]);
    }
    s
}

} // verus!
