//! A line-oriented tokenizer for the same Markdown dialect.
//!
//! Where the character-level lexer works one character at a time, this
//! tokenizer classifies whole lines: front matter and code blocks are
//! delimited by `---` and fence lines, a line starting with `#` is a heading,
//! and any other line is split into words, recognizing `` ` ``-delimited
//! inline code and `**`-delimited bold runs.  `tokenize_spec` defines the
//! exact token sequence, including the quirks of the scheme: fence lines are
//! also word-tokenized, an unterminated front matter block is dropped while
//! an unterminated code block is kept, a `---` line takes priority even
//! inside an open code block, and a bold run that reaches the end of its
//! line right after a lone `*` closes there.

use crate::chars::{is_whitespace_char, push_char, string_of_range, text_chars, whitespace};
use crate::parser::{dashes, fence, starts_fence};
use vstd::prelude::*;
use vstd::string::StrSliceExecFns;
use vstd::string::StringExecFns;

verus! {

/// The kind of an inline word: plain text, `` ` ``-delimited inline code, or
/// `**`/`*`-delimited emphasis.
#[derive(Clone, Copy, Debug, PartialEq, Eq, Structural)]
pub enum WordKind {
    Normal,
    InlineCode,
    Bold,
    Italic,
}

/// The kind of a multi-line block.
#[derive(Clone, Copy, Debug, PartialEq, Eq, Structural)]
pub enum BlockKind {
    CodeBlock,
    FrontMatter,
}

/// An inline word with its emphasis kind.
#[derive(Debug, PartialEq)]
pub struct WordToken {
    pub text: String,
    pub kind: WordKind,
}

/// A heading line: the number of `#` markers and the trimmed rest.
#[derive(Debug, PartialEq)]
pub struct LineToken {
    pub level: usize,
    pub content: String,
}

/// A multi-line block with its verbatim content.
#[derive(Debug, PartialEq)]
pub struct BlockToken {
    pub kind: BlockKind,
    pub content: String,
}

/// A line-level token: an inline word, a heading line, or a block.
#[derive(Debug, PartialEq)]
pub enum Token {
    Word(WordToken),
    Line(LineToken),
    Block(BlockToken),
}

/// A line-level token as the specification sees it.
pub ghost enum TokModel {
    Word { text: Seq<char>, kind: WordKind },
    Line { level: nat, content: Seq<char> },
    Block { kind: BlockKind, content: Seq<char> },
}

impl View for Token {
    type V = TokModel;

    open spec fn view(&self) -> TokModel {
        match self {
            Token::Word(w) => TokModel::Word { text: w.text@, kind: w.kind },
            Token::Line(l) => TokModel::Line { level: l.level as nat, content: l.content@ },
            Token::Block(b) => TokModel::Block { kind: b.kind, content: b.content@ },
        }
    }
}

impl DeepView for Token {
    type V = TokModel;

    open spec fn deep_view(&self) -> TokModel {
        self.view()
    }
}

impl Token {
    /// Is this an inline word token?
    pub fn is_word(&self) -> (r: bool)
        ensures
            r == (self@ is Word),
    {
        match self {
            Token::Word(_) => true,
            _ => false,
        }
    }

    /// Is this a heading line token?
    pub fn is_line(&self) -> (r: bool)
        ensures
            r == (self@ is Line),
    {
        match self {
            Token::Line(_) => true,
            _ => false,
        }
    }

    /// Is this a block token?
    pub fn is_block(&self) -> (r: bool)
        ensures
            r == (self@ is Block),
    {
        match self {
            Token::Block(_) => true,
            _ => false,
        }
    }
}

/// `s` with its leading white space removed.
pub open spec fn trim_start_spec(s: Seq<char>) -> Seq<char>
    decreases s.len(),
{
    if s.len() == 0 {
        s
    } else if whitespace(s[0]) {
        trim_start_spec(s.drop_first())
    } else {
        s
    }
}

/// `s` with its trailing white space removed.
pub open spec fn trim_end_spec(s: Seq<char>) -> Seq<char>
    decreases s.len(),
{
    if s.len() == 0 {
        s
    } else if whitespace(s[s.len() - 1]) {
        trim_end_spec(s.drop_last())
    } else {
        s
    }
}

/// `s` with white space removed from both ends.
pub open spec fn trim_spec(s: Seq<char>) -> Seq<char> {
    trim_end_spec(trim_start_spec(s))
}

pub proof fn lemma_trim_start_is(s: Seq<char>, k: int)
    requires
        0 <= k <= s.len(),
        forall|m: int| 0 <= m < k ==> whitespace(s[m]),
        k == s.len() || !whitespace(s[k]),
    ensures
        trim_start_spec(s) == s.subrange(k, s.len() as int),
    decreases k,
{
    if k == 0 {
        if s.len() == 0 {
            assert(s.subrange(0, s.len() as int) =~= s);
        } else {
            assert(s.subrange(0, s.len() as int) =~= s);
        }
    } else {
        let d = s.drop_first();
        assert(forall|m: int| 0 <= m < k - 1 ==> whitespace(#[trigger] d[m]));
        assert(k - 1 == d.len() || !whitespace(d[k - 1]));
        lemma_trim_start_is(d, k - 1);
        assert(d.subrange(k - 1, d.len() as int) =~= s.subrange(k, s.len() as int));
    }
}

pub proof fn lemma_trim_end_is(s: Seq<char>, k: int)
    requires
        0 <= k <= s.len(),
        forall|m: int| k <= m < s.len() ==> whitespace(s[m]),
        k == 0 || !whitespace(s[k - 1]),
    ensures
        trim_end_spec(s) == s.subrange(0, k),
    decreases s.len(),
{
    if k == s.len() {
        if s.len() == 0 {
            assert(s.subrange(0, k) =~= s);
        } else {
            assert(s.subrange(0, k) =~= s);
        }
    } else {
        let d = s.drop_last();
        assert(whitespace(s[s.len() - 1]));
        assert(forall|m: int| k <= m < d.len() ==> whitespace(#[trigger] d[m]));
        lemma_trim_end_is(d, k);
        assert(d.subrange(0, k) =~= s.subrange(0, k));
    }
}

/// The number of leading `#` characters of `s` from index `i` on.
pub open spec fn hash_run_end(s: Seq<char>, i: int) -> int
    decreases s.len() - i,
    when 0 <= i <= s.len()
{
    if i >= s.len() {
        i
    } else if s[i] == '#' {
        hash_run_end(s, i + 1)
    } else {
        i
    }
}

pub proof fn lemma_hash_run_end_is(s: Seq<char>, i: int, k: int)
    requires
        0 <= i <= k <= s.len(),
        forall|m: int| i <= m < k ==> s[m] == '#',
        k == s.len() || s[k] != '#',
    ensures
        hash_run_end(s, i) == k,
    decreases k - i,
{
    if i < k {
        lemma_hash_run_end_is(s, i + 1, k);
    }
}

/// The heading token of a line starting with `#`: the marker count and the
/// trimmed rest of the line.
pub open spec fn heading_line(s: Seq<char>) -> TokModel {
    let level = hash_run_end(s, 0);
    TokModel::Line { level: level as nat, content: trim_spec(s.subrange(level, s.len() as int)) }
}

/// The index of the `` ` `` closing an inline code run scanned from `j`, or
/// the end of the line.
pub open spec fn backtick_close(s: Seq<char>, j: int) -> int
    decreases s.len() - j,
    when 0 <= j <= s.len()
{
    if j >= s.len() {
        j
    } else if s[j] == '`' {
        j
    } else {
        backtick_close(s, j + 1)
    }
}

pub proof fn lemma_backtick_close_is(s: Seq<char>, j: int, k: int)
    requires
        0 <= j <= k <= s.len(),
        forall|m: int| j <= m < k ==> s[m] != '`',
        k == s.len() || s[k] == '`',
    ensures
        backtick_close(s, j) == k,
    decreases k - j,
{
    if j < k {
        lemma_backtick_close_is(s, j + 1, k);
    }
}

/// A bold run scanned from `j`: its content and the index after its `**`
/// terminator.  A single `*` is dropped and the character after it kept; a
/// lone `*` at the end of the line closes the run.
pub open spec fn bold_scan(s: Seq<char>, j: int) -> (Seq<char>, int)
    decreases s.len() - j,
    when 0 <= j <= s.len()
{
    if j >= s.len() {
        (Seq::empty(), j)
    } else if s[j] == '*' {
        if j + 1 < s.len() && s[j + 1] == '*' {
            (Seq::empty(), j + 2)
        } else if j + 1 < s.len() {
            let r = bold_scan(s, j + 2);
            (seq![s[j + 1]] + r.0, r.1)
        } else {
            (Seq::empty(), j + 1)
        }
    } else {
        let r = bold_scan(s, j + 1);
        (seq![s[j]] + r.0, r.1)
    }
}

pub proof fn lemma_bold_scan_bounds(s: Seq<char>, j: int)
    requires
        0 <= j <= s.len(),
    ensures
        j <= bold_scan(s, j).1 <= s.len(),
    decreases s.len() - j,
{
    if j < s.len() && s[j] == '*' {
        if j + 1 < s.len() && s[j + 1] == '*' {
        } else if j + 1 < s.len() {
            lemma_bold_scan_bounds(s, j + 2);
        }
    } else if j < s.len() {
        lemma_bold_scan_bounds(s, j + 1);
    }
}

/// One word token if `t` is non-empty, nothing otherwise.
pub open spec fn opt_word(t: Seq<char>, kind: WordKind) -> Seq<TokModel> {
    if t.len() > 0 {
        seq![TokModel::Word { text: t, kind }]
    } else {
        Seq::empty()
    }
}

/// The word tokens of a line from index `i`, with `word` the pending word
/// accumulator and `italic` the open-emphasis flag.  A backtick collects an
/// inline code run without touching the accumulator; a doubled star collects
/// a bold run; a single star flushes the accumulator and toggles emphasis
/// (but is dropped at the very end of the line); a space flushes the
/// accumulator; any other character extends it.
pub open spec fn words_rec(s: Seq<char>, i: int, word: Seq<char>, italic: bool) -> Seq<TokModel>
    decreases s.len() - i,
    when 0 <= i <= s.len()
{
    if i >= s.len() {
        opt_word(word, WordKind::Normal)
    } else if s[i] == '`' {
        let close = backtick_close(s, i + 1);
        proof {
            lemma_backtick_close_is_bounds(s, i + 1);
        }
        let next = if close < s.len() {
            close + 1
        } else {
            close
        };
        opt_word(s.subrange(i + 1, close), WordKind::InlineCode) + words_rec(s, next, word, italic)
    } else if s[i] == '*' {
        if i + 1 < s.len() {
            if s[i + 1] == '*' {
                let (content, next) = bold_scan(s, i + 2);
                proof {
                    lemma_bold_scan_bounds(s, i + 2);
                }
                opt_word(content, WordKind::Bold) + words_rec(s, next, word, italic)
            } else if italic {
                opt_word(word, WordKind::Italic) + words_rec(s, i + 1, Seq::empty(), false)
            } else {
                opt_word(word, WordKind::Normal) + words_rec(s, i + 1, Seq::empty(), true)
            }
        } else {
            words_rec(s, i + 1, word, italic)
        }
    } else if s[i] == ' ' {
        opt_word(word, WordKind::Normal) + words_rec(s, i + 1, Seq::empty(), italic)
    } else {
        words_rec(s, i + 1, word.push(s[i]), italic)
    }
}

pub proof fn lemma_backtick_close_is_bounds(s: Seq<char>, j: int)
    requires
        0 <= j <= s.len(),
    ensures
        j <= backtick_close(s, j) <= s.len(),
    decreases s.len() - j,
{
    if j < s.len() && s[j] != '`' {
        lemma_backtick_close_is_bounds(s, j + 1);
    }
}

/// The word tokens of a whole line.
pub open spec fn words_spec(s: Seq<char>) -> Seq<TokModel> {
    words_rec(s, 0, Seq::empty(), false)
}

/// The tokens a single line contributes once block bookkeeping is done: a
/// heading if it starts with `#`, its words otherwise.
pub open spec fn line_tokens(s: Seq<char>) -> Seq<TokModel> {
    if s.len() > 0 && s[0] == '#' {
        seq![heading_line(s)]
    } else {
        words_spec(s)
    }
}

/// The token stream from line `i` on, with the tokenizer's block state:
/// whether a code block or front matter block is open and the content
/// accumulated for each.  Front matter delimiters take priority even inside
/// an open code block; fence lines toggle the code block and are then word
/// tokenized themselves; at the end of the input an open code block is
/// emitted and open front matter is dropped.
pub open spec fn tokenize_rec(
    lines: Seq<Seq<char>>,
    i: int,
    in_cb: bool,
    in_fm: bool,
    cb: Seq<char>,
    fm: Seq<char>,
) -> Seq<TokModel>
    decreases lines.len() - i,
    when 0 <= i <= lines.len()
{
    if i >= lines.len() {
        if in_cb {
            seq![TokModel::Block { kind: BlockKind::CodeBlock, content: cb }]
        } else {
            Seq::empty()
        }
    } else {
        let line = lines[i];
        if in_fm {
            if trim_start_spec(line) == dashes() {
                seq![TokModel::Block { kind: BlockKind::FrontMatter, content: fm }]
                    + tokenize_rec(lines, i + 1, in_cb, false, cb, Seq::empty())
            } else {
                tokenize_rec(lines, i + 1, in_cb, true, cb, fm + line + seq!['\n'])
            }
        } else if trim_start_spec(line) == dashes() {
            tokenize_rec(lines, i + 1, in_cb, true, cb, fm)
        } else if starts_fence(trim_start_spec(line)) {
            if in_cb {
                seq![TokModel::Block { kind: BlockKind::CodeBlock, content: cb }] + line_tokens(
                    line,
                ) + tokenize_rec(lines, i + 1, false, false, Seq::empty(), fm)
            } else {
                line_tokens(line) + tokenize_rec(lines, i + 1, true, false, cb, fm)
            }
        } else if in_cb {
            tokenize_rec(lines, i + 1, true, false, cb + line + seq!['\n'], fm)
        } else {
            line_tokens(line) + tokenize_rec(lines, i + 1, false, false, cb, fm)
        }
    }
}

/// The token stream of a sequence of lines.
pub open spec fn tokenize_spec(lines: Seq<Seq<char>>) -> Seq<TokModel> {
    tokenize_rec(lines, 0, false, false, Seq::empty(), Seq::empty())
}

/// The index where the leading white space of `cs` ends.
fn first_non_ws(cs: &Vec<char>) -> (k: usize)
    ensures
        k <= cs@.len(),
        trim_start_spec(cs@) == cs@.subrange(k as int, cs@.len() as int),
        k == cs@.len() || !whitespace(cs@[k as int]),
{
    let mut k: usize = 0;
    while k < cs.len() && is_whitespace_char(cs[k])
        invariant
            k <= cs@.len(),
            forall|m: int| 0 <= m < k ==> whitespace(cs@[m]),
        decreases cs@.len() - k,
    {
        k = k + 1;
    }
    proof {
        lemma_trim_start_is(cs@, k as int);
    }
    k
}

/// Is the line, leading white space aside, exactly `---`?
fn trimmed_is_dashes(cs: &Vec<char>) -> (r: bool)
    ensures
        r == (trim_start_spec(cs@) == dashes()),
{
    let k = first_non_ws(cs);
    let ghost t = trim_start_spec(cs@);
    if cs.len() - k == 3 && cs[k] == '-' && cs[k + 1] == '-' && cs[k + 2] == '-' {
        proof {
            assert(t =~= dashes());
        }
        true
    } else {
        proof {
            if t == dashes() {
                assert(t.len() == 3);
                assert(t == cs@.subrange(k as int, cs@.len() as int));
                assert(cs@.len() - k == 3);
                assert(cs@[k as int] == t[0]);
                assert(cs@[k + 1] == t[1]);
                assert(cs@[k + 2] == t[2]);
            }
        }
        false
    }
}

/// Does the line, leading white space aside, start with three backticks?
fn trimmed_starts_fence(cs: &Vec<char>) -> (r: bool)
    ensures
        r == starts_fence(trim_start_spec(cs@)),
{
    let k = first_non_ws(cs);
    let ghost t = trim_start_spec(cs@);
    if cs.len() - k >= 3 && cs[k] == '`' && cs[k + 1] == '`' && cs[k + 2] == '`' {
        proof {
            assert(t.subrange(0, 3) =~= fence());
        }
        true
    } else {
        proof {
            if starts_fence(t) {
                assert(t.subrange(0, 3)[0] == cs@[k as int]);
                assert(t.subrange(0, 3)[1] == cs@[k + 1]);
                assert(t.subrange(0, 3)[2] == cs@[k + 2]);
            }
        }
        false
    }
}

/// The characters `cs[from..]`, trimmed of white space at both ends.
fn trim_range(cs: &Vec<char>, from: usize) -> (content: String)
    requires
        from <= cs@.len(),
    ensures
        content@ == trim_spec(cs@.subrange(from as int, cs@.len() as int)),
{
    let ghost u = cs@.subrange(from as int, cs@.len() as int);
    let mut a = from;
    while a < cs.len() && is_whitespace_char(cs[a])
        invariant
            from <= a <= cs@.len(),
            forall|m: int| from <= m < a ==> whitespace(cs@[m]),
        decreases cs@.len() - a,
    {
        a = a + 1;
    }
    proof {
        assert(forall|m: int| 0 <= m < a - from ==> whitespace(#[trigger] u[m]));
        lemma_trim_start_is(u, a - from);
        assert(u.subrange(a - from, u.len() as int) =~= cs@.subrange(a as int, cs@.len() as int));
    }
    let ghost v = cs@.subrange(a as int, cs@.len() as int);
    let mut b = cs.len();
    while b > a && is_whitespace_char(cs[b - 1])
        invariant
            a <= b <= cs@.len(),
            forall|m: int| b <= m < cs@.len() ==> whitespace(cs@[m]),
        decreases b,
    {
        b = b - 1;
    }
    proof {
        assert(forall|m: int| b - a <= m < v.len() ==> whitespace(#[trigger] v[m]));
        lemma_trim_end_is(v, b - a);
        assert(v.subrange(0, b - a) =~= cs@.subrange(a as int, b as int));
    }
    string_of_range(cs, a, b)
}

/// Appends `word` (if non-empty) to the token list with the given kind and
/// empties it.
fn push_word(words: &mut Vec<Token>, word: &mut String, kind: WordKind)
    ensures
        final(words).deep_view() == old(words).deep_view() + opt_word(old(word)@, kind),
        final(word)@ == Seq::<char>::empty(),
{
    let ghost before = words.deep_view();
    let ghost w = word@;
    if !word.as_str().is_empty() {
        words.push(Token::Word(WordToken { text: word.clone(), kind }));
        *word = String::new();
        proof {
            assert(words.deep_view() =~= before + opt_word(w, kind));
        }
    } else {
        proof {
            assert(words.deep_view() =~= before + opt_word(w, kind));
        }
    }
}

/// Tokenizes a line into individual words, identifying inline code, bold,
/// and normal words.
fn tokenize_words(line: &str) -> (words: Vec<Token>)
    ensures
        words.deep_view() == words_spec(line@),
{
    let ghost s = line@;
    let cs = text_chars(line);
    let n = cs.len();
    let mut words: Vec<Token> = Vec::new();
    let mut word = String::new();
    let mut italic = false;
    let mut i: usize = 0;
    while i < n
        invariant
            cs@ == s,
            n == s.len(),
            i <= n,
            words_spec(s) =~= words.deep_view() + words_rec(s, i as int, word@, italic),
        decreases n - i,
    {
        let ghost deep0 = words.deep_view();
        let c = cs[i];
        if c == '`' {
            let mut content = String::new();
            let mut j = i + 1;
            while j < n && cs[j] != '`'
                invariant
                    cs@ == s,
                    n == s.len(),
                    i + 1 <= j <= n,
                    forall|m: int| i + 1 <= m < j ==> s[m] != '`',
                    content@ == s.subrange(i + 1, j as int),
                decreases n - j,
            {
                push_char(&mut content, cs[j]);
                proof {
                    assert(content@ =~= s.subrange(i + 1, j + 1));
                }
                j = j + 1;
            }
            proof {
                lemma_backtick_close_is(s, i + 1, j as int);
            }
            let next = if j < n {
                j + 1
            } else {
                j
            };
            let ghost cnt = content@;
            push_word(&mut words, &mut content, WordKind::InlineCode);
            i = next;
            proof {
                assert(deep0 + (opt_word(cnt, WordKind::InlineCode) + words_rec(
                    s,
                    i as int,
                    word@,
                    italic,
                )) =~= words.deep_view() + words_rec(s, i as int, word@, italic));
            }
        } else if c == '*' {
            if i + 1 < n {
                if cs[i + 1] == '*' {
                    let mut content = String::new();
                    let mut j = i + 2;
                    let ghost j0 = j as int;
                    loop
                        invariant_except_break
                            bold_scan(s, j0).0 =~= content@ + bold_scan(s, j as int).0,
                            bold_scan(s, j0).1 == bold_scan(s, j as int).1,
                        invariant
                            cs@ == s,
                            n == s.len(),
                            j0 == i + 2,
                            i + 2 <= j <= n,
                        ensures
                            cs@ == s,
                            n == s.len(),
                            i + 2 <= j <= n,
                            bold_scan(s, j0).0 =~= content@,
                            bold_scan(s, j0).1 == j as int,
                        decreases n - j,
                    {
                        if j >= n {
                            break ;
                        }
                        let ghost jb = j as int;
                        let ghost cb = content@;
                        if cs[j] == '*' {
                            if j + 1 < n && cs[j + 1] == '*' {
                                j = j + 2;
                                break ;
                            } else if j + 1 < n {
                                push_char(&mut content, cs[j + 1]);
                                j = j + 2;
                                proof {
                                    assert(cb + (seq![s[jb + 1]] + bold_scan(s, j as int).0) =~= (
                                    cb + seq![s[jb + 1]]) + bold_scan(s, j as int).0);
                                    assert(content@ =~= cb + seq![s[jb + 1]]);
                                }
                            } else {
                                j = j + 1;
                                break ;
                            }
                        } else {
                            push_char(&mut content, cs[j]);
                            j = j + 1;
                            proof {
                                assert(cb + (seq![s[jb]] + bold_scan(s, j as int).0) =~= (cb
                                    + seq![s[jb]]) + bold_scan(s, j as int).0);
                                assert(content@ =~= cb + seq![s[jb]]);
                            }
                        }
                    }
                    let ghost cnt = content@;
                    push_word(&mut words, &mut content, WordKind::Bold);
                    i = j;
                    proof {
                        assert(deep0 + (opt_word(cnt, WordKind::Bold) + words_rec(
                            s,
                            i as int,
                            word@,
                            italic,
                        )) =~= words.deep_view() + words_rec(s, i as int, word@, italic));
                    }
                } else if italic {
                    let ghost w0 = word@;
                    push_word(&mut words, &mut word, WordKind::Italic);
                    italic = false;
                    i = i + 1;
                    proof {
                        assert(deep0 + (opt_word(w0, WordKind::Italic) + words_rec(
                            s,
                            i as int,
                            Seq::empty(),
                            false,
                        )) =~= words.deep_view() + words_rec(s, i as int, word@, italic));
                    }
                } else {
                    let ghost w0 = word@;
                    push_word(&mut words, &mut word, WordKind::Normal);
                    italic = true;
                    i = i + 1;
                    proof {
                        assert(deep0 + (opt_word(w0, WordKind::Normal) + words_rec(
                            s,
                            i as int,
                            Seq::empty(),
                            true,
                        )) =~= words.deep_view() + words_rec(s, i as int, word@, italic));
                    }
                }
            } else {
                i = i + 1;
            }
        } else if c == ' ' {
            let ghost w0 = word@;
            push_word(&mut words, &mut word, WordKind::Normal);
            i = i + 1;
            proof {
                assert(deep0 + (opt_word(w0, WordKind::Normal) + words_rec(
                    s,
                    i as int,
                    Seq::empty(),
                    italic,
                )) =~= words.deep_view() + words_rec(s, i as int, word@, italic));
            }
        } else {
            push_char(&mut word, c);
            i = i + 1;
        }
    }
    push_word(&mut words, &mut word, WordKind::Normal);
    proof {
        assert(words.deep_view() =~= words_spec(s));
    }
    words
}

/// The tokens of one line once block bookkeeping is done: a heading line or
/// its words.
fn line_tokens_exec(cs: &Vec<char>, line: &str) -> (r: Vec<Token>)
    requires
        cs@ == line@,
    ensures
        r.deep_view() == line_tokens(line@),
{
    let ghost s = line@;
    if cs.len() > 0 && cs[0] == '#' {
        let mut level: usize = 0;
        while level < cs.len() && cs[level] == '#'
            invariant
                cs@ == s,
                level <= s.len(),
                forall|m: int| 0 <= m < level ==> s[m] == '#',
            decreases s.len() - level,
        {
            level = level + 1;
        }
        proof {
            lemma_hash_run_end_is(s, 0, level as int);
        }
        let content = trim_range(cs, level);
        let mut r: Vec<Token> = Vec::new();
        r.push(Token::Line(LineToken { level, content }));
        proof {
            assert(r.deep_view() =~= seq![heading_line(s)]);
        }
        r
    } else {
        tokenize_words(line)
    }
}

/// Tokenizes the lines of a document into words, heading lines and blocks.
pub fn tokenize(lines: &Vec<String>) -> (tokens: Vec<Token>)
    ensures
        tokens.deep_view() == tokenize_spec(lines.deep_view()),
{
    let ghost ls = lines.deep_view();
    let mut tokens: Vec<Token> = Vec::new();
    let mut in_code_block = false;
    let mut in_front_matter = false;
    let mut code_block = String::new();
    let mut front_matter = String::new();
    let mut i: usize = 0;
    while i < lines.len()
        invariant
            ls == lines.deep_view(),
            i <= lines@.len(),
            tokenize_spec(ls) =~= tokens.deep_view() + tokenize_rec(
                ls,
                i as int,
                in_code_block,
                in_front_matter,
                code_block@,
                front_matter@,
            ),
        decreases lines@.len() - i,
    {
        let ghost deep0 = tokens.deep_view();
        let ghost line = ls[i as int];
        let cs = text_chars(lines[i].as_str());
        if in_front_matter {
            if trimmed_is_dashes(&cs) {
                let ghost fm = front_matter@;
                tokens.push(
                    Token::Block(BlockToken { kind: BlockKind::FrontMatter, content: front_matter }),
                );
                front_matter = String::new();
                in_front_matter = false;
                proof {
                    assert(tokens.deep_view() =~= deep0 + seq![
                        TokModel::Block { kind: BlockKind::FrontMatter, content: fm },
                    ]);
                    assert(deep0 + (seq![
                        TokModel::Block { kind: BlockKind::FrontMatter, content: fm },
                    ] + tokenize_rec(ls, i + 1, in_code_block, false, code_block@, Seq::empty()))
                        =~= tokens.deep_view() + tokenize_rec(
                        ls,
                        i + 1,
                        in_code_block,
                        false,
                        code_block@,
                        Seq::empty(),
                    ));
                }
            } else {
                let ghost fm0 = front_matter@;
                front_matter.append(lines[i].as_str());
                push_char(&mut front_matter, '\n');
                proof {
                    assert(front_matter@ =~= fm0 + line + seq!['\n']);
                }
            }
        } else if trimmed_is_dashes(&cs) {
            in_front_matter = true;
        } else if trimmed_starts_fence(&cs) {
            if in_code_block {
                let ghost cb = code_block@;
                tokens.push(
                    Token::Block(BlockToken { kind: BlockKind::CodeBlock, content: code_block }),
                );
                code_block = String::new();
                in_code_block = false;
                let mut lt = line_tokens_exec(&cs, lines[i].as_str());
                let ghost ltd = lt.deep_view();
                tokens.append(&mut lt);
                proof {
                    assert(tokens.deep_view() =~= (deep0 + seq![
                        TokModel::Block { kind: BlockKind::CodeBlock, content: cb },
                    ]) + ltd);
                    assert(deep0 + ((seq![
                        TokModel::Block { kind: BlockKind::CodeBlock, content: cb },
                    ] + line_tokens(line)) + tokenize_rec(
                        ls,
                        i + 1,
                        false,
                        false,
                        Seq::empty(),
                        front_matter@,
                    )) =~= tokens.deep_view() + tokenize_rec(
                        ls,
                        i + 1,
                        false,
                        false,
                        Seq::empty(),
                        front_matter@,
                    ));
                }
            } else {
                in_code_block = true;
                let mut lt = line_tokens_exec(&cs, lines[i].as_str());
                let ghost ltd = lt.deep_view();
                tokens.append(&mut lt);
                proof {
                    assert(tokens.deep_view() =~= deep0 + ltd);
                    assert(deep0 + (line_tokens(line) + tokenize_rec(
                        ls,
                        i + 1,
                        true,
                        false,
                        code_block@,
                        front_matter@,
                    )) =~= tokens.deep_view() + tokenize_rec(
                        ls,
                        i + 1,
                        true,
                        false,
                        code_block@,
                        front_matter@,
                    ));
                }
            }
        } else if in_code_block {
            let ghost cb0 = code_block@;
            code_block.append(lines[i].as_str());
            push_char(&mut code_block, '\n');
            proof {
                assert(code_block@ =~= cb0 + line + seq!['\n']);
            }
        } else {
            let mut lt = line_tokens_exec(&cs, lines[i].as_str());
            let ghost ltd = lt.deep_view();
            tokens.append(&mut lt);
            proof {
                assert(tokens.deep_view() =~= deep0 + ltd);
                assert(deep0 + (line_tokens(line) + tokenize_rec(
                    ls,
                    i + 1,
                    false,
                    false,
                    code_block@,
                    front_matter@,
                )) =~= tokens.deep_view() + tokenize_rec(
                    ls,
                    i + 1,
                    false,
                    false,
                    code_block@,
                    front_matter@,
                ));
            }
        }
        i = i + 1;
    }
    if in_code_block {
        let ghost deep0 = tokens.deep_view();
        let ghost cb = code_block@;
        tokens.push(Token::Block(BlockToken { kind: BlockKind::CodeBlock, content: code_block }));
        proof {
            assert(tokens.deep_view() =~= deep0 + seq![
                TokModel::Block { kind: BlockKind::CodeBlock, content: cb },
            ]);
        }
    } else {
        proof {
            assert(tokens.deep_view() =~= tokens.deep_view() + Seq::<TokModel>::empty());
        }
    }
    tokens
}

} // verus!
