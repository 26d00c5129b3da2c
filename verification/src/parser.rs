//! The recursive-descent parser.
//!
//! `parse_from` is the mathematical definition of one parse pass: a top-level
//! dispatch on the leading token kind, one statement or one error per
//! construct, and recovery after every error so that later constructs are
//! still attempted.  `Parser` is the executable cursor over an owned token
//! buffer; `Parser::parse` returns exactly the statements of `parse_from`
//! when no construct failed, and exactly its errors otherwise.
//!
//! A front matter delimiter line or code fence line that lacks its
//! terminating newline is reported as a recoverable `SyntaxError` like any
//! other malformed construct, so parsing is total: every input yields either
//! the full statement list or a non-empty diagnostic list.

use crate::lexer::texts_concat;
use crate::stmt::{Stmt, StmtModel};
use crate::tokens::{Token, TokenKind, TokenModel};
use vstd::prelude::*;
use vstd::string::StrSliceExecFns;
use vstd::string::StringExecFns;

verus! {

/// A diagnostic as the specification sees it: message and 1-based position.
pub ghost struct ErrorModel {
    pub msg: Seq<char>,
    pub line: nat,
    pub col: nat,
}

/// A position-tagged diagnostic for one malformed construct.
#[derive(Debug, PartialEq)]
pub struct SyntaxError {
    msg: String,
    pos: (usize, usize),
}

impl Clone for SyntaxError {
    fn clone(&self) -> (r: Self)
        ensures
            r == *self,
    {
        SyntaxError { msg: self.msg.clone(), pos: (self.pos.0, self.pos.1) }
    }
}

impl View for SyntaxError {
    type V = ErrorModel;

    closed spec fn view(&self) -> ErrorModel {
        ErrorModel { msg: self.msg@, line: self.pos.0 as nat, col: self.pos.1 as nat }
    }
}

impl DeepView for SyntaxError {
    type V = ErrorModel;

    open spec fn deep_view(&self) -> ErrorModel {
        self.view()
    }
}

impl SyntaxError {
    /// Packs a message and a position into a diagnostic.
    pub fn new(msg: String, pos: (usize, usize)) -> (e: SyntaxError)
        ensures
            e@ == (ErrorModel { msg: msg@, line: pos.0 as nat, col: pos.1 as nat }),
    {
        SyntaxError { msg, pos }
    }
}

/// The error reported when heading markers are not followed by a space.
pub open spec fn msg_heading_space() -> Seq<char> {
    "Expected space after heading markers"@
}

/// The error reported when a front matter delimiter line has no newline.
pub open spec fn msg_front_matter_newline() -> Seq<char> {
    "Expected newline after front matter delimiter"@
}

/// The error reported when a code fence line has no newline.
pub open spec fn msg_code_block_newline() -> Seq<char> {
    "Expected newline after code block fence"@
}

/// The error reported when a code fence carries a backtick in its tag.
pub open spec fn msg_invalid_code_block() -> Seq<char> {
    "Invalid code block"@
}

/// The error reported for a token matching no construct.
pub open spec fn msg_unexpected_token() -> Seq<char> {
    "Unexpected token: Illegal"@
}

/// The front matter delimiter, `---`.
pub open spec fn dashes() -> Seq<char> {
    seq!['-', '-', '-']
}

/// The code fence delimiter, three backticks.
pub open spec fn fence() -> Seq<char> {
    seq!['`', '`', '`']
}

/// Does `t` open a code block, that is, start with three backticks?
pub open spec fn starts_fence(t: Seq<char>) -> bool {
    t.len() >= 3 && t.subrange(0, 3) == fence()
}

/// The position of a token, as an error position.
pub open spec fn error_at(msg: Seq<char>, t: TokenModel) -> ErrorModel {
    ErrorModel { msg, line: t.line, col: t.col }
}

/// The first index at or after `i` whose token is not a `Hashtag`.
pub open spec fn hashtag_run_end(ts: Seq<TokenModel>, i: int) -> int
    decreases ts.len() - i,
    when 0 <= i <= ts.len()
{
    if i >= ts.len() {
        i
    } else if ts[i].kind == TokenKind::Hashtag {
        hashtag_run_end(ts, i + 1)
    } else {
        i
    }
}

/// The first index at or after `i` whose token is not a `Whitespace`.
pub open spec fn whitespace_run_end(ts: Seq<TokenModel>, i: int) -> int
    decreases ts.len() - i,
    when 0 <= i <= ts.len()
{
    if i >= ts.len() {
        i
    } else if ts[i].kind == TokenKind::Whitespace {
        whitespace_run_end(ts, i + 1)
    } else {
        i
    }
}

/// The first index at or after `i` whose token is not a `Newline`.
pub open spec fn newline_run_end(ts: Seq<TokenModel>, i: int) -> int
    decreases ts.len() - i,
    when 0 <= i <= ts.len()
{
    if i >= ts.len() {
        i
    } else if ts[i].kind == TokenKind::Newline {
        newline_run_end(ts, i + 1)
    } else {
        i
    }
}

/// The first index at or after `i` whose token is a `Newline`.
pub open spec fn line_end(ts: Seq<TokenModel>, i: int) -> int
    decreases ts.len() - i,
    when 0 <= i <= ts.len()
{
    if i >= ts.len() {
        i
    } else if ts[i].kind == TokenKind::Newline {
        i
    } else {
        line_end(ts, i + 1)
    }
}

/// The first index at or after `i` whose token text is exactly `d`.
pub open spec fn delimiter_end(ts: Seq<TokenModel>, i: int, d: Seq<char>) -> int
    decreases ts.len() - i,
    when 0 <= i <= ts.len()
{
    if i >= ts.len() {
        i
    } else if ts[i].text == d {
        i
    } else {
        delimiter_end(ts, i + 1, d)
    }
}

pub proof fn lemma_hashtag_run_end_bounds(ts: Seq<TokenModel>, i: int)
    requires
        0 <= i <= ts.len(),
    ensures
        i <= hashtag_run_end(ts, i) <= ts.len(),
    decreases ts.len() - i,
{
    if i < ts.len() && ts[i].kind == TokenKind::Hashtag {
        lemma_hashtag_run_end_bounds(ts, i + 1);
    }
}

pub proof fn lemma_whitespace_run_end_bounds(ts: Seq<TokenModel>, i: int)
    requires
        0 <= i <= ts.len(),
    ensures
        i <= whitespace_run_end(ts, i) <= ts.len(),
    decreases ts.len() - i,
{
    if i < ts.len() && ts[i].kind == TokenKind::Whitespace {
        lemma_whitespace_run_end_bounds(ts, i + 1);
    }
}

pub proof fn lemma_newline_run_end_bounds(ts: Seq<TokenModel>, i: int)
    requires
        0 <= i <= ts.len(),
    ensures
        i <= newline_run_end(ts, i) <= ts.len(),
    decreases ts.len() - i,
{
    if i < ts.len() && ts[i].kind == TokenKind::Newline {
        lemma_newline_run_end_bounds(ts, i + 1);
    }
}

pub proof fn lemma_line_end_bounds(ts: Seq<TokenModel>, i: int)
    requires
        0 <= i <= ts.len(),
    ensures
        i <= line_end(ts, i) <= ts.len(),
    decreases ts.len() - i,
{
    if i < ts.len() && ts[i].kind != TokenKind::Newline {
        lemma_line_end_bounds(ts, i + 1);
    }
}

pub proof fn lemma_delimiter_end_bounds(ts: Seq<TokenModel>, i: int, d: Seq<char>)
    requires
        0 <= i <= ts.len(),
    ensures
        i <= delimiter_end(ts, i, d) <= ts.len(),
    decreases ts.len() - i,
{
    if i < ts.len() && ts[i].text != d {
        lemma_delimiter_end_bounds(ts, i + 1, d);
    }
}

/// The heading construct.  `first` is the already-consumed leading `Hashtag`
/// token and `p` the index after it.  The hashtag run fixes the level; one
/// whitespace token is required, and the line up to the next newline is the
/// content.  Without the whitespace the heading is rejected at the position
/// of its first marker, and parsing resumes right after the run.
pub open spec fn heading_spec(ts: Seq<TokenModel>, p: int, first: TokenModel) -> (Result<
    StmtModel,
    ErrorModel,
>, int)
    recommends
        0 <= p <= ts.len(),
{
    let run = hashtag_run_end(ts, p);
    if run < ts.len() && ts[run].kind == TokenKind::Whitespace {
        let le = line_end(ts, run + 1);
        (
            Ok(
                StmtModel::Heading {
                    level: (run - p + 1) as nat,
                    content: texts_concat(ts.subrange(run + 1, le)),
                },
            ),
            le,
        )
    } else {
        (Err(error_at(msg_heading_space(), first)), run)
    }
}

/// The front matter construct.  `p` is the index after the consumed `---`
/// token.  Trailing whitespace and one newline close the opening line; every
/// following token is content, verbatim, until a token whose text is `---`.
/// At the end of the input the block closes silently; a missing newline is a
/// recoverable error at the offending token.
pub open spec fn front_matter_spec(ts: Seq<TokenModel>, p: int) -> (Result<
    StmtModel,
    ErrorModel,
>, int)
    recommends
        0 <= p <= ts.len(),
{
    let w = whitespace_run_end(ts, p);
    if w >= ts.len() {
        (Ok(StmtModel::FrontMatter { content: Seq::empty() }), w)
    } else if ts[w].kind == TokenKind::Newline {
        let e = delimiter_end(ts, w + 1, dashes());
        (
            Ok(StmtModel::FrontMatter { content: texts_concat(ts.subrange(w + 1, e)) }),
            if e < ts.len() {
                e + 1
            } else {
                e
            },
        )
    } else {
        (Err(error_at(msg_front_matter_newline(), ts[w])), w + 1)
    }
}

/// The code block construct.  `first` is the consumed fence token and `p`
/// the index after it.  Text after the three backticks is the language tag;
/// a backtick inside the tag rejects the block at the fence's position.
/// The opening line then closes like front matter, and content runs until a
/// token whose text is exactly three backticks.
pub open spec fn code_block_spec(ts: Seq<TokenModel>, p: int, first: TokenModel) -> (Result<
    StmtModel,
    ErrorModel,
>, int)
    recommends
        0 <= p <= ts.len(),
        starts_fence(first.text),
{
    let tag = first.text.subrange(3, first.text.len() as int);
    if exists|k: int| 0 <= k < tag.len() && tag[k] == '`' {
        (Err(error_at(msg_invalid_code_block(), first)), p)
    } else {
        let language = if tag.len() > 0 {
            Some(tag)
        } else {
            None
        };
        let w = whitespace_run_end(ts, p);
        if w >= ts.len() {
            (Ok(StmtModel::CodeBlock { language, content: Seq::empty() }), w)
        } else if ts[w].kind == TokenKind::Newline {
            let e = delimiter_end(ts, w + 1, fence());
            (
                Ok(
                    StmtModel::CodeBlock {
                        language,
                        content: texts_concat(ts.subrange(w + 1, e)),
                    },
                ),
                if e < ts.len() {
                    e + 1
                } else {
                    e
                },
            )
        } else {
            (Err(error_at(msg_code_block_newline(), ts[w])), w + 1)
        }
    }
}

/// The words after a paragraph's first token, and the index where the
/// paragraph ends: whitespace is discarded, a single newline is soft-wrapped,
/// a blank line (two consecutive newlines) or the end of input stops it, and
/// every other token is kept in order.
pub open spec fn paragraph_rec(ts: Seq<TokenModel>, j: int) -> (Seq<TokenModel>, int)
    decreases ts.len() - j,
    when 0 <= j <= ts.len()
{
    if j >= ts.len() {
        (Seq::empty(), j)
    } else if ts[j].kind == TokenKind::Newline {
        if j + 1 < ts.len() && ts[j + 1].kind == TokenKind::Newline {
            (Seq::empty(), j + 1)
        } else {
            paragraph_rec(ts, j + 1)
        }
    } else if ts[j].kind == TokenKind::Whitespace {
        paragraph_rec(ts, j + 1)
    } else {
        let r = paragraph_rec(ts, j + 1);
        (seq![ts[j]] + r.0, r.1)
    }
}

pub proof fn lemma_paragraph_rec_bounds(ts: Seq<TokenModel>, j: int)
    requires
        0 <= j <= ts.len(),
    ensures
        j <= paragraph_rec(ts, j).1 <= ts.len(),
    decreases ts.len() - j,
{
    if j < ts.len() {
        if ts[j].kind == TokenKind::Newline {
            if !(j + 1 < ts.len() && ts[j + 1].kind == TokenKind::Newline) {
                lemma_paragraph_rec_bounds(ts, j + 1);
            }
        } else {
            lemma_paragraph_rec_bounds(ts, j + 1);
        }
    }
}

/// The paragraph construct: the consumed leading token followed by the words
/// of `paragraph_rec`.
pub open spec fn paragraph_spec(ts: Seq<TokenModel>, p: int, first: TokenModel) -> (StmtModel, int)
    recommends
        0 <= p <= ts.len(),
{
    let r = paragraph_rec(ts, p);
    (StmtModel::Paragraph { words: seq![first] + r.0 }, r.1)
}

/// The outcome of a parse pass: every statement and every diagnostic, in
/// input order.
pub ghost struct ParseOut {
    pub stmts: Seq<StmtModel>,
    pub errs: Seq<ErrorModel>,
}

/// One parse pass from index `i`: dispatch on the leading token's kind, then
/// the construct's statement or error followed by the rest of the pass.
pub open spec fn parse_from(ts: Seq<TokenModel>, i: int) -> ParseOut
    decreases ts.len() - i,
    when 0 <= i <= ts.len()
{
    if i >= ts.len() {
        ParseOut { stmts: Seq::empty(), errs: Seq::empty() }
    } else if ts[i].kind == TokenKind::Hashtag {
        let (r, next) = heading_spec(ts, i + 1, ts[i]);
        proof {
            lemma_hashtag_run_end_bounds(ts, i + 1);
            if hashtag_run_end(ts, i + 1) < ts.len() && ts[hashtag_run_end(ts, i + 1)].kind
                == TokenKind::Whitespace {
                lemma_line_end_bounds(ts, hashtag_run_end(ts, i + 1) + 1);
            }
        }
        parse_cons(r, parse_from(ts, next))
    } else if ts[i].kind == TokenKind::Word || ts[i].kind == TokenKind::Whitespace {
        if ts[i].text == dashes() {
            let (r, next) = front_matter_spec(ts, i + 1);
            proof {
                lemma_front_matter_next_bounds(ts, i + 1);
            }
            parse_cons(r, parse_from(ts, next))
        } else if starts_fence(ts[i].text) {
            let (r, next) = code_block_spec(ts, i + 1, ts[i]);
            proof {
                lemma_front_matter_next_bounds(ts, i + 1);
                lemma_whitespace_run_end_bounds(ts, i + 1);
                if whitespace_run_end(ts, i + 1) < ts.len() && ts[whitespace_run_end(
                    ts,
                    i + 1,
                )].kind == TokenKind::Newline {
                    lemma_delimiter_end_bounds(ts, whitespace_run_end(ts, i + 1) + 1, fence());
                }
            }
            parse_cons(r, parse_from(ts, next))
        } else {
            let (s, next) = paragraph_spec(ts, i + 1, ts[i]);
            proof {
                lemma_paragraph_rec_bounds(ts, i + 1);
            }
            let rest = parse_from(ts, next);
            ParseOut { stmts: seq![s] + rest.stmts, errs: rest.errs }
        }
    } else if ts[i].kind == TokenKind::Newline {
        let next = newline_run_end(ts, i + 1);
        proof {
            lemma_newline_run_end_bounds(ts, i + 1);
        }
        parse_from(ts, next)
    } else {
        let rest = parse_from(ts, i + 1);
        ParseOut {
            stmts: rest.stmts,
            errs: seq![error_at(msg_unexpected_token(), ts[i])] + rest.errs,
        }
    }
}

/// Prepends a construct's outcome to the rest of a pass.
pub open spec fn parse_cons(r: Result<StmtModel, ErrorModel>, rest: ParseOut) -> ParseOut {
    match r {
        Ok(s) => ParseOut { stmts: seq![s] + rest.stmts, errs: rest.errs },
        Err(e) => ParseOut { stmts: rest.stmts, errs: seq![e] + rest.errs },
    }
}

/// The bounds of every index a front matter or code block construct can
/// resume at.
pub proof fn lemma_front_matter_next_bounds(ts: Seq<TokenModel>, p: int)
    requires
        0 <= p <= ts.len(),
    ensures
        p <= front_matter_spec(ts, p).1 <= ts.len(),
{
    lemma_whitespace_run_end_bounds(ts, p);
    let w = whitespace_run_end(ts, p);
    if w < ts.len() && ts[w].kind == TokenKind::Newline {
        lemma_delimiter_end_bounds(ts, w + 1, dashes());
    }
}

/// The whole pass over a token sequence.
pub open spec fn parse_spec(ts: Seq<TokenModel>) -> ParseOut {
    parse_from(ts, 0)
}

/// The bounds of every index a heading construct can resume at.
pub proof fn lemma_heading_next_bounds(ts: Seq<TokenModel>, p: int, first: TokenModel)
    requires
        0 <= p <= ts.len(),
    ensures
        p <= heading_spec(ts, p, first).1 <= ts.len(),
{
    lemma_hashtag_run_end_bounds(ts, p);
    let run = hashtag_run_end(ts, p);
    if run < ts.len() && ts[run].kind == TokenKind::Whitespace {
        lemma_line_end_bounds(ts, run + 1);
    }
}

/// The bounds of every index a code block construct can resume at.
pub proof fn lemma_code_block_next_bounds(ts: Seq<TokenModel>, p: int, first: TokenModel)
    requires
        0 <= p <= ts.len(),
    ensures
        p <= code_block_spec(ts, p, first).1 <= ts.len(),
{
    lemma_whitespace_run_end_bounds(ts, p);
    let w = whitespace_run_end(ts, p);
    if w < ts.len() && ts[w].kind == TokenKind::Newline {
        lemma_delimiter_end_bounds(ts, w + 1, fence());
    }
}

pub proof fn lemma_hashtag_run_end_is(ts: Seq<TokenModel>, i: int, k: int)
    requires
        0 <= i <= k <= ts.len(),
        forall|m: int| i <= m < k ==> ts[m].kind == TokenKind::Hashtag,
        k == ts.len() || ts[k].kind != TokenKind::Hashtag,
    ensures
        hashtag_run_end(ts, i) == k,
    decreases k - i,
{
    if i < k {
        lemma_hashtag_run_end_is(ts, i + 1, k);
    }
}

pub proof fn lemma_whitespace_run_end_is(ts: Seq<TokenModel>, i: int, k: int)
    requires
        0 <= i <= k <= ts.len(),
        forall|m: int| i <= m < k ==> ts[m].kind == TokenKind::Whitespace,
        k == ts.len() || ts[k].kind != TokenKind::Whitespace,
    ensures
        whitespace_run_end(ts, i) == k,
    decreases k - i,
{
    if i < k {
        lemma_whitespace_run_end_is(ts, i + 1, k);
    }
}

pub proof fn lemma_newline_run_end_is(ts: Seq<TokenModel>, i: int, k: int)
    requires
        0 <= i <= k <= ts.len(),
        forall|m: int| i <= m < k ==> ts[m].kind == TokenKind::Newline,
        k == ts.len() || ts[k].kind != TokenKind::Newline,
    ensures
        newline_run_end(ts, i) == k,
    decreases k - i,
{
    if i < k {
        lemma_newline_run_end_is(ts, i + 1, k);
    }
}

pub proof fn lemma_line_end_is(ts: Seq<TokenModel>, i: int, k: int)
    requires
        0 <= i <= k <= ts.len(),
        forall|m: int| i <= m < k ==> ts[m].kind != TokenKind::Newline,
        k == ts.len() || ts[k].kind == TokenKind::Newline,
    ensures
        line_end(ts, i) == k,
    decreases k - i,
{
    if i < k {
        lemma_line_end_is(ts, i + 1, k);
    }
}

pub proof fn lemma_delimiter_end_is(ts: Seq<TokenModel>, i: int, k: int, d: Seq<char>)
    requires
        0 <= i <= k <= ts.len(),
        forall|m: int| i <= m < k ==> ts[m].text != d,
        k == ts.len() || ts[k].text == d,
    ensures
        delimiter_end(ts, i, d) == k,
    decreases k - i,
{
    if i < k {
        lemma_delimiter_end_is(ts, i + 1, k, d);
    }
}

/// Is `s` exactly the front matter delimiter `---`?
fn is_dashes_str(s: &str) -> (r: bool)
    ensures
        r == (s@ == dashes()),
{
    if s.unicode_len() == 3 && s.get_char(0) == '-' && s.get_char(1) == '-' && s.get_char(2)
        == '-' {
        proof {
            assert(s@ =~= dashes());
        }
        true
    } else {
        false
    }
}

/// Is `s` exactly a closing code fence, three backticks?
fn is_fence_str(s: &str) -> (r: bool)
    ensures
        r == (s@ == fence()),
{
    if s.unicode_len() == 3 && s.get_char(0) == '`' && s.get_char(1) == '`' && s.get_char(2)
        == '`' {
        proof {
            assert(s@ =~= fence());
        }
        true
    } else {
        false
    }
}

/// Does `s` begin with three backticks?
fn starts_fence_str(s: &str) -> (r: bool)
    ensures
        r == starts_fence(s@),
{
    if s.unicode_len() >= 3 && s.get_char(0) == '`' && s.get_char(1) == '`' && s.get_char(2)
        == '`' {
        proof {
            assert(s@.subrange(0, 3) =~= fence());
        }
        true
    } else {
        proof {
            if s@.len() >= 3 && s@.subrange(0, 3) == fence() {
                assert(s@.subrange(0, 3)[0] == s@[0]);
                assert(s@.subrange(0, 3)[1] == s@[1]);
                assert(s@.subrange(0, 3)[2] == s@[2]);
            }
        }
        false
    }
}

/// A cursor over an owned token buffer with one token of lookahead.
pub struct Parser {
    pub tokens: Vec<Token>,
    pub pos: usize,
}

impl Parser {
    /// The cursor is inside its buffer.
    pub open spec fn wf(&self) -> bool {
        self.pos <= self.tokens@.len()
    }

    /// The token models this parser works on.
    pub open spec fn toks(&self) -> Seq<TokenModel> {
        self.tokens.deep_view()
    }

    /// A parser at the start of the given token buffer.
    pub fn new(tokens: Vec<Token>) -> (p: Parser)
        ensures
            p.wf(),
            p.toks() == tokens.deep_view(),
            p.pos == 0,
    {
        Parser { tokens, pos: 0 }
    }

    /// One full parse pass.  Returns every statement when no construct
    /// failed, and every diagnostic otherwise; it never gives up early, and
    /// an `Err` always carries at least one diagnostic.
    pub fn parse(&mut self) -> (r: Result<Vec<Stmt>, Vec<SyntaxError>>)
        requires
            old(self).wf(),
        ensures
            final(self).tokens == old(self).tokens,
            ({
                let out = parse_from(old(self).toks(), old(self).pos as int);
                match r {
                    Ok(ss) => ss.deep_view() == out.stmts && out.errs.len() == 0,
                    Err(es) => es.deep_view() == out.errs && out.errs.len() > 0,
                }
            }),
    {
        let (statements, errors) = self.parse_all();
        if errors.len() == 0 {
            proof {
                assert(errors.deep_view() =~= Seq::<ErrorModel>::empty());
            }
            Ok(statements)
        } else {
            Err(errors)
        }
    }

    /// One full parse pass that keeps both sides: every statement parsed and
    /// every diagnostic reported, in input order, whatever mix of the two the
    /// input produced.
    pub fn parse_all(&mut self) -> (r: (Vec<Stmt>, Vec<SyntaxError>))
        requires
            old(self).wf(),
        ensures
            final(self).tokens == old(self).tokens,
            r.0.deep_view() == parse_from(old(self).toks(), old(self).pos as int).stmts,
            r.1.deep_view() == parse_from(old(self).toks(), old(self).pos as int).errs,
    {
        let ghost ts = self.toks();
        let ghost start = self.pos as int;
        let mut statements: Vec<Stmt> = Vec::new();
        let mut errors: Vec<SyntaxError> = Vec::new();
        while self.pos < self.tokens.len()
            invariant
                self.tokens == old(self).tokens,
                ts == self.toks(),
                start == old(self).pos as int,
                0 <= start <= self.pos <= self.tokens@.len(),
                parse_from(ts, start).stmts =~= statements.deep_view() + parse_from(
                    ts,
                    self.pos as int,
                ).stmts,
                parse_from(ts, start).errs =~= errors.deep_view() + parse_from(
                    ts,
                    self.pos as int,
                ).errs,
            decreases self.tokens@.len() - self.pos,
        {
            let ghost i = self.pos as int;
            let ghost stmts_before = statements.deep_view();
            let ghost errs_before = errors.deep_view();
            let token = self.tokens[self.pos].clone();
            self.pos = self.pos + 1;
            match token.kind {
                TokenKind::Hashtag => {
                    let ghost (sr, next) = heading_spec(ts, i + 1, ts[i]);
                    proof {
                        lemma_heading_next_bounds(ts, i + 1, ts[i]);
                        assert(parse_from(ts, i) == parse_cons(sr, parse_from(ts, next)));
                    }
                    match self.parse_heading(&token) {
                        Ok(heading) => {
                            let ghost hm = heading@;
                            statements.push(heading);
                            proof {
                                assert(statements.deep_view() =~= stmts_before.push(hm));
                            }
                        },
                        Err(error) => {
                            let ghost em = error@;
                            errors.push(error);
                            proof {
                                assert(errors.deep_view() =~= errs_before.push(em));
                            }
                        },
                    }
                    proof {
                        lemma_push_step(ts, start, i, sr, next, stmts_before, errs_before,
                            statements.deep_view(), errors.deep_view());
                    }
                },
                TokenKind::Word | TokenKind::Whitespace => {
                    if self.is_front_matter(&token) {
                        let ghost (sr, next) = front_matter_spec(ts, i + 1);
                        proof {
                            lemma_front_matter_next_bounds(ts, i + 1);
                            assert(parse_from(ts, i) == parse_cons(sr, parse_from(ts, next)));
                        }
                        match self.parse_front_matter() {
                            Ok(front_matter) => {
                                let ghost fm = front_matter@;
                                statements.push(front_matter);
                                proof {
                                    assert(statements.deep_view() =~= stmts_before.push(fm));
                                }
                            },
                            Err(error) => {
                                let ghost em = error@;
                                errors.push(error);
                                proof {
                                    assert(errors.deep_view() =~= errs_before.push(em));
                                }
                            },
                        }
                        proof {
                            lemma_push_step(ts, start, i, sr, next, stmts_before, errs_before,
                                statements.deep_view(), errors.deep_view());
                        }
                    } else if self.is_code_block_start(&token) {
                        let ghost (sr, next) = code_block_spec(ts, i + 1, ts[i]);
                        proof {
                            lemma_code_block_next_bounds(ts, i + 1, ts[i]);
                            assert(parse_from(ts, i) == parse_cons(sr, parse_from(ts, next)));
                        }
                        match self.parse_code_block(&token) {
                            Ok(code_block) => {
                                let ghost cm = code_block@;
                                statements.push(code_block);
                                proof {
                                    assert(statements.deep_view() =~= stmts_before.push(cm));
                                }
                            },
                            Err(error) => {
                                let ghost em = error@;
                                errors.push(error);
                                proof {
                                    assert(errors.deep_view() =~= errs_before.push(em));
                                }
                            },
                        }
                        proof {
                            lemma_push_step(ts, start, i, sr, next, stmts_before, errs_before,
                                statements.deep_view(), errors.deep_view());
                        }
                    } else {
                        let ghost (sm, next) = paragraph_spec(ts, i + 1, ts[i]);
                        proof {
                            lemma_paragraph_rec_bounds(ts, i + 1);
                            assert(parse_from(ts, i) == parse_cons(Ok(sm), parse_from(ts, next)));
                        }
                        let paragraph = self.parse_paragraph(token);
                        let ghost pm = paragraph@;
                        statements.push(paragraph);
                        proof {
                            assert(statements.deep_view() =~= stmts_before.push(pm));
                            lemma_push_step(ts, start, i, Ok(sm), next, stmts_before, errs_before,
                                statements.deep_view(), errors.deep_view());
                        }
                    }
                },
                TokenKind::Newline => {
                    proof {
                        lemma_newline_run_end_bounds(ts, i + 1);
                        assert(parse_from(ts, i) == parse_from(ts, newline_run_end(ts, i + 1)));
                    }
                    self.skip_blank_lines();
                },
                TokenKind::Illegal => {
                    errors.push(
                        SyntaxError::new(
                            String::from_str("Unexpected token: Illegal"),
                            (token.pos.0, token.pos.1),
                        ),
                    );
                    proof {
                        assert(errors.deep_view() =~= errs_before.push(
                            error_at(msg_unexpected_token(), ts[i]),
                        ));
                        assert(errs_before + parse_from(ts, i).errs =~= errors.deep_view()
                            + parse_from(ts, i + 1).errs);
                    }
                },
            }
        }
        proof {
            assert(parse_from(ts, start).stmts =~= statements.deep_view());
            assert(parse_from(ts, start).errs =~= errors.deep_view());
        }
        (statements, errors)
    }

    /// Is the consumed leading token a front matter delimiter line?
    fn is_front_matter(&self, first_token: &Token) -> (r: bool)
        ensures
            r == (first_token@.text == dashes()),
    {
        is_dashes_str(first_token.text.as_str())
    }

    /// Does the consumed leading token open a code block?
    fn is_code_block_start(&self, first_token: &Token) -> (r: bool)
        ensures
            r == starts_fence(first_token@.text),
    {
        starts_fence_str(first_token.text.as_str())
    }

    /// Parses a front matter block whose `---` token was just consumed.
    fn parse_front_matter(&mut self) -> (r: Result<Stmt, SyntaxError>)
        requires
            old(self).wf(),
        ensures
            final(self).tokens == old(self).tokens,
            final(self).wf(),
            ({
                let (sr, next) = front_matter_spec(old(self).toks(), old(self).pos as int);
                &&& final(self).pos as int == next
                &&& match (r, sr) {
                    (Ok(s), Ok(m)) => s@ == m,
                    (Err(e), Err(m)) => e@ == m,
                    _ => false,
                }
            }),
    {
        self.skip_whitespace();
        if self.pos >= self.tokens.len() {
            return Ok(Stmt::FrontMatter { content: String::new() });
        }
        match self.tokens[self.pos].kind {
            TokenKind::Newline => {
                self.pos = self.pos + 1;
                let content = self.collect_until_dashes();
                Ok(Stmt::FrontMatter { content })
            },
            _ => {
                let e = SyntaxError::new(
                    String::from_str("Expected newline after front matter delimiter"),
                    (self.tokens[self.pos].pos.0, self.tokens[self.pos].pos.1),
                );
                self.pos = self.pos + 1;
                Err(e)
            },
        }
    }

    /// Collects verbatim token text until a `---` token (consumed) or the end
    /// of the input; used for front matter bodies.
    fn collect_until_dashes(&mut self) -> (content: String)
        requires
            old(self).wf(),
        ensures
            final(self).tokens == old(self).tokens,
            final(self).wf(),
            content@ == texts_concat(
                old(self).toks().subrange(
                    old(self).pos as int,
                    delimiter_end(old(self).toks(), old(self).pos as int, dashes()),
                ),
            ),
            final(self).pos as int == ({
                let e = delimiter_end(old(self).toks(), old(self).pos as int, dashes());
                if e < old(self).toks().len() {
                    e + 1
                } else {
                    e
                }
            }),
    {
        let ghost ts = self.toks();
        let ghost p = self.pos as int;
        let mut content = String::new();
        while self.pos < self.tokens.len() && !is_dashes_str(self.tokens[self.pos].text.as_str())
            invariant
                self.tokens == old(self).tokens,
                ts == self.toks(),
                p == old(self).pos as int,
                0 <= p <= self.pos <= self.tokens@.len(),
                forall|m: int| p <= m < self.pos ==> ts[m].text != dashes(),
                content@ == texts_concat(ts.subrange(p, self.pos as int)),
            decreases self.tokens@.len() - self.pos,
        {
            let ghost before = ts.subrange(p, self.pos as int);
            content.append(self.tokens[self.pos].text.as_str());
            proof {
                crate::lexer::lemma_texts_concat_snoc(before, ts[self.pos as int]);
                assert(before.push(ts[self.pos as int]) =~= ts.subrange(p, self.pos + 1));
            }
            self.pos = self.pos + 1;
        }
        proof {
            lemma_delimiter_end_is(ts, p, self.pos as int, dashes());
        }
        if self.pos < self.tokens.len() {
            self.pos = self.pos + 1;
        }
        content
    }

    /// Collects verbatim token text until a ```` ``` ```` token (consumed) or
    /// the end of the input; used for code block bodies.
    fn collect_until_fence(&mut self) -> (content: String)
        requires
            old(self).wf(),
        ensures
            final(self).tokens == old(self).tokens,
            final(self).wf(),
            content@ == texts_concat(
                old(self).toks().subrange(
                    old(self).pos as int,
                    delimiter_end(old(self).toks(), old(self).pos as int, fence()),
                ),
            ),
            final(self).pos as int == ({
                let e = delimiter_end(old(self).toks(), old(self).pos as int, fence());
                if e < old(self).toks().len() {
                    e + 1
                } else {
                    e
                }
            }),
    {
        let ghost ts = self.toks();
        let ghost p = self.pos as int;
        let mut content = String::new();
        while self.pos < self.tokens.len() && !is_fence_str(self.tokens[self.pos].text.as_str())
            invariant
                self.tokens == old(self).tokens,
                ts == self.toks(),
                p == old(self).pos as int,
                0 <= p <= self.pos <= self.tokens@.len(),
                forall|m: int| p <= m < self.pos ==> ts[m].text != fence(),
                content@ == texts_concat(ts.subrange(p, self.pos as int)),
            decreases self.tokens@.len() - self.pos,
        {
            let ghost before = ts.subrange(p, self.pos as int);
            content.append(self.tokens[self.pos].text.as_str());
            proof {
                crate::lexer::lemma_texts_concat_snoc(before, ts[self.pos as int]);
                assert(before.push(ts[self.pos as int]) =~= ts.subrange(p, self.pos + 1));
            }
            self.pos = self.pos + 1;
        }
        proof {
            lemma_delimiter_end_is(ts, p, self.pos as int, fence());
        }
        if self.pos < self.tokens.len() {
            self.pos = self.pos + 1;
        }
        content
    }

    /// Parses a code block whose fence token was just consumed.
    fn parse_code_block(&mut self, first_token: &Token) -> (r: Result<Stmt, SyntaxError>)
        requires
            old(self).wf(),
            starts_fence(first_token@.text),
        ensures
            final(self).tokens == old(self).tokens,
            final(self).wf(),
            ({
                let (sr, next) = code_block_spec(
                    old(self).toks(),
                    old(self).pos as int,
                    first_token@,
                );
                &&& final(self).pos as int == next
                &&& match (r, sr) {
                    (Ok(s), Ok(m)) => s@ == m,
                    (Err(e), Err(m)) => e@ == m,
                    _ => false,
                }
            }),
    {
        let ghost text = first_token@.text;
        let ghost tag = text.subrange(3, text.len() as int);
        let cs = crate::chars::text_chars(first_token.text.as_str());
        let n = cs.len();
        let mut k: usize = 3;
        let mut has_backtick = false;
        while k < n
            invariant
                cs@ == text,
                n == cs@.len(),
                3 <= k <= n,
                has_backtick == exists|m: int| 3 <= m < k && text[m] == '`',
            decreases n - k,
        {
            if cs[k] == '`' {
                has_backtick = true;
            }
            k = k + 1;
        }
        proof {
            assert forall|m: int| 3 <= m < text.len() && text[m] == '`' implies exists|q: int|
                0 <= q < tag.len() && tag[q] == '`' by {
                assert(tag[m - 3] == text[m]);
            }
            assert forall|q: int| 0 <= q < tag.len() && tag[q] == '`' implies exists|m: int|
                3 <= m < text.len() && text[m] == '`' by {
                assert(tag[q] == text[q + 3]);
            }
        }
        if has_backtick {
            return Err(
                SyntaxError::new(
                    String::from_str("Invalid code block"),
                    (first_token.pos.0, first_token.pos.1),
                ),
            );
        }
        let language = if n > 3 {
            Some(crate::chars::string_of_range(&cs, 3, n))
        } else {
            proof {
                assert(tag.len() == 0);
            }
            None
        };
        self.skip_whitespace();
        if self.pos >= self.tokens.len() {
            return Ok(Stmt::CodeBlock { language, content: String::new() });
        }
        match self.tokens[self.pos].kind {
            TokenKind::Newline => {
                self.pos = self.pos + 1;
                let content = self.collect_until_fence();
                Ok(Stmt::CodeBlock { language, content })
            },
            _ => {
                let e = SyntaxError::new(
                    String::from_str("Expected newline after code block fence"),
                    (self.tokens[self.pos].pos.0, self.tokens[self.pos].pos.1),
                );
                self.pos = self.pos + 1;
                Err(e)
            },
        }
    }

    /// Parses a heading whose first `Hashtag` token was just consumed.
    fn parse_heading(&mut self, first_token: &Token) -> (r: Result<Stmt, SyntaxError>)
        requires
            old(self).wf(),
            1 <= old(self).pos,
        ensures
            final(self).tokens == old(self).tokens,
            final(self).wf(),
            ({
                let (sr, next) = heading_spec(old(self).toks(), old(self).pos as int, first_token@);
                &&& final(self).pos as int == next
                &&& match (r, sr) {
                    (Ok(s), Ok(m)) => s@ == m,
                    (Err(e), Err(m)) => e@ == m,
                    _ => false,
                }
            }),
    {
        let ghost ts = self.toks();
        let ghost p = self.pos as int;
        let mut level: usize = 1;
        while self.pos < self.tokens.len() && self.tokens[self.pos].kind == TokenKind::Hashtag
            invariant
                self.tokens == old(self).tokens,
                ts == self.toks(),
                p == old(self).pos as int,
                1 <= p <= self.pos <= self.tokens@.len(),
                level as int == self.pos - p + 1,
                forall|m: int| p <= m < self.pos ==> ts[m].kind == TokenKind::Hashtag,
            decreases self.tokens@.len() - self.pos,
        {
            self.pos = self.pos + 1;
            level = level + 1;
        }
        proof {
            lemma_hashtag_run_end_is(ts, p, self.pos as int);
        }
        if self.pos < self.tokens.len() && self.tokens[self.pos].kind == TokenKind::Whitespace {
            self.pos = self.pos + 1;
            let ghost q = self.pos as int;
            let mut content = String::new();
            while self.pos < self.tokens.len() && self.tokens[self.pos].kind != TokenKind::Newline
                invariant
                    self.tokens == old(self).tokens,
                    ts == self.toks(),
                    0 <= q <= self.pos <= self.tokens@.len(),
                    forall|m: int| q <= m < self.pos ==> ts[m].kind != TokenKind::Newline,
                    content@ == texts_concat(ts.subrange(q, self.pos as int)),
                decreases self.tokens@.len() - self.pos,
            {
                let ghost before = ts.subrange(q, self.pos as int);
                content.append(self.tokens[self.pos].text.as_str());
                proof {
                    crate::lexer::lemma_texts_concat_snoc(before, ts[self.pos as int]);
                    assert(before.push(ts[self.pos as int]) =~= ts.subrange(q, self.pos + 1));
                }
                self.pos = self.pos + 1;
            }
            proof {
                lemma_line_end_is(ts, q, self.pos as int);
            }
            Ok(Stmt::Heading { level, content })
        } else {
            Err(
                SyntaxError::new(
                    String::from_str("Expected space after heading markers"),
                    (first_token.pos.0, first_token.pos.1),
                ),
            )
        }
    }

    /// Parses a paragraph beginning with the already-consumed leading token.
    fn parse_paragraph(&mut self, first_token: Token) -> (s: Stmt)
        requires
            old(self).wf(),
        ensures
            final(self).tokens == old(self).tokens,
            final(self).wf(),
            ({
                let (m, next) = paragraph_spec(old(self).toks(), old(self).pos as int, first_token@);
                &&& final(self).pos as int == next
                &&& s@ == m
            }),
    {
        let ghost ts = self.toks();
        let ghost p = self.pos as int;
        let ghost first = first_token@;
        let mut words: Vec<Token> = Vec::new();
        words.push(first_token);
        loop
            invariant_except_break
                paragraph_rec(ts, p).0 =~= words.deep_view().subrange(
                    1,
                    words.deep_view().len() as int,
                ) + paragraph_rec(ts, self.pos as int).0,
                paragraph_rec(ts, p).1 == paragraph_rec(ts, self.pos as int).1,
            invariant
                self.tokens == old(self).tokens,
                ts == self.toks(),
                p == old(self).pos as int,
                0 <= p <= self.pos <= self.tokens@.len(),
                words.deep_view().len() >= 1,
                words.deep_view()[0] == first,
            ensures
                self.tokens == old(self).tokens,
                words.deep_view().len() >= 1,
                words.deep_view()[0] == first,
                self.pos <= self.tokens@.len(),
                paragraph_rec(ts, p).0 =~= words.deep_view().subrange(
                    1,
                    words.deep_view().len() as int,
                ),
                paragraph_rec(ts, p).1 == self.pos as int,
            decreases self.tokens@.len() - self.pos,
        {
            if self.pos >= self.tokens.len() {
                proof {
                    assert(paragraph_rec(ts, self.pos as int).0 =~= Seq::<TokenModel>::empty());
                }
                break ;
            }
            let ghost j = self.pos as int;
            match self.tokens[self.pos].kind {
                TokenKind::Newline => {
                    self.pos = self.pos + 1;
                    if self.pos < self.tokens.len() && self.tokens[self.pos].kind == TokenKind::Newline {
                        proof {
                            assert(paragraph_rec(ts, j).0 =~= Seq::<TokenModel>::empty());
                            assert(paragraph_rec(ts, j).1 == j + 1);
                        }
                        break ;
                    }
                },
                TokenKind::Whitespace => {
                    self.pos = self.pos + 1;
                },
                _ => {
                    let ghost tail = words.deep_view().subrange(
                        1,
                        words.deep_view().len() as int,
                    );
                    words.push(self.tokens[self.pos].clone());
                    self.pos = self.pos + 1;
                    proof {
                        assert(words.deep_view().subrange(1, words.deep_view().len() as int)
                            =~= tail.push(ts[j]));
                        assert(tail + (seq![ts[j]] + paragraph_rec(ts, j + 1).0) =~= tail.push(
                            ts[j],
                        ) + paragraph_rec(ts, j + 1).0);
                    }
                },
            }
        }
        let s = Stmt::Paragraph { words };
        proof {
            assert(seq![first] + paragraph_rec(ts, p).0 =~= s@->Paragraph_words);
        }
        s
    }

    /// Consumes the run of consecutive newlines at the cursor.
    fn skip_blank_lines(&mut self)
        requires
            old(self).wf(),
        ensures
            final(self).tokens == old(self).tokens,
            final(self).wf(),
            final(self).pos as int == newline_run_end(old(self).toks(), old(self).pos as int),
    {
        let ghost ts = self.toks();
        let ghost p = self.pos as int;
        while self.pos < self.tokens.len() && self.tokens[self.pos].kind == TokenKind::Newline
            invariant
                self.tokens == old(self).tokens,
                ts == self.toks(),
                p == old(self).pos as int,
                0 <= p <= self.pos <= self.tokens@.len(),
                forall|m: int| p <= m < self.pos ==> ts[m].kind == TokenKind::Newline,
            decreases self.tokens@.len() - self.pos,
        {
            self.pos = self.pos + 1;
        }
        proof {
            lemma_newline_run_end_is(ts, p, self.pos as int);
        }
    }

    /// Consumes the run of consecutive whitespace tokens at the cursor.
    fn skip_whitespace(&mut self)
        requires
            old(self).wf(),
        ensures
            final(self).tokens == old(self).tokens,
            final(self).wf(),
            final(self).pos as int == whitespace_run_end(old(self).toks(), old(self).pos as int),
    {
        let ghost ts = self.toks();
        let ghost p = self.pos as int;
        while self.pos < self.tokens.len() && self.tokens[self.pos].kind == TokenKind::Whitespace
            invariant
                self.tokens == old(self).tokens,
                ts == self.toks(),
                p == old(self).pos as int,
                0 <= p <= self.pos <= self.tokens@.len(),
                forall|m: int| p <= m < self.pos ==> ts[m].kind == TokenKind::Whitespace,
            decreases self.tokens@.len() - self.pos,
        {
            self.pos = self.pos + 1;
        }
        proof {
            lemma_whitespace_run_end_is(ts, p, self.pos as int);
        }
    }
}

/// Pushing one construct's statement or error onto the accumulators keeps
/// the pass-so-far decomposition of `parse_from` intact.
proof fn lemma_push_step(
    ts: Seq<TokenModel>,
    start: int,
    i: int,
    sr: Result<StmtModel, ErrorModel>,
    next: int,
    stmts_before: Seq<StmtModel>,
    errs_before: Seq<ErrorModel>,
    stmts_after: Seq<StmtModel>,
    errs_after: Seq<ErrorModel>,
)
    requires
        parse_from(ts, i) == parse_cons(sr, parse_from(ts, next)),
        parse_from(ts, start).stmts =~= stmts_before + parse_from(ts, i).stmts,
        parse_from(ts, start).errs =~= errs_before + parse_from(ts, i).errs,
        match sr {
            Ok(s) => stmts_after == stmts_before.push(s) && errs_after == errs_before,
            Err(e) => errs_after == errs_before.push(e) && stmts_after == stmts_before,
        },
    ensures
        parse_from(ts, start).stmts =~= stmts_after + parse_from(ts, next).stmts,
        parse_from(ts, start).errs =~= errs_after + parse_from(ts, next).errs,
{
    match sr {
        Ok(s) => {
            assert(stmts_before + (seq![s] + parse_from(ts, next).stmts) =~= stmts_before.push(s)
                + parse_from(ts, next).stmts);
        },
        Err(e) => {
            assert(errs_before + (seq![e] + parse_from(ts, next).errs) =~= errs_before.push(e)
                + parse_from(ts, next).errs);
        },
    }
}

} // verus!
