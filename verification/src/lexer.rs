//! The character-level lexer.
//!
//! `lex_from` is the mathematical definition of the token stream: it scans a
//! character sequence with one character of lookahead and produces kind, text
//! and 1-based position for every token.  `Lexer` is the executable cursor
//! over an owned character buffer; `Lexer::next` produces exactly the tokens
//! of `lex_from`, and `lemma_lex_covers_input` shows that concatenating the
//! token texts in order reproduces the input, so no character is ever skipped
//! or duplicated.

use crate::chars::{
    is_whitespace_char, is_word_char, string_of_char, string_of_range, text_chars, whitespace,
    word_char,
};
use crate::tokens::{Token, TokenKind, TokenModel};
use vstd::prelude::*;

verus! {

/// A `#` at position `i` forms a `Hashtag` token exactly when the next
/// character exists and is another `#` or white space.
pub open spec fn hashtag_at(s: Seq<char>, i: int) -> bool {
    i + 1 < s.len() && (s[i + 1] == '#' || whitespace(s[i + 1]))
}

/// The first index at or after `i` that does not hold a word character
/// (or the end of the input).
pub open spec fn word_run_end(s: Seq<char>, i: int) -> int
    decreases s.len() - i,
    when 0 <= i <= s.len()
{
    if i >= s.len() {
        i
    } else if word_char(s[i]) {
        word_run_end(s, i + 1)
    } else {
        i
    }
}

pub proof fn lemma_word_run_end(s: Seq<char>, i: int)
    requires
        0 <= i <= s.len(),
    ensures
        i <= word_run_end(s, i) <= s.len(),
        forall|m: int| i <= m < word_run_end(s, i) ==> word_char(s[m]),
        word_run_end(s, i) == s.len() || !word_char(s[word_run_end(s, i)]),
    decreases s.len() - i,
{
    if i < s.len() && word_char(s[i]) {
        lemma_word_run_end(s, i + 1);
    }
}

/// A scan that sees only word characters up to `k`, and a non-word character
/// or the end at `k`, ends exactly at `k`.
pub proof fn lemma_word_run_end_is(s: Seq<char>, i: int, k: int)
    requires
        0 <= i <= k <= s.len(),
        forall|m: int| i <= m < k ==> word_char(s[m]),
        k == s.len() || !word_char(s[k]),
    ensures
        word_run_end(s, i) == k,
    decreases k - i,
{
    if i < k {
        lemma_word_run_end_is(s, i + 1, k);
    }
}

/// The token stream of `s` from index `i`, with `line` and `col` counting
/// the 1-based line and the characters already consumed on that line.
pub open spec fn lex_from(s: Seq<char>, i: int, line: nat, col: nat) -> Seq<TokenModel>
    decreases s.len() - i,
    when 0 <= i <= s.len()
{
    if i >= s.len() {
        Seq::empty()
    } else if s[i] == '\n' {
        seq![
            TokenModel {
                kind: TokenKind::Newline,
                text: seq!['\n'],
                line,
                col: (col + 1) as nat,
            },
        ] + lex_from(s, i + 1, (line + 1) as nat, 0)
    } else if s[i] == ' ' {
        seq![
            TokenModel {
                kind: TokenKind::Whitespace,
                text: seq![' '],
                line,
                col: (col + 1) as nat,
            },
        ] + lex_from(s, i + 1, line, (col + 1) as nat)
    } else if s[i] == '#' && hashtag_at(s, i) {
        seq![
            TokenModel { kind: TokenKind::Hashtag, text: seq!['#'], line, col: (col + 1) as nat },
        ] + lex_from(s, i + 1, line, (col + 1) as nat)
    } else if word_char(s[i]) {
        let j = word_run_end(s, i + 1);
        proof {
            lemma_word_run_end(s, i + 1);
        }
        seq![
            TokenModel {
                kind: TokenKind::Word,
                text: s.subrange(i, j),
                line,
                col: (col + 1) as nat,
            },
        ] + lex_from(s, j, line, (col + (j - i)) as nat)
    } else {
        seq![
            TokenModel {
                kind: TokenKind::Illegal,
                text: s.subrange(i, i + 1),
                line,
                col: (col + 1) as nat,
            },
        ] + lex_from(s, i + 1, line, (col + 1) as nat)
    }
}

/// The token stream of a whole input.
pub open spec fn lex_spec(s: Seq<char>) -> Seq<TokenModel> {
    lex_from(s, 0, 1, 0)
}

/// The texts of a token sequence, concatenated in order.
pub open spec fn texts_concat(ts: Seq<TokenModel>) -> Seq<char>
    decreases ts.len(),
{
    if ts.len() == 0 {
        Seq::empty()
    } else {
        ts[0].text + texts_concat(ts.drop_first())
    }
}

pub proof fn lemma_texts_concat_cons(t: TokenModel, ts: Seq<TokenModel>)
    ensures
        texts_concat(seq![t] + ts) == t.text + texts_concat(ts),
{
    let c = seq![t] + ts;
    assert(c.drop_first() =~= ts);
    assert(c[0] == t);
}

pub proof fn lemma_texts_concat_snoc(u: Seq<TokenModel>, t: TokenModel)
    ensures
        texts_concat(u.push(t)) == texts_concat(u) + t.text,
    decreases u.len(),
{
    let p = u.push(t);
    if u.len() == 0 {
        assert(p.drop_first() =~= Seq::<TokenModel>::empty());
        assert(p[0] == t);
        assert(texts_concat(p.drop_first()) =~= Seq::<char>::empty());
        assert(texts_concat(p) =~= t.text);
        assert(texts_concat(u) =~= Seq::<char>::empty());
        assert(texts_concat(p) =~= texts_concat(u) + t.text);
    } else {
        lemma_texts_concat_snoc(u.drop_first(), t);
        assert(p[0] == u[0]);
        assert(p.drop_first() =~= u.drop_first().push(t));
        assert(u[0].text + (texts_concat(u.drop_first()) + t.text) =~= (u[0].text + texts_concat(
            u.drop_first(),
        )) + t.text);
    }
}

proof fn lemma_lex_from_covers(s: Seq<char>, i: int, line: nat, col: nat)
    requires
        0 <= i <= s.len(),
    ensures
        texts_concat(lex_from(s, i, line, col)) == s.subrange(i, s.len() as int),
    decreases s.len() - i,
{
    if i >= s.len() {
        assert(s.subrange(i, s.len() as int) =~= Seq::<char>::empty());
    } else if s[i] == '\n' {
        lemma_lex_from_covers(s, i + 1, (line + 1) as nat, 0);
        lemma_texts_concat_cons(lex_from(s, i, line, col)[0], lex_from(s, i + 1, (line + 1) as nat, 0));
        assert(seq!['\n'] + s.subrange(i + 1, s.len() as int) =~= s.subrange(i, s.len() as int));
    } else if s[i] == ' ' {
        lemma_lex_from_covers(s, i + 1, line, (col + 1) as nat);
        lemma_texts_concat_cons(lex_from(s, i, line, col)[0], lex_from(s, i + 1, line, (col + 1) as nat));
        assert(seq![' '] + s.subrange(i + 1, s.len() as int) =~= s.subrange(i, s.len() as int));
    } else if s[i] == '#' && hashtag_at(s, i) {
        lemma_lex_from_covers(s, i + 1, line, (col + 1) as nat);
        lemma_texts_concat_cons(lex_from(s, i, line, col)[0], lex_from(s, i + 1, line, (col + 1) as nat));
        assert(seq!['#'] + s.subrange(i + 1, s.len() as int) =~= s.subrange(i, s.len() as int));
    } else if word_char(s[i]) {
        let j = word_run_end(s, i + 1);
        lemma_word_run_end(s, i + 1);
        lemma_lex_from_covers(s, j, line, (col + (j - i)) as nat);
        lemma_texts_concat_cons(lex_from(s, i, line, col)[0], lex_from(s, j, line, (col + (j - i)) as nat));
        assert(s.subrange(i, j) + s.subrange(j, s.len() as int) =~= s.subrange(i, s.len() as int));
    } else {
        lemma_lex_from_covers(s, i + 1, line, (col + 1) as nat);
        lemma_texts_concat_cons(lex_from(s, i, line, col)[0], lex_from(s, i + 1, line, (col + 1) as nat));
        assert(s.subrange(i, i + 1) + s.subrange(i + 1, s.len() as int) =~= s.subrange(i, s.len() as int));
    }
}

/// Lexing is total and exhaustive: the token texts of any input, concatenated
/// in order, reproduce that input exactly; no character is skipped or
/// duplicated.
pub proof fn lemma_lex_covers_input(s: Seq<char>)
    ensures
        texts_concat(lex_spec(s)) == s,
{
    lemma_lex_from_covers(s, 0, 1, 0);
    assert(s.subrange(0, s.len() as int) =~= s);
}

/// A single-pass cursor that turns a character buffer into the tokens of
/// `lex_spec`, one call of `next` per token.
pub struct Lexer {
    pub chars: Vec<char>,
    pub pos: usize,
    pub line: usize,
    pub col: usize,
}

impl Lexer {
    /// The cursor is inside its buffer and the line and column counters can
    /// still grow by one per remaining character without overflowing.
    pub open spec fn wf(&self) -> bool {
        &&& self.chars@.len() < usize::MAX
        &&& self.pos <= self.chars@.len()
        &&& 1 <= self.line
        &&& self.line + (self.chars@.len() - self.pos) <= usize::MAX
        &&& self.col + (self.chars@.len() - self.pos) <= usize::MAX
    }

    /// The tokens this cursor has yet to produce.
    pub open spec fn remaining(&self) -> Seq<TokenModel> {
        lex_from(self.chars@, self.pos as int, self.line as nat, self.col as nat)
    }

    /// A fresh cursor at line 1, column 0.  The length bound keeps the
    /// position counters within `usize`; a buffer of that many characters
    /// cannot exist in memory.
    pub fn new(string: &str) -> (l: Lexer)
        requires
            string@.len() < usize::MAX,
        ensures
            l.wf(),
            l.remaining() == lex_spec(string@),
    {
        Lexer { chars: text_chars(string), pos: 0, line: 1, col: 0 }
    }

    /// Produces the next token of `remaining`, or `None` at the end of the
    /// input.
    pub fn next(&mut self) -> (r: Option<Token>)
        requires
            old(self).wf(),
        ensures
            final(self).wf(),
            final(self).chars@ == old(self).chars@,
            match r {
                None => final(self).pos == old(self).chars@.len() && *final(self) == *old(self),
                Some(t) => {
                    &&& old(self).pos < old(self).chars@.len()
                    &&& old(self).pos < final(self).pos <= old(self).chars@.len()
                    &&& old(self).remaining() == seq![t@] + final(self).remaining()
                    &&& t@ == old(self).remaining()[0]
                },
            },
    {
        if self.pos >= self.chars.len() {
            return None;
        }
        let ghost s = self.chars@;
        let ghost i = self.pos as int;
        let c = self.chars[self.pos];
        let line = self.line;
        let col1 = self.col + 1;
        if c == '\n' {
            self.pos = self.pos + 1;
            self.line = self.line + 1;
            self.col = 0;
            let t = Token::new(TokenKind::Newline, string_of_char('\n'), (line, col1));
            proof {
                assert(old(self).remaining() =~= seq![t@] + self.remaining());
            }
            Some(t)
        } else if c == ' ' {
            self.pos = self.pos + 1;
            self.col = col1;
            let t = Token::new(TokenKind::Whitespace, string_of_char(' '), (line, col1));
            proof {
                assert(old(self).remaining() =~= seq![t@] + self.remaining());
            }
            Some(t)
        } else if c == '#' && self.is_hashtag() {
            self.pos = self.pos + 1;
            self.col = col1;
            let t = Token::new(TokenKind::Hashtag, string_of_char('#'), (line, col1));
            proof {
                assert(old(self).remaining() =~= seq![t@] + self.remaining());
            }
            Some(t)
        } else if is_word_char(c) {
            let text = self.consume_word();
            let t = Token::new(TokenKind::Word, text, (line, col1));
            proof {
                assert(old(self).remaining() =~= seq![t@] + self.remaining());
            }
            Some(t)
        } else {
            self.pos = self.pos + 1;
            self.col = col1;
            let t = Token::new(TokenKind::Illegal, string_of_char(c), (line, col1));
            proof {
                assert(s.subrange(i, i + 1) =~= seq![c]);
                assert(old(self).remaining() =~= seq![t@] + self.remaining());
            }
            Some(t)
        }
    }

    /// One character of lookahead: does the `#` at the cursor qualify as a
    /// `Hashtag` token?
    fn is_hashtag(&self) -> (r: bool)
        requires
            self.pos < self.chars@.len(),
            self.chars@.len() < usize::MAX,
        ensures
            r == hashtag_at(self.chars@, self.pos as int),
    {
        if self.pos + 1 < self.chars.len() {
            let next_ch = self.chars[self.pos + 1];
            next_ch == '#' || is_whitespace_char(next_ch)
        } else {
            false
        }
    }

    /// Consumes the maximal word run starting at the cursor and returns its
    /// text; the column counter advances by one per character consumed.
    fn consume_word(&mut self) -> (text: String)
        requires
            old(self).wf(),
            old(self).pos < old(self).chars@.len(),
            word_char(old(self).chars@[old(self).pos as int]),
        ensures
            final(self).wf(),
            final(self).chars@ == old(self).chars@,
            final(self).line == old(self).line,
            final(self).pos == word_run_end(old(self).chars@, old(self).pos + 1),
            old(self).pos < final(self).pos <= old(self).chars@.len(),
            text@ == old(self).chars@.subrange(old(self).pos as int, final(self).pos as int),
            final(self).col == old(self).col + (final(self).pos - old(self).pos),
    {
        let ghost s = self.chars@;
        let start = self.pos;
        self.pos = self.pos + 1;
        self.col = self.col + 1;
        while self.pos < self.chars.len() && is_word_char(self.chars[self.pos])
            invariant
                self.chars@ == s,
                s == old(self).chars@,
                self.line == old(self).line,
                start == old(self).pos,
                start + 1 <= self.pos <= s.len(),
                old(self).wf(),
                self.col == old(self).col + (self.pos - start),
                forall|m: int| start + 1 <= m < self.pos ==> word_char(s[m]),
            decreases s.len() - self.pos,
        {
            self.pos = self.pos + 1;
            self.col = self.col + 1;
        }
        proof {
            lemma_word_run_end_is(s, start + 1, self.pos as int);
        }
        string_of_range(&self.chars, start, self.pos)
    }

    /// All tokens from the cursor to the end of the input, in order.
    pub fn tokens(&mut self) -> (ts: Vec<Token>)
        requires
            old(self).wf(),
        ensures
            final(self).wf(),
            ts.deep_view() == old(self).remaining(),
            final(self).remaining() == Seq::<TokenModel>::empty(),
    {
        let mut ts: Vec<Token> = Vec::new();
        loop
            invariant
                self.wf(),
                old(self).remaining() == ts.deep_view() + self.remaining(),
            ensures
                self.wf(),
                self.pos == self.chars@.len(),
                old(self).remaining() == ts.deep_view() + self.remaining(),
            decreases self.chars@.len() - self.pos,
        {
            let ghost before = ts.deep_view();
            match self.next() {
                None => {
                    proof {
                        assert(ts.deep_view() + self.remaining() =~= ts.deep_view());
                    }
                    break ;
                },
                Some(t) => {
                    ts.push(t);
                    proof {
                        assert(ts.deep_view() =~= before.push(t@));
                        assert(before + (seq![t@] + self.remaining()) =~= ts.deep_view()
                            + self.remaining());
                    }
                },
            }
        }
        ts
    }
}

} // verus!
