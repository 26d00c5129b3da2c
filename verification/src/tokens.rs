//! Lexical tokens with kind, literal text and source position.

use vstd::prelude::*;

verus! {

/// The kind of a lexical token.
#[derive(Clone, Copy, Debug, PartialEq, Eq, Structural)]
pub enum TokenKind {
    /// A character matching no lexing rule.
    Illegal,
    /// A maximal run of alphanumeric or ASCII punctuation characters.
    Word,
    /// A `#` immediately followed by another `#` or a white space character.
    Hashtag,
    /// A `\n` character.
    Newline,
    /// A single space character.
    Whitespace,
}

/// A token as the specification sees it: kind, text and 1-based
/// line/column position.
pub ghost struct TokenModel {
    pub kind: TokenKind,
    pub text: Seq<char>,
    pub line: nat,
    pub col: nat,
}

/// A lexical token: its kind, its literal text (verbatim from the input),
/// and the 1-based line/column position of its first character.
#[derive(Debug, PartialEq)]
pub struct Token {
    pub kind: TokenKind,
    pub text: String,
    pub pos: (usize, usize),
}

impl Clone for Token {
    fn clone(&self) -> (r: Self)
        ensures
            r == *self,
    {
        Token { kind: self.kind, text: self.text.clone(), pos: (self.pos.0, self.pos.1) }
    }
}

impl View for Token {
    type V = TokenModel;

    open spec fn view(&self) -> TokenModel {
        TokenModel {
            kind: self.kind,
            text: self.text@,
            line: self.pos.0 as nat,
            col: self.pos.1 as nat,
        }
    }
}

impl DeepView for Token {
    type V = TokenModel;

    open spec fn deep_view(&self) -> TokenModel {
        self.view()
    }
}

impl Token {
    /// Packs the three fields into a token.
    pub fn new(kind: TokenKind, text: String, pos: (usize, usize)) -> (t: Token)
        ensures
            t@ == (TokenModel { kind, text: text@, line: pos.0 as nat, col: pos.1 as nat }),
    {
        Token { kind, text, pos }
    }
}

} // verus!
