//! Block-level statements and their serialization back to Markdown text.

use crate::chars::push_char;
use crate::tokens::{Token, TokenModel};
use vstd::prelude::*;
use vstd::string::StringExecFns;

verus! {

/// A statement as the specification sees it.
pub ghost enum StmtModel {
    Heading { level: nat, content: Seq<char> },
    Paragraph { words: Seq<TokenModel> },
    FrontMatter { content: Seq<char> },
    CodeBlock { language: Option<Seq<char>>, content: Seq<char> },
}

/// A block-level construct produced by the parser.
#[derive(Clone, Debug, PartialEq)]
pub enum Stmt {
    /// `level` leading `#` markers and the verbatim rest of the line.
    Heading { level: usize, content: String },
    /// The non-whitespace tokens of a paragraph, in order.
    Paragraph { words: Vec<Token> },
    /// The verbatim text between two `---` delimiter lines.
    FrontMatter { content: String },
    /// A fenced code block: optional language tag and verbatim body.
    CodeBlock { language: Option<String>, content: String },
}

impl View for Stmt {
    type V = StmtModel;

    open spec fn view(&self) -> StmtModel {
        match self {
            Stmt::Heading { level, content } => StmtModel::Heading {
                level: *level as nat,
                content: content@,
            },
            Stmt::Paragraph { words } => StmtModel::Paragraph { words: words.deep_view() },
            Stmt::FrontMatter { content } => StmtModel::FrontMatter { content: content@ },
            Stmt::CodeBlock { language, content } => StmtModel::CodeBlock {
                language: match language {
                    Some(l) => Some(l@),
                    None => None,
                },
                content: content@,
            },
        }
    }
}

impl DeepView for Stmt {
    type V = StmtModel;

    open spec fn deep_view(&self) -> StmtModel {
        self.view()
    }
}

/// `n` repetitions of the `#` character.
pub open spec fn hashes(n: nat) -> Seq<char> {
    Seq::new(n, |i: int| '#')
}

/// The word texts joined by a single space.
pub open spec fn joined_texts(ws: Seq<TokenModel>) -> Seq<char>
    decreases ws.len(),
{
    if ws.len() == 0 {
        Seq::empty()
    } else if ws.len() == 1 {
        ws[0].text
    } else {
        ws[0].text + seq![' '] + joined_texts(ws.drop_first())
    }
}

/// The Markdown text of a statement:
/// a heading is its markers, one space and its content; a paragraph is its
/// word texts joined by single spaces; front matter and code blocks are their
/// delimiters around the verbatim body.
pub open spec fn stmt_text(m: StmtModel) -> Seq<char> {
    match m {
        StmtModel::Heading { level, content } => hashes(level) + seq![' '] + content,
        StmtModel::Paragraph { words } => joined_texts(words),
        StmtModel::FrontMatter { content } => seq!['-', '-', '-', '\n'] + content + seq![
            '-',
            '-',
            '-',
        ],
        StmtModel::CodeBlock { language, content } => seq!['`', '`', '`'] + (match language {
            Some(l) => l,
            None => Seq::empty(),
        }) + seq!['\n'] + content + seq!['`', '`', '`'],
    }
}

impl Stmt {
    /// Converts a `Stmt` into a Markdown string.  Headings, front matter and
    /// code blocks reproduce their body verbatim; a paragraph collapses the
    /// whitespace between its words to a single space.
    pub fn to_markdown(&self) -> (s: String)
        ensures
            s@ == stmt_text(self@),
    {
        match self {
            Stmt::Heading { level, content } => {
                let mut s = String::new();
                let mut i: usize = 0;
                while i < *level
                    invariant
                        i <= *level,
                        s@ =~= hashes(i as nat),
                    decreases *level - i,
                {
                    push_char(&mut s, '#');
                    i = i + 1;
                    proof {
                        assert(s@ =~= hashes(i as nat));
                    }
                }
                push_char(&mut s, ' ');
                s.append(content.as_str());
                proof {
                    assert(s@ =~= stmt_text(self@));
                }
                s
            },
            Stmt::Paragraph { words } => {
                let mut s = String::new();
                let mut i: usize = 0;
                let n = words.len();
                while i < n
                    invariant
                        i <= n,
                        n == words@.len(),
                        s@ =~= joined_texts(words.deep_view().subrange(0, i as int)),
                    decreases n - i,
                {
                    let ghost prefix = words.deep_view().subrange(0, i as int);
                    if i > 0 {
                        push_char(&mut s, ' ');
                    }
                    s.append(words[i].text.as_str());
                    proof {
                        lemma_joined_texts_snoc(prefix, words.deep_view()[i as int]);
                        assert(prefix.push(words.deep_view()[i as int]) =~= words.deep_view()
                            .subrange(0, i + 1));
                        assert(s@ =~= joined_texts(words.deep_view().subrange(0, i + 1)));
                    }
                    i = i + 1;
                }
                proof {
                    assert(words.deep_view().subrange(0, n as int) =~= words.deep_view());
                }
                s
            },
            Stmt::FrontMatter { content } => {
                let mut s = String::from_str("---\n");
                s.append(content.as_str());
                s.append("---");
                proof {
                    reveal_strlit("---\n");
                    reveal_strlit("---");
                    assert(s@ =~= stmt_text(self@));
                }
                s
            },
            Stmt::CodeBlock { language, content } => {
                let mut s = String::from_str("```");
                match language {
                    Some(l) => s.append(l.as_str()),
                    None => (),
                }
                push_char(&mut s, '\n');
                s.append(content.as_str());
                s.append("```");
                proof {
                    reveal_strlit("```");
                    assert(s@ =~= stmt_text(self@));
                }
                s
            },
        }
    }
}

/// Appending one word to the join adds a separating space unless the join
/// was empty.
pub proof fn lemma_joined_texts_snoc(u: Seq<TokenModel>, x: TokenModel)
    ensures
        joined_texts(u.push(x)) == (if u.len() == 0 {
            x.text
        } else {
            joined_texts(u) + seq![' '] + x.text
        }),
    decreases u.len(),
{
    let p = u.push(x);
    if u.len() == 0 {
        assert(p.len() == 1);
        assert(p[0] == x);
    } else {
        lemma_joined_texts_snoc(u.drop_first(), x);
        assert(p[0] == u[0]);
        assert(p.drop_first() =~= u.drop_first().push(x));
        if u.len() == 1 {
            assert(u.drop_first().len() == 0);
            assert(joined_texts(p) == u[0].text + seq![' '] + x.text);
            assert(joined_texts(u) == u[0].text);
        } else {
            assert(joined_texts(p) == u[0].text + seq![' '] + (joined_texts(u.drop_first())
                + seq![' '] + x.text));
            assert(joined_texts(u) == u[0].text + seq![' '] + joined_texts(u.drop_first()));
            assert(u[0].text + seq![' '] + (joined_texts(u.drop_first()) + seq![' '] + x.text)
                =~= (u[0].text + seq![' '] + joined_texts(u.drop_first())) + seq![' '] + x.text);
        }
    }
}

} // verus!
