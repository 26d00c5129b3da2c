//! Round-trip laws: re-lexing and re-parsing the Markdown text of a statement
//! reproduces the statement.
//!
//! The supporting lemmas relate lexing runs of different strings.  Positions
//! never influence which tokens are produced, so the lemmas work on the
//! kind/text projection of a token stream: lexing depends only on the suffix
//! being scanned (`lemma_lex_suffix`), and a non-word character splits a
//! lexing run in two (`lemma_lex_split`), since no word run and no lookahead
//! crosses it.

use crate::chars::{whitespace, word_char};
use crate::lexer::{
    hashtag_at, lemma_lex_covers_input, lemma_word_run_end, lemma_word_run_end_is, lex_from,
    lex_spec, texts_concat, word_run_end,
};
use crate::parser::{
    dashes, fence, front_matter_spec, heading_spec, lemma_delimiter_end_is,
    lemma_hashtag_run_end_is, lemma_line_end_is, lemma_whitespace_run_end_is, parse_cons,
    parse_from, parse_spec, starts_fence, ParseOut,
};
use crate::stmt::{joined_texts, stmt_text, StmtModel};
use crate::tokens::{TokenKind, TokenModel};
use vstd::prelude::*;

verus! {

/// The kind and text of each token, positions forgotten.
pub open spec fn kind_texts(ts: Seq<TokenModel>) -> Seq<(TokenKind, Seq<char>)> {
    ts.map_values(|t: TokenModel| (t.kind, t.text))
}

/// Token sequences with the same kinds and texts concatenate to the same
/// text.
proof fn lemma_texts_concat_from_kind_texts(a: Seq<TokenModel>, b: Seq<TokenModel>)
    requires
        kind_texts(a) == kind_texts(b),
    ensures
        texts_concat(a) == texts_concat(b),
    decreases a.len(),
{
    assert(kind_texts(a).len() == a.len());
    assert(kind_texts(b).len() == b.len());
    if a.len() > 0 {
        assert(kind_texts(a)[0] == (a[0].kind, a[0].text));
        assert(kind_texts(b)[0] == (b[0].kind, b[0].text));
        assert(kind_texts(a.drop_first()) =~= kind_texts(a).drop_first());
        assert(kind_texts(b.drop_first()) =~= kind_texts(b).drop_first());
        lemma_texts_concat_from_kind_texts(a.drop_first(), b.drop_first());
    }
}

/// Two scans over equal characters below a common non-word stopper agree.
proof fn lemma_word_run_end_agree(u: Seq<char>, v: Seq<char>, a: int, e: int)
    requires
        0 <= a <= e,
        e < u.len(),
        e < v.len(),
        forall|m: int| a <= m <= e ==> u[m] == v[m],
        !word_char(u[e]),
    ensures
        word_run_end(u, a) == word_run_end(v, a),
        a <= word_run_end(u, a) <= e,
    decreases e - a,
{
    assert(u[e] == v[e]);
    if word_char(u[a]) {
        assert(a < e);
        lemma_word_run_end_agree(u, v, a + 1, e);
    }
}

/// Lexing from an index looks only at the suffix from that index on: two
/// runs over equal suffixes produce the same kinds and texts, whatever their
/// position counters.
proof fn lemma_lex_suffix(
    s: Seq<char>,
    i: int,
    l1: nat,
    c1: nat,
    t: Seq<char>,
    j: int,
    l2: nat,
    c2: nat,
)
    requires
        0 <= i <= s.len(),
        0 <= j <= t.len(),
        s.subrange(i, s.len() as int) == t.subrange(j, t.len() as int),
    ensures
        kind_texts(lex_from(s, i, l1, c1)) == kind_texts(lex_from(t, j, l2, c2)),
    decreases s.len() - i,
{
    let su = s.subrange(i, s.len() as int);
    let tu = t.subrange(j, t.len() as int);
    assert(su.len() == s.len() - i);
    assert(tu.len() == t.len() - j);
    assert(s.len() - i == t.len() - j);
    if i >= s.len() {
        assert(kind_texts(lex_from(s, i, l1, c1)) =~= kind_texts(lex_from(t, j, l2, c2)));
    } else {
        assert forall|m: int| i <= m < s.len() implies s[m] == t[j + (m - i)] by {
            assert(su[m - i] == tu[m - i]);
        }
        assert forall|d: int| 0 <= d <= s.len() - i implies #[trigger] s.subrange(
            i + d,
            s.len() as int,
        ) == t.subrange(j + d, t.len() as int) by {
            assert(s.subrange(i + d, s.len() as int) =~= t.subrange(j + d, t.len() as int));
        }
        let a = lex_from(s, i, l1, c1);
        let b = lex_from(t, j, l2, c2);
        if s[i] == '\n' {
            lemma_lex_suffix(s, i + 1, (l1 + 1) as nat, 0, t, j + 1, (l2 + 1) as nat, 0);
            assert(a.drop_first() =~= lex_from(s, i + 1, (l1 + 1) as nat, 0));
            assert(b.drop_first() =~= lex_from(t, j + 1, (l2 + 1) as nat, 0));
            assert(a.len() > 0 && b.len() > 0);
            assert(a[0].kind == b[0].kind && a[0].text == b[0].text);
            lemma_kind_texts_heads(a, b);
        } else if s[i] == ' ' {
            lemma_lex_suffix(s, i + 1, l1, (c1 + 1) as nat, t, j + 1, l2, (c2 + 1) as nat);
            assert(a.drop_first() =~= lex_from(s, i + 1, l1, (c1 + 1) as nat));
            assert(b.drop_first() =~= lex_from(t, j + 1, l2, (c2 + 1) as nat));
            assert(a.len() > 0 && b.len() > 0);
            assert(a[0].kind == b[0].kind && a[0].text == b[0].text);
            lemma_kind_texts_heads(a, b);
        } else if s[i] == '#' && hashtag_at(s, i) {
            assert(hashtag_at(t, j));
            lemma_lex_suffix(s, i + 1, l1, (c1 + 1) as nat, t, j + 1, l2, (c2 + 1) as nat);
            assert(a.drop_first() =~= lex_from(s, i + 1, l1, (c1 + 1) as nat));
            assert(b.drop_first() =~= lex_from(t, j + 1, l2, (c2 + 1) as nat));
            assert(a.len() > 0 && b.len() > 0);
            assert(a[0].kind == b[0].kind && a[0].text == b[0].text);
            lemma_kind_texts_heads(a, b);
        } else if word_char(s[i]) {
            assert(!(t[j] == '#' && hashtag_at(t, j)));
            let ju = word_run_end(s, i + 1);
            let jv = word_run_end(t, j + 1);
            lemma_word_run_end(s, i + 1);
            lemma_word_run_end(t, j + 1);
            lemma_word_run_end_offset(s, i, t, j);
            assert(ju - i == jv - j);
            assert(s.subrange(i, ju) =~= t.subrange(j, jv));
            assert(s.subrange(i + (ju - i), s.len() as int) == t.subrange(
                j + (ju - i),
                t.len() as int,
            ));
            assert(s.subrange(ju, s.len() as int) == t.subrange(jv, t.len() as int));
            lemma_lex_suffix(s, ju, l1, (c1 + (ju - i)) as nat, t, jv, l2, (c2 + (jv - j)) as nat);
            assert(a.drop_first() =~= lex_from(s, ju, l1, (c1 + (ju - i)) as nat));
            assert(b.drop_first() =~= lex_from(t, jv, l2, (c2 + (jv - j)) as nat));
            assert(a.len() > 0 && b.len() > 0);
            assert(a[0].kind == b[0].kind && a[0].text == b[0].text);
            lemma_kind_texts_heads(a, b);
        } else {
            assert(!(t[j] == '#' && hashtag_at(t, j)));
            assert(!word_char(t[j]));
            lemma_lex_suffix(s, i + 1, l1, (c1 + 1) as nat, t, j + 1, l2, (c2 + 1) as nat);
            assert(a.drop_first() =~= lex_from(s, i + 1, l1, (c1 + 1) as nat));
            assert(b.drop_first() =~= lex_from(t, j + 1, l2, (c2 + 1) as nat));
            assert(s.subrange(i, i + 1) =~= t.subrange(j, j + 1));
            assert(a.len() > 0 && b.len() > 0);
            assert(a[0].kind == b[0].kind && a[0].text == b[0].text);
            lemma_kind_texts_heads(a, b);
        }
    }
}

/// Equal heads and kind/text-equal tails give kind/text-equal streams.
proof fn lemma_kind_texts_heads(a: Seq<TokenModel>, b: Seq<TokenModel>)
    requires
        a.len() > 0,
        b.len() > 0,
        a[0].kind == b[0].kind,
        a[0].text == b[0].text,
        kind_texts(a.drop_first()) == kind_texts(b.drop_first()),
    ensures
        kind_texts(a) == kind_texts(b),
{
    assert(kind_texts(a.drop_first()).len() == a.len() - 1);
    assert(kind_texts(b.drop_first()).len() == b.len() - 1);
    assert forall|m: int| 0 <= m < a.len() implies kind_texts(a)[m] == kind_texts(b)[m] by {
        if m > 0 {
            assert(kind_texts(a.drop_first())[m - 1] == (a[m].kind, a[m].text));
            assert(kind_texts(b.drop_first())[m - 1] == (b[m].kind, b[m].text));
        }
    }
    assert(kind_texts(a) =~= kind_texts(b));
}

/// Word runs started at matching offsets of equal suffixes end at matching
/// offsets.
proof fn lemma_word_run_end_offset(s: Seq<char>, i: int, t: Seq<char>, j: int)
    requires
        0 <= i < s.len(),
        0 <= j < t.len(),
        s.subrange(i, s.len() as int) == t.subrange(j, t.len() as int),
    ensures
        word_run_end(s, i + 1) - i == word_run_end(t, j + 1) - j,
    decreases s.len() - i,
{
    let su = s.subrange(i, s.len() as int);
    let tu = t.subrange(j, t.len() as int);
    assert(su.len() == s.len() - i);
    assert(tu.len() == t.len() - j);
    assert(s.len() - i == t.len() - j);
    assert forall|m: int| i <= m < s.len() implies s[m] == t[j + (m - i)] by {
        assert(su[m - i] == tu[m - i]);
    }
    lemma_word_run_end_offset_rec(s, t, i + 1, j + 1, i, j);
}

proof fn lemma_word_run_end_offset_rec(s: Seq<char>, t: Seq<char>, a: int, b: int, i: int, j: int)
    requires
        0 <= i < a <= s.len(),
        0 <= j < b <= t.len(),
        a - i == b - j,
        s.len() - i == t.len() - j,
        forall|m: int| i <= m < s.len() ==> s[m] == t[j + (m - i)],
    ensures
        word_run_end(s, a) - i == word_run_end(t, b) - j,
    decreases s.len() - a,
{
    if a >= s.len() {
        assert(b >= t.len());
    } else if word_char(s[a]) {
        assert(t[b] == s[a]);
        lemma_word_run_end_offset_rec(s, t, a + 1, b + 1, i, j);
    } else {
        assert(t[b] == s[a]);
    }
}

/// A non-word character splits a lexing run: the tokens of `s + [c] + t` are
/// the tokens of `s + [c]` followed by the tokens of `t`, in kinds and texts.
/// No word run crosses `c`, and the one-character lookahead of a trailing `#`
/// in `s` sees the same `c` either way.
pub proof fn lemma_lex_split(s: Seq<char>, c: char, t: Seq<char>)
    requires
        !word_char(c),
    ensures
        kind_texts(lex_spec(s + seq![c] + t)) == kind_texts(lex_spec(s + seq![c])) + kind_texts(
            lex_spec(t),
        ),
{
    lemma_lex_split_from(s, c, t, 0, 1, 0, 1, 0);
}

proof fn lemma_lex_split_from(
    s: Seq<char>,
    c: char,
    t: Seq<char>,
    i: int,
    l1: nat,
    c1: nat,
    l2: nat,
    c2: nat,
)
    requires
        !word_char(c),
        0 <= i <= s.len() + 1,
    ensures
        kind_texts(lex_from(s + seq![c] + t, i, l1, c1)) == kind_texts(
            lex_from(s + seq![c], i, l2, c2),
        ) + kind_texts(lex_spec(t)),
    decreases s.len() + 1 - i,
{
    let u = s + seq![c] + t;
    let v = s + seq![c];
    assert(v.len() == s.len() + 1);
    assert(u.len() == s.len() + 1 + t.len());
    assert(forall|m: int| 0 <= m < v.len() ==> u[m] == v[m]);
    assert(u[s.len() as int] == c);
    if i == s.len() + 1 {
        assert(kind_texts(lex_from(v, i, l2, c2)) =~= Seq::<(TokenKind, Seq<char>)>::empty());
        assert(u.subrange(i, u.len() as int) =~= t.subrange(0, t.len() as int));
        lemma_lex_suffix(u, i, l1, c1, t, 0, 1, 0);
        assert(kind_texts(lex_from(u, i, l1, c1)) =~= kind_texts(lex_from(v, i, l2, c2))
            + kind_texts(lex_spec(t)));
    } else {
        let a = lex_from(u, i, l1, c1);
        let b = lex_from(v, i, l2, c2);
        assert(u[i] == v[i]);
        if u[i] == '\n' {
            lemma_lex_split_from(s, c, t, i + 1, (l1 + 1) as nat, 0, (l2 + 1) as nat, 0);
            assert(a.drop_first() =~= lex_from(u, i + 1, (l1 + 1) as nat, 0));
            assert(b.drop_first() =~= lex_from(v, i + 1, (l2 + 1) as nat, 0));
            lemma_split_cons(a, b, kind_texts(lex_spec(t)));
        } else if u[i] == ' ' {
            lemma_lex_split_from(s, c, t, i + 1, l1, (c1 + 1) as nat, l2, (c2 + 1) as nat);
            assert(a.drop_first() =~= lex_from(u, i + 1, l1, (c1 + 1) as nat));
            assert(b.drop_first() =~= lex_from(v, i + 1, l2, (c2 + 1) as nat));
            lemma_split_cons(a, b, kind_texts(lex_spec(t)));
        } else if u[i] == '#' && hashtag_at(u, i) {
            assert(i + 1 < v.len()) by {
                assert(u[i] == '#');
                assert(word_char('#'));
                assert(i < s.len());
            }
            assert(hashtag_at(v, i));
            lemma_lex_split_from(s, c, t, i + 1, l1, (c1 + 1) as nat, l2, (c2 + 1) as nat);
            assert(a.drop_first() =~= lex_from(u, i + 1, l1, (c1 + 1) as nat));
            assert(b.drop_first() =~= lex_from(v, i + 1, l2, (c2 + 1) as nat));
            lemma_split_cons(a, b, kind_texts(lex_spec(t)));
        } else if word_char(u[i]) {
            assert(i < s.len()) by {
                assert(u[s.len() as int] == c);
            }
            if u[i] == '#' {
                assert(!hashtag_at(v, i)) by {
                    assert(u[i + 1] == v[i + 1]);
                }
            }
            let ju = word_run_end(u, i + 1);
            let jv = word_run_end(v, i + 1);
            lemma_word_run_end(u, i + 1);
            lemma_word_run_end(v, i + 1);
            lemma_word_run_end_agree(u, v, i + 1, s.len() as int);
            assert(ju == jv);
            assert(ju <= s.len());
            assert(u.subrange(i, ju) =~= v.subrange(i, jv));
            lemma_lex_split_from(s, c, t, ju, l1, (c1 + (ju - i)) as nat, l2, (c2 + (jv
                - i)) as nat);
            assert(a.drop_first() =~= lex_from(u, ju, l1, (c1 + (ju - i)) as nat));
            assert(b.drop_first() =~= lex_from(v, jv, l2, (c2 + (jv - i)) as nat));
            lemma_split_cons(a, b, kind_texts(lex_spec(t)));
        } else {
            if u[i] == '#' && i + 1 < v.len() {
                assert(!hashtag_at(v, i)) by {
                    assert(u[i + 1] == v[i + 1]);
                }
            }
            lemma_lex_split_from(s, c, t, i + 1, l1, (c1 + 1) as nat, l2, (c2 + 1) as nat);
            assert(a.drop_first() =~= lex_from(u, i + 1, l1, (c1 + 1) as nat));
            assert(b.drop_first() =~= lex_from(v, i + 1, l2, (c2 + 1) as nat));
            assert(u.subrange(i, i + 1) =~= v.subrange(i, i + 1));
            lemma_split_cons(a, b, kind_texts(lex_spec(t)));
        }
    }
}

proof fn lemma_split_cons(a: Seq<TokenModel>, b: Seq<TokenModel>, rest: Seq<(TokenKind, Seq<char>)>)
    requires
        a.len() > 0,
        b.len() > 0,
        a[0].kind == b[0].kind,
        a[0].text == b[0].text,
        kind_texts(a.drop_first()) == kind_texts(b.drop_first()) + rest,
    ensures
        kind_texts(a) == kind_texts(b) + rest,
{
    assert(kind_texts(a.drop_first()).len() == a.len() - 1);
    assert(kind_texts(b.drop_first()).len() == b.len() - 1);
    assert(a.len() == b.len() + rest.len());
    assert forall|m: int| 0 <= m < a.len() implies kind_texts(a)[m] == (kind_texts(b) + rest)[m]
        by {
        if m == 0 {
        } else {
            assert(kind_texts(a)[m] == (a[m].kind, a[m].text));
            assert(kind_texts(a.drop_first())[m - 1] == (a[m].kind, a[m].text));
            assert(kind_texts(a.drop_first())[m - 1] == (kind_texts(b.drop_first()) + rest)[m - 1]);
            if m < b.len() {
                assert((kind_texts(b.drop_first()) + rest)[m - 1] == kind_texts(b.drop_first())[m
                    - 1]);
                assert(kind_texts(b.drop_first())[m - 1] == (b[m].kind, b[m].text));
                assert((kind_texts(b) + rest)[m] == kind_texts(b)[m]);
                assert(kind_texts(b)[m] == (b[m].kind, b[m].text));
            } else {
                assert((kind_texts(b.drop_first()) + rest)[m - 1] == rest[m - b.len()]);
                assert((kind_texts(b) + rest)[m] == rest[m - b.len()]);
            }
        }
    }
    assert(kind_texts(a) =~= kind_texts(b) + rest);
}

/// A lexing run over a string whose first `k` characters are a maximal word
/// run opens with one `Word` token holding exactly those characters.
proof fn lemma_lex_front_word(s: Seq<char>, k: int, l: nat, c: nat)
    requires
        0 < k <= s.len(),
        forall|m: int| 0 <= m < k ==> word_char(s[m]),
        k == s.len() || !word_char(s[k]),
        s[0] != '\n',
        s[0] != ' ',
        s[0] == '#' ==> !hashtag_at(s, 0),
    ensures
        lex_from(s, 0, l, c) == seq![
            TokenModel {
                kind: TokenKind::Word,
                text: s.subrange(0, k),
                line: l,
                col: (c + 1) as nat,
            },
        ] + lex_from(s, k, l, (c + k) as nat),
{
    lemma_word_run_end_is(s, 1, k);
}

/// No `\n` in the scanned suffix, no `Newline` token in the run.
proof fn lemma_lex_no_newline(s: Seq<char>, i: int, l: nat, c: nat)
    requires
        0 <= i <= s.len(),
        forall|m: int| i <= m < s.len() ==> s[m] != '\n',
    ensures
        forall|q: int|
            0 <= q < lex_from(s, i, l, c).len() ==> (#[trigger] lex_from(s, i, l, c)[q]).kind
                != TokenKind::Newline,
    decreases s.len() - i,
{
    if i >= s.len() {
    } else {
        let a = lex_from(s, i, l, c);
        if s[i] == ' ' {
            lemma_lex_no_newline(s, i + 1, l, (c + 1) as nat);
            assert(a.drop_first() =~= lex_from(s, i + 1, l, (c + 1) as nat));
            assert forall|q: int| 1 <= q < a.len() implies (#[trigger] a[q]).kind
                != TokenKind::Newline by {
                assert(a[q] == a.drop_first()[q - 1]);
            }
        } else if s[i] == '#' && hashtag_at(s, i) {
            lemma_lex_no_newline(s, i + 1, l, (c + 1) as nat);
            assert(a.drop_first() =~= lex_from(s, i + 1, l, (c + 1) as nat));
            assert forall|q: int| 1 <= q < a.len() implies (#[trigger] a[q]).kind
                != TokenKind::Newline by {
                assert(a[q] == a.drop_first()[q - 1]);
            }
        } else if word_char(s[i]) {
            let j = word_run_end(s, i + 1);
            lemma_word_run_end(s, i + 1);
            lemma_lex_no_newline(s, j, l, (c + (j - i)) as nat);
            assert(a.drop_first() =~= lex_from(s, j, l, (c + (j - i)) as nat));
            assert forall|q: int| 1 <= q < a.len() implies (#[trigger] a[q]).kind
                != TokenKind::Newline by {
                assert(a[q] == a.drop_first()[q - 1]);
            }
        } else {
            lemma_lex_no_newline(s, i + 1, l, (c + 1) as nat);
            assert(a.drop_first() =~= lex_from(s, i + 1, l, (c + 1) as nat));
            assert forall|q: int| 1 <= q < a.len() implies (#[trigger] a[q]).kind
                != TokenKind::Newline by {
                assert(a[q] == a.drop_first()[q - 1]);
            }
        }
    }
}

/// Lexing a word-run line `w` followed by a newline gives the `Word` token,
/// the `Newline` token, and then the rest.
proof fn lemma_lex_word_newline_prefix(w: Seq<char>)
    requires
        w.len() > 0,
        forall|m: int| 0 <= m < w.len() ==> word_char(w[m]),
        w[0] == '#' ==> w.len() > 1 && w[1] != '#' && !whitespace(w[1]),
    ensures
        kind_texts(lex_spec(w + seq!['\n'])) == seq![
            (TokenKind::Word, w),
            (TokenKind::Newline, seq!['\n']),
        ],
{
    let s = w + seq!['\n'];
    let k = w.len() as int;
    assert(!word_char('\n'));
    assert(s[k] == '\n');
    assert(forall|m: int| 0 <= m < k ==> s[m] == w[m]);
    assert(s[0] != '\n' && s[0] != ' ') by {
        assert(word_char(s[0]));
        assert(!word_char('\n') && !word_char(' '));
    }
    if s[0] == '#' && hashtag_at(s, 0) {
        assert(s[1] == (if w.len() > 1 {
            w[1]
        } else {
            '\n'
        }));
        assert(false);
    }
    lemma_lex_front_word(s, k, 1, 0);
    assert(s.subrange(0, k) =~= w);
    let rest = lex_from(s, k, 1, k as nat);
    assert(rest == seq![
        TokenModel {
            kind: TokenKind::Newline,
            text: seq!['\n'],
            line: 1,
            col: (k + 1) as nat,
        },
    ] + lex_from(s, k + 1, 2, 0));
    assert(lex_from(s, k + 1, 2, 0) =~= Seq::<TokenModel>::empty());
    assert(kind_texts(lex_spec(s)) =~= seq![
        (TokenKind::Word, w),
        (TokenKind::Newline, seq!['\n']),
    ]);
}

/// Lexing a lone word-run line gives exactly its `Word` token.
proof fn lemma_lex_word_only(w: Seq<char>)
    requires
        w.len() > 0,
        forall|m: int| 0 <= m < w.len() ==> word_char(w[m]),
        w[0] == '#' ==> w.len() == 1 || (w[1] != '#' && !whitespace(w[1])),
    ensures
        kind_texts(lex_spec(w)) == seq![(TokenKind::Word, w)],
{
    let k = w.len() as int;
    assert(w[0] != '\n' && w[0] != ' ') by {
        assert(word_char(w[0]));
        assert(!word_char('\n') && !word_char(' '));
    }
    if w[0] == '#' && hashtag_at(w, 0) {
        assert(w[1] == '#' || whitespace(w[1]));
        assert(whitespace(w[1]) ==> !word_char(w[1])) by {
            assert(word_char(w[1]));
        }
        assert(false);
    }
    lemma_lex_front_word(w, k, 1, 0);
    assert(w.subrange(0, k) =~= w);
    assert(lex_from(w, k, 1, k as nat) =~= Seq::<TokenModel>::empty());
    assert(kind_texts(lex_spec(w)) =~= seq![(TokenKind::Word, w)]);
}

/// The kind/text projection of `n` `Hashtag` tokens.
spec fn kt_hashes(n: int) -> Seq<(TokenKind, Seq<char>)> {
    Seq::new(n as nat, |q: int| (TokenKind::Hashtag, seq!['#']))
}

/// Lexing a run of `#` markers that ends at a space yields one `Hashtag`
/// token per marker.
proof fn lemma_lex_hashes(s: Seq<char>, a: int, n: int, l: nat, c: nat)
    requires
        0 <= a <= n < s.len(),
        forall|m: int| a <= m < n ==> s[m] == '#',
        s[n] == ' ',
    ensures
        kind_texts(lex_from(s, a, l, c)) == kt_hashes(n - a) + kind_texts(
            lex_from(s, n, l, (c + (n - a)) as nat),
        ),
    decreases n - a,
{
    if a == n {
        assert(kt_hashes(0) =~= Seq::<(TokenKind, Seq<char>)>::empty());
        assert(kind_texts(lex_from(s, a, l, c)) =~= kt_hashes(0) + kind_texts(
            lex_from(s, n, l, (c + (n - a)) as nat),
        ));
    } else {
        assert(s[a] == '#');
        assert(hashtag_at(s, a)) by {
            assert(a + 1 < s.len());
            if a + 1 < n {
                assert(s[a + 1] == '#');
            } else {
                assert(s[a + 1] == ' ');
                assert(whitespace(' '));
            }
        }
        lemma_lex_hashes(s, a + 1, n, l, (c + 1) as nat);
        let run = lex_from(s, a, l, c);
        assert(run.drop_first() =~= lex_from(s, a + 1, l, (c + 1) as nat));
        assert(kind_texts(run) =~= kt_hashes(n - a) + kind_texts(
            lex_from(s, n, l, (c + (n - a)) as nat),
        )) by {
            let tail = kind_texts(lex_from(s, n, l, (c + (n - a)) as nat));
            assert(kind_texts(run.drop_first()) == kt_hashes(n - a - 1) + tail);
            assert(kt_hashes(n - a).len() == n - a);
            assert(kt_hashes(n - a - 1).len() == n - a - 1);
            assert(kind_texts(run.drop_first()).len() == run.len() - 1);
            assert(kind_texts(run).len() == run.len());
            assert(kind_texts(run)[0] == (run[0].kind, run[0].text));
            assert(run[0].kind == TokenKind::Hashtag && run[0].text == seq!['#']);
            assert((kt_hashes(n - a) + tail)[0] == kt_hashes(n - a)[0]);
            assert(kt_hashes(n - a)[0] == (TokenKind::Hashtag, seq!['#']));
            assert forall|q: int| 1 <= q < run.len() implies kind_texts(run)[q] == (kt_hashes(
                n - a,
            ) + tail)[q] by {
                assert(kind_texts(run)[q] == (run[q].kind, run[q].text));
                assert(run[q] == run.drop_first()[q - 1]);
                assert(kind_texts(run.drop_first())[q - 1] == (run[q].kind, run[q].text));
                if q - 1 < n - a - 1 {
                    assert((kt_hashes(n - a - 1) + tail)[q - 1] == kt_hashes(n - a - 1)[q - 1]);
                    assert(kt_hashes(n - a - 1)[q - 1] == (TokenKind::Hashtag, seq!['#']));
                    assert((kt_hashes(n - a) + tail)[q] == kt_hashes(n - a)[q]);
                    assert(kt_hashes(n - a)[q] == (TokenKind::Hashtag, seq!['#']));
                } else {
                    assert((kt_hashes(n - a - 1) + tail)[q - 1] == tail[q - 1 - (n - a - 1)]);
                    assert((kt_hashes(n - a) + tail)[q] == tail[q - (n - a)]);
                }
            }
        }
    }
}

/// Re-lexing and re-parsing the Markdown text of a heading whose content has
/// no newline gives back exactly that heading: the level and the content are
/// preserved, and no error is reported.
pub proof fn lemma_heading_roundtrip(level: nat, content: Seq<char>)
    requires
        1 <= level,
        forall|k: int| 0 <= k < content.len() ==> content[k] != '\n',
    ensures
        ({
            let out = parse_spec(lex_spec(stmt_text(StmtModel::Heading { level, content })));
            &&& out.errs.len() == 0
            &&& out.stmts == seq![StmtModel::Heading { level, content }]
        }),
{
    let text = stmt_text(StmtModel::Heading { level, content });
    let ll = level as int;
    assert(text.len() == ll + 1 + content.len());
    assert(forall|m: int| 0 <= m < ll ==> text[m] == '#');
    assert(text[ll] == ' ');
    assert(forall|m: int| ll + 1 <= m < text.len() ==> text[m] == content[m - (ll + 1)]);
    let ts = lex_spec(text);
    // The token shape: `level` hashtags, one whitespace, then the content's tokens.
    lemma_lex_hashes(text, 0, ll, 1, 0);
    let after_run = lex_from(text, ll, 1, ll as nat);
    assert(after_run == seq![
        TokenModel {
            kind: TokenKind::Whitespace,
            text: seq![' '],
            line: 1,
            col: (ll + 1) as nat,
        },
    ] + lex_from(text, ll + 1, 1, (ll + 1) as nat));
    let mid = lex_from(text, ll + 1, 1, (ll + 1) as nat);
    let cts = lex_spec(content);
    assert(text.subrange(ll + 1, text.len() as int) =~= content.subrange(
        0,
        content.len() as int,
    ));
    lemma_lex_suffix(text, ll + 1, 1, (ll + 1) as nat, content, 0, 1, 0);
    assert(kind_texts(mid) == kind_texts(cts));
    assert(kind_texts(mid).len() == mid.len());
    assert(kind_texts(cts).len() == cts.len());
    let n = ts.len() as int;
    let cn = cts.len() as int;
    assert(kind_texts(ts) == kt_hashes(ll) + kind_texts(after_run));
    assert(kind_texts(after_run) =~= seq![(TokenKind::Whitespace, seq![' '])] + kind_texts(mid))
        by {
        assert(after_run[0].kind == TokenKind::Whitespace && after_run[0].text == seq![' ']);
        assert(after_run.drop_first() =~= mid);
        assert(kind_texts(after_run)[0] == (TokenKind::Whitespace, seq![' ']));
        assert forall|q: int| 1 <= q < after_run.len() implies kind_texts(after_run)[q]
            == kind_texts(mid)[q - 1] by {
            assert(kind_texts(after_run)[q] == (after_run[q].kind, after_run[q].text));
            assert(after_run[q] == mid[q - 1]);
            assert(kind_texts(mid)[q - 1] == (mid[q - 1].kind, mid[q - 1].text));
        }
    }
    assert(n == ll + 1 + cn) by {
        assert(kind_texts(ts).len() == ts.len());
        assert(kt_hashes(ll).len() == ll);
    }
    // Pointwise kinds and texts of the lexed stream.
    assert forall|m: int| 0 <= m < n implies (#[trigger] ts[m]).kind == kind_texts(ts)[m].0
        && ts[m].text == kind_texts(ts)[m].1 by {
        assert(kind_texts(ts)[m] == (ts[m].kind, ts[m].text));
    }
    assert(forall|m: int| 0 <= m < ll ==> (#[trigger] kind_texts(ts)[m]) == kt_hashes(ll)[m]);
    assert(kind_texts(ts)[ll] == (TokenKind::Whitespace, seq![' ']));
    assert forall|m: int| ll + 1 <= m < n implies (#[trigger] kind_texts(ts)[m]) == kind_texts(
        cts,
    )[m - (ll + 1)] by {
        assert(kind_texts(ts)[m] == kind_texts(after_run)[m - ll]);
    }
    // No newline token anywhere after the whitespace.
    lemma_lex_no_newline(content, 0, 1, 0);
    assert forall|m: int| ll + 1 <= m < n implies (#[trigger] ts[m]).kind != TokenKind::Newline
        by {
        assert(kind_texts(cts)[m - (ll + 1)] == (cts[m - (ll + 1)].kind, cts[m - (ll + 1)].text));
    }
    // Evaluate the parse.
    assert(ts[0].kind == TokenKind::Hashtag);
    assert(forall|m: int| 1 <= m < ll ==> (#[trigger] ts[m]).kind == TokenKind::Hashtag);
    assert(ts[ll].kind == TokenKind::Whitespace);
    lemma_hashtag_run_end_is(ts, 1, ll);
    lemma_line_end_is(ts, ll + 1, n);
    let (sr, next) = heading_spec(ts, 1, ts[0]);
    assert(next == n);
    assert(parse_from(ts, n) == (ParseOut {
        stmts: Seq::<StmtModel>::empty(),
        errs: Seq::<crate::parser::ErrorModel>::empty(),
    }));
    // The collected content is the concatenation of the content's own tokens.
    assert(kind_texts(ts.subrange(ll + 1, n)) =~= kind_texts(cts)) by {
        assert forall|q: int| 0 <= q < n - (ll + 1) implies kind_texts(ts.subrange(ll + 1, n))[q]
            == kind_texts(cts)[q] by {
            assert(kind_texts(ts.subrange(ll + 1, n))[q] == (
                ts.subrange(ll + 1, n)[q].kind,
                ts.subrange(ll + 1, n)[q].text,
            ));
            assert(ts.subrange(ll + 1, n)[q] == ts[ll + 1 + q]);
        }
    }
    lemma_texts_concat_from_kind_texts(ts.subrange(ll + 1, n), cts);
    lemma_lex_covers_input(content);
    assert(sr == Ok::<StmtModel, crate::parser::ErrorModel>(
        StmtModel::Heading { level, content },
    ));
    assert(parse_spec(ts) == parse_cons(sr, parse_from(ts, next)));
    assert(parse_spec(ts).stmts =~= seq![StmtModel::Heading { level, content }]);
}

/// Re-lexing and re-parsing the Markdown text of a front matter block whose
/// content is empty or ends with a newline, and whose content lexes to no
/// `---` token, gives back exactly that block with its content verbatim.
pub proof fn lemma_front_matter_roundtrip(content: Seq<char>)
    requires
        content.len() == 0 || content[content.len() - 1] == '\n',
        forall|q: int|
            0 <= q < lex_spec(content).len() ==> (#[trigger] lex_spec(content)[q]).text
                != dashes(),
    ensures
        ({
            let out = parse_spec(lex_spec(stmt_text(StmtModel::FrontMatter { content })));
            &&& out.errs.len() == 0
            &&& out.stmts == seq![StmtModel::FrontMatter { content }]
        }),
{
    let text = stmt_text(StmtModel::FrontMatter { content });
    let tail = content + dashes();
    assert(text =~= dashes() + seq!['\n'] + tail);
    assert(!word_char('\n'));
    lemma_lex_split(dashes(), '\n', tail);
    // The opening line.
    lemma_lex_word_newline_prefix(dashes());
    // The tail: the content's tokens, then the closing delimiter.
    lemma_lex_tail_delimiter(content, dashes());
    let ts = lex_spec(text);
    let cts = lex_spec(content);
    let cn = cts.len() as int;
    let n = ts.len() as int;
    assert(kind_texts(ts) == (seq![
        (TokenKind::Word, dashes()),
        (TokenKind::Newline, seq!['\n']),
    ] + (kind_texts(cts) + seq![(TokenKind::Word, dashes())])));
    assert(kind_texts(ts).len() == n);
    assert(kind_texts(cts).len() == cn);
    assert(n == cn + 3);
    assert forall|m: int| 0 <= m < n implies (#[trigger] ts[m]).kind == kind_texts(ts)[m].0
        && ts[m].text == kind_texts(ts)[m].1 by {
        assert(kind_texts(ts)[m] == (ts[m].kind, ts[m].text));
    }
    assert(ts[0].kind == TokenKind::Word && ts[0].text == dashes());
    assert(ts[1].kind == TokenKind::Newline);
    assert forall|m: int| 2 <= m < n - 1 implies (#[trigger] ts[m]).text != dashes() by {
        assert(kind_texts(ts)[m] == kind_texts(cts)[m - 2]);
        assert(kind_texts(cts)[m - 2] == (cts[m - 2].kind, cts[m - 2].text));
    }
    assert(ts[n - 1].text == dashes());
    // Evaluate the parse.
    lemma_whitespace_run_end_is(ts, 1, 1);
    lemma_delimiter_end_is(ts, 2, n - 1, dashes());
    let (sr, next) = front_matter_spec(ts, 1);
    assert(next == n);
    assert(kind_texts(ts.subrange(2, n - 1)) =~= kind_texts(cts)) by {
        assert forall|q: int| 0 <= q < cn implies kind_texts(ts.subrange(2, n - 1))[q]
            == kind_texts(cts)[q] by {
            assert(kind_texts(ts.subrange(2, n - 1))[q] == (
                ts.subrange(2, n - 1)[q].kind,
                ts.subrange(2, n - 1)[q].text,
            ));
            assert(ts.subrange(2, n - 1)[q] == ts[2 + q]);
            assert(kind_texts(ts)[2 + q] == kind_texts(cts)[q]);
        }
    }
    lemma_texts_concat_from_kind_texts(ts.subrange(2, n - 1), cts);
    lemma_lex_covers_input(content);
    assert(sr == Ok::<StmtModel, crate::parser::ErrorModel>(StmtModel::FrontMatter { content }));
    assert(parse_from(ts, n) == (ParseOut {
        stmts: Seq::<StmtModel>::empty(),
        errs: Seq::<crate::parser::ErrorModel>::empty(),
    }));
    assert(parse_spec(ts) == parse_cons(sr, parse_from(ts, next)));
    assert(parse_spec(ts).stmts =~= seq![StmtModel::FrontMatter { content }]);
}

/// Re-lexing and re-parsing the Markdown text of a code block gives back
/// exactly that block, provided the language tag is a backtick-free word run
/// (and non-empty when present), the content is empty or ends with a newline,
/// and the content lexes to no lone-fence token.
pub proof fn lemma_code_block_roundtrip(language: Option<Seq<char>>, content: Seq<char>)
    requires
        match language {
            Some(l) => l.len() > 0 && forall|m: int|
                0 <= m < l.len() ==> word_char(#[trigger] l[m]) && l[m] != '`',
            None => true,
        },
        content.len() == 0 || content[content.len() - 1] == '\n',
        forall|q: int|
            0 <= q < lex_spec(content).len() ==> (#[trigger] lex_spec(content)[q]).text != fence(),
    ensures
        ({
            let out = parse_spec(lex_spec(stmt_text(StmtModel::CodeBlock { language, content })));
            &&& out.errs.len() == 0
            &&& out.stmts == seq![StmtModel::CodeBlock { language, content }]
        }),
{
    let lang = match language {
        Some(l) => l,
        None => Seq::<char>::empty(),
    };
    let text = stmt_text(StmtModel::CodeBlock { language, content });
    let w = fence() + lang;
    let tail = content + fence();
    assert(text =~= w + seq!['\n'] + tail);
    assert(word_char('`'));
    assert(forall|m: int| 0 <= m < w.len() ==> word_char(#[trigger] w[m]));
    assert(w[0] == '`');
    assert(!word_char('\n'));
    lemma_lex_split(w, '\n', tail);
    lemma_lex_word_newline_prefix(w);
    lemma_lex_tail_delimiter(content, fence());
    let ts = lex_spec(text);
    let cts = lex_spec(content);
    let cn = cts.len() as int;
    let n = ts.len() as int;
    assert(kind_texts(ts) == (seq![(TokenKind::Word, w), (TokenKind::Newline, seq!['\n'])] + (
    kind_texts(cts) + seq![(TokenKind::Word, fence())])));
    assert(kind_texts(ts).len() == n);
    assert(kind_texts(cts).len() == cn);
    assert(n == cn + 3);
    assert forall|m: int| 0 <= m < n implies (#[trigger] ts[m]).kind == kind_texts(ts)[m].0
        && ts[m].text == kind_texts(ts)[m].1 by {
        assert(kind_texts(ts)[m] == (ts[m].kind, ts[m].text));
    }
    assert(ts[0].kind == TokenKind::Word && ts[0].text == w);
    assert(ts[1].kind == TokenKind::Newline);
    assert forall|m: int| 2 <= m < n - 1 implies (#[trigger] ts[m]).text != fence() by {
        assert(kind_texts(ts)[m] == kind_texts(cts)[m - 2]);
        assert(kind_texts(cts)[m - 2] == (cts[m - 2].kind, cts[m - 2].text));
    }
    assert(ts[n - 1].text == fence());
    // The leading token is a fence and not a front matter delimiter.
    assert(ts[0].text != dashes()) by {
        assert(w[0] == '`');
        if w == dashes() {
            assert(dashes()[0] == '-');
        }
    }
    assert(starts_fence(ts[0].text)) by {
        assert(w.subrange(0, 3) =~= fence());
    }
    // Evaluate the parse.
    let tag = w.subrange(3, w.len() as int);
    assert(tag =~= lang);
    assert(!exists|k: int| 0 <= k < tag.len() && tag[k] == '`') by {
        if exists|k: int| 0 <= k < tag.len() && tag[k] == '`' {
            let k = choose|k: int| 0 <= k < tag.len() && tag[k] == '`';
            assert(lang[k] == '`');
        }
    }
    lemma_whitespace_run_end_is(ts, 1, 1);
    lemma_delimiter_end_is(ts, 2, n - 1, fence());
    let (sr, next) = crate::parser::code_block_spec(ts, 1, ts[0]);
    assert(next == n);
    assert(kind_texts(ts.subrange(2, n - 1)) =~= kind_texts(cts)) by {
        assert forall|q: int| 0 <= q < cn implies kind_texts(ts.subrange(2, n - 1))[q]
            == kind_texts(cts)[q] by {
            assert(kind_texts(ts.subrange(2, n - 1))[q] == (
                ts.subrange(2, n - 1)[q].kind,
                ts.subrange(2, n - 1)[q].text,
            ));
            assert(ts.subrange(2, n - 1)[q] == ts[2 + q]);
            assert(kind_texts(ts)[2 + q] == kind_texts(cts)[q]);
        }
    }
    lemma_texts_concat_from_kind_texts(ts.subrange(2, n - 1), cts);
    lemma_lex_covers_input(content);
    assert(sr == Ok::<StmtModel, crate::parser::ErrorModel>(
        StmtModel::CodeBlock { language, content },
    )) by {
        match language {
            Some(l) => {
                assert(tag.len() > 0);
            },
            None => {
                assert(tag.len() == 0);
            },
        }
    }
    assert(parse_from(ts, n) == (ParseOut {
        stmts: Seq::<StmtModel>::empty(),
        errs: Seq::<crate::parser::ErrorModel>::empty(),
    }));
    assert(parse_spec(ts) == parse_cons(sr, parse_from(ts, next)));
    assert(parse_spec(ts).stmts =~= seq![StmtModel::CodeBlock { language, content }]);
}

/// The tokens of `content + d`, for a word-run delimiter `d` and a content
/// that is empty or ends with a newline: the content's tokens followed by the
/// delimiter's `Word` token.
proof fn lemma_lex_tail_delimiter(content: Seq<char>, d: Seq<char>)
    requires
        content.len() == 0 || content[content.len() - 1] == '\n',
        d.len() > 0,
        forall|m: int| 0 <= m < d.len() ==> word_char(d[m]),
        d[0] == '#' ==> d.len() == 1 || (d[1] != '#' && !whitespace(d[1])),
    ensures
        kind_texts(lex_spec(content + d)) == kind_texts(lex_spec(content)) + seq![
            (TokenKind::Word, d),
        ],
{
    lemma_lex_word_only(d);
    if content.len() == 0 {
        assert(content + d =~= d);
        assert(kind_texts(lex_spec(content)) =~= Seq::<(TokenKind, Seq<char>)>::empty());
        assert(kind_texts(lex_spec(content + d)) =~= kind_texts(lex_spec(content)) + seq![
            (TokenKind::Word, d),
        ]);
    } else {
        let c0 = content.drop_last();
        assert(!word_char('\n'));
        assert(content + d =~= c0 + seq!['\n'] + d);
        lemma_lex_split(c0, '\n', d);
        assert(content =~= c0 + seq!['\n'] + Seq::<char>::empty());
        lemma_lex_split(c0, '\n', Seq::<char>::empty());
        assert(kind_texts(lex_spec(Seq::<char>::empty())) =~= Seq::<(TokenKind, Seq<char>)>::empty());
        assert(kind_texts(lex_spec(content)) =~= kind_texts(lex_spec(c0 + seq!['\n'])));
        assert(kind_texts(lex_spec(content + d)) =~= kind_texts(lex_spec(content)) + seq![
            (TokenKind::Word, d),
        ]);
    }
}

/// The texts of a token sequence, one entry per token.
pub open spec fn word_texts(ws: Seq<TokenModel>) -> Seq<Seq<char>> {
    ws.map_values(|t: TokenModel| t.text)
}

/// A token text that re-lexes as one token when a separator follows: a
/// non-empty word run whose leading `#`, if any, does not qualify as a
/// heading marker.
pub open spec fn standalone_word(w: Seq<char>) -> bool {
    &&& w.len() > 0
    &&& forall|m: int| 0 <= m < w.len() ==> word_char(#[trigger] w[m])
    &&& (w[0] == '#' ==> w.len() == 1 || (w[1] != '#' && !whitespace(w[1])))
}

/// A token text that re-lexes as a single token: a standalone word run, or
/// one non-newline character that belongs to no word run (a space, or a
/// character matching no rule).
pub open spec fn unit_text(w: Seq<char>) -> bool {
    standalone_word(w) || (w.len() == 1 && !word_char(w[0]) && w[0] != '\n')
}

/// The kind a unit text lexes to when a space follows it.
pub open spec fn unit_kind_spaced(w: Seq<char>) -> TokenKind {
    if standalone_word(w) {
        if w == seq!['#'] {
            TokenKind::Hashtag
        } else {
            TokenKind::Word
        }
    } else if w == seq![' '] {
        TokenKind::Whitespace
    } else {
        TokenKind::Illegal
    }
}

/// The kind a unit text lexes to at the end of the input, where a lone `#`
/// has no lookahead and stays a word.
pub open spec fn unit_kind_last(w: Seq<char>) -> TokenKind {
    if standalone_word(w) {
        TokenKind::Word
    } else if w == seq![' '] {
        TokenKind::Whitespace
    } else {
        TokenKind::Illegal
    }
}

/// Lexing a unit text followed by one space gives the unit's token and one
/// `Whitespace`.
proof fn lemma_lex_unit_space(w: Seq<char>)
    requires
        unit_text(w),
    ensures
        kind_texts(lex_spec(w + seq![' '])) == seq![
            (unit_kind_spaced(w), w),
            (TokenKind::Whitespace, seq![' ']),
        ],
{
    let s = w + seq![' '];
    let k = w.len() as int;
    assert(forall|m: int| 0 <= m < k ==> s[m] == w[m]);
    assert(s[k] == ' ');
    assert(!word_char(' ') && !word_char('\n'));
    if standalone_word(w) {
        if w == seq!['#'] {
            assert(s[0] == '#');
            assert(hashtag_at(s, 0)) by {
                assert(s[1] == ' ');
                assert(whitespace(' '));
            }
            assert(lex_from(s, 1, 1, 1) == seq![
                TokenModel { kind: TokenKind::Whitespace, text: seq![' '], line: 1, col: 2 },
            ] + lex_from(s, 2, 1, 2));
            assert(lex_from(s, 2, 1, 2) =~= Seq::<TokenModel>::empty());
            assert(kind_texts(lex_spec(s)) =~= seq![
                (TokenKind::Hashtag, w),
                (TokenKind::Whitespace, seq![' ']),
            ]);
        } else {
            assert(s[0] != '\n' && s[0] != ' ') by {
                assert(word_char(s[0]));
            }
            if s[0] == '#' {
                assert(w.len() > 1) by {
                    if w.len() == 1 {
                        assert(w =~= seq!['#']);
                    }
                }
                assert(!hashtag_at(s, 0)) by {
                    assert(s[1] == w[1]);
                }
            }
            lemma_lex_front_word(s, k, 1, 0);
            assert(s.subrange(0, k) =~= w);
            assert(lex_from(s, k, 1, k as nat) == seq![
                TokenModel {
                    kind: TokenKind::Whitespace,
                    text: seq![' '],
                    line: 1,
                    col: (k + 1) as nat,
                },
            ] + lex_from(s, k + 1, 1, (k + 1) as nat));
            assert(lex_from(s, k + 1, 1, (k + 1) as nat) =~= Seq::<TokenModel>::empty());
            assert(kind_texts(lex_spec(s)) =~= seq![
                (TokenKind::Word, w),
                (TokenKind::Whitespace, seq![' ']),
            ]);
        }
    } else {
        assert(w =~= seq![w[0]]);
        if w[0] == ' ' {
            assert(w == seq![' ']);
            assert(lex_from(s, 1, 1, 1) == seq![
                TokenModel { kind: TokenKind::Whitespace, text: seq![' '], line: 1, col: 2 },
            ] + lex_from(s, 2, 1, 2));
            assert(lex_from(s, 2, 1, 2) =~= Seq::<TokenModel>::empty());
            assert(kind_texts(lex_spec(s)) =~= seq![
                (TokenKind::Whitespace, w),
                (TokenKind::Whitespace, seq![' ']),
            ]);
        } else {
            assert(w != seq![' ']) by {
                assert(seq![' '][0] == ' ');
            }
            assert(s[0] != '#') by {
                assert(word_char('#'));
            }
            assert(s.subrange(0, 1) =~= w);
            assert(lex_from(s, 1, 1, 1) == seq![
                TokenModel { kind: TokenKind::Whitespace, text: seq![' '], line: 1, col: 2 },
            ] + lex_from(s, 2, 1, 2));
            assert(lex_from(s, 2, 1, 2) =~= Seq::<TokenModel>::empty());
            assert(kind_texts(lex_spec(s)) =~= seq![
                (TokenKind::Illegal, w),
                (TokenKind::Whitespace, seq![' ']),
            ]);
        }
    }
}

/// Lexing a lone unit text gives exactly its token.
proof fn lemma_lex_unit_only(w: Seq<char>)
    requires
        unit_text(w),
    ensures
        kind_texts(lex_spec(w)) == seq![(unit_kind_last(w), w)],
{
    let k = w.len() as int;
    if standalone_word(w) {
        assert(w[0] != '\n' && w[0] != ' ') by {
            assert(word_char(w[0]));
        }
        if w[0] == '#' && hashtag_at(w, 0) {
            assert(w[1] == '#' || whitespace(w[1]));
            assert(whitespace(w[1]) ==> !word_char(w[1])) by {
                assert(word_char(w[1]));
            }
            assert(false);
        }
        lemma_lex_front_word(w, k, 1, 0);
        assert(w.subrange(0, k) =~= w);
        assert(lex_from(w, k, 1, k as nat) =~= Seq::<TokenModel>::empty());
        assert(kind_texts(lex_spec(w)) =~= seq![(TokenKind::Word, w)]);
    } else {
        assert(w =~= seq![w[0]]);
        if w[0] == ' ' {
            assert(w == seq![' ']);
            assert(lex_from(w, 1, 1, 1) =~= Seq::<TokenModel>::empty());
            assert(kind_texts(lex_spec(w)) =~= seq![(TokenKind::Whitespace, w)]);
        } else {
            assert(w != seq![' ']) by {
                assert(seq![' '][0] == ' ');
            }
            assert(w[0] != '#') by {
                assert(word_char('#'));
            }
            assert(w.subrange(0, 1) =~= w);
            assert(lex_from(w, 1, 1, 1) =~= Seq::<TokenModel>::empty());
            assert(kind_texts(lex_spec(w)) =~= seq![(TokenKind::Illegal, w)]);
        }
    }
}

/// The token shape of a space-joined list of unit texts: one token per unit,
/// in order and with its text verbatim, separated by single `Whitespace`
/// tokens.
proof fn lemma_lex_joined(words: Seq<TokenModel>)
    requires
        words.len() >= 1,
        forall|k: int| 0 <= k < words.len() ==> unit_text((#[trigger] words[k]).text),
    ensures
        ({
            let tsk = kind_texts(lex_spec(joined_texts(words)));
            let n = words.len() as int;
            &&& tsk.len() == 2 * n - 1
            &&& forall|m: int| 0 <= m < n ==> (#[trigger] tsk[2 * m]).1 == words[m].text
            &&& forall|m: int|
                0 <= m < n ==> (#[trigger] tsk[2 * m]).0 == (if m < n - 1 {
                    unit_kind_spaced(words[m].text)
                } else {
                    unit_kind_last(words[m].text)
                })
            &&& forall|m: int|
                0 <= m < n - 1 ==> (#[trigger] tsk[2 * m + 1]) == (
                TokenKind::Whitespace,
                seq![' '],
                )
        }),
    decreases words.len(),
{
    let tsk = kind_texts(lex_spec(joined_texts(words)));
    let n = words.len() as int;
    if words.len() == 1 {
        lemma_lex_unit_only(words[0].text);
        assert(joined_texts(words) == words[0].text);
        assert(tsk == seq![(unit_kind_last(words[0].text), words[0].text)]);
        assert(tsk[0].1 == words[0].text);
    } else {
        let rest = words.drop_first();
        assert(joined_texts(words) == words[0].text + seq![' '] + joined_texts(rest)) by {
            assert(words.drop_first() =~= words.subrange(1, n));
        }
        assert(!word_char(' '));
        lemma_lex_split(words[0].text, ' ', joined_texts(rest));
        lemma_lex_unit_space(words[0].text);
        assert(forall|k: int| 0 <= k < rest.len() ==> unit_text((#[trigger] rest[k]).text)) by {
            assert(forall|k: int| 0 <= k < rest.len() ==> rest[k] == words[k + 1]);
        }
        lemma_lex_joined(rest);
        let unit = kind_texts(lex_spec(words[0].text + seq![' ']));
        let rtsk = kind_texts(lex_spec(joined_texts(rest)));
        assert(tsk == unit + rtsk);
        assert(unit.len() == 2);
        assert(rtsk.len() == 2 * (n - 1) - 1);
        assert(tsk.len() == 2 * n - 1);
        assert(forall|k: int| 0 <= k < rest.len() ==> rest[k] == words[k + 1]);
        assert forall|m: int| 0 <= m < n implies (#[trigger] tsk[2 * m]).1 == words[m].text
            && tsk[2 * m].0 == (if m < n - 1 {
            unit_kind_spaced(words[m].text)
        } else {
            unit_kind_last(words[m].text)
        }) by {
            if m == 0 {
                assert(tsk[0] == unit[0]);
            } else {
                assert(tsk[2 * m] == rtsk[2 * m - 2]);
                assert(rtsk[2 * (m - 1)].1 == rest[m - 1].text);
                assert(rtsk[2 * (m - 1)].0 == (if m - 1 < n - 2 {
                    unit_kind_spaced(rest[m - 1].text)
                } else {
                    unit_kind_last(rest[m - 1].text)
                }));
            }
        }
        assert forall|m: int| 0 <= m < n - 1 implies (#[trigger] tsk[2 * m + 1]) == (
            TokenKind::Whitespace,
            seq![' '],
        ) by {
            if m == 0 {
                assert(tsk[1] == unit[1]);
            } else {
                assert(tsk[2 * m + 1] == rtsk[2 * m - 1]);
                assert(rtsk[2 * (m - 1) + 1] == (TokenKind::Whitespace, seq![' ']));
            }
        }
    }
}

/// A paragraph scan over alternating word and whitespace tokens keeps every
/// word token, in order, and stops at the end of the input.
proof fn lemma_paragraph_rec_words(ts: Seq<TokenModel>, n: int, m: int)
    requires
        1 <= m <= n,
        ts.len() == 2 * n - 1,
        forall|q: int|
            1 <= q < n ==> (#[trigger] ts[2 * q]).kind != TokenKind::Newline && ts[2 * q].kind
                != TokenKind::Whitespace,
        forall|q: int| 0 <= q < n - 1 ==> (#[trigger] ts[2 * q + 1]).kind == TokenKind::Whitespace,
    ensures
        crate::parser::paragraph_rec(ts, 2 * m - 1) == (
            Seq::new((n - m) as nat, |q: int| ts[2 * (m + q)]),
            (2 * n - 1) as int,
        ),
    decreases n - m,
{
    if m == n {
        assert(Seq::new((n - m) as nat, |q: int| ts[2 * (m + q)]) =~= Seq::<TokenModel>::empty());
    } else {
        assert(ts[2 * m - 1].kind == TokenKind::Whitespace) by {
            assert(ts[2 * (m - 1) + 1].kind == TokenKind::Whitespace);
        }
        assert(ts[2 * m].kind != TokenKind::Newline && ts[2 * m].kind != TokenKind::Whitespace);
        lemma_paragraph_rec_words(ts, n, m + 1);
        assert(crate::parser::paragraph_rec(ts, 2 * m) == (
            seq![ts[2 * m]] + Seq::new((n - m - 1) as nat, |q: int| ts[2 * (m + 1 + q)]),
            (2 * n - 1) as int,
        ));
        assert(seq![ts[2 * m]] + Seq::new((n - m - 1) as nat, |q: int| ts[2 * (m + 1 + q)])
            =~= Seq::new((n - m) as nat, |q: int| ts[2 * (m + q)]));
    }
}

/// Re-lexing and re-parsing the Markdown text of a paragraph of unit-text
/// words gives back one paragraph with the same word texts in the same
/// order.  Original whitespace run lengths are not preserved — the join uses
/// a single space — and a word's token kind may change (a lone `#` becomes a
/// `Hashtag`), but every word's text and position in the list is kept.  The
/// leading word must open a paragraph (a word run other than a lone `#`, a
/// `---` and a fence, or a single space), and a space can stand only there,
/// since the parser discards later whitespace tokens.
pub proof fn lemma_paragraph_roundtrip(words: Seq<TokenModel>)
    requires
        words.len() >= 1,
        forall|k: int| 0 <= k < words.len() ==> unit_text((#[trigger] words[k]).text),
        forall|k: int| 1 <= k < words.len() ==> (#[trigger] words[k]).text != seq![' '],
        words[0].text == seq![' '] || (standalone_word(words[0].text) && words[0].text
            != seq!['#']),
        words[0].text != dashes(),
        !starts_fence(words[0].text),
    ensures
        ({
            let out = parse_spec(lex_spec(stmt_text(StmtModel::Paragraph { words })));
            &&& out.errs.len() == 0
            &&& out.stmts.len() == 1
            &&& out.stmts[0] is Paragraph
            &&& word_texts(out.stmts[0]->Paragraph_words) == word_texts(words)
        }),
{
    let text = stmt_text(StmtModel::Paragraph { words });
    assert(text == joined_texts(words));
    lemma_lex_joined(words);
    let ts = lex_spec(text);
    let tsk = kind_texts(ts);
    let n = words.len() as int;
    assert(tsk.len() == ts.len());
    assert(ts.len() == 2 * n - 1);
    assert forall|m: int| 0 <= m < 2 * n - 1 implies (#[trigger] ts[m]).kind == tsk[m].0
        && ts[m].text == tsk[m].1 by {
        assert(tsk[m] == (ts[m].kind, ts[m].text));
    }
    assert(ts[0].kind == TokenKind::Word || ts[0].kind == TokenKind::Whitespace) by {
        assert(tsk[2 * 0int].1 == words[0].text);
        if words[0].text == seq![' '] {
            assert(!standalone_word(words[0].text)) by {
                assert(!word_char(' '));
            }
        }
    }
    assert(ts[0].text == words[0].text) by {
        assert(tsk[2 * 0int].1 == words[0].text);
    }
    assert forall|q: int|
        1 <= q < n implies (#[trigger] ts[2 * q]).kind != TokenKind::Newline && ts[2 * q].kind
        != TokenKind::Whitespace by {
        assert(tsk[2 * q].1 == words[q].text);
        if ts[2 * q].kind == TokenKind::Whitespace {
            assert(!standalone_word(words[q].text)) by {
                if standalone_word(words[q].text) {
                    assert(unit_kind_spaced(words[q].text) != TokenKind::Whitespace);
                    assert(unit_kind_last(words[q].text) != TokenKind::Whitespace);
                }
            }
            assert(words[q].text == seq![' ']);
        }
    }
    assert forall|q: int| 0 <= q < n implies (#[trigger] ts[2 * q]).text == words[q].text by {
        assert(tsk[2 * q].1 == words[q].text);
    }
    assert forall|q: int| 0 <= q < n - 1 implies (#[trigger] ts[2 * q + 1]).kind
        == TokenKind::Whitespace by {
        assert(tsk[2 * q + 1] == (TokenKind::Whitespace, seq![' ']));
    }
    lemma_paragraph_rec_words(ts, n, 1);
    let (sm, next) = crate::parser::paragraph_spec(ts, 1, ts[0]);
    assert(next == 2 * n - 1);
    let out_words = seq![ts[0]] + Seq::new((n - 1) as nat, |q: int| ts[2 * (1 + q)]);
    assert(sm == StmtModel::Paragraph { words: out_words });
    assert(word_texts(out_words) =~= word_texts(words)) by {
        assert(word_texts(out_words).len() == n);
        assert(word_texts(words).len() == n);
        assert forall|q: int| 0 <= q < n implies word_texts(out_words)[q] == word_texts(words)[q]
            by {
            assert(word_texts(out_words)[q] == out_words[q].text);
            assert(word_texts(words)[q] == words[q].text);
            if q == 0 {
                assert(out_words[0] == ts[0]);
            } else {
                assert(out_words[q] == ts[2 * q]);
            }
        }
    }
    assert(parse_from(ts, next) == (ParseOut {
        stmts: Seq::<StmtModel>::empty(),
        errs: Seq::<crate::parser::ErrorModel>::empty(),
    }));
    assert(parse_spec(ts).stmts =~= seq![sm]);
    assert(parse_spec(ts).errs =~= Seq::<crate::parser::ErrorModel>::empty());
}

} // verus!
