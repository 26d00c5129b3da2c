use mdparse::lexer::Lexer;
use mdparse::tokens::{Token, TokenKind};

fn lex(input: &str) -> Vec<Token> {
    let mut lexer = Lexer::new(input);
    lexer.tokens()
}

#[test]
fn lexer_test_simple() {
    let input = "hello\n";
    let tokens: Vec<Token> = lex(input);

    assert_eq!(
        tokens,
        vec![
            Token::new(TokenKind::Word, "hello".into(), (1, 1)),
            Token::new(TokenKind::Newline, "\n".into(), (1, 6)),
        ]
    );
}

#[test]
fn test_word_1() {
    let input = "```rust\n";
    let tokens: Vec<Token> = lex(input);

    assert_eq!(
        tokens,
        vec![
            Token::new(TokenKind::Word, "```rust".into(), (1, 1)),
            Token::new(TokenKind::Newline, "\n".into(), (1, 8)),
        ]
    );
}

#[test]
fn test_tokenize_heading_1() {
    let input = "# Heading 1";
    let tokens: Vec<Token> = lex(input);

    assert_eq!(
        tokens,
        vec![
            Token::new(TokenKind::Hashtag, "#".into(), (1, 1)),
            Token::new(TokenKind::Whitespace, " ".into(), (1, 2)),
            Token::new(TokenKind::Word, "Heading".into(), (1, 3)),
            Token::new(TokenKind::Whitespace, " ".into(), (1, 10)),
            Token::new(TokenKind::Word, "1".into(), (1, 11)),
        ]
    );
}

#[test]
fn test_tokenize_heading_2() {
    let input = "## Heading 2";
    let tokens: Vec<Token> = lex(input);

    assert_eq!(
        tokens,
        vec![
            Token::new(TokenKind::Hashtag, "#".into(), (1, 1)),
            Token::new(TokenKind::Hashtag, "#".into(), (1, 2)),
            Token::new(TokenKind::Whitespace, " ".into(), (1, 3)),
            Token::new(TokenKind::Word, "Heading".into(), (1, 4)),
            Token::new(TokenKind::Whitespace, " ".into(), (1, 11)),
            Token::new(TokenKind::Word, "2".into(), (1, 12)),
        ]
    );
}

#[test]
fn test_tokenize_heading_valid_1() {
    let input = "  ## Heading";
    let tokens: Vec<Token> = lex(input);

    assert_eq!(
        tokens,
        vec![
            Token::new(TokenKind::Whitespace, " ".into(), (1, 1)),
            Token::new(TokenKind::Whitespace, " ".into(), (1, 2)),
            Token::new(TokenKind::Hashtag, "#".into(), (1, 3)),
            Token::new(TokenKind::Hashtag, "#".into(), (1, 4)),
            Token::new(TokenKind::Whitespace, " ".into(), (1, 5)),
            Token::new(TokenKind::Word, "Heading".into(), (1, 6)),
        ]
    );
}

#[test]
fn test_tokenize_heading_multiline() {
    let input = "\n## Heading";
    let tokens: Vec<Token> = lex(input);

    assert_eq!(
        tokens,
        vec![
            Token::new(TokenKind::Newline, "\n".into(), (1, 1)),
            Token::new(TokenKind::Hashtag, "#".into(), (2, 1)),
            Token::new(TokenKind::Hashtag, "#".into(), (2, 2)),
            Token::new(TokenKind::Whitespace, " ".into(), (2, 3)),
            Token::new(TokenKind::Word, "Heading".into(), (2, 4)),
        ]
    );
}

#[test]
fn test_tokenize_heading_invalid_1() {
    let input = "#Heading";
    let tokens: Vec<Token> = lex(input);

    assert_eq!(tokens, vec![Token::new(TokenKind::Word, "#Heading".into(), (1, 1)),]);
}

#[test]
fn test_tokenize_heading_invalid_2() {
    let input = "####### Heading";
    let tokens: Vec<Token> = lex(input);

    assert_eq!(
        tokens,
        vec![
            Token::new(TokenKind::Hashtag, "#".into(), (1, 1)),
            Token::new(TokenKind::Hashtag, "#".into(), (1, 2)),
            Token::new(TokenKind::Hashtag, "#".into(), (1, 3)),
            Token::new(TokenKind::Hashtag, "#".into(), (1, 4)),
            Token::new(TokenKind::Hashtag, "#".into(), (1, 5)),
            Token::new(TokenKind::Hashtag, "#".into(), (1, 6)),
            Token::new(TokenKind::Hashtag, "#".into(), (1, 7)),
            Token::new(TokenKind::Whitespace, " ".into(), (1, 8)),
            Token::new(TokenKind::Word, "Heading".into(), (1, 9))
        ]
    );
}

#[test]
fn test_tokenize_heading_invalid_3() {
    let input = "   ## Heading";
    let tokens: Vec<Token> = lex(input);

    assert_eq!(
        tokens,
        vec![
            Token::new(TokenKind::Whitespace, " ".into(), (1, 1)),
            Token::new(TokenKind::Whitespace, " ".into(), (1, 2)),
            Token::new(TokenKind::Whitespace, " ".into(), (1, 3)),
            Token::new(TokenKind::Hashtag, "#".into(), (1, 4)),
            Token::new(TokenKind::Hashtag, "#".into(), (1, 5)),
            Token::new(TokenKind::Whitespace, " ".into(), (1, 6)),
            Token::new(TokenKind::Word, "Heading".into(), (1, 7))
        ]
    );
}

#[test]
fn test_lexer_covers_unicode_and_tabs() {
    // Lexing is total: every character lands in exactly one token, and
    // concatenating the texts gives the input back.
    let input = "héllo €\tworld\n#\tx";
    let tokens = lex(input);
    let rebuilt: String = tokens.iter().map(|t| t.text.as_str()).collect();
    assert_eq!(rebuilt, input);
    // A euro sign and a tab match no rule and come out as Illegal tokens.
    assert!(tokens.iter().any(|t| t.kind == TokenKind::Illegal && t.text == "\t"));
    assert!(tokens.iter().any(|t| t.kind == TokenKind::Illegal && t.text == "€"));
    // An accented letter is alphanumeric and stays inside its word.
    assert!(tokens.iter().any(|t| t.kind == TokenKind::Word && t.text == "héllo"));
    // A `#` followed by a tab (white space) is a heading marker.
    assert!(tokens.iter().any(|t| t.kind == TokenKind::Hashtag));
}

#[test]
fn test_lexer_concatenation_reproduces_input() {
    for input in [
        "",
        "# Heading 1",
        "---\nvar: true\n---",
        "```rust\nlet x = 5;\n```",
        "a  b   c\n\n\nd",
        "#",
        "## #tag ###",
        "väl€é\n\n",
    ] {
        let tokens = lex(input);
        let rebuilt: String = tokens.iter().map(|t| t.text.as_str()).collect();
        assert_eq!(rebuilt, input);
    }
}

#[test]
fn test_lexer_hash_at_end_is_word() {
    // A `#` with nothing after it matches no heading rule and lexes as a word.
    assert_eq!(lex("#"), vec![Token::new(TokenKind::Word, "#".into(), (1, 1))]);
    assert_eq!(
        lex("a #"),
        vec![
            Token::new(TokenKind::Word, "a".into(), (1, 1)),
            Token::new(TokenKind::Whitespace, " ".into(), (1, 2)),
            Token::new(TokenKind::Word, "#".into(), (1, 3)),
        ]
    );
}
