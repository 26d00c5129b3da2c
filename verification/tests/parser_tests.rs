use mdparse::lexer::Lexer;
use mdparse::parser::{Parser, SyntaxError};
use mdparse::stmt::Stmt;
use mdparse::tokens::{Token, TokenKind};

fn parse(input: &str) -> Result<Vec<Stmt>, Vec<SyntaxError>> {
    let mut lexer = Lexer::new(input);
    let tokens = lexer.tokens();
    let mut parser = Parser::new(tokens);
    parser.parse()
}

#[test]
fn parser_test_simple() {
    let input = "hello\n";
    let ast = parse(input).unwrap();
    assert_eq!(
        ast,
        vec![Stmt::Paragraph {
            words: vec![Token::new(TokenKind::Word, "hello".into(), (1, 1)),]
        }]
    );
}

#[test]
fn test_heading_invalid_1() {
    let input = "#heading";
    let ast = parse(input).unwrap();
    assert_eq!(
        ast,
        vec![Stmt::Paragraph {
            words: vec![Token::new(TokenKind::Word, "#heading".into(), (1, 1)),]
        }]
    );
}

#[test]
fn test_front_matter() {
    let input = "---\nvar: true\n---";
    let ast = parse(input).unwrap();
    assert_eq!(
        ast,
        vec![Stmt::FrontMatter {
            content: "var: true\n".into()
        }]
    );
}

#[test]
fn test_code_block_simple() {
    let input = "```\nlet x = 5;\nlet y = 10;\n```";
    let ast = parse(input).unwrap();
    assert_eq!(
        ast,
        vec![Stmt::CodeBlock {
            language: None,
            content: "let x = 5;\nlet y = 10;\n".into()
        }]
    );
}

#[test]
fn test_code_block_with_language() {
    let input = "```rust\nlet x = 5;\nlet y = 10;\n```";
    let ast = parse(input).unwrap();
    assert_eq!(
        ast,
        vec![Stmt::CodeBlock {
            language: Some("rust".into()),
            content: "let x = 5;\nlet y = 10;\n".into()
        }]
    );
}

#[test]
fn test_code_block_invalid() {
    let input = "````rust\nlet\n```";
    if let Err(e) = parse(input) {
        assert_eq!(
            e,
            vec![SyntaxError::new("Invalid code block".into(), (1, 1))]
        )
    } else {
        assert!(false);
    }
}

#[test]
fn test_heading_scenarios() {
    assert_eq!(
        parse("# Heading 1").unwrap(),
        vec![Stmt::Heading { level: 1, content: "Heading 1".into() }]
    );
    assert_eq!(
        parse("## Heading 2").unwrap(),
        vec![Stmt::Heading { level: 2, content: "Heading 2".into() }]
    );
    // The level is unbounded: seven markers give level seven.
    assert_eq!(
        parse("####### Heading").unwrap(),
        vec![Stmt::Heading { level: 7, content: "Heading".into() }]
    );
}

#[test]
fn test_code_block_single_statement_line() {
    assert_eq!(
        parse("```rust\nlet x = 5;\n```").unwrap(),
        vec![Stmt::CodeBlock { language: Some("rust".into()), content: "let x = 5;\n".into() }]
    );
}

#[test]
fn test_empty_input_parses_to_nothing() {
    assert_eq!(parse("").unwrap(), vec![]);
    assert_eq!(parse("\n\n\n").unwrap(), vec![]);
}

#[test]
fn test_heading_missing_space() {
    // A `#` followed by a newline is a heading marker with no space after it.
    let e = parse("#\nx").unwrap_err();
    assert_eq!(
        e,
        vec![SyntaxError::new(
            "Expected space after heading markers".into(),
            (1, 1)
        )]
    );
}

#[test]
fn test_unexpected_token_error() {
    let e = parse("€").unwrap_err();
    assert_eq!(
        e,
        vec![SyntaxError::new("Unexpected token: Illegal".into(), (1, 1))]
    );
}

#[test]
fn test_front_matter_missing_newline_is_recoverable() {
    // The delimiter line must end in a newline; without one the block is
    // rejected but parsing goes on.
    let e = parse("--- x\n# ok").unwrap_err();
    assert_eq!(
        e,
        vec![SyntaxError::new(
            "Expected newline after front matter delimiter".into(),
            (1, 5)
        )]
    );
}

#[test]
fn test_code_block_missing_newline_is_recoverable() {
    let e = parse("``` x").unwrap_err();
    assert_eq!(
        e,
        vec![SyntaxError::new(
            "Expected newline after code block fence".into(),
            (1, 5)
        )]
    );
}

#[test]
fn test_errors_accumulate_across_constructs() {
    // Both malformed headings are reported in one pass.
    let e = parse("#\na\n\n#\nb").unwrap_err();
    assert_eq!(
        e,
        vec![
            SyntaxError::new("Expected space after heading markers".into(), (1, 1)),
            SyntaxError::new("Expected space after heading markers".into(), (4, 1)),
        ]
    );
}

#[test]
fn test_parse_all_keeps_statements_beside_errors() {
    // `parse` drops the statements when any construct failed; `parse_all`
    // hands back both lists.
    let mut lexer = mdparse::lexer::Lexer::new("#\na b");
    let mut parser = Parser::new(lexer.tokens());
    let (statements, errors) = parser.parse_all();
    assert_eq!(
        errors,
        vec![SyntaxError::new("Expected space after heading markers".into(), (1, 1))]
    );
    assert_eq!(
        statements,
        vec![Stmt::Paragraph {
            words: vec![
                Token::new(TokenKind::Word, "a".into(), (2, 1)),
                Token::new(TokenKind::Word, "b".into(), (2, 3)),
            ]
        }]
    );
}

#[test]
fn test_parse_totality_ok_or_nonempty_err() {
    for input in [
        "",
        "# h",
        "#\n",
        "--- x",
        "``` x",
        "````x\na\n```",
        "€ a b\n\n# ok",
        "---\nnever closed",
        "```\nnever closed",
        "a\nb\n\nc",
        "   ",
        "--- \n x \n ---",
    ] {
        match parse(input) {
            Ok(_) => {}
            Err(e) => assert!(!e.is_empty()),
        }
    }
}

#[test]
fn test_paragraph_soft_wrap_and_blank_line() {
    // A single newline continues the paragraph; a blank line ends it.
    let ast = parse("a\nb\n\nc").unwrap();
    assert_eq!(
        ast,
        vec![
            Stmt::Paragraph {
                words: vec![
                    Token::new(TokenKind::Word, "a".into(), (1, 1)),
                    Token::new(TokenKind::Word, "b".into(), (2, 1)),
                ]
            },
            Stmt::Paragraph {
                words: vec![Token::new(TokenKind::Word, "c".into(), (4, 1))]
            },
        ]
    );
}

#[test]
fn test_unterminated_front_matter_consumes_rest() {
    let ast = parse("---\na b\nc").unwrap();
    assert_eq!(ast, vec![Stmt::FrontMatter { content: "a b\nc".into() }]);
}

#[test]
fn test_unterminated_code_block_consumes_rest() {
    let ast = parse("```py\nx = 1\n").unwrap();
    assert_eq!(
        ast,
        vec![Stmt::CodeBlock { language: Some("py".into()), content: "x = 1\n".into() }]
    );
}

#[test]
fn test_front_matter_at_end_of_input() {
    // `---` with nothing after it opens and silently closes an empty block.
    assert_eq!(parse("---").unwrap(), vec![Stmt::FrontMatter { content: "".into() }]);
}
