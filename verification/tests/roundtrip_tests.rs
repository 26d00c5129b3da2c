use mdparse::lexer::Lexer;
use mdparse::parser::{Parser, SyntaxError};
use mdparse::stmt::Stmt;
use mdparse::tokens::{Token, TokenKind};

fn parse_document(input: &str) -> Result<Vec<Stmt>, Vec<SyntaxError>> {
    let mut lexer = Lexer::new(input);
    let tokens = lexer.tokens();
    let mut parser = Parser::new(tokens);
    parser.parse()
}

fn reparse_one(stmt: &Stmt) -> Stmt {
    let text = stmt.to_markdown();
    let mut ast = parse_document(&text).unwrap();
    assert_eq!(ast.len(), 1);
    ast.remove(0)
}

#[test]
fn test_to_markdown_exact_values() {
    assert_eq!(
        Stmt::Heading { level: 3, content: "Title".into() }.to_markdown(),
        "### Title"
    );
    assert_eq!(
        Stmt::Paragraph {
            words: vec![
                Token::new(TokenKind::Word, "a".into(), (1, 1)),
                Token::new(TokenKind::Word, "b".into(), (1, 3)),
            ]
        }
        .to_markdown(),
        "a b"
    );
    assert_eq!(
        Stmt::FrontMatter { content: "k: v\n".into() }.to_markdown(),
        "---\nk: v\n---"
    );
    assert_eq!(
        Stmt::CodeBlock { language: Some("rust".into()), content: "let x;\n".into() }
            .to_markdown(),
        "```rust\nlet x;\n```"
    );
    assert_eq!(
        Stmt::CodeBlock { language: None, content: "x\n".into() }.to_markdown(),
        "```\nx\n```"
    );
}

#[test]
fn test_heading_roundtrip() {
    let original = Stmt::Heading { level: 2, content: "A small title 7".into() };
    assert_eq!(reparse_one(&original), original);
}

#[test]
fn test_front_matter_roundtrip() {
    let original = Stmt::FrontMatter { content: "key: value\nother: 3\n".into() };
    assert_eq!(reparse_one(&original), original);
    let empty = Stmt::FrontMatter { content: "".into() };
    assert_eq!(reparse_one(&empty), empty);
}

#[test]
fn test_code_block_roundtrip() {
    let with_lang = Stmt::CodeBlock {
        language: Some("rust".into()),
        content: "fn main() {\n    let x = 1;\n}\n".into(),
    };
    assert_eq!(reparse_one(&with_lang), with_lang);
    let plain = Stmt::CodeBlock { language: None, content: "just text\n".into() };
    assert_eq!(reparse_one(&plain), plain);
}

#[test]
fn test_paragraph_roundtrip_preserves_word_texts() {
    // Word order and text survive the round trip; the whitespace between
    // them collapses to single spaces, and kinds may shift.
    let input = "some  words,   spaced.";
    let ast = parse_document(input).unwrap();
    assert_eq!(ast.len(), 1);
    let reparsed = reparse_one(&ast[0]);
    match (&ast[0], &reparsed) {
        (Stmt::Paragraph { words: w1 }, Stmt::Paragraph { words: w2 }) => {
            let t1: Vec<&str> = w1.iter().map(|t| t.text.as_str()).collect();
            let t2: Vec<&str> = w2.iter().map(|t| t.text.as_str()).collect();
            assert_eq!(t1, vec!["some", "words,", "spaced."]);
            assert_eq!(t1, t2);
        }
        _ => panic!("expected paragraphs"),
    }
}

#[test]
fn test_parsed_statements_roundtrip_whole_document() {
    let input = "---\ndate: now\n---\n# One\npara one line\n\n```sh\nls -l\n```";
    let ast = parse_document(input).unwrap();
    assert_eq!(ast.len(), 4);
    for stmt in &ast {
        let again = reparse_one(stmt);
        match (stmt, &again) {
            (Stmt::Paragraph { words: w1 }, Stmt::Paragraph { words: w2 }) => {
                let t1: Vec<&str> = w1.iter().map(|t| t.text.as_str()).collect();
                let t2: Vec<&str> = w2.iter().map(|t| t.text.as_str()).collect();
                assert_eq!(t1, t2);
            }
            _ => assert_eq!(stmt, &again),
        }
    }
}

#[test]
fn test_paragraph_roundtrip_with_leading_space_and_illegal_words() {
    let texts = |s: &Stmt| -> Vec<String> {
        match s {
            Stmt::Paragraph { words } => words.iter().map(|t| t.text.clone()).collect(),
            _ => panic!("expected a paragraph"),
        }
    };
    // A paragraph that starts with a whitespace token keeps it as its first
    // word through the round trip.
    let ast = parse_document("  ## Heading").unwrap();
    assert_eq!(ast.len(), 1);
    assert_eq!(texts(&ast[0]), vec![" ", "#", "#", "Heading"]);
    assert_eq!(texts(&reparse_one(&ast[0])), vec![" ", "#", "#", "Heading"]);
    // A character matching no rule is kept as a word too.
    let ast = parse_document("a € b").unwrap();
    assert_eq!(texts(&ast[0]), vec!["a", "€", "b"]);
    assert_eq!(texts(&reparse_one(&ast[0])), vec!["a", "€", "b"]);
}

#[test]
fn test_paragraph_with_midline_marker_keeps_texts() {
    // A heading marker on a soft-wrapped line is absorbed into the paragraph
    // as a word; its text survives the round trip though its kind changes.
    let ast = parse_document("x\n# y").unwrap();
    assert_eq!(ast.len(), 1);
    let texts = |s: &Stmt| -> Vec<String> {
        match s {
            Stmt::Paragraph { words } => words.iter().map(|t| t.text.clone()).collect(),
            _ => panic!("expected a paragraph"),
        }
    };
    assert_eq!(texts(&ast[0]), vec!["x", "#", "y"]);
    let again = reparse_one(&ast[0]);
    assert_eq!(texts(&again), vec!["x", "#", "y"]);
}
