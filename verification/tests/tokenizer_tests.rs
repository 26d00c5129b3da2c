use mdparse::tokenizer::{
    tokenize, BlockKind, BlockToken, LineToken, Token, WordKind, WordToken,
};

fn lines_of(input: &str) -> Vec<String> {
    input.lines().map(|line| line.to_string()).collect()
}

#[test]
fn test_tokenize_heading() {
    let input = "# Heading 1";
    let tokens = tokenize(&lines_of(input));
    assert_eq!(
        tokens,
        vec![Token::Line(LineToken {
            level: 1,
            content: "Heading 1".to_string(),
        })]
    );
}

#[test]
fn test_tokenize_paragraph() {
    let input = "This is a paragraph.";
    let tokens = tokenize(&lines_of(input));
    assert_eq!(
        tokens,
        vec![
            Token::Word(WordToken {
                text: "This".to_string(),
                kind: WordKind::Normal,
            }),
            Token::Word(WordToken {
                text: "is".to_string(),
                kind: WordKind::Normal,
            }),
            Token::Word(WordToken {
                text: "a".to_string(),
                kind: WordKind::Normal,
            }),
            Token::Word(WordToken {
                text: "paragraph.".to_string(),
                kind: WordKind::Normal,
            }),
        ]
    );
}

#[test]
fn test_tokenize_code_block() {
    let input = "```\nfn main() {}\n```";
    let tokens = tokenize(&lines_of(input));
    assert_eq!(
        tokens,
        vec![Token::Block(BlockToken {
            kind: BlockKind::CodeBlock,
            content: "fn main() {}\n".to_string(),
        })]
    );
}

#[test]
fn test_tokenize_inline_code() {
    let input = "This `inline code` example.";
    let tokens = tokenize(&lines_of(input));
    assert_eq!(
        tokens,
        vec![
            Token::Word(WordToken {
                text: "This".to_string(),
                kind: WordKind::Normal,
            }),
            Token::Word(WordToken {
                text: "inline code".to_string(),
                kind: WordKind::InlineCode,
            }),
            Token::Word(WordToken {
                text: "example.".to_string(),
                kind: WordKind::Normal,
            }),
        ]
    );
}

#[test]
fn test_tokenize_front_matter() {
    let tokens = tokenize(&lines_of("---\ntitle: x\n---\nafter"));
    assert_eq!(
        tokens,
        vec![
            Token::Block(BlockToken {
                kind: BlockKind::FrontMatter,
                content: "title: x\n".to_string(),
            }),
            Token::Word(WordToken { text: "after".to_string(), kind: WordKind::Normal }),
        ]
    );
}

#[test]
fn test_tokenize_unterminated_blocks() {
    // An unterminated code block is still emitted; unterminated front matter
    // is dropped.
    assert_eq!(
        tokenize(&lines_of("```\nkept")),
        vec![Token::Block(BlockToken {
            kind: BlockKind::CodeBlock,
            content: "kept\n".to_string(),
        })]
    );
    assert_eq!(tokenize(&lines_of("---\ndropped")), vec![]);
}

#[test]
fn test_tokenize_bold_and_lone_stars() {
    let tokens = tokenize(&lines_of("a **b c** d"));
    assert_eq!(
        tokens,
        vec![
            Token::Word(WordToken { text: "a".to_string(), kind: WordKind::Normal }),
            Token::Word(WordToken { text: "b c".to_string(), kind: WordKind::Bold }),
            Token::Word(WordToken { text: "d".to_string(), kind: WordKind::Normal }),
        ]
    );
    // A bold run that hits the end of the line right after a lone star closes
    // there, keeping the characters seen so far (the lone star is dropped).
    let tokens = tokenize(&lines_of("**b*"));
    assert_eq!(
        tokens,
        vec![Token::Word(WordToken { text: "b".to_string(), kind: WordKind::Bold })]
    );
}

#[test]
fn test_tokenize_heading_trims_content() {
    let tokens = tokenize(&lines_of("##   padded   "));
    assert_eq!(
        tokens,
        vec![Token::Line(LineToken { level: 2, content: "padded".to_string() })]
    );
}

#[test]
fn test_tokenize_italic() {
    let tokens = tokenize(&lines_of("a *it* b"));
    assert_eq!(
        tokens,
        vec![
            Token::Word(WordToken { text: "a".to_string(), kind: WordKind::Normal }),
            Token::Word(WordToken { text: "it".to_string(), kind: WordKind::Italic }),
            Token::Word(WordToken { text: "b".to_string(), kind: WordKind::Normal }),
        ]
    );
}

#[test]
fn test_tokenize_fence_line_is_also_word_tokenized() {
    // A fence line toggles the block and is then word tokenized itself, so
    // its language tag comes out as an inline-code word.
    let tokens = tokenize(&lines_of("```rust\ncode\n```"));
    assert_eq!(
        tokens,
        vec![
            Token::Word(WordToken { text: "rust".to_string(), kind: WordKind::InlineCode }),
            Token::Block(BlockToken {
                kind: BlockKind::CodeBlock,
                content: "code\n".to_string(),
            }),
        ]
    );
}

#[test]
fn test_tokenize_front_matter_wins_inside_code_block() {
    // A `---` line is checked before the code block state, so it opens front
    // matter even inside an open code block.
    let tokens = tokenize(&lines_of("```\n---\nx\n---\n```"));
    assert_eq!(
        tokens,
        vec![
            Token::Block(BlockToken {
                kind: BlockKind::FrontMatter,
                content: "x\n".to_string(),
            }),
            Token::Block(BlockToken { kind: BlockKind::CodeBlock, content: "".to_string() }),
        ]
    );
}

#[test]
fn test_token_kind_predicates() {
    let word = Token::Word(WordToken { text: "w".to_string(), kind: WordKind::Normal });
    let line = Token::Line(LineToken { level: 1, content: "h".to_string() });
    let block = Token::Block(BlockToken { kind: BlockKind::CodeBlock, content: "".to_string() });
    assert!(word.is_word() && !word.is_line() && !word.is_block());
    assert!(line.is_line() && !line.is_word() && !line.is_block());
    assert!(block.is_block() && !block.is_word() && !block.is_line());
}
