use shellframe::Expr;
use shellframe::parser::{Lexer, ParseError, Token};
use shellframe::{Word, WordPart};

fn lit(s: &str) -> Token {
    Token::Word(Word(vec![WordPart::Literal(s.to_string())]))
}

fn tokenize(s: &str) -> Vec<Token> {
    Lexer::new(s).tokenize().unwrap()
}

#[test]
fn test_simple_words() {
    let toks = tokenize("echo hello world");
    assert_eq!(
        toks,
        vec![lit("echo"), lit("hello"), lit("world"), Token::Eof]
    );
}

#[test]
fn test_pipe_token() {
    let toks = tokenize("a | b");
    assert_eq!(toks, vec![lit("a"), Token::Pipe, lit("b"), Token::Eof]);
}

#[test]
fn test_and_token() {
    let toks = tokenize("a && b");
    assert_eq!(toks, vec![lit("a"), Token::And, lit("b"), Token::Eof]);
}

#[test]
fn test_or_token() {
    let toks = tokenize("a || b");
    assert_eq!(toks, vec![lit("a"), Token::Or, lit("b"), Token::Eof]);
}

#[test]
fn lexer_test_redirect_out() {
    let toks = tokenize("echo > file");
    assert_eq!(
        toks,
        vec![lit("echo"), Token::RedirectOut, lit("file"), Token::Eof]
    );
}

#[test]
fn lexer_test_redirect_append() {
    let toks = tokenize("echo >> file");
    assert_eq!(
        toks,
        vec![lit("echo"), Token::RedirectAppend, lit("file"), Token::Eof]
    );
}

#[test]
fn test_single_quoted() {
    let toks = tokenize("echo 'hello world'");
    assert_eq!(toks, vec![lit("echo"), lit("hello world"), Token::Eof]);
}

#[test]
fn test_double_quoted() {
    let toks = tokenize(r#"echo "hello world""#);
    assert_eq!(toks, vec![lit("echo"), lit("hello world"), Token::Eof]);
}

#[test]
fn test_variable() {
    let toks = tokenize("echo $HOME");
    assert_eq!(
        toks,
        vec![
            lit("echo"),
            Token::Word(Word(vec![WordPart::Variable("HOME".to_string())])),
            Token::Eof
        ]
    );
}

#[test]
fn test_parens() {
    let toks = tokenize("(echo)");
    assert_eq!(
        toks,
        vec![Token::LParen, lit("echo"), Token::RParen, Token::Eof]
    );
}

#[test]
fn test_comment() {
    let toks = tokenize("echo hello # this is a comment");
    assert_eq!(toks, vec![lit("echo"), lit("hello"), Token::Eof]);
}

// ─── further cases ──────────────────────────────────────────────────────────

#[test]
fn lexer_empty_input_is_just_eof() {
    assert_eq!(tokenize(""), vec![Token::Eof]);
    assert_eq!(tokenize("  \t \r "), vec![Token::Eof]);
}

#[test]
fn lexer_separators() {
    let toks = tokenize("a;b\nc & d");
    assert_eq!(
        toks,
        vec![lit("a"), Token::Semi, lit("b"), Token::Semi, lit("c"), Token::Semi, lit("d"), Token::Eof]
    );
}

#[test]
fn lexer_redirect_in() {
    assert_eq!(tokenize("cat < f"), vec![lit("cat"), Token::RedirectIn, lit("f"), Token::Eof]);
}

#[test]
fn lexer_operators_without_spaces() {
    let toks = tokenize("a|b||c&&d>e>>f<g");
    assert_eq!(
        toks,
        vec![
            lit("a"), Token::Pipe, lit("b"), Token::Or, lit("c"), Token::And, lit("d"),
            Token::RedirectOut, lit("e"), Token::RedirectAppend, lit("f"), Token::RedirectIn, lit("g"),
            Token::Eof
        ]
    );
}

#[test]
fn lexer_compound_word() {
    let toks = tokenize("pre$X\"mid ${Y}\"'$Z'post");
    assert_eq!(
        toks,
        vec![
            Token::Word(Word(vec![
                WordPart::Literal("pre".to_string()),
                WordPart::Variable("X".to_string()),
                WordPart::Literal("mid ".to_string()),
                WordPart::Variable("Y".to_string()),
                WordPart::Literal("$Zpost".to_string()),
            ])),
            Token::Eof
        ]
    );
}

#[test]
fn lexer_dollar_without_name_is_literal() {
    assert_eq!(
        tokenize("a$ $-x"),
        vec![
            Token::Word(Word(vec![WordPart::Literal("a".to_string()), WordPart::Literal("$".to_string())])),
            Token::Word(Word(vec![WordPart::Literal("$".to_string()), WordPart::Literal("-x".to_string())])),
            Token::Eof
        ]
    );
}

#[test]
fn lexer_backslash_escapes() {
    assert_eq!(tokenize("a\\ b"), vec![lit("a b"), Token::Eof]);
    assert_eq!(tokenize("a\\\nb"), vec![lit("ab"), Token::Eof]);
    assert_eq!(tokenize("\"x\\\"y\""), vec![lit("x\"y"), Token::Eof]);
}

#[test]
fn lexer_empty_quotes_make_an_empty_word() {
    assert_eq!(tokenize("''"), vec![Token::Word(Word(vec![])), Token::Eof]);
}

#[test]
fn lexer_unicode_variable_name() {
    assert_eq!(
        tokenize("$été"),
        vec![Token::Word(Word(vec![WordPart::Variable("été".to_string())])), Token::Eof]
    );
}

#[test]
fn lexer_unmatched_single_quote() {
    assert!(matches!(Lexer::new("echo 'abc").tokenize(), Err(ParseError::Unmatched('\''))));
}

#[test]
fn lexer_unmatched_double_quote() {
    assert!(matches!(Lexer::new("echo \"abc").tokenize(), Err(ParseError::Unmatched('"'))));
}

#[test]
fn lexer_unmatched_substitution() {
    assert!(matches!(Lexer::new("echo $(ls").tokenize(), Err(ParseError::Unmatched('('))));
    // a substitution whose text does not parse
    assert!(matches!(Lexer::new("echo $(|)").tokenize(), Err(ParseError::Unmatched('('))));
}

#[test]
fn lexer_substitution_with_nested_parens() {
    let toks = tokenize("echo $( (a) )x");
    let inner = Expr::Subshell {
        expr: Box::new(Expr::Command { name: Word(vec![WordPart::Literal("a".to_string())]), args: vec![] }),
    };
    assert_eq!(
        toks,
        vec![
            lit("echo"),
            Token::Word(Word(vec![WordPart::CommandSubst(Box::new(inner)), WordPart::Literal("x".to_string())])),
            Token::Eof
        ]
    );
}

fn word_of(s: &str) -> Vec<WordPart> {
    match tokenize(s).remove(0) {
        Token::Word(Word(ps)) => ps,
        t => panic!("not a word: {:?}", t),
    }
}

#[test]
fn lexer_dollar_ascii_names() {
    let lit = |s: &str| WordPart::Literal(s.to_string());
    let var = |s: &str| WordPart::Variable(s.to_string());
    assert_eq!(word_of("$1"), vec![lit("$"), lit("1")]);
    assert_eq!(word_of("${HOME}x"), vec![var("HOME"), lit("x")]);
    assert_eq!(word_of("$HOME/x"), vec![var("HOME"), lit("/x")]);
    assert_eq!(word_of("$_a1-b"), vec![var("_a1"), lit("-b")]);
    assert_eq!(word_of("${HOME"), vec![var("HOME")]);
    assert_eq!(word_of("x\"$Y z\"'$W'"), vec![lit("x"), var("Y"), lit(" z$W")]);
    let toks = tokenize("$ x");
    assert_eq!(toks, vec![Token::Word(Word(vec![lit("$")])), Token::Word(Word(vec![lit("x")])), Token::Eof]);
}
