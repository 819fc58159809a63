use shellframe::parser::{parse, ParseError, Token};
use shellframe::{Expr, RedirectMode, Word, WordPart};

fn cmd(name: &str, args: &[&str]) -> Expr {
    Expr::Command {
        name: Word(vec![WordPart::Literal(name.to_string())]),
        args: args
            .iter()
            .map(|a| Word(vec![WordPart::Literal(a.to_string())]))
            .collect(),
    }
}

#[test]
fn test_simple_command() {
    let expr = parse("echo hello").unwrap();
    assert_eq!(expr, cmd("echo", &["hello"]));
}

#[test]
fn test_command_multiple_args() {
    let expr = parse("ls -la /tmp").unwrap();
    assert_eq!(expr, cmd("ls", &["-la", "/tmp"]));
}

#[test]
fn test_pipe() {
    let expr = parse("cat file.txt | grep foo").unwrap();
    assert_eq!(
        expr,
        Expr::Pipe {
            left: Box::new(cmd("cat", &["file.txt"])),
            right: Box::new(cmd("grep", &["foo"])),
        }
    );
}

#[test]
fn test_triple_pipe() {
    let expr = parse("cat f | grep x | wc").unwrap();
    assert_eq!(
        expr,
        Expr::Pipe {
            left: Box::new(Expr::Pipe {
                left: Box::new(cmd("cat", &["f"])),
                right: Box::new(cmd("grep", &["x"])),
            }),
            right: Box::new(cmd("wc", &[])),
        }
    );
}

#[test]
fn mod_test_redirect_out() {
    let expr = parse("echo hello > out.txt").unwrap();
    assert_eq!(
        expr,
        Expr::Redirect {
            expr: Box::new(cmd("echo", &["hello"])),
            file: Word(vec![WordPart::Literal("out.txt".to_string())]),
            mode: RedirectMode::Overwrite,
        }
    );
}

#[test]
fn mod_test_redirect_append() {
    let expr = parse("echo hi >> out.txt").unwrap();
    assert_eq!(
        expr,
        Expr::Redirect {
            expr: Box::new(cmd("echo", &["hi"])),
            file: Word(vec![WordPart::Literal("out.txt".to_string())]),
            mode: RedirectMode::Append,
        }
    );
}

#[test]
fn test_and_chain() {
    let expr = parse("mkdir test && cd test").unwrap();
    assert_eq!(
        expr,
        Expr::And {
            left: Box::new(cmd("mkdir", &["test"])),
            right: Box::new(cmd("cd", &["test"])),
        }
    );
}

#[test]
fn test_or_chain() {
    let expr = parse("false || echo fallback").unwrap();
    assert_eq!(
        expr,
        Expr::Or {
            left: Box::new(cmd("false", &[])),
            right: Box::new(cmd("echo", &["fallback"])),
        }
    );
}

#[test]
fn test_semicolon_sequence() {
    let expr = parse("echo a ; echo b").unwrap();
    assert_eq!(
        expr,
        Expr::Sequence {
            left: Box::new(cmd("echo", &["a"])),
            right: Box::new(cmd("echo", &["b"])),
        }
    );
}

#[test]
fn test_subshell() {
    let expr = parse("(echo hello)").unwrap();
    assert_eq!(
        expr,
        Expr::Subshell {
            expr: Box::new(cmd("echo", &["hello"])),
        }
    );
}

#[test]
fn test_double_quoted_string() {
    let expr = parse(r#"echo "hello world""#).unwrap();
    assert_eq!(
        expr,
        Expr::Command {
            name: Word(vec![WordPart::Literal("echo".to_string())]),
            args: vec![Word(vec![WordPart::Literal("hello world".to_string())])],
        }
    );
}

#[test]
fn test_single_quoted_string() {
    let expr = parse("echo 'hello world'").unwrap();
    assert_eq!(
        expr,
        Expr::Command {
            name: Word(vec![WordPart::Literal("echo".to_string())]),
            args: vec![Word(vec![WordPart::Literal("hello world".to_string())])],
        }
    );
}

#[test]
fn test_variable_expansion() {
    let expr = parse("echo $HOME").unwrap();
    assert_eq!(
        expr,
        Expr::Command {
            name: Word(vec![WordPart::Literal("echo".to_string())]),
            args: vec![Word(vec![WordPart::Variable("HOME".to_string())])],
        }
    );
}

#[test]
fn test_command_substitution() {
    let expr = parse("echo $(pwd)").unwrap();
    assert_eq!(
        expr,
        Expr::Command {
            name: Word(vec![WordPart::Literal("echo".to_string())]),
            args: vec![Word(vec![WordPart::CommandSubst(Box::new(cmd(
                "pwd",
                &[]
            )))])],
        }
    );
}

#[test]
fn test_empty_input_error() {
    assert!(parse("").is_err());
}

#[test]
fn test_complex_pipeline() {
    // cat file.txt | grep foo | sort
    let expr = parse("cat file.txt | grep foo | sort").unwrap();
    assert_eq!(
        expr,
        Expr::Pipe {
            left: Box::new(Expr::Pipe {
                left: Box::new(cmd("cat", &["file.txt"])),
                right: Box::new(cmd("grep", &["foo"])),
            }),
            right: Box::new(cmd("sort", &[])),
        }
    );
}

// ─── further cases ──────────────────────────────────────────────────────────

#[test]
fn parse_precedence_of_operators() {
    // `|` binds tighter than `&&`, which associates to the left with `;`
    let expr = parse("a | b && c ; d").unwrap();
    assert_eq!(
        expr,
        Expr::Sequence {
            left: Box::new(Expr::And {
                left: Box::new(Expr::Pipe { left: Box::new(cmd("a", &[])), right: Box::new(cmd("b", &[])) }),
                right: Box::new(cmd("c", &[])),
            }),
            right: Box::new(cmd("d", &[])),
        }
    );
}

#[test]
fn parse_trailing_semicolon_is_dropped() {
    assert_eq!(parse("echo a ;").unwrap(), cmd("echo", &["a"]));
    assert_eq!(parse("(echo a ;)").unwrap(), Expr::Subshell { expr: Box::new(cmd("echo", &["a"])) });
}

#[test]
fn parse_several_redirections() {
    let expr = parse("sort < in > out").unwrap();
    assert_eq!(
        expr,
        Expr::Redirect {
            expr: Box::new(Expr::Redirect {
                expr: Box::new(cmd("sort", &[])),
                file: Word(vec![WordPart::Literal("in".to_string())]),
                mode: RedirectMode::Input,
            }),
            file: Word(vec![WordPart::Literal("out".to_string())]),
            mode: RedirectMode::Overwrite,
        }
    );
}

#[test]
fn parse_nested_substitution() {
    let expr = parse("echo $(a $(b))").unwrap();
    let inner = Expr::Command {
        name: Word(vec![WordPart::Literal("a".to_string())]),
        args: vec![Word(vec![WordPart::CommandSubst(Box::new(cmd("b", &[])))])],
    };
    assert_eq!(
        expr,
        Expr::Command {
            name: Word(vec![WordPart::Literal("echo".to_string())]),
            args: vec![Word(vec![WordPart::CommandSubst(Box::new(inner))])],
        }
    );
}

#[test]
fn parse_error_empty_command() {
    assert!(matches!(parse(""), Err(ParseError::EmptyCommand)));
    assert!(matches!(parse("a && | b"), Err(ParseError::EmptyCommand)));
}

#[test]
fn parse_error_unexpected_eof() {
    assert!(matches!(parse("echo >"), Err(ParseError::UnexpectedEof)));
}

#[test]
fn parse_error_unexpected_token() {
    assert!(matches!(parse("echo > |"), Err(ParseError::UnexpectedToken(Token::Pipe))));
    assert!(matches!(parse("echo a )"), Err(ParseError::UnexpectedToken(Token::RParen))));
    assert!(matches!(parse("echo (a)"), Err(ParseError::UnexpectedToken(Token::LParen))));
    assert!(matches!(parse("(echo a) b"), Err(ParseError::UnexpectedToken(Token::Word(_)))));
}

#[test]
fn parse_error_unmatched_paren() {
    assert!(matches!(parse("(echo a"), Err(ParseError::Unmatched('('))));
}

#[test]
fn parse_comment_only_is_empty() {
    assert!(matches!(parse("# nothing"), Err(ParseError::EmptyCommand)));
}

#[test]
fn parse_clone_keeps_the_tree() {
    let expr = parse("a $(b | c) 'x' > f && (d ; e) || g").unwrap();
    assert_eq!(expr.clone(), expr);
}
