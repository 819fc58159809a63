//! # Parser
//!
//! Converts a shell input string into an [`Expr`] syntax tree.
//!
//! This is a hand-written recursive-descent parser that supports a useful
//! subset of Bash syntax without depending on any external parser crate.

use vstd::prelude::*;

pub mod ast;
pub mod lexer;

pub use ast::{Expr, RedirectMode, Word};
pub use lexer::{Lexer, Token};

use ast::{words_model, SpecExpr, SpecWordPart};
use lexer::{lex_tokens, tokens_model, SpecToken};

verus! {

/// Why an input could not be parsed.
#[derive(Debug)]
pub enum ParseError {
    /// A token that the grammar does not allow where it stands.
    UnexpectedToken(Token),
    /// The input ended where a word was required.
    UnexpectedEof,
    /// An opening quote or parenthesis without its closing partner.
    Unmatched(char),
    /// A command without a word.
    EmptyCommand,
}

/// Mathematical model of a [`ParseError`].
pub enum SpecParseError {
    UnexpectedToken(SpecToken),
    UnexpectedEof,
    Unmatched(char),
    EmptyCommand,
}

impl View for ParseError {
    type V = SpecParseError;

    open spec fn view(&self) -> SpecParseError {
        match self {
            ParseError::UnexpectedToken(t) => SpecParseError::UnexpectedToken(t@),
            ParseError::UnexpectedEof => SpecParseError::UnexpectedEof,
            ParseError::Unmatched(c) => SpecParseError::Unmatched(*c),
            ParseError::EmptyCommand => SpecParseError::EmptyCommand,
        }
    }
}

pub type ParseResult<T> = Result<T, ParseError>;

/// The model of a parse result.
pub open spec fn parse_result_model(r: ParseResult<Expr>) -> Result<SpecExpr, SpecParseError> {
    match r {
        Ok(e) => Ok(e@),
        Err(e) => Err(e@),
    }
}

// ─── grammar over tokens ────────────────────────────────────────────────────
//
// Each `parse_*_at(toks, p)` describes the phrase that starts at token `p`: the
// expression it denotes and how many tokens it takes, or the first error.
// Past the end of the tokens, every token reads as `Eof`.

/// The token at `p`, or `Eof` past the end.
pub open spec fn tok_at(toks: Seq<SpecToken>, p: nat) -> SpecToken {
    if p < toks.len() {
        toks[p as int]
    } else {
        SpecToken::Eof
    }
}

/// The number of tokens from `p` to the end.
pub open spec fn remaining(toks: Seq<SpecToken>, p: nat) -> nat {
    if p < toks.len() {
        (toks.len() - p) as nat
    } else {
        0
    }
}

/// A phrase that follows `d` tokens already taken.
pub open spec fn after(d: nat, r: Result<(SpecExpr, nat), SpecParseError>) -> Result<(SpecExpr, nat), SpecParseError> {
    match r {
        Ok((e, k)) => Ok((e, d + k)),
        Err(x) => Err(x),
    }
}

/// Tokens after which a `;` ends the list.
pub open spec fn ends_list(t: SpecToken) -> bool {
    t is Eof || t is RParen || t is And || t is Or || t is Semi
}

/// Tokens that end the words of a simple command.
pub open spec fn ends_command(t: SpecToken) -> bool {
    t is Pipe || t is And || t is Or || t is Semi || t is RParen || t is RedirectOut
        || t is RedirectAppend || t is RedirectIn || t is Eof
}

/// The redirection that a token introduces, if any.
pub open spec fn redirect_mode_of(t: SpecToken) -> Option<RedirectMode> {
    match t {
        SpecToken::RedirectOut => Some(RedirectMode::Overwrite),
        SpecToken::RedirectAppend => Some(RedirectMode::Append),
        SpecToken::RedirectIn => Some(RedirectMode::Input),
        _ => None,
    }
}

/// The maximal run of words from `p` on.
pub open spec fn words_at(toks: Seq<SpecToken>, p: nat) -> Seq<Seq<SpecWordPart>>
    decreases remaining(toks, p),
{
    match tok_at(toks, p) {
        SpecToken::Word(w) => seq![w] + words_at(toks, p + 1),
        _ => seq![],
    }
}

/// simple_command = word+
pub open spec fn parse_simple_at(toks: Seq<SpecToken>, p: nat) -> Result<(SpecExpr, nat), SpecParseError> {
    let ws = words_at(toks, p);
    let stop = tok_at(toks, p + ws.len());
    if !ends_command(stop) {
        Err(SpecParseError::UnexpectedToken(stop))
    } else if ws.len() == 0 {
        Err(SpecParseError::EmptyCommand)
    } else {
        Ok((SpecExpr::Command { name: ws[0], args: ws.drop_first() }, ws.len()))
    }
}

/// The redirections `('>' | '>>' | '<') word` that follow `e` from `p` on.
pub open spec fn parse_redirections(toks: Seq<SpecToken>, e: SpecExpr, p: nat) -> Result<(SpecExpr, nat), SpecParseError>
    decreases remaining(toks, p),
{
    match redirect_mode_of(tok_at(toks, p)) {
        None => Ok((e, 0)),
        Some(mode) => match tok_at(toks, p + 1) {
            SpecToken::Word(file) => after(
                2,
                parse_redirections(toks, SpecExpr::Redirect { expr: Box::new(e), file, mode }, p + 2),
            ),
            SpecToken::Eof => Err(SpecParseError::UnexpectedEof),
            t => Err(SpecParseError::UnexpectedToken(t)),
        },
    }
}

/// command = '(' list ')' | simple_command
pub open spec fn parse_command_at(toks: Seq<SpecToken>, p: nat) -> Result<(SpecExpr, nat), SpecParseError>
    decreases remaining(toks, p), 1nat,
{
    if tok_at(toks, p) is LParen {
        match parse_list_at(toks, p + 1) {
            Err(x) => Err(x),
            Ok((inner, k)) => match tok_at(toks, p + 1 + k) {
                SpecToken::RParen => Ok((SpecExpr::Subshell { expr: Box::new(inner) }, k + 2)),
                SpecToken::Eof => Err(SpecParseError::Unmatched('(')),
                t => Err(SpecParseError::UnexpectedToken(t)),
            },
        }
    } else {
        parse_simple_at(toks, p)
    }
}

/// redirect = command redirection*
pub open spec fn parse_redirect_at(toks: Seq<SpecToken>, p: nat) -> Result<(SpecExpr, nat), SpecParseError>
    decreases remaining(toks, p), 2nat,
{
    match parse_command_at(toks, p) {
        Err(x) => Err(x),
        Ok((c, k)) => after(k, parse_redirections(toks, c, p + k)),
    }
}

/// The `'|' redirect` continuations of the pipeline `left` from `p` on.
pub open spec fn parse_pipeline_rest(toks: Seq<SpecToken>, left: SpecExpr, p: nat) -> Result<(SpecExpr, nat), SpecParseError>
    decreases remaining(toks, p), 3nat,
{
    if tok_at(toks, p) is Pipe {
        match parse_redirect_at(toks, p + 1) {
            Err(x) => Err(x),
            Ok((right, k)) => after(
                1 + k,
                parse_pipeline_rest(toks, SpecExpr::Pipe { left: Box::new(left), right: Box::new(right) }, p + 1 + k),
            ),
        }
    } else {
        Ok((left, 0))
    }
}

/// pipeline = redirect ('|' redirect)*
pub open spec fn parse_pipeline_at(toks: Seq<SpecToken>, p: nat) -> Result<(SpecExpr, nat), SpecParseError>
    decreases remaining(toks, p), 4nat,
{
    match parse_redirect_at(toks, p) {
        Err(x) => Err(x),
        Ok((left, k)) => after(k, parse_pipeline_rest(toks, left, p + k)),
    }
}

/// The `('&&' | '||' | ';') pipeline` continuations of the list `left` from `p` on; a `;`
/// before the end of the input, `)`, `&&`, `||` or another `;` ends the list.
pub open spec fn parse_list_rest(toks: Seq<SpecToken>, left: SpecExpr, p: nat) -> Result<(SpecExpr, nat), SpecParseError>
    decreases remaining(toks, p), 5nat,
{
    match tok_at(toks, p) {
        SpecToken::And => match parse_pipeline_at(toks, p + 1) {
            Err(x) => Err(x),
            Ok((right, k)) => after(
                1 + k,
                parse_list_rest(toks, SpecExpr::And { left: Box::new(left), right: Box::new(right) }, p + 1 + k),
            ),
        },
        SpecToken::Or => match parse_pipeline_at(toks, p + 1) {
            Err(x) => Err(x),
            Ok((right, k)) => after(
                1 + k,
                parse_list_rest(toks, SpecExpr::Or { left: Box::new(left), right: Box::new(right) }, p + 1 + k),
            ),
        },
        SpecToken::Semi => if ends_list(tok_at(toks, p + 1)) {
            Ok((left, 1))
        } else {
            match parse_pipeline_at(toks, p + 1) {
                Err(x) => Err(x),
                Ok((right, k)) => after(
                    1 + k,
                    parse_list_rest(
                        toks,
                        SpecExpr::Sequence { left: Box::new(left), right: Box::new(right) },
                        p + 1 + k,
                    ),
                ),
            }
        },
        _ => Ok((left, 0)),
    }
}

/// list = pipeline ( ('&&' | '||' | ';') pipeline )*
pub open spec fn parse_list_at(toks: Seq<SpecToken>, p: nat) -> Result<(SpecExpr, nat), SpecParseError>
    decreases remaining(toks, p), 6nat,
{
    match parse_pipeline_at(toks, p) {
        Err(x) => Err(x),
        Ok((left, k)) => after(k, parse_list_rest(toks, left, p + k)),
    }
}

/// The expression that a whole token stream denotes: a list followed by `Eof`.
pub open spec fn parse_tokens(toks: Seq<SpecToken>) -> Result<SpecExpr, SpecParseError> {
    match parse_list_at(toks, 0) {
        Err(x) => Err(x),
        Ok((e, k)) => match tok_at(toks, k) {
            SpecToken::Eof => Ok(e),
            t => Err(SpecParseError::UnexpectedToken(t)),
        },
    }
}

/// The expression that a shell input denotes: its tokens, parsed.
pub open spec fn spec_parse(input: Seq<char>) -> Result<SpecExpr, SpecParseError>
    decreases input.len(), input.len() + 1, 0int,
{
    match lex_tokens(input, 0) {
        Err(x) => Err(x),
        Ok(toks) => parse_tokens(toks),
    }
}

/// Parse a shell input string into an expression tree.
pub fn parse(input: &str) -> (r: ParseResult<Expr>)
    ensures
        parse_result_model(r) == spec_parse(input@),
    decreases input@.len(), input@.len() + 1, 0int,
{
    let lexer = Lexer::new(input);
    let tokens = match lexer.tokenize() {
        Ok(tokens) => tokens,
        Err(e) => return Err(e),
    };
    let mut parser = Parser::new(tokens);
    let expr = match parser.parse_list() {
        Ok(expr) => expr,
        Err(e) => return Err(e),
    };
    if !parser.is_done() {
        return Err(ParseError::UnexpectedToken(parser.peek().clone()));
    }
    Ok(expr)
}

// ─── the parser ─────────────────────────────────────────────────────────────

/// Whether an exec parse result agrees with the grammar's verdict `spec` for the phrase
/// that started at token `p0`, the parser now standing at `p1`.
pub open spec fn parsed_as(
    r: ParseResult<Expr>,
    spec: Result<(SpecExpr, nat), SpecParseError>,
    p0: nat,
    p1: nat,
) -> bool {
    match spec {
        Ok((e, k)) => r matches Ok(x) && x@ == e && p1 == p0 + k,
        Err(err) => r matches Err(x) && x@ == err,
    }
}

pub proof fn lemma_after_after(a: nat, b: nat, r: Result<(SpecExpr, nat), SpecParseError>)
    ensures
        after(a, after(b, r)) == after(a + b, r),
{
}

struct Parser {
    tokens: Vec<Token>,
    pos: usize,
}

impl Parser {
    spec fn toks(&self) -> Seq<SpecToken> {
        tokens_model(self.tokens@)
    }

    fn new(tokens: Vec<Token>) -> (r: Self)
        ensures
            r.tokens@ == tokens@,
            r.pos == 0,
    {
        Parser { tokens, pos: 0 }
    }

    fn peek(&self) -> (r: Token)
        ensures
            r@ == tok_at(self.toks(), self.pos as nat),
    {
        if self.pos < self.tokens.len() {
            self.tokens[self.pos].clone()
        } else {
            Token::Eof
        }
    }

    fn advance(&mut self) -> (r: Token)
        requires
            old(self).pos <= old(self).tokens.len(),
        ensures
            r@ == tok_at(old(self).toks(), old(self).pos as nat),
            final(self).tokens@ == old(self).tokens@,
            final(self).pos == if old(self).pos < old(self).tokens.len() {
                old(self).pos + 1
            } else {
                old(self).pos as int
            },
    {
        let tok = self.peek();
        if self.pos < self.tokens.len() {
            self.pos = self.pos + 1;
        }
        tok
    }

    fn is_done(&self) -> (r: bool)
        ensures
            r == (tok_at(self.toks(), self.pos as nat) is Eof),
    {
        matches!(self.peek(), Token::Eof)
    }

    fn expect_word(&mut self) -> (r: ParseResult<Word>)
        requires
            old(self).pos <= old(self).tokens.len(),
        ensures
            final(self).tokens@ == old(self).tokens@,
            final(self).pos <= final(self).tokens.len(),
            match tok_at(old(self).toks(), old(self).pos as nat) {
                SpecToken::Word(w) => r matches Ok(x) && x@ == w && final(self).pos == old(self).pos + 1,
                SpecToken::Eof => r matches Err(x) && x@ == SpecParseError::UnexpectedEof,
                t => r matches Err(x) && x@ == SpecParseError::UnexpectedToken(t),
            },
    {
        match self.advance() {
            Token::Word(parts) => Ok(parts),
            Token::Eof => Err(ParseError::UnexpectedEof),
            other => Err(ParseError::UnexpectedToken(other)),
        }
    }

    /// list = pipeline ( ('&&'|'||'|';'|'&') pipeline )*
    #[verifier::rlimit(40)]
    fn parse_list(&mut self) -> (r: ParseResult<Expr>)
        requires
            old(self).pos <= old(self).tokens.len(),
        ensures
            final(self).tokens@ == old(self).tokens@,
            final(self).pos <= final(self).tokens.len(),
            parsed_as(r, parse_list_at(old(self).toks(), old(self).pos as nat), old(self).pos as nat, final(self).pos as nat),
        decreases remaining(old(self).toks(), old(self).pos as nat), 6nat,
    {
        let ghost t = self.toks();
        let ghost p0 = self.pos as nat;
        let mut left = match self.parse_pipeline() {
            Ok(e) => e,
            Err(x) => return Err(x),
        };
        loop
            invariant_except_break
                self.tokens@ == old(self).tokens@,
                t == self.toks(),
                p0 == old(self).pos,
                p0 <= self.pos <= self.tokens.len(),
                parse_list_at(t, p0) == after((self.pos - p0) as nat, parse_list_rest(t, left@, self.pos as nat)),
            ensures
                self.tokens@ == old(self).tokens@,
                p0 <= self.pos <= self.tokens.len(),
                parse_list_at(t, p0) == Ok::<(SpecExpr, nat), SpecParseError>((left@, (self.pos - p0) as nat)),
            decreases remaining(t, self.pos as nat),
        {
            let ghost p = self.pos as nat;
            match self.peek() {
                Token::And => {
                    self.advance();
                    let ghost p1 = self.pos as nat;
                    let right = match self.parse_pipeline() {
                        Ok(e) => e,
                        Err(x) => {
                            assert(parse_list_rest(t, left@, p) == Err::<(SpecExpr, nat), SpecParseError>(x@));
                            return Err(x);
                        },
                    };
                    assert(parse_list_rest(t, left@, p) == after(1 + (self.pos - p1) as nat, parse_list_rest(t, SpecExpr::And { left: Box::new(left@), right: Box::new(right@) }, self.pos as nat)));
                    proof {
                        lemma_after_after((p - p0) as nat, (self.pos - p) as nat, parse_list_rest(t, SpecExpr::And { left: Box::new(left@), right: Box::new(right@) }, self.pos as nat));
                    }
                    left = Expr::And { left: Box::new(left), right: Box::new(right) };
                },
                Token::Or => {
                    self.advance();
                    let ghost p1 = self.pos as nat;
                    let right = match self.parse_pipeline() {
                        Ok(e) => e,
                        Err(x) => {
                            assert(parse_list_rest(t, left@, p) == Err::<(SpecExpr, nat), SpecParseError>(x@));
                            return Err(x);
                        },
                    };
                    assert(parse_list_rest(t, left@, p) == after(1 + (self.pos - p1) as nat, parse_list_rest(t, SpecExpr::Or { left: Box::new(left@), right: Box::new(right@) }, self.pos as nat)));
                    proof {
                        lemma_after_after((p - p0) as nat, (self.pos - p) as nat, parse_list_rest(t, SpecExpr::Or { left: Box::new(left@), right: Box::new(right@) }, self.pos as nat));
                    }
                    left = Expr::Or { left: Box::new(left), right: Box::new(right) };
                },
                Token::Semi => {
                    self.advance();
                    if self.is_done() || matches!(self.peek(), Token::RParen | Token::And | Token::Or | Token::Semi) {
                        // a trailing `;` ends the list
                        break;
                    }
                    let ghost p1 = self.pos as nat;
                    let right = match self.parse_pipeline() {
                        Ok(e) => e,
                        Err(x) => {
                            assert(parse_list_rest(t, left@, p) == Err::<(SpecExpr, nat), SpecParseError>(x@));
                            return Err(x);
                        },
                    };
                    assert(parse_list_rest(t, left@, p) == after(1 + (self.pos - p1) as nat, parse_list_rest(t, SpecExpr::Sequence { left: Box::new(left@), right: Box::new(right@) }, self.pos as nat)));
                    proof {
                        lemma_after_after((p - p0) as nat, (self.pos - p) as nat, parse_list_rest(t, SpecExpr::Sequence { left: Box::new(left@), right: Box::new(right@) }, self.pos as nat));
                    }
                    left = Expr::Sequence { left: Box::new(left), right: Box::new(right) };
                },
                _ => break,
            }
        }
        Ok(left)
    }

    /// pipeline = command ('|' command)*
    fn parse_pipeline(&mut self) -> (r: ParseResult<Expr>)
        requires
            old(self).pos <= old(self).tokens.len(),
        ensures
            final(self).tokens@ == old(self).tokens@,
            final(self).pos <= final(self).tokens.len(),
            parsed_as(r, parse_pipeline_at(old(self).toks(), old(self).pos as nat), old(self).pos as nat, final(self).pos as nat),
        decreases remaining(old(self).toks(), old(self).pos as nat), 4nat,
    {
        let ghost t = self.toks();
        let ghost p0 = self.pos as nat;
        let mut left = match self.parse_redirect() {
            Ok(e) => e,
            Err(x) => return Err(x),
        };
        while matches!(self.peek(), Token::Pipe)
            invariant
                self.tokens@ == old(self).tokens@,
                t == self.toks(),
                p0 == old(self).pos,
                p0 <= self.pos <= self.tokens.len(),
                parse_pipeline_at(t, p0) == after((self.pos - p0) as nat, parse_pipeline_rest(t, left@, self.pos as nat)),
            decreases remaining(t, self.pos as nat),
        {
            let ghost p = self.pos as nat;
            self.advance();
            let right = match self.parse_redirect() {
                Ok(e) => e,
                Err(x) => return Err(x),
            };
            proof {
                lemma_after_after((p - p0) as nat, (self.pos - p) as nat, parse_pipeline_rest(t, SpecExpr::Pipe { left: Box::new(left@), right: Box::new(right@) }, self.pos as nat));
            }
            left = Expr::Pipe { left: Box::new(left), right: Box::new(right) };
        }
        Ok(left)
    }

    /// redirect = command (redirection)*
    fn parse_redirect(&mut self) -> (r: ParseResult<Expr>)
        requires
            old(self).pos <= old(self).tokens.len(),
        ensures
            final(self).tokens@ == old(self).tokens@,
            final(self).pos <= final(self).tokens.len(),
            parsed_as(r, parse_redirect_at(old(self).toks(), old(self).pos as nat), old(self).pos as nat, final(self).pos as nat),
        decreases remaining(old(self).toks(), old(self).pos as nat), 2nat,
    {
        let ghost t = self.toks();
        let ghost p0 = self.pos as nat;
        let mut cmd = match self.parse_command() {
            Ok(e) => e,
            Err(x) => return Err(x),
        };
        loop
            invariant_except_break
                self.tokens@ == old(self).tokens@,
                t == self.toks(),
                p0 == old(self).pos,
                p0 <= self.pos <= self.tokens.len(),
                parse_redirect_at(t, p0) == after((self.pos - p0) as nat, parse_redirections(t, cmd@, self.pos as nat)),
            ensures
                self.tokens@ == old(self).tokens@,
                p0 <= self.pos <= self.tokens.len(),
                parse_redirect_at(t, p0) == Ok::<(SpecExpr, nat), SpecParseError>((cmd@, (self.pos - p0) as nat)),
            decreases remaining(t, self.pos as nat),
        {
            let ghost p = self.pos as nat;
            let mode = match self.peek() {
                Token::RedirectOut => RedirectMode::Overwrite,
                Token::RedirectAppend => RedirectMode::Append,
                Token::RedirectIn => RedirectMode::Input,
                _ => break,
            };
            self.advance();
            let file = match self.expect_word() {
                Ok(w) => w,
                Err(x) => return Err(x),
            };
            proof {
                lemma_after_after((p - p0) as nat, 2, parse_redirections(t, SpecExpr::Redirect { expr: Box::new(cmd@), file: file@, mode }, self.pos as nat));
            }
            cmd = Expr::Redirect { expr: Box::new(cmd), file, mode };
        }
        Ok(cmd)
    }

    /// command = subshell | simple_command
    fn parse_command(&mut self) -> (r: ParseResult<Expr>)
        requires
            old(self).pos <= old(self).tokens.len(),
        ensures
            final(self).tokens@ == old(self).tokens@,
            final(self).pos <= final(self).tokens.len(),
            parsed_as(r, parse_command_at(old(self).toks(), old(self).pos as nat), old(self).pos as nat, final(self).pos as nat),
        decreases remaining(old(self).toks(), old(self).pos as nat), 1nat,
    {
        if matches!(self.peek(), Token::LParen) {
            return self.parse_subshell();
        }
        self.parse_simple_command()
    }

    fn parse_subshell(&mut self) -> (r: ParseResult<Expr>)
        requires
            old(self).pos <= old(self).tokens.len(),
            tok_at(old(self).toks(), old(self).pos as nat) is LParen,
        ensures
            final(self).tokens@ == old(self).tokens@,
            final(self).pos <= final(self).tokens.len(),
            parsed_as(r, parse_command_at(old(self).toks(), old(self).pos as nat), old(self).pos as nat, final(self).pos as nat),
        decreases remaining(old(self).toks(), old(self).pos as nat), 0nat,
    {
        // consume '('
        self.advance();
        let inner = match self.parse_list() {
            Ok(e) => e,
            Err(x) => return Err(x),
        };
        match self.advance() {
            Token::RParen => {},
            Token::Eof => return Err(ParseError::Unmatched('(')),
            other => return Err(ParseError::UnexpectedToken(other)),
        }
        Ok(Expr::Subshell { expr: Box::new(inner) })
    }

    fn parse_simple_command(&mut self) -> (r: ParseResult<Expr>)
        requires
            old(self).pos <= old(self).tokens.len(),
        ensures
            final(self).tokens@ == old(self).tokens@,
            final(self).pos <= final(self).tokens.len(),
            parsed_as(r, parse_simple_at(old(self).toks(), old(self).pos as nat), old(self).pos as nat, final(self).pos as nat),
    {
        let ghost t = self.toks();
        let ghost p0 = self.pos as nat;
        let mut words: Vec<Word> = Vec::new();
        assert(words_model(words) =~= seq![]);
        loop
            invariant_except_break
                self.tokens@ == old(self).tokens@,
                t == self.toks(),
                p0 == old(self).pos,
                self.pos <= self.tokens.len(),
                self.pos == p0 + words.len(),
                words_at(t, p0) == words_model(words) + words_at(t, self.pos as nat),
            ensures
                self.tokens@ == old(self).tokens@,
                self.pos <= self.tokens.len(),
                self.pos == p0 + words.len(),
                words_at(t, p0) == words_model(words),
                ends_command(tok_at(t, self.pos as nat)),
            decreases remaining(t, self.pos as nat),
        {
            match self.peek() {
                Token::Word(w) => {
                    self.advance();
                    let ghost before = words;
                    words.push(w);
                    assert(words_model(words) =~= words_model(before).push(w@));
                    assert(words_model(words) + words_at(t, self.pos as nat) =~= words_model(before) + words_at(t, (self.pos - 1) as nat));
                },
                // these tokens end the command
                Token::Pipe | Token::And | Token::Or | Token::Semi | Token::RParen | Token::RedirectOut
                | Token::RedirectAppend | Token::RedirectIn | Token::Eof => {
                    assert(words_at(t, self.pos as nat) =~= seq![]);
                    assert(words_model(words) + seq![] =~= words_model(words));
                    break;
                },
                other => return Err(ParseError::UnexpectedToken(other)),
            }
        }
        if words.len() == 0 {
            return Err(ParseError::EmptyCommand);
        }
        let ghost all = words_model(words);
        let name = words.remove(0);
        assert(words_model(words) =~= all.drop_first());
        Ok(Expr::Command { name, args: words })
    }
}

/// The words of the run `ws` that starts at `p + i`, through the first token that is not a word.
proof fn lemma_words_at_run(toks: Seq<SpecToken>, p: nat, ws: Seq<Seq<SpecWordPart>>, i: nat)
    requires
        i <= ws.len(),
        forall|j: int| 0 <= j < ws.len() ==> tok_at(toks, (p + j) as nat) == SpecToken::Word(#[trigger] ws[j]),
        !(tok_at(toks, p + ws.len()) is Word),
    ensures
        words_at(toks, p + i) == ws.subrange(i as int, ws.len() as int),
    decreases ws.len() - i,
{
    if i < ws.len() {
        lemma_words_at_run(toks, p, ws, i + 1);
        assert(tok_at(toks, (p + i) as nat) == SpecToken::Word(ws[i as int]));
        assert(ws.subrange(i as int, ws.len() as int) =~= seq![ws[i as int]] + ws.subrange(i + 1int, ws.len() as int));
    } else {
        assert(ws.subrange(i as int, ws.len() as int) =~= Seq::<Seq<SpecWordPart>>::empty());
    }
}

/// Law (`simple_command = word+`): over a run of words `ws` from token `p` that ends at a
/// token `t` that is no word, a simple command is refused with `t` when `t` is `(`, is
/// empty when the run is, and otherwise is the command named by the first word with the
/// others as arguments, taking exactly the words and leaving `t`.
pub proof fn law_simple_command_over_words(toks: Seq<SpecToken>, p: nat, ws: Seq<Seq<SpecWordPart>>)
    requires
        forall|j: int| 0 <= j < ws.len() ==> tok_at(toks, (p + j) as nat) == SpecToken::Word(#[trigger] ws[j]),
        !(tok_at(toks, p + ws.len()) is Word),
    ensures
        parse_simple_at(toks, p) == if tok_at(toks, p + ws.len()) is LParen {
            Err(SpecParseError::UnexpectedToken(SpecToken::LParen))
        } else if ws.len() == 0 {
            Err(SpecParseError::EmptyCommand)
        } else {
            Ok((SpecExpr::Command { name: ws[0], args: ws.drop_first() }, ws.len()))
        },
{
    lemma_words_at_run(toks, p, ws, 0);
    assert(ws.subrange(0, ws.len() as int) =~= ws);
}

/// Law: `&&` and `||` group to the left: for pipelines `a`, `b`, `c` in a row, `a && b || c`
/// is `(a && b) || c` — the `||` takes the whole list before it as its left operand.
pub proof fn law_and_then_or_groups_left(
    toks: Seq<SpecToken>,
    p: nat,
    a: SpecExpr,
    ka: nat,
    b: SpecExpr,
    kb: nat,
    c: SpecExpr,
    kc: nat,
)
    requires
        parse_pipeline_at(toks, p) == Ok::<(SpecExpr, nat), SpecParseError>((a, ka)),
        tok_at(toks, p + ka) is And,
        parse_pipeline_at(toks, p + ka + 1) == Ok::<(SpecExpr, nat), SpecParseError>((b, kb)),
        tok_at(toks, p + ka + 1 + kb) is Or,
        parse_pipeline_at(toks, p + ka + kb + 2) == Ok::<(SpecExpr, nat), SpecParseError>((c, kc)),
        !(tok_at(toks, p + ka + kb + 2 + kc) is And || tok_at(toks, p + ka + kb + 2 + kc) is Or
            || tok_at(toks, p + ka + kb + 2 + kc) is Semi),
    ensures
        parse_list_at(toks, p) == Ok::<(SpecExpr, nat), SpecParseError>((
            SpecExpr::Or {
                left: Box::new(SpecExpr::And { left: Box::new(a), right: Box::new(b) }),
                right: Box::new(c),
            },
            ka + kb + kc + 2,
        )),
{
    assert(p + ka + 1 + kb + 1 == p + ka + kb + 2);
    let ab = SpecExpr::And { left: Box::new(a), right: Box::new(b) };
    let abc = SpecExpr::Or { left: Box::new(ab), right: Box::new(c) };
    assert(parse_list_rest(toks, abc, p + ka + kb + 2 + kc) == Ok::<(SpecExpr, nat), SpecParseError>((abc, 0nat)));
    assert(parse_list_rest(toks, ab, p + ka + 1 + kb) == Ok::<(SpecExpr, nat), SpecParseError>((abc, 1 + kc)));
    assert(parse_list_rest(toks, a, p + ka) == Ok::<(SpecExpr, nat), SpecParseError>((abc, 1 + kb + 1 + kc)));
}

/// Law: `||` and `&&` group to the left: for pipelines `a`, `b`, `c` in a row, `a || b && c`
/// is `(a || b) && c` — the `&&` takes the whole list before it as its left operand.
pub proof fn law_or_then_and_groups_left(
    toks: Seq<SpecToken>,
    p: nat,
    a: SpecExpr,
    ka: nat,
    b: SpecExpr,
    kb: nat,
    c: SpecExpr,
    kc: nat,
)
    requires
        parse_pipeline_at(toks, p) == Ok::<(SpecExpr, nat), SpecParseError>((a, ka)),
        tok_at(toks, p + ka) is Or,
        parse_pipeline_at(toks, p + ka + 1) == Ok::<(SpecExpr, nat), SpecParseError>((b, kb)),
        tok_at(toks, p + ka + 1 + kb) is And,
        parse_pipeline_at(toks, p + ka + kb + 2) == Ok::<(SpecExpr, nat), SpecParseError>((c, kc)),
        !(tok_at(toks, p + ka + kb + 2 + kc) is And || tok_at(toks, p + ka + kb + 2 + kc) is Or
            || tok_at(toks, p + ka + kb + 2 + kc) is Semi),
    ensures
        parse_list_at(toks, p) == Ok::<(SpecExpr, nat), SpecParseError>((
            SpecExpr::And {
                left: Box::new(SpecExpr::Or { left: Box::new(a), right: Box::new(b) }),
                right: Box::new(c),
            },
            ka + kb + kc + 2,
        )),
{
    assert(p + ka + 1 + kb + 1 == p + ka + kb + 2);
    let ab = SpecExpr::Or { left: Box::new(a), right: Box::new(b) };
    let abc = SpecExpr::And { left: Box::new(ab), right: Box::new(c) };
    assert(parse_list_rest(toks, abc, p + ka + kb + 2 + kc) == Ok::<(SpecExpr, nat), SpecParseError>((abc, 0nat)));
    assert(parse_list_rest(toks, ab, p + ka + 1 + kb) == Ok::<(SpecExpr, nat), SpecParseError>((abc, 1 + kc)));
    assert(parse_list_rest(toks, a, p + ka) == Ok::<(SpecExpr, nat), SpecParseError>((abc, 1 + kb + 1 + kc)));
}

/// Law: a command after `|` may carry a redirection: for commands `a`, `b` and a word `f`,
/// `a | b > f` (or `>>`, `<`) is `a | (b > f)`, taking all of its tokens, and never fails.
pub proof fn law_pipe_right_side_takes_redirections(
    toks: Seq<SpecToken>,
    p: nat,
    a: SpecExpr,
    ka: nat,
    b: SpecExpr,
    kb: nat,
    mode: RedirectMode,
    f: Seq<SpecWordPart>,
)
    requires
        parse_command_at(toks, p) == Ok::<(SpecExpr, nat), SpecParseError>((a, ka)),
        tok_at(toks, p + ka) is Pipe,
        parse_command_at(toks, p + ka + 1) == Ok::<(SpecExpr, nat), SpecParseError>((b, kb)),
        redirect_mode_of(tok_at(toks, p + ka + 1 + kb)) == Some(mode),
        tok_at(toks, p + ka + kb + 2) == SpecToken::Word(f),
        redirect_mode_of(tok_at(toks, p + ka + kb + 3)) is None,
        !(tok_at(toks, p + ka + kb + 3) is Pipe),
    ensures
        parse_pipeline_at(toks, p) == Ok::<(SpecExpr, nat), SpecParseError>((
            SpecExpr::Pipe {
                left: Box::new(a),
                right: Box::new(SpecExpr::Redirect { expr: Box::new(b), file: f, mode }),
            },
            ka + kb + 3,
        )),
{
    let q = p + ka + 1 + kb;
    assert(q + 1 == p + ka + kb + 2);
    assert(q + 2 == p + ka + kb + 3);
    let bf = SpecExpr::Redirect { expr: Box::new(b), file: f, mode };
    assert(parse_redirections(toks, bf, q + 2) == Ok::<(SpecExpr, nat), SpecParseError>((bf, 0nat)));
    assert(parse_redirections(toks, b, q) == Ok::<(SpecExpr, nat), SpecParseError>((bf, 2nat)));
    assert(parse_redirect_at(toks, p + ka + 1) == Ok::<(SpecExpr, nat), SpecParseError>((bf, kb + 2)));
    assert(!(tok_at(toks, p + ka) is RedirectOut || tok_at(toks, p + ka) is RedirectAppend || tok_at(toks, p + ka) is RedirectIn));
    assert(parse_redirections(toks, a, p + ka) == Ok::<(SpecExpr, nat), SpecParseError>((a, 0nat)));
    assert(parse_redirect_at(toks, p) == Ok::<(SpecExpr, nat), SpecParseError>((a, ka)));
    let pab = SpecExpr::Pipe { left: Box::new(a), right: Box::new(bf) };
    assert(parse_pipeline_rest(toks, pab, p + ka + kb + 3) == Ok::<(SpecExpr, nat), SpecParseError>((pab, 0nat)));
    assert(parse_pipeline_rest(toks, a, p + ka) == Ok::<(SpecExpr, nat), SpecParseError>((pab, kb + 3)));
}

/// Law: `&&`, `||` and `;` have equal precedence and group to the left: whatever list
/// `left` was read so far, the operator and the pipeline `right` after it join it as a whole,
/// `left op right`, and the list goes on from there.
pub proof fn law_list_operator_takes_whole_left(toks: Seq<SpecToken>, left: SpecExpr, p: nat, right: SpecExpr, k: nat)
    requires
        tok_at(toks, p) is And || tok_at(toks, p) is Or || (tok_at(toks, p) is Semi && !ends_list(tok_at(toks, p + 1))),
        parse_pipeline_at(toks, p + 1) == Ok::<(SpecExpr, nat), SpecParseError>((right, k)),
    ensures
        parse_list_rest(toks, left, p) == after(
            1 + k,
            parse_list_rest(
                toks,
                if tok_at(toks, p) is And {
                    SpecExpr::And { left: Box::new(left), right: Box::new(right) }
                } else if tok_at(toks, p) is Or {
                    SpecExpr::Or { left: Box::new(left), right: Box::new(right) }
                } else {
                    SpecExpr::Sequence { left: Box::new(left), right: Box::new(right) }
                },
                p + 1 + k,
            ),
        ),
{
}

} // verus!
