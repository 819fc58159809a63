//! Lexer: converts a raw shell string into a flat token stream.
//!
//! The lexer handles quoting, variable expansion, and command substitution
//! so the parser only needs to deal with structured tokens.

use vstd::prelude::*;

use super::ast::{word_model, SpecWordPart, Word, WordPart};
use super::{parse, spec_parse, ParseError, SpecParseError};
use crate::text::{
    chars_of, is_alphabetic, is_alphanumeric, string_from_chars, unicode_alphabetic,
    unicode_alphanumeric,
};

verus! {

/// Tokens emitted by the lexer.
#[derive(Debug, PartialEq)]
pub enum Token {
    /// A (possibly compound) word.
    Word(Word),
    /// `|`
    Pipe,
    /// `&&`
    And,
    /// `||`
    Or,
    /// `;`
    Semi,
    /// `(`
    LParen,
    /// `)`
    RParen,
    /// `>`
    RedirectOut,
    /// `>>`
    RedirectAppend,
    /// `<`
    RedirectIn,
    /// End of input.
    Eof,
}

/// Mathematical model of a [`Token`].
pub enum SpecToken {
    Word(Seq<SpecWordPart>),
    Pipe,
    And,
    Or,
    Semi,
    LParen,
    RParen,
    RedirectOut,
    RedirectAppend,
    RedirectIn,
    Eof,
}

impl View for Token {
    type V = SpecToken;

    open spec fn view(&self) -> SpecToken {
        match self {
            Token::Word(w) => SpecToken::Word(w@),
            Token::Pipe => SpecToken::Pipe,
            Token::And => SpecToken::And,
            Token::Or => SpecToken::Or,
            Token::Semi => SpecToken::Semi,
            Token::LParen => SpecToken::LParen,
            Token::RParen => SpecToken::RParen,
            Token::RedirectOut => SpecToken::RedirectOut,
            Token::RedirectAppend => SpecToken::RedirectAppend,
            Token::RedirectIn => SpecToken::RedirectIn,
            Token::Eof => SpecToken::Eof,
        }
    }
}

impl Clone for Token {
    fn clone(&self) -> (r: Self)
        ensures
            r@ == self@,
    {
        match self {
            Token::Word(w) => Token::Word(w.clone()),
            Token::Pipe => Token::Pipe,
            Token::And => Token::And,
            Token::Or => Token::Or,
            Token::Semi => Token::Semi,
            Token::LParen => Token::LParen,
            Token::RParen => Token::RParen,
            Token::RedirectOut => Token::RedirectOut,
            Token::RedirectAppend => Token::RedirectAppend,
            Token::RedirectIn => Token::RedirectIn,
            Token::Eof => Token::Eof,
        }
    }
}

/// The models of a sequence of tokens.
pub open spec fn tokens_model(ts: Seq<Token>) -> Seq<SpecToken> {
    ts.map_values(|t: Token| t@)
}

/// The model of the lexer's result.
pub open spec fn tokenize_result_model(r: Result<Vec<Token>, ParseError>) -> Result<Seq<SpecToken>, SpecParseError> {
    match r {
        Ok(ts) => Ok(tokens_model(ts@)),
        Err(e) => Err(e@),
    }
}

// ─── character classes ──────────────────────────────────────────────────────

/// Blanks separate tokens and are otherwise ignored.
pub open spec fn is_blank(c: char) -> bool {
    c == ' ' || c == '\t' || c == '\r'
}

/// Characters that end a word.
pub open spec fn is_word_boundary(c: char) -> bool {
    is_blank(c) || c == '\n' || c == '|' || c == '&' || c == ';' || c == '(' || c == ')' || c == '>'
        || c == '<'
}

/// The ASCII letters.
pub open spec fn is_ascii_letter(c: char) -> bool {
    'a' <= c <= 'z' || 'A' <= c <= 'Z'
}

/// Characters of a variable name: letters, digits and `_`; in ASCII exactly the letters,
/// the digits and `_`.
pub open spec fn is_ident_char(c: char) -> bool {
    if c <= '\x7f' {
        is_ascii_letter(c) || '0' <= c <= '9' || c == '_'
    } else {
        unicode_alphanumeric(c)
    }
}

/// Characters that may start a variable name after `$`: letters and `_`; in ASCII exactly
/// the letters and `_`.
pub open spec fn is_ident_start(c: char) -> bool {
    if c <= '\x7f' {
        is_ascii_letter(c) || c == '_'
    } else {
        unicode_alphabetic(c)
    }
}

/// The character at `p`, or `'\0'` past the end of the input.
pub open spec fn char_at(s: Seq<char>, p: nat) -> char {
    if p < s.len() {
        s[p as int]
    } else {
        '\0'
    }
}

/// A word ends at the end of the input or before a boundary character.
pub open spec fn at_boundary(s: Seq<char>, p: nat) -> bool {
    p >= s.len() || is_word_boundary(s[p as int])
}

// ─── scanning: where constructs end ─────────────────────────────────────────

/// The first position at or after `p` that does not hold a blank.
pub open spec fn skip_blanks(s: Seq<char>, p: nat) -> nat
    decreases s.len() - p,
{
    if p < s.len() && is_blank(s[p as int]) {
        skip_blanks(s, p + 1)
    } else {
        p
    }
}

/// The end of the variable name that starts at `p`.
pub open spec fn ident_end(s: Seq<char>, p: nat) -> nat
    decreases s.len() - p,
{
    if p < s.len() && is_ident_char(s[p as int]) {
        ident_end(s, p + 1)
    } else {
        p
    }
}

/// The first position at or after `p` that holds a single quote, or the length of the input.
pub open spec fn quote_end(s: Seq<char>, p: nat) -> nat
    decreases s.len() - p,
{
    if p < s.len() && s[p as int] != '\'' {
        quote_end(s, p + 1)
    } else {
        p
    }
}

/// The position of the `)` that closes a group, scanning from `p` with `depth` groups open;
/// `None` when the input ends first.
pub open spec fn paren_close(s: Seq<char>, p: nat, depth: nat) -> Option<nat>
    decreases s.len() - p,
{
    if p >= s.len() {
        None
    } else if s[p as int] == '(' {
        paren_close(s, p + 1, depth + 1)
    } else if s[p as int] == ')' {
        if depth <= 1 {
            Some(p)
        } else {
            paren_close(s, p + 1, (depth - 1) as nat)
        }
    } else {
        paren_close(s, p + 1, depth)
    }
}

/// The position just after the expansion that starts with the `$` at `p`.
pub open spec fn dollar_end(s: Seq<char>, p: nat) -> nat {
    let q = p + 1;
    if q >= s.len() {
        q
    } else if s[q as int] == '(' {
        match paren_close(s, q + 1, 1) {
            Some(e) => e + 1,
            None => s.len(),
        }
    } else if s[q as int] == '{' {
        let r = ident_end(s, q + 1);
        if r < s.len() && s[r as int] == '}' {
            r + 1
        } else {
            r
        }
    } else if is_ident_start(s[q as int]) {
        ident_end(s, q)
    } else {
        q
    }
}

/// The position after a backslash escape at `p`: the backslash and the character after it,
/// if there is one.
pub open spec fn escape_end(s: Seq<char>, p: nat) -> nat {
    if p + 1 < s.len() {
        p + 2
    } else {
        p + 1
    }
}

/// The position where the word being read at `p` ends; `in_dq` tells whether `p` lies
/// inside double quotes.
pub open spec fn word_end(s: Seq<char>, p: nat, in_dq: bool) -> nat
    decreases s.len() - p,
{
    if !in_dq {
        if at_boundary(s, p) {
            p
        } else if s[p as int] == '\'' {
            let q = quote_end(s, p + 1);
            proof {
                lemma_quote_end(s, p + 1);
            }
            if q >= s.len() {
                s.len()
            } else {
                word_end(s, q + 1, false)
            }
        } else if s[p as int] == '"' {
            word_end(s, p + 1, true)
        } else if s[p as int] == '$' {
            proof {
                lemma_dollar_end(s, p);
            }
            word_end(s, dollar_end(s, p), false)
        } else if s[p as int] == '\\' {
            word_end(s, escape_end(s, p), false)
        } else {
            word_end(s, p + 1, false)
        }
    } else {
        if p >= s.len() {
            s.len()
        } else if s[p as int] == '"' {
            word_end(s, p + 1, false)
        } else if s[p as int] == '$' {
            proof {
                lemma_dollar_end(s, p);
            }
            word_end(s, dollar_end(s, p), true)
        } else if s[p as int] == '\\' {
            word_end(s, escape_end(s, p), true)
        } else {
            word_end(s, p + 1, true)
        }
    }
}

// ─── lexing: what constructs mean ───────────────────────────────────────────
//
// A command substitution `$(...)` is parsed on its own, so lexing and parsing call each
// other. Each function of that cycle decreases (length of the text, characters left, rank):
// the text of a substitution is shorter than the text around it, and within one text every
// call either moves forward or goes to a function of lower rank at the same place.

/// The parts so far, followed by the pending literal text if there is any.
pub open spec fn flush(parts: Seq<SpecWordPart>, buf: Seq<char>) -> Seq<SpecWordPart> {
    if buf.len() == 0 {
        parts
    } else {
        parts.push(SpecWordPart::Literal(buf))
    }
}

/// A token in front of the tokens of the rest of the input.
pub open spec fn prepend(t: SpecToken, rest: Result<Seq<SpecToken>, SpecParseError>) -> Result<Seq<SpecToken>, SpecParseError> {
    match rest {
        Ok(ts) => Ok(seq![t] + ts),
        Err(e) => Err(e),
    }
}

/// The word part for the `$` at `p`: a variable, a command substitution (whose text is
/// parsed on its own), or a literal `$`.
pub open spec fn lex_dollar(s: Seq<char>, p: nat) -> Result<SpecWordPart, SpecParseError>
    decreases s.len(), s.len() - p, 0int,
{
    let q = p + 1;
    if q >= s.len() {
        Ok(SpecWordPart::Literal(seq!['$']))
    } else if s[q as int] == '(' {
        match paren_close(s, q + 1, 1) {
            None => Err(SpecParseError::Unmatched('(')),
            Some(e) => {
                proof {
                    lemma_paren_close(s, q + 1, 1);
                }
                match spec_parse(s.subrange(q + 1int, e as int)) {
                    Ok(x) => Ok(SpecWordPart::CommandSubst(Box::new(x))),
                    Err(_) => Err(SpecParseError::Unmatched('(')),
                }
            },
        }
    } else if s[q as int] == '{' {
        Ok(SpecWordPart::Variable(s.subrange(q + 1int, ident_end(s, q + 1) as int)))
    } else if is_ident_start(s[q as int]) {
        Ok(SpecWordPart::Variable(s.subrange(q as int, ident_end(s, q) as int)))
    } else {
        Ok(SpecWordPart::Literal(seq!['$']))
    }
}

/// The parts of the word being read at `p`, given the parts already complete and the
/// pending literal text `buf`; `in_dq` tells whether `p` lies inside double quotes.
pub open spec fn lex_word(
    s: Seq<char>,
    p: nat,
    in_dq: bool,
    parts: Seq<SpecWordPart>,
    buf: Seq<char>,
) -> Result<Seq<SpecWordPart>, SpecParseError>
    decreases s.len(), s.len() - p, 1int,
{
    if !in_dq {
        if at_boundary(s, p) {
            Ok(flush(parts, buf))
        } else if s[p as int] == '\'' {
            let q = quote_end(s, p + 1);
            proof {
                lemma_quote_end(s, p + 1);
            }
            if q >= s.len() {
                Err(SpecParseError::Unmatched('\''))
            } else {
                lex_word(s, q + 1, false, parts, buf + s.subrange(p + 1int, q as int))
            }
        } else if s[p as int] == '"' {
            lex_word(s, p + 1, true, parts, buf)
        } else if s[p as int] == '$' {
            proof {
                lemma_dollar_end(s, p);
            }
            match lex_dollar(s, p) {
                Err(e) => Err(e),
                Ok(part) => lex_word(s, dollar_end(s, p), false, flush(parts, buf).push(part), seq![]),
            }
        } else if s[p as int] == '\\' {
            if p + 1 < s.len() && s[p + 1int] == '\n' {
                lex_word(s, p + 2, false, parts, buf)
            } else if p + 1 < s.len() {
                lex_word(s, p + 2, false, parts, buf.push(s[p + 1int]))
            } else {
                lex_word(s, p + 1, false, parts, buf)
            }
        } else {
            lex_word(s, p + 1, false, parts, buf.push(s[p as int]))
        }
    } else {
        if p >= s.len() {
            Err(SpecParseError::Unmatched('"'))
        } else if s[p as int] == '"' {
            lex_word(s, p + 1, false, parts, buf)
        } else if s[p as int] == '$' {
            proof {
                lemma_dollar_end(s, p);
            }
            match lex_dollar(s, p) {
                Err(e) => Err(e),
                Ok(part) => lex_word(s, dollar_end(s, p), true, flush(parts, buf).push(part), seq![]),
            }
        } else if s[p as int] == '\\' {
            lex_word(s, escape_end(s, p), true, parts, buf.push(char_at(s, p + 1)))
        } else {
            lex_word(s, p + 1, true, parts, buf.push(s[p as int]))
        }
    }
}

/// The tokens of the input from position `p` on.
pub open spec fn lex_tokens(s: Seq<char>, p: nat) -> Result<Seq<SpecToken>, SpecParseError>
    decreases s.len(), s.len() - p, 2int,
{
    let q = skip_blanks(s, p);
    proof {
        lemma_skip_blanks(s, p);
    }
    if q >= s.len() || s[q as int] == '#' {
        Ok(seq![SpecToken::Eof])
    } else if s[q as int] == '\n' || s[q as int] == ';' {
        prepend(SpecToken::Semi, lex_tokens(s, q + 1))
    } else if s[q as int] == '|' {
        if char_at(s, q + 1) == '|' {
            prepend(SpecToken::Or, lex_tokens(s, q + 2))
        } else {
            prepend(SpecToken::Pipe, lex_tokens(s, q + 1))
        }
    } else if s[q as int] == '&' {
        if char_at(s, q + 1) == '&' {
            prepend(SpecToken::And, lex_tokens(s, q + 2))
        } else {
            prepend(SpecToken::Semi, lex_tokens(s, q + 1))
        }
    } else if s[q as int] == '(' {
        prepend(SpecToken::LParen, lex_tokens(s, q + 1))
    } else if s[q as int] == ')' {
        prepend(SpecToken::RParen, lex_tokens(s, q + 1))
    } else if s[q as int] == '>' {
        if char_at(s, q + 1) == '>' {
            prepend(SpecToken::RedirectAppend, lex_tokens(s, q + 2))
        } else {
            prepend(SpecToken::RedirectOut, lex_tokens(s, q + 1))
        }
    } else if s[q as int] == '<' {
        prepend(SpecToken::RedirectIn, lex_tokens(s, q + 1))
    } else {
        proof {
            lemma_word_end(s, q, false);
        }
        match lex_word(s, q, false, seq![], seq![]) {
            Err(e) => Err(e),
            Ok(w) => prepend(SpecToken::Word(w), lex_tokens(s, word_end(s, q, false))),
        }
    }
}

/// The tokens of a whole input.
pub open spec fn spec_tokenize(s: Seq<char>) -> Result<Seq<SpecToken>, SpecParseError> {
    lex_tokens(s, 0)
}

// ─── the lexer ──────────────────────────────────────────────────────────────

/// The models of a sequence of word parts.
pub open spec fn parts_model(ps: Seq<WordPart>) -> Seq<SpecWordPart> {
    ps.map_values(|p: WordPart| p@)
}

/// The tokens read so far in front of the tokens of the rest of the input.
pub open spec fn prepend_all(ts: Seq<SpecToken>, rest: Result<Seq<SpecToken>, SpecParseError>) -> Result<Seq<SpecToken>, SpecParseError> {
    match rest {
        Ok(r) => Ok(ts + r),
        Err(e) => Err(e),
    }
}

pub open spec fn part_result_model(r: Result<WordPart, ParseError>) -> Result<SpecWordPart, SpecParseError> {
    match r {
        Ok(p) => Ok(p@),
        Err(e) => Err(e@),
    }
}

pub open spec fn word_result_model(r: Result<Word, ParseError>) -> Result<Seq<SpecWordPart>, SpecParseError> {
    match r {
        Ok(w) => Ok(w@),
        Err(e) => Err(e@),
    }
}

/// Reads the characters of a shell input and groups them into tokens.
pub struct Lexer<'a> {
    src: &'a str,
    chars: Vec<char>,
    pos: usize,
}

/// Moves the pending literal text, if there is any, into the parts.
fn flush_literal(parts: &mut Vec<WordPart>, buf: &mut Vec<char>)
    ensures
        parts_model(final(parts)@) == flush(parts_model(old(parts)@), old(buf)@),
        final(buf)@ == Seq::<char>::empty(),
{
    if buf.len() > 0 {
        let lit = string_from_chars(buf);
        parts.push(WordPart::Literal(lit));
        *buf = Vec::new();
        assert(parts_model(parts@) =~= parts_model(old(parts)@).push(SpecWordPart::Literal(old(buf)@)));
    }
}

/// The string `$`.
fn dollar_literal() -> (r: WordPart)
    ensures
        r@ == SpecWordPart::Literal(seq!['$']),
{
    let s: String = "$".to_owned();
    proof {
        reveal_strlit("$");
    }
    assert(s@ =~= seq!['$']);
    WordPart::Literal(s)
}

impl<'a> Lexer<'a> {
    #[verifier::type_invariant]
    spec fn well_formed(self) -> bool {
        &&& self.chars@ == self.src@
        &&& self.pos <= self.chars.len()
    }

    /// The characters of the input.
    pub closed spec fn input(self) -> Seq<char> {
        self.src@
    }

    /// The position of the next character to read.
    pub closed spec fn position(self) -> nat {
        self.pos as nat
    }

    pub fn new(src: &'a str) -> (r: Self)
        ensures
            r.input() == src@,
            r.position() == 0,
    {
        Lexer { src, chars: chars_of(src), pos: 0 }
    }

    /// Tokenize the full input.
    pub fn tokenize(self) -> (r: Result<Vec<Token>, ParseError>)
        ensures
            tokenize_result_model(r) == lex_tokens(self.input(), self.position()),
        decreases self.input().len(), self.input().len() - self.position(), 2int,
    {
        let mut lexer = self;
        proof {
            use_type_invariant(&lexer);
        }
        let ghost s = lexer.chars@;
        let ghost p0 = lexer.pos as nat;
        let mut tokens: Vec<Token> = Vec::new();
        loop
            invariant_except_break
                lexer.chars@ == s,
                lexer.src@ == s,
                self.src@ == s,
                self.pos == p0,
                p0 <= lexer.pos <= s.len(),
                lex_tokens(s, p0) == prepend_all(tokens_model(tokens@), lex_tokens(s, lexer.pos as nat)),
            ensures
                lex_tokens(s, p0) == Ok::<Seq<SpecToken>, SpecParseError>(tokens_model(tokens@)),
            decreases s.len() - lexer.pos,
        {
            let ghost before = lexer.pos as nat;
            lexer.skip_whitespace();
            proof {
                lemma_skip_blanks(s, before);
            }
            if lexer.pos >= lexer.chars.len() {
                let ghost before_eof = tokens@;
                tokens.push(Token::Eof);
                assert(tokens_model(tokens@) =~= tokens_model(before_eof) + seq![SpecToken::Eof]);
                break;
            }
            let ch = lexer.current_char();
            // a comment runs to the end of the input
            if ch == '#' {
                let ghost before_eof = tokens@;
                tokens.push(Token::Eof);
                assert(tokens_model(tokens@) =~= tokens_model(before_eof) + seq![SpecToken::Eof]);
                break;
            }
            let ghost q = lexer.pos as nat;
            let tok = if ch == '\n' {
                lexer.advance();
                Token::Semi
            } else if ch == '|' {
                lexer.advance();
                if lexer.current_char() == '|' {
                    lexer.advance();
                    Token::Or
                } else {
                    Token::Pipe
                }
            } else if ch == '&' {
                lexer.advance();
                if lexer.current_char() == '&' {
                    lexer.advance();
                    Token::And
                } else {
                    // a bare `&` separates like `;` (no background jobs)
                    Token::Semi
                }
            } else if ch == ';' {
                lexer.advance();
                Token::Semi
            } else if ch == '(' {
                lexer.advance();
                Token::LParen
            } else if ch == ')' {
                lexer.advance();
                Token::RParen
            } else if ch == '>' {
                lexer.advance();
                if lexer.current_char() == '>' {
                    lexer.advance();
                    Token::RedirectAppend
                } else {
                    Token::RedirectOut
                }
            } else if ch == '<' {
                lexer.advance();
                Token::RedirectIn
            } else {
                proof {
                    lemma_word_end(s, q, false);
                }
                match lexer.read_word() {
                    Ok(word) => Token::Word(word),
                    Err(e) => return Err(e),
                }
            };
            assert(lex_tokens(s, before) == prepend(tok@, lex_tokens(s, lexer.pos as nat)));
            proof {
                lemma_prepend_all_push(tokens_model(tokens@), tok@, lex_tokens(s, lexer.pos as nat));
            }
            let ghost before_push = tokens@;
            tokens.push(tok);
            assert(tokens_model(tokens@) =~= tokens_model(before_push).push(tok@));
        }
        Ok(tokens)
    }

    fn current_char(&self) -> (c: char)
        ensures
            c == char_at(self.chars@, self.pos as nat),
    {
        if self.pos < self.chars.len() {
            self.chars[self.pos]
        } else {
            '\0'
        }
    }

    fn advance(&mut self)
        ensures
            final(self).chars@ == old(self).chars@,
            final(self).src@ == old(self).src@,
            final(self).pos == if old(self).pos < old(self).chars.len() {
                old(self).pos + 1
            } else {
                old(self).pos as int
            },
    {
        proof {
            use_type_invariant(&*self);
        }
        if self.pos < self.chars.len() {
            self.pos = self.pos + 1;
        }
    }

    fn skip_whitespace(&mut self)
        ensures
            final(self).chars@ == old(self).chars@,
            final(self).src@ == old(self).src@,
            final(self).pos == skip_blanks(old(self).chars@, old(self).pos as nat),
    {
        let ghost s = self.chars@;
        let ghost p0 = self.pos as nat;
        while self.pos < self.chars.len()
            invariant_except_break
                self.chars@ == s,
                s == old(self).chars@,
                p0 == old(self).pos,
                self.src@ == old(self).src@,
                skip_blanks(s, p0) == skip_blanks(s, self.pos as nat),
            ensures
                self.chars@ == s,
                s == old(self).chars@,
                p0 == old(self).pos,
                self.src@ == old(self).src@,
                skip_blanks(s, p0) == self.pos,
            decreases s.len() - self.pos,
        {
            let ch = self.current_char();
            if ch == ' ' || ch == '\t' || ch == '\r' {
                self.advance();
            } else {
                break;
            }
        }
    }

    fn at_word_boundary(&self) -> (r: bool)
        ensures
            r == at_boundary(self.chars@, self.pos as nat),
    {
        if self.pos >= self.chars.len() {
            return true;
        }
        let c = self.current_char();
        c == ' ' || c == '\t' || c == '\r' || c == '\n' || c == '|' || c == '&' || c == ';'
            || c == '(' || c == ')' || c == '>' || c == '<'
    }

    /// Read a (potentially compound) word until a word boundary.
    fn read_word(&mut self) -> (r: Result<Word, ParseError>)
        requires
            !at_boundary(old(self).chars@, old(self).pos as nat),
        ensures
            final(self).chars@ == old(self).chars@,
            final(self).src@ == old(self).src@,
            word_result_model(r) == lex_word(old(self).chars@, old(self).pos as nat, false, seq![], seq![]),
            r is Ok ==> final(self).pos == word_end(old(self).chars@, old(self).pos as nat, false),
        decreases old(self).chars@.len(), old(self).chars@.len() - old(self).pos, 1int,
    {
        proof {
            use_type_invariant(&*self);
        }
        let ghost s = self.chars@;
        let ghost p0 = self.pos as nat;
        let mut parts: Vec<WordPart> = Vec::new();
        let mut literal_buf: Vec<char> = Vec::new();
        proof {
            lemma_word_end(s, p0, false);
        }
        assert(parts_model(parts@) =~= seq![]);
        while !self.at_word_boundary()
            invariant
                self.chars@ == s,
                s == old(self).chars@,
                p0 == old(self).pos,
                self.src@ == old(self).src@,
                p0 <= self.pos <= s.len(),
                lex_word(s, p0, false, seq![], seq![]) == lex_word(s, self.pos as nat, false, parts_model(parts@), literal_buf@),
                word_end(s, p0, false) == word_end(s, self.pos as nat, false),
            decreases s.len() - self.pos,
        {
            let ch = self.current_char();
            if ch == '\'' {
                // single-quoted: no expansions
                let ghost pq = self.pos as nat;
                self.advance();
                let ghost q0 = self.pos as nat;
                let ghost buf0 = literal_buf@;
                proof {
                    lemma_quote_end(s, q0);
                }
                while self.pos < self.chars.len() && self.current_char() != '\''
                    invariant
                        self.chars@ == s,
                        s == old(self).chars@,
                        p0 == old(self).pos,
                        self.src@ == old(self).src@,
                        q0 <= self.pos <= s.len(),
                        quote_end(s, q0) == quote_end(s, self.pos as nat),
                        literal_buf@ == buf0 + s.subrange(q0 as int, self.pos as int),
                        q0 == pq + 1,
                        pq < s.len(),
                        s[pq as int] == '\'',
                        !at_boundary(s, pq),
                        lex_word(s, p0, false, seq![], seq![]) == lex_word(s, pq, false, parts_model(parts@), buf0),
                        word_end(s, p0, false) == word_end(s, pq, false),
                        p0 <= pq,
                            decreases s.len() - self.pos,
                {
                    literal_buf.push(self.current_char());
                    self.advance();
                    assert(literal_buf@ =~= buf0 + s.subrange(q0 as int, self.pos as int));
                }
                if self.pos >= self.chars.len() {
                    return Err(ParseError::Unmatched('\''));
                }
                assert(quote_end(s, self.pos as nat) == self.pos);
                self.advance();
            } else if ch == '"' {
                // double-quoted: variable and command substitutions are active
                let ghost pd = self.pos;
                self.advance();
                while self.pos < self.chars.len() && self.current_char() != '"'
                    invariant
                        self.chars@ == s,
                        s == old(self).chars@,
                        p0 == old(self).pos,
                        self.src@ == old(self).src@,
                        p0 <= self.pos <= s.len(),
                        pd < self.pos,
                                lex_word(s, p0, false, seq![], seq![]) == lex_word(s, self.pos as nat, true, parts_model(parts@), literal_buf@),
                        word_end(s, p0, false) == word_end(s, self.pos as nat, true),
                    decreases s.len() - self.pos,
                {
                    if self.current_char() == '$' {
                        flush_literal(&mut parts, &mut literal_buf);
                        proof {
                            lemma_dollar_end(s, self.pos as nat);
                        }
                        let ghost parts_before = parts@;
                        match self.read_dollar() {
                            Ok(part) => parts.push(part),
                            Err(e) => return Err(e),
                        }
                        assert(parts_model(parts@) =~= parts_model(parts_before).push(parts@.last()@));
                    } else if self.current_char() == '\\' {
                        self.advance();
                        let escaped = self.current_char();
                        self.advance();
                        literal_buf.push(escaped);
                    } else {
                        literal_buf.push(self.current_char());
                        self.advance();
                    }
                }
                if self.pos >= self.chars.len() {
                    return Err(ParseError::Unmatched('"'));
                }
                self.advance();
            } else if ch == '$' {
                flush_literal(&mut parts, &mut literal_buf);
                proof {
                    lemma_dollar_end(s, self.pos as nat);
                }
                let ghost parts_before = parts@;
                match self.read_dollar() {
                    Ok(part) => parts.push(part),
                    Err(e) => return Err(e),
                }
                assert(parts_model(parts@) =~= parts_model(parts_before).push(parts@.last()@));
            } else if ch == '\\' {
                self.advance();
                if self.pos < self.chars.len() {
                    let next = self.current_char();
                    if next == '\n' {
                        self.advance();
                    } else {
                        literal_buf.push(next);
                        self.advance();
                    }
                }
            } else {
                literal_buf.push(ch);
                self.advance();
            }
        }
        flush_literal(&mut parts, &mut literal_buf);
        let w = Word(parts);
        assert(w@ =~= parts_model(parts@));
        Ok(w)
    }

    /// Called at a `$`: reads a variable or a `$(...)` command substitution.
    fn read_dollar(&mut self) -> (r: Result<WordPart, ParseError>)
        requires
            old(self).pos < old(self).chars.len(),
        ensures
            final(self).chars@ == old(self).chars@,
            final(self).src@ == old(self).src@,
            part_result_model(r) == lex_dollar(old(self).chars@, old(self).pos as nat),
            r is Ok ==> final(self).pos == dollar_end(old(self).chars@, old(self).pos as nat),
        decreases old(self).chars@.len(), old(self).chars@.len() - old(self).pos, 0int,
    {
        proof {
            use_type_invariant(&*self);
        }
        let ghost s = self.chars@;
        let ghost p = self.pos as nat;
        self.advance();  // the '$'
        if self.pos >= self.chars.len() {
            return Ok(dollar_literal());
        }
        let c = self.current_char();
        if c == '(' {
            // command substitution: $(...)
            self.advance();
            proof {
                lemma_paren_close(s, p + 2, 1);
            }
            let sub_src = match self.read_until_close_paren() {
                Ok(text) => text,
                Err(e) => return Err(e),
            };
            // the substituted command is parsed on its own
            match parse(sub_src.as_str()) {
                Ok(expr) => Ok(WordPart::CommandSubst(Box::new(expr))),
                Err(_) => Err(ParseError::Unmatched('(')),
            }
        } else if c == '{' {
            // ${VARNAME}
            self.advance();
            let name = self.read_identifier();
            if self.pos < self.chars.len() && self.current_char() == '}' {
                self.advance();
            }
            Ok(WordPart::Variable(name))
        } else if is_alphabetic(c) || c == '_' {
            let name = self.read_identifier();
            Ok(WordPart::Variable(name))
        } else {
            Ok(dollar_literal())
        }
    }

    fn read_identifier(&mut self) -> (r: String)
        ensures
            final(self).chars@ == old(self).chars@,
            final(self).src@ == old(self).src@,
            final(self).pos == ident_end(old(self).chars@, old(self).pos as nat),
            r@ == old(self).chars@.subrange(old(self).pos as int, ident_end(old(self).chars@, old(self).pos as nat) as int),
    {
        proof {
            use_type_invariant(&*self);
        }
        let ghost s = self.chars@;
        let ghost p0 = self.pos as nat;
        let mut name: Vec<char> = Vec::new();
        while self.pos < self.chars.len()
            invariant_except_break
                self.chars@ == s,
                s == old(self).chars@,
                p0 == old(self).pos,
                self.src@ == old(self).src@,
                p0 <= self.pos <= s.len(),
                ident_end(s, p0) == ident_end(s, self.pos as nat),
                name@ == s.subrange(p0 as int, self.pos as int),
            ensures
                self.chars@ == s,
                s == old(self).chars@,
                p0 == old(self).pos,
                self.src@ == old(self).src@,
                ident_end(s, p0) == self.pos,
                name@ == s.subrange(p0 as int, self.pos as int),
            decreases s.len() - self.pos,
        {
            let c = self.current_char();
            if is_alphanumeric(c) || c == '_' {
                name.push(c);
                self.advance();
                assert(name@ =~= s.subrange(p0 as int, self.pos as int));
            } else {
                break;
            }
        }
        string_from_chars(&name)
    }

    /// Reads characters until the matching `)`, handling nesting.
    fn read_until_close_paren(&mut self) -> (r: Result<String, ParseError>)
        ensures
            final(self).chars@ == old(self).chars@,
            final(self).src@ == old(self).src@,
            match paren_close(old(self).chars@, old(self).pos as nat, 1) {
                Some(e) => r matches Ok(text) && text@ == old(self).chars@.subrange(old(self).pos as int, e as int)
                    && final(self).pos == e + 1,
                None => r matches Err(x) && x@ == SpecParseError::Unmatched('(')
                    && final(self).pos == old(self).chars.len(),
            },
    {
        proof {
            use_type_invariant(&*self);
        }
        let ghost s = self.chars@;
        let ghost p0 = self.pos as nat;
        // groups open besides the one that the sought `)` closes
        let mut extra: usize = 0;
        let mut buf: Vec<char> = Vec::new();
        while self.pos < self.chars.len()
            invariant
                self.chars@ == s,
                s == old(self).chars@,
                p0 == old(self).pos,
                self.src@ == old(self).src@,
                p0 <= self.pos <= s.len(),
                extra <= self.pos - p0,
                paren_close(s, p0, 1) == paren_close(s, self.pos as nat, (extra + 1) as nat),
                buf@ == s.subrange(p0 as int, self.pos as int),
            decreases s.len() - self.pos,
        {
            let c = self.current_char();
            let ghost pb = self.pos as nat;
            let ghost db = (extra + 1) as nat;
            self.advance();
            if c == '(' {
                extra = extra + 1;
                buf.push(c);
            } else if c == ')' {
                if extra == 0 {
                    assert(paren_close(s, pb, db) == Some(pb));
                    return Ok(string_from_chars(&buf));
                }
                extra = extra - 1;
                buf.push(c);
            } else {
                buf.push(c);
            }
            assert(buf@ =~= s.subrange(p0 as int, self.pos as int));
        }
        Err(ParseError::Unmatched('('))
    }
}

// ─── laws ───────────────────────────────────────────────────────────────────

/// A token stream that lexing yields ends with `Eof`, and `Eof` appears nowhere else in it.
pub open spec fn ends_with_single_eof(ts: Seq<SpecToken>) -> bool {
    &&& ts.len() >= 1
    &&& ts.last() is Eof
    &&& forall|i: int| 0 <= i < ts.len() - 1 ==> !(#[trigger] ts[i] is Eof)
}

/// Every token stream that the lexer produces, from any position, ends with exactly one
/// `Eof`, which is its last token.
pub proof fn lemma_lex_tokens_single_eof(s: Seq<char>, p: nat)
    ensures
        lex_tokens(s, p) matches Ok(ts) ==> ends_with_single_eof(ts),
    decreases s.len() - p,
{
    let q = skip_blanks(s, p);
    lemma_skip_blanks(s, p);
    if q >= s.len() || s[q as int] == '#' {
    } else {
        // where the tokens after the first one start
        let next: nat = if s[q as int] == '|' || s[q as int] == '&' || s[q as int] == '>' {
            if char_at(s, q + 1) == s[q as int] {
                q + 2
            } else {
                q + 1
            }
        } else if s[q as int] == '\n' || s[q as int] == ';' || s[q as int] == '(' || s[q as int] == ')'
            || s[q as int] == '<' {
            q + 1
        } else {
            lemma_word_end(s, q, false);
            word_end(s, q, false)
        };
        if next <= s.len() {
            lemma_lex_tokens_single_eof(s, next);
        }
        if let Ok(ts) = lex_tokens(s, p) {
            if let Ok(rest) = lex_tokens(s, next) {
                assert(ts == seq![ts[0]] + rest);
                assert(!(ts[0] is Eof));
                assert forall|i: int| 0 <= i < ts.len() - 1 implies !(#[trigger] ts[i] is Eof) by {
                    if i > 0 {
                        assert(ts[i] == rest[i - 1]);
                    }
                }
            }
        }
    }
}

/// Law: every successful tokenization of an input ends with `Eof`, and only there.
pub proof fn law_tokenize_ends_with_single_eof(s: Seq<char>)
    ensures
        spec_tokenize(s) matches Ok(ts) ==> ends_with_single_eof(ts),
{
    lemma_lex_tokens_single_eof(s, 0);
}

// ─── facts about the scanners ───────────────────────────────────────────────

pub proof fn lemma_prepend_all_push(ts: Seq<SpecToken>, t: SpecToken, rest: Result<Seq<SpecToken>, SpecParseError>)
    ensures
        prepend_all(ts.push(t), rest) == prepend_all(ts, prepend(t, rest)),
{
    if let Ok(r) = rest {
        assert(ts.push(t) + r =~= ts + (seq![t] + r));
    }
}

pub proof fn lemma_skip_blanks(s: Seq<char>, p: nat)
    ensures
        skip_blanks(s, p) >= p,
        p <= s.len() ==> skip_blanks(s, p) <= s.len(),
        skip_blanks(s, p) < s.len() ==> !is_blank(s[skip_blanks(s, p) as int]),
    decreases s.len() - p,
{
    if p < s.len() && is_blank(s[p as int]) {
        lemma_skip_blanks(s, p + 1);
    }
}

pub proof fn lemma_ident_end(s: Seq<char>, p: nat)
    ensures
        ident_end(s, p) >= p,
        p <= s.len() ==> ident_end(s, p) <= s.len(),
    decreases s.len() - p,
{
    if p < s.len() && is_ident_char(s[p as int]) {
        lemma_ident_end(s, p + 1);
    }
}

pub proof fn lemma_quote_end(s: Seq<char>, p: nat)
    ensures
        quote_end(s, p) >= p,
        p <= s.len() ==> quote_end(s, p) <= s.len(),
        quote_end(s, p) < s.len() ==> s[quote_end(s, p) as int] == '\'',
    decreases s.len() - p,
{
    if p < s.len() && s[p as int] != '\'' {
        lemma_quote_end(s, p + 1);
    }
}

pub proof fn lemma_paren_close(s: Seq<char>, p: nat, depth: nat)
    ensures
        paren_close(s, p, depth) matches Some(e) ==> p <= e < s.len() && s[e as int] == ')',
    decreases s.len() - p,
{
    if p >= s.len() {
    } else if s[p as int] == '(' {
        lemma_paren_close(s, p + 1, depth + 1);
    } else if s[p as int] == ')' {
        if depth > 1 {
            lemma_paren_close(s, p + 1, (depth - 1) as nat);
        }
    } else {
        lemma_paren_close(s, p + 1, depth);
    }
}

pub proof fn lemma_dollar_end(s: Seq<char>, p: nat)
    requires
        p < s.len(),
    ensures
        p < dollar_end(s, p) <= s.len(),
{
    let q = p + 1;
    if q < s.len() {
        if s[q as int] == '(' {
            lemma_paren_close(s, q + 1, 1);
        } else if s[q as int] == '{' {
            lemma_ident_end(s, q + 1);
        } else if is_ident_start(s[q as int]) {
            lemma_ident_end(s, q);
        }
    }
}

pub proof fn lemma_word_end(s: Seq<char>, p: nat, in_dq: bool)
    requires
        p <= s.len(),
    ensures
        p <= word_end(s, p, in_dq) <= s.len(),
        !in_dq && !at_boundary(s, p) ==> p < word_end(s, p, in_dq),
    decreases s.len() - p,
{
    if !in_dq {
        if at_boundary(s, p) {
        } else if s[p as int] == '\'' {
            lemma_quote_end(s, p + 1);
            let q = quote_end(s, p + 1);
            if q < s.len() {
                lemma_word_end(s, q + 1, false);
            }
        } else if s[p as int] == '"' {
            lemma_word_end(s, p + 1, true);
        } else if s[p as int] == '$' {
            lemma_dollar_end(s, p);
            lemma_word_end(s, dollar_end(s, p), false);
        } else if s[p as int] == '\\' {
            lemma_word_end(s, escape_end(s, p), false);
        } else {
            lemma_word_end(s, p + 1, false);
        }
    } else {
        if p >= s.len() {
        } else if s[p as int] == '"' {
            lemma_word_end(s, p + 1, false);
        } else if s[p as int] == '$' {
            lemma_dollar_end(s, p);
            lemma_word_end(s, dollar_end(s, p), true);
        } else if s[p as int] == '\\' {
            lemma_word_end(s, escape_end(s, p), true);
        } else {
            lemma_word_end(s, p + 1, true);
        }
    }
}

/// Law: a variable name read at `p` is the longest run of name characters there: every
/// character up to [`ident_end`] is one, and the character there, if any, is not.
pub proof fn law_ident_end_is_longest(s: Seq<char>, p: nat)
    requires
        p <= s.len(),
    ensures
        p <= ident_end(s, p) <= s.len(),
        forall|i: int| p <= i < ident_end(s, p) ==> is_ident_char(#[trigger] s[i]),
        ident_end(s, p) < s.len() ==> !is_ident_char(s[ident_end(s, p) as int]),
    decreases s.len() - p,
{
    if p < s.len() && is_ident_char(s[p as int]) {
        law_ident_end_is_longest(s, p + 1);
    }
}

/// Every character of a word's end position stands at a word boundary.
proof fn lemma_word_end_at_boundary(s: Seq<char>, p: nat, in_dq: bool)
    requires
        p <= s.len(),
    ensures
        at_boundary(s, word_end(s, p, in_dq)),
    decreases s.len() - p,
{
    if !in_dq {
        if at_boundary(s, p) {
        } else if s[p as int] == '\'' {
            lemma_quote_end(s, p + 1);
            let q = quote_end(s, p + 1);
            if q < s.len() {
                lemma_word_end_at_boundary(s, q + 1, false);
            }
        } else if s[p as int] == '"' {
            lemma_word_end_at_boundary(s, p + 1, true);
        } else if s[p as int] == '$' {
            lemma_dollar_end(s, p);
            lemma_word_end_at_boundary(s, dollar_end(s, p), false);
        } else if s[p as int] == '\\' {
            lemma_word_end_at_boundary(s, escape_end(s, p), false);
        } else {
            lemma_word_end_at_boundary(s, p + 1, false);
        }
    } else {
        if p >= s.len() {
        } else if s[p as int] == '"' {
            lemma_word_end_at_boundary(s, p + 1, false);
        } else if s[p as int] == '$' {
            lemma_dollar_end(s, p);
            lemma_word_end_at_boundary(s, dollar_end(s, p), true);
        } else if s[p as int] == '\\' {
            lemma_word_end_at_boundary(s, escape_end(s, p), true);
        } else {
            lemma_word_end_at_boundary(s, p + 1, true);
        }
    }
}

/// Every literal part holds some text.
pub open spec fn literals_nonempty(ps: Seq<SpecWordPart>) -> bool {
    forall|i: int| 0 <= i < ps.len() ==> (#[trigger] ps[i] matches SpecWordPart::Literal(t) ==> t.len() > 0)
}

proof fn lemma_flush_nonempty(parts: Seq<SpecWordPart>, buf: Seq<char>)
    requires
        literals_nonempty(parts),
    ensures
        literals_nonempty(flush(parts, buf)),
{
    if buf.len() > 0 {
        assert forall|i: int| 0 <= i < flush(parts, buf).len() implies (#[trigger] flush(parts, buf)[i] matches SpecWordPart::Literal(t) ==> t.len() > 0) by {
            if i < parts.len() {
                assert(flush(parts, buf)[i] == parts[i]);
            }
        }
    }
}

proof fn lemma_dollar_part_nonempty(s: Seq<char>, p: nat)
    ensures
        lex_dollar(s, p) matches Ok(SpecWordPart::Literal(t)) ==> t.len() > 0,
{
}

proof fn lemma_push_nonempty(parts: Seq<SpecWordPart>, part: SpecWordPart)
    requires
        literals_nonempty(parts),
        part matches SpecWordPart::Literal(t) ==> t.len() > 0,
    ensures
        literals_nonempty(parts.push(part)),
{
    assert forall|i: int| 0 <= i < parts.push(part).len() implies (#[trigger] parts.push(part)[i] matches SpecWordPart::Literal(t) ==> t.len() > 0) by {
        if i < parts.len() {
            assert(parts.push(part)[i] == parts[i]);
        }
    }
}

/// The parts of a word keep every literal non-empty.
proof fn lemma_lex_word_nonempty(s: Seq<char>, p: nat, in_dq: bool, parts: Seq<SpecWordPart>, buf: Seq<char>)
    requires
        literals_nonempty(parts),
    ensures
        lex_word(s, p, in_dq, parts, buf) matches Ok(ps) ==> literals_nonempty(ps),
    decreases s.len() - p,
{
    if !in_dq {
        if at_boundary(s, p) {
            lemma_flush_nonempty(parts, buf);
        } else if s[p as int] == '\'' {
            lemma_quote_end(s, p + 1);
            let q = quote_end(s, p + 1);
            if q < s.len() {
                lemma_lex_word_nonempty(s, q + 1, false, parts, buf + s.subrange(p + 1int, q as int));
            }
        } else if s[p as int] == '"' {
            lemma_lex_word_nonempty(s, p + 1, true, parts, buf);
        } else if s[p as int] == '$' {
            lemma_dollar_end(s, p);
            if let Ok(part) = lex_dollar(s, p) {
                lemma_flush_nonempty(parts, buf);
                lemma_dollar_part_nonempty(s, p);
                lemma_push_nonempty(flush(parts, buf), part);
                lemma_lex_word_nonempty(s, dollar_end(s, p), false, flush(parts, buf).push(part), seq![]);
            }
        } else if s[p as int] == '\\' {
            if p + 1 < s.len() && s[p + 1int] == '\n' {
                lemma_lex_word_nonempty(s, p + 2, false, parts, buf);
            } else if p + 1 < s.len() {
                lemma_lex_word_nonempty(s, p + 2, false, parts, buf.push(s[p + 1int]));
            } else {
                lemma_lex_word_nonempty(s, p + 1, false, parts, buf);
            }
        } else {
            lemma_lex_word_nonempty(s, p + 1, false, parts, buf.push(s[p as int]));
        }
    } else {
        if p >= s.len() {
        } else if s[p as int] == '"' {
            lemma_lex_word_nonempty(s, p + 1, false, parts, buf);
        } else if s[p as int] == '$' {
            lemma_dollar_end(s, p);
            if let Ok(part) = lex_dollar(s, p) {
                lemma_flush_nonempty(parts, buf);
                lemma_dollar_part_nonempty(s, p);
                lemma_push_nonempty(flush(parts, buf), part);
                lemma_lex_word_nonempty(s, dollar_end(s, p), true, flush(parts, buf).push(part), seq![]);
            }
        } else if s[p as int] == '\\' {
            lemma_lex_word_nonempty(s, escape_end(s, p), true, parts, buf.push(char_at(s, p + 1)));
        } else {
            lemma_lex_word_nonempty(s, p + 1, true, parts, buf.push(s[p as int]));
        }
    }
}

/// Law: a word read at `p` (where no boundary stands) takes at least one character, ends
/// at a word boundary, and none of its literal parts is empty.
pub proof fn law_word_ends_at_boundary(s: Seq<char>, p: nat)
    requires
        p <= s.len(),
        !at_boundary(s, p),
    ensures
        p < word_end(s, p, false) <= s.len(),
        at_boundary(s, word_end(s, p, false)),
        lex_word(s, p, false, seq![], seq![]) matches Ok(ps) ==> literals_nonempty(ps),
{
    lemma_word_end(s, p, false);
    lemma_word_end_at_boundary(s, p, false);
    lemma_lex_word_nonempty(s, p, false, seq![], seq![]);
}

/// The errors that lexing can report: an unclosed single quote, double quote or parenthesis.
pub open spec fn is_lex_error(e: SpecParseError) -> bool {
    e == SpecParseError::Unmatched('\'') || e == SpecParseError::Unmatched('"') || e == SpecParseError::Unmatched('(')
}

proof fn lemma_lex_word_errors(s: Seq<char>, p: nat, in_dq: bool, parts: Seq<SpecWordPart>, buf: Seq<char>)
    ensures
        lex_word(s, p, in_dq, parts, buf) matches Err(e) ==> is_lex_error(e),
    decreases s.len() - p,
{
    if !in_dq {
        if at_boundary(s, p) {
        } else if s[p as int] == '\'' {
            lemma_quote_end(s, p + 1);
            let q = quote_end(s, p + 1);
            if q < s.len() {
                lemma_lex_word_errors(s, q + 1, false, parts, buf + s.subrange(p + 1int, q as int));
            }
        } else if s[p as int] == '"' {
            lemma_lex_word_errors(s, p + 1, true, parts, buf);
        } else if s[p as int] == '$' {
            lemma_dollar_end(s, p);
            if let Ok(part) = lex_dollar(s, p) {
                lemma_lex_word_errors(s, dollar_end(s, p), false, flush(parts, buf).push(part), seq![]);
            }
        } else if s[p as int] == '\\' {
            if p + 1 < s.len() && s[p + 1int] == '\n' {
                lemma_lex_word_errors(s, p + 2, false, parts, buf);
            } else if p + 1 < s.len() {
                lemma_lex_word_errors(s, p + 2, false, parts, buf.push(s[p + 1int]));
            } else {
                lemma_lex_word_errors(s, p + 1, false, parts, buf);
            }
        } else {
            lemma_lex_word_errors(s, p + 1, false, parts, buf.push(s[p as int]));
        }
    } else {
        if p >= s.len() {
        } else if s[p as int] == '"' {
            lemma_lex_word_errors(s, p + 1, false, parts, buf);
        } else if s[p as int] == '$' {
            lemma_dollar_end(s, p);
            if let Ok(part) = lex_dollar(s, p) {
                lemma_lex_word_errors(s, dollar_end(s, p), true, flush(parts, buf).push(part), seq![]);
            }
        } else if s[p as int] == '\\' {
            lemma_lex_word_errors(s, escape_end(s, p), true, parts, buf.push(char_at(s, p + 1)));
        } else {
            lemma_lex_word_errors(s, p + 1, true, parts, buf.push(s[p as int]));
        }
    }
}

proof fn lemma_lex_tokens_errors(s: Seq<char>, p: nat)
    requires
        p <= s.len(),
    ensures
        lex_tokens(s, p) matches Err(e) ==> is_lex_error(e),
    decreases s.len() - p,
{
    lemma_skip_blanks(s, p);
    let q = skip_blanks(s, p);
    if q >= s.len() || s[q as int] == '#' {
    } else if s[q as int] == '|' || s[q as int] == '&' || s[q as int] == '>' {
        if q + 1 < s.len() && char_at(s, q + 1) == s[q as int] {
            lemma_lex_tokens_errors(s, q + 2);
        } else {
            lemma_lex_tokens_errors(s, q + 1);
        }
    } else if s[q as int] == '\n' || s[q as int] == ';' || s[q as int] == '(' || s[q as int] == ')'
        || s[q as int] == '<' {
        lemma_lex_tokens_errors(s, q + 1);
    } else {
        lemma_word_end(s, q, false);
        lemma_lex_word_errors(s, q, false, seq![], seq![]);
        lemma_lex_tokens_errors(s, word_end(s, q, false));
    }
}

/// Law: lexing fails only on an unclosed single quote, double quote or parenthesis (a
/// command substitution whose text does not parse counts as an unclosed parenthesis).
pub proof fn law_tokenize_errors_are_unmatched(s: Seq<char>)
    ensures
        spec_tokenize(s) matches Err(e) ==> is_lex_error(e),
{
    lemma_lex_tokens_errors(s, 0);
}

/// Law: a `$` followed by an ASCII letter or `_` reads the variable whose name is the
/// longest run of name characters there (at least that first one).
pub proof fn law_dollar_reads_ascii_name(s: Seq<char>, p: nat)
    requires
        p + 1 < s.len(),
        s[p as int] == '$',
        is_ascii_letter(s[p + 1int]) || s[p + 1int] == '_',
    ensures
        lex_dollar(s, p) == Ok::<SpecWordPart, SpecParseError>(SpecWordPart::Variable(s.subrange(p + 1int, ident_end(s, p + 1) as int))),
        p + 1 < ident_end(s, p + 1) <= s.len(),
{
    law_ident_end_is_longest(s, p + 1);
    law_ident_end_is_longest(s, p + 2);
}

/// Law: outside quotes, a backslash followed by a character `c` other than a newline stands
/// for `c` alone: the word goes on after the two characters with exactly `c` added to its
/// literal text, and the backslash never appears.
pub proof fn law_escape_outside_quotes(s: Seq<char>, p: nat, parts: Seq<SpecWordPart>, buf: Seq<char>)
    requires
        p + 1 < s.len(),
        s[p as int] == '\\',
        s[p + 1int] != '\n',
    ensures
        lex_word(s, p, false, parts, buf) == lex_word(s, p + 2, false, parts, buf.push(s[p + 1int])),
        word_end(s, p, false) == word_end(s, p + 2, false),
{
}

/// Law: inside double quotes, a backslash followed by any character `c` stands for `c` alone:
/// the word goes on after the two characters with exactly `c` added to its literal text.
pub proof fn law_escape_inside_double_quotes(s: Seq<char>, p: nat, parts: Seq<SpecWordPart>, buf: Seq<char>)
    requires
        p + 1 < s.len(),
        s[p as int] == '\\',
    ensures
        lex_word(s, p, true, parts, buf) == lex_word(s, p + 2, true, parts, buf.push(s[p + 1int])),
        word_end(s, p, true) == word_end(s, p + 2, true),
{
}

/// Law: a token `\c` (for `c` not a newline) ending at a word boundary is the word made of
/// the single literal text `c`.
pub proof fn law_escaped_char_token(s: Seq<char>, p: nat)
    requires
        p + 1 < s.len(),
        s[p as int] == '\\',
        s[p + 1int] != '\n',
        at_boundary(s, p + 2),
    ensures
        lex_tokens(s, p) == prepend(SpecToken::Word(seq![SpecWordPart::Literal(seq![s[p + 1int]])]), lex_tokens(s, p + 2)),
{
    assert(skip_blanks(s, p) == p);
    assert(Seq::<char>::empty().push(s[p + 1int]) =~= seq![s[p + 1int]]);
    assert(lex_word(s, p + 2, false, seq![], seq![s[p + 1int]]) == Ok::<Seq<SpecWordPart>, SpecParseError>(
        seq![SpecWordPart::Literal(seq![s[p + 1int]])],
    ));
    assert(word_end(s, p + 2, false) == p + 2);
    assert(lex_word(s, p, false, seq![], seq![]) == Ok::<Seq<SpecWordPart>, SpecParseError>(
        seq![SpecWordPart::Literal(seq![s[p + 1int]])],
    ));
    assert(word_end(s, p, false) == p + 2);
}

/// Law: a token `"\c"` ending at a word boundary is the word made of the single literal
/// text `c`, whatever character `c` is.
pub proof fn law_escaped_char_in_double_quotes_token(s: Seq<char>, p: nat)
    requires
        p + 3 < s.len(),
        s[p as int] == '"',
        s[p + 1int] == '\\',
        s[p + 3int] == '"',
        at_boundary(s, p + 4),
    ensures
        lex_tokens(s, p) == prepend(SpecToken::Word(seq![SpecWordPart::Literal(seq![s[p + 2int]])]), lex_tokens(s, p + 4)),
{
    let c = s[p + 2int];
    assert(skip_blanks(s, p) == p);
    assert(Seq::<char>::empty().push(c) =~= seq![c]);
    assert(char_at(s, p + 2) == c);
    assert(lex_word(s, p + 4, false, seq![], seq![c]) == Ok::<Seq<SpecWordPart>, SpecParseError>(seq![SpecWordPart::Literal(seq![c])]));
    assert(lex_word(s, p + 3, true, seq![], seq![c]) == lex_word(s, p + 4, false, seq![], seq![c]));
    assert(lex_word(s, p + 1, true, seq![], seq![]) == lex_word(s, p + 3, true, seq![], seq![c]));
    assert(word_end(s, p + 4, false) == p + 4);
    assert(word_end(s, p + 3, true) == p + 4);
    assert(word_end(s, p + 1, true) == p + 4);
    assert(lex_word(s, p, false, seq![], seq![]) == Ok::<Seq<SpecWordPart>, SpecParseError>(seq![SpecWordPart::Literal(seq![c])]));
    assert(word_end(s, p, false) == p + 4);
}

} // verus!
