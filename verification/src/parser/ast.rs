//! Syntax tree of shell expressions, and its mathematical model.

use vstd::prelude::*;

verus! {

/// A single word in the shell, which may contain variable expansions,
/// command substitutions, and literal text.
#[derive(Debug, PartialEq)]
pub struct Word(pub Vec<WordPart>);

/// One part of a compound word.
#[derive(Debug, PartialEq)]
pub enum WordPart {
    /// Plain literal text (possibly from a quoted string).
    Literal(String),
    /// `$VARNAME` or `${VARNAME}`
    Variable(String),
    /// `$(...)`: command substitution
    CommandSubst(Box<Expr>),
}

/// How an I/O redirection operates.
#[derive(Debug, Clone, Copy, PartialEq, Eq)]
pub enum RedirectMode {
    /// `>`: truncate/create and write
    Overwrite,
    /// `>>`: append
    Append,
    /// `<`: read from file
    Input,
}

/// Top-level shell expression node.
#[derive(Debug, PartialEq)]
pub enum Expr {
    /// A simple command with its arguments.
    Command { name: Word, args: Vec<Word> },
    /// `left | right`
    Pipe { left: Box<Expr>, right: Box<Expr> },
    /// File redirection attached to an expression.
    Redirect { expr: Box<Expr>, file: Word, mode: RedirectMode },
    /// `left ; right`: always run both
    Sequence { left: Box<Expr>, right: Box<Expr> },
    /// `left && right`: run right only if left succeeds
    And { left: Box<Expr>, right: Box<Expr> },
    /// `left || right`: run right only if left fails
    Or { left: Box<Expr>, right: Box<Expr> },
    /// `( expr )`: subshell grouping
    Subshell { expr: Box<Expr> },
}

/// Mathematical model of a [`WordPart`]: texts are sequences of characters.
pub enum SpecWordPart {
    Literal(Seq<char>),
    Variable(Seq<char>),
    CommandSubst(Box<SpecExpr>),
}

/// Mathematical model of an [`Expr`]; a word is modelled as the sequence of its parts.
pub enum SpecExpr {
    Command { name: Seq<SpecWordPart>, args: Seq<Seq<SpecWordPart>> },
    Pipe { left: Box<SpecExpr>, right: Box<SpecExpr> },
    Redirect { expr: Box<SpecExpr>, file: Seq<SpecWordPart>, mode: RedirectMode },
    Sequence { left: Box<SpecExpr>, right: Box<SpecExpr> },
    And { left: Box<SpecExpr>, right: Box<SpecExpr> },
    Or { left: Box<SpecExpr>, right: Box<SpecExpr> },
    Subshell { expr: Box<SpecExpr> },
}

pub open spec fn part_model(p: WordPart) -> SpecWordPart
    decreases p,
{
    match p {
        WordPart::Literal(s) => SpecWordPart::Literal(s@),
        WordPart::Variable(s) => SpecWordPart::Variable(s@),
        WordPart::CommandSubst(e) => SpecWordPart::CommandSubst(Box::new(expr_model(*e))),
    }
}

pub open spec fn word_model(w: Word) -> Seq<SpecWordPart>
    decreases w,
{
    Seq::new(
        w.0.len() as nat,
        |i: int|
            if 0 <= i < w.0.len() {
                part_model(w.0@[i])
            } else {
                SpecWordPart::Literal(Seq::empty())
            },
    )
}

pub open spec fn words_model(ws: Vec<Word>) -> Seq<Seq<SpecWordPart>>
    decreases ws,
{
    Seq::new(
        ws.len() as nat,
        |i: int|
            if 0 <= i < ws.len() {
                word_model(ws@[i])
            } else {
                Seq::empty()
            },
    )
}

pub open spec fn expr_model(e: Expr) -> SpecExpr
    decreases e,
{
    match e {
        Expr::Command { name, args } => SpecExpr::Command {
            name: word_model(name),
            args: words_model(args),
        },
        Expr::Pipe { left, right } => SpecExpr::Pipe {
            left: Box::new(expr_model(*left)),
            right: Box::new(expr_model(*right)),
        },
        Expr::Redirect { expr, file, mode } => SpecExpr::Redirect {
            expr: Box::new(expr_model(*expr)),
            file: word_model(file),
            mode,
        },
        Expr::Sequence { left, right } => SpecExpr::Sequence {
            left: Box::new(expr_model(*left)),
            right: Box::new(expr_model(*right)),
        },
        Expr::And { left, right } => SpecExpr::And {
            left: Box::new(expr_model(*left)),
            right: Box::new(expr_model(*right)),
        },
        Expr::Or { left, right } => SpecExpr::Or {
            left: Box::new(expr_model(*left)),
            right: Box::new(expr_model(*right)),
        },
        Expr::Subshell { expr } => SpecExpr::Subshell { expr: Box::new(expr_model(*expr)) },
    }
}

impl View for WordPart {
    type V = SpecWordPart;

    open spec fn view(&self) -> SpecWordPart {
        part_model(*self)
    }
}

impl View for Word {
    type V = Seq<SpecWordPart>;

    open spec fn view(&self) -> Seq<SpecWordPart> {
        word_model(*self)
    }
}

impl View for Expr {
    type V = SpecExpr;

    open spec fn view(&self) -> SpecExpr {
        expr_model(*self)
    }
}


impl Clone for WordPart {
    fn clone(&self) -> (r: Self)
        ensures
            r@ == self@,
        decreases self,
    {
        match self {
            WordPart::Literal(s) => WordPart::Literal(s.clone()),
            WordPart::Variable(s) => WordPart::Variable(s.clone()),
            WordPart::CommandSubst(e) => WordPart::CommandSubst(Box::new((**e).clone())),
        }
    }
}

impl Clone for Word {
    fn clone(&self) -> (r: Self)
        ensures
            r@ == self@,
        decreases self,
    {
        let mut parts: Vec<WordPart> = Vec::new();
        let n = self.0.len();
        for i in 0..n
            invariant
                n == self.0.len(),
                parts.len() == i,
                forall|j: int| 0 <= j < i ==> #[trigger] parts@[j]@ == self.0@[j]@,
        {
            proof {
                assert(decreases_to!(self => self.0@[i as int]));
            }
            parts.push(self.0[i].clone());
        }
        let r = Word(parts);
        assert(word_model(r) =~= word_model(*self)) by {
            assert forall|j: int| 0 <= j < n implies #[trigger] word_model(r)[j] == word_model(*self)[j] by {
                assert(parts@[j]@ == self.0@[j]@);
            }
        }
        r
    }
}

/// Clones each word of `ws`, keeping its model.
fn clone_words(ws: &Vec<Word>) -> (r: Vec<Word>)
    ensures
        words_model(r) == words_model(*ws),
    decreases ws,
{
    let mut out: Vec<Word> = Vec::new();
    let n = ws.len();
    for i in 0..n
        invariant
            n == ws.len(),
            out.len() == i,
            forall|j: int| 0 <= j < i ==> #[trigger] out@[j]@ == ws@[j]@,
    {
        proof {
            assert(decreases_to!(ws => ws@[i as int]));
        }
        out.push(ws[i].clone());
    }
    assert(words_model(out) =~= words_model(*ws)) by {
        assert forall|j: int| 0 <= j < n implies #[trigger] words_model(out)[j] == words_model(*ws)[j] by {
            assert(out@[j]@ == ws@[j]@);
        }
    }
    out
}

impl Clone for Expr {
    fn clone(&self) -> (r: Self)
        ensures
            r@ == self@,
        decreases self,
    {
        match self {
            Expr::Command { name, args } => Expr::Command { name: name.clone(), args: clone_words(args) },
            Expr::Pipe { left, right } => Expr::Pipe {
                left: Box::new((**left).clone()),
                right: Box::new((**right).clone()),
            },
            Expr::Redirect { expr, file, mode } => Expr::Redirect {
                expr: Box::new((**expr).clone()),
                file: file.clone(),
                mode: mode.clone(),
            },
            Expr::Sequence { left, right } => Expr::Sequence {
                left: Box::new((**left).clone()),
                right: Box::new((**right).clone()),
            },
            Expr::And { left, right } => Expr::And {
                left: Box::new((**left).clone()),
                right: Box::new((**right).clone()),
            },
            Expr::Or { left, right } => Expr::Or {
                left: Box::new((**left).clone()),
                right: Box::new((**right).clone()),
            },
            Expr::Subshell { expr } => Expr::Subshell { expr: Box::new((**expr).clone()) },
        }
    }
}

} // verus!
