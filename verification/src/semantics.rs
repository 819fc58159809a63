//! The meaning of an evaluation, stated directly over the syntax tree, and the proof that
//! the step machine of [`crate::eval`] computes it whatever the embedder's code does.

use vstd::prelude::*;

use crate::eval::{
    next, not_found, redirect_unsupported, start, trim_newlines, var_value, Link, SpecAction, SpecContext,
    SpecEvaluation, SpecEvent, SpecFrame, SpecOutput, SpecTarget,
};
use crate::parser::ast::{RedirectMode, SpecExpr, SpecWordPart};

verus! {

/// What the machine asks the embedder's code to do.
pub enum Request {
    Command { name: Seq<char>, args: Seq<Seq<char>>, stdin: Seq<char> },
    Redirect { expr: SpecExpr, file: Seq<char>, mode: RedirectMode, stdin: Seq<char> },
}

/// The embedder's answer: the outcome of the code it ran, or that it has no code for this.
pub enum Reply<E> {
    Completed(Result<SpecOutput, E>),
    Unhandled,
}

/// The embedder's code: for a request, the context and the embedder's own state `W` (its
/// user state, what its closures hold, its handlers), the reply, the context it leaves and
/// its own state afterwards.
pub type Embedder<E, W> = spec_fn(Request, SpecContext, W) -> (Reply<E>, SpecContext, W);

/// An outcome with the context and the embedder's state after it.
pub type Outcome<T, E, W> = (Result<T, E>, SpecContext, W);

/// A machine, the context, the embedder's state, and what the embedder reports next.
pub type Stage<E, W> = (SpecEvaluation<E>, SpecContext, W, SpecEvent<E>);

// ─── the meaning of an evaluation ──────────────────────────────────────────

/// Runs a command through the embedder; the exit code of a command that ran is recorded.
pub open spec fn run_command<E, W>(
    x: Embedder<E, W>,
    name: Seq<char>,
    args: Seq<Seq<char>>,
    stdin: Seq<char>,
    c: SpecContext,
    u: W,
) -> Outcome<SpecOutput, E, W> {
    let (reply, c2, u2) = x(Request::Command { name, args, stdin }, c, u);
    match reply {
        Reply::Completed(Ok(o)) => (Ok(o), SpecContext { exit_status: o.exit_code, ..c2 }, u2),
        Reply::Completed(Err(e)) => (Err(e), c2, u2),
        Reply::Unhandled => (Ok(not_found(name)), c2, u2),
    }
}

/// Runs a redirection through the embedder.
pub open spec fn run_redirect<E, W>(
    x: Embedder<E, W>,
    expr: SpecExpr,
    file: Seq<char>,
    mode: RedirectMode,
    stdin: Seq<char>,
    c: SpecContext,
    u: W,
) -> Outcome<SpecOutput, E, W> {
    let (reply, c2, u2) = x(Request::Redirect { expr, file, mode, stdin }, c, u);
    match reply {
        Reply::Completed(r) => (r, c2, u2),
        Reply::Unhandled => (Ok(redirect_unsupported()), c2, u2),
    }
}

/// The outcome of `e` with input `stdin` in context `c` with the embedder in state `u`, and
/// the context and the embedder's state afterwards.
pub open spec fn eval_expr<E, W>(
    x: Embedder<E, W>,
    e: SpecExpr,
    stdin: Seq<char>,
    c: SpecContext,
    u: W,
) -> Outcome<SpecOutput, E, W>
    decreases e, 0int,
{
    match e {
        SpecExpr::Command { name, args } => match expand_parts(x, name, 0, seq![], c, u) {
            (Err(err), c1, u1) => (Err(err), c1, u1),
            (Ok(n), c1, u1) => match expand_args(x, args, 0, seq![], c1, u1) {
                (Err(err), c2, u2) => (Err(err), c2, u2),
                (Ok(vals), c2, u2) => run_command(x, n, vals, stdin, c2, u2),
            },
        },
        SpecExpr::Redirect { expr, file, mode } => match expand_parts(x, file, 0, seq![], c, u) {
            (Err(err), c1, u1) => (Err(err), c1, u1),
            (Ok(f), c1, u1) => run_redirect(x, *expr, f, mode, stdin, c1, u1),
        },
        SpecExpr::Pipe { left, right } => match eval_expr(x, *left, stdin, c, u) {
            (Err(err), c1, u1) => (Err(err), c1, u1),
            (Ok(o), c1, u1) => eval_expr(x, *right, o.stdout, c1, u1),
        },
        SpecExpr::Sequence { left, right } => match eval_expr(x, *left, stdin, c, u) {
            (Err(err), c1, u1) => (Err(err), c1, u1),
            (Ok(_), c1, u1) => eval_expr(x, *right, stdin, c1, u1),
        },
        SpecExpr::And { left, right } => match eval_expr(x, *left, stdin, c, u) {
            (Err(err), c1, u1) => (Err(err), c1, u1),
            (Ok(o), c1, u1) => if o.exit_code == 0 {
                eval_expr(x, *right, stdin, c1, u1)
            } else {
                (Ok(o), c1, u1)
            },
        },
        SpecExpr::Or { left, right } => match eval_expr(x, *left, stdin, c, u) {
            (Err(err), c1, u1) => (Err(err), c1, u1),
            (Ok(o), c1, u1) => if o.exit_code != 0 {
                eval_expr(x, *right, stdin, c1, u1)
            } else {
                (Ok(o), c1, u1)
            },
        },
        SpecExpr::Subshell { expr } => {
            let (r, c1, u1) = eval_expr(x, *expr, stdin, c, u);
            (r, SpecContext { cwd: c.cwd, vars: c.vars, exit_status: c1.exit_status }, u1)
        },
    }
}

/// The text of word `w` from its part `i` on, after the text `cur`.
pub open spec fn expand_parts<E, W>(
    x: Embedder<E, W>,
    w: Seq<SpecWordPart>,
    i: nat,
    cur: Seq<char>,
    c: SpecContext,
    u: W,
) -> Outcome<Seq<char>, E, W>
    decreases w, w.len() - i,
{
    if i >= w.len() {
        (Ok(cur), c, u)
    } else {
        match w[i as int] {
            SpecWordPart::Literal(t) => expand_parts(x, w, i + 1, cur + t, c, u),
            SpecWordPart::Variable(n) => expand_parts(x, w, i + 1, cur + var_value(c.vars, n), c, u),
            SpecWordPart::CommandSubst(sub) => match eval_expr(x, *sub, seq![], c, u) {
                (Err(err), c1, u1) => (Err(err), c1, u1),
                (Ok(o), c1, u1) => expand_parts(x, w, i + 1, cur + trim_newlines(o.stdout), c1, u1),
            },
        }
    }
}

/// The texts of the words `ws` from word `j` on, after the texts `vals`.
pub open spec fn expand_args<E, W>(
    x: Embedder<E, W>,
    ws: Seq<Seq<SpecWordPart>>,
    j: nat,
    vals: Seq<Seq<char>>,
    c: SpecContext,
    u: W,
) -> Outcome<Seq<Seq<char>>, E, W>
    decreases ws, ws.len() - j,
{
    if j >= ws.len() {
        (Ok(vals), c, u)
    } else {
        match expand_parts(x, ws[j as int], 0, seq![], c, u) {
            (Err(err), c1, u1) => (Err(err), c1, u1),
            (Ok(v), c1, u1) => expand_args(x, ws, j + 1, vals.push(v), c1, u1),
        }
    }
}

// ─── the machine, driven by the embedder ───────────────────────────────────

/// The event that reports the embedder's reply.
pub open spec fn reply_event<E>(r: Reply<E>) -> SpecEvent<E> {
    match r {
        Reply::Completed(v) => SpecEvent::Completed(v),
        Reply::Unhandled => SpecEvent::Unhandled,
    }
}

/// A machine without an outcome on its way.
pub open spec fn idle<E>(frames: Seq<SpecFrame>) -> SpecEvaluation<E> {
    SpecEvaluation { frames, pending: None }
}

/// A machine with the outcome `v` on its way to the task on top of `frames`.
pub open spec fn carrying<E>(frames: Seq<SpecFrame>, v: Result<SpecOutput, E>) -> SpecEvaluation<E> {
    SpecEvaluation { frames, pending: Some(v) }
}

/// One turn: a step of the machine, then the embedder's work on what it asks for.
pub open spec fn turn<E, W>(x: Embedder<E, W>, st: Stage<E, W>) -> Stage<E, W> {
    let (m1, c1, a) = next(st.0, st.1, st.3);
    match a {
        SpecAction::RunCommand { name, args, stdin } => {
            let (r, c2, u2) = x(Request::Command { name, args, stdin }, c1, st.2);
            (m1, c2, u2, reply_event(r))
        },
        SpecAction::Redirect { expr, file, mode, stdin } => {
            let (r, c2, u2) = x(Request::Redirect { expr, file, mode, stdin }, c1, st.2);
            (m1, c2, u2, reply_event(r))
        },
        _ => (m1, c1, st.2, SpecEvent::Proceed),
    }
}

/// `n` turns.
pub open spec fn turns<E, W>(x: Embedder<E, W>, st: Stage<E, W>, n: nat) -> Stage<E, W>
    decreases n,
{
    if n == 0 {
        st
    } else {
        turns(x, turn(x, st), (n - 1) as nat)
    }
}

proof fn lemma_turns_chain<E, W>(x: Embedder<E, W>, st: Stage<E, W>, a: nat, b: nat)
    ensures
        turns(x, st, a + b) == turns(x, turns(x, st, a), b),
    decreases a,
{
    if a > 0 {
        lemma_turns_chain(x, turn(x, st), (a - 1) as nat, b);
        assert((a + b - 1) as nat == (a - 1) as nat + b);
    }
}

proof fn lemma_turns_one<E, W>(x: Embedder<E, W>, st: Stage<E, W>)
    ensures
        turns(x, st, 1) == turn(x, st),
{
    reveal_with_fuel(turns, 2);
}

/// If `a` turns lead from `s0` to `s1` and `b` turns from `s1` to `s2`, `a + b` turns
/// lead from `s0` to `s2`.
proof fn lemma_then<E, W>(x: Embedder<E, W>, s0: Stage<E, W>, a: nat, s1: Stage<E, W>, b: nat, s2: Stage<E, W>)
    requires
        turns(x, s0, a) == s1,
        turns(x, s1, b) == s2,
    ensures
        turns(x, s0, a + b) == s2,
{
    lemma_turns_chain(x, s0, a, b);
}

/// The machine with the task list `frames`, nothing on its way, and nothing to report.
spec fn at<E, W>(frames: Seq<SpecFrame>, c: SpecContext, u: W) -> Stage<E, W> {
    (idle(frames), c, u, SpecEvent::Proceed)
}

/// The machine with the outcome `v` on its way to the task on top of `frames`.
spec fn arrive<E, W>(frames: Seq<SpecFrame>, r: Outcome<SpecOutput, E, W>) -> Stage<E, W> {
    (carrying(frames, r.0), r.1, r.2, SpecEvent::Proceed)
}

/// Where the expansion of word `w` (that is, `wd`) from its part `p` on leads: the word
/// complete with its text, or its error on the way to `rest`.
spec fn word_done<E, W>(
    x: Embedder<E, W>,
    rest: Seq<SpecFrame>,
    words: Seq<Seq<SpecWordPart>>,
    w: nat,
    wd: Seq<SpecWordPart>,
    p: nat,
    done: Seq<Seq<char>>,
    cur: Seq<char>,
    target: SpecTarget,
    c: SpecContext,
    u: W,
) -> Stage<E, W> {
    match expand_parts(x, wd, p, cur, c, u) {
        (Ok(t), c1, u1) => at(rest.push(SpecFrame::Expand { words, word: w, part: wd.len(), done, current: t, target }), c1, u1),
        (Err(err), c1, u1) => arrive(rest, (Err(err), c1, u1)),
    }
}

/// Where the expansion of the arguments of command word `name` (expanded to `nv`) from
/// argument `j` on leads.
spec fn args_done<E, W>(
    x: Embedder<E, W>,
    rest: Seq<SpecFrame>,
    name: Seq<SpecWordPart>,
    nv: Seq<char>,
    args: Seq<Seq<SpecWordPart>>,
    j: nat,
    vals: Seq<Seq<char>>,
    stdin: Seq<char>,
    c: SpecContext,
    u: W,
) -> Stage<E, W> {
    match expand_args(x, args, j, vals, c, u) {
        (Ok(vs), c1, u1) => at(
            rest.push(SpecFrame::Expand {
                words: seq![name] + args,
                word: args.len() + 1,
                part: 0,
                done: seq![nv] + vs,
                current: seq![],
                target: SpecTarget::Command { stdin },
            }),
            c1,
            u1,
        ),
        (Err(err), c1, u1) => arrive(rest, (Err(err), c1, u1)),
    }
}

/// The parts of word `w` from `p` on are expanded in some number of turns.
proof fn lemma_expand_word<E, W>(
    x: Embedder<E, W>,
    rest: Seq<SpecFrame>,
    words: Seq<Seq<SpecWordPart>>,
    w: nat,
    wd: Seq<SpecWordPart>,
    p: nat,
    done: Seq<Seq<char>>,
    cur: Seq<char>,
    target: SpecTarget,
    c: SpecContext,
    u: W,
) -> (n: nat)
    requires
        w < words.len(),
        words[w as int] == wd,
        p <= wd.len(),
    ensures
        turns(x, at(rest.push(SpecFrame::Expand { words, word: w, part: p, done, current: cur, target }), c, u), n)
            == word_done(x, rest, words, w, wd, p, done, cur, target, c, u),
    decreases wd, wd.len() - p,
{
    let top = SpecFrame::Expand { words, word: w, part: p, done, current: cur, target };
    let s0 = at::<E, W>(rest.push(top), c, u);
    let goal = word_done(x, rest, words, w, wd, p, done, cur, target, c, u);
    if p >= wd.len() {
        0
    } else {
        assert(rest.push(top).drop_last() =~= rest);
        lemma_turns_one(x, s0);
        match wd[p as int] {
            SpecWordPart::Literal(t) => {
                let s1 = at::<E, W>(rest.push(SpecFrame::Expand { words, word: w, part: p + 1, done, current: cur + t, target }), c, u);
                assert(turn(x, s0) == s1);
                let m = lemma_expand_word(x, rest, words, w, wd, p + 1, done, cur + t, target, c, u);
                lemma_then(x, s0, 1, s1, m, goal);
                1 + m
            },
            SpecWordPart::Variable(v) => {
                let t = var_value(c.vars, v);
                let s1 = at::<E, W>(rest.push(SpecFrame::Expand { words, word: w, part: p + 1, done, current: cur + t, target }), c, u);
                assert(turn(x, s0) == s1);
                let m = lemma_expand_word(x, rest, words, w, wd, p + 1, done, cur + t, target, c, u);
                lemma_then(x, s0, 1, s1, m, goal);
                1 + m
            },
            SpecWordPart::CommandSubst(sub) => {
                let s1 = at::<E, W>(rest.push(top).push(SpecFrame::Eval { expr: *sub, stdin: seq![] }), c, u);
                assert(turn(x, s0) == s1);
                let m1 = lemma_eval(x, rest.push(top), *sub, seq![], c, u);
                let r1 = eval_expr(x, *sub, seq![], c, u);
                let s2 = arrive(rest.push(top), r1);
                lemma_then(x, s0, 1, s1, m1, s2);
                lemma_turns_one(x, s2);
                match r1 {
                    (Err(err), c1, u1) => {
                        assert(turn(x, s2) == goal);
                        lemma_then(x, s0, 1 + m1, s2, 1, goal);
                        2 + m1
                    },
                    (Ok(o), c1, u1) => {
                        let t = trim_newlines(o.stdout);
                        let s3 = at::<E, W>(rest.push(SpecFrame::Expand { words, word: w, part: p + 1, done, current: cur + t, target }), c1, u1);
                        assert(turn(x, s2) == s3);
                        lemma_then(x, s0, 1 + m1, s2, 1, s3);
                        let m3 = lemma_expand_word(x, rest, words, w, wd, p + 1, done, cur + t, target, c1, u1);
                        lemma_then(x, s0, 2 + m1, s3, m3, goal);
                        2 + m1 + m3
                    },
                }
            },
        }
    }
}

/// The arguments of a command from argument `j` on are expanded in some number of turns.
proof fn lemma_expand_args<E, W>(
    x: Embedder<E, W>,
    rest: Seq<SpecFrame>,
    name: Seq<SpecWordPart>,
    nv: Seq<char>,
    args: Seq<Seq<SpecWordPart>>,
    j: nat,
    vals: Seq<Seq<char>>,
    stdin: Seq<char>,
    c: SpecContext,
    u: W,
) -> (n: nat)
    requires
        j <= args.len(),
    ensures
        turns(
            x,
            at(
                rest.push(SpecFrame::Expand {
                    words: seq![name] + args,
                    word: j + 1,
                    part: 0,
                    done: seq![nv] + vals,
                    current: seq![],
                    target: SpecTarget::Command { stdin },
                }),
                c,
                u,
            ),
            n,
        ) == args_done(x, rest, name, nv, args, j, vals, stdin, c, u),
    decreases args, args.len() - j,
{
    let words = seq![name] + args;
    let tgt = SpecTarget::Command { stdin };
    let s0 = at::<E, W>(
        rest.push(SpecFrame::Expand { words, word: j + 1, part: 0, done: seq![nv] + vals, current: seq![], target: tgt }),
        c,
        u,
    );
    if j >= args.len() {
        0
    } else {
        let wd = args[j as int];
        assert(words[j + 1int] == wd);
        let m1 = lemma_expand_word(x, rest, words, j + 1, wd, 0, seq![nv] + vals, seq![], tgt, c, u);
        match expand_parts(x, wd, 0, seq![], c, u) {
            (Err(err), c1, u1) => m1,
            (Ok(t), c1, u1) => {
                let top = SpecFrame::Expand { words, word: j + 1, part: wd.len(), done: seq![nv] + vals, current: t, target: tgt };
                let s1 = at::<E, W>(rest.push(top), c1, u1);
                let s2 = at::<E, W>(
                    rest.push(SpecFrame::Expand { words, word: j + 2, part: 0, done: seq![nv] + vals.push(t), current: seq![], target: tgt }),
                    c1,
                    u1,
                );
                assert((seq![nv] + vals).push(t) =~= seq![nv] + vals.push(t));
                assert(rest.push(top).drop_last() =~= rest);
                lemma_turns_one(x, s1);
                assert(turn(x, s1) == s2);
                lemma_then(x, s0, m1, s1, 1, s2);
                let m2 = lemma_expand_args(x, rest, name, nv, args, j + 1, vals.push(t), stdin, c1, u1);
                lemma_then(x, s0, m1 + 1, s2, m2, args_done(x, rest, name, nv, args, j, vals, stdin, c, u));
                m1 + 1 + m2
            },
        }
    }
}

/// Whether the right operand of `link` runs after the left one gave `o`.
pub open spec fn runs_right(link: Link, o: SpecOutput) -> bool {
    match link {
        Link::Pipe => true,
        Link::Sequence => true,
        Link::And => o.exit_code == 0,
        Link::Or => o.exit_code != 0,
    }
}

/// The input of the right operand of `link`.
pub open spec fn right_input(link: Link, o: SpecOutput, stdin: Seq<char>) -> Seq<char> {
    if link is Pipe {
        o.stdout
    } else {
        stdin
    }
}

/// The meaning of the binary expression `left link right`.
spec fn linked<E, W>(
    x: Embedder<E, W>,
    link: Link,
    left: SpecExpr,
    right: SpecExpr,
    stdin: Seq<char>,
    c: SpecContext,
    u: W,
) -> Outcome<SpecOutput, E, W> {
    match eval_expr(x, left, stdin, c, u) {
        (Err(err), c1, u1) => (Err(err), c1, u1),
        (Ok(o), c1, u1) => if runs_right(link, o) {
            eval_expr(x, right, right_input(link, o, stdin), c1, u1)
        } else {
            (Ok(o), c1, u1)
        },
    }
}

/// The turns of a binary expression, from those of its operands.
proof fn lemma_link<E, W>(
    x: Embedder<E, W>,
    rest: Seq<SpecFrame>,
    link: Link,
    left: SpecExpr,
    right: SpecExpr,
    stdin: Seq<char>,
    c: SpecContext,
    u: W,
    n1: nat,
    n2: nat,
) -> (n: nat)
    requires
        turns(x, at(rest.push(SpecFrame::Then { link, right, stdin }).push(SpecFrame::Eval { expr: left, stdin }), c, u), n1)
            == arrive(rest.push(SpecFrame::Then { link, right, stdin }), eval_expr(x, left, stdin, c, u)),
        match eval_expr(x, left, stdin, c, u) {
            (Ok(o), c1, u1) => runs_right(link, o) ==> turns(
                x,
                at(rest.push(SpecFrame::Eval { expr: right, stdin: right_input(link, o, stdin) }), c1, u1),
                n2,
            ) == arrive(rest, eval_expr(x, right, right_input(link, o, stdin), c1, u1)),
            (Err(_), _, _) => true,
        },
    ensures
        turns(x, at(rest.push(SpecFrame::Then { link, right, stdin }).push(SpecFrame::Eval { expr: left, stdin }), c, u), n)
            == arrive(rest, linked(x, link, left, right, stdin, c, u)),
{
    let th = SpecFrame::Then { link, right, stdin };
    let s1 = at::<E, W>(rest.push(th).push(SpecFrame::Eval { expr: left, stdin }), c, u);
    let r1 = eval_expr(x, left, stdin, c, u);
    let s2 = arrive(rest.push(th), r1);
    let goal = arrive(rest, linked(x, link, left, right, stdin, c, u));
    assert(rest.push(th).drop_last() =~= rest);
    lemma_turns_one(x, s2);
    match r1 {
        (Err(err), c1, u1) => {
            assert(turn(x, s2) == goal);
            lemma_then(x, s1, n1, s2, 1, goal);
            n1 + 1
        },
        (Ok(o), c1, u1) => if runs_right(link, o) {
            let s3 = at::<E, W>(rest.push(SpecFrame::Eval { expr: right, stdin: right_input(link, o, stdin) }), c1, u1);
            assert(turn(x, s2) == s3);
            lemma_then(x, s1, n1, s2, 1, s3);
            lemma_then(x, s1, n1 + 1, s3, n2, goal);
            n1 + 1 + n2
        } else {
            assert(turn(x, s2) == goal);
            lemma_then(x, s1, n1, s2, 1, goal);
            n1 + 1
        },
    }
}

/// Evaluating `e` on top of `rest` brings its outcome to `rest` in some number of turns.
proof fn lemma_eval<E, W>(
    x: Embedder<E, W>,
    rest: Seq<SpecFrame>,
    e: SpecExpr,
    stdin: Seq<char>,
    c: SpecContext,
    u: W,
) -> (n: nat)
    ensures
        turns(x, at(rest.push(SpecFrame::Eval { expr: e, stdin }), c, u), n) == arrive(rest, eval_expr(x, e, stdin, c, u)),
    decreases e, 1int,
{
    let s0 = at::<E, W>(rest.push(SpecFrame::Eval { expr: e, stdin }), c, u);
    let s1 = at::<E, W>(start(rest, c, e, stdin), c, u);
    let goal = arrive(rest, eval_expr(x, e, stdin, c, u));
    assert(rest.push(SpecFrame::Eval { expr: e, stdin }).drop_last() =~= rest);
    lemma_turns_one(x, s0);
    assert(turn(x, s0) == s1);
    let m = match e {
        SpecExpr::Command { .. } => lemma_eval_command(x, rest, e, stdin, c, u),
        SpecExpr::Redirect { .. } => lemma_eval_redirect(x, rest, e, stdin, c, u),
        SpecExpr::Pipe { left, right } => {
            let link = Link::Pipe;
            let m1 = lemma_eval(x, rest.push(SpecFrame::Then { link, right: *right, stdin }), *left, stdin, c, u);
            let m2 = match eval_expr(x, *left, stdin, c, u) {
                (Ok(o), c1, u1) => if runs_right(link, o) { lemma_eval(x, rest, *right, right_input(link, o, stdin), c1, u1) } else { 0 },
                _ => 0,
            };
            lemma_link(x, rest, link, *left, *right, stdin, c, u, m1, m2)
        },
        SpecExpr::Sequence { left, right } => {
            let link = Link::Sequence;
            let m1 = lemma_eval(x, rest.push(SpecFrame::Then { link, right: *right, stdin }), *left, stdin, c, u);
            let m2 = match eval_expr(x, *left, stdin, c, u) {
                (Ok(o), c1, u1) => if runs_right(link, o) { lemma_eval(x, rest, *right, right_input(link, o, stdin), c1, u1) } else { 0 },
                _ => 0,
            };
            lemma_link(x, rest, link, *left, *right, stdin, c, u, m1, m2)
        },
        SpecExpr::And { left, right } => {
            let link = Link::And;
            let m1 = lemma_eval(x, rest.push(SpecFrame::Then { link, right: *right, stdin }), *left, stdin, c, u);
            let m2 = match eval_expr(x, *left, stdin, c, u) {
                (Ok(o), c1, u1) => if runs_right(link, o) { lemma_eval(x, rest, *right, right_input(link, o, stdin), c1, u1) } else { 0 },
                _ => 0,
            };
            lemma_link(x, rest, link, *left, *right, stdin, c, u, m1, m2)
        },
        SpecExpr::Or { left, right } => {
            let link = Link::Or;
            let m1 = lemma_eval(x, rest.push(SpecFrame::Then { link, right: *right, stdin }), *left, stdin, c, u);
            let m2 = match eval_expr(x, *left, stdin, c, u) {
                (Ok(o), c1, u1) => if runs_right(link, o) { lemma_eval(x, rest, *right, right_input(link, o, stdin), c1, u1) } else { 0 },
                _ => 0,
            };
            lemma_link(x, rest, link, *left, *right, stdin, c, u, m1, m2)
        },
        SpecExpr::Subshell { expr: inner } => {
            let rs = SpecFrame::Restore { cwd: c.cwd, vars: c.vars };
            let m1 = lemma_eval(x, rest.push(rs), *inner, stdin, c, u);
            let s2 = arrive(rest.push(rs), eval_expr(x, *inner, stdin, c, u));
            assert(rest.push(rs).drop_last() =~= rest);
            lemma_turns_one(x, s2);
            assert(turn(x, s2) == goal);
            lemma_then(x, s1, m1, s2, 1, goal);
            m1 + 1
        },
    };
    lemma_then(x, s0, 1, s1, m, goal);
    1 + m
}

/// The turns of a command: its words are expanded, the embedder runs it, its outcome comes back.
proof fn lemma_eval_command<E, W>(
    x: Embedder<E, W>,
    rest: Seq<SpecFrame>,
    e: SpecExpr,
    stdin: Seq<char>,
    c: SpecContext,
    u: W,
) -> (n: nat)
    requires
        e is Command,
    ensures
        turns(x, at(start(rest, c, e, stdin), c, u), n) == arrive(rest, eval_expr(x, e, stdin, c, u)),
    decreases e, 0int,
{
    match e {
        SpecExpr::Command { name, args } => {
            let words = seq![name] + args;
            let tgt = SpecTarget::Command { stdin };
            let s0 = at::<E, W>(start(rest, c, e, stdin), c, u);
            assert(words[0] == name);
            let m1 = lemma_expand_word(x, rest, words, 0, name, 0, seq![], seq![], tgt, c, u);
            match expand_parts(x, name, 0, seq![], c, u) {
                (Err(err), c1, u1) => m1,
                (Ok(nv), c1, u1) => {
                    let top1 = SpecFrame::Expand { words, word: 0, part: name.len(), done: seq![], current: nv, target: tgt };
                    let s1 = at::<E, W>(rest.push(top1), c1, u1);
                    let s2 = at::<E, W>(
                        rest.push(SpecFrame::Expand { words, word: 1, part: 0, done: seq![nv] + Seq::<Seq<char>>::empty(), current: seq![], target: tgt }),
                        c1,
                        u1,
                    );
                    assert(Seq::<Seq<char>>::empty().push(nv) =~= seq![nv] + Seq::<Seq<char>>::empty());
                    assert(rest.push(top1).drop_last() =~= rest);
                    lemma_turns_one(x, s1);
                    assert(turn(x, s1) == s2);
                    lemma_then(x, s0, m1, s1, 1, s2);
                    let m2 = lemma_expand_args(x, rest, name, nv, args, 0, Seq::<Seq<char>>::empty(), stdin, c1, u1);
                    match expand_args(x, args, 0, Seq::<Seq<char>>::empty(), c1, u1) {
                        (Err(err), c2, u2) => {
                            lemma_then(x, s0, m1 + 1, s2, m2, arrive(rest, (Err::<SpecOutput, E>(err), c2, u2)));
                            m1 + 1 + m2
                        },
                        (Ok(vs), c2, u2) => {
                            let done = seq![nv] + vs;
                            let top3 = SpecFrame::Expand { words, word: args.len() + 1, part: 0, done, current: seq![], target: tgt };
                            let s3 = at::<E, W>(rest.push(top3), c2, u2);
                            lemma_then(x, s0, m1 + 1, s2, m2, s3);
                            assert(done[0] == nv);
                            assert(done.drop_first() =~= vs);
                            assert(rest.push(top3).drop_last() =~= rest);
                            let (reply, c3, u3) = x(Request::Command { name: nv, args: vs, stdin }, c2, u2);
                            let aw = SpecFrame::AwaitCommand { name: nv };
                            let s4 = (idle::<E>(rest.push(aw)), c3, u3, reply_event(reply));
                            lemma_turns_one(x, s3);
                            assert(turn(x, s3) == s4);
                            lemma_then(x, s0, m1 + 1 + m2, s3, 1, s4);
                            let goal = arrive(rest, run_command(x, nv, vs, stdin, c2, u2));
                            assert(rest.push(aw).drop_last() =~= rest);
                            lemma_turns_one(x, s4);
                            assert(turn(x, s4) == goal);
                            lemma_then(x, s0, m1 + 2 + m2, s4, 1, goal);
                            m1 + m2 + 3
                        },
                    }
                },
            }
        },
        _ => 0,
    }
}

/// The turns of a redirection: its file name is expanded, the embedder's handler runs, its
/// outcome comes back.
proof fn lemma_eval_redirect<E, W>(
    x: Embedder<E, W>,
    rest: Seq<SpecFrame>,
    e: SpecExpr,
    stdin: Seq<char>,
    c: SpecContext,
    u: W,
) -> (n: nat)
    requires
        e is Redirect,
    ensures
        turns(x, at(start(rest, c, e, stdin), c, u), n) == arrive(rest, eval_expr(x, e, stdin, c, u)),
    decreases e, 0int,
{
    match e {
        SpecExpr::Redirect { expr, file, mode } => {
            let words = seq![file];
            let tgt = SpecTarget::Redirect { expr: *expr, mode, stdin };
            let s0 = at::<E, W>(start(rest, c, e, stdin), c, u);
            let m1 = lemma_expand_word(x, rest, words, 0, file, 0, seq![], seq![], tgt, c, u);
            match expand_parts(x, file, 0, seq![], c, u) {
                (Err(err), c1, u1) => m1,
                (Ok(f), c1, u1) => {
                    let top1 = SpecFrame::Expand { words, word: 0, part: file.len(), done: seq![], current: f, target: tgt };
                    let s1 = at::<E, W>(rest.push(top1), c1, u1);
                    let top2 = SpecFrame::Expand { words, word: 1, part: 0, done: Seq::<Seq<char>>::empty().push(f), current: seq![], target: tgt };
                    let s2 = at::<E, W>(rest.push(top2), c1, u1);
                    assert(rest.push(top1).drop_last() =~= rest);
                    assert(rest.push(top2).drop_last() =~= rest);
                    lemma_turns_one(x, s1);
                    assert(turn(x, s1) == s2);
                    lemma_then(x, s0, m1, s1, 1, s2);
                    let (reply, c2, u2) = x(Request::Redirect { expr: *expr, file: f, mode, stdin }, c1, u1);
                    let s3 = (idle::<E>(rest.push(SpecFrame::AwaitRedirect)), c2, u2, reply_event(reply));
                    lemma_turns_one(x, s2);
                    assert(turn(x, s2) == s3);
                    lemma_then(x, s0, m1 + 1, s2, 1, s3);
                    let goal = arrive(rest, run_redirect(x, *expr, f, mode, stdin, c1, u1));
                    assert(rest.push(SpecFrame::AwaitRedirect).drop_last() =~= rest);
                    lemma_turns_one(x, s3);
                    assert(turn(x, s3) == goal);
                    lemma_then(x, s0, m1 + 2, s3, 1, goal);
                    m1 + 3
                },
            }
        },
        _ => 0,
    }
}

// ─── laws ───────────────────────────────────────────────────────────────────

/// Law: whatever the embedder's code `x` does, the evaluation of `e` with input `stdin` in
/// context `c` with the embedder in state `u` (the machine [`crate::eval::Evaluation::new`]
/// makes) brings, after finitely many turns, the outcome that [`eval_expr`] gives to the
/// bottom of the machine, with the context and the embedder's state that [`eval_expr`] gives;
/// the next step hands that outcome out and leaves the machine finished.
pub proof fn law_evaluation_computes_meaning<E, W>(
    x: Embedder<E, W>,
    e: SpecExpr,
    stdin: Seq<char>,
    c: SpecContext,
    u: W,
) -> (n: nat)
    ensures
        ({
            let (r, c1, u1) = eval_expr(x, e, stdin, c, u);
            &&& turns(x, (idle(seq![SpecFrame::Eval { expr: e, stdin }]), c, u, SpecEvent::Proceed), n)
                == (carrying(seq![], r), c1, u1, SpecEvent::<E>::Proceed)
            &&& next(carrying(seq![], r), c1, SpecEvent::Proceed) == (idle::<E>(seq![]), c1, SpecAction::Finished(r))
        }),
{
    assert(Seq::<SpecFrame>::empty().push(SpecFrame::Eval { expr: e, stdin }) =~= seq![SpecFrame::Eval { expr: e, stdin }]);
    lemma_eval(x, Seq::empty(), e, stdin, c, u)
}

/// Law: whatever the embedder's code `x` does, the expansion of word `w` in context `c` with
/// the embedder in state `u` (the machine [`crate::eval::Evaluation::expansion`] makes)
/// brings, after finitely many turns, the text that [`expand_parts`] gives, as the standard
/// output of a successful outcome, or its error, to the bottom of the machine, with the
/// context and the embedder's state that [`expand_parts`] gives.
pub proof fn law_expansion_computes_meaning<E, W>(x: Embedder<E, W>, w: Seq<SpecWordPart>, c: SpecContext, u: W) -> (n: nat)
    ensures
        turns(
            x,
            (
                idle(seq![SpecFrame::Expand { words: seq![w], word: 0, part: 0, done: seq![], current: seq![], target: SpecTarget::Text }]),
                c,
                u,
                SpecEvent::Proceed,
            ),
            n,
        ) == match expand_parts(x, w, 0, seq![], c, u) {
            (Ok(t), c1, u1) => (
                carrying(seq![], Ok(SpecOutput { stdout: t, stderr: seq![], exit_code: 0 })),
                c1,
                u1,
                SpecEvent::<E>::Proceed,
            ),
            (Err(err), c1, u1) => (carrying(seq![], Err(err)), c1, u1, SpecEvent::<E>::Proceed),
        },
{
    let words = seq![w];
    let rest = Seq::<SpecFrame>::empty();
    let top0 = SpecFrame::Expand { words, word: 0, part: 0, done: seq![], current: seq![], target: SpecTarget::Text };
    assert(rest.push(top0) =~= seq![top0]);
    let s0 = at::<E, W>(rest.push(top0), c, u);
    let m = lemma_expand_word(x, rest, words, 0, w, 0, seq![], seq![], SpecTarget::Text, c, u);
    match expand_parts(x, w, 0, seq![], c, u) {
        (Err(err), c1, u1) => m,
        (Ok(t), c1, u1) => {
            let top1 = SpecFrame::Expand { words, word: 0, part: w.len(), done: seq![], current: t, target: SpecTarget::Text };
            let s1 = at::<E, W>(rest.push(top1), c1, u1);
            let top2 = SpecFrame::Expand {
                words,
                word: 1,
                part: 0,
                done: Seq::<Seq<char>>::empty().push(t),
                current: seq![],
                target: SpecTarget::Text,
            };
            let s2 = at::<E, W>(rest.push(top2), c1, u1);
            assert(rest.push(top1).drop_last() =~= rest);
            assert(rest.push(top2).drop_last() =~= rest);
            lemma_turns_one(x, s1);
            assert(turn(x, s1) == s2);
            lemma_then(x, s0, m, s1, 1, s2);
            let goal = arrive(rest, (Ok::<SpecOutput, E>(SpecOutput { stdout: t, stderr: seq![], exit_code: 0 }), c1, u1));
            lemma_turns_one(x, s2);
            assert(turn(x, s2) == goal);
            lemma_then(x, s0, m + 1, s2, 1, goal);
            m + 2
        },
    }
}

} // verus!
