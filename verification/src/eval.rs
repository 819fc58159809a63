//! Evaluation of a syntax tree, as a machine that the shell drives.
//!
//! Commands, command hooks and redirection handlers are code of the embedding program.
//! The machine decides what runs, in which order, with which input, and what the
//! outcome is; between its steps the embedder runs what the machine asks for and
//! reports back.

use vstd::prelude::*;

use crate::context::{env_entries, lookup, Context};
use indexmap::IndexMap;
use crate::output::Output;
use crate::parser::ast::{expr_model, word_model, words_model, Expr, RedirectMode, SpecExpr, SpecWordPart, Word, WordPart};
use crate::text::{chars_of, push_str, string_from_chars};

verus! {

// ─── models ─────────────────────────────────────────────────────────────────

/// Mathematical model of an [`Output`].
pub struct SpecOutput {
    pub stdout: Seq<char>,
    pub stderr: Seq<char>,
    pub exit_code: i32,
}

impl View for Output {
    type V = SpecOutput;

    open spec fn view(&self) -> SpecOutput {
        SpecOutput { stdout: self.stdout@, stderr: self.stderr@, exit_code: self.exit_code }
    }
}

pub open spec fn outcome_model<E>(r: Result<Output, E>) -> Result<SpecOutput, E> {
    match r {
        Ok(o) => Ok(o@),
        Err(e) => Err(e),
    }
}

/// How the right operand of a binary expression depends on the left one's outcome.
#[derive(Clone, Copy, PartialEq, Eq)]
pub enum Link {
    /// `|`: runs with the left output as its input.
    Pipe,
    /// `;`: always runs.
    Sequence,
    /// `&&`: runs when the left one succeeded.
    And,
    /// `||`: runs when the left one failed.
    Or,
}

/// What the words being expanded are for.
pub enum SpecTarget {
    Command { stdin: Seq<char> },
    Redirect { expr: SpecExpr, mode: RedirectMode, stdin: Seq<char> },
    Text,
}

/// One pending task of the machine, the innermost last.
pub enum SpecFrame {
    /// Evaluate `expr` with `stdin`.
    Eval { expr: SpecExpr, stdin: Seq<char> },
    /// The left operand is running; then `right` (see [`Link`]).
    Then { link: Link, right: SpecExpr, stdin: Seq<char> },
    /// A subshell is running; afterwards the working directory and the variables
    /// are set back to these.
    Restore { cwd: Seq<char>, vars: Seq<(Seq<char>, Seq<char>)> },
    /// Expanding `words`: `done` holds the finished ones, `current` the text of the
    /// word `word` up to its part `part`.
    Expand {
        words: Seq<Seq<SpecWordPart>>,
        word: nat,
        part: nat,
        done: Seq<Seq<char>>,
        current: Seq<char>,
        target: SpecTarget,
    },
    /// Waiting for the outcome of command `name`.
    AwaitCommand { name: Seq<char> },
    /// Waiting for the outcome of a redirection.
    AwaitRedirect,
}

/// The state of an evaluation: its tasks, and the outcome on its way to the task below, if any.
pub struct SpecEvaluation<E> {
    pub frames: Seq<SpecFrame>,
    pub pending: Option<Result<SpecOutput, E>>,
}

/// What of a [`Context`] the evaluation reads and changes.
pub struct SpecContext {
    pub cwd: Seq<char>,
    pub vars: Seq<(Seq<char>, Seq<char>)>,
    pub exit_status: i32,
}

pub open spec fn context_model<T>(c: Context<T>) -> SpecContext {
    SpecContext { cwd: c.cwd(), vars: c.vars(), exit_status: c.exit_status() }
}

/// What the embedder reports to the machine.
pub enum Event<E> {
    /// Nothing to report: the machine goes on.
    Proceed,
    /// The requested command or redirection ran, with this outcome.
    Completed(Result<Output, E>),
    /// No builtin and no hook handles the requested command, or no redirection handler is set.
    Unhandled,
}

pub enum SpecEvent<E> {
    Proceed,
    Completed(Result<SpecOutput, E>),
    Unhandled,
}

impl<E> Event<E> {
    pub open spec fn model(&self) -> SpecEvent<E> {
        match self {
            Event::Proceed => SpecEvent::Proceed,
            Event::Completed(r) => SpecEvent::Completed(outcome_model(*r)),
            Event::Unhandled => SpecEvent::Unhandled,
        }
    }
}

/// What the machine asks the embedder to do.
pub enum Action<E> {
    /// Report [`Event::Proceed`].
    Continue,
    /// Run the builtin `name`, or else the hook, with `args` and `stdin`; report the outcome,
    /// or [`Event::Unhandled`] when there is neither.
    RunCommand { name: String, args: Vec<String>, stdin: String },
    /// Run the redirection handler on `expr`, `file`, `mode` and `stdin`; report the outcome,
    /// or [`Event::Unhandled`] when there is no handler.
    Redirect { expr: Expr, file: String, mode: RedirectMode, stdin: String },
    /// The evaluation is over, with this outcome.
    Finished(Result<Output, E>),
}

pub enum SpecAction<E> {
    Continue,
    RunCommand { name: Seq<char>, args: Seq<Seq<char>>, stdin: Seq<char> },
    Redirect { expr: SpecExpr, file: Seq<char>, mode: RedirectMode, stdin: Seq<char> },
    Finished(Result<SpecOutput, E>),
}

pub open spec fn strings_model(v: Seq<String>) -> Seq<Seq<char>> {
    v.map_values(|s: String| s@)
}

impl<E> Action<E> {
    pub open spec fn model(&self) -> SpecAction<E> {
        match self {
            Action::Continue => SpecAction::Continue,
            Action::RunCommand { name, args, stdin } => SpecAction::RunCommand {
                name: name@,
                args: strings_model(args@),
                stdin: stdin@,
            },
            Action::Redirect { expr, file, mode, stdin } => SpecAction::Redirect {
                expr: expr@,
                file: file@,
                mode: *mode,
                stdin: stdin@,
            },
            Action::Finished(r) => SpecAction::Finished(outcome_model(*r)),
        }
    }
}

/// Which of the embedder's code runs a command.
#[derive(Clone, Copy, PartialEq, Eq)]
pub enum Dispatch {
    /// The builtin registered under the command's name.
    Builtin,
    /// The hook for commands without a builtin.
    Hook,
    /// Nothing: the command is not found.
    Unhandled,
}

/// The builtin registered under the command's name runs if there is one, else the hook if
/// one is set; otherwise nothing handles the command.
pub fn dispatch(is_builtin: bool, has_hook: bool) -> (r: Dispatch)
    ensures
        r == (if is_builtin {
            Dispatch::Builtin
        } else if has_hook {
            Dispatch::Hook
        } else {
            Dispatch::Unhandled
        }),
{
    if is_builtin {
        Dispatch::Builtin
    } else if has_hook {
        Dispatch::Hook
    } else {
        Dispatch::Unhandled
    }
}

// ─── the transitions ────────────────────────────────────────────────────────

/// `s` without its trailing newlines.
pub open spec fn trim_newlines(s: Seq<char>) -> Seq<char>
    decreases s.len(),
{
    if s.len() > 0 && s.last() == '\n' {
        trim_newlines(s.drop_last())
    } else {
        s
    }
}

/// Law: only trailing newlines go: the trimmed text `t` is a prefix of `s`, everything of `s`
/// after it is a newline, and `t` is empty or does not end with a newline.
pub proof fn law_trim_newlines_only_trailing(s: Seq<char>)
    ensures
        trim_newlines(s).len() <= s.len(),
        s.subrange(0, trim_newlines(s).len() as int) == trim_newlines(s),
        forall|i: int| trim_newlines(s).len() <= i < s.len() ==> s[i] == '\n',
        trim_newlines(s).len() == 0 || trim_newlines(s).last() != '\n',
    decreases s.len(),
{
    if s.len() > 0 && s.last() == '\n' {
        let d = s.drop_last();
        law_trim_newlines_only_trailing(d);
        let n = trim_newlines(d).len() as int;
        assert(s.subrange(0, n) =~= d.subrange(0, n));
        assert forall|i: int| n <= i < s.len() implies s[i] == '\n' by {
            if i < d.len() {
                assert(s[i] == d[i]);
            }
        }
    } else {
        assert(s.subrange(0, s.len() as int) =~= s);
    }
}

/// The value of a variable; an unset variable reads as empty.
pub open spec fn var_value(vars: Seq<(Seq<char>, Seq<char>)>, name: Seq<char>) -> Seq<char> {
    match lookup(vars, name) {
        Some(v) => v,
        None => Seq::empty(),
    }
}

/// The outcome of a command that nothing handles.
pub open spec fn not_found(name: Seq<char>) -> SpecOutput {
    SpecOutput {
        stdout: Seq::empty(),
        stderr: "command not found: "@ + name + "\n"@,
        exit_code: 127,
    }
}

/// The outcome of a redirection without a handler.
pub open spec fn redirect_unsupported() -> SpecOutput {
    SpecOutput {
        stdout: Seq::empty(),
        stderr: "Redirection not supported by this shell\n"@,
        exit_code: 1,
    }
}

pub open spec fn is_await(f: SpecFrame) -> bool {
    f is AwaitCommand || f is AwaitRedirect
}

/// The machine waits for the outcome of a command or redirection.
pub open spec fn awaiting<E>(m: SpecEvaluation<E>) -> bool {
    m.pending is None && m.frames.len() > 0 && is_await(m.frames.last())
}

/// The machine has handed out its outcome.
pub open spec fn finished<E>(m: SpecEvaluation<E>) -> bool {
    m.pending is None && m.frames.len() == 0
}

/// The task that evaluates `expr` with `stdin`, in place of the one on top.
pub open spec fn start(
    rest: Seq<SpecFrame>,
    c: SpecContext,
    expr: SpecExpr,
    stdin: Seq<char>,
) -> Seq<SpecFrame> {
    match expr {
        SpecExpr::Command { name, args } => rest.push(
            SpecFrame::Expand {
                words: seq![name] + args,
                word: 0,
                part: 0,
                done: seq![],
                current: seq![],
                target: SpecTarget::Command { stdin },
            },
        ),
        SpecExpr::Redirect { expr, file, mode } => rest.push(
            SpecFrame::Expand {
                words: seq![file],
                word: 0,
                part: 0,
                done: seq![],
                current: seq![],
                target: SpecTarget::Redirect { expr: *expr, mode, stdin },
            },
        ),
        SpecExpr::Pipe { left, right } => rest.push(
            SpecFrame::Then { link: Link::Pipe, right: *right, stdin },
        ).push(SpecFrame::Eval { expr: *left, stdin }),
        SpecExpr::Sequence { left, right } => rest.push(
            SpecFrame::Then { link: Link::Sequence, right: *right, stdin },
        ).push(SpecFrame::Eval { expr: *left, stdin }),
        SpecExpr::And { left, right } => rest.push(
            SpecFrame::Then { link: Link::And, right: *right, stdin },
        ).push(SpecFrame::Eval { expr: *left, stdin }),
        SpecExpr::Or { left, right } => rest.push(
            SpecFrame::Then { link: Link::Or, right: *right, stdin },
        ).push(SpecFrame::Eval { expr: *left, stdin }),
        SpecExpr::Subshell { expr } => rest.push(SpecFrame::Restore { cwd: c.cwd, vars: c.vars }).push(
            SpecFrame::Eval { expr: *expr, stdin },
        ),
    }
}

/// One step of expansion for the task `Expand` on top of `rest`.
pub open spec fn expand_step<E>(
    rest: Seq<SpecFrame>,
    c: SpecContext,
    top: SpecFrame,
) -> (SpecEvaluation<E>, SpecAction<E>) {
    match top {
        SpecFrame::Expand { words, word, part, done, current, target } => if word >= words.len() {
            // every word is expanded
            match target {
                SpecTarget::Command { stdin } => (
                    SpecEvaluation { frames: rest.push(SpecFrame::AwaitCommand { name: done[0] }), pending: None },
                    SpecAction::RunCommand { name: done[0], args: done.drop_first(), stdin },
                ),
                SpecTarget::Redirect { expr, mode, stdin } => (
                    SpecEvaluation { frames: rest.push(SpecFrame::AwaitRedirect), pending: None },
                    SpecAction::Redirect { expr, file: done[0], mode, stdin },
                ),
                SpecTarget::Text => (
                    SpecEvaluation {
                        frames: rest,
                        pending: Some(Ok(SpecOutput { stdout: done[0], stderr: Seq::empty(), exit_code: 0 })),
                    },
                    SpecAction::Continue,
                ),
            }
        } else if part >= words[word as int].len() {
            // the current word is complete
            (
                SpecEvaluation {
                    frames: rest.push(
                        SpecFrame::Expand { words, word: word + 1, part: 0, done: done.push(current), current: seq![], target },
                    ),
                    pending: None,
                },
                SpecAction::Continue,
            )
        } else {
            match words[word as int][part as int] {
                SpecWordPart::Literal(text) => (
                    SpecEvaluation {
                        frames: rest.push(
                            SpecFrame::Expand { words, word, part: part + 1, done, current: current + text, target },
                        ),
                        pending: None,
                    },
                    SpecAction::Continue,
                ),
                SpecWordPart::Variable(name) => (
                    SpecEvaluation {
                        frames: rest.push(
                            SpecFrame::Expand {
                                words,
                                word,
                                part: part + 1,
                                done,
                                current: current + var_value(c.vars, name),
                                target,
                            },
                        ),
                        pending: None,
                    },
                    SpecAction::Continue,
                ),
                SpecWordPart::CommandSubst(e) => (
                    // the substitution runs with empty input; the expansion waits for it
                    SpecEvaluation { frames: rest.push(top).push(SpecFrame::Eval { expr: *e, stdin: seq![] }), pending: None },
                    SpecAction::Continue,
                ),
            }
        },
        _ => (SpecEvaluation { frames: rest.push(top), pending: None }, SpecAction::Continue),
    }
}

/// The outcome `v` reaches the task on top of `frames`.
pub open spec fn deliver<E>(
    frames: Seq<SpecFrame>,
    c: SpecContext,
    v: Result<SpecOutput, E>,
) -> (SpecEvaluation<E>, SpecContext, SpecAction<E>) {
    if frames.len() == 0 {
        (SpecEvaluation { frames, pending: None }, c, SpecAction::Finished(v))
    } else {
        let rest = frames.drop_last();
        match frames.last() {
            SpecFrame::Then { link, right, stdin } => match v {
                Err(e) => (SpecEvaluation { frames: rest, pending: Some(Err(e)) }, c, SpecAction::Continue),
                Ok(o) => {
                    let runs_right = match link {
                        Link::Pipe => true,
                        Link::Sequence => true,
                        Link::And => o.exit_code == 0,
                        Link::Or => o.exit_code != 0,
                    };
                    let input = if link is Pipe { o.stdout } else { stdin };
                    if runs_right {
                        (
                            SpecEvaluation { frames: rest.push(SpecFrame::Eval { expr: right, stdin: input }), pending: None },
                            c,
                            SpecAction::Continue,
                        )
                    } else {
                        (SpecEvaluation { frames: rest, pending: Some(Ok(o)) }, c, SpecAction::Continue)
                    }
                },
            },
            SpecFrame::Restore { cwd, vars } => (
                SpecEvaluation { frames: rest, pending: Some(v) },
                SpecContext { cwd, vars, exit_status: c.exit_status },
                SpecAction::Continue,
            ),
            SpecFrame::Expand { words, word, part, done, current, target } => match v {
                Err(e) => (SpecEvaluation { frames: rest, pending: Some(Err(e)) }, c, SpecAction::Continue),
                Ok(o) => (
                    SpecEvaluation {
                        frames: rest.push(
                            SpecFrame::Expand {
                                words,
                                word,
                                part: part + 1,
                                done,
                                current: current + trim_newlines(o.stdout),
                                target,
                            },
                        ),
                        pending: None,
                    },
                    c,
                    SpecAction::Continue,
                ),
            },
            _ => (SpecEvaluation { frames, pending: Some(v) }, c, SpecAction::Continue),
        }
    }
}

/// One step of the machine: its next state, the context after it, and what it asks for.
pub open spec fn next<E>(m: SpecEvaluation<E>, c: SpecContext, ev: SpecEvent<E>) -> (SpecEvaluation<E>, SpecContext, SpecAction<E>) {
    let rest = m.frames.drop_last();
    match ev {
        SpecEvent::Completed(r) => match m.frames.last() {
            SpecFrame::AwaitCommand { .. } => (
                SpecEvaluation { frames: rest, pending: Some(r) },
                match r {
                    Ok(o) => SpecContext { exit_status: o.exit_code, ..c },
                    Err(_) => c,
                },
                SpecAction::Continue,
            ),
            _ => (SpecEvaluation { frames: rest, pending: Some(r) }, c, SpecAction::Continue),
        },
        SpecEvent::Unhandled => match m.frames.last() {
            SpecFrame::AwaitCommand { name } => (
                SpecEvaluation { frames: rest, pending: Some(Ok(not_found(name))) },
                c,
                SpecAction::Continue,
            ),
            _ => (SpecEvaluation { frames: rest, pending: Some(Ok(redirect_unsupported())) }, c, SpecAction::Continue),
        },
        SpecEvent::Proceed => match m.pending {
            Some(v) => deliver(m.frames, c, v),
            None => match m.frames.last() {
                SpecFrame::Eval { expr, stdin } => (
                    SpecEvaluation { frames: start(rest, c, expr, stdin), pending: None },
                    c,
                    SpecAction::Continue,
                ),
                top => {
                    let (m2, a) = expand_step::<E>(rest, c, top);
                    (m2, c, a)
                },
            },
        },
    }
}

// ─── laws ───────────────────────────────────────────────────────────────────

/// Law: a step keeps the machine in the states it can reach (see [`well_formed`]).
pub proof fn law_step_keeps_well_formed<E>(m: SpecEvaluation<E>, c: SpecContext, ev: SpecEvent<E>)
    requires
        well_formed(m),
        !finished(m),
        awaiting(m) == !(ev is Proceed),
    ensures
        well_formed(next(m, c, ev).0),
{
    let fs = m.frames;
    let rest = fs.drop_last();
    assert forall|i: int| fs.len() > 0 && 0 <= i < rest.len() implies #[trigger] expand_wf(rest[i]) && waiting_wf(rest[i]) by {
        assert(rest[i] == fs[i]);
        assert(expand_wf(fs[i]));
        assert(waiting_wf(fs[i]));
    }
    let m2 = next(m, c, ev).0;
    match ev {
        SpecEvent::Proceed => match m.pending {
            Some(v) => {
                if fs.len() > 0 {
                    assert(waiting_wf(fs.last()));
                    assert(expand_wf(fs[fs.len() - 1]));
                }
                assert forall|i: int| 0 <= i < m2.frames.len() implies #[trigger] expand_wf(m2.frames[i]) by {
                    if i < rest.len() {
                        assert(m2.frames[i] == rest[i]);
                    }
                }
                assert forall|i: int| 0 <= i < m2.frames.len() - 1 implies #[trigger] waiting_wf(m2.frames[i]) by {
                    if i < rest.len() {
                        assert(m2.frames[i] == rest[i]);
                    }
                }
            },
            None => {
                assert(expand_wf(fs[fs.len() - 1]));
                assert forall|i: int| 0 <= i < m2.frames.len() implies #[trigger] expand_wf(m2.frames[i]) by {
                    if i < rest.len() {
                        assert(m2.frames[i] == rest[i]);
                    }
                }
                assert forall|i: int| 0 <= i < m2.frames.len() - 1 implies #[trigger] waiting_wf(m2.frames[i]) by {
                    if i < rest.len() {
                        assert(m2.frames[i] == rest[i]);
                    }
                }
            },
        },
        _ => {
            assert forall|i: int| 0 <= i < m2.frames.len() implies #[trigger] expand_wf(m2.frames[i]) by {
                assert(m2.frames[i] == rest[i]);
            }
            assert forall|i: int| 0 <= i < m2.frames.len() - 1 implies #[trigger] waiting_wf(m2.frames[i]) by {
                assert(m2.frames[i] == rest[i]);
            }
            if rest.len() > 0 {
                assert(rest.last() == rest[rest.len() - 1]);
            }
        },
    }
}

/// The machine with `top` on top of `rest`, and `v` on its way to it.
pub open spec fn returning<E>(rest: Seq<SpecFrame>, top: SpecFrame, v: Result<SpecOutput, E>) -> SpecEvaluation<E> {
    SpecEvaluation { frames: rest.push(top), pending: Some(v) }
}

/// Law (`left && right`): when the left command fails, the right one does not run and the
/// left outcome is the outcome; when it succeeds, the right one runs with the same input.
pub proof fn law_and_runs_right_only_on_success<E>(
    rest: Seq<SpecFrame>,
    c: SpecContext,
    right: SpecExpr,
    stdin: Seq<char>,
    o: SpecOutput,
)
    ensures
        o.exit_code != 0 ==> next(returning(rest, SpecFrame::Then { link: Link::And, right, stdin }, Ok::<SpecOutput, E>(o)), c, SpecEvent::Proceed)
            == (SpecEvaluation::<E> { frames: rest, pending: Some(Ok(o)) }, c, SpecAction::<E>::Continue),
        o.exit_code == 0 ==> next(returning(rest, SpecFrame::Then { link: Link::And, right, stdin }, Ok::<SpecOutput, E>(o)), c, SpecEvent::Proceed)
            == (SpecEvaluation::<E> { frames: rest.push(SpecFrame::Eval { expr: right, stdin }), pending: None }, c, SpecAction::<E>::Continue),
{
    assert(rest.push(SpecFrame::Then { link: Link::And, right, stdin }).drop_last() =~= rest);
}

/// Law (`left || right`): when the left command succeeds, the right one does not run and the
/// left outcome is the outcome; when it fails, the right one runs with the same input.
pub proof fn law_or_runs_right_only_on_failure<E>(
    rest: Seq<SpecFrame>,
    c: SpecContext,
    right: SpecExpr,
    stdin: Seq<char>,
    o: SpecOutput,
)
    ensures
        o.exit_code == 0 ==> next(returning(rest, SpecFrame::Then { link: Link::Or, right, stdin }, Ok::<SpecOutput, E>(o)), c, SpecEvent::Proceed)
            == (SpecEvaluation::<E> { frames: rest, pending: Some(Ok(o)) }, c, SpecAction::<E>::Continue),
        o.exit_code != 0 ==> next(returning(rest, SpecFrame::Then { link: Link::Or, right, stdin }, Ok::<SpecOutput, E>(o)), c, SpecEvent::Proceed)
            == (SpecEvaluation::<E> { frames: rest.push(SpecFrame::Eval { expr: right, stdin }), pending: None }, c, SpecAction::<E>::Continue),
{
    assert(rest.push(SpecFrame::Then { link: Link::Or, right, stdin }).drop_last() =~= rest);
}

/// Law (`left | right`): the right command runs with the left one's standard output as input.
pub proof fn law_pipe_feeds_output<E>(rest: Seq<SpecFrame>, c: SpecContext, right: SpecExpr, stdin: Seq<char>, o: SpecOutput)
    ensures
        next(returning(rest, SpecFrame::Then { link: Link::Pipe, right, stdin }, Ok::<SpecOutput, E>(o)), c, SpecEvent::Proceed)
            == (SpecEvaluation::<E> { frames: rest.push(SpecFrame::Eval { expr: right, stdin: o.stdout }), pending: None }, c, SpecAction::<E>::Continue),
{
    assert(rest.push(SpecFrame::Then { link: Link::Pipe, right, stdin }).drop_last() =~= rest);
}

/// Law (`left ; right`): the right command runs whatever the left one's exit code, with the
/// same input.
pub proof fn law_sequence_always_runs_right<E>(rest: Seq<SpecFrame>, c: SpecContext, right: SpecExpr, stdin: Seq<char>, o: SpecOutput)
    ensures
        next(returning(rest, SpecFrame::Then { link: Link::Sequence, right, stdin }, Ok::<SpecOutput, E>(o)), c, SpecEvent::Proceed)
            == (SpecEvaluation::<E> { frames: rest.push(SpecFrame::Eval { expr: right, stdin }), pending: None }, c, SpecAction::<E>::Continue),
{
    assert(rest.push(SpecFrame::Then { link: Link::Sequence, right, stdin }).drop_last() =~= rest);
}

/// Law: an error of the left operand ends the binary expression with that error; the right
/// one does not run.
pub proof fn law_error_skips_right<E>(rest: Seq<SpecFrame>, c: SpecContext, link: Link, right: SpecExpr, stdin: Seq<char>, e: E)
    ensures
        next(returning(rest, SpecFrame::Then { link, right, stdin }, Err::<SpecOutput, E>(e)), c, SpecEvent::Proceed)
            == (SpecEvaluation::<E> { frames: rest, pending: Some(Err(e)) }, c, SpecAction::<E>::Continue),
{
    assert(rest.push(SpecFrame::Then { link, right, stdin }).drop_last() =~= rest);
}

/// Law (`( expr )`): when the subshell's outcome comes back, whatever it is, the working
/// directory and the variables are those from before the subshell; the outcome passes on.
pub proof fn law_subshell_restores_context<E>(
    rest: Seq<SpecFrame>,
    c: SpecContext,
    cwd: Seq<char>,
    vars: Seq<(Seq<char>, Seq<char>)>,
    v: Result<SpecOutput, E>,
)
    ensures
        next(returning(rest, SpecFrame::Restore { cwd, vars }, v), c, SpecEvent::Proceed)
            == (SpecEvaluation::<E> { frames: rest, pending: Some(v) }, SpecContext { cwd, vars, exit_status: c.exit_status }, SpecAction::<E>::Continue),
{
    assert(rest.push(SpecFrame::Restore { cwd, vars }).drop_last() =~= rest);
}

/// Law: a subshell saves the working directory and the variables as they are when it starts.
pub proof fn law_subshell_saves_context<E>(rest: Seq<SpecFrame>, c: SpecContext, expr: SpecExpr, stdin: Seq<char>)
    ensures
        next(SpecEvaluation::<E> { frames: rest.push(SpecFrame::Eval { expr: SpecExpr::Subshell { expr: Box::new(expr) }, stdin }), pending: None }, c, SpecEvent::Proceed).0.frames
            == rest.push(SpecFrame::Restore { cwd: c.cwd, vars: c.vars }).push(SpecFrame::Eval { expr, stdin }),
{
    assert(rest.push(SpecFrame::Eval { expr: SpecExpr::Subshell { expr: Box::new(expr) }, stdin }).drop_last() =~= rest);
}

/// Law: a command that no builtin and no hook handles yields exit code 127 with
/// "command not found: NAME" on its error output, and the last exit code stays as it was.
pub proof fn law_unhandled_command<E>(rest: Seq<SpecFrame>, c: SpecContext, name: Seq<char>)
    ensures
        next(SpecEvaluation::<E> { frames: rest.push(SpecFrame::AwaitCommand { name }), pending: None }, c, SpecEvent::Unhandled)
            == (SpecEvaluation::<E> { frames: rest, pending: Some(Ok(not_found(name))) }, c, SpecAction::<E>::Continue),
{
    assert(rest.push(SpecFrame::AwaitCommand { name }).drop_last() =~= rest);
}

/// Law: the exit code of a command that ran becomes the last exit code; a command that
/// failed with an error leaves it as it was.
pub proof fn law_exit_code_recorded<E>(rest: Seq<SpecFrame>, c: SpecContext, name: Seq<char>, r: Result<SpecOutput, E>)
    ensures
        next(SpecEvaluation::<E> { frames: rest.push(SpecFrame::AwaitCommand { name }), pending: None }, c, SpecEvent::Completed(r)).1.exit_status
            == match r {
            Ok(o) => o.exit_code,
            Err(_) => c.exit_status,
        },
{
}

/// Law: the output of a command substitution joins the word without its trailing newlines.
pub proof fn law_substitution_trims_newlines<E>(
    rest: Seq<SpecFrame>,
    c: SpecContext,
    words: Seq<Seq<SpecWordPart>>,
    word: nat,
    part: nat,
    done: Seq<Seq<char>>,
    current: Seq<char>,
    target: SpecTarget,
    o: SpecOutput,
)
    ensures
        next(returning(rest, SpecFrame::Expand { words, word, part, done, current, target }, Ok::<SpecOutput, E>(o)), c, SpecEvent::Proceed).0.frames
            == rest.push(SpecFrame::Expand { words, word, part: part + 1, done, current: current + trim_newlines(o.stdout), target }),
{
    assert(rest.push(SpecFrame::Expand { words, word, part, done, current, target }).drop_last() =~= rest);
}

// ─── the machine ────────────────────────────────────────────────────────────

/// What the words being expanded are for.
enum Target {
    Command { stdin: String },
    Redirect { expr: Expr, mode: RedirectMode, stdin: String },
    Text,
}

enum Frame {
    Eval { expr: Expr, stdin: String },
    Then { link: Link, right: Expr, stdin: String },
    Restore { cwd: String, env: IndexMap<String, String> },
    Expand { words: Vec<Word>, word: usize, part: usize, done: Vec<String>, current: Vec<char>, target: Target },
    AwaitCommand { name: String },
    AwaitRedirect,
}

spec fn target_model(t: Target) -> SpecTarget {
    match t {
        Target::Command { stdin } => SpecTarget::Command { stdin: stdin@ },
        Target::Redirect { expr, mode, stdin } => SpecTarget::Redirect { expr: expr@, mode, stdin: stdin@ },
        Target::Text => SpecTarget::Text,
    }
}

spec fn frame_model(f: Frame) -> SpecFrame {
    match f {
        Frame::Eval { expr, stdin } => SpecFrame::Eval { expr: expr@, stdin: stdin@ },
        Frame::Then { link, right, stdin } => SpecFrame::Then { link, right: right@, stdin: stdin@ },
        Frame::Restore { cwd, env } => SpecFrame::Restore { cwd: cwd@, vars: env_entries(env) },
        Frame::Expand { words, word, part, done, current, target } => SpecFrame::Expand {
            words: words_model(words),
            word: word as nat,
            part: part as nat,
            done: strings_model(done@),
            current: current@,
            target: target_model(target),
        },
        Frame::AwaitCommand { name } => SpecFrame::AwaitCommand { name: name@ },
        Frame::AwaitRedirect => SpecFrame::AwaitRedirect,
    }
}

spec fn frames_model(fs: Seq<Frame>) -> Seq<SpecFrame> {
    fs.map_values(|f: Frame| frame_model(f))
}

/// An expansion task is consistent: the finished words precede the current one, and a
/// command has a name while a file name or a text is a single word.
pub open spec fn expand_wf(f: SpecFrame) -> bool {
    match f {
        SpecFrame::Expand { words, word, done, target, .. } => {
            &&& done.len() == word
            &&& word <= words.len()
            &&& match target {
                SpecTarget::Command { .. } => words.len() >= 1,
                _ => words.len() == 1,
            }
        },
        _ => true,
    }
}

/// A task that waits for an outcome from above: an expansion waits at a command substitution.
pub open spec fn waiting_wf(f: SpecFrame) -> bool {
    match f {
        SpecFrame::Expand { words, word, part, .. } => word < words.len() && part < words[word as int].len(),
        SpecFrame::Eval { .. } => false,
        SpecFrame::AwaitCommand { .. } => false,
        SpecFrame::AwaitRedirect => false,
        _ => true,
    }
}

/// The states that the machine can reach: a task to evaluate or a wait for the embedder
/// only ever stands on top; an outcome on its way meets a task that takes it.
pub open spec fn well_formed<E>(m: SpecEvaluation<E>) -> bool {
    &&& forall|i: int| 0 <= i < m.frames.len() ==> #[trigger] expand_wf(m.frames[i])
    &&& forall|i: int| 0 <= i < m.frames.len() - 1 ==> #[trigger] waiting_wf(m.frames[i])
    &&& (m.pending is Some && m.frames.len() > 0) ==> waiting_wf(m.frames.last())
    &&& (m.pending is None && m.frames.len() > 0) ==> (m.frames.last() is Eval || m.frames.last() is Expand
        || is_await(m.frames.last()))
}

/// The evaluation of one expression.
pub struct Evaluation<E> {
    frames: Vec<Frame>,
    pending: Option<Result<Output, E>>,
}

/// Appends the characters of `s` without its trailing newlines.
fn push_trimmed(buf: &mut Vec<char>, s: &str)
    ensures
        final(buf)@ == old(buf)@ + trim_newlines(s@),
{
    let cs = chars_of(s);
    let mut n = cs.len();
    assert(cs@.take(n as int) =~= cs@);
    while n > 0 && cs[n - 1] == '\n'
        invariant
            n <= cs@.len(),
            trim_newlines(s@) == trim_newlines(cs@.take(n as int)),
        decreases n,
    {
        assert(cs@.take(n as int).drop_last() =~= cs@.take(n - 1));
        n = n - 1;
    }
    assert(trim_newlines(cs@.take(n as int)) == cs@.take(n as int));
    for i in 0..n
        invariant
            n <= cs@.len(),
            buf@ == old(buf)@ + cs@.take(i as int),
    {
        buf.push(cs[i]);
        assert(cs@.take(i + 1) =~= cs@.take(i as int).push(cs@[i as int]));
    }
}

fn not_found_output(name: &String) -> (r: Output)
    ensures
        r@ == not_found(name@),
{
    let mut msg: Vec<char> = Vec::new();
    push_str(&mut msg, "command not found: ");
    push_str(&mut msg, name.as_str());
    push_str(&mut msg, "\n");
    assert(msg@ =~= "command not found: "@ + name@ + "\n"@);
    Output::error(127, String::new(), string_from_chars(&msg))
}

fn redirect_unsupported_output() -> (r: Output)
    ensures
        r@ == redirect_unsupported(),
{
    let mut msg: Vec<char> = Vec::new();
    push_str(&mut msg, "Redirection not supported by this shell\n");
    assert(msg@ =~= "Redirection not supported by this shell\n"@);
    Output::error(1, String::new(), string_from_chars(&msg))
}

impl<E> Evaluation<E> {
    pub closed spec fn model(&self) -> SpecEvaluation<E> {
        SpecEvaluation {
            frames: frames_model(self.frames@),
            pending: match self.pending {
                Some(r) => Some(outcome_model(r)),
                None => None,
            },
        }
    }

    /// The evaluation of `expr` with `stdin` as its input.
    pub fn new(expr: Expr, stdin: String) -> (r: Self)
        ensures
            r.model() == (SpecEvaluation::<E> { frames: seq![SpecFrame::Eval { expr: expr@, stdin: stdin@ }], pending: None }),
            well_formed(r.model()),
    {
        let mut frames = Vec::new();
        frames.push(Frame::Eval { expr, stdin });
        let r = Evaluation { frames, pending: None };
        assert(r.model().frames =~= seq![SpecFrame::Eval { expr: expr@, stdin: stdin@ }]);
        r
    }

    /// The expansion of `word`; the evaluation finishes with the expanded text as the
    /// standard output of a successful outcome.
    pub fn expansion(word: Word) -> (r: Self)
        ensures
            r.model() == (SpecEvaluation::<E> {
                frames: seq![SpecFrame::Expand { words: seq![word@], word: 0, part: 0, done: seq![], current: seq![], target: SpecTarget::Text }],
                pending: None,
            }),
            well_formed(r.model()),
    {
        let mut words = Vec::new();
        words.push(word);
        let done: Vec<String> = Vec::new();
        assert(strings_model(done@) =~= seq![]);
        assert(words_model(words) =~= seq![word@]);
        let mut frames = Vec::new();
        frames.push(Frame::Expand { words, word: 0, part: 0, done, current: Vec::new(), target: Target::Text });
        let r = Evaluation { frames, pending: None };
        assert(r.model().frames =~= seq![SpecFrame::Expand { words: seq![word@], word: 0, part: 0, done: seq![], current: seq![], target: SpecTarget::Text }]);
        r
    }


    fn push_frame(&mut self, f: Frame)
        ensures
            frames_model(final(self).frames@) == frames_model(old(self).frames@).push(frame_model(f)),
            final(self).pending == old(self).pending,
    {
        self.frames.push(f);
        assert(frames_model(self.frames@) =~= frames_model(old(self).frames@).push(frame_model(f)));
    }

    /// One step of the evaluation: what [`next`] says of the state, the context and the
    /// request.
    pub fn step<T>(&mut self, ctx: &mut Context<T>, event: Event<E>) -> (r: Action<E>)
        requires
            well_formed(old(self).model()),
            !finished(old(self).model()),
            awaiting(old(self).model()) == !(event is Proceed),
        ensures
            ({
                let (m, c, a) = next(old(self).model(), context_model(*old(ctx)), event.model());
                &&& final(self).model() == m
                &&& context_model(*final(ctx)) == c
                &&& r.model() == a
            }),
            well_formed(final(self).model()),
            final(ctx).user_state() == old(ctx).user_state(),
    {
        let ghost m0 = self.model();
        proof {
            law_step_keeps_well_formed(m0, context_model(*ctx), event.model());
        }
        match event {
            Event::Completed(r) => {
                let top = self.frames.pop().unwrap();
                if let Frame::AwaitCommand { .. } = top {
                    if let Ok(o) = &r {
                        ctx.set_exit_status(o.exit_code);
                    }
                }
                self.pending = Some(r);
                assert(self.model().frames =~= m0.frames.drop_last());
                Action::Continue
            },
            Event::Unhandled => {
                let top = self.frames.pop().unwrap();
                let out = match top {
                    Frame::AwaitCommand { name } => not_found_output(&name),
                    _ => redirect_unsupported_output(),
                };
                self.pending = Some(Ok(out));
                assert(self.model().frames =~= m0.frames.drop_last());
                Action::Continue
            },
            Event::Proceed => match self.pending.take() {
                Some(v) => self.deliver(ctx, v),
                None => {
                    let top = self.frames.pop().unwrap();
                    assert(frames_model(self.frames@) =~= m0.frames.drop_last());
                    match top {
                        Frame::Eval { expr, stdin } => {
                            self.start(ctx, expr, stdin);
                            Action::Continue
                        },
                        top => self.expand_step(ctx, top),
                    }
                },
            },
        }
    }

    /// Pushes the tasks that evaluate `expr` with `stdin`.
    fn start<T>(&mut self, ctx: &Context<T>, expr: Expr, stdin: String)
        ensures
            frames_model(final(self).frames@) == start(frames_model(old(self).frames@), context_model(*ctx), expr@, stdin@),
            final(self).pending == old(self).pending,
    {
        let ghost fs = frames_model(self.frames@);
        match expr {
            Expr::Command { name, args } => {
                let ghost args_model = words_model(args);
                let mut words: Vec<Word> = Vec::new();
                words.push(name);
                let mut args = args;
                words.append(&mut args);
                assert(words_model(words) =~= seq![name@] + args_model);
                let done: Vec<String> = Vec::new();
                assert(strings_model(done@) =~= seq![]);
                self.push_frame(
                    Frame::Expand { words, word: 0, part: 0, done, current: Vec::new(), target: Target::Command { stdin } },
                );
            },
            Expr::Redirect { expr, file, mode } => {
                let mut words: Vec<Word> = Vec::new();
                words.push(file);
                assert(words_model(words) =~= seq![file@]);
                let done: Vec<String> = Vec::new();
                assert(strings_model(done@) =~= seq![]);
                self.push_frame(
                    Frame::Expand {
                        words,
                        word: 0,
                        part: 0,
                        done,
                        current: Vec::new(),
                        target: Target::Redirect { expr: *expr, mode, stdin },
                    },
                );
            },
            Expr::Pipe { left, right } => {
                self.push_frame(Frame::Then { link: Link::Pipe, right: *right, stdin: stdin.clone() });
                self.push_frame(Frame::Eval { expr: *left, stdin });
            },
            Expr::Sequence { left, right } => {
                self.push_frame(Frame::Then { link: Link::Sequence, right: *right, stdin: stdin.clone() });
                self.push_frame(Frame::Eval { expr: *left, stdin });
            },
            Expr::And { left, right } => {
                self.push_frame(Frame::Then { link: Link::And, right: *right, stdin: stdin.clone() });
                self.push_frame(Frame::Eval { expr: *left, stdin });
            },
            Expr::Or { left, right } => {
                self.push_frame(Frame::Then { link: Link::Or, right: *right, stdin: stdin.clone() });
                self.push_frame(Frame::Eval { expr: *left, stdin });
            },
            Expr::Subshell { expr } => {
                let cwd = ctx.get_cwd().to_owned();
                let env = ctx.snapshot_env();
                self.push_frame(Frame::Restore { cwd, env });
                self.push_frame(Frame::Eval { expr: *expr, stdin });
            },
        }
        assert(frames_model(self.frames@) =~= start(fs, context_model(*ctx), expr@, stdin@));
    }

    /// Hands the outcome `v` to the task on top.
    fn deliver<T>(&mut self, ctx: &mut Context<T>, v: Result<Output, E>) -> (r: Action<E>)
        requires
            old(self).pending is None,
            old(self).frames.len() > 0 ==> waiting_wf(frame_model(old(self).frames@.last())),
        ensures
            ({
                let (m, c, a) = deliver(frames_model(old(self).frames@), context_model(*old(ctx)), outcome_model(v));
                &&& final(self).model() == m
                &&& context_model(*final(ctx)) == c
                &&& r.model() == a
            }),
            final(ctx).user_state() == old(ctx).user_state(),
    {
        let ghost fs = frames_model(self.frames@);
        match self.frames.pop() {
            None => Action::Finished(v),
            Some(top) => {
                assert(frames_model(self.frames@) =~= fs.drop_last());
                match top {
                    Frame::Then { link, right, stdin } => match v {
                        Err(e) => {
                            self.pending = Some(Err(e));
                            Action::Continue
                        },
                        Ok(o) => {
                            let runs_right = match link {
                                Link::Pipe => true,
                                Link::Sequence => true,
                                Link::And => o.exit_code == 0,
                                Link::Or => o.exit_code != 0,
                            };
                            if runs_right {
                                let input = if matches!(link, Link::Pipe) {
                                    o.stdout
                                } else {
                                    stdin
                                };
                                self.push_frame(Frame::Eval { expr: right, stdin: input });
                            } else {
                                self.pending = Some(Ok(o));
                            }
                            Action::Continue
                        },
                    },
                    Frame::Restore { cwd, env } => {
                        ctx.restore(cwd, env);
                        self.pending = Some(v);
                        Action::Continue
                    },
                    Frame::Expand { words, word, part, done, current, target } => match v {
                        Err(e) => {
                            self.pending = Some(Err(e));
                            Action::Continue
                        },
                        Ok(o) => {
                            let mut current = current;
                            push_trimmed(&mut current, o.stdout.as_str());
                            assert(part < words@[word as int].0.len());
                            self.push_frame(Frame::Expand { words, word, part: part + 1, done, current, target });
                            Action::Continue
                        },
                    },
                    other => {
                        self.push_frame(other);
                        self.pending = Some(v);
                        assert(frames_model(self.frames@) =~= fs);
                        Action::Continue
                    },
                }
            },
        }
    }

    /// One step of the expansion `top`, taken off the top.
    fn expand_step<T>(&mut self, ctx: &Context<T>, top: Frame) -> (r: Action<E>)
        requires
            old(self).pending is None,
            expand_wf(frame_model(top)),
        ensures
            ({
                let (m, a) = expand_step::<E>(frames_model(old(self).frames@), context_model(*ctx), frame_model(top));
                &&& final(self).model() == m
                &&& r.model() == a
            }),
    {
        let ghost fs = frames_model(self.frames@);
        match top {
            Frame::Expand { words, word, part, done, current, target } => {
                if word >= words.len() {
                    let mut done = done;
                    let ghost all = strings_model(done@);
                    let first = done.remove(0);
                    assert(strings_model(done@) =~= all.drop_first());
                    match target {
                        Target::Command { stdin } => {
                            self.push_frame(Frame::AwaitCommand { name: first.clone() });
                            Action::RunCommand { name: first, args: done, stdin }
                        },
                        Target::Redirect { expr, mode, stdin } => {
                            self.push_frame(Frame::AwaitRedirect);
                            Action::Redirect { expr, file: first, mode, stdin }
                        },
                        Target::Text => {
                            self.pending = Some(Ok(Output::success(first)));
                            Action::Continue
                        },
                    }
                } else if part >= words[word].0.len() {
                    let mut done = done;
                    let ghost before = strings_model(done@);
                    done.push(string_from_chars(&current));
                    assert(strings_model(done@) =~= before.push(current@));
                    self.push_frame(Frame::Expand { words, word: word + 1, part: 0, done, current: Vec::new(), target });
                    Action::Continue
                } else {
                    let piece = words[word].0[part].clone();
                    let mut current = current;
                    match piece {
                        WordPart::Literal(text) => {
                            push_str(&mut current, text.as_str());
                            self.push_frame(Frame::Expand { words, word, part: part + 1, done, current, target });
                        },
                        WordPart::Variable(name) => {
                            match ctx.var(name.as_str()) {
                                Some(value) => push_str(&mut current, value.as_str()),
                                None => {
                                    assert(current@ + Seq::<char>::empty() =~= current@);
                                },
                            }
                            self.push_frame(Frame::Expand { words, word, part: part + 1, done, current, target });
                        },
                        WordPart::CommandSubst(e) => {
                            self.push_frame(Frame::Expand { words, word, part, done, current, target });
                            self.push_frame(Frame::Eval { expr: *e, stdin: String::new() });
                        },
                    }
                    Action::Continue
                }
            },
            other => {
                self.push_frame(other);
                Action::Continue
            },
        }
    }

    /// The evaluation has handed out its outcome.
    pub fn is_finished(&self) -> (r: bool)
        ensures
            r == finished(self.model()),
    {
        self.pending.is_none() && self.frames.len() == 0
    }

    /// The evaluation waits for the outcome of the command or redirection it asked for.
    pub fn is_awaiting(&self) -> (r: bool)
        ensures
            r == awaiting(self.model()),
    {
        if self.pending.is_some() || self.frames.len() == 0 {
            return false;
        }
        let top = &self.frames[self.frames.len() - 1];
        matches!(top, Frame::AwaitCommand { .. } | Frame::AwaitRedirect)
    }
}


} // verus!
