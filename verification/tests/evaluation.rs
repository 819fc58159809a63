use shellframe::eval::{dispatch, Dispatch};
use indexmap::IndexMap;
use shellframe::eval::{Action, Evaluation, Event};
use shellframe::parser::parse;
use shellframe::{Context, Output};

/// Drives an evaluation; commands: `true`, `false`, `echo`, `cat` (echoes its input),
/// `cd DIR`, `set NAME VALUE`, `fail` (an error); `unknown` is not handled.
fn run(ctx: &mut Context<Vec<String>>, input: &str, redirects: bool) -> Result<Output, String> {
    let expr = parse(input).unwrap();
    let mut ev: Evaluation<String> = Evaluation::new(expr, String::new());
    let mut event = Event::Proceed;
    loop {
        match ev.step(ctx, event) {
            Action::Continue => event = Event::Proceed,
            Action::RunCommand { name, args, stdin } => {
                ctx.state.push(name.clone());
                event = match name.as_str() {
                    "true" => Event::Completed(Ok(Output::success(String::new()))),
                    "false" => Event::Completed(Ok(Output::error(1, String::new(), String::new()))),
                    "echo" => Event::Completed(Ok(Output::success(format!("{}\n", args.join(" "))))),
                    "cat" => Event::Completed(Ok(Output::success(stdin))),
                    "cd" => {
                        ctx.set_cwd(args[0].clone());
                        Event::Completed(Ok(Output::success(String::new())))
                    }
                    "set" => {
                        ctx.env.insert(args[0].clone(), args[1].clone());
                        Event::Completed(Ok(Output::success(String::new())))
                    }
                    "fail" => Event::Completed(Err("failed".to_string())),
                    _ => Event::Unhandled,
                };
            }
            Action::Redirect { file, stdin, .. } => {
                event = if redirects {
                    Event::Completed(Ok(Output::success(format!("{}:{}", file, stdin))))
                } else {
                    Event::Unhandled
                };
            }
            Action::Finished(r) => return r,
        }
    }
}

fn ctx() -> Context<Vec<String>> {
    let mut env = IndexMap::new();
    env.insert("USER".to_string(), "alice".to_string());
    Context::new("/home".to_string(), env, Vec::new())
}

#[test]
fn eval_echo_with_variables() {
    let mut c = ctx();
    let out = run(&mut c, "echo hi $USER ${NOPE}x", false).unwrap();
    assert_eq!(out.stdout, "hi alice x\n");
    assert_eq!(out.exit_code, 0);
}

#[test]
fn eval_and_skips_right_after_failure() {
    let mut c = ctx();
    let out = run(&mut c, "false && echo no", false).unwrap();
    assert_eq!(out.exit_code, 1);
    assert_eq!(c.state, vec!["false".to_string()]);
    let out = run(&mut c, "true && echo yes", false).unwrap();
    assert_eq!(out.stdout, "yes\n");
}

#[test]
fn eval_or_runs_right_after_failure() {
    let mut c = ctx();
    let out = run(&mut c, "false || echo fallback", false).unwrap();
    assert_eq!(out.stdout, "fallback\n");
    let out = run(&mut c, "true || echo no", false).unwrap();
    assert_eq!(out.stdout, "");
    assert_eq!(c.state, vec!["false".to_string(), "echo".to_string(), "true".to_string()]);
}

#[test]
fn eval_pipe_feeds_stdout() {
    let mut c = ctx();
    let out = run(&mut c, "echo piped | cat", false).unwrap();
    assert_eq!(out.stdout, "piped\n");
}

#[test]
fn eval_sequence_runs_both() {
    let mut c = ctx();
    let out = run(&mut c, "false ; echo b", false).unwrap();
    assert_eq!(out.stdout, "b\n");
    assert_eq!(c.state.len(), 2);
}

#[test]
fn eval_command_not_found() {
    let mut c = ctx();
    let out = run(&mut c, "true ; unknown x", false).unwrap();
    assert_eq!(out.exit_code, 127);
    assert_eq!(out.stderr, "command not found: unknown\n");
    assert_eq!(out.stdout, "");
    // the exit code of `true` stays recorded
    assert_eq!(c.last_exit_code, 0);
}

#[test]
fn eval_records_exit_code() {
    let mut c = ctx();
    run(&mut c, "false", false).unwrap();
    assert_eq!(c.last_exit_code, 1);
}

#[test]
fn eval_error_propagates() {
    let mut c = ctx();
    assert_eq!(run(&mut c, "fail && echo x", false).unwrap_err(), "failed");
    assert_eq!(c.state, vec!["fail".to_string()]);
}

#[test]
fn eval_subshell_restores_cwd_and_env() {
    let mut c = ctx();
    let out = run(&mut c, "(cd /tmp ; set X 1 ; echo $PWD $X)", false).unwrap();
    assert_eq!(out.stdout, "/tmp 1\n");
    assert_eq!(c.get_cwd(), "/home");
    assert_eq!(c.env.get("PWD").unwrap(), "/home");
    assert!(c.env.get("X").is_none());
    // without a subshell the change stays
    run(&mut c, "cd /tmp", false).unwrap();
    assert_eq!(c.get_cwd(), "/tmp");
}

#[test]
fn eval_subshell_restores_after_error() {
    let mut c = ctx();
    assert!(run(&mut c, "(cd /x ; fail)", false).is_err());
    assert_eq!(c.get_cwd(), "/home");
}

#[test]
fn eval_command_substitution_trims_newlines() {
    let mut c = ctx();
    let out = run(&mut c, "echo [$(echo a b)]", false).unwrap();
    assert_eq!(out.stdout, "[a b]\n");
}

#[test]
fn eval_redirect_without_handler() {
    let mut c = ctx();
    let out = run(&mut c, "echo x > f", false).unwrap();
    assert_eq!(out.exit_code, 1);
    assert_eq!(out.stderr, "Redirection not supported by this shell\n");
}

#[test]
fn eval_redirect_gets_expanded_file() {
    let mut c = ctx();
    let out = run(&mut c, "echo x > $USER.txt", true).unwrap();
    assert_eq!(out.stdout, "alice.txt:");
}

#[test]
fn eval_expansion_of_a_word() {
    let mut c = ctx();
    let word = shellframe::Word(vec![
        shellframe::WordPart::Literal("u=".to_string()),
        shellframe::WordPart::Variable("USER".to_string()),
    ]);
    let mut ev: Evaluation<String> = Evaluation::expansion(word);
    let mut event = Event::Proceed;
    let out = loop {
        match ev.step(&mut c, event) {
            Action::Finished(r) => break r.unwrap(),
            _ => event = Event::Proceed,
        }
    };
    assert_eq!(out.stdout, "u=alice");
    assert!(ev.is_finished());
}

#[test]
fn eval_composite_follows_meaning() {
    let mut c = ctx();
    let out = run(&mut c, "(cd /tmp; set A 1) && echo $A $(echo x)", false).unwrap();
    assert_eq!(out.stdout, " x\n");
    assert_eq!(out.exit_code, 0);
    assert_eq!(c.get_cwd(), "/home");
    assert_eq!(c.last_exit_code, 0);
    assert_eq!(c.state, vec!["cd", "set", "echo", "echo"]);
}

#[test]
fn eval_subshell_restores_env_order() {
    let mut c = ctx();
    let before: Vec<String> = c.env.keys().cloned().collect();
    run(&mut c, "(set Z 1 ; cd /tmp ; set USER bob)", false).unwrap();
    let after: Vec<String> = c.env.keys().cloned().collect();
    assert_eq!(before, after);
    assert_eq!(c.env.get("USER").unwrap(), "alice");
}

#[test]
fn dispatch_prefers_builtin_then_hook() {
    assert!(dispatch(true, true) == Dispatch::Builtin);
    assert!(dispatch(true, false) == Dispatch::Builtin);
    assert!(dispatch(false, true) == Dispatch::Hook);
    assert!(dispatch(false, false) == Dispatch::Unhandled);
}
