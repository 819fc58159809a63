use indexmap::IndexMap;
use shellframe::{Context, Output};

#[test]
fn context_new_sets_pwd() {
    let ctx = Context::new("/".to_string(), IndexMap::new(), ());
    assert_eq!(ctx.get_cwd(), "/");
    assert_eq!(ctx.env.get("PWD").unwrap(), "/");
    assert_eq!(ctx.last_exit_code, 0);
}

#[test]
fn context_new_keeps_existing_pwd() {
    let mut env = IndexMap::new();
    env.insert("PWD".to_string(), "/elsewhere".to_string());
    let ctx = Context::new("/".to_string(), env, 7u8);
    assert_eq!(ctx.get_cwd(), "/");
    assert_eq!(ctx.env.get("PWD").unwrap(), "/elsewhere");
    assert_eq!(ctx.state, 7u8);
}

#[test]
fn context_set_cwd_updates_pwd() {
    let mut ctx = Context::new("/".to_string(), IndexMap::new(), ());
    ctx.set_cwd("/srv".to_string());
    assert_eq!(ctx.get_cwd(), "/srv");
    assert_eq!(ctx.env.get("PWD").unwrap(), "/srv");
}

#[test]
fn context_inherit_vars() {
    let mut ctx = Context::new("/".to_string(), IndexMap::new(), ());
    ctx.inherit_vars(vec![
        ("A".to_string(), "1".to_string()),
        ("PWD".to_string(), "/home/u".to_string()),
        ("A".to_string(), "2".to_string()),
    ]);
    assert_eq!(ctx.env.get("A").unwrap(), "2");
    assert_eq!(ctx.get_cwd(), "/home/u");
    // without PWD the directory stays
    let mut ctx2 = Context::new("/".to_string(), IndexMap::new(), ());
    ctx2.env.shift_remove("PWD");
    ctx2.inherit_vars(vec![("B".to_string(), "x".to_string())]);
    assert_eq!(ctx2.get_cwd(), "/");
}

#[test]
fn context_default_prompt() {
    let ctx = Context::new("/var".to_string(), IndexMap::new(), ());
    assert_eq!(ctx.default_prompt(), "/var> ");
}

#[test]
fn output_constructors() {
    let o = Output::success("x".to_string());
    assert_eq!((o.exit_code, o.stdout.as_str(), o.stderr.as_str()), (0, "x", ""));
    assert!(o.is_success());
    let e = Output::error(2, "a".to_string(), "b".to_string());
    assert_eq!((e.exit_code, e.stdout.as_str(), e.stderr.as_str()), (2, "a", "b"));
    assert!(!e.is_success());
    let n = Output::new(0, "s".to_string(), "t".to_string());
    assert!(n.is_success());
    assert_eq!(n.stderr, "t");
}

fn keys<T>(ctx: &Context<T>) -> Vec<String> {
    ctx.env.keys().cloned().collect()
}

#[test]
fn context_env_order_is_kept() {
    let mut env = IndexMap::new();
    env.insert("A".to_string(), "1".to_string());
    env.insert("B".to_string(), "2".to_string());
    let mut ctx = Context::new("/".to_string(), env, ());
    // PWD is appended last
    assert_eq!(keys(&ctx), vec!["A", "B", "PWD"]);
    ctx.env.insert("C".to_string(), "3".to_string());
    // PWD keeps its place
    ctx.set_cwd("/srv".to_string());
    assert_eq!(keys(&ctx), vec!["A", "B", "PWD", "C"]);
    // existing names keep their place, new ones are appended
    ctx.inherit_vars(vec![("D".to_string(), "4".to_string()), ("A".to_string(), "9".to_string())]);
    assert_eq!(keys(&ctx), vec!["A", "B", "PWD", "C", "D"]);
    assert_eq!(ctx.env.get("A").unwrap(), "9");
}
