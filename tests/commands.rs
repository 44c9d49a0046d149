use yazi_watch::create::{confirmed, created_child, is_dir_name, needs_confirm, Opt as CreateOpt};
use yazi_watch::exec::Exec;
use yazi_watch::path::Path;
use yazi_watch::tab::{Opt as RevealOpt, Tab};

fn p(s: &str) -> Path {
    Path { comps: s.split('/').filter(|c| !c.is_empty()).map(|c| c.as_bytes().to_vec()).collect() }
}

#[test]
fn exec_call_and_with() {
    let e = Exec::call("cd", vec!["/tmp".to_string()]).with("a", "1").with_bool("b", true).with_bool("c", false);
    assert_eq!(e.cmd, "cd");
    assert_eq!(e.args, vec!["/tmp".to_string()]);
    assert!(e.contains_name("a") && e.contains_name("b") && !e.contains_name("c"));
    let e = e.with("a", "2");
    assert_eq!(e.named.len(), 2);
    let mut e = e;
    assert_eq!(e.take_name("a"), Some("2".to_string()));
    assert_eq!(e.take_name("a"), None);
    assert_eq!(e.take_name("b"), Some(String::new()));
}

#[test]
fn exec_call_named_last_wins() {
    let e = Exec::call_named(
        "open",
        vec![("x".to_string(), "1".to_string()), ("y".to_string(), "2".to_string()), ("x".to_string(), "3".to_string())],
    );
    assert!(e.args.is_empty());
    let mut e = e;
    assert_eq!(e.take_name("x"), Some("3".to_string()));
    assert_eq!(e.take_name("y"), Some("2".to_string()));
}

#[test]
fn exec_take_first() {
    let mut e = Exec::call("reveal", vec!["/a".to_string(), "/b".to_string()]);
    assert_eq!(e.take_first(), Some("/a".to_string()));
    assert_eq!(e.args, vec![String::new(), "/b".to_string()]);
    let mut e = Exec::call("reveal", vec![]);
    assert_eq!(e.take_first(), None);
}

#[test]
fn exec_clone_without_data() {
    let e = Exec::call("x", vec!["1".to_string()]).with("k", "v");
    assert_eq!(e.clone_without_data(), e);
}

#[test]
fn tab_reveal() {
    let e = Tab::_reveal("/a/b");
    assert_eq!(e.cmd, "reveal");
    assert_eq!(e.args, vec!["/a/b".to_string()]);
    let mut t = Tab { cwd: p("/x") };
    let r = t.reveal_path(RevealOpt::from(p("/a/b"))).unwrap();
    assert_eq!(t.cwd, p("/a"));
    assert_eq!(r.parent, p("/a"));
    assert_eq!(r.target, p("/a/b"));
    assert!(t.reveal_path(RevealOpt::from(p("/"))).is_none());
    assert_eq!(t.cwd, p("/a"));
}

#[test]
fn create_options() {
    let o = CreateOpt::from(Exec::call("create", vec![]).with_bool("force", true));
    assert!(o.force);
    assert!(!needs_confirm(&o, true));
    let o = CreateOpt::from(Exec::call("create", vec![]));
    assert!(!o.force);
    assert!(needs_confirm(&o, true));
    assert!(!needs_confirm(&o, false));
    assert!(confirmed(&"y".to_string()) && confirmed(&"Y".to_string()));
    assert!(!confirmed(&"n".to_string()) && !confirmed(&"yes".to_string()));
    assert!(is_dir_name(&b"dir/".to_vec()));
    assert!(!is_dir_name(&b"file".to_vec()));
    assert_eq!(created_child(&p("/w"), &p("/w/a/b/c")), p("/w/a"));
}
