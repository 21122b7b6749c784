use cargo_storage::args::{Args, Command, Plan, Shell, Task};
use cargo_storage::path::FsPath;

fn p(s: &str) -> FsPath {
    FsPath::from_text(s)
}

fn strings(list: &[&str]) -> Vec<String> {
    list.iter().map(|s| s.to_string()).collect()
}

#[test]
fn docker_flag_parses_on_subcommands_and_top_level() {
    let top = Args { root: None, docker: true, command: None };
    assert!(top.docker);
    assert!(top.command.is_none());
    assert!(matches!(top.plan(None), Plan::Scan { docker: true, task: Task::Browse, .. }));
    let list = Args {
        root: None,
        docker: false,
        command: Some(Command::List { root: None, docker: true }),
    };
    assert!(matches!(
        list.command,
        Some(Command::List { docker: true, .. })
    ));
    assert!(matches!(list.plan(None), Plan::Scan { docker: true, task: Task::List, .. }));
    // A top-level flag also enables subcommand scans.
    let clean = Command::Clean {
        root: None,
        docker: false,
        older_than: None,
        larger_than: None,
        yes: false,
    };
    let both = Args { root: None, docker: true, command: Some(clean.clone()) };
    assert!(both.docker);
    assert!(Args::docker_for(false, both.docker));
    assert!(!Args::docker_for(false, false));
    assert!(matches!(both.plan(None), Plan::Scan { docker: true, task: Task::Clean { .. }, .. }));
    let neither = Args { root: None, docker: false, command: Some(clean) };
    assert!(matches!(neither.plan(None), Plan::Scan { docker: false, .. }));
}

#[test]
fn cargo_subcommand_name_is_dropped() {
    assert_eq!(
        Args::parse_args(strings(&["cargo-storage", "storage", "list"])),
        strings(&["cargo-storage", "list"])
    );
    assert_eq!(
        Args::parse_args(strings(&["cargo-storage", "list", "storage"])),
        strings(&["cargo-storage", "list", "storage"])
    );
    assert_eq!(Args::parse_args(strings(&["storage"])), strings(&["storage"]));
}

#[test]
fn subcommand_root_wins_over_top_level_root() {
    assert_eq!(Args::root_for(Some(p("/a")), Some(p("/b")), Some(p("/h"))), p("/a"));
    assert_eq!(Args::root_for(None, Some(p("/b")), Some(p("/h"))), p("/b"));
    assert_eq!(Args::root_for(None, None, Some(p("/h"))), p("/h"));
    assert_eq!(Args::root_for(None, None, None), p("."));
}

#[test]
fn browsing_is_the_default() {
    let args = Args { root: Some(p("/top")), docker: true, command: None };
    match args.plan(Some(p("/h"))) {
        Plan::Scan { host, docker, task: Task::Browse } => {
            assert_eq!(host, p("/top"));
            assert!(docker);
        }
        other => panic!("{other:?}"),
    }
}

#[test]
fn plans_follow_the_subcommand() {
    let args = Args {
        root: Some(p("/top")),
        docker: false,
        command: Some(Command::Clean {
            root: Some(p("/sub")),
            docker: true,
            older_than: Some("30d".to_string()),
            larger_than: None,
            yes: true,
        }),
    };
    match args.plan(None) {
        Plan::Scan { host, docker, task: Task::Clean { older_than, larger_than, yes } } => {
            assert_eq!(host, p("/sub"));
            assert!(docker && yes);
            assert_eq!(older_than.as_deref(), Some("30d"));
            assert_eq!(larger_than, None);
        }
        other => panic!("{other:?}"),
    }
    let args = Args {
        root: None,
        docker: false,
        command: Some(Command::List { root: None, docker: false }),
    };
    assert!(matches!(args.plan(None), Plan::Scan { docker: false, task: Task::List, .. }));
    let args = Args {
        root: None,
        docker: false,
        command: Some(Command::Tui { root: None, docker: false }),
    };
    assert!(matches!(args.plan(None), Plan::Scan { task: Task::Browse, .. }));
    let args = Args {
        root: None,
        docker: false,
        command: Some(Command::Completions { shell: Shell::Zsh }),
    };
    assert!(matches!(args.plan(None), Plan::Completions(Shell::Zsh)));
}
