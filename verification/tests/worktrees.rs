use cargo_storage::path::FsPath;
use cargo_storage::scan::{resolve_root, GitProbe, OutputKind, TargetEntry};

fn entry_at(dir: &str) -> TargetEntry {
    TargetEntry {
        project_path: FsPath::from_text(dir),
        target_dir: FsPath::from_text(&format!("{dir}/target")),
        kind: OutputKind::Target,
        shared: false,
        size: None,
        last_modified: None,
        is_under_deletion: false,
    }
}

fn file(text: &str) -> GitProbe {
    GitProbe::File(Some(text.to_string()))
}

const ROOT: &str = "/tmp/cargo-storage-test-wt-label";

#[test]
fn linked_worktree_labels_main_and_tree() {
    let entry = entry_at(&format!("{ROOT}/trees/t1"));
    let probes = vec![file(&format!("gitdir: {ROOT}/main/.git/worktrees/t1\n"))];
    assert_eq!(
        entry.worktree_names(&probes),
        Some(("main".to_string(), "t1".to_string()))
    );
    // Main name comes from the gitdir, not the checkout dir.
    assert_eq!(entry.display_name(&probes), "main (t1)");
}

#[test]
fn nested_crate_in_linked_worktree_labels_main_and_tree() {
    let entry = entry_at(&format!("{ROOT}/trees/t1/crates/foo"));
    let probes = vec![
        GitProbe::Absent,
        GitProbe::Absent,
        file(&format!("gitdir: {ROOT}/main/.git/worktrees/t1\n")),
    ];
    assert_eq!(
        entry.worktree_names(&probes),
        Some(("main".to_string(), "t1".to_string()))
    );
    assert_eq!(entry.display_name(&probes), "main (t1)");
}

#[test]
fn submodule_and_plain_dirs_keep_dir_name() {
    for (dir, name, probes) in [
        ("sub", "sub", vec![file("gitdir: ../.git/modules/sub\n")]),
        ("main", "main", vec![GitProbe::Directory]),
        ("bare", "bare", vec![GitProbe::Absent, GitProbe::Absent]),
    ] {
        let entry = entry_at(&format!("{ROOT}/{dir}"));
        assert_eq!(entry.worktree_names(&probes), None);
        assert_eq!(entry.display_name(&probes), name);
    }
}

#[test]
fn relative_pointers_are_cleaned_up() {
    let entry = entry_at("/r/trees/t1");
    let names = |text: &str| entry.worktree_names(&vec![file(text)]);
    let found = Some(("main".to_string(), "t9".to_string()));
    assert_eq!(names("gitdir: ../../main/.git/worktrees/t9\n"), found);
    assert_eq!(names("gitdir:./../../main/./.git/worktrees/t9"), found);
    assert_eq!(names("gitdir: /x/../main/.git/worktrees/t9/\n"), found);
    assert_eq!(names("gitdir: /main/.git/worktrees/t9/more\n"), None);
    assert_eq!(names("gitdir: /main/.git/worktrees/t9/..\n"), None);
    assert_eq!(names("gitdir: /.git/worktrees/t9\n"), None);
    assert_eq!(names("gitdir: /main/.git/worktrees\n"), None);
    assert_eq!(names("gitdir: /main/git/worktrees/t9\n"), None);
    assert_eq!(names("gitdir:   \n"), None);
    assert_eq!(names(" gitdir: /main/.git/worktrees/t9\n"), None);
    assert_eq!(entry.worktree_names(&vec![GitProbe::File(None)]), None);
}

#[test]
fn the_pointer_is_relative_to_the_directory_that_holds_it() {
    let entry = entry_at("/r/trees/t1/crates/foo");
    let probes = vec![
        GitProbe::Absent,
        GitProbe::Absent,
        file("gitdir: ../main/.git/worktrees/t1"),
        GitProbe::Directory,
    ];
    assert_eq!(
        entry.worktree_names(&probes),
        Some(("main".to_string(), "t1".to_string()))
    );
}

#[test]
fn the_nearest_git_decides() {
    let entry = entry_at("/r/a/b");
    let far = file("gitdir: /main/.git/worktrees/t1");
    assert_eq!(entry.worktree_names(&vec![GitProbe::Directory, far]), None);
    let far = file("gitdir: /main/.git/worktrees/t1");
    assert_eq!(
        entry.worktree_names(&vec![GitProbe::File(None), far]),
        None
    );
}

#[test]
fn probes_beyond_the_root_do_not_count() {
    let entry = entry_at("/r");
    let beyond = file("gitdir: /main/.git/worktrees/t1");
    assert_eq!(
        entry.worktree_names(&vec![GitProbe::Absent, GitProbe::Absent, beyond]),
        None
    );
    let entry = entry_at("r");
    let current = file("gitdir: main/.git/worktrees/t1");
    assert_eq!(
        entry.worktree_names(&vec![GitProbe::Absent, current]),
        Some(("main".to_string(), "t1".to_string()))
    );
}

#[test]
fn project_names_are_the_last_component() {
    assert_eq!(entry_at("/a/b").project_name(), "b");
    assert_eq!(entry_at("/").project_name(), "");
    assert_eq!(entry_at("/a/..").project_name(), "");
    let mut entry = entry_at("/a");
    entry.project_path = FsPath::from_bytes(vec![b'/', 0xff]);
    assert_eq!(entry.project_name(), "\u{fffd}");
}

#[test]
fn shared_dirs_are_labelled_by_kind() {
    let mut entry = entry_at("/a");
    assert_eq!(entry.shared_label(), None);
    entry.shared = true;
    assert_eq!(entry.shared_label(), Some("Shared Target Dir"));
    entry.kind = OutputKind::Build;
    assert_eq!(entry.shared_label(), Some("Shared Build Dir"));
}

#[test]
fn roots_resolve_where_they_can() {
    let raw = FsPath::from_text("a/../b");
    assert_eq!(resolve_root(&raw, Some(FsPath::from_text("/x/b"))).to_text(), "/x/b");
    assert_eq!(resolve_root(&raw, None).to_text(), "a/../b");
}

#[test]
fn a_submodule_in_a_linked_worktree_is_no_worktree() {
    let entry = entry_at("/r/trees/t1/sub");
    let probes = vec![file("gitdir: /r/main/.git/worktrees/t1/modules/sub\n")];
    assert_eq!(entry.worktree_names(&probes), None);
    assert_eq!(entry.display_name(&probes), "sub");
}

#[test]
fn names_that_are_no_text_are_shown_with_replacements() {
    let mut entry = entry_at("/r");
    entry.project_path = FsPath::from_bytes(b"/m\xff/t".to_vec());
    let probes = vec![file("gitdir: ../.git/worktrees/t1")];
    assert_eq!(entry.display_name(&probes), "m\u{fffd} (t1)");
}
