use cargo_storage::path::FsPath;
use cargo_storage::scan::discover::{
    discover_with, discover_with_extra, finish, is_under_customs, keep_entry, messages_due,
    normalize_path, printed_worktrees, scan_stream, select_worktrees, sorted_paths, unique_paths,
    unquote_worktree_path, visit_entry, worktree_list, Candidate, KeepDecision, Message,
    ResolvedRow, StreamPhase, Visit, VisitStep, WalkCtx, WalkEntry,
};
use cargo_storage::scan::docker::CommandOutcome;
use cargo_storage::scan::{DiscoveredEntry, OutputKind};

fn p(s: &str) -> FsPath {
    FsPath::from_text(s)
}

fn row(project: &str, target: &str, kind: OutputKind, is_target_dir: bool) -> ResolvedRow {
    ResolvedRow {
        entry: DiscoveredEntry {
            project_path: p(project),
            target_dir: p(target),
            kind,
            shared: false,
        },
        is_target_dir,
    }
}

fn target(project: &str, dir: &str, is_target_dir: bool) -> ResolvedRow {
    row(project, dir, OutputKind::Target, is_target_dir)
}

fn shown(rows: &[DiscoveredEntry]) -> Vec<(String, String)> {
    rows.iter()
        .map(|e| (e.project_path.to_text(), e.target_dir.to_text()))
        .collect()
}

fn entry(path: &str, depth: usize, is_dir: bool) -> WalkEntry {
    let path = p(path);
    let name = path.file_name().unwrap_or_default();
    WalkEntry { depth, is_dir, path, name }
}

fn project(path: &str, default_target: bool, resolved: &[&str]) -> Visit {
    Visit {
        path: p(path),
        is_symlink: false,
        is_dir: true,
        has_git: Some(false),
        has_manifest: Some(true),
        has_default_target: Some(default_target),
        resolved: Some(resolved.iter().map(|s| p(s)).collect()),
    }
}

fn candidate(path: &str, is_dir: bool) -> Candidate {
    Candidate { path: p(path), is_dir }
}

fn ctx(customs: &[&str]) -> WalkCtx {
    WalkCtx::new(&p("/scan"), &customs.iter().map(|s| p(s)).collect())
}

#[test]
fn custom_target_dir_found_without_local_target() {
    let rows = finish(vec![
        target("/r/proj", "/r/shared-out", true),
        target("/r/proj", "/r/proj/target", false),
    ]);
    assert_eq!(rows.len(), 1);
    assert_eq!(rows[0].project_path, p("/r/proj"));
    assert_eq!(rows[0].target_dir, p("/r/shared-out"));
}

#[test]
fn build_dir_adds_a_second_row() {
    let rows = finish(vec![
        row("/r/proj", "/r/tout", OutputKind::Target, true),
        row("/r/proj", "/r/bout", OutputKind::Build, true),
    ]);
    assert_eq!(
        rows.iter().map(|e| e.target_dir.clone()).collect::<Vec<_>>(),
        vec![p("/r/bout"), p("/r/tout")]
    );
    assert!(rows.iter().all(|e| e.project_path == p("/r/proj")));
    let kinds: Vec<OutputKind> = rows.iter().map(|e| e.kind).collect();
    assert!(kinds.contains(&OutputKind::Target));
    assert!(kinds.contains(&OutputKind::Build));
}

#[test]
fn workspace_members_sharing_one_target_collapse_to_one_row() {
    let rows = finish(vec![
        target("/r/proj/member", "/r/proj/target", true),
        target("/r/proj/tests/fixture", "/r/proj/target", true),
        target("/r/proj", "/r/proj/target", true),
    ]);
    assert_eq!(rows.len(), 1, "one row per output dir: {rows:?}");
    assert_eq!(rows[0].project_path, p("/r/proj"));
    assert_eq!(rows[0].target_dir, p("/r/proj/target"));
}

#[test]
fn stale_default_target_still_listed_next_to_custom() {
    let rows = finish(vec![
        target("/r/proj", "/nowhere-custom-xyz", false),
        target("/r/proj", "/r/proj/target", true),
    ]);
    assert_eq!(rows.len(), 1);
    assert_eq!(rows[0].target_dir, p("/r/proj/target"));
}

#[test]
fn missing_custom_dir_reports_nothing() {
    assert!(finish(vec![target("/r/proj", "/nowhere-custom-xyz", false)]).is_empty());
}

#[test]
fn rows_do_not_depend_on_the_order_of_the_walk() {
    let make = |order: &[usize]| {
        let all = [
            ("/r/b", "/r/b/target"),
            ("/r/a", "/r/shared"),
            ("/r/a/x", "/r/shared"),
            ("/r/a", "/r/a//target"),
            ("/r/b", "/r/b/target"),
        ];
        finish(order.iter().map(|i| target(all[*i].0, all[*i].1, true)).collect())
    };
    let one = make(&[0, 1, 2, 3, 4]);
    let two = make(&[4, 2, 3, 1]);
    assert_eq!(shown(&one), shown(&two));
    let rest = |rows: &[DiscoveredEntry]| -> Vec<(OutputKind, bool)> {
        rows.iter().map(|e| (e.kind, e.shared)).collect()
    };
    assert_eq!(rest(&one), rest(&two));
    assert_eq!(
        shown(&one),
        vec![
            ("/r/a".to_string(), "/r/a//target".to_string()),
            ("/r/a".to_string(), "/r/shared".to_string()),
            ("/r/b".to_string(), "/r/b/target".to_string()),
        ]
    );
}

#[test]
fn the_scan_root_is_never_pruned() {
    let c = ctx(&["/scan/out"]);
    assert_eq!(keep_entry(&entry("/scan/.git", 0, true), &c, None, None), KeepDecision::Keep);
}

#[test]
fn git_and_cargo_dirs_are_pruned() {
    let c = ctx(&[]);
    assert_eq!(keep_entry(&entry("/scan/.git", 1, true), &c, None, None), KeepDecision::Skip);
    assert_eq!(keep_entry(&entry("/scan/.cargo", 1, true), &c, None, None), KeepDecision::Skip);
    assert_eq!(keep_entry(&entry("/scan/.config", 1, true), &c, None, None), KeepDecision::Keep);
}

#[test]
fn only_a_projects_own_target_is_pruned() {
    let c = ctx(&[]);
    let e = entry("/scan/x/target", 2, true);
    assert_eq!(keep_entry(&e, &c, None, None), KeepDecision::ProbeParentManifest);
    assert_eq!(keep_entry(&e, &c, None, Some(true)), KeepDecision::Skip);
    assert_eq!(keep_entry(&e, &c, None, Some(false)), KeepDecision::Keep);
}

#[test]
fn custom_outputs_are_not_entered_except_for_projects() {
    let c = ctx(&["/scan/out"]);
    let inside = entry("/scan/out/debug", 2, true);
    assert_eq!(keep_entry(&inside, &c, None, None), KeepDecision::ProbeManifest);
    assert_eq!(keep_entry(&inside, &c, Some(false), None), KeepDecision::Skip);
    assert_eq!(keep_entry(&inside, &c, Some(true), None), KeepDecision::Keep);
    assert_eq!(keep_entry(&entry("/scan/out/f", 2, false), &c, None, None), KeepDecision::Keep);
    assert_eq!(keep_entry(&entry("/scan/out", 1, true), &c, None, None), KeepDecision::Keep);
    let both = entry("/scan/out/target", 2, true);
    assert_eq!(keep_entry(&both, &c, Some(true), None), KeepDecision::ProbeParentManifest);
}

#[test]
fn below_a_custom_dir_means_strictly_below() {
    let c = ctx(&["/scan/out", "/scan"]);
    assert!(is_under_customs(&c, &p("/scan/out/a/b")));
    assert!(!is_under_customs(&c, &p("/scan/out")));
    assert!(!is_under_customs(&c, &p("/scan/output")));
    assert!(!is_under_customs(&c, &p("/scan/x")));
    let relative = WalkCtx::new(&p("/scan"), &vec![p("")]);
    assert!(is_under_customs(&relative, &p("a")));
    assert!(!is_under_customs(&relative, &p("/a")));
}

#[test]
fn visits_ask_for_facts_in_turn() {
    let mut c = ctx(&[]);
    let mut v = Visit {
        path: p("/scan/proj"),
        is_symlink: false,
        is_dir: true,
        has_git: None,
        has_manifest: None,
        has_default_target: None,
        resolved: None,
    };
    assert_eq!(visit_entry(&mut c, &v), VisitStep::ProbeGit);
    v.has_git = Some(true);
    assert_eq!(visit_entry(&mut c, &v), VisitStep::ProbeManifest);
    v.has_manifest = Some(true);
    assert_eq!(visit_entry(&mut c, &v), VisitStep::ProbeDefaultTarget);
    v.has_default_target = Some(false);
    assert_eq!(visit_entry(&mut c, &v), VisitStep::Resolve);
    assert!(c.manifests.is_empty() && c.repos.is_empty() && c.customs.is_empty());
    v.resolved = Some(vec![p("/scan/proj/target"), p("/scan/out"), p("/scan//out")]);
    assert_eq!(visit_entry(&mut c, &v), VisitStep::Continue);
    assert_eq!(c.manifests, vec![p("/scan/proj")]);
    assert_eq!(c.repos, vec![p("/scan/proj")]);
    assert_eq!(c.customs, vec![p("/scan/out")]);
}

#[test]
fn a_local_target_needs_no_configuration() {
    let mut c = ctx(&[]);
    let v = project("/scan/a", true, &["/scan/out"]);
    assert_eq!(visit_entry(&mut c, &v), VisitStep::Continue);
    assert!(c.customs.is_empty());
    assert_eq!(c.manifests, vec![p("/scan/a")]);
    let v = project("/scan/b", false, &["/scan/out", "/scan/b/target"]);
    visit_entry(&mut c, &v);
    assert_eq!(c.customs, vec![p("/scan/out")]);
    assert_eq!(c.manifests.len(), 2);
}

#[test]
fn links_and_files_are_never_projects() {
    let mut c = ctx(&[]);
    let mut v = project("/scan/a", false, &["/scan/out"]);
    v.is_symlink = true;
    assert_eq!(visit_entry(&mut c, &v), VisitStep::Continue);
    v.is_symlink = false;
    v.is_dir = false;
    assert_eq!(visit_entry(&mut c, &v), VisitStep::Continue);
    assert!(c.manifests.is_empty() && c.customs.is_empty());
    let mut plain = project("/scan/a", false, &[]);
    plain.has_git = Some(true);
    plain.has_manifest = Some(false);
    assert_eq!(visit_entry(&mut c, &plain), VisitStep::Continue);
    assert!(c.manifests.is_empty());
    assert_eq!(c.repos, vec![p("/scan/a")]);
}

#[test]
fn the_scan_root_is_no_custom_output() {
    let c = ctx(&["/scan/", "/x", "/x/."]);
    assert_eq!(c.customs, vec![p("/x")]);
}

#[test]
fn worktrees_outside_or_covered_are_left_out() {
    let out = select_worktrees(
        vec![
            candidate("/real/b", true),
            candidate("/elsewhere/w", true),
            candidate("/real", true),
            candidate("/real/a", true),
            candidate("/link/c", true),
            candidate("/real/gone", false),
            candidate("/real//a", true),
            candidate("/realm/a", true),
        ],
        &p("/link"),
        &p("/real"),
        &vec![p("/real"), p("/link")],
    );
    assert_eq!(out, vec![p("/link/c"), p("/real/a"), p("/real/b")]);
}

#[test]
fn extra_roots_stay_in_the_scan_root() {
    let root = p("/r");
    let extra = discover_with_extra(&root, &root, vec![candidate("/r/trees/wt", true)]);
    assert_eq!(extra, vec![p("/r/trees/wt")]);
    let outside = vec![candidate("/outside", true), candidate("/r", true), candidate("/r/f", false)];
    assert!(discover_with_extra(&root, &root, outside).is_empty());
}

#[test]
fn worktrees_are_asked_for_once_per_repository() {
    let plan = discover_with(
        &p("/r"),
        Some(p("/real")),
        vec![p("/r/b"), p("/r/a"), p("/r/b")],
    );
    assert_eq!(plan.queries, vec![p("/r"), p("/r/a"), p("/r/b")]);
    assert_eq!(plan.covered, vec![p("/r/a"), p("/r/b"), p("/r"), p("/real")]);
    let plan = discover_with(&p("/r"), None, vec![]);
    assert_eq!(plan.queries, vec![p("/r")]);
    assert_eq!(plan.covered, vec![p("/r")]);
}

#[test]
fn worktree_fields_name_paths() {
    let outcome = CommandOutcome::Exited {
        success: true,
        stdout: b"worktree /r/main\0HEAD abc\0branch x\0\0worktree \"/r/a \\\"b\\\\\"\0worktree /r/\xff\0".to_vec(),
        stderr: vec![],
    };
    assert_eq!(printed_worktrees(&outcome), vec![p("/r/main"), p("/r/a \"b\\")]);
    assert_eq!(worktree_list(&outcome, &vec![]), vec![p("/r/main"), p("/r/a \"b\\")]);
    let resolved = vec![Some(p("/real")), None];
    assert_eq!(worktree_list(&outcome, &resolved), vec![p("/real"), p("/r/a \"b\\")]);
    let same = vec![Some(p("/real")), Some(p("/real/"))];
    let out = worktree_list(&outcome, &same);
    assert_eq!(out.iter().map(|q| q.to_text()).collect::<Vec<_>>(), vec!["/real"]);
    let failed = CommandOutcome::Exited {
        success: false,
        stdout: b"worktree /r/main\0".to_vec(),
        stderr: vec![],
    };
    assert!(worktree_list(&failed, &vec![]).is_empty());
    assert!(printed_worktrees(&CommandOutcome::NotRun("no git".to_string())).is_empty());
}

#[test]
fn quoted_paths_are_unquoted() {
    assert_eq!(unquote_worktree_path("/plain path"), "/plain path");
    assert_eq!(unquote_worktree_path("\"/q\""), "/q");
    assert_eq!(unquote_worktree_path("\"/a\\\"b\\\\c\""), "/a\"b\\c");
    assert_eq!(unquote_worktree_path("\""), "\"");
    assert_eq!(unquote_worktree_path("\"\""), "");
    assert_eq!(unquote_worktree_path("\"open"), "\"open");
    assert_eq!(unquote_worktree_path("close\""), "close\"");
}

#[test]
fn paths_are_kept_once() {
    assert_eq!(unique_paths(vec![p("b"), p("a"), p("b/")]), vec![p("b"), p("a")]);
    assert_eq!(sorted_paths(vec![p("b"), p("a"), p("b/")]), vec![p("a"), p("b")]);
    assert_eq!(normalize_path(&p("a"), None), p("a"));
    assert_eq!(normalize_path(&p("a"), Some(p("/a"))), p("/a"));
}

#[test]
fn rows_are_sent_before_measurements() {
    let first = scan_stream(StreamPhase::Discover, true);
    assert_eq!(first, StreamPhase::Measure);
    assert_eq!(scan_stream(StreamPhase::Discover, false), StreamPhase::Stopped);
    assert_eq!(scan_stream(first, false), StreamPhase::Finish);
    assert_eq!(scan_stream(StreamPhase::Finish, true), StreamPhase::Stopped);
    assert_eq!(scan_stream(StreamPhase::Stopped, true), StreamPhase::Stopped);
}

#[test]
fn each_row_is_measured_once() {
    let rows = finish(vec![
        target("/r/a", "/r/a/target", true),
        target("/r/b", "/r/b/target", true),
        target("/r/b/c", "/r/b/target", true),
    ]);
    let mut sent = Vec::new();
    let mut phase = StreamPhase::Discover;
    while phase != StreamPhase::Stopped {
        for message in messages_due(phase, &rows) {
            sent.push(match message {
                Message::Rows => "rows".to_string(),
                Message::Measurement(dir) => dir.to_text(),
                Message::End => "end".to_string(),
            });
        }
        phase = scan_stream(phase, true);
    }
    assert_eq!(sent, vec!["rows", "/r/a/target", "/r/b/target", "end"]);
    assert!(messages_due(StreamPhase::Stopped, &rows).is_empty());
    assert!(messages_due(StreamPhase::Measure, &vec![]).is_empty());
}
