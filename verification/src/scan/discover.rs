//! Finding Rust projects and their output directories.
//!
//! A walk reports each directory it meets; the functions here decide which
//! directories are entered, what is recorded of them, which linked git
//! worktrees are walked besides, and which rows come out in the end.

use vstd::prelude::*;
use vstd::slice::*;
use vstd::string::*;
use vstd::utf8::*;

use crate::order;
use crate::order::Ranked;
use crate::path;
use crate::path::{FsPath, Part};
use crate::scan::cargo_config::{DiscoveredEntry, OutputKind};
use crate::scan::docker::CommandOutcome;
use crate::scan::measure::Measurement;
use crate::scan::TargetEntry;
use crate::text;

verus! {

/// Scan progress messages, sent while a scan runs.
#[derive(Clone, Debug)]
pub enum ScanEvent {
    /// All project and output pairs found. Sizes are still unknown.
    Discovered(Vec<DiscoveredEntry>),
    /// One output directory measured.
    Measured(Measurement),
    /// Size walk finished, with the build-cache measurement if present.
    Done { build_cache: Option<TargetEntry> },
}

/// Where a scan stands in sending its progress messages.
#[derive(Clone, Copy, Debug, PartialEq, Eq, Structural)]
pub enum StreamPhase {
    /// The rows found are to be sent.
    Discover,
    /// The rows are to be measured and each measurement sent.
    Measure,
    /// The end is to be sent.
    Finish,
    /// Nothing more is sent.
    Stopped,
}

/// What to do with a directory entry that a walk meets.
#[derive(Clone, Copy, Debug, PartialEq, Eq, Structural)]
pub enum KeepDecision {
    /// Yield it, and descend into it.
    Keep,
    /// Leave it and everything under it out.
    Skip,
    /// Look first whether it holds a `Cargo.toml`.
    ProbeManifest,
    /// Look first whether its parent holds a `Cargo.toml`.
    ProbeParentManifest,
}

/// An entry that a walk is about to enter.
#[derive(Debug)]
pub struct WalkEntry {
    /// How far below the scan root it is.
    pub depth: usize,
    pub is_dir: bool,
    pub path: FsPath,
    /// Its file name.
    pub name: Vec<u8>,
}

/// What to do after a walk has yielded an entry.
#[derive(Clone, Copy, Debug, PartialEq, Eq, Structural)]
pub enum VisitStep {
    /// Look whether it holds a `.git`.
    ProbeGit,
    /// Look whether it holds a `Cargo.toml`.
    ProbeManifest,
    /// Look whether its `target` is a directory.
    ProbeDefaultTarget,
    /// Resolve its output directories.
    Resolve,
    /// Go on with the walk.
    Continue,
}

/// What is known of an entry that a walk has yielded.
#[derive(Debug)]
pub struct Visit {
    pub path: FsPath,
    pub is_symlink: bool,
    pub is_dir: bool,
    pub has_git: Option<bool>,
    pub has_manifest: Option<bool>,
    /// Whether `target` in it is a real directory.
    pub has_default_target: Option<bool>,
    /// The output directories that its configuration resolves to.
    pub resolved: Option<Vec<FsPath>>,
}

/// What a walk has gathered. A custom output directory is held once.
#[derive(Debug)]
pub struct WalkCtx {
    /// Output directories other than `<project>/target`, not descended into.
    pub customs: Vec<FsPath>,
    /// Directories holding a `Cargo.toml`.
    pub manifests: Vec<FsPath>,
    /// Directories holding a `.git`.
    pub repos: Vec<FsPath>,
}

/// A row that a manifest resolves to.
#[derive(Debug)]
pub struct ResolvedRow {
    pub entry: DiscoveredEntry,
    /// Whether its output directory is a real directory.
    pub is_target_dir: bool,
}

/// A directory that could be walked besides the scan root.
#[derive(Debug)]
pub struct Candidate {
    pub path: FsPath,
    pub is_dir: bool,
}

/// What to ask git after the main walk, and what that walk has covered.
#[derive(Debug)]
pub struct WorktreePlan {
    /// The directories whose linked worktrees are listed.
    pub queries: Vec<FsPath>,
    /// The directories that need no walk of their own.
    pub covered: Vec<FsPath>,
}

pub open spec fn target_key() -> spec_fn(DiscoveredEntry) -> Seq<Part> {
    |e: DiscoveredEntry| e.target_dir.parts()
}

/// `ancestor` is a directory above `path`.
pub open spec fn is_above(ancestor: Seq<Part>, path: Seq<Part>) -> bool {
    &&& ancestor.len() < path.len()
    &&& path.take(ancestor.len() as int) == ancestor
    &&& ancestor.len() == 0 ==> path[0] != Part::RootDir
}

/// One of `customs` is a directory above `path`.
pub open spec fn is_under(customs: Set<Seq<Part>>, path: Seq<Part>) -> bool {
    exists|c: Seq<Part>| #[trigger] customs.contains(c) && is_above(c, path)
}

pub open spec fn name_is(name: Seq<u8>, wanted: Seq<char>) -> bool {
    name == encode_utf8(wanted)
}

/// Whether an entry is kept, once it is known whether it and its parent hold
/// a `Cargo.toml`: the scan root always is; a directory under a custom output
/// directory only where it is a project; `.git` and `.cargo` never; a
/// project's own `target` not either.
pub open spec fn is_kept(
    entry: WalkEntry,
    customs: Set<Seq<Part>>,
    has_manifest: bool,
    parent_has_manifest: bool,
) -> bool {
    ||| entry.depth == 0
    ||| {
        &&& entry.is_dir && is_under(customs, entry.path.parts()) ==> has_manifest
        &&& !name_is(entry.name@, ".git"@)
        &&& !name_is(entry.name@, ".cargo"@)
        &&& name_is(entry.name@, "target"@) ==> !parent_has_manifest
    }
}

/// The decision on an entry from what is known so far.
pub open spec fn keep_decision(
    entry: WalkEntry,
    customs: Set<Seq<Part>>,
    has_manifest: Option<bool>,
    parent_has_manifest: Option<bool>,
) -> KeepDecision {
    let guarded = entry.depth > 0 && entry.is_dir && is_under(customs, entry.path.parts());
    if entry.depth == 0 {
        KeepDecision::Keep
    } else if guarded && has_manifest is None {
        KeepDecision::ProbeManifest
    } else if guarded && has_manifest == Some(false) {
        KeepDecision::Skip
    } else if name_is(entry.name@, ".git"@) || name_is(entry.name@, ".cargo"@) {
        KeepDecision::Skip
    } else if name_is(entry.name@, "target"@) {
        match parent_has_manifest {
            None => KeepDecision::ProbeParentManifest,
            Some(true) => KeepDecision::Skip,
            Some(false) => KeepDecision::Keep,
        }
    } else {
        KeepDecision::Keep
    }
}

/// What is to be found out next of a yielded entry.
pub open spec fn visit_step(visit: Visit) -> VisitStep {
    if visit.is_symlink || !visit.is_dir {
        VisitStep::Continue
    } else if visit.has_git is None {
        VisitStep::ProbeGit
    } else {
        match visit.has_manifest {
            None => VisitStep::ProbeManifest,
            Some(false) => VisitStep::Continue,
            Some(true) => match visit.has_default_target {
                None => VisitStep::ProbeDefaultTarget,
                Some(true) => VisitStep::Continue,
                Some(false) => if visit.resolved is None {
                    VisitStep::Resolve
                } else {
                    VisitStep::Continue
                },
            },
        }
    }
}

/// The entry is a real directory.
pub open spec fn is_plain_dir(visit: Visit) -> bool {
    visit.is_dir && !visit.is_symlink
}

/// The custom output directories that a yielded entry adds: those that it
/// resolves to, other than its own `target`, where it is a project without
/// such a directory.
pub open spec fn added_customs(visit: Visit) -> Set<Seq<Part>> {
    Set::new(
        |c: Seq<Part>|
            is_plain_dir(visit) && visit.has_manifest == Some(true) && visit.has_default_target
                == Some(false) && (visit.resolved matches Some(dirs) && path::path_parts(
                dirs@,
            ).contains(c)) && c != path::components_of(
                path::join_bytes(visit.path@, encode_utf8("target"@)),
            ),
    )
}

/// The entries of the rows whose output directory is real, in order.
pub open spec fn real_entries(rows: Seq<ResolvedRow>) -> Seq<DiscoveredEntry>
    decreases rows.len(),
{
    if rows.len() == 0 {
        Seq::empty()
    } else {
        let before = real_entries(rows.drop_last());
        if rows.last().is_target_dir {
            before.push(rows.last().entry)
        } else {
            before
        }
    }
}

/// `rows` are `entries` sorted by project and output directory, the first of
/// each output directory.
pub open spec fn is_row_list(entries: Seq<DiscoveredEntry>, rows: Seq<DiscoveredEntry>) -> bool {
    exists|sorted: Seq<DiscoveredEntry>|
        #![trigger order::firsts(sorted, target_key())]
        order::is_stable_sort(entries, sorted, order::rank_order::<DiscoveredEntry>()) && rows
            == order::firsts(sorted, target_key())
}

/// `out` are `paths` in order, each path once.
pub open spec fn is_sorted_set(paths: Seq<FsPath>, out: Seq<FsPath>) -> bool {
    exists|sorted: Seq<FsPath>|
        #![trigger order::firsts(sorted, path::parts_key())]
        order::is_stable_sort(paths, sorted, order::rank_order::<FsPath>()) && out
            == order::firsts(sorted, path::parts_key())
}

/// A candidate lies in the scan root, is not covered, and is a directory.
pub open spec fn is_selected(
    candidate: Candidate,
    root: Seq<Part>,
    canonical_root: Seq<Part>,
    covered: Seq<Seq<Part>>,
) -> bool {
    let p = candidate.path.parts();
    &&& path::is_prefix(p, canonical_root) || path::is_prefix(p, root)
    &&& !covered.contains(p)
    &&& candidate.is_dir
}

/// The paths of the selected candidates, in order.
pub open spec fn selected_paths(
    candidates: Seq<Candidate>,
    root: Seq<Part>,
    canonical_root: Seq<Part>,
    covered: Seq<Seq<Part>>,
) -> Seq<FsPath>
    decreases candidates.len(),
{
    if candidates.len() == 0 {
        Seq::empty()
    } else {
        let before = selected_paths(candidates.drop_last(), root, canonical_root, covered);
        if is_selected(candidates.last(), root, canonical_root, covered) {
            before.push(candidates.last().path)
        } else {
            before
        }
    }
}

/// A `--porcelain` path without its quotes; one without quotes as it stands.
pub open spec fn unquoted(raw: Seq<char>) -> Seq<char> {
    if raw.len() >= 2 && raw.first() == '"' && raw.last() == '"' {
        let inner = raw.subrange(1, raw.len() - 1);
        text::replace_pair(text::replace_pair(inner, '\\', '"', '"'), '\\', '\\', '\\')
    } else {
        raw
    }
}

/// The path that one field of `git worktree list --porcelain -z` names.
pub open spec fn worktree_field(field: Seq<u8>) -> Option<Seq<u8>> {
    let line = decode_utf8(field);
    if valid_utf8(field) && text::has_prefix(line, "worktree "@) {
        Some(encode_utf8(unquoted(line.skip("worktree "@.len() as int))))
    } else {
        None
    }
}

pub open spec fn worktree_fields(fields: Seq<Seq<u8>>) -> Seq<Seq<u8>>
    decreases fields.len(),
{
    if fields.len() == 0 {
        Seq::empty()
    } else {
        let before = worktree_fields(fields.drop_last());
        match worktree_field(fields.last()) {
            Some(p) => before.push(p),
            None => before,
        }
    }
}

impl Ranked for DiscoveredEntry {
    open spec fn ranked_le(&self, other: &DiscoveredEntry) -> bool {
        let (a, b) = (self.project_path.parts(), other.project_path.parts());
        if a == b {
            path::path_le(self.target_dir.parts(), other.target_dir.parts())
        } else {
            path::path_le(a, b)
        }
    }

    proof fn ranked_total(a: &DiscoveredEntry, b: &DiscoveredEntry) {
        path::lemma_path_total(a.project_path.parts(), b.project_path.parts());
        path::lemma_path_total(a.target_dir.parts(), b.target_dir.parts());
    }

    proof fn ranked_transitive(a: &DiscoveredEntry, b: &DiscoveredEntry, c: &DiscoveredEntry) {
        let (x, y, z) = (a.project_path.parts(), b.project_path.parts(), c.project_path.parts());
        if x == y && y == z {
            path::lemma_path_transitive(
                a.target_dir.parts(),
                b.target_dir.parts(),
                c.target_dir.parts(),
            );
        } else if x != y && y != z {
            path::lemma_path_transitive(x, y, z);
            path::lemma_path_total(x, y);
        }
    }

    fn in_order(&self, other: &DiscoveredEntry) -> (r: bool) {
        if self.project_path.same_as(&other.project_path) {
            self.target_dir.comes_no_later(&other.target_dir)
        } else {
            self.project_path.comes_no_later(&other.project_path)
        }
    }
}

/// Whether one of `paths` has the components of `path`.
fn holds_path(paths: &Vec<FsPath>, path: &FsPath) -> (r: bool)
    ensures
        r == path::path_parts(paths@).contains(path.parts()),
        r == order::has_key(paths@, path::parts_key(), path.parts()),
{
    let mut i: usize = 0;
    while i < paths.len()
        invariant
            i <= paths@.len(),
            forall|j: int| 0 <= j < i ==> paths@[j].parts() != path.parts(),
        decreases paths@.len() - i,
    {
        if paths[i].same_as(path) {
            assert(path::path_parts(paths@)[i as int] == path.parts());
            assert(path::parts_key()(paths@[i as int]) == path.parts());
            return true;
        }
        i = i + 1;
    }
    assert forall|j: int| 0 <= j < paths@.len() implies path::path_parts(paths@)[j] != path.parts() by {
        assert(path::path_parts(paths@)[j] == paths@[j].parts());
    }
    false
}

/// The paths in the order given, each path once.
pub fn unique_paths(paths: Vec<FsPath>) -> (out: Vec<FsPath>)
    ensures
        out@ == order::firsts(paths@, path::parts_key()),
{
    let ghost all = paths@;
    let mut out: Vec<FsPath> = Vec::new();
    assert(all.take(0) =~= Seq::<FsPath>::empty());
    for p in it: paths.into_iter()
        invariant
            it.seq() == all,
            out@ == order::firsts(all.take(it.index()), path::parts_key()),
    {
        proof {
            assert(all.take(it.index() + 1).drop_last() =~= all.take(it.index()));
            assert(path::parts_key()(p) == p.parts());
        }
        if !holds_path(&out, &p) {
            out.push(p);
        }
    }
    assert(all.take(all.len() as int) =~= all);
    out
}

/// The paths sorted, each path once.
pub fn sorted_paths(paths: Vec<FsPath>) -> (out: Vec<FsPath>)
    ensures
        is_sorted_set(paths@, out@),
{
    let sorted = order::stable_sort(paths);
    unique_paths(sorted)
}

impl WalkCtx {
    /// The custom output directories.
    pub open spec fn custom_set(&self) -> Set<Seq<Part>> {
        path::path_parts(self.customs@).to_set()
    }

    /// No custom output directory is held twice.
    pub open spec fn wf(&self) -> bool {
        path::path_parts(self.customs@).no_duplicates()
    }

    fn add_custom(&mut self, dir: &FsPath)
        requires
            old(self).wf(),
        ensures
            final(self).wf(),
            final(self).custom_set() == old(self).custom_set().insert(dir.parts()),
            final(self).manifests == old(self).manifests,
            final(self).repos == old(self).repos,
    {
        let ghost before = path::path_parts(self.customs@);
        if !holds_path(&self.customs, dir) {
            self.customs.push(dir.clone());
            let ghost after = path::path_parts(self.customs@);
            proof {
                assert(after =~= before.push(dir.parts()));
                assert forall|c: Seq<Part>| after.to_set().contains(c) == before.to_set().insert(
                    dir.parts(),
                ).contains(c) by {
                    if before.contains(c) {
                        let i = choose|i: int| 0 <= i < before.len() && before[i] == c;
                        assert(after[i] == c);
                    }
                    if c == dir.parts() {
                        assert(after[after.len() - 1] == c);
                    }
                }
            }
        }
        assert(self.custom_set() =~= old(self).custom_set().insert(dir.parts()));
    }

    /// Nothing gathered yet. The directories that configuration above `root`
    /// points to are custom output directories, except `root` itself.
    pub fn new(root: &FsPath, outer_dirs: &Vec<FsPath>) -> (r: WalkCtx)
        ensures
            r.wf(),
            r.custom_set() == path::path_parts(outer_dirs@).to_set().remove(root.parts()),
            r.manifests@.len() == 0,
            r.repos@.len() == 0,
            begins(root.parts(), outer_dirs@, r),
    {
        let mut r = WalkCtx { customs: Vec::new(), manifests: Vec::new(), repos: Vec::new() };
        let ghost all = path::path_parts(outer_dirs@);
        let mut i: usize = 0;
        assert(r.custom_set() =~= all.take(0).to_set().remove(root.parts()));
        while i < outer_dirs.len()
            invariant
                i <= outer_dirs@.len(),
                all == path::path_parts(outer_dirs@),
                r.wf(),
                r.custom_set() == all.take(i as int).to_set().remove(root.parts()),
                r.manifests@.len() == 0,
                r.repos@.len() == 0,
            decreases outer_dirs@.len() - i,
        {
            let dir = &outer_dirs[i];
            let ghost before = r.custom_set();
            if !dir.same_as(root) {
                r.add_custom(dir);
            }
            proof {
                lemma_to_set_step(all, i as int);
                assert(r.custom_set() =~= all.take(i + 1).to_set().remove(root.parts()));
            }
            i = i + 1;
        }
        assert(all.take(i as int) =~= all);
        r
    }
}

proof fn lemma_to_set_step(s: Seq<Seq<Part>>, i: int)
    requires
        0 <= i < s.len(),
    ensures
        s.take(i + 1).to_set() == s.take(i).to_set().insert(s[i]),
{
    let (a, b) = (s.take(i), s.take(i + 1));
    assert forall|c: Seq<Part>| b.to_set().contains(c) == a.to_set().insert(s[i]).contains(c) by {
        if a.contains(c) {
            let k = choose|k: int| 0 <= k < a.len() && a[k] == c;
            assert(b[k] == c);
        }
        if c == s[i] {
            assert(b[i] == c);
        }
        if b.contains(c) {
            let k = choose|k: int| 0 <= k < b.len() && b[k] == c;
            if k < i {
                assert(a[k] == c);
            }
        }
    }
    assert(b.to_set() =~= a.to_set().insert(s[i]));
}

/// Whether `path` lies below a custom output directory.
pub fn is_under_customs(ctx: &WalkCtx, path: &FsPath) -> (r: bool)
    ensures
        r == is_under(ctx.custom_set(), path.parts()),
{
    let ghost all = path::path_parts(ctx.customs@);
    let rooted = path.is_absolute();
    proof {
        path::lemma_rooted(path@);
    }
    let mut i: usize = 0;
    while i < ctx.customs.len()
        invariant
            i <= ctx.customs@.len(),
            all == path::path_parts(ctx.customs@),
            rooted == (path.parts().len() > 0 && path.parts()[0] == Part::RootDir),
            forall|j: int| 0 <= j < i ==> !is_above(#[trigger] all[j], path.parts()),
        decreases ctx.customs@.len() - i,
    {
        let custom = &ctx.customs[i];
        let ghost c = custom.parts();
        assert(c == all[i as int]);
        if path.starts_with(custom) && !path.same_as(custom) {
            let count = custom.components().len();
            assert(count == c.len());
            assert(c.len() < path.parts().len()) by {
                if c.len() == path.parts().len() {
                    assert(path.parts().take(c.len() as int) =~= path.parts());
                }
            }
            if count > 0 || !rooted {
                assert(ctx.custom_set().contains(c));
                return true;
            }
        }
        assert(!is_above(c, path.parts()));
        i = i + 1;
    }
    assert forall|c: Seq<Part>| #[trigger] ctx.custom_set().contains(c) implies !is_above(
        c,
        path.parts(),
    ) by {
        let j = choose|j: int| 0 <= j < all.len() && all[j] == c;
        assert(all[j] == c);
    }
    false
}

fn named(name: &Vec<u8>, wanted: &str) -> (r: bool)
    ensures
        r == name_is(name@, wanted@),
{
    path::same_bytes(name.as_slice(), wanted.as_bytes())
}

/// Whether the walk yields an entry and descends into it, or what has to be
/// looked up first.
pub fn keep_entry(
    entry: &WalkEntry,
    ctx: &WalkCtx,
    has_manifest: Option<bool>,
    parent_has_manifest: Option<bool>,
) -> (r: KeepDecision)
    ensures
        r == keep_decision(*entry, ctx.custom_set(), has_manifest, parent_has_manifest),
{
    if entry.depth == 0 {
        return KeepDecision::Keep;
    }
    if entry.is_dir && is_under_customs(ctx, &entry.path) {
        match has_manifest {
            None => {
                return KeepDecision::ProbeManifest;
            },
            Some(false) => {
                return KeepDecision::Skip;
            },
            Some(true) => {},
        }
    }
    if named(&entry.name, ".git") || named(&entry.name, ".cargo") {
        return KeepDecision::Skip;
    }
    if named(&entry.name, "target") {
        return match parent_has_manifest {
            None => KeepDecision::ProbeParentManifest,
            Some(true) => KeepDecision::Skip,
            Some(false) => KeepDecision::Keep,
        };
    }
    KeepDecision::Keep
}

/// `ctx` has gathered nothing but the directories that configuration above the
/// scan root points to.
pub open spec fn begins(root: Seq<Part>, outer_dirs: Seq<FsPath>, ctx: WalkCtx) -> bool {
    &&& ctx.custom_set() == path::path_parts(outer_dirs).to_set().remove(root)
    &&& ctx.manifests@.len() == 0
    &&& ctx.repos@.len() == 0
}

/// What visiting an entry does: `step` is what is to be found out next, and once
/// that is nothing, `after` is `before` with what was found recorded.
pub open spec fn visits(before: WalkCtx, visit: Visit, step: VisitStep, after: WalkCtx) -> bool {
    &&& step == visit_step(visit)
    &&& step != VisitStep::Continue ==> after == before
    &&& step == VisitStep::Continue ==> {
        &&& after.custom_set() == before.custom_set().union(added_customs(visit))
        &&& path::path_bytes(after.repos@) == (if is_plain_dir(visit) && visit.has_git == Some(
            true,
        ) {
            path::path_bytes(before.repos@).push(visit.path@)
        } else {
            path::path_bytes(before.repos@)
        })
        &&& path::path_bytes(after.manifests@) == (if is_plain_dir(visit) && visit.has_manifest
            == Some(true) {
            path::path_bytes(before.manifests@).push(visit.path@)
        } else {
            path::path_bytes(before.manifests@)
        })
    }
}

/// Records what a yielded entry is, once everything about it is known; till
/// then says what is to be found out next.
pub fn visit_entry(ctx: &mut WalkCtx, visit: &Visit) -> (r: VisitStep)
    requires
        old(ctx).wf(),
    ensures
        final(ctx).wf(),
        r == visit_step(*visit),
        r != VisitStep::Continue ==> *final(ctx) == *old(ctx),
        r == VisitStep::Continue ==> {
            &&& final(ctx).custom_set() == old(ctx).custom_set().union(added_customs(*visit))
            &&& path::path_bytes(final(ctx).repos@) == (if is_plain_dir(*visit) && visit.has_git == Some(
                true,
            ) {
                path::path_bytes(old(ctx).repos@).push(visit.path@)
            } else {
                path::path_bytes(old(ctx).repos@)
            })
            &&& path::path_bytes(final(ctx).manifests@) == (if is_plain_dir(*visit) && visit.has_manifest
                == Some(true) {
                path::path_bytes(old(ctx).manifests@).push(visit.path@)
            } else {
                path::path_bytes(old(ctx).manifests@)
            })
        },
        visits(*old(ctx), *visit, r, *final(ctx)),
{
    if visit.is_symlink || !visit.is_dir {
        assert(ctx.custom_set() =~= old(ctx).custom_set().union(added_customs(*visit)));
        return VisitStep::Continue;
    }
    let has_git = match visit.has_git {
        Some(has_git) => has_git,
        None => {
            return VisitStep::ProbeGit;
        },
    };
    let has_manifest = match visit.has_manifest {
        Some(has_manifest) => has_manifest,
        None => {
            return VisitStep::ProbeManifest;
        },
    };
    if has_manifest {
        let has_default_target = match visit.has_default_target {
            Some(has_default_target) => has_default_target,
            None => {
                return VisitStep::ProbeDefaultTarget;
            },
        };
        if !has_default_target {
            match &visit.resolved {
                Some(dirs) => {
                    let default_target = visit.path.join(&FsPath::from_text("target"));
                    add_customs(ctx, dirs, &default_target);
                },
                None => {
                    return VisitStep::Resolve;
                },
            }
        }
        ctx.manifests.push(visit.path.clone());
        assert(path::path_bytes(ctx.manifests@) =~= path::path_bytes(old(ctx).manifests@).push(visit.path@));
    }
    if has_git {
        ctx.repos.push(visit.path.clone());
        assert(path::path_bytes(ctx.repos@) =~= path::path_bytes(old(ctx).repos@).push(visit.path@));
    }
    assert(ctx.custom_set() =~= old(ctx).custom_set().union(added_customs(*visit)));
    VisitStep::Continue
}

/// Adds the output directories other than `default_target`.
fn add_customs(ctx: &mut WalkCtx, dirs: &Vec<FsPath>, default_target: &FsPath)
    requires
        old(ctx).wf(),
    ensures
        final(ctx).wf(),
        final(ctx).custom_set() == old(ctx).custom_set().union(
            path::path_parts(dirs@).to_set().remove(default_target.parts()),
        ),
        final(ctx).manifests == old(ctx).manifests,
        final(ctx).repos == old(ctx).repos,
{
    let ghost all = path::path_parts(dirs@);
    let ghost start = ctx.custom_set();
    let mut i: usize = 0;
    assert(ctx.custom_set() =~= start.union(
        all.take(0).to_set().remove(default_target.parts()),
    ));
    while i < dirs.len()
        invariant
            i <= dirs@.len(),
            all == path::path_parts(dirs@),
            ctx.wf(),
            ctx.custom_set() == start.union(
                all.take(i as int).to_set().remove(default_target.parts()),
            ),
            ctx.manifests == old(ctx).manifests,
            ctx.repos == old(ctx).repos,
        decreases dirs@.len() - i,
    {
        if !dirs[i].same_as(default_target) {
            ctx.add_custom(&dirs[i]);
        }
        proof {
            lemma_to_set_step(all, i as int);
            assert(ctx.custom_set() =~= start.union(
                all.take(i + 1).to_set().remove(default_target.parts()),
            ));
        }
        i = i + 1;
    }
    assert(all.take(i as int) =~= all);
}

/// Whether one of `rows` has the output directory `dir`.
fn holds_target(rows: &Vec<DiscoveredEntry>, dir: &FsPath) -> (r: bool)
    ensures
        r == order::has_key(rows@, target_key(), dir.parts()),
{
    let mut i: usize = 0;
    while i < rows.len()
        invariant
            i <= rows@.len(),
            forall|j: int| 0 <= j < i ==> rows@[j].target_dir.parts() != dir.parts(),
        decreases rows@.len() - i,
    {
        if rows[i].target_dir.same_as(dir) {
            assert(target_key()(rows@[i as int]) == dir.parts());
            return true;
        }
        i = i + 1;
    }
    false
}

/// The rows that come out of a scan: those with a real output directory,
/// sorted by project and output directory, and of each output directory the
/// first. The owning project sorts first as a path prefix, so a directory
/// that projects share is its owner's.
pub fn finish(rows: Vec<ResolvedRow>) -> (out: Vec<DiscoveredEntry>)
    ensures
        is_row_list(real_entries(rows@), out@),
{
    let ghost all = rows@;
    let mut entries: Vec<DiscoveredEntry> = Vec::new();
    assert(all.take(0) =~= Seq::<ResolvedRow>::empty());
    for row in it: rows.into_iter()
        invariant
            it.seq() == all,
            entries@ == real_entries(all.take(it.index())),
    {
        proof {
            assert(all.take(it.index() + 1).drop_last() =~= all.take(it.index()));
        }
        if row.is_target_dir {
            entries.push(row.entry);
        }
    }
    assert(all.take(all.len() as int) =~= all);
    let sorted = order::stable_sort(entries);
    let ghost ordered = sorted@;
    let mut out: Vec<DiscoveredEntry> = Vec::new();
    assert(ordered.take(0) =~= Seq::<DiscoveredEntry>::empty());
    for entry in it: sorted.into_iter()
        invariant
            it.seq() == ordered,
            out@ == order::firsts(ordered.take(it.index()), target_key()),
    {
        proof {
            assert(ordered.take(it.index() + 1).drop_last() =~= ordered.take(it.index()));
            assert(target_key()(entry) == entry.target_dir.parts());
        }
        if !holds_target(&out, &entry.target_dir) {
            out.push(entry);
        }
    }
    assert(ordered.take(ordered.len() as int) =~= ordered);
    out
}

/// A path as the file system resolves it, or as given where it does not.
pub fn normalize_path(path: &FsPath, canonical: Option<FsPath>) -> (r: FsPath)
    ensures
        r@ == match canonical {
            Some(c) => c@,
            None => path@,
        },
        r@ == crate::scan::resolved(path@, canonical),
{
    crate::scan::resolve_root(path, canonical)
}

/// Worktree candidates under the scan root, minus directories that are
/// walked already. Candidates, `canonical_root` and `covered` are resolved.
pub fn select_worktrees(
    candidates: Vec<Candidate>,
    root: &FsPath,
    canonical_root: &FsPath,
    covered: &Vec<FsPath>,
) -> (out: Vec<FsPath>)
    ensures
        is_sorted_set(
            selected_paths(
                candidates@,
                root.parts(),
                canonical_root.parts(),
                path::path_parts(covered@),
            ),
            out@,
        ),
{
    let ghost all = candidates@;
    let ghost (r, c, done) = (root.parts(), canonical_root.parts(), path::path_parts(covered@));
    let mut extras: Vec<FsPath> = Vec::new();
    assert(all.take(0) =~= Seq::<Candidate>::empty());
    for candidate in it: candidates.into_iter()
        invariant
            it.seq() == all,
            r == root.parts() && c == canonical_root.parts() && done == path::path_parts(covered@),
            extras@ == selected_paths(all.take(it.index()), r, c, done),
    {
        proof {
            assert(all.take(it.index() + 1).drop_last() =~= all.take(it.index()));
        }
        let inside = candidate.path.starts_with(canonical_root) || candidate.path.starts_with(
            root,
        );
        if inside && !holds_path(covered, &candidate.path) && candidate.is_dir {
            extras.push(candidate.path);
        }
    }
    assert(all.take(all.len() as int) =~= all);
    sorted_paths(extras)
}

/// `plan` asks for the worktrees of `root` and then of the repositories, in
/// order and each once, and has covered these and `root` as it resolves.
pub open spec fn is_plan(
    root: Seq<u8>,
    canonical: Option<FsPath>,
    repos: Seq<FsPath>,
    plan: WorktreePlan,
) -> bool {
    exists|sorted: Seq<FsPath>|
        #![trigger path::path_bytes(sorted)]
        is_sorted_set(repos, sorted) && path::path_bytes(plan.queries@) == seq![root]
            + path::path_bytes(sorted) && path::path_bytes(plan.covered@) == path::path_bytes(sorted)
            + seq![root] + (match canonical {
            Some(c) => seq![c@],
            None => Seq::empty(),
        })
}

/// What follows the main walk over `root`: git is asked for the worktrees of
/// `root` and of every repository met, and these need no further walk.
/// `canonical` is `root` as the file system resolves it.
pub fn discover_with(root: &FsPath, canonical: Option<FsPath>, repos: Vec<FsPath>) -> (plan:
    WorktreePlan)
    ensures
        exists|sorted: Seq<FsPath>|
            #![trigger path::path_bytes(sorted)]
            is_sorted_set(repos@, sorted) && path::path_bytes(plan.queries@) == seq![root@] + path::path_bytes(
                sorted,
            ) && path::path_bytes(plan.covered@) == path::path_bytes(sorted) + seq![root@] + (match canonical {
                Some(c) => seq![c@],
                None => Seq::empty(),
            }),
        is_plan(root@, canonical, repos@, plan),
{
    let mut covered = sorted_paths(repos);
    let ghost sorted = covered@;
    let mut queries: Vec<FsPath> = Vec::new();
    queries.push(root.clone());
    let mut i: usize = 0;
    assert(path::path_bytes(queries@) =~= seq![root@] + path::path_bytes(sorted.take(0)));
    while i < covered.len()
        invariant
            i <= covered@.len(),
            sorted == covered@,
            path::path_bytes(queries@) == seq![root@] + path::path_bytes(sorted.take(i as int)),
        decreases covered@.len() - i,
    {
        let ghost before = queries@;
        let repo = covered[i].clone();
        queries.push(repo);
        assert(path::path_bytes(queries@) =~= path::path_bytes(before).push(repo@));
        assert(path::path_bytes(sorted.take(i + 1)) =~= path::path_bytes(sorted.take(i as int)).push(
            sorted[i as int]@,
        ));
        i = i + 1;
    }
    assert(sorted.take(i as int) =~= sorted);
    covered.push(root.clone());
    assert(path::path_bytes(covered@) =~= path::path_bytes(sorted) + seq![root@]);
    match canonical {
        Some(c) => {
            covered.push(c);
            assert(path::path_bytes(covered@) =~= path::path_bytes(sorted) + seq![root@] + seq![c@]);
        },
        None => {
            assert(path::path_bytes(covered@) =~= path::path_bytes(sorted) + seq![root@] + Seq::empty());
        },
    }
    WorktreePlan { queries, covered }
}

/// The candidates that lie in the scan root without being it, in order.
pub open spec fn inner_paths(
    candidates: Seq<Candidate>,
    root: Seq<Part>,
    canonical_root: Seq<Part>,
) -> Seq<FsPath> {
    selected_paths(candidates, root, canonical_root, seq![root, canonical_root])
}

/// The extra roots to walk besides `root`, where the caller names them: those
/// that are directories in it.
pub fn discover_with_extra(
    root: &FsPath,
    canonical_root: &FsPath,
    extra_roots: Vec<Candidate>,
) -> (out: Vec<FsPath>)
    ensures
        is_sorted_set(inner_paths(extra_roots@, root.parts(), canonical_root.parts()), out@),
{
    let mut covered: Vec<FsPath> = Vec::new();
    covered.push(root.clone());
    covered.push(canonical_root.clone());
    assert(path::path_parts(covered@) =~= seq![root.parts(), canonical_root.parts()]);
    select_worktrees(extra_roots, root, canonical_root, &covered)
}

/// A `--porcelain` path without its quotes. Anything else passes through
/// untouched.
pub fn unquote_worktree_path(raw: &str) -> (r: String)
    ensures
        r@ == unquoted(raw@),
{
    let chars = text::chars_of(raw);
    if chars.len() >= 2 && chars[0] == '"' && chars[chars.len() - 1] == '"' {
        let inner = slice_subrange(chars.as_slice(), 1, chars.len() - 1);
        let once = text::replace_pairs(inner, '\\', '"', '"');
        let twice = text::replace_pairs(once.as_slice(), '\\', '\\', '\\');
        text::string_of(twice.as_slice())
    } else {
        raw.to_owned()
    }
}

/// The paths that a run of `git worktree list --porcelain -z` printed.
pub open spec fn printed_paths(outcome: CommandOutcome) -> Seq<Seq<u8>> {
    match outcome {
        CommandOutcome::Exited { success: true, stdout, stderr } => worktree_fields(
            text::split_on(stdout@, 0u8),
        ),
        _ => Seq::empty(),
    }
}

/// Each path as the file system resolves it, where it does.
pub open spec fn resolved_paths(
    paths: Seq<Seq<u8>>,
    canonical: Seq<Option<FsPath>>,
) -> Seq<Seq<u8>> {
    Seq::new(
        paths.len(),
        |i: int|
            if i < canonical.len() && canonical[i] is Some {
                canonical[i]->0@
            } else {
                paths[i]
            },
    )
}

pub open spec fn components_key() -> spec_fn(Seq<u8>) -> Seq<Part> {
    |bytes: Seq<u8>| path::components_of(bytes)
}

/// The paths that `git worktree list --porcelain -z` printed for one
/// repository, as they stand. Best effort: any failure yields none.
pub fn printed_worktrees(outcome: &CommandOutcome) -> (out: Vec<FsPath>)
    ensures
        path::path_bytes(out@) == printed_paths(*outcome),
{
    let mut out: Vec<FsPath> = Vec::new();
    match outcome {
        CommandOutcome::NotRun(_) => {
            assert(path::path_bytes(out@) =~= Seq::<Seq<u8>>::empty());
            out
        },
        CommandOutcome::Exited { success, stdout, stderr: _ } => {
            if !*success {
                assert(path::path_bytes(out@) =~= Seq::<Seq<u8>>::empty());
                return out;
            }
            let fields = text::split(stdout.as_slice(), 0);
            let ghost all = text::split_on(stdout@, 0u8);
            let mut i: usize = 0;
            assert(path::path_bytes(out@) =~= worktree_fields(all.take(0)));
            while i < fields.len()
                invariant
                    i <= fields@.len(),
                    all == text::slice_texts(fields@),
                    path::path_bytes(out@) == worktree_fields(all.take(i as int)),
                decreases fields@.len() - i,
            {
                let ghost before = out@;
                assert(all.take(i + 1).drop_last() =~= all.take(i as int));
                assert(all[i as int] == fields@[i as int]@);
                match worktree_path(fields[i]) {
                    Some(p) => {
                        out.push(p);
                        assert(path::path_bytes(out@) =~= path::path_bytes(before).push(p@));
                    },
                    None => {},
                }
                i = i + 1;
            }
            assert(all.take(i as int) =~= all);
            out
        },
    }
}

/// The worktrees of one repository, resolved, each once, in the order in which
/// git printed them. `canonical` says of each printed path what it resolves to.
pub fn worktree_list(outcome: &CommandOutcome, canonical: &Vec<Option<FsPath>>) -> (out: Vec<
    FsPath,
>)
    ensures
        path::path_bytes(out@) == order::firsts(
            resolved_paths(printed_paths(*outcome), canonical@),
            components_key(),
        ),
{
    let printed = printed_worktrees(outcome);
    let ghost all = resolved_paths(printed_paths(*outcome), canonical@);
    assert(printed@.len() == path::path_bytes(printed@).len());
    let mut resolved: Vec<FsPath> = Vec::new();
    let mut i: usize = 0;
    assert(path::path_bytes(resolved@) =~= all.take(0));
    while i < printed.len()
        invariant
            i <= printed@.len() == all.len(),
            path::path_bytes(printed@) == printed_paths(*outcome),
            all == resolved_paths(printed_paths(*outcome), canonical@),
            path::path_bytes(resolved@) == all.take(i as int),
        decreases printed@.len() - i,
    {
        let ghost before = resolved@;
        let given = if i < canonical.len() {
            match &canonical[i] {
                Some(c) => Some(c.clone()),
                None => None,
            }
        } else {
            None
        };
        let p = normalize_path(&printed[i], given);
        assert(path::path_bytes(printed@)[i as int] == printed@[i as int]@);
        assert(p@ == all[i as int]);
        resolved.push(p);
        assert(path::path_bytes(resolved@) =~= path::path_bytes(before).push(p@));
        assert(all.take(i + 1) =~= all.take(i as int).push(all[i as int]));
        i = i + 1;
    }
    assert(all.take(i as int) =~= all);
    proof {
        order::lemma_firsts_of_images(
            resolved@,
            path::parts_key(),
            path::bytes_key(),
            components_key(),
        );
    }
    unique_paths(resolved)
}

fn worktree_path(field: &[u8]) -> (r: Option<FsPath>)
    ensures
        match r {
            Some(p) => worktree_field(field@) == Some(p@),
            None => worktree_field(field@) is None,
        },
{
    let line = match text::from_utf8(field) {
        Some(line) => line,
        None => {
            return None;
        },
    };
    let chars = text::chars_of(line);
    match text::strip_prefix(chars.as_slice(), "worktree ") {
        Some(raw) => {
            let unquoted_raw = unquote_worktree_path(text::string_of(raw).as_str());
            Some(FsPath::from_text(unquoted_raw.as_str()))
        },
        None => None,
    }
}

/// The phase after what was due in `phase`: a scan whose rows nobody takes
/// stops, and everything else is sent in turn.
pub open spec fn following(phase: StreamPhase, delivered: bool) -> StreamPhase {
    match phase {
        StreamPhase::Discover => if delivered {
            StreamPhase::Measure
        } else {
            StreamPhase::Stopped
        },
        StreamPhase::Measure => StreamPhase::Finish,
        StreamPhase::Finish => StreamPhase::Stopped,
        StreamPhase::Stopped => StreamPhase::Stopped,
    }
}

/// A message that a scan is to send.
#[derive(Debug)]
pub enum Message {
    /// The rows found.
    Rows,
    /// The measurement of this output directory.
    Measurement(FsPath),
    /// The end.
    End,
}

/// What a message stands for.
pub enum MessageKind {
    Rows,
    Measurement(Seq<u8>),
    End,
}

impl View for Message {
    type V = MessageKind;

    open spec fn view(&self) -> MessageKind {
        match self {
            Message::Rows => MessageKind::Rows,
            Message::Measurement(dir) => MessageKind::Measurement(dir@),
            Message::End => MessageKind::End,
        }
    }
}

pub open spec fn message_kinds(messages: Seq<Message>) -> Seq<MessageKind> {
    messages.map_values(|m: Message| m@)
}

/// One measurement for each row.
pub open spec fn row_measurements(rows: Seq<DiscoveredEntry>) -> Seq<MessageKind> {
    rows.map_values(|row: DiscoveredEntry| MessageKind::Measurement(row.target_dir@))
}

/// The messages of a phase.
pub open spec fn due(phase: StreamPhase, rows: Seq<DiscoveredEntry>) -> Seq<MessageKind> {
    match phase {
        StreamPhase::Discover => seq![MessageKind::Rows],
        StreamPhase::Measure => row_measurements(rows),
        StreamPhase::Finish => seq![MessageKind::End],
        StreamPhase::Stopped => Seq::empty(),
    }
}

/// The messages that a scan with these rows is to send in `phase`. Those of
/// one phase can be sent in any order.
pub fn messages_due(phase: StreamPhase, rows: &Vec<DiscoveredEntry>) -> (out: Vec<Message>)
    ensures
        message_kinds(out@) == due(phase, rows@),
{
    let mut out: Vec<Message> = Vec::new();
    match phase {
        StreamPhase::Discover => {
            out.push(Message::Rows);
        },
        StreamPhase::Measure => {
            let ghost all = row_measurements(rows@);
            let mut i: usize = 0;
            assert(message_kinds(out@) =~= all.take(0));
            while i < rows.len()
                invariant
                    i <= rows@.len(),
                    all == row_measurements(rows@),
                    message_kinds(out@) == all.take(i as int),
                decreases rows@.len() - i,
            {
                let ghost before = out@;
                let message = Message::Measurement(rows[i].target_dir.clone());
                out.push(message);
                assert(message_kinds(out@) =~= message_kinds(before).push(message@));
                assert(all.take(i + 1) =~= all.take(i as int).push(all[i as int]));
                i = i + 1;
            }
            assert(all.take(i as int) =~= all);
        },
        StreamPhase::Finish => {
            out.push(Message::End);
        },
        StreamPhase::Stopped => {},
    }
    assert(message_kinds(out@) =~= due(phase, rows@));
    out
}

/// One step of a scan that sends its progress: what is due after `phase`,
/// where `delivered` says whether the message of that phase was taken.
pub fn scan_stream(phase: StreamPhase, delivered: bool) -> (r: StreamPhase)
    ensures
        r == following(phase, delivered),
{
    match phase {
        StreamPhase::Discover => if delivered {
            StreamPhase::Measure
        } else {
            StreamPhase::Stopped
        },
        StreamPhase::Measure => StreamPhase::Finish,
        StreamPhase::Finish => StreamPhase::Stopped,
        StreamPhase::Stopped => StreamPhase::Stopped,
    }
}

/// The phases that a scan goes through, where `delivered` tells of each
/// whether its message was taken.
pub open spec fn phase_after(delivered: Seq<bool>) -> StreamPhase
    decreases delivered.len(),
{
    if delivered.len() == 0 {
        StreamPhase::Discover
    } else {
        following(phase_after(delivered.drop_last()), delivered.last())
    }
}

/// The rows are sent before any measurement, the end is sent last and once,
/// and nothing is sent behind rows that nobody took.
pub proof fn law_rows_come_before_measurements(delivered: Seq<bool>)
    ensures
        phase_after(delivered) == StreamPhase::Discover <==> delivered.len() == 0,
        phase_after(delivered) == StreamPhase::Measure <==> delivered.len() == 1 && delivered[0],
        phase_after(delivered) == StreamPhase::Finish <==> delivered.len() == 2 && delivered[0],
        phase_after(delivered) == StreamPhase::Stopped <==> delivered.len() >= 3 || (
        delivered.len() >= 1 && !delivered[0]),
    decreases delivered.len(),
{
    if delivered.len() > 0 {
        law_rows_come_before_measurements(delivered.drop_last());
    }
}

/// The messages of a whole scan, where `delivered` tells of each phase whether
/// its messages were taken.
pub open spec fn sent(rows: Seq<DiscoveredEntry>, delivered: Seq<bool>) -> Seq<MessageKind>
    decreases delivered.len(),
{
    if delivered.len() == 0 {
        Seq::empty()
    } else {
        sent(rows, delivered.drop_last()) + due(phase_after(delivered.drop_last()), rows)
    }
}

/// A scan whose rows are taken sends the rows, then one measurement for each
/// row, then the end, and nothing else; one whose rows nobody takes measures
/// nothing.
pub proof fn law_each_row_is_measured_once(rows: Seq<DiscoveredEntry>, delivered: Seq<bool>)
    requires
        delivered.len() >= 3,
    ensures
        delivered[0] ==> sent(rows, delivered) == seq![MessageKind::Rows] + row_measurements(rows)
            + seq![MessageKind::End],
        delivered[0] ==> sent(rows, delivered).len() == rows.len() + 2,
        !delivered[0] ==> sent(rows, delivered) == seq![MessageKind::Rows],
    decreases delivered.len(),
{
    let front = delivered.drop_last();
    law_rows_come_before_measurements(front);
    if delivered.len() > 3 {
        law_each_row_is_measured_once(rows, front);
        assert(sent(rows, delivered) =~= sent(rows, front));
    } else {
        let (two, one) = (front.drop_last(), front.drop_last().drop_last());
        law_rows_come_before_measurements(front.drop_last());
        law_rows_come_before_measurements(one);
        assert(one.len() == 0 && two.len() == 1 && two[0] == delivered[0]);
        assert(sent(rows, one) =~= Seq::<MessageKind>::empty());
        assert(two.drop_last() =~= one);
        assert(sent(rows, two) =~= seq![MessageKind::Rows]);
        if delivered[0] {
            assert(sent(rows, front) =~= seq![MessageKind::Rows] + row_measurements(rows));
            assert(sent(rows, delivered) =~= seq![MessageKind::Rows] + row_measurements(rows) + seq![
                MessageKind::End,
            ]);
        } else {
            assert(sent(rows, front) =~= seq![MessageKind::Rows]);
            assert(sent(rows, delivered) =~= seq![MessageKind::Rows]);
        }
    }
}

/// A decision that needs no further look is the one that holds whatever a
/// look would tell, and only what is not known is looked up.
pub proof fn law_decision_is_final(
    entry: WalkEntry,
    customs: Set<Seq<Part>>,
    known: Option<bool>,
    known_parent: Option<bool>,
    has_manifest: bool,
    parent_has_manifest: bool,
)
    requires
        known matches Some(k) ==> k == has_manifest,
        known_parent matches Some(k) ==> k == parent_has_manifest,
    ensures
        match keep_decision(entry, customs, known, known_parent) {
            KeepDecision::Keep => is_kept(entry, customs, has_manifest, parent_has_manifest),
            KeepDecision::Skip => !is_kept(entry, customs, has_manifest, parent_has_manifest),
            KeepDecision::ProbeManifest => known is None,
            KeepDecision::ProbeParentManifest => known_parent is None,
        },
        known is Some && known_parent is Some ==> (keep_decision(
            entry,
            customs,
            known,
            known_parent,
        ) == KeepDecision::Keep <==> is_kept(entry, customs, has_manifest, parent_has_manifest)),
{
    let lit = "target"@;
    if name_is(entry.name@, lit) {
        lemma_names_differ();
    }
}

proof fn lemma_names_differ()
    ensures
        encode_utf8("target"@) != encode_utf8(".git"@),
        encode_utf8("target"@) != encode_utf8(".cargo"@),
{
    reveal_strlit("target");
    reveal_strlit(".git");
    reveal_strlit(".cargo");
    encode_utf8_decode_utf8("target"@);
    encode_utf8_decode_utf8(".git"@);
    encode_utf8_decode_utf8(".cargo"@);
    assert("target"@[0] == 't' && ".git"@[0] == '.' && ".cargo"@[0] == '.');
}

/// Below a custom output directory is below it and not it itself, as paths
/// compare. The empty path has nothing rooted below it.
pub proof fn law_below_is_proper_prefix(custom: Seq<Part>, path: Seq<Part>)
    requires
        custom.len() > 0 || (path.len() > 0 ==> path[0] != Part::RootDir),
    ensures
        is_above(custom, path) == (path != custom && path::is_prefix(path, custom)),
{
    if path::is_prefix(path, custom) && custom.len() == path.len() {
        assert(path.take(custom.len() as int) =~= path);
    }
}

/// One row comes out for each output directory, none is lost, and each row is
/// one that was resolved.
pub proof fn law_one_row_per_output_dir(
    entries: Seq<DiscoveredEntry>,
    rows: Seq<DiscoveredEntry>,
)
    requires
        is_row_list(entries, rows),
    ensures
        forall|i: int, j: int|
            0 <= i < j < rows.len() ==> (#[trigger] rows[i]).target_dir.parts() != (
            #[trigger] rows[j]).target_dir.parts(),
        forall|e: DiscoveredEntry| #[trigger]
            entries.contains(e) ==> exists|i: int|
                0 <= i < rows.len() && (#[trigger] rows[i]).target_dir.parts()
                    == e.target_dir.parts(),
        forall|i: int| 0 <= i < rows.len() ==> entries.contains(#[trigger] rows[i]),
{
    let le = order::rank_order::<DiscoveredEntry>();
    let sorted = choose|sorted: Seq<DiscoveredEntry>|
        #![trigger order::firsts(sorted, target_key())]
        order::is_stable_sort(entries, sorted, le) && rows == order::firsts(sorted, target_key());
    order::law_firsts_keep_each_key_once(sorted, target_key());
    order::law_sort_is_in_order(entries, sorted, le);
    order::lemma_firsts_in_order(sorted, target_key(), le);
    assert forall|i: int, j: int| 0 <= i < j < rows.len() implies (
    #[trigger] rows[i]).target_dir.parts() != (#[trigger] rows[j]).target_dir.parts() by {
        assert(target_key()(rows[i]) != target_key()(rows[j]));
    }
    assert forall|e: DiscoveredEntry| #[trigger] entries.contains(e) implies exists|i: int|
        0 <= i < rows.len() && (#[trigger] rows[i]).target_dir.parts() == e.target_dir.parts() by {
        order::law_sort_keeps_elements(entries, sorted, le, e);
        let j = choose|j: int| 0 <= j < sorted.len() && sorted[j] == e;
        assert(target_key()(sorted[j]) == e.target_dir.parts());
        assert(order::has_key(sorted, target_key(), e.target_dir.parts()));
        assert(order::has_key(rows, target_key(), e.target_dir.parts()));
        let i = choose|i: int|
            0 <= i < rows.len() && target_key()(#[trigger] rows[i]) == e.target_dir.parts();
        assert(rows[i].target_dir.parts() == e.target_dir.parts());
    }
    assert forall|i: int| 0 <= i < rows.len() implies entries.contains(#[trigger] rows[i]) by {
        assert(sorted.contains(rows[i]));
        order::law_sort_keeps_elements(entries, sorted, le, rows[i]);
    }
}

/// The rows come out sorted by project and output directory.
pub proof fn law_rows_are_sorted(entries: Seq<DiscoveredEntry>, rows: Seq<DiscoveredEntry>)
    requires
        is_row_list(entries, rows),
    ensures
        forall|i: int, j: int|
            0 <= i < j < rows.len() ==> (#[trigger] rows[i]).ranked_le(#[trigger] &rows[j]),
{
    let le = order::rank_order::<DiscoveredEntry>();
    let sorted = choose|sorted: Seq<DiscoveredEntry>|
        #![trigger order::firsts(sorted, target_key())]
        order::is_stable_sort(entries, sorted, le) && rows == order::firsts(sorted, target_key());
    order::law_sort_is_in_order(entries, sorted, le);
    order::lemma_firsts_in_order(sorted, target_key(), le);
    assert forall|i: int, j: int| 0 <= i < j < rows.len() implies (#[trigger] rows[i]).ranked_le(
        #[trigger] &rows[j],
    ) by {
        assert(le(rows[i], rows[j]));
    }
}

/// Of the projects that share an output directory, the row names the one that
/// comes first.
pub proof fn law_first_project_keeps_shared_dir(
    entries: Seq<DiscoveredEntry>,
    rows: Seq<DiscoveredEntry>,
    i: int,
    e: DiscoveredEntry,
)
    requires
        is_row_list(entries, rows),
        0 <= i < rows.len(),
        entries.contains(e),
        e.target_dir.parts() == rows[i].target_dir.parts(),
    ensures
        path::path_le(rows[i].project_path.parts(), e.project_path.parts()),
{
    let le = order::rank_order::<DiscoveredEntry>();
    let sorted = choose|sorted: Seq<DiscoveredEntry>|
        #![trigger order::firsts(sorted, target_key())]
        order::is_stable_sort(entries, sorted, le) && rows == order::firsts(sorted, target_key());
    order::law_sort_is_in_order(entries, sorted, le);
    order::law_sort_keeps_elements(entries, sorted, le, e);
    order::law_firsts_come_first(sorted, target_key(), i);
    let j = choose|j: int|
        0 <= j < sorted.len() && rows[i] == #[trigger] sorted[j] && !order::has_key(
            sorted.take(j),
            target_key(),
            target_key()(sorted[j]),
        );
    let k = choose|k: int| 0 <= k < sorted.len() && sorted[k] == e;
    path::lemma_path_total(rows[i].project_path.parts(), e.project_path.parts());
    if k < j {
        assert(sorted.take(j)[k] == e);
        assert(target_key()(sorted.take(j)[k]) == target_key()(sorted[j]));
    } else if k > j {
        assert(le(sorted[j], sorted[k]));
    }
}

/// A shared output directory is the row of the project that holds all the
/// others that share it.
pub proof fn law_owner_keeps_shared_dir(
    entries: Seq<DiscoveredEntry>,
    rows: Seq<DiscoveredEntry>,
    i: int,
    owner: DiscoveredEntry,
)
    requires
        is_row_list(entries, rows),
        0 <= i < rows.len(),
        entries.contains(owner),
        owner.target_dir.parts() == rows[i].target_dir.parts(),
        forall|e: DiscoveredEntry| #[trigger]
            entries.contains(e) && e.target_dir.parts() == owner.target_dir.parts()
                ==> path::is_prefix(e.project_path.parts(), owner.project_path.parts()),
    ensures
        rows[i].project_path.parts() == owner.project_path.parts(),
{
    law_first_project_keeps_shared_dir(entries, rows, i, owner);
    law_one_row_per_output_dir(entries, rows);
    assert(entries.contains(rows[i]));
    let (a, b) = (owner.project_path.parts(), rows[i].project_path.parts());
    order::lemma_lex_prefix(a, b, path::part_order());
    path::lemma_path_total(a, b);
}

/// What a row shows: its project and its output directory.
pub open spec fn row_pair() -> spec_fn(DiscoveredEntry) -> (Seq<Part>, Seq<Part>) {
    |e: DiscoveredEntry| (e.project_path.parts(), e.target_dir.parts())
}

pub open spec fn pair_order() -> spec_fn((Seq<Part>, Seq<Part>), (Seq<Part>, Seq<Part>)) -> bool {
    |a: (Seq<Part>, Seq<Part>), b: (Seq<Part>, Seq<Part>)|
        if a.0 == b.0 {
            path::path_le(a.1, b.1)
        } else {
            path::path_le(a.0, b.0)
        }
}

/// No project with the output directory of `pair` comes before its project.
pub open spec fn is_first_project(
    entries: Seq<DiscoveredEntry>,
    pair: (Seq<Part>, Seq<Part>),
) -> bool {
    forall|e: DiscoveredEntry| #[trigger]
        entries.contains(e) && e.target_dir.parts() == pair.1 ==> path::path_le(
            pair.0,
            e.project_path.parts(),
        )
}

/// The pair of a row is one that was resolved, of the first project with that
/// output directory, and every such pair is a row's.
proof fn lemma_row_pairs(
    entries: Seq<DiscoveredEntry>,
    rows: Seq<DiscoveredEntry>,
    pair: (Seq<Part>, Seq<Part>),
)
    requires
        is_row_list(entries, rows),
    ensures
        rows.map_values(row_pair()).contains(pair) <==> order::has_key(entries, row_pair(), pair)
            && is_first_project(entries, pair),
{
    law_one_row_per_output_dir(entries, rows);
    let pairs = rows.map_values(row_pair());
    if pairs.contains(pair) {
        let i = choose|i: int| 0 <= i < pairs.len() && pairs[i] == pair;
        assert(entries.contains(rows[i]));
        let k = choose|k: int| 0 <= k < entries.len() && entries[k] == rows[i];
        assert(row_pair()(entries[k]) == pair);
        assert forall|e: DiscoveredEntry| #[trigger]
            entries.contains(e) && e.target_dir.parts() == pair.1 implies path::path_le(
            pair.0,
            e.project_path.parts(),
        ) by {
            law_first_project_keeps_shared_dir(entries, rows, i, e);
        }
    }
    if order::has_key(entries, row_pair(), pair) && is_first_project(entries, pair) {
        let k = choose|k: int|
            0 <= k < entries.len() && row_pair()(#[trigger] entries[k]) == pair;
        assert(entries.contains(entries[k]));
        let i = choose|i: int|
            0 <= i < rows.len() && (#[trigger] rows[i]).target_dir.parts()
                == entries[k].target_dir.parts();
        law_first_project_keeps_shared_dir(entries, rows, i, entries[k]);
        assert(entries.contains(rows[i]));
        path::lemma_path_total(pair.0, rows[i].project_path.parts());
        assert(pairs[i] == pair);
    }
}

/// Rows show the same projects and output directories in the same order, where
/// the entries that they were made from show the same.
proof fn lemma_same_pairs(
    a: Seq<DiscoveredEntry>,
    b: Seq<DiscoveredEntry>,
    rows_a: Seq<DiscoveredEntry>,
    rows_b: Seq<DiscoveredEntry>,
)
    requires
        is_row_list(a, rows_a),
        is_row_list(b, rows_b),
        forall|pair: (Seq<Part>, Seq<Part>)| #[trigger]
            order::has_key(a, row_pair(), pair) == order::has_key(b, row_pair(), pair),
    ensures
        rows_a.map_values(row_pair()) == rows_b.map_values(row_pair()),
{
    let (x, y) = (rows_a.map_values(row_pair()), rows_b.map_values(row_pair()));
    let le = pair_order();
    lemma_pairs_in_order(a, rows_a);
    lemma_pairs_in_order(b, rows_b);
    lemma_pair_order_is_strict();
    assert forall|pair: (Seq<Part>, Seq<Part>)| #[trigger] x.contains(pair) == y.contains(pair) by {
        lemma_row_pairs(a, rows_a, pair);
        lemma_row_pairs(b, rows_b, pair);
        assert(order::has_key(a, row_pair(), pair) == order::has_key(b, row_pair(), pair));
        if is_first_project(a, pair) {
            lemma_first_project(a, b, pair);
        }
        if is_first_project(b, pair) {
            lemma_first_project(b, a, pair);
        }
    }
    order::lemma_strict_order_determines(x, y, le);
}

proof fn lemma_pair_order_is_strict()
    ensures
        forall|p: (Seq<Part>, Seq<Part>), q: (Seq<Part>, Seq<Part>)| #[trigger]
            pair_order()(p, q) && pair_order()(q, p) ==> p == q,
{
    assert forall|p: (Seq<Part>, Seq<Part>), q: (Seq<Part>, Seq<Part>)| #[trigger]
        pair_order()(p, q) && pair_order()(q, p) implies p == q by {
        path::lemma_path_total(p.0, q.0);
        path::lemma_path_total(p.1, q.1);
    }
}

/// Everything that a row holds.
pub open spec fn row_image() -> spec_fn(DiscoveredEntry) -> (
    (Seq<Part>, Seq<Part>),
    OutputKind,
    bool,
) {
    |e: DiscoveredEntry| (row_pair()(e), e.kind, e.shared)
}

/// Entries with the same project and output directory agree on the rest.
pub open spec fn pairs_agree(entries: Seq<DiscoveredEntry>) -> bool {
    forall|i: int, j: int|
        0 <= i < entries.len() && 0 <= j < entries.len() && row_pair()(#[trigger] entries[i])
            == row_pair()(#[trigger] entries[j]) ==> row_image()(entries[i]) == row_image()(
            entries[j],
        )
}

/// The same rows come out in the same order, in whatever order a parallel walk
/// met the manifests and however often.
pub proof fn law_walk_order_does_not_matter(
    a: Seq<DiscoveredEntry>,
    b: Seq<DiscoveredEntry>,
    rows_a: Seq<DiscoveredEntry>,
    rows_b: Seq<DiscoveredEntry>,
)
    requires
        is_row_list(a, rows_a),
        is_row_list(b, rows_b),
        pairs_agree(a),
        forall|image: ((Seq<Part>, Seq<Part>), OutputKind, bool)| #[trigger]
            order::has_key(a, row_image(), image) == order::has_key(b, row_image(), image),
    ensures
        rows_a.map_values(row_image()) == rows_b.map_values(row_image()),
{
    assert forall|pair: (Seq<Part>, Seq<Part>)| #[trigger]
        order::has_key(a, row_pair(), pair) == order::has_key(b, row_pair(), pair) by {
        if order::has_key(a, row_pair(), pair) {
            lemma_pair_from_image(a, b, pair);
        }
        if order::has_key(b, row_pair(), pair) {
            lemma_pair_from_image(b, a, pair);
        }
    }
    lemma_same_pairs(a, b, rows_a, rows_b);
    let (x, y) = (rows_a.map_values(row_pair()), rows_b.map_values(row_pair()));
    law_one_row_per_output_dir(a, rows_a);
    law_one_row_per_output_dir(b, rows_b);
    assert(x.len() == y.len());
    assert forall|i: int| 0 <= i < rows_a.len() implies row_image()(rows_a[i]) == row_image()(
        rows_b[i],
    ) by {
        assert(x[i] == y[i]);
        assert(a.contains(rows_a[i]) && b.contains(rows_b[i]));
        lemma_image_decided(a, b, rows_a[i], rows_b[i]);
    }
    assert(rows_a.map_values(row_image()) =~= rows_b.map_values(row_image()));
}

proof fn lemma_pair_from_image(
    a: Seq<DiscoveredEntry>,
    b: Seq<DiscoveredEntry>,
    pair: (Seq<Part>, Seq<Part>),
)
    requires
        forall|image: ((Seq<Part>, Seq<Part>), OutputKind, bool)| #[trigger]
            order::has_key(a, row_image(), image) == order::has_key(b, row_image(), image),
        order::has_key(a, row_pair(), pair),
    ensures
        order::has_key(b, row_pair(), pair),
{
    let i = choose|i: int| 0 <= i < a.len() && row_pair()(#[trigger] a[i]) == pair;
    let image = row_image()(a[i]);
    assert(order::has_key(a, row_image(), image));
    assert(order::has_key(b, row_image(), image));
    let j = choose|j: int| 0 <= j < b.len() && row_image()(#[trigger] b[j]) == image;
    assert(row_pair()(b[j]) == pair);
}

proof fn lemma_image_decided(
    a: Seq<DiscoveredEntry>,
    b: Seq<DiscoveredEntry>,
    x: DiscoveredEntry,
    y: DiscoveredEntry,
)
    requires
        pairs_agree(a),
        forall|image: ((Seq<Part>, Seq<Part>), OutputKind, bool)| #[trigger]
            order::has_key(a, row_image(), image) == order::has_key(b, row_image(), image),
        a.contains(x),
        b.contains(y),
        row_pair()(x) == row_pair()(y),
    ensures
        row_image()(x) == row_image()(y),
{
    let k = choose|k: int| 0 <= k < b.len() && b[k] == y;
    assert(row_image()(b[k]) == row_image()(y));
    assert(order::has_key(b, row_image(), row_image()(y)));
    assert(order::has_key(a, row_image(), row_image()(y)));
    let m = choose|m: int| 0 <= m < a.len() && row_image()(#[trigger] a[m]) == row_image()(y);
    let n = choose|n: int| 0 <= n < a.len() && a[n] == x;
    assert(row_pair()(a[m]) == row_pair()(a[n]));
}

/// Two rows with different output directories are in the order of their pairs,
/// and their pairs differ.
proof fn lemma_pair_in_order(a: DiscoveredEntry, b: DiscoveredEntry)
    requires
        a.ranked_le(&b),
        a.target_dir.parts() != b.target_dir.parts(),
    ensures
        pair_order()(row_pair()(a), row_pair()(b)),
        row_pair()(a) != row_pair()(b),
{
}

proof fn lemma_pairs_in_order(entries: Seq<DiscoveredEntry>, rows: Seq<DiscoveredEntry>)
    requires
        is_row_list(entries, rows),
    ensures
        forall|i: int, j: int|
            0 <= i < j < rows.len() ==> pair_order()(
                #[trigger] rows.map_values(row_pair())[i],
                #[trigger] rows.map_values(row_pair())[j],
            ) && rows.map_values(row_pair())[i] != rows.map_values(row_pair())[j],
{
    let x = rows.map_values(row_pair());
    assert forall|i: int, j: int| 0 <= i < j < rows.len() implies pair_order()(
        #[trigger] x[i],
        #[trigger] x[j],
    ) && x[i] != x[j] by {
        lemma_two_rows(entries, rows, i, j);
        lemma_pair_in_order(rows[i], rows[j]);
        assert(x[i] == row_pair()(rows[i]) && x[j] == row_pair()(rows[j]));
    }
}

proof fn lemma_two_rows(entries: Seq<DiscoveredEntry>, rows: Seq<DiscoveredEntry>, i: int, j: int)
    requires
        is_row_list(entries, rows),
        0 <= i < j < rows.len(),
    ensures
        rows[i].ranked_le(&rows[j]),
        rows[i].target_dir.parts() != rows[j].target_dir.parts(),
{
    law_rows_are_sorted(entries, rows);
    law_one_row_per_output_dir(entries, rows);
}

proof fn lemma_first_project(
    a: Seq<DiscoveredEntry>,
    b: Seq<DiscoveredEntry>,
    pair: (Seq<Part>, Seq<Part>),
)
    requires
        forall|p: (Seq<Part>, Seq<Part>)| #[trigger]
            order::has_key(a, row_pair(), p) == order::has_key(b, row_pair(), p),
        is_first_project(a, pair),
    ensures
        is_first_project(b, pair),
{
    assert forall|e: DiscoveredEntry| #[trigger]
        b.contains(e) && e.target_dir.parts() == pair.1 implies path::path_le(
        pair.0,
        e.project_path.parts(),
    ) by {
        let k = choose|k: int| 0 <= k < b.len() && b[k] == e;
        assert(row_pair()(b[k]) == row_pair()(e));
        assert(order::has_key(b, row_pair(), row_pair()(e)));
        assert(order::has_key(a, row_pair(), row_pair()(e)));
        let m = choose|m: int|
            0 <= m < a.len() && row_pair()(#[trigger] a[m]) == row_pair()(e);
        assert(a.contains(a[m]));
    }
}

/// A sorted set of paths is in strict path order and has the members of what
/// it was made from.
pub proof fn law_sorted_set(paths: Seq<FsPath>, out: Seq<FsPath>)
    requires
        is_sorted_set(paths, out),
    ensures
        forall|i: int, j: int|
            0 <= i < j < out.len() ==> path::path_le(
                (#[trigger] out[i]).parts(),
                (#[trigger] out[j]).parts(),
            ) && out[i].parts() != out[j].parts(),
        forall|i: int| 0 <= i < out.len() ==> paths.contains(#[trigger] out[i]),
        forall|p: FsPath| #[trigger]
            paths.contains(p) ==> order::has_key(out, path::parts_key(), p.parts()),
{
    let le = order::rank_order::<FsPath>();
    let sorted = choose|sorted: Seq<FsPath>|
        #![trigger order::firsts(sorted, path::parts_key())]
        order::is_stable_sort(paths, sorted, le) && out == order::firsts(sorted, path::parts_key());
    order::law_firsts_keep_each_key_once(sorted, path::parts_key());
    order::law_sort_is_in_order(paths, sorted, le);
    order::lemma_firsts_in_order(sorted, path::parts_key(), le);
    assert forall|i: int, j: int| 0 <= i < j < out.len() implies path::path_le(
        (#[trigger] out[i]).parts(),
        (#[trigger] out[j]).parts(),
    ) && out[i].parts() != out[j].parts() by {
        assert(le(out[i], out[j]));
        assert(path::parts_key()(out[i]) != path::parts_key()(out[j]));
    }
    assert forall|i: int| 0 <= i < out.len() implies paths.contains(#[trigger] out[i]) by {
        assert(sorted.contains(out[i]));
        order::law_sort_keeps_elements(paths, sorted, le, out[i]);
    }
    assert forall|p: FsPath| #[trigger] paths.contains(p) implies order::has_key(
        out,
        path::parts_key(),
        p.parts(),
    ) by {
        order::law_sort_keeps_elements(paths, sorted, le, p);
        let j = choose|j: int| 0 <= j < sorted.len() && sorted[j] == p;
        assert(path::parts_key()(sorted[j]) == p.parts());
        assert(order::has_key(sorted, path::parts_key(), p.parts()));
    }
}

proof fn lemma_selected(
    candidates: Seq<Candidate>,
    root: Seq<Part>,
    canonical_root: Seq<Part>,
    covered: Seq<Seq<Part>>,
    p: FsPath,
)
    ensures
        selected_paths(candidates, root, canonical_root, covered).contains(p) <==> exists|i: int|
            0 <= i < candidates.len() && (#[trigger] candidates[i]).path == p && is_selected(
                candidates[i],
                root,
                canonical_root,
                covered,
            ),
    decreases candidates.len(),
{
    let all = selected_paths(candidates, root, canonical_root, covered);
    if candidates.len() > 0 {
        let front = candidates.drop_last();
        let before = selected_paths(front, root, canonical_root, covered);
        lemma_selected(front, root, canonical_root, covered, p);
        let last = candidates.last();
        if all.contains(p) {
            let k = choose|k: int| 0 <= k < all.len() && all[k] == p;
            if k < before.len() {
                assert(before[k] == p);
                let i = choose|i: int|
                    0 <= i < front.len() && (#[trigger] front[i]).path == p && is_selected(
                        front[i],
                        root,
                        canonical_root,
                        covered,
                    );
                assert(candidates[i] == front[i]);
            } else {
                assert(candidates[candidates.len() - 1] == last);
            }
        }
        if exists|i: int|
            0 <= i < candidates.len() && (#[trigger] candidates[i]).path == p && is_selected(
                candidates[i],
                root,
                canonical_root,
                covered,
            ) {
            let i = choose|i: int|
                0 <= i < candidates.len() && (#[trigger] candidates[i]).path == p && is_selected(
                    candidates[i],
                    root,
                    canonical_root,
                    covered,
                );
            if i < front.len() {
                assert(front[i] == candidates[i]);
                let k = choose|k: int| 0 <= k < before.len() && before[k] == p;
                assert(all[k] == p);
            } else {
                assert(all[all.len() - 1] == p);
            }
        }
    }
}

/// What git reports outside the scan root stays out of scope, what is walked
/// already is not walked again, and every other directory it reports is
/// walked.
pub proof fn law_worktrees_in_scope(
    candidates: Seq<Candidate>,
    root: Seq<Part>,
    canonical_root: Seq<Part>,
    covered: Seq<Seq<Part>>,
    out: Seq<FsPath>,
)
    requires
        is_sorted_set(selected_paths(candidates, root, canonical_root, covered), out),
    ensures
        forall|i: int|
            0 <= i < out.len() ==> {
                let p = (#[trigger] out[i]).parts();
                (path::is_prefix(p, canonical_root) || path::is_prefix(p, root))
                    && !covered.contains(p)
            },
        forall|i: int|
            0 <= i < candidates.len() && is_selected(
                #[trigger] candidates[i],
                root,
                canonical_root,
                covered,
            ) ==> order::has_key(out, path::parts_key(), candidates[i].path.parts()),
{
    let selected = selected_paths(candidates, root, canonical_root, covered);
    law_sorted_set(selected, out);
    assert forall|i: int| 0 <= i < out.len() implies {
        let p = (#[trigger] out[i]).parts();
        (path::is_prefix(p, canonical_root) || path::is_prefix(p, root)) && !covered.contains(p)
    } by {
        assert(selected.contains(out[i]));
        lemma_selected(candidates, root, canonical_root, covered, out[i]);
    }
    assert forall|i: int|
        0 <= i < candidates.len() && is_selected(
            #[trigger] candidates[i],
            root,
            canonical_root,
            covered,
        ) implies order::has_key(out, path::parts_key(), candidates[i].path.parts()) by {
        lemma_selected(candidates, root, canonical_root, covered, candidates[i].path);
        assert(selected.contains(candidates[i].path));
    }
}

/// A path with a backslash before each quote and each backslash.
pub open spec fn escaped(s: Seq<char>) -> Seq<char>
    decreases s.len(),
{
    if s.len() == 0 {
        s
    } else if s[0] == '"' || s[0] == '\\' {
        seq!['\\', s[0]] + escaped(s.drop_first())
    } else {
        seq![s[0]] + escaped(s.drop_first())
    }
}

/// A path with each backslash doubled.
spec fn doubled(s: Seq<char>) -> Seq<char>
    decreases s.len(),
{
    if s.len() == 0 {
        s
    } else if s[0] == '\\' {
        seq!['\\', '\\'] + doubled(s.drop_first())
    } else {
        seq![s[0]] + doubled(s.drop_first())
    }
}

proof fn lemma_unescape_quotes(s: Seq<char>)
    ensures
        text::replace_pair(escaped(s), '\\', '"', '"') == doubled(s),
        escaped(s).len() > 0 ==> escaped(s)[0] != '"',
    decreases s.len(),
{
    if s.len() > 0 {
        let rest = s.drop_first();
        lemma_unescape_quotes(rest);
        let e = escaped(s);
        let tail = escaped(rest);
        if s[0] == '"' {
            assert(e.skip(2) =~= tail);
            assert(text::replace_pair(e, '\\', '"', '"') =~= doubled(s));
        } else if s[0] == '\\' {
            let once = e.skip(1);
            assert(once =~= seq!['\\'] + tail);
            assert(once.skip(1) =~= tail);
            assert(text::replace_pair(once, '\\', '"', '"') =~= seq!['\\'] + doubled(rest)) by {
                if once.len() < 2 {
                    assert(tail =~= Seq::<char>::empty());
                    assert(doubled(rest) =~= Seq::<char>::empty());
                } else {
                    assert(once[1] == tail[0]);
                }
            }
            assert(text::replace_pair(e, '\\', '"', '"') =~= doubled(s));
        } else {
            assert(e.skip(1) =~= tail);
            if e.len() < 2 {
                assert(tail =~= Seq::<char>::empty());
                assert(doubled(rest) =~= Seq::<char>::empty());
            }
            assert(text::replace_pair(e, '\\', '"', '"') =~= doubled(s));
        }
    }
}

proof fn lemma_halve_backslashes(s: Seq<char>)
    ensures
        text::replace_pair(doubled(s), '\\', '\\', '\\') == s,
    decreases s.len(),
{
    if s.len() > 0 {
        let rest = s.drop_first();
        lemma_halve_backslashes(rest);
        let d = doubled(s);
        assert(s =~= seq![s[0]] + rest);
        if s[0] == '\\' {
            assert(d.skip(2) =~= doubled(rest));
        } else {
            assert(d.skip(1) =~= doubled(rest));
            if d.len() < 2 {
                assert(doubled(rest) =~= Seq::<char>::empty());
                assert(rest =~= Seq::<char>::empty());
            }
        }
        assert(text::replace_pair(d, '\\', '\\', '\\') =~= s);
    }
}

/// Unquoting a path that was quoted, with quotes and backslashes escaped,
/// gives the path back; a path that does not both start and end with a quote,
/// and a quote alone, passes through.
pub proof fn law_unquote_undoes_quoting(path: Seq<char>)
    ensures
        unquoted(seq!['"'] + escaped(path) + seq!['"']) == path,
        path.len() < 2 || path.first() != '"' || path.last() != '"' ==> unquoted(path) == path,
{
    let q = seq!['"'] + escaped(path) + seq!['"'];
    assert(q.subrange(1, q.len() - 1) =~= escaped(path));
    lemma_unescape_quotes(path);
    lemma_halve_backslashes(path);
}

/// A visit of a real directory never ends before everything about it is known,
/// whether or not it holds a `.git`; nothing is looked up that is known, nor of
/// anything else than a real directory.
pub proof fn law_every_directory_is_looked_at(visit: Visit)
    ensures
        !visit.is_dir || visit.is_symlink ==> visit_step(visit) == VisitStep::Continue,
        visit.is_dir && !visit.is_symlink && visit.has_manifest is None ==> visit_step(visit)
            == VisitStep::ProbeGit || visit_step(visit) == VisitStep::ProbeManifest,
        visit.is_dir && !visit.is_symlink && visit.has_git is None ==> visit_step(visit)
            != VisitStep::Continue,
        visit.is_dir && !visit.is_symlink && visit.has_manifest == Some(true)
            && visit.has_default_target is None ==> visit_step(visit) != VisitStep::Continue,
        visit.is_dir && !visit.is_symlink && visit.has_manifest == Some(true)
            && visit.has_default_target == Some(false) && visit.resolved is None ==> visit_step(
            visit,
        ) != VisitStep::Continue,
        visit_step(visit) == VisitStep::ProbeGit ==> visit.has_git is None,
        visit_step(visit) == VisitStep::ProbeManifest ==> visit.has_manifest is None,
        visit_step(visit) == VisitStep::ProbeDefaultTarget ==> visit.has_manifest == Some(true)
            && visit.has_default_target is None,
        visit_step(visit) == VisitStep::Resolve ==> visit.has_manifest == Some(true)
            && visit.has_default_target == Some(false) && visit.resolved is None,
        visit.has_git is Some && visit.has_manifest is Some && visit.has_default_target is Some
            && visit.resolved is Some ==> visit_step(visit) == VisitStep::Continue,
        visit.has_git is Some && visit.has_manifest == Some(false) ==> visit_step(visit)
            == VisitStep::Continue,
{
}

/// A visit that has ended, with each look answered truthfully, has recorded the
/// directory as a project exactly where it holds a `Cargo.toml`, as a repository
/// exactly where it holds a `.git`, and as custom output directories those that
/// it resolves to other than its own `target`, where it is a project without
/// one. Nothing that was recorded before is lost.
pub proof fn law_ended_visit_records_what_is_there(
    before: WalkCtx,
    visit: Visit,
    after: WalkCtx,
    git: bool,
    manifest: bool,
    default_target: bool,
)
    requires
        visits(before, visit, VisitStep::Continue, after),
        visit.has_git matches Some(known) ==> known == git,
        visit.has_manifest matches Some(known) ==> known == manifest,
        visit.has_default_target matches Some(known) ==> known == default_target,
    ensures
        after.manifests@.len() == before.manifests@.len() + (if visit.is_dir && !visit.is_symlink
            && manifest {
            1int
        } else {
            0int
        }),
        after.manifests@.len() > before.manifests@.len() ==> after.manifests@.last()@
            == visit.path@,
        forall|i: int|
            0 <= i < before.manifests@.len() ==> (#[trigger] after.manifests@[i])@
                == before.manifests@[i]@,
        after.repos@.len() == before.repos@.len() + (if visit.is_dir && !visit.is_symlink && git {
            1int
        } else {
            0int
        }),
        after.repos@.len() > before.repos@.len() ==> after.repos@.last()@ == visit.path@,
        forall|i: int|
            0 <= i < before.repos@.len() ==> (#[trigger] after.repos@[i])@ == before.repos@[i]@,
        forall|c: Seq<Part>| #[trigger]
            after.custom_set().contains(c) <==> before.custom_set().contains(c) || (visit.is_dir
                && !visit.is_symlink && manifest && !default_target && visit.resolved is Some
                && c != visit.path.parts().push(Part::Normal(encode_utf8("target"@))) && exists|
                k: int,
            |
                0 <= k < visit.resolved->0@.len() && (#[trigger] visit.resolved->0@[k]).parts()
                    == c),
        visit.is_dir && !visit.is_symlink && manifest && !default_target ==> visit.resolved is Some,
{
    law_every_directory_is_looked_at(visit);
    let (old_m, new_m) = (path::path_bytes(before.manifests@), path::path_bytes(after.manifests@));
    let (old_r, new_r) = (path::path_bytes(before.repos@), path::path_bytes(after.repos@));
    assert(old_m.len() == before.manifests@.len() && new_m.len() == after.manifests@.len());
    assert(old_r.len() == before.repos@.len() && new_r.len() == after.repos@.len());
    assert forall|i: int| 0 <= i < before.manifests@.len() implies (#[trigger] after.manifests@[i])@
        == before.manifests@[i]@ by {
        assert(new_m[i] == old_m[i]);
    }
    assert forall|i: int| 0 <= i < before.repos@.len() implies (#[trigger] after.repos@[i])@
        == before.repos@[i]@ by {
        assert(new_r[i] == old_r[i]);
    }
    assert(new_m.len() > old_m.len() ==> new_m.last() == after.manifests@.last()@);
    assert(new_r.len() > old_r.len() ==> new_r.last() == after.repos@.last()@);
    path::law_join_name(visit.path@, encode_utf8("target"@));
    lemma_target_is_name();
    assert forall|c: Seq<Part>| #[trigger]
        after.custom_set().contains(c) <==> before.custom_set().contains(c) || (visit.is_dir
            && !visit.is_symlink && manifest && !default_target && visit.resolved is Some && c
            != visit.path.parts().push(Part::Normal(encode_utf8("target"@))) && exists|k: int|
            0 <= k < visit.resolved->0@.len() && (#[trigger] visit.resolved->0@[k]).parts()
                == c) by {
        if visit.resolved is Some {
            let dirs = visit.resolved->0@;
            let all = path::path_parts(dirs);
            if all.contains(c) {
                let k = choose|k: int| 0 <= k < all.len() && all[k] == c;
                assert(dirs[k].parts() == c);
            }
            if exists|k: int| 0 <= k < dirs.len() && (#[trigger] dirs[k]).parts() == c {
                let k = choose|k: int| 0 <= k < dirs.len() && (#[trigger] dirs[k]).parts() == c;
                assert(all[k] == c);
            }
        }
    }
}

proof fn lemma_target_is_name()
    ensures
        path::is_name(encode_utf8("target"@)),
{
    reveal_strlit("target");
    is_ascii_chars_encode_utf8("target"@);
    let t = encode_utf8("target"@);
    assert(t.len() == 6);
    assert(t[0] == 116 && t[1] == 97 && t[2] == 114 && t[3] == 103 && t[4] == 101 && t[5] == 116);
    assert(!t.contains(path::slash()));
}

/// The custom output directories are those that are held, all of them.
pub proof fn law_every_custom_counts(ctx: WalkCtx, c: Seq<Part>)
    ensures
        ctx.custom_set().contains(c) <==> exists|i: int|
            0 <= i < ctx.customs@.len() && (#[trigger] ctx.customs@[i]).parts() == c,
{
    let all = path::path_parts(ctx.customs@);
    if all.contains(c) {
        let i = choose|i: int| 0 <= i < all.len() && all[i] == c;
        assert(ctx.customs@[i].parts() == c);
    }
    if exists|i: int| 0 <= i < ctx.customs@.len() && (#[trigger] ctx.customs@[i]).parts() == c {
        let i = choose|i: int| 0 <= i < ctx.customs@.len() && (#[trigger] ctx.customs@[i]).parts()
            == c;
        assert(all[i] == c);
    }
}

/// What is left out of a walk: below the scan root, everything named `.git` or
/// `.cargo`, a `target` whose parent is a project, and directories below a
/// custom output directory that are no projects. Everything else is kept, and
/// the scan root always is.
pub proof fn law_what_a_walk_leaves_out(
    entry: WalkEntry,
    customs: Set<Seq<Part>>,
    has_manifest: bool,
    parent_has_manifest: bool,
)
    ensures
        entry.depth == 0 ==> is_kept(entry, customs, has_manifest, parent_has_manifest),
        entry.depth > 0 && (entry.name@ == encode_utf8(".git"@) || entry.name@ == encode_utf8(
            ".cargo"@,
        )) ==> !is_kept(entry, customs, has_manifest, parent_has_manifest),
        entry.depth > 0 && entry.name@ == encode_utf8("target"@) && parent_has_manifest
            ==> !is_kept(entry, customs, has_manifest, parent_has_manifest),
        entry.depth > 0 && entry.is_dir && !has_manifest && (exists|c: Seq<Part>| #[trigger]
            customs.contains(c) && (c.len() > 0 || !(entry.path.parts()[0] is RootDir)) && c.len()
                < entry.path.parts().len() && entry.path.parts().take(c.len() as int) == c)
            ==> !is_kept(
            entry,
            customs,
            has_manifest,
            parent_has_manifest,
        ),
        entry.name@ != encode_utf8(".git"@) && entry.name@ != encode_utf8(".cargo"@) && (
        entry.name@ != encode_utf8("target"@) || !parent_has_manifest) && (!entry.is_dir
            || has_manifest || forall|c: Seq<Part>| #[trigger]
            customs.contains(c) ==> c.len() >= entry.path.parts().len()
                || entry.path.parts().take(c.len() as int) != c || (c.len() == 0
                && entry.path.parts()[0] is RootDir)) ==> is_kept(
            entry,
            customs,
            has_manifest,
            parent_has_manifest,
        ),
{
    let p = entry.path.parts();
    if exists|c: Seq<Part>| #[trigger]
        customs.contains(c) && (c.len() > 0 || !(p[0] is RootDir)) && c.len() < p.len() && p.take(
            c.len() as int,
        ) == c {
        let c = choose|c: Seq<Part>| #[trigger]
            customs.contains(c) && (c.len() > 0 || !(p[0] is RootDir)) && c.len() < p.len()
                && p.take(c.len() as int) == c;
        assert(is_above(c, p));
    }
}

/// With all that is to be known, an entry is either kept or left out, and what
/// is kept with one more custom output directory was kept without it.
pub proof fn law_customs_only_prune(
    entry: WalkEntry,
    customs: Set<Seq<Part>>,
    more: Set<Seq<Part>>,
    has_manifest: bool,
    parent_has_manifest: bool,
)
    requires
        customs.subset_of(more),
    ensures
        keep_decision(entry, customs, Some(has_manifest), Some(parent_has_manifest))
            == KeepDecision::Keep || keep_decision(
            entry,
            customs,
            Some(has_manifest),
            Some(parent_has_manifest),
        ) == KeepDecision::Skip,
        is_kept(entry, more, has_manifest, parent_has_manifest) ==> is_kept(
            entry,
            customs,
            has_manifest,
            parent_has_manifest,
        ),
{
    let p = entry.path.parts();
    if is_under(customs, p) {
        let c = choose|c: Seq<Part>| #[trigger] customs.contains(c) && is_above(c, p);
        assert(more.contains(c));
    }
}

/// Each candidate that is a directory in the scan root, and is not one of the
/// covered directories itself, is walked: that it lies below one of them does
/// not matter. What is walked is such a candidate, and each once.
pub proof fn law_each_uncovered_worktree_is_walked(
    candidates: Seq<Candidate>,
    root: Seq<Part>,
    canonical_root: Seq<Part>,
    covered: Seq<Seq<Part>>,
    out: Seq<FsPath>,
)
    requires
        is_sorted_set(selected_paths(candidates, root, canonical_root, covered), out),
    ensures
        forall|i: int|
            0 <= i < candidates.len() && (#[trigger] candidates[i]).is_dir && (lies_in(
                candidates[i].path.parts(),
                root,
            ) || lies_in(candidates[i].path.parts(), canonical_root)) && (forall|k: int|
                0 <= k < covered.len() ==> #[trigger] covered[k] != candidates[i].path.parts())
                ==> exists|j: int|
                0 <= j < out.len() && (#[trigger] out[j]).parts() == candidates[i].path.parts(),
        forall|j: int|
            0 <= j < out.len() ==> (lies_in((#[trigger] out[j]).parts(), root) || lies_in(
                out[j].parts(),
                canonical_root,
            )) && exists|i: int|
                0 <= i < candidates.len() && (#[trigger] candidates[i]).path@ == out[j]@
                    && candidates[i].is_dir,
        forall|j: int, k: int|
            0 <= j < out.len() && 0 <= k < covered.len() ==> #[trigger] covered[k] != (
            #[trigger] out[j]).parts(),
        forall|i: int, j: int|
            0 <= i < j < out.len() ==> (#[trigger] out[i]).parts() != (#[trigger] out[j]).parts()
                && path::path_le(out[i].parts(), out[j].parts()),
{
    let selected = selected_paths(candidates, root, canonical_root, covered);
    law_sorted_set(selected, out);
    assert forall|i: int|
        0 <= i < candidates.len() && (#[trigger] candidates[i]).is_dir && (lies_in(
            candidates[i].path.parts(),
            root,
        ) || lies_in(candidates[i].path.parts(), canonical_root)) && (forall|k: int|
            0 <= k < covered.len() ==> #[trigger] covered[k] != candidates[i].path.parts()) implies exists|
    j: int|
        0 <= j < out.len() && (#[trigger] out[j]).parts() == candidates[i].path.parts() by {
        let p = candidates[i].path.parts();
        lemma_lies_in(p, root);
        lemma_lies_in(p, canonical_root);
        assert(is_selected(candidates[i], root, canonical_root, covered));
        lemma_selected(candidates, root, canonical_root, covered, candidates[i].path);
        assert(selected.contains(candidates[i].path));
        assert(order::has_key(out, path::parts_key(), p));
        let j = choose|j: int| 0 <= j < out.len() && path::parts_key()(#[trigger] out[j]) == p;
        assert(out[j].parts() == p);
    }
    assert forall|j: int|
        #![trigger out[j]]
        0 <= j < out.len() implies exists|i: int|
        0 <= i < candidates.len() && (#[trigger] candidates[i]).path@ == out[j]@
            && candidates[i].is_dir by {
        assert(selected.contains(out[j]));
        lemma_selected(candidates, root, canonical_root, covered, out[j]);
        let i = choose|i: int|
            0 <= i < candidates.len() && (#[trigger] candidates[i]).path == out[j] && is_selected(
                candidates[i],
                root,
                canonical_root,
                covered,
            );
        assert(candidates[i].is_dir);
    }
    assert forall|j: int| 0 <= j < out.len() implies (lies_in(
        (#[trigger] out[j]).parts(),
        root,
    ) || lies_in(out[j].parts(), canonical_root)) && !covered.contains(out[j].parts()) by {
        assert(selected.contains(out[j]));
        lemma_selected(candidates, root, canonical_root, covered, out[j]);
        lemma_lies_in(out[j].parts(), root);
        lemma_lies_in(out[j].parts(), canonical_root);
    }
    assert forall|j: int, k: int| 0 <= j < out.len() && 0 <= k < covered.len() implies
        #[trigger] covered[k] != (#[trigger] out[j]).parts() by {
        assert(covered.contains(covered[k]));
    }
}

/// The components of `path` start with those of `dir`.
pub open spec fn lies_in(path: Seq<Part>, dir: Seq<Part>) -> bool {
    dir.len() <= path.len() && forall|i: int| 0 <= i < dir.len() ==> #[trigger] path[i] == dir[i]
}

/// What lies in a directory starts with its components.
proof fn lemma_lies_in(path: Seq<Part>, dir: Seq<Part>)
    ensures
        lies_in(path, dir) == path::is_prefix(path, dir),
{
    if path::is_prefix(path, dir) {
        assert forall|i: int| 0 <= i < dir.len() implies #[trigger] path[i] == dir[i] by {
            assert(path.take(dir.len() as int)[i] == path[i]);
        }
    }
    if lies_in(path, dir) {
        assert(path.take(dir.len() as int) =~= dir);
    }
}

/// The extra roots that are walked are the directories in the scan root other
/// than the scan root, all of them.
pub proof fn law_extra_roots_are_walked(
    candidates: Seq<Candidate>,
    root: Seq<Part>,
    canonical_root: Seq<Part>,
    out: Seq<FsPath>,
)
    requires
        is_sorted_set(inner_paths(candidates, root, canonical_root), out),
    ensures
        forall|i: int|
            0 <= i < candidates.len() && (#[trigger] candidates[i]).is_dir && (lies_in(
                candidates[i].path.parts(),
                root,
            ) || lies_in(candidates[i].path.parts(), canonical_root)) && candidates[i].path.parts()
                != root && candidates[i].path.parts() != canonical_root ==> exists|j: int|
                0 <= j < out.len() && (#[trigger] out[j]).parts() == candidates[i].path.parts(),
        forall|j: int|
            0 <= j < out.len() ==> (#[trigger] out[j]).parts() != root && out[j].parts()
                != canonical_root && exists|i: int|
                0 <= i < candidates.len() && (#[trigger] candidates[i]).path@ == out[j]@
                    && candidates[i].is_dir,
{
    let covered = seq![root, canonical_root];
    law_each_uncovered_worktree_is_walked(candidates, root, canonical_root, covered, out);
    assert(covered[0] == root && covered[1] == canonical_root);
}

/// Git is asked for the worktrees of the scan root first, then of every
/// repository that was met, each once, and of nothing else.
pub proof fn law_every_repository_is_asked(
    root: Seq<u8>,
    canonical: Option<FsPath>,
    repos: Seq<FsPath>,
    plan: WorktreePlan,
)
    requires
        is_plan(root, canonical, repos, plan),
    ensures
        1 <= plan.queries@.len() <= repos.len() + 1,
        plan.queries@[0]@ == root,
        forall|i: int|
            #![trigger repos[i]]
            0 <= i < repos.len() ==> exists|j: int|
                1 <= j < plan.queries@.len() && (#[trigger] plan.queries@[j]).parts()
                    == repos[i].parts(),
        forall|j: int|
            #![trigger plan.queries@[j]]
            1 <= j < plan.queries@.len() ==> exists|i: int|
                0 <= i < repos.len() && (#[trigger] repos[i])@ == plan.queries@[j]@,
{
    let sorted = choose|sorted: Seq<FsPath>|
        #![trigger path::path_bytes(sorted)]
        is_sorted_set(repos, sorted) && path::path_bytes(plan.queries@) == seq![root]
            + path::path_bytes(sorted) && path::path_bytes(plan.covered@) == path::path_bytes(sorted)
            + seq![root] + (match canonical {
            Some(c) => seq![c@],
            None => Seq::empty(),
        });
    let (p, q) = (path::path_bytes(sorted), path::path_bytes(plan.queries@));
    assert(q.len() == plan.queries@.len() && p.len() == sorted.len());
    assert(q[0] == plan.queries@[0]@);
    assert forall|i: int|
        #![trigger repos[i]]
        0 <= i < repos.len() implies exists|j: int|
        1 <= j < plan.queries@.len() && (#[trigger] plan.queries@[j]).parts()
            == repos[i].parts() by {
        let j = lemma_sorted_set_holds(repos, sorted, i);
        assert(q[j + 1] == p[j]);
        assert(plan.queries@[j + 1]@ == sorted[j]@);
    }
    assert forall|j: int|
        #![trigger plan.queries@[j]]
        1 <= j < plan.queries@.len() implies exists|i: int|
        0 <= i < repos.len() && (#[trigger] repos[i])@ == plan.queries@[j]@ by {
        assert(q[j] == p[j - 1]);
        let i = lemma_sorted_set_is_of(repos, sorted, j - 1);
        assert(repos[i]@ == plan.queries@[j]@);
    }
    lemma_sorted_set_is_short(repos, sorted);
}

/// The directories that count as covered are every repository that was met, the
/// scan root, and the scan root as it resolves; nothing else.
pub proof fn law_every_repository_is_covered(
    root: Seq<u8>,
    canonical: Option<FsPath>,
    repos: Seq<FsPath>,
    plan: WorktreePlan,
)
    requires
        is_plan(root, canonical, repos, plan),
    ensures
        forall|i: int|
            #![trigger repos[i]]
            0 <= i < repos.len() ==> exists|j: int|
                0 <= j < plan.covered@.len() && (#[trigger] plan.covered@[j]).parts()
                    == repos[i].parts(),
        exists|j: int| 0 <= j < plan.covered@.len() && (#[trigger] plan.covered@[j])@ == root,
        canonical is Some ==> exists|j: int|
            0 <= j < plan.covered@.len() && (#[trigger] plan.covered@[j])@ == canonical->0@,
        forall|j: int|
            #![trigger plan.covered@[j]]
            0 <= j < plan.covered@.len() ==> plan.covered@[j]@ == root || (canonical is Some
                && plan.covered@[j]@ == canonical->0@) || exists|i: int|
                0 <= i < repos.len() && (#[trigger] repos[i])@ == plan.covered@[j]@,
{
    let sorted = choose|sorted: Seq<FsPath>|
        #![trigger path::path_bytes(sorted)]
        is_sorted_set(repos, sorted) && path::path_bytes(plan.queries@) == seq![root]
            + path::path_bytes(sorted) && path::path_bytes(plan.covered@) == path::path_bytes(sorted)
            + seq![root] + (match canonical {
            Some(c) => seq![c@],
            None => Seq::empty(),
        });
    let (p, c) = (path::path_bytes(sorted), path::path_bytes(plan.covered@));
    let n = sorted.len() as int;
    assert(c.len() == plan.covered@.len() && p.len() == n);
    assert(c[n] == root);
    assert(plan.covered@[n]@ == root);
    if canonical is Some {
        assert(c[n + 1] == canonical->0@);
        assert(plan.covered@[n + 1]@ == canonical->0@);
    }
    assert forall|i: int|
        #![trigger repos[i]]
        0 <= i < repos.len() implies exists|j: int|
        0 <= j < plan.covered@.len() && (#[trigger] plan.covered@[j]).parts()
            == repos[i].parts() by {
        let j = lemma_sorted_set_holds(repos, sorted, i);
        assert(c[j] == p[j]);
        assert(plan.covered@[j]@ == sorted[j]@);
    }
    assert forall|j: int|
        #![trigger plan.covered@[j]]
        0 <= j < plan.covered@.len() implies plan.covered@[j]@ == root || (canonical is Some
        && plan.covered@[j]@ == canonical->0@) || exists|i: int|
        0 <= i < repos.len() && (#[trigger] repos[i])@ == plan.covered@[j]@ by {
        assert(c[j] == plan.covered@[j]@);
        if j < n {
            assert(c[j] == p[j]);
            let i = lemma_sorted_set_is_of(repos, sorted, j);
            assert(repos[i]@ == plan.covered@[j]@);
        }
    }
}

proof fn lemma_sorted_set_holds(paths: Seq<FsPath>, out: Seq<FsPath>, i: int) -> (j: int)
    requires
        is_sorted_set(paths, out),
        0 <= i < paths.len(),
    ensures
        0 <= j < out.len(),
        out[j].parts() == paths[i].parts(),
{
    law_sorted_set(paths, out);
    assert(paths.contains(paths[i]));
    let key = path::parts_key();
    let j = choose|j: int| 0 <= j < out.len() && key(#[trigger] out[j]) == paths[i].parts();
    j
}

proof fn lemma_sorted_set_is_of(paths: Seq<FsPath>, out: Seq<FsPath>, j: int) -> (i: int)
    requires
        is_sorted_set(paths, out),
        0 <= j < out.len(),
    ensures
        0 <= i < paths.len(),
        paths[i] == out[j],
{
    law_sorted_set(paths, out);
    assert(paths.contains(out[j]));
    choose|i: int| 0 <= i < paths.len() && paths[i] == out[j]
}

proof fn lemma_sorted_set_is_short(paths: Seq<FsPath>, out: Seq<FsPath>)
    requires
        is_sorted_set(paths, out),
    ensures
        out.len() <= paths.len(),
{
    let le = order::rank_order::<FsPath>();
    let sorted = choose|sorted: Seq<FsPath>|
        #![trigger order::firsts(sorted, path::parts_key())]
        order::is_stable_sort(paths, sorted, le) && out == order::firsts(sorted, path::parts_key());
    order::lemma_firsts_are_few(sorted, path::parts_key());
    if paths.len() > 0 {
        order::law_sort_keeps_elements(paths, sorted, le, paths[0]);
    } else if sorted.len() > 0 {
        order::law_sort_keeps_elements(paths, sorted, le, sorted[0]);
    }
}

proof fn lemma_real_entries(rows: Seq<ResolvedRow>, e: DiscoveredEntry)
    ensures
        real_entries(rows).contains(e) <==> exists|i: int|
            0 <= i < rows.len() && (#[trigger] rows[i]).entry == e && rows[i].is_target_dir,
    decreases rows.len(),
{
    let all = real_entries(rows);
    if rows.len() > 0 {
        let front = rows.drop_last();
        let before = real_entries(front);
        lemma_real_entries(front, e);
        if all.contains(e) {
            let k = choose|k: int| 0 <= k < all.len() && all[k] == e;
            if k < before.len() {
                assert(before[k] == e);
                let i = choose|i: int|
                    0 <= i < front.len() && (#[trigger] front[i]).entry == e
                        && front[i].is_target_dir;
                assert(rows[i] == front[i]);
            } else {
                assert(rows[rows.len() - 1] == rows.last());
            }
        }
        if exists|i: int|
            0 <= i < rows.len() && (#[trigger] rows[i]).entry == e && rows[i].is_target_dir {
            let i = choose|i: int|
                0 <= i < rows.len() && (#[trigger] rows[i]).entry == e && rows[i].is_target_dir;
            if i < front.len() {
                assert(front[i] == rows[i]);
                let k = choose|k: int| 0 <= k < before.len() && before[k] == e;
                assert(all[k] == e);
            } else {
                assert(all[all.len() - 1] == e);
            }
        }
    }
}

/// Every real output directory that was resolved has a row, of whatever kind
/// and wherever it was configured, and the row names the project that comes
/// first among those with that directory.
pub proof fn law_each_real_output_dir_has_a_row(
    rows: Seq<ResolvedRow>,
    out: Seq<DiscoveredEntry>,
    i: int,
)
    requires
        is_row_list(real_entries(rows), out),
        0 <= i < rows.len(),
        rows[i].is_target_dir,
    ensures
        exists|j: int|
            0 <= j < out.len() && (#[trigger] out[j]).target_dir.parts()
                == rows[i].entry.target_dir.parts() && path::path_le(
                out[j].project_path.parts(),
                rows[i].entry.project_path.parts(),
            ),
{
    let e = rows[i].entry;
    let entries = real_entries(rows);
    lemma_real_entries(rows, e);
    law_one_row_per_output_dir(entries, out);
    assert(entries.contains(e));
    let j = choose|j: int|
        0 <= j < out.len() && (#[trigger] out[j]).target_dir.parts() == e.target_dir.parts();
    law_first_project_keeps_shared_dir(entries, out, j, e);
}

/// Each row is one that was resolved with a real output directory, as it was
/// resolved.
pub proof fn law_each_row_was_resolved(rows: Seq<ResolvedRow>, out: Seq<DiscoveredEntry>, j: int)
    requires
        is_row_list(real_entries(rows), out),
        0 <= j < out.len(),
    ensures
        exists|i: int|
            0 <= i < rows.len() && (#[trigger] rows[i]).entry == out[j] && rows[i].is_target_dir,
{
    law_one_row_per_output_dir(real_entries(rows), out);
    lemma_real_entries(rows, out[j]);
}

/// Of two rows, the output directories differ, and the first comes no later than
/// the second: by project, and by output directory within one project.
pub proof fn law_two_rows(rows: Seq<ResolvedRow>, out: Seq<DiscoveredEntry>, i: int, j: int)
    requires
        is_row_list(real_entries(rows), out),
        0 <= i < j < out.len(),
    ensures
        out[i].target_dir.parts() != out[j].target_dir.parts(),
        path::path_le(out[i].project_path.parts(), out[j].project_path.parts()),
        out[i].project_path.parts() == out[j].project_path.parts() ==> path::path_le(
            out[i].target_dir.parts(),
            out[j].target_dir.parts(),
        ),
{
    law_one_row_per_output_dir(real_entries(rows), out);
    law_rows_are_sorted(real_entries(rows), out);
    assert(out[i].ranked_le(&out[j]));
    path::lemma_path_total(out[i].project_path.parts(), out[j].project_path.parts());
}

/// The message for each row is the measurement of that row's own output
/// directory, in the place of the row, behind the rows and before the end.
pub proof fn law_row_is_measured_in_its_place(rows: Seq<DiscoveredEntry>, delivered: Seq<bool>)
    requires
        delivered.len() >= 3,
        delivered[0],
    ensures
        sent(rows, delivered).len() == rows.len() + 2,
        sent(rows, delivered)[0] == MessageKind::Rows,
        forall|i: int|
            0 <= i < rows.len() ==> sent(rows, delivered)[i + 1] == MessageKind::Measurement(
                (#[trigger] rows[i]).target_dir@,
            ),
        sent(rows, delivered)[rows.len() as int + 1] == MessageKind::End,
{
    law_each_row_is_measured_once(rows, delivered);
}

/// A field that reads `worktree ` and a path names that path, without the
/// quotes that git puts around it; a field that reads otherwise, or is no text,
/// names none.
pub proof fn law_worktree_field_names_its_path(path: Seq<char>, other: Seq<u8>)
    ensures
        worktree_field(encode_utf8("worktree "@ + path)) == Some(encode_utf8(unquoted(path))),
        path.len() == 0 || path[0] != '"' ==> worktree_field(encode_utf8("worktree "@ + path))
            == Some(encode_utf8(path)),
        !valid_utf8(other) ==> worktree_field(other) is None,
        valid_utf8(other) && (decode_utf8(other).len() < 9 || decode_utf8(other).take(9)
            != "worktree "@) ==> worktree_field(other) is None,
{
    reveal_strlit("worktree ");
    let line = "worktree "@ + path;
    encode_utf8_valid_utf8(line);
    encode_utf8_decode_utf8(line);
    assert(line.take(9) =~= "worktree "@);
    assert(line.skip(9) =~= path);
}

/// What a run of git printed field by field: each field that names a path
/// gives it, in order, and nothing comes of the others or of a run that failed.
pub proof fn law_printed_worktrees_come_in_order(
    fields: Seq<Seq<u8>>,
    more: Seq<Seq<u8>>,
    field: Seq<u8>,
    cause: String,
    stdout: Vec<u8>,
    stderr: Vec<u8>,
)
    ensures
        worktree_fields(fields + more) == worktree_fields(fields) + worktree_fields(more),
        worktree_fields(seq![field]) == (match worktree_field(field) {
            Some(p) => seq![p],
            None => Seq::empty(),
        }),
        worktree_fields(Seq::empty()).len() == 0,
        printed_paths(CommandOutcome::NotRun(cause)).len() == 0,
        printed_paths(CommandOutcome::Exited { success: false, stdout, stderr }).len() == 0,
        printed_paths(CommandOutcome::Exited { success: true, stdout, stderr })
            == worktree_fields(text::split_on(stdout@, 0u8)),
    decreases more.len(),
{
    assert(seq![field].drop_last() =~= Seq::<Seq<u8>>::empty());
    assert(worktree_fields(Seq::<Seq<u8>>::empty()) =~= Seq::<Seq<u8>>::empty());
    assert(worktree_fields(seq![field]) =~= match worktree_field(field) {
        Some(p) => seq![p],
        None => Seq::empty(),
    });
    if more.len() == 0 {
        assert(fields + more =~= fields);
        assert(worktree_fields(fields + more) =~= worktree_fields(fields) + worktree_fields(more));
    } else {
        law_printed_worktrees_come_in_order(fields, more.drop_last(), field, cause, stdout, stderr);
        assert((fields + more).drop_last() =~= fields + more.drop_last());
        assert(worktree_fields(fields + more) =~= worktree_fields(fields) + worktree_fields(more));
    }
}

/// Each printed path is listed, as it resolves or as it stands; nothing else
/// is; and no directory is listed twice.
pub proof fn law_each_printed_worktree_is_listed(
    printed: Seq<Seq<u8>>,
    canonical: Seq<Option<FsPath>>,
    out: Seq<Seq<u8>>,
)
    requires
        canonical.len() == printed.len(),
        out == order::firsts(resolved_paths(printed, canonical), components_key()),
    ensures
        forall|i: int|
            0 <= i < printed.len() ==> exists|j: int|
                0 <= j < out.len() && path::components_of(#[trigger] out[j]) == path::components_of(
                    match #[trigger] canonical[i] {
                        Some(c) => c@,
                        None => printed[i],
                    },
                ),
        forall|j: int|
            0 <= j < out.len() ==> exists|i: int|
                0 <= i < printed.len() && #[trigger] out[j] == (match #[trigger] canonical[i] {
                    Some(c) => c@,
                    None => printed[i],
                }),
        forall|i: int, j: int|
            0 <= i < j < out.len() ==> path::components_of(#[trigger] out[i])
                != path::components_of(#[trigger] out[j]),
{
    let all = resolved_paths(printed, canonical);
    let key = components_key();
    order::law_firsts_keep_each_key_once(all, key);
    assert forall|i: int| 0 <= i < printed.len() implies exists|j: int|
        0 <= j < out.len() && path::components_of(#[trigger] out[j]) == path::components_of(
            match #[trigger] canonical[i] {
                Some(c) => c@,
                None => printed[i],
            },
        ) by {
        let k = key(all[i]);
        assert(order::has_key(all, key, k));
        assert(order::has_key(out, key, k));
        let j = choose|j: int| 0 <= j < out.len() && key(#[trigger] out[j]) == k;
        assert(path::components_of(out[j]) == path::components_of(all[i]));
    }
    assert forall|j: int| 0 <= j < out.len() implies exists|i: int|
        0 <= i < printed.len() && #[trigger] out[j] == (match #[trigger] canonical[i] {
            Some(c) => c@,
            None => printed[i],
        }) by {
        order::law_firsts_come_first(all, key, j);
        let i = choose|i: int|
            0 <= i < all.len() && out[j] == #[trigger] all[i] && !order::has_key(
                all.take(i),
                key,
                key(all[i]),
            );
        assert(canonical[i] == canonical[i]);
    }
    assert forall|i: int, j: int| 0 <= i < j < out.len() implies path::components_of(
        #[trigger] out[i],
    ) != path::components_of(#[trigger] out[j]) by {
        assert(key(out[i]) != key(out[j]));
    }
}

/// A look is asked for only where it decides: at the entry's own `Cargo.toml`
/// for a directory below a custom output directory, at its parent's for a
/// `target`, and never for the scan root.
pub proof fn law_looks_are_needed(
    entry: WalkEntry,
    customs: Set<Seq<Part>>,
    known: Option<bool>,
    known_parent: Option<bool>,
)
    ensures
        keep_decision(entry, customs, known, known_parent) == KeepDecision::ProbeManifest ==> known
            is None && entry.depth > 0 && entry.is_dir && !is_kept(
            entry,
            customs,
            false,
            known_parent == Some(true),
        ),
        keep_decision(entry, customs, known, known_parent) == KeepDecision::ProbeParentManifest
            ==> known_parent is None && entry.depth > 0 && entry.name@ == encode_utf8("target"@),
        known is Some && known_parent is Some ==> keep_decision(entry, customs, known, known_parent)
            == KeepDecision::Keep || keep_decision(entry, customs, known, known_parent)
            == KeepDecision::Skip,
        entry.depth == 0 ==> keep_decision(entry, customs, known, known_parent)
            == KeepDecision::Keep,
{
}

/// While something is still to be found out about an entry, nothing of it is
/// recorded.
pub proof fn law_nothing_is_recorded_early(
    before: WalkCtx,
    visit: Visit,
    step: VisitStep,
    after: WalkCtx,
)
    requires
        visits(before, visit, step, after),
        step == VisitStep::ProbeGit || step == VisitStep::ProbeManifest || step
            == VisitStep::ProbeDefaultTarget || step == VisitStep::Resolve,
    ensures
        after.manifests == before.manifests,
        after.repos == before.repos,
        after.customs == before.customs,
{
}

/// A path in quotes is what stands between them, where nothing in it is
/// escaped; in front of anything but a quote or a backslash a backslash stays.
pub proof fn law_quotes_are_taken_off(inner: Seq<char>, c: char, tail: Seq<char>)
    requires
        !inner.contains('\\'),
        !tail.contains('\\'),
        tail.len() > 0 ==> tail[0] != '"',
        c != '"' && c != '\\',
    ensures
        unquoted(seq!['"'] + inner + seq!['"']) == inner,
        unquoted(seq!['"'] + (inner.push('\\').push(c) + tail) + seq!['"']) == inner.push('\\').push(
            c,
        ) + tail,
        unquoted(seq!['"'] + (inner.push('\\').push('"') + tail) + seq!['"']) == inner.push('"')
            + tail,
        unquoted(seq!['"'] + (inner.push('\\').push('\\') + tail) + seq!['"']) == inner.push('\\')
            + tail,
{
    let plain = seq!['"'] + inner + seq!['"'];
    assert(plain.subrange(1, plain.len() - 1) =~= inner);
    text::law_pairs_are_replaced(inner, '\\', '"', '"', c, tail);
    text::law_pairs_are_replaced(inner, '\\', '\\', '\\', c, tail);
    lemma_quoted(inner.push('\\').push(c) + tail);
    lemma_quoted(inner.push('\\').push('"') + tail);
    lemma_quoted(inner.push('\\').push('\\') + tail);
    // What follows the pair holds no backslash, and neither does the result.
    let behind = seq![c] + tail;
    let slashed = seq!['\\'] + tail;
    let done = inner.push('"') + tail;
    assert(!behind.contains('\\')) by {
        if behind.contains('\\') {
            let k = choose|k: int| 0 <= k < behind.len() && behind[k] == '\\';
            assert(tail[k - 1] == '\\');
        }
    }
    assert(!done.contains('\\')) by {
        if done.contains('\\') {
            let k = choose|k: int| 0 <= k < done.len() && done[k] == '\\';
            if k < inner.len() {
                assert(inner[k] == '\\');
            } else {
                assert(tail[k - inner.len() - 1] == '\\');
            }
        }
    }
    text::law_pairs_are_replaced(behind, '\\', '"', '"', c, tail);
    text::law_pairs_are_replaced(behind, '\\', '\\', '\\', c, tail);
    text::law_pairs_are_replaced(tail, '\\', '"', '"', c, tail);
    text::law_pairs_are_replaced(tail, '\\', '\\', '\\', c, tail);
    text::law_pairs_are_replaced(done, '\\', '\\', '\\', c, tail);
    assert(inner.push('\\') + behind =~= inner.push('\\').push(c) + tail);
    text::law_pairs_are_replaced(inner, '\\', '"', '"', '\\', tail);
    assert(text::replace_pair(slashed, '\\', '"', '"') == slashed) by {
        lemma_lone_backslash(tail);
    }
    assert(inner.push('\\') + slashed =~= inner.push('\\').push('\\') + tail);
}

proof fn lemma_quoted(inner: Seq<char>)
    ensures
        unquoted(seq!['"'] + inner + seq!['"']) == text::replace_pair(
            text::replace_pair(inner, '\\', '"', '"'),
            '\\',
            '\\',
            '\\',
        ),
{
    let quoted = seq!['"'] + inner + seq!['"'];
    assert(quoted.subrange(1, quoted.len() - 1) =~= inner);
}

proof fn lemma_lone_backslash(tail: Seq<char>)
    requires
        !tail.contains('\\'),
        tail.len() > 0 ==> tail[0] != '"',
    ensures
        text::replace_pair(seq!['\\'] + tail, '\\', '"', '"') == seq!['\\'] + tail,
{
    let none = Seq::<char>::empty();
    let all = seq!['\\'] + tail;
    text::law_pairs_are_replaced(tail, '\\', '"', '"', 'x', none);
    if tail.len() > 0 {
        let rest = tail.drop_first();
        text::law_pairs_are_replaced(none, '\\', '"', '"', tail[0], rest);
        assert(none.push('\\').push(tail[0]) + rest =~= all);
        assert(seq![tail[0]] + rest =~= tail);
        assert(none.push('\\') + tail =~= all);
    } else {
        text::law_pairs_are_replaced(none, '\\', '"', '"', 'x', none);
        assert(none.push('\\') =~= all);
    }
}

/// A walk begins with every directory that configuration above the scan root
/// points to as a custom output directory, but for the scan root, and with
/// nothing else.
pub proof fn law_walk_begins_with_outer_dirs(
    root: Seq<Part>,
    outer_dirs: Seq<FsPath>,
    ctx: WalkCtx,
    c: Seq<Part>,
)
    requires
        begins(root, outer_dirs, ctx),
    ensures
        ctx.manifests@.len() == 0 && ctx.repos@.len() == 0,
        (exists|i: int| 0 <= i < ctx.customs@.len() && (#[trigger] ctx.customs@[i]).parts() == c)
            <==> c != root && exists|i: int|
            0 <= i < outer_dirs.len() && (#[trigger] outer_dirs[i]).parts() == c,
{
    law_every_custom_counts(ctx, c);
    let all = path::path_parts(outer_dirs);
    if all.contains(c) {
        let i = choose|i: int| 0 <= i < all.len() && all[i] == c;
        assert(outer_dirs[i].parts() == c);
    }
    if exists|i: int| 0 <= i < outer_dirs.len() && (#[trigger] outer_dirs[i]).parts() == c {
        let i = choose|i: int| 0 <= i < outer_dirs.len() && (#[trigger] outer_dirs[i]).parts()
            == c;
        assert(all[i] == c);
    }
}

} // verus!
