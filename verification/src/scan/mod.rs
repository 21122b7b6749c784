//! Finding Rust projects and measuring their output directories.

use vstd::prelude::*;
use vstd::string::*;
use vstd::utf8::*;

use crate::path;
use crate::path::{Component, FsPath, Part};
use crate::text;

pub mod cargo_config;
pub mod discover;
pub mod docker;
pub mod measure;
pub mod spotlight;

pub use cargo_config::{DiscoveredEntry, OutputKind};

verus! {

/// One measured output directory of a project.
#[derive(Clone, Debug)]
pub struct TargetEntry {
    /// Directory holding `Cargo.toml`.
    pub project_path: FsPath,
    /// Measured artifact directory, `project_path/target` by default.
    pub target_dir: FsPath,
    /// Whether this directory came from `target-dir` or `build-dir`.
    pub kind: OutputKind,
    /// True when the directory came from `$CARGO_HOME/config.toml`.
    pub shared: bool,
    /// Disk usage of `target_dir` in bytes, `None` while it is not measured.
    pub size: Option<u64>,
    /// Newest modification under `target_dir` in nanoseconds since the epoch,
    /// or `None` while pending or deleted.
    pub last_modified: Option<u64>,
    /// True while the directory is queued for deletion or being deleted.
    pub is_under_deletion: bool,
}

/// What stands at `.git` in one directory.
#[derive(Debug)]
pub enum GitProbe {
    Absent,
    Directory,
    /// A file with its text, `None` where it cannot be read.
    File(Option<String>),
}

/// The names of the main project and the tree that a cleaned-up path of the
/// form `<main>/.git/worktrees/<tree>` holds.
pub open spec fn pointer_names(parts: Seq<Part>) -> Option<(Seq<u8>, Seq<u8>)> {
    let i = text::find(parts, Part::Normal(encode_utf8(".git"@)));
    if i + 3 == parts.len() && parts[i + 1] == Part::Normal(encode_utf8("worktrees"@)) {
        match (path::name_of(parts.take(i)), parts[i + 2]) {
            (Some(main), Part::Normal(tree)) => if main.len() == 0 {
                None
            } else {
                Some((main, tree))
            },
            _ => None,
        }
    } else {
        None
    }
}

/// What the text of a `.git` file in the directory `base` names: it reads
/// `gitdir:` and a path, relative to `base` unless it is rooted.
pub open spec fn worktree_of(content: Seq<char>, base: Seq<Part>) -> Option<(Seq<u8>, Seq<u8>)> {
    if text::has_prefix(content, "gitdir:"@) {
        let raw = text::trimmed(content.skip("gitdir:"@.len() as int));
        if raw.len() == 0 {
            None
        } else {
            pointer_names(path::cleaned(path::joined_parts(base, encode_utf8(raw))))
        }
    } else {
        None
    }
}

/// How many directories `parts` and its ancestors are.
pub open spec fn ancestor_count(parts: Seq<Part>) -> int {
    if parts.len() > 0 && parts[0] == Part::RootDir {
        parts.len() as int
    } else {
        parts.len() as int + 1
    }
}

/// The answer of the nearest directory, from the `k`-th ancestor on, that
/// holds a `.git`: only a file there can name a worktree.
pub open spec fn nearest_worktree(
    project: Seq<Part>,
    probes: Seq<GitProbe>,
    k: int,
) -> Option<(Seq<u8>, Seq<u8>)>
    decreases probes.len() - k,
{
    if k < 0 || k >= probes.len() || k >= ancestor_count(project) {
        None
    } else {
        match probes[k] {
            GitProbe::Absent => nearest_worktree(project, probes, k + 1),
            GitProbe::Directory => None,
            GitProbe::File(None) => None,
            GitProbe::File(Some(content)) => worktree_of(
                content@,
                project.take(project.len() - k),
            ),
        }
    }
}

/// Two names as they are shown.
pub open spec fn shown_names(names: Option<(Seq<u8>, Seq<u8>)>) -> Option<(Seq<char>, Seq<char>)> {
    match names {
        Some((main, tree)) => Some((text::shown(main), text::shown(tree))),
        None => None,
    }
}

/// A text that can be the name of a directory: not empty, and neither `.` nor
/// `..`.
pub open spec fn is_dir_name(name: Seq<char>) -> bool {
    name.len() > 0 && name != "."@ && name != ".."@
}

/// Both names, where there are any, can be the name of a directory.
pub open spec fn are_dir_names(names: Option<(String, String)>) -> bool {
    names matches Some((main, tree)) ==> is_dir_name(main@) && is_dir_name(tree@)
}

/// A pair of names as text.
pub open spec fn names_text(names: Option<(String, String)>) -> Option<(Seq<char>, Seq<char>)> {
    match names {
        Some((main, tree)) => Some((main@, tree@)),
        None => None,
    }
}

/// What is shown of a name that a path can hold can be the name of a
/// directory.
proof fn lemma_shown_name(name: Seq<u8>)
    requires
        path::is_name(name),
        !valid_utf8(name) ==> text::lossy_text(name).contains('\u{fffd}'),
    ensures
        is_dir_name(text::shown(name)),
{
    let shown = text::shown(name);
    reveal_strlit(".");
    reveal_strlit("..");
    if valid_utf8(name) {
        decode_utf8_encode_utf8(name);
        is_ascii_chars_encode_utf8("."@);
        is_ascii_chars_encode_utf8(".."@);
        assert(encode_utf8(Seq::<char>::empty()) =~= Seq::<u8>::empty());
        if shown.len() == 0 {
            assert(shown =~= Seq::<char>::empty());
        }
        if shown == "."@ {
            assert(name =~= seq![46u8]);
        }
        if shown == ".."@ {
            assert(name =~= seq![46u8, 46u8]);
        }
    } else {
        let i = choose|i: int| 0 <= i < shown.len() && shown[i] == '\u{fffd}';
        assert(shown[i] == '\u{fffd}');
    }
}

fn read_pointer(done: &Vec<Component>) -> (r: Option<(String, String)>)
    ensures
        names_text(r) == shown_names(pointer_names(path::parts(done@))),
        path::names_sound(path::parts(done@)) ==> are_dir_names(r),
{
    let ghost all = path::parts(done@);
    let ghost git = Part::Normal(encode_utf8(".git"@));
    let mut i: usize = 0;
    while i < done.len() && !done[i].is_named(".git")
        invariant
            i <= done@.len(),
            all == path::parts(done@),
            git == Part::Normal(encode_utf8(".git"@)),
            forall|j: int| 0 <= j < i ==> all[j] != git,
        decreases done@.len() - i,
    {
        i = i + 1;
    }
    proof {
        text::lemma_find(all, git, i as int);
    }
    if done.len() - i != 3 || !done[i + 1].is_named("worktrees") || i == 0 {
        return None;
    }
    assert(all.take(i as int).last() == all[i - 1]);
    match (&done[i - 1], &done[i + 2]) {
        (Component::Normal(main), Component::Normal(tree)) => {
            if main.len() == 0 {
                return None;
            }
            let main_name = text::from_utf8_lossy(main.as_slice());
            let tree_name = text::from_utf8_lossy(tree.as_slice());
            proof {
                if path::names_sound(all) {
                    assert(all[i - 1] == Part::Normal(main@) && all[i + 2] == Part::Normal(tree@));
                    lemma_shown_name(main@);
                    lemma_shown_name(tree@);
                }
            }
            Some((main_name, tree_name))
        },
        _ => None,
    }
}

/// How a project is shown: under the names of its worktree where it has them,
/// else under its own.
pub open spec fn shown_as(names: Option<(Seq<char>, Seq<char>)>, project: Seq<char>) -> Seq<char> {
    match names {
        Some((main, tree)) => main + " ("@ + tree + ")"@,
        None => project,
    }
}

/// The label of a shared directory.
pub open spec fn label_of(shared: bool, kind: OutputKind) -> Option<Seq<char>> {
    match (shared, kind) {
        (true, OutputKind::Target) => Some("Shared Target Dir"@),
        (true, OutputKind::Build) => Some("Shared Build Dir"@),
        _ => None,
    }
}

/// A path as it resolves, where it does.
pub open spec fn resolved(raw: Seq<u8>, canonical: Option<FsPath>) -> Seq<u8> {
    match canonical {
        Some(c) => c@,
        None => raw,
    }
}

impl TargetEntry {
    /// The name of the project directory as text, empty where it has none.
    pub open spec fn project_text(&self) -> Seq<char> {
        match path::name_of(self.project_path.parts()) {
            Some(name) => text::shown(name),
            None => Seq::empty(),
        }
    }

    /// The name of the project directory.
    pub fn project_name(&self) -> (r: String)
        ensures
            r@ == self.project_text(),
    {
        match self.project_path.file_name() {
            Some(name) => text::from_utf8_lossy(name.as_slice()),
            None => String::new(),
        }
    }

    /// PROJECT cell text. A linked git worktree reads as `main (tree)`,
    /// everything else as the directory name.
    pub fn display_name(&self, probes: &Vec<GitProbe>) -> (r: String)
        ensures
            r@ == match shown_names(nearest_worktree(self.project_path.parts(), probes@, 0)) {
                Some((main, tree)) => main + " ("@ + tree + ")"@,
                None => self.project_text(),
            },
            r@ == shown_as(
                shown_names(nearest_worktree(self.project_path.parts(), probes@, 0)),
                self.project_text(),
            ),
    {
        match self.worktree_names(probes) {
            Some((main, tree)) => main.concat(" (").concat(tree.as_str()).concat(")"),
            None => self.project_name(),
        }
    }

    /// Main project name and worktree name when a linked-worktree `.git` file
    /// (`gitdir: <main>/.git/worktrees/<tree>`) stands in `project_path` or
    /// the nearest ancestor with a `.git`. Plain repositories, submodules
    /// (`.../modules/...`) and unreadable pointers have none. `probes` says
    /// what stands at `.git` in `project_path` and its ancestors, nearest
    /// first.
    pub fn worktree_names(&self, probes: &Vec<GitProbe>) -> (r: Option<(String, String)>)
        ensures
            names_text(r) == shown_names(nearest_worktree(self.project_path.parts(), probes@, 0)),
            are_dir_names(r),
    {
        proof {
            path::law_components_well_formed(self.project_path@);
        }
        let project = self.project_path.components();
        let ghost all = self.project_path.parts();
        let rooted = self.project_path.is_absolute();
        assert(rooted == (all.len() > 0 && all[0] == Part::RootDir)) by {
            path::lemma_rooted(self.project_path@);
        }
        let mut k: usize = 0;
        while k < probes.len() && (k < project.len() || (k == project.len() && !rooted))
            invariant
                k <= probes@.len(),
                all == path::parts(project@),
                all == self.project_path.parts(),
                rooted == (all.len() > 0 && all[0] == Part::RootDir),
                path::well_formed(all),
                nearest_worktree(all, probes@, 0) == nearest_worktree(all, probes@, k as int),
            decreases probes@.len() - k,
        {
            match &probes[k] {
                GitProbe::Absent => {},
                GitProbe::Directory => {
                    return None;
                },
                GitProbe::File(content) => {
                    return match content {
                        Some(content) => {
                            let base = vstd::slice::slice_subrange(
                                project.as_slice(),
                                0,
                                project.len() - k,
                            );
                            assert(path::parts(base@) =~= all.take(all.len() - k));
                            assert(path::names_sound(path::parts(base@))) by {
                                assert forall|i: int| 0 <= i < base@.len() implies (
                                #[trigger] path::parts(base@)[i] matches Part::Normal(name)
                                    ==> path::is_name(name)) by {
                                    assert(path::parts(base@)[i] == all[i]);
                                }
                            }
                            Self::parse_worktree_git_file(content.as_str(), base)
                        },
                        None => None,
                    };
                },
            }
            k = k + 1;
        }
        None
    }

    /// Reads the text of a `.git` file that stands in the directory with the
    /// components `git_base`.
    pub fn parse_worktree_git_file(content: &str, git_base: &[Component]) -> (r: Option<
        (String, String),
    >)
        ensures
            names_text(r) == shown_names(worktree_of(content@, path::parts(git_base@))),
            path::names_sound(path::parts(git_base@)) ==> are_dir_names(r),
    {
        let chars = text::chars_of(content);
        let rest = match text::strip_prefix(chars.as_slice(), "gitdir:") {
            Some(rest) => rest,
            None => {
                return None;
            },
        };
        let trimmed = text::trim(rest);
        if trimmed.len() == 0 {
            return None;
        }
        let raw = text::string_of(trimmed);
        let pointer = FsPath::from_text(raw.as_str());
        let tail = pointer.components();
        let mut done: Vec<Component> = Vec::new();
        let ghost base = path::parts(git_base@);
        let ghost mut seen: Seq<Part> = Seq::empty();
        assert(path::parts(done@) =~= path::cleaned(seen));
        if !pointer.is_absolute() {
            let mut i: usize = 0;
            assert(base.take(0) =~= Seq::<Part>::empty());
            while i < git_base.len()
                invariant
                    i <= git_base@.len(),
                    base == path::parts(git_base@),
                    path::parts(done@) == path::cleaned(base.take(i as int)),
                decreases git_base@.len() - i,
            {
                path::push_cleaned(&mut done, &git_base[i]);
                assert(base.take(i + 1).drop_last() =~= base.take(i as int));
                i = i + 1;
            }
            proof {
                seen = base;
                assert(base.take(i as int) =~= base);
            }
        }
        let ghost last = path::parts(tail@);
        let mut i: usize = 0;
        assert(seen + last.take(0) =~= seen);
        while i < tail.len()
            invariant
                i <= tail@.len(),
                last == path::parts(tail@),
                path::parts(done@) == path::cleaned(seen + last.take(i as int)),
            decreases tail@.len() - i,
        {
            path::push_cleaned(&mut done, &tail[i]);
            assert((seen + last.take(i + 1)).drop_last() =~= seen + last.take(i as int));
            i = i + 1;
        }
        assert(last.take(i as int) =~= last);
        assert(seen + last =~= path::joined_parts(base, pointer@));
        proof {
            if path::names_sound(base) {
                lemma_joined_names(base, pointer@);
                path::lemma_cleanup_keeps_names(seen + last);
            }
        }
        read_pointer(&done)
    }

    /// Display name for a shared `$CARGO_HOME` directory, if this is one.
    pub fn shared_label(&self) -> (r: Option<&'static str>)
        ensures
            r == (if !self.shared {
                None
            } else {
                match self.kind {
                    OutputKind::Target => Some("Shared Target Dir"),
                    OutputKind::Build => Some("Shared Build Dir"),
                }
            }),
            match r {
                Some(label) => label_of(self.shared, self.kind) == Some(label@),
                None => label_of(self.shared, self.kind) is None,
            },
    {
        if !self.shared {
            return None;
        }
        match self.kind {
            OutputKind::Target => Some("Shared Target Dir"),
            OutputKind::Build => Some("Shared Build Dir"),
        }
    }
}

/// The scan root as the file system resolves it, or as given where it does
/// not: `canonical` is what resolving `raw` gave.
pub fn resolve_root(raw: &FsPath, canonical: Option<FsPath>) -> (r: FsPath)
    ensures
        r@ == match canonical {
            Some(c) => c@,
            None => raw@,
        },
        r@ == resolved(raw@, canonical),
{
    match canonical {
        Some(c) => c,
        None => raw.clone(),
    }
}

proof fn lemma_joined_names(base: Seq<Part>, other: Seq<u8>)
    requires
        path::names_sound(base),
    ensures
        path::names_sound(path::joined_parts(base, other)),
{
    path::law_components_well_formed(other);
    let (tail, all) = (path::components_of(other), path::joined_parts(base, other));
    assert forall|i: int| 0 <= i < all.len() implies (#[trigger] all[i] matches Part::Normal(name)
        ==> path::is_name(name)) by {
        if path::is_rooted(other) {
            assert(all[i] == tail[i]);
        } else if i < base.len() {
            assert(all[i] == base[i]);
        } else {
            assert(all[i] == tail[i - base.len()]);
        }
    }
}

/// `parts` are `<front>/<main>/.git/worktrees/<tree>`, and this is the first
/// `.git` in it.
pub open spec fn is_pointer(
    parts: Seq<Part>,
    front: Seq<Part>,
    main: Seq<u8>,
    tree: Seq<u8>,
) -> bool {
    &&& parts == front.push(Part::Normal(main)) + seq![
        Part::Normal(encode_utf8(".git"@)),
        Part::Normal(encode_utf8("worktrees"@)),
        Part::Normal(tree),
    ]
    &&& !front.push(Part::Normal(main)).contains(Part::Normal(encode_utf8(".git"@)))
}

/// A path names a main project and a tree exactly where it is of the form
/// `<main>/.git/worktrees/<tree>`, with nothing behind: then it names the last
/// directory of `<main>`, and `<tree>`.
pub proof fn law_pointer_form(parts: Seq<Part>, main: Seq<u8>, tree: Seq<u8>)
    ensures
        pointer_names(parts) == Some((main, tree)) <==> main.len() > 0 && exists|front: Seq<Part>|
            is_pointer(parts, front, main, tree),
{
    let git = Part::Normal(encode_utf8(".git"@));
    if pointer_names(parts) == Some((main, tree)) {
        let i = text::find(parts, git);
        lemma_found(parts, git);
        let front = parts.take(i - 1);
        assert(parts.take(i) =~= front.push(Part::Normal(main)));
        assert(parts =~= front.push(Part::Normal(main)) + seq![
            git,
            Part::Normal(encode_utf8("worktrees"@)),
            Part::Normal(tree),
        ]);
        assert(is_pointer(parts, front, main, tree));
    }
    if main.len() > 0 && exists|front: Seq<Part>| is_pointer(parts, front, main, tree) {
        let front = choose|front: Seq<Part>| is_pointer(parts, front, main, tree);
        let lead = front.push(Part::Normal(main));
        assert forall|j: int| 0 <= j < lead.len() implies parts[j] != git by {
            assert(lead.contains(lead[j]));
        }
        text::lemma_find(parts, git, lead.len() as int);
        assert(parts.take(lead.len() as int) =~= lead);
    }
}

/// The text of a `.git` file names a main project and a tree exactly where it
/// reads `gitdir:` and a path that is, relative to the directory of the file
/// and cleaned up, of the form `<main>/.git/worktrees/<tree>`.
pub proof fn law_git_file_form(content: Seq<char>, base: Seq<Part>, main: Seq<u8>, tree: Seq<u8>)
    ensures
        worktree_of(content, base) == Some((main, tree)) <==> {
            let raw = text::trimmed(content.skip("gitdir:"@.len() as int));
            let done = path::cleaned(path::joined_parts(base, encode_utf8(raw)));
            &&& text::has_prefix(content, "gitdir:"@)
            &&& raw.len() > 0
            &&& main.len() > 0
            &&& exists|front: Seq<Part>| is_pointer(done, front, main, tree)
        },
{
    let raw = text::trimmed(content.skip("gitdir:"@.len() as int));
    law_pointer_form(path::cleaned(path::joined_parts(base, encode_utf8(raw))), main, tree);
}

/// The first `x` stands where it is found, and not before.
proof fn lemma_found(s: Seq<Part>, x: Part)
    ensures
        0 <= text::find(s, x) <= s.len(),
        text::find(s, x) < s.len() ==> s[text::find(s, x)] == x,
        !s.take(text::find(s, x)).contains(x),
    decreases s.len(),
{
    let i = text::find(s, x);
    if s.len() > 0 && s.first() != x {
        let rest = s.drop_first();
        lemma_found(rest, x);
        assert forall|j: int| 0 <= j < i implies s[j] != x by {
            if j > 0 {
                assert(rest.take(i - 1)[j - 1] == s[j]);
                assert(rest.take(i - 1).contains(rest.take(i - 1)[j - 1]));
            }
        }
    }
}

/// A path that goes on otherwise behind its first `.git`, as a submodule's
/// does, in a linked worktree too, or has none, names nothing.
pub proof fn law_other_pointers_name_nothing(parts: Seq<Part>)
    requires
        ({
            let i = text::find(parts, Part::Normal(encode_utf8(".git"@)));
            i + 3 == parts.len() ==> parts[i + 1] != Part::Normal(encode_utf8("worktrees"@))
        }),
    ensures
        pointer_names(parts) is None,
{
}

/// The names that a `.git` file gives are names of directories, never empty,
/// `.` or `..`.
pub proof fn law_pointer_gives_names(content: Seq<char>, base: Seq<Part>)
    requires
        path::names_sound(base),
    ensures
        worktree_of(content, base) matches Some((main, tree)) ==> path::is_name(main)
            && path::is_name(tree),
{
    if worktree_of(content, base) is Some {
        let raw = text::trimmed(content.skip("gitdir:"@.len() as int));
        let all = path::joined_parts(base, encode_utf8(raw));
        lemma_joined_names(base, encode_utf8(raw));
        path::lemma_cleanup_keeps_names(all);
        let done = path::cleaned(all);
        let i = text::find(done, Part::Normal(encode_utf8(".git"@)));
        lemma_found(done, Part::Normal(encode_utf8(".git"@)));
        assert(done.take(i).last() == done[i - 1]);
        assert(done[i + 2] is Normal);
    }
}

/// The nearest directory with a `.git` decides: nothing further up is read.
pub proof fn law_nearest_git_decides(
    project: Seq<Part>,
    near: Seq<GitProbe>,
    far: Seq<GitProbe>,
    other: Seq<GitProbe>,
    k: int,
)
    requires
        0 <= k < near.len(),
        near[near.len() - 1] !is Absent,
    ensures
        nearest_worktree(project, near + far, k) == nearest_worktree(project, near + other, k),
    decreases near.len() - k,
{
    assert((near + far)[k] == near[k] && (near + other)[k] == near[k]);
    if k < near.len() - 1 {
        law_nearest_git_decides(project, near, far, other, k + 1);
    }
}

/// A plain repository is no linked worktree.
pub proof fn law_plain_repo_has_no_worktree(project: Seq<Part>, probes: Seq<GitProbe>, n: int)
    requires
        0 <= n < probes.len(),
        forall|i: int| 0 <= i < n ==> #[trigger] probes[i] is Absent,
        probes[n] is Directory,
    ensures
        nearest_worktree(project, probes, 0) is None,
{
    lemma_skips_absent(project, probes, n, 0);
}

proof fn lemma_skips_absent(project: Seq<Part>, probes: Seq<GitProbe>, n: int, k: int)
    requires
        0 <= k <= n < probes.len(),
        forall|i: int| 0 <= i < n ==> #[trigger] probes[i] is Absent,
        probes[n] is Directory,
    ensures
        nearest_worktree(project, probes, k) is None,
    decreases n - k,
{
    if k < n {
        assert(probes[k] is Absent);
        lemma_skips_absent(project, probes, n, k + 1);
    }
}

/// A `.git` file that reads `gitdir: <main>/.git/worktrees/<tree>` names the
/// last directory of `<main>` and the tree, wherever it stands.
pub proof fn law_worktree_file_is_read(
    main: Seq<char>,
    front: Seq<Part>,
    name: Seq<u8>,
    tree: Seq<char>,
    base: Seq<Part>,
)
    requires
        main.len() > 0,
        main[0] == '/',
        tree.len() > 0,
        !text::white_space(tree.last()),
        path::is_name(encode_utf8(tree)),
        name.len() > 0,
        path::cleaned(path::components_of(encode_utf8(main))) == front.push(Part::Normal(name)),
        !front.push(Part::Normal(name)).contains(Part::Normal(encode_utf8(".git"@))),
    ensures
        worktree_of("gitdir: "@ + main + "/.git/worktrees/"@ + tree + "\n"@, base) == Some(
            (name, encode_utf8(tree)),
        ),
{
    let raw = main + "/.git/worktrees/"@ + tree;
    let content = "gitdir: "@ + main + "/.git/worktrees/"@ + tree + "\n"@;
    lemma_pointer_line(main, tree);
    let all = path::components_of(encode_utf8(raw));
    lemma_pointer_parts(main, tree);
    assert(is_pointer(path::cleaned(all), front, name, encode_utf8(tree)));
    law_pointer_form(path::cleaned(all), name, encode_utf8(tree));
    assert(path::joined_parts(base, encode_utf8(raw)) == all);
}

/// The line holds the pointer.
proof fn lemma_pointer_line(main: Seq<char>, tree: Seq<char>)
    requires
        main.len() > 0,
        main[0] == '/',
        tree.len() > 0,
        !text::white_space(tree.last()),
    ensures
        ({
            let content = "gitdir: "@ + main + "/.git/worktrees/"@ + tree + "\n"@;
            &&& text::has_prefix(content, "gitdir:"@)
            &&& text::trimmed(content.skip("gitdir:"@.len() as int)) == main + "/.git/worktrees/"@
                + tree
        }),
{
    let raw = main + "/.git/worktrees/"@ + tree;
    let content = "gitdir: "@ + main + "/.git/worktrees/"@ + tree + "\n"@;
    reveal_strlit("gitdir:");
    reveal_strlit("gitdir: ");
    reveal_strlit("/.git/worktrees/");
    reveal_strlit("\n");
    assert(content.take(7) =~= "gitdir:"@);
    let rest = content.skip(7);
    assert(rest =~= seq![' '] + raw + seq!['\n']);
    assert(rest[1] == main[0]);
    assert(raw.last() == tree.last());
    text::lemma_trim_start(rest, 1);
    assert(rest.skip(1) =~= raw + seq!['\n']);
    let inner = rest.skip(1);
    assert(inner[raw.len() - 1] == raw.last());
    text::lemma_trim_end(inner, raw.len() as int);
    assert(inner.take(raw.len() as int) =~= raw);
}

/// The components of a pointer to a linked worktree, after cleanup.
proof fn lemma_pointer_parts(main: Seq<char>, tree: Seq<char>)
    requires
        main.len() > 0,
        main[0] == '/',
        path::is_name(encode_utf8(tree)),
    ensures
        ({
            let raw = encode_utf8(main + "/.git/worktrees/"@ + tree);
            &&& path::is_rooted(raw)
            &&& path::cleaned(path::components_of(raw)) == path::cleaned(
                path::components_of(encode_utf8(main)),
            ) + seq![
                Part::Normal(encode_utf8(".git"@)),
                Part::Normal(encode_utf8("worktrees"@)),
                Part::Normal(encode_utf8(tree)),
            ]
        }),
{
    lemma_pointer_bytes(main, tree);
    let m = encode_utf8(main);
    let git = encode_utf8(".git"@);
    let trees = encode_utf8("worktrees"@);
    let t = encode_utf8(tree);
    let sep = path::slash();
    let one = m.push(sep) + git;
    let with_trees = one.push(sep) + trees;
    let whole = with_trees.push(sep) + t;
    path::lemma_name_adds_itself(git);
    path::lemma_name_adds_itself(trees);
    path::lemma_name_adds_itself(t);
    path::lemma_slash_appends(m, git);
    path::lemma_slash_appends(one, trees);
    path::lemma_slash_appends(with_trees, t);
    let front = path::components_of(m);
    let tail = seq![Part::Normal(git), Part::Normal(trees), Part::Normal(t)];
    assert(path::components_of(whole) =~= front + tail);
    assert(path::cleaned(front + tail) =~= path::cleaned(front) + tail) by {
        let a = front.push(Part::Normal(git));
        let b = a.push(Part::Normal(trees));
        let c = b.push(Part::Normal(t));
        assert(c =~= front + tail);
        assert(c.drop_last() =~= b && b.drop_last() =~= a && a.drop_last() =~= front);
        assert(path::cleaned(a) == path::cleaned(front).push(Part::Normal(git)));
        assert(path::cleaned(b) == path::cleaned(a).push(Part::Normal(trees)));
        assert(path::cleaned(c) == path::cleaned(b).push(Part::Normal(t)));
    }
}

/// The bytes of a pointer to a linked worktree.
proof fn lemma_pointer_bytes(main: Seq<char>, tree: Seq<char>)
    requires
        main.len() > 0,
        main[0] == '/',
    ensures
        encode_utf8(main + "/.git/worktrees/"@ + tree) == ((encode_utf8(main).push(path::slash())
            + encode_utf8(".git"@)).push(path::slash()) + encode_utf8("worktrees"@)).push(
            path::slash(),
        ) + encode_utf8(tree),
        path::is_name(encode_utf8(".git"@)),
        path::is_name(encode_utf8("worktrees"@)),
        encode_utf8(main).len() > 0,
        encode_utf8(main)[0] == path::slash(),
{
    reveal_strlit("/.git/worktrees/");
    reveal_strlit(".git");
    reveal_strlit("worktrees");
    let bar = seq!['/'];
    is_ascii_chars_encode_utf8(bar);
    is_ascii_chars_encode_utf8(".git"@);
    is_ascii_chars_encode_utf8("worktrees"@);
    assert(encode_utf8(bar) =~= seq![path::slash()]);
    let (git, trees) = (".git"@, "worktrees"@);
    assert("/.git/worktrees/"@ =~= bar + git + bar + trees + bar);
    let mid = bar + git + bar + trees + bar;
    text::lemma_encode_concat(main + mid, tree);
    text::lemma_encode_concat(main, mid);
    text::lemma_encode_concat(bar + git + bar + trees, bar);
    text::lemma_encode_concat(bar + git + bar, trees);
    text::lemma_encode_concat(bar + git, bar);
    text::lemma_encode_concat(bar, git);
    let m = encode_utf8(main);
    assert(main =~= bar + main.drop_first());
    text::lemma_encode_concat(bar, main.drop_first());
    assert(encode_utf8(main + "/.git/worktrees/"@ + tree) =~= ((m.push(path::slash())
        + encode_utf8(git)).push(path::slash()) + encode_utf8(trees)).push(path::slash())
        + encode_utf8(tree));
    let g = encode_utf8(git);
    let w = encode_utf8(trees);
    assert(g.len() == 4 && w.len() == 9);
    assert(g[0] == 46 && g[1] == 103 && g[2] == 105 && g[3] == 116);
    assert(w[0] == 119 && w[1] == 111 && w[2] == 114 && w[3] == 107 && w[4] == 116 && w[5] == 114
        && w[6] == 101 && w[7] == 101 && w[8] == 115);
    assert(!g.contains(path::slash()));
    assert(!w.contains(path::slash()));
}

/// The nearest `.git` decides: where it is a file that can be read, what that
/// file names in the directory that it stands in, the project's or the one so
/// many components up; where it is anything else, nothing. Without any `.git`
/// there is no worktree.
pub proof fn law_nearest_git_is_read(project: Seq<Part>, probes: Seq<GitProbe>, n: int)
    requires
        0 <= n <= probes.len(),
        forall|i: int| 0 <= i < n ==> #[trigger] probes[i] is Absent,
        n < probes.len() ==> !(probes[n] is Absent),
        project.len() > 0 && project[0] == Part::RootDir ==> n < project.len(),
        project.len() == 0 || project[0] != Part::RootDir ==> n <= project.len(),
    ensures
        n < probes.len() && probes[n] is Directory ==> nearest_worktree(project, probes, 0) is None,
        n < probes.len() && probes[n] == GitProbe::File(None) ==> nearest_worktree(
            project,
            probes,
            0,
        ) is None,
        n < probes.len() && probes[n] is File && probes[n]->File_0 is Some ==> nearest_worktree(
            project,
            probes,
            0,
        ) == worktree_of(probes[n]->File_0->0@, project.take(project.len() - n)),
        n == probes.len() ==> nearest_worktree(project, probes, 0) is None,
{
    lemma_absent_are_passed(project, probes, n, 0);
}

proof fn lemma_absent_are_passed(project: Seq<Part>, probes: Seq<GitProbe>, n: int, k: int)
    requires
        0 <= k <= n <= probes.len(),
        n < ancestor_count(project),
        forall|i: int| 0 <= i < n ==> #[trigger] probes[i] is Absent,
    ensures
        nearest_worktree(project, probes, k) == nearest_worktree(project, probes, n),
    decreases n - k,
{
    if k < n {
        assert(probes[k] is Absent);
        lemma_absent_are_passed(project, probes, n, k + 1);
    }
}

/// A directory and its ancestors are one more than its parent and that one's
/// ancestors; the root and the empty path have none above them.
pub proof fn law_ancestors_are_counted(parts: Seq<Part>, last: Part)
    ensures
        ancestor_count(Seq::<Part>::empty()) == 1,
        ancestor_count(seq![Part::RootDir]) == 1,
        parts.len() > 0 || !(last is RootDir) ==> ancestor_count(parts.push(last))
            == ancestor_count(parts) + 1,
{
    if parts.len() > 0 {
        assert(parts.push(last)[0] == parts[0]);
    }
}

/// A project is called by the last name of its path, and by nothing where the
/// path ends in none; two names are shown each for itself.
pub proof fn law_project_is_called_by_its_name(
    entry: TargetEntry,
    name: Seq<char>,
    main: Seq<char>,
    tree: Seq<char>,
)
    ensures
        entry.project_path.parts().len() > 0 && entry.project_path.parts().last() == Part::Normal(
            encode_utf8(name),
        ) ==> entry.project_text() == name,
        entry.project_path.parts().len() == 0 || !(entry.project_path.parts().last() is Normal)
            ==> entry.project_text().len() == 0,
        shown_names(Some((encode_utf8(main), encode_utf8(tree)))) == Some((main, tree)),
        shown_names(None) is None,
{
    text::law_text_is_shown_as_it_is(name);
    text::law_text_is_shown_as_it_is(main);
    text::law_text_is_shown_as_it_is(tree);
}

/// A `.git` file that does not start with `gitdir:`, or has nothing but
/// whitespace behind it, names no worktree.
pub proof fn law_other_git_files_name_nothing(content: Seq<char>, base: Seq<Part>)
    requires
        content.len() < 7 || content.take(7) != "gitdir:"@ || forall|i: int|
            7 <= i < content.len() ==> text::white_space(#[trigger] content[i]),
    ensures
        worktree_of(content, base) is None,
{
    reveal_strlit("gitdir:");
    let rest = content.skip(7);
    let none = Seq::<char>::empty();
    if content.len() >= 7 && content.take(7) == "gitdir:"@ {
        assert forall|i: int| 0 <= i < rest.len() implies text::white_space(
            #[trigger] rest[i],
        ) by {
            assert(rest[i] == content[i + 7]);
        }
        text::law_trimming_takes_whitespace_off(rest, none, none);
        assert(rest + none + none =~= rest);
    }
}

/// A project in a linked worktree is shown as the main project with the tree in
/// brackets behind it, both whole; any other under its own name.
pub proof fn law_worktree_is_shown_in_brackets(
    main: Seq<char>,
    tree: Seq<char>,
    project: Seq<char>,
)
    ensures
        shown_as(None, project) == project,
        shown_as(Some((main, tree)), project).len() == main.len() + tree.len() + 3,
        shown_as(Some((main, tree)), project).take(main.len() as int) == main,
        shown_as(Some((main, tree)), project)[main.len() as int] == ' ',
        shown_as(Some((main, tree)), project)[main.len() as int + 1] == '(',
        shown_as(Some((main, tree)), project).subrange(
            main.len() as int + 2,
            (main.len() + tree.len()) as int + 2,
        ) == tree,
        shown_as(Some((main, tree)), project).last() == ')',
{
    reveal_strlit(" (");
    reveal_strlit(")");
    let text = shown_as(Some((main, tree)), project);
    assert(text.take(main.len() as int) =~= main);
    assert(text.subrange(main.len() as int + 2, (main.len() + tree.len()) as int + 2) =~= tree);
}

/// A shared directory is labelled by its kind, and no other has a label.
pub proof fn law_shared_directories_are_labelled(kind: OutputKind)
    ensures
        label_of(false, kind) is None,
        label_of(true, kind) is Some,
        label_of(true, OutputKind::Target) == Some("Shared Target Dir"@),
        label_of(true, OutputKind::Build) == Some("Shared Build Dir"@),
{
}

/// A path that resolves counts as what it resolves to, and one that does not as
/// it stands.
pub proof fn law_resolved_path_counts(raw: Seq<u8>, canonical: FsPath)
    ensures
        resolved(raw, Some(canonical)) == canonical.bytes@,
        resolved(raw, None) == raw,
{
}

} // verus!
