//! Metadata-index fast path for `Cargo.toml` discovery.
//!
//! Replaces the file system walk when the index can answer `name ==
//! Cargo.toml`. Hits are filtered to match what the walk would find. Where
//! the index gives nothing usable, discovery falls back to the walk.

use vstd::prelude::*;
use vstd::slice::*;
use vstd::string::*;
use vstd::utf8::*;

use crate::order;
use crate::path;
use crate::path::{FsPath, Part};
use crate::text;

verus! {

/// A `Cargo.toml` that the index names. Hits rank by depth, so that custom
/// output directories register before what lies in them.
#[derive(Debug)]
pub struct Hit {
    pub path: FsPath,
}

/// What to do with a hit.
#[derive(Debug)]
pub enum HitStep {
    /// Leave it out.
    Skip,
    /// Look first whether its directory is a symbolic link.
    ProbeSymlink { manifest_dir: FsPath },
    /// Ask first whether the ignore rules and the custom output directories
    /// leave its directory in.
    ProbeAllowed { manifest_dir: FsPath },
    /// Record its directory as a project, and as repositories those of
    /// `ancestors`, the directory itself included, that hold a `.git`.
    Accept { manifest_dir: FsPath, ancestors: Vec<FsPath> },
}

/// What a query of the index gave.
#[derive(Clone, Copy, Debug)]
pub struct IndexAnswer {
    /// Whether the fast path is switched off.
    pub disabled: bool,
    /// How many hits there were, `None` where the query failed.
    pub indexed: Option<usize>,
    /// How many of them were accepted.
    pub accepted: usize,
}

/// `a` and `b` are the same letter, `b` in lower case.
pub open spec fn same_letter(a: char, b: char) -> bool {
    a == b || (65 <= a as u32 <= 90 && a as u32 + 32 == b as u32)
}

/// `a` is `b`, which is in lower case, but for the case of ASCII letters.
pub open spec fn same_but_case(a: Seq<char>, b: Seq<char>) -> bool {
    a.len() == b.len() && forall|i: int| 0 <= i < a.len() ==> same_letter(#[trigger] a[i], b[i])
}

/// The values that switch the fast path off.
pub open spec fn is_off(value: Seq<char>) -> bool {
    ||| value == "0"@
    ||| value == "off"@
    ||| value == "OFF"@
    ||| same_but_case(value, "false"@)
    ||| same_but_case(value, "no"@)
}

/// A component of the path is the name `name`.
pub open spec fn has_component(parts: Seq<Part>, name: Seq<char>) -> bool {
    parts.contains(Part::Normal(encode_utf8(name)))
}

pub open spec fn is_depth_order() -> spec_fn(Seq<Part>, Seq<Part>) -> bool {
    |a: Seq<Part>, b: Seq<Part>| a.len() <= b.len()
}

pub open spec fn hit_image() -> spec_fn(Hit) -> Seq<Part> {
    |h: Hit| h.path.parts()
}

/// The directories from `dir` up to `root`, nearest first.
pub open spec fn dirs_up_to(dir: Seq<Part>, root: Seq<Part>) -> Seq<Seq<Part>>
    decreases dir.len(),
{
    if !path::is_prefix(dir, root) {
        Seq::empty()
    } else if dir.len() == root.len() {
        seq![dir]
    } else {
        seq![dir] + dirs_up_to(dir.drop_last(), root)
    }
}

/// `step` is what the hit `hit` calls for, from what is known of its
/// directory.
pub open spec fn is_step(
    root: Seq<Part>,
    hit: Seq<Part>,
    is_symlink: Option<bool>,
    is_allowed: Option<bool>,
    step: HitStep,
) -> bool {
    match path::parent_of(hit) {
        None => step is Skip,
        Some(dir) => {
            if has_component(dir, ".git"@) || has_component(dir, ".cargo"@) {
                step is Skip
            } else if is_symlink is None {
                step matches HitStep::ProbeSymlink { manifest_dir } && manifest_dir.parts() == dir
            } else if is_symlink == Some(true) || !path::is_prefix(dir, root) {
                step is Skip
            } else if is_allowed is None {
                step matches HitStep::ProbeAllowed { manifest_dir } && manifest_dir.parts() == dir
            } else if is_allowed == Some(false) {
                step is Skip
            } else {
                step matches HitStep::Accept { manifest_dir, ancestors } && manifest_dir.parts()
                    == dir && path::path_parts(ancestors@) == dirs_up_to(dir, root)
            }
        },
    }
}

impl order::Ranked for Hit {
    open spec fn ranked_le(&self, other: &Hit) -> bool {
        self.path.parts().len() <= other.path.parts().len()
    }

    proof fn ranked_total(a: &Hit, b: &Hit) {
    }

    proof fn ranked_transitive(a: &Hit, b: &Hit, c: &Hit) {
    }

    fn in_order(&self, other: &Hit) -> (r: bool) {
        let mine = self.path.components();
        let theirs = other.path.components();
        assert(path::parts(mine@).len() == mine@.len());
        assert(path::parts(theirs@).len() == theirs@.len());
        mine.len() <= theirs.len()
    }
}

fn is_same_but_case(a: &[char], b: &[char]) -> (r: bool)
    ensures
        r == same_but_case(a@, b@),
{
    if a.len() != b.len() {
        return false;
    }
    let mut i: usize = 0;
    while i < a.len()
        invariant
            i <= a@.len() == b@.len(),
            forall|j: int| 0 <= j < i ==> same_letter(#[trigger] a@[j], b@[j]),
        decreases a@.len() - i,
    {
        let x: u32 = a[i] as u32;
        let y: u32 = b[i] as u32;
        if a[i] != b[i] && !(65 <= x && x <= 90 && x + 32 == y) {
            assert(!same_letter(a@[i as int], b@[i as int]));
            return false;
        }
        i = i + 1;
    }
    true
}

/// Whether the value of the switch, where it is set, disables the fast path.
pub fn spotlight_disabled(value: Option<&str>) -> (r: bool)
    ensures
        r == (value matches Some(v) && is_off(v@)),
{
    match value {
        None => false,
        Some(v) => {
            let given = v.to_owned();
            if given == "0".to_owned() || given == "off".to_owned() || given == "OFF".to_owned() {
                return true;
            }
            let chars = text::chars_of(v);
            let no = text::chars_of("no");
            let off = text::chars_of("false");
            is_same_but_case(chars.as_slice(), off.as_slice()) || is_same_but_case(
                chars.as_slice(),
                no.as_slice(),
            )
        },
    }
}

/// Whether a component of `path` is the name `name`.
pub fn path_has_component(path: &FsPath, name: &str) -> (r: bool)
    ensures
        r == has_component(path.parts(), name@),
{
    let all = path.components();
    let ghost wanted = Part::Normal(encode_utf8(name@));
    let mut i: usize = 0;
    while i < all.len()
        invariant
            i <= all@.len(),
            path::parts(all@) == path.parts(),
            wanted == Part::Normal(encode_utf8(name@)),
            forall|j: int| 0 <= j < i ==> path.parts()[j] != wanted,
        decreases all@.len() - i,
    {
        assert(path.parts()[i as int] == all@[i as int]@);
        if all[i].is_named(name) {
            return true;
        }
        i = i + 1;
    }
    false
}

/// The hits, shallow ones first.
pub fn order_hits(hits: Vec<Hit>) -> (out: Vec<Hit>)
    ensures
        order::is_stable_sort(
            hits@.map_values(hit_image()),
            out@.map_values(hit_image()),
            is_depth_order(),
        ),
        order::is_stable_sort(hits@, out@, order::rank_order::<Hit>()),
{
    let out = order::stable_sort(hits);
    proof {
        order::lemma_sort_of_images(
            hits@,
            out@,
            order::rank_order::<Hit>(),
            hit_image(),
            is_depth_order(),
        );
    }
    out
}

/// The directories from `dir` up to `root`.
fn ancestors_within(dir: &FsPath, root: &FsPath) -> (out: Vec<FsPath>)
    ensures
        path::path_parts(out@) == dirs_up_to(dir.parts(), root.parts()),
{
    let ghost (d, r) = (dir.parts(), root.parts());
    let mut out: Vec<FsPath> = Vec::new();
    assert(path::path_parts(out@) =~= Seq::<Seq<Part>>::empty());
    if !dir.starts_with(root) {
        return out;
    }
    let all = dir.components();
    let base = root.components();
    assert(path::parts(all@).len() == all@.len());
    assert(path::parts(base@).len() == base@.len());
    let mut n: usize = all.len();
    assert(d.take(n as int) =~= d);
    while n > base.len()
        invariant
            base@.len() <= n <= all@.len(),
            d == path::parts(all@) && r == path::parts(base@),
            d == dir.parts(),
            path::is_prefix(d, r),
            dirs_up_to(d, r) == path::path_parts(out@) + dirs_up_to(d.take(n as int), r),
        decreases n,
    {
        let ghost before = out@;
        let here = slice_subrange(all.as_slice(), 0, n);
        proof {
            assert(path::parts(here@) =~= d.take(n as int));
            lemma_part_well_formed(dir@, n as int);
            assert(d.take(n as int).take(r.len() as int) =~= r);
            assert(d.take(n as int).drop_last() =~= d.take(n - 1));
        }
        let p = FsPath::of_components(here);
        out.push(p);
        assert(path::path_parts(out@) =~= path::path_parts(before).push(d.take(n as int)));
        assert(dirs_up_to(d, r) =~= path::path_parts(out@) + dirs_up_to(d.take(n - 1), r));
        n = n - 1;
    }
    let ghost before = out@;
    let here = slice_subrange(all.as_slice(), 0, n);
    proof {
        assert(path::parts(here@) =~= d.take(n as int));
        lemma_part_well_formed(dir@, n as int);
        assert(d.take(n as int).take(r.len() as int) =~= r);
    }
    let p = FsPath::of_components(here);
    out.push(p);
    assert(path::path_parts(out@) =~= path::path_parts(before).push(d.take(n as int)));
    assert(dirs_up_to(d.take(n as int), r) =~= seq![d.take(n as int)]);
    assert(path::path_parts(out@) =~= dirs_up_to(d, r));
    out
}

proof fn lemma_part_well_formed(bytes: Seq<u8>, n: int)
    requires
        0 <= n <= path::components_of(bytes).len(),
    ensures
        path::well_formed(path::components_of(bytes).take(n)),
{
    path::law_components_well_formed(bytes);
    let all = path::components_of(bytes);
    assert forall|i: int| 0 <= i < n implies match #[trigger] all.take(n)[i] {
        Part::RootDir => i == 0,
        Part::CurDir => i == 0,
        Part::ParentDir => true,
        Part::Normal(name) => path::is_name(name),
    } by {
        assert(all.take(n)[i] == all[i]);
    }
}

/// Decides on one hit under `root`, or says what has to be looked up first.
pub fn collect(
    root: &FsPath,
    hit: &Hit,
    is_symlink: Option<bool>,
    is_allowed: Option<bool>,
) -> (step: HitStep)
    ensures
        is_step(root.parts(), hit.path.parts(), is_symlink, is_allowed, step),
{
    let manifest_dir = match hit.path.parent() {
        Some(dir) => dir,
        None => {
            return HitStep::Skip;
        },
    };
    if path_has_component(&manifest_dir, ".git") || path_has_component(&manifest_dir, ".cargo") {
        return HitStep::Skip;
    }
    match is_symlink {
        None => {
            return HitStep::ProbeSymlink { manifest_dir };
        },
        Some(true) => {
            return HitStep::Skip;
        },
        Some(false) => {},
    }
    if !manifest_dir.starts_with(root) {
        return HitStep::Skip;
    }
    match is_allowed {
        None => HitStep::ProbeAllowed { manifest_dir },
        Some(false) => HitStep::Skip,
        Some(true) => {
            let ancestors = ancestors_within(&manifest_dir, root);
            HitStep::Accept { manifest_dir, ancestors }
        },
    }
}

/// No walk is needed.
pub open spec fn needs_no_walk(answer: IndexAnswer) -> bool {
    !answer.disabled && answer.accepted > 0 && (answer.indexed matches Some(n) && n > 0)
}

/// Whether the index has answered, so that no walk is needed: it was asked,
/// and something it named was accepted.
pub fn index_answers(answer: &IndexAnswer) -> (r: bool)
    ensures
        r == needs_no_walk(*answer),
        r == (!answer.disabled && answer.indexed is Some && answer.indexed->0 > 0
            && answer.accepted > 0),
{
    if answer.disabled {
        return false;
    }
    match answer.indexed {
        None => false,
        Some(indexed) => indexed > 0 && answer.accepted > 0,
    }
}

/// A hit comes before those that lie deeper, so a project before the projects
/// in its directory.
pub proof fn law_shallow_hits_come_first(
    hits: Seq<Seq<Part>>,
    out: Seq<Seq<Part>>,
    i: int,
    j: int,
)
    requires
        order::is_stable_sort(hits, out, is_depth_order()),
        0 <= i < out.len(),
        0 <= j < out.len(),
        out[i].len() < out[j].len(),
    ensures
        i < j,
{
    order::law_sort_is_in_order(hits, out, is_depth_order());
    if j < i {
        assert(is_depth_order()(out[j], out[i]));
    }
}

/// Nothing outside the scan root, and nothing under `.git` or `.cargo`, is
/// ever accepted, and each directory looked at for a repository holds the
/// project and lies in the scan root.
pub proof fn law_accepted_hits_in_scope(
    root: Seq<Part>,
    hit: Seq<Part>,
    is_symlink: Option<bool>,
    is_allowed: Option<bool>,
    step: HitStep,
)
    requires
        is_step(root, hit, is_symlink, is_allowed, step),
        step is Accept,
    ensures
        path::is_prefix(step->Accept_manifest_dir.parts(), root),
        !has_component(step->Accept_manifest_dir.parts(), ".git"@),
        !has_component(step->Accept_manifest_dir.parts(), ".cargo"@),
        forall|i: int|
            0 <= i < step->ancestors@.len() ==> path::is_prefix(
                (#[trigger] step->ancestors@[i]).parts(),
                root,
            ) && path::is_prefix(step->Accept_manifest_dir.parts(), step->ancestors@[i].parts()),
{
    let dir = step->Accept_manifest_dir.parts();
    lemma_dirs_up_to(dir, root);
    assert forall|i: int| 0 <= i < step->ancestors@.len() implies path::is_prefix(
        (#[trigger] step->ancestors@[i]).parts(),
        root,
    ) && path::is_prefix(dir, step->ancestors@[i].parts()) by {
        assert(path::path_parts(step->ancestors@)[i] == step->ancestors@[i].parts());
    }
}

proof fn lemma_dirs_up_to(dir: Seq<Part>, root: Seq<Part>)
    ensures
        forall|i: int|
            0 <= i < dirs_up_to(dir, root).len() ==> path::is_prefix(
                #[trigger] dirs_up_to(dir, root)[i],
                root,
            ) && path::is_prefix(dir, dirs_up_to(dir, root)[i]),
    decreases dir.len(),
{
    if path::is_prefix(dir, root) {
        assert(dir.take(dir.len() as int) =~= dir);
        if dir.len() != root.len() {
            let up = dir.drop_last();
            lemma_dirs_up_to(up, root);
            let all = dirs_up_to(dir, root);
            assert forall|i: int| 0 <= i < all.len() implies path::is_prefix(
                #[trigger] all[i],
                root,
            ) && path::is_prefix(dir, all[i]) by {
                if i > 0 {
                    assert(all[i] == dirs_up_to(up, root)[i - 1]);
                    let a = all[i];
                    assert(up.take(a.len() as int) =~= dir.take(a.len() as int));
                }
            }
        }
    }
}

/// The fast path is switched off by `0`, by `off` and `OFF`, and by `no` and
/// `false` in letters of either case: by these values and no others.
pub proof fn law_what_switches_off(value: Seq<char>)
    ensures
        is_off(value) <==> (value == seq!['0'] || value == seq!['o', 'f', 'f'] || value == seq![
            'O',
            'F',
            'F',
        ] || (value.len() == 2 && (value[0] == 'n' || value[0] == 'N') && (value[1] == 'o'
            || value[1] == 'O')) || (value.len() == 5 && (value[0] == 'f' || value[0] == 'F') && (
        value[1] == 'a' || value[1] == 'A') && (value[2] == 'l' || value[2] == 'L') && (value[3]
            == 's' || value[3] == 'S') && (value[4] == 'e' || value[4] == 'E'))),
{
    reveal_strlit("0");
    reveal_strlit("off");
    reveal_strlit("OFF");
    reveal_strlit("false");
    reveal_strlit("no");
    assert("0"@ =~= seq!['0']);
    assert("off"@ =~= seq!['o', 'f', 'f']);
    assert("OFF"@ =~= seq!['O', 'F', 'F']);
    let (no, all) = ("no"@, "false"@);
    if value.len() == 2 {
        char_u32_cast(value[0], value[0] as u32);
        char_u32_cast(value[1], value[1] as u32);
        assert(same_but_case(value, no) == (same_letter(value[0], no[0]) && same_letter(
            value[1],
            no[1],
        )));
    }
    if value.len() == 5 {
        char_u32_cast(value[0], value[0] as u32);
        char_u32_cast(value[1], value[1] as u32);
        char_u32_cast(value[2], value[2] as u32);
        char_u32_cast(value[3], value[3] as u32);
        char_u32_cast(value[4], value[4] as u32);
        assert(same_but_case(value, all) == (same_letter(value[0], all[0]) && same_letter(
            value[1],
            all[1],
        ) && same_letter(value[2], all[2]) && same_letter(value[3], all[3]) && same_letter(
            value[4],
            all[4],
        )));
    }
}

/// The directories from a directory up to the scan root are all those between
/// them, one component shorter each, both ends included.
pub proof fn law_all_directories_up_to_the_root(dir: Seq<Part>, root: Seq<Part>, n: int)
    requires
        root.len() <= n <= dir.len(),
        forall|i: int| 0 <= i < root.len() ==> #[trigger] dir[i] == root[i],
    ensures
        dirs_up_to(dir, root).len() == dir.len() - root.len() + 1,
        dirs_up_to(dir, root)[dir.len() - n] == dir.take(n),
    decreases dir.len(),
{
    assert(dir.take(root.len() as int) =~= root);
    assert(dir.take(dir.len() as int) =~= dir);
    if dir.len() > root.len() {
        let up = dir.drop_last();
        if n < dir.len() {
            law_all_directories_up_to_the_root(up, root, n);
            assert(up.take(n) =~= dir.take(n));
        } else {
            law_all_directories_up_to_the_root(up, root, up.len() as int);
        }
    }
}

/// A hit is a project exactly where its directory lies in the scan root, is no
/// link, is let in, and has neither `.git` nor `.cargo` among its components;
/// its directory is the one that holds it. Until that is known, and nothing
/// speaks against it, what is missing is looked up, for that directory.
pub proof fn law_which_hits_are_accepted(
    root: Seq<Part>,
    dir: Seq<Part>,
    file: Part,
    is_symlink: Option<bool>,
    is_allowed: Option<bool>,
    step: HitStep,
)
    requires
        is_step(root, dir.push(file), is_symlink, is_allowed, step),
        !(file is RootDir),
    ensures
        step is Accept <==> is_symlink == Some(false) && is_allowed == Some(true) && root.len()
            <= dir.len() && (forall|i: int| 0 <= i < root.len() ==> #[trigger] dir[i] == root[i])
            && !dir.contains(Part::Normal(encode_utf8(".git"@))) && !dir.contains(
            Part::Normal(encode_utf8(".cargo"@)),
        ),
        step is ProbeSymlink <==> is_symlink is None && !dir.contains(
            Part::Normal(encode_utf8(".git"@)),
        ) && !dir.contains(Part::Normal(encode_utf8(".cargo"@))),
        step is ProbeAllowed <==> is_symlink == Some(false) && is_allowed is None && root.len()
            <= dir.len() && (forall|i: int| 0 <= i < root.len() ==> #[trigger] dir[i] == root[i])
            && !dir.contains(Part::Normal(encode_utf8(".git"@))) && !dir.contains(
            Part::Normal(encode_utf8(".cargo"@)),
        ),
        step matches HitStep::Accept { manifest_dir, ancestors } ==> manifest_dir.parts() == dir,
        step matches HitStep::ProbeSymlink { manifest_dir } ==> manifest_dir.parts() == dir,
        step matches HitStep::ProbeAllowed { manifest_dir } ==> manifest_dir.parts() == dir,
{
    path::law_last_component(dir, file);
    path::law_prefix_is_whole_components(dir, root, Seq::empty());
    if let Some(linked) = is_symlink {
        assert(is_symlink == Some(linked));
    }
    if let Some(allowed) = is_allowed {
        assert(is_allowed == Some(allowed));
    }
}

/// The directories of an accepted hit that are looked at for a repository are
/// its own and every one above it, up to the scan root.
pub proof fn law_every_directory_above_is_looked_at(
    root: Seq<Part>,
    hit: Seq<Part>,
    is_symlink: Option<bool>,
    is_allowed: Option<bool>,
    step: HitStep,
    n: int,
)
    requires
        is_step(root, hit, is_symlink, is_allowed, step),
        step is Accept,
        root.len() <= n <= step->Accept_manifest_dir.parts().len(),
    ensures
        exists|i: int|
            0 <= i < step->ancestors@.len() && (#[trigger] step->ancestors@[i]).parts()
                == step->Accept_manifest_dir.parts().take(n),
        step->ancestors@.len() == step->Accept_manifest_dir.parts().len() - root.len() + 1,
{
    let dir = step->Accept_manifest_dir.parts();
    path::law_prefix_is_whole_components(dir, root, Seq::empty());
    law_all_directories_up_to_the_root(dir, root, n);
    let all = path::path_parts(step->ancestors@);
    assert(all.len() == step->ancestors@.len());
    assert(all[dir.len() - n] == step->ancestors@[dir.len() - n].parts());
}

/// Ordering hits keeps every one of them, and adds none.
pub proof fn law_ordering_keeps_hits(hits: Seq<Seq<Part>>, out: Seq<Seq<Part>>, hit: Seq<Part>)
    requires
        order::is_stable_sort(hits, out, is_depth_order()),
    ensures
        out.len() == hits.len(),
        hits.contains(hit) <==> out.contains(hit),
        forall|i: int, j: int|
            0 <= i < j < out.len() ==> (#[trigger] out[i]).len() <= (#[trigger] out[j]).len(),
{
    order::law_sort_keeps_elements(hits, out, is_depth_order(), hit);
    order::law_sort_is_in_order(hits, out, is_depth_order());
    assert forall|i: int, j: int| 0 <= i < j < out.len() implies (#[trigger] out[i]).len() <= (
    #[trigger] out[j]).len() by {
        assert(is_depth_order()(out[i], out[j]));
    }
}

/// There is a walk where the fast path is off, where the query failed, where it
/// named nothing, and where nothing it named was accepted; and otherwise none.
pub proof fn law_walk_unless_index_answers(
    disabled: bool,
    failed: Option<usize>,
    accepted: usize,
    hits: usize,
)
    requires
        failed is None,
    ensures
        !needs_no_walk((IndexAnswer { disabled: true, indexed: Some(hits), accepted })),
        !needs_no_walk((IndexAnswer { disabled, indexed: failed, accepted })),
        !needs_no_walk((IndexAnswer { disabled, indexed: Some(0usize), accepted })),
        !needs_no_walk((IndexAnswer { disabled, indexed: Some(hits), accepted: 0usize })),
        hits > 0 && accepted > 0 ==> needs_no_walk(
            (IndexAnswer { disabled: false, indexed: Some(hits), accepted }),
        ),
{
}

} // verus!
