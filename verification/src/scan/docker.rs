//! Named container volumes as extra scan roots.
//!
//! Listing goes through the `docker` (or `podman`) command, step by step:
//! [`list_volumes`] says what to run next from what the last run gave. Only
//! mountpoints that are local directories are walked. The rest are reported
//! as warnings.

use vstd::prelude::*;
use vstd::string::*;
use vstd::utf8::*;

use crate::order;
use crate::path::FsPath;
use crate::text;

verus! {

/// One named volume and its host-side mountpoint.
#[derive(Debug, PartialEq, Eq)]
pub struct DockerVolume {
    pub name: String,
    pub mountpoint: FsPath,
}

/// One walk root. `volume` is the volume name for container roots, `None`
/// for the plain host root.
#[derive(Debug, PartialEq, Eq)]
pub struct ScanRoot {
    pub path: FsPath,
    pub volume: Option<String>,
}

/// What the file system says of a mountpoint.
#[derive(Debug)]
pub enum MountStatus {
    /// A local directory.
    Directory,
    /// Something else is there.
    NotDirectory,
    /// Looking at it was not permitted.
    PermissionDenied,
    /// Looking at it failed with this error.
    Inaccessible(String),
}

/// A volume and what is at its mountpoint.
#[derive(Debug)]
pub struct ProbedVolume {
    pub volume: DockerVolume,
    pub mount: MountStatus,
}

/// A container runtime.
#[derive(Clone, Copy, Debug, PartialEq, Eq, Structural)]
pub enum Runtime {
    Docker,
    Podman,
}

/// A volume subcommand of the runtime.
#[derive(Clone, Copy, Debug, PartialEq, Eq, Structural)]
pub enum VolumeCommand {
    Ls,
    Inspect,
}

/// How running a command ended.
#[derive(Debug)]
pub enum CommandOutcome {
    /// It could not be run, with the error.
    NotRun(String),
    /// It ran to its end.
    Exited { success: bool, stdout: Vec<u8>, stderr: Vec<u8> },
}

/// Why volumes could not be listed.
#[derive(Debug)]
pub enum VolumeError {
    /// No container runtime is installed.
    NoRuntime,
    /// The command could not be run, with the error.
    NotRun(Runtime, VolumeCommand, String),
    /// The command failed, with what it reported.
    Failed(Runtime, VolumeCommand, String),
}

/// What has just become known while volumes are listed.
#[derive(Debug)]
pub enum VolumeEvent {
    /// Which runtimes are installed.
    Runtimes { docker: bool, podman: bool },
    /// `volume ls` has ended.
    Listed(Runtime, CommandOutcome),
    /// `volume inspect` has ended.
    Inspected(Runtime, CommandOutcome),
}

/// What to do next while volumes are listed.
#[derive(Debug)]
pub enum VolumeAction {
    /// Run `volume ls`.
    List(Runtime),
    /// Run `volume inspect` on these volumes.
    Inspect(Runtime, Vec<String>),
    /// Nothing is left to run.
    Finish(Result<Vec<DockerVolume>, VolumeError>),
}

/// The name and the mountpoint of one `volume inspect` line, parted by a tab
/// or, where there is none, by a space. A line without both is malformed.
pub open spec fn inspect_pair(line: Seq<char>) -> Option<(Seq<char>, Seq<u8>)> {
    let line = text::trimmed(line);
    let halves = match text::split_once(line, '\t') {
        Some(halves) => Some(halves),
        None => text::split_once(line, ' '),
    };
    match halves {
        Some((name, mount)) => {
            if text::trimmed(name).len() == 0 || text::trimmed(mount).len() == 0 {
                None
            } else {
                Some((text::trimmed(name), encode_utf8(text::trimmed(mount))))
            }
        },
        None => None,
    }
}

/// The pairs of all well-formed lines, in order.
pub open spec fn inspect_pairs(lines: Seq<Seq<char>>) -> Seq<(Seq<char>, Seq<u8>)>
    decreases lines.len(),
{
    if lines.len() == 0 {
        Seq::empty()
    } else {
        let before = inspect_pairs(lines.drop_last());
        match inspect_pair(lines.last()) {
            Some(pair) => before.push(pair),
            None => before,
        }
    }
}

/// The lines without surrounding whitespace, blank ones left out.
pub open spec fn nonblank(lines: Seq<Seq<char>>) -> Seq<Seq<char>>
    decreases lines.len(),
{
    if lines.len() == 0 {
        Seq::empty()
    } else {
        let before = nonblank(lines.drop_last());
        if text::trimmed(lines.last()).len() == 0 {
            before
        } else {
            before.push(text::trimmed(lines.last()))
        }
    }
}

/// What a volume stands for.
pub open spec fn volume_image() -> spec_fn(DockerVolume) -> (Seq<char>, Seq<u8>) {
    |v: DockerVolume| (v.name@, v.mountpoint@)
}

pub open spec fn volume_pairs(volumes: Seq<DockerVolume>) -> Seq<(Seq<char>, Seq<u8>)> {
    volumes.map_values(volume_image())
}

/// The order of volumes by name.
pub open spec fn by_name() -> spec_fn((Seq<char>, Seq<u8>), (Seq<char>, Seq<u8>)) -> bool {
    |a: (Seq<char>, Seq<u8>), b: (Seq<char>, Seq<u8>)| order::text_le(a.0, b.0)
}

pub open spec fn runtime_name(runtime: Runtime) -> Seq<char> {
    match runtime {
        Runtime::Docker => "docker"@,
        Runtime::Podman => "podman"@,
    }
}

pub open spec fn command_name(command: VolumeCommand) -> Seq<char> {
    match command {
        VolumeCommand::Ls => " volume ls`"@,
        VolumeCommand::Inspect => " volume inspect`"@,
    }
}

/// The error as it is reported.
pub open spec fn error_text(error: VolumeError) -> Seq<char> {
    match error {
        VolumeError::NoRuntime =>
            "--docker needs a container runtime: neither `docker` nor `podman` found in PATH"@,
        VolumeError::NotRun(rt, command, cause) => "running `"@ + runtime_name(rt) + command_name(
            command,
        ) + ": "@ + cause@,
        VolumeError::Failed(rt, command, detail) => "`"@ + runtime_name(rt) + command_name(command)
            + " failed: "@ + detail@,
    }
}

/// The warning for a volume that is not walked.
pub open spec fn skip_text(volume: DockerVolume, mount: MountStatus) -> Seq<char> {
    let lead = "--docker: skipping volume `"@ + volume.name@;
    let place = text::shown(volume.mountpoint@);
    match mount {
        MountStatus::PermissionDenied => lead + "`: permission denied on "@ + place
            + " (try sudo)"@,
        MountStatus::Inaccessible(cause) => lead + "`: cannot access "@ + place + " ("@ + cause@
            + "); the daemon may be remote"@,
        _ => lead + "`: not a directory: "@ + place,
    }
}

/// The roots of the volumes whose mountpoint is a directory, in order.
pub open spec fn root_images(volumes: Seq<ProbedVolume>) -> Seq<(Seq<u8>, Option<Seq<char>>)>
    decreases volumes.len(),
{
    if volumes.len() == 0 {
        Seq::empty()
    } else {
        let before = root_images(volumes.drop_last());
        let last = volumes.last();
        if last.mount is Directory {
            before.push((last.volume.mountpoint@, Some(last.volume.name@)))
        } else {
            before
        }
    }
}

/// The warnings for the other volumes, in order.
pub open spec fn skip_texts(volumes: Seq<ProbedVolume>) -> Seq<Seq<char>>
    decreases volumes.len(),
{
    if volumes.len() == 0 {
        Seq::empty()
    } else {
        let before = skip_texts(volumes.drop_last());
        let last = volumes.last();
        if last.mount is Directory {
            before
        } else {
            before.push(skip_text(last.volume, last.mount))
        }
    }
}

impl ScanRoot {
    /// Its path and the name of its volume.
    pub open spec fn image(&self) -> (Seq<u8>, Option<Seq<char>>) {
        (
            self.path@,
            match self.volume {
                Some(name) => Some(name@),
                None => None,
            },
        )
    }

    /// The plain host root at `path`.
    pub fn host(path: FsPath) -> (r: ScanRoot)
        ensures
            r == (ScanRoot { path, volume: None }),
    {
        ScanRoot { path, volume: None }
    }
}

pub open spec fn roots_images(roots: Seq<ScanRoot>) -> Seq<(Seq<u8>, Option<Seq<char>>)> {
    roots.map_values(|r: ScanRoot| r.image())
}

impl Clone for ScanRoot {
    fn clone(&self) -> (r: ScanRoot)
        ensures
            r.image() == self.image(),
    {
        ScanRoot { path: self.path.clone(), volume: self.volume.clone() }
    }
}

impl Clone for DockerVolume {
    fn clone(&self) -> (r: DockerVolume)
        ensures
            volume_image()(r) == volume_image()(*self),
    {
        DockerVolume { name: self.name.clone(), mountpoint: self.mountpoint.clone() }
    }
}

impl From<FsPath> for ScanRoot {
    fn from(path: FsPath) -> (r: ScanRoot) {
        ScanRoot::host(path)
    }
}

impl vstd::std_specs::convert::FromSpecImpl<FsPath> for ScanRoot {
    open spec fn obeys_from_spec() -> bool {
        true
    }

    open spec fn from_spec(path: FsPath) -> ScanRoot {
        ScanRoot { path, volume: None }
    }
}

impl order::Ranked for DockerVolume {
    open spec fn ranked_le(&self, other: &DockerVolume) -> bool {
        order::text_le(self.name@, other.name@)
    }

    proof fn ranked_total(a: &DockerVolume, b: &DockerVolume) {
        order::lemma_char_order();
        order::lemma_lex_total(a.name@, b.name@, order::char_order());
    }

    proof fn ranked_transitive(a: &DockerVolume, b: &DockerVolume, c: &DockerVolume) {
        order::lemma_char_order();
        order::lemma_lex_transitive(a.name@, b.name@, c.name@, order::char_order());
    }

    fn in_order(&self, other: &DockerVolume) -> (r: bool) {
        let a = text::chars_of(self.name.as_str());
        let b = text::chars_of(other.name.as_str());
        order::text_in_order(a.as_slice(), b.as_slice())
    }
}

/// The volume that one line of `volume inspect` describes.
fn parse_inspect_line(line: &[char]) -> (r: Option<DockerVolume>)
    ensures
        match r {
            Some(v) => inspect_pair(line@) == Some((v.name@, v.mountpoint@)),
            None => inspect_pair(line@) is None,
        },
{
    let line = text::trim(line);
    let halves = match text::split_at_first(line, '\t') {
        Some(halves) => Some(halves),
        None => text::split_at_first(line, ' '),
    };
    match halves {
        Some((name, mount)) => {
            let name = text::trim(name);
            let mount = text::trim(mount);
            if name.len() == 0 || mount.len() == 0 {
                return None;
            }
            Some(
                DockerVolume {
                    name: text::string_of(name),
                    mountpoint: FsPath::from_text(text::string_of(mount).as_str()),
                },
            )
        },
        None => None,
    }
}

/// The volumes that `volume inspect` lines describe, in name order. Malformed
/// lines are skipped.
pub fn parse_inspect_output(output: &str) -> (volumes: Vec<DockerVolume>)
    ensures
        order::is_stable_sort(
            inspect_pairs(text::split_on(output@, '\n')),
            volume_pairs(volumes@),
            by_name(),
        ),
{
    let chars = text::chars_of(output);
    let lines = text::split(chars.as_slice(), '\n');
    let ghost all = text::split_on(output@, '\n');
    let mut found: Vec<DockerVolume> = Vec::new();
    let mut i: usize = 0;
    assert(volume_pairs(found@) =~= inspect_pairs(all.take(0)));
    while i < lines.len()
        invariant
            i <= lines@.len(),
            all == text::slice_texts(lines@),
            volume_pairs(found@) == inspect_pairs(all.take(i as int)),
        decreases lines@.len() - i,
    {
        let ghost before = found@;
        assert(all.take(i + 1).drop_last() =~= all.take(i as int));
        assert(all[i as int] == lines@[i as int]@);
        match parse_inspect_line(lines[i]) {
            Some(volume) => {
                found.push(volume);
                assert(volume_pairs(found@) =~= volume_pairs(before).push(
                    (volume.name@, volume.mountpoint@),
                ));
            },
            None => {},
        }
        i = i + 1;
    }
    assert(all.take(i as int) =~= all);
    let volumes = order::stable_sort(found);
    proof {
        order::lemma_sort_of_images(
            found@,
            volumes@,
            order::rank_order::<DockerVolume>(),
            volume_image(),
            by_name(),
        );
    }
    volumes
}

/// The volume names that `volume ls` lists, one on each line.
pub fn volume_names(output: &str) -> (names: Vec<String>)
    ensures
        text::texts(names@) == nonblank(text::split_on(output@, '\n')),
{
    let chars = text::chars_of(output);
    let lines = text::split(chars.as_slice(), '\n');
    let ghost all = text::split_on(output@, '\n');
    let mut names: Vec<String> = Vec::new();
    let mut i: usize = 0;
    assert(text::texts(names@) =~= nonblank(all.take(0)));
    while i < lines.len()
        invariant
            i <= lines@.len(),
            all == text::slice_texts(lines@),
            text::texts(names@) == nonblank(all.take(i as int)),
        decreases lines@.len() - i,
    {
        let ghost before = names@;
        assert(all.take(i + 1).drop_last() =~= all.take(i as int));
        assert(all[i as int] == lines@[i as int]@);
        let line = text::trim(lines[i]);
        if line.len() > 0 {
            let name = text::string_of(line);
            names.push(name);
            assert(text::texts(names@) =~= text::texts(before).push(name@));
        }
        i = i + 1;
    }
    assert(all.take(i as int) =~= all);
    names
}

impl Runtime {
    /// The name of the runtime's program.
    pub fn name(self) -> (r: &'static str)
        ensures
            r@ == runtime_name(self),
    {
        match self {
            Runtime::Docker => "docker",
            Runtime::Podman => "podman",
        }
    }
}

impl VolumeError {
    /// The error as it is reported.
    pub fn message(&self) -> (r: String)
        ensures
            r@ == error_text(*self),
    {
        match self {
            VolumeError::NoRuntime =>
                "--docker needs a container runtime: neither `docker` nor `podman` found in PATH".to_owned(),
            VolumeError::NotRun(rt, command, cause) => {
                let tail = match command {
                    VolumeCommand::Ls => " volume ls`",
                    VolumeCommand::Inspect => " volume inspect`",
                };
                "running `".to_owned().concat(rt.name()).concat(tail).concat(": ").concat(
                    cause.as_str(),
                )
            },
            VolumeError::Failed(rt, command, detail) => {
                let tail = match command {
                    VolumeCommand::Ls => " volume ls`",
                    VolumeCommand::Inspect => " volume inspect`",
                };
                "`".to_owned().concat(rt.name()).concat(tail).concat(" failed: ").concat(
                    detail.as_str(),
                )
            },
        }
    }
}

/// Prefers docker and falls back to podman only when docker is not installed.
pub fn select_runtime(docker: bool, podman: bool) -> (r: Result<Runtime, VolumeError>)
    ensures
        docker ==> r == Ok::<Runtime, VolumeError>(Runtime::Docker),
        !docker && podman ==> r == Ok::<Runtime, VolumeError>(Runtime::Podman),
        !docker && !podman ==> r == Err::<Runtime, VolumeError>(VolumeError::NoRuntime),
{
    if docker {
        return Ok(Runtime::Docker);
    }
    if podman {
        return Ok(Runtime::Podman);
    }
    Err(VolumeError::NoRuntime)
}

/// The volumes are listed without error, as `pairs` in name order.
pub open spec fn finishes_with(action: VolumeAction, pairs: Seq<(Seq<char>, Seq<u8>)>) -> bool {
    action matches VolumeAction::Finish(Ok(volumes)) && order::is_stable_sort(
        pairs,
        volume_pairs(volumes@),
        by_name(),
    )
}

/// The listing ends with the error that a command of `runtime` gave.
pub open spec fn fails_with(
    action: VolumeAction,
    runtime: Runtime,
    command: VolumeCommand,
    outcome: CommandOutcome,
) -> bool {
    match (action, outcome) {
        (
            VolumeAction::Finish(Err(VolumeError::NotRun(rt, cmd, text))),
            CommandOutcome::NotRun(cause),
        ) => rt == runtime && cmd == command && text@ == cause@,
        (
            VolumeAction::Finish(Err(VolumeError::Failed(rt, cmd, detail))),
            CommandOutcome::Exited { success, stdout, stderr },
        ) => !success && rt == runtime && cmd == command && detail@ == text::trimmed(
            text::shown(stderr@),
        ),
        _ => false,
    }
}

/// `action` is what `event` calls for.
pub open spec fn answers(event: VolumeEvent, action: VolumeAction) -> bool {
    match event {
        VolumeEvent::Runtimes { docker, podman } => if docker {
            action == VolumeAction::List(Runtime::Docker)
        } else if podman {
            action == VolumeAction::List(Runtime::Podman)
        } else {
            action == VolumeAction::Finish(Err(VolumeError::NoRuntime))
        },
        VolumeEvent::Listed(runtime, outcome) => match outcome {
            CommandOutcome::Exited { success: true, stdout, stderr } => {
                let names = nonblank(text::split_on(text::shown(stdout@), '\n'));
                if names.len() == 0 {
                    action matches VolumeAction::Finish(Ok(volumes)) && volumes@.len() == 0
                } else {
                    action matches VolumeAction::Inspect(rt, listed) && rt == runtime && text::texts(
                        listed@,
                    ) == names
                }
            },
            _ => fails_with(action, runtime, VolumeCommand::Ls, outcome),
        },
        VolumeEvent::Inspected(runtime, outcome) => match outcome {
            CommandOutcome::Exited { success: true, stdout, stderr } => finishes_with(
                action,
                inspect_pairs(text::split_on(text::shown(stdout@), '\n')),
            ),
            _ => fails_with(action, runtime, VolumeCommand::Inspect, outcome),
        },
    }
}

/// The text of `bytes` without surrounding whitespace.
fn trimmed_report(bytes: &[u8]) -> (r: String)
    ensures
        r@ == text::trimmed(text::shown(bytes@)),
{
    let chars = text::chars_of(text::from_utf8_lossy(bytes).as_str());
    text::string_of(text::trim(chars.as_slice()))
}

/// One step of listing all named volumes through the container runtime: what
/// to do after `event`. The listing starts with the installed runtimes.
pub fn list_volumes(event: VolumeEvent) -> (action: VolumeAction)
    ensures
        answers(event, action),
{
    match event {
        VolumeEvent::Runtimes { docker, podman } => match select_runtime(docker, podman) {
            Ok(runtime) => VolumeAction::List(runtime),
            Err(error) => VolumeAction::Finish(Err(error)),
        },
        VolumeEvent::Listed(runtime, outcome) => match outcome {
            CommandOutcome::NotRun(cause) => VolumeAction::Finish(
                Err(VolumeError::NotRun(runtime, VolumeCommand::Ls, cause)),
            ),
            CommandOutcome::Exited { success, stdout, stderr } => {
                if !success {
                    let detail = trimmed_report(stderr.as_slice());
                    return VolumeAction::Finish(
                        Err(VolumeError::Failed(runtime, VolumeCommand::Ls, detail)),
                    );
                }
                let output = text::from_utf8_lossy(stdout.as_slice());
                let names = volume_names(output.as_str());
                assert(text::texts(names@).len() == names@.len());
                if names.len() == 0 {
                    VolumeAction::Finish(Ok(Vec::new()))
                } else {
                    VolumeAction::Inspect(runtime, names)
                }
            },
        },
        VolumeEvent::Inspected(runtime, outcome) => match outcome {
            CommandOutcome::NotRun(cause) => VolumeAction::Finish(
                Err(VolumeError::NotRun(runtime, VolumeCommand::Inspect, cause)),
            ),
            CommandOutcome::Exited { success, stdout, stderr } => {
                if !success {
                    let detail = trimmed_report(stderr.as_slice());
                    return VolumeAction::Finish(
                        Err(VolumeError::Failed(runtime, VolumeCommand::Inspect, detail)),
                    );
                }
                let output = text::from_utf8_lossy(stdout.as_slice());
                VolumeAction::Finish(Ok(parse_inspect_output(output.as_str())))
            },
        },
    }
}

/// The arguments for the runtime that `action` asks to run.
pub open spec fn action_arguments(action: VolumeAction) -> Seq<Seq<char>> {
    match action {
        VolumeAction::List(_) => seq!["volume"@, "ls"@, "-q"@],
        VolumeAction::Inspect(_, names) => seq![
            "volume"@,
            "inspect"@,
            "--format"@,
            "{{.Name}}\t{{.Mountpoint}}"@,
        ] + text::texts(names@),
        VolumeAction::Finish(_) => Seq::empty(),
    }
}

impl VolumeAction {
    /// The arguments for the runtime, none when nothing is left to run.
    pub fn arguments(&self) -> (r: Vec<String>)
        ensures
            text::texts(r@) == action_arguments(*self),
    {
        let mut r: Vec<String> = Vec::new();
        match self {
            VolumeAction::List(_) => {
                r.push("volume".to_owned());
                r.push("ls".to_owned());
                r.push("-q".to_owned());
            },
            VolumeAction::Inspect(_, names) => {
                r.push("volume".to_owned());
                r.push("inspect".to_owned());
                r.push("--format".to_owned());
                r.push("{{.Name}}\t{{.Mountpoint}}".to_owned());
                let ghost lead = text::texts(r@);
                let mut i: usize = 0;
                assert(lead + text::texts(names@).take(0) =~= lead);
                while i < names.len()
                    invariant
                        i <= names@.len(),
                        text::texts(r@) == lead + text::texts(names@).take(i as int),
                    decreases names@.len() - i,
                {
                    let ghost before = r@;
                    r.push(names[i].clone());
                    assert(text::texts(r@) =~= text::texts(before).push(names@[i as int]@));
                    i = i + 1;
                    assert(text::texts(names@).take(i as int) =~= text::texts(names@).take(i - 1).push(
                        names@[i - 1]@,
                    ));
                }
                assert(text::texts(names@).take(i as int) =~= text::texts(names@));
            },
            VolumeAction::Finish(_) => {},
        }
        assert(text::texts(r@) =~= action_arguments(*self));
        r
    }
}

/// Splits volumes into walkable directories and warnings. Mountpoints that
/// are not local or not readable land in the warnings, so one bad volume
/// never fails the whole scan.
pub fn usable_roots(volumes: &Vec<ProbedVolume>) -> (r: (Vec<ScanRoot>, Vec<String>))
    ensures
        roots_images(r.0@) == root_images(volumes@),
        text::texts(r.1@) == skip_texts(volumes@),
{
    let mut roots: Vec<ScanRoot> = Vec::new();
    let mut skipped: Vec<String> = Vec::new();
    let mut i: usize = 0;
    assert(roots_images(roots@) =~= root_images(volumes@.take(0)));
    assert(text::texts(skipped@) =~= skip_texts(volumes@.take(0)));
    while i < volumes.len()
        invariant
            i <= volumes@.len(),
            roots_images(roots@) == root_images(volumes@.take(i as int)),
            text::texts(skipped@) == skip_texts(volumes@.take(i as int)),
        decreases volumes@.len() - i,
    {
        let ghost (old_roots, old_skipped) = (roots@, skipped@);
        assert(volumes@.take(i + 1).drop_last() =~= volumes@.take(i as int));
        let probed = &volumes[i];
        match &probed.mount {
            MountStatus::Directory => {
                let root = ScanRoot {
                    path: probed.volume.mountpoint.clone(),
                    volume: Some(probed.volume.name.clone()),
                };
                roots.push(root);
                assert(roots_images(roots@) =~= roots_images(old_roots).push(root.image()));
            },
            _ => {
                let reason = skip_reason(&probed.volume, &probed.mount);
                skipped.push(reason);
                assert(text::texts(skipped@) =~= text::texts(old_skipped).push(reason@));
            },
        }
        i = i + 1;
    }
    assert(volumes@.take(i as int) =~= volumes@);
    (roots, skipped)
}

/// Why a volume is not walked, from what is at its mountpoint.
pub fn skip_reason(volume: &DockerVolume, mount: &MountStatus) -> (r: String)
    ensures
        r@ == skip_text(*volume, *mount),
{
    let lead = "--docker: skipping volume `".to_owned().concat(volume.name.as_str());
    let place = volume.mountpoint.to_text();
    match mount {
        MountStatus::PermissionDenied => lead.concat("`: permission denied on ").concat(
            place.as_str(),
        ).concat(" (try sudo)"),
        MountStatus::Inaccessible(cause) => lead.concat("`: cannot access ").concat(
            place.as_str(),
        ).concat(" (").concat(cause.as_str()).concat("); the daemon may be remote"),
        _ => lead.concat("`: not a directory: ").concat(place.as_str()),
    }
}

/// A line of a name, a tab and a mountpoint gives both back.
pub proof fn law_inspect_line_is_read(name: Seq<char>, mount: Seq<char>)
    requires
        name.len() > 0 && !text::white_space(name.first()) && !text::white_space(name.last()),
        mount.len() > 0 && !text::white_space(mount.first()) && !text::white_space(mount.last()),
        !name.contains('\t'),
    ensures
        inspect_pair(name + seq!['\t'] + mount) == Some((name, encode_utf8(mount))),
{
    let line = name + seq!['\t'] + mount;
    assert(line.first() == name.first() && line.last() == mount.last());
    text::lemma_trimmed_keeps(line);
    text::lemma_trimmed_keeps(name);
    text::lemma_trimmed_keeps(mount);
    assert forall|j: int| 0 <= j < name.len() implies line[j] != '\t' by {
        assert(name.contains(name[j]));
    }
    text::lemma_find(line, '\t', name.len() as int);
    assert(line.take(name.len() as int) =~= name);
    assert(line.skip(name.len() as int + 1) =~= mount);
}

/// A volume that `volume inspect` can print on a line: its name and its
/// mountpoint have no line break, and no whitespace around them, and the name
/// has no tab.
pub open spec fn is_printable(volume: (Seq<char>, Seq<char>)) -> bool {
    let (name, mount) = volume;
    &&& name.len() > 0 && !text::white_space(name.first()) && !text::white_space(name.last())
    &&& mount.len() > 0 && !text::white_space(mount.first()) && !text::white_space(mount.last())
    &&& !name.contains('\t') && !name.contains('\n') && !mount.contains('\n')
}

/// The line for a volume.
pub open spec fn printed_line(volume: (Seq<char>, Seq<char>)) -> Seq<char> {
    volume.0 + seq!['\t'] + volume.1
}

/// The lines for volumes, each with a line break behind it.
pub open spec fn printed(volumes: Seq<(Seq<char>, Seq<char>)>) -> Seq<char>
    decreases volumes.len(),
{
    if volumes.len() == 0 {
        Seq::empty()
    } else {
        (printed(volumes.drop_last()) + printed_line(volumes.last())).push('\n')
    }
}

/// What is read of a volume.
pub open spec fn read_image() -> spec_fn((Seq<char>, Seq<char>)) -> (Seq<char>, Seq<u8>) {
    |volume: (Seq<char>, Seq<char>)| (volume.0, encode_utf8(volume.1))
}

/// The lines come out one by one, with nothing behind the last line break.
proof fn lemma_printed_lines(volumes: Seq<(Seq<char>, Seq<char>)>)
    requires
        forall|i: int| 0 <= i < volumes.len() ==> is_printable(#[trigger] volumes[i]),
    ensures
        text::split_on(printed(volumes), '\n') == volumes.map_values(
            |v: (Seq<char>, Seq<char>)| printed_line(v),
        ).push(Seq::empty()),
    decreases volumes.len(),
{
    let lines = volumes.map_values(|v: (Seq<char>, Seq<char>)| printed_line(v));
    if volumes.len() == 0 {
        assert(text::split_on(printed(volumes), '\n') =~= lines.push(Seq::empty()));
    } else {
        let front = volumes.drop_last();
        let before = front.map_values(|v: (Seq<char>, Seq<char>)| printed_line(v));
        assert forall|i: int| 0 <= i < front.len() implies is_printable(#[trigger] front[i]) by {
            assert(front[i] == volumes[i]);
        }
        lemma_printed_lines(front);
        let last = volumes[volumes.len() - 1];
        let line = printed_line(last);
        assert(is_printable(last));
        assert forall|i: int| 0 <= i < line.len() implies line[i] != '\n' by {
            if i < last.0.len() {
                assert(last.0.contains(last.0[i]));
            } else if i > last.0.len() {
                assert(last.1.contains(last.1[i - last.0.len() - 1]));
            }
        }
        text::lemma_split_extends(printed(front), line, '\n');
        let open = printed(front) + line;
        assert(Seq::<char>::empty() + line =~= line);
        assert(before.push(Seq::empty()).drop_last() =~= before);
        assert(text::split_on(open, '\n') =~= before.push(line));
        assert(open.push('\n').drop_last() =~= open);
        assert(before.push(line) =~= lines);
        assert(text::split_on(printed(volumes), '\n') =~= lines.push(Seq::empty()));
    }
}

/// What is read of printed lines is what was printed.
proof fn lemma_lines_are_read(volumes: Seq<(Seq<char>, Seq<char>)>)
    requires
        forall|i: int| 0 <= i < volumes.len() ==> is_printable(#[trigger] volumes[i]),
    ensures
        inspect_pairs(volumes.map_values(|v: (Seq<char>, Seq<char>)| printed_line(v)))
            == volumes.map_values(read_image()),
    decreases volumes.len(),
{
    let lines = volumes.map_values(|v: (Seq<char>, Seq<char>)| printed_line(v));
    if volumes.len() > 0 {
        let front = volumes.drop_last();
        assert forall|i: int| 0 <= i < front.len() implies is_printable(#[trigger] front[i]) by {
            assert(front[i] == volumes[i]);
        }
        lemma_lines_are_read(front);
        let last = volumes[volumes.len() - 1];
        assert(is_printable(last));
        law_inspect_line_is_read(last.0, last.1);
        assert(lines.drop_last() =~= front.map_values(|v: (Seq<char>, Seq<char>)| printed_line(v)));
    }
    assert(inspect_pairs(lines) =~= volumes.map_values(read_image()));
}

/// The lines of volumes with distinct names, in whatever order they were
/// printed, are read back as those volumes sorted by name. `volumes` are in
/// that order, and `shuffled` are the same as they were printed.
pub proof fn law_listing_is_read_back(
    volumes: Seq<(Seq<char>, Seq<char>)>,
    shuffled: Seq<(Seq<char>, Seq<char>)>,
    out: Seq<(Seq<char>, Seq<u8>)>,
)
    requires
        forall|i: int| 0 <= i < shuffled.len() ==> is_printable(#[trigger] shuffled[i]),
        forall|i: int, j: int|
            0 <= i < j < volumes.len() ==> order::text_le(
                (#[trigger] volumes[i]).0,
                (#[trigger] volumes[j]).0,
            ) && volumes[i].0 != volumes[j].0,
        order::rearranges(shuffled, volumes),
        order::is_stable_sort(
            inspect_pairs(text::split_on(printed(shuffled), '\n')),
            out,
            by_name(),
        ),
    ensures
        out == volumes.map_values(read_image()),
{
    let lines = shuffled.map_values(|v: (Seq<char>, Seq<char>)| printed_line(v));
    let read = shuffled.map_values(read_image());
    let wanted = volumes.map_values(read_image());
    lemma_printed_lines(shuffled);
    lemma_lines_are_read(shuffled);
    assert(inspect_pairs(lines.push(Seq::empty())) == read) by {
        assert(lines.push(Seq::empty()).drop_last() =~= lines);
        text::lemma_find(Seq::<char>::empty(), '\t', 0);
        text::lemma_find(Seq::<char>::empty(), ' ', 0);
    }
    let p = choose|p: Seq<int>| order::is_arrangement(shuffled, volumes, p);
    let le = by_name();
    assert forall|i: int| 0 <= i < read.len() implies #[trigger] wanted[i] == read[p[i]] by {
        assert(volumes[i] == shuffled[p[i]]);
    }
    assert forall|i: int, j: int|
        #![trigger p[i], p[j]]
        0 <= i < j < read.len() implies {
        &&& le(read[p[i]], read[p[j]])
        &&& le(read[p[j]], read[p[i]]) ==> p[i] < p[j]
    } by {
        assert(wanted[i] == read[p[i]] && wanted[j] == read[p[j]]);
        assert(order::text_le(volumes[i].0, volumes[j].0) && volumes[i].0 != volumes[j].0);
        order::lemma_char_order();
        order::lemma_lex_total(volumes[i].0, volumes[j].0, order::char_order());
    }
    assert(order::sorts(read, wanted, le, p));
    order::law_stable_sort_is_unique(read, out, wanted, le);
}

/// Each volume is either walked or warned about.
pub proof fn law_every_volume_is_answered(volumes: Seq<ProbedVolume>)
    ensures
        root_images(volumes).len() + skip_texts(volumes).len() == volumes.len(),
    decreases volumes.len(),
{
    if volumes.len() > 0 {
        law_every_volume_is_answered(volumes.drop_last());
    }
}

/// One bad volume never costs another: the roots are those of the rest.
pub proof fn law_bad_volume_costs_no_other(
    before: Seq<ProbedVolume>,
    bad: ProbedVolume,
    behind: Seq<ProbedVolume>,
)
    requires
        bad.mount !is Directory,
    ensures
        root_images(before.push(bad) + behind) == root_images(before + behind),
    decreases behind.len(),
{
    if behind.len() == 0 {
        assert(before.push(bad) + behind =~= before.push(bad));
        assert(before + behind =~= before);
        assert(before.push(bad).drop_last() =~= before);
    } else {
        law_bad_volume_costs_no_other(before, bad, behind.drop_last());
        assert((before.push(bad) + behind).drop_last() =~= before.push(bad) + behind.drop_last());
        assert((before + behind).drop_last() =~= before + behind.drop_last());
    }
}

/// Listed volumes come out in name order.
pub proof fn law_volumes_in_name_order(
    pairs: Seq<(Seq<char>, Seq<u8>)>,
    volumes: Seq<(Seq<char>, Seq<u8>)>,
)
    requires
        order::is_stable_sort(pairs, volumes, by_name()),
    ensures
        forall|i: int, j: int|
            0 <= i < j < volumes.len() ==> order::text_le(
                (#[trigger] volumes[i]).0,
                (#[trigger] volumes[j]).0,
            ),
{
    order::law_sort_is_in_order(pairs, volumes, by_name());
    assert forall|i: int, j: int| 0 <= i < j < volumes.len() implies order::text_le(
        (#[trigger] volumes[i]).0,
        (#[trigger] volumes[j]).0,
    ) by {
        assert(by_name()(volumes[i], volumes[j]));
    }
}

/// Each volume whose mountpoint is a directory has a root at that mountpoint,
/// under the volume's name, and each root is that of one and the same such
/// volume.
pub proof fn law_each_directory_volume_is_walked(
    volumes: Seq<ProbedVolume>,
    roots: Seq<ScanRoot>,
)
    requires
        roots_images(roots) == root_images(volumes),
    ensures
        forall|i: int|
            0 <= i < volumes.len() && (#[trigger] volumes[i]).mount is Directory ==> exists|j: int|
                0 <= j < roots.len() && (#[trigger] roots[j]).path@
                    == volumes[i].volume.mountpoint@ && roots[j].volume is Some
                    && roots[j].volume->0@ == volumes[i].volume.name@,
        forall|j: int|
            0 <= j < roots.len() ==> (#[trigger] roots[j]).volume is Some && exists|i: int|
                0 <= i < volumes.len() && (#[trigger] volumes[i]).mount is Directory
                    && roots[j].path@ == volumes[i].volume.mountpoint@ && roots[j].volume->0@
                    == volumes[i].volume.name@,
{
    let images = roots_images(roots);
    assert(images.len() == roots.len());
    assert forall|i: int|
        0 <= i < volumes.len() && (#[trigger] volumes[i]).mount is Directory implies exists|j: int|
        0 <= j < roots.len() && (#[trigger] roots[j]).path@ == volumes[i].volume.mountpoint@
            && roots[j].volume is Some && roots[j].volume->0@ == volumes[i].volume.name@ by {
        lemma_root_of(volumes, i);
        let image = (volumes[i].volume.mountpoint@, Some(volumes[i].volume.name@));
        let j = choose|j: int| 0 <= j < images.len() && images[j] == image;
        assert(images[j] == roots[j].image());
    }
    assert forall|j: int| 0 <= j < roots.len() implies (#[trigger] roots[j]).volume is Some
        && exists|i: int|
        0 <= i < volumes.len() && (#[trigger] volumes[i]).mount is Directory && roots[j].path@
            == volumes[i].volume.mountpoint@ && roots[j].volume->0@
            == volumes[i].volume.name@ by {
        assert(images[j] == roots[j].image());
        let i = lemma_volume_of(volumes, j);
        assert(volumes[i].mount is Directory);
    }
}

proof fn lemma_root_of(volumes: Seq<ProbedVolume>, i: int)
    requires
        0 <= i < volumes.len(),
        volumes[i].mount is Directory,
    ensures
        root_images(volumes).contains(
            (volumes[i].volume.mountpoint@, Some(volumes[i].volume.name@)),
        ),
    decreases volumes.len(),
{
    let all = root_images(volumes);
    let image = (volumes[i].volume.mountpoint@, Some(volumes[i].volume.name@));
    if i < volumes.len() - 1 {
        let front = volumes.drop_last();
        lemma_root_of(front, i);
        let before = root_images(front);
        let k = choose|k: int| 0 <= k < before.len() && before[k] == image;
        assert(all[k] == image);
    } else {
        assert(all[all.len() - 1] == image);
    }
}

proof fn lemma_volume_of(volumes: Seq<ProbedVolume>, j: int) -> (i: int)
    requires
        0 <= j < root_images(volumes).len(),
    ensures
        0 <= i < volumes.len(),
        volumes[i].mount is Directory,
        root_images(volumes)[j] == (
            volumes[i].volume.mountpoint@,
            Some(volumes[i].volume.name@),
        ),
    decreases volumes.len(),
{
    let front = volumes.drop_last();
    if j < root_images(front).len() {
        lemma_volume_of(front, j)
    } else {
        volumes.len() - 1
    }
}

/// What comes of volumes one behind the other is what comes of each, in their
/// order: of a directory its root, of anything else a warning that tells its
/// name, its mountpoint and what was found there.
pub proof fn law_volumes_are_answered_in_order(
    volumes: Seq<ProbedVolume>,
    more: Seq<ProbedVolume>,
    one: ProbedVolume,
)
    ensures
        root_images(volumes + more) == root_images(volumes) + root_images(more),
        skip_texts(volumes + more) == skip_texts(volumes) + skip_texts(more),
        one.mount is Directory ==> root_images(seq![one]) == seq![
            (one.volume.mountpoint@, Some(one.volume.name@)),
        ] && skip_texts(seq![one]).len() == 0,
        one.mount !is Directory ==> root_images(seq![one]).len() == 0 && skip_texts(
            seq![one],
        ).len() == 1,
        one.mount is PermissionDenied ==> skip_texts(seq![one])[0]
            == "--docker: skipping volume `"@ + one.volume.name@ + "`: permission denied on "@
            + text::shown(one.volume.mountpoint@) + " (try sudo)"@,
        one.mount is NotDirectory ==> skip_texts(seq![one])[0] == "--docker: skipping volume `"@
            + one.volume.name@ + "`: not a directory: "@ + text::shown(one.volume.mountpoint@),
        one.mount matches MountStatus::Inaccessible(cause) ==> skip_texts(seq![one])[0]
            == "--docker: skipping volume `"@ + one.volume.name@ + "`: cannot access "@
            + text::shown(one.volume.mountpoint@) + " ("@ + cause@
            + "); the daemon may be remote"@,
    decreases more.len(),
{
    let none = Seq::<ProbedVolume>::empty();
    assert(seq![one].drop_last() =~= none);
    assert(root_images(none) =~= Seq::<(Seq<u8>, Option<Seq<char>>)>::empty());
    assert(skip_texts(none) =~= Seq::<Seq<char>>::empty());
    if one.mount is Directory {
        assert(root_images(seq![one]) =~= seq![
            (one.volume.mountpoint@, Some(one.volume.name@)),
        ]);
    }
    if more.len() == 0 {
        assert(volumes + more =~= volumes);
    } else {
        let front = more.drop_last();
        law_volumes_are_answered_in_order(volumes, front, one);
        assert((volumes + more).drop_last() =~= volumes + front);
        assert(skip_texts(volumes + more) =~= skip_texts(volumes) + skip_texts(more));
    }
    assert(root_images(volumes + more) =~= root_images(volumes) + root_images(more));
}

/// Volume names are read line by line: each line that is more than whitespace
/// gives what is left of it without the whitespace around it.
pub proof fn law_names_are_read_line_by_line(
    lines: Seq<Seq<char>>,
    more: Seq<Seq<char>>,
    front: Seq<char>,
    name: Seq<char>,
    behind: Seq<char>,
)
    requires
        forall|i: int| 0 <= i < front.len() ==> text::white_space(#[trigger] front[i]),
        forall|i: int| 0 <= i < behind.len() ==> text::white_space(#[trigger] behind[i]),
        name.len() > 0 ==> !text::white_space(name.first()) && !text::white_space(name.last()),
    ensures
        nonblank(lines + more) == nonblank(lines) + nonblank(more),
        name.len() > 0 ==> nonblank(seq![front + name + behind]) == seq![name],
        name.len() == 0 ==> nonblank(seq![front + name + behind]).len() == 0,
        nonblank(Seq::<Seq<char>>::empty()).len() == 0,
    decreases more.len(),
{
    text::law_trimming_takes_whitespace_off(front, name, behind);
    let one = seq![front + name + behind];
    assert(one.drop_last() =~= Seq::<Seq<char>>::empty());
    assert(nonblank(one.drop_last()) =~= Seq::<Seq<char>>::empty());
    if name.len() > 0 {
        assert(nonblank(one) =~= seq![name]);
    }
    if more.len() == 0 {
        assert(lines + more =~= lines);
    } else {
        law_names_are_read_line_by_line(lines, more.drop_last(), front, name, behind);
        assert((lines + more).drop_last() =~= lines + more.drop_last());
    }
    assert(nonblank(lines + more) =~= nonblank(lines) + nonblank(more));
}

/// Inspected volumes are read line by line, and a line that gives none costs no
/// other.
pub proof fn law_inspected_line_by_line(
    lines: Seq<Seq<char>>,
    more: Seq<Seq<char>>,
    line: Seq<char>,
)
    ensures
        inspect_pairs(lines + more) == inspect_pairs(lines) + inspect_pairs(more),
        inspect_pair(line) is Some ==> inspect_pairs(seq![line]) == seq![inspect_pair(line)->0],
        inspect_pair(line) is None ==> inspect_pairs(seq![line]).len() == 0,
        inspect_pairs(Seq::<Seq<char>>::empty()).len() == 0,
    decreases more.len(),
{
    let one = seq![line];
    assert(one.drop_last() =~= Seq::<Seq<char>>::empty());
    assert(inspect_pairs(one.drop_last()) =~= Seq::<(Seq<char>, Seq<u8>)>::empty());
    if inspect_pair(line) is Some {
        assert(inspect_pairs(one) =~= seq![inspect_pair(line)->0]);
    }
    if more.len() == 0 {
        assert(lines + more =~= lines);
    } else {
        law_inspected_line_by_line(lines, more.drop_last(), line);
        assert((lines + more).drop_last() =~= lines + more.drop_last());
    }
    assert(inspect_pairs(lines + more) =~= inspect_pairs(lines) + inspect_pairs(more));
}

/// A line is a name and a mountpoint, parted by the first tab, or where there
/// is none by the first space; whitespace around the line and around either is
/// left out. A line of one word, or without any, is none.
pub proof fn law_inspect_line_is_parted(
    front: Seq<char>,
    name: Seq<char>,
    gap: Seq<char>,
    sep: char,
    lead: Seq<char>,
    mount: Seq<char>,
    behind: Seq<char>,
)
    requires
        forall|i: int| 0 <= i < front.len() ==> text::white_space(#[trigger] front[i]),
        forall|i: int| 0 <= i < gap.len() ==> text::white_space(#[trigger] gap[i]),
        forall|i: int| 0 <= i < lead.len() ==> text::white_space(#[trigger] lead[i]),
        forall|i: int| 0 <= i < behind.len() ==> text::white_space(#[trigger] behind[i]),
        name.len() > 0 && !text::white_space(name.first()) && !text::white_space(name.last()),
        mount.len() > 0 && !text::white_space(mount.first()) && !text::white_space(mount.last()),
        sep == '\t' || (sep == ' ' && !(name + gap).contains('\t') && !(lead + mount).contains(
            '\t',
        )),
        !(name + gap).contains(sep),
    ensures
        inspect_pair(front + (name + gap + seq![sep] + lead + mount) + behind) == Some(
            (name, encode_utf8(mount)),
        ),
        !name.contains('\t') && !name.contains(' ') ==> inspect_pair(front + name + behind) is None,
        inspect_pair(front) is None,
{
    let (left, right) = (name + gap, lead + mount);
    let line = name + gap + seq![sep] + lead + mount;
    assert(line =~= left.push(sep) + right);
    assert(line.first() == name.first() && line.last() == mount.last());
    text::law_trimming_takes_whitespace_off(front, line, behind);
    text::law_first_one_parts(left, right, sep);
    if sep == ' ' {
        assert(!line.contains('\t')) by {
            if line.contains('\t') {
                let k = choose|k: int| 0 <= k < line.len() && line[k] == '\t';
                if k < left.len() {
                    assert(left[k] == '\t');
                } else if k > left.len() {
                    assert(right[k - left.len() - 1] == '\t');
                }
            }
        }
        text::law_first_one_parts(line, Seq::empty(), '\t');
    }
    let none = Seq::<char>::empty();
    text::law_trimming_takes_whitespace_off(none, name, gap);
    assert(none + name + gap =~= left);
    text::law_trimming_takes_whitespace_off(lead, mount, none);
    assert(lead + mount + none =~= right);
    text::law_trimming_takes_whitespace_off(front, name, behind);
    if !name.contains('\t') && !name.contains(' ') {
        text::law_first_one_parts(name, none, '\t');
        text::law_first_one_parts(name, none, ' ');
    }
    text::law_trimming_takes_whitespace_off(front, none, none);
    assert(front + none + none =~= front);
    text::law_first_one_parts(none, none, '\t');
    text::law_first_one_parts(none, none, ' ');
}

/// Listing takes three steps: docker is asked where it is installed, else
/// podman, else there is an error; then each volume named is inspected, by the
/// same runtime; then the listing is over. Without volumes it is over at once.
/// A command that fails, or cannot be run, ends it with an error of its own.
pub proof fn law_listing_goes_on(event: VolumeEvent, action: VolumeAction)
    requires
        answers(event, action),
    ensures
        event matches VolumeEvent::Runtimes { docker, podman } ==> {
            &&& docker ==> action == VolumeAction::List(Runtime::Docker)
            &&& !docker && podman ==> action == VolumeAction::List(Runtime::Podman)
            &&& !docker && !podman ==> action == VolumeAction::Finish(Err(VolumeError::NoRuntime))
        },
        event matches VolumeEvent::Listed(rt, CommandOutcome::NotRun(cause)) ==> {
            &&& action is Finish && action->Finish_0 is Err && action->Finish_0->Err_0 is NotRun
            &&& action->Finish_0->Err_0->NotRun_0 == rt
            &&& action->Finish_0->Err_0->NotRun_1 == VolumeCommand::Ls
            &&& action->Finish_0->Err_0->NotRun_2@ == cause@
        },
        event matches VolumeEvent::Inspected(rt, CommandOutcome::NotRun(cause)) ==> {
            &&& action is Finish && action->Finish_0 is Err && action->Finish_0->Err_0 is NotRun
            &&& action->Finish_0->Err_0->NotRun_0 == rt
            &&& action->Finish_0->Err_0->NotRun_1 == VolumeCommand::Inspect
            &&& action->Finish_0->Err_0->NotRun_2@ == cause@
        },
        event matches VolumeEvent::Listed(
            rt,
            CommandOutcome::Exited { success: false, stdout, stderr },
        ) ==> {
            &&& action is Finish && action->Finish_0 is Err && action->Finish_0->Err_0 is Failed
            &&& action->Finish_0->Err_0->Failed_0 == rt
            &&& action->Finish_0->Err_0->Failed_1 == VolumeCommand::Ls
            &&& action->Finish_0->Err_0->Failed_2@ == text::trimmed(text::shown(stderr@))
        },
        event matches VolumeEvent::Inspected(
            rt,
            CommandOutcome::Exited { success: false, stdout, stderr },
        ) ==> {
            &&& action is Finish && action->Finish_0 is Err && action->Finish_0->Err_0 is Failed
            &&& action->Finish_0->Err_0->Failed_0 == rt
            &&& action->Finish_0->Err_0->Failed_1 == VolumeCommand::Inspect
            &&& action->Finish_0->Err_0->Failed_2@ == text::trimmed(text::shown(stderr@))
        },
        event matches VolumeEvent::Listed(
            rt,
            CommandOutcome::Exited { success: true, stdout, stderr },
        ) ==> {
            let names = nonblank(text::split_on(text::shown(stdout@), '\n'));
            &&& names.len() == 0 ==> action is Finish && action->Finish_0 is Ok
                && action->Finish_0->Ok_0@.len() == 0
            &&& names.len() > 0 ==> action is Inspect && action->Inspect_0 == rt
                && action->Inspect_1@.len() == names.len()
            &&& forall|i: int|
                0 <= i < names.len() ==> (#[trigger] action->Inspect_1@[i])@ == names[i]
        },
        event matches VolumeEvent::Inspected(
            rt,
            CommandOutcome::Exited { success: true, stdout, stderr },
        ) ==> action is Finish && action->Finish_0 is Ok && action->Finish_0->Ok_0@.len()
            == inspect_pairs(text::split_on(text::shown(stdout@), '\n')).len(),
{
    if let VolumeEvent::Listed(rt, CommandOutcome::Exited { success, stdout, stderr }) = event {
        if success {
            let names = nonblank(text::split_on(text::shown(stdout@), '\n'));
            if names.len() > 0 {
                let listed = text::texts(action->Inspect_1@);
                assert(listed.len() == action->Inspect_1@.len());
                assert forall|i: int| 0 <= i < names.len() implies (
                #[trigger] action->Inspect_1@[i])@ == names[i] by {
                    assert(listed[i] == action->Inspect_1@[i]@);
                }
            }
        }
    }
    if let VolumeEvent::Inspected(rt, CommandOutcome::Exited { success, stdout, stderr }) = event {
        if success {
            let pairs = inspect_pairs(text::split_on(text::shown(stdout@), '\n'));
            let volumes = volume_pairs(action->Finish_0->Ok_0@);
            if pairs.len() > 0 {
                order::law_sort_keeps_elements(pairs, volumes, by_name(), pairs[0]);
            }
            assert(volumes.len() == action->Finish_0->Ok_0@.len());
        }
    }
}

/// Every inspected pair is a volume that is listed, and every listed volume is
/// such a pair.
pub proof fn law_each_pair_is_listed(
    action: VolumeAction,
    pairs: Seq<(Seq<char>, Seq<u8>)>,
    name: Seq<char>,
    mount: Seq<u8>,
)
    requires
        finishes_with(action, pairs),
    ensures
        action is Finish && action->Finish_0 is Ok,
        pairs.contains((name, mount)) <==> exists|i: int|
            0 <= i < action->Finish_0->Ok_0@.len() && (#[trigger] action->Finish_0->Ok_0@[i]).name@
                == name && action->Finish_0->Ok_0@[i].mountpoint@ == mount,
{
    let listed = action->Finish_0->Ok_0@;
    let volumes = volume_pairs(listed);
    order::law_sort_keeps_elements(pairs, volumes, by_name(), (name, mount));
    if pairs.contains((name, mount)) {
        let i = choose|i: int| 0 <= i < volumes.len() && volumes[i] == (name, mount);
        assert(volumes[i] == (listed[i].name@, listed[i].mountpoint@));
    }
    if exists|i: int|
        0 <= i < listed.len() && (#[trigger] listed[i]).name@ == name && listed[i].mountpoint@
            == mount {
        let i = choose|i: int|
            0 <= i < listed.len() && (#[trigger] listed[i]).name@ == name
                && listed[i].mountpoint@ == mount;
        assert(volumes[i] == (name, mount));
    }
}

/// The runtime is called with `volume ls -q`, or with `volume inspect`, a format
/// of the name, a tab and the mountpoint, and every name in its order; and not
/// at all once the listing is over.
pub proof fn law_runtime_is_called(runtime: Runtime, names: Vec<String>, i: int)
    ensures
        action_arguments(VolumeAction::List(runtime)) == seq!["volume"@, "ls"@, "-q"@],
        action_arguments(VolumeAction::Inspect(runtime, names)).len() == names@.len() + 4,
        action_arguments(VolumeAction::Inspect(runtime, names))[0] == "volume"@,
        action_arguments(VolumeAction::Inspect(runtime, names))[1] == "inspect"@,
        action_arguments(VolumeAction::Inspect(runtime, names))[2] == "--format"@,
        action_arguments(VolumeAction::Inspect(runtime, names))[3]
            == "{{.Name}}\t{{.Mountpoint}}"@,
        0 <= i < names@.len() ==> action_arguments(VolumeAction::Inspect(runtime, names))[i + 4]
            == names@[i]@,
        forall|result: Result<Vec<DockerVolume>, VolumeError>|
            (#[trigger] action_arguments(VolumeAction::Finish(result))).len() == 0,
        runtime_name(Runtime::Docker) == "docker"@,
        runtime_name(Runtime::Podman) == "podman"@,
{
}

/// An error tells the runtime, the command and what was reported of it.
pub proof fn law_errors_tell_what_failed(runtime: Runtime, report: String)
    ensures
        error_text(VolumeError::NotRun(runtime, VolumeCommand::Ls, report)) == "running `"@
            + runtime_name(runtime) + " volume ls`"@ + ": "@ + report@,
        error_text(VolumeError::NotRun(runtime, VolumeCommand::Inspect, report)) == "running `"@
            + runtime_name(runtime) + " volume inspect`"@ + ": "@ + report@,
        error_text(VolumeError::Failed(runtime, VolumeCommand::Ls, report)) == "`"@ + runtime_name(
            runtime,
        ) + " volume ls`"@ + " failed: "@ + report@,
        error_text(VolumeError::Failed(runtime, VolumeCommand::Inspect, report)) == "`"@
            + runtime_name(runtime) + " volume inspect`"@ + " failed: "@ + report@,
        error_text(VolumeError::NoRuntime)
            == "--docker needs a container runtime: neither `docker` nor `podman` found in PATH"@,
{
}

/// A volume whose mountpoint is walked after all would be told as one that is no
/// directory: there is no text of its own for it.
pub proof fn law_directory_has_no_text_of_its_own(volume: DockerVolume)
    ensures
        skip_text(volume, MountStatus::Directory) == skip_text(volume, MountStatus::NotDirectory),
{
}

} // verus!
