//! The command line, once it is parsed, and what it asks for.

use vstd::prelude::*;
use vstd::string::*;
use vstd::utf8::*;

use crate::path::FsPath;
use crate::text;

verus! {

/// Parsed arguments.
#[derive(Debug)]
pub struct Args {
    /// Directory to scan. Defaults to the home directory.
    pub root: Option<FsPath>,
    /// Also scan locally accessible Docker/Podman named volumes.
    pub docker: bool,
    pub command: Option<Command>,
}

/// A shell that completions can be printed for.
#[derive(Clone, Copy, Debug, PartialEq, Eq, Structural)]
pub enum Shell {
    Bash,
    Elvish,
    Fish,
    PowerShell,
    Zsh,
}

/// A subcommand.
#[derive(Clone, Debug)]
pub enum Command {
    /// Launch the interactive browser.
    Tui { root: Option<FsPath>, docker: bool },
    /// List target directories on the system.
    List { root: Option<FsPath>, docker: bool },
    /// Delete target directories older than a maximum age and larger than a
    /// minimum size.
    Clean {
        root: Option<FsPath>,
        docker: bool,
        older_than: Option<String>,
        larger_than: Option<String>,
        yes: bool,
    },
    /// Print shell completions.
    Completions { shell: Shell },
}

/// What is to be done over a scan.
#[derive(Debug)]
pub enum Task {
    /// Browse interactively.
    Browse,
    /// List what is found.
    List,
    /// Delete what the filters match.
    Clean { older_than: Option<String>, larger_than: Option<String>, yes: bool },
}

/// What an invocation asks for.
#[derive(Debug)]
pub enum Plan {
    /// Scan `host`, and container volumes too where `docker` says so.
    Scan { host: FsPath, docker: bool, task: Task },
    /// Print completions.
    Completions(Shell),
}

/// The arguments without the `storage` that cargo puts in front.
pub open spec fn without_subcommand(argv: Seq<Seq<char>>) -> Seq<Seq<char>> {
    if argv.len() > 1 && argv[1] == "storage"@ {
        argv.remove(1)
    } else {
        argv
    }
}

/// The scan root: the subcommand's, else the top-level one, else home, else
/// the current directory.
pub open spec fn chosen_root(
    cmd_root: Option<FsPath>,
    top_root: Option<FsPath>,
    home: Option<FsPath>,
) -> Seq<u8> {
    match (cmd_root, top_root, home) {
        (Some(p), _, _) => p@,
        (None, Some(p), _) => p@,
        (None, None, Some(p)) => p@,
        (None, None, None) => encode_utf8("."@),
    }
}

/// Whether `plan` scans `host` with `docker` for `task`.
pub open spec fn scans(plan: Plan, root: Seq<u8>, with_docker: bool, wanted: Task) -> bool {
    plan matches Plan::Scan { host, docker, task } && host@ == root && docker == with_docker && task
        == wanted
}

/// `plan` is what arguments with this top-level root, docker flag and
/// subcommand ask for.
pub open spec fn is_asked_for(
    top_root: Option<FsPath>,
    top_docker: bool,
    command: Option<Command>,
    home: Option<FsPath>,
    plan: Plan,
) -> bool {
    match command {
        None => scans(plan, chosen_root(top_root, None, home), top_docker, Task::Browse),
        Some(Command::Tui { root, docker }) => scans(
            plan,
            chosen_root(root, top_root, home),
            docker || top_docker,
            Task::Browse,
        ),
        Some(Command::List { root, docker }) => scans(
            plan,
            chosen_root(root, top_root, home),
            docker || top_docker,
            Task::List,
        ),
        Some(Command::Clean { root, docker, older_than, larger_than, yes }) => scans(
            plan,
            chosen_root(root, top_root, home),
            docker || top_docker,
            Task::Clean { older_than, larger_than, yes },
        ),
        Some(Command::Completions { shell }) => plan == Plan::Completions(shell),
    }
}

impl Args {
    /// The arguments to parse: `cargo storage` hands over its own name first.
    pub fn parse_args(argv: Vec<String>) -> (r: Vec<String>)
        ensures
            text::texts(r@) == without_subcommand(text::texts(argv@)),
    {
        let mut argv = argv;
        let ghost before = argv@;
        if argv.len() > 1 {
            let storage = "storage".to_owned();
            if argv[1] == storage {
                let _ = argv.remove(1);
                assert(text::texts(argv@) =~= text::texts(before).remove(1));
            }
        }
        argv
    }

    /// Scan root for the requested subcommand. A root on the subcommand wins
    /// over the top-level one. `home` is the home directory, where known.
    pub fn root_for(
        cmd_root: Option<FsPath>,
        top_root: Option<FsPath>,
        home: Option<FsPath>,
    ) -> (r: FsPath)
        ensures
            r@ == chosen_root(cmd_root, top_root, home),
    {
        match cmd_root {
            Some(root) => root,
            None => match top_root {
                Some(root) => root,
                None => match home {
                    Some(root) => root,
                    None => FsPath::from_text("."),
                },
            },
        }
    }

    /// Whether `--docker` was passed either on the subcommand or top level.
    pub fn docker_for(cmd_docker: bool, top_docker: bool) -> (r: bool)
        ensures
            r == (cmd_docker || top_docker),
    {
        cmd_docker || top_docker
    }

    /// What the arguments ask for. Browsing is the default when no subcommand
    /// is given.
    pub fn plan(self, home: Option<FsPath>) -> (plan: Plan)
        ensures
            match self.command {
                None => scans(
                    plan,
                    chosen_root(self.root, None, home),
                    self.docker,
                    Task::Browse,
                ),
                Some(Command::Tui { root, docker }) => scans(
                    plan,
                    chosen_root(root, self.root, home),
                    docker || self.docker,
                    Task::Browse,
                ),
                Some(Command::List { root, docker }) => scans(
                    plan,
                    chosen_root(root, self.root, home),
                    docker || self.docker,
                    Task::List,
                ),
                Some(Command::Clean { root, docker, older_than, larger_than, yes }) => scans(
                    plan,
                    chosen_root(root, self.root, home),
                    docker || self.docker,
                    Task::Clean { older_than, larger_than, yes },
                ),
                Some(Command::Completions { shell }) => plan == Plan::Completions(shell),
            },
            is_asked_for(self.root, self.docker, self.command, home, plan),
    {
        match self.command {
            None => Plan::Scan {
                host: Args::root_for(self.root, None, home),
                docker: self.docker,
                task: Task::Browse,
            },
            Some(Command::Tui { root, docker }) => Plan::Scan {
                host: Args::root_for(root, self.root, home),
                docker: Args::docker_for(docker, self.docker),
                task: Task::Browse,
            },
            Some(Command::List { root, docker }) => Plan::Scan {
                host: Args::root_for(root, self.root, home),
                docker: Args::docker_for(docker, self.docker),
                task: Task::List,
            },
            Some(Command::Clean { root, docker, older_than, larger_than, yes }) => Plan::Scan {
                host: Args::root_for(root, self.root, home),
                docker: Args::docker_for(docker, self.docker),
                task: Task::Clean { older_than, larger_than, yes },
            },
            Some(Command::Completions { shell }) => Plan::Completions(shell),
        }
    }
}

/// `cargo storage` and the plain command read the same arguments: the word
/// `storage` behind the program's name is left out, once, and all else is kept.
pub proof fn law_subcommand_word_is_left_out(program: Seq<char>, rest: Seq<Seq<char>>)
    ensures
        without_subcommand(seq![program, "storage"@] + rest) == seq![program] + rest,
        rest.len() == 0 || rest[0] != "storage"@ ==> without_subcommand(seq![program] + rest)
            == seq![program] + rest,
        without_subcommand(Seq::<Seq<char>>::empty()).len() == 0,
{
    let all = seq![program, "storage"@] + rest;
    assert(all[1] == "storage"@);
    assert(all.remove(1) =~= seq![program] + rest);
    let plain = seq![program] + rest;
    if rest.len() > 0 {
        assert(plain[1] == rest[0]);
    }
}

/// The scan root that is named nearest counts, just as it was given: the
/// subcommand's before the top-level one, that before the home directory; and
/// without any of them it is the current directory.
pub proof fn law_nearest_root_counts(
    named: FsPath,
    top_root: Option<FsPath>,
    home: Option<FsPath>,
)
    ensures
        chosen_root(Some(named), top_root, home) == named.bytes@,
        chosen_root(None, Some(named), home) == named.bytes@,
        chosen_root(None, None, Some(named)) == named.bytes@,
        chosen_root(None, None, None) == seq![46u8],
{
    reveal_strlit(".");
    is_ascii_chars_encode_utf8("."@);
    assert(encode_utf8("."@) =~= seq![46u8]);
}

/// A plan that scans tells the root, whether container volumes are scanned too,
/// and the task; one that prints completions scans nothing.
pub proof fn law_plan_tells_what_it_scans(
    host: FsPath,
    docker: bool,
    task: Task,
    shell: Shell,
    root: Seq<u8>,
    with_docker: bool,
    wanted: Task,
)
    ensures
        scans((Plan::Scan { host, docker, task }), root, with_docker, wanted) <==> host.bytes@
            == root && docker == with_docker && task == wanted,
        !scans(Plan::Completions(shell), root, with_docker, wanted),
{
}

/// Browsing is the default: no subcommand asks for what `tui` without options
/// of its own does. A root and a docker flag mean the same on the subcommand as
/// at the top level, where the other side has none.
pub proof fn law_options_mean_the_same_on_either_side(
    root: Option<FsPath>,
    docker: bool,
    home: Option<FsPath>,
    plan: Plan,
)
    ensures
        is_asked_for(root, docker, None, home, plan) <==> is_asked_for(
            root,
            docker,
            Some(Command::Tui { root: None, docker: false }),
            home,
            plan,
        ),
        is_asked_for(root, docker, None, home, plan) <==> is_asked_for(
            None,
            false,
            Some(Command::Tui { root, docker }),
            home,
            plan,
        ),
        is_asked_for(root, false, Some(Command::List { root: None, docker }), home, plan)
            <==> is_asked_for(None, docker, Some(Command::List { root, docker: false }), home, plan),
{
}

/// Each subcommand asks for its own task, over the root that is named nearest,
/// and over container volumes where either side says so; cleaning goes by the
/// filters and the consent as they were given.
pub proof fn law_each_subcommand_asks_for_its_task(
    top_root: Option<FsPath>,
    top_docker: bool,
    command: Command,
    named: FsPath,
    home: Option<FsPath>,
    plan: Plan,
)
    requires
        is_asked_for(top_root, top_docker, Some(command), home, plan),
    ensures
        command matches Command::Tui { root, docker } ==> plan is Scan && plan->task
            == Task::Browse && plan->docker == (docker || top_docker),
        command matches Command::List { root, docker } ==> plan is Scan && plan->task
            == Task::List && plan->docker == (docker || top_docker),
        command matches Command::Clean { root, docker, older_than, larger_than, yes } ==> plan is Scan
            && plan->task is Clean && plan->task->older_than == older_than
            && plan->task->larger_than == larger_than && plan->task->yes == yes && plan->docker
            == (docker || top_docker),
        command matches Command::Completions { shell } ==> plan == Plan::Completions(shell),
        command matches Command::Tui { root, docker } ==> (root == Some(named) ==> plan->host@
            == named@),
        command matches Command::List { root, docker } ==> (root == Some(named) ==> plan->host@
            == named@),
        command matches Command::Clean { root, docker, older_than, larger_than, yes } ==> (root
            == Some(named) ==> plan->host@ == named@),
        command matches Command::Clean { root, docker, older_than, larger_than, yes } ==> (root is None
            && top_root == Some(named) ==> plan->host@ == named@),
        command matches Command::List { root, docker } ==> (root is None && top_root == Some(named)
            ==> plan->host@ == named@),
        command matches Command::Tui { root, docker } ==> (root is None && top_root == Some(named)
            ==> plan->host@ == named@),
{
}

} // verus!
