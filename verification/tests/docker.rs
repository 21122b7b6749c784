use cargo_storage::path::FsPath;
use cargo_storage::scan::docker::{
    list_volumes, parse_inspect_output, select_runtime, skip_reason, usable_roots, volume_names,
    CommandOutcome, DockerVolume, MountStatus, ProbedVolume, Runtime, ScanRoot, VolumeAction,
    VolumeCommand, VolumeError, VolumeEvent,
};

fn exited(success: bool, stdout: &[u8], stderr: &[u8]) -> CommandOutcome {
    CommandOutcome::Exited {
        success,
        stdout: stdout.to_vec(),
        stderr: stderr.to_vec(),
    }
}

fn volume(name: &str, mount: &str) -> DockerVolume {
    DockerVolume {
        name: name.to_string(),
        mountpoint: FsPath::from_text(mount),
    }
}

#[test]
fn parses_tabbed_inspect_lines_in_name_order() {
    let out = parse_inspect_output(
        "zeta\t/var/lib/docker/volumes/zeta/_data\n\
         alpha\t/var/lib/docker/volumes/alpha/_data\n",
    );
    assert_eq!(
        out.iter().map(|v| v.name.clone()).collect::<Vec<_>>(),
        vec!["alpha".to_string(), "zeta".to_string()]
    );
    assert_eq!(
        out[0].mountpoint,
        FsPath::from_text("/var/lib/docker/volumes/alpha/_data")
    );
}

#[test]
fn skips_blank_and_malformed_lines() {
    let out = parse_inspect_output("lonely-name\n\nok\t/data\n  \n");
    assert_eq!(out.len(), 1);
    assert_eq!(out[0].name, "ok");
}

#[test]
fn usable_roots_keeps_local_dirs_and_warns_on_missing() {
    let volumes = vec![
        ProbedVolume {
            volume: volume("vol-a", "/tmp/cargo-shepherd-test-docker-roots/vol-a/_data"),
            mount: MountStatus::Directory,
        },
        ProbedVolume {
            volume: volume("gone", "/tmp/cargo-shepherd-test-docker-roots/gone/_data"),
            mount: MountStatus::Inaccessible("No such file or directory (os error 2)".to_string()),
        },
    ];
    let (roots, skipped) = usable_roots(&volumes);
    assert_eq!(roots.len(), 1);
    assert_eq!(roots[0].volume.as_deref(), Some("vol-a"));
    assert_eq!(skipped.len(), 1);
    assert!(skipped[0].contains("gone"));
}

#[test]
fn inspect_lines_split_at_a_space_where_there_is_no_tab() {
    let out = parse_inspect_output("  spaced /mnt/with space \r\ntabbed one\t/m\t2\n\t/only\n");
    assert_eq!(out.len(), 2);
    assert_eq!(out[0], volume("spaced", "/mnt/with space"));
    assert_eq!(out[1], volume("tabbed one", "/m\t2"));
}

#[test]
fn equal_names_keep_their_order() {
    let out = parse_inspect_output("a\t/2\na\t/1\n\u{e9}\t/3\nz\t/4\n");
    let mounts: Vec<String> = out.iter().map(|v| v.mountpoint.to_text()).collect();
    assert_eq!(mounts, vec!["/2", "/1", "/4", "/3"]);
}

#[test]
fn skip_reasons_name_the_cause() {
    let v = volume("v", "/m//x/");
    assert_eq!(
        skip_reason(&v, &MountStatus::PermissionDenied),
        "--docker: skipping volume `v`: permission denied on /m//x/ (try sudo)"
    );
    assert_eq!(
        skip_reason(&v, &MountStatus::Inaccessible("boom".to_string())),
        "--docker: skipping volume `v`: cannot access /m//x/ (boom); the daemon may be remote"
    );
    assert_eq!(
        skip_reason(&v, &MountStatus::NotDirectory),
        "--docker: skipping volume `v`: not a directory: /m//x/"
    );
}

#[test]
fn docker_is_preferred_over_podman() {
    assert!(matches!(select_runtime(true, true), Ok(Runtime::Docker)));
    assert!(matches!(select_runtime(false, true), Ok(Runtime::Podman)));
    assert!(matches!(select_runtime(false, false), Err(VolumeError::NoRuntime)));
    assert_eq!(
        VolumeError::NoRuntime.message(),
        "--docker needs a container runtime: neither `docker` nor `podman` found in PATH"
    );
    assert_eq!(Runtime::Docker.name(), "docker");
    assert_eq!(Runtime::Podman.name(), "podman");
}

#[test]
fn listing_runs_ls_then_inspect_then_ends() {
    let first = list_volumes(VolumeEvent::Runtimes { docker: true, podman: false });
    assert!(matches!(first, VolumeAction::List(Runtime::Docker)));
    assert_eq!(first.arguments(), vec!["volume", "ls", "-q"]);
    let second = list_volumes(VolumeEvent::Listed(
        Runtime::Docker,
        exited(true, b" zeta \n\nalpha\n", b""),
    ));
    assert_eq!(
        second.arguments(),
        vec!["volume", "inspect", "--format", "{{.Name}}\t{{.Mountpoint}}", "zeta", "alpha"]
    );
    let last = list_volumes(VolumeEvent::Inspected(
        Runtime::Docker,
        exited(true, b"zeta\t/z\nalpha\t/a\xff\n", b""),
    ));
    assert!(last.arguments().is_empty());
    match last {
        VolumeAction::Finish(Ok(volumes)) => {
            assert_eq!(volumes, vec![volume("alpha", "/a\u{fffd}"), volume("zeta", "/z")]);
        }
        other => panic!("{other:?}"),
    }
}

#[test]
fn listing_without_volumes_inspects_nothing() {
    let action = list_volumes(VolumeEvent::Listed(Runtime::Podman, exited(true, b" \n\n", b"")));
    assert!(matches!(action, VolumeAction::Finish(Ok(v)) if v.is_empty()));
    assert!(volume_names("\n \n").is_empty());
    assert_eq!(volume_names("a\n b\t\n"), vec!["a", "b"]);
}

#[test]
fn listing_failures_are_reported() {
    let cases = vec![
        (
            VolumeEvent::Runtimes { docker: false, podman: false },
            "--docker needs a container runtime: neither `docker` nor `podman` found in PATH",
        ),
        (
            VolumeEvent::Listed(Runtime::Docker, CommandOutcome::NotRun("gone".to_string())),
            "running `docker volume ls`: gone",
        ),
        (
            VolumeEvent::Listed(Runtime::Podman, exited(false, b"", b" daemon down\n")),
            "`podman volume ls` failed: daemon down",
        ),
        (
            VolumeEvent::Inspected(Runtime::Podman, CommandOutcome::NotRun("gone".to_string())),
            "running `podman volume inspect`: gone",
        ),
        (
            VolumeEvent::Inspected(Runtime::Docker, exited(false, b"x", b"no such volume")),
            "`docker volume inspect` failed: no such volume",
        ),
    ];
    for (event, message) in cases {
        match list_volumes(event) {
            VolumeAction::Finish(Err(error)) => assert_eq!(error.message(), message),
            other => panic!("{other:?}"),
        }
    }
    let error = VolumeError::Failed(Runtime::Docker, VolumeCommand::Ls, "x".to_string());
    assert_eq!(error.message(), "`docker volume ls` failed: x");
}

#[test]
fn every_volume_is_walked_or_warned_about() {
    let volumes = vec![
        ProbedVolume { volume: volume("a", "/a"), mount: MountStatus::Directory },
        ProbedVolume { volume: volume("b", "/b"), mount: MountStatus::NotDirectory },
        ProbedVolume { volume: volume("c", "/c"), mount: MountStatus::PermissionDenied },
        ProbedVolume { volume: volume("d", "/d"), mount: MountStatus::Directory },
    ];
    let (roots, skipped) = usable_roots(&volumes);
    assert_eq!(
        roots,
        vec![
            ScanRoot { path: FsPath::from_text("/a"), volume: Some("a".to_string()) },
            ScanRoot { path: FsPath::from_text("/d"), volume: Some("d".to_string()) },
        ]
    );
    assert_eq!(skipped.len(), 2);
    let good: Vec<ProbedVolume> =
        volumes.into_iter().filter(|v| matches!(v.mount, MountStatus::Directory)).collect();
    assert_eq!(usable_roots(&good), (roots, vec![]));
}

#[test]
fn host_roots_have_no_volume() {
    let root = ScanRoot::host(FsPath::from_text("/home"));
    assert_eq!(root.volume, None);
    assert_eq!(ScanRoot::from(FsPath::from_text("/home")), root);
    assert_eq!(root.clone(), root);
    let v = volume("v", "/m");
    assert_eq!(v.clone(), v);
}

#[test]
fn a_listing_is_read_back_sorted_by_name() {
    let volumes = [("a b", "/x y"), ("b", "/m\t2"), ("c", "rel")];
    for order in [[0, 1, 2], [2, 1, 0], [1, 2, 0]] {
        let printed: String =
            order.iter().map(|i| format!("{}\t{}\n", volumes[*i].0, volumes[*i].1)).collect();
        let expected: Vec<DockerVolume> = volumes.iter().map(|v| volume(v.0, v.1)).collect();
        assert_eq!(parse_inspect_output(&printed), expected);
    }
}
