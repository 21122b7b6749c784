use cargo_storage::path::FsPath;
use cargo_storage::scan::spotlight::{
    collect, index_answers, order_hits, path_has_component, spotlight_disabled, Hit, HitStep,
    IndexAnswer,
};

fn p(s: &str) -> FsPath {
    FsPath::from_text(s)
}

fn hit(s: &str) -> Hit {
    Hit { path: p(s) }
}

#[test]
fn switch_values() {
    for v in ["0", "false", "no", "off", "FALSE", "OFF", "False", "NO", "nO"] {
        assert!(spotlight_disabled(Some(v)), "{v}");
    }
    for v in ["", "1", "true", "Off", "oFF", "yes", "0 ", "falsee"] {
        assert!(!spotlight_disabled(Some(v)), "{v}");
    }
    assert!(!spotlight_disabled(None));
}

#[test]
fn whole_components_are_compared() {
    assert!(path_has_component(&p("/a/.git/b"), ".git"));
    assert!(!path_has_component(&p("/a/.github/b"), ".git"));
    assert!(!path_has_component(&p("/a/../b"), ".."));
}

#[test]
fn shallow_hits_come_first_and_keep_their_order() {
    let ordered = order_hits(vec![hit("/a/b/c"), hit("/z"), hit("/b/x/y"), hit("/a")]);
    let shown: Vec<String> = ordered.iter().map(|h| h.path.to_text()).collect();
    assert_eq!(shown, vec!["/z", "/a", "/a/b/c", "/b/x/y"]);
}

#[test]
fn hits_are_filtered_like_the_walk() {
    let root = p("/r");
    let skip = |h: &str, link: Option<bool>, ok: Option<bool>| {
        matches!(collect(&root, &hit(h), link, ok), HitStep::Skip)
    };
    assert!(skip("/", None, None));
    assert!(skip("/r/.git/Cargo.toml", None, None));
    assert!(skip("/r/.cargo/x/Cargo.toml", None, None));
    assert!(skip("/r/a/Cargo.toml", Some(true), None));
    assert!(skip("/other/a/Cargo.toml", Some(false), None));
    assert!(skip("/r/a/Cargo.toml", Some(false), Some(false)));
    match collect(&root, &hit("/r/a/Cargo.toml"), None, None) {
        HitStep::ProbeSymlink { manifest_dir } => assert_eq!(manifest_dir, p("/r/a")),
        other => panic!("{other:?}"),
    }
    match collect(&root, &hit("/r/a/Cargo.toml"), Some(false), None) {
        HitStep::ProbeAllowed { manifest_dir } => assert_eq!(manifest_dir, p("/r/a")),
        other => panic!("{other:?}"),
    }
    match collect(&root, &hit("/r/a/b/Cargo.toml"), Some(false), Some(true)) {
        HitStep::Accept { manifest_dir, ancestors } => {
            assert_eq!(manifest_dir, p("/r/a/b"));
            assert_eq!(ancestors, vec![p("/r/a/b"), p("/r/a"), p("/r")]);
        }
        other => panic!("{other:?}"),
    }
}

#[test]
fn the_walk_is_needed_unless_something_was_accepted() {
    let answer = |disabled, indexed, accepted| {
        index_answers(&IndexAnswer { disabled, indexed, accepted })
    };
    assert!(answer(false, Some(3), 1));
    assert!(!answer(true, Some(3), 1));
    assert!(!answer(false, None, 0));
    assert!(!answer(false, Some(0), 0));
    assert!(!answer(false, Some(3), 0));
}
