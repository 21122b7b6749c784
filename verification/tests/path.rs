use std::path::{Component as StdComponent, Path};

use cargo_storage::order::{stable_sort, Ranked};
use cargo_storage::path::{push_cleaned, Component, FsPath};

fn p(s: &str) -> FsPath {
    FsPath::from_text(s)
}

fn shown(c: &Component) -> String {
    match c {
        Component::RootDir => "/".to_string(),
        Component::CurDir => ".".to_string(),
        Component::ParentDir => "..".to_string(),
        Component::Normal(name) => String::from_utf8(name.clone()).unwrap(),
    }
}

fn std_shown(c: &StdComponent<'_>) -> String {
    match c {
        StdComponent::Prefix(_) => unreachable!(),
        StdComponent::RootDir => "/".to_string(),
        StdComponent::CurDir => ".".to_string(),
        StdComponent::ParentDir => "..".to_string(),
        StdComponent::Normal(name) => name.to_str().unwrap().to_string(),
    }
}

const SAMPLES: [&str; 20] = [
    "", ".", "..", "/", "//", "a", "a/", "./a", "././a", "a/./b", "a//b", "/a/b", "/a/../b/.",
    "/.", "../a", "a/..", "/a b/c", "...", "/a/b/", "./",
];

#[test]
fn components_agree_with_std() {
    for s in SAMPLES {
        let ours: Vec<String> = p(s).components().iter().map(shown).collect();
        let theirs: Vec<String> = Path::new(s).components().map(|c| std_shown(&c)).collect();
        assert_eq!(ours, theirs, "{s:?}");
        assert_eq!(p(s).is_absolute(), Path::new(s).is_absolute());
    }
}

#[test]
fn names_and_parents_agree_with_std() {
    for s in SAMPLES {
        let name = p(s).file_name().map(|n| String::from_utf8(n).unwrap());
        let std_name = Path::new(s).file_name().map(|n| n.to_str().unwrap().to_string());
        assert_eq!(name, std_name, "{s:?}");
        let parent = p(s).parent();
        let std_parent = Path::new(s).parent().map(|q| p(q.to_str().unwrap()));
        assert_eq!(parent, std_parent, "{s:?}");
    }
}

#[test]
fn pairs_of_paths_agree_with_std() {
    for a in SAMPLES {
        for b in SAMPLES {
            let (x, y) = (Path::new(a), Path::new(b));
            assert_eq!(p(a) == p(b), x == y, "{a:?} {b:?}");
            assert_eq!(p(a).starts_with(&p(b)), x.starts_with(y), "{a:?} {b:?}");
            assert_eq!(p(a).in_order(&p(b)), x <= y, "{a:?} {b:?}");
            assert_eq!(p(a).comes_no_later(&p(b)), x <= y, "{a:?} {b:?}");
            let joined = x.join(y);
            assert_eq!(p(a).join(&p(b)).bytes, joined.to_str().unwrap().as_bytes().to_vec());
        }
    }
}

#[test]
fn written_components_read_back() {
    for s in SAMPLES {
        let all = p(s).components();
        assert_eq!(FsPath::of_components(&all), p(s), "{s:?}");
    }
}

#[test]
fn cleanup_drops_dots_and_stops_at_the_root() {
    let mut done = Vec::new();
    for c in p("/a/./b/../../../c").components().iter() {
        push_cleaned(&mut done, c);
    }
    let left: Vec<String> = done.iter().map(shown).collect();
    assert_eq!(left, vec!["/", "c"]);
}

#[test]
fn bytes_that_are_no_text_are_shown_with_replacements() {
    let path = FsPath::from_bytes(vec![b'/', b'a', 0xff, b'b']);
    assert_eq!(path.to_text(), "/a\u{fffd}b");
    assert_eq!(p("/\u{e9}").to_text(), "/\u{e9}");
}

#[test]
fn sorting_keeps_equal_paths_in_their_order() {
    let sorted = stable_sort(vec![p("b"), p("a//x"), p("a/x"), p("a")]);
    let raw: Vec<String> = sorted.iter().map(|q| q.to_text()).collect();
    assert_eq!(raw, vec!["a", "a//x", "a/x", "b"]);
}
