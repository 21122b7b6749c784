use cargo_storage::config::{
    can_load, cargo_home, config_path, default_worktrees, Config, ConfigFile, DiscoveryConfig,
};
use cargo_storage::path::FsPath;

fn text(body: &str) -> ConfigFile {
    ConfigFile::Text(body.to_string())
}

fn worktrees_var(value: &str) -> Vec<(String, String)> {
    vec![("discovery.worktrees".to_string(), value.to_string())]
}

#[test]
fn missing_file_gives_defaults() {
    let cfg = Config::load(&ConfigFile::Missing, &vec![]);
    assert!(cfg.discovery.worktrees);
}

#[test]
fn worktrees_flag_round_trips() {
    let file = text("[discovery]\nworktrees = false\n");
    assert!(!Config::load(&file, &vec![]).discovery.worktrees);
    let file = text("[discovery]\nworktrees = true\n");
    assert!(Config::load(&file, &vec![]).discovery.worktrees);
}

#[test]
fn missing_key_falls_back_to_enabled() {
    let file = text("[discovery]\n");
    assert!(Config::load(&file, &vec![]).discovery.worktrees);
}

#[test]
fn env_disables_worktrees() {
    let cfg = Config::load(&ConfigFile::Missing, &worktrees_var("false"));
    assert!(!cfg.discovery.worktrees);
}

#[test]
fn env_wins_over_file() {
    let file = text("[discovery]\nworktrees = false\n");
    assert!(Config::load(&file, &worktrees_var("true")).discovery.worktrees);
}

#[test]
fn unrelated_variables_do_not_matter() {
    let mut variables = vec![("spotlight".to_string(), "0".to_string())];
    let file = text("[discovery]\nworktrees = false\n");
    assert!(!Config::load(&file, &variables).discovery.worktrees);
    variables.extend(worktrees_var("true"));
    variables.push(("other.key".to_string(), "{a=1}".to_string()));
    assert!(Config::load(&file, &variables).discovery.worktrees);
    assert!(Config::load(&ConfigFile::Missing, &variables).discovery.worktrees);
    let off = vec![("other".to_string(), "false".to_string())];
    assert!(Config::load(&text("[discovery]\n"), &off).discovery.worktrees);
    assert!(!Config::load(&text("[discovery]\n"), &worktrees_var("false")).discovery.worktrees);
    assert!(!Config::load(&text("\n# none\n"), &worktrees_var("false")).discovery.worktrees);
}

#[test]
fn unusable_files_fall_back_to_defaults() {
    assert!(Config::load(&text("not toml ="), &vec![]).discovery.worktrees);
    assert!(Config::load(&text("not toml ="), &worktrees_var("false")).discovery.worktrees);
    assert!(Config::load(&ConfigFile::Unreadable, &worktrees_var("false")).discovery.worktrees);
    assert!(Config::load(&text("discovery = 5\n"), &vec![]).discovery.worktrees);
    assert!(Config::load(&text("[discovery]\nworktrees = 0\n"), &vec![]).discovery.worktrees);
}

#[test]
fn a_list_in_place_of_the_section_gives_its_first_flag() {
    assert!(!Config::load(&text("discovery = [false]\n"), &vec![]).discovery.worktrees);
    assert!(!Config::load(&text("discovery = [false, 1]\n"), &vec![]).discovery.worktrees);
    assert!(Config::load(&text("discovery = []\n"), &vec![]).discovery.worktrees);
    assert!(Config::load(&text("discovery = [1, false]\n"), &vec![]).discovery.worktrees);
}

#[test]
fn settings_are_settled_in_turn() {
    assert!(!Config::load_from(Some((Some(false), Some(true)))).discovery.worktrees);
    assert!(!Config::load_from(Some((None, Some(false)))).discovery.worktrees);
    assert!(Config::load_from(Some((None, None))).discovery.worktrees);
    assert!(Config::load_from(None).discovery.worktrees);
    assert!(default_worktrees());
    assert!(DiscoveryConfig::default().worktrees);
    assert_eq!(Config::default(), Config { discovery: DiscoveryConfig { worktrees: true } });
}

#[test]
fn cargo_home_honors_its_variable_then_home() {
    let p = FsPath::from_text;
    assert_eq!(cargo_home(Some("/opt/cargo"), Some("/home/u")), p("/opt/cargo"));
    assert_eq!(cargo_home(Some("  "), Some("/home/u")), p("/home/u/.cargo"));
    assert_eq!(cargo_home(None, Some("/home/u/")), p("/home/u/.cargo"));
    assert_eq!(cargo_home(None, Some("")), p(".cargo"));
    assert_eq!(cargo_home(None, None), p(".cargo"));
    assert_eq!(cargo_home(Some(" x "), None).to_text(), " x ");
    assert_eq!(
        config_path(None, Some("/home/u")).to_text(),
        "/home/u/.cargo/cargo-storage.toml"
    );
    assert_eq!(config_path(None, None).to_text(), ".cargo/cargo-storage.toml");
}

#[test]
fn a_variable_that_is_no_flag_gives_the_default() {
    for value in ["maybe", "", "1", "trueish", "\"true\"", "[true]", "{a=true}", "true\u{a0}"] {
        for file in [
            ConfigFile::Missing,
            text("[discovery]\nworktrees = false\n"),
            text("discovery = [false]\n"),
            text("discovery = 5\n"),
        ] {
            assert!(Config::load(&file, &worktrees_var(value)).discovery.worktrees, "{value:?}");
        }
    }
}

#[test]
fn a_variable_that_is_a_flag_wins_over_any_file() {
    for (value, flag) in [("false", false), (" true\n", true), ("\tfalse \r", false)] {
        for file in [
            ConfigFile::Missing,
            text(""),
            text("[discovery]\nworktrees = true\n"),
            text("discovery = [true]\n"),
            text("discovery = 5\n"),
            text("[discovery.worktrees]\na = 1\n"),
        ] {
            assert_eq!(Config::load(&file, &worktrees_var(value)).discovery.worktrees, flag);
        }
    }
}

#[test]
fn invalid_toml_gives_the_default_whatever_is_set() {
    for body in ["=", "[discovery", "[discovery]\nworktrees = nope\n", "a = 1\na = 2\n"] {
        assert!(Config::load(&text(body), &vec![]).discovery.worktrees);
        assert!(Config::load(&text(body), &worktrees_var("false")).discovery.worktrees);
    }
}

fn loads(value: &str) -> bool {
    can_load(&ConfigFile::Missing, &worktrees_var(value))
}

#[test]
fn only_readable_variables_are_loaded() {
    assert!(can_load(&ConfigFile::Missing, &vec![]));
    for value in [
        r#""e\n""#,
        r#""é""#,
        r#""éa\n""#,
        r#""é\n"#,
        "\"\u{1}\u{e9}\\n\"",
        r#""a\"é\n""#,
        r#"é\n"#,
        r#"\"é"#,
        r#"a"é\n""#,
        r#"a,"é\n""#,
        r#"[a"é\n"]"#,
        r#"[a "é\n"]"#,
        r#"['"','é','\']"#,
        r#"[1] "é\n""#,
        r#"{a=b="é\n"}"#,
        r#"{a b="é\n"}"#,
        r#"{ "é" = \ }"#,
    ] {
        assert!(loads(value), "{value:?}");
        let config = Config::load(&ConfigFile::Missing, &worktrees_var(value));
        assert!(config.discovery.worktrees);
    }
    for value in [
        r#""é\n""#,
        r#" "é\n" "#,
        "\"\u{1f980}ab\\\\\"",
        r#"["é\n"]"#,
        r#"[ 1 , [], "é\n""#,
        r#"[a"b,"é\n"]"#,
        r#"['"',"é\n"]"#,
        r#"["a\"","é\n"]"#,
        r#"{"é\n"=1}"#,
        r#"{a=b=",c="é\n"}"#,
        r#"{a-b = [{}, {c="é\n"}]}"#,
    ] {
        assert!(!loads(value), "{value:?}");
    }
}

#[test]
fn only_nesting_counts_as_depth() {
    let load = |value: &str| {
        assert!(loads(value), "{value:?}");
        let config = Config::load(&ConfigFile::Missing, &worktrees_var(value));
        assert!(config.discovery.worktrees);
    };
    for (open, close) in [("[", "]"), ("{a=", "}"), (r#"{"a" = [ "#, "] }")] {
        let per = open.matches(['[', '{']).count();
        let nested = |n: usize| format!("{}1{}", open.repeat(n), close.repeat(n));
        load(&nested(64 / per));
        assert!(!loads(&nested(64 / per + 1)));
        assert!(!loads(&open.repeat(64 / per + 1)));
    }
    load(&format!("[{}]", "[],".repeat(200)));
    load(&format!("[{}]", "{a=[1,2]},".repeat(200)));
    load(&format!("\"{}\"", "[".repeat(200)));
    load(&format!("[\"{}\", '{{', x]", ",[,{".repeat(200)));
    load(&"[}".repeat(200));
    load(&format!("a{}", "[".repeat(200)));
}

#[test]
fn long_names_are_loaded_up_to_a_limit() {
    let value = format!("{}1{}", "{a=".repeat(64), "}".repeat(64));
    let name = vec!["a"; 400].join(".");
    let variables = vec![(name.clone(), value)];
    assert!(can_load(&ConfigFile::Missing, &variables));
    assert!(Config::load(&ConfigFile::Missing, &variables).discovery.worktrees);
    let variables = vec![(format!("{name}.a"), "1".to_string())];
    assert!(!can_load(&ConfigFile::Missing, &variables));
}

#[test]
fn deep_files_are_not_loaded() {
    let load = |file: &ConfigFile| {
        assert!(can_load(file, &vec![]), "{file:?}");
        assert!(!Config::load(file, &worktrees_var("false")).discovery.worktrees);
        assert!(Config::load(file, &worktrees_var("true")).discovery.worktrees);
    };
    let nested = |levels: usize, parts: usize| {
        let key = vec!["a"; parts].join(".");
        let inner = (0..levels).fold("1".to_string(), |inner, _| format!("{{{key}={inner}}}"));
        text(&format!("[{key}]\n{key}={inner}\n"))
    };
    for (levels, parts) in [(0, 79), (1, 79), (2, 79), (3, 60), (78, 3), (78, 1)] {
        load(&nested(levels, parts));
    }
    assert!(!can_load(&nested(3, 79), &vec![]));
    assert!(!can_load(&nested(78, 4), &vec![]));
    assert!(can_load(&ConfigFile::Unreadable, &vec![]));
    let key = vec!["a"; 79].join(".");
    let headers: String = (1..80).map(|n| format!("[[{}]]\n", vec!["a"; n].join("."))).collect();
    let (open, close) = ("[".repeat(77), "]".repeat(77));
    load(&text(&format!("{headers}{key}={open}{{{key}={{a=1}}}}{close}\n")));
}

#[test]
fn only_nesting_counts_in_files() {
    let load = |body: &str| {
        let file = text(body);
        assert!(can_load(&file, &vec![]), "{body:?}");
        assert!(!Config::load(&file, &worktrees_var("false")).discovery.worktrees, "{body:?}");
    };
    let dots = ".".repeat(500);
    load(&format!("# {{{{{{ {dots}\n"));
    load(&format!("a = {{x = 1}}\nb = {{x = 1}}\nc = {{x = 1}}\nd = \"{{[{dots}\"\n"));
    load(&format!("d = 'it {{[{dots}'\ne = [1.5] # {dots}\n"));
    load(&format!("d = \"\"\"\n{{\\\"\"\"{dots}\"\"\"\"\"\ne = '''\n[{dots}'''''\nf = {{x = 1}}\n"));
    load(&format!("d = \"\\\\\"\ne = \"\\\"{{{dots}\"\nf = \"\"\ng = ''\n"));
    load(&format!("d = [{}]\n", "{a.b.c = 1.5}, ".repeat(300)));
    load(&(0..300).map(|n| format!("k{n}.a.b = {{x = 1.5, y = [2.5]}}\n")).collect::<String>());
    load(&format!("d = [\n{}]\n", "  {a.b = 1}, # {[..\n".repeat(300)));
    let deep = |lead: &str| {
        let key = vec!["a"; 70].join(".");
        text(&format!("{lead}d = {{{key}={{{key}={{{key}={{{key}=1}}}}}}}}\n"))
    };
    assert!(!can_load(&deep(""), &vec![]));
    assert!(!can_load(&deep("s = \"\"\"\"\"\"\n"), &vec![]));
    assert!(!can_load(&deep("s = \"\"\"a\"\"\"\"\n"), &vec![]));
    assert!(!can_load(&deep("s = '''a'''''\nt = 'b' # '\n"), &vec![]));
}

#[test]
fn what_a_file_sets_decides_without_variables() {
    for (body, flag) in [
        ("[other]\nworktrees = false\n", true),
        ("[discovery]\nother = false\n", true),
        ("x = 1\n[discovery]\n# worktrees = false\n", true),
        ("discovery.worktrees = false\n", false),
        ("discovery = {worktrees = false, more = [1]}\n", false),
        ("[discovery]\nmore = 1.5\nworktrees = false # off\n", false),
        ("[discovery]\nworktrees = \"false\"\n", true),
        ("discovery = [false, true]\n", false),
        ("discovery = \"off\"\n", true),
    ] {
        let other = vec![("other.worktrees".to_string(), "true".to_string())];
        assert_eq!(Config::load(&text(body), &vec![]).discovery.worktrees, flag, "{body:?}");
        assert_eq!(Config::load(&text(body), &other).discovery.worktrees, flag, "{body:?}");
    }
}
