//! User configuration from `$CARGO_HOME/cargo-storage.toml`.
//!
//! Current keys:
//! ```toml
//! [discovery]
//! worktrees = true
//! ```
//!
//! Every key is also settable as `CARGO_STORAGE_<SECTION>_<KEY>`, e.g.
//! `CARGO_STORAGE_DISCOVERY_WORKTREES=false`, which wins over the file.

use figment::providers::{Format, Serialized, Toml};
use figment::value::Value;
use figment::{Figment, Provider};

use vstd::prelude::*;
use vstd::string::*;
use vstd::utf8::*;

use crate::limits;
use crate::path;
use crate::path::FsPath;
use crate::text;

verus! {

/// Top-level configuration.
#[derive(Clone, Copy, Debug, PartialEq, Eq, Structural)]
pub struct Config {
    pub discovery: DiscoveryConfig,
}

/// The `discovery` section.
#[derive(Clone, Copy, Debug, PartialEq, Eq, Structural)]
pub struct DiscoveryConfig {
    /// Whether linked git worktrees are walked.
    pub worktrees: bool,
}

/// What reading the configuration file gave.
#[derive(Debug)]
pub enum ConfigFile {
    /// There is none.
    Missing,
    /// It is there but could not be read as text.
    Unreadable,
    /// Its text.
    Text(String),
}

/// The configuration with `worktrees` set to `flag`.
pub open spec fn config_with(flag: bool) -> Config {
    Config { discovery: DiscoveryConfig { worktrees: flag } }
}

/// Names and values as text.
pub open spec fn variable_texts(variables: Seq<(String, String)>) -> Seq<(Seq<char>, Seq<char>)> {
    variables.map_values(|v: (String, String)| (v.0@, v.1@))
}

/// A flag as it is written.
pub open spec fn flag_text(flag: bool) -> Seq<char> {
    if flag {
        "true"@
    } else {
        "false"@
    }
}

/// `s` without ASCII whitespace around it.
pub open spec fn bare(s: Seq<char>) -> Seq<char>
    decreases s.len(),
{
    if s.len() > 0 && limits::ascii_space(s.first()) {
        bare(s.drop_first())
    } else if s.len() > 0 && limits::ascii_space(s.last()) {
        bare(s.drop_last())
    } else {
        s
    }
}

/// The flag that the value of a variable gives, if it is one.
pub open spec fn flag_of(value: Seq<char>) -> Option<bool> {
    if bare(value) == "true"@ {
        Some(true)
    } else if bare(value) == "false"@ {
        Some(false)
    } else {
        None
    }
}

/// Every value can be read, and no name has too many parts.
pub open spec fn readable_variables(variables: Seq<(Seq<char>, Seq<char>)>) -> bool {
    forall|i: int|
        0 <= i < variables.len() ==> limits::fits((#[trigger] variables[i]).0) && limits::readable(
            variables[i].1,
        )
}

/// The text of the file does not nest too deep, and the variables can be read.
pub open spec fn is_loadable(file: ConfigFile, variables: Seq<(Seq<char>, Seq<char>)>) -> bool {
    &&& file matches ConfigFile::Text(toml) ==> limits::is_shallow(toml@)
    &&& readable_variables(variables)
}

/// Whether the `Toml` provider of `Figment` reads the text.
pub uninterp spec fn valid_toml(toml: Seq<char>) -> bool;

/// What `Figment` extracts at `key` as a flag, and at `section` as a list
/// that starts with a flag, from three layers of which later ones win: the
/// default at `key`, the TOML text, and the variables, merged in order.
/// `None` where they cannot be merged.
pub uninterp spec fn layered_flag(
    section: Seq<char>,
    key: Seq<char>,
    default: bool,
    toml: Seq<char>,
    variables: Seq<(Seq<char>, Seq<char>)>,
) -> Option<(Option<bool>, Option<bool>)>;

/// What a TOML text sets by itself: nothing where it has no value at `key`, nor
/// one other than a table at `section`; else what `Figment` extracts from it at
/// `key` as a flag, and at `section` as a list that starts with a flag.
pub uninterp spec fn text_sets(section: Seq<char>, key: Seq<char>, toml: Seq<char>) -> Option<
    (Option<bool>, Option<bool>),
>;

/// No variable but the `i`-th starts with `section`.
pub open spec fn leave_alone(
    variables: Seq<(Seq<char>, Seq<char>)>,
    i: int,
    section: Seq<char>,
) -> bool {
    forall|j: int|
        0 <= j < variables.len() && j != i ==> !text::has_prefix(
            (#[trigger] variables[j]).0,
            section,
        ) && plain_name(variables[j].0)
}

/// The `i`-th variable sets `key`, and no other starts with `section`.
pub open spec fn sets_alone(
    variables: Seq<(Seq<char>, Seq<char>)>,
    i: int,
    section: Seq<char>,
    key: Seq<char>,
) -> bool {
    &&& 0 <= i < variables.len()
    &&& variables[i].0 == key
    &&& leave_alone(variables, i, section)
}

/// A file that holds the section, and in it the flag where there is one.
pub open spec fn file_text(flag: Option<bool>) -> Seq<char> {
    match flag {
        Some(flag) => "[discovery]\nworktrees = "@ + flag_text(flag) + "\n"@,
        None => "[discovery]\n"@,
    }
}

/// A name whose parts between dots are not empty.
pub open spec fn plain_name(name: Seq<char>) -> bool {
    forall|i: int|
        0 <= i < text::split_on(name, '.').len() ==> (#[trigger] text::split_on(name, '.')[i]).len()
            > 0
}

/// The text is empty, or is a file that holds the section alone.
pub open spec fn is_short_file(toml: Seq<char>) -> bool {
    toml.len() == 0 || exists|flag: Option<bool>| toml == #[trigger] file_text(flag)
}

/// Merges the layers with `Figment::merge` and reads them with
/// `Figment::extract_inner`. Variables whose value makes the parser of
/// `Figment` panic are left out, and variables and text that nest deeper than
/// the stack is sure to allow.
/// Trusted: what comes out depends on the arguments alone. Text that is not
/// TOML cannot be merged. Where no variable but one with the name of the key
/// touches the section, the layers can be merged exactly where the text is
/// TOML, which the empty text and the section alone are; without such a
/// variable what the text sets by itself comes out, and the default where it
/// sets nothing, as the empty text and the bare section do, while a section
/// with the flag sets it; and with one, its value decides, whatever the text
/// holds: it is a flag, or nothing can be read.
#[verifier::external_body]
fn read_layers(
    section: &str,
    key: &str,
    default: bool,
    toml: &str,
    variables: &Vec<(String, String)>,
) -> (r: Option<(Option<bool>, Option<bool>)>)
    requires
        section@ == "discovery"@,
        key@ == "discovery.worktrees"@,
        limits::is_shallow(toml@),
        readable_variables(variable_texts(variables@)),
    ensures
        r == layered_flag(section@, key@, default, toml@, variable_texts(variables@)),
        !valid_toml(toml@) ==> r is None,
        leave_alone(variable_texts(variables@), -1, section@) ==> {
            &&& r is None ==> !valid_toml(toml@)
            &&& is_short_file(toml@) ==> r is Some
            &&& valid_toml(toml@) ==> r == Some(
                match text_sets(section@, key@, toml@) {
                    Some(pair) => pair,
                    None => (Some(default), None::<bool>),
                },
            )
            &&& toml@.len() == 0 ==> r == Some((Some(default), None::<bool>))
            &&& forall|flag: Option<bool>|
                toml@ == #[trigger] file_text(flag) ==> r == Some(
                    (Some(flag.unwrap_or(default)), None::<bool>),
                )
        },
        forall|i: int|
            #[trigger] sets_alone(variable_texts(variables@), i, section@, key@) ==> {
                &&& r is None ==> !valid_toml(toml@)
                &&& is_short_file(toml@) ==> r is Some
                &&& r is Some ==> r == Some(
                    (flag_of(variable_texts(variables@)[i].1), None::<bool>),
                )
            },
{
    let mut overrides = Figment::new();
    for (name, text) in variables {
        overrides = overrides.merge(Serialized::default(name, text.parse::<Value>().ok()));
    }
    let layers = Figment::from(Serialized::default(key, default)).merge(Toml::string(toml)).merge(
        overrides,
    );
    let _ = layers.data().ok()?;
    let listed = layers.extract_inner::<(bool,)>(section);
    Some((layers.extract_inner(key).ok(), listed.map(|flags| flags.0).ok()))
}

/// The flag that the layers give: the one at its key, else the first of a
/// list in place of its section, else the default.
pub open spec fn settled_flag(layers: Option<(Option<bool>, Option<bool>)>) -> bool {
    match layers {
        Some((Some(flag), _)) => flag,
        Some((None, Some(flag))) => flag,
        _ => true,
    }
}

/// The text that a file holds, none where there is no file.
pub open spec fn held_text(file: ConfigFile) -> Seq<char> {
    match file {
        ConfigFile::Text(toml) => toml@,
        _ => ""@,
    }
}

/// The configuration that the file and the variables give. Parse errors fall
/// back to the default.
pub open spec fn loaded(file: ConfigFile, variables: Seq<(Seq<char>, Seq<char>)>) -> Config {
    if file is Unreadable {
        config_with(true)
    } else {
        config_with(
            settled_flag(
                layered_flag(
                    "discovery"@,
                    "discovery.worktrees"@,
                    true,
                    held_text(file),
                    variables,
                ),
            ),
        )
    }
}

/// Whether the file and the variables can be handed to [`Config::load`].
pub fn can_load(file: &ConfigFile, variables: &Vec<(String, String)>) -> (r: bool)
    ensures
        r == is_loadable(*file, variable_texts(variables@)),
{
    if let ConfigFile::Text(toml) = file {
        if !limits::nests_shallow(&text::chars_of(toml.as_str())) {
            return false;
        }
    }
    let ghost all = variable_texts(variables@);
    let mut i: usize = 0;
    while i < variables.len()
        invariant
            i <= variables@.len(),
            all == variable_texts(variables@),
            forall|j: int|
                0 <= j < i ==> limits::fits((#[trigger] all[j]).0) && limits::readable(all[j].1),
        decreases variables@.len() - i,
    {
        let name = text::chars_of(variables[i].0.as_str());
        let value = text::chars_of(variables[i].1.as_str());
        assert(all[i as int] == (name@, value@));
        if !limits::does_fit(&name) || !limits::is_readable(&value) {
            return false;
        }
        i = i + 1;
    }
    true
}

/// Worktrees are walked unless configured otherwise.
pub fn default_worktrees() -> (r: bool)
    ensures
        r == true,
{
    true
}

impl Default for DiscoveryConfig {
    fn default() -> (r: DiscoveryConfig)
        ensures
            r.worktrees,
    {
        DiscoveryConfig { worktrees: default_worktrees() }
    }
}

impl Default for Config {
    fn default() -> (r: Config)
        ensures
            r == config_with(true),
    {
        Config { discovery: DiscoveryConfig::default() }
    }
}

impl Config {
    /// Loads from the configuration file with `CARGO_STORAGE_*` overrides.
    /// `variables` are those with that prefix, without it, in lower case and
    /// with `.` for `_`. Missing file, missing keys, or parse errors fall
    /// back to defaults; a file that sets the flag wins over them, and gives
    /// back the flag that was written to it; and a variable wins over the
    /// file, also one that is no flag.
    pub fn load(file: &ConfigFile, variables: &Vec<(String, String)>) -> (r: Config)
        requires
            is_loadable(*file, variable_texts(variables@)),
        ensures
            r == loaded(*file, variable_texts(variables@)),
            file is Unreadable ==> r == config_with(true),
            file matches ConfigFile::Text(toml) ==> (!valid_toml(toml@) ==> r == config_with(true)),
            file is Missing && leave_alone(variable_texts(variables@), -1, "discovery"@) ==> r
                == config_with(true),
            file matches ConfigFile::Text(toml) ==> (valid_toml(toml@) && leave_alone(
                variable_texts(variables@),
                -1,
                "discovery"@,
            ) ==> r == config_with(
                match text_sets("discovery"@, "discovery.worktrees"@, toml@) {
                    Some(pair) => settled_flag(Some(pair)),
                    None => true,
                },
            )),
            forall|flag: Option<bool>|
                (file matches ConfigFile::Text(toml) && toml@ == #[trigger] file_text(flag))
                    && leave_alone(variable_texts(variables@), -1, "discovery"@) ==> r
                    == config_with(flag.unwrap_or(true)),
            forall|i: int|
                (match *file {
                    ConfigFile::Missing => true,
                    ConfigFile::Unreadable => false,
                    ConfigFile::Text(toml) => valid_toml(toml@) || is_short_file(toml@),
                }) && #[trigger] sets_alone(
                    variable_texts(variables@),
                    i,
                    "discovery"@,
                    "discovery.worktrees"@,
                ) ==> r == config_with(
                    flag_of(variable_texts(variables@)[i].1).unwrap_or(true),
                ),
    {
        let toml = match file {
            ConfigFile::Unreadable => {
                return Config::default();
            },
            ConfigFile::Missing => "",
            ConfigFile::Text(toml) => toml.as_str(),
        };
        proof {
            reveal_strlit("");
            assert(file is Missing ==> toml@ =~= Seq::<char>::empty());
        }
        let layers = read_layers(
            "discovery",
            "discovery.worktrees",
            default_worktrees(),
            toml,
            variables,
        );
        Config::load_from(layers)
    }

    /// The configuration from what the layers hold: the flag at its key, and
    /// the first of a list in place of its section.
    pub fn load_from(layers: Option<(Option<bool>, Option<bool>)>) -> (r: Config)
        ensures
            r == config_with(settled_flag(layers)),
    {
        match layers {
            Some((Some(flag), _)) => Config { discovery: DiscoveryConfig { worktrees: flag } },
            Some((None, Some(flag))) => Config { discovery: DiscoveryConfig { worktrees: flag } },
            _ => Config::default(),
        }
    }
}

/// A value that is set to more than whitespace.
pub open spec fn is_set(value: Option<Seq<char>>) -> bool {
    value matches Some(v) && text::trimmed(v).len() > 0
}

pub open spec fn value_text(value: Option<&str>) -> Option<Seq<char>> {
    match value {
        Some(v) => Some(v@),
        None => None,
    }
}

/// `$CARGO_HOME`, else `.cargo` in `$HOME`, else `.cargo`.
pub open spec fn cargo_home_bytes(
    cargo_home: Option<Seq<char>>,
    home: Option<Seq<char>>,
) -> Seq<u8> {
    if is_set(cargo_home) {
        encode_utf8(cargo_home->0)
    } else if is_set(home) {
        path::join_bytes(encode_utf8(home->0), encode_utf8(".cargo"@))
    } else {
        encode_utf8(".cargo"@)
    }
}

fn is_blank(value: &str) -> (r: bool)
    ensures
        r == (text::trimmed(value@).len() == 0),
{
    let chars = text::chars_of(value);
    text::trim(chars.as_slice()).len() == 0
}

/// Effective `$CARGO_HOME` from the values of `CARGO_HOME` and `HOME`, where
/// they are set and text.
pub fn cargo_home(cargo_home_var: Option<&str>, home_var: Option<&str>) -> (r: FsPath)
    ensures
        r@ == cargo_home_bytes(value_text(cargo_home_var), value_text(home_var)),
{
    if let Some(home) = cargo_home_var {
        if !is_blank(home) {
            return FsPath::from_text(home);
        }
    }
    if let Some(home) = home_var {
        if !is_blank(home) {
            return FsPath::from_text(home).join(&FsPath::from_text(".cargo"));
        }
    }
    FsPath::from_text(".cargo")
}

/// `$CARGO_HOME/cargo-storage.toml`.
pub fn config_path(cargo_home_var: Option<&str>, home_var: Option<&str>) -> (r: FsPath)
    ensures
        r@ == path::join_bytes(
            cargo_home_bytes(value_text(cargo_home_var), value_text(home_var)),
            encode_utf8("cargo-storage.toml"@),
        ),
{
    cargo_home(cargo_home_var, home_var).join(&FsPath::from_text("cargo-storage.toml"))
}

/// The flag at its key counts, else the first of a list in place of its
/// section, else worktrees are walked; and the configuration holds that flag.
pub proof fn law_flag_at_its_key_counts(flag: bool, listed: Option<bool>)
    ensures
        config_with(settled_flag(Some((Some(flag), listed)))).discovery.worktrees == flag,
        config_with(settled_flag(Some((None, Some(flag))))).discovery.worktrees == flag,
        config_with(settled_flag(Some((None, None)))).discovery.worktrees,
        config_with(settled_flag(None)).discovery.worktrees,
{
}

/// A file that could not be read leaves the default, whatever the variables
/// are; a missing file counts as one without text.
pub proof fn law_missing_file_is_empty(
    variables: Seq<(Seq<char>, Seq<char>)>,
    file: ConfigFile,
    empty: String,
)
    requires
        empty@.len() == 0,
    ensures
        file is Unreadable ==> loaded(file, variables).discovery.worktrees,
        file is Missing ==> loaded(file, variables) == loaded(ConfigFile::Text(empty), variables),
{
    reveal_strlit("");
    assert(empty@ =~= ""@);
}

/// A value is a flag where it reads `true` or `false` with nothing but ASCII
/// whitespace around it, and no flag otherwise.
pub proof fn law_flags_are_read(front: Seq<char>, value: Seq<char>, behind: Seq<char>)
    requires
        forall|i: int|
            0 <= i < front.len() ==> (#[trigger] front[i] == ' ' || front[i] == '\t' || front[i]
                == '\n' || front[i] == '\u{c}' || front[i] == '\r'),
        forall|i: int|
            0 <= i < behind.len() ==> (#[trigger] behind[i] == ' ' || behind[i] == '\t'
                || behind[i] == '\n' || behind[i] == '\u{c}' || behind[i] == '\r'),
        value.len() > 0 && !limits::ascii_space(value.first()) && !limits::ascii_space(
            value.last(),
        ),
    ensures
        flag_of(front + value + behind) == Some(true) <==> value == seq!['t', 'r', 'u', 'e'],
        flag_of(front + value + behind) == Some(false) <==> value == seq![
            'f',
            'a',
            'l',
            's',
            'e',
        ],
{
    reveal_strlit("true");
    reveal_strlit("false");
    assert("true"@ =~= seq!['t', 'r', 'u', 'e']);
    assert("false"@ =~= seq!['f', 'a', 'l', 's', 'e']);
    assert(seq!['t', 'r', 'u', 'e'].len() == 4 && seq!['f', 'a', 'l', 's', 'e'].len() == 5);
    lemma_bare(front, value, behind);
}

proof fn lemma_bare(front: Seq<char>, value: Seq<char>, behind: Seq<char>)
    requires
        forall|i: int| 0 <= i < front.len() ==> limits::ascii_space(#[trigger] front[i]),
        forall|i: int| 0 <= i < behind.len() ==> limits::ascii_space(#[trigger] behind[i]),
        value.len() > 0 && !limits::ascii_space(value.first()) && !limits::ascii_space(
            value.last(),
        ),
    ensures
        bare(front + value + behind) == value,
    decreases front.len() + behind.len(),
{
    let all = front + value + behind;
    if front.len() > 0 {
        let rest = front.drop_first();
        assert forall|i: int| 0 <= i < rest.len() implies limits::ascii_space(
            #[trigger] rest[i],
        ) by {
            assert(rest[i] == front[i + 1]);
        }
        lemma_bare(rest, value, behind);
        assert(all.first() == front[0]);
        assert(all.drop_first() =~= rest + value + behind);
    } else if behind.len() > 0 {
        let rest = behind.drop_last();
        lemma_bare(front, value, rest);
        assert(all.first() == value.first());
        assert(all.last() == behind[behind.len() - 1]);
        assert(all.drop_last() =~= front + value + rest);
    } else {
        assert(all =~= value);
    }
}

/// `$CARGO_HOME` counts as it is given where it is more than whitespace;
/// else `.cargo` in `$HOME` where that is; else `.cargo`. The configuration
/// file lies in it.
pub proof fn law_cargo_home_is_found(
    set: Seq<char>,
    blank: Option<Seq<char>>,
    home: Option<Seq<char>>,
)
    requires
        exists|i: int| 0 <= i < set.len() && !text::white_space(#[trigger] set[i]),
        blank is Some ==> forall|i: int|
            0 <= i < blank->0.len() ==> text::white_space(#[trigger] blank->0[i]),
    ensures
        cargo_home_bytes(Some(set), home) == encode_utf8(set),
        path::components_of(cargo_home_bytes(blank, Some(set))) == path::components_of(
            encode_utf8(set),
        ).push(path::Part::Normal(encode_utf8(".cargo"@))),
        cargo_home_bytes(blank, blank) == encode_utf8(".cargo"@),
        path::components_of(
            path::join_bytes(
                cargo_home_bytes(Some(set), home),
                encode_utf8("cargo-storage.toml"@),
            ),
        ) == path::components_of(encode_utf8(set)).push(
            path::Part::Normal(encode_utf8("cargo-storage.toml"@)),
        ),
{
    lemma_set(set);
    if blank is Some {
        let b = blank->0;
        let none = Seq::<char>::empty();
        text::law_trimming_takes_whitespace_off(b, none, none);
        assert(b + none + none =~= b);
    }
    lemma_home_names();
    path::law_join_name(encode_utf8(set), encode_utf8(".cargo"@));
    path::law_join_name(encode_utf8(set), encode_utf8("cargo-storage.toml"@));
}

/// What is more than whitespace is left with something once it is trimmed.
proof fn lemma_set(value: Seq<char>)
    requires
        exists|i: int| 0 <= i < value.len() && !text::white_space(#[trigger] value[i]),
    ensures
        text::trimmed(value).len() > 0,
    decreases value.len(),
{
    let k = choose|i: int| 0 <= i < value.len() && !text::white_space(#[trigger] value[i]);
    if text::white_space(value.first()) {
        let rest = value.drop_first();
        assert(rest[k - 1] == value[k]);
        lemma_set(rest);
    } else {
        lemma_end_set(value);
    }
}

proof fn lemma_end_set(value: Seq<char>)
    requires
        value.len() > 0,
        !text::white_space(value.first()),
    ensures
        text::trim_end(value).len() > 0,
    decreases value.len(),
{
    if text::white_space(value.last()) {
        assert(value.len() > 1);
        lemma_end_set(value.drop_last());
    }
}

proof fn lemma_home_names()
    ensures
        path::is_name(encode_utf8(".cargo"@)),
        path::is_name(encode_utf8("cargo-storage.toml"@)),
{
    reveal_strlit(".cargo");
    reveal_strlit("cargo-storage.toml");
    is_ascii_chars_encode_utf8(".cargo"@);
    is_ascii_chars_encode_utf8("cargo-storage.toml"@);
    let (a, b) = (encode_utf8(".cargo"@), encode_utf8("cargo-storage.toml"@));
    assert(a.len() == 6 && b.len() == 18);
    assert(a[0] == 46 && a[1] == 99 && a[2] == 97 && a[3] == 114 && a[4] == 103 && a[5] == 111);
    assert(b[0] == 99 && b[1] == 97 && b[2] == 114 && b[3] == 103 && b[4] == 111 && b[5] == 45
        && b[6] == 115 && b[7] == 116 && b[8] == 111 && b[9] == 114 && b[10] == 97 && b[11] == 103
        && b[12] == 101 && b[13] == 46 && b[14] == 116 && b[15] == 111 && b[16] == 109 && b[17]
        == 108);
    assert(!a.contains(path::slash()));
    assert(!b.contains(path::slash()));
}

/// The configuration can be loaded where the text of the file nests nowhere and
/// each variable has a short name and a value without quotes and brackets; a
/// variable or a text more asks for no less.
pub proof fn law_plain_configuration_can_be_loaded(
    file: ConfigFile,
    variables: Seq<(Seq<char>, Seq<char>)>,
    more: (Seq<char>, Seq<char>),
)
    ensures
        (file matches ConfigFile::Text(toml) ==> forall|i: int|
            0 <= i < toml@.len() ==> #[trigger] toml@[i] != '[' && toml@[i] != '{' && toml@[i]
                != '.') && (forall|j: int|
            0 <= j < variables.len() ==> (#[trigger] variables[j]).0.filter(
                |c: char| c == '.',
            ).len() < 400) && (forall|j: int, i: int|
            0 <= j < variables.len() && 0 <= i < variables[j].1.len() ==> (
            #[trigger] variables[j].1[i]) != '"' && variables[j].1[i] != '['
                && variables[j].1[i] != '{') ==> is_loadable(file, variables),
        is_loadable(file, variables.push(more)) <==> is_loadable(file, variables) && limits::fits(
            more.0,
        ) && limits::readable(more.1),
        is_loadable(file, variables) ==> is_loadable(ConfigFile::Missing, variables),
        is_loadable(ConfigFile::Missing, variables) <==> is_loadable(
            ConfigFile::Unreadable,
            variables,
        ),
{
    if let ConfigFile::Text(toml) = file {
        limits::law_flat_text_is_shallow(toml@);
    }
    assert forall|j: int| 0 <= j < variables.len() implies (limits::fits(
        (#[trigger] variables[j]).0,
    ) <==> variables[j].0.filter(|c: char| c == '.').len() < 400) && ((forall|i: int|
        0 <= i < variables[j].1.len() ==> (#[trigger] variables[j].1[i]) != '"'
            && variables[j].1[i] != '[' && variables[j].1[i] != '{') ==> limits::readable(
        variables[j].1,
    )) by {
        limits::law_names_fit_by_their_dots(variables[j].0);
        if forall|i: int|
            0 <= i < variables[j].1.len() ==> (#[trigger] variables[j].1[i]) != '"'
                && variables[j].1[i] != '[' && variables[j].1[i] != '{' {
            limits::law_plain_values_are_readable(variables[j].1);
        }
    }
    let all = variables.push(more);
    assert(readable_variables(all) <==> readable_variables(variables) && limits::fits(more.0)
        && limits::readable(more.1)) by {
        if readable_variables(all) {
            assert(all[variables.len() as int] == more);
            assert forall|i: int| 0 <= i < variables.len() implies limits::fits(
                (#[trigger] variables[i]).0,
            ) && limits::readable(variables[i].1) by {
                assert(all[i] == variables[i]);
            }
        }
    }
}

} // verus!
