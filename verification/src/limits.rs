//! What the parsers of the configuration can take: text that would make one of
//! them panic, or recurse deeper than the stack is sure to allow, is told apart
//! here, before it is handed on.

use vstd::prelude::*;
use vstd::slice::*;
use vstd::utf8::*;

use crate::text;

verus! {

/// How deep the value of a variable may nest.
pub const VALUE_DEPTH: usize = 64;

/// How many parts the name of a variable may have.
pub const NAME_PARTS: usize = 400;

/// How deep a value in a TOML text may nest below its table.
pub const TOML_DEPTH: usize = 240;

/// ASCII whitespace.
pub open spec fn ascii_space(c: char) -> bool {
    c == ' ' || c == '\t' || c == '\n' || c == '\u{c}' || c == '\r'
}

/// What a bare key is made of.
pub open spec fn ident_char(c: char) -> bool {
    let n = c as u32;
    ||| 48 <= n <= 57
    ||| 65 <= n <= 90
    ||| 97 <= n <= 122
    ||| c == '_'
    ||| c == '-'
}

/// The bytes that `c` takes in UTF-8.
pub open spec fn char_width(c: char) -> int {
    let n = c as u32;
    if n < 0x80 {
        1
    } else if n < 0x800 {
        2
    } else if n < 0x1_0000 {
        3
    } else {
        4
    }
}

/// The first `n` bytes of `s` in UTF-8 are whole characters.
pub open spec fn lands(s: Seq<char>, n: int) -> bool
    decreases s.len(),
{
    if n == 0 {
        true
    } else if s.len() == 0 || char_width(s.first()) > n {
        false
    } else {
        lands(s.drop_first(), n - char_width(s.first()))
    }
}

/// A character that no quoted string may hold.
pub open spec fn is_control(c: char) -> bool {
    c != '\t' && ((c as u32) < 0x20 || c == '\u{7f}')
}

/// The place of the quote that ends a string whose text starts at `at`, the
/// end of `s` where there is none.
pub open spec fn string_end(s: Seq<char>, at: int) -> int
    decreases s.len() - at,
{
    if at >= s.len() {
        s.len() as int
    } else if s[at] == '"' {
        at
    } else if s[at] == '\\' {
        if at + 2 < s.len() {
            string_end(s, at + 2)
        } else {
            s.len() as int
        }
    } else {
        string_end(s, at + 1)
    }
}

/// The text of a string can be unescaped. The first backslash is looked for by
/// characters and the text in front of it cut by bytes, so where these differ
/// the cut may fall inside a character; a control character in front ends the
/// reading before that.
pub open spec fn unescapes(s: Seq<char>) -> bool {
    let n = text::find(s, '\\');
    ||| n == s.len()
    ||| lands(s, n)
    ||| exists|j: int| 0 <= j < n && is_control(#[trigger] s[j])
}

/// Where the reading of a value stands.
#[derive(Clone, Copy, Debug, PartialEq, Eq, Structural)]
pub enum Phase {
    /// A value comes.
    Value,
    /// In a value without quotes.
    Word,
    /// A value has ended.
    Done,
    /// A key comes.
    Key,
    /// In a key without quotes.
    Name,
    /// A key has ended.
    Named,
}

/// One step of reading a value.
pub enum Step {
    /// It ends here: well, or with a panic.
    Stop(bool),
    /// It goes on at this place, in this phase, inside these brackets, `true`
    /// for braces.
    Go(int, Phase, Seq<bool>),
}

pub open spec fn at_comma(at: int, open: Seq<bool>) -> Step {
    if open.len() == 0 {
        Step::Stop(true)
    } else if open.last() {
        Step::Go(at + 1, Phase::Key, open)
    } else {
        Step::Go(at + 1, Phase::Value, open)
    }
}

pub open spec fn at_closing(at: int, brace: bool, open: Seq<bool>) -> Step {
    if open.len() == 0 || open.last() != brace {
        Step::Stop(true)
    } else {
        Step::Go(at + 1, Phase::Done, open.drop_last())
    }
}

pub open spec fn at_opening(at: int, brace: bool, open: Seq<bool>) -> Step {
    if open.len() >= VALUE_DEPTH {
        Step::Stop(false)
    } else if brace {
        Step::Go(at + 1, Phase::Key, open.push(true))
    } else {
        Step::Go(at + 1, Phase::Value, open.push(false))
    }
}

pub open spec fn at_quote(s: Seq<char>, at: int, behind: Phase, open: Seq<bool>) -> Step {
    let end = string_end(s, at + 1);
    if end >= s.len() {
        Step::Stop(true)
    } else if !unescapes(s.subrange(at + 1, end)) {
        Step::Stop(false)
    } else {
        Step::Go(end + 1, behind, open)
    }
}

/// What the character at `at` leads to. Where the text is no value the reading
/// ends.
pub open spec fn value_step(s: Seq<char>, at: int, phase: Phase, open: Seq<bool>) -> Step {
    let c = s[at];
    match phase {
        Phase::Value => if ascii_space(c) {
            Step::Go(at + 1, phase, open)
        } else if c == '"' {
            at_quote(s, at, Phase::Done, open)
        } else if c == '\'' {
            if at + 2 < s.len() && s[at + 2] == '\'' {
                Step::Go(at + 3, Phase::Done, open)
            } else {
                Step::Stop(true)
            }
        } else if c == '[' || c == '{' {
            at_opening(at, c == '{', open)
        } else if c == ',' {
            at_comma(at, open)
        } else if c == ']' || c == '}' {
            at_closing(at, c == '}', open)
        } else {
            Step::Go(at + 1, Phase::Word, open)
        },
        Phase::Word => if c == '[' || c == '{' {
            Step::Stop(true)
        } else if c == ',' {
            at_comma(at, open)
        } else if c == ']' || c == '}' {
            at_closing(at, c == '}', open)
        } else {
            Step::Go(at + 1, phase, open)
        },
        Phase::Done => if ascii_space(c) {
            Step::Go(at + 1, phase, open)
        } else if c == ',' {
            at_comma(at, open)
        } else if c == ']' || c == '}' {
            at_closing(at, c == '}', open)
        } else {
            Step::Stop(true)
        },
        Phase::Key => if ascii_space(c) {
            Step::Go(at + 1, phase, open)
        } else if c == '"' {
            at_quote(s, at, Phase::Named, open)
        } else if c == '}' {
            at_closing(at, true, open)
        } else if ident_char(c) {
            Step::Go(at + 1, Phase::Name, open)
        } else {
            Step::Stop(true)
        },
        Phase::Name => if ident_char(c) {
            Step::Go(at + 1, phase, open)
        } else if ascii_space(c) {
            Step::Go(at + 1, Phase::Named, open)
        } else if c == '=' {
            Step::Go(at + 1, Phase::Value, open)
        } else {
            Step::Stop(true)
        },
        Phase::Named => if ascii_space(c) {
            Step::Go(at + 1, phase, open)
        } else if c == '=' {
            Step::Go(at + 1, Phase::Value, open)
        } else {
            Step::Stop(true)
        },
    }
}

/// Reading on from `at` ends well.
pub open spec fn reads_on(s: Seq<char>, at: int, phase: Phase, open: Seq<bool>) -> bool
    decreases s.len() - at,
{
    if at < 0 || at >= s.len() {
        true
    } else {
        match value_step(s, at, phase, open) {
            Step::Stop(well) => well,
            Step::Go(next, then, inside) => if next > at {
                reads_on(s, next, then, inside)
            } else {
                true
            },
        }
    }
}

/// A value whose reading neither panics nor nests too deep.
pub open spec fn readable(value: Seq<char>) -> bool {
    reads_on(value, 0, Phase::Value, Seq::empty())
}

/// A name that does not have too many parts.
pub open spec fn fits(name: Seq<char>) -> bool {
    text::split_on(name, '.').len() <= NAME_PARTS
}

fn is_ascii_space(c: char) -> (r: bool)
    ensures
        r == ascii_space(c),
{
    c == ' ' || c == '\t' || c == '\n' || c == '\u{c}' || c == '\r'
}

fn is_ident_char(c: char) -> (r: bool)
    ensures
        r == ident_char(c),
{
    let n: u32 = c as u32;
    (48 <= n && n <= 57) || (65 <= n && n <= 90) || (97 <= n && n <= 122) || c == '_' || c == '-'
}

fn width(c: char) -> (r: usize)
    ensures
        r == char_width(c),
{
    let n: u32 = c as u32;
    if n < 0x80 {
        1
    } else if n < 0x800 {
        2
    } else if n < 0x1_0000 {
        3
    } else {
        4
    }
}

fn does_land(s: &[char], n: usize) -> (r: bool)
    ensures
        r == lands(s@, n as int),
{
    let mut i: usize = 0;
    let mut left: usize = n;
    assert(s@.skip(0) =~= s@);
    while i < s.len() && left > 0
        invariant
            i <= s@.len(),
            lands(s@, n as int) == lands(s@.skip(i as int), left as int),
        decreases s@.len() - i,
    {
        let w = width(s[i]);
        assert(s@.skip(i as int).first() == s@[i as int]);
        if w > left {
            return false;
        }
        assert(s@.skip(i as int).drop_first() =~= s@.skip(i + 1));
        left = left - w;
        i = i + 1;
    }
    left == 0
}

fn does_unescape(s: &[char]) -> (r: bool)
    ensures
        r == unescapes(s@),
{
    let mut n: usize = 0;
    let mut control = false;
    while n < s.len() && s[n] != '\\'
        invariant
            n <= s@.len(),
            forall|j: int| 0 <= j < n ==> s@[j] != '\\',
            control == exists|j: int| 0 <= j < n && is_control(#[trigger] s@[j]),
        decreases s@.len() - n,
    {
        let code: u32 = s[n] as u32;
        let here = s[n] != '\t' && (code < 0x20 || s[n] == '\u{7f}');
        assert(here == is_control(s@[n as int]));
        if here {
            control = true;
        }
        n = n + 1;
    }
    proof {
        text::lemma_find(s@, '\\', n as int);
    }
    n == s.len() || control || does_land(s, n)
}

fn find_string_end(s: &Vec<char>, from: usize) -> (end: usize)
    requires
        from <= s@.len(),
    ensures
        end == string_end(s@, from as int),
        from <= end <= s@.len(),
{
    let mut at: usize = from;
    while at < s.len() && s[at] != '"'
        invariant
            from <= at <= s@.len(),
            string_end(s@, from as int) == string_end(s@, at as int),
        decreases s@.len() - at,
    {
        if s[at] == '\\' {
            if s.len() - at <= 2 {
                return s.len();
            }
            at = at + 2;
        } else {
            at = at + 1;
        }
    }
    at
}

/// Whether the reading of a value neither panics nor nests too deep.
pub fn is_readable(s: &Vec<char>) -> (r: bool)
    ensures
        r == readable(s@),
{
    let mut at: usize = 0;
    let mut phase = Phase::Value;
    let mut open: Vec<bool> = Vec::new();
    while at < s.len()
        invariant
            at <= s@.len(),
            readable(s@) == reads_on(s@, at as int, phase, open@),
        decreases s@.len() - at,
    {
        let c: char = s[at];
        let ghost step = value_step(s@, at as int, phase, open@);
        let structural = match phase {
            Phase::Value => true,
            Phase::Word => true,
            Phase::Done => true,
            _ => false,
        };
        let closes = c == ']' || c == '}';
        if c == '"' && (phase == Phase::Value || phase == Phase::Key) {
            let end = find_string_end(s, at + 1);
            if end >= s.len() {
                return true;
            }
            let inner = slice_subrange(s.as_slice(), at + 1, end);
            if !does_unescape(inner) {
                return false;
            }
            phase = if phase == Phase::Value {
                Phase::Done
            } else {
                Phase::Named
            };
            at = end + 1;
            assert(step == Step::Go(at as int, phase, open@));
        } else if structural && c == ',' {
            if open.len() == 0 {
                return true;
            }
            phase = if open[open.len() - 1] {
                Phase::Key
            } else {
                Phase::Value
            };
            at = at + 1;
            assert(step == Step::Go(at as int, phase, open@));
        } else if (structural && closes) || (phase == Phase::Key && c == '}') {
            if open.len() == 0 || open[open.len() - 1] != (c == '}') {
                return true;
            }
            let ghost before = open@;
            let _ = open.pop();
            assert(open@ =~= before.drop_last());
            phase = Phase::Done;
            at = at + 1;
            assert(step == Step::Go(at as int, phase, open@));
        } else {
            match phase {
                Phase::Value => {
                    if is_ascii_space(c) {
                        at = at + 1;
                    } else if c == '\'' {
                        if s.len() - at <= 2 || s[at + 2] != '\'' {
                            return true;
                        }
                        phase = Phase::Done;
                        at = at + 3;
                    } else if c == '[' || c == '{' {
                        if open.len() >= VALUE_DEPTH {
                            return false;
                        }
                        open.push(c == '{');
                        if c == '{' {
                            phase = Phase::Key;
                        }
                        at = at + 1;
                    } else {
                        phase = Phase::Word;
                        at = at + 1;
                    }
                },
                Phase::Word => {
                    if c == '[' || c == '{' {
                        return true;
                    }
                    at = at + 1;
                },
                Phase::Done => {
                    if !is_ascii_space(c) {
                        return true;
                    }
                    at = at + 1;
                },
                Phase::Key => {
                    if is_ident_char(c) {
                        phase = Phase::Name;
                    } else if !is_ascii_space(c) {
                        return true;
                    }
                    at = at + 1;
                },
                Phase::Name => {
                    if c == '=' {
                        phase = Phase::Value;
                    } else if is_ascii_space(c) {
                        phase = Phase::Named;
                    } else if !is_ident_char(c) {
                        return true;
                    }
                    at = at + 1;
                },
                Phase::Named => {
                    if c == '=' {
                        phase = Phase::Value;
                    } else if !is_ascii_space(c) {
                        return true;
                    }
                    at = at + 1;
                },
            }
            assert(step == Step::Go(at as int, phase, open@));
        }
    }
    true
}

/// Whether a name does not have too many parts.
pub fn does_fit(name: &Vec<char>) -> (r: bool)
    ensures
        r == fits(name@),
{
    let parts = text::split(name.as_slice(), '.');
    assert(text::slice_texts(parts@).len() == parts@.len());
    parts.len() <= NAME_PARTS
}

/// Where the reading of a TOML text stands.
#[derive(Clone, Copy, Debug, PartialEq, Eq, Structural)]
pub enum Mode {
    /// Outside strings and comments.
    Plain,
    Comment,
    /// In a string between quotes.
    Basic,
    /// In a string between apostrophes.
    Literal,
    /// In a string between three quotes.
    LongBasic,
    /// In a string between three apostrophes.
    LongLiteral,
}

/// Three times `c` stand at `at`.
pub open spec fn triple(s: Seq<char>, at: int, c: char) -> bool {
    at + 2 < s.len() && s[at] == c && s[at + 1] == c && s[at + 2] == c
}

/// The place behind three quotes that end a string at `at`, and behind up to
/// two more, which belong to its text.
pub open spec fn behind_triple(s: Seq<char>, at: int, c: char) -> int {
    if at + 3 < s.len() && s[at + 3] == c {
        if at + 4 < s.len() && s[at + 4] == c {
            at + 5
        } else {
            at + 4
        }
    } else {
        at + 3
    }
}

/// `levels` with the innermost at `n`.
pub open spec fn with_last(levels: Seq<int>, n: int) -> Seq<int> {
    levels.drop_last().push(n)
}

/// One step of reading a TOML text: the next place and mode, and the brackets
/// that are open, each with the dots of the key that is read in it, the line
/// itself in front.
pub open spec fn toml_step(s: Seq<char>, at: int, mode: Mode, levels: Seq<int>) -> (
    int,
    Mode,
    Seq<int>,
) {
    let c = s[at];
    let fresh_line = if levels.len() == 1 {
        seq![0int]
    } else {
        levels
    };
    match mode {
        Mode::Plain => if c == '"' {
            if triple(s, at, c) {
                (at + 3, Mode::LongBasic, levels)
            } else {
                (at + 1, Mode::Basic, levels)
            }
        } else if c == '\'' {
            if triple(s, at, c) {
                (at + 3, Mode::LongLiteral, levels)
            } else {
                (at + 1, Mode::Literal, levels)
            }
        } else if c == '#' {
            (at + 1, Mode::Comment, levels)
        } else if c == '[' || c == '{' {
            (at + 1, mode, levels.push(0))
        } else if c == ']' || c == '}' {
            (at + 1, mode, if levels.len() > 1 {
                levels.drop_last()
            } else {
                levels
            })
        } else if c == '.' {
            (at + 1, mode, with_last(levels, levels.last() + 1))
        } else if c == ',' {
            (at + 1, mode, with_last(levels, 0))
        } else if c == '\n' {
            (at + 1, mode, fresh_line)
        } else {
            (at + 1, mode, levels)
        },
        Mode::Comment => if c == '\n' {
            (at + 1, Mode::Plain, fresh_line)
        } else {
            (at + 1, mode, levels)
        },
        Mode::Basic => if c == '\\' {
            (at + 2, mode, levels)
        } else if c == '"' {
            (at + 1, Mode::Plain, levels)
        } else {
            (at + 1, mode, levels)
        },
        Mode::Literal => if c == '\'' {
            (at + 1, Mode::Plain, levels)
        } else {
            (at + 1, mode, levels)
        },
        Mode::LongBasic => if c == '\\' {
            (at + 2, mode, levels)
        } else if triple(s, at, '"') {
            (behind_triple(s, at, '"'), Mode::Plain, levels)
        } else {
            (at + 1, mode, levels)
        },
        Mode::LongLiteral => if triple(s, at, '\'') {
            (behind_triple(s, at, '\''), Mode::Plain, levels)
        } else {
            (at + 1, mode, levels)
        },
    }
}

/// How deep what is read inside `levels` nests.
pub open spec fn depth(levels: Seq<int>) -> int
    decreases levels.len(),
{
    if levels.len() == 0 {
        0
    } else {
        depth(levels.drop_last()) + levels.last() + 1
    }
}

/// From `at` on nothing nests too deep.
pub open spec fn stays_shallow(s: Seq<char>, at: int, mode: Mode, levels: Seq<int>) -> bool
    decreases s.len() - at,
{
    if at < 0 || at >= s.len() {
        true
    } else {
        let (next, then, inside) = toml_step(s, at, mode, levels);
        depth(inside) <= TOML_DEPTH && (at < next < s.len() ==> stays_shallow(
            s,
            next,
            then,
            inside,
        ))
    }
}

/// A TOML text in which no value nests too deep. What stands in strings and
/// comments does not count.
pub open spec fn is_shallow(toml: Seq<char>) -> bool {
    stays_shallow(toml, 0, Mode::Plain, seq![0int])
}

pub open spec fn level_dots(levels: Seq<usize>) -> Seq<int> {
    levels.map_values(|n: usize| n as int)
}

fn stands_triple(s: &Vec<char>, at: usize, c: char) -> (r: bool)
    requires
        at < s@.len(),
    ensures
        r == triple(s@, at as int, c),
{
    s.len() - at > 2 && s[at] == c && s[at + 1] == c && s[at + 2] == c
}

fn go_behind_triple(s: &Vec<char>, at: usize, c: char) -> (r: usize)
    requires
        triple(s@, at as int, c),
        at < s@.len(),
    ensures
        r == behind_triple(s@, at as int, c),
        at < r <= s@.len(),
{
    if s.len() - at > 3 && s[at + 3] == c {
        if s.len() - at > 4 && s[at + 4] == c {
            at + 5
        } else {
            at + 4
        }
    } else {
        at + 3
    }
}

/// Sets the dots of the innermost level.
fn set_last(levels: &mut Vec<usize>, n: usize)
    requires
        old(levels)@.len() > 0,
    ensures
        level_dots(final(levels)@) == with_last(level_dots(old(levels)@), n as int),
        final(levels)@.len() == old(levels)@.len(),
        final(levels)@.last() == n,
{
    let _ = levels.pop();
    levels.push(n);
    assert(level_dots(levels@) =~= with_last(level_dots(old(levels)@), n as int));
}

/// Whether what is read inside `levels` nests too deep.
fn is_deep(levels: &Vec<usize>) -> (r: bool)
    ensures
        r == (depth(level_dots(levels@)) > TOML_DEPTH),
{
    let ghost all = level_dots(levels@);
    let mut sum: usize = 0;
    let mut i: usize = 0;
    assert(all.take(0) =~= Seq::<int>::empty());
    while i < levels.len()
        invariant
            i <= levels@.len(),
            all == level_dots(levels@),
            sum <= TOML_DEPTH,
            sum == depth(all.take(i as int)),
        decreases levels@.len() - i,
    {
        assert(all.take(i + 1).drop_last() =~= all.take(i as int));
        assert(all[i as int] == levels@[i as int]);
        if levels[i] >= TOML_DEPTH - sum {
            proof {
                lemma_depth_grows(levels@, i + 1);
            }
            return true;
        }
        sum = sum + levels[i] + 1;
        i = i + 1;
    }
    assert(all.take(i as int) =~= all);
    false
}

proof fn lemma_depth_grows(levels: Seq<usize>, i: int)
    requires
        0 <= i <= levels.len(),
    ensures
        depth(level_dots(levels).take(i)) <= depth(level_dots(levels)),
    decreases levels.len(),
{
    let all = level_dots(levels);
    if i == levels.len() {
        assert(all.take(i) =~= all);
    } else {
        lemma_depth_grows(levels.drop_last(), i);
        assert(level_dots(levels.drop_last()) =~= all.drop_last());
        assert(all.drop_last().take(i) =~= all.take(i));
        assert(all.last() == levels.last());
    }
}

/// Starts a line, where no bracket is open.
fn start_line(levels: &mut Vec<usize>)
    requires
        old(levels)@.len() > 0,
    ensures
        level_dots(final(levels)@) == (if old(levels)@.len() == 1 {
            seq![0int]
        } else {
            level_dots(old(levels)@)
        }),
        final(levels)@.len() == old(levels)@.len(),
        old(levels)@.len() > 1 ==> final(levels)@ == old(levels)@,
        old(levels)@.len() == 1 ==> final(levels)@[0] == 0,
{
    if levels.len() == 1 {
        set_last(levels, 0);
        assert(level_dots(levels@) =~= seq![0int]);
    }
}

/// Whether no value of a TOML text nests too deep.
pub fn nests_shallow(s: &Vec<char>) -> (r: bool)
    ensures
        r == is_shallow(s@),
{
    let mut at: usize = 0;
    let mut mode = Mode::Plain;
    let mut levels: Vec<usize> = Vec::new();
    levels.push(0);
    assert(level_dots(levels@) =~= seq![0int]);
    while at < s.len()
        invariant
            levels@.len() > 0,
            is_shallow(s@) == stays_shallow(s@, at as int, mode, level_dots(levels@)),
            forall|i: int| 0 <= i < levels@.len() ==> levels@[i] <= TOML_DEPTH,
        decreases s@.len() - at,
    {
        let c: char = s[at];
        let ghost before = levels@;
        let ghost step = toml_step(s@, at as int, mode, level_dots(levels@));
        let mut skip: usize = 1;
        match mode {
            Mode::Plain => {
                if c == '"' {
                    if stands_triple(s, at, '"') {
                        skip = 3;
                        mode = Mode::LongBasic;
                    } else {
                        mode = Mode::Basic;
                    }
                } else if c == '\'' {
                    if stands_triple(s, at, '\'') {
                        skip = 3;
                        mode = Mode::LongLiteral;
                    } else {
                        mode = Mode::Literal;
                    }
                } else if c == '#' {
                    mode = Mode::Comment;
                } else if c == '[' || c == '{' {
                    levels.push(0);
                    assert(level_dots(levels@) =~= level_dots(before).push(0));
                } else if c == ']' || c == '}' {
                    if levels.len() > 1 {
                        let _ = levels.pop();
                        assert(level_dots(levels@) =~= level_dots(before).drop_last());
                    }
                } else if c == '.' {
                    let dots: usize = levels[levels.len() - 1];
                    assert(level_dots(before).last() == dots);
                    set_last(&mut levels, dots + 1);
                } else if c == ',' {
                    set_last(&mut levels, 0);
                } else if c == '\n' {
                    start_line(&mut levels);
                }
            },
            Mode::Comment => {
                if c == '\n' {
                    mode = Mode::Plain;
                    start_line(&mut levels);
                }
            },
            Mode::Basic => {
                if c == '\\' {
                    skip = 2;
                } else if c == '"' {
                    mode = Mode::Plain;
                }
            },
            Mode::Literal => {
                if c == '\'' {
                    mode = Mode::Plain;
                }
            },
            Mode::LongBasic => {
                if c == '\\' {
                    skip = 2;
                } else if stands_triple(s, at, '"') {
                    skip = go_behind_triple(s, at, '"') - at;
                    mode = Mode::Plain;
                }
            },
            Mode::LongLiteral => {
                if stands_triple(s, at, '\'') {
                    skip = go_behind_triple(s, at, '\'') - at;
                    mode = Mode::Plain;
                }
            },
        }
        assert(step == (at + skip, mode, level_dots(levels@)));
        if is_deep(&levels) {
            return false;
        }
        proof {
            lemma_no_level_deeper(levels@);
        }
        if skip >= s.len() - at {
            assert(stays_shallow(s@, at + skip, mode, level_dots(levels@)));
            return true;
        }
        at = at + skip;
    }
    true
}

proof fn lemma_no_level_deeper(levels: Seq<usize>)
    requires
        depth(level_dots(levels)) <= TOML_DEPTH,
    ensures
        forall|i: int| 0 <= i < levels.len() ==> levels[i] <= TOML_DEPTH,
{
    assert forall|i: int| 0 <= i < levels.len() implies levels[i] <= TOML_DEPTH by {
        let all = level_dots(levels);
        lemma_depth_grows(levels, i + 1);
        assert(all.take(i + 1).last() == levels[i]);
        lemma_depth_grows(levels.take(i), 0);
        assert(level_dots(levels.take(i)) =~= all.take(i + 1).drop_last());
        assert(level_dots(levels.take(i)).take(0) =~= Seq::<int>::empty());
    }
}

/// A name fits where it has fewer than 400 dots.
pub proof fn law_names_fit_by_their_dots(name: Seq<char>)
    ensures
        fits(name) <==> name.filter(|c: char| c == '.').len() < 400,
{
    lemma_parts_are_dots_and_one(name);
}

proof fn lemma_parts_are_dots_and_one(name: Seq<char>)
    ensures
        text::split_on(name, '.').len() == name.filter(|c: char| c == '.').len() + 1,
    decreases name.len(),
{
    reveal(Seq::filter);
    if name.len() > 0 {
        text::lemma_split_nonempty(name.drop_last(), '.');
        lemma_parts_are_dots_and_one(name.drop_last());
    }
}

/// A value without quotes and opening brackets can always be read, whatever
/// else it holds.
pub proof fn law_plain_values_are_readable(value: Seq<char>)
    requires
        forall|i: int|
            0 <= i < value.len() ==> #[trigger] value[i] != '"' && value[i] != '[' && value[i]
                != '{',
    ensures
        readable(value),
{
    lemma_plain_reads_on(value, 0, Phase::Value);
}

proof fn lemma_plain_reads_on(s: Seq<char>, at: int, phase: Phase)
    requires
        forall|i: int| 0 <= i < s.len() ==> #[trigger] s[i] != '"' && s[i] != '[' && s[i] != '{',
        phase == Phase::Value || phase == Phase::Word || phase == Phase::Done,
        at >= 0,
    ensures
        reads_on(s, at, phase, Seq::empty()),
    decreases s.len() - at,
{
    if at < s.len() {
        assert(s[at] != '"');
        match value_step(s, at, phase, Seq::empty()) {
            Step::Stop(well) => {},
            Step::Go(next, then, inside) => {
                assert(inside =~= Seq::<bool>::empty());
                lemma_plain_reads_on(s, next, then);
            },
        }
    }
}

/// Sixty-four brackets may be open at once in a value, and no more.
pub proof fn law_values_nest_so_deep(value: Seq<char>)
    ensures
        value.len() <= 64 && (forall|i: int| 0 <= i < value.len() ==> #[trigger] value[i] == '[')
            ==> readable(value),
        value.len() > 64 && (forall|i: int| 0 <= i < 65 ==> #[trigger] value[i] == '[')
            ==> !readable(value),
{
    if value.len() <= 64 && (forall|i: int| 0 <= i < value.len() ==> #[trigger] value[i] == '[') {
        lemma_opened(value, 0);
    }
    if value.len() > 64 && (forall|i: int| 0 <= i < 65 ==> #[trigger] value[i] == '[') {
        lemma_opened(value, 0);
    }
    assert(Seq::new(0, |i: int| false) =~= Seq::<bool>::empty());
}

proof fn lemma_opened(s: Seq<char>, at: int)
    requires
        0 <= at <= s.len(),
        at <= 64,
        forall|i: int| 0 <= i < s.len() && i < 65 ==> #[trigger] s[i] == '[',
    ensures
        reads_on(s, at, Phase::Value, Seq::new(at as nat, |i: int| false)) == (s.len() <= 64),
    decreases s.len() - at,
{
    let open = Seq::new(at as nat, |i: int| false);
    if at < s.len() {
        assert(s[at] == '[');
        if at < 64 {
            lemma_opened(s, at + 1);
            assert(open.push(false) =~= Seq::new((at + 1) as nat, |i: int| false));
        }
    }
}

/// A TOML text without brackets and dots nests nowhere, and in a comment
/// nothing counts.
pub proof fn law_flat_text_is_shallow(toml: Seq<char>)
    ensures
        (forall|i: int|
            0 <= i < toml.len() ==> #[trigger] toml[i] != '[' && toml[i] != '{' && toml[i] != '.')
            ==> is_shallow(toml),
        toml.len() > 0 && toml[0] == '#' && !toml.contains('\n') ==> is_shallow(toml),
{
    if forall|i: int|
        0 <= i < toml.len() ==> #[trigger] toml[i] != '[' && toml[i] != '{' && toml[i] != '.' {
        lemma_flat(toml, 0, Mode::Plain);
    }
    if toml.len() > 0 && toml[0] == '#' && !toml.contains('\n') {
        lemma_line(0);
        lemma_comment(toml, 1);
    }
}

proof fn lemma_line(n: int)
    ensures
        depth(seq![n]) == n + 1,
{
    assert(seq![n].drop_last() =~= Seq::<int>::empty());
    assert(depth(Seq::<int>::empty()) == 0);
}

proof fn lemma_flat(s: Seq<char>, at: int, mode: Mode)
    requires
        forall|i: int| 0 <= i < s.len() ==> #[trigger] s[i] != '[' && s[i] != '{' && s[i] != '.',
        at >= 0,
    ensures
        stays_shallow(s, at, mode, seq![0int]),
    decreases s.len() - at,
{
    if at < s.len() {
        assert(s[at] != '[');
        lemma_line(0);
        let (next, then, inside) = toml_step(s, at, mode, seq![0int]);
        assert(with_last(seq![0int], 0) =~= seq![0int]);
        assert(inside =~= seq![0int]);
        if next < s.len() {
            lemma_flat(s, next, then);
        }
    }
}

proof fn lemma_comment(s: Seq<char>, at: int)
    requires
        !s.contains('\n'),
        at >= 0,
    ensures
        stays_shallow(s, at, Mode::Comment, seq![0int]),
    decreases s.len() - at,
{
    if at < s.len() {
        assert(s.contains(s[at]));
        lemma_line(0);
        lemma_comment(s, at + 1);
    }
}

/// Two hundred and thirty-nine brackets may be open at once in a TOML text, and
/// no more.
pub proof fn law_text_nests_so_deep(toml: Seq<char>)
    ensures
        toml.len() <= 239 && (forall|i: int| 0 <= i < toml.len() ==> #[trigger] toml[i] == '[')
            ==> is_shallow(toml),
        toml.len() > 239 && (forall|i: int| 0 <= i < 240 ==> #[trigger] toml[i] == '[')
            ==> !is_shallow(toml),
{
    if forall|i: int| 0 <= i < toml.len() && i < 240 ==> #[trigger] toml[i] == '[' {
        lemma_brackets(toml, 0);
    }
    assert(Seq::new(1, |i: int| 0int) =~= seq![0int]);
}

proof fn lemma_depth_of_brackets(n: nat)
    ensures
        depth(Seq::new(n, |i: int| 0int)) == n,
    decreases n,
{
    if n > 0 {
        lemma_depth_of_brackets((n - 1) as nat);
        assert(Seq::new(n, |i: int| 0int).drop_last() =~= Seq::new((n - 1) as nat, |i: int| 0int));
    }
}

proof fn lemma_brackets(s: Seq<char>, at: int)
    requires
        0 <= at < 240,
        at <= s.len(),
        forall|i: int| 0 <= i < s.len() && i < 240 ==> #[trigger] s[i] == '[',
    ensures
        stays_shallow(s, at, Mode::Plain, Seq::new((at + 1) as nat, |i: int| 0int)) == (s.len()
            <= 239),
    decreases s.len() - at,
{
    let levels = Seq::new((at + 1) as nat, |i: int| 0int);
    if at < s.len() {
        assert(s[at] == '[');
        lemma_depth_of_brackets((at + 2) as nat);
        assert(levels.push(0) =~= Seq::new((at + 2) as nat, |i: int| 0int));
        if at < 239 {
            lemma_brackets(s, at + 1);
        }
    }
}

/// In a string a backslash behind an ASCII character can be read, and one
/// behind a wider character cannot: the text in front of it is cut by bytes.
pub proof fn law_backslash_behind_wide_character(c: char, d: char)
    requires
        c != '"' && c != '\\',
        (c as u32) >= 0x20 && (c as u32) != 0x7f,
    ensures
        readable(seq!['"', c, '\\', d, '"']) <==> (c as u32) < 0x80,
{
    let s = seq!['"', c, '\\', d, '"'];
    assert(string_end(s, 1) == 4) by {
        assert(string_end(s, 4) == 4);
        assert(string_end(s, 2) == string_end(s, 4));
        assert(string_end(s, 1) == string_end(s, 2));
    }
    let inner = s.subrange(1, 4);
    assert(inner =~= seq![c, '\\', d]);
    text::lemma_find(inner, '\\', 1);
    assert(lands(inner, 1) == (char_width(c) == 1)) by {
        assert(lands(inner.drop_first(), 0));
    }
    assert forall|j: int| 0 <= j < 1 implies !is_control(#[trigger] inner[j]) by {
        char_u32_cast(c, c as u32);
    }
    assert(reads_on(s, 5, Phase::Done, Seq::empty()));
}

/// What stands in a string does not count: a string that is never closed nests
/// nowhere, whatever it holds.
pub proof fn law_strings_nest_nowhere(inner: Seq<char>)
    ensures
        !inner.contains('"') && !inner.contains('\\') ==> is_shallow(seq!['"'] + inner),
        !inner.contains('\'') ==> is_shallow(seq!['\''] + inner),
{
    let (a, b) = (seq!['"'] + inner, seq!['\''] + inner);
    lemma_line(0);
    if !inner.contains('"') && !inner.contains('\\') {
        assert forall|i: int| 1 <= i < a.len() implies a[i] != '"' && a[i] != '\\' by {
            assert(inner.contains(inner[i - 1]));
        }
        lemma_in_string(a, 1);
    }
    if !inner.contains('\'') {
        assert forall|i: int| 1 <= i < b.len() implies b[i] != '\'' by {
            assert(inner.contains(inner[i - 1]));
        }
        lemma_in_literal(b, 1);
    }
}

proof fn lemma_in_string(s: Seq<char>, at: int)
    requires
        forall|i: int| 1 <= i < s.len() ==> #[trigger] s[i] != '"' && s[i] != '\\',
        at >= 1,
    ensures
        stays_shallow(s, at, Mode::Basic, seq![0int]),
    decreases s.len() - at,
{
    if at < s.len() {
        assert(s[at] != '"');
        lemma_line(0);
        lemma_in_string(s, at + 1);
    }
}

proof fn lemma_in_literal(s: Seq<char>, at: int)
    requires
        forall|i: int| 1 <= i < s.len() ==> #[trigger] s[i] != '\'',
        at >= 1,
    ensures
        stays_shallow(s, at, Mode::Literal, seq![0int]),
    decreases s.len() - at,
{
    if at < s.len() {
        assert(s[at] != '\'');
        lemma_line(0);
        lemma_in_literal(s, at + 1);
    }
}

/// Each dot of a key counts as one bracket more.
pub proof fn law_dots_nest_so_deep(toml: Seq<char>)
    ensures
        toml.len() <= 239 && (forall|i: int| 0 <= i < toml.len() ==> #[trigger] toml[i] == '.')
            ==> is_shallow(toml),
        toml.len() > 239 && (forall|i: int| 0 <= i < 240 ==> #[trigger] toml[i] == '.')
            ==> !is_shallow(toml),
{
    if forall|i: int| 0 <= i < toml.len() && i < 240 ==> #[trigger] toml[i] == '.' {
        lemma_dots(toml, 0);
    }
}

proof fn lemma_dots(s: Seq<char>, at: int)
    requires
        0 <= at < 240,
        at <= s.len(),
        forall|i: int| 0 <= i < s.len() && i < 240 ==> #[trigger] s[i] == '.',
    ensures
        stays_shallow(s, at, Mode::Plain, seq![at]) == (s.len() <= 239),
    decreases s.len() - at,
{
    if at < s.len() {
        assert(s[at] == '.');
        lemma_line(at + 1);
        assert(with_last(seq![at], at + 1) =~= seq![at + 1]);
        if at < 239 {
            lemma_dots(s, at + 1);
        }
    }
}

} // verus!
