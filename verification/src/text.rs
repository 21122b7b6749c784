//! Text as sequences of characters: whitespace, pieces, prefixes and
//! replacement, and the bridge between bytes and text.

use vstd::prelude::*;
use vstd::slice::*;
use vstd::string::*;
use vstd::utf8::*;

verus! {

/// The characters with the Unicode property `White_Space`.
pub open spec fn white_space(c: char) -> bool {
    let n = c as u32;
    ||| 0x9 <= n <= 0xd
    ||| n == 0x20
    ||| n == 0x85
    ||| n == 0xa0
    ||| n == 0x1680
    ||| 0x2000 <= n <= 0x200a
    ||| n == 0x2028
    ||| n == 0x2029
    ||| n == 0x202f
    ||| n == 0x205f
    ||| n == 0x3000
}

/// `s` without its leading whitespace.
pub open spec fn trim_start(s: Seq<char>) -> Seq<char>
    decreases s.len(),
{
    if s.len() > 0 && white_space(s.first()) {
        trim_start(s.drop_first())
    } else {
        s
    }
}

/// `s` without its trailing whitespace.
pub open spec fn trim_end(s: Seq<char>) -> Seq<char>
    decreases s.len(),
{
    if s.len() > 0 && white_space(s.last()) {
        trim_end(s.drop_last())
    } else {
        s
    }
}

/// `s` without its leading and trailing whitespace.
pub open spec fn trimmed(s: Seq<char>) -> Seq<char> {
    trim_end(trim_start(s))
}

/// The pieces of `s` between the occurrences of `sep`, one more than there
/// are occurrences.
pub open spec fn split_on<T>(s: Seq<T>, sep: T) -> Seq<Seq<T>>
    decreases s.len(),
{
    if s.len() == 0 {
        seq![s]
    } else {
        let before = split_on(s.drop_last(), sep);
        if s.last() == sep {
            before.push(Seq::empty())
        } else {
            before.drop_last().push(before.last().push(s.last()))
        }
    }
}

/// The index of the first `x` in `s`, or the length of `s` where there is none.
pub open spec fn find<T>(s: Seq<T>, x: T) -> int
    decreases s.len(),
{
    if s.len() == 0 || s.first() == x {
        0
    } else {
        1 + find(s.drop_first(), x)
    }
}

/// What stands before and after the first `x` in `s`.
pub open spec fn split_once<T>(s: Seq<T>, x: T) -> Option<(Seq<T>, Seq<T>)> {
    let i = find(s, x);
    if i < s.len() {
        Some((s.take(i), s.skip(i + 1)))
    } else {
        None
    }
}

/// `s` with each pair `a`, `b` replaced by `with`, from left to right.
pub open spec fn replace_pair<T>(s: Seq<T>, a: T, b: T, with: T) -> Seq<T>
    decreases s.len(),
{
    if s.len() < 2 {
        s
    } else if s[0] == a && s[1] == b {
        seq![with] + replace_pair(s.skip(2), a, b, with)
    } else {
        seq![s[0]] + replace_pair(s.skip(1), a, b, with)
    }
}

pub open spec fn has_prefix<T>(s: Seq<T>, prefix: Seq<T>) -> bool {
    prefix.len() <= s.len() && s.take(prefix.len() as int) == prefix
}

/// The text that `String::from_utf8_lossy` makes of `bytes`.
pub uninterp spec fn lossy_text(bytes: Seq<u8>) -> Seq<char>;

/// The text that `bytes` are shown as: what they encode, or the nearest to it
/// where they are no text.
pub open spec fn shown(bytes: Seq<u8>) -> Seq<char> {
    if valid_utf8(bytes) {
        decode_utf8(bytes)
    } else {
        lossy_text(bytes)
    }
}

/// The characters of each string.
pub open spec fn texts(strings: Seq<String>) -> Seq<Seq<char>> {
    strings.map_values(|s: String| s@)
}

/// Calls `String::from_utf8_lossy`. Trusted: the text depends on the bytes
/// alone; bytes that are valid UTF-8 give the text that they encode; and other
/// bytes give a text with a replacement character in it.
#[verifier::external_body]
pub(crate) fn from_utf8_lossy(bytes: &[u8]) -> (text: String)
    ensures
        text@ == lossy_text(bytes@),
        valid_utf8(bytes@) ==> text@ == decode_utf8(bytes@),
        !valid_utf8(bytes@) ==> text@.contains('\u{fffd}'),
{
    String::from_utf8_lossy(bytes).into_owned()
}

/// Calls `std::str::from_utf8`. Trusted: the bytes are accepted exactly when
/// they are valid UTF-8, and the text is then the one that they encode.
#[verifier::external_body]
pub(crate) fn from_utf8(bytes: &[u8]) -> (text: Option<&str>)
    ensures
        text is Some <==> valid_utf8(bytes@),
        text matches Some(t) ==> t@ == decode_utf8(bytes@),
{
    std::str::from_utf8(bytes).ok()
}

/// `String::push`. Trusted: the character is appended at the end.
pub assume_specification[ String::push ](s: &mut String, c: char)
    ensures
        final(s)@ == old(s)@.push(c),
;

pub proof fn lemma_find<T>(s: Seq<T>, x: T, i: int)
    requires
        0 <= i <= s.len(),
        forall|j: int| 0 <= j < i ==> s[j] != x,
        i < s.len() ==> s[i] == x,
    ensures
        find(s, x) == i,
    decreases s.len(),
{
    if i > 0 {
        lemma_find(s.drop_first(), x, i - 1);
    }
}

pub proof fn lemma_split_nonempty<T>(s: Seq<T>, sep: T)
    ensures
        split_on(s, sep).len() > 0,
    decreases s.len(),
{
    if s.len() > 0 {
        lemma_split_nonempty(s.drop_last(), sep);
    }
}

/// What holds no separator goes on with the last piece.
pub proof fn lemma_split_extends<T>(a: Seq<T>, b: Seq<T>, sep: T)
    requires
        !b.contains(sep),
    ensures
        split_on(a + b, sep) == split_on(a, sep).drop_last().push(split_on(a, sep).last() + b),
    decreases b.len(),
{
    lemma_split_nonempty(a, sep);
    let pieces = split_on(a, sep);
    if b.len() == 0 {
        assert(a + b =~= a);
        assert(pieces.last() + b =~= pieces.last());
        assert(split_on(a + b, sep) =~= pieces.drop_last().push(pieces.last() + b));
    } else {
        let front = b.drop_last();
        assert forall|i: int| 0 <= i < front.len() implies front[i] != sep by {
            assert(b.contains(b[i]));
        }
        assert(b.contains(b[b.len() - 1]));
        lemma_split_extends(a, front, sep);
        assert((a + b).drop_last() =~= a + front);
        let before = split_on(a + front, sep);
        assert(before.drop_last() =~= pieces.drop_last());
        assert(before.last().push(b.last()) =~= pieces.last() + b);
        assert(split_on(a + b, sep) =~= pieces.drop_last().push(pieces.last() + b));
    }
}

pub proof fn lemma_trim_start(s: Seq<char>, i: int)
    requires
        0 <= i <= s.len(),
        forall|j: int| 0 <= j < i ==> white_space(s[j]),
        i < s.len() ==> !white_space(s[i]),
    ensures
        trim_start(s) == s.skip(i),
    decreases s.len(),
{
    if i > 0 {
        lemma_trim_start(s.drop_first(), i - 1);
        assert(s.drop_first().skip(i - 1) =~= s.skip(i));
    } else {
        assert(s.skip(0) =~= s);
    }
}

pub proof fn lemma_trim_end(s: Seq<char>, i: int)
    requires
        0 <= i <= s.len(),
        forall|j: int| i <= j < s.len() ==> white_space(s[j]),
        i > 0 ==> !white_space(s[i - 1]),
    ensures
        trim_end(s) == s.take(i),
    decreases s.len(),
{
    if i < s.len() {
        lemma_trim_end(s.drop_last(), i);
        assert(s.drop_last().take(i) =~= s.take(i));
    } else {
        assert(s.take(i) =~= s);
    }
}

/// Text is encoded piece by piece.
pub proof fn lemma_encode_concat(a: Seq<char>, b: Seq<char>)
    ensures
        encode_utf8(a + b) == encode_utf8(a) + encode_utf8(b),
    decreases a.len(),
{
    if a.len() == 0 {
        assert(a + b =~= b);
        assert(encode_utf8(a) =~= Seq::<u8>::empty());
        assert(encode_utf8(a + b) =~= encode_utf8(a) + encode_utf8(b));
    } else {
        lemma_encode_concat(a.drop_first(), b);
        assert((a + b).drop_first() =~= a.drop_first() + b);
        assert(encode_utf8(a + b) =~= encode_utf8(a) + encode_utf8(b));
    }
}

/// Text that neither starts nor ends with whitespace is left as it is.
pub proof fn lemma_trimmed_keeps(s: Seq<char>)
    requires
        s.len() > 0,
        !white_space(s.first()),
        !white_space(s.last()),
    ensures
        trimmed(s) == s,
{
    lemma_trim_start(s, 0);
    assert(s.skip(0) =~= s);
    lemma_trim_end(s, s.len() as int);
    assert(s.take(s.len() as int) =~= s);
}

/// Whether `c` is whitespace.
pub fn is_white_space(c: char) -> (r: bool)
    ensures
        r == white_space(c),
{
    let n: u32 = c as u32;
    (0x9 <= n && n <= 0xd) || n == 0x20 || n == 0x85 || n == 0xa0 || n == 0x1680 || (0x2000 <= n
        && n <= 0x200a) || n == 0x2028 || n == 0x2029 || n == 0x202f || n == 0x205f || n == 0x3000
}

/// The characters of `s`.
pub fn chars_of(s: &str) -> (r: Vec<char>)
    ensures
        r@ == s@,
{
    let mut r: Vec<char> = Vec::new();
    for c in it: s.chars()
        invariant
            r@ == s@.take(it.index()),
            it.seq() == s@,
    {
        r.push(c);
    }
    r
}

/// The text made of `chars`.
pub fn string_of(chars: &[char]) -> (r: String)
    ensures
        r@ == chars@,
{
    let mut r = String::new();
    let mut i: usize = 0;
    while i < chars.len()
        invariant
            i <= chars@.len(),
            r@ == chars@.take(i as int),
        decreases chars@.len() - i,
    {
        r.push(chars[i]);
        i = i + 1;
        assert(chars@.take(i as int) =~= chars@.take(i - 1).push(chars@[i - 1]));
    }
    assert(chars@.take(i as int) =~= chars@);
    r
}

/// `chars` without leading and trailing whitespace.
pub fn trim(chars: &[char]) -> (r: &[char])
    ensures
        r@ == trimmed(chars@),
{
    let mut start: usize = 0;
    while start < chars.len() && is_white_space(chars[start])
        invariant
            start <= chars@.len(),
            forall|j: int| 0 <= j < start ==> white_space(chars@[j]),
        decreases chars@.len() - start,
    {
        start = start + 1;
    }
    let rest = slice_subrange(chars, start, chars.len());
    proof {
        lemma_trim_start(chars@, start as int);
        assert(rest@ =~= chars@.skip(start as int));
    }
    let mut end: usize = rest.len();
    while end > 0 && is_white_space(rest[end - 1])
        invariant
            end <= rest@.len(),
            forall|j: int| end <= j < rest@.len() ==> white_space(rest@[j]),
        decreases end,
    {
        end = end - 1;
    }
    proof {
        lemma_trim_end(rest@, end as int);
        assert(rest@.subrange(0, end as int) =~= rest@.take(end as int));
    }
    slice_subrange(rest, 0, end)
}

/// What stands before and after the first `x` in `chars`.
pub fn split_at_first<'a>(chars: &'a [char], x: char) -> (r: Option<(&'a [char], &'a [char])>)
    ensures
        r is Some <==> split_once(chars@, x) is Some,
        r matches Some(pair) ==> split_once(chars@, x) == Some((pair.0@, pair.1@)),
{
    let mut i: usize = 0;
    while i < chars.len() && chars[i] != x
        invariant
            i <= chars@.len(),
            forall|j: int| 0 <= j < i ==> chars@[j] != x,
        decreases chars@.len() - i,
    {
        i = i + 1;
    }
    proof {
        lemma_find(chars@, x, i as int);
    }
    if i < chars.len() {
        let before = slice_subrange(chars, 0, i);
        let after = slice_subrange(chars, i + 1, chars.len());
        assert(before@ =~= chars@.take(i as int));
        assert(after@ =~= chars@.skip(i + 1));
        Some((before, after))
    } else {
        None
    }
}

/// `chars` after `prefix`, where they start with it.
pub fn strip_prefix<'a>(chars: &'a [char], prefix: &str) -> (r: Option<&'a [char]>)
    ensures
        r is Some <==> has_prefix(chars@, prefix@),
        r matches Some(rest) ==> rest@ == chars@.skip(prefix@.len() as int),
{
    let wanted = chars_of(prefix);
    if chars.len() < wanted.len() {
        return None;
    }
    let mut i: usize = 0;
    while i < wanted.len()
        invariant
            i <= wanted@.len() <= chars@.len(),
            wanted@ == prefix@,
            forall|j: int| 0 <= j < i ==> chars@[j] == prefix@[j],
        decreases wanted@.len() - i,
    {
        if chars[i] != wanted[i] {
            assert(chars@.take(prefix@.len() as int)[i as int] != prefix@[i as int]);
            return None;
        }
        i = i + 1;
    }
    assert(chars@.take(prefix@.len() as int) =~= prefix@);
    let rest = slice_subrange(chars, wanted.len(), chars.len());
    assert(rest@ =~= chars@.skip(prefix@.len() as int));
    Some(rest)
}

/// `chars` with each pair `a`, `b` replaced by `with`.
pub fn replace_pairs(chars: &[char], a: char, b: char, with: char) -> (r: Vec<char>)
    ensures
        r@ == replace_pair(chars@, a, b, with),
{
    let mut r: Vec<char> = Vec::new();
    let mut i: usize = 0;
    assert(chars@.skip(0) =~= chars@);
    while chars.len() - i >= 2
        invariant
            i <= chars@.len(),
            replace_pair(chars@, a, b, with) =~= r@ + replace_pair(
                chars@.skip(i as int),
                a,
                b,
                with,
            ),
        decreases chars@.len() - i,
    {
        let ghost rest = chars@.skip(i as int);
        if chars[i] == a && chars[i + 1] == b {
            r.push(with);
            assert(rest.skip(2) =~= chars@.skip(i + 2));
            i = i + 2;
        } else {
            r.push(chars[i]);
            assert(rest.skip(1) =~= chars@.skip(i + 1));
            i = i + 1;
        }
    }
    if i < chars.len() {
        r.push(chars[i]);
        assert(chars@.skip(i as int) =~= seq![chars@[i as int]]);
    }
    r
}

/// What the slices hold.
pub open spec fn slice_texts<T>(slices: Seq<&[T]>) -> Seq<Seq<T>> {
    slices.map_values(|s: &[T]| s@)
}

/// Values that can be compared for equality.
pub trait Same: Copy {
    /// Whether both are the same value.
    fn same(self, other: Self) -> (r: bool)
        ensures
            r == (self == other),
    ;
}

impl Same for char {
    fn same(self, other: char) -> (r: bool) {
        self == other
    }
}

impl Same for u8 {
    fn same(self, other: u8) -> (r: bool) {
        self == other
    }
}

/// The pieces of `items` between the occurrences of `sep`.
pub fn split<'a, T: Same>(items: &'a [T], sep: T) -> (out: Vec<&'a [T]>)
    ensures
        slice_texts(out@) == split_on(items@, sep),
{
    let mut out: Vec<&'a [T]> = Vec::new();
    let mut start: usize = 0;
    let mut i: usize = 0;
    assert(items@.take(0) =~= Seq::<T>::empty());
    assert(slice_texts(out@) =~= Seq::<Seq<T>>::empty());
    while i < items.len()
        invariant
            start <= i <= items@.len(),
            ({
                let pieces = split_on(items@.take(i as int), sep);
                &&& pieces.len() > 0
                &&& pieces.drop_last() == slice_texts(out@)
                &&& pieces.last() == items@.subrange(start as int, i as int)
            }),
        decreases items@.len() - i,
    {
        let ghost before = split_on(items@.take(i as int), sep);
        let ghost pieces = split_on(items@.take(i + 1), sep);
        assert(items@.take(i + 1).drop_last() =~= items@.take(i as int));
        if items[i].same(sep) {
            let piece = slice_subrange(items, start, i);
            let ghost old_out = out@;
            out.push(piece);
            assert(slice_texts(out@) =~= slice_texts(old_out).push(piece@));
            assert(slice_texts(out@) =~= before);
            assert(pieces.drop_last() =~= before);
            start = i + 1;
            assert(items@.subrange(i + 1, i + 1) =~= Seq::<T>::empty());
        } else {
            assert(items@.subrange(start as int, i + 1) =~= items@.subrange(
                start as int,
                i as int,
            ).push(items@[i as int]));
            assert(pieces.drop_last() =~= before.drop_last());
        }
        i = i + 1;
    }
    assert(items@.take(i as int) =~= items@);
    let piece = slice_subrange(items, start, items.len());
    let ghost old_out = out@;
    out.push(piece);
    assert(slice_texts(out@) =~= slice_texts(old_out).push(piece@));
    assert(slice_texts(out@) =~= split_on(items@, sep));
    out
}

/// Whitespace is a tab, the line and page breaks, and the spaces of whatever
/// width: these characters and no others.
pub proof fn law_white_space_is_listed(c: char)
    ensures
        white_space(c) <==> (c == '\t' || c == '\n' || c == '\u{b}' || c == '\u{c}' || c == '\r'
            || c == ' ' || c == '\u{85}' || c == '\u{a0}' || c == '\u{1680}' || c == '\u{2000}' || c
            == '\u{2001}' || c == '\u{2002}' || c == '\u{2003}' || c == '\u{2004}' || c
            == '\u{2005}' || c == '\u{2006}' || c == '\u{2007}' || c == '\u{2008}' || c
            == '\u{2009}' || c == '\u{200a}' || c == '\u{2028}' || c == '\u{2029}' || c
            == '\u{202f}' || c == '\u{205f}' || c == '\u{3000}'),
{
    char_u32_cast(c, c as u32);
}

/// Trimming takes away exactly the whitespace around a text: whatever there is
/// of it in front and behind, and nothing in between. Of whitespace alone
/// nothing is left.
pub proof fn law_trimming_takes_whitespace_off(
    front: Seq<char>,
    s: Seq<char>,
    behind: Seq<char>,
)
    requires
        forall|i: int| 0 <= i < front.len() ==> white_space(#[trigger] front[i]),
        forall|i: int| 0 <= i < behind.len() ==> white_space(#[trigger] behind[i]),
        s.len() > 0 ==> !white_space(s.first()) && !white_space(s.last()),
    ensures
        trimmed(front + s + behind) == s,
{
    let all = front + s + behind;
    if s.len() > 0 {
        lemma_trim_start(all, front.len() as int);
        let rest = all.skip(front.len() as int);
        assert(rest =~= s + behind);
        assert(rest[s.len() - 1] == s.last());
        lemma_trim_end(rest, s.len() as int);
        assert(rest.take(s.len() as int) =~= s);
    } else {
        lemma_trim_start(all, all.len() as int);
        assert(all.skip(all.len() as int) =~= Seq::<char>::empty());
        assert(trimmed(all) =~= s);
    }
}

/// A separator parts what stands before it from what stands behind it, and what
/// holds no separator is one piece.
pub proof fn law_separator_parts<T>(a: Seq<T>, b: Seq<T>, sep: T)
    ensures
        split_on(a.push(sep) + b, sep) == split_on(a, sep) + split_on(b, sep),
        !a.contains(sep) ==> split_on(a, sep) == seq![a],
    decreases b.len(),
{
    let whole = a.push(sep) + b;
    let left = split_on(a, sep);
    if b.len() == 0 {
        assert(whole =~= a.push(sep));
        assert(whole.drop_last() =~= a);
        assert(b =~= Seq::<T>::empty());
        assert(split_on(whole, sep) =~= left + split_on(b, sep));
    } else {
        law_separator_parts(a, b.drop_last(), sep);
        lemma_split_nonempty(b.drop_last(), sep);
        let right = split_on(b.drop_last(), sep);
        assert(whole.drop_last() =~= a.push(sep) + b.drop_last());
        assert((left + right).last() == right.last());
        assert((left + right).drop_last() =~= left + right.drop_last());
        assert(split_on(whole, sep) =~= left + split_on(b, sep));
    }
    if !a.contains(sep) {
        let none = Seq::<T>::empty();
        lemma_split_extends(none, a, sep);
        assert(none + a =~= a);
        assert(split_on(none, sep) =~= seq![none]);
        assert(seq![none].drop_last() =~= Seq::<Seq<T>>::empty());
        assert(split_on(a, sep) =~= seq![a]);
    }
}

/// A text is parted at the first of the characters looked for, into all that
/// stands before and all that stands behind, and not at all where there is none.
pub proof fn law_first_one_parts<T>(a: Seq<T>, b: Seq<T>, x: T)
    requires
        !a.contains(x),
    ensures
        split_once(a.push(x) + b, x) == Some((a, b)),
        split_once(a, x) is None,
        find(a.push(x) + b, x) == a.len(),
        find(a, x) == a.len(),
{
    let whole = a.push(x) + b;
    assert forall|j: int| 0 <= j < a.len() implies whole[j] != x && a[j] != x by {
        assert(a.contains(a[j]));
    }
    lemma_find(whole, x, a.len() as int);
    lemma_find(a, x, a.len() as int);
    assert(whole.take(a.len() as int) =~= a);
    assert(whole.skip(a.len() as int + 1) =~= b);
}

/// Pairs are replaced from the left, each by one, and nothing else changes: what
/// does not begin a pair stays, a pair gives its replacement, and the first of
/// a pair without the second stays too.
pub proof fn law_pairs_are_replaced<T>(u: Seq<T>, a: T, b: T, with: T, c: T, t: Seq<T>)
    requires
        !u.contains(a),
        c != b,
    ensures
        replace_pair(u, a, b, with) == u,
        replace_pair(u.push(a), a, b, with) == u.push(a),
        replace_pair(u.push(a).push(b) + t, a, b, with) == u.push(with) + replace_pair(
            t,
            a,
            b,
            with,
        ),
        replace_pair(u.push(a).push(c) + t, a, b, with) == u.push(a) + replace_pair(
            seq![c] + t,
            a,
            b,
            with,
        ),
    decreases u.len(),
{
    let pair = u.push(a).push(b) + t;
    let lone = u.push(a).push(c) + t;
    if u.len() == 0 {
        assert(pair.skip(2) =~= t);
        assert(lone.skip(1) =~= seq![c] + t);
        assert(seq![with] =~= u.push(with));
        assert(seq![a] =~= u.push(a));
        assert(pair[0] == a && pair[1] == b);
        assert(lone[0] == a && lone[1] == c);
    } else {
        let rest = u.drop_first();
        assert(u.contains(u[0]));
        assert forall|i: int| 0 <= i < rest.len() implies rest[i] != a by {
            assert(u.contains(u[i + 1]));
        }
        law_pairs_are_replaced(rest, a, b, with, c, t);
        assert(pair.skip(1) =~= rest.push(a).push(b) + t);
        assert(lone.skip(1) =~= rest.push(a).push(c) + t);
        assert(u.skip(1) =~= rest);
        assert(u.push(a).skip(1) =~= rest.push(a));
        assert(pair[0] == u[0] && lone[0] == u[0]);
        assert(u =~= seq![u[0]] + rest);
        assert(u.push(a)[0] == u[0]);
        assert(seq![u[0]] + rest.push(a) =~= u.push(a));
        assert(replace_pair(pair, a, b, with) =~= u.push(with) + replace_pair(t, a, b, with));
        assert(replace_pair(lone, a, b, with) =~= u.push(a) + replace_pair(
            seq![c] + t,
            a,
            b,
            with,
        ));
        if u.len() == 1 {
            assert(rest =~= Seq::<T>::empty());
        }
    }
}

/// A text starts with another where it is that one and something behind it.
pub proof fn law_prefix_leads<T>(s: Seq<T>, prefix: Seq<T>, tail: Seq<T>)
    ensures
        has_prefix(prefix + tail, prefix),
        has_prefix(s, prefix) ==> s == prefix + s.skip(prefix.len() as int),
        s.len() < prefix.len() ==> !has_prefix(s, prefix),
        (exists|i: int| 0 <= i < s.len() && i < prefix.len() && s[i] != prefix[i]) ==> !has_prefix(
            s,
            prefix,
        ),
{
    assert((prefix + tail).take(prefix.len() as int) =~= prefix);
    if has_prefix(s, prefix) {
        assert(s =~= s.take(prefix.len() as int) + s.skip(prefix.len() as int));
        assert forall|i: int| 0 <= i < prefix.len() implies s[i] == prefix[i] by {
            assert(s.take(prefix.len() as int)[i] == s[i]);
        }
    }
}

/// Bytes that encode a text are shown as that text.
pub proof fn law_text_is_shown_as_it_is(s: Seq<char>)
    ensures
        shown(encode_utf8(s)) == s,
{
    encode_utf8_valid_utf8(s);
    encode_utf8_decode_utf8(s);
}

} // verus!
