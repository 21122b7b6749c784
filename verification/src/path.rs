//! Slash-separated paths, read component by component.

use vstd::prelude::*;
use vstd::relations::*;
use vstd::slice::*;
use vstd::string::*;
use vstd::utf8::*;

use crate::order;
use crate::text;

verus! {

/// One component of a path: the mathematical counterpart of [`Component`].
pub enum Part {
    RootDir,
    CurDir,
    ParentDir,
    Normal(Seq<u8>),
}

/// One component of a path.
#[derive(Debug)]
pub enum Component {
    /// The root, `/`.
    RootDir,
    /// A leading `.`.
    CurDir,
    /// `..`.
    ParentDir,
    /// A file or directory name.
    Normal(Vec<u8>),
}

impl View for Component {
    type V = Part;

    open spec fn view(&self) -> Part {
        match self {
            Component::RootDir => Part::RootDir,
            Component::CurDir => Part::CurDir,
            Component::ParentDir => Part::ParentDir,
            Component::Normal(name) => Part::Normal(name@),
        }
    }
}

/// A path as its raw bytes. Two paths are equal when their components are.
#[derive(Debug)]
pub struct FsPath {
    pub bytes: Vec<u8>,
}

impl View for FsPath {
    type V = Seq<u8>;

    open spec fn view(&self) -> Seq<u8> {
        self.bytes@
    }
}

pub open spec fn slash() -> u8 {
    47u8
}

/// What one piece between slashes contributes: nothing where it is empty or
/// `.`, else one component.
pub open spec fn piece_parts(piece: Seq<u8>) -> Seq<Part> {
    if piece.len() == 0 || piece == seq![46u8] {
        Seq::empty()
    } else if piece == seq![46u8, 46u8] {
        seq![Part::ParentDir]
    } else {
        seq![Part::Normal(piece)]
    }
}

pub open spec fn body_parts(pieces: Seq<Seq<u8>>) -> Seq<Part>
    decreases pieces.len(),
{
    if pieces.len() == 0 {
        Seq::empty()
    } else {
        body_parts(pieces.drop_last()) + piece_parts(pieces.last())
    }
}

/// A leading `/` is the root; a leading `.` of a relative path is kept.
pub open spec fn head_parts(bytes: Seq<u8>) -> Seq<Part> {
    if is_rooted(bytes) {
        seq![Part::RootDir]
    } else if text::split_on(bytes, slash()).first() == seq![46u8] {
        seq![Part::CurDir]
    } else {
        Seq::empty()
    }
}

pub open spec fn is_rooted(bytes: Seq<u8>) -> bool {
    bytes.len() > 0 && bytes[0] == slash()
}

/// The components of the path written as `bytes`. Repeated and trailing
/// slashes and every `.` but a leading one are dropped.
pub open spec fn components_of(bytes: Seq<u8>) -> Seq<Part> {
    head_parts(bytes) + body_parts(text::split_on(bytes, slash()))
}

pub open spec fn parts(components: Seq<Component>) -> Seq<Part> {
    Seq::new(components.len(), |i: int| components[i]@)
}

/// The components of each path.
pub open spec fn path_parts(paths: Seq<FsPath>) -> Seq<Seq<Part>> {
    paths.map_values(parts_key())
}

pub open spec fn parts_key() -> spec_fn(FsPath) -> Seq<Part> {
    |p: FsPath| p.parts()
}

/// The raw bytes of each path.
pub open spec fn path_bytes(paths: Seq<FsPath>) -> Seq<Seq<u8>> {
    paths.map_values(bytes_key())
}

pub open spec fn bytes_key() -> spec_fn(FsPath) -> Seq<u8> {
    |p: FsPath| p@
}

/// `other` taken relative to `base`; a rooted `other` replaces it.
pub open spec fn join_bytes(base: Seq<u8>, other: Seq<u8>) -> Seq<u8> {
    if is_rooted(other) {
        other
    } else if base.len() > 0 && base.last() != slash() {
        base.push(slash()) + other
    } else {
        base + other
    }
}

/// The name that the last component holds, if it is one.
pub open spec fn name_of(parts: Seq<Part>) -> Option<Seq<u8>> {
    if parts.len() > 0 {
        match parts.last() {
            Part::Normal(name) => Some(name),
            _ => None,
        }
    } else {
        None
    }
}

/// The components without the last one; the root and the empty path have no
/// parent.
pub open spec fn parent_of(parts: Seq<Part>) -> Option<Seq<Part>> {
    if parts.len() > 0 && parts.last() != Part::RootDir {
        Some(parts.drop_last())
    } else {
        None
    }
}

/// The order of components: the root, `.`, `..`, then names byte by byte.
pub open spec fn part_le(a: Part, b: Part) -> bool {
    match (a, b) {
        (Part::Normal(x), Part::Normal(y)) => order::bytes_le(x, y),
        _ => part_rank(a) <= part_rank(b),
    }
}

pub open spec fn part_rank(a: Part) -> int {
    match a {
        Part::RootDir => 0,
        Part::CurDir => 1,
        Part::ParentDir => 2,
        Part::Normal(_) => 3,
    }
}

pub open spec fn part_order() -> spec_fn(Part, Part) -> bool {
    |a: Part, b: Part| part_le(a, b)
}

/// The order of paths, component by component.
pub open spec fn path_le(a: Seq<Part>, b: Seq<Part>) -> bool {
    order::lex_le(a, b, part_order())
}

/// `base` is a leading run of whole components of `path`.
pub open spec fn is_prefix(path: Seq<Part>, base: Seq<Part>) -> bool {
    text::has_prefix(path, base)
}

pub proof fn lemma_part_order()
    ensures
        total_ordering(part_order()),
{
    order::lemma_byte_order();
    let le = part_order();
    assert forall|x: Part| #[trigger] le(x, x) by {
        if let Part::Normal(a) = x {
            order::lemma_lex_total(a, a, order::byte_order());
        }
    }
    assert forall|x: Part, y: Part| #[trigger] le(x, y) && #[trigger] le(y, x) implies x == y by {
        if let (Part::Normal(a), Part::Normal(b)) = (x, y) {
            order::lemma_lex_total(a, b, order::byte_order());
        }
    }
    assert forall|x: Part, y: Part, z: Part| #[trigger]
        le(x, y) && #[trigger] le(y, z) implies le(x, z) by {
        if let (Part::Normal(a), Part::Normal(b)) = (x, y) {
            if let Part::Normal(c) = z {
                order::lemma_lex_transitive(a, b, c, order::byte_order());
            }
        }
    }
    assert forall|x: Part, y: Part| #[trigger] le(x, y) || #[trigger] le(y, x) by {
        if let (Part::Normal(a), Part::Normal(b)) = (x, y) {
            order::lemma_lex_total(a, b, order::byte_order());
        }
    }
}

/// Paths are totally ordered.
pub proof fn lemma_path_total(a: Seq<Part>, b: Seq<Part>)
    ensures
        path_le(a, b) || path_le(b, a),
        path_le(a, b) && path_le(b, a) ==> a == b,
        path_le(a, a),
{
    lemma_part_order();
    order::lemma_lex_total(a, b, part_order());
}

pub proof fn lemma_path_transitive(a: Seq<Part>, b: Seq<Part>, c: Seq<Part>)
    requires
        path_le(a, b),
        path_le(b, c),
    ensures
        path_le(a, c),
{
    lemma_part_order();
    order::lemma_lex_transitive(a, b, c, part_order());
}

/// What `other` adds to a path that it is joined to: its components without
/// a leading `.`.
pub open spec fn tail_parts(other: Seq<u8>) -> Seq<Part> {
    body_parts(text::split_on(other, slash()))
}

/// The bytes of one component.
pub open spec fn part_bytes(part: Part) -> Seq<u8> {
    match part {
        Part::RootDir => seq![47u8],
        Part::CurDir => seq![46u8],
        Part::ParentDir => seq![46u8, 46u8],
        Part::Normal(name) => name,
    }
}

/// The path with the given components, with one slash between names.
pub open spec fn render(parts: Seq<Part>) -> Seq<u8>
    decreases parts.len(),
{
    if parts.len() == 0 {
        Seq::empty()
    } else {
        join_bytes(render(parts.drop_last()), part_bytes(parts.last()))
    }
}

/// A name of a file or directory: not empty, without slashes, and neither
/// `.` nor `..`.
pub open spec fn is_name(name: Seq<u8>) -> bool {
    &&& name.len() > 0
    &&& !name.contains(slash())
    &&& name != seq![46u8]
    &&& name != seq![46u8, 46u8]
}

/// The components that a path can have: the root and `.` only in front.
pub open spec fn well_formed(parts: Seq<Part>) -> bool {
    forall|i: int|
        0 <= i < parts.len() ==> match #[trigger] parts[i] {
            Part::RootDir => i == 0,
            Part::CurDir => i == 0,
            Part::ParentDir => true,
            Part::Normal(name) => is_name(name),
        }
}

/// Every name among `parts` is one that a path can hold.
pub open spec fn names_sound(parts: Seq<Part>) -> bool {
    forall|i: int|
        0 <= i < parts.len() ==> (#[trigger] parts[i] matches Part::Normal(name) ==> is_name(name))
}

proof fn lemma_split_join(a: Seq<u8>, b: Seq<u8>)
    ensures
        text::split_on(a.push(slash()) + b, slash()) == text::split_on(a, slash())
            + text::split_on(b, slash()),
    decreases b.len(),
{
    let sep = slash();
    let whole = a.push(sep) + b;
    let left = text::split_on(a, sep);
    if b.len() == 0 {
        assert(whole =~= a.push(sep));
        assert(whole.drop_last() =~= a);
        assert(b =~= Seq::<u8>::empty());
        assert(text::split_on(whole, sep) =~= left + text::split_on(b, sep));
    } else {
        lemma_split_join(a, b.drop_last());
        text::lemma_split_nonempty(b.drop_last(), sep);
        let right = text::split_on(b.drop_last(), sep);
        assert(whole.drop_last() =~= a.push(sep) + b.drop_last());
        assert((left + right).last() == right.last());
        assert((left + right).drop_last() =~= left + right.drop_last());
        assert(text::split_on(whole, sep) =~= left + text::split_on(b, sep));
    }
}

proof fn lemma_body_append(x: Seq<Seq<u8>>, y: Seq<Seq<u8>>)
    ensures
        body_parts(x + y) == body_parts(x) + body_parts(y),
    decreases y.len(),
{
    if y.len() == 0 {
        assert(x + y =~= x);
        assert(body_parts(x + y) =~= body_parts(x) + body_parts(y));
    } else {
        lemma_body_append(x, y.drop_last());
        assert((x + y).drop_last() =~= x + y.drop_last());
        assert(body_parts(x + y) =~= body_parts(x) + body_parts(y));
    }
}

/// Joining a relative path appends its components, without a leading `.`.
pub proof fn law_join_appends(base: Seq<u8>, other: Seq<u8>)
    requires
        base.len() > 0,
        !is_rooted(other),
    ensures
        components_of(join_bytes(base, other)) == components_of(base) + tail_parts(other),
        components_of(other) == head_parts(other) + tail_parts(other),
{
    let sep = slash();
    let whole = join_bytes(base, other);
    text::lemma_split_nonempty(base, sep);
    if base.last() != sep {
        lemma_split_join(base, other);
        lemma_body_append(text::split_on(base, sep), text::split_on(other, sep));
        assert(whole[0] == base[0]);
    } else {
        let short = base.drop_last();
        assert(base =~= short.push(sep));
        lemma_split_join(short, other);
        lemma_body_append(text::split_on(short, sep), text::split_on(other, sep));
        text::lemma_split_nonempty(short, sep);
        let pieces = text::split_on(base, sep);
        assert(pieces.drop_last() =~= text::split_on(short, sep));
        assert(pieces.last() =~= Seq::<u8>::empty());
        assert(body_parts(pieces) =~= body_parts(text::split_on(short, sep)));
        assert(whole[0] == base[0]);
    }
    assert(components_of(whole) =~= components_of(base) + tail_parts(other));
}

proof fn lemma_pieces_hold_no_slash(s: Seq<u8>)
    ensures
        forall|i: int|
            0 <= i < text::split_on(s, slash()).len() ==> !(#[trigger] text::split_on(
                s,
                slash(),
            )[i]).contains(slash()),
    decreases s.len(),
{
    let sep = slash();
    if s.len() > 0 {
        lemma_pieces_hold_no_slash(s.drop_last());
        text::lemma_split_nonempty(s.drop_last(), sep);
        let before = text::split_on(s.drop_last(), sep);
        let pieces = text::split_on(s, sep);
        assert forall|i: int| 0 <= i < pieces.len() implies !(#[trigger] pieces[i]).contains(
            sep,
        ) by {
            if s.last() == sep {
                if i < before.len() {
                    assert(pieces[i] == before[i]);
                }
            } else if i < before.len() - 1 {
                assert(pieces[i] == before[i]);
            } else {
                assert(!before[before.len() - 1].contains(sep));
                let last = before.last();
                if pieces[i].contains(sep) {
                    let k = choose|k: int| 0 <= k < pieces[i].len() && pieces[i][k] == sep;
                    assert(k < last.len());
                    assert(last[k] == sep);
                }
            }
        }
    }
}

proof fn lemma_body_well_formed(pieces: Seq<Seq<u8>>)
    requires
        forall|i: int| 0 <= i < pieces.len() ==> !(#[trigger] pieces[i]).contains(slash()),
    ensures
        forall|i: int|
            0 <= i < body_parts(pieces).len() ==> match #[trigger] body_parts(pieces)[i] {
                Part::Normal(name) => is_name(name),
                Part::ParentDir => true,
                _ => false,
            },
    decreases pieces.len(),
{
    if pieces.len() > 0 {
        lemma_body_well_formed(pieces.drop_last());
        let before = body_parts(pieces.drop_last());
        assert(!pieces[pieces.len() - 1].contains(slash()));
        assert forall|i: int| 0 <= i < body_parts(pieces).len() implies match #[trigger] body_parts(
            pieces,
        )[i] {
            Part::Normal(name) => is_name(name),
            Part::ParentDir => true,
            _ => false,
        } by {
            if i < before.len() {
                assert(body_parts(pieces)[i] == before[i]);
            }
        }
    }
}

/// The components of every path are well formed.
pub proof fn law_components_well_formed(bytes: Seq<u8>)
    ensures
        well_formed(components_of(bytes)),
{
    lemma_pieces_hold_no_slash(bytes);
    let pieces = text::split_on(bytes, slash());
    lemma_body_well_formed(pieces);
    assert forall|i: int| 0 <= i < components_of(bytes).len() implies match #[trigger] components_of(
        bytes,
    )[i] {
        Part::RootDir => i == 0,
        Part::CurDir => i == 0,
        Part::ParentDir => true,
        Part::Normal(name) => is_name(name),
    } by {
        let head = head_parts(bytes);
        if i >= head.len() {
            assert(components_of(bytes)[i] == body_parts(pieces)[i - head.len()]);
        }
    }
}

/// A path is absolute exactly when its first component is the root.
pub proof fn lemma_rooted(bytes: Seq<u8>)
    ensures
        is_rooted(bytes) == (components_of(bytes).len() > 0 && components_of(bytes)[0]
            == Part::RootDir),
{
    lemma_pieces_hold_no_slash(bytes);
    lemma_body_well_formed(text::split_on(bytes, slash()));
    if head_parts(bytes).len() == 0 && components_of(bytes).len() > 0 {
        assert(components_of(bytes)[0] == body_parts(text::split_on(bytes, slash()))[0]);
    }
}

proof fn lemma_split_single(s: Seq<u8>)
    requires
        !s.contains(slash()),
    ensures
        text::split_on(s, slash()) == seq![s],
    decreases s.len(),
{
    if s.len() > 0 {
        assert(s[s.len() - 1] != slash());
        assert forall|i: int| 0 <= i < s.drop_last().len() implies s.drop_last()[i] != slash() by {
            assert(s.contains(s[i]));
        }
        lemma_split_single(s.drop_last());
        assert(s.drop_last().push(s.last()) =~= s);
        assert(text::split_on(s, slash()) =~= seq![s]);
    }
}

proof fn lemma_single_piece(piece: Seq<u8>)
    requires
        !piece.contains(slash()),
    ensures
        tail_parts(piece) == piece_parts(piece),
        !is_rooted(piece),
{
    lemma_split_single(piece);
    assert(seq![piece].drop_last() =~= Seq::<Seq<u8>>::empty());
    assert(body_parts(Seq::<Seq<u8>>::empty()) =~= Seq::<Part>::empty());
    assert(body_parts(seq![piece]) =~= piece_parts(piece));
    if is_rooted(piece) {
        assert(piece.contains(piece[0]));
    }
}

/// A slash and a relative path behind a path append its components.
pub proof fn lemma_slash_appends(base: Seq<u8>, other: Seq<u8>)
    requires
        base.len() > 0,
        !is_rooted(other),
    ensures
        components_of(base.push(slash()) + other) == components_of(base) + tail_parts(other),
{
    let sep = slash();
    if base.last() != sep {
        law_join_appends(base, other);
    } else {
        let longer = base.push(sep);
        law_join_appends(longer, other);
        let none = Seq::<u8>::empty();
        assert(longer + none =~= longer);
        lemma_split_join(base, none);
        lemma_split_single(none);
        lemma_body_append(text::split_on(base, sep), seq![none]);
        lemma_single_piece(none);
        text::lemma_split_nonempty(base, sep);
        assert(body_parts(seq![none]) =~= Seq::<Part>::empty());
        assert(components_of(longer) =~= components_of(base));
    }
}

/// A relative path that is one name adds that name.
pub proof fn lemma_name_adds_itself(name: Seq<u8>)
    requires
        is_name(name),
    ensures
        tail_parts(name) == seq![Part::Normal(name)],
        !is_rooted(name),
{
    lemma_single_piece(name);
}

/// Joining a name to a path adds it as the last component, whatever the path.
pub proof fn law_join_name(base: Seq<u8>, name: Seq<u8>)
    ensures
        name.len() > 0 && !name.contains(47u8) && name != seq![46u8] && name != seq![46u8, 46u8]
            ==> components_of(join_bytes(base, name)) == components_of(base).push(
            Part::Normal(name),
        ),
{
    if is_name(name) {
        lemma_name_adds_itself(name);
        lemma_single_piece(name);
        if base.len() > 0 {
            law_join_appends(base, name);
            assert(components_of(base) + seq![Part::Normal(name)] =~= components_of(base).push(
                Part::Normal(name),
            ));
        } else {
            assert(base =~= Seq::<u8>::empty());
            assert(join_bytes(base, name) =~= name);
            lemma_split_single(base);
            lemma_single_piece(base);
            lemma_split_single(name);
            assert(components_of(base) =~= Seq::<Part>::empty());
            assert(components_of(name) =~= seq![Part::Normal(name)]);
            assert(components_of(base).push(Part::Normal(name)) =~= seq![Part::Normal(name)]);
        }
    }
}

/// Writing components out and reading them back gives the same components.
pub proof fn law_render_reads_back(parts: Seq<Part>)
    requires
        well_formed(parts),
    ensures
        components_of(render(parts)) == parts,
        parts.len() > 0 ==> render(parts).len() > 0,
    decreases parts.len(),
{
    if parts.len() == 0 {
        let empty = Seq::<u8>::empty();
        lemma_split_single(empty);
        lemma_single_piece(empty);
        assert(components_of(empty) =~= parts);
    } else {
        let front = parts.drop_last();
        let last = parts.last();
        assert(parts[parts.len() - 1] == last);
        assert forall|i: int| 0 <= i < front.len() implies match #[trigger] front[i] {
            Part::RootDir => i == 0,
            Part::CurDir => i == 0,
            Part::ParentDir => true,
            Part::Normal(name) => is_name(name),
        } by {
            assert(parts[i] == front[i]);
        }
        law_render_reads_back(front);
        let piece = part_bytes(last);
        if last == Part::RootDir {
            assert(front =~= Seq::<Part>::empty());
            let root = seq![47u8];
            assert(root.drop_last() =~= Seq::<u8>::empty());
            lemma_split_single(Seq::<u8>::empty());
            let pieces = text::split_on(root, slash());
            assert(pieces =~= seq![Seq::<u8>::empty(), Seq::<u8>::empty()]);
            assert(pieces.drop_last() =~= seq![Seq::<u8>::empty()]);
            assert(pieces.drop_last().drop_last() =~= Seq::<Seq<u8>>::empty());
            assert(body_parts(pieces) =~= Seq::<Part>::empty());
            assert(render(parts) == root);
            assert(components_of(root) =~= parts);
        } else {
            if !(last is Normal) {
                assert(!piece.contains(slash()));
            }
            lemma_single_piece(piece);
            lemma_split_single(piece);
            if front.len() > 0 {
                law_join_appends(render(front), piece);
                if last is ParentDir {
                    assert(piece.len() == 2);
                }
                assert(last !is CurDir);
                assert(components_of(render(parts)) =~= parts);
            } else {
                assert(render(front) =~= Seq::<u8>::empty());
                assert(render(parts) =~= piece);
                assert(piece == seq![46u8] <==> last is CurDir) by {
                    if last is ParentDir {
                        assert(piece.len() == 2);
                    }
                }
                if last is ParentDir {
                    assert(piece != seq![46u8]);
                }
                assert(components_of(piece) =~= parts);
            }
        }
    }
}

/// One step of lexical cleanup: `..` takes the last name away, `.` nothing,
/// and the root starts over.
pub open spec fn clean_step(done: Seq<Part>, part: Part) -> Seq<Part> {
    match part {
        Part::RootDir => seq![Part::RootDir],
        Part::CurDir => done,
        Part::ParentDir => match parent_of(done) {
            Some(front) => front,
            None => done,
        },
        Part::Normal(_) => done.push(part),
    }
}

/// The components after lexical cleanup: no `.` and no `..` is left.
pub open spec fn cleaned(parts: Seq<Part>) -> Seq<Part>
    decreases parts.len(),
{
    if parts.len() == 0 {
        Seq::empty()
    } else {
        clean_step(cleaned(parts.drop_last()), parts.last())
    }
}

/// The components of `other` relative to the components `base`.
pub open spec fn joined_parts(base: Seq<Part>, other: Seq<u8>) -> Seq<Part> {
    if is_rooted(other) {
        components_of(other)
    } else {
        base + components_of(other)
    }
}

proof fn lemma_cleaned_append(a: Seq<Part>, b: Seq<Part>, c: Seq<Part>)
    requires
        cleaned(a) == cleaned(b),
    ensures
        cleaned(a + c) == cleaned(b + c),
    decreases c.len(),
{
    if c.len() == 0 {
        assert(a + c =~= a && b + c =~= b);
    } else {
        lemma_cleaned_append(a, b, c.drop_last());
        assert((a + c).drop_last() =~= a + c.drop_last());
        assert((b + c).drop_last() =~= b + c.drop_last());
    }
}

/// Cleaning up a joined path is cleaning up the components of both paths,
/// one behind the other.
pub proof fn law_cleanup_of_join(base: Seq<u8>, other: Seq<u8>)
    ensures
        cleaned(components_of(join_bytes(base, other))) == cleaned(
            joined_parts(components_of(base), other),
        ),
{
    if !is_rooted(other) {
        let front = components_of(base);
        if base.len() > 0 {
            law_join_appends(base, other);
            let head = head_parts(other);
            let tail = tail_parts(other);
            assert(cleaned(front + head) == cleaned(front)) by {
                if head.len() > 0 {
                    assert((front + head).drop_last() =~= front);
                    assert((front + head).last() == Part::CurDir);
                } else {
                    assert(front + head =~= front);
                }
            }
            lemma_cleaned_append(front + head, front, tail);
            assert(front + (head + tail) =~= (front + head) + tail);
        } else {
            assert(base =~= Seq::<u8>::empty());
            lemma_split_single(base);
            lemma_single_piece(base);
            assert(front =~= Seq::<Part>::empty());
            assert(join_bytes(base, other) =~= other);
            assert(front + components_of(other) =~= components_of(other));
        }
    }
}

/// After cleanup only names stand behind a leading root.
pub proof fn law_cleanup_leaves_names(parts: Seq<Part>)
    ensures
        forall|i: int|
            0 <= i < cleaned(parts).len() ==> (#[trigger] cleaned(parts)[i] is Normal || (i == 0
                && cleaned(parts)[i] is RootDir)),
    decreases parts.len(),
{
    if parts.len() > 0 {
        law_cleanup_leaves_names(parts.drop_last());
        let before = cleaned(parts.drop_last());
        assert forall|i: int| 0 <= i < cleaned(parts).len() implies (#[trigger] cleaned(parts)[i] is Normal
            || (i == 0 && cleaned(parts)[i] is RootDir)) by {
            if i < before.len() && !(parts.last() is RootDir) {
                assert(before[i] is Normal || (i == 0 && before[i] is RootDir));
            }
        }
    }
}

/// Cleanup brings no other names in.
pub proof fn lemma_cleanup_keeps_names(parts: Seq<Part>)
    requires
        names_sound(parts),
    ensures
        names_sound(cleaned(parts)),
    decreases parts.len(),
{
    if parts.len() > 0 {
        let front = parts.drop_last();
        assert(names_sound(front)) by {
            assert forall|i: int| 0 <= i < front.len() implies (#[trigger] front[i] matches Part::Normal(
                name,
            ) ==> is_name(name)) by {
                assert(front[i] == parts[i]);
            }
        }
        lemma_cleanup_keeps_names(front);
        let (before, after) = (cleaned(front), cleaned(parts));
        assert forall|i: int| 0 <= i < after.len() implies (#[trigger] after[i] matches Part::Normal(
            name,
        ) ==> is_name(name)) by {
            if i < before.len() && !(parts.last() is RootDir) {
                assert(after[i] == before[i]);
            } else {
                assert(parts[parts.len() - 1] == parts.last());
            }
        }
    }
}

/// Whether both hold the same bytes.
pub fn same_bytes(a: &[u8], b: &[u8]) -> (r: bool)
    ensures
        r == (a@ == b@),
{
    if a.len() != b.len() {
        return false;
    }
    let mut i: usize = 0;
    while i < a.len()
        invariant
            i <= a@.len() == b@.len(),
            forall|j: int| 0 <= j < i ==> a@[j] == b@[j],
        decreases a@.len() - i,
    {
        if a[i] != b[i] {
            return false;
        }
        i = i + 1;
    }
    assert(a@ =~= b@);
    true
}

impl Component {
    /// Whether both are the same component.
    pub fn same_as(&self, other: &Component) -> (r: bool)
        ensures
            r == (self@ == other@),
    {
        match (self, other) {
            (Component::RootDir, Component::RootDir) => true,
            (Component::CurDir, Component::CurDir) => true,
            (Component::ParentDir, Component::ParentDir) => true,
            (Component::Normal(a), Component::Normal(b)) => same_bytes(a.as_slice(), b.as_slice()),
            _ => false,
        }
    }

    /// Whether this is the name `name`.
    pub fn is_named(&self, name: &str) -> (r: bool)
        ensures
            r == (self@ == Part::Normal(encode_utf8(name@))),
    {
        match self {
            Component::Normal(a) => same_bytes(a.as_slice(), name.as_bytes()),
            _ => false,
        }
    }

    fn rank(&self) -> (r: u8)
        ensures
            r == part_rank(self@),
    {
        match self {
            Component::RootDir => 0,
            Component::CurDir => 1,
            Component::ParentDir => 2,
            Component::Normal(_) => 3,
        }
    }

    /// Whether this comes no later than `other`.
    pub fn in_order(&self, other: &Component) -> (r: bool)
        ensures
            r == part_le(self@, other@),
    {
        match (self, other) {
            (Component::Normal(a), Component::Normal(b)) => order::bytes_in_order(
                a.as_slice(),
                b.as_slice(),
            ),
            _ => self.rank() <= other.rank(),
        }
    }
}

/// The component that a piece between slashes stands for, if any.
fn component_of(piece: Vec<u8>) -> (r: Option<Component>)
    ensures
        match r {
            Some(c) => piece_parts(piece@) == seq![c@],
            None => piece_parts(piece@) == Seq::<Part>::empty(),
        },
{
    if piece.len() == 0 {
        None
    } else if piece.len() == 1 && piece[0] == 46 {
        assert(piece@ =~= seq![46u8]);
        None
    } else if piece.len() == 2 && piece[0] == 46 && piece[1] == 46 {
        assert(piece@ =~= seq![46u8, 46u8]);
        Some(Component::ParentDir)
    } else {
        Some(Component::Normal(piece))
    }
}

impl FsPath {
    /// The components of this path.
    pub open spec fn parts(&self) -> Seq<Part> {
        components_of(self@)
    }

    /// The path written as `bytes`.
    pub fn from_bytes(bytes: Vec<u8>) -> (r: FsPath)
        ensures
            r@ == bytes@,
    {
        FsPath { bytes }
    }

    /// The path written as `text`.
    pub fn from_text(text: &str) -> (r: FsPath)
        ensures
            r@ == encode_utf8(text@),
    {
        FsPath { bytes: slice_to_vec(text.as_bytes()) }
    }

    /// Whether the path starts at the root.
    pub fn is_absolute(&self) -> (r: bool)
        ensures
            r == is_rooted(self@),
    {
        self.bytes.len() > 0 && self.bytes[0] == 47
    }

    /// The components of the path, from the root down.
    pub fn components(&self) -> (out: Vec<Component>)
        ensures
            parts(out@) == self.parts(),
    {
        let ghost s = self@;
        let mut out: Vec<Component> = Vec::new();
        let rooted = self.is_absolute();
        if rooted {
            out.push(Component::RootDir);
        }
        let mut piece: Vec<u8> = Vec::new();
        let mut first = true;
        let mut i: usize = 0;
        let ghost head: Seq<Part> = if rooted { seq![Part::RootDir] } else { Seq::empty() };
        assert(s.take(0) =~= Seq::<u8>::empty());
        assert(parts(out@) =~= head);
        while i < self.bytes.len()
            invariant
                i <= self.bytes@.len(),
                s == self.bytes@,
                rooted == is_rooted(s),
                ({
                    let pieces = text::split_on(s.take(i as int), slash());
                    &&& pieces.len() > 0
                    &&& pieces.last() == piece@
                    &&& first == (pieces.len() == 1)
                    &&& first ==> head == (if rooted {
                        seq![Part::RootDir]
                    } else {
                        Seq::<Part>::empty()
                    })
                    &&& !first ==> head == (if rooted {
                        seq![Part::RootDir]
                    } else if pieces.first() == seq![46u8] {
                        seq![Part::CurDir]
                    } else {
                        Seq::<Part>::empty()
                    })
                    &&& parts(out@) == head + body_parts(pieces.drop_last())
                }),
            decreases self.bytes@.len() - i,
        {
            let b = self.bytes[i];
            let ghost before = text::split_on(s.take(i as int), slash());
            let ghost pieces = text::split_on(s.take(i + 1), slash());
            assert(s.take(i + 1).drop_last() =~= s.take(i as int));
            if b == 47 {
                let mut done: Vec<u8> = Vec::new();
                std::mem::swap(&mut done, &mut piece);
                let ghost old_out = out@;
                if first && !rooted && done.len() == 1 && done[0] == 46 {
                    assert(done@ =~= seq![46u8]);
                    out.push(Component::CurDir);
                    proof {
                        head = seq![Part::CurDir];
                        assert(before.drop_last() =~= Seq::empty());
                        assert(parts(out@) =~= head + body_parts(before.drop_last()));
                    }
                }
                let ghost mid_out = out@;
                first = false;
                let part = component_of(done);
                match part {
                    Some(c) => {
                        out.push(c);
                        assert(parts(out@) =~= parts(mid_out) + seq![c@]);
                    },
                    None => {
                        assert(parts(out@) =~= parts(mid_out) + Seq::<Part>::empty());
                    },
                }
                proof {
                    assert(pieces.drop_last() =~= before);
                    assert(parts(out@) =~= head + body_parts(before));
                    if before.len() > 1 {
                        assert(pieces.first() == before.first());
                    } else {
                        assert(pieces.first() == done@);
                    }
                }
            } else {
                piece.push(b);
                proof {
                    assert(pieces.drop_last() =~= before.drop_last());
                    if before.len() > 1 {
                        assert(pieces.first() == before.first());
                    }
                }
            }
            i = i + 1;
        }
        assert(s.take(i as int) =~= s);
        let ghost pieces = text::split_on(s, slash());
        if first && !rooted && piece.len() == 1 && piece[0] == 46 {
            assert(piece@ =~= seq![46u8]);
            out.push(Component::CurDir);
            proof {
                head = seq![Part::CurDir];
                assert(pieces.drop_last() =~= Seq::empty());
                assert(parts(out@) =~= head + body_parts(pieces.drop_last()));
            }
        }
        assert(head == head_parts(s));
        let ghost mid_out = out@;
        match component_of(piece) {
            Some(c) => {
                out.push(c);
                assert(parts(out@) =~= parts(mid_out) + seq![c@]);
            },
            None => {
                assert(parts(out@) =~= parts(mid_out) + Seq::<Part>::empty());
            },
        }
        assert(parts(out@) =~= head + body_parts(pieces));
        out
    }

    /// `other` relative to this path.
    pub fn join(&self, other: &FsPath) -> (r: FsPath)
        ensures
            r@ == join_bytes(self@, other@),
    {
        if other.is_absolute() {
            return FsPath { bytes: slice_to_vec(other.bytes.as_slice()) };
        }
        let mut bytes: Vec<u8> = slice_to_vec(self.bytes.as_slice());
        let mut tail: Vec<u8> = slice_to_vec(other.bytes.as_slice());
        if bytes.len() > 0 && bytes[bytes.len() - 1] != 47 {
            bytes.push(47);
        }
        bytes.append(&mut tail);
        FsPath { bytes }
    }

    /// The last component, where it is a name.
    pub fn file_name(&self) -> (r: Option<Vec<u8>>)
        ensures
            match r {
                Some(name) => name_of(self.parts()) == Some(name@),
                None => name_of(self.parts()) is None,
            },
    {
        let mut all = self.components();
        let ghost before = all@;
        match all.pop() {
            Some(last) => {
                assert(parts(before).last() == last@);
                match last {
                    Component::Normal(name) => Some(name),
                    _ => None,
                }
            },
            None => None,
        }
    }

    /// Whether the components of `base` lead those of this path.
    pub fn starts_with(&self, base: &FsPath) -> (r: bool)
        ensures
            r == is_prefix(self.parts(), base.parts()),
    {
        let mine = self.components();
        let theirs = base.components();
        leads(&mine, &theirs)
    }

    /// Whether both paths have the same components.
    pub fn same_as(&self, other: &FsPath) -> (r: bool)
        ensures
            r == (self.parts() == other.parts()),
    {
        let mine = self.components();
        let theirs = other.components();
        let led = leads(&mine, &theirs);
        assert(self.parts().take(self.parts().len() as int) =~= self.parts());
        mine.len() == theirs.len() && led
    }

    /// Whether this path comes no later than `other` in path order.
    pub fn comes_no_later(&self, other: &FsPath) -> (r: bool)
        ensures
            r == path_le(self.parts(), other.parts()),
    {
        let a = self.components();
        let b = other.components();
        let ghost (pa, pb) = (parts(a@), parts(b@));
        let mut i: usize = 0;
        assert(pa.skip(0) =~= pa && pb.skip(0) =~= pb);
        while i < a.len() && i < b.len()
            invariant
                i <= a@.len(),
                i <= b@.len(),
                pa == parts(a@) && pa == self.parts(),
                pb == parts(b@) && pb == other.parts(),
                path_le(pa, pb) == path_le(pa.skip(i as int), pb.skip(i as int)),
            decreases a@.len() - i,
        {
            if !a[i].same_as(&b[i]) {
                return a[i].in_order(&b[i]);
            }
            assert(pa.skip(i as int).drop_first() =~= pa.skip(i + 1));
            assert(pb.skip(i as int).drop_first() =~= pb.skip(i + 1));
            i = i + 1;
        }
        i == a.len()
    }

    /// The path for display; bytes that are no text are replaced.
    pub fn to_text(&self) -> (r: String)
        ensures
            r@ == text::shown(self@),
    {
        text::from_utf8_lossy(self.bytes.as_slice())
    }

    /// The path with the given components.
    pub fn of_components(components: &[Component]) -> (r: FsPath)
        requires
            well_formed(parts(components@)),
        ensures
            r@ == render(parts(components@)),
            r.parts() == parts(components@),
    {
        let mut r = FsPath { bytes: Vec::new() };
        let mut i: usize = 0;
        let ghost all = parts(components@);
        assert(all.take(0) =~= Seq::<Part>::empty());
        while i < components.len()
            invariant
                i <= components@.len(),
                all == parts(components@),
                r@ == render(all.take(i as int)),
            decreases components@.len() - i,
        {
            let piece = match &components[i] {
                Component::RootDir => vec![47u8],
                Component::CurDir => vec![46u8],
                Component::ParentDir => vec![46u8, 46u8],
                Component::Normal(name) => slice_to_vec(name.as_slice()),
            };
            assert(piece@ =~= part_bytes(all[i as int]));
            let next = FsPath { bytes: piece };
            assert(all.take(i + 1).drop_last() =~= all.take(i as int));
            r = r.join(&next);
            i = i + 1;
        }
        assert(all.take(i as int) =~= all);
        proof {
            law_render_reads_back(all);
        }
        r
    }

    /// The directory that holds this path.
    pub fn parent(&self) -> (r: Option<FsPath>)
        ensures
            match r {
                Some(p) => parent_of(self.parts()) == Some(p.parts()),
                None => parent_of(self.parts()) is None,
            },
    {
        let mut all = self.components();
        let ghost before = all@;
        proof {
            law_components_well_formed(self@);
        }
        match all.pop() {
            Some(last) => {
                assert(parts(before).last() == last@);
                match last {
                    Component::RootDir => None,
                    _ => {
                        assert(parts(all@) =~= parts(before).drop_last());
                        assert(well_formed(parts(all@))) by {
                            assert forall|i: int| 0 <= i < all@.len() implies parts(all@)[i]
                                == parts(before)[i] by {}
                        }
                        Some(FsPath::of_components(all.as_slice()))
                    },
                }
            },
            None => None,
        }
    }
}

/// Takes one more component into a cleaned-up path.
pub fn push_cleaned(done: &mut Vec<Component>, component: &Component)
    ensures
        parts(final(done)@) == clean_step(parts(old(done)@), component@),
{
    match component {
        Component::RootDir => {
            done.clear();
            done.push(Component::RootDir);
            assert(parts(done@) =~= seq![Part::RootDir]);
        },
        Component::CurDir => {},
        Component::ParentDir => {
            if done.len() > 0 {
                let at_root = match &done[done.len() - 1] {
                    Component::RootDir => true,
                    _ => false,
                };
                let ghost before = done@;
                assert(parts(before).last() == before.last()@);
                if !at_root {
                    let _ = done.pop();
                    assert(parts(done@) =~= parts(before).drop_last());
                }
            }
        },
        Component::Normal(name) => {
            let ghost before = done@;
            done.push(Component::Normal(slice_to_vec(name.as_slice())));
            assert(parts(done@) =~= parts(before).push(component@));
        },
    }
}

/// Whether the components `base` lead `path`.
fn leads(path: &Vec<Component>, base: &Vec<Component>) -> (r: bool)
    ensures
        r == is_prefix(parts(path@), parts(base@)),
{
    if path.len() < base.len() {
        return false;
    }
    let mut i: usize = 0;
    while i < base.len()
        invariant
            i <= base@.len() <= path@.len(),
            forall|j: int| 0 <= j < i ==> parts(path@)[j] == parts(base@)[j],
        decreases base@.len() - i,
    {
        if !path[i].same_as(&base[i]) {
            assert(parts(path@).take(base@.len() as int)[i as int] != parts(base@)[i as int]);
            return false;
        }
        i = i + 1;
    }
    assert(parts(path@).take(base@.len() as int) =~= parts(base@));
    true
}

impl Clone for FsPath {
    fn clone(&self) -> (r: FsPath)
        ensures
            r@ == self@,
    {
        FsPath { bytes: slice_to_vec(self.bytes.as_slice()) }
    }
}

impl PartialEq for FsPath {
    fn eq(&self, other: &FsPath) -> (r: bool) {
        self.same_as(other)
    }
}

impl vstd::std_specs::cmp::PartialEqSpecImpl for FsPath {
    open spec fn obeys_eq_spec() -> bool {
        true
    }

    open spec fn eq_spec(&self, other: &FsPath) -> bool {
        self.parts() == other.parts()
    }
}

impl Eq for FsPath {

}

impl order::Ranked for FsPath {
    open spec fn ranked_le(&self, other: &FsPath) -> bool {
        path_le(self.parts(), other.parts())
    }

    proof fn ranked_total(a: &FsPath, b: &FsPath) {
        lemma_path_total(a.parts(), b.parts());
    }

    proof fn ranked_transitive(a: &FsPath, b: &FsPath, c: &FsPath) {
        lemma_path_transitive(a.parts(), b.parts(), c.parts());
    }

    fn in_order(&self, other: &FsPath) -> (r: bool) {
        self.comes_no_later(other)
    }
}

/// How a path is read, piece by piece: the empty path has no component, a path
/// that is a slash is the root, `.` and `..` alone are themselves, and so is a
/// name.
pub proof fn law_short_paths(name: Seq<u8>)
    ensures
        components_of(Seq::empty()).len() == 0,
        components_of(seq![47u8]) == seq![Part::RootDir],
        components_of(seq![46u8]) == seq![Part::CurDir],
        components_of(seq![46u8, 46u8]) == seq![Part::ParentDir],
        name.len() > 0 && !name.contains(47u8) && name != seq![46u8] && name != seq![46u8, 46u8]
            ==> components_of(name) == seq![Part::Normal(name)],
{
    let none = Seq::<Part>::empty();
    law_render_reads_back(none);
    assert(render(none) =~= Seq::<u8>::empty());
    let root = seq![Part::RootDir];
    law_render_reads_back(root);
    assert(root.drop_last() =~= none);
    assert(render(root) =~= seq![47u8]);
    let here = seq![Part::CurDir];
    law_render_reads_back(here);
    assert(here.drop_last() =~= none);
    assert(render(here) =~= seq![46u8]);
    let up = seq![Part::ParentDir];
    law_render_reads_back(up);
    assert(up.drop_last() =~= none);
    assert(render(up) =~= seq![46u8, 46u8]);
    if is_name(name) {
        law_join_name(Seq::empty(), name);
        assert(join_bytes(Seq::empty(), name) =~= name) by {
            lemma_single_piece(name);
        }
        assert(components_of(name) =~= seq![Part::Normal(name)]);
    }
}

/// How a path goes on behind a slash: nothing, another slash or `.` adds no
/// component, `..` adds itself, and so does a name.
pub proof fn law_longer_paths(base: Seq<u8>, name: Seq<u8>)
    requires
        base.len() > 0,
    ensures
        components_of(base.push(47u8)) == components_of(base),
        components_of(base.push(47u8).push(46u8)) == components_of(base),
        components_of(base.push(47u8).push(46u8).push(46u8)) == components_of(base).push(
            Part::ParentDir,
        ),
        name.len() > 0 && !name.contains(47u8) && name != seq![46u8] && name != seq![46u8, 46u8]
            ==> components_of(base.push(47u8) + name) == components_of(base).push(
            Part::Normal(name),
        ),
{
    let front = components_of(base);
    let (none, one, two) = (Seq::<u8>::empty(), seq![46u8], seq![46u8, 46u8]);
    assert(!one.contains(47u8) && !two.contains(47u8));
    lemma_single_piece(none);
    lemma_single_piece(one);
    lemma_single_piece(two);
    lemma_slash_appends(base, none);
    lemma_slash_appends(base, one);
    lemma_slash_appends(base, two);
    assert(base.push(47u8) + none =~= base.push(47u8));
    assert(base.push(47u8) + one =~= base.push(47u8).push(46u8));
    assert(base.push(47u8) + two =~= base.push(47u8).push(46u8).push(46u8));
    assert(front + Seq::<Part>::empty() =~= front);
    assert(two.len() == 2);
    assert(front + seq![Part::ParentDir] =~= front.push(Part::ParentDir));
    if is_name(name) {
        lemma_name_adds_itself(name);
        lemma_slash_appends(base, name);
        assert(front + seq![Part::Normal(name)] =~= front.push(Part::Normal(name)));
    }
}

/// A path that starts with a slash replaces what it is joined to. Any other is
/// put behind it, whole, with a slash between them where there is none and
/// there is something before it, and its components follow, without a leading
/// `.`.
pub proof fn law_join_puts_behind(base: Seq<u8>, other: Seq<u8>)
    ensures
        other.len() > 0 && other[0] == 47u8 ==> join_bytes(base, other) == other,
        other.len() == 0 || other[0] != 47u8 ==> {
            let joined = join_bytes(base, other);
            &&& joined.len() == base.len() + other.len() + (if base.len() > 0 && base.last()
                != 47u8 {
                1int
            } else {
                0int
            })
            &&& joined.take(base.len() as int) == base
            &&& joined.skip(joined.len() - other.len()) == other
            &&& base.len() > 0 ==> joined[joined.len() - other.len() - 1] == 47u8
        },
        (other.len() == 0 || other[0] != 47u8) && base.len() > 0 ==> components_of(
            join_bytes(base, other),
        ) == components_of(base) + (if components_of(other).len() > 0 && components_of(other)[0]
            == Part::CurDir {
            components_of(other).skip(1)
        } else {
            components_of(other)
        }),
{
    let joined = join_bytes(base, other);
    if !is_rooted(other) {
        assert(joined.take(base.len() as int) =~= base);
        assert(joined.skip(joined.len() - other.len()) =~= other);
        if base.len() > 0 {
            law_join_appends(base, other);
            let (head, tail) = (head_parts(other), tail_parts(other));
            lemma_pieces_hold_no_slash(other);
            lemma_body_well_formed(text::split_on(other, slash()));
            if head.len() > 0 {
                assert((head + tail).skip(1) =~= tail);
            } else {
                assert(head + tail =~= tail);
                if tail.len() > 0 {
                    assert(tail[0] != Part::CurDir);
                }
            }
        }
    }
}

/// A path has the name that its last component is, and the parent that it is
/// without it: neither for the root nor the empty path, and no name for `.` and
/// `..`.
pub proof fn law_last_component(parts: Seq<Part>, last: Part)
    ensures
        name_of(Seq::<Part>::empty()) is None,
        parent_of(Seq::<Part>::empty()) is None,
        name_of(parts.push(last)) == (match last {
            Part::Normal(name) => Some(name),
            _ => None,
        }),
        last is RootDir ==> parent_of(parts.push(last)) is None,
        !(last is RootDir) ==> parent_of(parts.push(last)) == Some(parts),
{
    assert(parts.push(last).drop_last() =~= parts);
}

/// Paths rank by the first component in which they differ: the root before `.`,
/// that before `..`, that before every name, and names byte by byte. A
/// directory comes before what lies in it.
pub proof fn law_first_component_decides(
    common: Seq<Part>,
    x: Part,
    y: Part,
    a: Seq<Part>,
    b: Seq<Part>,
)
    requires
        x != y,
    ensures
        path_le(common, common + b),
        !path_le(common.push(x) + a, common),
        x is RootDir ==> path_le(common.push(x) + a, common.push(y) + b),
        x is CurDir ==> (path_le(common.push(x) + a, common.push(y) + b) <==> !(y is RootDir)),
        x is ParentDir ==> (path_le(common.push(x) + a, common.push(y) + b) <==> y is Normal),
        x is Normal && !(y is Normal) ==> !path_le(common.push(x) + a, common.push(y) + b),
        x is Normal && y is Normal ==> (path_le(common.push(x) + a, common.push(y) + b)
            <==> order::bytes_le(x->Normal_0, y->Normal_0)),
{
    order::law_first_difference_decides(common, x, y, a, b, part_order());
}

/// Cleanup follows the components one by one: a name is kept, `.` is dropped,
/// `..` takes back the name before it and nothing of the root, and the root
/// starts anew.
pub proof fn law_cleanup_follows_components(parts: Seq<Part>, name: Seq<u8>)
    ensures
        cleaned(Seq::<Part>::empty()).len() == 0,
        cleaned(parts.push(Part::Normal(name))) == cleaned(parts).push(Part::Normal(name)),
        cleaned(parts.push(Part::CurDir)) == cleaned(parts),
        cleaned(parts.push(Part::RootDir)) == seq![Part::RootDir],
        cleaned(parts.push(Part::Normal(name)).push(Part::ParentDir)) == cleaned(parts),
        cleaned(parts).len() == 0 || cleaned(parts).last() == Part::RootDir ==> cleaned(
            parts.push(Part::ParentDir),
        ) == cleaned(parts),
{
    assert(parts.push(Part::Normal(name)).drop_last() =~= parts);
    assert(parts.push(Part::CurDir).drop_last() =~= parts);
    assert(parts.push(Part::RootDir).drop_last() =~= parts);
    assert(parts.push(Part::ParentDir).drop_last() =~= parts);
    let there = parts.push(Part::Normal(name));
    assert(there.push(Part::ParentDir).drop_last() =~= there);
    assert(cleaned(there).drop_last() =~= cleaned(parts));
}

/// A relative path goes on from the directory that it is read in, and a rooted
/// one starts at the root.
pub proof fn law_relative_to(base: Seq<Part>, other: Seq<u8>)
    ensures
        other.len() > 0 && other[0] == 47u8 ==> joined_parts(base, other) == components_of(other)
            && components_of(other)[0] == Part::RootDir,
        other.len() == 0 || other[0] != 47u8 ==> joined_parts(base, other) == base + components_of(
            other,
        ),
{
    lemma_rooted(other);
}

/// A path leads another where that goes on from it by whole components.
pub proof fn law_prefix_is_whole_components(path: Seq<Part>, base: Seq<Part>, tail: Seq<Part>)
    ensures
        is_prefix(base + tail, base),
        is_prefix(path, base) <==> base.len() <= path.len() && forall|i: int|
            0 <= i < base.len() ==> #[trigger] path[i] == base[i],
{
    text::law_prefix_leads(path, base, tail);
    if is_prefix(path, base) {
        assert forall|i: int| 0 <= i < base.len() implies #[trigger] path[i] == base[i] by {
            assert(path.take(base.len() as int)[i] == path[i]);
        }
    }
    if base.len() <= path.len() && forall|i: int|
        0 <= i < base.len() ==> #[trigger] path[i] == base[i] {
        assert(path.take(base.len() as int) =~= base);
    }
}

} // verus!
