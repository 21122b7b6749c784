//! Orders on sequences and stable sorting.

use vstd::prelude::*;
use vstd::relations::*;

verus! {

/// Lexicographic order: the first place where two sequences differ decides,
/// and a prefix comes before what it is a prefix of.
pub open spec fn lex_le<T>(a: Seq<T>, b: Seq<T>, le: spec_fn(T, T) -> bool) -> bool
    decreases a.len(),
{
    if a.len() == 0 {
        true
    } else if b.len() == 0 {
        false
    } else if a.first() == b.first() {
        lex_le(a.drop_first(), b.drop_first(), le)
    } else {
        le(a.first(), b.first())
    }
}

/// The order of bytes.
pub open spec fn byte_order() -> spec_fn(u8, u8) -> bool {
    |a: u8, b: u8| a <= b
}

/// The order of characters by code point.
pub open spec fn char_order() -> spec_fn(char, char) -> bool {
    |a: char, b: char| a as u32 <= b as u32
}

/// Byte-wise order of byte strings.
pub open spec fn bytes_le(a: Seq<u8>, b: Seq<u8>) -> bool {
    lex_le(a, b, byte_order())
}

/// Order of text by code points.
pub open spec fn text_le(a: Seq<char>, b: Seq<char>) -> bool {
    lex_le(a, b, char_order())
}

/// The lexicographic order of a total order is total and antisymmetric.
pub proof fn lemma_lex_total<T>(a: Seq<T>, b: Seq<T>, le: spec_fn(T, T) -> bool)
    requires
        total_ordering(le),
    ensures
        lex_le(a, b, le) || lex_le(b, a, le),
        lex_le(a, b, le) && lex_le(b, a, le) ==> a == b,
        lex_le(a, a, le),
    decreases a.len(),
{
    if a.len() > 0 && b.len() > 0 {
        lemma_lex_total(a.drop_first(), b.drop_first(), le);
        assert(le(a.first(), b.first()) || le(b.first(), a.first()));
        if a.first() == b.first() && a.drop_first() == b.drop_first() {
            assert(a =~= seq![a.first()] + a.drop_first());
            assert(b =~= seq![b.first()] + b.drop_first());
        }
    } else if a.len() > 0 {
        lemma_lex_total(a.drop_first(), a.drop_first(), le);
    } else if b.len() == 0 {
        assert(a =~= b);
    }
}

/// The lexicographic order of a total order is transitive.
pub proof fn lemma_lex_transitive<T>(a: Seq<T>, b: Seq<T>, c: Seq<T>, le: spec_fn(T, T) -> bool)
    requires
        total_ordering(le),
        lex_le(a, b, le),
        lex_le(b, c, le),
    ensures
        lex_le(a, c, le),
    decreases a.len(),
{
    if a.len() > 0 {
        let (x, y, z) = (a.first(), b.first(), c.first());
        if x == y && y == z {
            lemma_lex_transitive(a.drop_first(), b.drop_first(), c.drop_first(), le);
        } else if x != y && y != z {
            assert(le(x, y) && le(y, z));
            assert(le(x, z));
        }
    }
}

/// A prefix never comes after what it is a prefix of.
pub proof fn lemma_lex_prefix<T>(a: Seq<T>, b: Seq<T>, le: spec_fn(T, T) -> bool)
    requires
        a.len() <= b.len(),
        b.take(a.len() as int) == a,
    ensures
        lex_le(a, b, le),
    decreases a.len(),
{
    if a.len() > 0 {
        assert(b.take(a.len() as int)[0] == b[0]);
        assert(b.drop_first().take(a.len() - 1) =~= a.drop_first());
        lemma_lex_prefix(a.drop_first(), b.drop_first(), le);
    }
}

pub proof fn lemma_byte_order()
    ensures
        total_ordering(byte_order()),
{
}

pub proof fn lemma_char_order()
    ensures
        total_ordering(char_order()),
{
    let le = char_order();
    assert forall|a: char, b: char| #[trigger] le(a, b) && #[trigger] le(b, a) implies a == b by {
        vstd::utf8::char_u32_cast(a, a as u32);
        vstd::utf8::char_u32_cast(b, b as u32);
    }
}

/// Whether `a` comes no later than `b` byte by byte.
pub fn bytes_in_order(a: &[u8], b: &[u8]) -> (r: bool)
    ensures
        r == bytes_le(a@, b@),
{
    let mut i: usize = 0;
    assert(a@.skip(0) =~= a@ && b@.skip(0) =~= b@);
    while i < a.len() && i < b.len()
        invariant
            i <= a@.len(),
            i <= b@.len(),
            bytes_le(a@, b@) == bytes_le(a@.skip(i as int), b@.skip(i as int)),
        decreases a@.len() - i,
    {
        if a[i] != b[i] {
            return a[i] < b[i];
        }
        assert(a@.skip(i as int).drop_first() =~= a@.skip(i + 1));
        assert(b@.skip(i as int).drop_first() =~= b@.skip(i + 1));
        i = i + 1;
    }
    i == a.len()
}

/// Whether `a` comes no later than `b` by code points.
pub fn text_in_order(a: &[char], b: &[char]) -> (r: bool)
    ensures
        r == text_le(a@, b@),
{
    let mut i: usize = 0;
    assert(a@.skip(0) =~= a@ && b@.skip(0) =~= b@);
    while i < a.len() && i < b.len()
        invariant
            i <= a@.len(),
            i <= b@.len(),
            text_le(a@, b@) == text_le(a@.skip(i as int), b@.skip(i as int)),
        decreases a@.len() - i,
    {
        if a[i] != b[i] {
            let x: u32 = a[i] as u32;
            let y: u32 = b[i] as u32;
            return x <= y;
        }
        assert(a@.skip(i as int).drop_first() =~= a@.skip(i + 1));
        assert(b@.skip(i as int).drop_first() =~= b@.skip(i + 1));
        i = i + 1;
    }
    i == a.len()
}

/// Values with a total preorder.
pub trait Ranked: Sized {
    /// Whether `self` comes no later than `other`.
    spec fn ranked_le(&self, other: &Self) -> bool;

    proof fn ranked_total(a: &Self, b: &Self)
        ensures
            a.ranked_le(b) || b.ranked_le(a),
    ;

    proof fn ranked_transitive(a: &Self, b: &Self, c: &Self)
        requires
            a.ranked_le(b),
            b.ranked_le(c),
        ensures
            a.ranked_le(c),
    ;

    fn in_order(&self, other: &Self) -> (r: bool)
        ensures
            r == self.ranked_le(other),
    ;
}

/// `p` lists each index below `n` once.
pub open spec fn is_reordering(p: Seq<int>, n: nat) -> bool {
    &&& p.len() == n
    &&& forall|i: int| 0 <= i < n ==> 0 <= #[trigger] p[i] < n
    &&& forall|i: int, j: int| 0 <= i < j < n ==> #[trigger] p[i] != #[trigger] p[j]
}

/// `out` holds the elements of `s`, in some order.
pub open spec fn rearranges<V>(s: Seq<V>, out: Seq<V>) -> bool {
    exists|p: Seq<int>| is_arrangement(s, out, p)
}

/// `out` holds the elements of `s` in the order `p`.
pub open spec fn is_arrangement<V>(s: Seq<V>, out: Seq<V>, p: Seq<int>) -> bool {
    &&& is_reordering(p, s.len())
    &&& out.len() == s.len()
    &&& forall|i: int| 0 <= i < s.len() ==> #[trigger] out[i] == s[p[i]]
}

/// `out` holds the elements of `s` in the order `p`, which is sorted by `le`
/// and keeps elements that rank alike in the order they had.
pub open spec fn sorts<V>(s: Seq<V>, out: Seq<V>, le: spec_fn(V, V) -> bool, p: Seq<int>) -> bool {
    &&& is_reordering(p, s.len())
    &&& out.len() == s.len()
    &&& forall|i: int| 0 <= i < s.len() ==> #[trigger] out[i] == s[p[i]]
    &&& forall|i: int, j: int|
        #![trigger p[i], p[j]]
        0 <= i < j < s.len() ==> {
            &&& le(s[p[i]], s[p[j]])
            &&& le(s[p[j]], s[p[i]]) ==> p[i] < p[j]
        }
}

/// `out` is the stable sort of `s` by `le`.
pub open spec fn is_stable_sort<V>(s: Seq<V>, out: Seq<V>, le: spec_fn(V, V) -> bool) -> bool {
    exists|p: Seq<int>| sorts(s, out, le, p)
}

/// The order of a ranked type.
pub open spec fn rank_order<T: Ranked>() -> spec_fn(T, T) -> bool {
    |a: T, b: T| a.ranked_le(&b)
}

/// A stable sort of values is one of what they stand for, where the order
/// reads nothing else.
pub proof fn lemma_sort_of_images<T, V>(
    s: Seq<T>,
    out: Seq<T>,
    le: spec_fn(T, T) -> bool,
    image: spec_fn(T) -> V,
    image_le: spec_fn(V, V) -> bool,
)
    requires
        is_stable_sort(s, out, le),
        forall|a: T, b: T| #[trigger] le(a, b) == image_le(image(a), image(b)),
    ensures
        is_stable_sort(s.map_values(image), out.map_values(image), image_le),
{
    let p = choose|p: Seq<int>| sorts(s, out, le, p);
    let s2 = s.map_values(image);
    assert forall|i: int, j: int|
        #![trigger p[i], p[j]]
        0 <= i < j < s2.len() implies {
        &&& image_le(s2[p[i]], s2[p[j]])
        &&& image_le(s2[p[j]], s2[p[i]]) ==> p[i] < p[j]
    } by {
        assert(le(s[p[i]], s[p[j]]));
        assert(le(s[p[j]], s[p[i]]) ==> p[i] < p[j]);
    }
    assert(sorts(s2, out.map_values(image), image_le, p));
}

/// A reordering of the indices below `n` holds each of them.
proof fn lemma_reordering_covers(p: Seq<int>, n: nat, x: int)
    requires
        is_reordering(p, n),
        0 <= x < n,
    ensures
        p.contains(x),
{
    p.unique_seq_to_set();
    let all = vstd::set_lib::set_int_range(0, n as int);
    vstd::set_lib::lemma_int_range(0, n as int);
    assert(p.to_set().subset_of(all)) by {
        assert forall|v: int| p.to_set().contains(v) implies all.contains(v) by {
            let i = choose|i: int| 0 <= i < p.len() && p[i] == v;
            assert(0 <= p[i] < n);
        }
    }
    vstd::set_lib::lemma_subset_equality(p.to_set(), all);
    assert(all.contains(x));
}

proof fn lemma_orders_agree<V>(
    s: Seq<V>,
    a: Seq<V>,
    b: Seq<V>,
    le: spec_fn(V, V) -> bool,
    p: Seq<int>,
    q: Seq<int>,
    i: int,
)
    requires
        sorts(s, a, le, p),
        sorts(s, b, le, q),
        0 <= i < s.len(),
    ensures
        p[i] == q[i],
    decreases i,
{
    assert forall|j: int| 0 <= j < i implies p[j] == q[j] by {
        lemma_orders_agree(s, a, b, le, p, q, j);
    }
    lemma_reordering_covers(q, s.len(), p[i]);
    lemma_reordering_covers(p, s.len(), q[i]);
    let k = choose|k: int| 0 <= k < q.len() && q[k] == p[i];
    let m = choose|m: int| 0 <= m < p.len() && p[m] == q[i];
    if k < i {
        assert(p[k] == q[k]);
    }
    if m < i {
        assert(p[m] == q[m]);
    }
}

/// There is one stable sort of a sequence.
pub proof fn law_stable_sort_is_unique<V>(
    s: Seq<V>,
    a: Seq<V>,
    b: Seq<V>,
    le: spec_fn(V, V) -> bool,
)
    requires
        is_stable_sort(s, a, le),
        is_stable_sort(s, b, le),
    ensures
        a == b,
{
    let p = choose|p: Seq<int>| sorts(s, a, le, p);
    let q = choose|q: Seq<int>| sorts(s, b, le, q);
    assert forall|i: int| 0 <= i < s.len() implies a[i] == b[i] by {
        lemma_orders_agree(s, a, b, le, p, q, i);
    }
    assert(a =~= b);
}

/// Where `x` goes in the sorted `s`: behind everything that comes no later.
fn place_of<T: Ranked>(s: &Vec<T>, x: &T) -> (at: usize)
    requires
        forall|i: int, j: int| 0 <= i < j < s@.len() ==> s@[i].ranked_le(&s@[j]),
    ensures
        at <= s@.len(),
        forall|i: int| 0 <= i < at ==> s@[i].ranked_le(x),
        forall|i: int| at <= i < s@.len() ==> !(#[trigger] s@[i].ranked_le(x)),
{
    let mut at: usize = s.len();
    while at > 0 && !s[at - 1].in_order(x)
        invariant
            at <= s@.len(),
            forall|i: int| at <= i < s@.len() ==> !(#[trigger] s@[i].ranked_le(x)),
        decreases at,
    {
        at = at - 1;
    }
    proof {
        if at > 0 {
            assert forall|i: int| 0 <= i < at implies s@[i].ranked_le(x) by {
                if i < at - 1 {
                    T::ranked_transitive(&s@[i], &s@[at - 1], x);
                }
            }
        }
    }
    at
}

proof fn lemma_insert_sorts<T: Ranked>(
    s: Seq<T>,
    out: Seq<T>,
    p: Seq<int>,
    x: T,
    at: int,
)
    requires
        sorts(s, out, rank_order::<T>(), p),
        0 <= at <= out.len(),
        forall|i: int| 0 <= i < at ==> out[i].ranked_le(&x),
        forall|i: int| at <= i < out.len() ==> !(#[trigger] out[i].ranked_le(&x)),
    ensures
        sorts(s.push(x), out.insert(at, x), rank_order::<T>(), p.insert(at, s.len() as int)),
{
    let le = rank_order::<T>();
    let n = s.len() as int;
    let s2 = s.push(x);
    let p2 = p.insert(at, n);
    let out2 = out.insert(at, x);
    assert forall|i: int| 0 <= i < s2.len() implies 0 <= #[trigger] p2[i] < s2.len() by {
        if i < at {
            assert(p2[i] == p[i]);
        } else if i > at {
            assert(p2[i] == p[i - 1]);
        }
    }
    assert forall|i: int, j: int| 0 <= i < j < s2.len() implies #[trigger] p2[i] != #[trigger] p2[j] by {
        let a = if i > at { i - 1 } else { i };
        let b = if j > at { j - 1 } else { j };
        if i != at {
            assert(p2[i] == p[a]);
        }
        if j != at {
            assert(p2[j] == p[b]);
        }
    }
    assert forall|i: int| 0 <= i < s2.len() implies #[trigger] out2[i] == s2[p2[i]] by {
        if i < at {
            assert(out2[i] == out[i] && p2[i] == p[i]);
        } else if i > at {
            assert(out2[i] == out[i - 1] && p2[i] == p[i - 1]);
        }
    }
    assert forall|i: int, j: int|
        #![trigger p2[i], p2[j]]
        0 <= i < j < s2.len() implies {
        &&& le(s2[p2[i]], s2[p2[j]])
        &&& le(s2[p2[j]], s2[p2[i]]) ==> p2[i] < p2[j]
    } by {
        let a = if i > at { i - 1 } else { i };
        let b = if j > at { j - 1 } else { j };
        if i != at {
            assert(p2[i] == p[a]);
            assert(out[a] == s[p[a]]);
        }
        if j != at {
            assert(p2[j] == p[b]);
            assert(out[b] == s[p[b]]);
        }
        if i == at {
            T::ranked_total(&x, &out[b]);
        }
    }
}

/// Sorts, keeping values that rank alike in the order they had.
pub fn stable_sort<T: Ranked>(values: Vec<T>) -> (out: Vec<T>)
    ensures
        is_stable_sort(values@, out@, rank_order::<T>()),
{
    let ghost s = values@;
    let mut out: Vec<T> = Vec::new();
    let ghost mut p: Seq<int> = Seq::empty();
    assert(sorts(s.take(0), out@, rank_order::<T>(), p));
    for x in it: values.into_iter()
        invariant
            it.seq() == s,
            sorts(s.take(it.index()), out@, rank_order::<T>(), p),
    {
        let ghost done = s.take(it.index());
        proof {
            assert forall|i: int, j: int| 0 <= i < j < out@.len() implies out@[i].ranked_le(
                &out@[j],
            ) by {
                assert(out@[i] == done[p[i]] && out@[j] == done[p[j]]);
            }
        }
        let at = place_of(&out, &x);
        let ghost before = out@;
        out.insert(at, x);
        proof {
            lemma_insert_sorts(done, before, p, x, at as int);
            p = p.insert(at as int, done.len() as int);
            assert(done.push(x) =~= s.take(it.index() + 1));
        }
    }
    assert(s.take(s.len() as int) =~= s);
    out
}

/// The elements of `s` whose key no earlier element has.
pub open spec fn firsts<T, K>(s: Seq<T>, key: spec_fn(T) -> K) -> Seq<T>
    decreases s.len(),
{
    if s.len() == 0 {
        Seq::empty()
    } else {
        let before = firsts(s.drop_last(), key);
        if has_key(before, key, key(s.last())) {
            before
        } else {
            before.push(s.last())
        }
    }
}

/// Whether an element of `s` has the key `k`.
pub open spec fn has_key<T, K>(s: Seq<T>, key: spec_fn(T) -> K, k: K) -> bool {
    exists|i: int| 0 <= i < s.len() && key(#[trigger] s[i]) == k
}

/// Keeping the first of each key is the same on what the elements stand for,
/// where the key reads nothing else.
pub proof fn lemma_firsts_of_images<T, V, K>(
    s: Seq<T>,
    key: spec_fn(T) -> K,
    image: spec_fn(T) -> V,
    image_key: spec_fn(V) -> K,
)
    requires
        forall|x: T| #[trigger] key(x) == image_key(image(x)),
    ensures
        firsts(s, key).map_values(image) == firsts(s.map_values(image), image_key),
    decreases s.len(),
{
    let images = s.map_values(image);
    if s.len() > 0 {
        let front = s.drop_last();
        lemma_firsts_of_images(front, key, image, image_key);
        assert(images.drop_last() =~= front.map_values(image));
        let (before, after) = (firsts(front, key), firsts(images.drop_last(), image_key));
        let k = key(s.last());
        if has_key(before, key, k) {
            let i = choose|i: int| 0 <= i < before.len() && key(#[trigger] before[i]) == k;
            assert(image_key(after[i]) == k);
        }
        if has_key(after, image_key, k) {
            let i = choose|i: int| 0 <= i < after.len() && image_key(#[trigger] after[i]) == k;
            assert(key(before[i]) == k);
        }
        assert(firsts(s, key).map_values(image) =~= firsts(images, image_key));
    } else {
        assert(firsts(s, key).map_values(image) =~= firsts(images, image_key));
    }
}

/// Keeping the first element of each key leaves each key once, and loses none.
pub proof fn law_firsts_keep_each_key_once<T, K>(s: Seq<T>, key: spec_fn(T) -> K)
    ensures
        forall|i: int, j: int|
            0 <= i < j < firsts(s, key).len() ==> key(#[trigger] firsts(s, key)[i]) != key(
                #[trigger] firsts(s, key)[j],
            ),
        forall|k: K| #[trigger] has_key(firsts(s, key), key, k) == has_key(s, key, k),
    decreases s.len(),
{
    if s.len() > 0 {
        let front = s.drop_last();
        let before = firsts(front, key);
        let all = firsts(s, key);
        law_firsts_keep_each_key_once(front, key);
        assert forall|k: K| #[trigger] has_key(all, key, k) == has_key(s, key, k) by {
            assert(has_key(before, key, k) == has_key(front, key, k));
            if has_key(s, key, k) {
                let i = choose|i: int| 0 <= i < s.len() && key(#[trigger] s[i]) == k;
                if i < front.len() {
                    assert(key(front[i]) == k);
                    let m = choose|m: int| 0 <= m < before.len() && key(#[trigger] before[m]) == k;
                    assert(all[m] == before[m]);
                } else if has_key(before, key, k) {
                    let m = choose|m: int| 0 <= m < before.len() && key(#[trigger] before[m]) == k;
                    assert(all[m] == before[m]);
                } else {
                    assert(key(all[all.len() - 1]) == k);
                }
            }
            if has_key(all, key, k) {
                let m = choose|m: int| 0 <= m < all.len() && key(#[trigger] all[m]) == k;
                if m < before.len() {
                    assert(key(before[m]) == k);
                    let i = choose|i: int| 0 <= i < front.len() && key(#[trigger] front[i]) == k;
                    assert(s[i] == front[i]);
                } else {
                    assert(key(s[s.len() - 1]) == k);
                }
            }
        }
        assert forall|i: int, j: int| 0 <= i < j < all.len() implies key(#[trigger] all[i]) != key(
            #[trigger] all[j],
        ) by {
            if j < before.len() {
                assert(all[i] == before[i] && all[j] == before[j]);
            } else {
                assert(all[i] == before[i]);
            }
        }
    }
}

/// Keeping the first element of each key adds none.
pub proof fn lemma_firsts_are_few<T, K>(s: Seq<T>, key: spec_fn(T) -> K)
    ensures
        firsts(s, key).len() <= s.len(),
    decreases s.len(),
{
    if s.len() > 0 {
        lemma_firsts_are_few(s.drop_last(), key);
    }
}

/// The element that is kept for a key is the first that has it.
pub proof fn law_firsts_come_first<T, K>(s: Seq<T>, key: spec_fn(T) -> K, i: int)
    requires
        0 <= i < firsts(s, key).len(),
    ensures
        exists|j: int|
            0 <= j < s.len() && firsts(s, key)[i] == #[trigger] s[j] && !has_key(
                s.take(j),
                key,
                key(s[j]),
            ),
    decreases s.len(),
{
    let front = s.drop_last();
    let before = firsts(front, key);
    if i < before.len() {
        law_firsts_come_first(front, key, i);
        let j = choose|j: int|
            0 <= j < front.len() && before[i] == #[trigger] front[j] && !has_key(
                front.take(j),
                key,
                key(front[j]),
            );
        assert(front.take(j) =~= s.take(j));
        assert(s[j] == front[j]);
    } else {
        law_firsts_keep_each_key_once(front, key);
        let j = s.len() - 1;
        assert(s.take(j) =~= front);
        assert(s[j] == s.last());
        assert(has_key(before, key, key(s.last())) == has_key(front, key, key(s.last())));
    }
}

/// A stable sort holds the elements of what it sorts, and no others.
pub proof fn law_sort_keeps_elements<V>(s: Seq<V>, out: Seq<V>, le: spec_fn(V, V) -> bool, x: V)
    requires
        is_stable_sort(s, out, le),
    ensures
        out.contains(x) == s.contains(x),
        out.len() == s.len(),
{
    let p = choose|p: Seq<int>| sorts(s, out, le, p);
    if s.contains(x) {
        let i = choose|i: int| 0 <= i < s.len() && s[i] == x;
        lemma_reordering_covers(p, s.len(), i);
        let k = choose|k: int| 0 <= k < p.len() && p[k] == i;
        assert(out[k] == x);
    }
    if out.contains(x) {
        let k = choose|k: int| 0 <= k < out.len() && out[k] == x;
        assert(out[k] == s[p[k]]);
    }
}

/// A stable sort is in order.
pub proof fn law_sort_is_in_order<V>(s: Seq<V>, out: Seq<V>, le: spec_fn(V, V) -> bool)
    requires
        is_stable_sort(s, out, le),
    ensures
        forall|i: int, j: int| 0 <= i < j < out.len() ==> le(#[trigger] out[i], #[trigger] out[j]),
{
    let p = choose|p: Seq<int>| sorts(s, out, le, p);
    assert forall|i: int, j: int| 0 <= i < j < out.len() implies le(
        #[trigger] out[i],
        #[trigger] out[j],
    ) by {
        assert(out[i] == s[p[i]] && out[j] == s[p[j]]);
    }
}

/// Two sequences in strict order with the same elements are the same.
pub proof fn lemma_strict_order_determines<V>(
    a: Seq<V>,
    b: Seq<V>,
    le: spec_fn(V, V) -> bool,
)
    requires
        forall|x: V, y: V| #[trigger] le(x, y) && le(y, x) ==> x == y,
        forall|i: int, j: int|
            0 <= i < j < a.len() ==> le(#[trigger] a[i], #[trigger] a[j]) && a[i] != a[j],
        forall|i: int, j: int|
            0 <= i < j < b.len() ==> le(#[trigger] b[i], #[trigger] b[j]) && b[i] != b[j],
        forall|x: V| #[trigger] a.contains(x) == b.contains(x),
    ensures
        a == b,
    decreases a.len(),
{
    if a.len() == 0 {
        if b.len() > 0 {
            assert(b.contains(b[0]));
            assert(a.contains(b[0]));
        }
        assert(a =~= b);
    } else {
        assert(a.contains(a[0]));
        assert(b.contains(a[0]));
        let k = choose|k: int| 0 <= k < b.len() && b[k] == a[0];
        assert(b.contains(b[0]));
        assert(a.contains(b[0]));
        let m = choose|m: int| 0 <= m < a.len() && a[m] == b[0];
        assert(a[0] == b[0]) by {
            if k > 0 && m > 0 {
                assert(le(b[0], b[k]));
                assert(le(a[0], a[m]));
            }
        }
        let (x, y) = (a.drop_first(), b.drop_first());
        assert forall|v: V| #[trigger] x.contains(v) == y.contains(v) by {
            if x.contains(v) {
                let i = choose|i: int| 0 <= i < x.len() && x[i] == v;
                assert(a[i + 1] == v && a[0] != a[i + 1]);
                assert(a.contains(v));
                assert(b.contains(v));
                let j = choose|j: int| 0 <= j < b.len() && b[j] == v;
                assert(y[j - 1] == v);
            }
            if y.contains(v) {
                let i = choose|i: int| 0 <= i < y.len() && y[i] == v;
                assert(b[i + 1] == v && b[0] != b[i + 1]);
                assert(b.contains(v));
                assert(a.contains(v));
                let j = choose|j: int| 0 <= j < a.len() && a[j] == v;
                assert(x[j - 1] == v);
            }
        }
        lemma_strict_order_determines(x, y, le);
        assert(a =~= seq![a[0]] + x);
        assert(b =~= seq![b[0]] + y);
    }
}

/// Keeping the first element of each key keeps the order.
pub proof fn lemma_firsts_in_order<T, K>(
    s: Seq<T>,
    key: spec_fn(T) -> K,
    le: spec_fn(T, T) -> bool,
)
    requires
        forall|i: int, j: int| 0 <= i < j < s.len() ==> le(#[trigger] s[i], #[trigger] s[j]),
    ensures
        forall|i: int, j: int|
            0 <= i < j < firsts(s, key).len() ==> le(
                #[trigger] firsts(s, key)[i],
                #[trigger] firsts(s, key)[j],
            ),
        forall|i: int| 0 <= i < firsts(s, key).len() ==> s.contains(#[trigger] firsts(s, key)[i]),
    decreases s.len(),
{
    if s.len() > 0 {
        let front = s.drop_last();
        let before = firsts(front, key);
        let all = firsts(s, key);
        assert forall|i: int, j: int| 0 <= i < j < front.len() implies le(
            #[trigger] front[i],
            #[trigger] front[j],
        ) by {
            assert(front[i] == s[i] && front[j] == s[j]);
        }
        lemma_firsts_in_order(front, key, le);
        assert forall|i: int| 0 <= i < all.len() implies s.contains(#[trigger] all[i]) by {
            if i < before.len() {
                assert(all[i] == before[i]);
                let k = choose|k: int| 0 <= k < front.len() && front[k] == before[i];
                assert(s[k] == all[i]);
            } else {
                assert(s[s.len() - 1] == all[i]);
            }
        }
        assert forall|i: int, j: int| 0 <= i < j < all.len() implies le(
            #[trigger] all[i],
            #[trigger] all[j],
        ) by {
            assert(all[i] == before[i]);
            if j < before.len() {
                assert(all[j] == before[j]);
            } else {
                assert(front.contains(before[i]));
                let k = choose|k: int| 0 <= k < front.len() && front[k] == before[i];
                assert(s[k] == all[i] && s[s.len() - 1] == all[j]);
            }
        }
    }
}

/// The first place where two sequences differ decides, whatever follows, and
/// what leads another comes before it.
pub proof fn law_first_difference_decides<T>(
    common: Seq<T>,
    x: T,
    y: T,
    a: Seq<T>,
    b: Seq<T>,
    le: spec_fn(T, T) -> bool,
)
    requires
        x != y,
    ensures
        lex_le(common.push(x) + a, common.push(y) + b, le) == le(x, y),
        lex_le(common, common + b, le),
        !lex_le(common.push(x) + a, common, le),
    decreases common.len(),
{
    let (s, t) = (common.push(x) + a, common.push(y) + b);
    if common.len() > 0 {
        let rest = common.drop_first();
        law_first_difference_decides(rest, x, y, a, b, le);
        assert(s.drop_first() =~= rest.push(x) + a);
        assert(t.drop_first() =~= rest.push(y) + b);
        assert((common + b).drop_first() =~= rest + b);
        assert(s.first() == common[0] && t.first() == common[0]);
        assert((common + b).first() == common[0]);
    } else {
        assert(s.first() == x && t.first() == y);
    }
}

/// Bytes rank by their value and characters by their code point, at the first
/// place where they differ.
pub proof fn law_bytes_and_text_rank_by_value(
    bytes: Seq<u8>,
    x: u8,
    y: u8,
    a: Seq<u8>,
    b: Seq<u8>,
    chars: Seq<char>,
    c: char,
    d: char,
    e: Seq<char>,
    f: Seq<char>,
)
    ensures
        x != y ==> (bytes_le(bytes.push(x) + a, bytes.push(y) + b) <==> x < y),
        bytes_le(bytes, bytes + b),
        !bytes_le(bytes.push(x) + a, bytes),
        c != d ==> (text_le(chars.push(c) + e, chars.push(d) + f) <==> (c as u32) < (d as u32)),
        text_le(chars, chars + f),
        !text_le(chars.push(c) + e, chars),
{
    let other: u8 = if x == 0 { 1 } else { 0 };
    law_first_difference_decides(bytes, x, other, a, b, byte_order());
    if x != y {
        law_first_difference_decides(bytes, x, y, a, b, byte_order());
    }
    let letter: char = if c == 'a' { 'b' } else { 'a' };
    law_first_difference_decides(chars, c, letter, e, f, char_order());
    if c != d {
        law_first_difference_decides(chars, c, d, e, f, char_order());
        vstd::utf8::char_u32_cast(c, c as u32);
        vstd::utf8::char_u32_cast(d, d as u32);
    }
}

/// What is kept of each key is its first, in the order met: one more element
/// comes behind the others where its key is new, and changes nothing else.
pub proof fn law_firsts_grow<T, K>(s: Seq<T>, x: T, key: spec_fn(T) -> K)
    ensures
        firsts(Seq::<T>::empty(), key).len() == 0,
        (forall|i: int| 0 <= i < s.len() ==> key(#[trigger] s[i]) != key(x)) ==> firsts(
            s.push(x),
            key,
        ) == firsts(s, key).push(x),
        (exists|i: int| 0 <= i < s.len() && key(#[trigger] s[i]) == key(x)) ==> firsts(
            s.push(x),
            key,
        ) == firsts(s, key),
{
    assert(s.push(x).drop_last() =~= s);
    law_firsts_keep_each_key_once(s, key);
    if exists|i: int| 0 <= i < s.len() && key(#[trigger] s[i]) == key(x) {
        assert(has_key(s, key, key(x)));
    } else {
        assert(!has_key(s, key, key(x)));
    }
}

} // verus!
