//! Disk usage and newest modification of a directory tree.
//!
//! The size matches `du`: allocated blocks, each inode counted once. A walk
//! hands over the metadata of one directory listing at a time, in any order.

use std::collections::HashSet;

use vstd::prelude::*;

use crate::path::FsPath;

verus! {

/// A fresh size reading for one watched directory.
#[derive(Clone, Debug)]
pub struct Measurement {
    pub target_dir: FsPath,
    pub size: u64,
    /// Newest modification found, in nanoseconds since the epoch, or `None`
    /// when the directory is gone.
    pub last_modified: Option<u64>,
}

/// The space that a file takes.
#[derive(Clone, Copy, Debug, PartialEq, Eq, Structural)]
pub enum DiskUsage {
    /// Allocated blocks of 512 bytes.
    Blocks(u64),
    /// Length in bytes, where the platform tells no blocks.
    Length(u64),
}

/// What is read of one file, directory or link. Links are not followed.
#[derive(Clone, Copy, Debug)]
pub struct FileMeta {
    pub is_dir: bool,
    /// How many names the inode has.
    pub links: u64,
    /// Device and inode number, where the platform tells them.
    pub inode: Option<(u64, u64)>,
    pub usage: DiskUsage,
    /// Modification time in nanoseconds since the epoch.
    pub modified_ns: u64,
}

/// What is known of the path to measure before its tree is walked.
#[derive(Clone, Copy, Debug)]
pub struct RootProbe {
    pub exists: bool,
    pub is_symlink: bool,
    /// Its own metadata, where it could be read.
    pub meta: Option<FileMeta>,
}

/// A running total over metadata: bytes, newest modification, and the inodes
/// with several names that are counted already.
#[verifier::ext_equal]
pub struct Tally {
    pub bytes: int,
    pub newest: int,
    pub seen: Set<(u64, u64)>,
}

pub open spec fn usage_bytes(usage: DiskUsage) -> int {
    match usage {
        DiskUsage::Blocks(n) => n * 512,
        DiskUsage::Length(n) => n as int,
    }
}

/// The identity of an inode that can turn up again: a file with more names.
pub open spec fn shared_inode(md: FileMeta) -> Option<(u64, u64)> {
    if !md.is_dir && md.links > 1 {
        md.inode
    } else {
        None
    }
}

/// Whether `md` is a further name of an inode in `seen`.
pub open spec fn is_repeat(seen: Set<(u64, u64)>, md: FileMeta) -> bool {
    shared_inode(md) matches Some(inode) && seen.contains(inode)
}

pub open spec fn larger(a: int, b: int) -> int {
    if a >= b {
        a
    } else {
        b
    }
}

/// One more file: a repeat counts nothing.
pub open spec fn tally_step(t: Tally, md: FileMeta) -> Tally {
    if is_repeat(t.seen, md) {
        t
    } else {
        Tally {
            bytes: t.bytes + usage_bytes(md.usage),
            newest: larger(t.newest, md.modified_ns as int),
            seen: match shared_inode(md) {
                Some(inode) => t.seen.insert(inode),
                None => t.seen,
            },
        }
    }
}

/// All of `metas`, from left to right.
pub open spec fn tally(start: Tally, metas: Seq<FileMeta>) -> Tally
    decreases metas.len(),
{
    if metas.len() == 0 {
        start
    } else {
        tally_step(tally(start, metas.drop_last()), metas.last())
    }
}

/// Nothing counted yet, but the inodes `seen` are known.
pub open spec fn fresh(seen: Set<(u64, u64)>) -> Tally {
    Tally { bytes: 0, newest: 0, seen }
}

/// The places of the directories among `metas`, in order.
pub open spec fn dir_places(metas: Seq<FileMeta>) -> Seq<int>
    decreases metas.len(),
{
    if metas.len() == 0 {
        Seq::empty()
    } else {
        let before = dir_places(metas.drop_last());
        if metas.last().is_dir {
            before.push(metas.len() - 1)
        } else {
            before
        }
    }
}

/// The metadata of all listings, one behind the other.
pub open spec fn flatten(listings: Seq<Vec<FileMeta>>) -> Seq<FileMeta>
    decreases listings.len(),
{
    if listings.len() == 0 {
        Seq::empty()
    } else {
        flatten(listings.drop_last()) + listings.last()@
    }
}

/// 64-bit sums wrap around.
pub open spec fn wrapped(n: int) -> int {
    n % 0x1_0000_0000_0000_0000
}

pub open spec fn inode_key(inode: (u64, u64)) -> int {
    inode.0 * 0x1_0000_0000_0000_0000 + inode.1
}

/// The accumulators for one tree walk.
#[derive(Debug)]
pub struct ScanState {
    pub total: u64,
    pub newest_ns: u64,
    pub seen: HashSet<u128>,
}

impl DiskUsage {
    /// The space in bytes.
    pub fn bytes(self) -> (r: u64)
        requires
            usage_bytes(self) <= u64::MAX,
        ensures
            r == usage_bytes(self),
    {
        match self {
            DiskUsage::Blocks(n) => n * 512,
            DiskUsage::Length(n) => n,
        }
    }
}

impl ScanState {
    /// The inodes with several names that are counted already.
    pub open spec fn seen_inodes(&self) -> Set<(u64, u64)> {
        Set::new(|inode: (u64, u64)| self.seen@.contains(inode_key(inode) as u128))
    }

    /// Nothing counted yet.
    pub fn new() -> (r: ScanState)
        ensures
            r.total == 0,
            r.newest_ns == 0,
            r.seen_inodes() == Set::<(u64, u64)>::empty(),
    {
        let r = ScanState { total: 0, newest_ns: 0, seen: HashSet::new() };
        assert(r.seen_inodes() =~= Set::<(u64, u64)>::empty());
        r
    }

    /// Folds one entry into the batch `acc` of bytes and newest modification.
    /// Returns `false` for a repeated hard link, which counts nothing.
    pub fn claim(&mut self, md: &FileMeta, acc: &mut (u64, u64)) -> (counted: bool)
        requires
            !is_repeat(old(self).seen_inodes(), *md) ==> old(acc).0 + usage_bytes(md.usage)
                <= u64::MAX,
        ensures
            counted == !is_repeat(old(self).seen_inodes(), *md),
            final(self).total == old(self).total,
            final(self).newest_ns == old(self).newest_ns,
            ({
                let before = Tally {
                    bytes: old(acc).0 as int,
                    newest: old(acc).1 as int,
                    seen: old(self).seen_inodes(),
                };
                let after = Tally {
                    bytes: final(acc).0 as int,
                    newest: final(acc).1 as int,
                    seen: final(self).seen_inodes(),
                };
                after == tally_step(before, *md)
            }),
    {
        if !md.is_dir && md.links > 1 {
            match md.inode {
                Some((dev, ino)) => {
                    let key: u128 = (dev as u128) * 0x1_0000_0000_0000_0000 + (ino as u128);
                    assert(key == inode_key((dev, ino)));
                    let ghost before = self.seen_inodes();
                    assert(before.contains((dev, ino)) == old(self).seen@.contains(key));
                    let fresh = self.seen.insert(key);
                    proof {
                        let after = self.seen_inodes();
                        assert forall|inode: (u64, u64)| after.contains(inode) == before.insert(
                            (dev, ino),
                        ).contains(inode) by {
                            if inode_key(inode) == inode_key((dev, ino)) {
                                assert(inode.0 == dev && inode.1 == ino);
                            }
                        }
                        assert(after =~= before.insert((dev, ino)));
                        if !fresh {
                            assert(after =~= before);
                        }
                    }
                    if !fresh {
                        return false;
                    }
                },
                None => {},
            }
        }
        acc.0 = acc.0 + md.usage.bytes();
        if md.modified_ns > acc.1 {
            acc.1 = md.modified_ns;
        }
        true
    }

    /// Adds a batch to the totals.
    pub fn publish(&mut self, acc: (u64, u64))
        ensures
            final(self).total == wrapped(old(self).total + acc.0),
            final(self).newest_ns == larger(old(self).newest_ns as int, acc.1 as int),
            final(self).seen_inodes() == old(self).seen_inodes(),
    {
        self.total = self.total.wrapping_add(acc.0);
        if acc.1 > self.newest_ns {
            self.newest_ns = acc.1;
        }
    }

    /// The size and the newest modification.
    pub fn finish(&self) -> (r: (u64, Option<u64>))
        ensures
            r == (self.total, Some(self.newest_ns)),
    {
        (self.total, Some(self.newest_ns))
    }

    /// Takes one directory listing in. Returns the places of the entries to
    /// descend into: the directories among them.
    pub fn scan_dir(&mut self, listing: &Vec<FileMeta>) -> (subdirs: Vec<usize>)
        requires
            tally(fresh(old(self).seen_inodes()), listing@).bytes <= u64::MAX,
        ensures
            takes_in(*old(self), listing@, *final(self)),
            subdirs@.map_values(|i: usize| i as int) == dir_places(listing@),
    {
        let mut acc: (u64, u64) = (0, 0);
        let mut subdirs: Vec<usize> = Vec::new();
        let ghost start = fresh(self.seen_inodes());
        let mut i: usize = 0;
        assert(subdirs@.map_values(|i: usize| i as int) =~= dir_places(listing@.take(0)));
        while i < listing.len()
            invariant
                i <= listing@.len(),
                tally(start, listing@).bytes <= u64::MAX,
                self.total == old(self).total,
                self.newest_ns == old(self).newest_ns,
                tally(start, listing@.take(i as int)) == (Tally {
                    bytes: acc.0 as int,
                    newest: acc.1 as int,
                    seen: self.seen_inodes(),
                }),
                subdirs@.map_values(|i: usize| i as int) == dir_places(listing@.take(i as int)),
            decreases listing@.len() - i,
        {
            let ghost next = listing@.take(i + 1);
            assert(next.drop_last() =~= listing@.take(i as int));
            proof {
                lemma_tally_grows(start, listing@, i + 1);
            }
            let counted = self.claim(&listing[i], &mut acc);
            if counted && listing[i].is_dir {
                let ghost before = subdirs@;
                subdirs.push(i);
                assert(subdirs@.map_values(|i: usize| i as int) =~= before.map_values(
                    |i: usize| i as int,
                ).push(i as int));
            }
            i = i + 1;
        }
        assert(listing@.take(i as int) =~= listing@);
        self.publish(acc);
        subdirs
    }

    /// Starts a walk: nothing is measured of a path that is missing or a
    /// link, else its own entry is counted first.
    pub fn begin(root: &RootProbe) -> (r: Option<ScanState>)
        requires
            is_measured(*root) ==> (root.meta matches Some(md) ==> usage_bytes(md.usage)
                <= u64::MAX),
        ensures
            r is Some <==> is_measured(*root),
            r matches Some(state) ==> starts(*root, state),
    {
        if !root.exists || root.is_symlink {
            return None;
        }
        let mut state = ScanState::new();
        match &root.meta {
            Some(md) => {
                let mut acc: (u64, u64) = (0, 0);
                let _ = state.claim(md, &mut acc);
                state.publish(acc);
                assert(root_entry(*root).drop_last() =~= Seq::<FileMeta>::empty());
                assert(tally(fresh(Set::empty()), root_entry(*root).drop_last()) == fresh(
                    Set::empty(),
                ));
            },
            None => {},
        }
        Some(state)
    }
}

/// The path is there and is no link, so its tree is measured.
pub open spec fn is_measured(root: RootProbe) -> bool {
    root.exists && !root.is_symlink
}

/// The entry of the root itself.
pub open spec fn root_entry(root: RootProbe) -> Seq<FileMeta> {
    match root.meta {
        Some(md) => seq![md],
        None => Seq::empty(),
    }
}

/// `state` has counted the entry of the root itself.
pub open spec fn starts(root: RootProbe, state: ScanState) -> bool {
    let own = tally(fresh(Set::empty()), root_entry(root));
    &&& state.total == own.bytes
    &&& state.newest_ns == own.newest
    &&& state.seen_inodes() == own.seen
}

/// `after` is `before` with one directory listing taken in.
pub open spec fn takes_in(before: ScanState, listing: Seq<FileMeta>, after: ScanState) -> bool {
    let batch = tally(fresh(before.seen_inodes()), listing);
    &&& after.total == wrapped(before.total + batch.bytes)
    &&& after.newest_ns == larger(before.newest_ns as int, batch.newest)
    &&& after.seen_inodes() == batch.seen
}

/// All entries of a tree, the root in front.
pub open spec fn entries(root: RootProbe, listings: Seq<Vec<FileMeta>>) -> Seq<FileMeta> {
    root_entry(root) + flatten(listings)
}

/// The size and the newest modification of a tree.
pub open spec fn tree_reading(root: RootProbe, listings: Seq<Vec<FileMeta>>) -> (u64, Option<u64>) {
    if is_measured(root) {
        let all = tally(fresh(Set::empty()), entries(root, listings));
        (wrapped(all.bytes) as u64, Some(all.newest as u64))
    } else {
        (0u64, None::<u64>)
    }
}

/// What a walk has come to, nothing where there was none.
pub open spec fn walk_reading(walk: Option<ScanState>) -> (u64, Option<u64>) {
    match walk {
        Some(state) => (state.total, Some(state.newest_ns)),
        None => (0u64, None::<u64>),
    }
}

/// The first `i` of the entries come to no more than all of them.
proof fn lemma_tally_grows(start: Tally, metas: Seq<FileMeta>, i: int)
    requires
        0 <= i <= metas.len(),
    ensures
        tally(start, metas.take(i)).bytes <= tally(start, metas).bytes,
        tally(start, metas.take(i)).newest <= tally(start, metas).newest,
    decreases metas.len(),
{
    if i < metas.len() {
        lemma_tally_grows(start, metas.drop_last(), i);
        assert(metas.drop_last().take(i) =~= metas.take(i));
    } else {
        assert(metas.take(i) =~= metas);
    }
}

/// Counting in batches is counting at once.
pub proof fn law_batches_add_up(start: Tally, a: Seq<FileMeta>, b: Seq<FileMeta>)
    ensures
        tally(start, a + b) == tally(tally(start, a), b),
    decreases b.len(),
{
    if b.len() == 0 {
        assert(a + b =~= a);
    } else {
        law_batches_add_up(start, a, b.drop_last());
        assert((a + b).drop_last() =~= a + b.drop_last());
    }
}

/// A batch that starts from nothing but the inodes seen so far adds what it
/// would add behind everything counted so far.
pub proof fn law_fresh_batch_adds(t: Tally, metas: Seq<FileMeta>)
    requires
        t.newest >= 0,
    ensures
        tally(t, metas).bytes == t.bytes + tally(fresh(t.seen), metas).bytes,
        tally(t, metas).newest == larger(t.newest, tally(fresh(t.seen), metas).newest),
        tally(t, metas).seen == tally(fresh(t.seen), metas).seen,
    decreases metas.len(),
{
    if metas.len() > 0 {
        law_fresh_batch_adds(t, metas.drop_last());
    }
}

/// Two names of one inode tell the same of it.
pub open spec fn consistent(metas: Seq<FileMeta>) -> bool {
    forall|i: int, j: int|
        0 <= i < metas.len() && 0 <= j < metas.len() && shared_inode(#[trigger] metas[i]) is Some
            && shared_inode(metas[i]) == shared_inode(#[trigger] metas[j]) ==> metas[i].usage
            == metas[j].usage && metas[i].modified_ns == metas[j].modified_ns
}

proof fn lemma_steps_commute(t: Tally, x: FileMeta, y: FileMeta)
    requires
        shared_inode(x) is Some && shared_inode(x) == shared_inode(y) ==> x.usage == y.usage
            && x.modified_ns == y.modified_ns,
    ensures
        tally_step(tally_step(t, x), y) == tally_step(tally_step(t, y), x),
{
    let xy = tally_step(tally_step(t, x), y);
    let yx = tally_step(tally_step(t, y), x);
    assert(xy.seen =~= yx.seen);
    assert(xy =~= yx);
}

/// The last entry can as well be counted first.
proof fn lemma_last_to_front(start: Tally, metas: Seq<FileMeta>, x: FileMeta)
    requires
        consistent(metas.push(x)),
    ensures
        tally(start, metas.push(x)) == tally(tally_step(start, x), metas),
    decreases metas.len(),
{
    assert(metas.push(x).drop_last() =~= metas);
    if metas.len() > 0 {
        let front = metas.drop_last();
        let y = metas.last();
        let all = metas.push(x);
        assert(all[metas.len() as int] == x && all[metas.len() - 1] == y);
        assert(consistent(front.push(x))) by {
            let part = front.push(x);
            assert forall|i: int, j: int|
                0 <= i < part.len() && 0 <= j < part.len() && shared_inode(#[trigger] part[i]) is Some
                    && shared_inode(part[i]) == shared_inode(#[trigger] part[j]) implies part[i].usage
                == part[j].usage && part[i].modified_ns == part[j].modified_ns by {
                let a = if i < front.len() { i } else { metas.len() as int };
                let b = if j < front.len() { j } else { metas.len() as int };
                assert(all[a] == part[i] && all[b] == part[j]);
            }
        }
        lemma_last_to_front(start, front, x);
        lemma_steps_commute(tally(start, front), x, y);
        assert(front.push(x).drop_last() =~= front);
        assert(tally(start, front.push(x)) == tally_step(tally(start, front), x));
        assert(tally(tally_step(start, x), metas) == tally_step(
            tally(tally_step(start, x), front),
            y,
        ));
        assert(tally(start, metas) == tally_step(tally(start, front), y));
        assert(tally(start, metas.push(x)) == tally_step(tally(start, metas), x));
    } else {
        assert(tally(start, metas) == start);
        assert(tally(start, metas.push(x)) == tally_step(start, x));
    }
}

proof fn lemma_consistent_within(a: Seq<FileMeta>, b: Seq<FileMeta>)
    requires
        consistent(b),
        forall|i: int| 0 <= i < a.len() ==> b.contains(#[trigger] a[i]),
    ensures
        consistent(a),
{
    assert forall|i: int, j: int|
        0 <= i < a.len() && 0 <= j < a.len() && shared_inode(#[trigger] a[i]) is Some
            && shared_inode(a[i]) == shared_inode(#[trigger] a[j]) implies a[i].usage == a[j].usage
        && a[i].modified_ns == a[j].modified_ns by {
        let k = choose|k: int| 0 <= k < b.len() && b[k] == a[i];
        let m = choose|m: int| 0 <= m < b.len() && b[m] == a[j];
        assert(b[k] == a[i] && b[m] == a[j]);
    }
}

/// Each inode counts once, whichever of its names is met first: the order in
/// which entries are met does not matter.
pub proof fn law_order_does_not_matter(start: Tally, a: Seq<FileMeta>, b: Seq<FileMeta>)
    requires
        a.to_multiset() == b.to_multiset(),
        consistent(a),
    ensures
        tally(start, a) == tally(start, b),
    decreases a.len(),
{
    broadcast use vstd::seq_lib::group_to_multiset_ensures;

    assert(a.len() == b.len()) by {
        assert(a.to_multiset().len() == a.len());
        assert(b.to_multiset().len() == b.len());
    }
    if a.len() > 0 {
        let x = b.last();
        assert(b.contains(b[b.len() - 1]));
        assert(b.to_multiset().count(x) > 0);
        assert(a.contains(x));
        let k = choose|k: int| 0 <= k < a.len() && a[k] == x;
        let left = a.take(k);
        let right = a.skip(k + 1);
        assert(a =~= left + (seq![x] + right));
        assert(a =~= (left.push(x)) + right);
        let rest = left + right;
        assert(a.remove(k) =~= rest);
        assert(rest.to_multiset() =~= a.to_multiset().remove(x));
        let front = b.drop_last();
        assert(front.push(x) =~= b);
        assert(b.remove(b.len() - 1) =~= front);
        assert(front.to_multiset() =~= b.to_multiset().remove(x));
        // Counting `x` first on both sides leaves the same entries to count.
        lemma_consistent_within(left.push(x), a);
        assert(forall|i: int| 0 <= i < right.len() ==> a.contains(#[trigger] right[i])) by {
            assert forall|i: int| 0 <= i < right.len() implies a.contains(#[trigger] right[i]) by {
                assert(a[k + 1 + i] == right[i]);
            }
        }
        law_batches_add_up(start, left.push(x), right);
        lemma_last_to_front(start, left, x);
        law_batches_add_up(tally_step(start, x), left, right);
        assert forall|i: int| 0 <= i < b.len() implies a.contains(#[trigger] b[i]) by {
            assert(b.contains(b[i]));
            assert(b.to_multiset().count(b[i]) > 0);
        }
        lemma_consistent_within(b, a);
        lemma_last_to_front(start, front, x);
        assert forall|i: int| 0 <= i < rest.len() implies a.contains(#[trigger] rest[i]) by {
            if i < left.len() {
                assert(a[i] == rest[i]);
            } else {
                assert(a[i + 1] == rest[i]);
            }
        }
        lemma_consistent_within(rest, a);
        law_order_does_not_matter(tally_step(start, x), rest, front);
    }
}

/// An inode with several names is known once one of them is counted.
proof fn lemma_seen_after(start: Tally, metas: Seq<FileMeta>, i: int)
    requires
        0 <= i < metas.len(),
        shared_inode(metas[i]) is Some,
    ensures
        tally(start, metas).seen.contains(shared_inode(metas[i])->0),
    decreases metas.len(),
{
    if i < metas.len() - 1 {
        lemma_seen_after(start, metas.drop_last(), i);
    }
}

/// A further name of an inode that is counted already counts nothing.
pub proof fn law_repeated_link_counts_nothing(
    start: Tally,
    metas: Seq<FileMeta>,
    i: int,
    link: FileMeta,
)
    requires
        0 <= i < metas.len(),
        shared_inode(metas[i]) is Some,
        shared_inode(link) == shared_inode(metas[i]),
    ensures
        tally(start, metas.push(link)) == tally(start, metas),
{
    lemma_seen_after(start, metas, i);
    assert(metas.push(link).drop_last() =~= metas);
}

proof fn lemma_wrapped_sum(a: int, b: int)
    ensures
        wrapped(wrapped(a) + b) == wrapped(a + b),
{
    vstd::arithmetic::div_mod::lemma_add_mod_noop(a, b, 0x1_0000_0000_0000_0000);
    vstd::arithmetic::div_mod::lemma_add_mod_noop(wrapped(a), b, 0x1_0000_0000_0000_0000);
    vstd::arithmetic::div_mod::lemma_mod_twice(a, 0x1_0000_0000_0000_0000);
}

/// The inodes seen once the first `i` listings are taken in.
pub open spec fn seen_before(
    root: RootProbe,
    listings: Seq<Vec<FileMeta>>,
    i: int,
) -> Set<(u64, u64)> {
    tally(fresh(Set::empty()), entries(root, listings.take(i))).seen
}

/// The whole measurement of a tree from the listings that were read of it.
/// Missing paths measure empty with no timestamp.
pub fn recursive_scan_target(root: &RootProbe, listings: &Vec<Vec<FileMeta>>) -> (r: (
    u64,
    Option<u64>,
))
    requires
        is_measured(*root) ==> (root.meta matches Some(md) ==> usage_bytes(md.usage) <= u64::MAX),
        forall|i: int|
            is_measured(*root) && 0 <= i < listings@.len() ==> tally(
                fresh(seen_before(*root, listings@, i)),
                (#[trigger] listings@[i])@,
            ).bytes <= u64::MAX,
    ensures
        r == tree_reading(*root, listings@),
{
    let mut state = match ScanState::begin(root) {
        Some(state) => state,
        None => {
            return (0, None);
        },
    };
    let mut i: usize = 0;
    assert(entries(*root, listings@.take(0)) =~= root_entry(*root));
    while i < listings.len()
        invariant
            i <= listings@.len(),
            forall|i: int|
                0 <= i < listings@.len() ==> tally(
                    fresh(seen_before(*root, listings@, i)),
                    (#[trigger] listings@[i])@,
                ).bytes <= u64::MAX,
            ({
                let so_far = tally(
                    fresh(Set::empty()),
                    entries(*root, listings@.take(i as int)),
                );
                &&& state.total == wrapped(so_far.bytes)
                &&& state.newest_ns == so_far.newest
                &&& state.seen_inodes() == so_far.seen
            }),
        decreases listings@.len() - i,
    {
        let ghost before = entries(*root, listings@.take(i as int));
        let ghost so_far = tally(fresh(Set::empty()), before);
        proof {
            let next = listings@.take(i + 1);
            assert(next.drop_last() =~= listings@.take(i as int));
            assert(entries(*root, next) =~= before + listings@[i as int]@);
            law_batches_add_up(fresh(Set::empty()), before, listings@[i as int]@);
            lemma_tally_grows(fresh(Set::empty()), before, 0);
            assert(before.take(0) =~= Seq::<FileMeta>::empty());
            law_fresh_batch_adds(so_far, listings@[i as int]@);
            lemma_wrapped_sum(
                so_far.bytes,
                tally(fresh(so_far.seen), listings@[i as int]@).bytes,
            );
            assert(seen_before(*root, listings@, i as int) == so_far.seen);
        }
        let _ = state.scan_dir(&listings[i]);
        i = i + 1;
    }
    assert(listings@.take(i as int) =~= listings@);
    state.finish()
}

/// The states of a walk: the first has counted the root, and each further one
/// has taken in one more listing.
pub open spec fn is_walk(
    root: RootProbe,
    listings: Seq<Vec<FileMeta>>,
    states: Seq<ScanState>,
) -> bool {
    &&& states.len() == listings.len() + 1
    &&& starts(root, states[0])
    &&& forall|i: int|
        0 <= i < listings.len() ==> takes_in(states[i], (#[trigger] listings[i])@, states[i + 1])
}

proof fn lemma_walk_counts(
    root: RootProbe,
    listings: Seq<Vec<FileMeta>>,
    states: Seq<ScanState>,
)
    requires
        is_walk(root, listings, states),
    ensures
        ({
            let all = tally(fresh(Set::empty()), entries(root, listings));
            &&& states.last().total == wrapped(all.bytes)
            &&& states.last().newest_ns == all.newest
            &&& states.last().seen_inodes() == all.seen
        }),
    decreases listings.len(),
{
    let start = fresh(Set::empty());
    if listings.len() == 0 {
        assert(entries(root, listings) =~= root_entry(root));
    } else {
        let (front, before) = (listings.drop_last(), states.drop_last());
        assert(is_walk(root, front, before)) by {
            assert forall|i: int| 0 <= i < front.len() implies takes_in(
                before[i],
                (#[trigger] front[i])@,
                before[i + 1],
            ) by {
                assert(front[i] == listings[i]);
            }
        }
        lemma_walk_counts(root, front, before);
        let last = listings.last()@;
        let so_far = tally(start, entries(root, front));
        assert(listings[listings.len() - 1] == listings.last());
        assert(takes_in(before.last(), last, states.last()));
        assert(entries(root, listings) =~= entries(root, front) + last);
        law_batches_add_up(start, entries(root, front), last);
        lemma_tally_grows(start, entries(root, front), 0);
        assert(entries(root, front).take(0) =~= Seq::<FileMeta>::empty());
        law_fresh_batch_adds(so_far, last);
        lemma_wrapped_sum(so_far.bytes, tally(fresh(so_far.seen), last).bytes);
    }
}

/// A walk made step by step comes to the measurement of the whole tree. There
/// is a timestamp exactly where the path is there and no link, and no size
/// where there is none.
pub proof fn law_walk_measures_the_tree(
    root: RootProbe,
    listings: Seq<Vec<FileMeta>>,
    states: Seq<ScanState>,
)
    ensures
        is_measured(root) && is_walk(root, listings, states) ==> walk_reading(Some(states.last()))
            == tree_reading(root, listings),
        !is_measured(root) ==> walk_reading(None) == tree_reading(root, listings),
        tree_reading(root, listings).1 is None <==> !is_measured(root),
        tree_reading(root, listings).1 is None ==> tree_reading(root, listings).0 == 0,
{
    if is_walk(root, listings, states) {
        lemma_walk_counts(root, listings, states);
    }
}

/// The order in which directories are listed does not matter.
pub proof fn law_listing_order_does_not_matter(
    root: RootProbe,
    a: Seq<Vec<FileMeta>>,
    b: Seq<Vec<FileMeta>>,
)
    requires
        flatten(a).to_multiset() == flatten(b).to_multiset(),
        consistent(entries(root, a)),
    ensures
        tree_reading(root, a) == tree_reading(root, b),
{
    vstd::seq_lib::lemma_multiset_commutative(root_entry(root), flatten(a));
    vstd::seq_lib::lemma_multiset_commutative(root_entry(root), flatten(b));
    law_order_does_not_matter(fresh(Set::empty()), entries(root, a), entries(root, b));
}

/// More entries, met in any order, never make the size or the newest
/// modification smaller.
pub proof fn law_more_entries_count_no_less(start: Tally, a: Seq<FileMeta>, b: Seq<FileMeta>)
    requires
        a.to_multiset().subset_of(b.to_multiset()),
        consistent(b),
    ensures
        tally(start, a).bytes <= tally(start, b).bytes,
        tally(start, a).newest <= tally(start, b).newest,
    decreases a.len(),
{
    broadcast use vstd::seq_lib::group_to_multiset_ensures;

    if a.len() == 0 {
        lemma_tally_grows(start, b, 0);
        assert(b.take(0) =~= a);
    } else {
        let (front, x) = (a.drop_last(), a.last());
        assert(a =~= front.push(x));
        assert(a.contains(a[a.len() - 1]));
        assert(a.to_multiset().count(x) > 0);
        assert(b.to_multiset().count(x) > 0);
        let k = choose|k: int| 0 <= k < b.len() && b[k] == x;
        let rest = b.remove(k);
        assert(rest.to_multiset() =~= b.to_multiset().remove(x));
        assert(a.remove(a.len() - 1) =~= front);
        assert(front.to_multiset() =~= a.to_multiset().remove(x));
        assert(rest.push(x).to_multiset() =~= b.to_multiset());
        lemma_members_of(rest.push(x), b);
        lemma_consistent_within(rest.push(x), b);
        lemma_members_of(a, b);
        lemma_consistent_within(a, b);
        lemma_last_to_front(start, front, x);
        lemma_last_to_front(start, rest, x);
        law_order_does_not_matter(start, b, rest.push(x));
        assert forall|m: FileMeta| front.to_multiset().count(m) <= rest.to_multiset().count(m) by {
            assert(a.to_multiset().count(m) <= b.to_multiset().count(m));
        }
        lemma_members_of(rest, b);
        lemma_consistent_within(rest, b);
        law_more_entries_count_no_less(tally_step(start, x), front, rest);
    }
}

proof fn lemma_members_of(a: Seq<FileMeta>, b: Seq<FileMeta>)
    requires
        a.to_multiset().subset_of(b.to_multiset()),
    ensures
        forall|i: int| 0 <= i < a.len() ==> b.contains(#[trigger] a[i]),
{
    broadcast use vstd::seq_lib::group_to_multiset_ensures;

    assert forall|i: int| 0 <= i < a.len() implies b.contains(#[trigger] a[i]) by {
        assert(a.contains(a[i]));
        assert(a.to_multiset().count(a[i]) > 0);
        assert(b.to_multiset().count(a[i]) > 0);
    }
}

/// Each entry counts: the size is no smaller than its own, and the newest
/// modification no older.
pub proof fn law_each_entry_counts(metas: Seq<FileMeta>, i: int)
    requires
        consistent(metas),
        0 <= i < metas.len(),
    ensures
        tally(fresh(Set::empty()), metas).bytes >= usage_bytes(metas[i].usage),
        tally(fresh(Set::empty()), metas).newest >= metas[i].modified_ns,
{
    broadcast use vstd::seq_lib::group_to_multiset_ensures;

    let one = seq![metas[i]];
    assert(one =~= Seq::<FileMeta>::empty().push(metas[i]));
    assert(metas.contains(metas[i]));
    assert forall|m: FileMeta| one.to_multiset().count(m) <= metas.to_multiset().count(m) by {
        assert(metas.to_multiset().count(metas[i]) > 0);
    }
    law_more_entries_count_no_less(fresh(Set::empty()), one, metas);
    assert(one.drop_last() =~= Seq::<FileMeta>::empty());
    assert(tally(fresh(Set::empty()), one.drop_last()) == fresh(Set::empty()));
}

/// What is read of a file, as far as the size depends on it: not its time, and
/// of a directory not how many names it has.
pub open spec fn weighed() -> spec_fn(FileMeta) -> FileMeta {
    |md: FileMeta|
        FileMeta {
            is_dir: md.is_dir,
            links: if md.is_dir {
                1
            } else {
                md.links
            },
            inode: md.inode,
            usage: md.usage,
            modified_ns: 0,
        }
}

/// Nothing else matters to the size.
proof fn lemma_weighed(start: Tally, metas: Seq<FileMeta>)
    ensures
        tally(start, metas.map_values(weighed())).bytes == tally(start, metas).bytes,
        tally(start, metas.map_values(weighed())).seen == tally(start, metas).seen,
    decreases metas.len(),
{
    if metas.len() > 0 {
        lemma_weighed(start, metas.drop_last());
        assert(metas.map_values(weighed()).drop_last() =~= metas.drop_last().map_values(weighed()));
    }
}

proof fn lemma_weighed_consistent(metas: Seq<FileMeta>)
    requires
        consistent(metas),
    ensures
        consistent(metas.map_values(weighed())),
{
    let u = metas.map_values(weighed());
    assert forall|i: int, j: int|
        0 <= i < u.len() && 0 <= j < u.len() && shared_inode(#[trigger] u[i]) is Some
            && shared_inode(u[i]) == shared_inode(#[trigger] u[j]) implies u[i].usage == u[j].usage
        && u[i].modified_ns == u[j].modified_ns by {
        assert(shared_inode(metas[i]) == shared_inode(u[i]));
        assert(shared_inode(metas[j]) == shared_inode(u[j]));
    }
}

/// Files that are added to a tree never make it smaller, wherever they are
/// met and whatever times change with it: links count their own blocks, and no
/// file takes another out of the measure.
pub proof fn law_added_files_never_shrink_a_tree(
    root: RootProbe,
    listings: Seq<Vec<FileMeta>>,
    later_root: RootProbe,
    later: Seq<Vec<FileMeta>>,
)
    requires
        is_measured(root),
        is_measured(later_root),
        entries(root, listings).map_values(weighed()).to_multiset().subset_of(
            entries(later_root, later).map_values(weighed()).to_multiset(),
        ),
        consistent(entries(later_root, later)),
        tally(fresh(Set::empty()), entries(later_root, later)).bytes <= u64::MAX,
    ensures
        tree_reading(root, listings).0 <= tree_reading(later_root, later).0,
{
    let start = fresh(Set::empty());
    let (a, b) = (entries(root, listings), entries(later_root, later));
    lemma_weighed(start, a);
    lemma_weighed(start, b);
    lemma_weighed_consistent(b);
    law_more_entries_count_no_less(start, a.map_values(weighed()), b.map_values(weighed()));
    lemma_tally_grows(start, a, 0);
    assert(a.take(0) =~= Seq::<FileMeta>::empty());
    assert(0 <= tally(start, a).bytes <= tally(start, b).bytes);
}

/// What is read of a file once it has a second name.
pub open spec fn twice_named(md: FileMeta) -> FileMeta {
    FileMeta {
        is_dir: md.is_dir,
        links: 2,
        inode: md.inode,
        usage: md.usage,
        modified_ns: md.modified_ns,
    }
}

proof fn lemma_not_seen(start: Tally, metas: Seq<FileMeta>, inode: (u64, u64))
    requires
        !start.seen.contains(inode),
        forall|j: int| 0 <= j < metas.len() ==> shared_inode(#[trigger] metas[j]) != Some(inode),
    ensures
        !tally(start, metas).seen.contains(inode),
    decreases metas.len(),
{
    if metas.len() > 0 {
        let front = metas.drop_last();
        assert forall|j: int| 0 <= j < front.len() implies shared_inode(#[trigger] front[j]) != Some(
            inode,
        ) by {
            assert(front[j] == metas[j]);
        }
        lemma_not_seen(start, front, inode);
        assert(shared_inode(metas[metas.len() - 1]) != Some(inode));
    }
}

/// Knowing an inode that does not turn up again changes no size.
proof fn lemma_knowing_more(a: Tally, b: Tally, metas: Seq<FileMeta>, inode: (u64, u64))
    requires
        a.bytes == b.bytes,
        b.seen == a.seen.insert(inode),
        forall|j: int| 0 <= j < metas.len() ==> shared_inode(#[trigger] metas[j]) != Some(inode),
    ensures
        tally(a, metas).bytes == tally(b, metas).bytes,
        tally(b, metas).seen == tally(a, metas).seen.insert(inode),
    decreases metas.len(),
{
    if metas.len() > 0 {
        let front = metas.drop_last();
        assert forall|j: int| 0 <= j < front.len() implies shared_inode(#[trigger] front[j]) != Some(
            inode,
        ) by {
            assert(front[j] == metas[j]);
        }
        lemma_knowing_more(a, b, front, inode);
        assert(shared_inode(metas[metas.len() - 1]) != Some(inode));
        assert(tally(b, metas).seen =~= tally(a, metas).seen.insert(inode));
    }
}

/// A file weighs the same once it has a second name elsewhere.
proof fn lemma_renamed(metas: Seq<FileMeta>, i: int)
    requires
        0 <= i < metas.len(),
        !metas[i].is_dir && metas[i].links == 1 && metas[i].inode is Some,
        forall|j: int|
            0 <= j < metas.len() ==> shared_inode(#[trigger] metas[j]) != metas[i].inode,
    ensures
        tally(fresh(Set::empty()), metas.update(i, twice_named(metas[i]))).bytes == tally(
            fresh(Set::empty()),
            metas,
        ).bytes,
{
    let start = fresh(Set::empty());
    let inode = metas[i].inode->0;
    let (left, x, right) = (metas.take(i), metas[i], metas.skip(i + 1));
    let y = twice_named(x);
    assert forall|j: int| 0 <= j < left.len() implies shared_inode(#[trigger] left[j]) != Some(
        inode,
    ) by {
        assert(left[j] == metas[j]);
    }
    assert forall|j: int| 0 <= j < right.len() implies shared_inode(#[trigger] right[j]) != Some(
        inode,
    ) by {
        assert(right[j] == metas[j + i + 1]);
    }
    lemma_not_seen(start, left, inode);
    assert(metas =~= left.push(x) + right);
    assert(metas.update(i, y) =~= left.push(y) + right);
    law_batches_add_up(start, left.push(x), right);
    law_batches_add_up(start, left.push(y), right);
    assert(left.push(x).drop_last() =~= left && left.push(y).drop_last() =~= left);
    let (a, b) = (tally(start, left.push(x)), tally(start, left.push(y)));
    assert(b.seen =~= a.seen.insert(inode));
    lemma_knowing_more(a, b, right, inode);
}

/// A second name that a file of the tree is given counts nothing: the next
/// measurement is as large, in whatever order it meets the names and whatever
/// times have changed.
pub proof fn law_new_link_adds_nothing(
    root: RootProbe,
    listings: Seq<Vec<FileMeta>>,
    later_root: RootProbe,
    later: Seq<Vec<FileMeta>>,
    i: int,
)
    requires
        is_measured(root),
        is_measured(later_root),
        consistent(entries(root, listings)),
        0 <= i < entries(root, listings).len(),
        ({
            let first = entries(root, listings);
            let file = first[i];
            &&& !file.is_dir && file.links == 1 && file.inode is Some
            &&& forall|j: int|
                0 <= j < first.len() ==> shared_inode(#[trigger] first[j]) != file.inode
            &&& entries(later_root, later).map_values(weighed()).to_multiset() == first.update(
                i,
                twice_named(file),
            ).push(twice_named(file)).map_values(weighed()).to_multiset()
        }),
    ensures
        tree_reading(later_root, later).0 == tree_reading(root, listings).0,
{
    let start = fresh(Set::empty());
    let (first, second) = (entries(root, listings), entries(later_root, later));
    let link = twice_named(first[i]);
    let renamed = first.update(i, link);
    let linked = renamed.push(link);
    lemma_linked_consistent(first, i);
    lemma_weighed_consistent(linked);
    lemma_weighed(start, second);
    lemma_weighed(start, linked);
    law_order_does_not_matter(
        start,
        linked.map_values(weighed()),
        second.map_values(weighed()),
    );
    law_repeated_link_counts_nothing(start, renamed, i, link);
    lemma_renamed(first, i);
}

proof fn lemma_linked_consistent(first: Seq<FileMeta>, i: int)
    requires
        consistent(first),
        0 <= i < first.len(),
        forall|j: int|
            0 <= j < first.len() ==> shared_inode(#[trigger] first[j]) != first[i].inode,
    ensures
        consistent(first.update(i, twice_named(first[i])).push(twice_named(first[i]))),
{
    let link = twice_named(first[i]);
    let all = first.update(i, link).push(link);
    assert forall|a: int, b: int|
        0 <= a < all.len() && 0 <= b < all.len() && shared_inode(#[trigger] all[a]) is Some
            && shared_inode(all[a]) == shared_inode(#[trigger] all[b]) implies all[a].usage
        == all[b].usage && all[a].modified_ns == all[b].modified_ns by {
        let a_new = a == i || a == first.len();
        let b_new = b == i || b == first.len();
        if !a_new {
            assert(all[a] == first[a]);
        }
        if !b_new {
            assert(all[b] == first[b]);
        }
    }
}

/// A time since the epoch in nanoseconds, as far as 64 bits hold it.
pub open spec fn mtime_of(since_epoch: Option<u128>) -> int {
    match since_epoch {
        Some(n) => wrapped(n as int),
        None => 0,
    }
}

/// `m` is the reading for `dir` from `walk`.
pub open spec fn is_reading(m: Measurement, dir: Seq<u8>, walk: Option<ScanState>) -> bool {
    m.target_dir@ == dir && (m.size, m.last_modified) == walk_reading(walk)
}

/// Modification time in nanoseconds, from the time since the epoch where it
/// is known: 0 where it is not.
pub fn mtime_ns(since_epoch: Option<u128>) -> (r: u64)
    ensures
        r == mtime_of(since_epoch),
        r == match since_epoch {
            Some(n) => wrapped(n as int),
            None => 0,
        },
{
    match since_epoch {
        Some(n) => {
            let low: u64 = #[verifier::truncate] (n as u64);
            assert(low == n % 0x1_0000_0000_0000_0000) by (bit_vector)
                requires
                    low == n as u64,
            ;
            low
        },
        None => 0,
    }
}

/// The reading for `target_dir` from the walk over it. Where there was none,
/// as nothing is measured of it, it is empty and has no timestamp.
pub fn measure_target(target_dir: &FsPath, walk: Option<ScanState>) -> (r: Measurement)
    ensures
        r.target_dir@ == target_dir@,
        (r.size, r.last_modified) == walk_reading(walk),
        is_reading(r, target_dir@, walk),
{
    let (size, last_modified) = match walk {
        Some(state) => state.finish(),
        None => (0, None),
    };
    Measurement { target_dir: target_dir.clone(), size, last_modified }
}

/// A block counts 512 bytes and a length its own number of bytes, whatever the
/// number: the space of blocks together is that of each alone.
pub proof fn law_blocks_are_512_bytes(n: u64, m: u64)
    ensures
        usage_bytes(DiskUsage::Blocks(n)) == 512 * n,
        usage_bytes(DiskUsage::Length(n)) == n,
        n + m <= u64::MAX ==> usage_bytes(DiskUsage::Blocks((n + m) as u64)) == usage_bytes(
            DiskUsage::Blocks(n),
        ) + usage_bytes(DiskUsage::Blocks(m)),
        n <= u64::MAX / 512 ==> usage_bytes(DiskUsage::Blocks(n)) == usage_bytes(
            DiskUsage::Length((512 * n) as u64),
        ),
{
}

/// 64-bit sums start again from zero behind the largest number.
pub proof fn law_sums_wrap_around(n: int)
    ensures
        0 <= n <= u64::MAX ==> wrapped(n) == n,
        wrapped(n + u64::MAX + 1) == wrapped(n),
        0 <= wrapped(n) <= u64::MAX,
{
    vstd::arithmetic::div_mod::lemma_mod_add_multiples_vanish(n, 0x1_0000_0000_0000_0000);
}

proof fn lemma_tally_fits(metas: Seq<FileMeta>)
    ensures
        tally(fresh(Set::empty()), metas).bytes >= 0,
        0 <= tally(fresh(Set::empty()), metas).newest <= u64::MAX,
    decreases metas.len(),
{
    if metas.len() > 0 {
        lemma_tally_fits(metas.drop_last());
    }
}

proof fn lemma_seen_was_met(metas: Seq<FileMeta>, inode: (u64, u64))
    requires
        tally(fresh(Set::empty()), metas).seen.contains(inode),
    ensures
        exists|i: int|
            0 <= i < metas.len() && !(#[trigger] metas[i]).is_dir && metas[i].links > 1
                && metas[i].inode == Some(inode),
    decreases metas.len(),
{
    if metas.len() > 0 {
        let front = metas.drop_last();
        if tally(fresh(Set::empty()), front).seen.contains(inode) {
            lemma_seen_was_met(front, inode);
            let i = choose|i: int|
                0 <= i < front.len() && !(#[trigger] front[i]).is_dir && front[i].links > 1
                    && front[i].inode == Some(inode);
            assert(metas[i] == front[i]);
        } else {
            assert(metas[metas.len() - 1] == metas.last());
        }
    }
}

proof fn lemma_last_listing(root: RootProbe, front: Seq<Vec<FileMeta>>, last: Vec<FileMeta>)
    ensures
        entries(root, front.push(last)) == entries(root, front) + last@,
{
    assert(front.push(last).drop_last() =~= front);
    assert(entries(root, front.push(last)) =~= entries(root, front) + last@);
}

/// One more entry in a tree, met nowhere before under another name, adds
/// exactly the space that it takes, 512 bytes for each block: to the size as a
/// 64-bit sum. The newest modification is the later of its own and what it was.
pub proof fn law_new_entry_adds_its_space(
    root: RootProbe,
    front: Seq<Vec<FileMeta>>,
    last: Vec<FileMeta>,
    more: Vec<FileMeta>,
    md: FileMeta,
)
    requires
        root.exists && !root.is_symlink,
        more@ == last@.push(md),
        md.is_dir || md.links <= 1 || md.inode is None || forall|i: int|
            0 <= i < entries(root, front.push(last)).len() ==> (#[trigger] entries(
                root,
                front.push(last),
            )[i]).is_dir || entries(root, front.push(last))[i].links <= 1 || entries(
                root,
                front.push(last),
            )[i].inode != md.inode,
    ensures
        md.usage matches DiskUsage::Blocks(n) ==> tree_reading(root, front.push(more)).0 == (
        tree_reading(root, front.push(last)).0 + 512 * n) % 0x1_0000_0000_0000_0000,
        md.usage matches DiskUsage::Length(n) ==> tree_reading(root, front.push(more)).0 == (
        tree_reading(root, front.push(last)).0 + n) % 0x1_0000_0000_0000_0000,
        tree_reading(root, front.push(last)).1 is Some,
        tree_reading(root, front.push(more)).1 is Some,
        tree_reading(root, front.push(more)).1->0 >= md.modified_ns,
        tree_reading(root, front.push(more)).1->0 >= tree_reading(root, front.push(last)).1->0,
        tree_reading(root, front.push(more)).1->0 == md.modified_ns || tree_reading(
            root,
            front.push(more),
        ).1->0 == tree_reading(root, front.push(last)).1->0,
{
    let start = fresh(Set::empty());
    let met = entries(root, front.push(last));
    lemma_last_listing(root, front, last);
    lemma_last_listing(root, front, more);
    assert(entries(root, front.push(more)) =~= met.push(md));
    assert(met.push(md).drop_last() =~= met);
    let t = tally(start, met);
    if is_repeat(t.seen, md) {
        lemma_seen_was_met(met, md.inode->0);
    }
    lemma_tally_fits(met);
    lemma_tally_fits(met.push(md));
    lemma_wrapped_sum(t.bytes, usage_bytes(md.usage));
}

/// A further name of a file that was met, anywhere in the tree, changes neither
/// the size nor the newest modification.
pub proof fn law_further_name_changes_nothing(
    root: RootProbe,
    front: Seq<Vec<FileMeta>>,
    last: Vec<FileMeta>,
    more: Vec<FileMeta>,
    md: FileMeta,
    met: FileMeta,
)
    requires
        more@ == last@.push(md),
        entries(root, front.push(last)).contains(met),
        !met.is_dir && met.links > 1 && met.inode is Some,
        !md.is_dir && md.links > 1 && md.inode == met.inode,
    ensures
        tree_reading(root, front.push(more)) == tree_reading(root, front.push(last)),
{
    let start = fresh(Set::empty());
    let all = entries(root, front.push(last));
    lemma_last_listing(root, front, last);
    lemma_last_listing(root, front, more);
    assert(entries(root, front.push(more)) =~= all.push(md));
    let i = choose|i: int| 0 <= i < all.len() && all[i] == met;
    assert(all[i] == met);
    law_repeated_link_counts_nothing(start, all, i, md);
}

/// Before anything is listed, a tree weighs what its root does, however many
/// names that has; an empty listing adds nothing; each listing stands for all
/// of its entries and each entry for itself; and of a path that is missing or a
/// link there is nothing to measure.
pub proof fn law_tree_starts_with_its_root(
    root: RootProbe,
    front: Seq<Vec<FileMeta>>,
    last: Vec<FileMeta>,
)
    ensures
        root.exists && !root.is_symlink && root.meta is None ==> tree_reading(root, Seq::empty())
            == (0u64, Some(0u64)),
        root.exists && !root.is_symlink && root.meta is Some ==> tree_reading(
            root,
            Seq::empty(),
        ).1 == Some(root.meta->0.modified_ns),
        root.exists && !root.is_symlink && root.meta is Some ==> (
        root.meta->0.usage matches DiskUsage::Blocks(n) ==> tree_reading(root, Seq::empty()).0 == (
        512 * n) % 0x1_0000_0000_0000_0000),
        root.exists && !root.is_symlink && root.meta is Some ==> (
        root.meta->0.usage matches DiskUsage::Length(n) ==> tree_reading(root, Seq::empty()).0
            == n),
        last@.len() == 0 ==> tree_reading(root, front.push(last)) == tree_reading(root, front),
        !root.exists || root.is_symlink ==> tree_reading(root, front) == (0u64, None::<u64>),
        root.meta is Some ==> entries(root, front).contains(root.meta->0),
        forall|i: int|
            0 <= i < last@.len() ==> entries(root, front.push(last)).contains(#[trigger] last@[i]),
        forall|md: FileMeta| #[trigger]
            entries(root, front).contains(md) ==> entries(root, front.push(last)).contains(md),
{
    let start = fresh(Set::empty());
    let none = Seq::<Vec<FileMeta>>::empty();
    assert(entries(root, none) =~= root_entry(root));
    if root.meta is Some {
        let own = root_entry(root);
        assert(own.drop_last() =~= Seq::<FileMeta>::empty());
        assert(tally(start, own.drop_last()) == start);
        assert(entries(root, front)[0] == root.meta->0);
    }
    lemma_last_listing(root, front, last);
    let (before, all) = (entries(root, front), entries(root, front.push(last)));
    if last@.len() == 0 {
        assert(all =~= before);
    }
    assert forall|i: int| 0 <= i < last@.len() implies all.contains(#[trigger] last@[i]) by {
        assert(all[before.len() + i] == last@[i]);
    }
    assert forall|md: FileMeta| #[trigger] before.contains(md) implies all.contains(md) by {
        let k = choose|k: int| 0 <= k < before.len() && before[k] == md;
        assert(all[k] == md);
    }
}

/// A walk descends into every directory of a listing, once and in order, and
/// into nothing else.
pub proof fn law_every_directory_is_descended_into(listing: Seq<FileMeta>)
    ensures
        forall|i: int|
            0 <= i < listing.len() && (#[trigger] listing[i]).is_dir ==> dir_places(
                listing,
            ).contains(i),
        forall|k: int|
            0 <= k < dir_places(listing).len() ==> 0 <= #[trigger] dir_places(listing)[k]
                < listing.len() && listing[dir_places(listing)[k]].is_dir,
        forall|k: int, m: int|
            0 <= k < m < dir_places(listing).len() ==> #[trigger] dir_places(listing)[k]
                < #[trigger] dir_places(listing)[m],
    decreases listing.len(),
{
    if listing.len() > 0 {
        let front = listing.drop_last();
        law_every_directory_is_descended_into(front);
        let (before, all) = (dir_places(front), dir_places(listing));
        assert forall|i: int| 0 <= i < listing.len() && (#[trigger] listing[i]).is_dir implies
            all.contains(i) by {
            if i < front.len() {
                assert(front[i] == listing[i]);
                let k = choose|k: int| 0 <= k < before.len() && before[k] == i;
                assert(all[k] == i);
            } else {
                assert(all[all.len() - 1] == i);
            }
        }
        assert forall|k: int| 0 <= k < all.len() implies 0 <= #[trigger] all[k] < listing.len()
            && listing[all[k]].is_dir by {
            if k < before.len() {
                assert(all[k] == before[k]);
                assert(front[before[k]] == listing[before[k]]);
            }
        }
        assert forall|k: int, m: int| 0 <= k < m < all.len() implies #[trigger] all[k]
            < #[trigger] all[m] by {
            assert(all[k] == before[k]);
            if m < before.len() {
                assert(all[m] == before[m]);
            }
        }
    }
}

/// A reading is the total and the newest modification of its walk; without a
/// walk it is empty and has no time.
pub proof fn law_reading_is_of_its_walk(state: ScanState)
    ensures
        walk_reading(Some(state)) == (state.total, Some(state.newest_ns)),
        walk_reading(None) == (0u64, None::<u64>),
{
}

/// A time that fits is kept to the nanosecond, and one that is not known is the
/// epoch.
pub proof fn law_times_are_kept(n: u128)
    ensures
        n <= u64::MAX ==> mtime_of(Some(n)) == n,
        mtime_of(None) == 0,
        0 <= mtime_of(Some(n)) <= u64::MAX,
{
    law_sums_wrap_around(n as int);
}

/// A reading is that of its own directory: its size and newest modification are
/// those that its walk came to, and nothing without a walk.
pub proof fn law_reading_is_of_its_directory(
    m: Measurement,
    dir: Seq<u8>,
    state: ScanState,
)
    ensures
        is_reading(m, dir, Some(state)) ==> m.target_dir.bytes@ == dir && m.size == state.total
            && m.last_modified == Some(state.newest_ns),
        is_reading(m, dir, None) ==> m.target_dir.bytes@ == dir && m.size == 0
            && m.last_modified is None,
{
}

/// Two inodes are kept apart by device and number alike.
pub proof fn law_inodes_are_kept_apart(a: (u64, u64), b: (u64, u64))
    ensures
        inode_key(a) == inode_key(b) <==> a.0 == b.0 && a.1 == b.1,
        0 <= inode_key(a) <= u128::MAX,
{
}

/// The size of a tree in which no file has two names is 512 times all its
/// blocks together, as a 64-bit sum: the root's and those of every entry of
/// every listing.
pub proof fn law_size_is_all_blocks(
    root: RootProbe,
    listings: Seq<Vec<FileMeta>>,
    blocks: Seq<u64>,
)
    requires
        root.exists && !root.is_symlink,
        blocks.len() == entries(root, listings).len(),
        forall|i: int|
            0 <= i < blocks.len() ==> (#[trigger] entries(root, listings)[i]).usage
                == DiskUsage::Blocks(blocks[i]),
        forall|i: int, j: int|
            0 <= i < j < blocks.len() && !(#[trigger] entries(root, listings)[i]).is_dir && !(
            #[trigger] entries(root, listings)[j]).is_dir && entries(root, listings)[i].links > 1
                && entries(root, listings)[j].links > 1 && entries(
                root,
                listings,
            )[i].inode is Some ==> entries(root, listings)[i].inode != entries(
                root,
                listings,
            )[j].inode,
    ensures
        tree_reading(root, listings).0 == (512 * blocks.fold_left(0int, |sum: int, n: u64| sum + n))
            % 0x1_0000_0000_0000_0000,
{
    lemma_all_blocks(entries(root, listings), blocks);
}

proof fn lemma_all_blocks(metas: Seq<FileMeta>, blocks: Seq<u64>)
    requires
        blocks.len() == metas.len(),
        forall|i: int|
            0 <= i < blocks.len() ==> (#[trigger] metas[i]).usage == DiskUsage::Blocks(blocks[i]),
        forall|i: int, j: int|
            0 <= i < j < blocks.len() && !(#[trigger] metas[i]).is_dir && !(
            #[trigger] metas[j]).is_dir && metas[i].links > 1 && metas[j].links > 1
                && metas[i].inode is Some ==> metas[i].inode != metas[j].inode,
    ensures
        tally(fresh(Set::empty()), metas).bytes == 512 * blocks.fold_left(
            0int,
            |sum: int, n: u64| sum + n,
        ),
    decreases metas.len(),
{
    if metas.len() > 0 {
        let (front, before) = (metas.drop_last(), blocks.drop_last());
        assert forall|i: int| 0 <= i < before.len() implies (#[trigger] front[i]).usage
            == DiskUsage::Blocks(before[i]) by {
            assert(front[i] == metas[i]);
        }
        lemma_all_blocks(front, before);
        let last = metas[metas.len() - 1];
        assert(last.usage == DiskUsage::Blocks(blocks[blocks.len() - 1]));
        let t = tally(fresh(Set::empty()), front);
        if is_repeat(t.seen, last) {
            lemma_seen_was_met(front, last.inode->0);
            let i = choose|i: int|
                0 <= i < front.len() && !(#[trigger] front[i]).is_dir && front[i].links > 1
                    && front[i].inode == Some(last.inode->0);
            assert(front[i] == metas[i]);
        }
    }
}

} // verus!
