use cargo_storage::path::FsPath;
use cargo_storage::scan::measure::{
    measure_target, mtime_ns, recursive_scan_target, DiskUsage, FileMeta, RootProbe, ScanState,
};

fn dir(blocks: u64, modified_ns: u64) -> FileMeta {
    FileMeta {
        is_dir: true,
        links: 2,
        inode: Some((1, 1)),
        usage: DiskUsage::Blocks(blocks),
        modified_ns,
    }
}

fn plain(ino: u64, links: u64, blocks: u64, modified_ns: u64) -> FileMeta {
    FileMeta {
        is_dir: false,
        links,
        inode: Some((1, ino)),
        usage: DiskUsage::Blocks(blocks),
        modified_ns,
    }
}

fn root() -> RootProbe {
    RootProbe { exists: true, is_symlink: false, meta: Some(dir(8, 5)) }
}

#[test]
fn hardlinked_file_counts_once_like_du() {
    let (alone, _) = recursive_scan_target(
        &root(),
        &vec![vec![plain(10, 1, 8, 100), plain(11, 1, 8, 200)]],
    );
    assert!(alone > 0);
    assert_eq!(alone, 24 * 512);
    // Second link to the same inode, which `du` counts as nothing extra.
    let (deduped, mtime) = recursive_scan_target(
        &root(),
        &vec![vec![plain(10, 2, 8, 100), plain(11, 1, 8, 200), plain(10, 2, 8, 100)]],
    );
    assert_eq!(deduped, alone);
    assert!(mtime.is_some_and(|t| t > 0));
    // Missing path degrades to empty with no timestamp.
    let missing = RootProbe { exists: false, is_symlink: false, meta: None };
    assert_eq!(recursive_scan_target(&missing, &vec![]), (0, None));
}

#[test]
fn symlinks_and_ignores_do_not_skew_measure() {
    let base = vec![vec![dir(8, 1)], vec![plain(10, 1, 8, 1)]];
    let (baseline, _) = recursive_scan_target(&root(), &base);
    assert!(baseline > 0);
    // A link inode counts its own blocks like `du`.
    let with = vec![vec![dir(8, 1), plain(20, 1, 0, 2), plain(21, 1, 8, 2)], vec![plain(10, 1, 8, 1)]];
    let (with_links, _) = recursive_scan_target(&root(), &with);
    assert!(with_links >= baseline);
    assert_eq!(with_links, baseline + 8 * 512);

    // Ignore files never prune: gitignored outputs still count.
    let mut ignored = with;
    ignored[0].push(plain(22, 1, 8, 3));
    let (with_ignore, _) = recursive_scan_target(&root(), &ignored);
    assert!(with_ignore >= baseline);
    assert_eq!(with_ignore, with_links + 8 * 512);
    // A link in place of the tree itself measures nothing.
    let link = RootProbe { exists: true, is_symlink: true, meta: Some(dir(8, 5)) };
    assert_eq!(recursive_scan_target(&link, &base), (0, None));
}

#[test]
fn newest_mtime_tracks_deep_writes() {
    let listings = vec![vec![dir(8, 10)], vec![dir(8, 20)], vec![plain(10, 1, 8, 30), plain(11, 1, 8, 40)]];
    let (_, mtime) = recursive_scan_target(&root(), &listings);
    assert_eq!(mtime, Some(40));
}

#[test]
fn an_empty_directory_reports_its_own_entry() {
    assert_eq!(recursive_scan_target(&root(), &vec![]), (8 * 512, Some(5)));
    let bare = RootProbe { exists: true, is_symlink: false, meta: None };
    assert_eq!(recursive_scan_target(&bare, &vec![]), (0, Some(0)));
}

#[test]
fn links_count_once_across_listings_in_any_order() {
    let a = vec![plain(10, 3, 8, 7), dir(8, 1)];
    let b = vec![plain(12, 1, 4, 9), plain(10, 3, 8, 7)];
    let one = recursive_scan_target(&root(), &vec![a.clone(), b.clone()]);
    let two = recursive_scan_target(&root(), &vec![b, a]);
    assert_eq!(one, two);
    assert_eq!(one, ((8 + 8 + 8 + 4) * 512, Some(9)));
}

#[test]
fn inodes_on_other_devices_are_other_files() {
    let mut other = plain(10, 2, 8, 1);
    other.inode = Some((2, 10));
    let (size, _) = recursive_scan_target(&root(), &vec![vec![plain(10, 2, 8, 1), other]]);
    assert_eq!(size, 24 * 512);
    let mut unknown = plain(10, 2, 8, 1);
    unknown.inode = None;
    unknown.usage = DiskUsage::Length(3);
    let (size, _) = recursive_scan_target(&root(), &vec![vec![unknown, unknown]]);
    assert_eq!(size, 8 * 512 + 6);
}

#[test]
fn directories_are_descended_into() {
    let mut state = ScanState::begin(&root()).unwrap();
    let subdirs = state.scan_dir(&vec![plain(1, 1, 1, 1), dir(1, 1), plain(2, 1, 1, 1), dir(1, 1)]);
    assert_eq!(subdirs, vec![1, 3]);
    assert_eq!(state.finish(), ((8 + 4) * 512, Some(5)));
}

#[test]
fn claims_fill_a_batch_and_repeats_do_not() {
    let mut state = ScanState::new();
    let mut acc = (0, 0);
    assert!(state.claim(&plain(7, 2, 2, 50), &mut acc));
    assert!(!state.claim(&plain(7, 2, 2, 50), &mut acc));
    assert!(state.claim(&plain(8, 1, 1, 3), &mut acc));
    assert_eq!(acc, (3 * 512, 50));
    assert_eq!(state.finish(), (0, Some(0)));
    state.publish(acc);
    assert_eq!(state.finish(), (3 * 512, Some(50)));
    state.publish((u64::MAX, 10));
    assert_eq!(state.finish(), (3 * 512 - 1, Some(50)));
}

#[test]
fn modification_times_keep_their_low_bits() {
    assert_eq!(mtime_ns(None), 0);
    assert_eq!(mtime_ns(Some(17)), 17);
    assert_eq!(mtime_ns(Some((1u128 << 64) + 3)), 3);
    assert_eq!(DiskUsage::Blocks(3).bytes(), 1536);
    assert_eq!(DiskUsage::Length(3).bytes(), 3);
}

#[test]
fn readings_carry_their_directory() {
    let target = FsPath::from_text("/p/target");
    let mut state = ScanState::begin(&root()).unwrap();
    state.publish((10, 34));
    let m = measure_target(&target, Some(state));
    assert_eq!(m.target_dir, target);
    assert_eq!((m.size, m.last_modified), (8 * 512 + 10, Some(34)));
    let m = measure_target(&target, None);
    assert_eq!((m.size, m.last_modified), (0, None));
}

#[test]
fn steps_come_to_the_whole_measurement() {
    let listings = vec![
        vec![dir(8, 1), plain(10, 2, 8, 7)],
        vec![plain(10, 2, 8, 7), plain(11, 1, 4, 9)],
    ];
    let mut state = ScanState::begin(&root()).unwrap();
    for listing in &listings {
        state.scan_dir(listing);
    }
    let m = measure_target(&FsPath::from_text("/p/target"), Some(state));
    assert_eq!((m.size, m.last_modified), recursive_scan_target(&root(), &listings));
    assert_eq!((m.size, m.last_modified), (28 * 512, Some(9)));
    let link = RootProbe { exists: true, is_symlink: true, meta: None };
    assert!(ScanState::begin(&link).is_none());
}

#[test]
fn a_second_name_leaves_the_size_wherever_it_is_met() {
    let first = vec![vec![plain(10, 1, 8, 7), dir(8, 1)], vec![plain(11, 1, 4, 9)]];
    let later = vec![
        vec![plain(10, 2, 8, 7), dir(8, 30), plain(10, 2, 8, 7)],
        vec![plain(11, 1, 4, 9)],
    ];
    let (before, _) = recursive_scan_target(&root(), &first);
    let (after, newest) = recursive_scan_target(&root(), &later);
    assert!(before > 0);
    assert_eq!(after, before);
    assert_eq!(newest, Some(30));
}
