use cargo_storage::util::{cpu_count, rayon_threads};

#[test]
fn thread_counts_stay_in_bounds() {
    assert_eq!(cpu_count(None), 1);
    assert_eq!(cpu_count(Some(0)), 1);
    assert_eq!(cpu_count(Some(7)), 7);
    assert_eq!(cpu_count(Some(64)), 16);
    assert_eq!(rayon_threads(None), 1);
    assert_eq!(rayon_threads(Some(20)), 20);
    assert_eq!(rayon_threads(Some(64)), 32);
}
