//! Thread counts.

use vstd::prelude::*;

verus! {

/// `n` held between `low` and `high`.
pub open spec fn clamped(n: int, low: int, high: int) -> int {
    if n < low {
        low
    } else if n > high {
        high
    } else {
        n
    }
}

fn clamp(n: usize, low: usize, high: usize) -> (r: usize)
    ensures
        r == clamped(n as int, low as int, high as int),
{
    if n < low {
        low
    } else if n > high {
        high
    } else {
        n
    }
}

/// The available parallelism, one where it is not known.
pub open spec fn known_or_one(available: Option<usize>) -> int {
    match available {
        Some(n) => n as int,
        None => 1,
    }
}

/// Walk fan-out from the available parallelism: more than 16 threads only
/// get in each other's way, and memory grows with them.
pub fn cpu_count(available: Option<usize>) -> (r: usize)
    ensures
        r == clamped(known_or_one(available), 1, 16),
{
    clamp(available.unwrap_or(1), 1, 16)
}

/// Measuring pool size. Measurement scales past the walk's fan-out.
pub fn rayon_threads(available: Option<usize>) -> (r: usize)
    ensures
        r == clamped(known_or_one(available), 1, 32),
{
    clamp(available.unwrap_or(1), 1, 32)
}

/// Both counts are at least one, and the pool is never smaller than the walk.
pub proof fn law_thread_counts(available: Option<usize>)
    ensures
        1 <= clamped(known_or_one(available), 1, 16) <= 16,
        1 <= clamped(known_or_one(available), 1, 32) <= 32,
        clamped(known_or_one(available), 1, 16) <= clamped(known_or_one(available), 1, 32),
{
}

/// Both counts are the available parallelism as far as they may be: one where
/// it is not known or nothing, and the largest count where it is more.
pub proof fn law_thread_counts_follow_parallelism(n: usize)
    ensures
        clamped(known_or_one(None), 1, 16) == 1,
        clamped(known_or_one(None), 1, 32) == 1,
        n == 0 ==> clamped(known_or_one(Some(n)), 1, 16) == 1,
        n == 0 ==> clamped(known_or_one(Some(n)), 1, 32) == 1,
        1 <= n <= 16 ==> clamped(known_or_one(Some(n)), 1, 16) == n,
        1 <= n <= 32 ==> clamped(known_or_one(Some(n)), 1, 32) == n,
        n > 16 ==> clamped(known_or_one(Some(n)), 1, 16) == 16,
        n > 32 ==> clamped(known_or_one(Some(n)), 1, 32) == 32,
{
}

} // verus!
