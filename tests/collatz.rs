use collatz_range::collatz::{compute_range, precompute_constants, precompute_mod_skip, ProductSum};

fn fused_step(n: u128) -> u128 {
    if n % 2 == 1 {
        (3 * n + 1) / 2
    } else {
        n / 2
    }
}

fn goes_below(n: u64) -> bool {
    let mut v = n as u128;
    for _ in 0..10_000 {
        v = fused_step(v);
        if v < n as u128 {
            return true;
        }
    }
    false
}

#[test]
fn step_table_for_zero_steps() {
    let t = precompute_constants(0);
    assert_eq!(
        t,
        vec![ProductSum { product: 1, sum: 0 }, ProductSum { product: 3, sum: 1 }]
    );
}

#[test]
fn step_table_for_one_and_two_steps() {
    assert_eq!(
        precompute_constants(1),
        vec![ProductSum { product: 1, sum: 0 }, ProductSum { product: 3, sum: 2 }]
    );
    assert_eq!(
        precompute_constants(2),
        vec![
            ProductSum { product: 1, sum: 0 },
            ProductSum { product: 3, sum: 1 },
            ProductSum { product: 3, sum: 2 },
            ProductSum { product: 9, sum: 8 },
        ]
    );
}

#[test]
fn step_table_is_clamped_at_twenty_steps() {
    assert_eq!(precompute_constants(25).len(), 1 << 20);
    assert_eq!(precompute_constants(20).len(), 1 << 20);
    let t = precompute_constants(20);
    let last = t[(1 << 20) - 1];
    assert_eq!(last.product, 3u32.pow(20));
    assert_eq!(last.sum, 3u32.pow(20) - 1);
}

#[test]
fn table_lookup_matches_single_steps() {
    for k in 1..=12u32 {
        let t = precompute_constants(k as u64);
        for v in [0u128, 1, 27, 97, 255, 1_000_003, 0xffff_ffff_ffff, u64::MAX as u128 * 977] {
            let e = t[(v % (1u128 << k)) as usize];
            let fast = (v >> k) * e.product as u128 + e.sum as u128;
            let mut slow = v;
            for _ in 0..k {
                slow = fused_step(slow);
            }
            assert_eq!(fast, slow, "k = {k}, v = {v}");
        }
    }
}

#[test]
fn skip_table_small_horizons() {
    assert_eq!(precompute_mod_skip(0), vec![4]);
    assert_eq!(precompute_mod_skip(2), vec![4]);
    assert_eq!(precompute_mod_skip(3).len(), 2);
}

#[test]
fn skip_table_entries_move_forward() {
    for s in [3u64, 4, 7, 10, 16, 21] {
        let t = precompute_mod_skip(s);
        assert_eq!(t.len(), (1usize << s) / 4);
        for &e in t.iter() {
            assert!(e >= 4 && e <= 252 && e % 4 == 0, "s = {s}, e = {e}");
        }
    }
}

#[test]
fn skip_table_first_target_is_twenty_seven() {
    let t = precompute_mod_skip(10);
    assert_eq!(t[0], 24);
    assert_eq!(t[t.len() - 1], 28);
}

#[test]
fn skip_table_only_skips_values_that_go_below() {
    let s = 12u64;
    let t = precompute_mod_skip(s);
    let mut v = 3usize;
    while v < (1usize << s) - 4 {
        let next = v + t[v / 4] as usize;
        let mut w = v + 4;
        while w < next {
            assert!(goes_below(w as u64), "{w} skipped");
            w += 4;
        }
        v = next;
    }
}

#[test]
fn verifies_two_to_one_hundred() {
    let steps = precompute_constants(16);
    let skips = precompute_mod_skip(24);
    assert_eq!(compute_range(2, 100, &steps, &skips), 100);
}

#[test]
fn verifies_with_small_tables() {
    let steps = precompute_constants(0);
    let skips = precompute_mod_skip(0);
    assert_eq!(compute_range(2, 100, &steps, &skips), 100);
    let steps = precompute_constants(3);
    assert_eq!(compute_range(2, 10_000, &steps, &skips), 10_000);
}

#[test]
fn single_values_are_verified() {
    let steps = precompute_constants(8);
    let skips = precompute_mod_skip(10);
    for n in [2u64, 3, 7, 27, 31, 703, 1_000_003, 837_799] {
        assert_eq!(compute_range(n, n, &steps, &skips), n);
    }
}

#[test]
fn partition_gives_same_result() {
    let steps = precompute_constants(10);
    let skips = precompute_mod_skip(16);
    let whole = compute_range(2, 200_000, &steps, &skips);
    let a = compute_range(2, 77_777, &steps, &skips);
    let b = compute_range(77_778, 150_000, &steps, &skips);
    let c = compute_range(150_001, 200_000, &steps, &skips);
    assert_eq!(whole, 200_000);
    assert_eq!((a, b, c), (77_777, 150_000, 200_000));
}

#[test]
fn empty_tables_verify_nothing() {
    let steps = precompute_constants(4);
    let skips = precompute_mod_skip(8);
    assert_eq!(compute_range(2, 100, &[], &skips), 0);
    assert_eq!(compute_range(2, 100, &steps, &[]), 0);
}

#[test]
fn empty_range_returns_end() {
    let steps = precompute_constants(4);
    let skips = precompute_mod_skip(8);
    assert_eq!(compute_range(100, 50, &steps, &skips), 50);
    assert_eq!(compute_range(4, 4, &steps, &skips), 4);
}

#[test]
fn overflowing_trajectory_stops_before_candidate() {
    let steps = [ProductSum { product: u32::MAX, sum: 0 }];
    assert_eq!(compute_range(2, 100, &steps, &[4]), 2);
    assert_eq!(compute_range(10, 100, &steps, &[4]), 10);
}

#[test]
fn stalled_walk_returns_last_candidate() {
    let steps = precompute_constants(4);
    assert_eq!(compute_range(2, 100, &steps, &[0]), 3);
}

fn resolves_within(n: u64, s: u64) -> bool {
    let mut v = n as u128;
    for _ in 0..s {
        v = fused_step(v);
        if v < n as u128 {
            return true;
        }
    }
    false
}

#[test]
fn skip_table_lands_on_unresolved_or_farthest_point() {
    let s = 11u64;
    let t = precompute_mod_skip(s);
    for m in 0..t.len() - 1 {
        let from = 4 * m as u64 + 3;
        let landing = from + t[m] as u64;
        let mut w = from + 4;
        while w < landing {
            assert!(resolves_within(w, s), "{w} skipped");
            w += 4;
        }
        if resolves_within(landing, s) {
            let mut w = landing - 248;
            while w < landing {
                assert!(resolves_within(w, s), "{landing} lands after {w}");
                w += 4;
            }
        }
    }
}

#[test]
fn skip_table_closes_into_a_ring() {
    for s in [5u64, 9, 14] {
        let t = precompute_mod_skip(s);
        assert_eq!(t[t.len() - 1], t[0] + 4);
    }
}

#[test]
fn large_horizon_uses_smaller_table() {
    let t = precompute_mod_skip(20);
    assert_eq!(t.len(), 1 << 18);
    assert_eq!(t[0], 24);
    assert!(t.iter().all(|&e| e >= 4 && e <= 252 && e % 4 == 0));
}

#[test]
fn split_at_walk_point_matches_whole_range() {
    let steps = precompute_constants(12);
    let skips = [4u8];
    let whole = compute_range(2, 5_000, &steps, &skips);
    let first = compute_range(2, 2_002, &steps, &skips);
    let second = compute_range(2_003, 5_000, &steps, &skips);
    assert_eq!(whole, if first < 2_002 { first } else { second });
    assert_eq!(whole, 5_000);
}

#[test]
fn split_with_overflowing_part_reports_first_failure() {
    let steps = [ProductSum { product: u32::MAX, sum: 0 }];
    let skips = [4u8];
    let whole = compute_range(20, 60, &steps, &skips);
    let first = compute_range(20, 40, &steps, &skips);
    let second = compute_range(41, 60, &steps, &skips);
    assert_eq!(whole, 22);
    assert_eq!(whole, if first < 40 { first } else { second });
}

#[test]
fn split_off_the_walk_can_visit_other_candidates() {
    // The walk from 2 goes 3, 19, 27, ... and never meets 7; a part that
    // starts at 6 checks 7, whose trajectory under this table leaves 128 bits.
    let mut steps = vec![ProductSum { product: 1, sum: 0 }; 8];
    steps[7] = ProductSum { product: u32::MAX, sum: u32::MAX - 1 };
    let skips = [8u8, 4];
    assert_eq!(compute_range(2, 20, &steps, &skips), 20);
    assert_eq!(compute_range(2, 5, &steps, &skips), 5);
    assert_eq!(compute_range(6, 20, &steps, &skips), 6);
}
