use tcpreno::algorithm;

#[test]
fn trace_lengths_match_cycle_count() {
    for cycles in [0usize, 1, 5, 25, 100] {
        let (ws, ts) = algorithm(1, 8, cycles, &[2, 7], true);
        assert_eq!(ws.len(), cycles + 1);
        assert_eq!(ts.len(), cycles + 1);
    }
}

#[test]
fn position_zero_is_initial_state() {
    let (ws, ts) = algorithm(3, 17, 12, &[4], false);
    assert_eq!(ws[0], 3);
    assert_eq!(ts[0], 17);
    let (ws, ts) = algorithm(0, 0, 0, &[], true);
    assert_eq!(ws[0], 0);
    assert_eq!(ts[0], 0);
}

#[test]
fn loss_cycle_halves_threshold_reno() {
    // Cycle 2 is lossy; the state before it is (8, 9).
    let (ws, ts) = algorithm(2, 9, 3, &[2], true);
    assert_eq!(ts[2], 9);
    assert_eq!(ws[2], 8);
    assert_eq!(ts[3], 4); // floor(9 / 2)
    assert_eq!(ws[3], 4); // Reno: window snaps to the new threshold
}

#[test]
fn loss_cycle_resets_window_tahoe() {
    let (ws, ts) = algorithm(1, 8, 5, &[2], false);
    assert_eq!(ws, vec![1, 2, 4, 1, 2, 4]);
    assert_eq!(ts, vec![8, 8, 8, 4, 4, 4]);
}

#[test]
fn slow_start_doubles_window() {
    // 1 -> 2 -> 4 -> 8 with threshold 8 untouched.
    let (ws, ts) = algorithm(1, 8, 3, &[], true);
    assert_eq!(ws, vec![1, 2, 4, 8]);
    assert_eq!(ts, vec![8, 8, 8, 8]);
}

#[test]
fn slow_start_clamps_to_threshold() {
    // 3 < 5, doubled to 6 which overshoots, so the window is clamped to 5.
    let (ws, ts) = algorithm(3, 5, 1, &[], true);
    assert_eq!(ws[1], 5);
    assert_eq!(ts[1], 5);
}

#[test]
fn congestion_avoidance_grows_by_one() {
    // 8 >= 8: linear growth, threshold tracks the window.
    let (ws, ts) = algorithm(8, 8, 3, &[], true);
    assert_eq!(ws, vec![8, 9, 10, 11]);
    assert_eq!(ts, vec![8, 9, 10, 11]);
}

#[test]
fn identical_inputs_give_identical_traces() {
    let a = algorithm(1, 8, 25, &[10, 14, 20], true);
    let b = algorithm(1, 8, 25, &[10, 14, 20], true);
    assert_eq!(a.0, b.0);
    assert_eq!(a.1, b.1);
}

#[test]
fn reference_trace_reno() {
    let (ws, ts) = algorithm(1, 8, 25, &[10, 14, 20], true);
    assert_eq!(
        ws,
        vec![1, 2, 4, 8, 9, 10, 11, 12, 13, 14, 15, 7, 8, 9, 10, 5, 6, 7, 8, 9, 10, 5, 6, 7, 8, 9]
    );
    assert_eq!(
        ts,
        vec![8, 8, 8, 8, 9, 10, 11, 12, 13, 14, 15, 7, 8, 9, 10, 5, 6, 7, 8, 9, 10, 5, 6, 7, 8, 9]
    );
}

#[test]
fn zero_cycles_yields_initial_state_only() {
    let (ws, ts) = algorithm(7, 3, 0, &[0, 1, 2], false);
    assert_eq!(ws, vec![7]);
    assert_eq!(ts, vec![3]);
}

#[test]
fn out_of_range_losses_never_affect_output() {
    let with_far_loss = algorithm(1, 8, 10, &[3, 10, 5000], true);
    let without = algorithm(1, 8, 10, &[3], true);
    let with_in_range_only = algorithm(1, 8, 10, &[3, 10], true);
    assert_eq!(with_far_loss, with_in_range_only);
    // The entry 10 equals the cycle count, so it is never reached either.
    assert_eq!(with_in_range_only, without);
}

#[test]
fn duplicate_losses_are_idempotent() {
    let once = algorithm(1, 8, 12, &[4], false);
    let twice = algorithm(1, 8, 12, &[4, 4, 4], false);
    assert_eq!(once, twice);
}

#[test]
fn window_growth_saturates_instead_of_wrapping() {
    // Congestion avoidance at the counter ceiling stays at the ceiling.
    let (ws, ts) = algorithm(u16::MAX, 1, 2, &[], true);
    assert_eq!(ws, vec![u16::MAX, u16::MAX, u16::MAX]);
    assert_eq!(ts, vec![1, u16::MAX, u16::MAX]);
}

#[test]
fn slow_start_doubling_cannot_overflow() {
    // 40000 < 50000; the true double 80000 exceeds the counter, and the
    // clamp to the threshold applies.
    let (ws, ts) = algorithm(40000, 50000, 1, &[], true);
    assert_eq!(ws[1], 50000);
    assert_eq!(ts[1], 50000);
}

#[test]
fn zero_threshold_loss_keeps_zero() {
    // Halving a zero threshold keeps it at zero; Reno snaps the window there
    // too, Tahoe restarts at one.
    let (ws_reno, ts_reno) = algorithm(4, 0, 1, &[0], true);
    assert_eq!((ws_reno[1], ts_reno[1]), (0, 0));
    let (ws_tahoe, ts_tahoe) = algorithm(4, 0, 1, &[0], false);
    assert_eq!((ws_tahoe[1], ts_tahoe[1]), (1, 0));
}
