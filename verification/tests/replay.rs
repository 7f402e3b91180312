use holynet_sdk::replay::{ReplayWindow, WINDOW_SIZE};

#[test]
fn first_packet_nonce_zero() {
    let mut w = ReplayWindow::new();
    assert!(w.check_and_update(0));
}

#[test]
fn replay_nonce_zero_rejected() {
    let mut w = ReplayWindow::new();
    assert!(w.check_and_update(0));
    assert!(!w.check_and_update(0));
}

#[test]
fn sequential_nonces_accepted() {
    let mut w = ReplayWindow::new();
    for n in 0u64..256 {
        assert!(w.check_and_update(n), "nonce {n} rejected");
    }
}

#[test]
fn replay_rejected() {
    let mut w = ReplayWindow::new();
    for n in 0u64..10 {
        w.check_and_update(n);
    }
    for n in 0u64..10 {
        assert!(!w.check_and_update(n), "replay nonce {n} accepted");
    }
}

#[test]
fn too_old_rejected() {
    let mut w = ReplayWindow::new();
    w.check_and_update(WINDOW_SIZE + 10);
    // Nonces 0..=10 are now outside the window.
    assert!(!w.check_and_update(0));
    assert!(!w.check_and_update(10));
}

#[test]
fn out_of_order_within_window_accepted() {
    let mut w = ReplayWindow::new();
    w.check_and_update(100);
    assert!(w.check_and_update(50)); // within window, not seen
    assert!(!w.check_and_update(50)); // now it's a replay
}

#[test]
fn large_jump_clears_window() {
    let mut w = ReplayWindow::new();
    for n in 0u64..100 {
        w.check_and_update(n);
    }
    // Jump far ahead.
    assert!(w.check_and_update(WINDOW_SIZE + 100));
    // Old nonces are gone from the window.
    assert!(!w.check_and_update(0)); // too old
}

#[test]
fn window_boundary_exact() {
    let mut w = ReplayWindow::new();
    w.check_and_update(WINDOW_SIZE - 1);
    // Nonce 0 is at the exact window boundary (last - 0 = WINDOW_SIZE - 1 < WINDOW_SIZE): valid.
    assert!(w.check_and_update(0));
    // Move one step further: nonce 0 is now just outside (last - 0 = WINDOW_SIZE).
    let mut w2 = ReplayWindow::new();
    w2.check_and_update(WINDOW_SIZE);
    assert!(!w2.check_and_update(0)); // exactly at the edge, rejected
}

#[test]
fn advance_by_one_each_step() {
    let mut w = ReplayWindow::new();
    for n in 0u64..WINDOW_SIZE * 2 {
        assert!(w.check_and_update(n), "nonce {n} rejected");
    }
}

#[test]
fn high_nonce_first() {
    let mut w = ReplayWindow::new();
    assert!(w.check_and_update(u64::MAX / 2));
    assert!(!w.check_and_update(u64::MAX / 2)); // replay
    assert!(w.check_and_update(u64::MAX / 2 + 1)); // next in sequence
}

// Further cases of the window's contract.

#[test]
fn replay_window_advance_wraps_around_bitmap() {
    let mut w = ReplayWindow::new();
    assert!(w.check_and_update(2040));
    assert!(w.check_and_update(2030));
    // Advancing past the end of the circular bitmap clears positions 2041..2047 and 0..=9.
    assert!(w.check_and_update(2048 + 9));
    // 2030 is still inside the window and was seen.
    assert!(!w.check_and_update(2030));
    // 2040 as well.
    assert!(!w.check_and_update(2040));
    // 2045 is inside the window and new, although its slot was reused.
    assert!(w.check_and_update(2045));
    // 9 is too old now (2057 - 9 >= 2048).
    assert!(!w.check_and_update(9));
}

#[test]
fn replay_window_max_nonce_accepted_once() {
    let mut w = ReplayWindow::new();
    assert!(w.check_and_update(5));
    assert!(w.check_and_update(u64::MAX));
    assert!(!w.check_and_update(u64::MAX));
    assert!(w.check_and_update(u64::MAX - 2047));
    assert!(!w.check_and_update(u64::MAX - 2048));
}

#[test]
fn verdicts_follow_accepted_history() {
    let mut w = ReplayWindow::new();
    let nonces = [5u64, 3, 5, 3000, 900, 2000, 952, 953, 3000];
    let expected = [true, true, false, true, false, true, false, true, false];
    for (n, e) in nonces.iter().zip(expected.iter()) {
        assert_eq!(w.check_and_update(*n), *e, "nonce {}", n);
    }
}
