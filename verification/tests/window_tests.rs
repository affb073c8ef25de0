use silk_session::limits::{
    MAX_BYTES_PER_FRAME, MAX_INPUT_FRAMES, MAX_PACKET_BYTES, RECOVERY_DEPTH, WINDOW_CAPACITY,
    WINDOW_SLOTS,
};
use silk_session::policy::{LossPolicy, ShortPacketLoss, ZeroLengthLoss};
use silk_session::progress::percent;
use silk_session::window::LookaheadWindow;

#[test]
fn limits_are_the_products() {
    assert_eq!(MAX_PACKET_BYTES, MAX_BYTES_PER_FRAME * MAX_INPUT_FRAMES);
    assert_eq!(WINDOW_SLOTS, RECOVERY_DEPTH + 1);
    assert_eq!(WINDOW_CAPACITY, MAX_PACKET_BYTES * WINDOW_SLOTS);
    assert_eq!(WINDOW_CAPACITY, 15360);
}

#[test]
fn window_push_and_read_back() {
    let mut w = LookaheadWindow::new();
    assert_eq!(w.len(), 0);
    assert!(w.push(&vec![1u8, 2, 3]));
    assert!(w.push(&Vec::new()));
    assert!(w.push(&vec![9u8, 8]));
    assert_eq!(w.len(), 3);
    assert_eq!(w.buffered_bytes(), 5);
    assert_eq!(w.packet_len(0), 3);
    assert_eq!(w.packet_len(1), 0);
    assert_eq!(w.packet_len(2), 2);
    assert_eq!(w.packet_bytes(0), vec![1u8, 2, 3]);
    assert_eq!(w.packet_bytes(1), Vec::<u8>::new());
    assert_eq!(w.packet_bytes(2), vec![9u8, 8]);
}

#[test]
fn window_refuses_a_fourth_packet() {
    let mut w = LookaheadWindow::new();
    assert!(w.push(&vec![1u8]));
    assert!(w.push(&vec![2u8]));
    assert!(w.push(&vec![3u8]));
    assert!(!w.push(&vec![4u8]));
    assert_eq!(w.len(), 3);
    assert_eq!(w.buffered_bytes(), 3);
    assert_eq!(w.packet_bytes(2), vec![3u8]);
}

#[test]
fn window_keeps_its_capacity() {
    let mut w = LookaheadWindow::new();
    assert!(w.push(&vec![0u8; 15000]));
    assert!(!w.push(&vec![0u8; 361]));
    assert_eq!(w.len(), 1);
    assert_eq!(w.buffered_bytes(), 15000);
    assert!(w.push(&vec![7u8; 360]));
    assert_eq!(w.buffered_bytes(), WINDOW_CAPACITY);
    assert!(!w.push(&vec![1u8]));
    assert!(w.push(&Vec::new()));
    assert_eq!(w.len(), 3);
}

#[test]
fn window_slide_drops_the_oldest() {
    let mut w = LookaheadWindow::new();
    assert!(w.push(&vec![1u8, 2, 3]));
    assert!(w.push(&vec![4u8]));
    assert!(w.push(&vec![5u8, 6]));
    w.slide();
    assert_eq!(w.len(), 2);
    assert_eq!(w.buffered_bytes(), 3);
    assert_eq!(w.packet_bytes(0), vec![4u8]);
    assert_eq!(w.packet_bytes(1), vec![5u8, 6]);
    assert_eq!(w.data, vec![4u8, 5, 6]);
    assert_eq!(w.lens, vec![1usize, 2]);
    w.slide();
    w.slide();
    assert_eq!(w.len(), 0);
    assert_eq!(w.buffered_bytes(), 0);
    w.slide();
    assert_eq!(w.len(), 0);
}

#[test]
fn window_bytes_equal_sum_of_lengths() {
    let mut w = LookaheadWindow::new();
    let sizes = [10usize, 0, 5000, 12, 5120, 5120, 5120, 1];
    for (i, n) in sizes.iter().enumerate() {
        if w.len() == WINDOW_SLOTS {
            w.slide();
        }
        w.push(&vec![i as u8; *n]);
        let sum: usize = w.lens.iter().sum();
        assert_eq!(w.buffered_bytes(), sum);
        assert!(w.buffered_bytes() <= WINDOW_CAPACITY);
        assert!(w.len() <= WINDOW_SLOTS);
    }
}

#[test]
fn zero_length_is_the_only_loss() {
    let p = ZeroLengthLoss;
    assert!(!p.is_present(0));
    assert!(p.is_present(1));
    assert!(p.is_present(5120));
}

#[test]
fn short_packets_can_be_declared_lost() {
    let p = ShortPacketLoss { min_len: 4 };
    assert!(!p.is_present(0));
    assert!(!p.is_present(3));
    assert!(p.is_present(4));
}

#[test]
fn percent_exact_values() {
    assert_eq!(percent(0, 8), 0);
    assert_eq!(percent(8, 8), 100);
    assert_eq!(percent(37, 75), 49);
    assert_eq!(percent(74, 75), 98);
    assert_eq!(percent(1, 3), 33);
    assert_eq!(percent(usize::MAX, usize::MAX), 100);
    assert_eq!(percent(usize::MAX - 1, usize::MAX), 99);
}

#[test]
fn percent_never_falls() {
    let total = 977usize;
    let mut last = 0u64;
    for c in 0..=total {
        let p = percent(c, total);
        assert!(p >= last);
        assert_eq!(p == 100, c == total);
        last = p;
    }
}

#[test]
fn window_soundness_is_decidable() {
    let mut w = LookaheadWindow::new();
    assert!(w.is_sound());
    assert!(w.push(&vec![1u8, 2, 3]));
    assert!(w.push(&vec![4u8]));
    assert!(w.is_sound());
    w.lens[1] = 2;
    assert!(!w.is_sound());
    w.lens[1] = usize::MAX;
    assert!(!w.is_sound());
    w.lens[1] = 1;
    assert!(w.is_sound());
    w.lens.push(0);
    assert!(w.is_sound());
    w.lens.push(0);
    assert!(!w.is_sound());
}
