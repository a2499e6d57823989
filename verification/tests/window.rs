use ptwop::protocol::window::{seq_gt, ReceiveWindow, SendWindow};

#[test]
fn test_send_window_allow_send() {
    let mut window = SendWindow::new(1024);
    assert!(window.try_send(500));
    assert_eq!(window.unacked_bytes(), 500);
    assert!(window.try_send(524));
    assert!(!window.try_send(1)); // Window full
}

#[test]
fn test_send_window_on_ack() {
    let mut window = SendWindow::new(1024);
    window.try_send(500);
    window.on_ack(0, 500);
    assert_eq!(window.unacked_bytes(), 0);
    assert!(window.try_send(1024));
}

#[test]
fn test_send_window_circular_wraparound() {
    let mut window = SendWindow::new(1024);
    // Send data at sequence near u64::MAX
    window.try_send(500);
    window.on_ack(u64::MAX, 500);

    // Ack with wrapped value (0) should be considered newer
    window.try_send(600);
    window.on_ack(0, 600);

    assert_eq!(window.unacked_bytes(), 0);
    assert!(window.try_send(1024));
}

#[test]
fn test_send_window_old_ack_ignored() {
    let mut window = SendWindow::new(1024);
    window.try_send(500);
    window.on_ack(10, 500);
    assert_eq!(window.unacked_bytes(), 0);

    // Send more data, ack at sequence 20
    window.try_send(300);
    window.on_ack(20, 300);
    assert_eq!(window.unacked_bytes(), 0);

    // Old ack (sequence 5) should be ignored
    window.on_ack(5, 100);
    assert_eq!(window.unacked_bytes(), 0);
}

#[test]
fn test_send_window_defensive_ack_bytes() {
    let mut window = SendWindow::new(1024);
    window.try_send(100);
    assert_eq!(window.unacked_bytes(), 100);

    // Try to acknowledge more bytes than we sent (defensive check)
    window.on_ack(1, 500);
    assert_eq!(window.unacked_bytes(), 0); // Should only subtract 100
}

#[test]
fn test_receive_window_accept_data() {
    let mut window = ReceiveWindow::new(2048);
    assert!(window.try_receive(1000));
    assert_eq!(window.buffered_bytes(), 1000);
    assert!(window.try_receive(1048));
    assert!(!window.try_receive(1));
}

#[test]
fn send_window_shows_its_room() {
    let mut window = SendWindow::new(1000);
    assert_eq!(window.available(), 1000);
    assert!(window.try_send(400));
    assert_eq!(window.available(), 600);
    assert!(!window.try_send(601));
    assert_eq!(window.available(), 600);
    window.on_ack(7, 400);
    assert!(window.try_send(100));
    window.on_ack(7, 100);
    assert_eq!(window.available(), 900);
}

#[test]
fn reading_makes_room() {
    let mut window = ReceiveWindow::new(100);
    assert!(window.try_receive(80));
    assert_eq!(window.window_available(), 20);
    window.consume(30);
    assert_eq!(window.window_available(), 50);
    window.consume(1000);
    assert_eq!(window.buffered_bytes(), 0);
    assert_eq!(window.window_available(), 100);
}

#[test]
fn sequence_numbers_go_in_a_circle() {
    assert!(seq_gt(1, 0));
    assert!(!seq_gt(0, 1));
    assert!(!seq_gt(5, 5));
    assert!(seq_gt(0, u64::MAX));
    assert!(!seq_gt(0x8000_0000_0000_0000, 0));
    assert!(seq_gt(0x7fff_ffff_ffff_ffff, 0));
}
