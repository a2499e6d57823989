use ptwop::protocol::congestion::{
    CongestionControl, CongestionState, INITIAL_CWND, MIN_CWND, MSS,
};

#[test]
fn test_congestion_slow_start() {
    let mut cc = CongestionControl::new();
    assert_eq!(cc.cwnd(), 10 * 1460); // Initial 10 MSS
    cc.on_ack(1460);
    assert!(cc.cwnd() > 1460); // Window grows during slow start
}

#[test]
fn test_congestion_avoidance() {
    let mut cc = CongestionControl::new();
    // Directly enter congestion avoidance state
    cc.ssthresh = INITIAL_CWND;
    cc.cwnd = INITIAL_CWND;
    cc.state = CongestionState::CongestionAvoidance;

    let cwnd_before = cc.cwnd();
    // Send and acknowledge one RTT of data
    for _ in 0..10 {
        cc.on_packet_sent(MSS);
        cc.on_ack(MSS);
    }
    // Congestion avoidance increases by only one MSS per RTT
    assert_eq!(cc.cwnd(), cwnd_before + MSS);
}

#[test]
fn test_can_send() {
    let mut cc = CongestionControl::new();

    // Initially can send up to cwnd
    assert!(cc.can_send(INITIAL_CWND));
    assert!(!cc.can_send(INITIAL_CWND + 1));

    // After sending some data
    cc.on_packet_sent(5000);
    assert!(cc.can_send(INITIAL_CWND - 5000));
    assert!(!cc.can_send(INITIAL_CWND - 5000 + 1));
}

#[test]
fn test_on_loss() {
    let mut cc = CongestionControl::new();

    // Build up cwnd
    for _ in 0..20 {
        cc.on_packet_sent(MSS);
        cc.on_ack(MSS);
    }

    let cwnd_before_loss = cc.cwnd();
    cc.on_loss();

    // ssthresh should be half of previous cwnd
    assert_eq!(cc.ssthresh, cwnd_before_loss / 2);
    // cwnd should reset to MIN_CWND
    assert_eq!(cc.cwnd(), MIN_CWND);
    // state should be SlowStart
    assert!(matches!(cc.state, CongestionState::SlowStart));
}

#[test]
fn test_transition_to_congestion_avoidance() {
    let mut cc = CongestionControl::new();

    // Reset cwnd to be below ssthresh
    cc.cwnd = 2 * MSS;
    cc.ssthresh = 3 * MSS;

    // Initially in slow start
    assert!(matches!(cc.state, CongestionState::SlowStart));

    // A single large ACK that pushes cwnd above ssthresh
    cc.on_ack(2 * MSS);
    // Should transition to congestion avoidance since cwnd (now 4*MSS) >= ssthresh (3*MSS)
    assert!(matches!(cc.state, CongestionState::CongestionAvoidance));
}

#[test]
fn slow_start_grows_by_what_is_acknowledged() {
    let mut cc = CongestionControl::new();
    cc.on_packet_sent(1000);
    cc.on_ack(700);
    assert_eq!(cc.cwnd(), 15300);
    assert_eq!(cc.bytes_in_flight, 300);
    cc.on_ack(700);
    assert_eq!(cc.bytes_in_flight, 0);
}

#[test]
fn acknowledgement_that_cannot_be_counted_is_found() {
    let mut cc = CongestionControl::new();
    assert!(cc.ack_fits(1460));
    cc.cwnd = usize::MAX;
    assert!(!cc.ack_fits(1));
    assert!(cc.ack_fits(0));
}
