use ptwop::protocol::packet::{CONTROL_STREAM, FLAG_ACK, FLAG_DATA};
use ptwop::protocol::stream::{seq_gt_u64, seq_lt_u64, StreamManager, StreamState};
use ptwop::time::{Clock, Instant};

const MILLI: u64 = 1_000_000;
const SECOND: u64 = 1_000_000_000;

fn now() -> Instant {
    let since = std::time::SystemTime::now().duration_since(std::time::UNIX_EPOCH).unwrap();
    Instant { nanos: since.as_nanos() as u64 }
}

fn before(at: Instant, nanos: u64) -> Instant {
    Instant { nanos: at.nanos - nanos }
}

fn at(millis: u64) -> Instant {
    Instant { nanos: 1000 * SECOND + millis * MILLI }
}

#[test]
fn test_allocate() {
    let mut m = StreamManager::new(now());
    let id = m.allocate(now());
    assert_ne!(id, CONTROL_STREAM);
    assert_eq!(m.streams[&id].state, StreamState::SynSent);
}

#[test]
fn test_accept_syn() {
    let mut m = StreamManager::new(now());
    let id = m.accept_syn(42, 0, now());
    assert_eq!(m.streams[&id].state, StreamState::Established);
    assert_eq!(m.streams[&id].recv_seq, 1);
}

#[test]
fn test_seq_increments() {
    let mut m = StreamManager::new(now());
    let id = m.allocate(now());
    assert_eq!(m.next_send_seq(id), Some(0));
    assert_eq!(m.next_send_seq(id), Some(1));
}

#[test]
fn test_ack_removes() {
    let mut m = StreamManager::new(now());
    let id = m.allocate(now());
    m.record_send(id, 0, vec![1], now());
    m.record_send(id, 1, vec![2], now());
    assert_eq!(m.streams[&id].unacked.len(), 2);
    m.on_ack(id, 0);
    assert_eq!(m.streams[&id].unacked.len(), 1);
}

#[test]
fn test_retransmit_due() {
    let mut m = StreamManager::new(now());
    let id = m.allocate(now());
    m.record_send(id, 0, vec![1], before(now(), 500 * MILLI));
    assert!(!m.retransmit_due(now()).is_empty());
}

#[test]
fn test_keepalive() {
    let mut m = StreamManager::new(now());
    m.last_activity = before(now(), 10 * SECOND);
    assert!(m.should_send_ping(now()));
}

#[test]
fn test_no_keepalive_when_active() {
    let mut m = StreamManager::new(now());
    assert!(!m.should_send_ping(now()));
}

/// A stream that nobody has opened is unknown: nothing is acknowledged or
/// delivered on it.
#[test]
fn test_client_stream_manager_bug() {
    let mut client_mgr = StreamManager::new(now());

    let mut host_mgr = StreamManager::new(now());
    let _sid = host_mgr.accept_syn(1, 0, now());

    let ack_num: u64 = 1;
    client_mgr.on_ack(1, ack_num);

    assert!(client_mgr.streams.get(&1).is_none());

    let payloads = client_mgr.on_data(1, 0, b"hello".to_vec());
    assert!(payloads.is_empty());

    let ack = client_mgr.current_ack(1);
    assert_eq!(ack, 0);
}

/// What happens when the stream is opened first.
#[test]
fn test_correct_stream_creation_flow() {
    let mut client_mgr = StreamManager::new(now());

    let stream_id = client_mgr.allocate(now());
    assert_eq!(stream_id, 1);
    assert_eq!(client_mgr.streams.get(&1).unwrap().state, StreamState::SynSent);

    let _seq = client_mgr.next_send_seq(1).unwrap();
    assert_eq!(_seq, 0);
    client_mgr.record_send(1, 0, vec![], now());

    client_mgr.on_ack(1, 1);

    assert_eq!(client_mgr.streams.get(&1).unwrap().unacked.len(), 0);

    let payloads = client_mgr.on_data(1, 0, b"hello".to_vec());
    assert_eq!(payloads.len(), 1);
    assert_eq!(payloads[0], b"hello".to_vec());

    assert_eq!(client_mgr.streams.get(&1).unwrap().recv_seq, 1);

    assert_eq!(client_mgr.current_ack(1), 0);
}

#[test]
fn test_u64_sequence_numbers() {
    let mut mgr = StreamManager::new(now());
    let id = mgr.allocate(now());

    for _i in 0..100000 {
        let seq = mgr.next_send_seq(id).unwrap();
        mgr.record_send(id, seq, vec![1, 2, 3], now());
    }
    assert_eq!(mgr.streams.get(&id).unwrap().send_seq, 100000);
}

#[test]
fn stream_numbers_skip_the_control_stream() {
    let mut m = StreamManager::new(at(0));
    m.next_stream_id = u16::MAX;
    assert_eq!(m.allocate(at(0)), u16::MAX);
    assert_eq!(m.allocate(at(0)), 1);
    assert_eq!(m.accept_syn(0, 5, at(0)), 2);
    assert_eq!(m.accept_syn(1, 5, at(0)), 3);
    assert_eq!(m.accept_syn(9, u64::MAX, at(0)), 9);
    assert_eq!(m.streams[&9].recv_seq, 0);
}

#[test]
fn packets_are_put_in_order() {
    let mut m = StreamManager::new(at(0));
    let id = m.allocate(at(0));
    assert!(m.on_data_at(id, 2, b"c".to_vec(), at(1)).is_empty());
    assert!(m.on_data_at(id, 1, b"b".to_vec(), at(2)).is_empty());
    assert!(m.on_data_at(id, 1, b"B".to_vec(), at(3)).is_empty());
    assert_eq!(
        m.on_data_at(id, 0, b"a".to_vec(), at(4)),
        vec![b"a".to_vec(), b"b".to_vec(), b"c".to_vec()]
    );
    assert_eq!(m.current_ack(id), 2);
    assert!(m.on_data_at(id, 1, b"b".to_vec(), at(5)).is_empty());
    assert_eq!(m.on_data_at(id, 3, b"d".to_vec(), at(6)), vec![b"d".to_vec()]);
    assert_eq!(m.streams[&id].recv_seq, 4);
    assert_eq!(m.streams[&id].last_activity, at(6));
}

#[test]
fn packets_too_far_ahead_are_dropped() {
    let mut m = StreamManager::new(at(0));
    let id = m.allocate(at(0));
    assert!(m.on_data_at(id, 1000, vec![1], at(1)).is_empty());
    assert_eq!(m.streams[&id].recv_buffer.len(), 0);
    assert!(m.on_data_at(id, 999, vec![1], at(1)).is_empty());
    assert_eq!(m.streams[&id].recv_buffer.len(), 1);
    for seq in 1..150u64 {
        assert!(m.on_data_at(id, seq, vec![1], at(1)).is_empty());
    }
    assert_eq!(m.streams[&id].recv_buffer.len(), 100);
    assert_eq!(m.on_data_at(id, 0, vec![9], at(1)).len(), 100);
    assert_eq!(m.streams[&id].recv_buffer.len(), 1);
}

#[test]
fn full_receive_window_drops() {
    let mut m = StreamManager::new(at(0));
    let id = m.allocate(at(0));
    assert!(m.on_data_at(id, 1, vec![0; 65536], at(1)).is_empty());
    assert!(m.on_data_at(id, 0, vec![7], at(2)).is_empty());
    assert_eq!(m.streams[&id].recv_seq, 0);
    assert_eq!(m.on_data_at(id, 0, vec![], at(3)).len(), 2);
}

#[test]
fn congestion_window_holds_packets_back() {
    let mut m = StreamManager::new(at(0));
    let id = m.allocate(at(0));
    m.record_send(id, 0, vec![0; 14600], at(0));
    m.record_send(id, 1, vec![0; 1], at(0));
    assert_eq!(m.streams[&id].unacked.len(), 1);
    assert_eq!(m.streams[&id].send_window.unacked_bytes(), 14601);
    m.on_ack(id, 0);
    assert_eq!(m.streams[&id].unacked.len(), 0);
    assert_eq!(m.streams[&id].congestion.cwnd(), 29200);
}

#[test]
fn waiting_time_doubles_up_to_its_limit() {
    let mut m = StreamManager::new(at(0));
    let id = m.allocate(at(0));
    m.record_send(id, 5, vec![1, 2], at(0));
    assert!(m.retransmit_due(at(199)).is_empty());
    let sent = m.retransmit_due(at(200));
    assert_eq!(sent.len(), 1);
    assert_eq!(sent[0].0, id);
    assert_eq!(sent[0].1.flags, FLAG_DATA | FLAG_ACK);
    assert_eq!(sent[0].1.seq_num, 5);
    assert_eq!(sent[0].1.ack_num, 0);
    assert_eq!(sent[0].1.payload, vec![1, 2]);
    assert_eq!(m.streams[&id].rto, 400 * MILLI);
    assert_eq!(m.retransmit_due(at(599)).len(), 0);
    assert_eq!(m.retransmit_due(at(600)).len(), 1);
    assert_eq!(m.retransmit_due(at(1400)).len(), 1);
    assert_eq!(m.retransmit_due(at(3000)).len(), 1);
    assert_eq!(m.streams[&id].rto, 3 * SECOND);
    assert_eq!(m.retransmit_due(at(6000)).len(), 1);
    assert_eq!(m.streams[&id].rto, 3 * SECOND);
    assert_eq!(m.streams[&id].retransmit_count, 5);
    assert_eq!(m.streams[&id].congestion.cwnd(), 2920);
    assert!(m.retransmit_due(at(9000)).is_empty());
    assert!(m.streams.get(&id).is_none());
}

#[test]
fn acknowledged_packets_are_not_sent_again() {
    let mut m = StreamManager::new(at(0));
    let id = m.allocate(at(0));
    for seq in 0..3u64 {
        m.record_send(id, seq, vec![seq as u8], at(0));
    }
    m.on_ack(id, 1);
    let sent = m.retransmit_due(at(1000));
    assert_eq!(sent.len(), 1);
    assert_eq!(sent[0].1.seq_num, 2);
    m.on_ack(id, 2);
    assert_eq!(m.streams[&id].rto, 200 * MILLI);
    assert_eq!(m.streams[&id].retransmit_count, 0);
    assert!(m.retransmit_due(at(5000)).is_empty());
}

#[test]
fn third_repeated_acknowledgement_resets_the_waiting_time() {
    let mut m = StreamManager::new(at(0));
    let id = m.allocate(at(0));
    m.record_send(id, 8, vec![1], at(0));
    assert_eq!(m.retransmit_due(at(300)).len(), 1);
    assert_eq!(m.streams[&id].rto, 400 * MILLI);
    m.on_ack(id, 7);
    m.on_ack(id, 7);
    assert_eq!(m.streams[&id].rto, 400 * MILLI);
    m.on_ack(id, 7);
    assert_eq!(m.streams[&id].rto, 200 * MILLI);
    assert_eq!(m.streams[&id].unacked.len(), 1);
}

#[test]
fn lost_probes_end_the_tunnel() {
    let mut m = StreamManager::new(at(0));
    assert!(!m.should_send_ping(at(4999)));
    assert!(m.should_send_ping(at(5000)));
    m.mark_ping_sent(at(5000));
    assert!(!m.should_send_ping(at(9999)));
    for lost in 1..4u64 {
        assert!(!m.keepalive_failed());
        assert!(m.should_send_ping(at(5000 + 5000 * lost)));
        m.mark_ping_sent(at(5000 + 5000 * lost));
        assert_eq!(m.ping_loss_count as u64, lost);
    }
    assert!(m.keepalive_failed());
    m.on_pong_at(at(21000));
    assert!(!m.keepalive_failed());
    assert!(!m.should_send_ping(at(25999)));
    assert!(m.should_send_ping(at(26000)));
}

#[test]
fn answer_is_stamped_by_the_clock() {
    let start = now();
    let mut m = StreamManager::new(start);
    m.last_activity = before(start, 60 * SECOND);
    m.on_pong();
    assert!(m.last_activity.nanos >= start.nanos);
    assert!(m.last_activity.nanos < start.nanos + 3600 * SECOND);
    assert!(!m.should_send_ping(start));
}

#[test]
fn clock_goes_on_from_its_base() {
    let clock = Clock::start(Instant { nanos: 77 });
    let first = clock.now();
    let mut waited = clock.now();
    while waited.nanos == first.nanos {
        waited = clock.now();
    }
    assert!(first.nanos >= 77);
    assert!(waited.nanos > first.nanos);
    assert_eq!(clock.shown_after(23).nanos, 100);
    assert_eq!(clock.shown_after(u128::MAX).nanos, u64::MAX);
}

#[test]
fn streams_do_not_disturb_each_other() {
    let mut m = StreamManager::new(at(0));
    let a = m.allocate(at(0));
    let b = m.allocate(at(0));
    m.record_send(a, 0, vec![1], at(0));
    m.record_send(b, 0, vec![2], at(0));
    m.on_ack(a, 0);
    assert_eq!(m.streams[&a].unacked.len(), 0);
    assert_eq!(m.streams[&b].unacked.len(), 1);
    m.remove(a);
    assert!(m.next_send_seq(a).is_none());
    m.record_send(a, 1, vec![3], at(0));
    assert!(m.get_mut(a).is_none());
    m.get_mut(b).unwrap().retransmit_count = 9;
    assert_eq!(m.streams[&b].retransmit_count, 9);
    m.set_established(b);
    assert_eq!(m.streams[&b].state, StreamState::Established);
}

#[test]
fn counters_are_watched() {
    let mut m = StreamManager::new(at(0));
    let id = m.allocate(at(0));
    assert!(m.data_fits(id, 0, &vec![1]));
    assert!(m.ack_fits(id, 0));
    assert!(m.resend_fits(at(1000)));
    m.get_mut(id).unwrap().recv_window.consume(usize::MAX - 1);
    assert!(m.data_fits(id, 0, &vec![1]));
    assert!(!m.data_fits(id, 0, &vec![1, 2]));
    assert!(m.data_fits(id, 1, &vec![1, 2]));
    assert!(m.data_fits(99, 0, &vec![1]));
    m.get_mut(id).unwrap().dup_ack_count.insert(4, u32::MAX);
    assert!(!m.ack_fits(id, 4));
    assert!(m.ack_fits(id, 5));
    m.record_send(id, 0, vec![1], at(0));
    m.get_mut(id).unwrap().retransmit_count = u32::MAX;
    assert!(!m.resend_fits(at(1000)));
    assert!(m.resend_fits(at(100)));
}

#[test]
fn circular_order_of_stream_numbers() {
    assert!(seq_gt_u64(0, u64::MAX));
    assert!(seq_lt_u64(u64::MAX, 0));
    assert!(!seq_gt_u64(3, 3));
    assert!(!seq_lt_u64(3, 3));
}

#[test]
fn received_numbers_wrap() {
    let mut m = StreamManager::new(at(0));
    assert_eq!(m.accept_syn(42, u64::MAX - 1, at(0)), 42);
    assert_eq!(m.streams[&42].recv_seq, u64::MAX);
    assert!(m.data_fits(42, u64::MAX, &vec![1]));
    assert_eq!(m.on_data(42, u64::MAX, vec![1]), vec![vec![1]]);
    assert_eq!(m.on_data(42, 0, vec![2]), vec![vec![2]]);
    assert_eq!(m.streams[&42].recv_seq, 1);
}

#[test]
fn early_packets_wait_across_the_wrap() {
    let mut m = StreamManager::new(at(0));
    let id = m.accept_syn(9, u64::MAX - 2, at(0));
    assert!(m.on_data_at(id, 1, b"d".to_vec(), at(1)).is_empty());
    assert!(m.on_data_at(id, 0, b"c".to_vec(), at(1)).is_empty());
    assert!(m.on_data_at(id, u64::MAX, b"b".to_vec(), at(1)).is_empty());
    assert!(m.on_data_at(id, 998, b"x".to_vec(), at(1)).is_empty());
    assert_eq!(m.streams[&id].recv_buffer.len(), 3);
    assert!(m.on_data_at(id, 997, b"y".to_vec(), at(1)).is_empty());
    assert_eq!(m.streams[&id].recv_buffer.len(), 4);
    assert_eq!(
        m.on_data_at(id, u64::MAX - 1, b"a".to_vec(), at(2)),
        vec![b"a".to_vec(), b"b".to_vec(), b"c".to_vec(), b"d".to_vec()]
    );
    assert_eq!(m.streams[&id].recv_seq, 2);
    assert!(m.on_data_at(id, u64::MAX, b"b".to_vec(), at(3)).is_empty());
}

#[test]
fn sent_numbers_wrap() {
    let mut m = StreamManager::new(at(0));
    let id = m.allocate(at(0));
    m.get_mut(id).unwrap().send_seq = u64::MAX;
    assert_eq!(m.next_send_seq(id), Some(u64::MAX));
    assert_eq!(m.next_send_seq(id), Some(0));
}

#[test]
fn three_duplicates_send_at_once() {
    let mut m = StreamManager::new(at(0));
    assert_eq!(m.allocate(at(0)), 1);
    m.record_send(1, 0, vec![1], at(0));
    m.record_send(1, 1, vec![2], at(0));
    m.record_send(1, 2, vec![3], at(0));
    m.on_ack(1, 0);
    m.on_ack(1, 0);
    m.on_ack(1, 0);
    assert!(m.retransmit_due(at(1)).is_empty());
    m.on_ack(1, 0);
    let sent = m.retransmit_due(at(1));
    assert_eq!(sent.len(), 1);
    assert_eq!(sent[0].0, 1);
    assert_eq!(sent[0].1.flags, FLAG_DATA | FLAG_ACK);
    assert_eq!(sent[0].1.connection_id, 0);
    assert_eq!(sent[0].1.stream_id, 1);
    assert_eq!(sent[0].1.seq_num, 1);
    assert_eq!(sent[0].1.ack_num, 0);
    assert_eq!(sent[0].1.payload, vec![2]);
    assert_eq!(m.streams[&1].rto, 400 * MILLI);
    assert_eq!(m.streams[&1].congestion.cwnd(), 2920);
    assert_eq!(m.streams[&1].dup_ack_count[&0], 3);
    assert!(m.streams[&1].answered.contains(&0));
    assert!(m.retransmit_due(at(2)).is_empty());
    m.on_ack(1, 0);
    assert_eq!(m.streams[&1].dup_ack_count[&0], 4);
    assert!(m.retransmit_due(at(3)).is_empty());
    m.on_ack(1, 1);
    assert!(m.streams[&1].dup_ack_count.is_empty());
    assert!(m.streams[&1].answered.is_empty());
    for _ in 0..3 {
        m.on_ack(1, 1);
    }
    assert_eq!(m.retransmit_due(at(4))[0].1.seq_num, 2);
}

#[test]
fn each_duplicate_points_at_its_packet() {
    let mut m = StreamManager::new(at(0));
    let id = m.allocate(at(0));
    for seq in [5u64, 7, 9] {
        m.record_send(id, seq, vec![seq as u8], at(0));
    }
    for _ in 0..3 {
        m.on_ack(id, 3);
        m.on_ack(id, 4);
    }
    let sent = m.retransmit_due(at(1));
    assert_eq!(sent.len(), 1);
    assert_eq!(sent[0].1.seq_num, 5);
    m.get_mut(id).unwrap().dup_ack_count.insert(8, 3);
    m.get_mut(id).unwrap().dup_ack_count.insert(20, 7);
    let sent = m.retransmit_due(at(2));
    assert_eq!(sent.len(), 1);
    assert_eq!(sent[0].1.seq_num, 9);
    let s = &m.streams[&id];
    assert_eq!(s.dup_ack_count[&3], 3);
    assert_eq!(s.dup_ack_count[&4], 3);
    assert_eq!(s.dup_ack_count[&8], 3);
    assert_eq!(s.dup_ack_count[&20], 7);
    assert!(s.answered.contains(&3));
    assert!(s.answered.contains(&4));
    assert!(s.answered.contains(&8));
    assert!(!s.answered.contains(&20));
    assert!(m.retransmit_due(at(3)).is_empty());
}

#[test]
fn idle_look_keeps_the_counts() {
    let mut m = StreamManager::new(at(0));
    let id = m.allocate(at(0));
    for _ in 0..3 {
        m.on_ack(id, 0);
    }
    assert!(m.retransmit_due(at(10)).is_empty());
    assert_eq!(m.streams[&id].dup_ack_count[&0], 3);
    assert!(m.streams[&id].answered.is_empty());
    m.get_mut(id).unwrap().rto = 400 * MILLI;
    m.on_ack(id, 0);
    assert_eq!(m.streams[&id].dup_ack_count[&0], 4);
    assert_eq!(m.streams[&id].rto, 200 * MILLI);
}

#[test]
fn counts_survive_a_sent_packet() {
    let mut m = StreamManager::new(at(0));
    let id = m.allocate(at(0));
    m.record_send(id, 8, vec![1], at(0));
    for _ in 0..3 {
        m.on_ack(id, 7);
    }
    assert_eq!(m.retransmit_due(at(1)).len(), 1);
    assert_eq!(m.streams[&id].rto, 400 * MILLI);
    m.on_ack(id, 7);
    assert_eq!(m.streams[&id].rto, 200 * MILLI);
    assert!(m.retransmit_due(at(200)).is_empty());
    assert_eq!(m.retransmit_due(at(201)).len(), 1);
}

#[test]
fn pointing_at_an_exhausted_packet_ends_nothing() {
    let mut m = StreamManager::new(at(0));
    let id = m.allocate(at(0));
    m.record_send(id, 5, vec![1], at(0));
    m.record_send(id, 6, vec![2], at(0));
    m.get_mut(id).unwrap().unacked[0].retransmits = 5;
    for _ in 0..3 {
        m.on_ack(id, 4);
    }
    assert!(m.retransmit_due(at(1)).is_empty());
    assert_eq!(m.streams[&id].unacked.len(), 2);
    assert_eq!(m.streams[&id].unacked[0].retransmits, 5);
    assert_eq!(m.streams[&id].rto, 200 * MILLI);
    assert_eq!(m.streams[&id].dup_ack_count[&4], 3);
    assert!(m.streams[&id].answered.is_empty());
    assert!(m.retransmit_due(at(200)).is_empty());
    assert!(!m.streams.contains_key(&id));
}

#[test]
fn second_look_is_idle() {
    let mut m = StreamManager::new(at(0));
    let id = m.allocate(at(0));
    m.record_send(id, 0, vec![1], at(0));
    m.record_send(id, 1, vec![2], at(100));
    assert_eq!(m.retransmit_due(at(600)).len(), 2);
    assert_eq!(m.streams[&id].rto, 800 * MILLI);
    assert!(m.retransmit_due(at(600)).is_empty());
    assert_eq!(m.streams[&id].rto, 800 * MILLI);
    assert_eq!(m.streams[&id].retransmit_count, 2);
}

#[test]
fn test_placeholder() {}
