use ptwop::addr::PeerAddr;
use ptwop::client::forwarder::{can_count, close_stream, open_stream, send_data};
use ptwop::client::{joined, ready_message, ClientAction, ClientSession, JoinError};
use ptwop::config::{local_addr, normalize_target, udp_bind_addr};
use ptwop::crypto::noop::NoopCrypto;
use ptwop::crypto::Crypto;
use ptwop::host::demux::PacketDemux;
use ptwop::host::mapper::{TcpConnectionManager, Uplink};
use ptwop::host::{room_created, HostAction, HostSession, HostStep, PeerSession};
use ptwop::protocol::packet::{
    Packet, CONTROL_STREAM, FLAG_ACK, FLAG_DATA, FLAG_FIN, FLAG_PING, FLAG_PONG, FLAG_RST,
    FLAG_SYN,
};
use ptwop::punch::{probe, PunchEvent, PunchStep, Puncher};
use ptwop::signal::SignalMsg;
use ptwop::time::Instant;
use ptwop::tunnel::Tunnel;

fn at(millis: u64) -> Instant {
    Instant { nanos: 1_000_000_000_000 + millis * 1_000_000 }
}

fn peer(port: u16) -> PeerAddr {
    PeerAddr::V4 { ip: 0x7f000001, port }
}

fn packet(flags: u8, stream_id: u16, seq_num: u64, ack_num: u64, payload: &[u8]) -> Packet {
    Packet { flags, connection_id: 0, stream_id, seq_num, ack_num, payload: payload.to_vec() }
}

#[test]
fn test_demux_register_unregister() {
    let mut demux = PacketDemux::new();
    demux.register(peer(5), 1);
    let pkt = packet(FLAG_DATA, 1, 0, 0, b"hello");
    assert_eq!(demux.dispatch(&pkt.encode(), peer(5)), Some((1, pkt.clone())));
    demux.unregister(peer(5));
    assert_eq!(demux.dispatch(&pkt.encode(), peer(5)), None);
    demux.unregister(peer(5));
}

#[test]
fn test_demux_multi_peer_dispatch() {
    let mut demux = PacketDemux::new();
    demux.register(peer(5), 1);
    demux.register(peer(6), 2);
    let ping = packet(FLAG_PING, 0, 0, 0, &[]);
    assert_eq!(demux.dispatch(&ping.encode(), peer(5)), Some((1, ping.clone())));
    assert_eq!(demux.dispatch(&ping.encode(), peer(6)), Some((2, ping.clone())));
    assert_eq!(demux.dispatch(&ping.encode(), peer(7)), None);
    assert_eq!(demux.dispatch(&[1, 2, 3], peer(5)), None);
    demux.register(peer(5), 9);
    assert_eq!(demux.dispatch(&ping.encode(), peer(5)), Some((9, ping.clone())));
    let v6 = PeerAddr::V6 { ip6: 1, port: 5, flowinfo: 0, scope_id: 0 };
    assert_eq!(demux.dispatch(&ping.encode(), v6), None);
}

#[test]
fn target_without_colon_is_a_port() {
    assert_eq!(normalize_target("25565".to_string()), "127.0.0.1:25565");
    assert_eq!(normalize_target("localhost:80".to_string()), "localhost:80");
    assert_eq!(normalize_target(String::new()), "127.0.0.1:");
    assert_eq!(normalize_target(normalize_target("80".to_string())), "127.0.0.1:80");
    assert_eq!(udp_bind_addr(7788), "0.0.0.0:7788");
    assert_eq!(udp_bind_addr(0), "0.0.0.0:0");
    assert_eq!(local_addr(65535), "127.0.0.1:65535");
}

#[test]
fn no_encryption_changes_nothing() {
    let crypto = NoopCrypto;
    let mut buf = [1u8, 2, 3];
    assert!(crypto.encrypt(&mut buf).is_ok());
    assert_eq!(buf, [1, 2, 3]);
    assert!(crypto.decrypt(&mut buf).is_ok());
    assert_eq!(buf, [1, 2, 3]);
    assert_eq!(crypto.max_overhead(), 0);
}

#[test]
fn punching_waits_for_the_peer() {
    assert_eq!(probe(), packet(FLAG_PING, 0, 0, 0, b"PTP_PUNCH"));
    let p = Puncher::new(peer(5), at(0));
    assert!(!p.timed_out(at(9999)));
    assert!(p.timed_out(at(10000)));
    assert_eq!(p.on_event(PunchEvent::Datagram { from: peer(5) }), PunchStep::Finish);
    assert_eq!(p.on_event(PunchEvent::Datagram { from: peer(6) }), PunchStep::Wait);
    assert_eq!(p.on_event(PunchEvent::Nothing), PunchStep::Probe);
}

#[test]
fn early_data_is_written_first() {
    let mut tcp = TcpConnectionManager::new();
    assert_eq!(tcp.deliver(4, vec![1]), None);
    tcp.buffer_data(4, vec![2]);
    assert_eq!(tcp.deliver(5, vec![9]), None);
    assert!(!tcp.writers().contains(&4));
    assert_eq!(tcp.connected(4), vec![vec![1], vec![2]]);
    assert!(tcp.writers().contains(&4));
    assert_eq!(tcp.deliver(4, vec![3]), Some(vec![3]));
    assert!(tcp.take_pending(4).is_empty());
    tcp.closed(4);
    assert_eq!(tcp.deliver(4, vec![4]), None);
    assert_eq!(tcp.take_pending(4), vec![vec![4]]);
    assert_eq!(tcp.connect_failed(5), packet(FLAG_RST, 5, 0, 0, &[]));
    assert!(tcp.take_pending(5).is_empty());
}

#[test]
fn service_packets_are_numbered() {
    let mut up = Uplink::new(3);
    assert_eq!(up.next_packet(vec![1]), packet(FLAG_DATA | FLAG_ACK, 3, 0, 0, &[1]));
    assert_eq!(up.next_packet(vec![2]), packet(FLAG_DATA | FLAG_ACK, 3, 1, 0, &[2]));
    up.seq = u64::MAX;
    assert_eq!(up.next_packet(vec![]).seq_num, u64::MAX);
    assert_eq!(up.seq, 0);
}

#[test]
fn host_reads_the_reply() {
    let reply = SignalMsg::RoomCreated { room_id: "r".to_string(), my_addr: "m".to_string() };
    assert_eq!(room_created(reply).unwrap(), ("r".to_string(), "m".to_string()));
    let other = SignalMsg::RoomClosed { reason: "x".to_string() };
    assert!(matches!(room_created(other), Err(SignalMsg::RoomClosed { .. })));
    let ready = ptwop::host::ready_message(&"r".to_string(), &"p".to_string());
    assert!(matches!(
        ready,
        SignalMsg::P2PReady { room_id, peer_id } if room_id == "r" && peer_id == "p"
    ));
}

fn peer_joined(id: &str) -> SignalMsg {
    SignalMsg::PeerJoined {
        peer_addr: "1.2.3.4:5".to_string(),
        peer_id: id.to_string(),
        room_id: "r".to_string(),
    }
}

fn peer_left(id: &str) -> SignalMsg {
    SignalMsg::PeerLeft { peer_id: id.to_string(), room_id: "r".to_string() }
}

#[test]
fn host_serves_and_stops_clients() {
    let mut host = HostSession::new();
    assert_eq!(
        host.on_signal(peer_joined("a"), Some(peer(5)), 1),
        HostStep::Serve { handler: 1, peer: peer(5) }
    );
    assert_eq!(
        host.on_signal(peer_joined("b"), Some(peer(6)), 2),
        HostStep::Serve { handler: 2, peer: peer(6) }
    );
    assert_eq!(host.on_signal(peer_joined("c"), None, 3), HostStep::Ignore);
    assert_eq!(host.on_signal(peer_left("c"), None, 3), HostStep::Ignore);
    assert_eq!(host.on_signal(peer_left("a"), None, 3), HostStep::Cancel { stopped: 1 });
    assert_eq!(host.on_signal(peer_left("a"), None, 3), HostStep::Ignore);
    let ready = SignalMsg::P2PReady { room_id: "r".to_string(), peer_id: "b".to_string() };
    assert_eq!(host.on_signal(ready, None, 3), HostStep::Ignore);
    let closed = SignalMsg::RoomClosed { reason: "x".to_string() };
    assert_eq!(host.on_signal(closed, None, 3), HostStep::Stop);
    assert_eq!(host.on_signal(peer_left("b"), None, 3), HostStep::Cancel { stopped: 2 });
}

#[test]
fn client_reads_the_reply() {
    let info = SignalMsg::RoomInfo {
        host_addr: "h".to_string(),
        my_addr: "m".to_string(),
        room_id: "r".to_string(),
    };
    assert_eq!(joined(info).unwrap(), ("h".to_string(), "m".to_string()));
    let refused = SignalMsg::Error { reason: "room_not_found".to_string() };
    assert!(matches!(
        joined(refused),
        Err(JoinError::Refused { reason }) if reason == "room_not_found"
    ));
    let other = SignalMsg::RoomClosed { reason: "x".to_string() };
    assert!(matches!(
        joined(other),
        Err(JoinError::Unexpected { msg: SignalMsg::RoomClosed { .. } })
    ));
    assert!(matches!(
        ready_message("abcdef"),
        SignalMsg::P2PReady { room_id, peer_id } if room_id == "abcdef" && peer_id == "client_abc"
    ));
}

#[test]
fn quiet_tunnel_is_given_up() {
    let mut t = Tunnel::new(at(0));
    let mut pings = 0;
    let mut alive = true;
    let mut millis = 0;
    while alive {
        assert!(t.tick_fits(at(millis)));
        let (out, still) = t.tick(at(millis));
        for p in &out {
            assert_eq!(p, &packet(FLAG_PING, CONTROL_STREAM, 0, 0, &[]));
        }
        pings += out.len();
        alive = still;
        millis += 50;
    }
    assert_eq!(pings, 4);
    assert!(millis > 20000 && millis < 24000);
}

#[test]
fn tick_keeps_its_times() {
    let mut t = Tunnel::new(at(0));
    let id = t.streams.allocate(at(0));
    t.streams.record_send(id, 0, vec![7], at(0));
    assert_eq!(t.tick(at(0)), (vec![], true));
    assert_eq!(t.next_ping, at(1000));
    assert_eq!(t.next_resend, at(100));
    assert_eq!(t.tick(at(99)), (vec![], true));
    assert_eq!(t.next_resend, at(100));
    assert_eq!(t.tick(at(150)), (vec![], true));
    assert_eq!(t.tick(at(249)), (vec![], true));
    assert_eq!(
        t.tick(at(250)),
        (vec![packet(FLAG_DATA | FLAG_ACK, id, 0, 0, &[7])], true)
    );
}

#[test]
fn client_and_host_agree() {
    let mut client = ClientSession::new(at(0));
    let mut host = PeerSession::new(at(0));

    let (id, syn) = open_stream(&mut client.tunnel.streams, 0, at(1));
    assert_eq!(id, 1);
    assert_eq!(syn, packet(FLAG_SYN, 1, 0, 0, &[]));
    client.attach(id);

    assert!(host.packet_fits(&syn));
    let mut actions = host.on_packet(syn, at(2));
    assert_eq!(actions.len(), 2);
    assert!(matches!(actions[1], HostAction::Connect { stream_id: 1 }));
    let reply = match actions.remove(0) {
        HostAction::Send { packet } => packet,
        other => panic!("expected Send, got {:?}", other),
    };
    assert_eq!(reply, packet(FLAG_ACK, 1, 0, 1, &[]));

    assert!(client.packet_fits(&reply));
    assert!(client.on_packet(reply, at(3)).is_empty());
    assert_eq!(client.tunnel.streams.streams[&1].unacked.len(), 0);

    assert!(can_count(&client.tunnel.streams, id, 1));
    let a = send_data(&mut client.tunnel.streams, 0, id, b"a".to_vec(), at(4));
    let b = send_data(&mut client.tunnel.streams, 0, id, b"b".to_vec(), at(4));
    let c = send_data(&mut client.tunnel.streams, 0, id, b"c".to_vec(), at(4));
    assert_eq!(a, packet(FLAG_DATA | FLAG_ACK, 1, 1, 0, b"a"));
    assert_eq!(c.seq_num, 3);

    assert!(host.on_packet(a.clone(), at(5)).is_empty());
    assert_eq!(host.tcp.connected(1), vec![b"a".to_vec()]);
    assert!(host.on_packet(c, at(6)).is_empty());
    assert!(host.on_packet(a, at(7)).is_empty());
    let mut written = vec![];
    for action in host.on_packet(b, at(8)) {
        match action {
            HostAction::Write { to_stream, data } => {
                assert_eq!(to_stream, 1);
                written.push(data);
            }
            other => panic!("expected Write, got {:?}", other),
        }
    }
    assert_eq!(written, vec![b"b".to_vec(), b"c".to_vec()]);

    let mut up = Uplink::new(1);
    let x = up.next_packet(b"x".to_vec());
    let y = up.next_packet(b"y".to_vec());
    assert!(client.on_packet(y, at(9)).is_empty());
    assert_eq!(client.on_packet(x, at(9)).len(), 2);
    client.detach(1);
    let z = up.next_packet(b"z".to_vec());
    assert!(client.on_packet(z, at(9)).is_empty());

    let fin = close_stream(0, id);
    assert_eq!(fin, packet(FLAG_FIN, 1, 0, 0, &[]));
    assert!(host.on_packet(fin, at(10)).is_empty());
    assert!(host.tunnel.streams.streams.get(&1).is_none());
}

#[test]
fn probes_are_answered_and_answers_noted() {
    let ping = packet(FLAG_PING, 0, 0, 0, &[]);
    let pong = packet(FLAG_PONG, 0, 0, 0, &[]);
    let mut host = PeerSession::new(at(0));
    let mut client = ClientSession::new(at(0));
    match host.on_packet(ping.clone(), at(1)).pop() {
        Some(HostAction::Send { packet }) => assert_eq!(packet, pong),
        other => panic!("expected Send, got {:?}", other),
    }
    match client.on_packet(ping, at(1)).pop() {
        Some(ClientAction::Send { packet }) => assert_eq!(packet, pong),
        other => panic!("expected Send, got {:?}", other),
    }
    host.tunnel.streams.ping_loss_count = 2;
    host.tunnel.streams.last_ping_sent = Some(at(1));
    assert!(host.on_packet(pong.clone(), at(2)).is_empty());
    assert_eq!(host.tunnel.streams.ping_loss_count, 0);
    assert_eq!(host.tunnel.streams.last_ping_sent, None);
    assert_eq!(host.tunnel.streams.last_activity, at(2));
    client.tunnel.streams.ping_loss_count = 2;
    assert!(client.on_packet(pong, at(3)).is_empty());
    assert_eq!(client.tunnel.streams.ping_loss_count, 0);
}

#[test]
fn order_of_the_flags() {
    let both = packet(FLAG_SYN | FLAG_DATA, 4, 0, 0, b"x");
    let mut host = PeerSession::new(at(0));
    assert_eq!(host.on_packet(both.clone(), at(1)).len(), 2);
    assert_eq!(host.tunnel.streams.streams[&4].recv_seq, 1);
    let mut client = ClientSession::new(at(0));
    assert!(client.on_packet(both, at(1)).is_empty());
    assert!(client.tunnel.streams.streams.get(&4).is_none());
    let mut syn = client.on_packet(packet(FLAG_SYN, 4, 6, 0, &[]), at(1));
    match syn.pop() {
        Some(ClientAction::Send { packet: p }) => assert_eq!(p, packet(FLAG_ACK, 4, 0, 7, &[])),
        other => panic!("expected Send, got {:?}", other),
    }
    assert!(client.on_packet(packet(FLAG_RST, 4, 0, 0, &[]), at(2)).is_empty());
    assert!(client.tunnel.streams.streams.get(&4).is_none());
    assert!(host.on_packet(packet(FLAG_ACK, 4, 0, 9, &[]), at(2)).is_empty());
    assert!(host.on_packet(packet(FLAG_RST, 4, 0, 0, &[]), at(2)).is_empty());
    assert!(host.tunnel.streams.streams.get(&4).is_none());
}

#[test]
fn sending_on_a_lost_stream() {
    let mut client = ClientSession::new(at(0));
    assert!(can_count(&client.tunnel.streams, 9, 100));
    let p = send_data(&mut client.tunnel.streams, 77, 9, vec![1], at(0));
    assert_eq!(p.seq_num, 0);
    assert_eq!(p.connection_id, 77);
    assert!(client.tunnel.streams.streams.get(&9).is_none());
}

#[test]
fn lost_packet_goes_out_again() {
    let mut client = ClientSession::new(at(0));
    let mut host = PeerSession::new(at(0));
    let (id, syn) = open_stream(&mut client.tunnel.streams, 0, at(1));
    for action in host.on_packet(syn, at(2)) {
        if let HostAction::Send { packet } = action {
            client.on_packet(packet, at(3));
        }
    }
    assert!(host.tcp.connected(id).is_empty());
    let mut written = vec![];
    let mut arrive = |p: Packet, when: Instant| {
        for action in host.on_packet(p, when) {
            if let HostAction::Write { data, .. } = action {
                written.push(data);
            }
        }
    };
    let a = send_data(&mut client.tunnel.streams, 0, id, b"a".to_vec(), at(4));
    send_data(&mut client.tunnel.streams, 0, id, b"b".to_vec(), at(4));
    let c = send_data(&mut client.tunnel.streams, 0, id, b"c".to_vec(), at(4));
    arrive(c, at(5));
    arrive(a, at(6));
    for millis in [300, 500] {
        let (out, alive) = client.tunnel.tick(at(millis));
        assert!(alive);
        assert_eq!(out.len(), 1);
        for p in out {
            arrive(p, at(millis + 1));
        }
    }
    assert_eq!(written, vec![b"a".to_vec(), b"b".to_vec(), b"c".to_vec()]);
}
