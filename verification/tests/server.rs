use ptwop::server::room::{room_name, RoomManager};
use ptwop::server::{Connection, Outgoing, ServerState};
use ptwop::signal::{frame, unframe, SignalMsg};

#[test]
fn test_create_room() {
    let mut m = RoomManager::new();
    let (rid, pid) = m.create_room("1.2.3.4:7789");
    assert_eq!(rid.len(), 6);
    assert_eq!(m.get_room(&rid).unwrap().host_addr, "1.2.3.4:7789");
    assert!(pid.starts_with("host_"));
}

#[test]
fn test_add_client() {
    let mut m = RoomManager::new();
    let (rid, _) = m.create_room("1:2");
    let r = m.add_client(&rid, "3:4");
    assert!(r.is_some());
    assert_eq!(m.get_room(&rid).unwrap().clients.len(), 1);
}

#[test]
fn test_add_client_bad_room() {
    assert!(RoomManager::new().add_client("nope", "1:2").is_none());
}

#[test]
fn test_remove_client() {
    let mut m = RoomManager::new();
    let (rid, _) = m.create_room("1:2");
    let (pid, _) = m.add_client(&rid, "3:4").unwrap();
    assert!(m.remove_peer(&pid).is_none());
    assert!(m.get_room(&rid).unwrap().clients.is_empty());
}

#[test]
fn test_remove_host_removes_room() {
    let mut m = RoomManager::new();
    let (rid, hpid) = m.create_room("1:2");
    assert_eq!(m.remove_peer(&hpid), Some(rid));
}

#[test]
fn room_names_are_small_letters_and_digits() {
    let mut m = RoomManager::new();
    let mut seen = std::collections::HashSet::new();
    for _ in 0..50 {
        let (rid, hpid) = m.create_room("1:2");
        assert!(rid.chars().all(|c| c.is_ascii_digit() || c.is_ascii_lowercase()));
        assert_eq!(hpid, format!("host_{}", &rid[..4]));
        seen.insert(rid);
    }
    assert!(seen.len() > 1);
}

#[test]
fn names_in_a_room() {
    let mut m = RoomManager::new();
    assert_eq!(m.create_room_as(&"ab12cd".to_string(), "h:1"), "host_ab12");
    for n in 1..13 {
        let (pid, host) = m.add_client("ab12cd", "c:1").unwrap();
        assert_eq!(pid, format!("client_ab1_{}", n));
        assert_eq!(host, "h:1");
        assert_eq!(m.find_room_for_peer(&pid), Some("ab12cd".to_string()));
    }
    let room = m.get_room("ab12cd").unwrap();
    assert_eq!(room.room_id, "ab12cd");
    assert_eq!(room.host_peer_id, "host_ab12");
    assert_eq!(room.clients.len(), 12);
    assert_eq!(room.clients.get("client_ab1_3").unwrap().addr, "c:1");
    assert_eq!(room.clients.get("client_ab1_3").unwrap().peer_id, "client_ab1_3");
}

#[test]
fn closing_a_room_forgets_its_peers() {
    let mut m = RoomManager::new();
    m.create_room_as(&"aaaaaa".to_string(), "h:1");
    m.create_room_as(&"bbbbbb".to_string(), "h:2");
    let (a1, _) = m.add_client("aaaaaa", "c:1").unwrap();
    let (b1, _) = m.add_client("bbbbbb", "c:2").unwrap();
    m.remove_room("aaaaaa");
    assert!(m.get_room("aaaaaa").is_none());
    assert_eq!(m.find_room_for_peer(&a1), None);
    assert_eq!(m.find_room_for_peer("host_aaaa"), None);
    assert_eq!(m.find_room_for_peer(&b1), Some("bbbbbb".to_string()));
    m.remove_room("zzzzzz");
    assert_eq!(m.get_room("bbbbbb").unwrap().clients.len(), 1);
}

#[test]
fn room_is_changed_in_place() {
    let mut m = RoomManager::new();
    m.create_room_as(&"aaaaaa".to_string(), "h:1");
    m.get_room_mut("aaaaaa").unwrap().host_addr = "h:9".to_string();
    assert!(m.get_room_mut("bbbbbb").is_none());
    let (_, host) = m.add_client("aaaaaa", "c:1").unwrap();
    assert_eq!(host, "h:9");
}

#[test]
fn leaving_undoes_joining() {
    let mut m = RoomManager::new();
    m.create_room_as(&"aaaaaa".to_string(), "h:1");
    let (one, _) = m.add_client("aaaaaa", "c:1").unwrap();
    let (two, _) = m.add_client("aaaaaa", "c:2").unwrap();
    assert_ne!(one, two);
    assert_eq!(m.remove_peer(&two), None);
    assert_eq!(m.remove_peer(&two), None);
    let (again, _) = m.add_client("aaaaaa", "c:3").unwrap();
    assert_eq!(again, two);
    assert_eq!(m.remove_peer("nobody"), None);
}

fn joined(server: &mut ServerState, c: &mut Connection, room: &str) -> Vec<Outgoing> {
    server.on_message(c, &SignalMsg::JoinRoom { room_id: room.to_string(), secret: None })
}

fn ready(server: &mut ServerState, c: &mut Connection, room: &str, peer: &str) -> Vec<Outgoing> {
    server.on_message(
        c,
        &SignalMsg::P2PReady { room_id: room.to_string(), peer_id: peer.to_string() },
    )
}

#[test]
fn connections_are_named_by_chance() {
    let mut server = ServerState::new();
    assert_eq!(server.connect_as(1, "a:1", 0x0f2a).peer_id, "peer_0f2a");
    assert_eq!(server.connect_as(2, "a:1", 0xffff).peer_id, "peer_ffff");
    let mut seen = std::collections::HashSet::new();
    for n in 0..100 {
        let c = server.connect(n, "a:1");
        assert_eq!(c.peer_id.len(), 9);
        assert!(c.peer_id.starts_with("peer_"));
        assert_eq!(c.conn, n);
        assert!(c.in_room.is_none());
        seen.insert(c.peer_id);
    }
    assert!(seen.len() > 1);
}

#[test]
fn host_gets_a_room() {
    let mut server = ServerState::new();
    let mut host = server.connect(7, "5.6.7.8:9");
    let out = server.on_message(&mut host, &SignalMsg::CreateRoom { secret: None });
    assert_eq!(out.len(), 1);
    assert_eq!(out[0].conn, 7);
    match &out[0].msg {
        SignalMsg::RoomCreated { room_id, my_addr } => {
            assert_eq!(room_id.len(), 6);
            assert_eq!(my_addr, "5.6.7.8:9");
            assert_eq!(host.in_room, Some(format!("host_{}", &room_id[..4])));
        }
        other => panic!("expected RoomCreated, got {:?}", other),
    }
}

#[test]
fn unknown_room_is_refused() {
    let mut server = ServerState::new();
    let mut c = server.connect(3, "c:3");
    let out = joined(&mut server, &mut c, "nosuch");
    assert_eq!(out.len(), 1);
    assert_eq!(out[0].conn, 3);
    assert!(matches!(&out[0].msg, SignalMsg::Error { reason } if reason == "room_not_found"));
    assert!(c.in_room.is_none());
    assert!(ready(&mut server, &mut c, "nosuch", "x").is_empty());
    assert!(server.disconnect(c).is_empty());
}

#[test]
fn test_server_notifies_peer_left() {
    let mut server = ServerState::new();
    let mut host = server.connect(1, "h:1");
    server.create_room_as(&mut host, "abcdef".to_string());
    let mut client = server.connect(2, "c:2");
    let out = joined(&mut server, &mut client, "abcdef");
    let client_pid = match &out[1].msg {
        SignalMsg::PeerJoined { peer_id, .. } => peer_id.clone(),
        other => panic!("expected PeerJoined, got {:?}", other),
    };
    let out = server.disconnect(client);
    assert_eq!(out.len(), 1);
    assert_eq!(out[0].conn, 1);
    match &out[0].msg {
        SignalMsg::PeerLeft { peer_id, room_id } => {
            assert_eq!(peer_id, &client_pid);
            assert_eq!(room_id, "abcdef");
        }
        other => panic!("expected PeerLeft, got {:?}", other),
    }
}

#[test]
fn test_host_accepts_two_clients_signaling() {
    let mut server = ServerState::new();
    let mut host = server.connect(1, "h:1");
    let out = server.on_message(&mut host, &SignalMsg::CreateRoom { secret: None });
    let room_id = match &out[0].msg {
        SignalMsg::RoomCreated { room_id, .. } => room_id.clone(),
        other => panic!("expected RoomCreated, got {:?}", other),
    };

    let mut pids = vec![];
    let mut clients = vec![];
    for n in 2..4u64 {
        let mut c = server.connect(n, "c:1");
        let out = joined(&mut server, &mut c, &room_id);
        assert_eq!(out.len(), 2);
        assert_eq!(out[0].conn, n);
        assert!(matches!(&out[0].msg, SignalMsg::RoomInfo { host_addr, .. } if host_addr == "h:1"));
        assert_eq!(out[1].conn, 1);
        match &out[1].msg {
            SignalMsg::PeerJoined { peer_id, .. } => pids.push(peer_id.clone()),
            other => panic!("expected PeerJoined, got {:?}", other),
        }
        clients.push(c);
    }
    assert_ne!(pids[0], pids[1], "two clients should get unique peer_ids");

    let out = ready(&mut server, &mut host, &room_id, &pids[0]);
    assert_eq!(out.len(), 1);
    assert_eq!(out[0].conn, 2);
    assert!(matches!(&out[0].msg, SignalMsg::P2PReady { peer_id, .. } if peer_id == &pids[0]));

    let second = clients.pop().unwrap();
    let first = clients.pop().unwrap();
    let out = server.disconnect(first);
    assert_eq!(out.len(), 1);
    assert_eq!(out[0].conn, 1);
    assert!(matches!(&out[0].msg, SignalMsg::PeerLeft { peer_id, room_id: rid }
        if peer_id == &pids[0] && rid == &room_id));

    let out = ready(&mut server, &mut host, &room_id, &pids[1]);
    assert_eq!(out.len(), 1);
    assert_eq!(out[0].conn, 3);
    assert!(matches!(&out[0].msg, SignalMsg::P2PReady { peer_id, .. } if peer_id == &pids[1]));
    assert_eq!(second.in_room, Some(pids[1].clone()));
}

#[test]
fn ready_goes_to_the_other_side() {
    let mut server = ServerState::new();
    let mut host = server.connect(1, "h:1");
    server.create_room_as(&mut host, "abcdef".to_string());
    let mut one = server.connect(2, "c:2");
    let mut two = server.connect(3, "c:3");
    joined(&mut server, &mut one, "abcdef");
    joined(&mut server, &mut two, "abcdef");

    let out = ready(&mut server, &mut one, "abcdef", "client_abc");
    assert_eq!(out.len(), 1);
    assert_eq!(out[0].conn, 1);
    assert!(matches!(&out[0].msg, SignalMsg::P2PReady { peer_id, .. } if peer_id == "client_abc"));

    let out = ready(&mut server, &mut host, "abcdef", "host_abcd");
    let mut conns: Vec<u64> = out.iter().map(|o| o.conn).collect();
    conns.sort();
    assert_eq!(conns, vec![2, 3]);
}

#[test]
fn host_takes_its_room_with_it() {
    let mut server = ServerState::new();
    let mut host = server.connect(1, "h:1");
    server.create_room_as(&mut host, "abcdef".to_string());
    let mut one = server.connect(2, "c:2");
    let mut two = server.connect(3, "c:3");
    joined(&mut server, &mut one, "abcdef");
    joined(&mut server, &mut two, "abcdef");
    let out = server.disconnect(host);
    let mut conns: Vec<u64> = out.iter().map(|o| o.conn).collect();
    conns.sort();
    assert_eq!(conns, vec![2, 3]);
    for o in &out {
        assert!(matches!(
            &o.msg,
            SignalMsg::RoomClosed { reason } if reason == "host_disconnected"
        ));
    }
    let mut late = server.connect(4, "c:4");
    let out = joined(&mut server, &mut late, "abcdef");
    assert!(matches!(&out[0].msg, SignalMsg::Error { .. }));
    assert!(server.disconnect(one).is_empty());
}

#[test]
fn other_messages_are_ignored() {
    let mut server = ServerState::new();
    let mut c = server.connect(1, "c:1");
    assert!(server.on_message(&mut c, &SignalMsg::Error { reason: "x".to_string() }).is_empty());
    assert!(server
        .on_message(&mut c, &SignalMsg::RoomClosed { reason: "x".to_string() })
        .is_empty());
    assert!(c.in_room.is_none());
}

#[test]
fn messages_travel_in_lines() {
    let json = "{\"type\":\"error\",\"reason\":\"x y\"}";
    let line = frame(json);
    assert_eq!(line, format!("{}\n", json));
    assert_eq!(unframe(&line), Some(json.to_string()));
    assert_eq!(unframe(" \t {} \r\n"), Some("{}".to_string()));
    assert_eq!(unframe("\n"), Some(String::new()));
    assert_eq!(unframe("\u{85}\u{3000}{} x\u{2003}\n"), Some("{} x".to_string()));
    assert_eq!(unframe("\u{200b}{}\n"), Some("\u{200b}{}".to_string()));
    assert_eq!(unframe(""), None);
}

#[test]
fn closed_connection_is_forgotten() {
    let mut server = ServerState::new();
    let mut host = server.connect(1, "h:1");
    server.create_room_as(&mut host, "abcdef".to_string());
    let mut one = server.connect(2, "c:2");
    let mut two = server.connect(3, "c:3");
    joined(&mut server, &mut one, "abcdef");
    joined(&mut server, &mut two, "abcdef");
    let name = one.in_room.clone().unwrap();
    server.disconnect(one);
    let out = ready(&mut server, &mut host, "abcdef", &name);
    assert_eq!(out.len(), 1);
    assert_eq!(out[0].conn, 3);
}

#[test]
fn visit_leaves_no_trace() {
    let mut server = ServerState::new();
    let mut host = server.connect(1, "h:1");
    server.create_room_as(&mut host, "abcdef".to_string());
    for n in 2..5u64 {
        let mut c = server.connect_as(n, "c:1", 7);
        joined(&mut server, &mut c, "abcdef");
        assert_eq!(c.in_room, Some("client_abc_1".to_string()));
        let out = server.disconnect(c);
        assert_eq!(out.len(), 1);
        assert!(ready(&mut server, &mut host, "abcdef", "client_abc_1").is_empty());
    }
}

#[test]
fn joining_client_gets_a_name_that_is_free() {
    let mut m = RoomManager::new();
    let (rid, _) = m.create_room("1:2");
    let (c1, _) = m.add_client(&rid, "3:4").unwrap();
    let (c2, _) = m.add_client(&rid, "5:6").unwrap();
    m.remove_peer(&c1);
    let (c3, _) = m.add_client(&rid, "7:8").unwrap();
    assert_ne!(c1, c2);
    assert_ne!(c3, c2);
    assert_eq!(c3, format!("client_{}_3", &rid[..3]));
    let room = m.get_room(&rid).unwrap();
    assert_eq!(room.clients.len(), 2);
    assert_eq!(room.clients.get(&c2).unwrap().addr, "5:6");
    assert_eq!(room.clients.get(&c3).unwrap().addr, "7:8");
}

#[test]
fn second_client_still_works_after_the_first_has_left() {
    let mut server = ServerState::new();
    let mut host = server.connect(1, "h:1");
    server.create_room_as(&mut host, "abcdef".to_string());
    let mut one = server.connect(2, "c:2");
    let mut two = server.connect(3, "c:3");
    joined(&mut server, &mut one, "abcdef");
    joined(&mut server, &mut two, "abcdef");
    server.disconnect(one);
    let mut three = server.connect(4, "c:4");
    joined(&mut server, &mut three, "abcdef");
    let name = two.in_room.clone().unwrap();
    let out = ready(&mut server, &mut host, "abcdef", &name);
    assert_eq!(out.len(), 1);
    assert_eq!(out[0].conn, 3);
    let out = server.disconnect(three);
    assert!(matches!(&out[0].msg, SignalMsg::PeerLeft { peer_id, .. } if peer_id != &name));
}

#[test]
fn drawn_bytes_make_the_name() {
    assert_eq!(room_name(&b"Ab1Zz9".to_vec()), "ab1zz9");
    assert_eq!(room_name(&b"aaaaaa".to_vec()), "aaaaaa");
}

#[test]
fn white_space_is_cut_off_at_both_ends() {
    for n in 0..=0x10ffffu32 {
        if let Some(c) = char::from_u32(n) {
            let white = matches!(
                n,
                0x09..=0x0d
                    | 0x20
                    | 0x85
                    | 0xa0
                    | 0x1680
                    | 0x2000..=0x200a
                    | 0x2028
                    | 0x2029
                    | 0x202f
                    | 0x205f
                    | 0x3000
            );
            let line: String = [c, 'x', c].iter().collect();
            let expected = if white { "x".to_string() } else { line.clone() };
            assert_eq!(unframe(&line), Some(expected));
        }
    }
}
