//! The signaling server: it introduces hosts and clients to each other.
//!
//! A connection is known by a number. What the server has to say is handed out
//! as messages, each with the number of the connection that it is for.

pub mod room;

use vstd::prelude::*;
use vstd::string::*;
use crate::server::room::{RoomManager, RoomsModel};
use crate::signal::{MsgModel, SignalMsg};
use crate::string_map;
use crate::string_map::StringMap;
use crate::text;

verus! {

/// How a peer is reached.
#[derive(Debug)]
pub struct PeerHandle {
    pub conn: u64,
    pub addr: String,
}

/// How a peer is reached.
#[verifier::ext_equal]
pub struct HandleModel {
    pub conn: u64,
    pub addr: Seq<char>,
}

impl View for PeerHandle {
    type V = HandleModel;

    open spec fn view(&self) -> HandleModel {
        HandleModel { conn: self.conn, addr: self.addr@ }
    }
}

/// A connection to the server.
#[derive(Debug)]
pub struct Connection {
    /// Its number.
    pub conn: u64,
    /// The name that it got at first.
    pub peer_id: String,
    /// Where it comes from.
    pub addr: String,
    /// The name that it has in its room.
    pub in_room: Option<String>,
}

/// A connection to the server.
#[verifier::ext_equal]
pub struct ConnectionModel {
    pub conn: u64,
    pub peer_id: Seq<char>,
    pub addr: Seq<char>,
    pub in_room: Option<Seq<char>>,
}

impl View for Connection {
    type V = ConnectionModel;

    open spec fn view(&self) -> ConnectionModel {
        ConnectionModel {
            conn: self.conn,
            peer_id: self.peer_id@,
            addr: self.addr@,
            in_room: crate::signal::optional_text(self.in_room),
        }
    }
}

/// A message for a connection.
#[derive(Debug)]
pub struct Outgoing {
    pub conn: u64,
    pub msg: SignalMsg,
}

impl View for Outgoing {
    type V = (u64, MsgModel);

    open spec fn view(&self) -> (u64, MsgModel) {
        (self.conn, self.msg@)
    }
}

/// Messages, each by its model.
pub open spec fn messages(out: Seq<Outgoing>) -> Seq<(u64, MsgModel)> {
    Seq::new(out.len(), |i: int| out[i]@)
}

/// What the server knows.
#[verifier::ext_equal]
pub struct ServerModel {
    pub rooms: RoomsModel,
    pub peers: Map<Seq<char>, HandleModel>,
}

/// The name of a connection: `peer_` and a number in hexadecimal notation.
pub open spec fn peer_name(n: u16) -> Seq<char> {
    "peer_"@ + text::hex4(n)
}

/// The message `msg` to each of the peers that is connected.
pub open spec fn to_each(
    peers: Map<Seq<char>, HandleModel>,
    targets: Seq<Seq<char>>,
    msg: MsgModel,
) -> Seq<(u64, MsgModel)>
    decreases targets.len(),
{
    if targets.len() == 0 {
        Seq::empty()
    } else {
        let front = to_each(peers, targets.drop_last(), msg);
        if peers.contains_key(targets.last()) {
            front.push((peers[targets.last()].conn, msg))
        } else {
            front
        }
    }
}

impl ConnectionModel {
    /// How the connection is reached.
    pub open spec fn handle(self) -> HandleModel {
        HandleModel { conn: self.conn, addr: self.addr }
    }

    /// Under a name in a room.
    pub open spec fn named(self, name: Seq<char>) -> ConnectionModel {
        ConnectionModel { in_room: Some(name), ..self }
    }
}

impl ServerModel {
    pub open spec fn empty() -> ServerModel {
        ServerModel { rooms: RoomsModel::empty(), peers: Map::empty() }
    }

    /// After a connection was accepted.
    pub open spec fn after_connect(self, c: ConnectionModel) -> ServerModel {
        ServerModel { peers: self.peers.insert(c.peer_id, c.handle()), ..self }
    }

    /// After a host has opened a room.
    pub open spec fn after_create(self, c: ConnectionModel, room_id: Seq<char>) -> ServerModel {
        ServerModel {
            rooms: self.rooms.after_create(room_id, c.addr),
            peers: self.peers.insert(room::host_id(room_id), c.handle()),
        }
    }

    /// What a host is told that has opened a room.
    pub open spec fn create_reply(c: ConnectionModel, room_id: Seq<char>) -> Seq<(u64, MsgModel)> {
        seq![(c.conn, MsgModel::RoomCreated { room_id, my_addr: c.addr })]
    }

    /// Whether a host has got a room with some name.
    pub open spec fn has_created(
        self,
        c: ConnectionModel,
        after: ServerModel,
        then: ConnectionModel,
        out: Seq<(u64, MsgModel)>,
    ) -> bool {
        exists|room_id: Seq<char>| #[trigger]
            room::is_room_id(room_id) && after == self.after_create(c, room_id) && then == c.named(
                room::host_id(room_id),
            ) && out == ServerModel::create_reply(c, room_id)
    }

    /// Whether there is such a room.
    pub open spec fn has_room(self, room_id: Seq<char>) -> bool {
        self.rooms.rooms.contains_key(room_id)
    }

    /// After a client has asked to join a room.
    pub open spec fn after_join(self, c: ConnectionModel, room_id: Seq<char>) -> ServerModel {
        if self.has_room(room_id) {
            ServerModel {
                rooms: self.rooms.after_join(room_id, c.addr),
                peers: self.peers.insert(self.rooms.next_client(room_id), c.handle()),
            }
        } else {
            self
        }
    }

    /// A connection that has asked to join a room.
    pub open spec fn joined(self, c: ConnectionModel, room_id: Seq<char>) -> ConnectionModel {
        if self.has_room(room_id) {
            c.named(self.rooms.next_client(room_id))
        } else {
            c
        }
    }

    /// What is said when a client asks to join a room: it is refused where
    /// there is no such room, else it learns of the host, and the host of it.
    pub open spec fn join_reply(self, c: ConnectionModel, room_id: Seq<char>) -> Seq<
        (u64, MsgModel),
    > {
        if self.has_room(room_id) {
            let host = self.rooms.rooms[room_id];
            seq![
                (
                    c.conn,
                    MsgModel::RoomInfo { host_addr: host.host_addr, my_addr: c.addr, room_id },
                ),
            ] + to_each(
                self.after_join(c, room_id).peers,
                seq![host.host_peer_id],
                MsgModel::PeerJoined {
                    peer_addr: c.addr,
                    peer_id: self.rooms.next_client(room_id),
                    room_id,
                },
            )
        } else {
            seq![(c.conn, MsgModel::Error { reason: "room_not_found"@ })]
        }
    }

    /// Whether a connection is the host of a room.
    pub open spec fn is_host(self, c: ConnectionModel, room_id: Seq<char>) -> bool {
        c.in_room == Some(self.rooms.rooms[room_id].host_peer_id)
    }

    /// Whether `targets` are those that learn that `peer_id` is ready: of a host
    /// the client that it names, or all clients where it names none of them; of
    /// anybody else the host.
    pub open spec fn are_told(
        self,
        c: ConnectionModel,
        room_id: Seq<char>,
        peer_id: Seq<char>,
        targets: Seq<Seq<char>>,
    ) -> bool {
        if !self.has_room(room_id) {
            targets == Seq::<Seq<char>>::empty()
        } else if !self.is_host(c, room_id) {
            targets == seq![self.rooms.rooms[room_id].host_peer_id]
        } else if self.rooms.rooms[room_id].clients.contains_key(peer_id) {
            targets == seq![peer_id]
        } else {
            string_map::lists(targets, self.rooms.rooms[room_id].clients.dom())
        }
    }

    /// Whether those were told that `peer_id` is ready that should be, in some
    /// order.
    pub open spec fn has_told(
        self,
        c: ConnectionModel,
        room_id: Seq<char>,
        peer_id: Seq<char>,
        out: Seq<(u64, MsgModel)>,
    ) -> bool {
        exists|targets: Seq<Seq<char>>| #[trigger]
            self.are_told(c, room_id, peer_id, targets) && out == to_each(
                self.peers,
                targets,
                MsgModel::P2PReady { room_id, peer_id },
            )
    }

    /// Without a connection.
    pub open spec fn without(self, c: ConnectionModel) -> ServerModel {
        ServerModel {
            peers: match c.in_room {
                None => self.peers.remove(c.peer_id),
                Some(name) => self.peers.remove(c.peer_id).remove(name),
            },
            ..self
        }
    }

    /// After a connection was closed: a host takes its room with it, a client
    /// leaves its room.
    pub open spec fn after_disconnect(self, c: ConnectionModel) -> ServerModel {
        let rest = self.without(c);
        match c.in_room {
            None => rest,
            Some(name) => {
                let left = rest.rooms.after_leave(name);
                ServerModel {
                    rooms: match rest.rooms.hosted_by(name) {
                        Some(room_id) => left.after_close(room_id),
                        None => left,
                    },
                    ..rest
                }
            },
        }
    }

    /// Whether `targets` are those that learn that a connection was closed.
    pub open spec fn are_left(self, c: ConnectionModel, targets: Seq<Seq<char>>) -> bool {
        match c.in_room {
            None => targets == Seq::<Seq<char>>::empty(),
            Some(name) => match self.rooms.hosted_by(name) {
                Some(room_id) => string_map::lists(
                    targets,
                    self.rooms.rooms[room_id].clients.dom(),
                ),
                None => match self.rooms.room_of(name) {
                    Some(room_id) => if self.has_room(room_id) {
                        targets == seq![self.rooms.rooms[room_id].host_peer_id]
                    } else {
                        targets == Seq::<Seq<char>>::empty()
                    },
                    None => targets == Seq::<Seq<char>>::empty(),
                },
            },
        }
    }

    /// What they are told: that the room is closed, or who has left it.
    pub open spec fn farewell(self, name: Seq<char>) -> MsgModel {
        if self.rooms.hosted_by(name) is Some {
            MsgModel::RoomClosed { reason: "host_disconnected"@ }
        } else {
            MsgModel::PeerLeft { peer_id: name, room_id: self.rooms.peer_to_room[name] }
        }
    }

    /// Whether those were told that a connection was closed that should be, in
    /// some order.
    pub open spec fn has_left(self, c: ConnectionModel, out: Seq<(u64, MsgModel)>) -> bool {
        exists|targets: Seq<Seq<char>>| #[trigger]
            self.are_left(c, targets) && out == to_each(
                self.without(c).peers,
                targets,
                self.farewell(c.in_room->0),
            )
    }
}

/// The rooms and the peers of a server.
pub struct ServerState {
    rooms: RoomManager,
    peers: StringMap<PeerHandle>,
}

/// Handles, each by its model.
pub open spec fn handle_models(peers: Map<Seq<char>, PeerHandle>) -> Map<Seq<char>, HandleModel> {
    peers.map_values(|h: PeerHandle| h@)
}

proof fn lemma_handles(peers: Map<Seq<char>, PeerHandle>, key: Seq<char>, h: PeerHandle)
    ensures
        handle_models(peers.insert(key, h)) == handle_models(peers).insert(key, h@),
        handle_models(peers.remove(key)) == handle_models(peers).remove(key),
{
    assert(handle_models(peers.insert(key, h)) =~= handle_models(peers).insert(key, h@));
    assert(handle_models(peers.remove(key)) =~= handle_models(peers).remove(key));
}

impl View for ServerState {
    type V = ServerModel;

    closed spec fn view(&self) -> ServerModel {
        ServerModel { rooms: self.rooms@, peers: handle_models(self.peers@) }
    }
}

/// `rand::random::<u16>()` of rand: any number, by chance.
#[verifier::external_body]
fn random_number() -> (n: u16) {
    rand::random::<u16>()
}

impl ServerState {
    pub closed spec fn wf(&self) -> bool {
        self.rooms.wf() && self.peers.wf()
    }

    /// A server without rooms or peers.
    pub fn new() -> (server: ServerState)
        ensures
            server.wf(),
            server@ == ServerModel::empty(),
    {
        let server = ServerState { rooms: RoomManager::new(), peers: StringMap::new() };
        assert(server@ =~= ServerModel::empty());
        server
    }

    /// Notes how a peer is reached.
    fn note(&mut self, name: &String, conn: u64, addr: &String)
        requires
            old(self).wf(),
        ensures
            final(self).wf(),
            final(self)@ == (ServerModel {
                peers: old(self)@.peers.insert(name@, HandleModel { conn, addr: addr@ }),
                ..old(self)@
            }),
    {
        let handle = PeerHandle { conn, addr: addr.clone() };
        proof {
            lemma_handles(self.peers@, name@, handle);
        }
        self.peers.insert(name.clone(), handle);
    }

    /// Forgets how a peer is reached.
    fn forget(&mut self, name: &String)
        requires
            old(self).wf(),
        ensures
            final(self).wf(),
            final(self)@ == (ServerModel {
                peers: old(self)@.peers.remove(name@),
                ..old(self)@
            }),
    {
        proof {
            lemma_handles(self.peers@, name@, arbitrary());
        }
        self.peers.remove(name.as_str());
    }

    /// Accepts a connection under a name that chance chose.
    pub fn connect(&mut self, conn: u64, addr: &str) -> (c: Connection)
        requires
            old(self).wf(),
        ensures
            final(self).wf(),
            c.conn == conn,
            c.addr@ == addr@,
            c.in_room is None,
            exists|n: u16| c.peer_id@ == #[trigger] peer_name(n),
            final(self)@ == old(self)@.after_connect(c@),
    {
        let n: u16 = random_number();
        self.connect_as(conn, addr, n)
    }

    /// Accepts a connection under a name with a number.
    pub fn connect_as(&mut self, conn: u64, addr: &str, n: u16) -> (c: Connection)
        requires
            old(self).wf(),
        ensures
            final(self).wf(),
            c@ == (ConnectionModel { conn, peer_id: peer_name(n), addr: addr@, in_room: None }),
            final(self)@ == old(self)@.after_connect(c@),
    {
        let mut peer_id = "peer_".to_owned();
        text::push_hex4(&mut peer_id, n);
        let addr = addr.to_owned();
        self.note(&peer_id, conn, &addr);
        Connection { conn, peer_id, addr, in_room: None }
    }

    /// A host asks for a room; chance chooses its name.
    pub fn create_room(&mut self, c: &mut Connection) -> (out: Vec<Outgoing>)
        requires
            old(self).wf(),
        ensures
            final(self).wf(),
            old(self)@.has_created(old(c)@, final(self)@, final(c)@, messages(out@)),
    {
        let ghost before = self@;
        let ghost from = c@;
        let (room_id, host_peer_id) = self.rooms.create_room(c.addr.as_str());
        let ghost name = room_id@;
        let out = self.announce(c, room_id, host_peer_id);
        assert(room::is_room_id(name) && self@ == before.after_create(from, name));
        out
    }

    /// A host asks for a room that gets the name `room_id`.
    pub fn create_room_as(&mut self, c: &mut Connection, room_id: String) -> (out: Vec<Outgoing>)
        requires
            old(self).wf(),
            room::is_room_id(room_id@),
        ensures
            final(self).wf(),
            final(self)@ == old(self)@.after_create(old(c)@, room_id@),
            final(c)@ == old(c)@.named(room::host_id(room_id@)),
            messages(out@) == ServerModel::create_reply(old(c)@, room_id@),
    {
        let host_peer_id = self.rooms.create_room_as(&room_id, c.addr.as_str());
        self.announce(c, room_id, host_peer_id)
    }

    /// Tells a host of its new room.
    fn announce(&mut self, c: &mut Connection, room_id: String, host_peer_id: String) -> (out: Vec<
        Outgoing,
    >)
        requires
            old(self).wf(),
        ensures
            final(self).wf(),
            final(self)@ == (ServerModel {
                peers: old(self)@.peers.insert(host_peer_id@, old(c)@.handle()),
                ..old(self)@
            }),
            final(c)@ == old(c)@.named(host_peer_id@),
            messages(out@) == ServerModel::create_reply(old(c)@, room_id@),
    {
        let ghost before = c@;
        self.note(&host_peer_id, c.conn, &c.addr);
        c.in_room = Some(host_peer_id);
        let mut out: Vec<Outgoing> = Vec::new();
        out.push(
            Outgoing {
                conn: c.conn,
                msg: SignalMsg::RoomCreated { room_id, my_addr: c.addr.clone() },
            },
        );
        assert(messages(out@) =~= ServerModel::create_reply(before, room_id@));
        out
    }

    /// A client asks to join a room.
    pub fn join_room(&mut self, c: &mut Connection, room_id: &str) -> (out: Vec<Outgoing>)
        requires
            old(self).wf(),
        ensures
            final(self).wf(),
            final(self)@ == old(self)@.after_join(old(c)@, room_id@),
            final(c)@ == old(self)@.joined(old(c)@, room_id@),
            messages(out@) == old(self)@.join_reply(old(c)@, room_id@),
    {
        let ghost before = self@;
        let ghost from = c@;
        let mut out: Vec<Outgoing> = Vec::new();
        match self.rooms.add_client(room_id, c.addr.as_str()) {
            None => {
                out.push(
                    Outgoing {
                        conn: c.conn,
                        msg: SignalMsg::Error { reason: "room_not_found".to_owned() },
                    },
                );
                assert(messages(out@) =~= before.join_reply(from, room_id@));
                out
            },
            Some((peer_id, host_addr)) => {
                self.note(&peer_id, c.conn, &c.addr);
                assert(self@ =~= before.after_join(from, room_id@));
                out.push(
                    Outgoing {
                        conn: c.conn,
                        msg: SignalMsg::RoomInfo {
                            host_addr,
                            my_addr: c.addr.clone(),
                            room_id: room_id.to_owned(),
                        },
                    },
                );
                let ghost info = messages(out@);
                if let Some(room) = self.rooms.get_room(room_id) {
                    let ghost host = before.rooms.rooms[room_id@].host_peer_id;
                    let ghost msg = MsgModel::PeerJoined {
                        peer_addr: from.addr,
                        peer_id: peer_id@,
                        room_id: room_id@,
                    };
                    proof {
                        assert(room.host_peer_id@ == host);
                        lemma_to_one(self@.peers, host, msg);
                    }
                    if let Some(handle) = self.peers.get(room.host_peer_id.as_str()) {
                        out.push(
                            Outgoing {
                                conn: handle.conn,
                                msg: SignalMsg::PeerJoined {
                                    peer_addr: c.addr.clone(),
                                    peer_id: peer_id.clone(),
                                    room_id: room_id.to_owned(),
                                },
                            },
                        );
                    }
                    assert(messages(out@) =~= before.join_reply(from, room_id@));
                }
                c.in_room = Some(peer_id);
                out
            },
        }
    }

    /// A peer says that `peer_id` is reachable in a room.
    pub fn p2p_ready(&self, c: &Connection, room_id: &str, peer_id: &str) -> (out: Vec<Outgoing>)
        requires
            self.wf(),
        ensures
            self@.has_told(c@, room_id@, peer_id@, messages(out@)),
    {
        let mut targets: Vec<String> = Vec::new();
        if let Some(room) = self.rooms.get_room(room_id) {
            let is_host = match &c.in_room {
                Some(name) => *name == room.host_peer_id,
                None => false,
            };
            assert(is_host == self@.is_host(c@, room_id@));
            assert(room@.clients.dom() =~= room.clients@.dom());
            if !is_host {
                targets.push(room.host_peer_id.clone());
                assert(string_map::texts(targets@) =~= seq![room.host_peer_id@]);
            } else if room.clients.contains_key(peer_id) {
                targets.push(peer_id.to_owned());
                assert(string_map::texts(targets@) =~= seq![peer_id@]);
            } else {
                targets = room.clients.keys();
            }
        } else {
            assert(string_map::texts(targets@) =~= Seq::empty());
        }
        let ghost row = string_map::texts(targets@);
        let ghost msg = MsgModel::P2PReady { room_id: room_id@, peer_id: peer_id@ };
        assert(self@.are_told(c@, room_id@, peer_id@, row));
        let mut out: Vec<Outgoing> = Vec::new();
        let mut i: usize = 0;
        assert(row.take(0) =~= Seq::empty());
        assert(messages(out@) =~= Seq::empty());
        while i < targets.len()
            invariant
                i <= targets@.len(),
                self.wf(),
                row == string_map::texts(targets@),
                msg == (MsgModel::P2PReady { room_id: room_id@, peer_id: peer_id@ }),
                messages(out@) == to_each(self@.peers, row.take(i as int), msg),
            decreases targets.len() - i,
        {
            let ghost sent = messages(out@);
            proof {
                assert(row.take(i + 1).drop_last() =~= row.take(i as int));
                assert(row[i as int] == targets@[i as int]@);
            }
            if let Some(handle) = self.peers.get(targets[i].as_str()) {
                out.push(
                    Outgoing {
                        conn: handle.conn,
                        msg: SignalMsg::P2PReady {
                            room_id: room_id.to_owned(),
                            peer_id: peer_id.to_owned(),
                        },
                    },
                );
                assert(messages(out@) =~= sent.push((handle.conn, msg)));
            }
            i = i + 1;
        }
        assert(row.take(i as int) =~= row);
        out
    }

    /// Takes a message from a connection; chance chooses the names of rooms.
    pub fn on_message(&mut self, c: &mut Connection, msg: &SignalMsg) -> (out: Vec<Outgoing>)
        requires
            old(self).wf(),
        ensures
            final(self).wf(),
            match msg@ {
                MsgModel::CreateRoom { .. } => old(self)@.has_created(
                    old(c)@,
                    final(self)@,
                    final(c)@,
                    messages(out@),
                ),
                MsgModel::JoinRoom { room_id, .. } => {
                    &&& final(self)@ == old(self)@.after_join(old(c)@, room_id)
                    &&& final(c)@ == old(self)@.joined(old(c)@, room_id)
                    &&& messages(out@) == old(self)@.join_reply(old(c)@, room_id)
                },
                MsgModel::P2PReady { room_id, peer_id } => {
                    &&& final(self)@ == old(self)@
                    &&& final(c)@ == old(c)@
                    &&& old(self)@.has_told(old(c)@, room_id, peer_id, messages(out@))
                },
                _ => final(self)@ == old(self)@ && final(c)@ == old(c)@ && out@.len() == 0,
            },
    {
        match msg {
            SignalMsg::CreateRoom { .. } => self.create_room(c),
            SignalMsg::JoinRoom { room_id, .. } => self.join_room(c, room_id.as_str()),
            SignalMsg::P2PReady { room_id, peer_id } => self.p2p_ready(
                c,
                room_id.as_str(),
                peer_id.as_str(),
            ),
            _ => Vec::new(),
        }
    }

    /// A connection was closed.
    pub fn disconnect(&mut self, c: Connection) -> (out: Vec<Outgoing>)
        requires
            old(self).wf(),
        ensures
            final(self).wf(),
            final(self)@ == old(self)@.after_disconnect(c@),
            old(self)@.has_left(c@, messages(out@)),
    {
        let ghost before = self@;
        let ghost from = c@;
        let mut out: Vec<Outgoing> = Vec::new();
        assert(messages(out@) =~= Seq::empty());
        self.forget(&c.peer_id);
        let name = match c.in_room {
            None => {
                assert(before.are_left(from, Seq::empty()));
                return out;
            },
            Some(name) => name,
        };
        self.forget(&name);
        let ghost rest = before.without(from);
        assert(self@ == rest);
        let ghost farewell = before.farewell(name@);
        let room_of = self.rooms.find_room_for_peer(name.as_str());
        match self.rooms.remove_peer(name.as_str()) {
            Some(room_id) => {
                let mut targets: Vec<String> = Vec::new();
                if let Some(room) = self.rooms.get_room(room_id.as_str()) {
                    assert(room@.clients.dom() =~= room.clients@.dom());
                    targets = room.clients.keys();
                }
                let ghost row = string_map::texts(targets@);
                assert(before.are_left(from, row));
                assert(row.take(0) =~= Seq::empty());
                let mut i: usize = 0;
                while i < targets.len()
                    invariant
                        i <= targets@.len(),
                        self.wf(),
                        self@.peers == rest.peers,
                        row == string_map::texts(targets@),
                        farewell == (MsgModel::RoomClosed { reason: "host_disconnected"@ }),
                        messages(out@) == to_each(rest.peers, row.take(i as int), farewell),
                    decreases targets.len() - i,
                {
                    let ghost sent = messages(out@);
                    proof {
                        assert(row.take(i + 1).drop_last() =~= row.take(i as int));
                        assert(row[i as int] == targets@[i as int]@);
                    }
                    if let Some(handle) = self.peers.get(targets[i].as_str()) {
                        out.push(
                            Outgoing {
                                conn: handle.conn,
                                msg: SignalMsg::RoomClosed {
                                    reason: "host_disconnected".to_owned(),
                                },
                            },
                        );
                        assert(messages(out@) =~= sent.push((handle.conn, farewell)));
                    }
                    i = i + 1;
                }
                assert(row.take(i as int) =~= row);
                self.rooms.remove_room(room_id.as_str());
            },
            None => {
                let ghost mut row: Seq<Seq<char>> = Seq::empty();
                if let Some(room_id) = room_of {
                    if let Some(room) = self.rooms.get_room(room_id.as_str()) {
                        proof {
                            row = seq![room.host_peer_id@];
                            lemma_to_one(rest.peers, room.host_peer_id@, farewell);
                        }
                        if let Some(handle) = self.peers.get(room.host_peer_id.as_str()) {
                            out.push(
                                Outgoing {
                                    conn: handle.conn,
                                    msg: SignalMsg::PeerLeft { peer_id: name, room_id },
                                },
                            );
                        }
                        assert(messages(out@) =~= to_each(rest.peers, row, farewell));
                    }
                }
                assert(before.are_left(from, row));
            },
        }
        out
    }
}

proof fn lemma_to_one(peers: Map<Seq<char>, HandleModel>, target: Seq<char>, msg: MsgModel)
    ensures
        to_each(peers, seq![target], msg) == if peers.contains_key(target) {
            seq![(peers[target].conn, msg)]
        } else {
            Seq::empty()
        },
{
    assert(seq![target].drop_last() =~= Seq::empty());
    assert(to_each(peers, seq![target].drop_last(), msg) =~= Seq::empty());
    assert(to_each(peers, seq![target], msg) =~= if peers.contains_key(target) {
        seq![(peers[target].conn, msg)]
    } else {
        Seq::empty()
    });
}

/// A client that asks for a room that is not there is told so, and nothing
/// changes.
pub proof fn law_unknown_room_is_refused(
    server: ServerModel,
    c: ConnectionModel,
    room_id: Seq<char>,
)
    requires
        !server.has_room(room_id),
    ensures
        server.join_reply(c, room_id) == seq![
            (c.conn, MsgModel::Error { reason: "room_not_found"@ }),
        ],
        server.after_join(c, room_id) == server,
        server.joined(c, room_id) == c,
{
}

/// A client that joins learns the address of the host, and the host, where it
/// is connected, the address and the name of the client; nobody else hears of
/// it.
pub proof fn law_joining_introduces(server: ServerModel, c: ConnectionModel, room_id: Seq<char>)
    requires
        server.has_room(room_id),
        server.peers.contains_key(server.rooms.rooms[room_id].host_peer_id),
        server.rooms.next_client(room_id) != server.rooms.rooms[room_id].host_peer_id,
    ensures
        server.join_reply(c, room_id) == seq![
            (
                c.conn,
                MsgModel::RoomInfo {
                    host_addr: server.rooms.rooms[room_id].host_addr,
                    my_addr: c.addr,
                    room_id,
                },
            ),
            (
                server.peers[server.rooms.rooms[room_id].host_peer_id].conn,
                MsgModel::PeerJoined {
                    peer_addr: c.addr,
                    peer_id: server.rooms.next_client(room_id),
                    room_id,
                },
            ),
        ],
        server.joined(c, room_id).in_room == Some(server.rooms.next_client(room_id)),
{
    lemma_to_one(
        server.after_join(c, room_id).peers,
        server.rooms.rooms[room_id].host_peer_id,
        MsgModel::PeerJoined {
            peer_addr: c.addr,
            peer_id: server.rooms.next_client(room_id),
            room_id,
        },
    );
}

/// A client that joins takes nothing from the clients that are in the room: each
/// keeps its name and its connection.
pub proof fn law_joining_leaves_others_reachable(
    server: ServerModel,
    c: ConnectionModel,
    room_id: Seq<char>,
    other: Seq<char>,
)
    requires
        server.has_room(room_id),
        server.rooms.rooms[room_id].clients.dom().finite(),
        server.rooms.rooms[room_id].clients.contains_key(other),
    ensures
        server.rooms.next_client(room_id) != other,
        server.after_join(c, room_id).rooms.rooms[room_id].clients.contains_key(other),
        server.after_join(c, room_id).rooms.rooms[room_id].clients[other]
            == server.rooms.rooms[room_id].clients[other],
        server.after_join(c, room_id).peers.contains_key(other) == server.peers.contains_key(
            other,
        ),
        server.peers.contains_key(other) ==> server.after_join(c, room_id).peers[other]
            == server.peers[other],
{
    room::law_joining_gives_a_new_name(server.rooms, room_id, c.addr, other);
}

/// What a host says of one of its clients goes to that client and to nobody
/// else.
pub proof fn law_host_reaches_one_client(
    server: ServerModel,
    c: ConnectionModel,
    room_id: Seq<char>,
    peer_id: Seq<char>,
    out: Seq<(u64, MsgModel)>,
)
    requires
        server.has_room(room_id),
        server.is_host(c, room_id),
        server.rooms.rooms[room_id].clients.contains_key(peer_id),
        server.peers.contains_key(peer_id),
        server.has_told(c, room_id, peer_id, out),
    ensures
        out == seq![(server.peers[peer_id].conn, MsgModel::P2PReady { room_id, peer_id })],
{
    lemma_to_one(server.peers, peer_id, MsgModel::P2PReady { room_id, peer_id });
}

/// What a client says goes to the host of the room and to nobody else.
pub proof fn law_client_reaches_the_host(
    server: ServerModel,
    c: ConnectionModel,
    room_id: Seq<char>,
    peer_id: Seq<char>,
    out: Seq<(u64, MsgModel)>,
)
    requires
        server.has_room(room_id),
        !server.is_host(c, room_id),
        server.peers.contains_key(server.rooms.rooms[room_id].host_peer_id),
        server.has_told(c, room_id, peer_id, out),
    ensures
        out == seq![
            (
                server.peers[server.rooms.rooms[room_id].host_peer_id].conn,
                MsgModel::P2PReady { room_id, peer_id },
            ),
        ],
{
    lemma_to_one(
        server.peers,
        server.rooms.rooms[room_id].host_peer_id,
        MsgModel::P2PReady { room_id, peer_id },
    );
}

proof fn lemma_to_each(
    peers: Map<Seq<char>, HandleModel>,
    targets: Seq<Seq<char>>,
    msg: MsgModel,
    target: Seq<char>,
)
    requires
        targets.contains(target),
        peers.contains_key(target),
    ensures
        to_each(peers, targets, msg).contains((peers[target].conn, msg)),
    decreases targets.len(),
{
    let front = targets.drop_last();
    let all = to_each(peers, targets, msg);
    let sent = to_each(peers, front, msg);
    let item = (peers[target].conn, msg);
    if targets.last() == target {
        assert(all.last() == item);
    } else {
        let i = choose|i: int| 0 <= i < targets.len() && targets[i] == target;
        assert(front[i] == target);
        lemma_to_each(peers, front, msg, target);
        let j = choose|j: int| 0 <= j < sent.len() && sent[j] == item;
        assert(all[j] == item);
    }
}

proof fn lemma_only_targets(
    peers: Map<Seq<char>, HandleModel>,
    targets: Seq<Seq<char>>,
    msg: MsgModel,
)
    ensures
        forall|i: int|
            #![trigger to_each(peers, targets, msg)[i]]
            0 <= i < to_each(peers, targets, msg).len() ==> {
                &&& to_each(peers, targets, msg)[i].1 == msg
                &&& exists|t: Seq<char>| #[trigger]
                    targets.contains(t) && peers.contains_key(t) && peers[t].conn == to_each(
                        peers,
                        targets,
                        msg,
                    )[i].0
            },
    decreases targets.len(),
{
    let all = to_each(peers, targets, msg);
    if targets.len() > 0 {
        let front = targets.drop_last();
        let sent = to_each(peers, front, msg);
        lemma_only_targets(peers, front, msg);
        assert forall|i: int| #![trigger all[i]] 0 <= i < all.len() implies {
            &&& all[i].1 == msg
            &&& exists|t: Seq<char>| #[trigger]
                targets.contains(t) && peers.contains_key(t) && peers[t].conn == all[i].0
        } by {
            if i < sent.len() {
                assert(all[i] == sent[i]);
                let t = choose|t: Seq<char>| #[trigger]
                    front.contains(t) && peers.contains_key(t) && peers[t].conn == sent[i].0;
                let k = choose|k: int| 0 <= k < front.len() && front[k] == t;
                assert(targets[k] == t);
                assert(targets.contains(t));
            } else {
                assert(targets[targets.len() - 1] == targets.last());
                assert(targets.contains(targets.last()));
            }
        }
    }
}

/// A host that goes takes its room with it, and each client of the room that
/// is still connected is told that the room is closed; nobody else is told
/// anything.
pub proof fn law_host_takes_its_room(
    server: ServerModel,
    c: ConnectionModel,
    name: Seq<char>,
    room_id: Seq<char>,
    out: Seq<(u64, MsgModel)>,
)
    requires
        c.in_room == Some(name),
        server.rooms.hosted_by(name) == Some(room_id),
        server.has_left(c, out),
    ensures
        !server.after_disconnect(c).has_room(room_id),
        server.after_disconnect(c).rooms.room_of(name) is None,
        forall|key: Seq<char>| #[trigger]
            server.rooms.rooms[room_id].clients.contains_key(key) ==> server.after_disconnect(
                c,
            ).rooms.room_of(server.rooms.rooms[room_id].clients[key].peer_id) is None,
        forall|client: Seq<char>| #[trigger]
            server.rooms.rooms[room_id].clients.contains_key(client) && server.without(
                c,
            ).peers.contains_key(client) ==> out.contains(
                (
                    server.without(c).peers[client].conn,
                    MsgModel::RoomClosed { reason: "host_disconnected"@ },
                ),
            ),
        forall|i: int|
            #![trigger out[i]]
            0 <= i < out.len() ==> {
                &&& out[i].1 == (MsgModel::RoomClosed { reason: "host_disconnected"@ })
                &&& exists|client: Seq<char>| #[trigger]
                    server.rooms.rooms[room_id].clients.contains_key(client) && server.without(
                        c,
                    ).peers.contains_key(client) && server.without(c).peers[client].conn
                        == out[i].0
            },
{
    let peers = server.without(c).peers;
    let clients = server.rooms.rooms[room_id].clients;
    let rooms = server.after_disconnect(c).rooms;
    assert forall|key: Seq<char>| #[trigger] clients.contains_key(key) implies rooms.room_of(
        clients[key].peer_id,
    ) is None by {
        room::law_closed_room_is_gone(server.rooms.after_leave(name), room_id, key);
    }
    let targets = choose|targets: Seq<Seq<char>>| #[trigger]
        server.are_left(c, targets) && out == to_each(peers, targets, server.farewell(name));
    let msg = MsgModel::RoomClosed { reason: "host_disconnected"@ };
    assert forall|client: Seq<char>| #[trigger]
        clients.contains_key(client) && peers.contains_key(client) implies out.contains(
        (peers[client].conn, msg),
    ) by {
        assert(targets.to_set().contains(client));
        lemma_to_each(peers, targets, msg, client);
    }
    lemma_only_targets(peers, targets, msg);
    assert forall|i: int| #![trigger out[i]] 0 <= i < out.len() implies {
        &&& out[i].1 == msg
        &&& exists|client: Seq<char>| #[trigger]
            clients.contains_key(client) && peers.contains_key(client) && peers[client].conn
                == out[i].0
    } by {
        assert(to_each(peers, targets, msg)[i] == out[i]);
        let t = choose|t: Seq<char>| #[trigger]
            targets.contains(t) && peers.contains_key(t) && peers[t].conn == out[i].0;
        assert(targets.to_set().contains(t));
        assert(clients.contains_key(t));
    }
}

/// A client that goes leaves the room to the others, and the host, where it is
/// connected, is told who has left; nobody else is.
pub proof fn law_client_leaves_the_room(
    server: ServerModel,
    c: ConnectionModel,
    name: Seq<char>,
    room_id: Seq<char>,
    out: Seq<(u64, MsgModel)>,
)
    requires
        c.in_room == Some(name),
        server.rooms.hosted_by(name) is None,
        server.rooms.room_of(name) == Some(room_id),
        server.has_room(room_id),
        server.without(c).peers.contains_key(server.rooms.rooms[room_id].host_peer_id),
        server.has_left(c, out),
    ensures
        out == seq![
            (
                server.without(c).peers[server.rooms.rooms[room_id].host_peer_id].conn,
                MsgModel::PeerLeft { peer_id: name, room_id },
            ),
        ],
        server.after_disconnect(c).has_room(room_id),
        server.after_disconnect(c).rooms.rooms[room_id].clients
            == server.rooms.rooms[room_id].clients.remove(name),
        server.after_disconnect(c).rooms.rooms[room_id].host_peer_id
            == server.rooms.rooms[room_id].host_peer_id,
        server.after_disconnect(c).rooms.rooms[room_id].host_addr
            == server.rooms.rooms[room_id].host_addr,
        server.after_disconnect(c).rooms.room_of(name) is None,
{
    lemma_to_one(
        server.without(c).peers,
        server.rooms.rooms[room_id].host_peer_id,
        MsgModel::PeerLeft { peer_id: name, room_id },
    );
}

/// A connection that was closed is reached no more.
pub proof fn law_closed_connection_is_forgotten(server: ServerModel, c: ConnectionModel)
    ensures
        !server.after_disconnect(c).peers.contains_key(c.peer_id),
        c.in_room is Some ==> !server.after_disconnect(c).peers.contains_key(c.in_room->0),
{
}

/// A client that joins and goes leaves the server as it was before it came.
pub proof fn law_visit_leaves_no_trace(
    server: ServerModel,
    c: ConnectionModel,
    room_id: Seq<char>,
)
    requires
        c.in_room is None,
        server.has_room(room_id),
        server.rooms.rooms[room_id].clients.dom().finite(),
        !server.rooms.peer_to_room.contains_key(server.rooms.next_client(room_id)),
        server.rooms.rooms[room_id].host_peer_id != server.rooms.next_client(room_id),
        !server.peers.contains_key(c.peer_id),
        !server.peers.contains_key(server.rooms.next_client(room_id)),
    ensures
        server.after_connect(c).after_join(c, room_id).after_disconnect(
            server.joined(c, room_id),
        ) == server,
{
    let visited = server.after_connect(c).after_join(c, room_id);
    let after = visited.after_disconnect(server.joined(c, room_id));
    room::law_leaving_undoes_joining(server.rooms, room_id, c.addr);
    assert(after.rooms == server.rooms);
    assert(after.peers =~= server.peers);
}

/// Whether two states of a server agree in how a peer is reached: both know it,
/// or neither does.
pub open spec fn same_peer(a: ServerModel, b: ServerModel, name: Seq<char>) -> bool {
    &&& a.peers.contains_key(name) <==> b.peers.contains_key(name)
    &&& a.peers.contains_key(name) ==> a.peers[name] == b.peers[name]
}

/// A connection that is accepted is reached under its name, at its address; no
/// room and no other peer is concerned.
pub proof fn law_accepted_connection_is_reached(
    server: ServerModel,
    c: ConnectionModel,
    other: Seq<char>,
)
    requires
        other != c.peer_id,
    ensures
        ({
            let after = server.after_connect(c);
            &&& after.peers.contains_key(c.peer_id)
            &&& after.peers[c.peer_id].conn == c.conn
            &&& after.peers[c.peer_id].addr == c.addr
            &&& after.rooms == server.rooms
            &&& same_peer(server, after, other)
            &&& ServerModel::empty().peers.dom() =~= Set::<Seq<char>>::empty()
            &&& ServerModel::empty().rooms.rooms.dom() =~= Set::<Seq<char>>::empty()
        }),
{
}

/// A host that opens a room is told its name and the own address, is the host of
/// that room, and is reached under its name there. All other rooms stay as they
/// are, and all other peers are reached as before.
pub proof fn law_created_room_has_its_host(
    server: ServerModel,
    c: ConnectionModel,
    room_id: Seq<char>,
    other: Seq<char>,
    peer: Seq<char>,
)
    requires
        other != room_id,
        peer != room::host_id(room_id),
    ensures
        ({
            let after = server.after_create(c, room_id);
            let name = room::host_id(room_id);
            let out = ServerModel::create_reply(c, room_id);
            &&& out.len() == 1
            &&& out[0] == (c.conn, MsgModel::RoomCreated { room_id, my_addr: c.addr })
            &&& after.has_room(room_id)
            &&& after.rooms.rooms[room_id].host_addr == c.addr
            &&& after.rooms.rooms[room_id].host_peer_id == name
            &&& after.rooms.rooms[room_id].clients.dom() =~= Set::<Seq<char>>::empty()
            &&& after.rooms.hosted_by(name) == Some(room_id)
            &&& after.peers.contains_key(name)
            &&& after.peers[name].conn == c.conn
            &&& c.named(name).in_room == Some(name)
            &&& c.named(name).conn == c.conn
            &&& c.named(name).peer_id == c.peer_id
            &&& c.named(name).addr == c.addr
            &&& room::same_room(server.rooms, after.rooms, other)
            &&& after.rooms.room_of(peer) == server.rooms.room_of(peer)
            &&& same_peer(server, after, peer)
        }),
{
    room::law_opening_touches_no_other_room(server.rooms, room_id, c.addr, other, peer);
}

/// A client that joins is in the room, is reached under its name there, and takes
/// nothing from anybody: the host of the room stays, all other rooms stay as
/// they are, and all other peers stay where they are and are reached as before.
pub proof fn law_joining_concerns_one_room(
    server: ServerModel,
    c: ConnectionModel,
    room_id: Seq<char>,
    other: Seq<char>,
    peer: Seq<char>,
)
    requires
        server.has_room(room_id),
        other != room_id,
        peer != server.rooms.next_client(room_id),
    ensures
        ({
            let after = server.after_join(c, room_id);
            let new = server.rooms.next_client(room_id);
            let then = server.joined(c, room_id);
            &&& after.has_room(room_id)
            &&& after.rooms.rooms[room_id].host_peer_id == server.rooms.rooms[room_id].host_peer_id
            &&& after.rooms.rooms[room_id].host_addr == server.rooms.rooms[room_id].host_addr
            &&& after.rooms.rooms[room_id].clients.contains_key(new)
            &&& after.rooms.rooms[room_id].clients[new].addr == c.addr
            &&& after.rooms.room_of(new) == Some(room_id)
            &&& after.peers.contains_key(new)
            &&& after.peers[new].conn == c.conn
            &&& after.peers[new].addr == c.addr
            &&& then.in_room == Some(new)
            &&& then.conn == c.conn
            &&& then.peer_id == c.peer_id
            &&& then.addr == c.addr
            &&& room::same_room(server.rooms, after.rooms, other)
            &&& after.rooms.room_of(peer) == server.rooms.room_of(peer)
            &&& same_peer(server, after, peer)
        }),
{
    room::law_joining_touches_no_other_room(server.rooms, room_id, c.addr, other, peer);
}

/// A connection that is closed takes with it no room but the one that it is the
/// host of: every room that it is not in stays on the server as it was, with the
/// same host, address and clients.
pub proof fn law_closed_connection_leaves_other_rooms(
    server: ServerModel,
    c: ConnectionModel,
    other: Seq<char>,
)
    requires
        c.in_room matches Some(name) ==> server.rooms.room_of(name) != Some(other),
    ensures
        room::same_room(server.rooms, server.after_disconnect(c).rooms, other),
{
    if let Some(name) = c.in_room {
        let left = server.rooms.after_leave(name);
        if let Some(room_id) = server.rooms.hosted_by(name) {
            room::law_host_is_known_to_its_room(server.rooms, name, room_id);
            assert(room_id != other);
            assert(room::same_room(left, left.after_close(room_id), other));
        }
    }
}

/// A connection that is closed is forgotten alone: every other peer is reached as
/// before, and stays in its room, unless that room is closed because its host
/// has gone.
pub proof fn law_closed_connection_leaves_other_peers(
    server: ServerModel,
    c: ConnectionModel,
    peer: Seq<char>,
)
    requires
        peer != c.peer_id,
        c.in_room != Some(peer),
    ensures
        ({
            let after = server.after_disconnect(c);
            let stays = match c.in_room {
                None => true,
                Some(name) => match server.rooms.hosted_by(name) {
                    None => true,
                    Some(room_id) => forall|key: Seq<char>| #[trigger]
                        server.rooms.rooms[room_id].clients.contains_key(key)
                            ==> server.rooms.rooms[room_id].clients[key].peer_id != peer,
                },
            };
            &&& same_peer(server, after, peer)
            &&& stays ==> after.rooms.room_of(peer) == server.rooms.room_of(peer)
        }),
{
    if let Some(name) = c.in_room {
        let left = server.rooms.after_leave(name);
        room::law_leaving_touches_no_other_room(server.rooms, name, name, peer);
        if let Some(room_id) = server.rooms.hosted_by(name) {
            assert(left.rooms == server.rooms.rooms);
        }
    }
}

/// A room whose host is connected is joined after another connection was closed
/// as it was before: the client and the host are told the same.
pub proof fn law_other_rooms_are_joined_as_before(
    server: ServerModel,
    gone: ConnectionModel,
    c: ConnectionModel,
    room_id: Seq<char>,
)
    requires
        server.has_room(room_id),
        gone.in_room matches Some(name) ==> server.rooms.room_of(name) != Some(room_id),
        server.rooms.rooms[room_id].host_peer_id != gone.peer_id,
        gone.in_room != Some(server.rooms.rooms[room_id].host_peer_id),
    ensures
        server.after_disconnect(gone).has_room(room_id),
        server.after_disconnect(gone).join_reply(c, room_id) == server.join_reply(c, room_id),
        server.after_disconnect(gone).joined(c, room_id) == server.joined(c, room_id),
{
    let after = server.after_disconnect(gone);
    let host = server.rooms.rooms[room_id].host_peer_id;
    let msg = MsgModel::PeerJoined {
        peer_addr: c.addr,
        peer_id: server.rooms.next_client(room_id),
        room_id,
    };
    law_closed_connection_leaves_other_rooms(server, gone, room_id);
    law_closed_connection_leaves_other_peers(server, gone, host);
    lemma_to_one(server.after_join(c, room_id).peers, host, msg);
    lemma_to_one(after.after_join(c, room_id).peers, host, msg);
}

/// A connection that was in no room goes unnoticed, and leaves all rooms as they
/// are.
pub proof fn law_guest_goes_unnoticed(
    server: ServerModel,
    c: ConnectionModel,
    out: Seq<(u64, MsgModel)>,
)
    requires
        c.in_room is None,
        server.has_left(c, out),
    ensures
        out.len() == 0,
        server.after_disconnect(c).rooms == server.rooms,
{
    let targets = choose|targets: Seq<Seq<char>>| #[trigger]
        server.are_left(c, targets) && out == to_each(
            server.without(c).peers,
            targets,
            server.farewell(c.in_room->0),
        );
    assert(targets.len() == 0);
}

/// What a host says of nobody in its room goes to each of its clients that is
/// connected, and to nobody else.
pub proof fn law_host_reaches_all_clients(
    server: ServerModel,
    c: ConnectionModel,
    room_id: Seq<char>,
    peer_id: Seq<char>,
    out: Seq<(u64, MsgModel)>,
)
    requires
        server.has_room(room_id),
        c.in_room == Some(server.rooms.rooms[room_id].host_peer_id),
        !server.rooms.rooms[room_id].clients.contains_key(peer_id),
        server.has_told(c, room_id, peer_id, out),
    ensures
        forall|client: Seq<char>| #[trigger]
            server.rooms.rooms[room_id].clients.contains_key(client) && server.peers.contains_key(
                client,
            ) ==> out.contains(
                (server.peers[client].conn, MsgModel::P2PReady { room_id, peer_id }),
            ),
        forall|i: int|
            #![trigger out[i]]
            0 <= i < out.len() ==> {
                &&& out[i].1 == (MsgModel::P2PReady { room_id, peer_id })
                &&& exists|client: Seq<char>| #[trigger]
                    server.rooms.rooms[room_id].clients.contains_key(client)
                        && server.peers.contains_key(client) && server.peers[client].conn
                        == out[i].0
            },
{
    let peers = server.peers;
    let clients = server.rooms.rooms[room_id].clients;
    let msg = MsgModel::P2PReady { room_id, peer_id };
    let targets = choose|targets: Seq<Seq<char>>| #[trigger]
        server.are_told(c, room_id, peer_id, targets) && out == to_each(peers, targets, msg);
    assert forall|client: Seq<char>| #[trigger]
        clients.contains_key(client) && peers.contains_key(client) implies out.contains(
        (peers[client].conn, msg),
    ) by {
        assert(targets.to_set().contains(client));
        lemma_to_each(peers, targets, msg, client);
    }
    lemma_only_targets(peers, targets, msg);
    assert forall|i: int| #![trigger out[i]] 0 <= i < out.len() implies {
        &&& out[i].1 == msg
        &&& exists|client: Seq<char>| #[trigger]
            clients.contains_key(client) && peers.contains_key(client) && peers[client].conn
                == out[i].0
    } by {
        assert(to_each(peers, targets, msg)[i] == out[i]);
        let t = choose|t: Seq<char>| #[trigger]
            targets.contains(t) && peers.contains_key(t) && peers[t].conn == out[i].0;
        assert(targets.to_set().contains(t));
        assert(clients.contains_key(t));
    }
}

/// What is said of a room that is not there reaches nobody.
pub proof fn law_nobody_hears_of_an_unknown_room(
    server: ServerModel,
    c: ConnectionModel,
    room_id: Seq<char>,
    peer_id: Seq<char>,
    out: Seq<(u64, MsgModel)>,
)
    requires
        !server.has_room(room_id),
        server.has_told(c, room_id, peer_id, out),
    ensures
        out.len() == 0,
{
    let targets = choose|targets: Seq<Seq<char>>| #[trigger]
        server.are_told(c, room_id, peer_id, targets) && out == to_each(
            server.peers,
            targets,
            MsgModel::P2PReady { room_id, peer_id },
        );
    assert(targets.len() == 0);
}

/// Connections with different numbers have different names, and none has the name
/// of a host or of a client of a room.
pub proof fn law_connections_are_told_apart(a: u16, b: u16, room_id: Seq<char>, n: nat)
    ensures
        a != b ==> peer_name(a) != peer_name(b),
        peer_name(a) != room::host_id(room_id),
        peer_name(a) != room::client_id(room_id, n),
{
    reveal_strlit("peer_");
    text::law_hex4_reads_back(a);
    text::law_hex4_reads_back(b);
    room::law_hosts_and_clients_are_told_apart(room_id, room_id, n);
    assert(peer_name(a)[0] == 'p');
    assert(peer_name(a).skip(5) =~= text::hex4(a));
    assert(peer_name(b).skip(5) =~= text::hex4(b));
}

/// A client that joins a room whose host is not connected learns the host's
/// address all the same, and nobody else is told anything.
pub proof fn law_joining_without_the_host(
    server: ServerModel,
    c: ConnectionModel,
    room_id: Seq<char>,
)
    requires
        server.has_room(room_id),
        !server.peers.contains_key(server.rooms.rooms[room_id].host_peer_id),
        server.rooms.next_client(room_id) != server.rooms.rooms[room_id].host_peer_id,
    ensures
        ({
            let out = server.join_reply(c, room_id);
            &&& out.len() == 1
            &&& out[0].0 == c.conn
            &&& out[0].1 == (MsgModel::RoomInfo {
                host_addr: server.rooms.rooms[room_id].host_addr,
                my_addr: c.addr,
                room_id,
            })
        }),
{
    lemma_to_one(
        server.after_join(c, room_id).peers,
        server.rooms.rooms[room_id].host_peer_id,
        MsgModel::PeerJoined {
            peer_addr: c.addr,
            peer_id: server.rooms.next_client(room_id),
            room_id,
        },
    );
}

/// What is meant for somebody who is not connected is told to nobody: what a host
/// says of an absent client, and what a client says to an absent host.
pub proof fn law_absent_peers_are_told_nothing(
    server: ServerModel,
    c: ConnectionModel,
    room_id: Seq<char>,
    peer_id: Seq<char>,
    out: Seq<(u64, MsgModel)>,
)
    requires
        server.has_room(room_id),
        server.has_told(c, room_id, peer_id, out),
        if c.in_room == Some(server.rooms.rooms[room_id].host_peer_id) {
            server.rooms.rooms[room_id].clients.contains_key(peer_id)
                && !server.peers.contains_key(peer_id)
        } else {
            !server.peers.contains_key(server.rooms.rooms[room_id].host_peer_id)
        },
    ensures
        out.len() == 0,
{
    let msg = MsgModel::P2PReady { room_id, peer_id };
    lemma_to_one(server.peers, peer_id, msg);
    lemma_to_one(server.peers, server.rooms.rooms[room_id].host_peer_id, msg);
}

/// A connection whose room is not there any more, or a client whose host is not
/// connected, goes without anybody being told.
pub proof fn law_leaving_an_empty_room_is_silent(
    server: ServerModel,
    c: ConnectionModel,
    name: Seq<char>,
    out: Seq<(u64, MsgModel)>,
)
    requires
        c.in_room == Some(name),
        server.rooms.hosted_by(name) is None,
        match server.rooms.room_of(name) {
            None => true,
            Some(room_id) => !server.has_room(room_id) || !server.without(
                c,
            ).peers.contains_key(server.rooms.rooms[room_id].host_peer_id),
        },
        server.has_left(c, out),
    ensures
        out.len() == 0,
        server.rooms.room_of(name) is None ==> server.after_disconnect(c).rooms == server.rooms,
{
    let targets = choose|targets: Seq<Seq<char>>| #[trigger]
        server.are_left(c, targets) && out == to_each(
            server.without(c).peers,
            targets,
            server.farewell(name),
        );
    if let Some(room_id) = server.rooms.room_of(name) {
        if server.has_room(room_id) {
            lemma_to_one(
                server.without(c).peers,
                server.rooms.rooms[room_id].host_peer_id,
                server.farewell(name),
            );
        } else {
            assert(targets.len() == 0);
        }
    } else {
        assert(targets.len() == 0);
    }
}

} // verus!
