//! The host: it serves clients, each through a tunnel of its own.

pub mod demux;
pub mod mapper;

use vstd::prelude::*;
use vstd::string::*;
use crate::addr::PeerAddr;
use crate::host::mapper::{MapperModel, TcpConnectionManager};
use crate::protocol::packet;
use crate::protocol::packet::{
    Packet, PacketModel, FLAG_ACK, FLAG_DATA, FLAG_FIN, FLAG_PING, FLAG_PONG, FLAG_RST, FLAG_SYN,
};
use crate::protocol::stream;
use crate::protocol::stream_effects;
use crate::protocol::stream_model::ManagerModel;
use crate::signal::{MsgModel, SignalMsg};
use crate::string_map::StringMap;
use crate::time::Instant;
use crate::tunnel;
use crate::tunnel::{Tunnel, TunnelModel};

verus! {

/// The room and the own address in the server's answer to the request for a
/// room; the message itself where it is no such answer.
pub fn room_created(reply: SignalMsg) -> (room: Result<(String, String), SignalMsg>)
    ensures
        match room {
            Ok((room_id, my_addr)) => reply@ == (MsgModel::RoomCreated {
                room_id: room_id@,
                my_addr: my_addr@,
            }),
            Err(other) => other == reply && !(reply@ is RoomCreated),
        },
{
    match reply {
        SignalMsg::RoomCreated { room_id, my_addr } => Ok((room_id, my_addr)),
        other => Err(other),
    }
}

/// The message with which the host tells a client that it is reachable.
pub fn ready_message(room_id: &String, peer_id: &String) -> (msg: SignalMsg)
    ensures
        msg@ == (MsgModel::P2PReady { room_id: room_id@, peer_id: peer_id@ }),
{
    SignalMsg::P2PReady { room_id: room_id.clone(), peer_id: peer_id.clone() }
}

/// What the host does on a signaling message.
#[derive(Debug, Clone, Copy, PartialEq, Eq, Structural)]
pub enum HostStep {
    /// Starts the handler for a new client.
    Serve { handler: u64, peer: PeerAddr },
    /// Stops the handler of a client that has left.
    Cancel { stopped: u64 },
    /// Nothing.
    Ignore,
    /// Shuts down.
    Stop,
}

/// The clients that are served: the number of the handler of each.
pub struct HostSession {
    handlers: StringMap<u64>,
}

impl View for HostSession {
    type V = Map<Seq<char>, u64>;

    closed spec fn view(&self) -> Map<Seq<char>, u64> {
        self.handlers@
    }
}

/// What the host does on a message. `peer` is the address in a message that
/// announces a client, where it is one.
pub open spec fn host_step(
    handlers: Map<Seq<char>, u64>,
    msg: MsgModel,
    peer: Option<PeerAddr>,
    handler: u64,
) -> HostStep {
    match msg {
        MsgModel::PeerJoined { .. } => match peer {
            Some(addr) => HostStep::Serve { handler, peer: addr },
            None => HostStep::Ignore,
        },
        MsgModel::PeerLeft { peer_id, .. } => if handlers.contains_key(peer_id) {
            HostStep::Cancel { stopped: handlers[peer_id] }
        } else {
            HostStep::Ignore
        },
        MsgModel::RoomClosed { .. } => HostStep::Stop,
        _ => HostStep::Ignore,
    }
}

/// The handlers after a message.
pub open spec fn handlers_after(
    handlers: Map<Seq<char>, u64>,
    msg: MsgModel,
    peer: Option<PeerAddr>,
    handler: u64,
) -> Map<Seq<char>, u64> {
    match msg {
        MsgModel::PeerJoined { peer_id, .. } => if peer is Some {
            handlers.insert(peer_id, handler)
        } else {
            handlers
        },
        MsgModel::PeerLeft { peer_id, .. } => handlers.remove(peer_id),
        _ => handlers,
    }
}

impl HostSession {
    pub closed spec fn wf(&self) -> bool {
        self.handlers.wf()
    }

    /// No clients.
    pub fn new() -> (session: HostSession)
        ensures
            session.wf(),
            session@ == Map::<Seq<char>, u64>::empty(),
    {
        HostSession { handlers: StringMap::new() }
    }

    /// Takes a message of the server. `peer` is the address that the message
    /// announces, where it could be read, and `handler` the number that the
    /// handler of a new client gets.
    pub fn on_signal(&mut self, msg: SignalMsg, peer: Option<PeerAddr>, handler: u64) -> (step:
        HostStep)
        requires
            old(self).wf(),
        ensures
            final(self).wf(),
            step == host_step(old(self)@, msg@, peer, handler),
            final(self)@ == handlers_after(old(self)@, msg@, peer, handler),
    {
        match msg {
            SignalMsg::PeerJoined { peer_id, .. } => match peer {
                Some(addr) => {
                    self.handlers.insert(peer_id, handler);
                    HostStep::Serve { handler, peer: addr }
                },
                None => HostStep::Ignore,
            },
            SignalMsg::PeerLeft { peer_id, .. } => match self.handlers.remove(peer_id.as_str()) {
                Some(stopped) => HostStep::Cancel { stopped },
                None => HostStep::Ignore,
            },
            SignalMsg::RoomClosed { .. } => HostStep::Stop,
            _ => HostStep::Ignore,
        }
    }
}

/// What a client's handler does on a packet.
#[derive(Debug)]
pub enum HostAction {
    /// Sends a packet to the client.
    Send { packet: Packet },
    /// Makes the TCP connection of a stream.
    Connect { stream_id: u16 },
    /// Writes to the TCP connection of a stream.
    Write { to_stream: u16, data: Vec<u8> },
}

/// What a client's handler does on a packet.
#[verifier::ext_equal]
pub enum HostActionModel {
    Send { packet: PacketModel },
    Connect { stream_id: u16 },
    Write { to_stream: u16, data: Seq<u8> },
}

impl View for HostAction {
    type V = HostActionModel;

    open spec fn view(&self) -> HostActionModel {
        match *self {
            HostAction::Send { packet } => HostActionModel::Send { packet: packet@ },
            HostAction::Connect { stream_id } => HostActionModel::Connect { stream_id },
            HostAction::Write { to_stream, data } => HostActionModel::Write {
                to_stream,
                data: data@,
            },
        }
    }
}

/// Actions, each by its model.
pub open spec fn host_actions(actions: Seq<HostAction>) -> Seq<HostActionModel> {
    Seq::new(actions.len(), |i: int| actions[i]@)
}

/// Writes of a row of data to the TCP connection of a stream.
pub open spec fn writes(id: u16, data: Seq<Seq<u8>>) -> Seq<HostActionModel> {
    Seq::new(data.len(), |i: int| HostActionModel::Write { to_stream: id, data: data[i] })
}

/// What the handler of one client knows.
#[verifier::ext_equal]
pub struct PeerModel {
    pub tunnel: TunnelModel,
    pub tcp: MapperModel,
}

impl PeerModel {
    /// A handler that has heard nothing yet.
    pub open spec fn initial(now: Instant) -> PeerModel {
        PeerModel { tunnel: TunnelModel::initial(now), tcp: MapperModel::empty() }
    }

    /// With other streams.
    pub open spec fn with_streams(self, streams: ManagerModel) -> PeerModel {
        PeerModel { tunnel: TunnelModel { streams, ..self.tunnel }, ..self }
    }

    /// After a packet came: that it came counts as activity. A packet that opens
    /// a stream opens it, data goes to the service in order and acknowledges,
    /// an answer to a probe is noted, and a stream that is closed or reset is
    /// forgotten.
    pub open spec fn after_packet(self, p: PacketModel, now: Instant) -> PeerModel {
        let streams = self.tunnel.streams.after_activity(now);
        if packet::flag_set(p.flags, FLAG_SYN) {
            self.with_streams(streams.after_syn(p.stream_id, p.seq_num, now))
        } else if packet::flag_set(p.flags, FLAG_DATA) {
            PeerModel {
                tcp: mapper::after_deliveries(
                    self.tcp,
                    p.stream_id,
                    streams.delivered(p.stream_id, p.seq_num, p.payload),
                ),
                ..self.with_streams(
                    streams.after_data(p.stream_id, p.seq_num, p.payload, now).after_ack(
                        p.stream_id,
                        p.ack_num,
                    ),
                )
            }
        } else if packet::flag_set(p.flags, FLAG_PING) {
            self.with_streams(streams)
        } else if packet::flag_set(p.flags, FLAG_PONG) {
            self.with_streams(streams.after_pong(now))
        } else if packet::flag_set(p.flags, FLAG_FIN) || packet::flag_set(p.flags, FLAG_RST) {
            self.with_streams(streams.without(p.stream_id))
        } else {
            self.with_streams(streams)
        }
    }

    /// What is to be done then.
    pub open spec fn actions(self, p: PacketModel) -> Seq<HostActionModel> {
        let streams = self.tunnel.streams;
        if packet::flag_set(p.flags, FLAG_SYN) {
            let id = streams.accepted_id(p.stream_id);
            seq![
                HostActionModel::Send { packet: tunnel::syn_reply(id, p.seq_num) },
                HostActionModel::Connect { stream_id: id },
            ]
        } else if packet::flag_set(p.flags, FLAG_DATA) {
            if self.tcp.writers.contains(p.stream_id) {
                writes(p.stream_id, streams.delivered(p.stream_id, p.seq_num, p.payload))
            } else {
                Seq::empty()
            }
        } else if packet::flag_set(p.flags, FLAG_PING) {
            seq![HostActionModel::Send { packet: tunnel::control_packet(FLAG_PONG) }]
        } else {
            Seq::empty()
        }
    }

    /// Whether the counters can take a packet.
    pub open spec fn packet_fits(self, p: PacketModel) -> bool {
        !packet::flag_set(p.flags, FLAG_SYN) && packet::flag_set(p.flags, FLAG_DATA) ==> {
            &&& self.tunnel.streams.data_fits(p.stream_id, p.seq_num, p.payload)
            &&& self.tunnel.streams.ack_fits(p.stream_id, p.ack_num)
        }
    }
}

/// The handler of one client.
pub struct PeerSession {
    pub tunnel: Tunnel,
    pub tcp: TcpConnectionManager,
}

impl View for PeerSession {
    type V = PeerModel;

    open spec fn view(&self) -> PeerModel {
        PeerModel { tunnel: self.tunnel@, tcp: self.tcp@ }
    }
}

impl PeerSession {
    /// A handler that has heard nothing yet.
    pub fn new(now: Instant) -> (session: PeerSession)
        ensures
            session@ == PeerModel::initial(now),
            session@.tunnel.streams.wf(),
    {
        PeerSession { tunnel: Tunnel::new(now), tcp: TcpConnectionManager::new() }
    }

    /// Takes a packet of the client and gives what is to be done.
    pub fn on_packet(&mut self, p: Packet, now: Instant) -> (actions: Vec<HostAction>)
        requires
            old(self)@.tunnel.streams.wf(),
            old(self)@.packet_fits(p@),
        ensures
            final(self)@.tunnel.streams.wf(),
            final(self)@ == old(self)@.after_packet(p@, now),
            host_actions(actions@) == old(self)@.actions(p@),
    {
        let ghost before = self@;
        let ghost seen = p@;
        let mut actions: Vec<HostAction> = Vec::new();
        assert(host_actions(actions@) =~= Seq::empty());
        self.tunnel.streams.last_activity = now;
        assert(self.tunnel.streams@ =~= before.tunnel.streams.after_activity(now));
        if p.has_flag(FLAG_SYN) {
            let id: u16 = self.tunnel.streams.accept_syn(p.stream_id, p.seq_num, now);
            actions.push(HostAction::Send { packet: tunnel::make_syn_reply(id, p.seq_num) });
            actions.push(HostAction::Connect { stream_id: id });
            assert(host_actions(actions@) =~= before.actions(seen));
        } else if p.has_flag(FLAG_DATA) {
            let id: u16 = p.stream_id;
            let ack_num: u64 = p.ack_num;
            let due: Vec<Vec<u8>> = self.tunnel.streams.on_data_at(id, p.seq_num, p.payload, now);
            self.tunnel.streams.on_ack(id, ack_num);
            self.deliver(id, due, &mut actions);
            assert(host_actions(actions@) =~= before.actions(seen));
        } else if p.has_flag(FLAG_PING) {
            actions.push(HostAction::Send { packet: tunnel::make_pong() });
            assert(host_actions(actions@) =~= before.actions(seen));
        } else if p.has_flag(FLAG_PONG) {
            self.tunnel.streams.on_pong_at(now);
        } else if p.has_flag(FLAG_FIN) || p.has_flag(FLAG_RST) {
            self.tunnel.streams.remove(p.stream_id);
        }
        actions
    }

    /// Hands a row of data to the TCP connection of a stream, or puts it aside.
    fn deliver(&mut self, id: u16, due: Vec<Vec<u8>>, actions: &mut Vec<HostAction>)
        requires
            old(actions)@.len() == 0,
        ensures
            final(self).tunnel == old(self).tunnel,
            final(self)@.tcp == mapper::after_deliveries(
                old(self)@.tcp,
                id,
                stream::payload_models(due@),
            ),
            host_actions(final(actions)@) == if old(self)@.tcp.writers.contains(id) {
                writes(id, stream::payload_models(due@))
            } else {
                Seq::empty()
            },
    {
        let ghost tunnel_before = self.tunnel;
        let ghost tcp = self.tcp@;
        let ghost all = stream::payload_models(due@);
        let ghost open = tcp.writers.contains(id);
        assert(all.take(0) =~= Seq::empty());
        assert(host_actions(actions@) =~= Seq::empty());
        assert(writes(id, all.take(0)) =~= Seq::empty());
        for data in it: due
            invariant
                it.seq() == due@,
                all == stream::payload_models(due@),
                self.tunnel == tunnel_before,
                self.tcp@ == mapper::after_deliveries(tcp, id, all.take(it.index())),
                self.tcp@.writers == tcp.writers,
                open == tcp.writers.contains(id),
                host_actions(actions@) == if open {
                    writes(id, all.take(it.index()))
                } else {
                    Seq::empty()
                },
        {
            proof {
                assert(all[it.index()] == data@);
                assert(all.take(it.index() + 1) =~= all.take(it.index()).push(data@));
                assert(all.take(it.index() + 1).drop_last() =~= all.take(it.index()));
                assert(writes(id, all.take(it.index() + 1)) =~= writes(
                    id,
                    all.take(it.index()),
                ).push(HostActionModel::Write { to_stream: id, data: data@ }));
            }
            let ghost done = actions@;
            if let Some(written) = self.tcp.deliver(id, data) {
                actions.push(HostAction::Write { to_stream: id, data: written });
                assert(host_actions(actions@) =~= host_actions(done).push(
                    HostActionModel::Write { to_stream: id, data: data@ },
                ));
            }
        }
        assert(all.take(all.len() as int) =~= all);
    }

    /// Whether [`Self::on_packet`] can take a packet without a counter running
    /// over.
    pub fn packet_fits(&self, p: &Packet) -> (yes: bool)
        requires
            self@.tunnel.streams.wf(),
        ensures
            yes == self@.packet_fits(p@),
    {
        if p.has_flag(FLAG_SYN) || !p.has_flag(FLAG_DATA) {
            true
        } else {
            self.tunnel.streams.data_fits(p.stream_id, p.seq_num, &p.payload)
                && self.tunnel.streams.ack_fits(p.stream_id, p.ack_num)
        }
    }
}

/// The handler that was started for a client is the one that is stopped when
/// the client leaves, and the other clients keep theirs.
pub proof fn law_leaving_stops_the_handler(
    handlers: Map<Seq<char>, u64>,
    peer_id: Seq<char>,
    other: Seq<char>,
    addr: Seq<char>,
    room_id: Seq<char>,
    peer: PeerAddr,
    handler: u64,
    next: u64,
)
    requires
        peer_id != other,
    ensures
        ({
            let join = MsgModel::PeerJoined { peer_addr: addr, peer_id, room_id };
            let leave = MsgModel::PeerLeft { peer_id, room_id };
            let joined = handlers_after(handlers, join, Some(peer), handler);
            let left = handlers_after(joined, leave, None, next);
            &&& host_step(handlers, join, Some(peer), handler) == (HostStep::Serve {
                handler,
                peer,
            })
            &&& host_step(joined, leave, None, next) == (HostStep::Cancel { stopped: handler })
            &&& !left.contains_key(peer_id)
            &&& left.contains_key(other) == handlers.contains_key(other)
            &&& handlers.contains_key(other) ==> left[other] == handlers[other]
        }),
{
}

/// A client whose address cannot be read is not served, and one that is not
/// served is not stopped.
pub proof fn law_unreadable_client_is_not_served(
    handlers: Map<Seq<char>, u64>,
    peer_id: Seq<char>,
    addr: Seq<char>,
    room_id: Seq<char>,
    handler: u64,
)
    requires
        !handlers.contains_key(peer_id),
    ensures
        ({
            let join = MsgModel::PeerJoined { peer_addr: addr, peer_id, room_id };
            let leave = MsgModel::PeerLeft { peer_id, room_id };
            &&& host_step(handlers, join, None, handler) == HostStep::Ignore
            &&& handlers_after(handlers, join, None, handler) == handlers
            &&& host_step(handlers, leave, None, handler) == HostStep::Ignore
            &&& handlers_after(handlers, leave, None, handler) == handlers
        }),
{
    assert(handlers.remove(peer_id) =~= handlers);
}

/// A probe is answered, and answering changes nothing but that something came.
pub proof fn law_probe_is_answered(peer: PeerModel, now: Instant)
    ensures
        ({
            let probe = tunnel::control_packet(FLAG_PING);
            &&& peer.actions(probe) == seq![
                HostActionModel::Send { packet: tunnel::control_packet(FLAG_PONG) },
            ]
            &&& peer.after_packet(probe, now) == peer.with_streams(
                peer.tunnel.streams.after_activity(now),
            )
        }),
{
    assert(!packet::flag_set(FLAG_PING, FLAG_SYN)) by (bit_vector);
    assert(!packet::flag_set(FLAG_PING, FLAG_DATA)) by (bit_vector);
    assert(packet::flag_set(FLAG_PING, FLAG_PING)) by (bit_vector);
}

/// Whether a packet has changed nothing but one stream and what waits for its
/// connection, and has counted as a sign of life.
pub open spec fn concerns_one_stream(
    before: PeerModel,
    after: PeerModel,
    id: u16,
    now: Instant,
) -> bool {
    &&& forall|other: u16|
        other != id ==> #[trigger] stream_effects::same_stream(
            before.tunnel.streams,
            after.tunnel.streams,
            other,
        )
    &&& forall|other: u16|
        other != id ==> #[trigger] after.tcp.waiting(other) == before.tcp.waiting(other)
    &&& after.tcp.writers == before.tcp.writers
    &&& after.tunnel.next_ping == before.tunnel.next_ping
    &&& after.tunnel.next_resend == before.tunnel.next_resend
    &&& after.tunnel.streams.last_activity == now
}

proof fn lemma_deliveries_apart(tcp: MapperModel, id: u16, data: Seq<Seq<u8>>)
    ensures
        forall|other: u16|
            other != id ==> #[trigger] mapper::after_deliveries(tcp, id, data).waiting(other)
                == tcp.waiting(other),
        mapper::after_deliveries(tcp, id, data).writers == tcp.writers,
        tcp.writers.contains(id) ==> mapper::after_deliveries(tcp, id, data) == tcp,
    decreases data.len(),
{
    if data.len() > 0 {
        let front = mapper::after_deliveries(tcp, id, data.drop_last());
        lemma_deliveries_apart(tcp, id, data.drop_last());
        assert forall|other: u16| other != id implies #[trigger] mapper::after_deliveries(
            tcp,
            id,
            data,
        ).waiting(other) == tcp.waiting(other) by {
            mapper::law_streams_wait_apart(front, id, other, data.last());
            assert(front.waiting(other) == tcp.waiting(other));
        }
    }
}

/// Data of a client is taken by its stream, which takes its acknowledgement too.
/// What is due is written to the service in order where its connection is ready,
/// else it waits in order behind what waits already. Nothing is sent in return,
/// and no other stream is concerned.
pub proof fn law_data_reaches_the_service(peer: PeerModel, p: PacketModel, now: Instant)
    requires
        p.flags & FLAG_SYN == 0,
        p.flags & FLAG_DATA != 0,
        peer.tunnel.streams.streams.contains_key(p.stream_id),
    ensures
        ({
            let id = p.stream_id;
            let stream = peer.tunnel.streams.streams[id];
            let after = peer.after_packet(p, now);
            let due = stream.delivered(p.seq_num, p.payload);
            let done = peer.actions(p);
            let ready = peer.tcp.writers.contains(id);
            &&& after.tunnel.streams.streams.contains_key(id)
            &&& after.tunnel.streams.streams[id] == stream.after_data(
                p.seq_num,
                p.payload,
                now,
            ).after_ack(p.ack_num)
            &&& ready ==> done.len() == due.len()
            &&& ready ==> after.tcp.waiting(id) == peer.tcp.waiting(id)
            &&& !ready ==> done.len() == 0
            &&& !ready ==> after.tcp.waiting(id) == peer.tcp.waiting(id) + due
            &&& forall|k: int|
                0 <= k < done.len() ==> #[trigger] done[k] == (HostActionModel::Write {
                    to_stream: id,
                    data: due[k],
                })
            &&& concerns_one_stream(peer, after, id, now)
        }),
{
    let id = p.stream_id;
    let due = peer.tunnel.streams.streams[id].delivered(p.seq_num, p.payload);
    lemma_deliveries_apart(peer.tcp, id, due);
    if !peer.tcp.writers.contains(id) {
        mapper::law_early_data_is_kept(peer.tcp, id, due);
    }
}

/// A stream that a client opens is accepted and confirmed, and a connection to
/// the service is made for it; no other stream is concerned.
pub proof fn law_opening_connects_to_the_service(peer: PeerModel, p: PacketModel, now: Instant)
    requires
        p.flags & FLAG_SYN != 0,
    ensures
        ({
            let id = peer.tunnel.streams.accepted_id(p.stream_id);
            let after = peer.after_packet(p, now);
            let done = peer.actions(p);
            &&& after.tunnel.streams.streams.contains_key(id)
            &&& stream_effects::is_blank(after.tunnel.streams.streams[id], now)
            &&& after.tunnel.streams.streams[id].recv_seq == (p.seq_num + 1)
                % 0x1_0000_0000_0000_0000
            &&& after.tcp == peer.tcp
            &&& done.len() == 2
            &&& done[0] matches HostActionModel::Send { packet: reply } && reply.flags == FLAG_ACK
                && reply.stream_id == id && reply.ack_num == (p.seq_num + 1)
                % 0x1_0000_0000_0000_0000 && reply.payload.len() == 0
            &&& done[1] == (HostActionModel::Connect { stream_id: id })
            &&& concerns_one_stream(peer, after, id, now)
        }),
{
}

/// A stream that a client closes or resets is forgotten, and it alone; what waits
/// for its connection stays.
pub proof fn law_closed_stream_is_forgotten(peer: PeerModel, p: PacketModel, now: Instant)
    requires
        p.flags & (FLAG_SYN | FLAG_DATA | FLAG_PING | FLAG_PONG) == 0,
        p.flags & (FLAG_FIN | FLAG_RST) != 0,
    ensures
        !peer.after_packet(p, now).tunnel.streams.streams.contains_key(p.stream_id),
        peer.after_packet(p, now).tcp == peer.tcp,
        peer.actions(p).len() == 0,
        concerns_one_stream(peer, peer.after_packet(p, now), p.stream_id, now),
{
    let f = p.flags;
    assert(f & FLAG_SYN == 0 && f & FLAG_DATA == 0 && f & FLAG_PING == 0 && f & FLAG_PONG == 0)
        by (bit_vector)
        requires
            f & (FLAG_SYN | FLAG_DATA | FLAG_PING | FLAG_PONG) == 0,
    ;
    assert(f & FLAG_FIN != 0 || f & FLAG_RST != 0) by (bit_vector)
        requires
            f & (FLAG_FIN | FLAG_RST) != 0,
    ;
}

/// A probe of a client is answered over the control stream, and an answer ends
/// the wait for it; no stream is concerned. Nor does a packet that says nothing
/// the host knows concern any, an acknowledgement alone among them.
pub proof fn law_other_packets_concern_no_stream(peer: PeerModel, p: PacketModel, now: Instant)
    requires
        p.flags & (FLAG_SYN | FLAG_DATA) == 0,
        p.flags & (FLAG_PING | FLAG_PONG) != 0 || p.flags & (FLAG_FIN | FLAG_RST) == 0,
    ensures
        ({
            let streams = peer.tunnel.streams;
            let after = peer.after_packet(p, now).tunnel.streams;
            let done = peer.actions(p);
            let answers = p.flags & FLAG_PING == 0 && p.flags & FLAG_PONG != 0;
            &&& p.flags & FLAG_PING != 0 ==> {
                &&& done.len() == 1
                &&& done[0] matches HostActionModel::Send { packet: reply } && reply.flags
                    == FLAG_PONG && reply.stream_id == 0 && reply.payload.len() == 0
            }
            &&& p.flags & FLAG_PING == 0 ==> done.len() == 0
            &&& answers ==> after.ping_loss_count == 0 && after.last_ping_sent is None
            &&& !answers ==> after.ping_loss_count == streams.ping_loss_count
                && after.last_ping_sent == streams.last_ping_sent
            &&& after.streams == streams.streams
            &&& after.last_activity == now
            &&& peer.after_packet(p, now).tcp == peer.tcp
        }),
{
    let f = p.flags;
    assert(f & FLAG_SYN == 0 && f & FLAG_DATA == 0) by (bit_vector)
        requires
            f & (FLAG_SYN | FLAG_DATA) == 0,
    ;
    assert(f & (FLAG_PING | FLAG_PONG) != 0 ==> f & FLAG_PING != 0 || f & FLAG_PONG != 0)
        by (bit_vector);
    assert(f & (FLAG_FIN | FLAG_RST) == 0 ==> f & FLAG_FIN == 0 && f & FLAG_RST == 0)
        by (bit_vector);
}

/// A host stops when its room is closed, and pays no heed to what is not meant
/// for it; in neither case does it forget a client.
pub proof fn law_closed_room_stops_the_host(
    handlers: Map<Seq<char>, u64>,
    msg: MsgModel,
    peer: Option<PeerAddr>,
    handler: u64,
)
    requires
        !(msg is PeerJoined),
        !(msg is PeerLeft),
    ensures
        host_step(handlers, msg, peer, handler) == if msg is RoomClosed {
            HostStep::Stop
        } else {
            HostStep::Ignore
        },
        handlers_after(handlers, msg, peer, handler) == handlers,
{
}

/// A client that joins is served by the handler that it gets, at its address, and
/// no other client loses its handler; one that leaves takes only its own away.
pub proof fn law_clients_are_served_apart(
    handlers: Map<Seq<char>, u64>,
    msg: MsgModel,
    peer: Option<PeerAddr>,
    handler: u64,
    other: Seq<char>,
)
    requires
        msg matches MsgModel::PeerJoined { peer_id, .. } ==> other != peer_id,
        msg matches MsgModel::PeerLeft { peer_id, .. } ==> other != peer_id,
    ensures
        ({
            let after = handlers_after(handlers, msg, peer, handler);
            &&& after.contains_key(other) == handlers.contains_key(other)
            &&& handlers.contains_key(other) ==> after[other] == handlers[other]
            &&& match (msg, peer) {
                (MsgModel::PeerJoined { peer_id, .. }, Some(addr)) => {
                    &&& after.contains_key(peer_id)
                    &&& after[peer_id] == handler
                    &&& host_step(handlers, msg, peer, handler) == (HostStep::Serve {
                        handler,
                        peer: addr,
                    })
                },
                (MsgModel::PeerLeft { peer_id, .. }, _) => {
                    &&& !after.contains_key(peer_id)
                    &&& handlers.contains_key(peer_id) ==> host_step(handlers, msg, peer, handler)
                        == (HostStep::Cancel { stopped: handlers[peer_id] })
                },
                _ => true,
            }
        }),
{
}

/// A packet can be counted where its stream can count its data and its
/// acknowledgement; one for a stream that is not there always can.
pub proof fn law_packet_can_be_counted(peer: PeerModel, p: PacketModel)
    requires
        peer.tunnel.streams.streams.contains_key(p.stream_id) ==> {
            let stream = peer.tunnel.streams.streams[p.stream_id];
            stream.data_fits(p.seq_num, p.payload) && stream.ack_fits(p.ack_num)
        },
    ensures
        peer.packet_fits(p),
{
}

/// Data for a stream that is not there is a sign of life and no more: nothing is
/// written, and nothing waits for it.
pub proof fn law_data_for_nobody_is_dropped(peer: PeerModel, p: PacketModel, now: Instant)
    requires
        p.flags & FLAG_SYN == 0,
        p.flags & FLAG_DATA != 0,
        !peer.tunnel.streams.streams.contains_key(p.stream_id),
    ensures
        peer.after_packet(p, now).tunnel.streams.streams == peer.tunnel.streams.streams,
        peer.after_packet(p, now).tunnel.streams.last_activity == now,
        peer.after_packet(p, now).tcp == peer.tcp,
        peer.actions(p).len() == 0,
{
}

/// The handler of a client begins with a new tunnel, whose looks are both due, and
/// without connections to the service.
pub proof fn law_handler_begins_alone(now: Instant, id: u16)
    ensures
        !PeerModel::initial(now).tcp.writers.contains(id),
        PeerModel::initial(now).tcp.waiting(id).len() == 0,
        PeerModel::initial(now).tunnel.next_ping == now,
        PeerModel::initial(now).tunnel.next_resend == now,
        PeerModel::initial(now).tunnel.streams.streams.contains_key(id) <==> id == 0,
{
}

} // verus!
