//! The client: it joins a room and offers the host's service at a local port.

pub mod forwarder;

use std::collections::HashSet;
use vstd::prelude::*;
use vstd::string::*;
use vstd::utf8;
use crate::protocol::packet;
use crate::protocol::packet::{
    Packet, PacketModel, FLAG_ACK, FLAG_DATA, FLAG_FIN, FLAG_PING, FLAG_PONG, FLAG_RST, FLAG_SYN,
};
use crate::protocol::stream;
use crate::protocol::stream_effects;
use crate::protocol::stream_model::ManagerModel;
use crate::signal::{MsgModel, SignalMsg};
use crate::time::Instant;
use crate::tunnel;
use crate::tunnel::{Tunnel, TunnelModel};

verus! {

/// Why a room could not be joined.
#[derive(Debug)]
pub enum JoinError {
    /// The server refused.
    Refused { reason: String },
    /// The server said something else.
    Unexpected { msg: SignalMsg },
}

/// The addresses of the host and of this end in the server's answer to the
/// request to join a room.
pub fn joined(reply: SignalMsg) -> (addrs: Result<(String, String), JoinError>)
    ensures
        match addrs {
            Ok((host_addr, my_addr)) => reply@ matches MsgModel::RoomInfo {
                host_addr: h,
                my_addr: m,
                ..
            } && host_addr@ == h && my_addr@ == m,
            Err(JoinError::Refused { reason }) => reply@ == (MsgModel::Error { reason: reason@ }),
            Err(JoinError::Unexpected { msg }) => msg == reply && !(reply@ is RoomInfo) && !(
            reply@ is Error),
        },
{
    match reply {
        SignalMsg::RoomInfo { host_addr, my_addr, .. } => Ok((host_addr, my_addr)),
        SignalMsg::Error { reason } => Err(JoinError::Refused { reason }),
        other => Err(JoinError::Unexpected { msg: other }),
    }
}

/// Whether `name` is how a client calls itself in a room: `client_` and the
/// first three bytes of the room's name.
pub open spec fn is_own_name(name: Seq<char>, room_id: Seq<char>) -> bool {
    exists|start: Seq<char>|
        name == "client_"@ + start && #[trigger] utf8::encode_utf8(start) == utf8::encode_utf8(
            room_id,
        ).subrange(0, 3)
}

/// The message with which a client tells the host that it is reachable.
pub fn ready_message(room_id: &str) -> (msg: SignalMsg)
    requires
        utf8::is_char_boundary(utf8::encode_utf8(room_id@), 3),
    ensures
        msg@ matches MsgModel::P2PReady { room_id: r, peer_id: p } && r == room_id@ && is_own_name(
            p,
            room_id@,
        ),
{
    let (start, _) = room_id.split_at(3);
    let mut peer_id = "client_".to_owned();
    peer_id.append(start);
    assert(utf8::encode_utf8(start@) == utf8::encode_utf8(room_id@).subrange(0, 3));
    SignalMsg::P2PReady { room_id: room_id.to_owned(), peer_id }
}

/// What a client does on a packet.
#[derive(Debug)]
pub enum ClientAction {
    /// Sends a packet to the host.
    Send { packet: Packet },
    /// Writes to the local connection of a stream.
    Write { to_stream: u16, data: Vec<u8> },
}

/// What a client does on a packet.
#[verifier::ext_equal]
pub enum ClientActionModel {
    Send { packet: PacketModel },
    Write { to_stream: u16, data: Seq<u8> },
}

impl View for ClientAction {
    type V = ClientActionModel;

    open spec fn view(&self) -> ClientActionModel {
        match *self {
            ClientAction::Send { packet } => ClientActionModel::Send { packet: packet@ },
            ClientAction::Write { to_stream, data } => ClientActionModel::Write {
                to_stream,
                data: data@,
            },
        }
    }
}

/// Actions, each by its model.
pub open spec fn client_actions(actions: Seq<ClientAction>) -> Seq<ClientActionModel> {
    Seq::new(actions.len(), |i: int| actions[i]@)
}

/// Writes of a row of data to the local connection of a stream.
pub open spec fn writes(id: u16, data: Seq<Seq<u8>>) -> Seq<ClientActionModel> {
    Seq::new(data.len(), |i: int| ClientActionModel::Write { to_stream: id, data: data[i] })
}

/// What a client knows.
#[verifier::ext_equal]
pub struct ClientModel {
    pub tunnel: TunnelModel,
    /// The streams that have a local connection.
    pub writers: Set<u16>,
}

impl ClientModel {
    /// A client that has heard nothing yet.
    pub open spec fn initial(now: Instant) -> ClientModel {
        ClientModel { tunnel: TunnelModel::initial(now), writers: Set::empty() }
    }

    /// With other streams.
    pub open spec fn with_streams(self, streams: ManagerModel) -> ClientModel {
        ClientModel { tunnel: TunnelModel { streams, ..self.tunnel }, ..self }
    }

    /// After a packet came: that it came counts as activity. Data is taken and
    /// acknowledges, a packet that opens a stream opens it, an acknowledgement
    /// is taken, an answer to a probe is noted, and a stream that is closed or
    /// reset is forgotten.
    pub open spec fn after_packet(self, p: PacketModel, now: Instant) -> ClientModel {
        let streams = self.tunnel.streams.after_activity(now);
        if packet::flag_set(p.flags, FLAG_DATA) {
            self.with_streams(
                streams.after_data(p.stream_id, p.seq_num, p.payload, now).after_ack(
                    p.stream_id,
                    p.ack_num,
                ),
            )
        } else if packet::flag_set(p.flags, FLAG_SYN) {
            self.with_streams(streams.after_syn(p.stream_id, p.seq_num, now))
        } else if packet::flag_set(p.flags, FLAG_ACK) {
            self.with_streams(streams.after_ack(p.stream_id, p.ack_num))
        } else if packet::flag_set(p.flags, FLAG_PING) {
            self.with_streams(streams)
        } else if packet::flag_set(p.flags, FLAG_PONG) {
            self.with_streams(streams.after_pong(now))
        } else if packet::flag_set(p.flags, FLAG_FIN) || packet::flag_set(p.flags, FLAG_RST) {
            self.with_streams(streams.without(p.stream_id))
        } else {
            self.with_streams(streams)
        }
    }

    /// What is to be done then: data for a stream without a local connection is
    /// dropped.
    pub open spec fn actions(self, p: PacketModel) -> Seq<ClientActionModel> {
        let streams = self.tunnel.streams;
        if packet::flag_set(p.flags, FLAG_DATA) {
            if self.writers.contains(p.stream_id) {
                writes(p.stream_id, streams.delivered(p.stream_id, p.seq_num, p.payload))
            } else {
                Seq::empty()
            }
        } else if packet::flag_set(p.flags, FLAG_SYN) {
            seq![
                ClientActionModel::Send {
                    packet: tunnel::syn_reply(streams.accepted_id(p.stream_id), p.seq_num),
                },
            ]
        } else if packet::flag_set(p.flags, FLAG_ACK) {
            Seq::empty()
        } else if packet::flag_set(p.flags, FLAG_PING) {
            seq![ClientActionModel::Send { packet: tunnel::control_packet(FLAG_PONG) }]
        } else {
            Seq::empty()
        }
    }

    /// Whether the counters can take a packet.
    pub open spec fn packet_fits(self, p: PacketModel) -> bool {
        &&& packet::flag_set(p.flags, FLAG_DATA) ==> self.tunnel.streams.data_fits(
            p.stream_id,
            p.seq_num,
            p.payload,
        )
        &&& packet::flag_set(p.flags, FLAG_DATA) || (!packet::flag_set(p.flags, FLAG_SYN)
            && packet::flag_set(p.flags, FLAG_ACK)) ==> self.tunnel.streams.ack_fits(
            p.stream_id,
            p.ack_num,
        )
    }
}

/// A client.
pub struct ClientSession {
    pub tunnel: Tunnel,
    /// The streams that have a local connection.
    pub writers: HashSet<u16>,
}

impl View for ClientSession {
    type V = ClientModel;

    open spec fn view(&self) -> ClientModel {
        ClientModel { tunnel: self.tunnel@, writers: self.writers@ }
    }
}

impl ClientSession {
    /// A client that has heard nothing yet.
    pub fn new(now: Instant) -> (session: ClientSession)
        ensures
            session@ == ClientModel::initial(now),
            session@.tunnel.streams.wf(),
    {
        ClientSession { tunnel: Tunnel::new(now), writers: HashSet::new() }
    }

    /// A stream has got a local connection.
    pub fn attach(&mut self, stream_id: u16)
        ensures
            final(self)@ == (ClientModel {
                writers: old(self)@.writers.insert(stream_id),
                ..old(self)@
            }),
    {
        self.writers.insert(stream_id);
    }

    /// The local connection of a stream is gone.
    pub fn detach(&mut self, stream_id: u16)
        ensures
            final(self)@ == (ClientModel {
                writers: old(self)@.writers.remove(stream_id),
                ..old(self)@
            }),
    {
        self.writers.remove(&stream_id);
    }

    /// Takes a packet of the host and gives what is to be done.
    pub fn on_packet(&mut self, p: Packet, now: Instant) -> (actions: Vec<ClientAction>)
        requires
            old(self)@.tunnel.streams.wf(),
            old(self)@.packet_fits(p@),
        ensures
            final(self)@.tunnel.streams.wf(),
            final(self)@ == old(self)@.after_packet(p@, now),
            client_actions(actions@) == old(self)@.actions(p@),
    {
        let ghost before = self@;
        let ghost seen = p@;
        let mut actions: Vec<ClientAction> = Vec::new();
        assert(client_actions(actions@) =~= Seq::empty());
        self.tunnel.streams.last_activity = now;
        assert(self.tunnel.streams@ =~= before.tunnel.streams.after_activity(now));
        if p.has_flag(FLAG_DATA) {
            let id: u16 = p.stream_id;
            let ack_num: u64 = p.ack_num;
            let due: Vec<Vec<u8>> = self.tunnel.streams.on_data_at(id, p.seq_num, p.payload, now);
            self.tunnel.streams.on_ack(id, ack_num);
            if self.writers.contains(&id) {
                write_all(id, due, &mut actions);
            }
            assert(client_actions(actions@) =~= before.actions(seen));
        } else if p.has_flag(FLAG_SYN) {
            let id: u16 = self.tunnel.streams.accept_syn(p.stream_id, p.seq_num, now);
            actions.push(ClientAction::Send { packet: tunnel::make_syn_reply(id, p.seq_num) });
            assert(client_actions(actions@) =~= before.actions(seen));
        } else if p.has_flag(FLAG_ACK) {
            self.tunnel.streams.on_ack(p.stream_id, p.ack_num);
        } else if p.has_flag(FLAG_PING) {
            actions.push(ClientAction::Send { packet: tunnel::make_pong() });
            assert(client_actions(actions@) =~= before.actions(seen));
        } else if p.has_flag(FLAG_PONG) {
            self.tunnel.streams.on_pong_at(now);
        } else if p.has_flag(FLAG_FIN) || p.has_flag(FLAG_RST) {
            self.tunnel.streams.remove(p.stream_id);
        }
        actions
    }

    /// Whether [`Self::on_packet`] can take a packet without a counter running
    /// over.
    pub fn packet_fits(&self, p: &Packet) -> (yes: bool)
        requires
            self@.tunnel.streams.wf(),
        ensures
            yes == self@.packet_fits(p@),
    {
        let data = p.has_flag(FLAG_DATA);
        let ack = data || (!p.has_flag(FLAG_SYN) && p.has_flag(FLAG_ACK));
        (!data || self.tunnel.streams.data_fits(p.stream_id, p.seq_num, &p.payload)) && (!ack
            || self.tunnel.streams.ack_fits(p.stream_id, p.ack_num))
    }
}

/// Writes a row of data to the local connection of a stream.
fn write_all(id: u16, due: Vec<Vec<u8>>, actions: &mut Vec<ClientAction>)
    requires
        old(actions)@.len() == 0,
    ensures
        client_actions(final(actions)@) == writes(id, stream::payload_models(due@)),
{
    let ghost all = stream::payload_models(due@);
    assert(client_actions(actions@) =~= writes(id, all.take(0)));
    for data in it: due
        invariant
            it.seq() == due@,
            all == stream::payload_models(due@),
            client_actions(actions@) == writes(id, all.take(it.index())),
    {
        let ghost done = actions@;
        let ghost row = data@;
        actions.push(ClientAction::Write { to_stream: id, data });
        proof {
            assert(all[it.index()] == row);
            assert(all.take(it.index() + 1) =~= all.take(it.index()).push(row));
            assert(client_actions(actions@) =~= client_actions(done).push(
                ClientActionModel::Write { to_stream: id, data: row },
            ));
            assert(writes(id, all.take(it.index() + 1)) =~= writes(
                id,
                all.take(it.index()),
            ).push(ClientActionModel::Write { to_stream: id, data: row }));
        }
    }
    assert(all.take(all.len() as int) =~= all);
}

/// Whether a packet has changed nothing but one stream, and has counted as a sign
/// of life.
pub open spec fn concerns_one_stream(
    before: ClientModel,
    after: ClientModel,
    id: u16,
    now: Instant,
) -> bool {
    &&& forall|other: u16|
        other != id ==> #[trigger] stream_effects::same_stream(
            before.tunnel.streams,
            after.tunnel.streams,
            other,
        )
    &&& after.writers == before.writers
    &&& after.tunnel.next_ping == before.tunnel.next_ping
    &&& after.tunnel.next_resend == before.tunnel.next_resend
    &&& after.tunnel.streams.last_activity == now
}

/// Data is taken by its stream, which takes its acknowledgement too, and what is
/// due is written to the local connection in order; where there is none it is
/// dropped. Nothing is sent in return, and no other stream is concerned.
pub proof fn law_data_reaches_the_local_connection(c: ClientModel, p: PacketModel, now: Instant)
    requires
        p.flags & FLAG_DATA != 0,
        c.tunnel.streams.streams.contains_key(p.stream_id),
    ensures
        ({
            let id = p.stream_id;
            let stream = c.tunnel.streams.streams[id];
            let after = c.after_packet(p, now);
            let due = stream.delivered(p.seq_num, p.payload);
            let done = c.actions(p);
            &&& after.tunnel.streams.streams.contains_key(id)
            &&& after.tunnel.streams.streams[id] == stream.after_data(
                p.seq_num,
                p.payload,
                now,
            ).after_ack(p.ack_num)
            &&& c.writers.contains(id) ==> done.len() == due.len()
            &&& !c.writers.contains(id) ==> done.len() == 0
            &&& forall|k: int|
                0 <= k < done.len() ==> #[trigger] done[k] == (ClientActionModel::Write {
                    to_stream: id,
                    data: due[k],
                })
            &&& concerns_one_stream(c, after, id, now)
        }),
{
}

/// A bare acknowledgement is taken by its stream and answered by nothing.
pub proof fn law_acknowledgement_reaches_its_stream(c: ClientModel, p: PacketModel, now: Instant)
    requires
        p.flags & FLAG_DATA == 0,
        p.flags & FLAG_SYN == 0,
        p.flags & FLAG_ACK != 0,
        c.tunnel.streams.streams.contains_key(p.stream_id),
    ensures
        ({
            let id = p.stream_id;
            let after = c.after_packet(p, now);
            &&& after.tunnel.streams.streams.contains_key(id)
            &&& after.tunnel.streams.streams[id] == c.tunnel.streams.streams[id].after_ack(
                p.ack_num,
            )
            &&& c.actions(p).len() == 0
            &&& concerns_one_stream(c, after, id, now)
        }),
{
}

/// A stream that the host closes or resets is forgotten, and it alone.
pub proof fn law_closed_stream_is_forgotten(c: ClientModel, p: PacketModel, now: Instant)
    requires
        p.flags & (FLAG_DATA | FLAG_SYN | FLAG_ACK | FLAG_PING | FLAG_PONG) == 0,
        p.flags & (FLAG_FIN | FLAG_RST) != 0,
    ensures
        !c.after_packet(p, now).tunnel.streams.streams.contains_key(p.stream_id),
        c.actions(p).len() == 0,
        concerns_one_stream(c, c.after_packet(p, now), p.stream_id, now),
{
    let f = p.flags;
    assert(f & FLAG_DATA == 0 && f & FLAG_SYN == 0 && f & FLAG_ACK == 0 && f & FLAG_PING == 0 && f
        & FLAG_PONG == 0) by (bit_vector)
        requires
            f & (FLAG_DATA | FLAG_SYN | FLAG_ACK | FLAG_PING | FLAG_PONG) == 0,
    ;
    assert(f & FLAG_FIN != 0 || f & FLAG_RST != 0) by (bit_vector)
        requires
            f & (FLAG_FIN | FLAG_RST) != 0,
    ;
}

/// A stream that the host opens is accepted and confirmed; no other is concerned.
pub proof fn law_opening_is_confirmed(c: ClientModel, p: PacketModel, now: Instant)
    requires
        p.flags & FLAG_DATA == 0,
        p.flags & FLAG_SYN != 0,
    ensures
        ({
            let id = c.tunnel.streams.accepted_id(p.stream_id);
            let after = c.after_packet(p, now);
            let done = c.actions(p);
            &&& after.tunnel.streams.streams.contains_key(id)
            &&& stream_effects::is_blank(after.tunnel.streams.streams[id], now)
            &&& after.tunnel.streams.streams[id].recv_seq == (p.seq_num + 1)
                % 0x1_0000_0000_0000_0000
            &&& done.len() == 1
            &&& done[0] matches ClientActionModel::Send { packet: reply } && reply.flags
                == FLAG_ACK && reply.stream_id == id && reply.ack_num == (p.seq_num + 1)
                % 0x1_0000_0000_0000_0000 && reply.payload.len() == 0
            &&& concerns_one_stream(c, after, id, now)
        }),
{
}

/// A probe of the host is answered over the control stream, and an answer ends
/// the wait for it; no stream is concerned.
pub proof fn law_probes_and_answers_concern_no_stream(
    c: ClientModel,
    p: PacketModel,
    now: Instant,
)
    requires
        p.flags & (FLAG_DATA | FLAG_SYN | FLAG_ACK) == 0,
        p.flags & (FLAG_PING | FLAG_PONG) != 0,
    ensures
        ({
            let streams = c.tunnel.streams;
            let after = c.after_packet(p, now).tunnel.streams;
            let done = c.actions(p);
            &&& p.flags & FLAG_PING != 0 ==> {
                &&& done.len() == 1
                &&& done[0] matches ClientActionModel::Send { packet: reply } && reply.flags
                    == FLAG_PONG && reply.stream_id == 0 && reply.payload.len() == 0
                &&& after.ping_loss_count == streams.ping_loss_count
                &&& after.last_ping_sent == streams.last_ping_sent
            }
            &&& p.flags & FLAG_PING == 0 ==> {
                &&& done.len() == 0
                &&& after.ping_loss_count == 0
                &&& after.last_ping_sent is None
            }
            &&& after.streams == streams.streams
            &&& after.last_activity == now
            &&& c.after_packet(p, now).writers == c.writers
        }),
{
    let f = p.flags;
    assert(f & FLAG_DATA == 0 && f & FLAG_SYN == 0 && f & FLAG_ACK == 0) by (bit_vector)
        requires
            f & (FLAG_DATA | FLAG_SYN | FLAG_ACK) == 0,
    ;
    assert(f & FLAG_PING != 0 || f & FLAG_PONG != 0) by (bit_vector)
        requires
            f & (FLAG_PING | FLAG_PONG) != 0,
    ;
}

/// A client begins with a new tunnel, whose looks are both due, and without local
/// connections.
pub proof fn law_client_begins_alone(now: Instant, id: u16)
    ensures
        !ClientModel::initial(now).writers.contains(id),
        ClientModel::initial(now).tunnel.next_ping == now,
        ClientModel::initial(now).tunnel.next_resend == now,
        ClientModel::initial(now).tunnel.streams.streams.contains_key(id) <==> id == 0,
{
}

/// A packet can be counted where its stream can count its data and its
/// acknowledgement; one for a stream that is not there always can.
pub proof fn law_packet_can_be_counted(c: ClientModel, p: PacketModel)
    requires
        c.tunnel.streams.streams.contains_key(p.stream_id) ==> {
            let stream = c.tunnel.streams.streams[p.stream_id];
            stream.data_fits(p.seq_num, p.payload) && stream.ack_fits(p.ack_num)
        },
    ensures
        c.packet_fits(p),
{
}

/// Data or an acknowledgement for a stream that is not there, and a packet that
/// says nothing the client knows, are signs of life and no more.
pub proof fn law_packet_for_nobody_is_dropped(c: ClientModel, p: PacketModel, now: Instant)
    requires
        !c.tunnel.streams.streams.contains_key(p.stream_id) && p.flags & FLAG_DATA != 0 || !(
        c.tunnel.streams.streams.contains_key(p.stream_id)) && p.flags & FLAG_SYN == 0 && p.flags
            & FLAG_ACK != 0 || p.flags & 0x7f == 0,
    ensures
        c.after_packet(p, now).tunnel.streams.streams == c.tunnel.streams.streams,
        c.after_packet(p, now).tunnel.streams.ping_loss_count
            == c.tunnel.streams.ping_loss_count,
        c.after_packet(p, now).tunnel.streams.last_ping_sent == c.tunnel.streams.last_ping_sent,
        c.after_packet(p, now).tunnel.streams.last_activity == now,
        c.after_packet(p, now).writers == c.writers,
        c.actions(p).len() == 0,
{
    let f = p.flags;
    assert(f & 0x7f == 0 ==> f & FLAG_DATA == 0 && f & FLAG_SYN == 0 && f & FLAG_ACK == 0 && f
        & FLAG_PING == 0 && f & FLAG_PONG == 0 && f & FLAG_FIN == 0 && f & FLAG_RST == 0)
        by (bit_vector);
}

} // verus!
