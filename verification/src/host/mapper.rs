//! Streams and the TCP connections behind them, on the host.

use std::collections::{HashMap, HashSet};
use vstd::prelude::*;
use crate::protocol::packet::{Packet, PacketModel, FLAG_ACK, FLAG_DATA, FLAG_RST};
use crate::protocol::stream;

verus! {

/// The streams whose TCP connection is ready, and what came for the others.
#[verifier::ext_equal]
pub struct MapperModel {
    pub writers: Set<u16>,
    pub pending: Map<u16, Seq<Seq<u8>>>,
}

impl MapperModel {
    pub open spec fn empty() -> MapperModel {
        MapperModel { writers: Set::empty(), pending: Map::empty() }
    }

    /// What waits for the TCP connection of a stream.
    pub open spec fn waiting(self, id: u16) -> Seq<Seq<u8>> {
        if self.pending.contains_key(id) {
            self.pending[id]
        } else {
            Seq::empty()
        }
    }

    /// After data was put aside.
    pub open spec fn after_buffer(self, id: u16, data: Seq<u8>) -> MapperModel {
        MapperModel { pending: self.pending.insert(id, self.waiting(id).push(data)), ..self }
    }

    /// After what was waiting was taken.
    pub open spec fn after_take(self, id: u16) -> MapperModel {
        MapperModel { pending: self.pending.remove(id), ..self }
    }

    /// After the TCP connection of a stream was made.
    pub open spec fn after_connect(self, id: u16) -> MapperModel {
        MapperModel { writers: self.writers.insert(id), ..self.after_take(id) }
    }

    /// After the TCP connection of a stream was closed.
    pub open spec fn after_close(self, id: u16) -> MapperModel {
        MapperModel { writers: self.writers.remove(id), ..self }
    }

    /// After data came for a stream: it is written where the TCP connection is
    /// ready, else put aside.
    pub open spec fn after_deliver(self, id: u16, data: Seq<u8>) -> MapperModel {
        if self.writers.contains(id) {
            self
        } else {
            self.after_buffer(id, data)
        }
    }
}

/// The packet with which the host resets a stream.
pub open spec fn reset_packet(id: u16) -> PacketModel {
    PacketModel {
        flags: FLAG_RST,
        connection_id: 0,
        stream_id: id,
        seq_num: 0,
        ack_num: 0,
        payload: Seq::empty(),
    }
}

/// A packet that carries what the service has sent.
pub open spec fn uplink_packet(id: u16, seq: u64, data: Seq<u8>) -> PacketModel {
    PacketModel {
        flags: FLAG_DATA | FLAG_ACK,
        connection_id: 0,
        stream_id: id,
        seq_num: seq,
        ack_num: 0,
        payload: data,
    }
}

/// Manages the TCP connections of the streams of one client.
#[derive(Debug)]
pub struct TcpConnectionManager {
    /// The streams whose TCP connection is ready.
    tcp_writers: HashSet<u16>,
    /// What came before the TCP connection was ready.
    pending_data: HashMap<u16, Vec<Vec<u8>>>,
}

/// What is waiting, as mathematics.
pub open spec fn pending_models(pending: Map<u16, Vec<Vec<u8>>>) -> Map<u16, Seq<Seq<u8>>> {
    pending.map_values(|v: Vec<Vec<u8>>| stream::payload_models(v@))
}

proof fn lemma_pending(pending: Map<u16, Vec<Vec<u8>>>, id: u16, v: Vec<Vec<u8>>)
    ensures
        pending_models(pending.insert(id, v)) == pending_models(pending).insert(
            id,
            stream::payload_models(v@),
        ),
        pending_models(pending.remove(id)) == pending_models(pending).remove(id),
{
    assert(pending_models(pending.insert(id, v)) =~= pending_models(pending).insert(
        id,
        stream::payload_models(v@),
    ));
    assert(pending_models(pending.remove(id)) =~= pending_models(pending).remove(id));
}

impl View for TcpConnectionManager {
    type V = MapperModel;

    closed spec fn view(&self) -> MapperModel {
        MapperModel { writers: self.tcp_writers@, pending: pending_models(self.pending_data@) }
    }
}

impl TcpConnectionManager {
    /// No connections.
    pub fn new() -> (manager: TcpConnectionManager)
        ensures
            manager@ == MapperModel::empty(),
    {
        let manager = TcpConnectionManager {
            tcp_writers: HashSet::new(),
            pending_data: HashMap::new(),
        };
        assert(manager@ =~= MapperModel::empty());
        manager
    }

    /// The streams whose TCP connection is ready.
    pub fn writers(&self) -> (writers: &HashSet<u16>)
        ensures
            writers@ == self@.writers,
    {
        &self.tcp_writers
    }

    /// Puts data aside for a stream whose TCP connection is not ready yet.
    pub fn buffer_data(&mut self, stream_id: u16, data: Vec<u8>)
        ensures
            final(self)@ == old(self)@.after_buffer(stream_id, data@),
    {
        let ghost before = self@;
        let ghost pending = self.pending_data@;
        let mut row: Vec<Vec<u8>> = match self.pending_data.remove(&stream_id) {
            Some(row) => row,
            None => Vec::new(),
        };
        assert(stream::payload_models(row@) =~= before.waiting(stream_id));
        let ghost waiting = row@;
        row.push(data);
        proof {
            assert(stream::payload_models(row@) =~= stream::payload_models(waiting).push(data@));
            lemma_pending(pending, stream_id, row);
            lemma_pending(self.pending_data@, stream_id, row);
            assert(pending.remove(stream_id).insert(stream_id, row) =~= pending.insert(
                stream_id,
                row,
            ));
        }
        self.pending_data.insert(stream_id, row);
    }

    /// Takes all that was put aside for a stream.
    pub fn take_pending(&mut self, stream_id: u16) -> (data: Vec<Vec<u8>>)
        ensures
            stream::payload_models(data@) == old(self)@.waiting(stream_id),
            final(self)@ == old(self)@.after_take(stream_id),
    {
        let ghost before = self@;
        proof {
            lemma_pending(self.pending_data@, stream_id, arbitrary());
        }
        match self.pending_data.remove(&stream_id) {
            Some(row) => row,
            None => {
                let row: Vec<Vec<u8>> = Vec::new();
                assert(stream::payload_models(row@) =~= before.waiting(stream_id));
                row
            },
        }
    }

    /// Data came for a stream: it is handed back where it can be written, else
    /// put aside.
    pub fn deliver(&mut self, stream_id: u16, data: Vec<u8>) -> (writable: Option<Vec<u8>>)
        ensures
            match writable {
                Some(d) => old(self)@.writers.contains(stream_id) && d@ == data@,
                None => !old(self)@.writers.contains(stream_id),
            },
            final(self)@ == old(self)@.after_deliver(stream_id, data@),
    {
        if self.tcp_writers.contains(&stream_id) {
            Some(data)
        } else {
            self.buffer_data(stream_id, data);
            None
        }
    }

    /// The TCP connection of a stream is ready: gives what has to be written to
    /// it first.
    pub fn connected(&mut self, stream_id: u16) -> (data: Vec<Vec<u8>>)
        ensures
            stream::payload_models(data@) == old(self)@.waiting(stream_id),
            final(self)@ == old(self)@.after_connect(stream_id),
    {
        let data = self.take_pending(stream_id);
        self.tcp_writers.insert(stream_id);
        data
    }

    /// The TCP connection of a stream could not be made: what was put aside is
    /// dropped, and the stream is to be reset.
    pub fn connect_failed(&mut self, stream_id: u16) -> (reset: Packet)
        ensures
            reset@ == reset_packet(stream_id),
            final(self)@ == old(self)@.after_take(stream_id),
    {
        self.take_pending(stream_id);
        Packet {
            flags: FLAG_RST,
            connection_id: 0,
            stream_id,
            seq_num: 0,
            ack_num: 0,
            payload: Vec::new(),
        }
    }

    /// The TCP connection of a stream was closed.
    pub fn closed(&mut self, stream_id: u16)
        ensures
            final(self)@ == old(self)@.after_close(stream_id),
    {
        self.tcp_writers.remove(&stream_id);
    }
}

/// What the service sends on one stream.
#[derive(Debug)]
pub struct Uplink {
    pub stream_id: u16,
    pub seq: u64,
}

impl Uplink {
    /// Nothing was sent yet.
    pub fn new(stream_id: u16) -> (uplink: Uplink)
        ensures
            uplink.stream_id == stream_id,
            uplink.seq == 0,
    {
        Uplink { stream_id, seq: 0 }
    }

    /// The packet that carries the next piece.
    pub fn next_packet(&mut self, data: Vec<u8>) -> (p: Packet)
        ensures
            p@ == uplink_packet(old(self).stream_id, old(self).seq, data@),
            final(self).stream_id == old(self).stream_id,
            final(self).seq == if old(self).seq == u64::MAX {
                0
            } else {
                old(self).seq + 1
            },
    {
        let seq: u64 = self.seq;
        self.seq = seq.wrapping_add(1);
        Packet {
            flags: FLAG_DATA | FLAG_ACK,
            connection_id: 0,
            stream_id: self.stream_id,
            seq_num: seq,
            ack_num: 0,
            payload: data,
        }
    }
}

/// After a row of data came for a stream.
pub open spec fn after_deliveries(
    mapper: MapperModel,
    id: u16,
    data: Seq<Seq<u8>>,
) -> MapperModel
    decreases data.len(),
{
    if data.len() == 0 {
        mapper
    } else {
        after_deliveries(mapper, id, data.drop_last()).after_deliver(id, data.last())
    }
}

/// What came before the TCP connection was ready is not lost: it is written
/// first, in its order, once the connection is made, and what comes then is
/// written at once. So the service gets all, in the order in which it came.
pub proof fn law_early_data_is_kept(mapper: MapperModel, id: u16, early: Seq<Seq<u8>>)
    requires
        !mapper.writers.contains(id),
    ensures
        after_deliveries(mapper, id, early).waiting(id) == mapper.waiting(id) + early,
        !after_deliveries(mapper, id, early).writers.contains(id),
        after_deliveries(mapper, id, early).after_connect(id).writers.contains(id),
        after_deliveries(mapper, id, early).after_connect(id).waiting(id) == Seq::<
            Seq<u8>,
        >::empty(),
    decreases early.len(),
{
    if early.len() > 0 {
        law_early_data_is_kept(mapper, id, early.drop_last());
        assert(mapper.waiting(id) + early.drop_last().push(early.last()) =~= mapper.waiting(id)
            + early);
        assert(mapper.waiting(id) + early.drop_last().push(early.last()) =~= (mapper.waiting(id)
            + early.drop_last()).push(early.last()));
    } else {
        assert(mapper.waiting(id) + early =~= mapper.waiting(id));
    }
}

/// What waits for one stream has nothing to do with the others.
pub proof fn law_streams_wait_apart(mapper: MapperModel, id: u16, other: u16, data: Seq<u8>)
    requires
        id != other,
    ensures
        mapper.after_deliver(id, data).waiting(other) == mapper.waiting(other),
        mapper.after_connect(id).waiting(other) == mapper.waiting(other),
        mapper.after_take(id).waiting(other) == mapper.waiting(other),
{
}

/// A connection that was made is ready until it is closed, and neither concerns
/// another stream. Closing it drops nothing that waits; once it is made, or what
/// waits for it was taken, nothing waits for it any more.
pub proof fn law_connections_are_apart(mapper: MapperModel, id: u16, other: u16)
    requires
        id != other,
    ensures
        mapper.after_connect(id).writers.contains(id),
        mapper.after_connect(id).writers.contains(other) == mapper.writers.contains(other),
        mapper.after_connect(id).waiting(id).len() == 0,
        !mapper.after_close(id).writers.contains(id),
        mapper.after_close(id).writers.contains(other) == mapper.writers.contains(other),
        mapper.after_close(id).waiting(id) == mapper.waiting(id),
        mapper.after_close(id).waiting(other) == mapper.waiting(other),
        mapper.after_take(id).waiting(id).len() == 0,
        mapper.after_take(id).writers == mapper.writers,
        !MapperModel::empty().writers.contains(id),
        MapperModel::empty().waiting(id).len() == 0,
{
}

/// Data that comes for a stream is written at once where its connection is ready,
/// and then nothing waits that did not wait before; else it waits last.
pub proof fn law_data_is_written_or_waits(mapper: MapperModel, id: u16, data: Seq<u8>)
    ensures
        mapper.writers.contains(id) ==> mapper.after_deliver(id, data) == mapper,
        !mapper.writers.contains(id) ==> mapper.after_deliver(id, data).waiting(id)
            == mapper.waiting(id).push(data),
        mapper.after_buffer(id, data).waiting(id) == mapper.waiting(id).push(data),
        mapper.after_deliver(id, data).writers == mapper.writers,
        mapper.after_buffer(id, data).writers == mapper.writers,
{
}

/// What the service sends goes out under the given number, with all its bytes, as
/// data that acknowledges no more than the opening of its stream; a reset names
/// the stream that could not be connected.
pub proof fn law_host_packets_name_their_stream(id: u16, seq: u64, data: Seq<u8>)
    ensures
        uplink_packet(id, seq, data).stream_id == id,
        uplink_packet(id, seq, data).seq_num == seq,
        uplink_packet(id, seq, data).payload == data,
        uplink_packet(id, seq, data).flags == FLAG_DATA | FLAG_ACK,
        uplink_packet(id, seq, data).ack_num == 0,
        uplink_packet(id, seq, data).connection_id == 0,
        reset_packet(id).stream_id == id,
        reset_packet(id).flags == FLAG_RST,
        reset_packet(id).connection_id == 0,
        reset_packet(id).payload.len() == 0,
{
}

} // verus!
