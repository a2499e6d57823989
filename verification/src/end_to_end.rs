//! What holds from one end of a tunnel to the other.

use vstd::prelude::*;
use crate::client;
use crate::client::{ClientActionModel, ClientModel};
use crate::client::forwarder;
use crate::host;
use crate::host::{HostActionModel, PeerModel};
use crate::host::mapper;
use crate::protocol::packet;
use crate::protocol::packet::{PacketModel, FLAG_ACK, FLAG_DATA, FLAG_SYN};
use crate::protocol::stream_laws;
use crate::protocol::stream_model as model;
use crate::protocol::stream_model::{ManagerModel, StreamModel, StreamState};
use crate::time::Instant;
use crate::tunnel;

verus! {

/// What is sent on a stream does not touch what is received on it, and the
/// other way round.
pub proof fn law_directions_are_apart(
    stream: StreamModel,
    seq: u64,
    payload: Seq<u8>,
    ack_num: u64,
    now: Instant,
)
    ensures
        same_receiver(stream, stream.after_record(seq, payload, now)),
        same_receiver(stream, stream.after_ack(ack_num)),
        same_receiver(stream, stream.after_resend(now)),
        same_sender(stream, stream.after_data(seq, payload, now)),
{
}

/// Whether two states of a stream agree in what is received.
pub open spec fn same_receiver(a: StreamModel, b: StreamModel) -> bool {
    a.recv_seq == b.recv_seq && a.recv_buffer == b.recv_buffer && a.recv_window == b.recv_window
}

/// Whether two states of a stream agree in what is sent.
pub open spec fn same_sender(a: StreamModel, b: StreamModel) -> bool {
    a.send_seq == b.send_seq && a.unacked == b.unacked && a.send_window == b.send_window
        && a.congestion == b.congestion && a.rto == b.rto
}

/// The payloads numbered from `first` on.
pub open spec fn sent_from(data: spec_fn(nat) -> Seq<u8>, first: nat, n: nat) -> Seq<Seq<u8>> {
    Seq::new(n, |k: int| data(model::nth(first, k as nat)))
}

/// Whether packets are data of one stream, each with what was sent under its
/// number.
pub open spec fn are_genuine(
    packets: Seq<(PacketModel, Instant)>,
    id: u16,
    data: spec_fn(nat) -> Seq<u8>,
) -> bool {
    forall|i: int|
        0 <= i < packets.len() ==> {
            let p = (#[trigger] packets[i]).0;
            &&& packet::flag_set(p.flags, FLAG_DATA)
            &&& !packet::flag_set(p.flags, FLAG_SYN)
            &&& p.stream_id == id
            &&& p.payload == data(p.seq_num as nat)
        }
}

proof fn lemma_genuine_front(
    packets: Seq<(PacketModel, Instant)>,
    id: u16,
    data: spec_fn(nat) -> Seq<u8>,
)
    requires
        packets.len() > 0,
        are_genuine(packets, id, data),
    ensures
        are_genuine(packets.drop_last(), id, data),
        packet::flag_set(packets.last().0.flags, FLAG_DATA),
        !packet::flag_set(packets.last().0.flags, FLAG_SYN),
        packets.last().0.stream_id == id,
        packets.last().0.payload == data(packets.last().0.seq_num as nat),
{
    let front = packets.drop_last();
    assert(packets[packets.len() - 1] == packets.last());
    assert forall|i: int| 0 <= i < front.len() implies ({
        let p = (#[trigger] front[i]).0;
        &&& packet::flag_set(p.flags, FLAG_DATA)
        &&& !packet::flag_set(p.flags, FLAG_SYN)
        &&& p.stream_id == id
        &&& p.payload == data(p.seq_num as nat)
    }) by {
        assert(packets[i] == front[i]);
    }
}

/// What one data packet more hands out, where all that came before was genuine.
proof fn lemma_next_delivery(
    stream: StreamModel,
    p: PacketModel,
    now: Instant,
    data: spec_fn(nat) -> Seq<u8>,
)
    requires
        stream.receiver_wf(),
        stream_laws::is_genuine(stream.recv_buffer, data),
        p.payload == data(p.seq_num as nat),
    ensures
        ({
            let due = stream.delivered(p.seq_num, p.payload);
            let after = stream.after_data(p.seq_num, p.payload, now);
            &&& due == sent_from(data, stream.recv_seq, due.len())
            &&& after.recv_seq == model::nth(stream.recv_seq, due.len())
            &&& after.receiver_wf()
            &&& stream_laws::is_genuine(after.recv_buffer, data)
        }),
{
    let row = seq![(p.seq_num, p.payload, now)];
    stream_laws::law_stream_is_faithful(stream, row, data);
    let due = stream.delivered(p.seq_num, p.payload);
    assert(row.drop_last() =~= Seq::empty());
    assert(stream_laws::after_arrivals(stream, row.drop_last()) == stream);
    assert(stream_laws::delivered_by(stream, row.drop_last()) =~= Seq::empty());
    assert(stream_laws::delivered_by(stream, row) =~= due);
    assert(due =~= sent_from(data, stream.recv_seq, due.len())) by {
        assert forall|k: int| 0 <= k < due.len() implies due[k] == data(
            model::nth(stream.recv_seq, k as nat),
        ) by {
            assert(stream_laws::delivered_by(stream, row)[k] == due[k]);
        }
    }
}

proof fn lemma_sent_from(data: spec_fn(nat) -> Seq<u8>, first: nat, n: nat, m: nat)
    ensures
        sent_from(data, first, n + m) == sent_from(data, first, n) + sent_from(
            data,
            model::nth(first, n),
            m,
        ),
        model::nth(model::nth(first, n), m) == model::nth(first, n + m),
{
    let parts = sent_from(data, first, n) + sent_from(data, model::nth(first, n), m);
    model::lemma_nth(first, n, m);
    assert forall|k: int| 0 <= k < n + m implies sent_from(data, first, n + m)[k] == parts[k] by {
        if k >= n {
            model::lemma_nth(first, n, (k - n) as nat);
        }
    }
    assert(sent_from(data, first, n + m) =~= parts);
}

/// The handler of a client after a row of packets.
pub open spec fn host_after(peer: PeerModel, packets: Seq<(PacketModel, Instant)>) -> PeerModel
    decreases packets.len(),
{
    if packets.len() == 0 {
        peer
    } else {
        host_after(peer, packets.drop_last()).after_packet(packets.last().0, packets.last().1)
    }
}

/// All that it does.
pub open spec fn host_done(peer: PeerModel, packets: Seq<(PacketModel, Instant)>) -> Seq<
    HostActionModel,
>
    decreases packets.len(),
{
    if packets.len() == 0 {
        Seq::empty()
    } else {
        host_done(peer, packets.drop_last()) + host_after(peer, packets.drop_last()).actions(
            packets.last().0,
        )
    }
}

proof fn lemma_writers_stay(mapper: mapper::MapperModel, id: u16, data: Seq<Seq<u8>>)
    ensures
        mapper::after_deliveries(mapper, id, data).writers == mapper.writers,
    decreases data.len(),
{
    if data.len() > 0 {
        lemma_writers_stay(mapper, id, data.drop_last());
    }
}

/// The service gets what the client has sent on a stream, in order, without a
/// gap and nothing twice, whatever the network does to the packets: loses,
/// doubles or swaps them.
pub proof fn law_service_gets_the_stream(
    peer: PeerModel,
    id: u16,
    packets: Seq<(PacketModel, Instant)>,
    data: spec_fn(nat) -> Seq<u8>,
)
    requires
        peer.tunnel.streams.streams.contains_key(id),
        peer.tunnel.streams.streams[id].receiver_wf(),
        stream_laws::is_genuine(peer.tunnel.streams.streams[id].recv_buffer, data),
        peer.tcp.writers.contains(id),
        are_genuine(packets, id, data),
    ensures
        host_after(peer, packets).tunnel.streams.streams.contains_key(id),
        host_after(peer, packets).tcp.writers.contains(id),
        stream_laws::is_genuine(
            host_after(peer, packets).tunnel.streams.streams[id].recv_buffer,
            data,
        ),
        host_after(peer, packets).tunnel.streams.streams[id].receiver_wf(),
        host_after(peer, packets).tunnel.streams.streams[id].recv_seq == model::nth(
            peer.tunnel.streams.streams[id].recv_seq,
            host_done(peer, packets).len(),
        ),
        host_done(peer, packets) == host::writes(
            id,
            sent_from(
                data,
                peer.tunnel.streams.streams[id].recv_seq,
                host_done(peer, packets).len(),
            ),
        ),
    decreases packets.len(),
{
    let first = peer.tunnel.streams.streams[id].recv_seq;
    model::lemma_nth(first, 0, 0);
    if packets.len() > 0 {
        let front = packets.drop_last();
        let p = packets.last().0;
        let now = packets.last().1;
        lemma_genuine_front(packets, id, data);
        law_service_gets_the_stream(peer, id, front, data);
        let before = host_after(peer, front);
        let stream = before.tunnel.streams.streams[id];
        lemma_next_delivery(stream, p, now, data);
        let due = stream.delivered(p.seq_num, p.payload);
        lemma_writers_stay(before.tcp, id, due);
        let done = host_done(peer, front);
        lemma_sent_from(data, first, done.len(), due.len());
        assert(before.actions(p) == host::writes(id, due));
        assert(host_done(peer, packets).len() == done.len() + due.len());
        assert(host_done(peer, packets) =~= host::writes(
            id,
            sent_from(data, first, done.len() + due.len()),
        ));
    } else {
        assert(host_done(peer, packets) =~= host::writes(id, sent_from(data, first, 0)));
    }
}

/// A client after a row of packets.
pub open spec fn client_after(
    c: ClientModel,
    packets: Seq<(PacketModel, Instant)>,
) -> ClientModel
    decreases packets.len(),
{
    if packets.len() == 0 {
        c
    } else {
        client_after(c, packets.drop_last()).after_packet(packets.last().0, packets.last().1)
    }
}

/// All that it does.
pub open spec fn client_done(c: ClientModel, packets: Seq<(PacketModel, Instant)>) -> Seq<
    ClientActionModel,
>
    decreases packets.len(),
{
    if packets.len() == 0 {
        Seq::empty()
    } else {
        client_done(c, packets.drop_last()) + client_after(c, packets.drop_last()).actions(
            packets.last().0,
        )
    }
}

/// The local connection gets what the service has sent on a stream, in order,
/// without a gap and nothing twice, whatever the network does to the packets.
pub proof fn law_local_connection_gets_the_stream(
    c: ClientModel,
    id: u16,
    packets: Seq<(PacketModel, Instant)>,
    data: spec_fn(nat) -> Seq<u8>,
)
    requires
        c.tunnel.streams.streams.contains_key(id),
        c.tunnel.streams.streams[id].receiver_wf(),
        stream_laws::is_genuine(c.tunnel.streams.streams[id].recv_buffer, data),
        c.writers.contains(id),
        are_genuine(packets, id, data),
    ensures
        client_after(c, packets).tunnel.streams.streams.contains_key(id),
        client_after(c, packets).writers.contains(id),
        stream_laws::is_genuine(
            client_after(c, packets).tunnel.streams.streams[id].recv_buffer,
            data,
        ),
        client_after(c, packets).tunnel.streams.streams[id].receiver_wf(),
        client_after(c, packets).tunnel.streams.streams[id].recv_seq == model::nth(
            c.tunnel.streams.streams[id].recv_seq,
            client_done(c, packets).len(),
        ),
        client_done(c, packets) == client::writes(
            id,
            sent_from(data, c.tunnel.streams.streams[id].recv_seq, client_done(c, packets).len()),
        ),
    decreases packets.len(),
{
    let first = c.tunnel.streams.streams[id].recv_seq;
    model::lemma_nth(first, 0, 0);
    if packets.len() > 0 {
        let front = packets.drop_last();
        let p = packets.last().0;
        let now = packets.last().1;
        lemma_genuine_front(packets, id, data);
        law_local_connection_gets_the_stream(c, id, front, data);
        let before = client_after(c, front);
        let stream = before.tunnel.streams.streams[id];
        lemma_next_delivery(stream, p, now, data);
        let due = stream.delivered(p.seq_num, p.payload);
        let done = client_done(c, front);
        lemma_sent_from(data, first, done.len(), due.len());
        assert(before.actions(p) == client::writes(id, due));
        assert(client_done(c, packets).len() == done.len() + due.len());
        assert(client_done(c, packets) =~= client::writes(
            id,
            sent_from(data, first, done.len() + due.len()),
        ));
    } else {
        assert(client_done(c, packets) =~= client::writes(id, sent_from(data, first, 0)));
    }
}

/// When a client opens a stream, the host takes the number that the client has
/// chosen where it is free there, makes a connection to the service, and
/// expects next the packet that the client sends next. Its answer takes the
/// opening packet off the client's queue.
pub proof fn law_handshake_agrees(
    streams: ManagerModel,
    peer: PeerModel,
    connection_id: u64,
    opened: Instant,
    now: Instant,
)
    requires
        streams.wf(),
        peer.tunnel.streams.is_free(streams.next_stream_id),
    ensures
        ({
            let id = streams.next_stream_id;
            let syn = forwarder::syn_packet(connection_id, id);
            let reply = tunnel::syn_reply(id, 0);
            let sender = forwarder::after_open(streams, opened);
            let receiver = peer.after_packet(syn, now).tunnel.streams;
            &&& peer.actions(syn) == seq![
                HostActionModel::Send { packet: reply },
                HostActionModel::Connect { stream_id: id },
            ]
            &&& receiver.streams.contains_key(id)
            &&& receiver.streams[id].state == StreamState::Established
            &&& receiver.streams[id].recv_seq == forwarder::next_seq(sender, id)
            &&& receiver.streams[id].recv_buffer.len() == 0
            &&& sender.streams[id].recv_seq == 0
            &&& sender.after_ack(id, reply.ack_num).streams[id].unacked.len() == 0
        }),
{
    let id = streams.next_stream_id;
    let sender = forwarder::after_open(streams, opened);
    assert(packet::flag_set(FLAG_SYN, FLAG_SYN)) by (bit_vector);
    let fresh = StreamModel::fresh(StreamState::SynSent, opened);
    assert(sender.streams[id].send_seq == 1);
    stream_laws::law_ack_takes_what_it_covers(sender.streams[id], 1);
    let after = sender.streams[id].after_ack(1);
    let queue = sender.streams[id].unacked;
    assert(queue.len() <= 1);
    assert forall|i: int| 0 <= i < queue.len() implies (#[trigger] queue[i]).seq == 0 by {}
    if after.unacked.len() > 0 {
        assert(after.unacked[0].seq > 1);
        reveal(Seq::filter);
        model::lemma_queue_parts(queue, 1);
        let open = |p: model::UnackedModel| p.seq > 1;
        queue.lemma_filter_contains_rev(open, after.unacked[0]);
        let j = choose|j: int| 0 <= j < queue.len() && queue[j] == after.unacked[0];
        assert(queue[j].seq == 0);
    }
}

/// The packets of a stream are numbered without a gap, and carry what was given
/// to send.
pub proof fn law_numbers_follow(
    streams: ManagerModel,
    connection_id: u64,
    id: u16,
    data: Seq<u8>,
    now: Instant,
)
    requires
        streams.streams.contains_key(id),
        streams.streams[id].send_seq <= u64::MAX,
    ensures
        forwarder::data_packet(streams, connection_id, id, data).seq_num
            == streams.streams[id].send_seq,
        forwarder::data_packet(streams, connection_id, id, data).payload == data,
        forwarder::next_seq(forwarder::after_send(streams, id, data, now), id) == model::nth(
            streams.streams[id].send_seq,
            1,
        ),
        packet::flag_set(
            forwarder::data_packet(streams, connection_id, id, data).flags,
            FLAG_DATA,
        ),
        !packet::flag_set(
            forwarder::data_packet(streams, connection_id, id, data).flags,
            FLAG_SYN,
        ),
{
    assert(packet::flag_set(FLAG_DATA | FLAG_ACK, FLAG_DATA)) by (bit_vector);
    assert(!packet::flag_set(FLAG_DATA | FLAG_ACK, FLAG_SYN)) by (bit_vector);
}

/// A packet that goes out again carries what was sent under its number before,
/// as a data packet.
pub proof fn law_resent_packets_are_genuine(
    stream: StreamModel,
    id: u16,
    now: Instant,
    data: spec_fn(nat) -> Seq<u8>,
)
    requires
        stream.rto <= model::MAX_RTO,
        forall|i: int|
            0 <= i < stream.unacked.len() ==> (#[trigger] stream.unacked[i]).payload == data(
                stream.unacked[i].seq as nat,
            ),
    ensures
        forall|k: int|
            #![trigger stream.resent(id, now)[k]]
            0 <= k < stream.resent(id, now).len() ==> {
                let p = stream.resent(id, now)[k].1;
                &&& p.stream_id == id
                &&& p.payload == data(p.seq_num as nat)
                &&& packet::flag_set(p.flags, FLAG_DATA)
                &&& !packet::flag_set(p.flags, FLAG_SYN)
            },
{
    assert(packet::flag_set(FLAG_DATA | FLAG_ACK, FLAG_DATA)) by (bit_vector);
    assert(!packet::flag_set(FLAG_DATA | FLAG_ACK, FLAG_SYN)) by (bit_vector);
    stream_laws::law_only_due_packets_are_resent(stream, now);
    assert forall|k: int|
        #![trigger stream.resent(id, now)[k]]
        0 <= k < stream.resent(id, now).len() implies ({
        let p = stream.resent(id, now)[k].1;
        &&& p.stream_id == id
        &&& p.payload == data(p.seq_num as nat)
        &&& packet::flag_set(p.flags, FLAG_DATA)
        &&& !packet::flag_set(p.flags, FLAG_SYN)
    }) by {
        let q = stream.rescanned(now).sent[k];
        assert(stream.unacked.contains(q));
        let i = choose|i: int| 0 <= i < stream.unacked.len() && stream.unacked[i] == q;
        assert(stream.unacked[i].payload == data(stream.unacked[i].seq as nat));
    }
}

/// What the client has sent on a stream before its connection to the service is
/// ready waits, in order, without a gap and nothing twice, to be written first.
pub proof fn law_early_packets_wait(
    peer: PeerModel,
    id: u16,
    packets: Seq<(PacketModel, Instant)>,
    data: spec_fn(nat) -> Seq<u8>,
)
    requires
        peer.tunnel.streams.streams.contains_key(id),
        peer.tunnel.streams.streams[id].receiver_wf(),
        stream_laws::is_genuine(peer.tunnel.streams.streams[id].recv_buffer, data),
        !peer.tcp.writers.contains(id),
        are_genuine(packets, id, data),
    ensures
        ({
            let first = peer.tunnel.streams.streams[id].recv_seq;
            let after = host_after(peer, packets);
            let n = (after.tcp.waiting(id).len() - peer.tcp.waiting(id).len()) as nat;
            &&& after.tunnel.streams.streams.contains_key(id)
            &&& after.tunnel.streams.streams[id].receiver_wf()
            &&& after.tunnel.streams.streams[id].recv_seq == model::nth(first, n)
            &&& stream_laws::is_genuine(after.tunnel.streams.streams[id].recv_buffer, data)
            &&& !after.tcp.writers.contains(id)
            &&& after.tcp.waiting(id) == peer.tcp.waiting(id) + sent_from(data, first, n)
            &&& host_done(peer, packets) == Seq::<HostActionModel>::empty()
        }),
    decreases packets.len(),
{
    let first = peer.tunnel.streams.streams[id].recv_seq;
    model::lemma_nth(first, 0, 0);
    if packets.len() > 0 {
        let front = packets.drop_last();
        let p = packets.last().0;
        let now = packets.last().1;
        lemma_genuine_front(packets, id, data);
        law_early_packets_wait(peer, id, front, data);
        let before = host_after(peer, front);
        let stream = before.tunnel.streams.streams[id];
        lemma_next_delivery(stream, p, now, data);
        let due = stream.delivered(p.seq_num, p.payload);
        mapper::law_early_data_is_kept(before.tcp, id, due);
        let n = (before.tcp.waiting(id).len() - peer.tcp.waiting(id).len()) as nat;
        lemma_sent_from(data, first, n, due.len());
        assert(peer.tcp.waiting(id) + sent_from(data, first, n) + due =~= peer.tcp.waiting(id) + (
        sent_from(data, first, n) + due));
        assert(host_done(peer, packets) =~= Seq::empty());
    } else {
        assert(peer.tcp.waiting(id) + sent_from(data, first, 0) =~= peer.tcp.waiting(id));
    }
}

/// The streams of a client after a row of data was sent on one, piece by piece.
pub open spec fn after_sends(
    streams: ManagerModel,
    id: u16,
    pieces: Seq<(Seq<u8>, Instant)>,
) -> ManagerModel
    decreases pieces.len(),
{
    if pieces.len() == 0 {
        streams
    } else {
        forwarder::after_send(
            after_sends(streams, id, pieces.drop_last()),
            id,
            pieces.last().0,
            pieces.last().1,
        )
    }
}

/// The packets that carry them.
pub open spec fn sent_packets(
    streams: ManagerModel,
    connection_id: u64,
    id: u16,
    pieces: Seq<(Seq<u8>, Instant)>,
) -> Seq<PacketModel>
    decreases pieces.len(),
{
    if pieces.len() == 0 {
        Seq::empty()
    } else {
        let front = pieces.drop_last();
        sent_packets(streams, connection_id, id, front).push(
            forwarder::data_packet(
                after_sends(streams, id, front),
                connection_id,
                id,
                pieces.last().0,
            ),
        )
    }
}

/// Whether a packet carries the same data as another: it is that packet, or one
/// with which its data went out again.
pub open spec fn same_data(p: PacketModel, q: PacketModel) -> bool {
    &&& p.stream_id == q.stream_id
    &&& p.seq_num == q.seq_num
    &&& p.payload == q.payload
    &&& packet::flag_set(p.flags, FLAG_DATA)
    &&& !packet::flag_set(p.flags, FLAG_SYN)
}

/// The packets of a row of data are numbered from the next number of the stream
/// on, and carry the pieces in their order.
pub proof fn law_sent_row_is_numbered(
    streams: ManagerModel,
    connection_id: u64,
    id: u16,
    pieces: Seq<(Seq<u8>, Instant)>,
)
    requires
        streams.streams.contains_key(id),
        streams.streams[id].send_seq + pieces.len() <= u64::MAX,
    ensures
        sent_packets(streams, connection_id, id, pieces).len() == pieces.len(),
        forall|k: int|
            0 <= k < pieces.len() ==> {
                let p = #[trigger] sent_packets(streams, connection_id, id, pieces)[k];
                &&& p.stream_id == id
                &&& p.seq_num == streams.streams[id].send_seq + k
                &&& p.payload == pieces[k].0
                &&& same_data(p, p)
            },
        after_sends(streams, id, pieces).streams.contains_key(id),
        after_sends(streams, id, pieces).streams[id].send_seq == streams.streams[id].send_seq
            + pieces.len(),
    decreases pieces.len(),
{
    if pieces.len() > 0 {
        let front = pieces.drop_last();
        law_sent_row_is_numbered(streams, connection_id, id, front);
        let before = after_sends(streams, id, front);
        law_numbers_follow(before, connection_id, id, pieces.last().0, pieces.last().1);
        let all = sent_packets(streams, connection_id, id, pieces);
        let sent = sent_packets(streams, connection_id, id, front);
        assert forall|k: int| 0 <= k < pieces.len() implies ({
            let p = #[trigger] all[k];
            &&& p.stream_id == id
            &&& p.seq_num == streams.streams[id].send_seq + k
            &&& p.payload == pieces[k].0
            &&& same_data(p, p)
        }) by {
            if k < sent.len() {
                assert(all[k] == sent[k]);
                assert(front[k] == pieces[k]);
            }
        }
    }
}

/// Whether a buffer holds only packets with numbers below a bound.
pub open spec fn is_below(buffer: Seq<(u64, Seq<u8>)>, bound: nat) -> bool {
    forall|n: nat| n >= bound ==> !#[trigger] model::holds(buffer, n)
}

proof fn lemma_stays_below(stream: StreamModel, p: PacketModel, now: Instant, bound: nat)
    requires
        stream.receiver_wf(),
        bound <= u64::MAX,
        stream.recv_seq <= bound,
        is_below(stream.recv_buffer, bound),
        p.seq_num < bound,
    ensures
        stream.after_data(p.seq_num, p.payload, now).receiver_wf(),
        stream.after_data(p.seq_num, p.payload, now).recv_seq <= bound,
        stream.after_data(p.seq_num, p.payload, now).recv_seq == stream.recv_seq
            + stream.delivered(p.seq_num, p.payload).len(),
        is_below(stream.after_data(p.seq_num, p.payload, now).recv_buffer, bound),
{
    let after = stream.after_data(p.seq_num, p.payload, now);
    if stream.recv_window.fits(p.payload.len()) && p.seq_num == stream.recv_seq {
        stream_laws::law_delivery_is_in_order(stream, p.seq_num, p.payload, now);
        let due = stream.delivered(p.seq_num, p.payload);
        let k = (bound - p.seq_num) as nat;
        if k < due.len() {
            let n = model::nth(p.seq_num as nat, k);
            assert(n == bound);
            assert(stream_laws::came_first(stream.recv_buffer, n, due[k as int]));
            stream_laws::lemma_numbered_none(stream.recv_buffer, n);
            assert(!model::holds(stream.recv_buffer, n));
        }
        assert(after.recv_seq == p.seq_num + due.len());
        assert forall|n: nat| n >= bound implies !#[trigger] model::holds(
            after.recv_buffer,
            n,
        ) by {
            stream_laws::lemma_numbered_none(stream.recv_buffer, n);
            stream_laws::lemma_numbered_none(after.recv_buffer, n);
            if n <= u64::MAX {
                assert(!model::holds(stream.recv_buffer, n));
                assert(model::distance(p.seq_num as nat, n) == n - p.seq_num);
                assert(stream_laws::numbered(after.recv_buffer, n) == stream_laws::numbered(
                    stream.recv_buffer,
                    n,
                ));
            }
        }
    } else {
        assert forall|n: nat| n >= bound implies !#[trigger] model::holds(
            after.recv_buffer,
            n,
        ) by {
            if model::holds(after.recv_buffer, n) {
                let i = choose|i: int|
                    0 <= i < after.recv_buffer.len() && (#[trigger] after.recv_buffer[i]).0 == n;
                if i < stream.recv_buffer.len() {
                    assert(stream.recv_buffer[i].0 == n);
                    assert(model::holds(stream.recv_buffer, n));
                }
            }
        }
    }
}

proof fn lemma_host_stays_below(
    peer: PeerModel,
    id: u16,
    packets: Seq<(PacketModel, Instant)>,
    data: spec_fn(nat) -> Seq<u8>,
    bound: nat,
)
    requires
        peer.tunnel.streams.streams.contains_key(id),
        peer.tunnel.streams.streams[id].receiver_wf(),
        peer.tcp.writers.contains(id),
        bound <= u64::MAX,
        peer.tunnel.streams.streams[id].recv_seq <= bound,
        is_below(peer.tunnel.streams.streams[id].recv_buffer, bound),
        are_genuine(packets, id, data),
        forall|i: int| 0 <= i < packets.len() ==> (#[trigger] packets[i]).0.seq_num < bound,
    ensures
        host_after(peer, packets).tunnel.streams.streams.contains_key(id),
        host_after(peer, packets).tunnel.streams.streams[id].receiver_wf(),
        host_after(peer, packets).tcp.writers.contains(id),
        host_after(peer, packets).tunnel.streams.streams[id].recv_seq <= bound,
        host_after(peer, packets).tunnel.streams.streams[id].recv_seq
            == peer.tunnel.streams.streams[id].recv_seq + host_done(peer, packets).len(),
        is_below(host_after(peer, packets).tunnel.streams.streams[id].recv_buffer, bound),
    decreases packets.len(),
{
    if packets.len() > 0 {
        let front = packets.drop_last();
        lemma_genuine_front(packets, id, data);
        assert forall|i: int| 0 <= i < front.len() implies (#[trigger] front[i]).0.seq_num
            < bound by {
            assert(packets[i] == front[i]);
        }
        lemma_host_stays_below(peer, id, front, data, bound);
        assert(packets[packets.len() - 1] == packets.last());
        let stream = host_after(peer, front).tunnel.streams.streams[id];
        let p = packets.last().0;
        lemma_stays_below(stream, p, packets.last().1, bound);
        lemma_writers_stay(
            host_after(peer, front).tcp,
            id,
            stream.delivered(p.seq_num, p.payload),
        );
    }
}

/// A tunnel is faithful: what a client sends on a stream, piece by piece, is
/// written to the service as a beginning of that row, whatever the network does
/// with the packets and with those that go out again. Nothing is lost in
/// between, swapped, doubled or made up.
pub proof fn law_tunnel_is_faithful(
    streams: ManagerModel,
    connection_id: u64,
    id: u16,
    pieces: Seq<(Seq<u8>, Instant)>,
    peer: PeerModel,
    packets: Seq<(PacketModel, Instant)>,
)
    requires
        streams.streams.contains_key(id),
        streams.streams[id].send_seq + pieces.len() <= u64::MAX,
        peer.tunnel.streams.streams.contains_key(id),
        peer.tunnel.streams.streams[id].recv_seq == streams.streams[id].send_seq,
        peer.tunnel.streams.streams[id].recv_buffer.len() == 0,
        peer.tcp.writers.contains(id),
        forall|i: int|
            0 <= i < packets.len() ==> exists|k: int|
                0 <= k < pieces.len() && same_data(
                    (#[trigger] packets[i]).0,
                    #[trigger] sent_packets(streams, connection_id, id, pieces)[k],
                ),
    ensures
        host_done(peer, packets).len() <= pieces.len(),
        host_done(peer, packets) == host::writes(
            id,
            Seq::new(host_done(peer, packets).len(), |k: int| pieces[k].0),
        ),
{
    let first = streams.streams[id].send_seq;
    let bound = first + pieces.len();
    let sent = sent_packets(streams, connection_id, id, pieces);
    let data = |n: nat| pieces[n - first].0;
    model::lemma_nth(first, 0, 0);
    law_sent_row_is_numbered(streams, connection_id, id, pieces);
    assert forall|i: int| 0 <= i < packets.len() implies ({
        let p = (#[trigger] packets[i]).0;
        &&& packet::flag_set(p.flags, FLAG_DATA)
        &&& !packet::flag_set(p.flags, FLAG_SYN)
        &&& p.stream_id == id
        &&& p.payload == data(p.seq_num as nat)
        &&& p.seq_num < bound
    }) by {
        let k = choose|k: int|
            0 <= k < pieces.len() && same_data(packets[i].0, #[trigger] sent[k]);
        assert(sent[k].seq_num == first + k);
        assert(sent[k].payload == pieces[k].0);
    }
    assert(is_below(peer.tunnel.streams.streams[id].recv_buffer, bound));
    law_service_gets_the_stream(peer, id, packets, data);
    lemma_host_stays_below(peer, id, packets, data, bound);
    let n = host_done(peer, packets).len();
    assert forall|k: nat| k < n implies #[trigger] model::nth(first, k) == first + k by {}
    assert(sent_from(data, first, n) =~= Seq::new(n, |k: int| pieces[k].0));
}

proof fn lemma_client_stays_below(
    c: ClientModel,
    id: u16,
    packets: Seq<(PacketModel, Instant)>,
    data: spec_fn(nat) -> Seq<u8>,
    bound: nat,
)
    requires
        c.tunnel.streams.streams.contains_key(id),
        c.tunnel.streams.streams[id].receiver_wf(),
        c.writers.contains(id),
        bound <= u64::MAX,
        c.tunnel.streams.streams[id].recv_seq <= bound,
        is_below(c.tunnel.streams.streams[id].recv_buffer, bound),
        are_genuine(packets, id, data),
        forall|i: int| 0 <= i < packets.len() ==> (#[trigger] packets[i]).0.seq_num < bound,
    ensures
        client_after(c, packets).tunnel.streams.streams.contains_key(id),
        client_after(c, packets).tunnel.streams.streams[id].receiver_wf(),
        client_after(c, packets).writers.contains(id),
        client_after(c, packets).tunnel.streams.streams[id].recv_seq <= bound,
        client_after(c, packets).tunnel.streams.streams[id].recv_seq
            == c.tunnel.streams.streams[id].recv_seq + client_done(c, packets).len(),
        is_below(client_after(c, packets).tunnel.streams.streams[id].recv_buffer, bound),
    decreases packets.len(),
{
    if packets.len() > 0 {
        let front = packets.drop_last();
        lemma_genuine_front(packets, id, data);
        assert forall|i: int| 0 <= i < front.len() implies (#[trigger] front[i]).0.seq_num
            < bound by {
            assert(packets[i] == front[i]);
        }
        lemma_client_stays_below(c, id, front, data, bound);
        assert(packets[packets.len() - 1] == packets.last());
        lemma_stays_below(
            client_after(c, front).tunnel.streams.streams[id],
            packets.last().0,
            packets.last().1,
            bound,
        );
    }
}

/// The way back is faithful too: what the service sends on a stream, piece by
/// piece, is written to the local connection as a beginning of that row,
/// whatever the network does with the packets.
pub proof fn law_way_back_is_faithful(
    id: u16,
    pieces: Seq<Seq<u8>>,
    c: ClientModel,
    packets: Seq<(PacketModel, Instant)>,
)
    requires
        pieces.len() <= u64::MAX,
        c.tunnel.streams.streams.contains_key(id),
        c.tunnel.streams.streams[id].recv_seq == 0,
        c.tunnel.streams.streams[id].recv_buffer.len() == 0,
        c.writers.contains(id),
        forall|i: int|
            0 <= i < packets.len() ==> exists|k: int|
                0 <= k < pieces.len() && (#[trigger] packets[i]).0 == mapper::uplink_packet(
                    id,
                    k as u64,
                    #[trigger] pieces[k],
                ),
    ensures
        client_done(c, packets).len() <= pieces.len(),
        client_done(c, packets) == client::writes(
            id,
            pieces.take(client_done(c, packets).len() as int),
        ),
{
    let bound = pieces.len();
    let data = |n: nat| pieces[n as int];
    assert(packet::flag_set(FLAG_DATA | FLAG_ACK, FLAG_DATA)) by (bit_vector);
    assert(!packet::flag_set(FLAG_DATA | FLAG_ACK, FLAG_SYN)) by (bit_vector);
    assert forall|i: int| 0 <= i < packets.len() implies ({
        let p = (#[trigger] packets[i]).0;
        &&& packet::flag_set(p.flags, FLAG_DATA)
        &&& !packet::flag_set(p.flags, FLAG_SYN)
        &&& p.stream_id == id
        &&& p.payload == data(p.seq_num as nat)
        &&& p.seq_num < bound
    }) by {
        let k = choose|k: int|
            0 <= k < pieces.len() && packets[i].0 == mapper::uplink_packet(
                id,
                k as u64,
                #[trigger] pieces[k],
            );
        assert(packets[i].0.seq_num == k);
    }
    assert(is_below(c.tunnel.streams.streams[id].recv_buffer, bound));
    law_local_connection_gets_the_stream(c, id, packets, data);
    lemma_client_stays_below(c, id, packets, data, bound);
    let n = client_done(c, packets).len();
    assert forall|k: nat| k < n implies #[trigger] model::nth(0, k) == k by {}
    assert(sent_from(data, 0, n) =~= pieces.take(n as int));
}

} // verus!
