//! Local TCP connections and the streams that carry them, on the client.

use vstd::prelude::*;
use crate::protocol::packet::{Packet, PacketModel, FLAG_ACK, FLAG_DATA, FLAG_FIN, FLAG_SYN};
use crate::protocol::stream::StreamManager;
use crate::protocol::stream_effects;
use crate::protocol::stream_laws;
use crate::protocol::stream_model as model;
use crate::protocol::stream_model::{ManagerModel, StreamModel, StreamState};
use crate::time;
use crate::time::Instant;

verus! {

/// The number that the next packet of a stream gets; 0 where there is no such
/// stream.
pub open spec fn next_seq(streams: ManagerModel, id: u16) -> nat {
    if streams.streams.contains_key(id) {
        streams.streams[id].send_seq
    } else {
        0
    }
}

/// The packet that opens a stream.
pub open spec fn syn_packet(connection_id: u64, id: u16) -> PacketModel {
    PacketModel {
        flags: FLAG_SYN,
        connection_id,
        stream_id: id,
        seq_num: 0,
        ack_num: 0,
        payload: Seq::empty(),
    }
}

/// A packet that carries data and acknowledges what came.
pub open spec fn data_packet(
    streams: ManagerModel,
    connection_id: u64,
    id: u16,
    data: Seq<u8>,
) -> PacketModel {
    PacketModel {
        flags: FLAG_DATA | FLAG_ACK,
        connection_id,
        stream_id: id,
        seq_num: next_seq(streams, id) as u64,
        ack_num: streams.current_ack(id) as u64,
        payload: data,
    }
}

/// The packet that closes a stream.
pub open spec fn fin_packet(connection_id: u64, id: u16) -> PacketModel {
    PacketModel {
        flags: FLAG_FIN,
        connection_id,
        stream_id: id,
        seq_num: 0,
        ack_num: 0,
        payload: Seq::empty(),
    }
}

/// The streams after one was opened: its first number is taken by the packet
/// that opens it.
pub open spec fn after_open(streams: ManagerModel, now: Instant) -> ManagerModel {
    let id = streams.next_stream_id;
    streams.after_allocate(now).after_next_seq(id).after_record(id, 0, Seq::empty(), now)
}

/// The streams after data was sent on one.
pub open spec fn after_send(
    streams: ManagerModel,
    id: u16,
    data: Seq<u8>,
    now: Instant,
) -> ManagerModel {
    streams.after_next_seq(id).after_record(id, next_seq(streams, id) as u64, data, now)
}

/// Whether the counters of a stream can take data.
pub open spec fn send_fits(streams: ManagerModel, id: u16, len: nat) -> bool {
    streams.streams.contains_key(id) ==> streams.streams[id].send_window.unacked + len
        <= usize::MAX
}

/// Opens a stream for a new local connection, and gives its number and the
/// packet that opens it at the other end.
pub fn open_stream(streams: &mut StreamManager, connection_id: u64, now: Instant) -> (opened: (
    u16,
    Packet,
))
    requires
        old(streams)@.wf(),
    ensures
        final(streams)@.wf(),
        opened.0 == old(streams)@.next_stream_id,
        opened.1@ == syn_packet(connection_id, opened.0),
        final(streams)@ == after_open(old(streams)@, now),
{
    let id: u16 = streams.allocate(now);
    let seq: u64 = match streams.next_send_seq(id) {
        Some(n) => n,
        None => 0,
    };
    streams.record_send(id, seq, Vec::new(), now);
    assert(streams@ == after_open(old(streams)@, now));
    (
        id,
        Packet {
            flags: FLAG_SYN,
            connection_id,
            stream_id: id,
            seq_num: seq,
            ack_num: 0,
            payload: Vec::new(),
        },
    )
}

/// The packet for what was read from a local connection.
pub fn send_data(
    streams: &mut StreamManager,
    connection_id: u64,
    id: u16,
    data: Vec<u8>,
    now: Instant,
) -> (p: Packet)
    requires
        old(streams)@.wf(),
        send_fits(old(streams)@, id, data@.len()),
    ensures
        final(streams)@.wf(),
        p@ == data_packet(old(streams)@, connection_id, id, data@),
        final(streams)@ == after_send(old(streams)@, id, data@, now),
{
    let seq: u64 = match streams.next_send_seq(id) {
        Some(n) => n,
        None => 0,
    };
    let ack_num: u64 = streams.current_ack(id);
    let copy = vstd::slice::slice_to_vec(data.as_slice());
    streams.record_send(id, seq, copy, now);
    Packet { flags: FLAG_DATA | FLAG_ACK, connection_id, stream_id: id, seq_num: seq, ack_num,
        payload: data }
}

/// Whether [`send_data`] can take that many bytes without a counter running
/// over.
pub fn can_count(streams: &StreamManager, id: u16, len: usize) -> (yes: bool)
    requires
        streams@.wf(),
    ensures
        yes == send_fits(streams@, id, len as nat),
{
    match streams.streams.get(&id) {
        None => true,
        Some(s) => {
            assert(streams@.streams.contains_key(id) && streams@.streams[id] == s@);
            len <= usize::MAX - s.send_window.unacked_bytes()
        },
    }
}

/// The packet that closes a stream when its local connection is gone.
pub fn close_stream(connection_id: u64, id: u16) -> (p: Packet)
    ensures
        p@ == fin_packet(connection_id, id),
{
    Packet {
        flags: FLAG_FIN,
        connection_id,
        stream_id: id,
        seq_num: 0,
        ack_num: 0,
        payload: Vec::new(),
    }
}

/// A stream that was opened has one packet in its queue, under the number of the
/// packet that opens it, without content, sent now and never again so far; the
/// data that follows is numbered from the next number on. All other streams
/// stay as they are.
pub proof fn law_opening_waits_for_its_answer(
    streams: ManagerModel,
    connection_id: u64,
    now: Instant,
    other: u16,
)
    requires
        other != streams.next_stream_id,
    ensures
        ({
            let id = streams.next_stream_id;
            let syn = syn_packet(connection_id, id);
            let after = after_open(streams, now);
            let stream = after.streams[id];
            &&& syn.flags == FLAG_SYN
            &&& syn.stream_id == id
            &&& syn.connection_id == connection_id
            &&& syn.ack_num == 0
            &&& syn.payload.len() == 0
            &&& after.streams.contains_key(id)
            &&& stream.unacked.len() == 1
            &&& stream.unacked[0].seq == syn.seq_num
            &&& stream.unacked[0].payload == syn.payload
            &&& stream.unacked[0].sent_at == now
            &&& stream.unacked[0].retransmits == 0
            &&& stream.send_seq == syn.seq_num + 1
            &&& stream.recv_seq == 0
            &&& stream.recv_buffer.len() == 0
            &&& stream.state == StreamState::SynSent
            &&& stream.rto == 200_000_000
            &&& stream.retransmit_count == 0
            &&& stream.last_activity == now
            &&& stream.send_window.unacked == 0
            &&& stream.send_window.window_size == 64 * 1024
            &&& stream.recv_window.buffered == 0
            &&& stream.recv_window.window_size == 64 * 1024
            &&& stream.congestion.in_flight == 0
            &&& stream.congestion.cwnd == 10 * 1460
            &&& stream_effects::same_stream(streams, after, other)
            &&& stream_effects::same_tunnel(streams, after)
            &&& after.next_stream_id == streams.after_allocate(now).next_stream_id
        }),
{
    let id = streams.next_stream_id;
    let made = streams.after_allocate(now);
    stream_effects::law_opened_stream_is_blank(streams, now, other);
    stream_effects::law_number_is_taken_once(made, id);
    let numbered = made.after_next_seq(id);
    stream_effects::law_sent_packet_is_queued(numbered.streams[id], 0, Seq::empty(), now);
    let stream = after_open(streams, now).streams[id];
    assert(stream.unacked[0] == stream.unacked.last());
}

/// The streams after looks at the clock at some times, one after the other.
pub open spec fn after_looks(streams: ManagerModel, times: Seq<Instant>) -> ManagerModel
    decreases times.len(),
{
    if times.len() == 0 {
        streams
    } else {
        after_looks(streams, times.drop_last()).after_resend(times.last())
    }
}

/// A stream whose opening is not answered sends the opening again at each look
/// that comes a waiting time after the last one, five times, with a longer
/// waiting time each time; with the look after that it is given up.
pub proof fn law_unanswered_opening_is_given_up(
    streams: ManagerModel,
    opened: Instant,
    times: Seq<Instant>,
)
    requires
        forall|i: int|
            0 <= i < times.len() ==> time::elapsed(
                #[trigger] times[i],
                if i == 0 {
                    opened
                } else {
                    times[i - 1]
                },
            ) >= 3_000_000_000,
    ensures
        ({
            let id = streams.next_stream_id;
            let after = after_looks(after_open(streams, opened), times);
            &&& times.len() <= 5 ==> {
                let stream = after.streams[id];
                &&& after.streams.contains_key(id)
                &&& stream.unacked.len() == 1
                &&& stream.unacked[0].seq == 0
                &&& stream.unacked[0].payload.len() == 0
                &&& stream.unacked[0].retransmits == times.len()
                &&& stream.unacked[0].sent_at == if times.len() == 0 {
                    opened
                } else {
                    times.last()
                }
                &&& stream.rto <= 3_000_000_000
                &&& stream.retransmit_count == times.len()
            }
            &&& times.len() > 5 ==> !after.streams.contains_key(id)
        }),
    decreases times.len(),
{
    let id = streams.next_stream_id;
    law_opening_waits_for_its_answer(streams, 0, opened, if id == 0 {
        1
    } else {
        0
    });
    if times.len() > 0 {
        let front = times.drop_last();
        let now = times.last();
        assert forall|i: int| 0 <= i < front.len() implies time::elapsed(
            #[trigger] front[i],
            if i == 0 {
                opened
            } else {
                front[i - 1]
            },
        ) >= 3_000_000_000 by {
            assert(times[i] == front[i]);
            if i > 0 {
                assert(times[i - 1] == front[i - 1]);
            }
        }
        law_unanswered_opening_is_given_up(streams, opened, front);
        assert(times[times.len() - 1] == now);
        let before = after_looks(after_open(streams, opened), front);
        if front.len() <= 5 {
            let stream = before.streams[id];
            if front.len() > 0 {
                assert(times[times.len() - 2] == front.last());
            }
            assert(model::has_waited(stream.unacked[0], stream.rto, now));
            let rest = stream.unacked.drop_first();
            let left = model::hints_from(stream.hints(), stream.unacked[0].seq);
            assert(rest =~= Seq::empty());
            let tail = model::rescan(rest, left, model::backed_off(stream.rto), now);
            assert(tail.unacked =~= Seq::empty());
            assert(tail.sent =~= Seq::empty());
        }
    }
}

/// Data that is sent on a stream with room for it is kept until it is
/// acknowledged: the last packet of the queue has the number and all the bytes
/// of the packet that went out. So whatever goes out again from its place in
/// the queue, at whatever look, carries the same bytes under the same number.
pub proof fn law_sent_data_is_kept(
    streams: ManagerModel,
    connection_id: u64,
    id: u16,
    data: Seq<u8>,
    now: Instant,
    later: Instant,
)
    requires
        streams.streams.contains_key(id),
        streams.streams[id].send_seq <= u64::MAX,
        streams.streams[id].send_window.unacked + data.len()
            <= streams.streams[id].send_window.window_size,
        streams.streams[id].congestion.in_flight + data.len()
            <= streams.streams[id].congestion.cwnd,
    ensures
        ({
            let p = data_packet(streams, connection_id, id, data);
            let stream = after_send(streams, id, data, now).streams[id];
            let n = streams.streams[id].unacked.len() as int;
            let again = stream.after_resend(later).unacked;
            &&& after_send(streams, id, data, now).streams.contains_key(id)
            &&& p.payload == data
            &&& p.seq_num == streams.streams[id].send_seq
            &&& stream.unacked.len() == n + 1
            &&& stream.unacked.drop_last() == streams.streams[id].unacked
            &&& stream.unacked[n].seq == p.seq_num
            &&& stream.unacked[n].payload == p.payload
            &&& stream.unacked[n].sent_at == now
            &&& stream.unacked[n].retransmits == 0
            &&& again.len() == n + 1
            &&& again[n].seq == p.seq_num
            &&& again[n].payload == p.payload
            &&& stream.send_window.unacked == streams.streams[id].send_window.unacked + data.len()
        }),
{
    let stream = after_send(streams, id, data, now).streams[id];
    let numbered = streams.after_next_seq(id);
    stream_effects::law_number_is_taken_once(streams, id);
    stream_effects::law_sent_packet_is_queued(
        numbered.streams[id],
        next_seq(streams, id) as u64,
        data,
        now,
    );
    let n = streams.streams[id].unacked.len() as int;
    assert(stream.unacked[n] == stream.unacked.last());
    stream_laws::law_queue_is_kept(stream, n, 0, Seq::empty(), later);
}

/// A lost packet goes out again as it was: at a look that finds it alone in the
/// queue, after its waiting time, one packet is sent on the stream, with its
/// number and all its bytes.
pub proof fn law_lost_data_goes_out_again(
    streams: ManagerModel,
    connection_id: u64,
    id: u16,
    data: Seq<u8>,
    now: Instant,
    later: Instant,
)
    requires
        streams.streams.contains_key(id),
        streams.streams[id].send_seq <= u64::MAX,
        streams.streams[id].unacked.len() == 0,
        streams.streams[id].send_window.unacked + data.len()
            <= streams.streams[id].send_window.window_size,
        streams.streams[id].congestion.in_flight + data.len()
            <= streams.streams[id].congestion.cwnd,
        time::elapsed(later, now) >= streams.streams[id].rto,
    ensures
        ({
            let p = data_packet(streams, connection_id, id, data);
            let sent = after_send(streams, id, data, now).streams[id].resent(id, later);
            &&& sent.len() == 1
            &&& sent[0].0 == id
            &&& sent[0].1.stream_id == p.stream_id
            &&& sent[0].1.seq_num == p.seq_num
            &&& sent[0].1.payload == p.payload
            &&& sent[0].1.ack_num == p.ack_num
            &&& sent[0].1.flags == p.flags
            &&& p.payload == data
        }),
{
    law_sent_data_is_kept(streams, connection_id, id, data, now, later);
    let stream = after_send(streams, id, data, now).streams[id];
    assert(model::has_waited(stream.unacked[0], stream.rto, later));
    let rest = stream.unacked.drop_first();
    let left = model::hints_from(stream.hints(), stream.unacked[0].seq);
    assert(rest =~= Seq::empty());
    let tail = model::rescan(rest, left, model::backed_off(stream.rto), later);
    assert(tail.sent =~= Seq::empty());
    assert(stream.rescanned(later).sent[0] == stream.unacked[0]);
}

/// A packet with data says which stream it belongs to, which number it has there,
/// and which packet came last on it; sending it concerns no other stream. On a
/// stream that is gone nothing is noted.
pub proof fn law_data_packet_says_where_it_belongs(
    streams: ManagerModel,
    connection_id: u64,
    id: u16,
    data: Seq<u8>,
    now: Instant,
    other: u16,
)
    requires
        other != id,
    ensures
        ({
            let p = data_packet(streams, connection_id, id, data);
            let after = after_send(streams, id, data, now);
            &&& p.flags == FLAG_DATA | FLAG_ACK
            &&& p.connection_id == connection_id
            &&& p.stream_id == id
            &&& p.payload == data
            &&& streams.streams.contains_key(id) && streams.streams[id].recv_seq <= u64::MAX
                ==> p.ack_num == if streams.streams[id].recv_seq == 0 {
                0int
            } else {
                streams.streams[id].recv_seq - 1
            }
            &&& !streams.streams.contains_key(id) ==> p.seq_num == 0 && p.ack_num == 0 && after
                == streams
            &&& stream_effects::same_stream(streams, after, other)
            &&& stream_effects::same_tunnel(streams, after)
            &&& after.next_stream_id == streams.next_stream_id
        }),
{
}

/// The packet that closes a stream names it, and carries nothing.
pub proof fn law_closing_packet_names_its_stream(connection_id: u64, id: u16)
    ensures
        fin_packet(connection_id, id).flags == FLAG_FIN,
        fin_packet(connection_id, id).stream_id == id,
        fin_packet(connection_id, id).connection_id == connection_id,
        fin_packet(connection_id, id).payload.len() == 0,
{
}

/// What is in the queue of a stream stays there through any number of looks at
/// the clock, in its place, with its number and its bytes, as long as the stream
/// is there.
pub proof fn law_queue_outlasts_looks(
    streams: ManagerModel,
    id: u16,
    times: Seq<Instant>,
    i: int,
)
    requires
        after_looks(streams, times).streams.contains_key(id),
    ensures
        streams.streams.contains_key(id),
        ({
            let before = streams.streams[id];
            let after = after_looks(streams, times).streams[id];
            &&& after.unacked.len() == before.unacked.len()
            &&& 0 <= i < before.unacked.len() ==> {
                &&& after.unacked[i].seq == before.unacked[i].seq
                &&& after.unacked[i].payload == before.unacked[i].payload
            }
            &&& after.send_seq == before.send_seq
            &&& after.send_window == before.send_window
            &&& after.recv_seq == before.recv_seq
        }),
    decreases times.len(),
{
    if times.len() > 0 {
        let front = times.drop_last();
        let before = after_looks(streams, front);
        stream_effects::law_look_takes_each_stream_alone(before, id, times.last());
        law_queue_outlasts_looks(streams, id, front, i);
        let stream = before.streams[id];
        model::lemma_rescan_keeps_bytes(
            stream.unacked,
            stream.hints(),
            stream.rto,
            times.last(),
        );
        if 0 <= i < stream.unacked.len() {
            stream_laws::law_queue_is_kept(stream, i, 0, Seq::empty(), times.last());
        }
    }
}

/// Data of ordinary size can always be counted.
pub proof fn law_data_can_be_counted(streams: ManagerModel, id: u16, len: nat)
    requires
        streams.wf(),
        len <= 1_000_000_000,
    ensures
        send_fits(streams, id, len),
{
}

/// Data for which one of the windows has no room goes out once, under the next
/// number, and is not kept: the queue stays as it is.
pub proof fn law_refused_data_is_not_kept(
    streams: ManagerModel,
    connection_id: u64,
    id: u16,
    data: Seq<u8>,
    now: Instant,
)
    requires
        streams.streams.contains_key(id),
        streams.streams[id].send_seq <= u64::MAX,
        streams.streams[id].send_window.unacked + data.len()
            > streams.streams[id].send_window.window_size
            || streams.streams[id].congestion.in_flight + data.len()
            > streams.streams[id].congestion.cwnd,
    ensures
        ({
            let p = data_packet(streams, connection_id, id, data);
            let before = streams.streams[id];
            let after = after_send(streams, id, data, now).streams[id];
            &&& p.seq_num == before.send_seq
            &&& p.payload == data
            &&& after.unacked == before.unacked
            &&& after.congestion == before.congestion
            &&& after.send_seq == (before.send_seq + 1) % 0x1_0000_0000_0000_0000
            &&& after.recv_seq == before.recv_seq
            &&& after.rto == before.rto
        }),
{
    let numbered = streams.after_next_seq(id);
    stream_effects::law_number_is_taken_once(streams, id);
    stream_effects::law_refused_packet_is_not_queued(
        numbered.streams[id],
        next_seq(streams, id) as u64,
        data,
        now,
    );
}

} // verus!
