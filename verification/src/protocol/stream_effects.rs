//! What each event does to the queue, the windows and the counts of a stream.

use vstd::prelude::*;
use crate::end_to_end;
use crate::protocol::congestion::CongestionState;
use crate::protocol::packet::{PacketModel, FLAG_ACK, FLAG_DATA};
use crate::protocol::stream_laws;
use crate::protocol::stream_model as model;
use crate::protocol::stream_model::{
    ManagerModel, StreamModel, StreamState, UnackedModel, INITIAL_RTO, MAX_RETRANSMITS, MAX_RTO,
    STREAM_WINDOW,
};
use crate::protocol::window;
use crate::time;
use crate::time::Instant;

verus! {

/// Whether two states of a stream agree in how long it waits and what it has
/// counted.
pub open spec fn same_counts(a: StreamModel, b: StreamModel) -> bool {
    &&& a.rto == b.rto
    &&& a.retransmit_count == b.retransmit_count
    &&& a.dup_acks == b.dup_acks
    &&& a.answered == b.answered
}

/// Whether an acknowledgement is the first on a stream or lies less than half a
/// circle ahead of the last one that was taken.
pub open spec fn is_news(stream: StreamModel, ack_num: u64) -> bool {
    match stream.send_window.last_ack {
        None => true,
        Some(last) => 0 < (ack_num - last) % 0x1_0000_0000_0000_0000 < 0x8000_0000_0000_0000,
    }
}

/// A packet for which both windows have room stands at the end of the queue then,
/// with its number and all its bytes, sent now and never again so far. Its
/// bytes count in both windows, and nothing else changes.
pub proof fn law_sent_packet_is_queued(
    stream: StreamModel,
    seq: u64,
    payload: Seq<u8>,
    now: Instant,
)
    requires
        stream.send_window.unacked + payload.len() <= stream.send_window.window_size,
        stream.congestion.in_flight + payload.len() <= stream.congestion.cwnd,
    ensures
        ({
            let after = stream.after_record(seq, payload, now);
            &&& after.unacked.len() == stream.unacked.len() + 1
            &&& after.unacked.drop_last() == stream.unacked
            &&& after.unacked.last().seq == seq
            &&& after.unacked.last().payload == payload
            &&& after.unacked.last().sent_at == now
            &&& after.unacked.last().retransmits == 0
            &&& after.send_window.unacked == stream.send_window.unacked + payload.len()
            &&& after.send_window.window_size == stream.send_window.window_size
            &&& after.send_window.last_ack == stream.send_window.last_ack
            &&& after.congestion.in_flight == stream.congestion.in_flight + payload.len()
            &&& after.congestion.cwnd == stream.congestion.cwnd
            &&& after.congestion.ssthresh == stream.congestion.ssthresh
            &&& after.congestion.state == stream.congestion.state
            &&& after.congestion.acked_this_round == stream.congestion.acked_this_round
            &&& after.last_activity == now
            &&& after.state == stream.state
            &&& after.send_seq == stream.send_seq
            &&& same_counts(stream, after)
            &&& end_to_end::same_receiver(stream, after)
        }),
{
    let after = stream.after_record(seq, payload, now);
    assert(after.unacked.drop_last() =~= stream.unacked);
}

/// A packet for which one of the windows has no room is not queued. Where it is
/// the congestion window alone, the send window counts its bytes nevertheless;
/// nothing else changes.
pub proof fn law_refused_packet_is_not_queued(
    stream: StreamModel,
    seq: u64,
    payload: Seq<u8>,
    now: Instant,
)
    requires
        stream.send_window.unacked + payload.len() > stream.send_window.window_size
            || stream.congestion.in_flight + payload.len() > stream.congestion.cwnd,
    ensures
        ({
            let after = stream.after_record(seq, payload, now);
            let counted = stream.send_window.unacked + payload.len()
                <= stream.send_window.window_size;
            &&& after.unacked == stream.unacked
            &&& after.send_window.unacked == stream.send_window.unacked + if counted {
                payload.len()
            } else {
                0
            }
            &&& after.send_window.window_size == stream.send_window.window_size
            &&& after.send_window.last_ack == stream.send_window.last_ack
            &&& after.congestion == stream.congestion
            &&& after.last_activity == stream.last_activity
            &&& after.state == stream.state
            &&& after.send_seq == stream.send_seq
            &&& same_counts(stream, after)
            &&& end_to_end::same_receiver(stream, after)
        }),
{
}

/// An acknowledgement that covers packets takes just those off the queue, and
/// their bytes off the count of bytes under way; one that is news takes them off
/// the send window too, which is as much wider then. The waiting time and all
/// counts start again, the congestion window grows by the rules, and nothing
/// else changes.
pub proof fn law_acknowledgement_opens_the_windows(stream: StreamModel, ack_num: u64, i: int)
    requires
        stream.wf(),
        0 <= i < stream.unacked.len(),
        stream.unacked[i].seq <= ack_num,
    ensures
        ({
            let after = stream.after_ack(ack_num);
            let bytes = model::bytes_of(stream.unacked) - model::bytes_of(after.unacked);
            &&& after.unacked == stream.unacked.filter(|p: UnackedModel| p.seq > ack_num)
            &&& bytes >= stream.unacked[i].payload.len()
            &&& stream.congestion.in_flight - after.congestion.in_flight == bytes
            &&& is_news(stream, ack_num) ==> {
                &&& stream.send_window.unacked - after.send_window.unacked == bytes
                &&& after.send_window.last_ack == Some(ack_num)
            }
            &&& !is_news(stream, ack_num) ==> after.send_window == stream.send_window
            &&& after.send_window.window_size == stream.send_window.window_size
            &&& after.rto == INITIAL_RTO
            &&& after.retransmit_count == 0
            &&& forall|a: u64| #[trigger] after.ack_count(a) == 0
            &&& forall|a: u64| !(#[trigger] after.answered.contains(a))
            &&& stream.congestion.state == CongestionState::SlowStart ==> after.congestion.cwnd
                == stream.congestion.cwnd + bytes
            &&& stream.congestion.state == CongestionState::SlowStart ==> (after.congestion.state
                == CongestionState::CongestionAvoidance <==> after.congestion.cwnd
                >= stream.congestion.ssthresh)
            &&& stream.congestion.state == CongestionState::SlowStart
                ==> after.congestion.acked_this_round == stream.congestion.acked_this_round
            &&& stream.congestion.state == CongestionState::CongestionAvoidance ==> {
                let round = stream.congestion.acked_this_round + bytes;
                &&& after.congestion.state == CongestionState::CongestionAvoidance
                &&& round < stream.congestion.cwnd ==> after.congestion.cwnd
                    == stream.congestion.cwnd && after.congestion.acked_this_round == round
                &&& round >= stream.congestion.cwnd ==> after.congestion.cwnd
                    == stream.congestion.cwnd + 1460 && after.congestion.acked_this_round == 0
            }
            &&& after.congestion.ssthresh == stream.congestion.ssthresh
            &&& after.state == stream.state
            &&& after.send_seq == stream.send_seq
            &&& after.last_activity == stream.last_activity
            &&& end_to_end::same_receiver(stream, after)
        }),
{
    let gone = |p: UnackedModel| p.seq <= ack_num;
    model::lemma_queue_parts(stream.unacked, ack_num);
    stream.unacked.lemma_filter_contains(gone, i);
    let covered = model::covered(stream.unacked, ack_num);
    let j = choose|j: int| 0 <= j < covered.len() && covered[j] == stream.unacked[i];
    lemma_bytes_of_one(covered, j);
}

proof fn lemma_bytes_of_one(queue: Seq<UnackedModel>, i: int)
    requires
        0 <= i < queue.len(),
    ensures
        model::bytes_of(queue) >= queue[i].payload.len(),
    decreases queue.len(),
{
    if i < queue.len() - 1 {
        lemma_bytes_of_one(queue.drop_last(), i);
    }
}

/// Where the send window counts just the bytes in the queue, an acknowledgement
/// of all of them that is news leaves it empty: a packet up to the size of the
/// window, and within the congestion window, is queued again.
pub proof fn law_full_acknowledgement_reopens_the_window(
    stream: StreamModel,
    ack_num: u64,
    seq: u64,
    payload: Seq<u8>,
    now: Instant,
)
    requires
        stream.wf(),
        stream.unacked.len() > 0,
        forall|i: int|
            0 <= i < stream.unacked.len() ==> (#[trigger] stream.unacked[i]).seq <= ack_num,
        stream.send_window.unacked == model::bytes_of(stream.unacked),
        is_news(stream, ack_num),
        payload.len() <= STREAM_WINDOW,
        payload.len() <= stream.congestion.cwnd,
    ensures
        ({
            let after = stream.after_ack(ack_num);
            let next = after.after_record(seq, payload, now);
            &&& after.unacked.len() == 0
            &&& after.send_window.unacked == 0
            &&& after.send_window.window_size == STREAM_WINDOW
            &&& next.unacked.len() == 1
            &&& next.unacked[0].seq == seq
            &&& next.unacked[0].payload == payload
            &&& next.send_window.unacked == payload.len()
            &&& next.congestion.cwnd >= stream.congestion.cwnd
        }),
{
    let after = stream.after_ack(ack_num);
    law_acknowledgement_opens_the_windows(stream, ack_num, 0);
    stream_laws::law_full_acknowledgement_empties(stream, ack_num);
    law_sent_packet_is_queued(after, seq, payload, now);
    assert(after.unacked =~= Seq::empty());
}

/// A stream on which each packet is acknowledged before the next is sent.
pub open spec fn after_rounds(
    stream: StreamModel,
    rounds: Seq<(u64, Seq<u8>, Instant)>,
) -> StreamModel
    decreases rounds.len(),
{
    if rounds.len() == 0 {
        stream
    } else {
        let last = rounds.last();
        after_rounds(stream, rounds.drop_last()).after_record(last.0, last.1, last.2).after_ack(
            last.0,
        )
    }
}

/// However many packets are sent on a stream, each acknowledged before the next
/// goes out, no byte of them stays in its windows, and there is always room for
/// one more.
pub proof fn law_transfer_does_not_clog(stream: StreamModel, rounds: Seq<(u64, Seq<u8>, Instant)>)
    requires
        stream.wf(),
        stream.unacked.len() == 0,
        stream.send_window.unacked == 0,
        stream.send_window.last_ack is None,
        forall|i: int|
            0 <= i < rounds.len() ==> (#[trigger] rounds[i]).0 == i && rounds[i].1.len()
                <= STREAM_WINDOW && rounds[i].1.len() <= stream.congestion.cwnd,
    ensures
        ({
            let after = after_rounds(stream, rounds);
            &&& after.wf()
            &&& after.unacked.len() == 0
            &&& after.send_window.unacked == 0
            &&& after.congestion.cwnd >= stream.congestion.cwnd
            &&& after.send_window.last_ack == if rounds.len() == 0 {
                None
            } else {
                Some((rounds.len() - 1) as u64)
            }
        }),
    decreases rounds.len(),
{
    if rounds.len() > 0 {
        let front = rounds.drop_last();
        let last = rounds.last();
        assert forall|i: int| 0 <= i < front.len() implies (#[trigger] front[i]).0 == i
            && front[i].1.len() <= STREAM_WINDOW && front[i].1.len() <= stream.congestion.cwnd by {
            assert(rounds[i] == front[i]);
        }
        law_transfer_does_not_clog(stream, front);
        assert(rounds[rounds.len() - 1] == last);
        let before = after_rounds(stream, front);
        assert(before.unacked =~= Seq::empty());
        law_sent_packet_is_queued(before, last.0, last.1, last.2);
        let sent = before.after_record(last.0, last.1, last.2);
        model::lemma_queue_push(
            before.unacked,
            UnackedModel { seq: last.0, payload: last.1, sent_at: last.2, retransmits: 0 },
            0,
        );
        assert(sent.unacked[0] == sent.unacked.last());
        assert(sent.wf());
        law_acknowledgement_opens_the_windows(sent, last.0, 0);
        stream_laws::law_full_acknowledgement_empties(sent, last.0);
        let after = sent.after_ack(last.0);
        assert(after.unacked =~= Seq::empty());
        model::lemma_queue_parts(sent.unacked, last.0);
    }
}

/// An acknowledgement that covers nothing is counted under its number, and from
/// the third on resets the waiting time; no other count and nothing else of the
/// stream changes.
pub proof fn law_duplicate_is_counted(stream: StreamModel, ack_num: u64, other: u64)
    requires
        forall|i: int|
            0 <= i < stream.unacked.len() ==> (#[trigger] stream.unacked[i]).seq > ack_num,
        stream.ack_count(ack_num) < u32::MAX,
        other != ack_num,
    ensures
        ({
            let after = stream.after_ack(ack_num);
            &&& after.ack_count(ack_num) == stream.ack_count(ack_num) + 1
            &&& after.ack_count(other) == stream.ack_count(other)
            &&& after.rto == if stream.ack_count(ack_num) >= 2 {
                INITIAL_RTO as nat
            } else {
                stream.rto
            }
            &&& after.answered == stream.answered
            &&& after.unacked == stream.unacked
            &&& after.send_window == stream.send_window
            &&& after.congestion == stream.congestion
            &&& after.retransmit_count == stream.retransmit_count
            &&& after.state == stream.state
            &&& after.send_seq == stream.send_seq
            &&& after.last_activity == stream.last_activity
            &&& end_to_end::same_receiver(stream, after)
        }),
{
    stream_laws::law_ack_takes_what_it_covers(stream, ack_num);
    stream_laws::lemma_uncovered_is_all(stream.unacked, ack_num);
}

/// The bytes of the packets that wait in a buffer.
pub open spec fn waiting_bytes(buffer: Seq<(u64, Seq<u8>)>) -> nat
    decreases buffer.len(),
{
    if buffer.len() == 0 {
        0
    } else {
        waiting_bytes(buffer.drop_last()) + buffer.last().1.len()
    }
}

proof fn lemma_waiting_append(a: Seq<(u64, Seq<u8>)>, b: Seq<(u64, Seq<u8>)>)
    ensures
        waiting_bytes(a + b) == waiting_bytes(a) + waiting_bytes(b),
    decreases b.len(),
{
    if b.len() > 0 {
        lemma_waiting_append(a, b.drop_last());
        assert((a + b).drop_last() =~= a + b.drop_last());
    } else {
        assert(a + b =~= a);
    }
}

proof fn lemma_waiting_insert(buffer: Seq<(u64, Seq<u8>)>, i: int, p: (u64, Seq<u8>))
    requires
        0 <= i <= buffer.len(),
    ensures
        waiting_bytes(buffer.insert(i, p)) == waiting_bytes(buffer) + p.1.len(),
{
    let low = buffer.take(i);
    let high = buffer.skip(i);
    assert(buffer =~= low + high);
    assert(buffer.insert(i, p) =~= low.push(p) + high);
    assert(low.push(p).drop_last() =~= low);
    lemma_waiting_append(low, high);
    lemma_waiting_append(low.push(p), high);
}

proof fn lemma_waiting_remove(buffer: Seq<(u64, Seq<u8>)>, i: int)
    requires
        0 <= i < buffer.len(),
    ensures
        waiting_bytes(buffer) == waiting_bytes(buffer.remove(i)) + buffer[i].1.len(),
{
    lemma_waiting_insert(buffer.remove(i), i, buffer[i]);
    assert(buffer.remove(i).insert(i, buffer[i]) =~= buffer);
}

proof fn lemma_waiting_sorted(buffer: Seq<(u64, Seq<u8>)>)
    ensures
        waiting_bytes(model::by_seq(buffer)) == waiting_bytes(buffer),
    decreases buffer.len(),
{
    if buffer.len() > 0 {
        let sorted = model::by_seq(buffer.drop_last());
        lemma_waiting_sorted(buffer.drop_last());
        stream_laws::law_sorting_is_stable(buffer.drop_last());
        stream_laws::lemma_rank(sorted, buffer.last().0);
        lemma_waiting_insert(
            sorted,
            model::rank(sorted, buffer.last().0) as int,
            buffer.last(),
        );
    }
}

proof fn lemma_waiting_drained(buffer: Seq<(u64, Seq<u8>)>, next: nat)
    ensures
        model::total_len(model::drain(buffer, next).delivered) + waiting_bytes(
            model::drain(buffer, next).rest,
        ) == waiting_bytes(buffer),
    decreases buffer.len(),
{
    if model::holds(buffer, next) && 0 <= model::first_at(buffer, next) < buffer.len() {
        let i = model::first_at(buffer, next);
        let tail = model::drain(buffer.remove(i), model::nth(next, 1));
        lemma_waiting_drained(buffer.remove(i), model::nth(next, 1));
        lemma_waiting_remove(buffer, i);
        let all = model::drain(buffer, next).delivered;
        assert(all.drop_first() =~= tail.delivered);
    }
}

proof fn lemma_consumed(read: window::ReceiveModel, payloads: Seq<Seq<u8>>)
    requires
        model::total_len(payloads) <= read.buffered,
    ensures
        model::consumed(read, payloads).buffered + model::total_len(payloads) == read.buffered,
        model::consumed(read, payloads).read_offset == read.read_offset + model::total_len(
            payloads,
        ),
        model::consumed(read, payloads).window_size == read.window_size,
    decreases payloads.len(),
{
    if payloads.len() > 0 {
        lemma_consumed(read.after_consume(payloads[0].len()), payloads.drop_first());
    }
}

/// What is handed to the application leaves the receive window: whatever the
/// window counts besides the bytes that wait in the buffer, it counts the same
/// after a packet that was due. Just the bytes that were handed over count as
/// read, and nothing of what is sent changes.
pub proof fn law_delivered_bytes_leave_the_window(
    stream: StreamModel,
    seq: u64,
    payload: Seq<u8>,
    now: Instant,
)
    requires
        stream.receiver_wf(),
        seq == stream.recv_seq,
        stream.recv_window.buffered + payload.len() <= stream.recv_window.window_size,
        waiting_bytes(stream.recv_buffer) <= stream.recv_window.buffered,
    ensures
        ({
            let after = stream.after_data(seq, payload, now);
            let handed = model::total_len(stream.delivered(seq, payload));
            &&& after.recv_window.buffered - waiting_bytes(after.recv_buffer)
                == stream.recv_window.buffered - waiting_bytes(stream.recv_buffer)
            &&& waiting_bytes(after.recv_buffer) + handed == waiting_bytes(stream.recv_buffer)
                + payload.len()
            &&& after.recv_window.read_offset == stream.recv_window.read_offset + handed
            &&& after.recv_window.window_size == stream.recv_window.window_size
            &&& after.last_activity == now
            &&& after.state == stream.state
            &&& same_counts(stream, after)
            &&& end_to_end::same_sender(stream, after)
        }),
{
    let sorted = model::by_seq(stream.recv_buffer);
    let out = stream.delivered(seq, payload);
    lemma_waiting_sorted(stream.recv_buffer);
    lemma_waiting_drained(sorted, model::nth(stream.recv_seq, 1));
    assert(out.drop_first() =~= stream.drained().delivered);
    lemma_consumed(stream.recv_window.after_receive(payload.len()), out);
}

/// A packet that is due on a stream where nothing waits is handed over at once,
/// alone, and leaves the window and the buffer empty.
pub proof fn law_due_packet_passes_through(
    stream: StreamModel,
    seq: u64,
    payload: Seq<u8>,
    now: Instant,
)
    requires
        stream.recv_seq <= u64::MAX,
        seq == stream.recv_seq,
        stream.recv_buffer.len() == 0,
        stream.recv_window.buffered == 0,
        payload.len() <= stream.recv_window.window_size,
    ensures
        ({
            let after = stream.after_data(seq, payload, now);
            &&& stream.delivered(seq, payload) == seq![payload]
            &&& after.recv_window.buffered == 0
            &&& after.recv_window.window_size == stream.recv_window.window_size
            &&& after.recv_buffer.len() == 0
            &&& after.recv_seq == (stream.recv_seq + 1) % 0x1_0000_0000_0000_0000
        }),
{
    law_delivered_bytes_leave_the_window(stream, seq, payload, now);
    stream_laws::law_delivery_is_in_order(stream, seq, payload, now);
    let out = stream.delivered(seq, payload);
    assert(stream.recv_buffer =~= Seq::empty());
    assert(out =~= seq![payload]);
    assert(out.drop_first() =~= Seq::empty());
    model::lemma_by_seq_len(stream.recv_buffer);
    model::lemma_nth(stream.recv_seq, 1, 0);
    model::lemma_drain_counts(
        model::by_seq(stream.recv_buffer),
        model::nth(stream.recv_seq, 1),
    );
}

/// However many packets come one after the other, each is handed over when it
/// comes, and the window is empty then: a transfer does not stop.
pub proof fn law_row_in_order_flows(
    stream: StreamModel,
    arrivals: Seq<(u64, Seq<u8>, Instant)>,
)
    requires
        stream.recv_seq <= u64::MAX,
        stream.recv_buffer.len() == 0,
        stream.recv_window.buffered == 0,
        forall|i: int|
            0 <= i < arrivals.len() ==> (#[trigger] arrivals[i]).0 == (stream.recv_seq + i)
                % 0x1_0000_0000_0000_0000 && arrivals[i].1.len()
                <= stream.recv_window.window_size,
    ensures
        ({
            let after = stream_laws::after_arrivals(stream, arrivals);
            let out = stream_laws::delivered_by(stream, arrivals);
            &&& out.len() == arrivals.len()
            &&& forall|i: int| 0 <= i < out.len() ==> (#[trigger] out[i]) == arrivals[i].1
            &&& after.recv_buffer.len() == 0
            &&& after.recv_window.buffered == 0
            &&& after.recv_window.window_size == stream.recv_window.window_size
            &&& after.recv_seq == (stream.recv_seq + arrivals.len()) % 0x1_0000_0000_0000_0000
        }),
    decreases arrivals.len(),
{
    if arrivals.len() > 0 {
        let front = arrivals.drop_last();
        let last = arrivals.last();
        assert forall|i: int| 0 <= i < front.len() implies (#[trigger] front[i]).0 == (
        stream.recv_seq + i) % 0x1_0000_0000_0000_0000 && front[i].1.len()
            <= stream.recv_window.window_size by {
            assert(arrivals[i] == front[i]);
        }
        law_row_in_order_flows(stream, front);
        assert(arrivals[arrivals.len() - 1] == last);
        let before = stream_laws::after_arrivals(stream, front);
        let got = stream_laws::delivered_by(stream, front);
        law_due_packet_passes_through(before, last.0, last.1, last.2);
        let out = stream_laws::delivered_by(stream, arrivals);
        model::lemma_nth(stream.recv_seq, front.len(), 1);
        assert(out == got + seq![last.1]);
        assert forall|i: int| 0 <= i < out.len() implies (#[trigger] out[i]) == arrivals[i].1 by {
            if i < got.len() {
                assert(out[i] == got[i]);
                assert(front[i] == arrivals[i]);
            }
        }
    }
}

/// A packet for which the receive window has no room changes nothing, and hands
/// over nothing.
pub proof fn law_full_window_refuses(
    stream: StreamModel,
    seq: u64,
    payload: Seq<u8>,
    now: Instant,
)
    requires
        stream.recv_window.buffered + payload.len() > stream.recv_window.window_size,
    ensures
        stream.after_data(seq, payload, now) == stream,
        stream.delivered(seq, payload).len() == 0,
{
}

/// A packet that comes less than a thousand numbers too early waits at the end
/// of the buffer, as long as no more than a hundred wait; its bytes count
/// against the window. It is not handed over, and what is due stays due. The
/// same goes for one less than half a circle ahead whose number is small because
/// the numbers have begun anew.
pub proof fn law_early_packet_waits(
    stream: StreamModel,
    seq: u64,
    payload: Seq<u8>,
    now: Instant,
)
    requires
        stream.receiver_wf(),
        stream.recv_window.buffered + payload.len() <= stream.recv_window.window_size,
        ({
            let ahead = (seq - stream.recv_seq) % 0x1_0000_0000_0000_0000;
            1 <= ahead < 1000 || (ahead < 0x8000_0000_0000_0000 && seq < stream.recv_seq
                && stream.recv_seq + 1000 <= u64::MAX)
        }),
    ensures
        ({
            let after = stream.after_data(seq, payload, now);
            &&& stream.delivered(seq, payload).len() == 0
            &&& stream.recv_buffer.len() < 100 ==> after.recv_buffer == stream.recv_buffer.push(
                (seq, payload),
            )
            &&& stream.recv_buffer.len() < 100 ==> waiting_bytes(after.recv_buffer)
                == waiting_bytes(stream.recv_buffer) + payload.len()
            &&& stream.recv_buffer.len() >= 100 ==> after.recv_buffer == stream.recv_buffer
            &&& after.recv_window.buffered == stream.recv_window.buffered + payload.len()
            &&& after.recv_window.read_offset == stream.recv_window.read_offset
            &&& after.recv_window.window_size == stream.recv_window.window_size
            &&& after.recv_seq == stream.recv_seq
            &&& after.last_activity == now
            &&& after.state == stream.state
            &&& same_counts(stream, after)
            &&& end_to_end::same_sender(stream, after)
        }),
{
    let after = stream.after_data(seq, payload, now);
    assert(stream.is_early(seq));
    let more = stream.recv_buffer.push((seq, payload));
    assert(more.drop_last() =~= stream.recv_buffer);
    if stream.recv_buffer.len() >= 100 {
        assert(after.recv_buffer =~= stream.recv_buffer);
    }
}

/// A packet that comes a thousand numbers too early or more, before the numbers
/// begin anew, or was due before, is not kept and not handed over; its bytes
/// count against the window nevertheless.
pub proof fn law_stray_packet_is_not_kept(
    stream: StreamModel,
    seq: u64,
    payload: Seq<u8>,
    now: Instant,
)
    requires
        stream.recv_seq <= u64::MAX,
        stream.recv_window.buffered + payload.len() <= stream.recv_window.window_size,
        ({
            let ahead = (seq - stream.recv_seq) % 0x1_0000_0000_0000_0000;
            ahead >= 0x8000_0000_0000_0000 || (ahead >= 1000 && (seq > stream.recv_seq
                || stream.recv_seq + 1000 > u64::MAX))
        }),
    ensures
        ({
            let after = stream.after_data(seq, payload, now);
            &&& stream.delivered(seq, payload).len() == 0
            &&& after.recv_buffer == stream.recv_buffer
            &&& after.recv_window.buffered == stream.recv_window.buffered + payload.len()
            &&& after.recv_window.read_offset == stream.recv_window.read_offset
            &&& after.recv_window.window_size == stream.recv_window.window_size
            &&& after.recv_seq == stream.recv_seq
            &&& after.last_activity == now
            &&& after.state == stream.state
            &&& same_counts(stream, after)
            &&& end_to_end::same_sender(stream, after)
        }),
{
}

/// What is acknowledged is the last packet that was handed over.
pub proof fn law_last_delivered_is_acknowledged(
    stream: StreamModel,
    seq: u64,
    payload: Seq<u8>,
    now: Instant,
)
    requires
        stream.receiver_wf(),
        seq == stream.recv_seq,
        stream.recv_window.buffered + payload.len() <= stream.recv_window.window_size,
        seq + stream.delivered(seq, payload).len() <= u64::MAX,
    ensures
        stream.after_data(seq, payload, now).current_ack() == seq + stream.delivered(
            seq,
            payload,
        ).len() - 1,
        stream.recv_seq == 0 ==> stream.current_ack() == 0,
        stream.recv_seq > 0 ==> stream.current_ack() == stream.recv_seq - 1,
{
    stream_laws::law_delivery_is_in_order(stream, seq, payload, now);
}

/// The packets of a queue that went out again, in their order: those that have
/// been sent again once more often afterwards.
pub open spec fn marked(before: Seq<UnackedModel>, after: Seq<UnackedModel>) -> Seq<UnackedModel>
    decreases before.len(),
{
    if before.len() == 0 || after.len() == 0 {
        Seq::empty()
    } else {
        let rest = marked(before.drop_first(), after.drop_first());
        if after[0].retransmits != before[0].retransmits {
            seq![before[0]] + rest
        } else {
            rest
        }
    }
}

/// A waiting time that was doubled `n` times, three seconds at most.
pub open spec fn doubled(rto: nat, n: nat) -> nat
    decreases n,
{
    if n == 0 {
        rto
    } else if 2 * rto <= 3_000_000_000 {
        doubled(2 * rto, (n - 1) as nat)
    } else {
        doubled(3_000_000_000, (n - 1) as nat)
    }
}

/// How long the packet at `i` has to wait: the waiting time, doubled for each
/// packet before it that went out again.
pub open spec fn waits_for(
    before: Seq<UnackedModel>,
    after: Seq<UnackedModel>,
    rto: nat,
    i: int,
) -> nat {
    doubled(rto, marked(before.take(i), after.take(i)).len())
}

/// Whether the packet at `i` is the first in the queue above a number.
pub open spec fn stands_behind(queue: Seq<UnackedModel>, a: u64, i: int) -> bool {
    &&& 0 <= i < queue.len()
    &&& queue[i].seq > a
    &&& forall|j: int| 0 <= j < i ==> (#[trigger] queue[j]).seq <= a
}

/// Whether the packet at `i` is the first above one of the numbers.
pub open spec fn is_called_for(queue: Seq<UnackedModel>, hints: Set<u64>, i: int) -> bool {
    exists|a: u64| hints.contains(a) && #[trigger] stands_behind(queue, a, i)
}

/// Whether the packet at `i` should go out again.
pub open spec fn should_go_out(
    before: Seq<UnackedModel>,
    after: Seq<UnackedModel>,
    hints: Set<u64>,
    rto: nat,
    now: Instant,
    i: int,
) -> bool {
    before[i].retransmits < 5 && (time::elapsed(now, before[i].sent_at) >= waits_for(
        before,
        after,
        rto,
        i,
    ) || is_called_for(before, hints, i))
}

/// Whether the packet at `i` ends its stream: it was sent again five times and
/// has waited once more.
pub open spec fn is_the_end(
    before: Seq<UnackedModel>,
    after: Seq<UnackedModel>,
    rto: nat,
    now: Instant,
    i: int,
) -> bool {
    &&& 0 <= i < before.len()
    &&& before[i].retransmits >= 5
    &&& time::elapsed(now, before[i].sent_at) >= waits_for(before, after, rto, i)
}

/// Whether the packet at `i` or one before it ends its stream.
pub open spec fn has_ended(
    before: Seq<UnackedModel>,
    after: Seq<UnackedModel>,
    rto: nat,
    now: Instant,
    i: int,
) -> bool {
    exists|j: int| j <= i && #[trigger] is_the_end(before, after, rto, now, j)
}

/// Whether the packet at `i` was marked as sent again, or left as it was.
pub open spec fn is_marked_or_kept(p: UnackedModel, q: UnackedModel, now: Instant) -> bool {
    q == p || (q.seq == p.seq && q.payload == p.payload && q.sent_at == now && q.retransmits
        == p.retransmits + 1)
}

proof fn lemma_marked_front(before: Seq<UnackedModel>, after: Seq<UnackedModel>, rto: nat, i: int)
    requires
        before.len() == after.len(),
        0 < i <= before.len(),
    ensures
        waits_for(before, after, rto, i) == waits_for(
            before.drop_first(),
            after.drop_first(),
            if after[0].retransmits != before[0].retransmits {
                doubled(rto, 1)
            } else {
                rto
            },
            i - 1,
        ),
{
    assert(before.take(i).drop_first() =~= before.drop_first().take(i - 1));
    assert(after.take(i).drop_first() =~= after.drop_first().take(i - 1));
    let n = marked(before.drop_first().take(i - 1), after.drop_first().take(i - 1)).len();
    reveal_with_fuel(doubled, 2);
    assert(marked(before.take(i), after.take(i)).len() == if after[0].retransmits
        != before[0].retransmits {
        n + 1
    } else {
        n
    });
}

proof fn lemma_called_front(queue: Seq<UnackedModel>, hints: Set<u64>, i: int)
    requires
        0 < i < queue.len(),
    ensures
        is_called_for(queue, hints, i) <==> is_called_for(
            queue.drop_first(),
            model::hints_from(hints, queue[0].seq),
            i - 1,
        ),
        forall|a: u64|
            #![trigger stands_behind(queue, a, i)]
            stands_behind(queue, a, i) <==> queue[0].seq <= a && stands_behind(
                queue.drop_first(),
                a,
                i - 1,
            ),
{
    let rest = queue.drop_first();
    let left = model::hints_from(hints, queue[0].seq);
    assert forall|a: u64|
        #![trigger stands_behind(queue, a, i)]
        stands_behind(queue, a, i) <==> queue[0].seq <= a && stands_behind(rest, a, i - 1) by {
        if stands_behind(queue, a, i) {
            assert(queue[0].seq <= a);
            assert forall|j: int| 0 <= j < i - 1 implies (#[trigger] rest[j]).seq <= a by {
                assert(queue[j + 1].seq <= a);
            }
        }
        if queue[0].seq <= a && stands_behind(rest, a, i - 1) {
            assert forall|j: int| 0 <= j < i implies (#[trigger] queue[j]).seq <= a by {
                if j > 0 {
                    assert(rest[j - 1].seq <= a);
                }
            }
        }
    }
    if is_called_for(queue, hints, i) {
        let a = choose|a: u64| hints.contains(a) && #[trigger] stands_behind(queue, a, i);
        assert(left.contains(a) && stands_behind(rest, a, i - 1));
    }
    if is_called_for(rest, left, i - 1) {
        let a = choose|a: u64| left.contains(a) && #[trigger] stands_behind(rest, a, i - 1);
        assert(hints.contains(a) && stands_behind(queue, a, i));
    }
}

proof fn lemma_ended_front(
    before: Seq<UnackedModel>,
    after: Seq<UnackedModel>,
    rto: nat,
    then: nat,
    now: Instant,
    i: int,
)
    requires
        before.len() == after.len(),
        0 <= i < before.len(),
        !is_the_end(before, after, rto, now, 0),
        then == if after[0].retransmits != before[0].retransmits {
            doubled(rto, 1)
        } else {
            rto
        },
    ensures
        has_ended(before, after, rto, now, i) <==> has_ended(
            before.drop_first(),
            after.drop_first(),
            then,
            now,
            i - 1,
        ),
{
    let rest = before.drop_first();
    let tail = after.drop_first();
    if has_ended(before, after, rto, now, i) {
        let j = choose|j: int| j <= i && #[trigger] is_the_end(before, after, rto, now, j);
        lemma_marked_front(before, after, rto, j);
        assert(is_the_end(rest, tail, then, now, j - 1));
    }
    if has_ended(rest, tail, then, now, i - 1) {
        let j = choose|j: int| j <= i - 1 && #[trigger] is_the_end(rest, tail, then, now, j);
        lemma_marked_front(before, after, rto, j + 1);
        assert(is_the_end(before, after, rto, now, j + 1));
    }
}

proof fn lemma_rescan_effect(
    unacked: Seq<UnackedModel>,
    hints: Set<u64>,
    rto: nat,
    now: Instant,
)
    ensures
        ({
            let all = model::rescan(unacked, hints, rto, now);
            &&& all.unacked.len() == unacked.len()
            &&& all.sent == marked(unacked, all.unacked)
            &&& all.rto == doubled(rto, all.sent.len())
            &&& forall|i: int|
                0 <= i < unacked.len() ==> is_marked_or_kept(
                    unacked[i],
                    #[trigger] all.unacked[i],
                    now,
                )
            &&& forall|i: int|
                0 <= i < unacked.len() ==> ((#[trigger] all.unacked[i]).retransmits
                    != unacked[i].retransmits <==> should_go_out(
                    unacked,
                    all.unacked,
                    hints,
                    rto,
                    now,
                    i,
                ) && !has_ended(unacked, all.unacked, rto, now, i))
            &&& all.dead <==> exists|i: int|
                #[trigger] is_the_end(unacked, all.unacked, rto, now, i)
        }),
    decreases unacked.len(),
{
    let all = model::rescan(unacked, hints, rto, now);
    if unacked.len() > 0 {
        let head = unacked[0];
        let rest = unacked.drop_first();
        let left = model::hints_from(hints, head.seq);
        let out = model::goes_out(head, hints, rto, now);
        assert(unacked.take(0) =~= Seq::empty());
        assert(all.unacked.take(0) =~= Seq::empty());
        assert(waits_for(unacked, all.unacked, rto, 0) == rto);
        assert(model::is_hinted(hints, head.seq) <==> is_called_for(unacked, hints, 0)) by {
            if model::is_hinted(hints, head.seq) {
                let a = choose|a: u64| #[trigger] hints.contains(a) && a < head.seq;
                assert(stands_behind(unacked, a, 0));
            }
        }
        if !out && model::has_waited(head, rto, now) {
            assert(is_the_end(unacked, all.unacked, rto, now, 0));
            assert(forall|i: int|
                0 <= i < unacked.len() ==> #[trigger] has_ended(unacked, all.unacked, rto, now, i));
            lemma_nothing_marked(unacked);
        } else {
            reveal_with_fuel(doubled, 2);
            let after = if out {
                model::backed_off(rto)
            } else {
                rto
            };
            let tail = model::rescan(rest, left, after, now);
            lemma_rescan_effect(rest, left, after, now);
            assert(all.unacked.drop_first() =~= tail.unacked);
            assert(out ==> after == doubled(rto, 1));
            assert forall|i: int| 0 <= i < unacked.len() implies is_marked_or_kept(
                unacked[i],
                #[trigger] all.unacked[i],
                now,
            ) by {
                if i > 0 {
                    assert(all.unacked[i] == tail.unacked[i - 1]);
                    assert(unacked[i] == rest[i - 1]);
                }
            }
            assert forall|i: int| 0 <= i < unacked.len() implies ((
            #[trigger] all.unacked[i]).retransmits != unacked[i].retransmits <==> should_go_out(
                unacked,
                all.unacked,
                hints,
                rto,
                now,
                i,
            ) && !has_ended(unacked, all.unacked, rto, now, i)) by {
                lemma_ended_front(unacked, all.unacked, rto, after, now, i);
                if i > 0 {
                    assert(all.unacked[i] == tail.unacked[i - 1]);
                    assert(unacked[i] == rest[i - 1]);
                    lemma_marked_front(unacked, all.unacked, rto, i);
                    lemma_called_front(unacked, hints, i);
                }
            }
            if all.dead {
                let i = choose|i: int| #[trigger] is_the_end(rest, tail.unacked, after, now, i);
                lemma_marked_front(unacked, all.unacked, rto, i + 1);
                assert(unacked[i + 1] == rest[i]);
                assert(is_the_end(unacked, all.unacked, rto, now, i + 1));
            } else {
                assert forall|i: int| !(
                #[trigger] is_the_end(unacked, all.unacked, rto, now, i)) by {
                    if i > 0 && is_the_end(unacked, all.unacked, rto, now, i) {
                        lemma_marked_front(unacked, all.unacked, rto, i);
                        assert(unacked[i] == rest[i - 1]);
                        assert(is_the_end(rest, tail.unacked, after, now, i - 1));
                    }
                }
            }
        }
    } else {
        assert(all.sent =~= marked(unacked, all.unacked));
    }
}

proof fn lemma_nothing_marked(queue: Seq<UnackedModel>)
    ensures
        marked(queue, queue) == Seq::<UnackedModel>::empty(),
    decreases queue.len(),
{
    if queue.len() > 0 {
        lemma_nothing_marked(queue.drop_first());
    }
}

proof fn lemma_rescan_answered(
    unacked: Seq<UnackedModel>,
    hints: Set<u64>,
    rto: nat,
    now: Instant,
    a: u64,
)
    ensures
        ({
            let all = model::rescan(unacked, hints, rto, now);
            all.answered.contains(a) <==> hints.contains(a) && exists|i: int|
                #[trigger] stands_behind(unacked, a, i) && all.unacked[i].retransmits
                    != unacked[i].retransmits
        }),
    decreases unacked.len(),
{
    let all = model::rescan(unacked, hints, rto, now);
    if unacked.len() > 0 {
        let head = unacked[0];
        let rest = unacked.drop_first();
        let left = model::hints_from(hints, head.seq);
        let out = model::goes_out(head, hints, rto, now);
        if out || !model::has_waited(head, rto, now) {
            let after = if out {
                model::backed_off(rto)
            } else {
                rto
            };
            let tail = model::rescan(rest, left, after, now);
            lemma_rescan_answered(rest, left, after, now, a);
            lemma_rescan_effect(rest, left, after, now);
            assert(all.unacked.drop_first() =~= tail.unacked);
            if all.answered.contains(a) {
                if out && hints.contains(a) && a < head.seq {
                    assert(stands_behind(unacked, a, 0));
                } else {
                    let i = choose|i: int|
                        #[trigger] stands_behind(rest, a, i) && tail.unacked[i].retransmits
                            != rest[i].retransmits;
                    lemma_called_front(unacked, hints, i + 1);
                    assert(stands_behind(unacked, a, i + 1));
                    assert(all.unacked[i + 1] == tail.unacked[i]);
                }
            }
            if hints.contains(a) && exists|i: int|
                #[trigger] stands_behind(unacked, a, i) && all.unacked[i].retransmits
                    != unacked[i].retransmits {
                let i = choose|i: int|
                    #[trigger] stands_behind(unacked, a, i) && all.unacked[i].retransmits
                        != unacked[i].retransmits;
                if i > 0 {
                    lemma_called_front(unacked, hints, i);
                    assert(stands_behind(rest, a, i - 1));
                    assert(all.unacked[i] == tail.unacked[i - 1]);
                }
            }
        }
    }
}

/// A look at the clock sends again just the packets that were sent again fewer
/// than five times and have waited for the waiting time, doubled for each
/// packet that goes out before them, or stand behind an acknowledgement that has
/// come three times and was not answered yet; behind a packet that ends the
/// stream none goes out. They are marked as sent now and once more; all others
/// stay as they are. Each one doubles the waiting time, and together they count
/// as one loss. Nothing else of the stream changes.
pub proof fn law_due_packets_go_out(stream: StreamModel, now: Instant)
    ensures
        ({
            let after = stream.after_resend(now);
            let calls = Set::new(
                |a: u64| stream.ack_count(a) >= 3 && !stream.answered.contains(a),
            );
            let n = marked(stream.unacked, after.unacked).len();
            &&& after.unacked.len() == stream.unacked.len()
            &&& forall|i: int|
                0 <= i < stream.unacked.len() ==> is_marked_or_kept(
                    stream.unacked[i],
                    #[trigger] after.unacked[i],
                    now,
                )
            &&& forall|i: int|
                0 <= i < stream.unacked.len() ==> ((#[trigger] after.unacked[i]).retransmits
                    != stream.unacked[i].retransmits <==> should_go_out(
                    stream.unacked,
                    after.unacked,
                    calls,
                    stream.rto,
                    now,
                    i,
                ) && !has_ended(stream.unacked, after.unacked, stream.rto, now, i))
            &&& after.rto == doubled(stream.rto, n)
            &&& after.retransmit_count == stream.retransmit_count + n
            &&& n == 0 ==> after.congestion == stream.congestion
            &&& n > 0 ==> {
                &&& after.congestion.cwnd == 2 * 1460
                &&& after.congestion.ssthresh == stream.congestion.cwnd / 2
                &&& after.congestion.state == CongestionState::SlowStart
                &&& after.congestion.acked_this_round == 0
                &&& after.congestion.in_flight == stream.congestion.in_flight
            }
            &&& after.dup_acks == stream.dup_acks
            &&& after.send_window == stream.send_window
            &&& after.send_seq == stream.send_seq
            &&& after.state == stream.state
            &&& after.last_activity == stream.last_activity
            &&& end_to_end::same_receiver(stream, after)
        }),
{
    lemma_rescan_effect(stream.unacked, stream.hints(), stream.rto, now);
    assert(stream.hints() =~= Set::new(
        |a: u64| stream.ack_count(a) >= 3 && !stream.answered.contains(a),
    ));
}

/// An acknowledgement that has come three times is answered just when the first
/// packet above it has gone out again.
pub proof fn law_call_is_answered_by_its_packet(stream: StreamModel, now: Instant, a: u64)
    ensures
        stream.after_resend(now).answered.contains(a) <==> stream.answered.contains(a) || (
        stream.ack_count(a) >= 3 && exists|i: int|
            #[trigger] stands_behind(stream.unacked, a, i) && stream.after_resend(
                now,
            ).unacked[i].retransmits != stream.unacked[i].retransmits),
{
    lemma_rescan_answered(stream.unacked, stream.hints(), stream.rto, now, a);
}

/// What goes out again on a stream are the packets that were marked, in their
/// order, each with its number, all its bytes and the acknowledgement of what
/// came last.
pub proof fn law_marked_packets_are_sent(stream: StreamModel, id: u16, now: Instant)
    ensures
        ({
            let sent = stream.resent(id, now);
            let due = marked(stream.unacked, stream.after_resend(now).unacked);
            &&& sent.len() == due.len()
            &&& forall|k: int|
                #![trigger sent[k]]
                0 <= k < sent.len() ==> {
                    &&& sent[k].0 == id
                    &&& sent[k].1.stream_id == id
                    &&& sent[k].1.seq_num == due[k].seq
                    &&& sent[k].1.payload == due[k].payload
                    &&& sent[k].1.flags == FLAG_DATA | FLAG_ACK
                    &&& sent[k].1.connection_id == 0
                    &&& sent[k].1.ack_num == stream.current_ack() as u64
                }
        }),
{
    lemma_rescan_effect(stream.unacked, stream.hints(), stream.rto, now);
}

/// A stream is given up at a look at the clock just where one of its packets was
/// sent again five times and has waited once more.
pub proof fn law_stream_ends_with_an_exhausted_packet(
    manager: ManagerModel,
    id: u16,
    now: Instant,
)
    requires
        manager.streams.contains_key(id),
    ensures
        ({
            let stream = manager.streams[id];
            !manager.after_resend(now).streams.contains_key(id) <==> exists|i: int|
                #[trigger] is_the_end(
                    stream.unacked,
                    stream.after_resend(now).unacked,
                    stream.rto,
                    now,
                    i,
                )
        }),
{
    let stream = manager.streams[id];
    let all = stream.rescanned(now);
    lemma_rescan_effect(stream.unacked, stream.hints(), stream.rto, now);
    assert(manager.after_resend(now).streams.contains_key(id) == manager.survives(id, now));
    if all.dead {
        let i = choose|i: int|
            #[trigger] is_the_end(stream.unacked, all.unacked, stream.rto, now, i);
        assert(is_the_end(
            stream.unacked,
            stream.after_resend(now).unacked,
            stream.rto,
            now,
            i,
        ));
    }
}

/// A look at the clock makes no stream and touches nothing but the streams; each
/// that is left has become what the look makes of it alone.
pub proof fn law_look_takes_each_stream_alone(manager: ManagerModel, id: u16, now: Instant)
    ensures
        ({
            let after = manager.after_resend(now);
            &&& after.streams.contains_key(id) ==> manager.streams.contains_key(id)
            &&& after.streams.contains_key(id) ==> after.streams[id]
                == manager.streams[id].after_resend(now)
            &&& after.next_stream_id == manager.next_stream_id
            &&& after.last_activity == manager.last_activity
            &&& after.ping_loss_count == manager.ping_loss_count
            &&& after.last_ping_sent == manager.last_ping_sent
            &&& after.created == manager.created
        }),
{
}

/// Of what goes out at a look at the clock, the part that belongs to a stream is
/// just what goes out again on it, whatever else does; of a stream that is not
/// looked at there is nothing.
pub proof fn law_each_stream_sends_its_own(
    streams: Map<u16, StreamModel>,
    ids: Seq<u16>,
    id: u16,
    now: Instant,
)
    requires
        ids.no_duplicates(),
    ensures
        model::resent_of(streams, ids, now).filter(|e: (u16, PacketModel)| e.0 == id)
            == if ids.contains(id) {
            streams[id].resent(id, now)
        } else {
            Seq::empty()
        },
    decreases ids.len(),
{
    let mine = |e: (u16, PacketModel)| e.0 == id;
    let all = model::resent_of(streams, ids, now);
    if ids.len() == 0 {
        reveal(Seq::filter);
        assert(all.filter(mine) =~= Seq::empty());
    } else {
        let front = ids.drop_last();
        let last = ids.last();
        assert forall|i: int, j: int| 0 <= i < front.len() && 0 <= j < front.len() && i
            != j implies front[i] != front[j] by {
            assert(ids[i] != ids[j]);
        }
        law_each_stream_sends_its_own(streams, front, id, now);
        let sent = model::resent_of(streams, front, now);
        let own = streams[last].resent(last, now);
        assert(all == sent + own);
        Seq::filter_distributes_over_add(sent, own, mine);
        lemma_filter_own(own, last, id);
        if ids.contains(id) {
            let i = choose|i: int| 0 <= i < ids.len() && ids[i] == id;
            if i < front.len() {
                assert(front[i] == id);
                assert(ids[i] != ids[ids.len() - 1]);
                assert(sent.filter(mine) + Seq::empty() =~= sent.filter(mine));
            } else {
                assert(!front.contains(id)) by {
                    if front.contains(id) {
                        let j = choose|j: int| 0 <= j < front.len() && front[j] == id;
                        assert(ids[j] != ids[ids.len() - 1]);
                    }
                }
                assert(Seq::empty() + own =~= own);
            }
        } else {
            assert(ids[ids.len() - 1] == last);
            assert(!front.contains(id)) by {
                if front.contains(id) {
                    let j = choose|j: int| 0 <= j < front.len() && front[j] == id;
                    assert(ids[j] == id);
                }
            }
            assert(Seq::<(u16, PacketModel)>::empty() + Seq::empty() =~= Seq::empty());
        }
    }
}

proof fn lemma_filter_own(own: Seq<(u16, PacketModel)>, from: u16, id: u16)
    requires
        forall|k: int| 0 <= k < own.len() ==> (#[trigger] own[k]).0 == from,
    ensures
        own.filter(|e: (u16, PacketModel)| e.0 == id) == if from == id {
            own
        } else {
            Seq::empty()
        },
    decreases own.len(),
{
    reveal(Seq::filter);
    let mine = |e: (u16, PacketModel)| e.0 == id;
    if own.len() > 0 {
        let front = own.drop_last();
        assert forall|k: int| 0 <= k < front.len() implies (#[trigger] front[k]).0 == from by {
            assert(own[k] == front[k]);
        }
        lemma_filter_own(front, from, id);
        assert(own[own.len() - 1] == own.last());
        assert(front.push(own.last()) =~= own);
    } else {
        assert(own.filter(mine) =~= Seq::empty());
        assert(own =~= Seq::empty());
    }
}

/// Whether a stream is as it was when it was made, but for its state and the
/// packet that is due: nothing was sent, nothing came, nothing was counted, and
/// its windows are empty.
pub open spec fn is_blank(stream: StreamModel, now: Instant) -> bool {
    &&& stream.send_seq == 0
    &&& stream.unacked.len() == 0
    &&& stream.recv_buffer.len() == 0
    &&& stream.rto == 200_000_000
    &&& stream.retransmit_count == 0
    &&& stream.last_activity == now
    &&& stream.send_window.window_size == 64 * 1024
    &&& stream.send_window.unacked == 0
    &&& stream.send_window.last_ack is None
    &&& stream.recv_window.window_size == 64 * 1024
    &&& stream.recv_window.buffered == 0
    &&& stream.recv_window.read_offset == 0
    &&& stream.congestion.cwnd == 10 * 1460
    &&& stream.congestion.in_flight == 0
    &&& stream.congestion.state == CongestionState::SlowStart
    &&& forall|a: u64| #[trigger] stream.ack_count(a) == 0
    &&& forall|a: u64| !(#[trigger] stream.answered.contains(a))
}

/// Whether two managers agree in all but their streams and the number of the next
/// stream.
pub open spec fn same_tunnel(a: ManagerModel, b: ManagerModel) -> bool {
    &&& a.last_activity == b.last_activity
    &&& a.ping_loss_count == b.ping_loss_count
    &&& a.last_ping_sent == b.last_ping_sent
    &&& a.created == b.created
}

/// Whether two managers agree in a stream: both have it, as it is, or neither has.
pub open spec fn same_stream(a: ManagerModel, b: ManagerModel, id: u16) -> bool {
    &&& a.streams.contains_key(id) <==> b.streams.contains_key(id)
    &&& a.streams.contains_key(id) ==> a.streams[id] == b.streams[id]
}

/// A stream that this end opens is blank and waits to be confirmed; it has the
/// next number, all other streams stay, and the number after it is the next.
pub proof fn law_opened_stream_is_blank(manager: ManagerModel, now: Instant, other: u16)
    requires
        other != manager.next_stream_id,
    ensures
        ({
            let id = manager.next_stream_id;
            let after = manager.after_allocate(now);
            &&& after.streams.contains_key(id)
            &&& is_blank(after.streams[id], now)
            &&& after.streams[id].state == StreamState::SynSent
            &&& after.streams[id].recv_seq == 0
            &&& after.next_stream_id == if id == 65535 {
                1int
            } else {
                id + 1
            }
            &&& same_stream(manager, after, other)
            &&& same_tunnel(manager, after)
        }),
{
}

/// A stream that the other end opens is blank and established, and expects the
/// packet after the one that opened it. It has the number that the other end
/// proposes where no stream has it and it is not that of the control stream,
/// else the next one; all other streams stay.
pub proof fn law_accepted_stream_is_blank(
    manager: ManagerModel,
    proposed: u16,
    seq: u64,
    now: Instant,
    other: u16,
)
    requires
        other != manager.accepted_id(proposed),
    ensures
        ({
            let id = manager.accepted_id(proposed);
            let after = manager.after_syn(proposed, seq, now);
            let free = proposed != 0 && !manager.streams.contains_key(proposed);
            &&& id == if free {
                proposed
            } else {
                manager.next_stream_id
            }
            &&& after.streams.contains_key(id)
            &&& is_blank(after.streams[id], now)
            &&& after.streams[id].state == StreamState::Established
            &&& after.streams[id].recv_seq == (seq + 1) % 0x1_0000_0000_0000_0000
            &&& free ==> after.next_stream_id == manager.next_stream_id
            &&& !free ==> after.next_stream_id == if manager.next_stream_id == 65535 {
                1int
            } else {
                manager.next_stream_id + 1
            }
            &&& same_stream(manager, after, other)
            &&& same_tunnel(manager, after)
        }),
{
}

/// The streams after `n` more were opened.
pub open spec fn after_allocations(manager: ManagerModel, n: nat, now: Instant) -> ManagerModel
    decreases n,
{
    if n == 0 {
        manager
    } else {
        after_allocations(manager, (n - 1) as nat, now).after_allocate(now)
    }
}

proof fn lemma_next_number(manager: ManagerModel, n: nat, now: Instant)
    requires
        manager.next_stream_id != 0,
    ensures
        after_allocations(manager, n, now).next_stream_id == (manager.next_stream_id - 1 + n)
            % 65535 + 1,
    decreases n,
{
    if n > 0 {
        lemma_next_number(manager, (n - 1) as nat, now);
    }
}

/// Streams get all the numbers from 1 to 65535 in turn: no number is given out
/// twice before all the others were.
pub proof fn law_numbers_go_round(manager: ManagerModel, n: nat, m: nat, now: Instant)
    requires
        manager.next_stream_id != 0,
    ensures
        after_allocations(manager, n, now).next_stream_id == (manager.next_stream_id - 1 + n)
            % 65535 + 1,
        m < n < m + 65535 ==> after_allocations(manager, n, now).next_stream_id
            != after_allocations(manager, m, now).next_stream_id,
{
    lemma_next_number(manager, n, now);
    lemma_next_number(manager, m, now);
}

/// A tunnel begins with the control stream alone, blank and established; no
/// probe is open and none was lost.
pub proof fn law_tunnel_begins_with_the_control_stream(now: Instant, id: u16)
    ensures
        ({
            let manager = ManagerModel::initial(now);
            &&& manager.streams.contains_key(id) <==> id == 0
            &&& is_blank(manager.streams[0], now)
            &&& manager.streams[0].state == StreamState::Established
            &&& manager.streams[0].recv_seq == 0
            &&& manager.next_stream_id == 1
            &&& manager.last_activity == now
            &&& manager.ping_loss_count == 0
            &&& manager.last_ping_sent is None
        }),
{
}

/// What happens on a stream happens to that stream alone, and makes none: all
/// others, the number of the next stream and the state of the tunnel stay.
pub proof fn law_event_concerns_one_stream(
    manager: ManagerModel,
    id: u16,
    seq: u64,
    payload: Seq<u8>,
    ack_num: u64,
    now: Instant,
    other: u16,
)
    requires
        other != id,
    ensures
        ({
            let recorded = manager.after_record(id, seq, payload, now);
            let acked = manager.after_ack(id, ack_num);
            let received = manager.after_data(id, seq, payload, now);
            let numbered = manager.after_next_seq(id);
            let confirmed = manager.after_established(id);
            &&& manager.streams.contains_key(id) ==> {
                let stream = manager.streams[id];
                &&& recorded.streams.contains_key(id)
                &&& recorded.streams[id] == stream.after_record(seq, payload, now)
                &&& acked.streams.contains_key(id)
                &&& acked.streams[id] == stream.after_ack(ack_num)
                &&& received.streams.contains_key(id)
                &&& received.streams[id] == stream.after_data(seq, payload, now)
                &&& manager.delivered(id, seq, payload) == stream.delivered(seq, payload)
                &&& manager.current_ack(id) == stream.current_ack()
                &&& numbered.streams.contains_key(id)
                &&& confirmed.streams.contains_key(id)
            }
            &&& !manager.streams.contains_key(id) ==> {
                &&& recorded == manager
                &&& acked == manager
                &&& received == manager
                &&& numbered == manager
                &&& confirmed == manager
                &&& manager.delivered(id, seq, payload).len() == 0
                &&& manager.current_ack(id) == 0
            }
            &&& same_stream(manager, recorded, other)
            &&& same_stream(manager, acked, other)
            &&& same_stream(manager, received, other)
            &&& same_stream(manager, numbered, other)
            &&& same_stream(manager, confirmed, other)
            &&& same_tunnel(manager, recorded)
            &&& same_tunnel(manager, acked)
            &&& same_tunnel(manager, received)
            &&& same_tunnel(manager, numbered)
            &&& same_tunnel(manager, confirmed)
            &&& recorded.next_stream_id == manager.next_stream_id
            &&& acked.next_stream_id == manager.next_stream_id
            &&& received.next_stream_id == manager.next_stream_id
            &&& numbered.next_stream_id == manager.next_stream_id
            &&& confirmed.next_stream_id == manager.next_stream_id
        }),
{
}

/// Taking a number for the next packet moves a stream on to the following number,
/// around after the last, and changes nothing else of it; nor does its
/// confirmation change anything but its state.
pub proof fn law_number_is_taken_once(manager: ManagerModel, id: u16)
    requires
        manager.streams.contains_key(id),
    ensures
        ({
            let stream = manager.streams[id];
            let numbered = manager.after_next_seq(id).streams[id];
            let confirmed = manager.after_established(id).streams[id];
            &&& numbered.send_seq == (stream.send_seq + 1) % 0x1_0000_0000_0000_0000
            &&& numbered.unacked == stream.unacked
            &&& numbered.send_window == stream.send_window
            &&& numbered.congestion == stream.congestion
            &&& numbered.state == stream.state
            &&& numbered.last_activity == stream.last_activity
            &&& same_counts(stream, numbered)
            &&& end_to_end::same_receiver(stream, numbered)
            &&& confirmed.state == StreamState::Established
            &&& confirmed.last_activity == stream.last_activity
            &&& same_counts(stream, confirmed)
            &&& end_to_end::same_sender(stream, confirmed)
            &&& end_to_end::same_receiver(stream, confirmed)
        }),
{
}

/// A stream that is forgotten is gone, and it alone.
pub proof fn law_only_the_named_stream_is_forgotten(manager: ManagerModel, id: u16, other: u16)
    requires
        other != id,
    ensures
        !manager.without(id).streams.contains_key(id),
        same_stream(manager, manager.without(id), other),
        same_tunnel(manager, manager.without(id)),
        manager.without(id).next_stream_id == manager.next_stream_id,
{
}

/// A probe is due once nothing has come for five seconds and the last probe, if
/// any is open, was sent five seconds ago; that one is lost then. Asking and
/// probing touch no stream, and neither counts as a sign of life.
pub proof fn law_probe_is_due_after_silence(manager: ManagerModel, now: Instant)
    ensures
        ({
            let quiet = now.nanos - manager.last_activity.nanos >= 5_000_000_000;
            let asked = manager.after_ping_check(now);
            let probed = manager.after_ping(now);
            &&& manager.last_ping_sent is None ==> (manager.ping_due(now) <==> quiet)
            &&& manager.last_ping_sent is None ==> asked.ping_loss_count
                == manager.ping_loss_count
            &&& manager.last_ping_sent matches Some(last) ==> {
                let open = quiet && now.nanos - last.nanos >= 5_000_000_000;
                &&& manager.ping_due(now) <==> open
                &&& open ==> asked.ping_loss_count == manager.ping_loss_count + 1
                &&& !open ==> asked.ping_loss_count == manager.ping_loss_count
            }
            &&& asked.streams == manager.streams
            &&& asked.next_stream_id == manager.next_stream_id
            &&& asked.last_activity == manager.last_activity
            &&& asked.last_ping_sent == manager.last_ping_sent
            &&& probed.last_ping_sent == Some(now)
            &&& probed.ping_loss_count == manager.ping_loss_count
            &&& probed.streams == manager.streams
            &&& probed.next_stream_id == manager.next_stream_id
            &&& probed.last_activity == manager.last_activity
            &&& manager.is_lost() <==> manager.ping_loss_count >= 3
        }),
{
}

/// What comes is a sign of life; an answer to a probe ends the wait for it and
/// forgives all losses. Neither touches a stream.
pub proof fn law_sign_of_life_is_noted(manager: ManagerModel, now: Instant)
    ensures
        manager.after_activity(now).last_activity == now,
        manager.after_activity(now).ping_loss_count == manager.ping_loss_count,
        manager.after_activity(now).last_ping_sent == manager.last_ping_sent,
        manager.after_activity(now).streams == manager.streams,
        manager.after_activity(now).next_stream_id == manager.next_stream_id,
        manager.after_pong(now).last_activity == now,
        manager.after_pong(now).ping_loss_count == 0,
        manager.after_pong(now).last_ping_sent is None,
        manager.after_pong(now).streams == manager.streams,
        manager.after_pong(now).next_stream_id == manager.next_stream_id,
{
}

proof fn lemma_marked_len(before: Seq<UnackedModel>, after: Seq<UnackedModel>)
    ensures
        marked(before, after).len() <= before.len(),
    decreases before.len(),
{
    if before.len() > 0 && after.len() > 0 {
        lemma_marked_len(before.drop_first(), after.drop_first());
    }
}

/// The counters of a stream take every packet of ordinary size, every
/// acknowledgement and every look at the clock, until one of them comes near its
/// limit.
pub proof fn law_counters_have_room(
    stream: StreamModel,
    seq: u64,
    payload: Seq<u8>,
    ack_num: u64,
    now: Instant,
)
    requires
        stream.wf(),
        payload.len() <= 1_000_000_000,
    ensures
        stream.recv_window.read_offset + payload.len() + waiting_bytes(stream.recv_buffer)
            <= u64::MAX ==> stream.data_fits(seq, payload),
        stream.ack_count(ack_num) < u32::MAX && stream.congestion.cwnd + 100_000 <= usize::MAX
            && stream.congestion.acked_this_round + 100_000 <= usize::MAX ==> stream.ack_fits(
            ack_num,
        ),
        stream.retransmit_count + stream.unacked.len() <= u32::MAX ==> stream.resend_fits(now),
{
    let sorted = model::by_seq(stream.recv_buffer);
    let out = stream.delivered(seq, payload);
    lemma_waiting_sorted(stream.recv_buffer);
    lemma_waiting_drained(sorted, model::nth(stream.recv_seq, 1));
    if out.len() > 0 {
        assert(out.drop_first() =~= stream.drained().delivered);
    }
    model::lemma_queue_parts(stream.unacked, ack_num);
    lemma_rescan_effect(stream.unacked, stream.hints(), stream.rto, now);
    lemma_marked_len(stream.unacked, stream.rescanned(now).unacked);
}

/// Whether the receive window counts at least the bytes that wait in the buffer.
pub open spec fn counts_what_waits(stream: StreamModel) -> bool {
    waiting_bytes(stream.recv_buffer) <= stream.recv_window.buffered
}

/// The receive window of a stream counts what waits in its buffer from the start,
/// and goes on to do so whatever is sent, acknowledged or received.
pub proof fn law_window_counts_what_waits(
    stream: StreamModel,
    state: StreamState,
    seq: u64,
    payload: Seq<u8>,
    ack_num: u64,
    now: Instant,
)
    requires
        stream.receiver_wf(),
        counts_what_waits(stream),
    ensures
        counts_what_waits(StreamModel::fresh(state, now)),
        counts_what_waits(stream.after_record(seq, payload, now)),
        counts_what_waits(stream.after_ack(ack_num)),
        counts_what_waits(stream.after_data(seq, payload, now)),
        counts_what_waits(stream.after_resend(now)),
{
    if stream.recv_window.buffered + payload.len() <= stream.recv_window.window_size {
        if seq == stream.recv_seq {
            law_delivered_bytes_leave_the_window(stream, seq, payload, now);
        } else if stream.is_early(seq) {
            law_early_packet_waits(stream, seq, payload, now);
        }
    }
}

} // verus!
