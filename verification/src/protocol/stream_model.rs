//! What a stream is and what each event makes of it, as mathematics.

use vstd::prelude::*;
use crate::protocol::congestion::CongestionModel;
use crate::protocol::packet::{PacketModel, CONTROL_STREAM, FLAG_ACK, FLAG_DATA};
use crate::protocol::window;
use crate::protocol::window::{ReceiveModel, SendModel};
use crate::time;
use crate::time::Instant;

verus! {

/// How long a packet waits for its acknowledgement at first, in nanoseconds.
pub const INITIAL_RTO: u64 = 200_000_000;

/// How long a packet waits at most, in nanoseconds.
pub const MAX_RTO: u64 = 3_000_000_000;

/// How often a packet is sent again before its stream is given up.
pub const MAX_RETRANSMITS: u32 = 5;

/// How long the tunnel may be quiet before it is probed, in nanoseconds.
pub const KEEPALIVE_INTERVAL: u64 = 5_000_000_000;

/// How many probes may be lost.
pub const MAX_PING_LOSS: u32 = 3;

/// The size of the windows of a stream: 64 KiB.
pub const STREAM_WINDOW: usize = 65536;

/// How far ahead of the next expected packet one may be and still be kept.
pub const REORDER_SPAN: u64 = 1000;

/// How many packets that came too early are kept.
pub const REORDER_LIMIT: usize = 100;

/// How often an acknowledgement must come to count as a sign of loss.
pub const DUP_ACK_LIMIT: u32 = 3;

/// Where a stream is in its life.
#[derive(Debug, Clone, Copy, PartialEq, Eq, Structural)]
pub enum StreamState {
    Init,
    SynSent,
    Established,
    Closing,
    Closed,
}

/// A packet that was sent and not acknowledged.
#[verifier::ext_equal]
pub struct UnackedModel {
    pub seq: u64,
    pub payload: Seq<u8>,
    pub sent_at: Instant,
    pub retransmits: u32,
}

/// A stream.
#[verifier::ext_equal]
pub struct StreamModel {
    pub state: StreamState,
    pub send_seq: nat,
    pub recv_seq: nat,
    pub unacked: Seq<UnackedModel>,
    pub rto: nat,
    pub retransmit_count: nat,
    pub last_activity: Instant,
    pub recv_buffer: Seq<(u64, Seq<u8>)>,
    pub send_window: SendModel,
    pub recv_window: ReceiveModel,
    pub dup_acks: Map<u64, u32>,
    /// The counted acknowledgements behind which a packet has gone out again.
    pub answered: Set<u64>,
    pub congestion: CongestionModel,
}

/// The bytes in a queue of unacknowledged packets.
pub open spec fn bytes_of(unacked: Seq<UnackedModel>) -> nat
    decreases unacked.len(),
{
    if unacked.len() == 0 {
        0
    } else {
        bytes_of(unacked.drop_last()) + unacked.last().payload.len()
    }
}

/// The packets that an acknowledgement covers.
pub open spec fn covered(unacked: Seq<UnackedModel>, ack_num: u64) -> Seq<UnackedModel> {
    unacked.filter(|p: UnackedModel| p.seq <= ack_num)
}

/// The packets that an acknowledgement leaves open.
pub open spec fn uncovered(unacked: Seq<UnackedModel>, ack_num: u64) -> Seq<UnackedModel> {
    unacked.filter(|p: UnackedModel| p.seq > ack_num)
}

/// The number that comes `k` places after `first`: after the last number comes
/// the first again.
pub open spec fn nth(first: nat, k: nat) -> nat {
    (first + k) % 0x1_0000_0000_0000_0000
}

/// How many places `to` comes after `from`, in the circle of numbers.
pub open spec fn distance(from: nat, to: nat) -> nat {
    ((to - from) % 0x1_0000_0000_0000_0000) as nat
}

/// Whether the buffer holds a packet numbered `seq`.
pub open spec fn holds(buffer: Seq<(u64, Seq<u8>)>, seq: nat) -> bool {
    exists|i: int| 0 <= i < buffer.len() && (#[trigger] buffer[i]).0 == seq
}

/// Whether the first packet numbered `seq` stands at `i`.
pub open spec fn is_first(buffer: Seq<(u64, Seq<u8>)>, seq: nat, i: int) -> bool {
    &&& 0 <= i < buffer.len()
    &&& buffer[i].0 == seq
    &&& forall|j: int| 0 <= j < i ==> (#[trigger] buffer[j]).0 != seq
}

/// Where the first packet numbered `seq` stands.
pub open spec fn first_at(buffer: Seq<(u64, Seq<u8>)>, seq: nat) -> int {
    choose|i: int| is_first(buffer, seq, i)
}

/// How many packets of a sorted buffer stand before one numbered `seq` that
/// comes after its equals.
pub open spec fn rank(buffer: Seq<(u64, Seq<u8>)>, seq: u64) -> nat
    decreases buffer.len(),
{
    if buffer.len() == 0 || buffer.last().0 <= seq {
        buffer.len()
    } else {
        rank(buffer.drop_last(), seq)
    }
}

/// The buffer in the order of the sequence numbers, equals in the order in
/// which they came.
pub open spec fn by_seq(buffer: Seq<(u64, Seq<u8>)>) -> Seq<(u64, Seq<u8>)>
    decreases buffer.len(),
{
    if buffer.len() == 0 {
        buffer
    } else {
        let sorted = by_seq(buffer.drop_last());
        sorted.insert(rank(sorted, buffer.last().0) as int, buffer.last())
    }
}

/// What comes out of a buffer when the packet `next` is due.
#[verifier::ext_equal]
pub struct Drained {
    /// The payloads, in order.
    pub delivered: Seq<Seq<u8>>,
    /// What stays.
    pub rest: Seq<(u64, Seq<u8>)>,
    /// The packet that is due then.
    pub next: nat,
}

/// Takes `next`, the packet after it and so on out of a buffer, as far as the
/// buffer has them.
pub open spec fn drain(buffer: Seq<(u64, Seq<u8>)>, next: nat) -> Drained
    decreases buffer.len(),
{
    if holds(buffer, next) && 0 <= first_at(buffer, next) < buffer.len() {
        let i = first_at(buffer, next);
        let tail = drain(buffer.remove(i), nth(next, 1));
        Drained { delivered: seq![buffer[i].1] + tail.delivered, ..tail }
    } else {
        Drained { delivered: Seq::empty(), rest: buffer, next }
    }
}

/// The bytes of a sequence of payloads.
pub open spec fn total_len(payloads: Seq<Seq<u8>>) -> nat
    decreases payloads.len(),
{
    if payloads.len() == 0 {
        0
    } else {
        payloads[0].len() + total_len(payloads.drop_first())
    }
}

/// The receive window after the application has read each of the payloads.
pub open spec fn consumed(window: ReceiveModel, payloads: Seq<Seq<u8>>) -> ReceiveModel
    decreases payloads.len(),
{
    if payloads.len() == 0 {
        window
    } else {
        consumed(window.after_consume(payloads[0].len()), payloads.drop_first())
    }
}

/// What a look at the clock makes of a queue of unacknowledged packets.
#[verifier::ext_equal]
pub struct Rescan {
    /// The queue, with the packets that go out again marked as sent now.
    pub unacked: Seq<UnackedModel>,
    /// The packets that go out again, as they stood in the queue.
    pub sent: Seq<UnackedModel>,
    /// The waiting time after that.
    pub rto: nat,
    /// Whether a packet was due that has been sent too often.
    pub dead: bool,
    /// The hinted numbers whose packet goes out again.
    pub answered: Set<u64>,
}

/// Twice the waiting time, up to its limit.
pub open spec fn backed_off(rto: nat) -> nat {
    if 2 * rto <= MAX_RTO {
        2 * rto
    } else {
        MAX_RTO as nat
    }
}

/// Whether a packet is the first above one of the numbers.
pub open spec fn is_hinted(hints: Set<u64>, seq: u64) -> bool {
    exists|a: u64| #[trigger] hints.contains(a) && a < seq
}

/// The numbers above which no packet has come up to `seq`.
pub open spec fn hints_from(hints: Set<u64>, seq: u64) -> Set<u64> {
    Set::new(|a: u64| hints.contains(a) && a >= seq)
}

/// The numbers that a packet comes after.
pub open spec fn hints_below(hints: Set<u64>, seq: u64) -> Set<u64> {
    Set::new(|a: u64| hints.contains(a) && a < seq)
}

/// Whether a packet has waited for its acknowledgement as long as it should.
pub open spec fn has_waited(p: UnackedModel, rto: nat, now: Instant) -> bool {
    time::elapsed(now, p.sent_at) >= rto
}

/// Whether a packet goes out again: it has waited, or is the first above a number
/// that is hinted at, and has not been sent too often.
pub open spec fn goes_out(p: UnackedModel, hints: Set<u64>, rto: nat, now: Instant) -> bool {
    p.retransmits < MAX_RETRANSMITS && (has_waited(p, rto, now) || is_hinted(hints, p.seq))
}

/// Looks at each packet in turn: one that goes out again doubles the waiting time
/// for the packets behind it; one that has waited once more after it was sent
/// too often ends the look.
pub open spec fn rescan(
    unacked: Seq<UnackedModel>,
    hints: Set<u64>,
    rto: nat,
    now: Instant,
) -> Rescan
    decreases unacked.len(),
{
    if unacked.len() == 0 {
        Rescan { unacked, sent: Seq::empty(), rto, dead: false, answered: Set::empty() }
    } else {
        let head = unacked[0];
        let left = hints_from(hints, head.seq);
        if goes_out(head, hints, rto, now) {
            let tail = rescan(unacked.drop_first(), left, backed_off(rto), now);
            let marked = UnackedModel {
                sent_at: now,
                retransmits: (head.retransmits + 1) as u32,
                ..head
            };
            Rescan {
                unacked: seq![marked] + tail.unacked,
                sent: seq![head] + tail.sent,
                answered: hints_below(hints, head.seq).union(tail.answered),
                ..tail
            }
        } else if has_waited(head, rto, now) {
            Rescan { unacked, sent: Seq::empty(), rto, dead: true, answered: Set::empty() }
        } else {
            let tail = rescan(unacked.drop_first(), left, rto, now);
            Rescan { unacked: seq![head] + tail.unacked, ..tail }
        }
    }
}

impl StreamModel {
    /// A stream on which nothing has happened.
    pub open spec fn fresh(state: StreamState, now: Instant) -> StreamModel {
        StreamModel {
            state,
            send_seq: 0,
            recv_seq: 0,
            unacked: Seq::empty(),
            rto: INITIAL_RTO as nat,
            retransmit_count: 0,
            last_activity: now,
            recv_buffer: Seq::empty(),
            send_window: SendModel::empty(STREAM_WINDOW as nat),
            recv_window: ReceiveModel::empty(STREAM_WINDOW as nat),
            dup_acks: Map::empty(),
            answered: Set::empty(),
            congestion: CongestionModel::initial(),
        }
    }

    /// The windows are those of a stream and hold what they should: the bytes
    /// on their way are those of the unacknowledged packets, and the send
    /// window counts them all. A number is answered only while it is counted.
    pub open spec fn wf(self) -> bool {
        &&& self.send_window.wf()
        &&& self.send_window.window_size == STREAM_WINDOW
        &&& self.recv_window.wf()
        &&& self.recv_window.window_size == STREAM_WINDOW
        &&& self.congestion.in_flight == bytes_of(self.unacked)
        &&& bytes_of(self.unacked) <= self.send_window.unacked
        &&& self.receiver_wf()
        &&& self.answers_wf()
    }

    /// Each answered number has come often enough.
    pub open spec fn answers_wf(self) -> bool {
        forall|a: u64| #[trigger]
            self.answered.contains(a) ==> self.ack_count(a) >= DUP_ACK_LIMIT
    }

    /// The packet that is due has a number, and no more packets are waiting than
    /// are kept.
    pub open spec fn receiver_wf(self) -> bool {
        self.recv_seq <= u64::MAX && self.recv_buffer.len() <= REORDER_LIMIT
    }

    /// Whether the stream takes `len` bytes to send: both windows have room.
    pub open spec fn accepts(self, len: nat) -> bool {
        self.send_window.fits(len) && self.congestion.allows(len)
    }

    /// After a packet was handed over for sending. Where only the congestion
    /// window has no room, the send window keeps the bytes nevertheless.
    pub open spec fn after_record(self, seq: u64, payload: Seq<u8>, now: Instant) -> StreamModel {
        let window = self.send_window.after_send(payload.len());
        if self.accepts(payload.len()) {
            StreamModel {
                send_window: window,
                unacked: self.unacked.push(
                    UnackedModel { seq, payload, sent_at: now, retransmits: 0 },
                ),
                last_activity: now,
                congestion: self.congestion.after_sent(payload.len()),
                ..self
            }
        } else {
            StreamModel { send_window: window, ..self }
        }
    }

    /// How often an acknowledgement has come since the last that covered anything.
    pub open spec fn ack_count(self, ack_num: u64) -> nat {
        if self.dup_acks.contains_key(ack_num) {
            self.dup_acks[ack_num] as nat
        } else {
            0
        }
    }

    /// The bytes that an acknowledgement covers.
    pub open spec fn acked_bytes(self, ack_num: u64) -> nat {
        bytes_of(covered(self.unacked, ack_num))
    }

    /// The numbers whose acknowledgement has come so often that the packet behind
    /// them counts as lost, and behind which none has gone out again yet.
    pub open spec fn hints(self) -> Set<u64> {
        Set::new(|a: u64| self.ack_count(a) >= DUP_ACK_LIMIT && !self.answered.contains(a))
    }

    /// After an acknowledgement. One that covers packets takes them off the
    /// queue, opens the windows and starts all counts again; another is
    /// counted, and from the third of its kind on the waiting time is reset and
    /// the first packet above it goes out again at the next look.
    pub open spec fn after_ack(self, ack_num: u64) -> StreamModel {
        let kept = uncovered(self.unacked, ack_num);
        if kept.len() < self.unacked.len() {
            StreamModel {
                unacked: kept,
                rto: INITIAL_RTO as nat,
                retransmit_count: 0,
                dup_acks: Map::empty(),
                answered: Set::empty(),
                send_window: self.send_window.after_ack(ack_num, self.acked_bytes(ack_num)),
                congestion: self.congestion.after_ack(self.acked_bytes(ack_num)),
                ..self
            }
        } else {
            StreamModel {
                dup_acks: self.dup_acks.insert(ack_num, (self.ack_count(ack_num) + 1) as u32),
                rto: if self.ack_count(ack_num) + 1 >= DUP_ACK_LIMIT {
                    INITIAL_RTO as nat
                } else {
                    self.rto
                },
                ..self
            }
        }
    }

    /// Whether the counters can take an acknowledgement.
    pub open spec fn ack_fits(self, ack_num: u64) -> bool {
        &&& self.ack_count(ack_num) < u32::MAX
        &&& uncovered(self.unacked, ack_num).len() < self.unacked.len()
            ==> self.congestion.ack_fits(self.acked_bytes(ack_num))
    }

    /// What the buffer gives once the packet that is due has come.
    pub open spec fn drained(self) -> Drained {
        drain(by_seq(self.recv_buffer), nth(self.recv_seq, 1))
    }

    /// What a data packet hands to the application: nothing where the window
    /// has no room for it or it is not the one that is due, else its payload
    /// and those of the packets that were waiting for it.
    pub open spec fn delivered(self, seq: u64, payload: Seq<u8>) -> Seq<Seq<u8>> {
        if self.recv_window.fits(payload.len()) && seq == self.recv_seq {
            seq![payload] + self.drained().delivered
        } else {
            Seq::empty()
        }
    }

    /// Whether a packet that is not due yet is kept: it comes after the one that
    /// is due and before the end of the span, which may lie beyond the last
    /// number and then counts on from the first.
    pub open spec fn is_early(self, seq: u64) -> bool {
        &&& window::is_after(seq as int, self.recv_seq as int)
        &&& if self.recv_seq + REORDER_SPAN <= u64::MAX {
            seq < self.recv_seq + REORDER_SPAN
        } else {
            seq >= self.recv_seq || seq < nth(self.recv_seq, REORDER_SPAN as nat)
        }
    }

    /// The buffer with one packet more, within its limit.
    pub open spec fn buffer_with(self, seq: u64, payload: Seq<u8>) -> Seq<(u64, Seq<u8>)> {
        let more = self.recv_buffer.push((seq, payload));
        if more.len() > REORDER_LIMIT {
            more.take(REORDER_LIMIT as int)
        } else {
            more
        }
    }

    /// After a data packet. Where the window has no room nothing happens; else
    /// its bytes count against the window until they are delivered.
    pub open spec fn after_data(self, seq: u64, payload: Seq<u8>, now: Instant) -> StreamModel {
        let window = self.recv_window.after_receive(payload.len());
        if !self.recv_window.fits(payload.len()) {
            self
        } else if seq == self.recv_seq {
            StreamModel {
                last_activity: now,
                recv_seq: self.drained().next,
                recv_buffer: self.drained().rest,
                recv_window: consumed(window, self.delivered(seq, payload)),
                ..self
            }
        } else if self.is_early(seq) {
            StreamModel {
                last_activity: now,
                recv_buffer: self.buffer_with(seq, payload),
                recv_window: window,
                ..self
            }
        } else {
            StreamModel { last_activity: now, recv_window: window, ..self }
        }
    }

    /// Whether the counters can take a data packet.
    pub open spec fn data_fits(self, seq: u64, payload: Seq<u8>) -> bool {
        &&& self.recv_window.buffered + payload.len() <= usize::MAX
        &&& self.recv_window.fits(payload.len()) && seq == self.recv_seq
            ==> self.recv_window.read_offset + total_len(self.delivered(seq, payload)) <= u64::MAX
    }

    /// The last packet that came in order; 0 before there is one.
    pub open spec fn current_ack(self) -> nat {
        if self.recv_seq > 0 {
            (self.recv_seq - 1) as nat
        } else {
            0
        }
    }

    /// What a look at the clock makes of the queue.
    pub open spec fn rescanned(self, now: Instant) -> Rescan {
        rescan(self.unacked, self.hints(), self.rto, now)
    }

    /// After the packets that were due went out again: that any was due counts
    /// as a loss.
    pub open spec fn after_resend(self, now: Instant) -> StreamModel {
        let scan = self.rescanned(now);
        StreamModel {
            unacked: scan.unacked,
            answered: self.answered.union(scan.answered),
            rto: scan.rto,
            retransmit_count: self.retransmit_count + scan.sent.len(),
            congestion: if scan.sent.len() > 0 {
                self.congestion.after_loss()
            } else {
                self.congestion
            },
            ..self
        }
    }

    /// Whether the counter can take the packets that go out again.
    pub open spec fn resend_fits(self, now: Instant) -> bool {
        self.retransmit_count + self.rescanned(now).sent.len() <= u32::MAX
    }

    /// How an unacknowledged packet goes out again on the stream `id`.
    pub open spec fn as_resent(self, id: u16) -> spec_fn(UnackedModel) -> (u16, PacketModel) {
        |p: UnackedModel|
            (
                id,
                PacketModel {
                    flags: FLAG_DATA | FLAG_ACK,
                    connection_id: 0,
                    stream_id: id,
                    seq_num: p.seq,
                    ack_num: self.current_ack() as u64,
                    payload: p.payload,
                },
            )
    }

    /// The packets that go out again on the stream `id`.
    pub open spec fn resent(self, id: u16, now: Instant) -> Seq<(u16, PacketModel)> {
        self.rescanned(now).sent.map_values(self.as_resent(id))
    }
}

/// All streams of a tunnel, and whether the other end is alive.
#[verifier::ext_equal]
pub struct ManagerModel {
    pub streams: Map<u16, StreamModel>,
    pub next_stream_id: u16,
    pub last_activity: Instant,
    pub ping_loss_count: nat,
    pub last_ping_sent: Option<Instant>,
    /// When the manager was made.
    pub created: Instant,
}

/// The stream number after `id`: all but that of the control stream, in a circle.
pub open spec fn next_id(id: u16) -> u16 {
    if id == u16::MAX {
        1
    } else {
        (id + 1) as u16
    }
}

/// The packets that go out again, stream by stream.
pub open spec fn resent_of(streams: Map<u16, StreamModel>, ids: Seq<u16>, now: Instant) -> Seq<
    (u16, PacketModel),
>
    decreases ids.len(),
{
    if ids.len() == 0 {
        Seq::empty()
    } else {
        resent_of(streams, ids.drop_last(), now) + streams[ids.last()].resent(ids.last(), now)
    }
}

/// Whether `ids` lists each number of a set once.
pub open spec fn lists(ids: Seq<u16>, set: Set<u16>) -> bool {
    ids.no_duplicates() && ids.to_set() == set
}

impl ManagerModel {
    /// A manager with the control stream alone.
    pub open spec fn initial(now: Instant) -> ManagerModel {
        ManagerModel {
            streams: Map::empty().insert(
                CONTROL_STREAM,
                StreamModel::fresh(StreamState::Established, now),
            ),
            next_stream_id: 1,
            last_activity: now,
            ping_loss_count: 0,
            last_ping_sent: None,
            created: now,
        }
    }

    /// The number of the control stream is never given out, and each stream is
    /// well formed.
    pub open spec fn wf(self) -> bool {
        &&& self.next_stream_id != CONTROL_STREAM
        &&& forall|id: u16| #[trigger]
            self.streams.contains_key(id) ==> self.streams[id].wf()
    }

    /// With one stream replaced or added.
    pub open spec fn with(self, id: u16, stream: StreamModel) -> ManagerModel {
        ManagerModel { streams: self.streams.insert(id, stream), ..self }
    }

    /// After a stream was opened from this end; it has the number
    /// `next_stream_id`.
    pub open spec fn after_allocate(self, now: Instant) -> ManagerModel {
        ManagerModel {
            streams: self.streams.insert(
                self.next_stream_id,
                StreamModel::fresh(StreamState::SynSent, now),
            ),
            next_stream_id: next_id(self.next_stream_id),
            ..self
        }
    }

    /// Whether the other end can have the number that it proposes.
    pub open spec fn is_free(self, proposed: u16) -> bool {
        proposed != CONTROL_STREAM && !self.streams.contains_key(proposed)
    }

    /// The number of a stream that the other end opens.
    pub open spec fn accepted_id(self, proposed: u16) -> u16 {
        if self.is_free(proposed) {
            proposed
        } else {
            self.next_stream_id
        }
    }

    /// After the other end has opened a stream.
    pub open spec fn after_syn(self, proposed: u16, seq: u64, now: Instant) -> ManagerModel {
        let stream = StreamModel {
            recv_seq: if seq == u64::MAX {
                0
            } else {
                (seq + 1) as nat
            },
            ..StreamModel::fresh(StreamState::Established, now)
        };
        ManagerModel {
            streams: self.streams.insert(self.accepted_id(proposed), stream),
            next_stream_id: if self.is_free(proposed) {
                self.next_stream_id
            } else {
                next_id(self.next_stream_id)
            },
            ..self
        }
    }

    /// Without a stream.
    pub open spec fn without(self, id: u16) -> ManagerModel {
        ManagerModel { streams: self.streams.remove(id), ..self }
    }

    /// After a packet was handed over for sending.
    pub open spec fn after_record(
        self,
        id: u16,
        seq: u64,
        payload: Seq<u8>,
        now: Instant,
    ) -> ManagerModel {
        if self.streams.contains_key(id) {
            self.with(id, self.streams[id].after_record(seq, payload, now))
        } else {
            self
        }
    }

    /// After an acknowledgement.
    pub open spec fn after_ack(self, id: u16, ack_num: u64) -> ManagerModel {
        if self.streams.contains_key(id) {
            self.with(id, self.streams[id].after_ack(ack_num))
        } else {
            self
        }
    }

    /// Whether the counters can take an acknowledgement.
    pub open spec fn ack_fits(self, id: u16, ack_num: u64) -> bool {
        self.streams.contains_key(id) ==> self.streams[id].ack_fits(ack_num)
    }

    /// After a data packet.
    pub open spec fn after_data(
        self,
        id: u16,
        seq: u64,
        payload: Seq<u8>,
        now: Instant,
    ) -> ManagerModel {
        if self.streams.contains_key(id) {
            self.with(id, self.streams[id].after_data(seq, payload, now))
        } else {
            self
        }
    }

    /// What a data packet hands to the application.
    pub open spec fn delivered(self, id: u16, seq: u64, payload: Seq<u8>) -> Seq<Seq<u8>> {
        if self.streams.contains_key(id) {
            self.streams[id].delivered(seq, payload)
        } else {
            Seq::empty()
        }
    }

    /// Whether the counters can take a data packet.
    pub open spec fn data_fits(self, id: u16, seq: u64, payload: Seq<u8>) -> bool {
        self.streams.contains_key(id) ==> self.streams[id].data_fits(seq, payload)
    }

    /// The last packet that came in order on a stream; 0 where there is none.
    pub open spec fn current_ack(self, id: u16) -> nat {
        if self.streams.contains_key(id) {
            self.streams[id].current_ack()
        } else {
            0
        }
    }

    /// Whether a stream survives a look at the clock.
    pub open spec fn survives(self, id: u16, now: Instant) -> bool {
        self.streams.contains_key(id) && !self.streams[id].rescanned(now).dead
    }

    /// After the packets that were due went out again; the streams on which a
    /// packet was sent too often are gone.
    pub open spec fn after_resend(self, now: Instant) -> ManagerModel {
        ManagerModel {
            streams: Map::new(
                |id: u16| self.survives(id, now),
                |id: u16| self.streams[id].after_resend(now),
            ),
            ..self
        }
    }

    /// The streams when those that `done` names have been looked at.
    pub open spec fn resent_so_far(self, done: Seq<u16>, now: Instant) -> Map<u16, StreamModel> {
        Map::new(
            |id: u16|
                self.streams.contains_key(id) && (done.contains(id) ==> self.survives(id, now)),
            |id: u16|
                if done.contains(id) {
                    self.streams[id].after_resend(now)
                } else {
                    self.streams[id]
                },
        )
    }

    /// Whether the counters can take the packets that go out again.
    pub open spec fn resend_fits(self, now: Instant) -> bool {
        forall|id: u16| #[trigger]
            self.streams.contains_key(id) ==> self.streams[id].resend_fits(now)
    }

    /// Whether the tunnel has been quiet for long enough to be probed.
    pub open spec fn is_quiet(self, now: Instant) -> bool {
        time::elapsed(now, self.last_activity) >= KEEPALIVE_INTERVAL
    }

    /// Whether the last probe has been without an answer for too long.
    pub open spec fn is_unanswered(self, now: Instant) -> bool {
        match self.last_ping_sent {
            None => false,
            Some(last) => time::elapsed(now, last) >= KEEPALIVE_INTERVAL,
        }
    }

    /// Whether a probe is due.
    pub open spec fn ping_due(self, now: Instant) -> bool {
        self.is_quiet(now) && (self.last_ping_sent is None || self.is_unanswered(now))
    }

    /// After the question whether a probe is due: one that follows an
    /// unanswered one counts that one as lost.
    pub open spec fn after_ping_check(self, now: Instant) -> ManagerModel {
        if self.is_quiet(now) && self.is_unanswered(now) {
            ManagerModel { ping_loss_count: self.ping_loss_count + 1, ..self }
        } else {
            self
        }
    }

    /// After a probe was sent.
    pub open spec fn after_ping(self, now: Instant) -> ManagerModel {
        ManagerModel { last_ping_sent: Some(now), ..self }
    }

    /// After a probe was answered.
    pub open spec fn after_pong(self, now: Instant) -> ManagerModel {
        ManagerModel { ping_loss_count: 0, last_ping_sent: None, last_activity: now, ..self }
    }

    /// After a packet came in.
    pub open spec fn after_activity(self, now: Instant) -> ManagerModel {
        ManagerModel { last_activity: now, ..self }
    }

    /// Whether too many probes were lost.
    pub open spec fn is_lost(self) -> bool {
        self.ping_loss_count >= MAX_PING_LOSS
    }

    /// After a stream was confirmed by the other end.
    pub open spec fn after_established(self, id: u16) -> ManagerModel {
        if self.streams.contains_key(id) {
            self.with(id, StreamModel { state: StreamState::Established, ..self.streams[id] })
        } else {
            self
        }
    }

    /// After a number was taken for the next packet of a stream.
    pub open spec fn after_next_seq(self, id: u16) -> ManagerModel {
        if self.streams.contains_key(id) {
            self.with(
                id,
                StreamModel {
                    send_seq: nth(self.streams[id].send_seq, 1),
                    ..self.streams[id]
                },
            )
        } else {
            self
        }
    }
}

/// One packet more in the queue.
pub proof fn lemma_queue_push(unacked: Seq<UnackedModel>, p: UnackedModel, ack_num: u64)
    ensures
        bytes_of(unacked.push(p)) == bytes_of(unacked) + p.payload.len(),
        covered(unacked.push(p), ack_num) == if p.seq <= ack_num {
            covered(unacked, ack_num).push(p)
        } else {
            covered(unacked, ack_num)
        },
        uncovered(unacked.push(p), ack_num) == if p.seq > ack_num {
            uncovered(unacked, ack_num).push(p)
        } else {
            uncovered(unacked, ack_num)
        },
{
    reveal(Seq::filter);
    assert(unacked.push(p).drop_last() =~= unacked);
}

/// An acknowledgement parts the queue in two.
pub proof fn lemma_queue_parts(unacked: Seq<UnackedModel>, ack_num: u64)
    ensures
        bytes_of(unacked) == bytes_of(covered(unacked, ack_num)) + bytes_of(
            uncovered(unacked, ack_num),
        ),
        unacked.len() == covered(unacked, ack_num).len() + uncovered(unacked, ack_num).len(),
    decreases unacked.len(),
{
    if unacked.len() > 0 {
        let front = unacked.drop_last();
        let p = unacked.last();
        lemma_queue_parts(front, ack_num);
        lemma_queue_push(front, p, ack_num);
        assert(front.push(p) =~= unacked);
        if p.seq <= ack_num {
            lemma_queue_push(covered(front, ack_num), p, ack_num);
        } else {
            lemma_queue_push(uncovered(front, ack_num), p, ack_num);
        }
    } else {
        reveal(Seq::filter);
    }
}

/// A part of the queue holds no more bytes than the queue.
pub proof fn lemma_bytes_of_take(unacked: Seq<UnackedModel>, n: int)
    requires
        0 <= n <= unacked.len(),
    ensures
        bytes_of(unacked.take(n)) <= bytes_of(unacked),
    decreases unacked.len(),
{
    if n < unacked.len() {
        lemma_bytes_of_take(unacked.drop_last(), n);
        assert(unacked.drop_last().take(n) =~= unacked.take(n));
    } else {
        assert(unacked.take(n) =~= unacked);
    }
}

/// An acknowledgement that covers nothing leaves the queue as it is.
pub proof fn lemma_uncovered_all(unacked: Seq<UnackedModel>, ack_num: u64)
    requires
        uncovered(unacked, ack_num).len() == unacked.len(),
    ensures
        uncovered(unacked, ack_num) == unacked,
    decreases unacked.len(),
{
    if unacked.len() > 0 {
        let front = unacked.drop_last();
        lemma_queue_push(front, unacked.last(), ack_num);
        assert(front.push(unacked.last()) =~= unacked);
        lemma_queue_parts(front, ack_num);
        lemma_uncovered_all(front, ack_num);
    } else {
        reveal(Seq::filter);
    }
}

/// There is only one first packet of a number.
pub proof fn lemma_first_at(buffer: Seq<(u64, Seq<u8>)>, seq: nat, i: int)
    requires
        is_first(buffer, seq, i),
    ensures
        holds(buffer, seq),
        first_at(buffer, seq) == i,
{
    let j = first_at(buffer, seq);
    assert(is_first(buffer, seq, j));
    if j < i {
        assert(buffer[j].0 != seq);
    } else if i < j {
        assert(buffer[i].0 != seq);
    }
}

/// A buffer that holds a number has a first packet of it.
pub proof fn lemma_first_exists(buffer: Seq<(u64, Seq<u8>)>, seq: nat)
    requires
        holds(buffer, seq),
    ensures
        is_first(buffer, seq, first_at(buffer, seq)),
    decreases buffer.len(),
{
    let front = buffer.drop_last();
    if holds(front, seq) {
        lemma_first_exists(front, seq);
        let i = first_at(front, seq);
        assert forall|j: int| 0 <= j < i implies (#[trigger] buffer[j]).0 != seq by {
            assert(front[j].0 != seq);
        }
        assert(front[i].0 == seq);
        lemma_first_at(buffer, seq, i);
    } else {
        let last = buffer.len() - 1;
        assert forall|j: int| 0 <= j < last implies (#[trigger] buffer[j]).0 != seq by {
            assert(front[j] == buffer[j]);
        }
        let i = choose|i: int| 0 <= i < buffer.len() && (#[trigger] buffer[i]).0 == seq;
        assert(buffer[i].0 == seq);
        lemma_first_at(buffer, seq, last);
    }
}

/// Going on from a number is the same in one step as in two.
pub proof fn lemma_nth(first: nat, k: nat, m: nat)
    ensures
        nth(nth(first, k), m) == nth(first, k + m),
        nth(first, k) <= u64::MAX,
        first <= u64::MAX ==> nth(first, 0) == first,
{
    vstd::arithmetic::div_mod::lemma_add_mod_noop(
        (first + k) as int,
        m as int,
        0x1_0000_0000_0000_0000,
    );
    vstd::arithmetic::div_mod::lemma_add_mod_noop(
        ((first + k) % 0x1_0000_0000_0000_0000) as int,
        m as int,
        0x1_0000_0000_0000_0000,
    );
}

/// One payload per number.
pub proof fn lemma_drain_counts(buffer: Seq<(u64, Seq<u8>)>, next: nat)
    requires
        next <= u64::MAX,
    ensures
        drain(buffer, next).next == nth(next, drain(buffer, next).delivered.len()),
        drain(buffer, next).next <= u64::MAX,
        drain(buffer, next).rest.len() + drain(buffer, next).delivered.len() == buffer.len(),
    decreases buffer.len(),
{
    lemma_nth(next, 0, 0);
    if holds(buffer, next) {
        lemma_first_exists(buffer, next);
        let rest = buffer.remove(first_at(buffer, next));
        lemma_nth(next, 1, drain(rest, nth(next, 1)).delivered.len());
        lemma_drain_counts(rest, nth(next, 1));
    }
}

/// Sorting loses no packet.
pub proof fn lemma_by_seq_len(buffer: Seq<(u64, Seq<u8>)>)
    ensures
        by_seq(buffer).len() == buffer.len(),
    decreases buffer.len(),
{
    if buffer.len() > 0 {
        lemma_by_seq_len(buffer.drop_last());
        lemma_rank_bound(by_seq(buffer.drop_last()), buffer.last().0);
    }
}

proof fn lemma_rank_bound(buffer: Seq<(u64, Seq<u8>)>, seq: u64)
    ensures
        rank(buffer, seq) <= buffer.len(),
    decreases buffer.len(),
{
    if buffer.len() > 0 && buffer.last().0 > seq {
        lemma_rank_bound(buffer.drop_last(), seq);
    }
}

/// Reading keeps a receive window well formed.
pub proof fn lemma_consumed_wf(window: ReceiveModel, payloads: Seq<Seq<u8>>)
    requires
        window.wf(),
    ensures
        consumed(window, payloads).wf(),
        consumed(window, payloads).window_size == window.window_size,
        consumed(window, payloads).read_offset == window.read_offset + total_len(payloads),
    decreases payloads.len(),
{
    if payloads.len() > 0 {
        lemma_consumed_wf(window.after_consume(payloads[0].len()), payloads.drop_first());
    }
}

/// One packet more at the front of the queue.
pub proof fn lemma_queue_front(p: UnackedModel, unacked: Seq<UnackedModel>)
    ensures
        bytes_of(seq![p] + unacked) == p.payload.len() + bytes_of(unacked),
    decreases unacked.len(),
{
    let whole = seq![p] + unacked;
    if unacked.len() > 0 {
        lemma_queue_front(p, unacked.drop_last());
        assert(whole.drop_last() =~= seq![p] + unacked.drop_last());
    } else {
        assert(whole.drop_last() =~= Seq::empty());
        assert(bytes_of(whole.drop_last()) == 0);
    }
}

/// A look at the clock loses no packet and changes no payload.
pub proof fn lemma_rescan_keeps_bytes(
    unacked: Seq<UnackedModel>,
    hints: Set<u64>,
    rto: nat,
    now: Instant,
)
    ensures
        bytes_of(rescan(unacked, hints, rto, now).unacked) == bytes_of(unacked),
        rescan(unacked, hints, rto, now).unacked.len() == unacked.len(),
    decreases unacked.len(),
{
    if unacked.len() > 0 {
        let head = unacked[0];
        let tail = unacked.drop_first();
        let left = hints_from(hints, head.seq);
        assert(seq![head] + tail =~= unacked);
        lemma_queue_front(head, tail);
        if goes_out(head, hints, rto, now) {
            lemma_rescan_keeps_bytes(tail, left, backed_off(rto), now);
            let marked = UnackedModel {
                sent_at: now,
                retransmits: (head.retransmits + 1) as u32,
                ..head
            };
            lemma_queue_front(marked, rescan(tail, left, backed_off(rto), now).unacked);
        } else if !has_waited(head, rto, now) {
            lemma_rescan_keeps_bytes(tail, left, rto, now);
            lemma_queue_front(head, rescan(tail, left, rto, now).unacked);
        }
    }
}

/// A look answers only numbers that were hinted at.
pub proof fn lemma_rescan_answers(
    unacked: Seq<UnackedModel>,
    hints: Set<u64>,
    rto: nat,
    now: Instant,
)
    ensures
        rescan(unacked, hints, rto, now).answered.subset_of(hints),
    decreases unacked.len(),
{
    if unacked.len() > 0 {
        let head = unacked[0];
        let tail = unacked.drop_first();
        let left = hints_from(hints, head.seq);
        if goes_out(head, hints, rto, now) {
            lemma_rescan_answers(tail, left, backed_off(rto), now);
        } else if !has_waited(head, rto, now) {
            lemma_rescan_answers(tail, left, rto, now);
        }
    }
}

/// The streams survive a look at the clock as they should.
pub proof fn lemma_resend_wf(manager: ManagerModel, now: Instant)
    requires
        manager.wf(),
    ensures
        manager.after_resend(now).wf(),
{
    let after = manager.after_resend(now);
    assert forall|id: u16| #[trigger]
        after.streams.contains_key(id) implies after.streams[id].wf() by {
        assert(manager.streams.contains_key(id));
        let stream = manager.streams[id];
        lemma_rescan_keeps_bytes(stream.unacked, stream.hints(), stream.rto, now);
        lemma_rescan_answers(stream.unacked, stream.hints(), stream.rto, now);
    }
}

} // verus!
