//! The streams of one tunnel: what is sent and not acknowledged, what came too
//! early, and whether the other end is alive.

use std::collections::{HashMap, HashSet};
use std::collections::hash_map::Entry;
use vstd::prelude::*;
use vstd::slice::slice_to_vec;
use crate::protocol::congestion::CongestionControl;
use crate::protocol::packet::{Packet, PacketModel, CONTROL_STREAM, FLAG_ACK, FLAG_DATA};
use crate::protocol::window;
use crate::protocol::window::{ReceiveWindow, SendWindow, HALF_CIRCLE};
use crate::time::{Clock, Instant};

use crate::protocol::stream_model as model;
use crate::protocol::stream_model::{
    ManagerModel, Rescan, StreamModel, UnackedModel, DUP_ACK_LIMIT, INITIAL_RTO, KEEPALIVE_INTERVAL,
    MAX_PING_LOSS, MAX_RETRANSMITS, MAX_RTO, REORDER_LIMIT, REORDER_SPAN, STREAM_WINDOW,
};
pub use crate::protocol::stream_model::StreamState;

verus! {

/// Whether `a` comes after `b` in sequence space.
pub fn seq_gt_u64(a: u64, b: u64) -> (after: bool)
    ensures
        after == window::is_after(a as int, b as int),
{
    a != b && a.wrapping_sub(b) < HALF_CIRCLE
}

/// Whether `a` comes before `b` in sequence space.
pub fn seq_lt_u64(a: u64, b: u64) -> (before: bool)
    ensures
        before == window::is_after(b as int, a as int),
{
    a != b && b.wrapping_sub(a) < HALF_CIRCLE
}

/// A packet that was sent and not acknowledged.
#[derive(Debug, Clone)]
pub struct UnackedPacket {
    pub seq: u64,
    pub payload: Vec<u8>,
    pub sent_at: Instant,
    pub retransmits: u32,
}

impl View for UnackedPacket {
    type V = UnackedModel;

    open spec fn view(&self) -> UnackedModel {
        UnackedModel {
            seq: self.seq,
            payload: self.payload@,
            sent_at: self.sent_at,
            retransmits: self.retransmits,
        }
    }
}

/// The packets of a queue, each by what it holds.
pub open spec fn unacked_models(queue: Seq<UnackedPacket>) -> Seq<UnackedModel> {
    queue.map_values(|p: UnackedPacket| p@)
}

/// The packets of a buffer, each by what it holds.
pub open spec fn buffer_models(buffer: Seq<(u64, Vec<u8>)>) -> Seq<(u64, Seq<u8>)> {
    buffer.map_values(|entry: (u64, Vec<u8>)| (entry.0, entry.1@))
}

/// The payloads of a sequence, each by its bytes.
pub open spec fn payload_models(payloads: Seq<Vec<u8>>) -> Seq<Seq<u8>> {
    payloads.map_values(|payload: Vec<u8>| payload@)
}

/// One stream of a tunnel.
#[derive(Debug)]
pub struct ManagedStream {
    pub state: StreamState,
    /// The number of the next packet to send.
    pub send_seq: u64,
    /// The number of the packet that is due.
    pub recv_seq: u64,
    pub unacked: Vec<UnackedPacket>,
    /// How long a packet waits for its acknowledgement, in nanoseconds.
    pub rto: u64,
    pub retransmit_count: u32,
    pub last_activity: Instant,
    /// The packets that came before they were due, each with its number.
    pub recv_buffer: Vec<(u64, Vec<u8>)>,
    pub send_window: SendWindow,
    pub recv_window: ReceiveWindow,
    /// How often each acknowledgement has come.
    pub dup_ack_count: HashMap<u64, u32>,
    /// The acknowledgements among them behind which a packet has gone out again.
    pub answered: HashSet<u64>,
    pub congestion: CongestionControl,
}

impl View for ManagedStream {
    type V = StreamModel;

    open spec fn view(&self) -> StreamModel {
        StreamModel {
            state: self.state,
            send_seq: self.send_seq as nat,
            recv_seq: self.recv_seq as nat,
            unacked: unacked_models(self.unacked@),
            rto: self.rto as nat,
            retransmit_count: self.retransmit_count as nat,
            last_activity: self.last_activity,
            recv_buffer: buffer_models(self.recv_buffer@),
            send_window: self.send_window@,
            recv_window: self.recv_window@,
            dup_acks: self.dup_ack_count@,
            answered: self.answered@,
            congestion: self.congestion@,
        }
    }
}

impl ManagedStream {
    /// A stream on which nothing has happened.
    pub fn new(state: StreamState, now: Instant) -> (stream: ManagedStream)
        ensures
            stream@ == StreamModel::fresh(state, now),
            stream@.wf(),
    {
        let stream = ManagedStream {
            state,
            send_seq: 0,
            recv_seq: 0,
            unacked: Vec::new(),
            rto: INITIAL_RTO,
            retransmit_count: 0,
            last_activity: now,
            recv_buffer: Vec::new(),
            send_window: SendWindow::new(STREAM_WINDOW),
            recv_window: ReceiveWindow::new(STREAM_WINDOW),
            dup_ack_count: HashMap::new(),
            answered: HashSet::new(),
            congestion: CongestionControl::new(),
        };
        assert(stream@ =~= StreamModel::fresh(state, now));
        stream
    }

    /// Takes a packet for sending where both windows have room.
    fn record(&mut self, seq: u64, payload: Vec<u8>, now: Instant)
        requires
            old(self)@.wf(),
            old(self)@.send_window.unacked + payload@.len() <= usize::MAX,
        ensures
            final(self)@ == old(self)@.after_record(seq, payload@, now),
            final(self)@.wf(),
    {
        let ghost before = self@;
        let len: usize = payload.len();
        if !self.send_window.try_send(len) {
            assert(self@ =~= before.after_record(seq, payload@, now));
            return;
        }
        if !self.congestion.can_send(len) {
            assert(self@ =~= before.after_record(seq, payload@, now));
            return;
        }
        let ghost sent = UnackedModel { seq, payload: payload@, sent_at: now, retransmits: 0 };
        self.unacked.push(UnackedPacket { seq, payload, sent_at: now, retransmits: 0 });
        self.last_activity = now;
        self.congestion.on_packet_sent(len);
        proof {
            model::lemma_queue_push(before.unacked, sent, 0);
            assert(self@ =~= before.after_record(seq, sent.payload, now));
        }
    }

    /// The bytes of the packets that an acknowledgement covers.
    fn acked_bytes(&self, ack_num: u64) -> (bytes: usize)
        requires
            self@.wf(),
        ensures
            bytes == self@.acked_bytes(ack_num),
    {
        let mut bytes: usize = 0;
        let mut i: usize = 0;
        let ghost queue = unacked_models(self.unacked@);
        assert(queue.take(0) =~= Seq::empty());
        proof {
            reveal(Seq::filter);
        }
        while i < self.unacked.len()
            invariant
                i <= self.unacked.len(),
                self@.wf(),
                queue == unacked_models(self.unacked@),
                bytes == model::bytes_of(model::covered(queue.take(i as int), ack_num)),
            decreases self.unacked.len() - i,
        {
            proof {
                assert(queue.take(i + 1) =~= queue.take(i as int).push(queue[i as int]));
                model::lemma_queue_push(queue.take(i as int), queue[i as int], ack_num);
                model::lemma_queue_push(
                    model::covered(queue.take(i as int), ack_num),
                    queue[i as int],
                    ack_num,
                );
                model::lemma_queue_parts(queue.take(i + 1), ack_num);
                model::lemma_bytes_of_take(queue, i + 1);
            }
            if self.unacked[i].seq <= ack_num {
                bytes = bytes + self.unacked[i].payload.len();
            }
            i = i + 1;
        }
        assert(queue.take(i as int) =~= queue);
        bytes
    }

    /// Takes the packets that an acknowledgement covers off the queue.
    fn drop_covered(&mut self, ack_num: u64)
        ensures
            final(self)@ == (StreamModel {
                unacked: model::uncovered(old(self)@.unacked, ack_num),
                ..old(self)@
            }),
    {
        let ghost before = self@;
        let mut queue: Vec<UnackedPacket> = Vec::new();
        std::mem::swap(&mut queue, &mut self.unacked);
        let ghost models = unacked_models(queue@);
        assert(models.take(0) =~= Seq::empty());
        proof {
            reveal(Seq::filter);
        }
        assert(unacked_models(self.unacked@) =~= model::uncovered(models.take(0), ack_num));
        let ghost all = queue@;
        assert(self@ =~= StreamModel {
            unacked: model::uncovered(models.take(0), ack_num),
            ..before
        });
        for p in it: queue
            invariant
                it.seq() == all,
                models == unacked_models(all),
                self@ == (StreamModel {
                    unacked: model::uncovered(models.take(it.index()), ack_num),
                    ..before
                }),
        {
            let ghost i = it.index();
            let ghost kept = self.unacked@;
            proof {
                assert(models.take(i + 1) =~= models.take(i).push(models[i]));
                model::lemma_queue_push(models.take(i), models[i], ack_num);
            }
            if p.seq > ack_num {
                self.unacked.push(p);
                assert(unacked_models(self.unacked@) =~= unacked_models(kept).push(p@));
            }
            assert(self@ =~= StreamModel {
                unacked: model::uncovered(models.take(i + 1), ack_num),
                ..before
            });
        }
        assert(models.take(all.len() as int) =~= models);
    }

    /// Takes an acknowledgement.
    fn ack(&mut self, ack_num: u64)
        requires
            old(self)@.wf(),
            old(self)@.ack_fits(ack_num),
        ensures
            final(self)@ == old(self)@.after_ack(ack_num),
            final(self)@.wf(),
    {
        let ghost before = self@;
        let count: u32 = match self.dup_ack_count.get(&ack_num) {
            Some(n) => *n + 1,
            None => 1,
        };
        self.dup_ack_count.insert(ack_num, count);
        if count >= DUP_ACK_LIMIT {
            self.rto = INITIAL_RTO;
        }
        let bytes: usize = self.acked_bytes(ack_num);
        let before_len: usize = self.unacked.len();
        self.drop_covered(ack_num);
        proof {
            model::lemma_queue_parts(before.unacked, ack_num);
        }
        if self.unacked.len() < before_len {
            self.rto = INITIAL_RTO;
            self.retransmit_count = 0;
            self.dup_ack_count.clear();
            self.answered.clear();
            self.send_window.on_ack(ack_num, bytes);
            self.congestion.on_ack(bytes);
        } else {
            assert(self.unacked@.len() == self@.unacked.len());
            proof {
                model::lemma_uncovered_all(before.unacked, ack_num);
            }
        }
        assert(self@ =~= before.after_ack(ack_num));
    }

    /// Counts the payloads as read.
    fn consume_all(&mut self, payloads: &Vec<Vec<u8>>)
        requires
            old(self)@.recv_window.read_offset + model::total_len(payload_models(payloads@))
                <= u64::MAX,
        ensures
            final(self)@ == (StreamModel {
                recv_window: model::consumed(old(self)@.recv_window, payload_models(payloads@)),
                ..old(self)@
            }),
    {
        let ghost before = self@;
        let ghost models = payload_models(payloads@);
        let mut i: usize = 0;
        assert(models.skip(0) =~= models);
        assert(self@ =~= StreamModel { recv_window: self@.recv_window, ..before });
        while i < payloads.len()
            invariant
                i <= payloads.len(),
                models == payload_models(payloads@),
                self@ == (StreamModel { recv_window: self@.recv_window, ..before }),
                self@.recv_window.read_offset + model::total_len(models.skip(i as int)) <= u64::MAX,
                model::consumed(self@.recv_window, models.skip(i as int)) == model::consumed(
                    before.recv_window,
                    models,
                ),
            decreases payloads.len() - i,
        {
            assert(models.skip(i as int).drop_first() =~= models.skip(i + 1));
            assert(models.skip(i as int)[0] == models[i as int]);
            self.recv_window.consume(payloads[i].len());
            assert(self@ =~= StreamModel { recv_window: self@.recv_window, ..before });
            i = i + 1;
        }
        assert(models.skip(i as int) =~= Seq::empty());
    }

    /// Whether a packet that is not due yet is kept.
    fn is_early(&self, seq: u64) -> (yes: bool)
        ensures
            yes == self@.is_early(seq),
    {
        seq_gt_u64(seq, self.recv_seq) && if self.recv_seq <= u64::MAX - REORDER_SPAN {
            seq < self.recv_seq + REORDER_SPAN
        } else {
            seq >= self.recv_seq || seq < self.recv_seq.wrapping_add(REORDER_SPAN)
        }
    }

    /// Takes a data packet and hands out what is due.
    fn receive(&mut self, seq: u64, payload: Vec<u8>, now: Instant) -> (due: Vec<Vec<u8>>)
        requires
            old(self)@.wf(),
            old(self)@.data_fits(seq, payload@),
        ensures
            final(self)@ == old(self)@.after_data(seq, payload@, now),
            payload_models(due@) == old(self)@.delivered(seq, payload@),
            final(self)@.wf(),
    {
        let ghost before = self@;
        let ghost bytes = payload@;
        let mut due: Vec<Vec<u8>> = Vec::new();
        assert(payload_models(due@) =~= Seq::empty());
        if !self.recv_window.try_receive(payload.len()) {
            assert(self@ =~= before);
            return due;
        }
        self.last_activity = now;
        if seq_lt_u64(seq, self.recv_seq) {
            assert(self@ =~= before.after_data(seq, bytes, now));
            return due;
        }
        if seq == self.recv_seq {
            proof {
                model::lemma_nth(before.recv_seq, 1, 0);
                model::lemma_drain_counts(
                    model::by_seq(before.recv_buffer),
                    model::nth(before.recv_seq, 1),
                );
                model::lemma_by_seq_len(before.recv_buffer);
            }
            sort_by_seq(&mut self.recv_buffer);
            due.push(payload);
            let (mut waiting, next) = take_due(
                &mut self.recv_buffer,
                self.recv_seq.wrapping_add(1),
            );
            due.append(&mut waiting);
            assert(payload_models(due@) =~= before.delivered(seq, bytes));
            self.recv_seq = next;
            let ghost advanced = self@;
            self.consume_all(&due);
            proof {
                model::lemma_consumed_wf(advanced.recv_window, payload_models(due@));
            }
            assert(self@ =~= before.after_data(seq, bytes, now));
        } else if self.is_early(seq) {
            self.recv_buffer.push((seq, payload));
            assert(buffer_models(self.recv_buffer@) =~= before.recv_buffer.push((seq, bytes)));
            if self.recv_buffer.len() > REORDER_LIMIT {
                self.recv_buffer.truncate(REORDER_LIMIT);
                assert(buffer_models(self.recv_buffer@) =~= before.recv_buffer.push(
                    (seq, bytes),
                ).take(REORDER_LIMIT as int));
            }
            assert(self@ =~= before.after_data(seq, bytes, now));
        } else {
            assert(self@ =~= before.after_data(seq, bytes, now));
        }
        due
    }

    /// The numbers whose acknowledgement has come so often that the packet behind
    /// them counts as lost, and behind which none has gone out again yet.
    fn hinted_numbers(&self) -> (hints: Vec<u64>)
        ensures
            hints@.to_set() == self@.hints(),
    {
        let mut keys: Vec<u64> = Vec::new();
        for a in it: self.dup_ack_count.keys()
            invariant
                keys@ == it.seq().unref().take(it.index()),
            ensures
                keys@ == it.seq().unref(),
        {
            keys.push(*a);
            assert(it.seq().unref().take(it.index() + 1) =~= it.seq().unref().take(
                it.index(),
            ).push(*a));
        }
        assert(keys@.to_set() =~= self.dup_ack_count@.dom());
        let mut hints: Vec<u64> = Vec::new();
        let mut i: usize = 0;
        while i < keys.len()
            invariant
                i <= keys@.len(),
                keys@.to_set() == self.dup_ack_count@.dom(),
                forall|n: u64| #[trigger]
                    hints@.contains(n) <==> keys@.take(i as int).contains(n)
                        && self@.hints().contains(n),
            decreases keys.len() - i,
        {
            let ghost before = hints@;
            let ghost a = keys@[i as int];
            let ghost seen = keys@.take(i as int);
            proof {
                assert(keys@.take(i + 1) =~= seen.push(a));
                lemma_push_contains(seen, a);
                lemma_push_contains(before, a);
                assert(keys@.to_set().contains(a));
            }
            if let Some(n) = self.dup_ack_count.get(&keys[i]) {
                if *n >= DUP_ACK_LIMIT && !self.answered.contains(&keys[i]) {
                    hints.push(keys[i]);
                }
            }
            i = i + 1;
            assert forall|n: u64| #[trigger]
                hints@.contains(n) <==> keys@.take(i as int).contains(n) && self@.hints().contains(
                    n,
                ) by {
                assert(before.contains(n) <==> seen.contains(n) && self@.hints().contains(n));
                assert(before.push(a).contains(n) <==> before.contains(n) || n == a);
                assert(seen.push(a).contains(n) <==> seen.contains(n) || n == a);
            }
        }
        assert(keys@.take(i as int) =~= keys@);
        assert(hints@.to_set() =~= self@.hints()) by {
            assert forall|n: u64| self@.hints().contains(n) implies hints@.contains(n) by {
                assert(keys@.to_set().contains(n));
            }
        }
        hints
    }

    /// Notes that the packet behind the numbers below `seq` has gone out again.
    fn answer(&mut self, hints: &Vec<u64>, seq: u64)
        ensures
            final(self)@ == (StreamModel {
                answered: old(self)@.answered.union(model::hints_below(hints@.to_set(), seq)),
                ..old(self)@
            }),
    {
        let ghost before = self@;
        let mut i: usize = 0;
        assert(hints@.take(0) =~= Seq::empty());
        assert(self@.answered =~= before.answered.union(
            model::hints_below(hints@.take(0).to_set(), seq),
        ));
        while i < hints.len()
            invariant
                i <= hints@.len(),
                self@ == (StreamModel {
                    answered: before.answered.union(
                        model::hints_below(hints@.take(i as int).to_set(), seq),
                    ),
                    ..before
                }),
            decreases hints.len() - i,
        {
            let ghost done = hints@.take(i as int);
            proof {
                assert(hints@.take(i + 1) =~= done.push(hints@[i as int]));
                lemma_push_contains(done, hints@[i as int]);
            }
            if hints[i] < seq {
                self.answered.insert(hints[i]);
            }
            i = i + 1;
            assert(self@.answered =~= before.answered.union(
                model::hints_below(hints@.take(i as int).to_set(), seq),
            ));
        }
        assert(hints@.take(i as int) =~= hints@);
    }

    /// Sends the packets again that are due, and says whether one of them has
    /// been sent too often.
    fn resend(&mut self, id: u16, now: Instant) -> (out: (Vec<(u16, Packet)>, bool))
        requires
            old(self)@.wf(),
            old(self)@.resend_fits(now),
        ensures
            final(self)@ == old(self)@.after_resend(now),
            resent_models(out.0@) == old(self)@.resent(id, now),
            out.1 == old(self)@.rescanned(now).dead,
            final(self)@.wf(),
    {
        let ghost before = self@;
        let ghost queue = before.unacked;
        let ghost scan = before.rescanned(now);
        let ghost mut sent: Seq<UnackedModel> = Seq::empty();
        let ack_num: u64 = self.recv_seq.saturating_sub(1);
        let mut hints: Vec<u64> = self.hinted_numbers();
        let ghost mut answered: Set<u64> = Set::empty();
        let mut packets: Vec<(u16, Packet)> = Vec::new();
        let mut dead = false;
        let mut i: usize = 0;
        proof {
            assert(queue.skip(0) =~= queue);
            assert(queue.take(0) + scan.unacked =~= scan.unacked);
            assert(sent + scan.sent =~= scan.sent);
            assert(answered.union(scan.answered) =~= scan.answered);
            assert(before.answered.union(answered) =~= before.answered);
            assert(resent_models(packets@) =~= sent.map_values(before.as_resent(id)));
        }
        while !dead && i < self.unacked.len()
            invariant
                i <= self.unacked@.len() == queue.len(),
                queue == before.unacked,
                scan == before.rescanned(now),
                before.resend_fits(now),
                ack_num == before.current_ack(),
                self@ == (StreamModel {
                    unacked: self@.unacked,
                    rto: self@.rto,
                    retransmit_count: before.retransmit_count + sent.len(),
                    answered: before.answered.union(answered),
                    ..before
                }),
                self@.unacked.skip(i as int) == queue.skip(i as int),
                resent_models(packets@) == sent.map_values(before.as_resent(id)),
                dead ==> scan == (Rescan {
                    unacked: self@.unacked,
                    sent,
                    rto: self@.rto,
                    dead: true,
                    answered,
                }),
                !dead ==> {
                    let rest = model::rescan(
                        queue.skip(i as int),
                        hints@.to_set(),
                        self@.rto,
                        now,
                    );
                    &&& scan.unacked == self@.unacked.take(i as int) + rest.unacked
                    &&& scan.sent == sent + rest.sent
                    &&& scan.rto == rest.rto
                    &&& scan.dead == rest.dead
                    &&& scan.answered == answered.union(rest.answered)
                },
            decreases self.unacked@.len() - i, (if dead { 0int } else { 1int }),
        {
            let ghost rest = queue.skip(i as int);
            let ghost head = rest[0];
            let ghost models = self@.unacked;
            proof {
                assert(head == queue[i as int]);
                assert(models.skip(i as int)[0] == models[i as int]);
                assert(self.unacked@[i as int]@ == head);
                assert(rest.drop_first() =~= queue.skip(i + 1));
                assert(models.skip(i as int).drop_first() =~= models.skip(i + 1));
            }
            let seq: u64 = self.unacked[i].seq;
            let waited = now.duration_since(self.unacked[i].sent_at) >= self.rto;
            let fresh = self.unacked[i].retransmits < MAX_RETRANSMITS;
            if !waited && !(fresh && is_hinted(&hints, seq)) {
                keep_from(&mut hints, seq);
                i = i + 1;
                proof {
                    let tail = model::rescan(
                        queue.skip(i as int),
                        hints@.to_set(),
                        self@.rto,
                        now,
                    );
                    assert(models.take(i - 1) + (seq![head] + tail.unacked) =~= models.take(
                        i as int,
                    ) + tail.unacked);
                }
            } else if !fresh {
                dead = true;
                proof {
                    assert(models.take(i as int) + rest =~= models);
                    assert(sent + Seq::<UnackedModel>::empty() =~= sent);
                    assert(answered.union(Set::empty()) =~= answered);
                }
            } else {
                let ghost below = model::hints_below(hints@.to_set(), seq);
                let ghost answered_before = answered;
                self.answer(&hints, seq);
                keep_from(&mut hints, seq);
                let payload: Vec<u8> = slice_to_vec(self.unacked[i].payload.as_slice());
                let p = &mut self.unacked[i];
                p.sent_at = now;
                p.retransmits = p.retransmits + 1;
                self.retransmit_count = self.retransmit_count + 1;
                self.rto = if self.rto <= MAX_RTO / 2 {
                    self.rto * 2
                } else {
                    MAX_RTO
                };
                let ghost packets_before = packets@;
                packets.push(
                    (
                        id,
                        Packet {
                            flags: FLAG_DATA | FLAG_ACK,
                            connection_id: 0,
                            stream_id: id,
                            seq_num: seq,
                            ack_num,
                            payload,
                        },
                    ),
                );
                i = i + 1;
                proof {
                    let marked = UnackedModel {
                        sent_at: now,
                        retransmits: (head.retransmits + 1) as u32,
                        ..head
                    };
                    let tail = model::rescan(
                        queue.skip(i as int),
                        hints@.to_set(),
                        self@.rto,
                        now,
                    );
                    assert(self@.unacked =~= models.update(i - 1, marked));
                    assert(models.take(i - 1) + (seq![marked] + tail.unacked)
                        =~= self@.unacked.take(i as int) + tail.unacked);
                    assert(self@.unacked.skip(i as int) =~= models.skip(i as int));
                    assert(sent + (seq![head] + tail.sent) =~= sent.push(head) + tail.sent);
                    let sent_before = sent;
                    sent = sent.push(head);
                    answered = answered.union(below);
                    assert(before.answered.union(answered_before).union(below)
                        =~= before.answered.union(answered));
                    assert(answered_before.union(below.union(tail.answered)) =~= answered.union(
                        tail.answered,
                    ));
                    assert(resent_models(packets@) =~= resent_models(packets_before).push(
                        before.as_resent(id)(head),
                    ));
                    assert(sent.map_values(before.as_resent(id)) =~= sent_before.map_values(
                        before.as_resent(id),
                    ).push(before.as_resent(id)(head)));
                    assert(self@ =~= StreamModel {
                        unacked: self@.unacked,
                        rto: self@.rto,
                        retransmit_count: before.retransmit_count + sent.len(),
                        answered: before.answered.union(answered),
                        ..before
                    });
                }
            }
        }
        proof {
            if !dead {
                assert(queue.skip(i as int) =~= Seq::empty());
                assert(self@.unacked.take(i as int) + Seq::<UnackedModel>::empty()
                    =~= self@.unacked);
                assert(sent + Seq::<UnackedModel>::empty() =~= sent);
                assert(answered.union(Set::empty()) =~= answered);
            }
            model::lemma_rescan_keeps_bytes(queue, before.hints(), before.rto, now);
            model::lemma_rescan_answers(queue, before.hints(), before.rto, now);
            assert(sent.len() == packets@.len()) by {
                assert(resent_models(packets@).len() == packets@.len());
            }
        }
        if packets.len() > 0 {
            self.congestion.on_loss();
        }
        assert(self@ =~= before.after_resend(now));
        (packets, dead)
    }

    /// Whether the counters can take an acknowledgement.
    fn ack_fits(&self, ack_num: u64) -> (yes: bool)
        requires
            self@.wf(),
        ensures
            yes == self@.ack_fits(ack_num),
    {
        let count: u32 = match self.dup_ack_count.get(&ack_num) {
            Some(n) => *n,
            None => 0,
        };
        if count == u32::MAX {
            return false;
        }
        let ghost queue = self@.unacked;
        let mut kept: usize = 0;
        let mut i: usize = 0;
        proof {
            reveal(Seq::filter);
            assert(queue.take(0) =~= Seq::empty());
        }
        while i < self.unacked.len()
            invariant
                kept <= i <= self.unacked.len(),
                queue == self@.unacked,
                kept == model::uncovered(queue.take(i as int), ack_num).len(),
            decreases self.unacked.len() - i,
        {
            proof {
                assert(queue.take(i + 1) =~= queue.take(i as int).push(queue[i as int]));
                model::lemma_queue_push(queue.take(i as int), queue[i as int], ack_num);
            }
            if self.unacked[i].seq > ack_num {
                kept = kept + 1;
            }
            i = i + 1;
        }
        assert(queue.take(i as int) =~= queue);
        kept == self.unacked.len() || self.congestion.ack_fits(self.acked_bytes(ack_num))
    }

    /// Whether the counters can take a data packet.
    fn data_fits(&self, seq: u64, payload: &Vec<u8>) -> (yes: bool)
        requires
            self@.wf(),
        ensures
            yes == self@.data_fits(seq, payload@),
    {
        if payload.len() > usize::MAX - self.recv_window.buffered_bytes() {
            return false;
        }
        if payload.len() > self.recv_window.window_available() {
            return true;
        }
        if seq != self.recv_seq {
            return true;
        }
        let mut buffer = copy_buffer(&self.recv_buffer);
        sort_by_seq(&mut buffer);
        let (waiting, _) = take_due(&mut buffer, seq.wrapping_add(1));
        let ghost due = self@.delivered(seq, payload@);
        assert(due.drop_first() =~= payload_models(waiting@));
        let len: u64 = payload.len() as u64;
        let offset: u64 = self.recv_window.read_offset();
        len <= u64::MAX - offset && count_bytes(&waiting, offset + len).is_some()
    }

    /// Whether the counter can take the packets that go out again.
    fn resend_fits(&self, now: Instant) -> (yes: bool)
        ensures
            yes == self@.resend_fits(now),
    {
        let ghost queue = self@.unacked;
        let ghost scan = self@.rescanned(now);
        let mut room: u32 = u32::MAX - self.retransmit_count;
        let mut rto: u64 = self.rto;
        let mut hints: Vec<u64> = self.hinted_numbers();
        let mut i: usize = 0;
        assert(queue.skip(0) =~= queue);
        while i < self.unacked.len()
            invariant
                i <= self.unacked.len(),
                queue == self@.unacked,
                scan == self@.rescanned(now),
                u32::MAX - self.retransmit_count - scan.sent.len() == room - model::rescan(
                    queue.skip(i as int),
                    hints@.to_set(),
                    rto as nat,
                    now,
                ).sent.len(),
            decreases self.unacked.len() - i,
        {
            proof {
                assert(queue.skip(i as int)[0] == queue[i as int]);
                assert(self.unacked@[i as int]@ == queue[i as int]);
                assert(queue.skip(i as int).drop_first() =~= queue.skip(i + 1));
            }
            let seq: u64 = self.unacked[i].seq;
            let waited = now.duration_since(self.unacked[i].sent_at) >= rto;
            let fresh = self.unacked[i].retransmits < MAX_RETRANSMITS;
            if waited && !fresh {
                return true;
            }
            if fresh && (waited || is_hinted(&hints, seq)) {
                if room == 0 {
                    return false;
                }
                room = room - 1;
                rto = if rto <= MAX_RTO / 2 {
                    rto * 2
                } else {
                    MAX_RTO
                };
            }
            keep_from(&mut hints, seq);
            i = i + 1;
        }
        assert(queue.skip(i as int) =~= Seq::empty());
        true
    }
}

proof fn lemma_push_contains(row: Seq<u64>, a: u64)
    ensures
        forall|n: u64| row.push(a).contains(n) <==> row.contains(n) || n == a,
{
    assert forall|n: u64| row.push(a).contains(n) <==> row.contains(n) || n == a by {
        if row.contains(n) {
            let j = choose|j: int| 0 <= j < row.len() && row[j] == n;
            assert(row.push(a)[j] == n);
        }
        assert(row.push(a)[row.len() as int] == a);
    }
}

/// Whether a packet comes after one of the numbers.
fn is_hinted(hints: &Vec<u64>, seq: u64) -> (yes: bool)
    ensures
        yes == model::is_hinted(hints@.to_set(), seq),
{
    let mut i: usize = 0;
    while i < hints.len()
        invariant
            i <= hints@.len(),
            forall|j: int| 0 <= j < i ==> (#[trigger] hints@[j]) >= seq,
        decreases hints.len() - i,
    {
        if hints[i] < seq {
            assert(hints@.to_set().contains(hints@[i as int]));
            return true;
        }
        i = i + 1;
    }
    assert forall|a: u64| #[trigger] hints@.to_set().contains(a) implies a >= seq by {
        let j = choose|j: int| 0 <= j < hints@.len() && hints@[j] == a;
        assert(hints@[j] >= seq);
    }
    false
}

/// Keeps the numbers from `seq` on.
fn keep_from(hints: &mut Vec<u64>, seq: u64)
    ensures
        final(hints)@.to_set() == model::hints_from(old(hints)@.to_set(), seq),
{
    let ghost all = hints@;
    let mut left: Vec<u64> = Vec::new();
    let mut i: usize = 0;
    while i < hints.len()
        invariant
            i <= hints@.len(),
            hints@ == all,
            forall|n: u64| #[trigger]
                left@.contains(n) <==> all.take(i as int).contains(n) && n >= seq,
        decreases hints.len() - i,
    {
        proof {
            assert(all.take(i + 1) =~= all.take(i as int).push(all[i as int]));
            lemma_push_contains(all.take(i as int), all[i as int]);
            lemma_push_contains(left@, all[i as int]);
        }
        let ghost before = left@;
        let ghost a = all[i as int];
        if hints[i] >= seq {
            left.push(hints[i]);
        }
        i = i + 1;
        assert forall|n: u64| #[trigger] left@.contains(n) <==> all.take(i as int).contains(n) && n
            >= seq by {
            assert(before.contains(n) <==> all.take(i - 1).contains(n) && n >= seq);
            assert(before.push(a).contains(n) <==> before.contains(n) || n == a);
            assert(all.take(i - 1).push(a).contains(n) <==> all.take(i - 1).contains(n) || n == a);
        }
    }
    assert(all.take(i as int) =~= all);
    *hints = left;
    assert(hints@.to_set() =~= model::hints_from(all.to_set(), seq));
}

/// Where the first packet of a number stands.
fn position(buffer: &Vec<(u64, Vec<u8>)>, seq: u64) -> (at: Option<usize>)
    ensures
        match at {
            Some(i) => model::is_first(buffer_models(buffer@), seq as nat, i as int),
            None => !model::holds(buffer_models(buffer@), seq as nat),
        },
{
    let ghost models = buffer_models(buffer@);
    let mut i: usize = 0;
    while i < buffer.len()
        invariant
            i <= buffer.len(),
            models == buffer_models(buffer@),
            forall|j: int| 0 <= j < i ==> (#[trigger] models[j]).0 != seq,
        decreases buffer.len() - i,
    {
        assert(models[i as int].0 == buffer@[i as int].0);
        if buffer[i].0 == seq {
            return Some(i);
        }
        i = i + 1;
    }
    None
}

/// Where a packet goes in a sorted buffer: after its equals.
fn rank_of(buffer: &Vec<(u64, Vec<u8>)>, seq: u64) -> (at: usize)
    ensures
        at == model::rank(buffer_models(buffer@), seq),
        at <= buffer@.len(),
{
    let ghost models = buffer_models(buffer@);
    let mut n: usize = buffer.len();
    assert(models.take(n as int) =~= models);
    while n > 0 && buffer[n - 1].0 > seq
        invariant
            n <= buffer@.len(),
            models == buffer_models(buffer@),
            model::rank(models.take(n as int), seq) == model::rank(models, seq),
        decreases n,
    {
        assert(models.take(n as int).drop_last() =~= models.take(n - 1));
        assert(models.take(n as int).last() == models[n - 1]);
        n = n - 1;
    }
    if n > 0 {
        assert(models.take(n as int).last() == models[n - 1]);
    }
    n
}

/// Sorts a buffer by sequence number; equals keep their order.
fn sort_by_seq(buffer: &mut Vec<(u64, Vec<u8>)>)
    ensures
        buffer_models(final(buffer)@) == model::by_seq(buffer_models(old(buffer)@)),
{
    let mut unsorted: Vec<(u64, Vec<u8>)> = Vec::new();
    std::mem::swap(&mut unsorted, buffer);
    let ghost all = unsorted@;
    let ghost models = buffer_models(all);
    assert(buffer_models(buffer@) =~= model::by_seq(models.take(0)));
    for entry in it: unsorted
        invariant
            it.seq() == all,
            models == buffer_models(all),
            buffer_models(buffer@) == model::by_seq(models.take(it.index())),
    {
        let ghost i = it.index();
        let ghost sorted = buffer@;
        let at: usize = rank_of(buffer, entry.0);
        buffer.insert(at, entry);
        proof {
            assert(models.take(i + 1).drop_last() =~= models.take(i));
            assert(models.take(i + 1).last() == models[i]);
            assert(buffer_models(buffer@) =~= buffer_models(sorted).insert(at as int, models[i]));
        }
    }
    assert(models.take(all.len() as int) =~= models);
}

/// Takes `next`, the packet after it and so on out of a buffer, and says which
/// number is due then.
fn take_due(buffer: &mut Vec<(u64, Vec<u8>)>, next: u64) -> (due: (Vec<Vec<u8>>, u64))
    ensures
        ({
            let drained = model::drain(buffer_models(old(buffer)@), next as nat);
            &&& payload_models(due.0@) == drained.delivered
            &&& due.1 == drained.next
            &&& buffer_models(final(buffer)@) == drained.rest
        }),
{
    let ghost start = buffer_models(buffer@);
    let mut at: u64 = next;
    let mut out: Vec<Vec<u8>> = Vec::new();
    let ghost whole = model::drain(start, next as nat);
    assert(payload_models(out@) + whole.delivered =~= whole.delivered);
    loop
        invariant
            start == buffer_models(old(buffer)@),
            whole == model::drain(start, next as nat),
            whole.next == model::drain(buffer_models(buffer@), at as nat).next,
            whole.rest == model::drain(buffer_models(buffer@), at as nat).rest,
            whole.delivered == payload_models(out@) + model::drain(
                buffer_models(buffer@),
                at as nat,
            ).delivered,
        decreases buffer@.len(),
    {
        let ghost models = buffer_models(buffer@);
        match position(buffer, at) {
            None => {
                assert(payload_models(out@) + Seq::<Seq<u8>>::empty() =~= payload_models(out@));
                return (out, at);
            },
            Some(i) => {
                proof {
                    model::lemma_first_at(models, at as nat, i as int);
                }
                let ghost before = out@;
                let (_, payload) = buffer.remove(i);
                out.push(payload);
                at = at.wrapping_add(1);
                proof {
                    assert(buffer_models(buffer@) =~= models.remove(i as int));
                    assert(payload_models(out@) =~= payload_models(before).push(
                        models[i as int].1,
                    ));
                    assert(whole.delivered =~= payload_models(out@) + model::drain(
                        buffer_models(buffer@),
                        at as nat,
                    ).delivered);
                }
            },
        }
    }
}

/// The bytes of a sequence of payloads; none where they are too many.
fn count_bytes(payloads: &Vec<Vec<u8>>, start: u64) -> (bytes: Option<u64>)
    ensures
        match bytes {
            Some(n) => n == start + model::total_len(payload_models(payloads@)),
            None => start + model::total_len(payload_models(payloads@)) > u64::MAX,
        },
{
    let ghost models = payload_models(payloads@);
    let mut bytes: u64 = start;
    let mut i: usize = 0;
    assert(models.skip(0) =~= models);
    while i < payloads.len()
        invariant
            i <= payloads.len(),
            models == payload_models(payloads@),
            start + model::total_len(models) == bytes + model::total_len(models.skip(i as int)),
        decreases payloads.len() - i,
    {
        assert(models.skip(i as int).drop_first() =~= models.skip(i + 1));
        assert(models.skip(i as int)[0] == models[i as int]);
        let len: u64 = payloads[i].len() as u64;
        if len > u64::MAX - bytes {
            return None;
        }
        bytes = bytes + len;
        i = i + 1;
    }
    Some(bytes)
}

/// Packets that go out again, each with its stream and what it says.
pub open spec fn resent_models(packets: Seq<(u16, Packet)>) -> Seq<(u16, PacketModel)> {
    packets.map_values(|entry: (u16, Packet)| (entry.0, entry.1@))
}

/// A copy of a buffer.
fn copy_buffer(buffer: &Vec<(u64, Vec<u8>)>) -> (copy: Vec<(u64, Vec<u8>)>)
    ensures
        buffer_models(copy@) == buffer_models(buffer@),
{
    let mut copy: Vec<(u64, Vec<u8>)> = Vec::new();
    let mut i: usize = 0;
    while i < buffer.len()
        invariant
            i <= buffer.len(),
            copy@.len() == i,
            forall|j: int|
                0 <= j < i ==> (#[trigger] copy@[j]).0 == buffer@[j].0 && copy@[j].1@
                    == buffer@[j].1@,
        decreases buffer.len() - i,
    {
        copy.push((buffer[i].0, slice_to_vec(buffer[i].1.as_slice())));
        i = i + 1;
    }
    assert(buffer_models(copy@) =~= buffer_models(buffer@));
    copy
}

/// The streams, each by its model.
pub open spec fn stream_models(streams: Map<u16, ManagedStream>) -> Map<u16, StreamModel> {
    streams.map_values(|s: ManagedStream| s@)
}

proof fn lemma_models_insert(streams: Map<u16, ManagedStream>, id: u16, stream: ManagedStream)
    ensures
        stream_models(streams.insert(id, stream)) == stream_models(streams).insert(id, stream@),
{
    assert(stream_models(streams.insert(id, stream)) =~= stream_models(streams).insert(
        id,
        stream@,
    ));
}

proof fn lemma_models_remove(streams: Map<u16, ManagedStream>, id: u16)
    ensures
        stream_models(streams.remove(id)) == stream_models(streams).remove(id),
{
    assert(stream_models(streams.remove(id)) =~= stream_models(streams).remove(id));
}

/// All streams of a tunnel.
pub struct StreamManager {
    pub streams: HashMap<u16, ManagedStream>,
    pub next_stream_id: u16,
    pub last_activity: Instant,
    pub ping_loss_count: u32,
    pub last_ping_sent: Option<Instant>,
    pub clock: Clock,
}

impl View for StreamManager {
    type V = ManagerModel;

    open spec fn view(&self) -> ManagerModel {
        ManagerModel {
            streams: stream_models(self.streams@),
            next_stream_id: self.next_stream_id,
            last_activity: self.last_activity,
            ping_loss_count: self.ping_loss_count as nat,
            last_ping_sent: self.last_ping_sent,
            created: self.clock.base(),
        }
    }
}

impl StreamManager {
    /// A manager with the control stream alone. Its clock shows `now`.
    pub fn new(now: Instant) -> (manager: StreamManager)
        ensures
            manager@ == ManagerModel::initial(now),
            manager@.wf(),
    {
        let mut streams: HashMap<u16, ManagedStream> = HashMap::new();
        let ghost none = streams@;
        let control = ManagedStream::new(StreamState::Established, now);
        proof {
            lemma_models_insert(none, CONTROL_STREAM, control);
            assert(stream_models(none) =~= Map::empty());
        }
        streams.insert(CONTROL_STREAM, control);
        StreamManager {
            streams,
            next_stream_id: 1,
            last_activity: now,
            ping_loss_count: 0,
            last_ping_sent: None,
            clock: Clock::start(now),
        }
    }

    /// Takes the next number for a stream.
    fn take_id(&mut self) -> (id: u16)
        ensures
            id == old(self)@.next_stream_id,
            final(self)@ == (ManagerModel { next_stream_id: model::next_id(id), ..old(self)@ }),
    {
        let id: u16 = self.next_stream_id;
        self.next_stream_id = id.wrapping_add(1);
        if self.next_stream_id == CONTROL_STREAM {
            self.next_stream_id = 1;
        }
        id
    }

    /// Opens a stream from this end and gives its number.
    pub fn allocate(&mut self, now: Instant) -> (id: u16)
        requires
            old(self)@.wf(),
        ensures
            id == old(self)@.next_stream_id,
            final(self)@ == old(self)@.after_allocate(now),
            final(self)@.wf(),
    {
        let id: u16 = self.take_id();
        let stream = ManagedStream::new(StreamState::SynSent, now);
        proof {
            lemma_models_insert(self.streams@, id, stream);
        }
        self.streams.insert(id, stream);
        assert(self@ =~= old(self)@.after_allocate(now));
        id
    }

    /// Accepts a stream that the other end opens, under the number that it
    /// proposes where that is free.
    pub fn accept_syn(&mut self, proposed_id: u16, seq: u64, now: Instant) -> (id: u16)
        requires
            old(self)@.wf(),
        ensures
            id == old(self)@.accepted_id(proposed_id),
            final(self)@ == old(self)@.after_syn(proposed_id, seq, now),
            final(self)@.wf(),
    {
        let id: u16 = if proposed_id != CONTROL_STREAM && !self.streams.contains_key(&proposed_id) {
            proposed_id
        } else {
            self.take_id()
        };
        let mut stream = ManagedStream::new(StreamState::Established, now);
        stream.recv_seq = seq.wrapping_add(1);
        proof {
            lemma_models_insert(self.streams@, id, stream);
        }
        self.streams.insert(id, stream);
        assert(self@ =~= old(self)@.after_syn(proposed_id, seq, now));
        id
    }

    /// A stream, to be changed in place.
    pub fn get_mut(&mut self, id: u16) -> (stream: Option<&mut ManagedStream>)
        ensures
            match stream {
                Some(s) => {
                    &&& old(self)@.streams.contains_key(id)
                    &&& s@ == old(self)@.streams[id]
                    &&& *s == old(self).streams@[id]
                    &&& final(self)@ == old(self)@.with(id, final(s)@)
                    &&& final(self).streams@ == old(self).streams@.insert(id, *final(s))
                },
                None => !old(self)@.streams.contains_key(id) && final(self)@ == old(self)@
                    && final(self).streams@ == old(self).streams@,
            },
    {
        proof {
            assert forall|s: ManagedStream| #[trigger]
                stream_models(self.streams@.insert(id, s)) == stream_models(
                    self.streams@,
                ).insert(id, s@) by {
                lemma_models_insert(self.streams@, id, s);
            }
            lemma_models_remove(self.streams@, id);
            if !self.streams@.contains_key(id) {
                assert(self.streams@.remove(id) =~= self.streams@);
            }
        }
        match self.streams.entry(id) {
            Entry::Occupied(entry) => Some(entry.into_mut()),
            Entry::Vacant(_) => None,
        }
    }

    /// Forgets a stream.
    pub fn remove(&mut self, id: u16)
        ensures
            final(self)@ == old(self)@.without(id),
            old(self)@.wf() ==> final(self)@.wf(),
    {
        proof {
            lemma_models_remove(self.streams@, id);
        }
        self.streams.remove(&id);
        assert(self@ =~= old(self)@.without(id));
    }

    /// Takes the number for the next packet of a stream; none where there is
    /// no such stream. After the last number comes the first again.
    pub fn next_send_seq(&mut self, id: u16) -> (seq: Option<u64>)
        ensures
            match seq {
                Some(n) => old(self)@.streams.contains_key(id) && n
                    == old(self)@.streams[id].send_seq,
                None => !old(self)@.streams.contains_key(id),
            },
            final(self)@ == old(self)@.after_next_seq(id),
            old(self)@.wf() ==> final(self)@.wf(),
    {
        match self.get_mut(id) {
            None => None,
            Some(s) => {
                let seq: u64 = s.send_seq;
                s.send_seq = seq.wrapping_add(1);
                Some(seq)
            },
        }
    }

    /// Takes a packet for sending, where its stream has room.
    pub fn record_send(&mut self, id: u16, seq: u64, payload: Vec<u8>, now: Instant)
        requires
            old(self)@.wf(),
            old(self)@.streams.contains_key(id) ==> old(self)@.streams[id].send_window.unacked
                + payload@.len() <= usize::MAX,
        ensures
            final(self)@ == old(self)@.after_record(id, seq, payload@, now),
            final(self)@.wf(),
    {
        if let Some(s) = self.get_mut(id) {
            s.record(seq, payload, now);
        }
    }

    /// Takes an acknowledgement.
    pub fn on_ack(&mut self, sid: u16, ack_num: u64)
        requires
            old(self)@.wf(),
            old(self)@.ack_fits(sid, ack_num),
        ensures
            final(self)@ == old(self)@.after_ack(sid, ack_num),
            final(self)@.wf(),
    {
        if let Some(s) = self.get_mut(sid) {
            s.ack(ack_num);
        }
    }

    /// Whether [`Self::on_ack`] can take an acknowledgement without a counter
    /// running over.
    pub fn ack_fits(&self, sid: u16, ack_num: u64) -> (yes: bool)
        requires
            self@.wf(),
        ensures
            yes == self@.ack_fits(sid, ack_num),
    {
        match self.streams.get(&sid) {
            None => true,
            Some(s) => {
                assert(self@.streams.contains_key(sid) && self@.streams[sid] == s@);
                s.ack_fits(ack_num)
            },
        }
    }

    /// Takes a data packet, at the time that the clock shows, and hands out the
    /// payloads that are due, in order.
    pub fn on_data(&mut self, sid: u16, seq: u64, payload: Vec<u8>) -> (due: Vec<Vec<u8>>)
        requires
            old(self)@.wf(),
            old(self)@.data_fits(sid, seq, payload@),
        ensures
            payload_models(due@) == old(self)@.delivered(sid, seq, payload@),
            exists|now: Instant|
                now.nanos >= old(self)@.created.nanos && final(self)@ == (#[trigger] old(
                    self,
                )@.after_data(sid, seq, payload@, now)),
            final(self)@.wf(),
    {
        let now = self.clock.now();
        self.on_data_at(sid, seq, payload, now)
    }

    /// Takes a data packet and hands out the payloads that are due, in order.
    pub fn on_data_at(&mut self, sid: u16, seq: u64, payload: Vec<u8>, now: Instant) -> (due: Vec<
        Vec<u8>,
    >)
        requires
            old(self)@.wf(),
            old(self)@.data_fits(sid, seq, payload@),
        ensures
            payload_models(due@) == old(self)@.delivered(sid, seq, payload@),
            final(self)@ == old(self)@.after_data(sid, seq, payload@, now),
            final(self)@.wf(),
    {
        match self.get_mut(sid) {
            None => {
                let due: Vec<Vec<u8>> = Vec::new();
                assert(payload_models(due@) =~= Seq::empty());
                due
            },
            Some(s) => s.receive(seq, payload, now),
        }
    }

    /// Whether [`Self::on_data`] can take a data packet without a counter
    /// running over.
    pub fn data_fits(&self, sid: u16, seq: u64, payload: &Vec<u8>) -> (yes: bool)
        requires
            self@.wf(),
        ensures
            yes == self@.data_fits(sid, seq, payload@),
    {
        match self.streams.get(&sid) {
            None => true,
            Some(s) => {
                assert(self@.streams.contains_key(sid) && self@.streams[sid] == s@);
                s.data_fits(seq, payload)
            },
        }
    }

    /// The last packet that came in order on a stream; 0 where there is none.
    pub fn current_ack(&self, sid: u16) -> (ack: u64)
        ensures
            ack == self@.current_ack(sid),
    {
        match self.streams.get(&sid) {
            None => 0,
            Some(s) => {
                assert(self@.streams[sid] == s@);
                s.recv_seq.saturating_sub(1)
            },
        }
    }

    /// The numbers of the streams, in no particular order.
    fn ids(&self) -> (ids: Vec<u16>)
        ensures
            model::lists(ids@, self@.streams.dom()),
    {
        let mut ids: Vec<u16> = Vec::new();
        for id in it: self.streams.keys()
            invariant
                ids@ == it.seq().unref().take(it.index()),
            ensures
                ids@ == it.seq().unref(),
        {
            ids.push(*id);
            assert(it.seq().unref().take(it.index() + 1) =~= it.seq().unref().take(
                it.index(),
            ).push(*id));
        }
        assert(self@.streams.dom() =~= self.streams@.dom());
        ids
    }

    /// Sends the packets again that are due, stream by stream in no particular
    /// order, and gives up the streams on which one was sent too often.
    pub fn retransmit_due(&mut self, now: Instant) -> (packets: Vec<(u16, Packet)>)
        requires
            old(self)@.wf(),
            old(self)@.resend_fits(now),
        ensures
            exists|ids: Seq<u16>| #[trigger]
                model::lists(ids, old(self)@.streams.dom()) && resent_models(packets@)
                    == model::resent_of(old(self)@.streams, ids, now),
            final(self)@ == old(self)@.after_resend(now),
            final(self)@.wf(),
    {
        let ghost before = self@;
        let ids: Vec<u16> = self.ids();
        let mut packets: Vec<(u16, Packet)> = Vec::new();
        let mut i: usize = 0;
        assert(ids@.take(0) =~= Seq::empty());
        assert(resent_models(packets@) =~= Seq::empty());
        assert(self@.streams =~= before.resent_so_far(Seq::empty(), now));
        while i < ids.len()
            invariant
                i <= ids.len(),
                before.wf(),
                before.resend_fits(now),
                model::lists(ids@, before.streams.dom()),
                self@ == (ManagerModel {
                    streams: before.resent_so_far(ids@.take(i as int), now),
                    ..before
                }),
                resent_models(packets@) == model::resent_of(
                    before.streams,
                    ids@.take(i as int),
                    now,
                ),
            decreases ids.len() - i,
        {
            let id: u16 = ids[i];
            let ghost done = ids@.take(i as int);
            let ghost streams = self.streams@;
            let ghost packets_before = packets@;
            proof {
                assert(ids@.take(i + 1) =~= done.push(id));
                assert(done.push(id).drop_last() =~= done);
                assert(ids@.to_set().contains(id));
                assert(!done.contains(id)) by {
                    if done.contains(id) {
                        let j = choose|j: int| 0 <= j < done.len() && done[j] == id;
                        assert(ids@[j] == ids@[i as int]);
                    }
                }
                assert(self@.streams.contains_key(id));
                assert(self@.streams[id] == before.streams[id]);
                lemma_models_remove(streams, id);
            }
            if let Some(mut stream) = self.streams.remove(&id) {
                assert(stream@ == before.streams[id]);
                let (mut sent, dead) = stream.resend(id, now);
                let ghost sent_models = resent_models(sent@);
                packets.append(&mut sent);
                assert(resent_models(packets@) =~= resent_models(packets_before) + sent_models);
                if !dead {
                    proof {
                        lemma_models_insert(self.streams@, id, stream);
                    }
                    self.streams.insert(id, stream);
                }
            }
            proof {
                assert(self@.streams =~= before.resent_so_far(done.push(id), now)) by {
                    assert forall|k: u16| done.push(id).contains(k) <==> done.contains(k) || k
                        == id by {
                        if done.contains(k) {
                            let j = choose|j: int| 0 <= j < done.len() && done[j] == k;
                            assert(done.push(id)[j] == k);
                        }
                        if k == id {
                            assert(done.push(id)[done.len() as int] == k);
                        }
                    }
                }
            }
            i = i + 1;
        }
        proof {
            assert(ids@.take(i as int) =~= ids@);
            assert(before.resent_so_far(ids@, now) =~= before.after_resend(now).streams) by {
                assert forall|k: u16| before.streams.contains_key(k) implies ids@.contains(k) by {
                    assert(ids@.to_set().contains(k));
                }
            }
            model::lemma_resend_wf(before, now);
        }
        packets
    }

    /// Whether [`Self::retransmit_due`] can count the packets that are due
    /// without running over.
    pub fn resend_fits(&self, now: Instant) -> (yes: bool)
        ensures
            yes == self@.resend_fits(now),
    {
        let ids: Vec<u16> = self.ids();
        let mut i: usize = 0;
        while i < ids.len()
            invariant
                i <= ids.len(),
                model::lists(ids@, self@.streams.dom()),
                forall|j: int| 0 <= j < i ==> self@.streams[#[trigger] ids@[j]].resend_fits(now),
            decreases ids.len() - i,
        {
            assert(ids@.to_set().contains(ids@[i as int]));
            if let Some(s) = self.streams.get(&ids[i]) {
                assert(self@.streams[ids@[i as int]] == s@);
                if !s.resend_fits(now) {
                    return false;
                }
            }
            i = i + 1;
        }
        assert forall|id: u16| #[trigger]
            self@.streams.contains_key(id) implies self@.streams[id].resend_fits(now) by {
            assert(ids@.to_set().contains(id));
        }
        true
    }

    /// Whether a probe is due; one that follows an unanswered one counts that
    /// one as lost.
    pub fn should_send_ping(&mut self, now: Instant) -> (due: bool)
        requires
            old(self)@.is_quiet(now) && old(self)@.is_unanswered(now) ==> old(
                self,
            )@.ping_loss_count < u32::MAX,
        ensures
            due == old(self)@.ping_due(now),
            final(self)@ == old(self)@.after_ping_check(now),
            old(self)@.wf() ==> final(self)@.wf(),
    {
        if now.duration_since(self.last_activity) < KEEPALIVE_INTERVAL {
            return false;
        }
        match self.last_ping_sent {
            None => true,
            Some(last) => {
                if now.duration_since(last) >= KEEPALIVE_INTERVAL {
                    self.ping_loss_count = self.ping_loss_count + 1;
                    true
                } else {
                    false
                }
            },
        }
    }

    /// A probe was sent.
    pub fn mark_ping_sent(&mut self, now: Instant)
        ensures
            final(self)@ == old(self)@.after_ping(now),
            old(self)@.wf() ==> final(self)@.wf(),
    {
        self.last_ping_sent = Some(now);
    }

    /// A probe was answered, at the time that the clock shows.
    pub fn on_pong(&mut self)
        ensures
            exists|now: Instant|
                now.nanos >= old(self)@.created.nanos && final(self)@ == (#[trigger] old(
                    self,
                )@.after_pong(now)),
            old(self)@.wf() ==> final(self)@.wf(),
    {
        let now = self.clock.now();
        self.on_pong_at(now);
    }

    /// A probe was answered.
    pub fn on_pong_at(&mut self, now: Instant)
        ensures
            final(self)@ == old(self)@.after_pong(now),
            old(self)@.wf() ==> final(self)@.wf(),
    {
        self.ping_loss_count = 0;
        self.last_ping_sent = None;
        self.last_activity = now;
    }

    /// Whether too many probes were lost.
    pub fn keepalive_failed(&self) -> (failed: bool)
        ensures
            failed == self@.is_lost(),
    {
        self.ping_loss_count >= MAX_PING_LOSS
    }

    /// The other end has confirmed a stream.
    pub fn set_established(&mut self, id: u16)
        ensures
            final(self)@ == old(self)@.after_established(id),
            old(self)@.wf() ==> final(self)@.wf(),
    {
        if let Some(s) = self.get_mut(id) {
            s.state = StreamState::Established;
        }
    }
}

} // verus!
