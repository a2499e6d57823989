//! What both ends of a tunnel do alike: answer, probe, and send again.

use vstd::prelude::*;
use crate::protocol::packet;
use crate::protocol::packet::{
    Packet, PacketModel, CONTROL_STREAM, FLAG_ACK, FLAG_PING, FLAG_PONG,
};
use crate::protocol::stream;
use crate::protocol::stream::StreamManager;
use crate::protocol::stream_effects;
use crate::protocol::stream_model as model;
use crate::protocol::stream_model::{ManagerModel, StreamModel};
use crate::time;
use crate::time::Instant;

verus! {

/// How often it is looked whether a probe is due, in nanoseconds.
pub const PING_CHECK: u64 = 1_000_000_000;

/// How often it is looked whether packets have to be sent again, in
/// nanoseconds.
pub const RESEND_CHECK: u64 = 100_000_000;

/// A packet without content on the control stream.
pub open spec fn control_packet(flags: u8) -> PacketModel {
    PacketModel {
        flags,
        connection_id: 0,
        stream_id: CONTROL_STREAM,
        seq_num: 0,
        ack_num: 0,
        payload: Seq::empty(),
    }
}

/// The packet that confirms a stream which the other end has opened with `seq`.
pub open spec fn syn_reply(stream_id: u16, seq: u64) -> PacketModel {
    PacketModel {
        flags: FLAG_ACK,
        connection_id: 0,
        stream_id,
        seq_num: 0,
        ack_num: if seq == u64::MAX {
            0
        } else {
            (seq + 1) as u64
        },
        payload: Seq::empty(),
    }
}

fn make_control(flags: u8) -> (p: Packet)
    ensures
        p@ == control_packet(flags),
{
    Packet {
        flags,
        connection_id: 0,
        stream_id: CONTROL_STREAM,
        seq_num: 0,
        ack_num: 0,
        payload: Vec::new(),
    }
}

/// A probe.
pub fn make_ping() -> (p: Packet)
    ensures
        p@ == control_packet(FLAG_PING),
{
    make_control(FLAG_PING)
}

/// The answer to a probe.
pub fn make_pong() -> (p: Packet)
    ensures
        p@ == control_packet(FLAG_PONG),
{
    make_control(FLAG_PONG)
}

/// Confirms a stream which the other end has opened with `seq`.
pub fn make_syn_reply(stream_id: u16, seq: u64) -> (p: Packet)
    ensures
        p@ == syn_reply(stream_id, seq),
{
    Packet {
        flags: FLAG_ACK,
        connection_id: 0,
        stream_id,
        seq_num: 0,
        ack_num: seq.wrapping_add(1),
        payload: Vec::new(),
    }
}

/// The streams of a tunnel, and when they have to be looked at.
#[verifier::ext_equal]
pub struct TunnelModel {
    pub streams: ManagerModel,
    pub next_ping: Instant,
    pub next_resend: Instant,
}

impl TunnelModel {
    /// A new tunnel: both looks are due.
    pub open spec fn initial(now: Instant) -> TunnelModel {
        TunnelModel { streams: ManagerModel::initial(now), next_ping: now, next_resend: now }
    }

    /// Whether it is time to look whether a probe is due.
    pub open spec fn checks_ping(self, now: Instant) -> bool {
        now.nanos >= self.next_ping.nanos
    }

    /// Whether a probe goes out.
    pub open spec fn sends_ping(self, now: Instant) -> bool {
        self.checks_ping(now) && self.streams.ping_due(now)
    }

    /// The streams after the look whether a probe is due.
    pub open spec fn probed(self, now: Instant) -> ManagerModel {
        if !self.checks_ping(now) {
            self.streams
        } else if self.streams.ping_due(now) {
            self.streams.after_ping_check(now).after_ping(now)
        } else {
            self.streams.after_ping_check(now)
        }
    }

    /// Whether the tunnel is given up because too many probes were lost.
    pub open spec fn is_over(self, now: Instant) -> bool {
        self.checks_ping(now) && self.probed(now).is_lost()
    }

    /// Whether it is time to send packets again.
    pub open spec fn resends(self, now: Instant) -> bool {
        !self.is_over(now) && now.nanos >= self.next_resend.nanos
    }

    /// After a look at the clock.
    pub open spec fn after_tick(self, now: Instant) -> TunnelModel {
        TunnelModel {
            streams: if self.resends(now) {
                self.probed(now).after_resend(now)
            } else {
                self.probed(now)
            },
            next_ping: if self.checks_ping(now) && !self.is_over(now) {
                time::later_by(now, PING_CHECK as nat)
            } else {
                self.next_ping
            },
            next_resend: if self.resends(now) {
                time::later_by(now, RESEND_CHECK as nat)
            } else {
                self.next_resend
            },
        }
    }

    /// The probe that goes out, if any.
    pub open spec fn pings(self, now: Instant) -> Seq<PacketModel> {
        if self.sends_ping(now) {
            seq![control_packet(FLAG_PING)]
        } else {
            Seq::empty()
        }
    }

    /// Whether `sent` is what goes out at a look at the clock: the probe, and
    /// then the packets that are due, stream by stream in some order.
    pub open spec fn has_sent(self, now: Instant, sent: Seq<PacketModel>) -> bool {
        if self.resends(now) {
            exists|ids: Seq<u16>| #[trigger]
                model::lists(ids, self.streams.streams.dom()) && sent == self.pings(now)
                    + resent_packets(model::resent_of(self.streams.streams, ids, now))
        } else {
            sent == self.pings(now)
        }
    }

    /// Whether the counters can take a look at the clock.
    pub open spec fn tick_fits(self, now: Instant) -> bool {
        &&& self.checks_ping(now) && self.streams.is_quiet(now) && self.streams.is_unanswered(now)
            ==> self.streams.ping_loss_count < u32::MAX
        &&& self.resends(now) ==> self.streams.resend_fits(now)
    }
}

/// The packets among pairs of a stream and a packet.
pub open spec fn resent_packets(pairs: Seq<(u16, PacketModel)>) -> Seq<PacketModel> {
    pairs.map_values(|p: (u16, PacketModel)| p.1)
}

/// The streams of a tunnel, and when they have to be looked at.
pub struct Tunnel {
    pub streams: StreamManager,
    pub next_ping: Instant,
    pub next_resend: Instant,
}

impl View for Tunnel {
    type V = TunnelModel;

    open spec fn view(&self) -> TunnelModel {
        TunnelModel {
            streams: self.streams@,
            next_ping: self.next_ping,
            next_resend: self.next_resend,
        }
    }
}

impl Tunnel {
    /// A new tunnel.
    pub fn new(now: Instant) -> (tunnel: Tunnel)
        ensures
            tunnel@ == TunnelModel::initial(now),
            tunnel@.streams.wf(),
    {
        Tunnel { streams: StreamManager::new(now), next_ping: now, next_resend: now }
    }

    /// Looks at the clock: gives the packets that have to go out, and whether
    /// the tunnel is still alive.
    pub fn tick(&mut self, now: Instant) -> (result: (Vec<Packet>, bool))
        requires
            old(self)@.streams.wf(),
            old(self)@.tick_fits(now),
        ensures
            final(self)@ == old(self)@.after_tick(now),
            final(self)@.streams.wf(),
            old(self)@.has_sent(now, packet::packet_models(result.0@)),
            result.1 == !old(self)@.is_over(now),
    {
        let ghost before = self@;
        let mut out: Vec<Packet> = Vec::new();
        if now.nanos >= self.next_ping.nanos {
            if self.streams.should_send_ping(now) {
                out.push(make_ping());
                self.streams.mark_ping_sent(now);
            }
        }
        assert(self.streams@ == before.probed(now));
        assert(packet::packet_models(out@) =~= before.pings(now));
        if now.nanos >= self.next_ping.nanos {
            if self.streams.keepalive_failed() {
                return (out, false);
            }
            self.next_ping = now.after(PING_CHECK);
        }
        if now.nanos >= self.next_resend.nanos {
            let pairs: Vec<(u16, Packet)> = self.streams.retransmit_due(now);
            let ghost ids = choose|ids: Seq<u16>| #[trigger]
                model::lists(ids, before.streams.streams.dom()) && stream::resent_models(pairs@)
                    == model::resent_of(before.streams.streams, ids, now);
            let ghost resent = resent_packets(stream::resent_models(pairs@));
            take_packets(&mut out, pairs);
            proof {
                assert(model::lists(ids, before.streams.streams.dom()));
                assert(packet::packet_models(out@) == before.pings(now) + resent);
            }
            self.next_resend = now.after(RESEND_CHECK);
        }
        (out, true)
    }

    /// Whether [`Self::tick`] can count without a counter running over.
    pub fn tick_fits(&self, now: Instant) -> (yes: bool)
        ensures
            yes == self@.tick_fits(now),
    {
        let checks = now.nanos >= self.next_ping.nanos;
        let quiet = now.duration_since(self.streams.last_activity) >= model::KEEPALIVE_INTERVAL;
        let unanswered = match self.streams.last_ping_sent {
            None => false,
            Some(last) => now.duration_since(last) >= model::KEEPALIVE_INTERVAL,
        };
        let lost = self.streams.ping_loss_count;
        let counts = checks && quiet && unanswered;
        if counts && lost == u32::MAX {
            return false;
        }
        let over = checks && (lost >= model::MAX_PING_LOSS || (counts && lost + 1
            >= model::MAX_PING_LOSS));
        assert(over == self@.is_over(now));
        if over || now.nanos < self.next_resend.nanos {
            true
        } else {
            self.streams.resend_fits(now)
        }
    }
}

/// Adds the packets to a row.
fn take_packets(out: &mut Vec<Packet>, pairs: Vec<(u16, Packet)>)
    ensures
        packet::packet_models(final(out)@) == packet::packet_models(old(out)@) + resent_packets(
            stream::resent_models(pairs@),
        ),
{
    let ghost start = packet::packet_models(out@);
    let ghost all = resent_packets(stream::resent_models(pairs@));
    assert(start + all.take(0) =~= start);
    for pair in it: pairs
        invariant
            it.seq() == pairs@,
            all == resent_packets(stream::resent_models(pairs@)),
            packet::packet_models(out@) == start + all.take(it.index()),
    {
        let (_, p) = pair;
        proof {
            assert(all[it.index()] == p@);
            assert(all.take(it.index() + 1) =~= all.take(it.index()).push(p@));
        }
        let ghost before = out@;
        out.push(p);
        assert(packet::packet_models(out@) =~= packet::packet_models(before).push(p@));
    }
    assert(all.take(all.len() as int) =~= all);
}

/// A tunnel on which nothing comes in is probed and, when three probes were
/// lost, given up; one that has just heard from the other end is not.
pub proof fn law_quiet_tunnel_is_given_up(tunnel: TunnelModel, now: Instant)
    ensures
        tunnel.checks_ping(now) && tunnel.streams.is_quiet(now) && tunnel.streams.is_unanswered(
            now,
        ) && tunnel.streams.ping_loss_count + 1 >= model::MAX_PING_LOSS ==> tunnel.is_over(now),
        tunnel.streams.ping_loss_count == 0 ==> !tunnel.is_over(now),
        !tunnel.streams.is_quiet(now) && !tunnel.streams.is_lost() ==> !tunnel.is_over(now),
{
}

/// A look at the clock comes to nothing before its time.
pub proof fn law_tick_waits(tunnel: TunnelModel, now: Instant, sent: Seq<PacketModel>)
    requires
        now.nanos < tunnel.next_ping.nanos,
        now.nanos < tunnel.next_resend.nanos,
        tunnel.has_sent(now, sent),
    ensures
        tunnel.after_tick(now) == tunnel,
        sent == Seq::<PacketModel>::empty(),
        !tunnel.is_over(now),
{
}

/// A packet of the tunnel itself goes over the control stream and carries
/// nothing; the confirmation of a stream names it, and the number after the one
/// that opened it.
pub proof fn law_own_packets_say_what_they_are(flags: u8, stream_id: u16, seq: u64)
    ensures
        control_packet(flags).flags == flags,
        control_packet(flags).stream_id == 0,
        control_packet(flags).connection_id == 0,
        control_packet(flags).payload.len() == 0,
        syn_reply(stream_id, seq).flags == FLAG_ACK,
        syn_reply(stream_id, seq).stream_id == stream_id,
        syn_reply(stream_id, seq).connection_id == 0,
        syn_reply(stream_id, seq).ack_num == (seq + 1) % 0x1_0000_0000_0000_0000,
        syn_reply(stream_id, seq).payload.len() == 0,
{
}

/// A look that comes in time looks for a probe every second and for packets that
/// have to go out again every tenth of a second; a tunnel that is given up looks
/// no more.
pub proof fn law_looks_keep_their_intervals(tunnel: TunnelModel, now: Instant)
    requires
        now.nanos + 1_000_000_000 <= u64::MAX,
    ensures
        ({
            let after = tunnel.after_tick(now);
            let probes = now.nanos >= tunnel.next_ping.nanos;
            let resends = now.nanos >= tunnel.next_resend.nanos;
            &&& probes && !tunnel.is_over(now) ==> after.next_ping.nanos == now.nanos
                + 1_000_000_000
            &&& !probes || tunnel.is_over(now) ==> after.next_ping == tunnel.next_ping
            &&& resends && !tunnel.is_over(now) ==> after.next_resend.nanos == now.nanos
                + 100_000_000
            &&& !resends || tunnel.is_over(now) ==> after.next_resend == tunnel.next_resend
        }),
{
}

/// A probe goes out, first of all, just where it is time to look for one, nothing
/// has come for five seconds, and no probe was sent within the last five. It is
/// noted, and one that was open is counted as lost; nothing but that changes in
/// what the tunnel knows of the other end. The tunnel is given up with the third
/// loss.
pub proof fn law_silent_tunnel_is_probed(
    tunnel: TunnelModel,
    now: Instant,
    sent: Seq<PacketModel>,
)
    requires
        tunnel.has_sent(now, sent),
    ensures
        ({
            let before = tunnel.streams;
            let after = tunnel.after_tick(now).streams;
            let looks = now.nanos >= tunnel.next_ping.nanos;
            let quiet = now.nanos - before.last_activity.nanos >= 5_000_000_000;
            let open = before.last_ping_sent matches Some(last) && now.nanos - last.nanos
                >= 5_000_000_000;
            let probes = looks && quiet && (before.last_ping_sent is None || open);
            let lost = before.ping_loss_count + if looks && quiet && open {
                1nat
            } else {
                0nat
            };
            &&& probes ==> sent.len() > 0 && sent[0] == control_packet(FLAG_PING)
            &&& probes ==> after.last_ping_sent == Some(now)
            &&& !probes ==> after.last_ping_sent == before.last_ping_sent
            &&& after.ping_loss_count == lost
            &&& after.last_activity == before.last_activity
            &&& after.next_stream_id == before.next_stream_id
            &&& tunnel.is_over(now) <==> looks && lost >= 3
        }),
{
}

/// Whether a packet is among those that go out again on a stream.
pub open spec fn is_resent(streams: ManagerModel, id: u16, now: Instant, p: PacketModel) -> bool {
    streams.streams.contains_key(id) && streams.streams[id].resent(id, now).contains((id, p))
}

proof fn lemma_resent_has(
    streams: Map<u16, StreamModel>,
    ids: Seq<u16>,
    now: Instant,
    id: u16,
    k: int,
)
    requires
        ids.contains(id),
        0 <= k < streams[id].resent(id, now).len(),
    ensures
        model::resent_of(streams, ids, now).contains(streams[id].resent(id, now)[k]),
    decreases ids.len(),
{
    let front = ids.drop_last();
    let all = model::resent_of(streams, ids, now);
    let sent = model::resent_of(streams, front, now);
    let e = streams[id].resent(id, now)[k];
    if ids.last() == id {
        assert(all[sent.len() + k] == e);
    } else {
        let i = choose|i: int| 0 <= i < ids.len() && ids[i] == id;
        assert(front[i] == id);
        lemma_resent_has(streams, front, now, id, k);
        let j = choose|j: int| 0 <= j < sent.len() && sent[j] == e;
        assert(all[j] == e);
    }
}

proof fn lemma_resent_only(
    streams: Map<u16, StreamModel>,
    ids: Seq<u16>,
    now: Instant,
    j: int,
)
    requires
        0 <= j < model::resent_of(streams, ids, now).len(),
    ensures
        ({
            let e = model::resent_of(streams, ids, now)[j];
            ids.contains(e.0) && streams[e.0].resent(e.0, now).contains(e)
        }),
    decreases ids.len(),
{
    let front = ids.drop_last();
    let sent = model::resent_of(streams, front, now);
    let own = streams[ids.last()].resent(ids.last(), now);
    let e = model::resent_of(streams, ids, now)[j];
    if j < sent.len() {
        lemma_resent_only(streams, front, now, j);
        let i = choose|i: int| 0 <= i < front.len() && front[i] == e.0;
        assert(ids[i] == e.0);
    } else {
        assert(own[j - sent.len()] == e);
        assert(ids[ids.len() - 1] == ids.last());
    }
}

/// When it is time to send again, all that is due on any stream goes out, and
/// nothing else but the probe; each stream becomes what the look makes of it.
/// Before its time, and on a tunnel that is given up, nothing goes out again
/// and the streams stay as they are.
pub proof fn law_tick_sends_what_is_due(
    tunnel: TunnelModel,
    now: Instant,
    sent: Seq<PacketModel>,
    id: u16,
    p: PacketModel,
)
    requires
        tunnel.has_sent(now, sent),
    ensures
        ({
            let looks = now.nanos >= tunnel.next_resend.nanos && !tunnel.is_over(now);
            let after = tunnel.after_tick(now).streams;
            &&& looks && is_resent(tunnel.streams, id, now, p) ==> sent.contains(p)
            &&& looks && sent.contains(p) ==> p == control_packet(FLAG_PING) || exists|from: u16|
                #[trigger] is_resent(tunnel.streams, from, now, p)
            &&& !looks && sent.contains(p) ==> p == control_packet(FLAG_PING)
            &&& looks ==> after.streams == tunnel.streams.after_resend(now).streams
            &&& !looks ==> after.streams == tunnel.streams.streams
        }),
{
    let streams = tunnel.streams.streams;
    let looks = now.nanos >= tunnel.next_resend.nanos && !tunnel.is_over(now);
    let pings = tunnel.pings(now);
    if looks {
        let ids = choose|ids: Seq<u16>| #[trigger]
            model::lists(ids, streams.dom()) && sent == pings + resent_packets(
                model::resent_of(streams, ids, now),
            );
        let all = model::resent_of(streams, ids, now);
        if is_resent(tunnel.streams, id, now, p) {
            let k = choose|k: int|
                0 <= k < streams[id].resent(id, now).len() && streams[id].resent(id, now)[k] == (
                    id,
                    p,
                );
            assert(ids.to_set().contains(id));
            lemma_resent_has(streams, ids, now, id, k);
            let j = choose|j: int| 0 <= j < all.len() && all[j] == (id, p);
            assert(sent[pings.len() + j] == p);
        }
        if sent.contains(p) {
            let j = choose|j: int| 0 <= j < sent.len() && sent[j] == p;
            if j >= pings.len() {
                let e = all[j - pings.len()];
                assert(e.1 == p);
                lemma_resent_only(streams, ids, now, j - pings.len());
                assert(ids.to_set().contains(e.0));
                assert(is_resent(tunnel.streams, e.0, now, p));
            }
        }
        assert(tunnel.probed(now).after_resend(now).streams =~= tunnel.streams.after_resend(
            now,
        ).streams);
    } else if sent.contains(p) {
        let j = choose|j: int| 0 <= j < sent.len() && sent[j] == p;
        assert(pings[j] == p);
    }
}

/// A look at the clock can be counted as long as no count of lost probes or of
/// packets that went out again is near its limit.
pub proof fn law_look_can_be_counted(tunnel: TunnelModel, now: Instant)
    requires
        tunnel.streams.wf(),
        tunnel.streams.ping_loss_count < u32::MAX,
        forall|id: u16| #[trigger]
            tunnel.streams.streams.contains_key(id) ==> tunnel.streams.streams[id].retransmit_count
                + tunnel.streams.streams[id].unacked.len() <= u32::MAX,
    ensures
        tunnel.tick_fits(now),
{
    assert forall|id: u16| #[trigger]
        tunnel.streams.streams.contains_key(id) implies tunnel.streams.streams[id].resend_fits(
        now,
    ) by {
        stream_effects::law_counters_have_room(
            tunnel.streams.streams[id],
            0,
            Seq::empty(),
            0,
            now,
        );
    }
}

} // verus!
