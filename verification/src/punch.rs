//! UDP hole punching: both ends send probes to each other until one arrives.

use vstd::prelude::*;
use crate::addr::PeerAddr;
use crate::protocol::packet::{Packet, PacketModel, CONTROL_STREAM, FLAG_PING};
use crate::time;
use crate::time::Instant;

verus! {

/// How long to wait for a datagram before the next probe, in nanoseconds.
pub const PROBE_INTERVAL: u64 = 500_000_000;

/// How long to try, in nanoseconds.
pub const PUNCH_TIMEOUT: u64 = 10_000_000_000;

/// "PTP_PUNCH".
pub const PROBE_PAYLOAD: [u8; 9] = [0x50, 0x54, 0x50, 0x5f, 0x50, 0x55, 0x4e, 0x43, 0x48];

/// Result of hole punching.
#[derive(Debug, Clone, Copy, PartialEq, Eq, Structural)]
pub enum PunchResult {
    Success,
    Timeout,
}

/// What came of waiting for a datagram.
#[derive(Debug, Clone, Copy, PartialEq, Eq, Structural)]
pub enum PunchEvent {
    /// A datagram from some address.
    Datagram { from: PeerAddr },
    /// None came in time, or the socket failed.
    Nothing,
}

/// What to do then.
#[derive(Debug, Clone, Copy, PartialEq, Eq, Structural)]
pub enum PunchStep {
    /// The hole is open.
    Finish,
    /// Wait for the next datagram.
    Wait,
    /// Send another probe and wait.
    Probe,
}

/// The packet that both ends send.
pub open spec fn probe_packet() -> PacketModel {
    PacketModel {
        flags: FLAG_PING,
        connection_id: 0,
        stream_id: CONTROL_STREAM,
        seq_num: 0,
        ack_num: 0,
        payload: PROBE_PAYLOAD@,
    }
}

/// The packet that both ends send.
pub fn probe() -> (p: Packet)
    ensures
        p@ == probe_packet(),
{
    let text: [u8; 9] = PROBE_PAYLOAD;
    let mut payload: Vec<u8> = Vec::new();
    let mut i: usize = 0;
    while i < 9
        invariant
            i <= 9,
            text == PROBE_PAYLOAD,
            payload@ == text@.take(i as int),
        decreases 9 - i,
    {
        assert(text@.take(i + 1) =~= text@.take(i as int).push(text@[i as int]));
        payload.push(text[i]);
        i = i + 1;
    }
    assert(text@.take(9) =~= text@);
    Packet {
        flags: FLAG_PING,
        connection_id: 0,
        stream_id: CONTROL_STREAM,
        seq_num: 0,
        ack_num: 0,
        payload,
    }
}

/// What a datagram, or none, means to one that waits for `peer`.
pub open spec fn step_on(peer: PeerAddr, event: PunchEvent) -> PunchStep {
    match event {
        PunchEvent::Datagram { from } => if from == peer {
            PunchStep::Finish
        } else {
            PunchStep::Wait
        },
        PunchEvent::Nothing => PunchStep::Probe,
    }
}

/// Whether the time is up.
pub open spec fn is_over(start: Instant, now: Instant) -> bool {
    time::elapsed(now, start) >= PUNCH_TIMEOUT
}

/// An attempt to reach a peer.
#[derive(Debug, Clone, Copy, PartialEq, Eq, Structural)]
pub struct Puncher {
    pub peer: PeerAddr,
    pub start: Instant,
}

impl Puncher {
    /// Begins an attempt.
    pub fn new(peer: PeerAddr, now: Instant) -> (p: Puncher)
        ensures
            p == (Puncher { peer, start: now }),
    {
        Puncher { peer, start: now }
    }

    /// Whether to give up, before waiting for the next datagram.
    pub fn timed_out(&self, now: Instant) -> (yes: bool)
        ensures
            yes == is_over(self.start, now),
    {
        now.duration_since(self.start) >= PUNCH_TIMEOUT
    }

    /// What to do after a wait.
    pub fn on_event(&self, event: PunchEvent) -> (step: PunchStep)
        ensures
            step == step_on(self.peer, event),
    {
        match event {
            PunchEvent::Datagram { from } => {
                if from == self.peer {
                    PunchStep::Finish
                } else {
                    PunchStep::Wait
                }
            },
            PunchEvent::Nothing => PunchStep::Probe,
        }
    }
}

/// How an attempt ends whose rounds begin at the given times and end with the
/// given events; none where it has not ended.
pub open spec fn outcome(
    peer: PeerAddr,
    start: Instant,
    rounds: Seq<(Instant, PunchEvent)>,
) -> Option<PunchResult>
    decreases rounds.len(),
{
    if rounds.len() == 0 {
        None
    } else if is_over(start, rounds[0].0) {
        Some(PunchResult::Timeout)
    } else if step_on(peer, rounds[0].1) == PunchStep::Finish {
        Some(PunchResult::Success)
    } else {
        outcome(peer, start, rounds.drop_first())
    }
}

/// The hole is open only where a datagram of the peer came, in a round that
/// began in time.
pub proof fn law_only_the_peer_opens(
    peer: PeerAddr,
    start: Instant,
    rounds: Seq<(Instant, PunchEvent)>,
)
    requires
        outcome(peer, start, rounds) == Some(PunchResult::Success),
    ensures
        exists|i: int|
            0 <= i < rounds.len() && (#[trigger] rounds[i]).1 == (PunchEvent::Datagram {
                from: peer,
            }) && !is_over(start, rounds[i].0),
    decreases rounds.len(),
{
    let rest = rounds.drop_first();
    if step_on(peer, rounds[0].1) == PunchStep::Finish {
        assert(rounds[0].1 == (PunchEvent::Datagram { from: peer }));
    } else {
        law_only_the_peer_opens(peer, start, rest);
        let i = choose|i: int|
            0 <= i < rest.len() && (#[trigger] rest[i]).1 == (PunchEvent::Datagram { from: peer })
                && !is_over(start, rest[i].0);
        assert(rounds[i + 1] == rest[i]);
    }
}

/// Datagrams of others change nothing: the attempt ends as it would without
/// them, as long as the time is not up.
pub proof fn law_strangers_are_ignored(
    peer: PeerAddr,
    start: Instant,
    now: Instant,
    from: PeerAddr,
    rounds: Seq<(Instant, PunchEvent)>,
)
    requires
        from != peer,
        !is_over(start, now),
    ensures
        outcome(peer, start, seq![(now, PunchEvent::Datagram { from })] + rounds) == outcome(
            peer,
            start,
            rounds,
        ),
{
    let all = seq![(now, PunchEvent::Datagram { from })] + rounds;
    assert(all.drop_first() =~= rounds);
}

/// An attempt to which the peer never answers ends when the time is up.
pub proof fn law_silence_times_out(
    peer: PeerAddr,
    start: Instant,
    rounds: Seq<(Instant, PunchEvent)>,
)
    requires
        rounds.len() > 0,
        is_over(start, rounds.last().0),
        forall|i: int|
            0 <= i < rounds.len() ==> (#[trigger] rounds[i]).1 != (PunchEvent::Datagram {
                from: peer,
            }),
    ensures
        outcome(peer, start, rounds) == Some(PunchResult::Timeout),
    decreases rounds.len(),
{
    if !is_over(start, rounds[0].0) {
        let rest = rounds.drop_first();
        assert(rounds[0].1 != (PunchEvent::Datagram { from: peer }));
        assert forall|i: int| 0 <= i < rest.len() implies (#[trigger] rest[i]).1 != (
        PunchEvent::Datagram { from: peer }) by {
            assert(rounds[i + 1] == rest[i]);
        }
        law_silence_times_out(peer, start, rest);
    }
}

/// A datagram of the peer opens the hole: an attempt in which one comes, in a
/// round that begins in time as all rounds before it do, succeeds.
pub proof fn law_peer_opens(
    peer: PeerAddr,
    start: Instant,
    rounds: Seq<(Instant, PunchEvent)>,
    i: int,
)
    requires
        0 <= i < rounds.len(),
        rounds[i].1 == (PunchEvent::Datagram { from: peer }),
        forall|j: int|
            0 <= j <= i ==> (#[trigger] rounds[j]).0.nanos - start.nanos < 10_000_000_000,
    ensures
        outcome(peer, start, rounds) == Some(PunchResult::Success),
    decreases rounds.len(),
{
    assert(rounds[0].0.nanos - start.nanos < 10_000_000_000);
    if i > 0 && step_on(peer, rounds[0].1) != PunchStep::Finish {
        let rest = rounds.drop_first();
        assert forall|j: int| 0 <= j <= i - 1 implies (#[trigger] rest[j]).0.nanos - start.nanos
            < 10_000_000_000 by {
            assert(rounds[j + 1] == rest[j]);
        }
        assert(rest[i - 1] == rounds[i]);
        law_peer_opens(peer, start, rest, i - 1);
    }
}

/// Another probe goes out just where a wait has brought nothing; a datagram of a
/// stranger calls for none, and one of the peer ends the attempt.
pub proof fn law_silence_calls_for_a_probe(peer: PeerAddr, event: PunchEvent)
    ensures
        step_on(peer, event) == PunchStep::Probe <==> event == PunchEvent::Nothing,
        step_on(peer, event) == PunchStep::Finish <==> event == (PunchEvent::Datagram {
            from: peer,
        }),
        step_on(peer, event) == PunchStep::Wait <==> (event matches PunchEvent::Datagram { from }
            && from != peer),
{
}

/// An attempt lasts ten seconds.
pub proof fn law_attempt_lasts_ten_seconds(start: Instant, now: Instant)
    ensures
        is_over(start, now) <==> now.nanos - start.nanos >= 10_000_000_000,
{
}

/// A probe is a ping on the control stream that carries its nine bytes.
pub proof fn law_probe_is_a_ping()
    ensures
        probe_packet().flags == FLAG_PING,
        probe_packet().stream_id == 0,
        probe_packet().connection_id == 0,
        probe_packet().payload =~= seq![0x50u8, 0x54, 0x50, 0x5f, 0x50, 0x55, 0x4e, 0x43, 0x48],
{
}

/// An attempt ends with the first round that begins too late, where the peer has
/// not answered before; what comes after that is too late. As long as no round
/// begins too late and the peer does not answer, it goes on.
pub proof fn law_late_answer_is_too_late(
    peer: PeerAddr,
    start: Instant,
    rounds: Seq<(Instant, PunchEvent)>,
    i: int,
)
    requires
        0 <= i <= rounds.len(),
        forall|j: int|
            0 <= j < i ==> (#[trigger] rounds[j]).1 != (PunchEvent::Datagram { from: peer })
                && rounds[j].0.nanos - start.nanos < 10_000_000_000,
        i < rounds.len() ==> rounds[i].0.nanos - start.nanos >= 10_000_000_000,
    ensures
        outcome(peer, start, rounds) == if i < rounds.len() {
            Some(PunchResult::Timeout)
        } else {
            None
        },
    decreases rounds.len(),
{
    if i > 0 {
        let rest = rounds.drop_first();
        assert(rounds[0].1 != (PunchEvent::Datagram { from: peer }));
        assert forall|j: int| 0 <= j < i - 1 implies (#[trigger] rest[j]).1 != (
        PunchEvent::Datagram { from: peer }) && rest[j].0.nanos - start.nanos < 10_000_000_000 by {
            assert(rounds[j + 1] == rest[j]);
        }
        if i < rounds.len() {
            assert(rest[i - 1] == rounds[i]);
        }
        law_late_answer_is_too_late(peer, start, rest, i - 1);
    }
}

} // verus!
