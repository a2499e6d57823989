//! Simplified TCP-style congestion control.

use vstd::prelude::*;

verus! {

/// The bytes of a full segment.
pub const MSS: usize = 1460;

/// Ten segments.
pub const INITIAL_CWND: usize = 10 * MSS;

/// Two segments.
pub const MIN_CWND: usize = 2 * MSS;

/// How the window grows.
#[derive(Debug, Clone, Copy, PartialEq, Eq, Structural)]
pub enum CongestionState {
    /// By each byte that is acknowledged.
    SlowStart,
    /// By one segment per window that is acknowledged.
    CongestionAvoidance,
}

/// The congestion window, in numbers.
pub struct CongestionModel {
    pub cwnd: nat,
    pub ssthresh: nat,
    pub state: CongestionState,
    pub in_flight: nat,
    pub acked_this_round: nat,
}

impl CongestionModel {
    /// At the start of a connection.
    pub open spec fn initial() -> CongestionModel {
        CongestionModel {
            cwnd: INITIAL_CWND as nat,
            ssthresh: usize::MAX as nat,
            state: CongestionState::SlowStart,
            in_flight: 0,
            acked_this_round: 0,
        }
    }

    /// Whether `bytes` more bytes may be put on their way.
    pub open spec fn allows(self, bytes: nat) -> bool {
        self.in_flight + bytes <= self.cwnd
    }

    /// After `bytes` bytes were put on their way.
    pub open spec fn after_sent(self, bytes: nat) -> CongestionModel {
        CongestionModel { in_flight: self.in_flight + bytes, ..self }
    }

    /// After `bytes` bytes were acknowledged.
    pub open spec fn after_ack(self, bytes: nat) -> CongestionModel {
        let in_flight = if bytes <= self.in_flight {
            (self.in_flight - bytes) as nat
        } else {
            0
        };
        match self.state {
            CongestionState::SlowStart => CongestionModel {
                in_flight,
                cwnd: self.cwnd + bytes,
                state: if self.cwnd + bytes >= self.ssthresh {
                    CongestionState::CongestionAvoidance
                } else {
                    CongestionState::SlowStart
                },
                ..self
            },
            CongestionState::CongestionAvoidance => if self.acked_this_round + bytes >= self.cwnd {
                CongestionModel {
                    in_flight,
                    cwnd: self.cwnd + MSS as nat,
                    acked_this_round: 0,
                    ..self
                }
            } else {
                CongestionModel {
                    in_flight,
                    acked_this_round: self.acked_this_round + bytes,
                    ..self
                }
            },
        }
    }

    /// Whether the counters can take an acknowledgement of `bytes` bytes.
    pub open spec fn ack_fits(self, bytes: nat) -> bool {
        match self.state {
            CongestionState::SlowStart => self.cwnd + bytes <= usize::MAX,
            CongestionState::CongestionAvoidance => {
                &&& self.acked_this_round + bytes <= usize::MAX
                &&& self.acked_this_round + bytes >= self.cwnd ==> self.cwnd + MSS <= usize::MAX
            },
        }
    }

    /// After a loss: half the window becomes the threshold, and the window
    /// starts again from its minimum.
    pub open spec fn after_loss(self) -> CongestionModel {
        CongestionModel {
            ssthresh: self.cwnd / 2,
            cwnd: MIN_CWND as nat,
            state: CongestionState::SlowStart,
            acked_this_round: 0,
            ..self
        }
    }

    /// After each of the acknowledgements in turn.
    pub open spec fn after_acks(self, acks: Seq<nat>) -> CongestionModel
        decreases acks.len(),
    {
        if acks.len() == 0 {
            self
        } else {
            self.after_acks(acks.drop_last()).after_ack(acks.last())
        }
    }
}

/// Decides how many bytes may be on their way.
#[derive(Debug)]
pub struct CongestionControl {
    /// The congestion window.
    pub cwnd: usize,
    /// Where slow start ends.
    pub ssthresh: usize,
    pub state: CongestionState,
    pub bytes_in_flight: usize,
    pub bytes_acked_this_round: usize,
}

impl View for CongestionControl {
    type V = CongestionModel;

    open spec fn view(&self) -> CongestionModel {
        CongestionModel {
            cwnd: self.cwnd as nat,
            ssthresh: self.ssthresh as nat,
            state: self.state,
            in_flight: self.bytes_in_flight as nat,
            acked_this_round: self.bytes_acked_this_round as nat,
        }
    }
}

impl CongestionControl {
    /// At the start of a connection.
    pub fn new() -> (control: CongestionControl)
        ensures
            control@ == CongestionModel::initial(),
    {
        CongestionControl {
            cwnd: INITIAL_CWND,
            ssthresh: usize::MAX,
            state: CongestionState::SlowStart,
            bytes_in_flight: 0,
            bytes_acked_this_round: 0,
        }
    }

    /// The congestion window.
    pub fn cwnd(&self) -> (bytes: usize)
        ensures
            bytes == self@.cwnd,
    {
        self.cwnd
    }

    /// Whether `bytes` more bytes may be put on their way.
    pub fn can_send(&self, bytes: usize) -> (yes: bool)
        requires
            self@.in_flight + bytes <= usize::MAX,
        ensures
            yes == self@.allows(bytes as nat),
    {
        self.bytes_in_flight + bytes <= self.cwnd
    }

    /// `bytes` bytes were put on their way.
    pub fn on_packet_sent(&mut self, bytes: usize)
        requires
            old(self)@.in_flight + bytes <= usize::MAX,
        ensures
            final(self)@ == old(self)@.after_sent(bytes as nat),
    {
        self.bytes_in_flight = self.bytes_in_flight + bytes;
    }

    /// `bytes_acknowledged` bytes were acknowledged.
    pub fn on_ack(&mut self, bytes_acknowledged: usize)
        requires
            old(self)@.ack_fits(bytes_acknowledged as nat),
        ensures
            final(self)@ == old(self)@.after_ack(bytes_acknowledged as nat),
    {
        self.bytes_in_flight = self.bytes_in_flight.saturating_sub(bytes_acknowledged);
        match self.state {
            CongestionState::SlowStart => {
                self.cwnd = self.cwnd + bytes_acknowledged;
                if self.cwnd >= self.ssthresh {
                    self.state = CongestionState::CongestionAvoidance;
                }
            },
            CongestionState::CongestionAvoidance => {
                self.bytes_acked_this_round = self.bytes_acked_this_round + bytes_acknowledged;
                if self.bytes_acked_this_round >= self.cwnd {
                    self.cwnd = self.cwnd + MSS;
                    self.bytes_acked_this_round = 0;
                }
            },
        }
    }

    /// Whether the counters can take an acknowledgement of that many bytes.
    pub fn ack_fits(&self, bytes_acknowledged: usize) -> (yes: bool)
        ensures
            yes == self@.ack_fits(bytes_acknowledged as nat),
    {
        match self.state {
            CongestionState::SlowStart => bytes_acknowledged <= usize::MAX - self.cwnd,
            CongestionState::CongestionAvoidance => {
                bytes_acknowledged <= usize::MAX - self.bytes_acked_this_round && (
                self.bytes_acked_this_round + bytes_acknowledged < self.cwnd || MSS <= usize::MAX
                    - self.cwnd)
            },
        }
    }

    /// A packet was lost.
    pub fn on_loss(&mut self)
        ensures
            final(self)@ == old(self)@.after_loss(),
    {
        self.ssthresh = self.cwnd / 2;
        self.cwnd = MIN_CWND;
        self.state = CongestionState::SlowStart;
        self.bytes_acked_this_round = 0;
    }
}

/// The sum of the acknowledged bytes.
pub open spec fn total(acks: Seq<nat>) -> nat
    decreases acks.len(),
{
    if acks.len() == 0 {
        0
    } else {
        total(acks.drop_last()) + acks.last()
    }
}

/// During slow start the window grows by just the bytes that are acknowledged.
pub proof fn law_slow_start_growth(control: CongestionModel, bytes: nat)
    requires
        control.state == CongestionState::SlowStart,
    ensures
        control.after_ack(bytes).cwnd == control.cwnd + bytes,
        control.after_ack(bytes).state == CongestionState::CongestionAvoidance <==> control.cwnd
            + bytes >= control.ssthresh,
{
}

/// During congestion avoidance the window grows by one segment per round: not
/// before a whole window was acknowledged, and by one segment with the
/// acknowledgement that completes it.
pub proof fn law_avoidance_grows_by_one_segment(control: CongestionModel, acks: Seq<nat>, last: nat)
    requires
        control.state == CongestionState::CongestionAvoidance,
        control.acked_this_round == 0,
        total(acks) < control.cwnd,
        total(acks) + last >= control.cwnd,
    ensures
        control.after_acks(acks).cwnd == control.cwnd,
        control.after_acks(acks).after_ack(last).cwnd == control.cwnd + MSS,
        control.after_acks(acks).after_ack(last).acked_this_round == 0,
{
    lemma_avoidance_waits(control, acks);
}

proof fn lemma_avoidance_waits(control: CongestionModel, acks: Seq<nat>)
    requires
        control.state == CongestionState::CongestionAvoidance,
        control.acked_this_round == 0,
        total(acks) < control.cwnd,
    ensures
        control.after_acks(acks).cwnd == control.cwnd,
        control.after_acks(acks).state == CongestionState::CongestionAvoidance,
        control.after_acks(acks).acked_this_round == total(acks),
    decreases acks.len(),
{
    if acks.len() > 0 {
        lemma_avoidance_waits(control, acks.drop_last());
    }
}

/// The window is never below its minimum once it is not.
pub proof fn law_window_has_a_floor(control: CongestionModel, bytes: nat)
    requires
        control.cwnd >= MIN_CWND,
    ensures
        control.after_sent(bytes).cwnd >= MIN_CWND,
        control.after_ack(bytes).cwnd >= MIN_CWND,
        control.after_loss().cwnd >= MIN_CWND,
        CongestionModel::initial().cwnd >= MIN_CWND,
{
}

/// An acknowledgement of what was just sent takes it off the count of bytes on
/// their way, and a loss leaves that count alone.
pub proof fn law_in_flight_is_balanced(control: CongestionModel, bytes: nat)
    ensures
        control.after_sent(bytes).after_ack(bytes).in_flight == control.in_flight,
        control.after_loss().in_flight == control.in_flight,
{
}

/// A loss halves what slow start aims for and takes the window down to two
/// segments, from which slow start begins anew.
pub proof fn law_loss_starts_again(control: CongestionModel)
    ensures
        control.after_loss().cwnd == 2 * 1460,
        2 * control.after_loss().ssthresh <= control.cwnd < 2 * control.after_loss().ssthresh + 2,
        control.after_loss().state == CongestionState::SlowStart,
        control.after_loss().acked_this_round == 0,
{
}

/// A connection begins with ten segments, in slow start without an aim.
pub proof fn law_start_is_slow()
    ensures
        CongestionModel::initial().cwnd == 10 * 1460,
        CongestionModel::initial().state == CongestionState::SlowStart,
        CongestionModel::initial().ssthresh == usize::MAX,
        CongestionModel::initial().in_flight == 0,
        CongestionModel::initial().acked_this_round == 0,
{
}

/// Bytes may be put on their way as long as no more are then under way than the
/// window is wide; that they are changes nothing else.
pub proof fn law_window_bounds_what_is_under_way(control: CongestionModel, bytes: nat)
    ensures
        control.allows(bytes) <==> control.in_flight + bytes <= control.cwnd,
        control.after_sent(bytes).in_flight == control.in_flight + bytes,
        control.after_sent(bytes).cwnd == control.cwnd,
        control.after_sent(bytes).ssthresh == control.ssthresh,
        control.after_sent(bytes).state == control.state,
        control.after_sent(bytes).acked_this_round == control.acked_this_round,
{
}

/// An acknowledgement takes its bytes off those under way and never narrows the
/// window; what slow start aims for stays, and congestion avoidance is left by
/// a loss alone.
pub proof fn law_acknowledgement_frees_the_way(control: CongestionModel, bytes: nat)
    ensures
        bytes <= control.in_flight ==> control.after_ack(bytes).in_flight + bytes
            == control.in_flight,
        bytes > control.in_flight ==> control.after_ack(bytes).in_flight == 0,
        control.after_ack(bytes).ssthresh == control.ssthresh,
        control.after_ack(bytes).cwnd >= control.cwnd,
        control.state == CongestionState::CongestionAvoidance ==> control.after_ack(bytes).state
            == CongestionState::CongestionAvoidance,
        control.state == CongestionState::SlowStart ==> control.after_ack(bytes).acked_this_round
            == control.acked_this_round,
{
}

} // verus!
