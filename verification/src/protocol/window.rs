//! Flow control: how many bytes may be on their way, and how many may wait.

use vstd::prelude::*;

verus! {

/// Half of the circle of sequence numbers.
pub const HALF_CIRCLE: u64 = 0x8000_0000_0000_0000;

/// Circular comparison: `a` lies less than half a circle ahead of `b`.
pub open spec fn is_after(a: int, b: int) -> bool {
    a != b && (a - b) % 0x1_0000_0000_0000_0000 < HALF_CIRCLE
}

/// Whether `a` comes after `b` in sequence space.
pub fn seq_gt(a: u64, b: u64) -> (after: bool)
    ensures
        after == is_after(a as int, b as int),
{
    a != b && a.wrapping_sub(b) < HALF_CIRCLE
}

/// Of two sequence numbers that are not half a circle apart, exactly one comes
/// after the other unless they are equal; at half a circle neither does.
pub proof fn law_sequence_order(a: u64, b: u64)
    ensures
        !(is_after(a as int, b as int) && is_after(b as int, a as int)),
        a == b ==> !is_after(a as int, b as int),
        a != b && (a - b) % 0x1_0000_0000_0000_0000 != HALF_CIRCLE ==> is_after(a as int, b as int)
            || is_after(b as int, a as int),
        (a - b) % 0x1_0000_0000_0000_0000 == HALF_CIRCLE ==> !is_after(a as int, b as int)
            && !is_after(b as int, a as int),
{
}

/// Comparing survives the wrap: what was sent after something, less than half a
/// circle ago, compares as after it.
pub proof fn law_sequence_wraps(base: u64, distance: nat)
    requires
        0 < distance < HALF_CIRCLE,
    ensures
        is_after((base + distance) % 0x1_0000_0000_0000_0000, base as int),
{
}

/// The sender's window, in numbers.
pub struct SendModel {
    pub window_size: nat,
    pub unacked: nat,
    pub last_ack: Option<u64>,
}

impl SendModel {
    /// A window that holds nothing.
    pub open spec fn empty(window_size: nat) -> SendModel {
        SendModel { window_size, unacked: 0, last_ack: None }
    }

    /// Never more on its way than the window allows.
    pub open spec fn wf(self) -> bool {
        self.unacked <= self.window_size
    }

    /// Whether `len` more bytes fit.
    pub open spec fn fits(self, len: nat) -> bool {
        self.unacked + len <= self.window_size
    }

    /// After an attempt to send `len` bytes.
    pub open spec fn after_send(self, len: nat) -> SendModel {
        if self.fits(len) {
            SendModel { unacked: self.unacked + len, ..self }
        } else {
            self
        }
    }

    /// Whether an acknowledgement is newer than all before it.
    pub open spec fn is_newer(self, ack_num: u64) -> bool {
        match self.last_ack {
            None => true,
            Some(last) => is_after(ack_num as int, last as int),
        }
    }

    /// After an acknowledgement of `bytes` bytes.
    pub open spec fn after_ack(self, ack_num: u64, bytes: nat) -> SendModel {
        if self.is_newer(ack_num) {
            SendModel {
                last_ack: Some(ack_num),
                unacked: if bytes <= self.unacked {
                    (self.unacked - bytes) as nat
                } else {
                    0
                },
                ..self
            }
        } else {
            self
        }
    }

    /// How many more bytes may be sent.
    pub open spec fn room(self) -> nat {
        if self.unacked <= self.window_size {
            (self.window_size - self.unacked) as nat
        } else {
            0
        }
    }
}

/// Counts the bytes that were sent and not acknowledged.
#[derive(Debug)]
pub struct SendWindow {
    window_size: usize,
    unacked_bytes: usize,
    last_ack: Option<u64>,
}

impl View for SendWindow {
    type V = SendModel;

    closed spec fn view(&self) -> SendModel {
        SendModel {
            window_size: self.window_size as nat,
            unacked: self.unacked_bytes as nat,
            last_ack: self.last_ack,
        }
    }
}

impl SendWindow {
    /// An empty window.
    pub fn new(window_size: usize) -> (window: SendWindow)
        ensures
            window@ == SendModel::empty(window_size as nat),
            window@.wf(),
    {
        SendWindow { window_size, unacked_bytes: 0, last_ack: None }
    }

    /// Takes `len` bytes into the window where they fit, and says whether they did.
    pub fn try_send(&mut self, len: usize) -> (sent: bool)
        requires
            old(self)@.unacked + len <= usize::MAX,
        ensures
            sent == old(self)@.fits(len as nat),
            final(self)@ == old(self)@.after_send(len as nat),
            old(self)@.wf() ==> final(self)@.wf(),
    {
        if self.unacked_bytes + len > self.window_size {
            return false;
        }
        self.unacked_bytes = self.unacked_bytes + len;
        true
    }

    /// Takes an acknowledgement: one that is not newer than the last is ignored,
    /// and no more bytes leave the window than it holds.
    pub fn on_ack(&mut self, ack_num: u64, bytes_acknowledged: usize)
        ensures
            final(self)@ == old(self)@.after_ack(ack_num, bytes_acknowledged as nat),
            old(self)@.wf() ==> final(self)@.wf(),
    {
        let newer = match self.last_ack {
            None => true,
            Some(last) => seq_gt(ack_num, last),
        };
        if newer {
            self.last_ack = Some(ack_num);
            let acked: usize = if bytes_acknowledged < self.unacked_bytes {
                bytes_acknowledged
            } else {
                self.unacked_bytes
            };
            self.unacked_bytes = self.unacked_bytes - acked;
        }
    }

    /// The bytes that were sent and not acknowledged.
    pub fn unacked_bytes(&self) -> (bytes: usize)
        ensures
            bytes == self@.unacked,
    {
        self.unacked_bytes
    }

    /// How many more bytes may be sent.
    pub fn available(&self) -> (bytes: usize)
        ensures
            bytes == self@.room(),
    {
        self.window_size.saturating_sub(self.unacked_bytes)
    }
}

/// A newer acknowledgement of all that was just sent takes the window back to
/// where it was.
pub proof fn law_ack_undoes_send(window: SendModel, len: nat, ack_num: u64)
    requires
        window.fits(len),
        window.is_newer(ack_num),
    ensures
        window.after_send(len).after_ack(ack_num, len).unacked == window.unacked,
        window.after_send(len).after_ack(ack_num, len).room() == window.room(),
{
}

/// An acknowledgement that was taken is ignored when it comes again.
pub proof fn law_repeated_ack_is_ignored(window: SendModel, ack_num: u64, bytes: nat, again: nat)
    ensures
        window.after_ack(ack_num, bytes).after_ack(ack_num, again) == window.after_ack(
            ack_num,
            bytes,
        ),
{
}

/// The receiver's window, in numbers.
pub struct ReceiveModel {
    pub window_size: nat,
    pub buffered: nat,
    pub read_offset: nat,
}

impl ReceiveModel {
    /// A window that holds nothing.
    pub open spec fn empty(window_size: nat) -> ReceiveModel {
        ReceiveModel { window_size, buffered: 0, read_offset: 0 }
    }

    /// Never more waiting than the window allows.
    pub open spec fn wf(self) -> bool {
        self.buffered <= self.window_size
    }

    /// Whether `len` more bytes fit.
    pub open spec fn fits(self, len: nat) -> bool {
        self.buffered + len <= self.window_size
    }

    /// After an attempt to receive `len` bytes.
    pub open spec fn after_receive(self, len: nat) -> ReceiveModel {
        if self.fits(len) {
            ReceiveModel { buffered: self.buffered + len, ..self }
        } else {
            self
        }
    }

    /// After the application has read `bytes` bytes.
    pub open spec fn after_consume(self, bytes: nat) -> ReceiveModel {
        ReceiveModel {
            buffered: if bytes <= self.buffered {
                (self.buffered - bytes) as nat
            } else {
                0
            },
            read_offset: self.read_offset + bytes,
            ..self
        }
    }

    /// How many more bytes may be received.
    pub open spec fn room(self) -> nat {
        if self.buffered <= self.window_size {
            (self.window_size - self.buffered) as nat
        } else {
            0
        }
    }
}

/// Counts the bytes that were received and not read.
#[derive(Debug)]
pub struct ReceiveWindow {
    window_size: usize,
    buffered_bytes: usize,
    read_offset: u64,
}

impl View for ReceiveWindow {
    type V = ReceiveModel;

    closed spec fn view(&self) -> ReceiveModel {
        ReceiveModel {
            window_size: self.window_size as nat,
            buffered: self.buffered_bytes as nat,
            read_offset: self.read_offset as nat,
        }
    }
}

impl ReceiveWindow {
    /// An empty window.
    pub fn new(window_size: usize) -> (window: ReceiveWindow)
        ensures
            window@ == ReceiveModel::empty(window_size as nat),
            window@.wf(),
    {
        ReceiveWindow { window_size, buffered_bytes: 0, read_offset: 0 }
    }

    /// Takes `len` bytes into the window where they fit, and says whether they did.
    pub fn try_receive(&mut self, len: usize) -> (received: bool)
        requires
            old(self)@.buffered + len <= usize::MAX,
        ensures
            received == old(self)@.fits(len as nat),
            final(self)@ == old(self)@.after_receive(len as nat),
            old(self)@.wf() ==> final(self)@.wf(),
    {
        if self.buffered_bytes + len > self.window_size {
            return false;
        }
        self.buffered_bytes = self.buffered_bytes + len;
        true
    }

    /// The application has read `bytes` bytes.
    pub fn consume(&mut self, bytes: usize)
        requires
            old(self)@.read_offset + bytes <= u64::MAX,
        ensures
            final(self)@ == old(self)@.after_consume(bytes as nat),
            old(self)@.wf() ==> final(self)@.wf(),
    {
        self.buffered_bytes = self.buffered_bytes.saturating_sub(bytes);
        self.read_offset = self.read_offset + bytes as u64;
    }

    /// The bytes that were received and not read.
    pub fn buffered_bytes(&self) -> (bytes: usize)
        ensures
            bytes == self@.buffered,
    {
        self.buffered_bytes
    }

    /// The bytes that the application has read so far.
    pub fn read_offset(&self) -> (bytes: u64)
        ensures
            bytes == self@.read_offset,
    {
        self.read_offset
    }

    /// How many more bytes may be received.
    pub fn window_available(&self) -> (bytes: usize)
        ensures
            bytes == self@.room(),
    {
        self.window_size.saturating_sub(self.buffered_bytes)
    }
}

/// Reading all that was just received takes the window back to where it was.
pub proof fn law_consume_undoes_receive(window: ReceiveModel, len: nat)
    requires
        window.fits(len),
    ensures
        window.after_receive(len).after_consume(len).buffered == window.buffered,
        window.after_receive(len).after_consume(len).room() == window.room(),
{
}

/// Bytes are taken as long as the window has room for them, and take up just as
/// much of it; where it has none nothing changes.
pub proof fn law_sending_uses_up_the_room(window: SendModel, len: nat)
    requires
        window.unacked <= window.window_size,
    ensures
        window.room() + window.unacked == window.window_size,
        window.fits(len) <==> len <= window.room(),
        len <= window.window_size - window.unacked ==> window.after_send(len).unacked
            == window.unacked + len,
        len > window.window_size - window.unacked ==> window.after_send(len).unacked
            == window.unacked,
        window.after_send(len).window_size == window.window_size,
        window.after_send(len).last_ack == window.last_ack,
        SendModel::empty(len).room() == len,
{
}

/// An acknowledgement that lies less than half a circle ahead of the last one,
/// or is the first, gives its bytes back and is the last one then; any other
/// changes nothing.
pub proof fn law_acknowledged_bytes_are_given_back(
    window: SendModel,
    ack_num: u64,
    bytes: nat,
    last: u64,
)
    ensures
        ({
            let after = window.after_ack(ack_num, bytes);
            let ahead = (ack_num - last) % 0x1_0000_0000_0000_0000;
            let taken = window.last_ack is None || (window.last_ack == Some(last) && 0 < ahead
                < 0x8000_0000_0000_0000);
            &&& after.window_size == window.window_size
            &&& taken && bytes <= window.unacked ==> after.unacked + bytes == window.unacked
            &&& taken && bytes > window.unacked ==> after.unacked == 0
            &&& taken ==> after.last_ack == Some(ack_num)
            &&& window.last_ack == Some(last) && !taken ==> after == window
        }),
{
}

/// Bytes that come are taken as long as the window has room for them, and take
/// up just as much of it; where it has none nothing changes.
pub proof fn law_receiving_uses_up_the_room(window: ReceiveModel, len: nat)
    requires
        window.buffered <= window.window_size,
    ensures
        window.room() + window.buffered == window.window_size,
        window.fits(len) <==> len <= window.room(),
        len <= window.window_size - window.buffered ==> window.after_receive(len).buffered
            == window.buffered + len,
        len > window.window_size - window.buffered ==> window.after_receive(len).buffered
            == window.buffered,
        window.after_receive(len).window_size == window.window_size,
        window.after_receive(len).read_offset == window.read_offset,
        ReceiveModel::empty(len).room() == len,
        ReceiveModel::empty(len).read_offset == 0,
{
}

/// Bytes that are read leave the window, and are counted as read.
pub proof fn law_read_bytes_leave_the_window(window: ReceiveModel, bytes: nat)
    ensures
        bytes <= window.buffered ==> window.after_consume(bytes).buffered + bytes
            == window.buffered,
        bytes > window.buffered ==> window.after_consume(bytes).buffered == 0,
        window.after_consume(bytes).read_offset == window.read_offset + bytes,
        window.after_consume(bytes).window_size == window.window_size,
{
}

} // verus!
