//! The binary packet protocol.
//!
//! Wire format, integers in big-endian order:
//!
//! ```text
//! [4B magic] [1B flags] [8B connection_id] [2B stream_id] [8B seq_num] [8B ack_num] [payload]
//! ```

use vstd::prelude::*;
use vstd::slice::slice_subrange;
use vstd::slice::slice_to_vec;

verus! {

/// "PTP\0".
pub const MAGIC: [u8; 4] = [0x50, 0x54, 0x50, 0x00];

/// 4 + 1 + 8 + 2 + 8 + 8.
pub const HEADER_LEN: usize = 31;

/// Opens a stream.
pub const FLAG_SYN: u8 = 0x01;

/// Acknowledges.
pub const FLAG_ACK: u8 = 0x02;

/// Carries data.
pub const FLAG_DATA: u8 = 0x04;

/// Closes a stream.
pub const FLAG_FIN: u8 = 0x08;

/// Resets a stream.
pub const FLAG_RST: u8 = 0x10;

/// Asks whether the other end is alive.
pub const FLAG_PING: u8 = 0x20;

/// Answers a ping.
pub const FLAG_PONG: u8 = 0x40;

/// The stream that carries pings and pongs.
pub const CONTROL_STREAM: u16 = 0;

/// One datagram of the tunnel.
#[derive(Debug, Clone, PartialEq, Eq)]
pub struct Packet {
    pub flags: u8,
    pub connection_id: u64,
    pub stream_id: u16,
    pub seq_num: u64,
    pub ack_num: u64,
    pub payload: Vec<u8>,
}

/// What a [`Packet`] says.
#[verifier::ext_equal]
pub struct PacketModel {
    pub flags: u8,
    pub connection_id: u64,
    pub stream_id: u16,
    pub seq_num: u64,
    pub ack_num: u64,
    pub payload: Seq<u8>,
}

impl View for Packet {
    type V = PacketModel;

    open spec fn view(&self) -> PacketModel {
        PacketModel {
            flags: self.flags,
            connection_id: self.connection_id,
            stream_id: self.stream_id,
            seq_num: self.seq_num,
            ack_num: self.ack_num,
            payload: self.payload@,
        }
    }
}

/// The packets of a sequence, each by what it says.
pub open spec fn packet_models(packets: Seq<Packet>) -> Seq<PacketModel> {
    packets.map_values(|p: Packet| p@)
}

/// 256 to the power `n`.
pub open spec fn pow256(n: nat) -> nat
    decreases n,
{
    if n == 0 {
        1
    } else {
        256 * pow256((n - 1) as nat)
    }
}

/// The last `n` bytes of `value`, most significant first.
pub open spec fn be_bytes(value: nat, n: nat) -> Seq<u8>
    decreases n,
{
    if n == 0 {
        Seq::empty()
    } else {
        be_bytes(value / 256, (n - 1) as nat).push((value % 256) as u8)
    }
}

/// The number that the bytes stand for, most significant first.
pub open spec fn be_value(bytes: Seq<u8>) -> nat
    decreases bytes.len(),
{
    if bytes.len() == 0 {
        0
    } else {
        be_value(bytes.drop_last()) * 256 + bytes.last() as nat
    }
}

/// The header of a packet, byte for byte.
pub open spec fn header_bytes(p: PacketModel) -> Seq<u8> {
    MAGIC@ + seq![p.flags] + be_bytes(p.connection_id as nat, 8) + be_bytes(p.stream_id as nat, 2)
        + be_bytes(p.seq_num as nat, 8) + be_bytes(p.ack_num as nat, 8)
}

/// The datagram that carries a packet.
pub open spec fn wire_bytes(p: PacketModel) -> Seq<u8> {
    header_bytes(p) + p.payload
}

/// Whether a datagram is one of this protocol.
pub open spec fn is_wire(data: Seq<u8>) -> bool {
    data.len() >= HEADER_LEN && data.subrange(0, 4) == MAGIC@
}

/// What a datagram says, where it is one of this protocol.
pub open spec fn wire_packet(data: Seq<u8>) -> PacketModel {
    PacketModel {
        flags: data[4],
        connection_id: be_value(data.subrange(5, 13)) as u64,
        stream_id: be_value(data.subrange(13, 15)) as u16,
        seq_num: be_value(data.subrange(15, 23)) as u64,
        ack_num: be_value(data.subrange(23, 31)) as u64,
        payload: data.subrange(31, data.len() as int),
    }
}

proof fn lemma_pow256_values()
    ensures
        pow256(2) == 0x1_0000,
        pow256(8) == 0x1_0000_0000_0000_0000,
{
    reveal_with_fuel(pow256, 9);
}

proof fn lemma_be_bytes_len(value: nat, n: nat)
    ensures
        be_bytes(value, n).len() == n,
    decreases n,
{
    if n > 0 {
        lemma_be_bytes_len(value / 256, (n - 1) as nat);
    }
}

proof fn lemma_be_value_bound(bytes: Seq<u8>)
    ensures
        be_value(bytes) < pow256(bytes.len()),
    decreases bytes.len(),
{
    if bytes.len() > 0 {
        lemma_be_value_bound(bytes.drop_last());
    }
}

proof fn lemma_value_of_bytes(value: nat, n: nat)
    requires
        value < pow256(n),
    ensures
        be_value(be_bytes(value, n)) == value,
    decreases n,
{
    if n > 0 {
        lemma_value_of_bytes(value / 256, (n - 1) as nat);
        assert(be_bytes(value, n).drop_last() =~= be_bytes(value / 256, (n - 1) as nat));
    }
}

proof fn lemma_bytes_of_value(bytes: Seq<u8>)
    ensures
        be_bytes(be_value(bytes), bytes.len()) == bytes,
    decreases bytes.len(),
{
    if bytes.len() > 0 {
        lemma_bytes_of_value(bytes.drop_last());
        assert(be_value(bytes) / 256 == be_value(bytes.drop_last()));
        assert(be_value(bytes) % 256 == bytes.last());
        assert(be_bytes(be_value(bytes), bytes.len()) =~= bytes);
    }
}

/// A datagram is as long as the header and the payload together.
pub proof fn law_wire_length(p: PacketModel)
    ensures
        wire_bytes(p).len() == HEADER_LEN + p.payload.len(),
{
    lemma_be_bytes_len(p.connection_id as nat, 8);
    lemma_be_bytes_len(p.stream_id as nat, 2);
    lemma_be_bytes_len(p.seq_num as nat, 8);
    lemma_be_bytes_len(p.ack_num as nat, 8);
}

/// Decoding what was encoded gives the packet back.
pub proof fn law_decode_encode(p: PacketModel)
    ensures
        is_wire(wire_bytes(p)),
        wire_packet(wire_bytes(p)) == p,
{
    let data = wire_bytes(p);
    law_wire_length(p);
    lemma_pow256_values();
    lemma_be_bytes_len(p.connection_id as nat, 8);
    lemma_be_bytes_len(p.stream_id as nat, 2);
    lemma_be_bytes_len(p.seq_num as nat, 8);
    lemma_be_bytes_len(p.ack_num as nat, 8);
    lemma_value_of_bytes(p.connection_id as nat, 8);
    lemma_value_of_bytes(p.stream_id as nat, 2);
    lemma_value_of_bytes(p.seq_num as nat, 8);
    lemma_value_of_bytes(p.ack_num as nat, 8);
    assert(data.subrange(0, 4) =~= MAGIC@);
    assert(data.subrange(5, 13) =~= be_bytes(p.connection_id as nat, 8));
    assert(data.subrange(13, 15) =~= be_bytes(p.stream_id as nat, 2));
    assert(data.subrange(15, 23) =~= be_bytes(p.seq_num as nat, 8));
    assert(data.subrange(23, 31) =~= be_bytes(p.ack_num as nat, 8));
    assert(data.subrange(31, data.len() as int) =~= p.payload);
}

/// Encoding what was decoded gives the datagram back: no two datagrams say the same.
pub proof fn law_encode_decode(data: Seq<u8>)
    requires
        is_wire(data),
    ensures
        wire_bytes(wire_packet(data)) == data,
{
    let p = wire_packet(data);
    lemma_pow256_values();
    lemma_be_value_bound(data.subrange(5, 13));
    lemma_be_value_bound(data.subrange(13, 15));
    lemma_be_value_bound(data.subrange(15, 23));
    lemma_be_value_bound(data.subrange(23, 31));
    lemma_bytes_of_value(data.subrange(5, 13));
    lemma_bytes_of_value(data.subrange(13, 15));
    lemma_bytes_of_value(data.subrange(15, 23));
    lemma_bytes_of_value(data.subrange(23, 31));
    assert(wire_bytes(p) =~= data);
}

/// Two packets with the same datagram say the same.
pub proof fn law_encode_injective(p: PacketModel, q: PacketModel)
    requires
        wire_bytes(p) == wire_bytes(q),
    ensures
        p == q,
{
    law_decode_encode(p);
    law_decode_encode(q);
}

/// Appends the last `n` bytes of `value`, most significant first.
fn push_be(buf: &mut Vec<u8>, value: u64, n: usize)
    ensures
        final(buf)@ == old(buf)@ + be_bytes(value as nat, n as nat),
    decreases n,
{
    if n > 0 {
        push_be(buf, value / 256, n - 1);
        buf.push((value % 256) as u8);
    }
    assert(buf@ =~= old(buf)@ + be_bytes(value as nat, n as nat));
}

/// Reads `n` bytes from `start` as one number, most significant first.
fn read_be(data: &[u8], start: usize, n: usize) -> (value: u64)
    requires
        n <= 8,
        start + n <= data@.len(),
    ensures
        value == be_value(data@.subrange(start as int, start + n)),
{
    let len: usize = data.len();
    let mut value: u64 = 0;
    let mut i: usize = 0;
    while i < n
        invariant
            i <= n <= 8,
            start + n <= len == data@.len(),
            value == be_value(data@.subrange(start as int, start + i)),
        decreases n - i,
    {
        let ghost seen = data@.subrange(start as int, start + i);
        let ghost next = data@.subrange(start as int, start + i + 1);
        proof {
            lemma_be_value_bound(seen);
            reveal_with_fuel(pow256, 9);
            assert(next.drop_last() =~= seen);
        }
        value = value * 256 + data[start + i] as u64;
        i = i + 1;
    }
    value
}

/// Whether a datagram starts with the magic bytes.
fn has_magic(data: &[u8]) -> (yes: bool)
    requires
        data@.len() >= 4,
    ensures
        yes == (data@.subrange(0, 4) == MAGIC@),
{
    let yes = data[0] == MAGIC[0] && data[1] == MAGIC[1] && data[2] == MAGIC[2] && data[3]
        == MAGIC[3];
    proof {
        let head = data@.subrange(0, 4);
        if yes {
            assert(head =~= MAGIC@);
        } else {
            assert(head[0] == data@[0] && head[1] == data@[1] && head[2] == data@[2] && head[3]
                == data@[3]);
        }
    }
    yes
}

impl Packet {
    /// The datagram that carries this packet.
    pub fn encode(&self) -> (data: Vec<u8>)
        ensures
            data@ == wire_bytes(self@),
    {
        let mut buf: Vec<u8> = Vec::new();
        buf.extend_from_slice(&MAGIC);
        buf.push(self.flags);
        push_be(&mut buf, self.connection_id, 8);
        push_be(&mut buf, self.stream_id as u64, 2);
        push_be(&mut buf, self.seq_num, 8);
        push_be(&mut buf, self.ack_num, 8);
        assert(buf@ =~= header_bytes(self@));
        buf.extend_from_slice(self.payload.as_slice());
        assert(buf@ =~= wire_bytes(self@));
        buf
    }

    /// The packet that a datagram carries; none where it is too short for a
    /// header or does not start with the magic bytes.
    pub fn decode(data: &[u8]) -> (packet: Option<Packet>)
        ensures
            match packet {
                Some(p) => is_wire(data@) && p@ == wire_packet(data@),
                None => !is_wire(data@),
            },
    {
        if data.len() < HEADER_LEN || !has_magic(data) {
            return None;
        }
        Some(
            Packet {
                flags: data[4],
                connection_id: read_be(data, 5, 8),
                stream_id: Self::read_stream_id(data),
                seq_num: read_be(data, 15, 8),
                ack_num: read_be(data, 23, 8),
                payload: slice_to_vec(slice_subrange(data, HEADER_LEN, data.len())),
            },
        )
    }

    fn read_stream_id(data: &[u8]) -> (id: u16)
        requires
            data@.len() >= HEADER_LEN,
        ensures
            id == be_value(data@.subrange(13, 15)),
    {
        proof {
            lemma_be_value_bound(data@.subrange(13, 15));
            lemma_pow256_values();
        }
        read_be(data, 13, 2) as u16
    }

    /// Whether any bit of `flag` is set.
    pub fn has_flag(&self, flag: u8) -> (set: bool)
        ensures
            set == flag_set(self.flags, flag),
    {
        self.flags & flag != 0
    }
}

/// Whether `flags` holds a bit of `flag`.
pub open spec fn flag_set(flags: u8, flag: u8) -> bool {
    flags & flag != 0
}

/// The number that eight bytes stand for, most significant first.
pub open spec fn number_of(data: Seq<u8>, start: int) -> int {
    ((((((data[start] * 256 + data[start + 1]) * 256 + data[start + 2]) * 256 + data[start + 3])
        * 256 + data[start + 4]) * 256 + data[start + 5]) * 256 + data[start + 6]) * 256
        + data[start + 7]
}

proof fn lemma_number_of(data: Seq<u8>, start: int)
    requires
        0 <= start,
        start + 8 <= data.len(),
    ensures
        be_value(data.subrange(start, start + 8)) == number_of(data, start),
{
    lemma_number_step(data, start, 0);
    lemma_number_step(data, start, 1);
    lemma_number_step(data, start, 2);
    lemma_number_step(data, start, 3);
    lemma_number_step(data, start, 4);
    lemma_number_step(data, start, 5);
    lemma_number_step(data, start, 6);
    lemma_number_step(data, start, 7);
    assert(data.subrange(start, start) =~= Seq::empty());
}

proof fn lemma_number_step(data: Seq<u8>, start: int, n: int)
    requires
        0 <= start,
        0 <= n,
        start + n < data.len(),
    ensures
        be_value(data.subrange(start, start + n + 1)) == be_value(
            data.subrange(start, start + n),
        ) * 256 + data[start + n],
{
    let more = data.subrange(start, start + n + 1);
    assert(more.drop_last() =~= data.subrange(start, start + n));
}

/// A datagram begins with "PTP" and a zero byte, then come the flags, then the
/// connection, the stream, the number of the packet and the number that it
/// acknowledges, each most significant byte first, and then the payload.
pub proof fn law_wire_layout(p: PacketModel)
    ensures
        ({
            let data = wire_bytes(p);
            &&& data.len() == 31 + p.payload.len()
            &&& data[0] == 0x50 && data[1] == 0x54 && data[2] == 0x50 && data[3] == 0
            &&& data[4] == p.flags
            &&& number_of(data, 5) == p.connection_id
            &&& data[13] * 256 + data[14] == p.stream_id
            &&& number_of(data, 15) == p.seq_num
            &&& number_of(data, 23) == p.ack_num
            &&& forall|i: int| 0 <= i < p.payload.len() ==> data[31 + i] == #[trigger] p.payload[i]
        }),
{
    let data = wire_bytes(p);
    law_wire_length(p);
    law_decode_encode(p);
    lemma_pow256_values();
    lemma_be_value_bound(data.subrange(5, 13));
    lemma_be_value_bound(data.subrange(13, 15));
    lemma_be_value_bound(data.subrange(15, 23));
    lemma_be_value_bound(data.subrange(23, 31));
    lemma_number_of(data, 5);
    lemma_number_of(data, 15);
    lemma_number_of(data, 23);
    lemma_number_step(data, 13, 0);
    lemma_number_step(data, 13, 1);
    assert(data.subrange(13, 13) =~= Seq::empty());
    assert(data.subrange(0, 4)[0] == data[0]);
    assert(data.subrange(0, 4)[1] == data[1]);
    assert(data.subrange(0, 4)[2] == data[2]);
    assert(data.subrange(0, 4)[3] == data[3]);
    assert forall|i: int| 0 <= i < p.payload.len() implies data[31 + i]
        == #[trigger] p.payload[i] by {
        assert(data.subrange(31, data.len() as int)[i] == data[31 + i]);
    }
}

/// A datagram that is shorter than a header, or begins otherwise, is none of this
/// protocol; every other is.
pub proof fn law_foreign_datagrams_are_told_apart(data: Seq<u8>)
    ensures
        is_wire(data) <==> data.len() >= 31 && data[0] == 0x50 && data[1] == 0x54 && data[2] == 0x50
            && data[3] == 0,
{
    if data.len() >= 31 {
        let head = data.subrange(0, 4);
        assert(head[0] == data[0] && head[1] == data[1] && head[2] == data[2] && head[3]
            == data[3]);
        if data[0] == 0x50 && data[1] == 0x54 && data[2] == 0x50 && data[3] == 0 {
            assert(head =~= MAGIC@);
        }
    }
}

} // verus!
