//! Which handler a datagram goes to.

use vstd::prelude::*;
use crate::addr::PeerAddr;
use crate::protocol::packet;
use crate::protocol::packet::{Packet, PacketModel};

verus! {

/// Dispatches datagrams to handlers by the address that they come from.
///
/// One socket is shared by all handlers, and a handler is known by a number.
/// What comes from an address without a handler is dropped.
#[derive(Debug)]
pub struct PacketDemux {
    peers: Vec<(PeerAddr, u64)>,
}

/// Whether the entry of `addr` stands at `i`.
spec fn is_at(peers: Seq<(PeerAddr, u64)>, addr: PeerAddr, i: int) -> bool {
    0 <= i < peers.len() && peers[i].0 == addr
}

spec fn as_map(peers: Seq<(PeerAddr, u64)>) -> Map<PeerAddr, u64> {
    Map::new(
        |addr: PeerAddr| exists|i: int| is_at(peers, addr, i),
        |addr: PeerAddr| peers[choose|i: int| is_at(peers, addr, i)].1,
    )
}

spec fn is_unique(peers: Seq<(PeerAddr, u64)>) -> bool {
    forall|i: int, j: int|
        0 <= i < peers.len() && 0 <= j < peers.len() && (#[trigger] peers[i]).0 == (
        #[trigger] peers[j]).0 ==> i == j
}

proof fn lemma_entry(peers: Seq<(PeerAddr, u64)>, i: int)
    requires
        is_unique(peers),
        0 <= i < peers.len(),
    ensures
        as_map(peers).contains_key(peers[i].0),
        as_map(peers)[peers[i].0] == peers[i].1,
{
    let addr = peers[i].0;
    assert(is_at(peers, addr, i));
    let j = choose|j: int| is_at(peers, addr, j);
    assert(is_at(peers, addr, j));
    assert(peers[i].0 == peers[j].0);
}

/// The handler that a datagram goes to, and the packet in it; none where it is
/// no packet or its address has no handler.
pub open spec fn routed(peers: Map<PeerAddr, u64>, data: Seq<u8>, from: PeerAddr) -> Option<
    (u64, PacketModel),
> {
    if packet::is_wire(data) && peers.contains_key(from) {
        Some((peers[from], packet::wire_packet(data)))
    } else {
        None
    }
}

impl View for PacketDemux {
    type V = Map<PeerAddr, u64>;

    closed spec fn view(&self) -> Map<PeerAddr, u64> {
        as_map(self.peers@)
    }
}

impl PacketDemux {
    /// No address has two handlers.
    pub closed spec fn wf(&self) -> bool {
        is_unique(self.peers@)
    }

    /// No handlers.
    pub fn new() -> (demux: PacketDemux)
        ensures
            demux.wf(),
            demux@ == Map::<PeerAddr, u64>::empty(),
    {
        let demux = PacketDemux { peers: Vec::new() };
        assert(demux@ =~= Map::<PeerAddr, u64>::empty());
        demux
    }

    /// Where the handler for an address stands.
    fn find(&self, addr: PeerAddr) -> (at: Option<usize>)
        requires
            self.wf(),
        ensures
            match at {
                Some(i) => i < self.peers@.len() && self.peers@[i as int].0 == addr
                    && self@.contains_key(addr) && self@[addr] == self.peers@[i as int].1,
                None => !self@.contains_key(addr),
            },
    {
        let mut i: usize = 0;
        while i < self.peers.len()
            invariant
                self.wf(),
                i <= self.peers@.len(),
                forall|j: int| 0 <= j < i ==> (#[trigger] self.peers@[j]).0 != addr,
            decreases self.peers.len() - i,
        {
            if self.peers[i].0 == addr {
                proof {
                    lemma_entry(self.peers@, i as int);
                }
                return Some(i);
            }
            i = i + 1;
        }
        assert(!self@.contains_key(addr)) by {
            if self@.contains_key(addr) {
                let j = choose|j: int| is_at(self.peers@, addr, j);
                assert(self.peers@[j].0 == addr);
            }
        }
        None
    }

    /// Makes a handler the one for datagrams from `addr`.
    pub fn register(&mut self, addr: PeerAddr, handler: u64)
        requires
            old(self).wf(),
        ensures
            final(self).wf(),
            final(self)@ == old(self)@.insert(addr, handler),
    {
        self.unregister(addr);
        let ghost before = self.peers@;
        self.peers.push((addr, handler));
        proof {
            let after = self.peers@;
            assert(!as_map(before).contains_key(addr));
            assert forall|a: int, b: int|
                0 <= a < after.len() && 0 <= b < after.len() && (#[trigger] after[a]).0 == (
                #[trigger] after[b]).0 implies a == b by {
                if a < before.len() {
                    assert(is_at(before, before[a].0, a));
                }
                if b < before.len() {
                    assert(is_at(before, before[b].0, b));
                }
            }
            assert forall|k: PeerAddr|
                #![trigger as_map(after).dom().contains(k)]
                #![trigger as_map(after)[k]]
                as_map(after).contains_key(k) == as_map(before).insert(addr, handler).contains_key(
                    k,
                ) && (as_map(after).contains_key(k) ==> as_map(after)[k] == as_map(before).insert(
                    addr,
                    handler,
                )[k]) by {
                if as_map(after).contains_key(k) {
                    let j = choose|j: int| is_at(after, k, j);
                    lemma_entry(after, j);
                    if j < before.len() {
                        assert(is_at(before, k, j));
                        lemma_entry(before, j);
                    }
                }
                if as_map(before).contains_key(k) {
                    let j = choose|j: int| is_at(before, k, j);
                    assert(is_at(after, k, j));
                }
                assert(is_at(after, addr, before.len() as int));
            }
            assert(as_map(after) =~= as_map(before).insert(addr, handler));
            assert(as_map(after) =~= old(self)@.insert(addr, handler));
        }
    }

    /// Takes the handler for datagrams from `addr` away; they are dropped then.
    pub fn unregister(&mut self, addr: PeerAddr)
        requires
            old(self).wf(),
        ensures
            final(self).wf(),
            final(self)@ == old(self)@.remove(addr),
    {
        match self.find(addr) {
            None => {
                assert(self@.remove(addr) =~= self@);
            },
            Some(i) => {
                let ghost before = self.peers@;
                self.peers.remove(i);
                proof {
                    let after = self.peers@;
                    assert forall|a: int, b: int|
                        0 <= a < after.len() && 0 <= b < after.len() && (#[trigger] after[a]).0 == (
                        #[trigger] after[b]).0 implies a == b by {
                        let a0 = if a < i { a } else { a + 1 };
                        let b0 = if b < i { b } else { b + 1 };
                        assert(before[a0].0 == before[b0].0);
                    }
                    assert forall|k: PeerAddr|
                        #![trigger as_map(after).dom().contains(k)]
                        #![trigger as_map(after)[k]]
                        as_map(after).contains_key(k) == as_map(before).remove(addr).contains_key(k)
                            && (as_map(after).contains_key(k) ==> as_map(after)[k] == as_map(
                            before,
                        ).remove(addr)[k]) by {
                        if as_map(after).contains_key(k) {
                            let j = choose|j: int| is_at(after, k, j);
                            let j0 = if j < i { j } else { j + 1 };
                            assert(after[j] == before[j0]);
                            assert(is_at(before, k, j0));
                            lemma_entry(after, j);
                            lemma_entry(before, j0);
                            if k == addr {
                                assert(before[j0].0 == before[i as int].0);
                            }
                        }
                        if as_map(before).contains_key(k) && k != addr {
                            let j = choose|j: int| is_at(before, k, j);
                            let j1 = if j < i { j } else { j - 1 };
                            assert(after[j1] == before[j]);
                            assert(is_at(after, k, j1));
                        }
                    }
                    assert(as_map(after) =~= as_map(before).remove(addr));
                }
            },
        }
    }

    /// The handler that a datagram goes to, and the packet in it; none where it
    /// is no packet or its address has no handler.
    pub fn dispatch(&self, data: &[u8], from: PeerAddr) -> (target: Option<(u64, Packet)>)
        requires
            self.wf(),
        ensures
            match target {
                Some((handler, p)) => routed(self@, data@, from) == Some((handler, p@)),
                None => routed(self@, data@, from) is None,
            },
    {
        match Packet::decode(data) {
            None => None,
            Some(p) => match self.find(from) {
                None => None,
                Some(i) => Some((self.peers[i].1, p)),
            },
        }
    }
}

/// A packet of a peer reaches the handler that was registered for its address,
/// as it was sent.
pub proof fn law_packet_reaches_its_handler(
    peers: Map<PeerAddr, u64>,
    addr: PeerAddr,
    handler: u64,
    p: PacketModel,
)
    ensures
        routed(peers.insert(addr, handler), packet::wire_bytes(p), addr) == Some((handler, p)),
{
    packet::law_decode_encode(p);
}

/// What comes from an address without a handler is dropped.
pub proof fn law_unregistered_is_dropped(
    peers: Map<PeerAddr, u64>,
    addr: PeerAddr,
    data: Seq<u8>,
)
    ensures
        routed(peers.remove(addr), data, addr) is None,
{
}

/// The handlers of two addresses do not get in each other's way.
pub proof fn law_peers_are_apart(
    peers: Map<PeerAddr, u64>,
    addr: PeerAddr,
    handler: u64,
    other: PeerAddr,
    data: Seq<u8>,
)
    requires
        addr != other,
    ensures
        routed(peers.insert(addr, handler), data, other) == routed(peers, data, other),
        routed(peers.remove(addr), data, other) == routed(peers, data, other),
{
}

/// What is no packet is dropped, wherever it comes from.
pub proof fn law_garbage_is_dropped(peers: Map<PeerAddr, u64>, data: Seq<u8>, from: PeerAddr)
    requires
        data.len() < 31 || data[0] != 0x50 || data[1] != 0x54 || data[2] != 0x50 || data[3] != 0,
    ensures
        routed(peers, data, from) is None,
{
    packet::law_foreign_datagrams_are_told_apart(data);
}

} // verus!
