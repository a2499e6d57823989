//! The signaling protocol: what hosts, clients and the server say to each
//! other, one message in a line.

use vstd::prelude::*;
use vstd::string::*;

verus! {

/// A signaling message.
#[derive(Debug)]
pub enum SignalMsg {
    /// A host asks for a room.
    CreateRoom { secret: Option<String> },
    /// The server has opened one.
    RoomCreated { room_id: String, my_addr: String },
    /// A client asks to join a room.
    JoinRoom { room_id: String, secret: Option<String> },
    /// The server has let it in.
    RoomInfo { host_addr: String, my_addr: String, room_id: String },
    /// The server tells a host of a new client.
    PeerJoined { peer_addr: String, peer_id: String, room_id: String },
    /// The server tells a host that a client has left.
    PeerLeft { peer_id: String, room_id: String },
    /// A peer is reachable; the server passes it on to the other side.
    P2PReady { room_id: String, peer_id: String },
    /// The server refuses a request.
    Error { reason: String },
    /// The server has closed a room.
    RoomClosed { reason: String },
}

/// A signaling message, as text.
#[verifier::ext_equal]
pub enum MsgModel {
    CreateRoom { secret: Option<Seq<char>> },
    RoomCreated { room_id: Seq<char>, my_addr: Seq<char> },
    JoinRoom { room_id: Seq<char>, secret: Option<Seq<char>> },
    RoomInfo { host_addr: Seq<char>, my_addr: Seq<char>, room_id: Seq<char> },
    PeerJoined { peer_addr: Seq<char>, peer_id: Seq<char>, room_id: Seq<char> },
    PeerLeft { peer_id: Seq<char>, room_id: Seq<char> },
    P2PReady { room_id: Seq<char>, peer_id: Seq<char> },
    Error { reason: Seq<char> },
    RoomClosed { reason: Seq<char> },
}

/// A text that may be missing.
pub open spec fn optional_text(s: Option<String>) -> Option<Seq<char>> {
    match s {
        Some(t) => Some(t@),
        None => None,
    }
}

impl View for SignalMsg {
    type V = MsgModel;

    open spec fn view(&self) -> MsgModel {
        match *self {
            SignalMsg::CreateRoom { secret } => MsgModel::CreateRoom {
                secret: optional_text(secret),
            },
            SignalMsg::RoomCreated { room_id, my_addr } => MsgModel::RoomCreated {
                room_id: room_id@,
                my_addr: my_addr@,
            },
            SignalMsg::JoinRoom { room_id, secret } => MsgModel::JoinRoom {
                room_id: room_id@,
                secret: optional_text(secret),
            },
            SignalMsg::RoomInfo { host_addr, my_addr, room_id } => MsgModel::RoomInfo {
                host_addr: host_addr@,
                my_addr: my_addr@,
                room_id: room_id@,
            },
            SignalMsg::PeerJoined { peer_addr, peer_id, room_id } => MsgModel::PeerJoined {
                peer_addr: peer_addr@,
                peer_id: peer_id@,
                room_id: room_id@,
            },
            SignalMsg::PeerLeft { peer_id, room_id } => MsgModel::PeerLeft {
                peer_id: peer_id@,
                room_id: room_id@,
            },
            SignalMsg::P2PReady { room_id, peer_id } => MsgModel::P2PReady {
                room_id: room_id@,
                peer_id: peer_id@,
            },
            SignalMsg::Error { reason } => MsgModel::Error { reason: reason@ },
            SignalMsg::RoomClosed { reason } => MsgModel::RoomClosed { reason: reason@ },
        }
    }
}

/// Whether a character is white space: those with the Unicode property
/// White_Space.
pub open spec fn is_white(c: char) -> bool {
    let n = c as int;
    ||| 0x09 <= n <= 0x0d
    ||| n == 0x20
    ||| n == 0x85
    ||| n == 0xa0
    ||| n == 0x1680
    ||| 0x2000 <= n <= 0x200a
    ||| n == 0x2028
    ||| n == 0x2029
    ||| n == 0x202f
    ||| n == 0x205f
    ||| n == 0x3000
}

/// A text without the white space at its two ends.
pub open spec fn trimmed(s: Seq<char>) -> Seq<char>
    decreases s.len(),
{
    if s.len() == 0 {
        s
    } else if is_white(s[0]) {
        trimmed(s.drop_first())
    } else if is_white(s.last()) {
        trimmed(s.drop_last())
    } else {
        s
    }
}

/// Whether a character is white space.
fn is_white_char(c: char) -> (white: bool)
    ensures
        white == is_white(c),
{
    let n: u32 = c as u32;
    (0x09 <= n && n <= 0x0d) || n == 0x20 || n == 0x85 || n == 0xa0 || n == 0x1680 || (0x2000 <= n
        && n <= 0x200a) || n == 0x2028 || n == 0x2029 || n == 0x202f || n == 0x205f || n == 0x3000
}

/// The text without the white space at its two ends.
fn trim(s: &str) -> (t: &str)
    ensures
        t@ == trimmed(s@),
{
    let mut from: usize = 0;
    let mut to: usize = s.unicode_len();
    assert(s@.subrange(0, to as int) =~= s@);
    while from < to && is_white_char(s.get_char(from))
        invariant
            from <= to == s@.len(),
            trimmed(s@.subrange(from as int, to as int)) == trimmed(s@),
        decreases to - from,
    {
        let ghost rest = s@.subrange(from as int, to as int);
        assert(rest.drop_first() =~= s@.subrange(from + 1, to as int));
        from = from + 1;
    }
    while from < to && is_white_char(s.get_char(to - 1))
        invariant
            from <= to <= s@.len(),
            from < to ==> !is_white(s@[from as int]),
            trimmed(s@.subrange(from as int, to as int)) == trimmed(s@),
        decreases to - from,
    {
        let ghost rest = s@.subrange(from as int, to as int);
        assert(rest.drop_last() =~= s@.subrange(from as int, to - 1));
        to = to - 1;
    }
    s.substring_char(from, to)
}

/// The line that carries a message.
pub fn frame(json: &str) -> (line: String)
    ensures
        line@ == json@.push('\n'),
{
    let mut line = json.to_owned();
    line.push('\n');
    line
}

/// The message that a line carries; none where the connection was closed, which
/// reads as an empty line without its end.
pub fn unframe(line: &str) -> (json: Option<String>)
    ensures
        match json {
            None => line@.len() == 0,
            Some(text) => line@.len() > 0 && text@ == trimmed(line@),
        },
{
    if line.is_empty() {
        None
    } else {
        Some(trim(line).to_owned())
    }
}

/// A message comes out of its line as it went in, as long as it has no white
/// space at its two ends.
pub proof fn law_line_gives_the_message_back(json: Seq<char>)
    requires
        json.len() > 0,
        !is_white(json[0]),
        !is_white(json.last()),
    ensures
        trimmed(json.push('\n')) == json,
{
    let line = json.push('\n');
    assert(line.drop_last() =~= json);
    assert(is_white(line.last()));
    assert(trimmed(line) == trimmed(json));
}

/// Whether a text without white space at its ends stands in another from `i` to
/// `j`, with nothing but white space around it.
pub open spec fn is_core(s: Seq<char>, i: int, j: int) -> bool {
    &&& 0 <= i <= j <= s.len()
    &&& forall|k: int| 0 <= k < i ==> is_white(#[trigger] s[k])
    &&& forall|k: int| j <= k < s.len() ==> is_white(#[trigger] s[k])
    &&& i < j ==> !is_white(s[i]) && !is_white(s[j - 1])
}

proof fn lemma_core(s: Seq<char>) -> (ends: (int, int))
    ensures
        is_core(s, ends.0, ends.1),
        trimmed(s) == s.subrange(ends.0, ends.1),
    decreases s.len(),
{
    if s.len() == 0 {
        assert(s.subrange(0, 0) =~= s);
        (0int, 0int)
    } else if is_white(s[0]) {
        let rest = s.drop_first();
        let (i, j) = lemma_core(rest);
        lemma_core_front(s, i, j);
        (i + 1, j + 1)
    } else if is_white(s.last()) {
        let front = s.drop_last();
        let (i, j) = lemma_core(front);
        lemma_core_back(s, i, j);
        (i, j)
    } else {
        assert(s.subrange(0, s.len() as int) =~= s);
        (0int, s.len() as int)
    }
}

proof fn lemma_core_front(s: Seq<char>, i: int, j: int)
    requires
        s.len() > 0,
        is_white(s[0]),
        is_core(s.drop_first(), i, j),
    ensures
        is_core(s, i + 1, j + 1),
        s.drop_first().subrange(i, j) == s.subrange(i + 1, j + 1),
{
    let rest = s.drop_first();
    assert forall|k: int| 0 <= k < i + 1 implies is_white(#[trigger] s[k]) by {
        if k > 0 {
            assert(is_white(rest[k - 1]));
        }
    }
    assert forall|k: int| j + 1 <= k < s.len() implies is_white(#[trigger] s[k]) by {
        assert(is_white(rest[k - 1]));
    }
    assert(rest.subrange(i, j) =~= s.subrange(i + 1, j + 1));
}

proof fn lemma_core_back(s: Seq<char>, i: int, j: int)
    requires
        s.len() > 0,
        is_white(s.last()),
        is_core(s.drop_last(), i, j),
    ensures
        is_core(s, i, j),
        s.drop_last().subrange(i, j) == s.subrange(i, j),
{
    let front = s.drop_last();
    assert forall|k: int| 0 <= k < i implies is_white(#[trigger] s[k]) by {
        assert(is_white(front[k]));
    }
    assert forall|k: int| j <= k < s.len() implies is_white(#[trigger] s[k]) by {
        if k < front.len() {
            assert(is_white(front[k]));
        }
    }
    assert(front.subrange(i, j) =~= s.subrange(i, j));
}

/// Trimming cuts off white space at the two ends, all of it and nothing else.
pub proof fn law_trimming_cuts_white_space_alone(s: Seq<char>)
    ensures
        exists|i: int, j: int| #[trigger] is_core(s, i, j) && trimmed(s) == s.subrange(i, j),
{
    let (i, j) = lemma_core(s);
    assert(is_core(s, i, j));
}

} // verus!
