//! What the program is told at its start.

use vstd::prelude::*;
use vstd::string::*;
use crate::text;

verus! {

/// The command line.
#[derive(Debug)]
pub struct Cli {
    pub mode: Mode,
}

/// What the program is to be.
#[derive(Debug)]
pub enum Mode {
    /// The signaling server; it needs a public address.
    Server { listen: String },
    /// A host, which offers a local TCP service through the tunnel.
    Host { server: String, target: String, secret: Option<String> },
    /// A client, which joins a room and offers its service at a local port.
    Client { server: String, room: String, local_port: u16, secret: Option<String> },
}

/// The address of a service: a bare port stands for one on this machine.
pub open spec fn normalized(target: Seq<char>) -> Seq<char> {
    if target.contains(':') {
        target
    } else {
        "127.0.0.1:"@ + target
    }
}

/// Whether a text holds a colon.
fn has_colon(s: &str) -> (yes: bool)
    ensures
        yes == s@.contains(':'),
{
    let len: usize = s.unicode_len();
    let mut i: usize = 0;
    while i < len
        invariant
            i <= len,
            len == s@.len(),
            forall|j: int| 0 <= j < i ==> s@[j] != ':',
        decreases len - i,
    {
        if s.get_char(i) == ':' {
            return true;
        }
        i = i + 1;
    }
    false
}

/// The address of a service; a bare port number stands for one on this machine.
pub fn normalize_target(target: String) -> (addr: String)
    ensures
        addr@ == normalized(target@),
{
    if has_colon(target.as_str()) {
        target
    } else {
        let mut addr = "127.0.0.1:".to_owned();
        addr.append(target.as_str());
        addr
    }
}

/// The address at which datagrams are received: the given port on every
/// interface.
pub fn udp_bind_addr(port: u16) -> (addr: String)
    ensures
        addr@ == "0.0.0.0:"@ + text::decimal(port as nat),
{
    let mut addr = "0.0.0.0:".to_owned();
    text::push_decimal(&mut addr, port as u128);
    addr
}

/// The address at which a client offers the service: the given port on this
/// machine.
pub fn local_addr(port: u16) -> (addr: String)
    ensures
        addr@ == "127.0.0.1:"@ + text::decimal(port as nat),
{
    let mut addr = "127.0.0.1:".to_owned();
    text::push_decimal(&mut addr, port as u128);
    addr
}

/// An address stays as it is: making it complete twice changes nothing more.
pub proof fn law_normalizing_is_final(target: Seq<char>)
    ensures
        normalized(target).contains(':'),
        normalized(normalized(target)) == normalized(target),
{
    if !target.contains(':') {
        reveal_strlit("127.0.0.1:");
        assert(normalized(target)[9] == ':');
    }
}

/// An address with a colon stays as it is; without one it is a port, and stands
/// whole behind the address of this machine.
pub proof fn law_bare_port_is_local(target: Seq<char>)
    ensures
        target.contains(':') ==> normalized(target) == target,
        !target.contains(':') ==> normalized(target).take(10) == "127.0.0.1:"@
            && normalized(target).skip(10) == target,
{
    reveal_strlit("127.0.0.1:");
    if !target.contains(':') {
        assert(normalized(target).take(10) =~= "127.0.0.1:"@);
        assert(normalized(target).skip(10) =~= target);
    }
}

} // verus!
