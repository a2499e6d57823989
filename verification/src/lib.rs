//! P2P TCP tunnel over UDP: the rules of its protocol, its server, its host and
//! its client, without their sockets.

#![allow(unused_imports)]

pub mod addr;
pub mod client;
pub mod config;
pub mod crypto;
pub mod end_to_end;
pub mod host;
pub mod protocol;
pub mod punch;
pub mod server;
pub mod signal;
pub mod string_map;
pub mod text;
pub mod time;
pub mod tunnel;
