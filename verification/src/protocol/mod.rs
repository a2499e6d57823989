//! The tunnel's wire protocol and what each end keeps about its streams.

pub mod congestion;
pub mod packet;
pub mod stream;
pub mod stream_effects;
pub mod stream_laws;
pub mod stream_model;
pub mod window;
