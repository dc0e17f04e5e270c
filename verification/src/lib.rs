//! A reverse-tunnel relay core: a publicly reachable server exposes TCP
//! listen ports on behalf of clients that sit behind NAT with no inbound
//! connectivity. This crate holds the verified core: the wire protocol and
//! its framing, the rendezvous table that pairs a visitor connection with
//! the worker connection a client opens on demand, the client registry,
//! and the decision logic of the control loops. The I/O that drives these
//! decisions lives outside the library.

pub mod client;
pub mod control;
pub mod digits;
pub mod error;
pub mod json;
pub mod net_proto;
pub mod protocol;
pub mod reqmap;
pub mod server;
pub mod utils;
pub mod v0;
pub mod visitor;

pub use client::Client;
pub use client::ClientAction;
pub use control::ConnInit;
pub use control::Controller;
pub use control::CtrlAction;
pub use control::CtrlEvent;
pub use error::ShadowPeerError;
pub use net_proto::Establish;
pub use net_proto::Listen;
pub use net_proto::SockAddr;
pub use net_proto::TcpEstablish;
pub use protocol::ClientId;
pub use protocol::Protocol;
pub use protocol::CURRENT_VERSION;
pub use reqmap::ReqMap;
pub use reqmap::ReqMapMessage;
pub use reqmap::ReqStat;
pub use server::CliListen;
pub use server::Registry;
pub use server::Server;
pub use utils::current_time16;
pub use utils::low16;
pub use v0::body_len;
pub use v0::build_protocol;
pub use v0::parse;

