//! Record data of the SRV type (RFC 2782) with the domain names it points
//! to, their wire and presentation formats, and server commands.

pub mod builder;
pub mod name;
pub mod octets;
pub mod parse;
pub mod server;
pub mod srv;
pub mod text;
