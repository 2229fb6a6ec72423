//! Handing out addresses on a bare cable, where nothing else does.

pub mod leases;
pub mod packet;
pub mod server;

pub use leases::Leases;
pub use packet::{parse, reply, Request, CLIENT_PORT, SERVER_PORT};
pub use server::{safe_to_offer, Refused};
