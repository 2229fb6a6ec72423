//! The verified core of a portable network hub: a laptop that makes a network
//! where none exists and hands a folder to every device in the room.

pub mod addr;
pub mod bytes;
pub mod cable;
pub mod cli;
pub mod dhcp;
pub mod dns;
pub mod fetch;
pub mod grid;
pub mod net;
pub mod number;
pub mod page;
pub mod qr;
pub mod scratch;
pub mod serve;
pub mod services;
pub mod sha256;
pub mod sums;
pub mod term;
pub mod text;
