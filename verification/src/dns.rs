//! Names: asking what a device is called, and answering for our own.

pub mod lookup;
pub mod names;
pub mod responder;
pub mod taken;

pub use lookup::{build_query, parse_ptr, short_name, transaction_id};
pub use responder::{answer, mdns_answer, LOCAL_NAMES, MDNS_PORT, OUR_NAMES, SERVER_PORT};
