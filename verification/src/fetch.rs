//! Fetching a file in pieces, and carrying on where it stopped.

pub mod book;
pub mod command;
pub mod plan;
pub mod prints;
pub mod wire;

pub use book::{backoff, cancel, counts, describe, messages, plain_error, progress, same_shape, set_quiet};
pub use prints::fetch_sums;
pub use wire::{not_an_address, parse_url, Url};
