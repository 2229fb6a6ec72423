//! The parts of Windows that the hub needs, found switched off and switched back on.

pub mod found;
pub mod record;
pub mod words;

pub use self::found::{
    dependencies_from, key, needed, plan, running_from, sc_word, Ask, Found, Need, Walk,
};
pub use self::record::{changed, merge_before, parse_before, put_back_steps, raise_commands};
pub use self::words::{
    apply_code, fix, nothing_to_do, put_back, report, run, status, Elevated, Order,
};
