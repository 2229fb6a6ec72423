//! Handing a folder to every device in the room: who they are, what they may
//! have, what they ask for and what they are answered.

pub mod answers;
pub mod heads;
pub mod labels;
pub mod options;
pub mod order;
pub mod paths;
pub mod request;
pub mod roster;
pub mod transfers;

pub use self::answers::{
    address_text, parse_range, plan_sending, redirect_base, redirect_captive, redirect_done,
    redirect_home, respond, respond_fresh, respond_length, write_file_head, Sending,
};
pub use self::labels::Labels;
pub use self::options::{
    bind_all, default_helpers, listen_address, listing, our_names, parse_options, plain_listing,
    plan_network, Command, ListRow, NetworkPlan, Options,
};
pub use self::paths::{percent_decode, safe_join, urlencode, Naming};
pub use self::request::{
    fetch_answer, head_complete, keeps_open, parse_request, read_request, route, route_fetch,
    route_view, Answer, Request, Route,
};
pub use self::roster::{
    accept_move, accept_pending, block_device, blocked_count, blocked_devices, claim_key,
    claimed_name, clear_blocks, device_key, device_label, drop_pending, duplicate_claims,
    forget_claim, full_label, handin_available, has_seen_page, is_allowed, is_blocked, is_running,
    live_connections, mark_page_seen, note_pending, on_port_80, pages_seen_count, pending,
    pending_count, refuse_move, refuse_pending, roster_label, set_allowed, set_claimed_name,
    set_device_name, tag_for, total_sent, unblock_device, unblock_key, visible_files, Device,
    FileMove, Item, Pending, Service, Ticked,
};
pub use self::transfers::{note, note_dir, note_direction, transfers, Direction, Transfer};
