//! The network: finding the other machine, and making a network where there is
//! none.

pub mod addresses;
pub mod asking;
pub mod base64;
pub mod channels;
pub mod clock;
pub mod devices;
pub mod guard;
pub mod hotspot;
pub mod password;
pub mod terse;
pub mod windows;

pub use self::addresses::{
    candidate_servers, connected_addresses, default_gateway, guessed_gateway, live_default_gateway,
    local_addresses, local_macs, mentions_address, parse_mac_for_test, probe_targets, same_subnet,
    sweep_targets, Neighbours,
};
pub use self::asking::{
    ask_name, list_files, list_over, list_request, listing_length, name_request, usable_name, Entry,
};
pub use self::base64::base64;
pub use self::channels::{channel_ranges, describe_channel, parse_phy_channels};
pub use self::clock::{civil_from_days, timestamp, tz_offset_seconds};
pub use self::devices::{
    device_tag, joined_devices, parse_arp, parse_leases, short_hash, Joined, NameCache,
};
pub use self::guard::{Guard, Next, Restart};
pub use self::hotspot::{
    explain_nmcli, heartbeat, hotspot_up, rearm_restore, saved_hotspot_password, Hotspot, Ran,
    Safety, HEARTBEAT, RESTORE_FUSE,
};
pub use self::password::suggest_password;
pub use self::terse::{
    active_profile_on, active_wifi_connection, hotspot_address_of, unescape_terse, wifi_interface,
};
pub use self::windows::{
    card_summary_from, disabled_hotspot_services, gateway_from_route_print, start_value_from,
    switched_off_advice, win_get, win_hotspot, Said, HOTSPOT_SERVICES,
};
