use hub::addr::Ipv4Addr;
use hub::net::guard::{attempt_line, Guard, Next, Restart};
use hub::net::hotspot::{
    address_on_windows, nothing_to_restore, refused_on_windows, remember_wifi, request,
    saved_on_windows, steady_after, switch_it_on_yourself, windows_hotspot, Hotspot, Ran,
};
use hub::net::{
    explain_nmcli, heartbeat, hotspot_up, rearm_restore, saved_hotspot_password, win_hotspot,
    HEARTBEAT, RESTORE_FUSE,
};

fn refused(words: &str) -> Ran {
    Ran::Refused(words.to_string())
}

fn up(profile: Option<&str>, previous: Option<&str>) -> Hotspot {
    hotspot_up("Class 7B", "quiet-fox", None, &[], Some("wlan0"), previous, Ran::Done, profile).unwrap()
}

#[test]
fn a_network_is_asked_for_in_the_tools_own_words() {
    assert_eq!(
        request("Class 7B", "quiet-fox", None, &[], Some("wlan0")).unwrap(),
        vec!["device", "wifi", "hotspot", "ifname", "wlan0", "ssid", "Class 7B", "password", "quiet-fox"]
    );
    let with = request("x", "12345678", Some(36), &[1, 36], Some("wlan0")).unwrap();
    assert_eq!(&with[9..], &["band", "a", "channel", "36"]);
    let low = request("x", "12345678", Some(1), &[], Some("wlan0")).unwrap();
    assert_eq!(&low[9..], &["band", "bg", "channel", "1"]);
}

#[test]
fn each_refusal_comes_before_anything_is_asked() {
    assert!(request("x", "1234567", None, &[], Some("wlan0")).unwrap_err().contains("at least 8 characters"));
    assert!(request("x", "12345678", Some(14), &[], Some("wlan0")).unwrap_err().contains("1 to 13"));
    assert!(request("x", "12345678", Some(7), &[1, 2, 36], Some("wlan0"))
        .unwrap_err()
        .contains("may broadcast on channels 1-2, 36."));
    assert!(request("x", "12345678", None, &[], None).unwrap_err().contains("No wifi adapter"));
}

#[test]
fn an_error_is_explained_for_a_teacher() {
    assert!(explain_nmcli("Error: Not authorized to control networking.").contains("sudo hub"));
    assert!(explain_nmcli("Device does not support AP mode").contains("cannot create a network"));
    assert!(explain_nmcli("blocked by rfkill").contains("Wifi is switched off"));
    assert_eq!(explain_nmcli("odd"), "The network could not be created.\nodd");
    let up = |ran: Ran| hotspot_up("x", "12345678", None, &[], Some("wlan0"), None, ran, None);
    let e = up(refused("  odd \n")).unwrap_err();
    assert_eq!(e, "The network could not be created.\nodd");
    let e = up(Ran::Broken("gone".to_string()));
    assert_eq!(e.unwrap_err(), "Could not run nmcli: gone");
}

#[test]
fn the_wifi_is_put_back_as_it_was_found() {
    let h = up(Some("Hotspot-1"), Some("School"));
    assert_eq!(
        h.down(),
        vec![
            vec!["connection", "down", "Hotspot-1"],
            vec!["device", "disconnect", "wlan0"],
            vec!["connection", "up", "School"],
        ]
    );
    let unknown = up(None, None);
    assert_eq!(
        unknown.down(),
        vec![
            vec!["connection", "down", "Hotspot"],
            vec!["device", "disconnect", "wlan0"],
            vec!["device", "connect", "wlan0"],
        ]
    );
}

#[test]
fn a_password_is_changed_only_where_all_went_well() {
    let mut h = up(None, None);
    assert!(h.password_commands("short", None).unwrap_err().contains("at least 8"));
    assert!(h.password_commands("new-password", None).unwrap_err().contains("Nothing has changed"));
    let (modify, raise) = h.password_commands("new-password", Some("Hotspot")).unwrap();
    assert_eq!(modify, vec!["connection", "modify", "Hotspot", "wifi-sec.psk", "new-password"]);
    assert_eq!(raise, vec!["connection", "up", "Hotspot"]);
    let e = h.change_password("new-password", Some("Hotspot"), refused("polkit"), Ran::Done);
    assert!(e.unwrap_err().contains("sudo hub"));
    assert_eq!(h.password, "quiet-fox");
    let e = h.change_password("new-password", Some("Hotspot"), Ran::Done, refused("down"));
    assert!(e.unwrap_err().contains("The old password no longer works."));
    assert_eq!(h.password, "quiet-fox");
    assert!(h.change_password("new-password", Some("Hotspot"), Ran::Done, Ran::Done).is_ok());
    assert_eq!(h.password, "new-password");
    assert_eq!(h.profile.as_deref(), Some("Hotspot"));
}

#[test]
fn the_restore_is_pushed_back_only_while_it_is_armed() {
    assert!(2 * HEARTBEAT < RESTORE_FUSE);
    let h = up(None, None);
    let mut safety = nothing_to_restore();
    assert_eq!(heartbeat(&safety), None);
    remember_wifi(&mut safety, Some("School"));
    assert_eq!(heartbeat(&safety), None);
    let words = h.arm_restore(&mut safety, 180).unwrap();
    assert_eq!(words[5], "sleep 180; exec nmcli connection up \"$0\"");
    assert_eq!(words[6], "School");
    assert_eq!(heartbeat(&safety), Some(words));
    assert_eq!(h.disarm_restore(&mut safety).len(), 2);
    assert_eq!(heartbeat(&safety), None);
    remember_wifi(&mut safety, None);
    assert_eq!(rearm_restore(&safety, 180), None);
}

#[test]
fn windows_answers_are_judged() {
    let on = win_hotspot("HUB_STATE On\n");
    let h = windows_hotspot("x", "12345678", &[], &on).unwrap();
    assert_eq!(h.iface, "Mobile hotspot");
    let off = win_hotspot("HUB_STATE Off\nHUB_ERR (0x83120001) refused\n");
    assert!(windows_hotspot("x", "12345678", &[], &off).unwrap_err().contains("Fix problems"));
    let other = win_hotspot("HUB_START Unknown\n");
    assert!(windows_hotspot("x", "12345678", &[], &other).unwrap_err().contains("\n\nUnknown\n\n"));
    let silent = win_hotspot("");
    assert!(windows_hotspot("x", "12345678", &[], &silent).unwrap_err().contains("no answer from Windows"));
}

#[test]
fn windows_is_not_asked_in_vain() {
    let off = [("icssvc", "Windows Mobile Hotspot Service")];
    assert!(refused_on_windows("x", "1234567", &[]).unwrap().contains("at least 8"));
    assert!(refused_on_windows("", "12345678", &[]).unwrap().contains("between 1 and 32"));
    assert!(refused_on_windows(&"ë".repeat(17), "12345678", &[]).is_some());
    assert!(refused_on_windows(&"ë".repeat(16), "12345678", &[]).is_none());
    assert!(refused_on_windows("x", "12345678", &off).unwrap().contains("Set-Service icssvc"));
    assert!(switch_it_on_yourself(&off).contains("Set-Service icssvc"));
    assert!(!switch_it_on_yourself(&[]).contains("Set-Service"));
}

#[test]
fn a_saved_password_is_used_again() {
    let details = vec!["Other\nap\n12345678\n".to_string(), "Class\\:7\nap\nsecret99\n".to_string()];
    assert_eq!(saved_hotspot_password("Class:7", &details).as_deref(), Some("secret99"));
    assert_eq!(saved_hotspot_password("", &details), None);
    assert_eq!(saved_hotspot_password("Nobody", &details), None);
    let kept = win_hotspot("HUB_SSID Class\nHUB_PASS secret99\n");
    assert_eq!(saved_on_windows("Class", &kept).as_deref(), Some("secret99"));
    assert_eq!(saved_on_windows("Other", &kept), None);
}

#[test]
fn an_address_has_to_stay() {
    assert_eq!(steady_after(0, true), 1);
    assert_eq!(steady_after(5, true), 6);
    assert_eq!(steady_after(5, false), 0);
    let own = Ipv4Addr::new(192, 168, 137, 1);
    assert_eq!(address_on_windows(Some(own)), Some(own));
    assert_eq!(address_on_windows(Some(Ipv4Addr::new(10, 0, 0, 5))), None);
    assert_eq!(address_on_windows(None), None);
}

#[test]
fn a_hiccup_is_no_restart() {
    let mut g = Guard::new();
    assert_eq!(g.pause(), 3);
    assert_eq!(g.look(true, false, 100), (Next::Wait, Some("network gone: the hotspot's address disappeared".to_string())));
    assert_eq!(g.pause(), 2);
    let (next, note) = g.look(true, true, 107);
    assert_eq!(next, Next::Measure, "never measured");
    assert_eq!(note.as_deref(), Some("network back after 7 s"));
    assert_eq!(g.hotspot_problem(), None);
}

#[test]
fn a_network_that_stays_away_is_brought_back() {
    let mut g = Guard::new();
    g.look(true, false, 0);
    assert_eq!(g.look(true, false, 2).0, Next::Restart);
    assert!(g.hotspot_problem().unwrap().contains("Switching it back on"));
    assert_eq!(g.restart(false).0, Restart::LeftOff, "stopped on purpose stays off");
    assert_eq!(g.restart(true).0, Restart::Start);
    let accepted = win_hotspot("HUB_START Success\n");
    g.settle(&accepted, false, 12);
    assert!(g.hotspot_problem().unwrap().contains("The hub keeps trying."));
    g.settle(&accepted, false, 24);
    let (how, note) = g.restart(true);
    assert_eq!(how, Restart::StopFirst);
    assert!(note.unwrap().contains("switched fully off"));
    let no_radio = win_hotspot("HUB_RADIO DeniedByUser\n");
    g.settle(&no_radio, false, 30);
    assert!(g.hotspot_problem().unwrap().contains("Windows would not let the hub switch it on"));
    let (next, note) = g.settle(&accepted, true, 40);
    assert_eq!(next, Next::Measure);
    assert_eq!(note.as_deref(), Some("network back after 40 s"));
    assert_eq!(g.hotspot_problem(), None);
    assert_eq!(attempt_line(&accepted), "switching back on; Windows said: START Success");
}

#[test]
fn the_channel_is_measured_now_and_again() {
    let mut g = Guard::new();
    g.set_wifi_band_5(true);
    assert_eq!(g.band(), "5");
    g.measure(&win_hotspot("HUB_CHANNEL 6\n"));
    assert_eq!(g.hotspot_channel(), Some(6));
    let mut measured = 0;
    for _ in 0..20 {
        if g.look(true, true, 0).0 == Next::Measure {
            measured += 1;
        }
    }
    assert_eq!(measured, 2);
    g.measure(&win_hotspot("HUB_CHANNEL 0\n"));
    assert_eq!(g.hotspot_channel(), None);
    g.look(false, false, 0);
    assert_eq!(g.band(), "5", "the band outlives the network");
}

#[test]
fn a_short_password_makes_no_network_whatever_was_said() {
    let made = |password: &str, channel, iface| {
        hotspot_up("x", password, channel, &[], iface, None, Ran::Done, Some("Hotspot-1"))
    };
    assert!(made("1234567", None, Some("wlan0")).unwrap_err().contains("at least 8 characters"));
    assert!(made("1234567", Some(14), None).unwrap_err().contains("at least 8 characters"));
    assert!(made("12345678", Some(14), Some("wlan0")).unwrap_err().contains("1 to 13"));
    assert!(made("12345678", None, None).unwrap_err().contains("No wifi adapter"));
    assert_eq!(made("12345678", Some(6), Some("wlan0")).unwrap().iface, "wlan0");
    let on = win_hotspot("HUB_STATE On\n");
    assert!(windows_hotspot("x", "1234567", &[], &on).unwrap_err().contains("at least 8 characters"));
    assert!(windows_hotspot("", "12345678", &[], &on).is_err());
}
