use hub::services::{
    apply_code, changed, dependencies_from, fix, key, merge_before, needed, nothing_to_do,
    parse_before, plan, put_back, put_back_steps, raise_commands, report, run, running_from,
    sc_word, status, Elevated, Found, Order, Walk,
};

#[test]
fn dependencies_are_read_from_the_registry_line() {
    let text = "\r\nHKEY_LOCAL_MACHINE\\SYSTEM\\CurrentControlSet\\Services\\icssvc\r\n    DependOnService    REG_MULTI_SZ    RpcSs\\0wcmsvc\r\n\r\n";
    assert_eq!(dependencies_from(text), vec!["RpcSs", "wcmsvc"]);
    assert_eq!(dependencies_from("    DependOnService    REG_MULTI_SZ    +TDI\\0Afd"), vec!["Afd"]);
    assert!(dependencies_from("ERROR: nothing").is_empty());
}

#[test]
fn running_is_read_as_a_number() {
    assert!(running_from("        STATE              : 4  RUNNING\r\n"));
    assert!(running_from("        STATE              : 4  EN_COURS\r\n"));
    assert!(!running_from("        STATE              : 1  STOPPED\r\n"));
    assert!(!running_from(""));
}

fn f(name: &str, start: Option<u32>, running: bool, want: u32, named: bool) -> Found {
    Found { name: name.into(), label: name.into(), start, running, want, named }
}

#[test]
fn only_what_is_switched_off_is_changed() {
    let found = vec![
        f("icssvc", Some(4), false, 3, true),
        f("SharedAccess", Some(4), false, 3, true),
        f("WlanSvc", Some(2), true, 2, true),
        f("RpcSs", Some(2), true, 3, false),
        f("NlaSvc", Some(3), false, 3, false),
    ];
    let (raise, start) = plan(&found);
    assert_eq!(raise.iter().map(|f| f.name.as_str()).collect::<Vec<_>>(), ["icssvc", "SharedAccess"]);
    assert_eq!(start.iter().map(|f| f.name.as_str()).collect::<Vec<_>>(), ["icssvc", "SharedAccess"]);
    assert_eq!(sc_word(3), "demand");
}

#[test]
fn manual_is_off_only_where_windows_would_start_it() {
    assert!(f("WlanSvc", Some(3), false, 2, true).switched_off());
    assert!(!f("Netman", Some(3), false, 3, false).switched_off());
    assert!(!f("gone", None, false, 2, true).switched_off());
    assert!(f("nativewifip", Some(4), false, 3, false).switched_off());
}

#[test]
fn the_record_keeps_the_first_before() {
    let first = merge_before("", &[("icssvc".into(), 4)]);
    let second = merge_before(&first, &[("icssvc".into(), 3), ("SharedAccess".into(), 4)]);
    assert_eq!(parse_before(&second), vec![("icssvc".into(), 4), ("SharedAccess".into(), 4)]);
}

#[test]
fn the_report_names_what_is_off_and_why() {
    let r = report(&[f("icssvc", Some(4), false, 3, true), f("Dhcp", Some(2), true, 2, true)]);
    assert!(r.contains("icssvc") && r.contains("making a wifi network"));
    assert!(!r.contains("Dhcp"));
    assert_eq!(report(&[]), "Everything the hub needs is switched on.");
}

#[test]
fn the_walk_looks_at_each_service_once() {
    let mut w = Walk::new();
    let mut seen: Vec<String> = Vec::new();
    while let Some(a) = w.next() {
        assert!(!seen.iter().any(|s| s.eq_ignore_ascii_case(&a.name)), "{} twice", a.name);
        seen.push(a.name.clone());
        let deps = match a.name.as_str() {
            "icssvc" => vec!["RpcSs".to_string(), "wcmsvc".to_string()],
            "RpcSs" => vec!["DcomLaunch".to_string(), "icssvc".to_string()],
            _ => Vec::new(),
        };
        let start = if a.name == "BFE" { None } else { Some(4) };
        w.answer(a, start, &deps, true);
    }
    let needs = needed();
    assert_eq!(w.out.len(), needs.len() + 2);
    assert!(seen.contains(&"RpcSs".to_string()) && seen.contains(&"DcomLaunch".to_string()));
    let rpc = w.out.iter().find(|f| f.name == "RpcSs").unwrap();
    assert_eq!(rpc.label, "RpcSs (needed by icssvc)");
    assert!(!rpc.named && rpc.want == 3);
    let gone = w.out.iter().find(|f| f.name == "BFE").unwrap();
    assert!(!gone.running, "what is not installed does not run");
}

#[test]
fn the_record_is_written_before_anything_changes() {
    let found = vec![f("icssvc", Some(4), false, 3, true), f("Dhcp", Some(2), true, 2, true)];
    assert_eq!(changed(&found), vec![("icssvc".to_string(), 4)]);
    assert_eq!(
        raise_commands(&found),
        vec![vec!["config", "icssvc", "start=", "demand"], vec!["start", "icssvc"]]
    );
    let steps = put_back_steps("icssvc 4\nDhcp 2\n");
    assert_eq!(steps.len(), 2);
    assert_eq!(steps[0].stop, Some(vec!["stop".to_string(), "icssvc".to_string()]));
    assert_eq!(steps[0].config, vec!["config", "icssvc", "start=", "disabled"]);
    assert_eq!(steps[1].stop, None);
    assert_eq!(steps[1].config, vec!["config", "Dhcp", "start=", "auto"]);
}

#[test]
fn a_mending_is_judged_by_looking_again() {
    let off = vec![f("icssvc", Some(4), false, 3, true)];
    let on = vec![f("icssvc", Some(3), true, 3, true)];
    assert!(nothing_to_do(&on) && !nothing_to_do(&off));
    assert!(fix(&on, Elevated::Done, &on).contains("Nothing to do"));
    assert!(fix(&off, Elevated::Declined, &off).contains("the permission was not given"));
    assert!(fix(&off, Elevated::Failed, &off).contains("Run as administrator"));
    assert!(fix(&off, Elevated::Done, &on).contains("All switched back on"));
    assert!(fix(&off, Elevated::Done, &off).contains("These are still switched off:\n  icssvc  (icssvc)"));
    assert_eq!(apply_code(true, &on), 0);
    assert_eq!(apply_code(true, &off), 1);
    assert_eq!(apply_code(false, &on), 3);
    assert_eq!(status(&on), ("Everything the hub needs is switched on.".to_string(), None));
    assert!(status(&off).1.is_some());
}

#[test]
fn putting_back_says_what_could_not_be() {
    let record = "icssvc 4\nDhcp 2\n";
    assert_eq!(
        put_back(Some(record), Elevated::Done, &[Some(4), Some(2)]),
        "Put back as they were: icssvc, Dhcp."
    );
    assert_eq!(
        put_back(Some(record), Elevated::Done, &[Some(4), Some(3)]),
        "These could not be put back: Dhcp."
    );
    assert_eq!(
        put_back(Some(record), Elevated::Done, &[]),
        "These could not be put back: icssvc, Dhcp."
    );
    assert!(put_back(None, Elevated::Done, &[]).starts_with("Nothing to put back"));
    assert!(put_back(Some(record), Elevated::Declined, &[]).starts_with("Nothing was changed"));
    assert!(put_back(Some(record), Elevated::Failed, &[]).starts_with("Windows would not"));
}

#[test]
fn the_words_of_the_command_are_read() {
    let words = |v: &[&str]| v.iter().map(|s| s.to_string()).collect::<Vec<String>>();
    assert!(matches!(run(&words(&["hub"])), Order::Status));
    assert!(matches!(run(&words(&["hub", "--fix"])), Order::Fix));
    assert!(matches!(run(&words(&["hub", "--put-back"])), Order::PutBack));
    match run(&words(&["hub", "--apply-elevated", "C:\\record"])) {
        Order::Apply(r) => assert_eq!(r.as_deref(), Some("C:\\record")),
        _ => panic!("the record is handed on"),
    }
    assert!(matches!(run(&words(&["hub", "--put-back-elevated"])), Order::Restore(None)));
    assert_eq!(key("icssvc"), "HKLM\\SYSTEM\\CurrentControlSet\\Services\\icssvc");
    assert_eq!(
        [0, 1, 2, 3, 4].map(sc_word),
        ["boot", "system", "auto", "demand", "disabled"]
    );
}
