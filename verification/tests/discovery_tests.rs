use firemap::discovery::{
    capabilities_from, compare_event_nodes, event_number, is_event_node_name, normalize_udev_value,
    parse_hex_u8, resolve_candidate_name, sort_candidates, trim_udev_value, usb_identity_from_attributes,
    CandidateDevice, DeviceCapabilities, UsbIdentity,
};

fn candidate(devnode: &str) -> CandidateDevice {
    CandidateDevice {
        devnode: devnode.to_string(),
        sysname: devnode.rsplit('/').next().unwrap().to_string(),
        name: "Kbd".to_string(),
        phys: None,
        id_path: None,
        usb: UsbIdentity::unknown(),
        open_error: None,
        supported_keys: None,
        capabilities: None,
    }
}

#[test]
fn hex_bytes() {
    assert_eq!(parse_hex_u8("02"), Some(2));
    assert_eq!(parse_hex_u8("0x02"), Some(2));
    assert_eq!(parse_hex_u8("0x0x1f"), Some(31));
    assert_eq!(parse_hex_u8("ff"), Some(255));
    assert_eq!(parse_hex_u8("FF"), Some(255));
    assert_eq!(parse_hex_u8("+a"), Some(10));
    assert_eq!(parse_hex_u8("100"), None);
    assert_eq!(parse_hex_u8(""), None);
    assert_eq!(parse_hex_u8("0x"), None);
    assert_eq!(parse_hex_u8("+"), None);
    assert_eq!(parse_hex_u8("-1"), None);
    assert_eq!(parse_hex_u8("0X1"), None);
    assert_eq!(parse_hex_u8("g"), None);
}

#[test]
fn event_numbers() {
    assert_eq!(event_number("/dev/input/event12"), Some(12));
    assert_eq!(event_number("/dev/input/event0"), Some(0));
    assert_eq!(event_number("/dev/input/event4294967295"), Some(4294967295));
    assert_eq!(event_number("/dev/input/event4294967296"), None);
    assert_eq!(event_number("/dev/input/event"), None);
    assert_eq!(event_number("/dev/input/mouse0"), None);
    assert_eq!(event_number("/dev/input/event3/"), Some(3));
    assert_eq!(event_number("/dev/input/.."), None);
}

#[test]
fn event_nodes_compare_by_number() {
    assert_eq!(compare_event_nodes("/dev/input/event2", "/dev/input/event10"), -1);
    assert_eq!(compare_event_nodes("/dev/input/event10", "/dev/input/event2"), 1);
    assert_eq!(compare_event_nodes("/dev/input/event7", "/dev/input/event7"), 0);
    // without numbers on both sides the paths decide
    assert_eq!(compare_event_nodes("/dev/input/event10", "/dev/input/eventx"), -1);
    assert_eq!(compare_event_nodes("/dev/input/b", "/dev/input/a"), 1);
}

#[test]
fn candidates_sort_by_event_number() {
    let sorted = sort_candidates(vec![
        candidate("/dev/input/event10"),
        candidate("/dev/input/event2"),
        candidate("/dev/input/event1"),
        candidate("/dev/input/event2"),
    ]);
    let nodes: Vec<&str> = sorted.iter().map(|c| c.devnode.as_str()).collect();
    assert_eq!(nodes, vec!["/dev/input/event1", "/dev/input/event2", "/dev/input/event2", "/dev/input/event10"]);
}

#[test]
fn event_node_names() {
    assert!(is_event_node_name("event3"));
    assert!(is_event_node_name("event"));
    assert!(!is_event_node_name("mouse0"));
    assert!(!is_event_node_name("by-id"));
}

#[test]
fn udev_values_are_normalised() {
    assert_eq!(normalize_udev_value("  \"1532\"\n"), "1532");
    assert_eq!(normalize_udev_value("00B4"), "00b4");
    assert_eq!(normalize_udev_value("\"\"Ab C\"\""), "ab c");
    assert_eq!(trim_udev_value("  \"Razer Naga\" "), "Razer Naga");
    assert_eq!(trim_udev_value(" \" padded \" "), " padded ");
    assert_eq!(trim_udev_value("\u{3000}x\u{a0}"), "x");
}

#[test]
fn usb_identity_from_udev_attributes() {
    let usb = usb_identity_from_attributes(Some("1532\n"), Some("022B"), Some("02"), None);
    assert_eq!(usb.vendor_id.as_deref(), Some("1532"));
    assert_eq!(usb.product_id.as_deref(), Some("022b"));
    assert_eq!(usb.interface_number, Some(2));
    assert_eq!(usb.serial, None);
    let usb = usb_identity_from_attributes(None, None, Some("zz"), Some(" SER1 "));
    assert_eq!(usb.vendor_id, None);
    assert_eq!(usb.interface_number, None);
    assert_eq!(usb.serial.as_deref(), Some("ser1"));
}

#[test]
fn candidate_names_fall_back() {
    assert_eq!(resolve_candidate_name(true, Some("Razer Naga"), Some("x"), Some("y"), "event3"), "Razer Naga");
    assert_eq!(resolve_candidate_name(true, None, Some("x"), None, "event3"), "unknown");
    assert_eq!(resolve_candidate_name(true, Some(""), Some(" \"From Udev\" "), Some("y"), "event3"), "From Udev");
    assert_eq!(resolve_candidate_name(false, Some("ignored"), None, Some(" attr "), "event3"), "attr");
    assert_eq!(resolve_candidate_name(false, None, None, None, "event3"), "event3");
    assert_eq!(resolve_candidate_name(false, None, Some("  "), Some("attr"), "event3"), "");
}

#[test]
fn candidate_lines() {
    let mut c = candidate("/dev/input/event5");
    c.name = "Razer Naga".to_string();
    c.usb = usb_identity_from_attributes(Some("1532"), Some("00b4"), Some("02"), Some("S\"1"));
    c.id_path = Some("pci-0000:00:14.0-usb-0:2:1.2".to_string());
    assert_eq!(c.short_display(), "/dev/input/event5 | Razer Naga | event5 | usb=1532:00b4 if=Some(2)");
    assert_eq!(
        c.describe(),
        "[event5] /dev/input/event5 | name='Razer Naga' usb=1532:00b4 if=Some(2) serial=Some(\"s\\\"1\") path=Some(\"pci-0000:00:14.0-usb-0:2:1.2\") phys=None | evdev readable, no key bitmap"
    );
    c.supported_keys = Some(vec![1, 2, 3]);
    assert!(c.describe().ends_with("| 3 keys readable"));
    let mut d = candidate("/dev/input/event9");
    d.open_error = Some("Permission denied".to_string());
    assert_eq!(d.short_display(), "/dev/input/event9 | Kbd | event9 | usb=-:- if=None");
    assert!(d.describe().ends_with("| evdev unreadable: Permission denied"));
}

#[test]
fn capabilities_are_counted() {
    let caps = capabilities_from(&vec![1, 30, 0x110, 0x2c0, 0x150, 0x200], 2, 0, 3, true);
    assert_eq!(
        caps,
        DeviceCapabilities {
            keyboard_keys: 2,
            button_keys: 3,
            total_keys: 6,
            relative_axes: 2,
            absolute_axes: 0,
            leds: 3,
            has_repeat: true,
        }
    );
}

#[test]
fn equal_nodes_keep_their_order() {
    let mut first = candidate("/dev/input/event2");
    first.name = "first".to_string();
    let mut second = candidate("/dev/input/event2");
    second.name = "second".to_string();
    let sorted = sort_candidates(vec![candidate("/dev/input/event9"), first, candidate("/dev/input/event1"), second]);
    let names: Vec<(&str, &str)> = sorted.iter().map(|c| (c.devnode.as_str(), c.name.as_str())).collect();
    assert_eq!(
        names,
        vec![
            ("/dev/input/event1", "Kbd"),
            ("/dev/input/event2", "first"),
            ("/dev/input/event2", "second"),
            ("/dev/input/event9", "Kbd"),
        ]
    );
}

#[test]
fn event_numbers_read_back() {
    for n in [0u32, 1, 9, 10, 42, 99, 100, 65535, 4294967295] {
        assert_eq!(event_number(&format!("/dev/input/event{n}")), Some(n));
    }
}

#[test]
fn uniform_nodes_are_ordered_pairwise() {
    let numbered = sort_candidates(vec![
        candidate("/dev/input/event21"),
        candidate("/dev/input/event3"),
        candidate("/dev/input/event100"),
        candidate("/dev/input/event0"),
        candidate("/dev/input/event9"),
    ]);
    for k in 0..numbered.len() {
        for l in k + 1..numbered.len() {
            assert!(compare_event_nodes(&numbered[k].devnode, &numbered[l].devnode) <= 0);
        }
    }
    let unnumbered = sort_candidates(vec![
        candidate("/dev/input/eventb"),
        candidate("/dev/input/event1a"),
        candidate("/dev/input/eventa"),
    ]);
    let nodes: Vec<&str> = unnumbered.iter().map(|c| c.devnode.as_str()).collect();
    assert_eq!(nodes, vec!["/dev/input/event1a", "/dev/input/eventa", "/dev/input/eventb"]);
}

#[test]
fn chaining_mixed_nodes_are_ordered_pairwise() {
    for input in [
        vec!["/dev/input/eventx", "/dev/input/event10", "/dev/input/event2"],
        vec!["/dev/input/event10", "/dev/input/eventx", "/dev/input/event2"],
        vec!["/dev/input/event2", "/dev/input/eventx", "/dev/input/event10"],
    ] {
        let sorted = sort_candidates(input.iter().map(|p| candidate(p)).collect());
        let nodes: Vec<&str> = sorted.iter().map(|c| c.devnode.as_str()).collect();
        assert_eq!(nodes, vec!["/dev/input/event2", "/dev/input/event10", "/dev/input/eventx"]);
    }
}
