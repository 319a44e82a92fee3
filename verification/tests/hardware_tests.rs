use firemap::discovery::{usb_identity_from_attributes, CandidateDevice, DeviceCapabilities};
use firemap::hardware::{
    all_hardware_blocks, condensed_hardware_groups, hardware_block, hardware_group_key,
    hardware_preference_key, has_complete_hardware_identity, listing_compare, preference_lt,
    sort_for_hardware_listing, strip_interface_suffix,
};

fn caps(keyboard: usize, buttons: usize, total: usize, rel: usize, leds: usize, repeat: bool) -> DeviceCapabilities {
    DeviceCapabilities {
        keyboard_keys: keyboard,
        button_keys: buttons,
        total_keys: total,
        relative_axes: rel,
        absolute_axes: 0,
        leds,
        has_repeat: repeat,
    }
}

fn node(devnode: &str, name: &str, interface: &str, id_path: Option<&str>, c: Option<DeviceCapabilities>) -> CandidateDevice {
    CandidateDevice {
        devnode: devnode.to_string(),
        sysname: devnode.rsplit('/').next().unwrap().to_string(),
        name: name.to_string(),
        phys: None,
        id_path: id_path.map(|p| p.to_string()),
        usb: usb_identity_from_attributes(Some("1532"), Some("00b4"), Some(interface), None),
        open_error: None,
        supported_keys: Some(vec![]),
        capabilities: c,
    }
}

#[test]
fn interface_suffix_is_stripped() {
    assert_eq!(strip_interface_suffix("pci-0000:00:14.0-usb-0:2:1.2"), "pci-0000:00:14.0-usb-0:2:1");
    assert_eq!(strip_interface_suffix("no-dots"), "no-dots");
    assert_eq!(strip_interface_suffix("trailing."), "trailing");
    assert_eq!(strip_interface_suffix(""), "");
}

#[test]
fn group_keys_and_blocks() {
    let n = node("/dev/input/event7", "Razer \"Naga\"", "02", Some("usb-0:2:1.2"), None);
    assert!(has_complete_hardware_identity(&n));
    assert_eq!(hardware_group_key(&n), "Razer \"Naga\"|1532|00b4||usb-0:2:1");
    let mut bare = node("/dev/input/event8", "X", "00", None, None);
    bare.usb.interface_number = None;
    assert!(!has_complete_hardware_identity(&bare));
    assert_eq!(hardware_group_key(&bare), "X|1532|00b4||unknown");
    assert_eq!(
        hardware_block(&n),
        "# /dev/input/event7\n[[device]]\nlabel = \"Razer \\\"Naga\\\"\"\nexpected_name = \"Razer \\\"Naga\\\"\"\nvendor_id = \"1532\"\nproduct_id = \"00b4\"\ninterface_number = 2\n"
    );
    assert_eq!(all_hardware_blocks(&[bare.duplicate(), n.duplicate()]).len(), 1);
}

#[test]
fn keyboard_interfaces_rank_first() {
    let kbd = node("/dev/input/event3", "N", "01", None, Some(caps(100, 0, 100, 0, 3, true)));
    let mouse = node("/dev/input/event2", "N", "00", None, Some(caps(0, 5, 5, 2, 0, false)));
    let small = node("/dev/input/event4", "N", "02", None, Some(caps(10, 0, 10, 0, 0, true)));
    let k = hardware_preference_key(&kbd);
    let m = hardware_preference_key(&mouse);
    let s = hardware_preference_key(&small);
    assert!(preference_lt(&k, &m));
    assert!(!preference_lt(&m, &k));
    assert!(preference_lt(&k, &s));
    assert!(!preference_lt(&k, &k));
    let unknown = hardware_preference_key(&node("/dev/input/event9", "N", "00", None, None));
    assert!(unknown.missing_keyboard && unknown.missing_features && !unknown.pointing);
}

#[test]
fn condensed_listing_picks_one_block_per_device() {
    let list = vec![
        node("/dev/input/event2", "Naga", "00", Some("usb-0:2:1.0"), Some(caps(0, 5, 5, 2, 0, false))),
        node("/dev/input/event3", "Naga", "01", Some("usb-0:2:1.1"), Some(caps(100, 0, 100, 0, 3, true))),
        node("/dev/input/event4", "Naga", "02", Some("usb-0:2:1.2"), Some(caps(100, 0, 100, 0, 3, true))),
        node("/dev/input/event5", "Alpha", "00", Some("usb-0:3:1.0"), None),
    ];
    let groups = condensed_hardware_groups(&list);
    assert_eq!(groups.len(), 2);
    assert_eq!(groups[0].key, "Alpha|1532|00b4||usb-0:3:1");
    assert_eq!(groups[0].chosen, 3);
    assert_eq!(groups[1].key, "Naga|1532|00b4||usb-0:2:1");
    assert_eq!(groups[1].chosen, 1);
    assert!(groups[1].block.starts_with("# /dev/input/event3\n"));
    assert_eq!(all_hardware_blocks(&list).len(), 4);
}

#[test]
fn hardware_listing_order() {
    let mut incomplete = node("/dev/input/event1", "aaa", "00", None, None);
    incomplete.usb.vendor_id = None;
    let mut no_keys = node("/dev/input/event2", "bbb", "00", None, None);
    no_keys.supported_keys = None;
    let b = node("/dev/input/event3", "Beta", "00", None, None);
    let a = node("/dev/input/event4", "alpha", "00", None, None);
    assert_eq!(listing_compare(&a, &b), -1);
    assert_eq!(listing_compare(&b, &a), 1);
    let sorted = sort_for_hardware_listing(vec![incomplete, no_keys, b, a]);
    let names: Vec<&str> = sorted.iter().map(|c| c.name.as_str()).collect();
    assert_eq!(names, vec!["alpha", "Beta", "bbb", "aaa"]);
}

#[test]
fn incomplete_nodes_give_no_blocks() {
    let mut a = node("/dev/input/event1", "A", "00", None, None);
    a.usb.product_id = None;
    let mut b = node("/dev/input/event2", "B", "00", None, None);
    b.usb.interface_number = None;
    assert!(condensed_hardware_groups(&[a.duplicate(), b.duplicate()]).is_empty());
    assert!(all_hardware_blocks(&[a, b.duplicate()]).is_empty());
    assert!(hardware_block(&b).ends_with("interface_number = 0\n"));
}

#[test]
fn hardware_listing_orders_every_pair() {
    let mut incomplete = node("/dev/input/event1", "aaa", "00", None, None);
    incomplete.usb.vendor_id = None;
    let mut no_keys = node("/dev/input/event2", "bbb", "00", None, None);
    no_keys.supported_keys = None;
    let b2 = node("/dev/input/event9", "Beta", "01", None, None);
    let b1 = node("/dev/input/event10", "beta", "00", None, None);
    let a = node("/dev/input/event4", "alpha", "00", None, None);
    let sorted = sort_for_hardware_listing(vec![b2, incomplete, a, no_keys, b1]);
    for k in 0..sorted.len() {
        for l in k + 1..sorted.len() {
            assert!(listing_compare(&sorted[k], &sorted[l]) <= 0);
        }
    }
    let nodes: Vec<&str> = sorted.iter().map(|c| c.devnode.as_str()).collect();
    assert_eq!(
        nodes,
        vec!["/dev/input/event4", "/dev/input/event10", "/dev/input/event9", "/dev/input/event2", "/dev/input/event1"]
    );
}

#[test]
fn plain_names_are_quoted_as_they_are() {
    let n = node("/dev/input/event3", "Razer Tartarus V2", "00", None, None);
    assert_eq!(
        hardware_block(&n),
        "# /dev/input/event3\n[[device]]\nlabel = \"Razer Tartarus V2\"\nexpected_name = \"Razer Tartarus V2\"\nvendor_id = \"1532\"\nproduct_id = \"00b4\"\ninterface_number = 0\n"
    );
}
