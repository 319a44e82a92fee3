use firemap::config::{DeviceConfig, UsbSelector};
use firemap::discovery::{usb_identity_from_attributes, CandidateDevice};
use firemap::selection::{candidate_matches, select_device, SelectError};

fn candidate(devnode: &str, name: &str, vendor: &str, product: &str, interface: &str, serial: Option<&str>) -> CandidateDevice {
    CandidateDevice {
        devnode: devnode.to_string(),
        sysname: devnode.rsplit('/').next().unwrap().to_string(),
        name: name.to_string(),
        phys: None,
        id_path: None,
        usb: usb_identity_from_attributes(Some(vendor), Some(product), Some(interface), serial),
        open_error: None,
        supported_keys: None,
        capabilities: None,
    }
}

fn naga(serial: Option<&str>) -> DeviceConfig {
    DeviceConfig {
        label: "Naga".to_string(),
        expected_name: "Razer Naga".to_string(),
        selector: UsbSelector {
            vendor_id: "1532".to_string(),
            product_id: "00b4".to_string(),
            interface_number: 2,
            serial: serial.map(|s| s.to_string()),
        },
        mapping: Vec::new(),
    }
}

fn nodes() -> Vec<CandidateDevice> {
    vec![
        candidate("/dev/input/event3", "Razer Naga", "1532", "00b4", "00", None),
        candidate("/dev/input/event4", "Razer Naga", "1532", "00B4", "02", Some("abc")),
        candidate("/dev/input/event5", "Razer Naga Keyboard", "1532", "00b4", "02", None),
    ]
}

#[test]
fn exactly_one_match_is_selected() {
    let chosen = select_device(&nodes(), &naga(None)).ok().unwrap();
    assert_eq!(chosen.devnode, "/dev/input/event4");
}

#[test]
fn selection_ignores_node_order_scenario() {
    let mut reversed = nodes();
    reversed.reverse();
    let chosen = select_device(&reversed, &naga(None)).ok().unwrap();
    assert_eq!(chosen.devnode, "/dev/input/event4");
}

#[test]
fn serial_must_match_when_configured() {
    assert!(select_device(&nodes(), &naga(Some("abc"))).is_ok());
    match select_device(&nodes(), &naga(Some("zzz"))) {
        Err(SelectError::NoMatch { label, interface_number, .. }) => {
            assert_eq!(label, "Naga");
            assert_eq!(interface_number, 2);
        },
        _ => panic!("expected no match"),
    }
    assert!(candidate_matches(&nodes()[1], &naga(Some("abc"))));
    assert!(!candidate_matches(&nodes()[1], &naga(Some("ab"))));
    assert!(!candidate_matches(&nodes()[0], &naga(None)));
}

#[test]
fn no_match_message() {
    let err = select_device(&[], &naga(None)).err().unwrap();
    assert_eq!(err.message(), "no exact match for Naga (1532:00b4 if=2)");
}

#[test]
fn several_matches_are_listed() {
    let mut list = nodes();
    list.push(candidate("/dev/input/event9", "Razer Naga", "1532", "00b4", "2", None));
    let err = select_device(&list, &naga(None)).err().unwrap();
    match &err {
        SelectError::MultipleMatches { nodes, .. } => {
            assert_eq!(nodes, &vec!["/dev/input/event4".to_string(), "/dev/input/event9".to_string()])
        },
        _ => panic!("expected several matches"),
    }
    assert_eq!(
        err.message(),
        "multiple exact matches for Naga (1532:00b4 if=2): /dev/input/event4, /dev/input/event9"
    );
}

#[test]
fn selection_ignores_node_names_scenario() {
    let renumbered: Vec<CandidateDevice> = nodes()
        .into_iter()
        .enumerate()
        .map(|(i, mut c)| {
            c.devnode = format!("/dev/input/event{}", 40 + i);
            c.sysname = format!("event{}", 40 + i);
            c
        })
        .collect();
    let chosen = select_device(&renumbered, &naga(None)).ok().unwrap();
    assert_eq!(chosen.devnode, "/dev/input/event41");
}
