use firemap::commands::{
    device_listing, exact_device_config, explain_matches, is_event_device_path, matched_label,
    parse_command, resolve_device_target, Command, CommandError, ResolveError,
};
use firemap::config::{HardwareConfig, HardwareFile, HardwareFileDevice};
use firemap::discovery::{usb_identity_from_attributes, CandidateDevice};
use firemap::selection::SelectError;

fn args(words: &[&str]) -> Vec<String> {
    words.iter().map(|w| w.to_string()).collect()
}

fn candidate(devnode: &str, name: &str, vendor: &str, product: &str, interface: &str) -> CandidateDevice {
    CandidateDevice {
        devnode: devnode.to_string(),
        sysname: devnode.rsplit('/').next().unwrap().to_string(),
        name: name.to_string(),
        phys: None,
        id_path: None,
        usb: usb_identity_from_attributes(Some(vendor), Some(product), Some(interface), None),
        open_error: None,
        supported_keys: None,
        capabilities: None,
    }
}

fn hardware() -> HardwareConfig {
    HardwareConfig::from_file(HardwareFile {
        device: vec![
            HardwareFileDevice {
                label: "Tartarus".to_string(),
                expected_name: "Razer Tartarus".to_string(),
                vendor_id: "1532".to_string(),
                product_id: "022b".to_string(),
                interface_number: 0,
                serial: None,
            },
            HardwareFileDevice {
                label: "Naga".to_string(),
                expected_name: "Razer Naga".to_string(),
                vendor_id: "1532".to_string(),
                product_id: "00b4".to_string(),
                interface_number: 2,
                serial: Some("XYZ".to_string()),
            },
        ],
    })
}

#[test]
fn command_line_defaults_to_run_ffxiv() {
    assert!(matches!(parse_command(&args(&[])), Ok(Command::Run { profile }) if profile == "ffxiv"));
    assert!(matches!(parse_command(&args(&["run"])), Ok(Command::Run { profile }) if profile == "ffxiv"));
    assert!(matches!(parse_command(&args(&["run", "mmo"])), Ok(Command::Run { profile }) if profile == "mmo"));
}

#[test]
fn command_line_subcommands() {
    assert!(matches!(parse_command(&args(&["inspect"])), Ok(Command::Inspect)));
    assert!(matches!(parse_command(&args(&["devices", "x"])), Ok(Command::Devices)));
    assert!(matches!(parse_command(&args(&["hardware"])), Ok(Command::Hardware { show_all: false })));
    assert!(matches!(parse_command(&args(&["hardware", "--all"])), Ok(Command::Hardware { show_all: true })));
    assert!(matches!(
        parse_command(&args(&["probe", "/dev/input/event3"])),
        Ok(Command::Probe { path, grab: true }) if path == "/dev/input/event3"
    ));
    assert!(matches!(
        parse_command(&args(&["keycodes", "Naga", "--no-grab"])),
        Ok(Command::Keycodes { target, grab: false }) if target == "Naga"
    ));
    assert!(matches!(
        parse_command(&args(&["probe", "--no-grab"])),
        Ok(Command::Probe { path, grab: false }) if path == "--no-grab"
    ));
}

#[test]
fn command_line_errors() {
    let err = parse_command(&args(&["probe"])).err().unwrap();
    assert!(matches!(err, CommandError::MissingProbePath));
    assert_eq!(err.message(), "usage: firemap probe /dev/input/eventX [--no-grab]");
    let err = parse_command(&args(&["keycodes"])).err().unwrap();
    assert_eq!(err.message(), "usage: firemap keycodes <Label|/dev/input/eventN> [--no-grab]");
    let err = parse_command(&args(&["remap"])).err().unwrap();
    assert_eq!(
        err.message(),
        "unknown subcommand 'remap', use 'run', 'inspect', 'devices', 'hardware', 'probe' or 'keycodes'"
    );
}

#[test]
fn exact_config_has_no_mapping() {
    let hw = hardware();
    let config = exact_device_config(&hw.devices[1]);
    assert_eq!(config.label, "Naga");
    assert_eq!(config.expected_name, "Razer Naga");
    assert_eq!(config.selector.serial.as_deref(), Some("xyz"));
    assert!(config.mapping.is_empty());
}

#[test]
fn matches_are_explained() {
    let hw = hardware();
    let mut good = candidate("/dev/input/event4", "Razer Tartarus", "1532", "022b", "00");
    good.usb.serial = Some("whatever".to_string());
    let bad = candidate("/dev/input/event5", "Razer Naga", "1532", "00b4", "01");
    let text = explain_matches(&[good, bad], &hw.devices[0]);
    assert_eq!(
        text,
        "/dev/input/event4 accepted\n/dev/input/event5 rejected: name mismatch: 'Razer Naga' | product mismatch: Some(\"00b4\") | interface mismatch: Some(1)"
    );
    let bad = candidate("/dev/input/event5", "Razer Naga", "1532", "00b4", "02");
    assert_eq!(
        explain_matches(&[bad], &hw.devices[1]),
        "/dev/input/event5 rejected: serial mismatch: None"
    );
    assert_eq!(explain_matches(&[], &hw.devices[1]), "no candidates");
}

#[test]
fn targets_resolve_by_path_or_label() {
    let hw = hardware();
    let nodes = vec![
        candidate("/dev/input/event4", "Razer Tartarus", "1532", "022b", "00"),
        candidate("/dev/input/event5", "Razer Tartarus", "1532", "022b", "01"),
    ];
    assert!(is_event_device_path("/dev/input/event12"));
    assert!(!is_event_device_path("Tartarus"));
    assert_eq!(resolve_device_target("/dev/input/event12", &hw, &nodes).ok(), Some("/dev/input/event12".to_string()));
    assert_eq!(resolve_device_target("Tartarus", &hw, &nodes).ok(), Some("/dev/input/event4".to_string()));
    match resolve_device_target("Naga", &hw, &nodes) {
        Err(ResolveError::Select(SelectError::NoMatch { label, .. })) => assert_eq!(label, "Naga"),
        _ => panic!("expected no match"),
    }
    let err = resolve_device_target("Mouse", &hw, &nodes).err().unwrap();
    assert_eq!(err.message(), "unknown device label 'Mouse' in hardware config");
}

#[test]
fn devices_listing_shows_labels() {
    let hw = hardware();
    let tartarus = candidate("/dev/input/event4", "Razer Tartarus", "1532", "022b", "00");
    let other = candidate("/dev/input/event6", "Mouse", "046d", "c077", "00");
    assert_eq!(matched_label(&tartarus, &hw), Some("Tartarus".to_string()));
    assert_eq!(matched_label(&other, &hw), None);
    assert_eq!(
        device_listing(&tartarus, &hw),
        "/dev/input/event4 | Razer Tartarus | event4 | usb=1532:022b if=Some(0) | label=Tartarus"
    );
    assert_eq!(device_listing(&other, &hw), "/dev/input/event6 | Mouse | event6 | usb=046d:c077 if=Some(0)");
}

#[test]
fn explanation_has_one_line_per_candidate() {
    let hw = hardware();
    let nodes = vec![
        candidate("/dev/input/event4", "Razer Tartarus", "1532", "022b", "00"),
        candidate("/dev/input/event5", "Razer Tartarus", "1532", "022b", "01"),
        candidate("/dev/input/event6", "Other\"Pad", "046d", "c52b", "00"),
    ];
    let text = explain_matches(&nodes, &hw.devices[0]);
    let lines: Vec<&str> = text.split('\n').collect();
    assert_eq!(lines.len(), 3);
    assert_eq!(lines[0], "/dev/input/event4 accepted");
    assert!(lines[1].starts_with("/dev/input/event5 rejected: "));
    assert!(lines[2].starts_with("/dev/input/event6 rejected: "));
    assert_eq!(
        lines[2],
        "/dev/input/event6 rejected: name mismatch: 'Other\"Pad' | vendor mismatch: Some(\"046d\") | product mismatch: Some(\"c52b\")"
    );
}

#[test]
fn matching_names_with_line_breaks_keep_one_line_each() {
    let hw = HardwareConfig::from_file(HardwareFile {
        device: vec![HardwareFileDevice {
            label: "Pad".to_string(),
            expected_name: "Pad\nTwo".to_string(),
            vendor_id: "1532".to_string(),
            product_id: "022b".to_string(),
            interface_number: 0,
            serial: None,
        }],
    });
    let nodes = vec![
        candidate("/dev/input/event4", "Pad\nTwo", "1532", "022b", "00"),
        candidate("/dev/input/event5", "Pad\nTwo", "1532", "022b", "01"),
    ];
    let text = explain_matches(&nodes, &hw.devices[0]);
    let lines: Vec<&str> = text.split('\n').collect();
    assert_eq!(lines, vec!["/dev/input/event4 accepted", "/dev/input/event5 rejected: interface mismatch: Some(1)"]);
}
