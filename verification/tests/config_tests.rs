use firemap::config::{
    default_hardware_config_path, profile_name_from_path, profile_path, ConfigError, FileMappingEntry,
    HardwareConfig, HardwareFile, HardwareFileDevice, LoadedProfile, ProfileFile, ProfileFileDevice,
};
use firemap::keycodes::parse_key_code;

fn hw_device(label: &str, name: &str, vendor: &str, product: &str, interface: u8, serial: Option<&str>) -> HardwareFileDevice {
    HardwareFileDevice {
        label: label.to_string(),
        expected_name: name.to_string(),
        vendor_id: vendor.to_string(),
        product_id: product.to_string(),
        interface_number: interface,
        serial: serial.map(|s| s.to_string()),
    }
}

fn hardware() -> HardwareConfig {
    HardwareConfig::from_file(HardwareFile {
        device: vec![
            hw_device("Tartarus", "Razer Razer Tartarus V2", "1532", "022B", 0, None),
            hw_device("Naga", "Razer Razer Naga V2 HyperSpeed", "1532", "00B4", 2, Some("AbC")),
        ],
    })
}

fn entry(input: &str, output: Option<&str>, outputs: Option<Vec<&str>>, fire_ms: Option<u64>) -> FileMappingEntry {
    FileMappingEntry {
        input: input.to_string(),
        output: output.map(|s| s.to_string()),
        outputs: outputs.map(|v| v.into_iter().map(|s| s.to_string()).collect()),
        fire_ms,
    }
}

fn profile(name: Option<&str>, devices: Vec<(&str, Vec<FileMappingEntry>)>) -> ProfileFile {
    ProfileFile {
        profile: name.map(|s| s.to_string()),
        device: devices
            .into_iter()
            .map(|(label, mapping)| ProfileFileDevice { label: label.to_string(), mapping })
            .collect(),
    }
}

#[test]
fn hardware_identity_is_lowercased() {
    let hw = hardware();
    assert_eq!(hw.devices.len(), 2);
    assert_eq!(hw.devices[0].label, "Tartarus");
    assert_eq!(hw.devices[0].expected_name, "Razer Razer Tartarus V2");
    assert_eq!(hw.devices[0].selector.product_id, "022b");
    assert_eq!(hw.devices[0].selector.serial, None);
    assert_eq!(hw.devices[1].selector.product_id, "00b4");
    assert_eq!(hw.devices[1].selector.interface_number, 2);
    assert_eq!(hw.devices[1].selector.serial.as_deref(), Some("abc"));
}

#[test]
fn readme_profile_merges() {
    let parsed = profile(
        Some("ffxiv"),
        vec![
            (
                "Tartarus",
                vec![
                    entry("KEY_Q", Some("KEY_1"), None, Some(250)),
                    entry("KEY_UP", Some("KEY_W"), None, None),
                    entry("KEY_5", None, Some(vec!["KEY_LEFTSHIFT", "KEY_SEMICOLON"]), None),
                ],
            ),
            ("Naga", vec![entry("KEY_0", Some("KEY_SPACE"), None, None)]),
        ],
    );
    let loaded = LoadedProfile::from_parts(&hardware(), &parsed, "config/profiles/ffxiv.toml").ok().unwrap();
    assert_eq!(loaded.profile_name, "ffxiv");
    assert_eq!(loaded.devices.len(), 2);
    let t = &loaded.devices[0];
    assert_eq!(t.label, "Tartarus");
    assert_eq!(t.expected_name, "Razer Razer Tartarus V2");
    assert_eq!(t.selector.vendor_id, "1532");
    assert_eq!(t.selector.product_id, "022b");
    assert_eq!(t.mapping.len(), 3);
    assert_eq!(t.mapping[0].input, 16);
    assert_eq!(t.mapping[0].outputs, vec![2]);
    assert_eq!(t.mapping[0].fire_ms, Some(250));
    assert_eq!(t.mapping[1].input, 103);
    assert_eq!(t.mapping[1].outputs, vec![17]);
    assert_eq!(t.mapping[1].fire_ms, None);
    assert_eq!(t.mapping[2].input, 6);
    assert_eq!(t.mapping[2].outputs, vec![42, 39]);
    let n = &loaded.devices[1];
    assert_eq!(n.label, "Naga");
    assert_eq!(n.selector.interface_number, 2);
    assert_eq!(n.selector.serial.as_deref(), Some("abc"));
    assert_eq!(n.mapping[0].input, 11);
    assert_eq!(n.mapping[0].outputs, vec![57]);
}

#[test]
fn profile_name_falls_back_to_file_stem() {
    let parsed = profile(None, vec![("Naga", vec![])]);
    let loaded = LoadedProfile::from_parts(&hardware(), &parsed, "/x/config/profiles/mmo.toml").ok().unwrap();
    assert_eq!(loaded.profile_name, "mmo");
    assert_eq!(loaded.devices[0].mapping.len(), 0);
}

#[test]
fn profile_name_from_path_cases() {
    assert_eq!(profile_name_from_path("config/profiles/ffxiv.toml"), "ffxiv");
    assert_eq!(profile_name_from_path("archive.tar.gz"), "archive.tar");
    assert_eq!(profile_name_from_path(".hidden"), ".hidden");
    assert_eq!(profile_name_from_path("/"), "default");
    assert_eq!(profile_name_from_path("a/.."), "default");
}

#[test]
fn unknown_profile_label_is_rejected() {
    let parsed = profile(Some("p"), vec![("Tartarus", vec![]), ("Mouse", vec![])]);
    match LoadedProfile::from_parts(&hardware(), &parsed, "p.toml") {
        Err(ConfigError::MissingHardwareDevice(label)) => assert_eq!(label, "Mouse"),
        _ => panic!("expected a missing hardware error"),
    }
}

#[test]
fn a_label_serves_one_profile_device() {
    let parsed = profile(Some("p"), vec![("Naga", vec![]), ("Naga", vec![])]);
    let err = LoadedProfile::from_parts(&hardware(), &parsed, "p.toml").err().unwrap();
    assert_eq!(err.message(), "profile device 'Naga' is missing from hardware config");
}

#[test]
fn later_hardware_entry_replaces_earlier_label() {
    let hw = HardwareConfig::from_file(HardwareFile {
        device: vec![
            hw_device("Pad", "First", "1", "2", 0, None),
            hw_device("Pad", "Second", "3", "4", 1, None),
        ],
    });
    let parsed = profile(Some("p"), vec![("Pad", vec![])]);
    let loaded = LoadedProfile::from_parts(&hw, &parsed, "p.toml").ok().unwrap();
    assert_eq!(loaded.devices[0].expected_name, "Second");
    assert_eq!(loaded.devices[0].selector.interface_number, 1);
}

#[test]
fn output_and_outputs_together_are_rejected() {
    let parsed = profile(None, vec![("Naga", vec![entry("KEY_A", Some("KEY_B"), Some(vec!["KEY_C"]), None)])]);
    let err = LoadedProfile::from_parts(&hardware(), &parsed, "p.toml").err().unwrap();
    assert!(matches!(err, ConfigError::OutputAndOutputs));
    assert_eq!(err.message(), "mapping entries must use either `output` or `outputs`, not both");
}

#[test]
fn missing_output_is_rejected() {
    let parsed = profile(None, vec![("Naga", vec![entry("KEY_A", None, None, None)])]);
    let err = LoadedProfile::from_parts(&hardware(), &parsed, "p.toml").err().unwrap();
    assert!(matches!(err, ConfigError::NoOutput));
    assert_eq!(err.message(), "mapping entries must define `output` or `outputs`");
}

#[test]
fn unknown_key_names_are_reported_outputs_first() {
    let parsed = profile(
        None,
        vec![("Naga", vec![entry("KEY_BOGUS_IN", None, Some(vec!["KEY_A", "KEY_BOGUS_OUT"]), None)])],
    );
    let err = LoadedProfile::from_parts(&hardware(), &parsed, "p.toml").err().unwrap();
    assert_eq!(err.message(), "unsupported key code in config: KEY_BOGUS_OUT");
    let parsed = profile(None, vec![("Naga", vec![entry("KEY_BOGUS_IN", Some("KEY_A"), None, None)])]);
    match LoadedProfile::from_parts(&hardware(), &parsed, "p.toml") {
        Err(ConfigError::UnsupportedKeyCode(name)) => assert_eq!(name, "KEY_BOGUS_IN"),
        _ => panic!("expected an unsupported key"),
    }
}

#[test]
fn first_failing_device_decides_the_error() {
    let parsed = profile(
        None,
        vec![("Naga", vec![entry("KEY_A", None, None, None)]), ("Missing", vec![])],
    );
    let err = LoadedProfile::from_parts(&hardware(), &parsed, "p.toml").err().unwrap();
    assert!(matches!(err, ConfigError::NoOutput));
}

#[test]
fn configuration_paths() {
    assert_eq!(default_hardware_config_path("/opt/firemap"), "/opt/firemap/config/hardware.toml");
    assert_eq!(default_hardware_config_path("/opt/firemap/"), "/opt/firemap/config/hardware.toml");
    assert_eq!(default_hardware_config_path(""), "config/hardware.toml");
    assert_eq!(profile_path("/opt/firemap", "ffxiv"), "/opt/firemap/config/profiles/ffxiv.toml");
    assert_eq!(profile_path("/opt/firemap", "/tmp/other"), "/tmp/other.toml");
}

#[test]
fn configuration_files_share_one_directory() {
    for dir in ["/opt/firemap", "/opt/firemap/", "relative/dir"] {
        let hardware = default_hardware_config_path(dir);
        let profile = profile_path(dir, "ffxiv");
        let hardware_dir = std::path::Path::new(&hardware).parent();
        let profile_dir = std::path::Path::new(&profile).parent().and_then(std::path::Path::parent);
        assert_eq!(hardware_dir, profile_dir);
        assert!(hardware_dir.unwrap().ends_with("config"));
    }
}

#[test]
fn key_names_resolve_through_evdev() {
    assert_eq!(parse_key_code("KEY_A").ok(), Some(30));
    assert_eq!(parse_key_code("KEY_ESC").ok(), Some(1));
    assert_eq!(parse_key_code("BTN_LEFT").ok(), Some(0x110));
    assert_eq!(parse_key_code("KEY_FOOBAR").err(), Some("KEY_FOOBAR".to_string()));
    assert_eq!(parse_key_code("key_a").err(), Some("key_a".to_string()));
}

#[test]
fn profile_names_read_back_from_their_paths() {
    for dir in ["/opt/firemap", "/opt/firemap/", "", "rel"] {
        for name in ["ffxiv", "a.b", ".hidden", "x"] {
            assert_eq!(profile_name_from_path(&profile_path(dir, name)), name);
        }
    }
}
