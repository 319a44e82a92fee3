use firemap::config::{DeviceConfig, LoadedProfile, MappingEntry, UsbSelector};
use firemap::remap::{
    autofire_round_steps, emit_key_tap, emit_keys, emit_keys_reverse, emit_keys_reverse_stepwise,
    emit_keys_stepwise, handle_autofire_event, handle_binding_event, keycode_reader_step,
    validate_input_device_path, virtual_keyboard_keys, DevicePathError, DeviceRemapper,
    OutputStep, ReaderStep, RemapAction, RemapError,
};

/// A readable form of steps: `E[...]` for a batch, `P<ms>` for a pause.
fn show(steps: &[OutputStep]) -> Vec<String> {
    steps
        .iter()
        .map(|s| match s {
            OutputStep::Emit(events) => format!(
                "E{:?}",
                events.iter().map(|e| (e.code, e.value)).collect::<Vec<_>>()
            ),
            OutputStep::PauseMs(ms) => format!("P{ms}"),
        })
        .collect()
}

fn entry(input: u16, outputs: Vec<u16>, fire_ms: Option<u64>) -> MappingEntry {
    MappingEntry { input, outputs, fire_ms }
}

fn remapper() -> DeviceRemapper {
    DeviceRemapper::new(vec![
        entry(16, vec![2], Some(250)),
        entry(103, vec![17], None),
        entry(6, vec![42, 39], None),
        entry(103, vec![18], None),
    ])
}

#[test]
fn batches_and_steps() {
    assert_eq!(show(&emit_keys(&[1, 2], 1)), vec!["E[(1, 1), (2, 1)]"]);
    assert_eq!(show(&emit_keys_reverse(&[1, 2], 0)), vec!["E[(2, 0), (1, 0)]"]);
    assert_eq!(show(&emit_keys_stepwise(&[1, 2], 1)), vec!["E[(1, 1)]", "P5", "E[(2, 1)]", "P5"]);
    assert_eq!(show(&emit_keys_reverse_stepwise(&[1, 2], 0)), vec!["E[(2, 0)]", "P5", "E[(1, 0)]", "P5"]);
}

#[test]
fn combo_tap_presses_in_order_and_releases_in_reverse() {
    assert_eq!(
        show(&emit_key_tap(&[42, 39])),
        vec!["E[(42, 1)]", "P5", "E[(39, 1)]", "P5", "P10", "E[(39, 0)]", "P5", "E[(42, 0)]", "P5"]
    );
    assert_eq!(show(&emit_key_tap(&[])), vec!["P10"]);
    assert_eq!(
        show(&autofire_round_steps(&[2], 250)),
        vec!["E[(2, 1)]", "P5", "P10", "E[(2, 0)]", "P5", "P250"]
    );
}

#[test]
fn single_output_follows_the_source_key() {
    assert_eq!(show(&handle_binding_event(&[17], 1).unwrap()), vec!["E[(17, 1)]"]);
    assert_eq!(show(&handle_binding_event(&[17], 2).unwrap()), vec!["E[(17, 2)]"]);
    assert_eq!(show(&handle_binding_event(&[17], 0).unwrap()), vec!["E[(17, 0)]"]);
    assert_eq!(show(&handle_binding_event(&[], 1).unwrap()), vec!["E[]"]);
    assert_eq!(handle_binding_event(&[17], 3).err(), Some(RemapError::UnsupportedKeyValue(3)));
}

#[test]
fn combo_ignores_release_and_repeat() {
    assert_eq!(show(&handle_binding_event(&[42, 39], 1).unwrap()).len(), 9);
    assert!(handle_binding_event(&[42, 39], 0).unwrap().is_empty());
    assert!(handle_binding_event(&[42, 39], 2).unwrap().is_empty());
    let err = handle_binding_event(&[42, 39], -1).err().unwrap();
    assert_eq!(err, RemapError::UnsupportedKeyValue(-1));
    assert_eq!(err.message(), "unsupported key value: -1");
}

#[test]
fn autofire_starts_once_and_stops_on_release() {
    let mut active: Vec<u16> = Vec::new();
    match handle_autofire_event(&mut active, 16, &[2], 250, 1).unwrap() {
        RemapAction::StartAutofire { source, outputs, fire_ms } => {
            assert_eq!((source, outputs, fire_ms), (16, vec![2], 250));
        },
        _ => panic!("expected a start"),
    }
    assert_eq!(active, vec![16]);
    assert!(matches!(handle_autofire_event(&mut active, 16, &[2], 250, 1).unwrap(), RemapAction::Ignore));
    assert!(matches!(handle_autofire_event(&mut active, 16, &[2], 250, 2).unwrap(), RemapAction::Ignore));
    assert_eq!(active, vec![16]);
    assert!(matches!(
        handle_autofire_event(&mut active, 16, &[2], 250, 0).unwrap(),
        RemapAction::StopAutofire { source: 16 }
    ));
    assert!(active.is_empty());
    assert!(matches!(handle_autofire_event(&mut active, 16, &[2], 250, 0).unwrap(), RemapAction::Ignore));
    let err = handle_autofire_event(&mut active, 16, &[2], 250, 7).err().unwrap();
    assert_eq!(err, RemapError::UnsupportedAutofireValue(7));
    assert_eq!(err.message(), "unsupported key value for autofire: 7");
}

#[test]
fn device_remapping() {
    let mut r = remapper();
    assert!(matches!(r.process_key_event(30, 1).unwrap(), RemapAction::Ignore));
    match r.process_key_event(103, 1).unwrap() {
        RemapAction::Run(steps) => assert_eq!(show(&steps), vec!["E[(18, 1)]"]),
        _ => panic!("expected output"),
    }
    match r.process_key_event(6, 1).unwrap() {
        RemapAction::Run(steps) => assert_eq!(steps.len(), 9),
        _ => panic!("expected a tap"),
    }
    assert!(matches!(r.process_key_event(16, 1).unwrap(), RemapAction::StartAutofire { source: 16, .. }));
    assert!(r.autofire_running(16));
    assert!(matches!(r.process_key_event(16, 1).unwrap(), RemapAction::Ignore));
    assert!(matches!(r.process_key_event(16, 0).unwrap(), RemapAction::StopAutofire { source: 16 }));
    assert!(!r.autofire_running(16));
    assert_eq!(r.process_key_event(16, 5).err(), Some(RemapError::UnsupportedAutofireValue(5)));
    assert_eq!(r.process_key_event(103, 9).err(), Some(RemapError::UnsupportedKeyValue(9)));
    assert_eq!(r.process_key_event(30, 9).ok().map(|a| matches!(a, RemapAction::Ignore)), Some(true));
}

#[test]
fn virtual_keyboard_offers_every_output_once() {
    let device = |mapping| DeviceConfig {
        label: "L".to_string(),
        expected_name: "N".to_string(),
        selector: UsbSelector {
            vendor_id: "1".to_string(),
            product_id: "2".to_string(),
            interface_number: 0,
            serial: None,
        },
        mapping,
    };
    let profile = LoadedProfile {
        profile_name: "p".to_string(),
        devices: vec![
            device(vec![entry(16, vec![2], Some(250)), entry(6, vec![42, 39], None)]),
            device(vec![entry(11, vec![57, 2], None)]),
        ],
    };
    let mut keys = virtual_keyboard_keys(&profile);
    keys.sort();
    assert_eq!(keys, vec![2, 39, 42, 57]);
}

#[test]
fn keycode_reader_steps() {
    assert_eq!(keycode_reader_step(true, 1, 1), ReaderStep::Quit);
    assert_eq!(keycode_reader_step(false, 1, 1), ReaderStep::Show(1));
    assert_eq!(keycode_reader_step(true, 30, 1), ReaderStep::Show(30));
    assert_eq!(keycode_reader_step(true, 1, 0), ReaderStep::Skip);
    assert_eq!(keycode_reader_step(true, 30, 2), ReaderStep::Skip);
}

#[test]
fn device_paths_are_checked() {
    assert_eq!(validate_input_device_path("/dev/input/event3", "probe", true).ok(), Some("/dev/input/event3".to_string()));
    let err = validate_input_device_path("/dev/input/eventX", "probe", true).err().unwrap();
    assert!(matches!(&err, DevicePathError::Placeholder { command } if command == "probe"));
    assert_eq!(
        err.message(),
        "replace /dev/input/eventX with a real device path, for example: cargo run -- probe /dev/input/event29"
    );
    assert!(matches!(
        validate_input_device_path("/dev/input//eventX/", "keycodes", false),
        Err(DevicePathError::Placeholder { .. })
    ));
    let err = validate_input_device_path("/dev/input/event77", "probe", false).err().unwrap();
    assert_eq!(
        err.message(),
        "input device /dev/input/event77 does not exist; run `cargo run -- inspect` first and choose a real /dev/input/eventN path"
    );
}
