//! Hardware identities and profiles: the shapes of the two configuration files,
//! how a hardware file is normalised, and how a profile is merged with it.

use vstd::prelude::*;
use crate::keycodes::{KeyCode, key_code_of_name, parse_key_code};
use crate::paths::{
    ends_in_plain_name, file_stem, last_segment, lemma_last_index_before, lemma_last_segment_after_slash,
    path_file_stem, stem_of,
};
use crate::text::{ascii_lowercase, text_eq, to_ascii_lowercase};

verus! {

// ---------------------------------------------------------------------------
// Models
// ---------------------------------------------------------------------------

/// The text of an optional string.
pub open spec fn opt_text(o: Option<String>) -> Option<Seq<char>> {
    match o {
        Some(s) => Some(s@),
        None => None,
    }
}

/// The texts of a list of strings.
pub open spec fn texts(v: Seq<String>) -> Seq<Seq<char>> {
    v.map_values(|s: String| s@)
}

/// The abstract USB identity that selects one device interface.
pub struct SelectorModel {
    pub vendor_id: Seq<char>,
    pub product_id: Seq<char>,
    pub interface_number: u8,
    pub serial: Option<Seq<char>>,
}

/// The abstract hardware entry: a label, the expected device name and its identity.
pub struct HardwareDeviceModel {
    pub label: Seq<char>,
    pub expected_name: Seq<char>,
    pub selector: SelectorModel,
}

/// The abstract mapping entry: a source key, the keys it emits, and its autofire period.
pub struct MappingModel {
    pub input: KeyCode,
    pub outputs: Seq<KeyCode>,
    pub fire_ms: Option<u64>,
}

/// The abstract device of a loaded profile.
pub struct DeviceModel {
    pub label: Seq<char>,
    pub expected_name: Seq<char>,
    pub selector: SelectorModel,
    pub mapping: Seq<MappingModel>,
}

/// The abstract device entry of a hardware file, as written.
pub struct HardwareFileDeviceModel {
    pub label: Seq<char>,
    pub expected_name: Seq<char>,
    pub vendor_id: Seq<char>,
    pub product_id: Seq<char>,
    pub interface_number: u8,
    pub serial: Option<Seq<char>>,
}

/// The abstract mapping entry of a profile file, as written.
pub struct FileMappingModel {
    pub input: Seq<char>,
    pub output: Option<Seq<char>>,
    pub outputs: Option<Seq<Seq<char>>>,
    pub fire_ms: Option<u64>,
}

/// The abstract device entry of a profile file, as written.
pub struct ProfileFileDeviceModel {
    pub label: Seq<char>,
    pub mapping: Seq<FileMappingModel>,
}

/// The abstract configuration error.
pub enum ConfigErrorModel {
    MissingHardwareDevice(Seq<char>),
    OutputAndOutputs,
    NoOutput,
    UnsupportedKeyCode(Seq<char>),
}

// ---------------------------------------------------------------------------
// Types
// ---------------------------------------------------------------------------

/// The strict USB identity of one device interface.
pub struct UsbSelector {
    pub vendor_id: String,
    pub product_id: String,
    pub interface_number: u8,
    pub serial: Option<String>,
}

/// One device of the hardware configuration.
pub struct HardwareDeviceConfig {
    pub label: String,
    pub expected_name: String,
    pub selector: UsbSelector,
}

/// One device of a loaded profile: its hardware identity and its key mapping.
pub struct DeviceConfig {
    pub label: String,
    pub expected_name: String,
    pub selector: UsbSelector,
    pub mapping: Vec<MappingEntry>,
}

/// One resolved mapping entry.
pub struct MappingEntry {
    pub input: KeyCode,
    pub outputs: Vec<KeyCode>,
    pub fire_ms: Option<u64>,
}

/// A profile merged with the hardware configuration.
pub struct LoadedProfile {
    pub profile_name: String,
    pub devices: Vec<DeviceConfig>,
}

/// The normalised hardware configuration.
pub struct HardwareConfig {
    pub devices: Vec<HardwareDeviceConfig>,
}

/// The hardware file as written (`[[device]]` tables).
pub struct HardwareFile {
    pub device: Vec<HardwareFileDevice>,
}

/// One `[[device]]` table of the hardware file.
pub struct HardwareFileDevice {
    pub label: String,
    pub expected_name: String,
    pub vendor_id: String,
    pub product_id: String,
    pub interface_number: u8,
    pub serial: Option<String>,
}

/// A profile file as written.
pub struct ProfileFile {
    pub profile: Option<String>,
    pub device: Vec<ProfileFileDevice>,
}

/// One `[[device]]` table of a profile file.
pub struct ProfileFileDevice {
    pub label: String,
    pub mapping: Vec<FileMappingEntry>,
}

/// One mapping entry of a profile file, as written.
pub struct FileMappingEntry {
    pub input: String,
    pub output: Option<String>,
    pub outputs: Option<Vec<String>>,
    pub fire_ms: Option<u64>,
}

/// Why a profile could not be merged with the hardware configuration.
pub enum ConfigError {
    /// A profile device whose label the hardware configuration does not have
    /// (or that an earlier profile device already took).
    MissingHardwareDevice(String),
    /// A mapping entry with both `output` and `outputs`.
    OutputAndOutputs,
    /// A mapping entry with neither `output` nor `outputs`.
    NoOutput,
    /// A key name that `evdev` does not know.
    UnsupportedKeyCode(String),
}

// ---------------------------------------------------------------------------
// Views
// ---------------------------------------------------------------------------

impl View for UsbSelector {
    type V = SelectorModel;

    open spec fn view(&self) -> SelectorModel {
        SelectorModel {
            vendor_id: self.vendor_id@,
            product_id: self.product_id@,
            interface_number: self.interface_number,
            serial: opt_text(self.serial),
        }
    }
}

impl View for HardwareDeviceConfig {
    type V = HardwareDeviceModel;

    open spec fn view(&self) -> HardwareDeviceModel {
        HardwareDeviceModel {
            label: self.label@,
            expected_name: self.expected_name@,
            selector: self.selector@,
        }
    }
}

impl View for MappingEntry {
    type V = MappingModel;

    open spec fn view(&self) -> MappingModel {
        MappingModel { input: self.input, outputs: self.outputs@, fire_ms: self.fire_ms }
    }
}

/// The abstract form of a list of mapping entries.
pub open spec fn mapping_view(v: Seq<MappingEntry>) -> Seq<MappingModel> {
    v.map_values(|e: MappingEntry| e@)
}

impl View for DeviceConfig {
    type V = DeviceModel;

    open spec fn view(&self) -> DeviceModel {
        DeviceModel {
            label: self.label@,
            expected_name: self.expected_name@,
            selector: self.selector@,
            mapping: mapping_view(self.mapping@),
        }
    }
}

/// The abstract form of a list of hardware entries.
pub open spec fn hardware_view(v: Seq<HardwareDeviceConfig>) -> Seq<HardwareDeviceModel> {
    v.map_values(|d: HardwareDeviceConfig| d@)
}

/// The abstract form of a list of profile devices.
pub open spec fn devices_view(v: Seq<DeviceConfig>) -> Seq<DeviceModel> {
    v.map_values(|d: DeviceConfig| d@)
}

impl View for HardwareFileDevice {
    type V = HardwareFileDeviceModel;

    open spec fn view(&self) -> HardwareFileDeviceModel {
        HardwareFileDeviceModel {
            label: self.label@,
            expected_name: self.expected_name@,
            vendor_id: self.vendor_id@,
            product_id: self.product_id@,
            interface_number: self.interface_number,
            serial: opt_text(self.serial),
        }
    }
}

impl View for FileMappingEntry {
    type V = FileMappingModel;

    open spec fn view(&self) -> FileMappingModel {
        FileMappingModel {
            input: self.input@,
            output: opt_text(self.output),
            outputs: match self.outputs {
                Some(v) => Some(texts(v@)),
                None => None,
            },
            fire_ms: self.fire_ms,
        }
    }
}

/// The abstract form of the mapping entries of a profile file.
pub open spec fn file_mapping_view(v: Seq<FileMappingEntry>) -> Seq<FileMappingModel> {
    v.map_values(|e: FileMappingEntry| e@)
}

impl View for ProfileFileDevice {
    type V = ProfileFileDeviceModel;

    open spec fn view(&self) -> ProfileFileDeviceModel {
        ProfileFileDeviceModel { label: self.label@, mapping: file_mapping_view(self.mapping@) }
    }
}

/// The abstract form of the devices of a profile file.
pub open spec fn profile_devices_view(v: Seq<ProfileFileDevice>) -> Seq<ProfileFileDeviceModel> {
    v.map_values(|d: ProfileFileDevice| d@)
}

impl View for ConfigError {
    type V = ConfigErrorModel;

    open spec fn view(&self) -> ConfigErrorModel {
        match self {
            ConfigError::MissingHardwareDevice(l) => ConfigErrorModel::MissingHardwareDevice(l@),
            ConfigError::OutputAndOutputs => ConfigErrorModel::OutputAndOutputs,
            ConfigError::NoOutput => ConfigErrorModel::NoOutput,
            ConfigError::UnsupportedKeyCode(n) => ConfigErrorModel::UnsupportedKeyCode(n@),
        }
    }
}

} // verus!

verus! {

// ---------------------------------------------------------------------------
// Hardware file
// ---------------------------------------------------------------------------

/// A hardware entry as the library keeps it: the USB identity in ASCII lower case,
/// label and expected name as written.
pub open spec fn normalized_hardware_device(f: HardwareFileDeviceModel) -> HardwareDeviceModel {
    HardwareDeviceModel {
        label: f.label,
        expected_name: f.expected_name,
        selector: SelectorModel {
            vendor_id: ascii_lowercase(f.vendor_id),
            product_id: ascii_lowercase(f.product_id),
            interface_number: f.interface_number,
            serial: match f.serial {
                Some(s) => Some(ascii_lowercase(s)),
                None => None,
            },
        },
    }
}

/// The hardware entries of a parsed hardware file, normalised, in file order.
pub open spec fn normalized_hardware(v: Seq<HardwareFileDevice>) -> Seq<HardwareDeviceModel> {
    v.map_values(|d: HardwareFileDevice| normalized_hardware_device(d@))
}

fn lowercase_opt(s: &Option<String>) -> (l: Option<String>)
    ensures
        opt_text(l) == match opt_text(*s) {
            Some(t) => Some(ascii_lowercase(t)),
            None => None::<Seq<char>>,
        },
{
    match s {
        Some(t) => Some(to_ascii_lowercase(t.as_str())),
        None => None,
    }
}

impl HardwareConfig {
    /// Builds the hardware configuration from a parsed hardware file: every entry is
    /// kept in order, with vendor id, product id and serial in ASCII lower case.
    pub fn from_file(parsed: HardwareFile) -> (config: Self)
        ensures
            hardware_view(config.devices@) == normalized_hardware(parsed.device@),
            config.devices@.len() == parsed.device@.len(),
            forall|i: int| 0 <= i < parsed.device@.len() ==> {
                let d = #[trigger] config.devices@[i];
                let f = parsed.device@[i];
                &&& d.label@ == f.label@
                &&& d.expected_name@ == f.expected_name@
                &&& d.selector.vendor_id@ == ascii_lowercase(f.vendor_id@)
                &&& d.selector.product_id@ == ascii_lowercase(f.product_id@)
                &&& d.selector.interface_number == f.interface_number
                &&& opt_text(d.selector.serial) == match opt_text(f.serial) {
                    Some(t) => Some(ascii_lowercase(t)),
                    None => None::<Seq<char>>,
                }
                &&& forall|j: int| 0 <= j < d.selector.vendor_id@.len() ==> !('A' <= #[trigger] d.selector.vendor_id@[j] <= 'Z')
                &&& forall|j: int| 0 <= j < d.selector.product_id@.len() ==> !('A' <= #[trigger] d.selector.product_id@[j] <= 'Z')
            },
    {
        let mut devices: Vec<HardwareDeviceConfig> = Vec::new();
        let n = parsed.device.len();
        let mut i: usize = 0;
        while i < n
            invariant
                n == parsed.device.len(),
                i <= n,
                hardware_view(devices@) == normalized_hardware(parsed.device@.subrange(0, i as int)),
            decreases n - i,
        {
            let d = &parsed.device[i];
            let device = HardwareDeviceConfig {
                label: d.label.clone(),
                expected_name: d.expected_name.clone(),
                selector: UsbSelector {
                    vendor_id: to_ascii_lowercase(d.vendor_id.as_str()),
                    product_id: to_ascii_lowercase(d.product_id.as_str()),
                    interface_number: d.interface_number,
                    serial: lowercase_opt(&d.serial),
                },
            };
            assert(device@ == normalized_hardware_device(parsed.device@[i as int]@));
            let ghost before = devices@;
            devices.push(device);
            i = i + 1;
            assert(hardware_view(devices@) =~= hardware_view(before).push(device@));
            assert(normalized_hardware(parsed.device@.subrange(0, i as int)) =~= normalized_hardware(
                parsed.device@.subrange(0, i - 1),
            ).push(normalized_hardware_device(parsed.device@[i - 1]@)));
        }
        assert(parsed.device@.subrange(0, n as int) =~= parsed.device@);
        proof {
            assert forall|i: int| 0 <= i < parsed.device@.len() implies {
                let d = #[trigger] devices@[i];
                let f = parsed.device@[i];
                &&& d.label@ == f.label@
                &&& d.expected_name@ == f.expected_name@
                &&& d.selector.vendor_id@ == ascii_lowercase(f.vendor_id@)
                &&& d.selector.product_id@ == ascii_lowercase(f.product_id@)
                &&& d.selector.interface_number == f.interface_number
                &&& opt_text(d.selector.serial) == match opt_text(f.serial) {
                    Some(t) => Some(ascii_lowercase(t)),
                    None => None::<Seq<char>>,
                }
                &&& forall|j: int| 0 <= j < d.selector.vendor_id@.len() ==> !('A' <= #[trigger] d.selector.vendor_id@[j] <= 'Z')
                &&& forall|j: int| 0 <= j < d.selector.product_id@.len() ==> !('A' <= #[trigger] d.selector.product_id@[j] <= 'Z')
            } by {
                assert(hardware_view(devices@)[i] == devices@[i]@);
                assert(normalized_hardware(parsed.device@)[i] == normalized_hardware_device(parsed.device@[i]@));
                crate::text::ascii_lowercase_lowers_only_capitals(parsed.device@[i].vendor_id@);
                crate::text::ascii_lowercase_lowers_only_capitals(parsed.device@[i].product_id@);
            }
        }
        HardwareConfig { devices }
    }
}

// ---------------------------------------------------------------------------
// Key names
// ---------------------------------------------------------------------------

/// The code of one key name, or the error that names it.
pub open spec fn key_result(name: Seq<char>) -> Result<KeyCode, ConfigErrorModel> {
    match key_code_of_name(name) {
        Some(code) => Ok(code),
        None => Err(ConfigErrorModel::UnsupportedKeyCode(name)),
    }
}

/// The codes of a list of key names, in order, or the error for the first unknown name.
pub open spec fn keys_result(names: Seq<Seq<char>>) -> Result<Seq<KeyCode>, ConfigErrorModel>
    decreases names.len(),
{
    if names.len() == 0 {
        Ok(Seq::empty())
    } else {
        match keys_result(names.drop_last()) {
            Err(e) => Err(e),
            Ok(codes) => match key_result(names.last()) {
                Err(e) => Err(e),
                Ok(code) => Ok(codes.push(code)),
            },
        }
    }
}

/// A profile mapping entry resolved: exactly one of `output` and `outputs` must be
/// given; the outputs are resolved before the input.
pub open spec fn entry_result(e: FileMappingModel) -> Result<MappingModel, ConfigErrorModel> {
    let outputs = match (e.output, e.outputs) {
        (Some(o), None) => match key_result(o) {
            Ok(code) => Ok(seq![code]),
            Err(x) => Err(x),
        },
        (None, Some(os)) => keys_result(os),
        (Some(_), Some(_)) => Err(ConfigErrorModel::OutputAndOutputs),
        (None, None) => Err(ConfigErrorModel::NoOutput),
    };
    match outputs {
        Err(x) => Err(x),
        Ok(os) => match key_result(e.input) {
            Err(x) => Err(x),
            Ok(input) => Ok(MappingModel { input, outputs: os, fire_ms: e.fire_ms }),
        },
    }
}

/// The mapping entries of one profile device resolved in order, or the error of
/// the first entry that fails.
pub open spec fn entries_result(es: Seq<FileMappingModel>) -> Result<Seq<MappingModel>, ConfigErrorModel>
    decreases es.len(),
{
    if es.len() == 0 {
        Ok(Seq::empty())
    } else {
        match entries_result(es.drop_last()) {
            Err(e) => Err(e),
            Ok(done) => match entry_result(es.last()) {
                Err(e) => Err(e),
                Ok(m) => Ok(done.push(m)),
            },
        }
    }
}

fn parse_key(name: &String) -> (res: Result<KeyCode, ConfigError>)
    ensures
        match res {
            Ok(code) => key_result(name@) == Ok::<KeyCode, ConfigErrorModel>(code),
            Err(e) => key_result(name@) == Err::<KeyCode, ConfigErrorModel>(e@),
        },
{
    match parse_key_code(name.as_str()) {
        Ok(code) => Ok(code),
        Err(unknown) => Err(ConfigError::UnsupportedKeyCode(unknown)),
    }
}

fn parse_keys(names: &Vec<String>) -> (res: Result<Vec<KeyCode>, ConfigError>)
    ensures
        match res {
            Ok(codes) => keys_result(texts(names@)) == Ok::<Seq<KeyCode>, ConfigErrorModel>(codes@),
            Err(e) => keys_result(texts(names@)) == Err::<Seq<KeyCode>, ConfigErrorModel>(e@),
        },
{
    let mut codes: Vec<KeyCode> = Vec::new();
    let n = names.len();
    let mut i: usize = 0;
    while i < n
        invariant
            n == names.len(),
            i <= n,
            keys_result(texts(names@.subrange(0, i as int))) == Ok::<Seq<KeyCode>, ConfigErrorModel>(codes@),
        decreases n - i,
    {
        let ghost prefix = texts(names@.subrange(0, i as int + 1));
        assert(prefix.drop_last() =~= texts(names@.subrange(0, i as int)));
        assert(prefix.last() == names@[i as int]@);
        assert(texts(names@).subrange(0, i as int + 1) =~= prefix);
        let code = parse_key(&names[i]);
        match code {
            Err(e) => {
                proof {
                    assert(keys_result(prefix) == Err::<Seq<KeyCode>, ConfigErrorModel>(e@));
                    lemma_keys_error_stays(texts(names@), i as int + 1);
                }
                return Err(e);
            }
            Ok(c) => {
                codes.push(c);
            }
        }
        i = i + 1;
    }
    assert(names@.subrange(0, n as int) =~= names@);
    Ok(codes)
}

proof fn lemma_keys_error_stays(names: Seq<Seq<char>>, k: int)
    requires
        0 <= k <= names.len(),
        keys_result(names.subrange(0, k)) is Err,
    ensures
        keys_result(names) == keys_result(names.subrange(0, k)),
    decreases names.len() - k,
{
    if k < names.len() {
        assert(names.drop_last().subrange(0, k) =~= names.subrange(0, k));
        lemma_keys_error_stays(names.drop_last(), k);
    } else {
        assert(names.subrange(0, k) =~= names);
    }
}

} // verus!

verus! {

// ---------------------------------------------------------------------------
// Profile merge
// ---------------------------------------------------------------------------

/// The hardware entry a label selects: the last entry with that label, since a
/// later entry replaces an earlier one with the same label.
pub open spec fn hardware_for_label(hw: Seq<HardwareDeviceModel>, label: Seq<char>) -> Option<HardwareDeviceModel>
    decreases hw.len(),
{
    if hw.len() == 0 {
        None
    } else if hw.last().label == label {
        Some(hw.last())
    } else {
        hardware_for_label(hw.drop_last(), label)
    }
}

/// Some device of `devs` has the label `label`.
pub open spec fn label_taken(devs: Seq<ProfileFileDeviceModel>, label: Seq<char>) -> bool {
    exists|j: int| 0 <= j < devs.len() && devs[j].label == label
}

/// A profile merged with the hardware entries, device by device in profile order:
/// each profile device takes the hardware entry of its label (a label can be taken
/// once), its mapping entries are resolved, and the first failure is the result.
pub open spec fn merge_result(hw: Seq<HardwareDeviceModel>, devs: Seq<ProfileFileDeviceModel>) -> Result<Seq<DeviceModel>, ConfigErrorModel>
    decreases devs.len(),
{
    if devs.len() == 0 {
        Ok(Seq::empty())
    } else {
        match merge_result(hw, devs.drop_last()) {
            Err(e) => Err(e),
            Ok(done) => {
                let d = devs.last();
                if label_taken(devs.drop_last(), d.label) {
                    Err(ConfigErrorModel::MissingHardwareDevice(d.label))
                } else {
                    match hardware_for_label(hw, d.label) {
                        None => Err(ConfigErrorModel::MissingHardwareDevice(d.label)),
                        Some(h) => match entries_result(d.mapping) {
                            Err(e) => Err(e),
                            Ok(m) => Ok(done.push(DeviceModel {
                                label: h.label,
                                expected_name: h.expected_name,
                                selector: h.selector,
                                mapping: m,
                            })),
                        },
                    }
                }
            },
        }
    }
}

/// The profile name that a profile file's path gives: the file stem, or
/// `default` when the path has none.
pub open spec fn profile_name_for_path(path: Seq<char>) -> Seq<char> {
    match path_file_stem(path) {
        Some(stem) => stem,
        None => "default"@,
    }
}

fn clone_opt(s: &Option<String>) -> (c: Option<String>)
    ensures
        opt_text(c) == opt_text(*s),
{
    match s {
        Some(t) => Some(t.clone()),
        None => None,
    }
}

impl UsbSelector {
    /// A copy of this selector.
    pub fn duplicate(&self) -> (c: Self)
        ensures
            c@ == self@,
    {
        UsbSelector {
            vendor_id: self.vendor_id.clone(),
            product_id: self.product_id.clone(),
            interface_number: self.interface_number,
            serial: clone_opt(&self.serial),
        }
    }
}

fn parse_entry(e: &FileMappingEntry) -> (res: Result<MappingEntry, ConfigError>)
    ensures
        match res {
            Ok(m) => entry_result(e@) == Ok::<MappingModel, ConfigErrorModel>(m@),
            Err(x) => entry_result(e@) == Err::<MappingModel, ConfigErrorModel>(x@),
        },
{
    let outputs: Vec<KeyCode> = match (&e.output, &e.outputs) {
        (Some(o), None) => match parse_key(o) {
            Ok(code) => {
                let v = vec![code];
                assert(v@ =~= seq![code]);
                v
            },
            Err(x) => {
                return Err(x);
            },
        },
        (None, Some(os)) => match parse_keys(os) {
            Ok(codes) => codes,
            Err(x) => {
                return Err(x);
            },
        },
        (Some(_), Some(_)) => {
            return Err(ConfigError::OutputAndOutputs);
        },
        (None, None) => {
            return Err(ConfigError::NoOutput);
        },
    };
    match parse_key(&e.input) {
        Ok(input) => Ok(MappingEntry { input, outputs, fire_ms: e.fire_ms }),
        Err(x) => Err(x),
    }
}

proof fn lemma_entries_error_stays(es: Seq<FileMappingModel>, k: int)
    requires
        0 <= k <= es.len(),
        entries_result(es.subrange(0, k)) is Err,
    ensures
        entries_result(es) == entries_result(es.subrange(0, k)),
    decreases es.len() - k,
{
    if k < es.len() {
        assert(es.drop_last().subrange(0, k) =~= es.subrange(0, k));
        lemma_entries_error_stays(es.drop_last(), k);
    } else {
        assert(es.subrange(0, k) =~= es);
    }
}

fn parse_entries(es: &Vec<FileMappingEntry>) -> (res: Result<Vec<MappingEntry>, ConfigError>)
    ensures
        match res {
            Ok(m) => entries_result(file_mapping_view(es@)) == Ok::<Seq<MappingModel>, ConfigErrorModel>(mapping_view(m@)),
            Err(x) => entries_result(file_mapping_view(es@)) == Err::<Seq<MappingModel>, ConfigErrorModel>(x@),
        },
{
    let mut done: Vec<MappingEntry> = Vec::new();
    let n = es.len();
    let mut i: usize = 0;
    assert(file_mapping_view(es@.subrange(0, 0)) =~= Seq::<FileMappingModel>::empty());
    assert(mapping_view(done@) =~= Seq::<MappingModel>::empty());
    while i < n
        invariant
            n == es.len(),
            i <= n,
            entries_result(file_mapping_view(es@.subrange(0, i as int))) == Ok::<Seq<MappingModel>, ConfigErrorModel>(mapping_view(done@)),
        decreases n - i,
    {
        let ghost prefix = file_mapping_view(es@.subrange(0, i as int + 1));
        assert(prefix.drop_last() =~= file_mapping_view(es@.subrange(0, i as int)));
        assert(prefix.last() == es@[i as int]@);
        assert(file_mapping_view(es@).subrange(0, i as int + 1) =~= prefix);
        match parse_entry(&es[i]) {
            Err(x) => {
                proof {
                    assert(entries_result(prefix) == Err::<Seq<MappingModel>, ConfigErrorModel>(x@));
                    lemma_entries_error_stays(file_mapping_view(es@), i as int + 1);
                }
                return Err(x);
            },
            Ok(m) => {
                let ghost before = done@;
                done.push(m);
                assert(mapping_view(done@) =~= mapping_view(before).push(m@));
            },
        }
        i = i + 1;
    }
    assert(es@.subrange(0, n as int) =~= es@);
    Ok(done)
}

/// The index of the hardware entry that `label` selects (the last one with that label).
fn find_hardware(hw: &Vec<HardwareDeviceConfig>, label: &String) -> (found: Option<usize>)
    ensures
        match found {
            Some(k) => k < hw.len() && hardware_for_label(hardware_view(hw@), label@) == Some(hw@[k as int]@),
            None => hardware_for_label(hardware_view(hw@), label@).is_none(),
        },
{
    let ghost all = hardware_view(hw@);
    let mut k = hw.len();
    assert(all.subrange(0, k as int) =~= all);
    while k > 0
        invariant
            k <= hw.len(),
            all == hardware_view(hw@),
            hardware_for_label(all, label@) == hardware_for_label(all.subrange(0, k as int), label@),
        decreases k,
    {
        let ghost sub = all.subrange(0, k as int);
        assert(sub.last() == hw@[k - 1]@);
        if text_eq(hw[k - 1].label.as_str(), label.as_str()) {
            return Some(k - 1);
        }
        assert(sub.drop_last() =~= all.subrange(0, k - 1));
        k = k - 1;
    }
    None
}

/// Whether one of the first `upto` profile devices has the label `label`.
fn label_used(devs: &Vec<ProfileFileDevice>, upto: usize, label: &String) -> (used: bool)
    requires
        upto <= devs.len(),
    ensures
        used == label_taken(profile_devices_view(devs@).subrange(0, upto as int), label@),
{
    let ghost sub = profile_devices_view(devs@).subrange(0, upto as int);
    let mut j: usize = 0;
    while j < upto
        invariant
            upto <= devs.len(),
            sub == profile_devices_view(devs@).subrange(0, upto as int),
            j <= upto,
            forall|q: int| 0 <= q < j ==> sub[q].label != label@,
        decreases upto - j,
    {
        assert(sub[j as int] == devs@[j as int]@);
        if text_eq(devs[j].label.as_str(), label.as_str()) {
            return true;
        }
        j = j + 1;
    }
    false
}

proof fn lemma_merge_error_stays(hw: Seq<HardwareDeviceModel>, devs: Seq<ProfileFileDeviceModel>, k: int)
    requires
        0 <= k <= devs.len(),
        merge_result(hw, devs.subrange(0, k)) is Err,
    ensures
        merge_result(hw, devs) == merge_result(hw, devs.subrange(0, k)),
    decreases devs.len() - k,
{
    if k < devs.len() {
        assert(devs.drop_last().subrange(0, k) =~= devs.subrange(0, k));
        lemma_merge_error_stays(hw, devs.drop_last(), k);
    } else {
        assert(devs.subrange(0, k) =~= devs);
    }
}

/// Derives the profile name from the file when the `profile` field is missing:
/// the file stem of the path, or `default`.
pub fn profile_name_from_path(path: &str) -> (name: String)
    ensures
        name@ == profile_name_for_path(path@),
        ends_in_plain_name(path@) ==> name@ == stem_of(last_segment(path@)),
{
    match file_stem(path) {
        Some(stem) => stem,
        None => {
            let d = "default".to_string();
            proof {
                reveal_strlit("default");
            }
            d
        },
    }
}

impl LoadedProfile {
    /// Merges one parsed profile with the hardware configuration and resolves the
    /// configured key names. Each profile device must match a hardware label, and
    /// each label serves one profile device. The profile name is the file's
    /// `profile` field, or else the name that `profile_path` gives.
    pub fn from_parts(hardware: &HardwareConfig, parsed: &ProfileFile, profile_path: &str) -> (res: Result<Self, ConfigError>)
        ensures
            match res {
                Ok(p) => {
                    &&& merge_result(hardware_view(hardware.devices@), profile_devices_view(parsed.device@))
                        == Ok::<Seq<DeviceModel>, ConfigErrorModel>(devices_view(p.devices@))
                    &&& p.profile_name@ == match opt_text(parsed.profile) {
                        Some(n) => n,
                        None => profile_name_for_path(profile_path@),
                    }
                },
                Err(e) => merge_result(hardware_view(hardware.devices@), profile_devices_view(parsed.device@))
                    == Err::<Seq<DeviceModel>, ConfigErrorModel>(e@),
            },
    {
        let ghost hw = hardware_view(hardware.devices@);
        let ghost all = profile_devices_view(parsed.device@);
        let mut devices: Vec<DeviceConfig> = Vec::new();
        let n = parsed.device.len();
        let mut i: usize = 0;
        assert(all.subrange(0, 0) =~= Seq::<ProfileFileDeviceModel>::empty());
        assert(devices_view(devices@) =~= Seq::<DeviceModel>::empty());
        while i < n
            invariant
                n == parsed.device.len(),
                i <= n,
                hw == hardware_view(hardware.devices@),
                all == profile_devices_view(parsed.device@),
                merge_result(hw, all.subrange(0, i as int)) == Ok::<Seq<DeviceModel>, ConfigErrorModel>(devices_view(devices@)),
            decreases n - i,
        {
            let pd = &parsed.device[i];
            let ghost prefix = all.subrange(0, i as int + 1);
            assert(prefix.drop_last() =~= all.subrange(0, i as int));
            assert(prefix.last() == pd@);
            assert(all.subrange(0, i as int) =~= profile_devices_view(parsed.device@).subrange(0, i as int));
            if label_used(&parsed.device, i, &pd.label) {
                proof {
                    lemma_merge_error_stays(hw, all, i as int + 1);
                }
                return Err(ConfigError::MissingHardwareDevice(pd.label.clone()));
            }
            let found = find_hardware(&hardware.devices, &pd.label);
            match found {
                None => {
                    proof {
                        lemma_merge_error_stays(hw, all, i as int + 1);
                    }
                    return Err(ConfigError::MissingHardwareDevice(pd.label.clone()));
                },
                Some(k) => {
                    match parse_entries(&pd.mapping) {
                        Err(x) => {
                            proof {
                                lemma_merge_error_stays(hw, all, i as int + 1);
                            }
                            return Err(x);
                        },
                        Ok(mapping) => {
                            let h = &hardware.devices[k];
                            let device = DeviceConfig {
                                label: h.label.clone(),
                                expected_name: h.expected_name.clone(),
                                selector: h.selector.duplicate(),
                                mapping,
                            };
                            let ghost before = devices@;
                            devices.push(device);
                            assert(devices_view(devices@) =~= devices_view(before).push(device@));
                        },
                    }
                },
            }
            i = i + 1;
        }
        assert(all.subrange(0, n as int) =~= all);
        let profile_name = match &parsed.profile {
            Some(name) => name.clone(),
            None => profile_name_from_path(profile_path),
        };
        Ok(LoadedProfile { profile_name, devices })
    }
}

} // verus!

verus! {

// ---------------------------------------------------------------------------
// Configuration paths
// ---------------------------------------------------------------------------

/// The path of the hardware configuration under a project directory.
pub open spec fn hardware_config_path_in(dir: Seq<char>) -> Seq<char> {
    crate::paths::joined(dir, "config/hardware.toml"@)
}

/// The path of a named profile under a project directory.
pub open spec fn profile_path_in(dir: Seq<char>, name: Seq<char>) -> Seq<char> {
    crate::paths::joined(
        crate::paths::joined(crate::paths::joined(dir, "config"@), "profiles"@),
        name + ".toml"@,
    )
}

/// Both configuration files lie in the project's `config` directory: the
/// hardware config is `hardware.toml` in it, and each profile is a file of its
/// `profiles` subdirectory.
pub proof fn config_files_share_the_config_dir(dir: Seq<char>, name: Seq<char>)
    ensures
        hardware_config_path_in(dir) == crate::paths::joined(crate::paths::joined(dir, "config"@), "hardware.toml"@),
        profile_path_in(dir, name) == crate::paths::joined(
            crate::paths::joined(crate::paths::joined(dir, "config"@), "profiles"@),
            name + ".toml"@,
        ),
{
    reveal_strlit("config/hardware.toml");
    reveal_strlit("config");
    reveal_strlit("hardware.toml");
    let whole = "config/hardware.toml"@;
    let step = "config"@ + seq!['/'] + "hardware.toml"@;
    assert(whole =~= step);
    if dir.len() == 0 {
        assert(dir + whole =~= whole);
        assert(dir + "config"@ =~= "config"@);
    } else if dir.last() == '/' {
        assert(dir + whole =~= (dir + "config"@) + seq!['/'] + "hardware.toml"@);
    } else {
        assert(dir + seq!['/'] + whole =~= (dir + seq!['/'] + "config"@) + seq!['/'] + "hardware.toml"@);
    }
}

/// The name of a profile reads back from its path: for a name that is not
/// empty and holds no `/`, the path that `profile_path` builds ends in an
/// ordinary file name whose stem is the name, so `profile_name_from_path`
/// gives the name back.
pub proof fn profile_name_reads_back(dir: Seq<char>, name: Seq<char>)
    requires
        name.len() > 0,
        !name.contains('/'),
    ensures
        ends_in_plain_name(profile_path_in(dir, name)),
        stem_of(last_segment(profile_path_in(dir, name))) == name,
{
    reveal_strlit("config");
    reveal_strlit("profiles");
    reveal_strlit(".toml");
    reveal_strlit("toml");
    let base = crate::paths::joined(crate::paths::joined(dir, "config"@), "profiles"@);
    let file = name + ".toml"@;
    assert(file[0] == name[0]);
    assert(name[0] != '/');
    let head = if base.len() == 0 || base.last() == '/' {
        base
    } else {
        base + seq!['/']
    };
    assert(profile_path_in(dir, name) =~= head + file);
    assert(head.len() == 0 || head.last() == '/');
    assert(!file.contains('/')) by {
        if file.contains('/') {
            let i = choose|i: int| 0 <= i < file.len() && file[i] == '/';
            if i < name.len() {
                assert(name[i] == '/');
            }
        }
    }
    lemma_last_segment_after_slash(head, file);
    assert(file.len() >= 6);
    let dotted = name + seq!['.'];
    assert(file =~= dotted + "toml"@);
    assert(!"toml"@.contains('.')) by {
        if "toml"@.contains('.') {
            let i = choose|i: int| 0 <= i < "toml"@.len() && "toml"@[i] == '.';
            assert("toml"@ =~= seq!['t', 'o', 'm', 'l']);
        }
    }
    lemma_last_index_before(dotted, "toml"@, '.');
    assert(dotted.last() == '.');
    assert(file.subrange(0, name.len() as int) =~= name);
}

/// Returns the path of the hardware config inside the project directory `project_dir`.
pub fn default_hardware_config_path(project_dir: &str) -> (p: String)
    ensures
        p@ == hardware_config_path_in(project_dir@),
{
    crate::paths::join_path(project_dir, "config/hardware.toml")
}

/// Builds the path of a named profile in `config/profiles` inside `project_dir`.
pub fn profile_path(project_dir: &str, profile_name: &str) -> (p: String)
    ensures
        p@ == profile_path_in(project_dir@, profile_name@),
{
    let config_dir = crate::paths::join_path(project_dir, "config");
    let profiles_dir = crate::paths::join_path(config_dir.as_str(), "profiles");
    let mut file = profile_name.to_string();
    file.append(".toml");
    crate::paths::join_path(profiles_dir.as_str(), file.as_str())
}

} // verus!

verus! {

/// The message of a configuration error.
pub open spec fn config_error_text(e: ConfigErrorModel) -> Seq<char> {
    match e {
        ConfigErrorModel::MissingHardwareDevice(l) => "profile device '"@ + l + "' is missing from hardware config"@,
        ConfigErrorModel::OutputAndOutputs => "mapping entries must use either `output` or `outputs`, not both"@,
        ConfigErrorModel::NoOutput => "mapping entries must define `output` or `outputs`"@,
        ConfigErrorModel::UnsupportedKeyCode(n) => "unsupported key code in config: "@ + n,
    }
}

impl ConfigError {
    /// The message shown for this error.
    pub fn message(&self) -> (m: String)
        ensures
            m@ == config_error_text(self@),
    {
        match self {
            ConfigError::MissingHardwareDevice(l) => {
                let mut m = "profile device '".to_string();
                m.append(l.as_str());
                m.append("' is missing from hardware config");
                m
            },
            ConfigError::OutputAndOutputs => "mapping entries must use either `output` or `outputs`, not both".to_string(),
            ConfigError::NoOutput => "mapping entries must define `output` or `outputs`".to_string(),
            ConfigError::UnsupportedKeyCode(n) => {
                let mut m = "unsupported key code in config: ".to_string();
                m.append(n.as_str());
                m
            },
        }
    }
}

} // verus!

verus! {

/// The entry a label selects has that label.
pub proof fn hardware_lookup_finds_the_label(hw: Seq<HardwareDeviceModel>, label: Seq<char>)
    ensures
        hardware_for_label(hw, label) matches Some(h) ==> h.label == label,
        hardware_for_label(hw, label) is None <==> !(exists|i: int| 0 <= i < hw.len() && #[trigger] hw[i].label == label),
    decreases hw.len(),
{
    if hw.len() > 0 {
        hardware_lookup_finds_the_label(hw.drop_last(), label);
        if exists|i: int| 0 <= i < hw.len() && #[trigger] hw[i].label == label {
            let i = choose|i: int| 0 <= i < hw.len() && #[trigger] hw[i].label == label;
            if i < hw.len() - 1 {
                assert(hw.drop_last()[i].label == label);
            }
        }
        if exists|i: int| 0 <= i < hw.len() - 1 && #[trigger] hw.drop_last()[i].label == label {
            let i = choose|i: int| 0 <= i < hw.len() - 1 && #[trigger] hw.drop_last()[i].label == label;
            assert(hw[i].label == label);
        }
    }
}

/// A profile merges exactly when its device labels are distinct, each label is
/// in the hardware configuration, and every mapping entry resolves; then device
/// `i` of the result is profile device `i` with the identity of its hardware
/// entry and its resolved mapping.
pub proof fn merge_follows_the_profile(hw: Seq<HardwareDeviceModel>, devs: Seq<ProfileFileDeviceModel>)
    ensures
        merge_result(hw, devs) is Ok <==> {
            &&& forall|i: int, j: int| 0 <= i < j < devs.len() ==> #[trigger] devs[i].label != #[trigger] devs[j].label
            &&& forall|i: int| 0 <= i < devs.len() ==> hardware_for_label(hw, #[trigger] devs[i].label) is Some
            &&& forall|i: int| 0 <= i < devs.len() ==> entries_result(#[trigger] devs[i].mapping) is Ok
        },
        merge_result(hw, devs) matches Ok(ms) ==> {
            &&& ms.len() == devs.len()
            &&& forall|i: int| 0 <= i < devs.len() ==> {
                let h = hardware_for_label(hw, devs[i].label).unwrap();
                &&& (#[trigger] ms[i]).label == devs[i].label
                &&& ms[i].expected_name == h.expected_name
                &&& ms[i].selector == h.selector
                &&& entries_result(devs[i].mapping) == Ok::<Seq<MappingModel>, ConfigErrorModel>(ms[i].mapping)
            }
        },
    decreases devs.len(),
{
    if devs.len() > 0 {
        let init = devs.drop_last();
        let d = devs.last();
        let n = devs.len() - 1;
        merge_follows_the_profile(hw, init);
        hardware_lookup_finds_the_label(hw, d.label);
        assert forall|i: int| 0 <= i < n implies #[trigger] init[i] == devs[i] by {}
        if merge_result(hw, devs) is Ok {
            assert(merge_result(hw, init) is Ok);
            assert forall|i: int, j: int| 0 <= i < j < devs.len() implies #[trigger] devs[i].label != #[trigger] devs[j].label by {
                if j < n {
                    assert(init[i].label != init[j].label);
                } else {
                    assert(!label_taken(init, d.label));
                    if devs[i].label == d.label {
                        assert(init[i].label == d.label);
                    }
                }
            }
            assert forall|i: int| 0 <= i < devs.len() implies hardware_for_label(hw, #[trigger] devs[i].label) is Some by {
                if i < n {
                    assert(hardware_for_label(hw, init[i].label) is Some);
                }
            }
            assert forall|i: int| 0 <= i < devs.len() implies entries_result(#[trigger] devs[i].mapping) is Ok by {
                if i < n {
                    assert(entries_result(init[i].mapping) is Ok);
                }
            }
        } else {
            if (forall|i: int, j: int| 0 <= i < j < devs.len() ==> #[trigger] devs[i].label != #[trigger] devs[j].label)
                && (forall|i: int| 0 <= i < devs.len() ==> hardware_for_label(hw, #[trigger] devs[i].label) is Some)
                && (forall|i: int| 0 <= i < devs.len() ==> entries_result(#[trigger] devs[i].mapping) is Ok) {
                assert forall|i: int, j: int| 0 <= i < j < init.len() implies #[trigger] init[i].label != #[trigger] init[j].label by {
                    assert(devs[i].label != devs[j].label);
                }
                assert forall|i: int| 0 <= i < init.len() implies hardware_for_label(hw, #[trigger] init[i].label) is Some by {
                    assert(hardware_for_label(hw, devs[i].label) is Some);
                }
                assert forall|i: int| 0 <= i < init.len() implies entries_result(#[trigger] init[i].mapping) is Ok by {
                    assert(entries_result(devs[i].mapping) is Ok);
                }
                assert(!label_taken(init, d.label)) by {
                    if label_taken(init, d.label) {
                        let j = choose|j: int| 0 <= j < init.len() && init[j].label == d.label;
                        assert(devs[j].label != devs[n].label);
                    }
                }
                assert(hardware_for_label(hw, devs[n].label) is Some);
                assert(entries_result(devs[n].mapping) is Ok);
            }
        }
        if merge_result(hw, devs) is Ok {
            let ms = merge_result(hw, devs)->Ok_0;
            let prev = merge_result(hw, init)->Ok_0;
            assert forall|i: int| 0 <= i < devs.len() implies {
                let h = hardware_for_label(hw, devs[i].label).unwrap();
                &&& (#[trigger] ms[i]).label == devs[i].label
                &&& ms[i].expected_name == h.expected_name
                &&& ms[i].selector == h.selector
                &&& entries_result(devs[i].mapping) == Ok::<Seq<MappingModel>, ConfigErrorModel>(ms[i].mapping)
            } by {
                if i < n {
                    assert(ms[i] == prev[i]);
                } else {
                    hardware_lookup_finds_the_label(hw, devs[i].label);
                }
            }
        }
    }
}

/// A mapping entry resolves only with exactly one of `output` and `outputs`; a
/// single `output` gives exactly one output key, and the autofire period is kept.
pub proof fn entry_needs_one_output_form(e: FileMappingModel)
    ensures
        entry_result(e) is Ok ==> (e.output is Some) != (e.outputs is Some),
        entry_result(e) matches Ok(m) ==> m.fire_ms == e.fire_ms,
        entry_result(e) matches Ok(m) ==> (e.output is Some ==> m.outputs.len() == 1),
        entry_result(e) matches Ok(m) ==> (e.outputs is Some ==> m.outputs.len() == e.outputs.unwrap().len()),
{
    if let Some(os) = e.outputs {
        lemma_keys_result_len(os);
    }
}

proof fn lemma_keys_result_len(names: Seq<Seq<char>>)
    ensures
        keys_result(names) matches Ok(codes) ==> codes.len() == names.len(),
    decreases names.len(),
{
    if names.len() > 0 {
        lemma_keys_result_len(names.drop_last());
    }
}

} // verus!
