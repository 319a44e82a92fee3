//! The decisions behind the subcommands: reading the command line, explaining
//! and resolving hardware labels, and the lines of the device listings.

use vstd::prelude::*;
use crate::config::{
    DeviceConfig, DeviceModel, HardwareConfig, HardwareDeviceConfig, HardwareDeviceModel, hardware_view,
};
use crate::discovery::{CandidateDevice, CandidateModel, candidates_view, short_line};
use crate::format::{
    append_debug_opt_text, append_debug_opt_u8, debug_opt_text, debug_opt_u8, lemma_debug_opt_u8_lacks_break,
};
use crate::selection::{SelectError, candidate_fits, fitting, select_device};
use crate::text::{
    has_prefix, joined_with, lemma_concat_contains, lemma_joined_lacks, lemma_split_joined, split_on, starts_with,
    text_eq,
};

verus! {

// ---------------------------------------------------------------------------
// Command line
// ---------------------------------------------------------------------------

/// One subcommand with its arguments.
pub enum Command {
    /// Remap with the named profile.
    Run { profile: String },
    /// Describe every node and how each hardware label resolves.
    Inspect,
    /// List the nodes with their hardware labels.
    Devices,
    /// Print starter `hardware.toml` blocks; `show_all` lists every interface.
    Hardware { show_all: bool },
    /// Print the raw key events of one node.
    Probe { path: String, grab: bool },
    /// Print key codes on key press, for a node path or a hardware label.
    Keycodes { target: String, grab: bool },
}

/// Why the command line was not understood.
pub enum CommandError {
    UnknownSubcommand(String),
    MissingProbePath,
    MissingKeycodesTarget,
}

/// The profile used when none is named.
pub open spec fn default_profile() -> Seq<char> {
    "ffxiv"@
}

/// One of the words after the subcommand is `word`.
pub open spec fn option_given(args: Seq<String>, word: Seq<char>) -> bool {
    exists|i: int| 1 <= i < args.len() && args[i]@ == word
}

/// The subcommand is one of the known ones.
pub open spec fn known_subcommand(w: Seq<char>) -> bool {
    ||| w == "run"@
    ||| w == "inspect"@
    ||| w == "devices"@
    ||| w == "hardware"@
    ||| w == "probe"@
    ||| w == "keycodes"@
}

fn option_present(args: &Vec<String>, word: &str) -> (yes: bool)
    ensures
        yes == option_given(args@, word@),
{
    let mut i: usize = 1;
    while i < args.len()
        invariant
            1 <= i,
            forall|j: int| 1 <= j < i && j < args@.len() ==> args@[j]@ != word@,
        decreases args.len() - i,
    {
        if text_eq(args[i].as_str(), word) {
            return true;
        }
        i = i + 1;
    }
    false
}

/// Reads the words after the program name. No subcommand means `run`; `run`
/// takes an optional profile name (`ffxiv` by default); `probe` and `keycodes`
/// need a target and grab the device unless `--no-grab` is given; `hardware`
/// lists every interface with `--all`.
pub fn parse_command(args: &Vec<String>) -> (res: Result<Command, CommandError>)
    ensures
        args.len() == 0 ==> (res matches Ok(Command::Run { profile }) && profile@ == default_profile()),
        args.len() > 0 && args@[0]@ == "run"@ ==> (res matches Ok(Command::Run { profile }) && profile@
            == if args.len() > 1 {
            args@[1]@
        } else {
            default_profile()
        }),
        args.len() > 0 && args@[0]@ == "inspect"@ ==> res matches Ok(Command::Inspect),
        args.len() > 0 && args@[0]@ == "devices"@ ==> res matches Ok(Command::Devices),
        args.len() > 0 && args@[0]@ == "hardware"@ ==> (res matches Ok(Command::Hardware { show_all })
            && show_all == option_given(args@, "--all"@)),
        args.len() > 0 && args@[0]@ == "probe"@ ==> if args.len() > 1 {
            res matches Ok(Command::Probe { path, grab }) && path@ == args@[1]@ && grab == !option_given(
                args@,
                "--no-grab"@,
            )
        } else {
            res matches Err(CommandError::MissingProbePath)
        },
        args.len() > 0 && args@[0]@ == "keycodes"@ ==> if args.len() > 1 {
            res matches Ok(Command::Keycodes { target, grab }) && target@ == args@[1]@ && grab
                == !option_given(args@, "--no-grab"@)
        } else {
            res matches Err(CommandError::MissingKeycodesTarget)
        },
        args.len() > 0 && !known_subcommand(args@[0]@) ==> (res matches Err(CommandError::UnknownSubcommand(w))
            && w@ == args@[0]@),
{
    proof {
        reveal_strlit("run");
        reveal_strlit("inspect");
        reveal_strlit("devices");
        reveal_strlit("hardware");
        reveal_strlit("probe");
        reveal_strlit("keycodes");
        assert("inspect"@.len() == 7 && "run"@.len() == 3 && "probe"@.len() == 5);
        assert("devices"@.len() == 7 && "devices"@[0] != "inspect"@[0]);
        assert("hardware"@.len() == 8 && "keycodes"@.len() == 8 && "hardware"@[0] != "keycodes"@[0]);
    }
    if args.len() == 0 {
        return Ok(Command::Run { profile: "ffxiv".to_string() });
    }
    let sub = args[0].as_str();
    if text_eq(sub, "run") {
        let profile = if args.len() > 1 {
            args[1].clone()
        } else {
            "ffxiv".to_string()
        };
        Ok(Command::Run { profile })
    } else if text_eq(sub, "inspect") {
        Ok(Command::Inspect)
    } else if text_eq(sub, "devices") {
        Ok(Command::Devices)
    } else if text_eq(sub, "hardware") {
        Ok(Command::Hardware { show_all: option_present(args, "--all") })
    } else if text_eq(sub, "probe") {
        if args.len() > 1 {
            Ok(Command::Probe { path: args[1].clone(), grab: !option_present(args, "--no-grab") })
        } else {
            Err(CommandError::MissingProbePath)
        }
    } else if text_eq(sub, "keycodes") {
        if args.len() > 1 {
            Ok(Command::Keycodes { target: args[1].clone(), grab: !option_present(args, "--no-grab") })
        } else {
            Err(CommandError::MissingKeycodesTarget)
        }
    } else {
        Err(CommandError::UnknownSubcommand(args[0].clone()))
    }
}

// ---------------------------------------------------------------------------
// Hardware labels
// ---------------------------------------------------------------------------

/// Converts one hardware entry into a strict selector without profile mappings.
pub fn exact_device_config(device: &HardwareDeviceConfig) -> (config: DeviceConfig)
    ensures
        config@ == (DeviceModel {
            label: device.label@,
            expected_name: device.expected_name@,
            selector: device.selector@,
            mapping: Seq::empty(),
        }),
{
    let config = DeviceConfig {
        label: device.label.clone(),
        expected_name: device.expected_name.clone(),
        selector: device.selector.duplicate(),
        mapping: Vec::new(),
    };
    assert(crate::config::mapping_view(config.mapping@) =~= Seq::<crate::config::MappingModel>::empty());
    config
}

/// The first hardware entry with a label (as `Iterator::find` sees them).
pub open spec fn first_with_label(hw: Seq<HardwareDeviceModel>, label: Seq<char>) -> Option<HardwareDeviceModel>
    decreases hw.len(),
{
    if hw.len() == 0 {
        None
    } else if hw[0].label == label {
        Some(hw[0])
    } else {
        first_with_label(hw.drop_first(), label)
    }
}

/// The first hardware entry that a candidate matches.
pub open spec fn first_fitting_device(hw: Seq<HardwareDeviceModel>, c: CandidateModel) -> Option<HardwareDeviceModel>
    decreases hw.len(),
{
    if hw.len() == 0 {
        None
    } else if candidate_fits(c, hw[0].expected_name, hw[0].selector) {
        Some(hw[0])
    } else {
        first_fitting_device(hw.drop_first(), c)
    }
}

/// The prefix that marks a target as a device node path rather than a label.
pub open spec fn event_path_prefix() -> Seq<char> {
    "/dev/input/event"@
}

/// Whether a keycodes target is a device node path rather than a label.
pub fn is_event_device_path(target: &str) -> (yes: bool)
    ensures
        yes == has_prefix(target@, event_path_prefix()),
{
    starts_with(target, "/dev/input/event")
}

/// Why a keycodes target did not resolve to a device node.
pub enum ResolveError {
    UnknownLabel(String),
    Select(SelectError),
}

/// Accepts either a direct path or a label defined in the hardware config; a
/// label resolves through strict selection among the candidates.
pub fn resolve_device_target(target: &str, hardware: &HardwareConfig, candidates: &[CandidateDevice]) -> (res: Result<String, ResolveError>)
    ensures
        has_prefix(target@, event_path_prefix()) ==> (res matches Ok(p) && p@ == target@),
        !has_prefix(target@, event_path_prefix()) ==> match first_with_label(hardware_view(hardware.devices@), target@) {
            None => res matches Err(ResolveError::UnknownLabel(l)) && l@ == target@,
            Some(d) => {
                let found = fitting(candidates_view(candidates@), d.expected_name, d.selector);
                &&& (res is Ok <==> found.len() == 1)
                &&& (res matches Ok(p) ==> p@ == found[0].devnode)
                &&& (res is Err ==> (res matches Err(ResolveError::Select(e)) && crate::selection::selection_error(
                    e,
                    found,
                    d.label,
                    d.selector,
                )))
            },
        },
{
    if is_event_device_path(target) {
        return Ok(target.to_string());
    }
    let ghost all = hardware_view(hardware.devices@);
    let mut i: usize = 0;
    assert(all.subrange(0, all.len() as int) =~= all);
    while i < hardware.devices.len()
        invariant
            i <= hardware.devices.len(),
            !has_prefix(target@, event_path_prefix()),
            all == hardware_view(hardware.devices@),
            first_with_label(all, target@) == first_with_label(all.subrange(i as int, all.len() as int), target@),
        decreases hardware.devices.len() - i,
    {
        let ghost rest = all.subrange(i as int, all.len() as int);
        assert(rest[0] == hardware.devices@[i as int]@);
        if text_eq(hardware.devices[i].label.as_str(), target) {
            let config = exact_device_config(&hardware.devices[i]);
            return match select_device(candidates, &config) {
                Ok(candidate) => Ok(candidate.devnode),
                Err(e) => Err(ResolveError::Select(e)),
            };
        }
        assert(rest.drop_first() =~= all.subrange(i + 1, all.len() as int));
        i = i + 1;
    }
    assert(all.subrange(i as int, all.len() as int) =~= Seq::<HardwareDeviceModel>::empty());
    Err(ResolveError::UnknownLabel(target.to_string()))
}

/// The label of the first hardware entry that selects this candidate.
pub fn matched_label(candidate: &CandidateDevice, hardware: &HardwareConfig) -> (label: Option<String>)
    ensures
        match first_fitting_device(hardware_view(hardware.devices@), candidate@) {
            Some(d) => label matches Some(l) && l@ == d.label,
            None => label is None,
        },
{
    let ghost all = hardware_view(hardware.devices@);
    let mut i: usize = 0;
    assert(all.subrange(0, all.len() as int) =~= all);
    while i < hardware.devices.len()
        invariant
            i <= hardware.devices.len(),
            all == hardware_view(hardware.devices@),
            first_fitting_device(all, candidate@) == first_fitting_device(all.subrange(i as int, all.len() as int), candidate@),
        decreases hardware.devices.len() - i,
    {
        let ghost rest = all.subrange(i as int, all.len() as int);
        assert(rest[0] == hardware.devices@[i as int]@);
        let single = vec![candidate.duplicate()];
        let config = exact_device_config(&hardware.devices[i]);
        let selected = select_device(single.as_slice(), &config);
        proof {
            let one = candidates_view(single@);
            assert(one =~= seq![candidate@]);
            assert(one.drop_last() =~= Seq::<CandidateModel>::empty());
            assert(fitting(one.drop_last(), config.expected_name@, config.selector@) =~= Seq::<CandidateModel>::empty());
        }
        if selected.is_ok() {
            return Some(hardware.devices[i].label.clone());
        }
        assert(rest.drop_first() =~= all.subrange(i + 1, all.len() as int));
        i = i + 1;
    }
    assert(all.subrange(i as int, all.len() as int) =~= Seq::<HardwareDeviceModel>::empty());
    None
}

/// The line of the `devices` listing: the short line, and the label of the
/// hardware entry that selects the node, when one does.
pub open spec fn device_listing_line(c: CandidateModel, hw: Seq<HardwareDeviceModel>) -> Seq<char> {
    match first_fitting_device(hw, c) {
        Some(d) => short_line(c) + " | label="@ + d.label,
        None => short_line(c),
    }
}

/// Lists one detected device and shows the matching hardware label when one exists.
pub fn device_listing(candidate: &CandidateDevice, hardware: &HardwareConfig) -> (line: String)
    ensures
        line@ == device_listing_line(candidate@, hardware_view(hardware.devices@)),
{
    let mut line = candidate.short_display();
    match matched_label(candidate, hardware) {
        Some(label) => {
            line.append(" | label=");
            line.append(label.as_str());
        },
        None => {},
    }
    line
}

} // verus!

verus! {

// ---------------------------------------------------------------------------
// Explaining matches
// ---------------------------------------------------------------------------

/// Why a candidate does not match a hardware entry, one reason per differing part,
/// in the order name, vendor, product, interface, serial (the serial only when the
/// entry names one).
pub open spec fn mismatch_reasons(c: CandidateModel, d: HardwareDeviceModel) -> Seq<Seq<char>> {
    name_reason(c, d) + vendor_reason(c, d) + product_reason(c, d) + interface_reason(c, d) + serial_reason(c, d)
}

/// The name part of the mismatch reasons.
pub open spec fn name_reason(c: CandidateModel, d: HardwareDeviceModel) -> Seq<Seq<char>> {
    if c.name != d.expected_name {
        seq!["name mismatch: '"@ + c.name + "'"@]
    } else {
        Seq::empty()
    }
}

/// The vendor part of the mismatch reasons.
pub open spec fn vendor_reason(c: CandidateModel, d: HardwareDeviceModel) -> Seq<Seq<char>> {
    if c.usb.vendor_id != Some(d.selector.vendor_id) {
        seq!["vendor mismatch: "@ + debug_opt_text(c.usb.vendor_id)]
    } else {
        Seq::empty()
    }
}

/// The product part of the mismatch reasons.
pub open spec fn product_reason(c: CandidateModel, d: HardwareDeviceModel) -> Seq<Seq<char>> {
    if c.usb.product_id != Some(d.selector.product_id) {
        seq!["product mismatch: "@ + debug_opt_text(c.usb.product_id)]
    } else {
        Seq::empty()
    }
}

/// The interface part of the mismatch reasons.
pub open spec fn interface_reason(c: CandidateModel, d: HardwareDeviceModel) -> Seq<Seq<char>> {
    if c.usb.interface_number != Some(d.selector.interface_number) {
        seq!["interface mismatch: "@ + debug_opt_u8(c.usb.interface_number)]
    } else {
        Seq::empty()
    }
}

/// The serial part of the mismatch reasons (only when the entry names a serial).
pub open spec fn serial_reason(c: CandidateModel, d: HardwareDeviceModel) -> Seq<Seq<char>> {
    match d.selector.serial {
        Some(s) => if c.usb.serial != Some(s) {
            seq!["serial mismatch: "@ + debug_opt_text(c.usb.serial)]
        } else {
            Seq::empty()
        },
        None => Seq::empty(),
    }
}

/// The explanation line of one candidate.
pub open spec fn explain_line(c: CandidateModel, d: HardwareDeviceModel) -> Seq<char> {
    let reasons = mismatch_reasons(c, d);
    if reasons.len() == 0 {
        c.devnode + " accepted"@
    } else {
        c.devnode + " rejected: "@ + crate::text::joined_with(reasons, " | "@)
    }
}

/// The explanation of all candidates against one hardware entry, one line each.
pub open spec fn explanation(cs: Seq<CandidateModel>, d: HardwareDeviceModel) -> Seq<char> {
    if cs.len() == 0 {
        "no candidates"@
    } else {
        crate::text::joined_with(cs.map_values(|c: CandidateModel| explain_line(c, d)), "\n"@)
    }
}

fn push_reason(reasons: &mut Vec<String>, prefix: &str, detail: &str)
    ensures
        crate::config::texts(final(reasons)@) == crate::config::texts(old(reasons)@).push(prefix@ + detail@),
{
    let mut r = prefix.to_string();
    r.append(detail);
    let ghost before = reasons@;
    reasons.push(r);
    assert(crate::config::texts(reasons@) =~= crate::config::texts(before).push(prefix@ + detail@));
}

fn opt_matches(o: &Option<String>, want: &String) -> (same: bool)
    ensures
        same == (crate::config::opt_text(*o) == Some(want@)),
{
    match o {
        Some(t) => text_eq(t.as_str(), want.as_str()),
        None => false,
    }
}

/// The mismatch reasons hold no line break when a device name that differs
/// from the entry's holds none and the `Debug` forms they quote hold none.
proof fn lemma_reasons_lack_break(c: CandidateModel, d: HardwareDeviceModel)
    requires
        c.name != d.expected_name ==> !c.name.contains('\n'),
        c.usb.vendor_id != Some(d.selector.vendor_id) ==> !debug_opt_text(c.usb.vendor_id).contains('\n'),
        c.usb.product_id != Some(d.selector.product_id) ==> !debug_opt_text(c.usb.product_id).contains('\n'),
        (d.selector.serial matches Some(s) && c.usb.serial != Some(s)) ==> !debug_opt_text(c.usb.serial).contains('\n'),
    ensures
        forall|k: int| 0 <= k < mismatch_reasons(c, d).len() ==> !(#[trigger] mismatch_reasons(c, d)[k]).contains('\n'),
{
    reveal_strlit("name mismatch: '");
    reveal_strlit("'");
    reveal_strlit("vendor mismatch: ");
    reveal_strlit("product mismatch: ");
    reveal_strlit("interface mismatch: ");
    reveal_strlit("serial mismatch: ");
    let r1 = name_reason(c, d);
    let r2 = vendor_reason(c, d);
    let r3 = product_reason(c, d);
    let r4 = interface_reason(c, d);
    let r5 = serial_reason(c, d);
    if r1.len() > 0 {
        lemma_concat_contains("name mismatch: '"@, c.name, '\n');
        lemma_concat_contains("name mismatch: '"@ + c.name, "'"@, '\n');
    }
    if r2.len() > 0 {
        lemma_concat_contains("vendor mismatch: "@, debug_opt_text(c.usb.vendor_id), '\n');
    }
    if r3.len() > 0 {
        lemma_concat_contains("product mismatch: "@, debug_opt_text(c.usb.product_id), '\n');
    }
    if r4.len() > 0 {
        lemma_debug_opt_u8_lacks_break(c.usb.interface_number);
        lemma_concat_contains("interface mismatch: "@, debug_opt_u8(c.usb.interface_number), '\n');
    }
    if r5.len() > 0 {
        lemma_concat_contains("serial mismatch: "@, debug_opt_text(c.usb.serial), '\n');
    }
    let m = mismatch_reasons(c, d);
    assert forall|k: int| 0 <= k < m.len() implies !(#[trigger] m[k]).contains('\n') by {
        let a = r1.len() as int;
        let b = a + r2.len();
        let e = b + r3.len();
        let f = e + r4.len();
        if k < a {
            assert(m[k] == r1[k]);
        } else if k < b {
            assert(m[k] == r2[k - a]);
        } else if k < e {
            assert(m[k] == r3[k - b]);
        } else if k < f {
            assert(m[k] == r4[k - e]);
        } else {
            assert(m[k] == r5[k - f]);
        }
    }
}

fn explain_one(candidate: &CandidateDevice, device: &HardwareDeviceConfig) -> (line: String)
    ensures
        line@ == explain_line(candidate@, device@),
        free_line(candidate@, device@) ==> !line@.contains('\n'),
{
    let c = candidate;
    let mut reasons: Vec<String> = Vec::new();
    let ghost c_m = candidate@;
    let ghost d_m = device@;
    assert(crate::config::texts(reasons@) =~= Seq::<Seq<char>>::empty());
    if !text_eq(c.name.as_str(), device.expected_name.as_str()) {
        let mut quoted = c.name.clone();
        quoted.append("'");
        assert("name mismatch: '"@ + quoted@ =~= "name mismatch: '"@ + c.name@ + "'"@);
        push_reason(&mut reasons, "name mismatch: '", quoted.as_str());
    }
    let ghost after_name = crate::config::texts(reasons@);
    assert(after_name =~= name_reason(c_m, d_m));
    if !opt_matches(&c.usb.vendor_id, &device.selector.vendor_id) {
        let mut d = String::new();
        append_debug_opt_text(&mut d, &c.usb.vendor_id);
        push_reason(&mut reasons, "vendor mismatch: ", d.as_str());
    }
    let ghost after_vendor = crate::config::texts(reasons@);
    assert(after_vendor =~= name_reason(c_m, d_m) + vendor_reason(c_m, d_m));
    if !opt_matches(&c.usb.product_id, &device.selector.product_id) {
        let mut d = String::new();
        append_debug_opt_text(&mut d, &c.usb.product_id);
        push_reason(&mut reasons, "product mismatch: ", d.as_str());
    }
    let ghost after_product = crate::config::texts(reasons@);
    assert(after_product =~= name_reason(c_m, d_m) + vendor_reason(c_m, d_m) + product_reason(c_m, d_m));
    if c.usb.interface_number != Some(device.selector.interface_number) {
        let mut d = String::new();
        append_debug_opt_u8(&mut d, c.usb.interface_number);
        push_reason(&mut reasons, "interface mismatch: ", d.as_str());
    }
    let ghost after_interface = crate::config::texts(reasons@);
    assert(after_interface =~= name_reason(c_m, d_m) + vendor_reason(c_m, d_m) + product_reason(c_m, d_m)
        + interface_reason(c_m, d_m));
    match &device.selector.serial {
        Some(serial) => {
            if !opt_matches(&c.usb.serial, serial) {
                let mut d = String::new();
                append_debug_opt_text(&mut d, &c.usb.serial);
                push_reason(&mut reasons, "serial mismatch: ", d.as_str());
            }
        },
        None => {},
    }
    proof {
        let m = mismatch_reasons(c_m, d_m);
        assert(crate::config::texts(reasons@) =~= m);
    }
    let mut line = c.devnode.clone();
    if reasons.len() == 0 {
        line.append(" accepted");
    } else {
        line.append(" rejected: ");
        let joined = crate::text::join_texts(&reasons, " | ");
        line.append(joined.as_str());
    }
    proof {
        if free_line(c_m, d_m) {
            reveal_strlit(" accepted");
            reveal_strlit(" rejected: ");
            reveal_strlit(" | ");
            let m = mismatch_reasons(c_m, d_m);
            lemma_reasons_lack_break(c_m, d_m);
            lemma_joined_lacks(m, " | "@, '\n');
            lemma_concat_contains(c_m.devnode, " accepted"@, '\n');
            lemma_concat_contains(c_m.devnode, " rejected: "@, '\n');
            lemma_concat_contains(c_m.devnode + " rejected: "@, joined_with(m, " | "@), '\n');
        }
    }
    line
}

/// The explanation line of `c` can hold a line break only through its node
/// path, or through its device name where that name differs from the entry's.
pub open spec fn free_line(c: CandidateModel, d: HardwareDeviceModel) -> bool {
    !c.devnode.contains('\n') && (c.name != d.expected_name ==> !c.name.contains('\n'))
}

/// No candidate's node path, nor any device name that differs from the entry's,
/// holds a line break.
pub open spec fn free_of_line_breaks(cs: Seq<CandidateModel>, d: HardwareDeviceModel) -> bool {
    forall|i: int| 0 <= i < cs.len() ==> free_line(#[trigger] cs[i], d)
}

/// Explains why each candidate does or does not match one hardware entry.
/// When no node path holds a line break, nor any device name that differs from
/// the entry's expected name, the text splits at line breaks into exactly one
/// line per candidate, in order.
pub fn explain_matches(candidates: &[CandidateDevice], device: &HardwareDeviceConfig) -> (text: String)
    ensures
        text@ == explanation(candidates_view(candidates@), device@),
        free_of_line_breaks(candidates_view(candidates@), device@) && candidates@.len() > 0 ==> split_on(text@, '\n')
            == candidates_view(candidates@).map_values(|c: CandidateModel| explain_line(c, device@)),
{
    let ghost cs = candidates_view(candidates@);
    let mut lines: Vec<String> = Vec::new();
    let mut i: usize = 0;
    while i < candidates.len()
        invariant
            i <= candidates@.len(),
            cs == candidates_view(candidates@),
            crate::config::texts(lines@) == cs.subrange(0, i as int).map_values(|c: CandidateModel| explain_line(c, device@)),
            free_of_line_breaks(cs, device@) ==> forall|k: int| 0 <= k < i ==> !(#[trigger] crate::config::texts(lines@)[k]).contains('\n'),
        decreases candidates@.len() - i,
    {
        let line = explain_one(&candidates[i], device);
        let ghost before = lines@;
        lines.push(line);
        proof {
            let f = |c: CandidateModel| explain_line(c, device@);
            assert(crate::config::texts(lines@) =~= crate::config::texts(before).push(line@));
            assert(cs.subrange(0, i + 1).map_values(f) =~= cs.subrange(0, i as int).map_values(f).push(f(cs[i as int])));
            assert(cs[i as int] == candidates@[i as int]@);
            if free_of_line_breaks(cs, device@) {
                assert(free_line(cs[i as int], device@));
                assert forall|k: int| 0 <= k < i + 1 implies !(#[trigger] crate::config::texts(lines@)[k]).contains('\n') by {
                    if k < i {
                        assert(crate::config::texts(lines@)[k] == crate::config::texts(before)[k]);
                    } else {
                        assert(crate::config::texts(lines@)[k] == line@);
                    }
                }
            }
        }
        i = i + 1;
    }
    assert(cs.subrange(0, cs.len() as int) =~= cs);
    proof {
        if free_of_line_breaks(cs, device@) && cs.len() > 0 {
            reveal_strlit("\n");
            assert("\n"@ =~= seq!['\n']);
            lemma_split_joined(crate::config::texts(lines@), '\n');
        }
    }
    if lines.len() == 0 {
        "no candidates".to_string()
    } else {
        crate::text::join_texts(&lines, "\n")
    }
}

/// Every part of the identity in which a candidate differs from a hardware
/// entry is named among the reasons, with the candidate's value; with no
/// difference there is no reason at all.
pub proof fn every_difference_is_explained(c: CandidateModel, d: HardwareDeviceModel)
    ensures
        c.name != d.expected_name ==> mismatch_reasons(c, d).contains("name mismatch: '"@ + c.name + "'"@),
        c.usb.vendor_id != Some(d.selector.vendor_id) ==> mismatch_reasons(c, d).contains(
            "vendor mismatch: "@ + debug_opt_text(c.usb.vendor_id),
        ),
        c.usb.product_id != Some(d.selector.product_id) ==> mismatch_reasons(c, d).contains(
            "product mismatch: "@ + debug_opt_text(c.usb.product_id),
        ),
        c.usb.interface_number != Some(d.selector.interface_number) ==> mismatch_reasons(c, d).contains(
            "interface mismatch: "@ + debug_opt_u8(c.usb.interface_number),
        ),
        (d.selector.serial is Some && c.usb.serial != d.selector.serial) ==> mismatch_reasons(c, d).contains(
            "serial mismatch: "@ + debug_opt_text(c.usb.serial),
        ),
        mismatch_reasons(c, d).len() == 0 <==> {
            &&& c.name == d.expected_name
            &&& c.usb.vendor_id == Some(d.selector.vendor_id)
            &&& c.usb.product_id == Some(d.selector.product_id)
            &&& c.usb.interface_number == Some(d.selector.interface_number)
            &&& (d.selector.serial is None || c.usb.serial == d.selector.serial)
        },
{
    let r1 = name_reason(c, d);
    let r2 = vendor_reason(c, d);
    let r3 = product_reason(c, d);
    let r4 = interface_reason(c, d);
    let r5 = serial_reason(c, d);
    let m = mismatch_reasons(c, d);
    let a = r1.len() as int;
    let b = a + r2.len();
    let e = b + r3.len();
    let f = e + r4.len();
    if r1.len() > 0 {
        assert(m[0] == r1[0]);
    }
    if r2.len() > 0 {
        assert(m[a] == r2[0]);
    }
    if r3.len() > 0 {
        assert(m[b] == r3[0]);
    }
    if r4.len() > 0 {
        assert(m[e] == r4[0]);
    }
    if r5.len() > 0 {
        assert(m[f] == r5[0]);
    }
}

/// A candidate's explanation line accepts it exactly when strict selection
/// would take it for that hardware entry: the line is the node followed by
/// ` accepted` then, and begins with the node followed by ` rejected: ` otherwise.
pub proof fn explanation_accepts_exactly_the_fitting(c: CandidateModel, d: HardwareDeviceModel)
    ensures
        mismatch_reasons(c, d).len() == 0 <==> candidate_fits(c, d.expected_name, d.selector),
        explain_line(c, d) == c.devnode + " accepted"@ <==> candidate_fits(c, d.expected_name, d.selector),
        !candidate_fits(c, d.expected_name, d.selector) ==> has_prefix(explain_line(c, d), c.devnode + " rejected: "@),
{
    reveal_strlit(" accepted");
    reveal_strlit(" rejected: ");
    let line = explain_line(c, d);
    let n = c.devnode.len() as int;
    if !candidate_fits(c, d.expected_name, d.selector) {
        let head = c.devnode + " rejected: "@;
        assert(line.subrange(0, head.len() as int) =~= head);
        assert(line[n + 1] == 'r');
        assert((c.devnode + " accepted"@)[n + 1] == 'a');
    }
}

} // verus!

verus! {

impl CommandError {
    /// The message shown for this error.
    pub fn message(&self) -> (m: String)
        ensures
            m@ == match self {
                CommandError::UnknownSubcommand(w) => "unknown subcommand '"@ + w@
                    + "', use 'run', 'inspect', 'devices', 'hardware', 'probe' or 'keycodes'"@,
                CommandError::MissingProbePath => "usage: firemap probe /dev/input/eventX [--no-grab]"@,
                CommandError::MissingKeycodesTarget => "usage: firemap keycodes <Label|/dev/input/eventN> [--no-grab]"@,
            },
    {
        match self {
            CommandError::UnknownSubcommand(w) => {
                let mut m = "unknown subcommand '".to_string();
                m.append(w.as_str());
                m.append("', use 'run', 'inspect', 'devices', 'hardware', 'probe' or 'keycodes'");
                m
            },
            CommandError::MissingProbePath => "usage: firemap probe /dev/input/eventX [--no-grab]".to_string(),
            CommandError::MissingKeycodesTarget => "usage: firemap keycodes <Label|/dev/input/eventN> [--no-grab]".to_string(),
        }
    }
}

impl ResolveError {
    /// The message shown for this error.
    pub fn message(&self) -> (m: String)
        ensures
            match self {
                ResolveError::UnknownLabel(t) => m@ == "unknown device label '"@ + t@ + "' in hardware config"@,
                ResolveError::Select(e) => m@ == e.message_text(),
            },
    {
        match self {
            ResolveError::UnknownLabel(t) => {
                let mut m = "unknown device label '".to_string();
                m.append(t.as_str());
                m.append("' in hardware config");
                m
            },
            ResolveError::Select(e) => e.message(),
        }
    }
}

} // verus!
