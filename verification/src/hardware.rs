//! Starter `hardware.toml` blocks for detected nodes: which nodes have a full
//! USB identity, how nodes of one physical device are grouped, and which
//! interface of a group is the most plausible carrier of keys.

use vstd::prelude::*;
use crate::config::opt_text;
use crate::format::{plain_ascii, quoted};
use crate::discovery::{CandidateDevice, CandidateModel, DeviceCapabilities, candidates_view, rearranged};
use crate::paths::{compare_paths, path_order};
use crate::text::{
    append_decimal, ascii_lowercase, chars_of, decimal_digits, string_from_range, text_eq, text_less,
    text_less_is_strict_total, text_lt, to_ascii_lowercase,
};

verus! {

// ---------------------------------------------------------------------------
// Identity and blocks
// ---------------------------------------------------------------------------

/// The node exposes vendor id, product id and interface number.
pub open spec fn complete_identity(c: CandidateModel) -> bool {
    c.usb.vendor_id.is_some() && c.usb.product_id.is_some() && c.usb.interface_number.is_some()
}

/// Returns true when a candidate exposes the fields required by `hardware.toml`.
pub fn has_complete_hardware_identity(candidate: &CandidateDevice) -> (yes: bool)
    ensures
        yes == complete_identity(candidate@),
{
    candidate.usb.vendor_id.is_some() && candidate.usb.product_id.is_some()
        && candidate.usb.interface_number.is_some()
}

/// An optional text, or the empty text when it is missing.
pub open spec fn or_empty(o: Option<Seq<char>>) -> Seq<char> {
    match o {
        Some(s) => s,
        None => Seq::empty(),
    }
}

/// The starter block for one node.
pub open spec fn block_text(c: CandidateModel) -> Seq<char> {
    "# "@ + c.devnode + "\n"@ + "[[device]]\n"@ + "label = "@ + crate::format::debug_text(c.name) + "\n"@
        + "expected_name = "@ + crate::format::debug_text(c.name) + "\n"@ + "vendor_id = "@
        + crate::format::debug_text(or_empty(c.usb.vendor_id)) + "\n"@ + "product_id = "@
        + crate::format::debug_text(or_empty(c.usb.product_id)) + "\n"@ + "interface_number = "@
        + decimal_digits(
        match c.usb.interface_number {
            Some(n) => n as nat,
            None => 0,
        },
    ) + "\n"@
}

fn text_or_empty(o: &Option<String>) -> (t: String)
    ensures
        t@ == or_empty(opt_text(*o)),
{
    match o {
        Some(s) => s.clone(),
        None => String::new(),
    }
}

/// The starter block of a node whose name and ids `Debug` writes as they are:
/// each between double quotes.
pub open spec fn plain_block_text(c: CandidateModel) -> Seq<char> {
    "# "@ + c.devnode + "\n"@ + "[[device]]\n"@ + "label = "@ + quoted(c.name) + "\n"@
        + "expected_name = "@ + quoted(c.name) + "\n"@ + "vendor_id = "@
        + quoted(or_empty(c.usb.vendor_id)) + "\n"@ + "product_id = "@
        + quoted(or_empty(c.usb.product_id)) + "\n"@ + "interface_number = "@
        + decimal_digits(
        match c.usb.interface_number {
            Some(n) => n as nat,
            None => 0,
        },
    ) + "\n"@
}

/// Formats one detected device as a starter block for `hardware.toml`. A name
/// and ids of plain printable ASCII (no `"` or `\`) appear between double
/// quotes, as they are.
pub fn hardware_block(candidate: &CandidateDevice) -> (block: String)
    ensures
        block@ == block_text(candidate@),
        plain_ascii(candidate@.name) && plain_ascii(or_empty(candidate@.usb.vendor_id)) && plain_ascii(
            or_empty(candidate@.usb.product_id),
        ) ==> block@ == plain_block_text(candidate@),
{
    let name = crate::format::debug_str(candidate.name.as_str());
    let vendor = text_or_empty(&candidate.usb.vendor_id);
    let product = text_or_empty(&candidate.usb.product_id);
    let mut b = "# ".to_string();
    b.append(candidate.devnode.as_str());
    b.append("\n");
    b.append("[[device]]\n");
    b.append("label = ");
    b.append(name.as_str());
    b.append("\n");
    b.append("expected_name = ");
    b.append(name.as_str());
    b.append("\n");
    b.append("vendor_id = ");
    let v = crate::format::debug_str(vendor.as_str());
    b.append(v.as_str());
    b.append("\n");
    b.append("product_id = ");
    let p = crate::format::debug_str(product.as_str());
    b.append(p.as_str());
    b.append("\n");
    b.append("interface_number = ");
    let n: u8 = match candidate.usb.interface_number {
        Some(n) => n,
        None => 0,
    };
    append_decimal(&mut b, n as u64);
    b.append("\n");
    b
}

// ---------------------------------------------------------------------------
// Groups
// ---------------------------------------------------------------------------

/// The position of the last `.` in a text.
pub open spec fn last_dot(s: Seq<char>) -> Option<int>
    decreases s.len(),
{
    if s.len() == 0 {
        None
    } else if s.last() == '.' {
        Some(s.len() - 1)
    } else {
        last_dot(s.drop_last())
    }
}

/// An `ID_PATH` without its trailing interface part (what comes after the last `.`).
pub open spec fn without_interface_suffix(s: Seq<char>) -> Seq<char> {
    match last_dot(s) {
        Some(i) => s.subrange(0, i),
        None => s,
    }
}

/// Removes the trailing interface part from an `ID_PATH` style string.
pub fn strip_interface_suffix(id_path: &str) -> (prefix: String)
    ensures
        prefix@ == without_interface_suffix(id_path@),
{
    let chars = chars_of(id_path);
    let mut k = chars.len();
    assert(id_path@.subrange(0, k as int) =~= id_path@);
    while k > 0
        invariant
            k <= chars.len(),
            chars@ == id_path@,
            last_dot(id_path@) == last_dot(id_path@.subrange(0, k as int)),
        decreases k,
    {
        let ghost sub = id_path@.subrange(0, k as int);
        if chars[k - 1] == '.' {
            return string_from_range(&chars, 0, k - 1);
        }
        assert(sub.drop_last() =~= id_path@.subrange(0, k - 1));
        k = k - 1;
    }
    string_from_range(&chars, 0, chars.len())
}

/// The key that groups the interfaces of one physical device: name, vendor,
/// product, serial and the USB port (the `ID_PATH` without its interface part).
pub open spec fn group_key_text(c: CandidateModel) -> Seq<char> {
    c.name + "|"@ + or_empty(c.usb.vendor_id) + "|"@ + or_empty(c.usb.product_id) + "|"@ + or_empty(c.usb.serial)
        + "|"@ + match c.id_path {
        Some(p) => without_interface_suffix(p),
        None => "unknown"@,
    }
}

/// Groups multiple interfaces that appear to belong to the same physical device.
pub fn hardware_group_key(candidate: &CandidateDevice) -> (key: String)
    ensures
        key@ == group_key_text(candidate@),
{
    let mut k = candidate.name.clone();
    k.append("|");
    let v = text_or_empty(&candidate.usb.vendor_id);
    k.append(v.as_str());
    k.append("|");
    let p = text_or_empty(&candidate.usb.product_id);
    k.append(p.as_str());
    k.append("|");
    let s = text_or_empty(&candidate.usb.serial);
    k.append(s.as_str());
    k.append("|");
    match &candidate.id_path {
        Some(path) => {
            let port = strip_interface_suffix(path.as_str());
            k.append(port.as_str());
        },
        None => {
            k.append("unknown");
        },
    }
    k
}

// ---------------------------------------------------------------------------
// Preference among the interfaces of one device
// ---------------------------------------------------------------------------

/// The ranking of one interface: keyboard keys first, no pointing axes, not
/// dominated by buttons, keyboard features (LEDs or repeat), then more keyboard
/// keys, more keys in all, the lower interface number and the node path.
pub struct PreferenceKey {
    pub missing_keyboard: bool,
    pub pointing: bool,
    pub button_dominated: bool,
    pub missing_features: bool,
    pub keyboard_keys: usize,
    pub total_keys: usize,
    pub interface: u8,
    pub devnode: String,
}

/// The abstract ranking.
pub struct PreferenceModel {
    pub missing_keyboard: bool,
    pub pointing: bool,
    pub button_dominated: bool,
    pub missing_features: bool,
    pub keyboard_keys: usize,
    pub total_keys: usize,
    pub interface: u8,
    pub devnode: Seq<char>,
}

impl View for PreferenceKey {
    type V = PreferenceModel;

    open spec fn view(&self) -> PreferenceModel {
        PreferenceModel {
            missing_keyboard: self.missing_keyboard,
            pointing: self.pointing,
            button_dominated: self.button_dominated,
            missing_features: self.missing_features,
            keyboard_keys: self.keyboard_keys,
            total_keys: self.total_keys,
            interface: self.interface,
            devnode: self.devnode@,
        }
    }
}

/// The capabilities of a node, all zero when unknown.
pub open spec fn capabilities_or_none(c: CandidateModel) -> DeviceCapabilities {
    match c.capabilities {
        Some(caps) => caps,
        None => DeviceCapabilities {
            keyboard_keys: 0,
            button_keys: 0,
            total_keys: 0,
            relative_axes: 0,
            absolute_axes: 0,
            leds: 0,
            has_repeat: false,
        },
    }
}

/// The ranking of a node.
pub open spec fn preference_of(c: CandidateModel) -> PreferenceModel {
    let caps = capabilities_or_none(c);
    PreferenceModel {
        missing_keyboard: !(caps.keyboard_keys > 0),
        pointing: caps.relative_axes > 0 || caps.absolute_axes > 0,
        button_dominated: caps.button_keys > caps.keyboard_keys,
        missing_features: !(caps.leds > 0 || caps.has_repeat),
        keyboard_keys: caps.keyboard_keys,
        total_keys: caps.total_keys,
        interface: match c.usb.interface_number {
            Some(n) => n,
            None => 255,
        },
        devnode: c.devnode,
    }
}

/// `a` ranks strictly before `b`.
pub open spec fn preference_less(a: PreferenceModel, b: PreferenceModel) -> bool {
    if a.missing_keyboard != b.missing_keyboard {
        !a.missing_keyboard
    } else if a.pointing != b.pointing {
        !a.pointing
    } else if a.button_dominated != b.button_dominated {
        !a.button_dominated
    } else if a.missing_features != b.missing_features {
        !a.missing_features
    } else if a.keyboard_keys != b.keyboard_keys {
        a.keyboard_keys > b.keyboard_keys
    } else if a.total_keys != b.total_keys {
        a.total_keys > b.total_keys
    } else if a.interface != b.interface {
        a.interface < b.interface
    } else {
        text_less(a.devnode, b.devnode)
    }
}

/// The ranking is transitive and never ranks a node before itself.
pub proof fn preference_less_is_strict_order(a: PreferenceModel, b: PreferenceModel, c: PreferenceModel)
    ensures
        !preference_less(a, a),
        a != b ==> preference_less(a, b) || preference_less(b, a),
        preference_less(a, b) && preference_less(b, c) ==> preference_less(a, c),
{
    text_less_is_strict_total(a.devnode, b.devnode, c.devnode);
}

/// Ranks candidates so the most plausible key carrying interface is shown first.
/// The ranking rests on the capability counts, whose split into keyboard keys
/// and buttons is this library's own; a node whose capabilities are unknown
/// ranks as one that reports nothing.
pub fn hardware_preference_key(candidate: &CandidateDevice) -> (key: PreferenceKey)
    ensures
        key@ == preference_of(candidate@),
{
    let caps = match candidate.capabilities {
        Some(c) => c,
        None => DeviceCapabilities {
            keyboard_keys: 0,
            button_keys: 0,
            total_keys: 0,
            relative_axes: 0,
            absolute_axes: 0,
            leds: 0,
            has_repeat: false,
        },
    };
    PreferenceKey {
        missing_keyboard: !(caps.keyboard_keys > 0),
        pointing: caps.relative_axes > 0 || caps.absolute_axes > 0,
        button_dominated: caps.button_keys > caps.keyboard_keys,
        missing_features: !(caps.leds > 0 || caps.has_repeat),
        keyboard_keys: caps.keyboard_keys,
        total_keys: caps.total_keys,
        interface: match candidate.usb.interface_number {
            Some(n) => n,
            None => 255,
        },
        devnode: candidate.devnode.clone(),
    }
}

/// How the interfaces of one device rank, in terms of what they report: an
/// interface with keyboard keys comes before one without; among interfaces
/// with keyboard keys, one without pointing axes comes before one with them;
/// then one whose buttons do not outnumber its keyboard keys comes first; then
/// one with LEDs or key repeat; then more keyboard keys, then more keys in
/// all, then the lower interface number. A node whose capabilities are not
/// known ranks as one that reports nothing.
pub proof fn interfaces_rank_by_capabilities(a: CandidateModel, b: CandidateModel)
    ensures
        ({
            let ca = capabilities_or_none(a);
            let cb = capabilities_or_none(b);
            let pointing_a = ca.relative_axes > 0 || ca.absolute_axes > 0;
            let pointing_b = cb.relative_axes > 0 || cb.absolute_axes > 0;
            let keyboard_a = ca.keyboard_keys > 0;
            let keyboard_b = cb.keyboard_keys > 0;
            let buttons_a = ca.button_keys > ca.keyboard_keys;
            let buttons_b = cb.button_keys > cb.keyboard_keys;
            let features_a = ca.leds > 0 || ca.has_repeat;
            let features_b = cb.leds > 0 || cb.has_repeat;
            let less = preference_less(preference_of(a), preference_of(b));
            &&& (keyboard_a && !keyboard_b ==> less)
            &&& (keyboard_a && keyboard_b && !pointing_a && pointing_b ==> less)
            &&& (keyboard_a == keyboard_b && pointing_a == pointing_b && !buttons_a && buttons_b ==> less)
            &&& (keyboard_a == keyboard_b && pointing_a == pointing_b && buttons_a == buttons_b && features_a
                && !features_b ==> less)
            &&& (keyboard_a == keyboard_b && pointing_a == pointing_b && buttons_a == buttons_b && features_a
                == features_b && ca.keyboard_keys > cb.keyboard_keys ==> less)
            &&& (keyboard_a == keyboard_b && pointing_a == pointing_b && buttons_a == buttons_b && features_a
                == features_b && ca.keyboard_keys == cb.keyboard_keys && ca.total_keys > cb.total_keys ==> less)
            &&& (ca == cb && a.usb.interface_number is Some && b.usb.interface_number is Some
                && a.usb.interface_number.unwrap() < b.usb.interface_number.unwrap() ==> less)
            &&& (ca == cb && a.usb.interface_number == b.usb.interface_number && text_less(a.devnode, b.devnode)
                ==> less)
        }),
        a.capabilities is None ==> capabilities_or_none(a).keyboard_keys == 0 && capabilities_or_none(a).total_keys == 0
            && capabilities_or_none(a).relative_axes == 0 && capabilities_or_none(a).absolute_axes == 0
            && capabilities_or_none(a).leds == 0 && !capabilities_or_none(a).has_repeat,
{
}

/// Whether `a` ranks strictly before `b`.
pub fn preference_lt(a: &PreferenceKey, b: &PreferenceKey) -> (less: bool)
    ensures
        less == preference_less(a@, b@),
        !a.missing_keyboard && b.missing_keyboard ==> less,
        !a.missing_keyboard && !b.missing_keyboard && !a.pointing && b.pointing ==> less,
        a.missing_keyboard == b.missing_keyboard && a.pointing == b.pointing && !a.button_dominated
            && b.button_dominated ==> less,
        a.missing_keyboard == b.missing_keyboard && a.pointing == b.pointing && a.button_dominated
            == b.button_dominated && !a.missing_features && b.missing_features ==> less,
        less ==> !preference_less(b@, a@),
{
    proof {
        text_less_is_strict_total(a@.devnode, b@.devnode, a@.devnode);
    }
    if a.missing_keyboard != b.missing_keyboard {
        !a.missing_keyboard
    } else if a.pointing != b.pointing {
        !a.pointing
    } else if a.button_dominated != b.button_dominated {
        !a.button_dominated
    } else if a.missing_features != b.missing_features {
        !a.missing_features
    } else if a.keyboard_keys != b.keyboard_keys {
        a.keyboard_keys > b.keyboard_keys
    } else if a.total_keys != b.total_keys {
        a.total_keys > b.total_keys
    } else if a.interface != b.interface {
        a.interface < b.interface
    } else {
        text_lt(a.devnode.as_str(), b.devnode.as_str())
    }
}

} // verus!

verus! {

// ---------------------------------------------------------------------------
// Listing order
// ---------------------------------------------------------------------------

/// -1, 0 or 1 as `false` comes before `true`.
pub open spec fn bool_rank(x: bool, y: bool) -> int {
    if x == y {
        0
    } else if !x {
        -1
    } else {
        1
    }
}

/// -1, 0 or 1 as `a` comes before, with or after `b` in text order.
pub open spec fn text_rank(a: Seq<char>, b: Seq<char>) -> int {
    if a == b {
        0
    } else if text_less(a, b) {
        -1
    } else {
        1
    }
}

/// The order of the `hardware` listing: nodes with a full identity first, then
/// nodes with a readable key bitmap, then by lower case name, then by path.
pub open spec fn listing_order(a: CandidateModel, b: CandidateModel) -> int {
    let o1 = bool_rank(!complete_identity(a), !complete_identity(b));
    if o1 != 0 {
        o1
    } else {
        let o2 = bool_rank(a.supported_keys is None, b.supported_keys is None);
        if o2 != 0 {
            o2
        } else {
            let o3 = text_rank(ascii_lowercase(a.name), ascii_lowercase(b.name));
            if o3 != 0 {
                o3
            } else {
                path_order(a.devnode, b.devnode)
            }
        }
    }
}

fn bool_compare(x: bool, y: bool) -> (o: i8)
    ensures
        o == bool_rank(x, y),
{
    if x == y {
        0
    } else if !x {
        -1
    } else {
        1
    }
}

/// `a` and `b` tie on every key of the listing order but the path.
pub open spec fn listing_keys_tie(a: CandidateModel, b: CandidateModel) -> bool {
    &&& bool_rank(!complete_identity(a), !complete_identity(b)) == 0
    &&& bool_rank(a.supported_keys is None, b.supported_keys is None) == 0
    &&& text_rank(ascii_lowercase(a.name), ascii_lowercase(b.name)) == 0
}

/// The listing order chains: `c` before (or with) `a` and `a` before (or with)
/// `b` puts `c` before (or with) `b`, given that the paths chain where the
/// other keys tie.
proof fn listing_order_chains(c: CandidateModel, a: CandidateModel, b: CandidateModel)
    requires
        listing_order(c, a) <= 0,
        listing_order(a, b) <= 0,
        listing_keys_tie(a, b) ==> (path_order(c.devnode, a.devnode) <= 0 ==> path_order(c.devnode, b.devnode) <= 0),
    ensures
        listing_order(c, b) <= 0,
{
    let lc = ascii_lowercase(c.name);
    let la = ascii_lowercase(a.name);
    let lb = ascii_lowercase(b.name);
    text_less_is_strict_total(lc, la, lb);
    text_less_is_strict_total(la, lb, lc);
    text_less_is_strict_total(lb, lc, la);
}

/// How the `hardware` listing orders nodes, in terms of the nodes: a node with
/// vendor id, product id and interface number comes before one missing any of
/// them; then a node whose key bitmap was read comes before one whose was not;
/// then the lower case names decide in text order; then the paths.
pub proof fn listing_puts_complete_nodes_first(a: CandidateModel, b: CandidateModel)
    ensures
        ({
            let full_a = a.usb.vendor_id is Some && a.usb.product_id is Some && a.usb.interface_number is Some;
            let full_b = b.usb.vendor_id is Some && b.usb.product_id is Some && b.usb.interface_number is Some;
            let keys_a = a.supported_keys is Some;
            let keys_b = b.supported_keys is Some;
            &&& (full_a && !full_b ==> listing_order(a, b) < 0)
            &&& (full_a == full_b && keys_a && !keys_b ==> listing_order(a, b) < 0)
            &&& (full_a == full_b && keys_a == keys_b && text_less(ascii_lowercase(a.name), ascii_lowercase(b.name))
                ==> listing_order(a, b) < 0)
            &&& (full_a == full_b && keys_a == keys_b && ascii_lowercase(a.name) == ascii_lowercase(b.name)
                ==> listing_order(a, b) == path_order(a.devnode, b.devnode))
        }),
{
    text_less_is_strict_total(ascii_lowercase(a.name), ascii_lowercase(b.name), ascii_lowercase(a.name));
}

/// Compares two candidates in the order of the `hardware` listing.
pub fn listing_compare(a: &CandidateDevice, b: &CandidateDevice) -> (o: i8)
    ensures
        o == listing_order(a@, b@),
        listing_order(b@, a@) + o == 0,
        o <= 0 ==> forall|c: CandidateModel| #[trigger] listing_order(c, a@) <= 0 ==> listing_order(c, b@) <= 0,
{
    let o1 = bool_compare(!has_complete_hardware_identity(a), !has_complete_hardware_identity(b));
    if o1 != 0 {
        proof {
            assert forall|c: CandidateModel| #[trigger] listing_order(c, a@) <= 0 && o1 <= 0 implies listing_order(c, b@) <= 0 by {
                listing_order_chains(c, a@, b@);
            }
        }
        return o1;
    }
    let o2 = bool_compare(a.supported_keys.is_none(), b.supported_keys.is_none());
    if o2 != 0 {
        proof {
            assert forall|c: CandidateModel| #[trigger] listing_order(c, a@) <= 0 && o2 <= 0 implies listing_order(c, b@) <= 0 by {
                listing_order_chains(c, a@, b@);
            }
        }
        return o2;
    }
    let la = to_ascii_lowercase(a.name.as_str());
    let lb = to_ascii_lowercase(b.name.as_str());
    proof {
        text_less_is_strict_total(la@, lb@, la@);
    }
    if !text_eq(la.as_str(), lb.as_str()) {
        let o3: i8 = if text_lt(la.as_str(), lb.as_str()) {
            -1
        } else {
            1
        };
        proof {
            assert forall|c: CandidateModel| #[trigger] listing_order(c, a@) <= 0 && o3 <= 0 implies listing_order(c, b@) <= 0 by {
                listing_order_chains(c, a@, b@);
            }
        }
        return o3;
    }
    let o4 = compare_paths(a.devnode.as_str(), b.devnode.as_str());
    proof {
        assert forall|c: CandidateModel| #[trigger] listing_order(c, a@) <= 0 && o4 <= 0 implies listing_order(c, b@) <= 0 by {
            assert(path_order(c.devnode, a@.devnode) <= 0 ==> path_order(c.devnode, b@.devnode) <= 0);
            listing_order_chains(c, a@, b@);
        }
    }
    o4
}

/// The candidates are in listing order: no candidate comes before one that
/// the listing order puts first.
pub open spec fn in_listing_order(v: Seq<CandidateModel>) -> bool {
    forall|k: int, l: int| 0 <= k < l < v.len() ==> listing_order(#[trigger] v[k], #[trigger] v[l]) <= 0
}

/// Sorts the candidates for the `hardware` listing, keeping the order of equal ones.
pub fn sort_for_hardware_listing(candidates: Vec<CandidateDevice>) -> (sorted: Vec<CandidateDevice>)
    ensures
        sorted@.to_multiset() == candidates@.to_multiset(),
        in_listing_order(candidates_view(sorted@)),
        exists|pos: Seq<int>| {
            &&& rearranged(candidates@, sorted@, pos)
            &&& forall|k: int, l: int| 0 <= k < l < sorted@.len() && listing_order(
                #[trigger] sorted@[k]@,
                #[trigger] sorted@[l]@,
            ) == 0 ==> pos[k] < pos[l]
        },
{
    broadcast use vstd::seq_lib::group_to_multiset_ensures;
    let ghost orig = candidates@;
    let n = candidates.len();
    let mut rest = candidates;
    let ghost all = rest@.to_multiset();
    let mut sorted: Vec<CandidateDevice> = Vec::new();
    let ghost mut pos: Seq<int> = Seq::empty();
    assert(orig.subrange(0, n as int) =~= orig);
    while rest.len() > 0
        invariant
            sorted@.to_multiset().add(rest@.to_multiset()) == all,
            in_listing_order(candidates_view(sorted@)),
            n == orig.len(),
            sorted.len() + rest.len() == n,
            rest@ == orig.subrange(sorted.len() as int, n as int),
            pos.len() == sorted.len(),
            pos.no_duplicates(),
            forall|k: int| 0 <= k < sorted.len() ==> 0 <= #[trigger] pos[k] < sorted.len() && sorted@[k] == orig[pos[k]],
            forall|k: int, l: int| 0 <= k < l < sorted@.len() && listing_order(
                #[trigger] sorted@[k]@,
                #[trigger] sorted@[l]@,
            ) == 0 ==> pos[k] < pos[l],
        decreases rest.len(),
    {
        let ghost rest_before = rest@;
        let ghost q = sorted.len() as int;
        let x = rest.remove(0);
        proof {
            vstd::seq_lib::to_multiset_remove(rest_before, 0);
            assert(x == orig[q]);
            assert(rest@ =~= orig.subrange(q + 1, n as int));
        }
        let mut j = sorted.len();
        while j > 0 && listing_compare(&sorted[j - 1], &x) > 0
            invariant
                j <= sorted.len(),
                forall|m: int| j <= m < sorted.len() ==> listing_order(x@, #[trigger] sorted@[m]@) < 0,
            decreases j,
        {
            j = j - 1;
        }
        proof {
            if j > 0 {
                assert(listing_order(sorted@[j - 1]@, x@) <= 0);
            }
        }
        let ghost before = sorted@;
        let ghost old_pos = pos;
        sorted.insert(j, x);
        proof {
            pos = old_pos.insert(j as int, q);
            vstd::seq_lib::to_multiset_insert(before, j as int, x);
            assert(rest_before.to_multiset().count(x) > 0) by {
                vstd::seq_lib::to_multiset_contains(rest_before, x);
                assert(rest_before[0] == x);
            }
            assert(sorted@.to_multiset().add(rest@.to_multiset()) =~= all);
            let v = candidates_view(sorted@);
            let old_v = candidates_view(before);
            assert forall|k: int, l: int| 0 <= k < l < v.len() implies listing_order(#[trigger] v[k], #[trigger] v[l]) <= 0 by {
                let ok = if k < j { k } else { k - 1 };
                let ol = if l < j { l } else { l - 1 };
                if k == j {
                    assert(v[k] == x@ && v[l] == old_v[ol]);
                } else if l == j {
                    assert(v[k] == old_v[k] && v[l] == x@);
                    if k < j - 1 {
                        assert(listing_order(old_v[k], old_v[j - 1]) <= 0);
                    }
                } else {
                    assert(v[k] == old_v[ok] && v[l] == old_v[ol]);
                }
            }
            assert forall|a: int, b: int| 0 <= a < b < pos.len() implies pos[a] != pos[b] by {
                let oa = if a < j { a } else { a - 1 };
                let ob = if b < j { b } else { b - 1 };
                if a != j && b != j {
                    assert(pos[a] == old_pos[oa] && pos[b] == old_pos[ob]);
                } else if a == j {
                    assert(pos[b] == old_pos[ob]);
                } else {
                    assert(pos[a] == old_pos[oa]);
                }
            }
            assert forall|k: int| 0 <= k < sorted.len() implies 0 <= #[trigger] pos[k] < sorted.len() && sorted@[k] == orig[pos[k]] by {
                if k < j {
                    assert(pos[k] == old_pos[k] && sorted@[k] == before[k]);
                } else if k > j {
                    assert(pos[k] == old_pos[k - 1] && sorted@[k] == before[k - 1]);
                }
            }
            assert forall|k: int, l: int| 0 <= k < l < sorted@.len() && listing_order(
                #[trigger] sorted@[k]@,
                #[trigger] sorted@[l]@,
            ) == 0 implies pos[k] < pos[l] by {
                if k == j {
                    assert(sorted@[l] == before[l - 1]);
                    assert(listing_order(x@, before[l - 1]@) < 0);
                } else if l == j {
                    assert(pos[k] == old_pos[k]);
                } else {
                    let ok = if k < j { k } else { k - 1 };
                    let ol = if l < j { l } else { l - 1 };
                    assert(sorted@[k] == before[ok] && sorted@[l] == before[ol]);
                    assert(pos[k] == old_pos[ok] && pos[l] == old_pos[ol]);
                }
            }
        }
    }
    proof {
        assert(rearranged(orig, sorted@, pos));
    }
    sorted
}

} // verus!

verus! {

// ---------------------------------------------------------------------------
// Condensed listing
// ---------------------------------------------------------------------------

/// A node with a full identity whose group key is `k`.
pub open spec fn group_member(c: CandidateModel, k: Seq<char>) -> bool {
    complete_identity(c) && group_key_text(c) == k
}

/// Some node of `cs` belongs to the group `k`.
pub open spec fn group_present(cs: Seq<CandidateModel>, k: Seq<char>) -> bool {
    exists|q: int| 0 <= q < cs.len() && group_member(#[trigger] cs[q], k)
}

/// `cs[i]` is the node shown for group `k`: it belongs to the group, ranks
/// strictly before every member listed earlier and no later member ranks before it.
pub open spec fn chosen_for_group(cs: Seq<CandidateModel>, k: Seq<char>, i: int) -> bool {
    &&& 0 <= i < cs.len()
    &&& group_member(cs[i], k)
    &&& forall|j: int| 0 <= j < i && group_member(#[trigger] cs[j], k) ==> preference_less(preference_of(cs[i]), preference_of(cs[j]))
    &&& forall|j: int| i < j < cs.len() && group_member(#[trigger] cs[j], k) ==> !preference_less(preference_of(cs[j]), preference_of(cs[i]))
}

/// One physical device of the condensed listing: its group key, the node shown
/// for it (an index into the candidates) and that node's starter block.
pub struct HardwareGroup {
    pub key: String,
    pub chosen: usize,
    pub block: String,
}

fn group_keys(candidates: &[CandidateDevice]) -> (keys: Vec<String>)
    ensures
        forall|a: int, b: int| 0 <= a < b < keys@.len() ==> text_less(#[trigger] keys@[a]@, #[trigger] keys@[b]@),
        forall|k: Seq<char>| group_present(candidates_view(candidates@), k) <==> exists|i: int| 0 <= i < keys@.len() && #[trigger] keys@[i]@ == k,
{
    let ghost cs = candidates_view(candidates@);
    let mut keys: Vec<String> = Vec::new();
    let mut q: usize = 0;
    while q < candidates.len()
        invariant
            q <= candidates@.len(),
            cs == candidates_view(candidates@),
            forall|a: int, b: int| 0 <= a < b < keys@.len() ==> text_less(#[trigger] keys@[a]@, #[trigger] keys@[b]@),
            forall|k: Seq<char>| group_present(cs.subrange(0, q as int), k) <==> exists|i: int| 0 <= i < keys@.len() && #[trigger] keys@[i]@ == k,
        decreases candidates@.len() - q,
    {
        let ghost old_keys = keys@;
        let ghost prev = cs.subrange(0, q as int);
        let ghost next = cs.subrange(0, q as int + 1);
        assert(next[q as int] == candidates@[q as int]@);
        assert forall|r: int| 0 <= r < q implies next[r] == prev[r] by {}
        if has_complete_hardware_identity(&candidates[q]) {
            let k = hardware_group_key(&candidates[q]);
            let mut p: usize = 0;
            while p < keys.len() && text_lt(keys[p].as_str(), k.as_str())
                invariant
                    p <= keys.len(),
                    forall|a: int| 0 <= a < p ==> text_less(#[trigger] keys@[a]@, k@),
                decreases keys.len() - p,
            {
                p = p + 1;
            }
            if p < keys.len() && text_eq(keys[p].as_str(), k.as_str()) {
                proof {
                    assert forall|kk: Seq<char>| group_present(next, kk) <==> exists|i: int| 0 <= i < keys@.len() && #[trigger] keys@[i]@ == kk by {
                        if group_present(next, kk) {
                            let w = choose|w: int| 0 <= w < next.len() && group_member(#[trigger] next[w], kk);
                            if w < q {
                                assert(group_member(prev[w], kk));
                                assert(group_present(prev, kk));
                            } else {
                                assert(keys@[p as int]@ == kk);
                            }
                        }
                        if exists|i: int| 0 <= i < keys@.len() && #[trigger] keys@[i]@ == kk {
                            assert(group_present(prev, kk));
                            let w = choose|w: int| 0 <= w < prev.len() && group_member(#[trigger] prev[w], kk);
                            assert(next[w] == prev[w]);
                        }
                    }
                }
            } else {
                proof {
                    if p < keys.len() {
                        text_less_is_strict_total(k@, keys@[p as int]@, k@);
                    }
                }
                keys.insert(p, k);
                proof {
                    assert forall|a: int, b: int| 0 <= a < b < keys@.len() implies text_less(#[trigger] keys@[a]@, #[trigger] keys@[b]@) by {
                        if b < p {
                            assert(keys@[a] == old_keys[a] && keys@[b] == old_keys[b]);
                        } else if b == p {
                            assert(keys@[a] == old_keys[a]);
                        } else if a == p {
                            assert(keys@[b] == old_keys[b - 1]);
                            if b - 1 > p {
                                text_less_is_strict_total(k@, old_keys[p as int]@, old_keys[b - 1]@);
                            }
                        } else if a < p {
                            assert(keys@[a] == old_keys[a] && keys@[b] == old_keys[b - 1]);
                            text_less_is_strict_total(old_keys[a]@, k@, old_keys[b - 1]@);
                            if b - 1 > p {
                                text_less_is_strict_total(k@, old_keys[p as int]@, old_keys[b - 1]@);
                            }
                        } else {
                            assert(keys@[a] == old_keys[a - 1] && keys@[b] == old_keys[b - 1]);
                        }
                    }
                    assert forall|kk: Seq<char>| group_present(next, kk) <==> exists|i: int| 0 <= i < keys@.len() && #[trigger] keys@[i]@ == kk by {
                        if group_present(next, kk) {
                            let w = choose|w: int| 0 <= w < next.len() && group_member(#[trigger] next[w], kk);
                            if w < q {
                                assert(group_member(prev[w], kk));
                                assert(group_present(prev, kk));
                                let i = choose|i: int| 0 <= i < old_keys.len() && #[trigger] old_keys[i]@ == kk;
                                if i < p {
                                    assert(keys@[i] == old_keys[i]);
                                } else {
                                    assert(keys@[i + 1] == old_keys[i]);
                                }
                            } else {
                                assert(keys@[p as int]@ == kk);
                            }
                        }
                        if exists|i: int| 0 <= i < keys@.len() && #[trigger] keys@[i]@ == kk {
                            let i = choose|i: int| 0 <= i < keys@.len() && #[trigger] keys@[i]@ == kk;
                            if i == p {
                                assert(group_member(next[q as int], kk));
                            } else {
                                let oi = if i < p { i } else { i - 1 };
                                assert(old_keys[oi]@ == kk);
                                assert(group_present(prev, kk));
                                let w = choose|w: int| 0 <= w < prev.len() && group_member(#[trigger] prev[w], kk);
                                assert(next[w] == prev[w]);
                            }
                        }
                    }
                }
            }
        } else {
            proof {
                assert forall|kk: Seq<char>| group_present(next, kk) <==> group_present(prev, kk) by {
                    if group_present(next, kk) {
                        let w = choose|w: int| 0 <= w < next.len() && group_member(#[trigger] next[w], kk);
                        assert(w < q);
                        assert(group_member(prev[w], kk));
                    }
                    if group_present(prev, kk) {
                        let w = choose|w: int| 0 <= w < prev.len() && group_member(#[trigger] prev[w], kk);
                        assert(next[w] == prev[w]);
                    }
                }
            }
        }
        q = q + 1;
    }
    assert(cs.subrange(0, cs.len() as int) =~= cs);
    keys
}

fn choose_for_group(candidates: &[CandidateDevice], key: &String) -> (chosen: usize)
    requires
        group_present(candidates_view(candidates@), key@),
    ensures
        chosen_for_group(candidates_view(candidates@), key@, chosen as int),
{
    let ghost cs = candidates_view(candidates@);
    let mut best: Option<usize> = None;
    let mut best_key: Option<PreferenceKey> = None;
    let mut q: usize = 0;
    while q < candidates.len()
        invariant
            q <= candidates@.len(),
            cs == candidates_view(candidates@),
            group_present(cs, key@),
            match best {
                None => best_key is None && forall|j: int| 0 <= j < q ==> !group_member(#[trigger] cs[j], key@),
                Some(i) => {
                    &&& i < q
                    &&& best_key matches Some(bk) && bk@ == preference_of(cs[i as int])
                    &&& group_member(cs[i as int], key@)
                    &&& forall|j: int| 0 <= j < i && group_member(#[trigger] cs[j], key@) ==> preference_less(preference_of(cs[i as int]), preference_of(cs[j]))
                    &&& forall|j: int| i < j < q && group_member(#[trigger] cs[j], key@) ==> !preference_less(preference_of(cs[j]), preference_of(cs[i as int]))
                },
            },
        decreases candidates@.len() - q,
    {
        assert(cs[q as int] == candidates@[q as int]@);
        if has_complete_hardware_identity(&candidates[q]) {
            let k = hardware_group_key(&candidates[q]);
            if text_eq(k.as_str(), key.as_str()) {
                let pk = hardware_preference_key(&candidates[q]);
                match best {
                    None => {
                        best = Some(q);
                        best_key = Some(pk);
                    },
                    Some(i) => {
                        let replace = match &best_key {
                            Some(bk) => preference_lt(&pk, bk),
                            None => false,
                        };
                        if replace {
                            proof {
                                assert forall|j: int| 0 <= j < q && group_member(#[trigger] cs[j], key@) implies preference_less(preference_of(cs[q as int]), preference_of(cs[j])) by {
                                    if j == i {
                                    } else if j < i {
                                        preference_less_is_strict_order(preference_of(cs[q as int]), preference_of(cs[i as int]), preference_of(cs[j]));
                                    } else {
                                        // a later member did not rank before the best one, so
                                        // the best one ranks before it or ranks the same
                                        preference_less_is_strict_order(preference_of(cs[i as int]), preference_of(cs[j]), preference_of(cs[j]));
                                        preference_less_is_strict_order(preference_of(cs[q as int]), preference_of(cs[i as int]), preference_of(cs[j]));
                                    }
                                }
                            }
                            best = Some(q);
                            best_key = Some(pk);
                        }
                    },
                }
            }
        }
        q = q + 1;
    }
    match best {
        Some(i) => i,
        None => {
            proof {
                let w = choose|w: int| 0 <= w < cs.len() && group_member(#[trigger] cs[w], key@);
                assert(!group_member(cs[w], key@));
            }
            0
        },
    }
}

} // verus!

verus! {

/// Picks one starter block per physical device: the groups in ascending key
/// order, each with the first of its best ranked interfaces.
pub fn condensed_hardware_groups(candidates: &[CandidateDevice]) -> (groups: Vec<HardwareGroup>)
    ensures
        forall|a: int, b: int| 0 <= a < b < groups@.len() ==> text_less(#[trigger] groups@[a].key@, #[trigger] groups@[b].key@),
        forall|k: Seq<char>| group_present(candidates_view(candidates@), k) <==> exists|i: int| 0 <= i < groups@.len() && #[trigger] groups@[i].key@ == k,
        forall|i: int| 0 <= i < groups@.len() ==> {
            &&& chosen_for_group(candidates_view(candidates@), #[trigger] groups@[i].key@, groups@[i].chosen as int)
            &&& groups@[i].block@ == block_text(candidates_view(candidates@)[groups@[i].chosen as int])
        },
{
    let ghost cs = candidates_view(candidates@);
    let keys = group_keys(candidates);
    let mut groups: Vec<HardwareGroup> = Vec::new();
    let mut i: usize = 0;
    while i < keys.len()
        invariant
            i <= keys@.len(),
            cs == candidates_view(candidates@),
            forall|a: int, b: int| 0 <= a < b < keys@.len() ==> text_less(#[trigger] keys@[a]@, #[trigger] keys@[b]@),
            forall|k: Seq<char>| group_present(cs, k) <==> exists|j: int| 0 <= j < keys@.len() && #[trigger] keys@[j]@ == k,
            groups@.len() == i,
            forall|j: int| 0 <= j < i ==> (#[trigger] groups@[j]).key@ == keys@[j]@,
            forall|j: int| 0 <= j < i ==> {
                &&& chosen_for_group(cs, #[trigger] groups@[j].key@, groups@[j].chosen as int)
                &&& groups@[j].block@ == block_text(cs[groups@[j].chosen as int])
            },
        decreases keys@.len() - i,
    {
        assert(group_present(cs, keys@[i as int]@));
        let chosen = choose_for_group(candidates, &keys[i]);
        let block = hardware_block(&candidates[chosen]);
        let ghost before = groups@;
        groups.push(HardwareGroup { key: keys[i].clone(), chosen, block });
        proof {
            assert forall|j: int| 0 <= j < i + 1 implies (#[trigger] groups@[j]).key@ == keys@[j]@ by {
                if j < i {
                    assert(groups@[j] == before[j]);
                }
            }
        }
        i = i + 1;
    }
    proof {
        assert forall|a: int, b: int| 0 <= a < b < groups@.len() implies text_less(#[trigger] groups@[a].key@, #[trigger] groups@[b].key@) by {
            assert(groups@[a].key@ == keys@[a]@ && groups@[b].key@ == keys@[b]@);
        }
        assert forall|k: Seq<char>| group_present(cs, k) <==> exists|j: int| 0 <= j < groups@.len() && #[trigger] groups@[j].key@ == k by {
            if group_present(cs, k) {
                let j = choose|j: int| 0 <= j < keys@.len() && #[trigger] keys@[j]@ == k;
                assert(groups@[j].key@ == keys@[j]@);
            }
            if exists|j: int| 0 <= j < groups@.len() && #[trigger] groups@[j].key@ == k {
                let j = choose|j: int| 0 <= j < groups@.len() && #[trigger] groups@[j].key@ == k;
                assert(keys@[j]@ == k);
            }
        }
    }
    groups
}

/// The starter blocks of every node with a full identity, in order.
pub open spec fn complete_blocks(cs: Seq<CandidateModel>) -> Seq<Seq<char>>
    decreases cs.len(),
{
    if cs.len() == 0 {
        Seq::empty()
    } else if complete_identity(cs.last()) {
        complete_blocks(cs.drop_last()).push(block_text(cs.last()))
    } else {
        complete_blocks(cs.drop_last())
    }
}

/// One starter block for every node with a full identity, without grouping.
pub fn all_hardware_blocks(candidates: &[CandidateDevice]) -> (blocks: Vec<String>)
    ensures
        crate::config::texts(blocks@) == complete_blocks(candidates_view(candidates@)),
{
    let ghost cs = candidates_view(candidates@);
    let mut blocks: Vec<String> = Vec::new();
    let mut i: usize = 0;
    assert(cs.subrange(0, 0) =~= Seq::<CandidateModel>::empty());
    assert(crate::config::texts(blocks@) =~= Seq::<Seq<char>>::empty());
    while i < candidates.len()
        invariant
            i <= candidates@.len(),
            cs == candidates_view(candidates@),
            crate::config::texts(blocks@) == complete_blocks(cs.subrange(0, i as int)),
        decreases candidates@.len() - i,
    {
        let ghost sub = cs.subrange(0, i as int + 1);
        assert(sub.drop_last() =~= cs.subrange(0, i as int));
        assert(sub.last() == candidates@[i as int]@);
        if has_complete_hardware_identity(&candidates[i]) {
            let b = hardware_block(&candidates[i]);
            let ghost before = blocks@;
            blocks.push(b);
            assert(crate::config::texts(blocks@) =~= crate::config::texts(before).push(b@));
        }
        i = i + 1;
    }
    assert(cs.subrange(0, cs.len() as int) =~= cs);
    blocks
}

} // verus!
