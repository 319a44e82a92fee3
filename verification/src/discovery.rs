//! Input device candidates: what is known of one `/dev/input/event*` node, how the
//! values read from udev are normalised, and the stable order of the nodes.

use vstd::prelude::*;
use crate::config::opt_text;
use crate::keycodes::KeyCode;
use crate::paths::{
    compare_paths, ends_in_plain_name, file_name, last_segment, lemma_last_segment_after_slash, path_file_name, path_order,
};
use crate::text::{
    ascii_lowercase, chars_of, decimal_digits, has_prefix, lemma_decimal_digits_are_digits, lemma_decimal_digits_read_back, parse_unsigned, parse_unsigned_from, starts_with,
    to_ascii_lowercase, trim_quotes, trim_value, trim_white,
};

verus! {

/// The USB identity read from udev for one input node; each part may be missing.
pub struct UsbIdentity {
    pub vendor_id: Option<String>,
    pub product_id: Option<String>,
    pub interface_number: Option<u8>,
    pub serial: Option<String>,
}

/// Counts of what an input node can report, used to rank the interfaces of one
/// physical device. Which key codes count as keyboard keys and which as
/// buttons is this library's own classification (see `is_keyboard_code` and
/// `is_button_code`); the kernel's input layer does not sort codes this way.
#[derive(Clone, Copy, PartialEq, Eq, Debug)]
pub struct DeviceCapabilities {
    /// Keyboard keys (codes below `BTN_MISC`, 0x100).
    pub keyboard_keys: usize,
    /// Button codes (`BTN_*`).
    pub button_keys: usize,
    /// All key and button codes.
    pub total_keys: usize,
    pub relative_axes: usize,
    pub absolute_axes: usize,
    pub leds: usize,
    /// Whether the node reports key repeat (`EV_REP`).
    pub has_repeat: bool,
}

/// What is known of one `/dev/input/event*` node.
pub struct CandidateDevice {
    pub devnode: String,
    pub sysname: String,
    pub name: String,
    pub phys: Option<String>,
    pub id_path: Option<String>,
    pub usb: UsbIdentity,
    pub open_error: Option<String>,
    /// The key codes the node can report, each once, when its key bitmap was readable.
    pub supported_keys: Option<Vec<KeyCode>>,
    pub capabilities: Option<DeviceCapabilities>,
}

/// The abstract USB identity.
pub struct UsbModel {
    pub vendor_id: Option<Seq<char>>,
    pub product_id: Option<Seq<char>>,
    pub interface_number: Option<u8>,
    pub serial: Option<Seq<char>>,
}

/// The abstract candidate device.
pub struct CandidateModel {
    pub devnode: Seq<char>,
    pub sysname: Seq<char>,
    pub name: Seq<char>,
    pub phys: Option<Seq<char>>,
    pub id_path: Option<Seq<char>>,
    pub usb: UsbModel,
    pub open_error: Option<Seq<char>>,
    pub supported_keys: Option<Seq<KeyCode>>,
    pub capabilities: Option<DeviceCapabilities>,
}

impl View for UsbIdentity {
    type V = UsbModel;

    open spec fn view(&self) -> UsbModel {
        UsbModel {
            vendor_id: opt_text(self.vendor_id),
            product_id: opt_text(self.product_id),
            interface_number: self.interface_number,
            serial: opt_text(self.serial),
        }
    }
}

impl View for CandidateDevice {
    type V = CandidateModel;

    open spec fn view(&self) -> CandidateModel {
        CandidateModel {
            devnode: self.devnode@,
            sysname: self.sysname@,
            name: self.name@,
            phys: opt_text(self.phys),
            id_path: opt_text(self.id_path),
            usb: self.usb@,
            open_error: opt_text(self.open_error),
            supported_keys: match self.supported_keys {
                Some(k) => Some(k@),
                None => None,
            },
            capabilities: self.capabilities,
        }
    }
}

/// The abstract form of a list of candidates.
pub open spec fn candidates_view(v: Seq<CandidateDevice>) -> Seq<CandidateModel> {
    v.map_values(|c: CandidateDevice| c@)
}

fn clone_text(s: &Option<String>) -> (c: Option<String>)
    ensures
        opt_text(c) == opt_text(*s),
{
    match s {
        Some(t) => Some(t.clone()),
        None => None,
    }
}

fn clone_codes(v: &Vec<KeyCode>) -> (c: Vec<KeyCode>)
    ensures
        c@ == v@,
{
    let mut c: Vec<KeyCode> = Vec::new();
    let mut i: usize = 0;
    while i < v.len()
        invariant
            i <= v.len(),
            c@ == v@.subrange(0, i as int),
        decreases v.len() - i,
    {
        c.push(v[i]);
        i = i + 1;
        assert(c@ =~= v@.subrange(0, i as int));
    }
    assert(v@.subrange(0, v.len() as int) =~= v@);
    c
}

impl UsbIdentity {
    /// The identity with nothing known.
    pub fn unknown() -> (u: Self)
        ensures
            u@ == (UsbModel { vendor_id: None, product_id: None, interface_number: None, serial: None }),
    {
        UsbIdentity { vendor_id: None, product_id: None, interface_number: None, serial: None }
    }

    /// A copy of this identity.
    pub fn duplicate(&self) -> (c: Self)
        ensures
            c@ == self@,
    {
        UsbIdentity {
            vendor_id: clone_text(&self.vendor_id),
            product_id: clone_text(&self.product_id),
            interface_number: self.interface_number,
            serial: clone_text(&self.serial),
        }
    }
}

impl CandidateDevice {
    /// A copy of this candidate.
    pub fn duplicate(&self) -> (c: Self)
        ensures
            c@ == self@,
    {
        CandidateDevice {
            devnode: self.devnode.clone(),
            sysname: self.sysname.clone(),
            name: self.name.clone(),
            phys: clone_text(&self.phys),
            id_path: clone_text(&self.id_path),
            usb: self.usb.duplicate(),
            open_error: clone_text(&self.open_error),
            supported_keys: match &self.supported_keys {
                Some(k) => Some(clone_codes(k)),
                None => None,
            },
            capabilities: self.capabilities,
        }
    }
}

// ---------------------------------------------------------------------------
// Values read from udev
// ---------------------------------------------------------------------------

/// A udev value as kept for comparisons: trimmed, without surrounding quotes,
/// in ASCII lower case.
pub open spec fn normalized_udev(raw: Seq<char>) -> Seq<char> {
    ascii_lowercase(trim_quotes(trim_white(raw)))
}

/// A udev value that keeps its case: trimmed and without surrounding quotes.
pub open spec fn trimmed_udev(raw: Seq<char>) -> Seq<char> {
    trim_quotes(trim_white(raw))
}

/// Normalises a udev value for case insensitive comparisons.
pub fn normalize_udev_value(raw: &str) -> (v: String)
    ensures
        v@ == normalized_udev(raw@),
{
    let t = trim_value(raw);
    to_ascii_lowercase(t.as_str())
}

/// Trims a udev value and removes surrounding quotes, keeping its case.
pub fn trim_udev_value(raw: &str) -> (v: String)
    ensures
        v@ == trimmed_udev(raw@),
{
    trim_value(raw)
}

/// `s` with every leading `0x` removed (what `trim_start_matches("0x")` gives).
pub open spec fn strip_hex_prefixes(s: Seq<char>) -> Seq<char>
    decreases s.len(),
{
    if s.len() >= 2 && s[0] == '0' && s[1] == 'x' {
        strip_hex_prefixes(s.subrange(2, s.len() as int))
    } else {
        s
    }
}

/// The value of a hexadecimal byte after its leading `0x` prefixes are removed.
pub open spec fn hex_byte(s: Seq<char>) -> Option<u8> {
    match parse_unsigned(strip_hex_prefixes(s), 16, 255) {
        Some(v) => Some(v as u8),
        None => None,
    }
}

/// Parses a hexadecimal byte such as `02` or `0x02`.
pub fn parse_hex_u8(value: &str) -> (b: Option<u8>)
    ensures
        b == hex_byte(value@),
{
    let chars = chars_of(value);
    let n = chars.len();
    let mut start: usize = 0;
    assert(chars@.subrange(0, n as int) =~= value@);
    while n >= 2 && start <= n - 2 && chars[start] == '0' && chars[start + 1] == 'x'
        invariant
            n == chars.len(),
            start <= n,
            strip_hex_prefixes(value@) == strip_hex_prefixes(chars@.subrange(start as int, n as int)),
        decreases n - start,
    {
        let ghost s = chars@.subrange(start as int, n as int);
        assert(s.subrange(2, s.len() as int) =~= chars@.subrange(start + 2, n as int));
        start = start + 2;
    }
    proof {
        let s = chars@.subrange(start as int, n as int);
        assert(strip_hex_prefixes(s) == s);
        assert(chars@.subrange(0, n as int) =~= chars@);
    }
    match parse_unsigned_from(&chars, start, 16, 255) {
        Some(v) => Some(v as u8),
        None => None,
    }
}

/// The USB identity built from the raw udev attribute values (`idVendor`,
/// `idProduct`, `bInterfaceNumber`, `serial`), each normalised; the interface
/// number is read as hexadecimal.
pub fn usb_identity_from_attributes(
    vendor: Option<&str>,
    product: Option<&str>,
    interface: Option<&str>,
    serial: Option<&str>,
) -> (u: UsbIdentity)
    ensures
        u@.vendor_id == match vendor {
            Some(v) => Some(normalized_udev(v@)),
            None => None::<Seq<char>>,
        },
        u@.product_id == match product {
            Some(v) => Some(normalized_udev(v@)),
            None => None::<Seq<char>>,
        },
        u@.interface_number == match interface {
            Some(v) => hex_byte(normalized_udev(v@)),
            None => None::<u8>,
        },
        u@.serial == match serial {
            Some(v) => Some(normalized_udev(v@)),
            None => None::<Seq<char>>,
        },
{
    let vendor_id = match vendor {
        Some(v) => Some(normalize_udev_value(v)),
        None => None,
    };
    let product_id = match product {
        Some(v) => Some(normalize_udev_value(v)),
        None => None,
    };
    let interface_number = match interface {
        Some(v) => {
            let n = normalize_udev_value(v);
            parse_hex_u8(n.as_str())
        },
        None => None,
    };
    let serial = match serial {
        Some(v) => Some(normalize_udev_value(v)),
        None => None,
    };
    UsbIdentity { vendor_id, product_id, interface_number, serial }
}

// ---------------------------------------------------------------------------
// Node names
// ---------------------------------------------------------------------------

/// Whether a directory entry of `/dev/input` names an event node.
pub fn is_event_node_name(file_name: &str) -> (yes: bool)
    ensures
        yes == has_prefix(file_name@, "event"@),
{
    starts_with(file_name, "event")
}

/// The name a candidate is shown with: the name the opened device reports
/// (`unknown` when it reports none); when the node could not be opened, or the
/// name is empty, the udev `NAME` property, else the first `name` attribute up the
/// device tree, else the node's sysname.
pub open spec fn candidate_name(
    opened: bool,
    reported: Option<Seq<char>>,
    udev_name: Option<Seq<char>>,
    attribute_name: Option<Seq<char>>,
    sysname: Seq<char>,
) -> Seq<char> {
    let primary = if opened {
        match reported {
            Some(n) => n,
            None => "unknown"@,
        }
    } else {
        Seq::empty()
    };
    if primary.len() > 0 {
        primary
    } else {
        match udev_name {
            Some(n) => trimmed_udev(n),
            None => match attribute_name {
                Some(n) => trimmed_udev(n),
                None => sysname,
            },
        }
    }
}

/// Chooses the name of a candidate from what was read of it (see `candidate_name`).
pub fn resolve_candidate_name(
    opened: bool,
    reported: Option<&str>,
    udev_name: Option<&str>,
    attribute_name: Option<&str>,
    sysname: &str,
) -> (name: String)
    ensures
        name@ == candidate_name(
            opened,
            match reported {
                Some(r) => Some(r@),
                None => None,
            },
            match udev_name {
                Some(r) => Some(r@),
                None => None,
            },
            match attribute_name {
                Some(r) => Some(r@),
                None => None,
            },
            sysname@,
        ),
{
    let primary = if opened {
        match reported {
            Some(n) => n.to_string(),
            None => {
                let u = "unknown".to_string();
                proof {
                    reveal_strlit("unknown");
                }
                u
            },
        }
    } else {
        String::new()
    };
    if primary.as_str().unicode_len() > 0 {
        return primary;
    }
    match udev_name {
        Some(n) => trim_udev_value(n),
        None => match attribute_name {
            Some(n) => trim_udev_value(n),
            None => sysname.to_string(),
        },
    }
}

// ---------------------------------------------------------------------------
// Ordering of event nodes
// ---------------------------------------------------------------------------

/// The number of an `eventN` node: its last path component must be `event`
/// followed by a number that fits in 32 bits.
pub open spec fn event_number_of(path: Seq<char>) -> Option<nat> {
    match path_file_name(path) {
        Some(name) => event_number_of_name(name),
        None => None,
    }
}

/// The number of an `eventN` file name: `event` followed by a number that
/// fits in 32 bits.
pub open spec fn event_number_of_name(name: Seq<char>) -> Option<nat> {
    if has_prefix(name, "event"@) {
        parse_unsigned(name.subrange(5, name.len() as int), 10, 0xffff_ffff)
    } else {
        None
    }
}

/// A node path that ends in `event` followed by the decimal digits of a
/// 32-bit number (after a directory ending in `/`, or alone) ends in an
/// ordinary file name, and that name carries exactly the number; so
/// `event_number` gives the number back.
pub proof fn event_number_reads_back(dir: Seq<char>, n: nat)
    requires
        n <= 0xffff_ffff,
        dir.len() == 0 || dir.last() == '/',
    ensures
        ends_in_plain_name(dir + "event"@ + decimal_digits(n)),
        event_number_of_name(last_segment(dir + "event"@ + decimal_digits(n))) == Some(n),
{
    reveal_strlit("event");
    let name = "event"@ + decimal_digits(n);
    lemma_decimal_digits_read_back(n);
    lemma_decimal_digits_are_digits(n);
    assert(!name.contains('/')) by {
        if name.contains('/') {
            let i = choose|i: int| 0 <= i < name.len() && name[i] == '/';
            if i >= 5 {
                assert(name[i] == decimal_digits(n)[i - 5]);
            }
        }
    }
    lemma_last_segment_after_slash(dir, name);
    assert(dir + "event"@ + decimal_digits(n) =~= dir + name);
    assert(name.subrange(0, 5) =~= "event"@);
    assert(name.subrange(5, name.len() as int) =~= decimal_digits(n));
    assert(name[0] == 'e');
}

/// How two event nodes order: by number when both are `eventN` nodes, else by path.
/// -1, 0 or 1 for before, same place and after.
pub open spec fn event_node_order(a: Seq<char>, b: Seq<char>) -> int {
    match (event_number_of(a), event_number_of(b)) {
        (Some(x), Some(y)) => if x < y {
            -1
        } else if x == y {
            0
        } else {
            1
        },
        _ => path_order(a, b),
    }
}

/// Two numbered nodes order by their numbers, smaller first; any other pair
/// orders by path.
pub proof fn numbered_nodes_order_by_number(a: Seq<char>, b: Seq<char>)
    ensures
        event_number_of(a) is Some && event_number_of(b) is Some ==> (event_node_order(a, b) < 0
            <==> event_number_of(a).unwrap() < event_number_of(b).unwrap()) && (event_node_order(a, b) == 0
            <==> event_number_of(a).unwrap() == event_number_of(b).unwrap()),
        (event_number_of(a) is None || event_number_of(b) is None) ==> event_node_order(a, b) == path_order(a, b),
{
}

/// Extracts the trailing number from `eventN` when the name matches that form.
pub fn event_number(path: &str) -> (n: Option<u32>)
    ensures
        match n {
            Some(v) => event_number_of(path@) == Some(v as nat),
            None => event_number_of(path@).is_none(),
        },
        ends_in_plain_name(path@) ==> match n {
            Some(v) => event_number_of_name(last_segment(path@)) == Some(v as nat),
            None => event_number_of_name(last_segment(path@)).is_none(),
        },
{
    match file_name(path) {
        None => None,
        Some(name) => {
            proof {
                reveal_strlit("event");
            }
            if starts_with(name.as_str(), "event") {
                let chars = chars_of(name.as_str());
                parse_unsigned_from(&chars, 5, 10, 0xffff_ffff)
            } else {
                None
            }
        },
    }
}

/// The path is an `eventN` node with a number.
pub open spec fn numbered(path: Seq<char>) -> bool {
    event_number_of(path) is Some
}

/// Orders two `eventN` paths by number so that listings stay stable. Among
/// paths that are all numbered, or all not, the order chains: a path that
/// comes no later than `left` comes no later than `right` when `left` comes no
/// later than `right`.
pub fn compare_event_nodes(left: &str, right: &str) -> (order: i8)
    ensures
        order == event_node_order(left@, right@),
        event_node_order(right@, left@) + order == 0,
        -1 <= order <= 1,
        order <= 0 && numbered(left@) == numbered(right@) ==> forall|c: Seq<char>|
            numbered(c) == numbered(left@) && #[trigger] event_node_order(c, left@) <= 0 ==> event_node_order(c, right@) <= 0,
{
    match (event_number(left), event_number(right)) {
        (Some(l), Some(r)) => if l < r {
            -1
        } else if l == r {
            0
        } else {
            1
        },
        _ => compare_paths(left, right),
    }
}

/// No two candidates differ in whether their node is numbered.
pub open spec fn uniformly_numbered(v: Seq<CandidateModel>) -> bool {
    forall|k: int, l: int| 0 <= k < v.len() && 0 <= l < v.len() ==> numbered(#[trigger] v[k].devnode) == numbered(
        #[trigger] v[l].devnode,
    )
}

/// Event node order chains among the nodes of `v`: whenever one node comes no
/// later than a second, and the second no later than a third, the first comes
/// no later than the third.
pub open spec fn node_order_chains(v: Seq<CandidateModel>) -> bool {
    forall|a: int, b: int, c: int|
        #![trigger event_node_order(v[a].devnode, v[b].devnode), event_node_order(v[b].devnode, v[c].devnode)]
        0 <= a < v.len() && 0 <= b < v.len() && 0 <= c < v.len() && event_node_order(v[a].devnode, v[b].devnode) <= 0
            && event_node_order(v[b].devnode, v[c].devnode) <= 0 ==> event_node_order(v[a].devnode, v[c].devnode) <= 0
}

/// Every candidate comes no later than each one after it in event node order.
pub open spec fn nodes_all_in_order(v: Seq<CandidateModel>) -> bool {
    forall|k: int, l: int| 0 <= k < l < v.len() ==> event_node_order(#[trigger] v[k].devnode, #[trigger] v[l].devnode) <= 0
}

/// The candidates are in event node order: no candidate comes right before one
/// that its node orders before.
pub open spec fn nodes_in_order(v: Seq<CandidateModel>) -> bool {
    forall|k: int| 0 <= k < v.len() - 1 ==> event_node_order(#[trigger] v[k].devnode, v[k + 1].devnode) <= 0
}

/// `out` holds the elements of `src` rearranged: `out[k]` is `src[pos[k]]`, each
/// position of `src` used once.
pub open spec fn rearranged<T>(src: Seq<T>, out: Seq<T>, pos: Seq<int>) -> bool {
    &&& pos.len() == out.len()
    &&& out.len() == src.len()
    &&& pos.no_duplicates()
    &&& forall|k: int| 0 <= k < out.len() ==> 0 <= #[trigger] pos[k] < src.len() && out[k] == src[pos[k]]
}

/// A node placed after every node that comes no later than it, and before
/// every node it comes before, keeps a sequence in event node order.
proof fn lemma_inserted_in_order(v: Seq<CandidateModel>, x: CandidateModel, j: int)
    requires
        0 <= j <= v.len(),
        nodes_all_in_order(v),
        forall|k: int| 0 <= k < j ==> event_node_order(#[trigger] v[k].devnode, x.devnode) <= 0,
        forall|m: int| j <= m < v.len() ==> event_node_order(x.devnode, #[trigger] v[m].devnode) < 0,
    ensures
        nodes_all_in_order(v.insert(j, x)),
{
    let w = v.insert(j, x);
    assert forall|k: int, l: int| 0 <= k < l < w.len() implies event_node_order(#[trigger] w[k].devnode, #[trigger] w[l].devnode) <= 0 by {
        let ok = if k < j { k } else { k - 1 };
        let ol = if l < j { l } else { l - 1 };
        if k == j {
            assert(w[l] == v[ol]);
        } else if l == j {
            assert(w[k] == v[k]);
        } else {
            assert(w[k] == v[ok] && w[l] == v[ol]);
        }
    }
}

/// Sorts the candidates by event node, keeping the order of equal nodes.
/// Wherever the node order chains among the given nodes (always when they are
/// all numbered, or all not), every node comes no later than each one after it.
/// Some mixes of numbered and other nodes have no such order: the number
/// decides between numbered nodes, the path otherwise, and the two can go round
/// in a circle.
pub fn sort_candidates(candidates: Vec<CandidateDevice>) -> (sorted: Vec<CandidateDevice>)
    ensures
        sorted@.to_multiset() == candidates@.to_multiset(),
        nodes_in_order(candidates_view(sorted@)),
        uniformly_numbered(candidates_view(candidates@)) ==> nodes_all_in_order(candidates_view(sorted@)),
        node_order_chains(candidates_view(candidates@)) ==> nodes_all_in_order(candidates_view(sorted@)),
        exists|pos: Seq<int>| {
            &&& rearranged(candidates@, sorted@, pos)
            &&& forall|k: int, l: int| 0 <= k < l < sorted@.len() && event_node_order(
                #[trigger] sorted@[k].devnode@,
                #[trigger] sorted@[l].devnode@,
            ) == 0 ==> pos[k] < pos[l]
        },
{
    broadcast use vstd::seq_lib::group_to_multiset_ensures;
    let ghost orig = candidates@;
    let n = candidates.len();
    let mut rest = candidates;
    let ghost all = rest@.to_multiset();
    let mut sorted: Vec<CandidateDevice> = Vec::new();
    let ghost mut pos: Seq<int> = Seq::empty();
    assert(orig.subrange(0, n as int) =~= orig);
    while rest.len() > 0
        invariant
            sorted@.to_multiset().add(rest@.to_multiset()) == all,
            nodes_in_order(candidates_view(sorted@)),
            uniformly_numbered(candidates_view(orig)) || node_order_chains(candidates_view(orig))
                ==> nodes_all_in_order(candidates_view(sorted@)),
            n == orig.len(),
            sorted.len() + rest.len() == n,
            rest@ == orig.subrange(sorted.len() as int, n as int),
            pos.len() == sorted.len(),
            pos.no_duplicates(),
            forall|k: int| 0 <= k < sorted.len() ==> 0 <= #[trigger] pos[k] < sorted.len() && sorted@[k] == orig[pos[k]],
            forall|k: int, l: int| 0 <= k < l < sorted@.len() && event_node_order(
                #[trigger] sorted@[k].devnode@,
                #[trigger] sorted@[l].devnode@,
            ) == 0 ==> pos[k] < pos[l],
        decreases rest.len(),
    {
        let ghost rest_before = rest@;
        let ghost q = sorted.len() as int;
        let x = rest.remove(0);
        proof {
            vstd::seq_lib::to_multiset_remove(rest_before, 0);
            assert(x == orig[q]);
            assert(rest@ =~= orig.subrange(q + 1, n as int));
        }
        let mut j = sorted.len();
        while j > 0 && compare_event_nodes(sorted[j - 1].devnode.as_str(), x.devnode.as_str()) > 0
            invariant
                j <= sorted.len(),
                forall|m: int| j <= m < sorted.len() ==> event_node_order(x.devnode@, #[trigger] sorted@[m].devnode@) < 0,
            decreases j,
        {
            j = j - 1;
        }
        proof {
            if j > 0 {
                assert(event_node_order(sorted@[j - 1].devnode@, x.devnode@) <= 0);
            }
        }
        let ghost before = sorted@;
        let ghost old_pos = pos;
        sorted.insert(j, x);
        proof {
            pos = old_pos.insert(j as int, q);
            vstd::seq_lib::to_multiset_insert(before, j as int, x);
            assert(rest_before.to_multiset().count(x) > 0) by {
                vstd::seq_lib::to_multiset_contains(rest_before, x);
                assert(rest_before[0] == x);
            }
            assert(sorted@.to_multiset().add(rest@.to_multiset()) =~= all);
            let v = candidates_view(sorted@);
            let old_v = candidates_view(before);
            assert forall|k: int| 0 <= k < v.len() - 1 implies event_node_order(#[trigger] v[k].devnode, v[k + 1].devnode) <= 0 by {
                if k < j - 1 {
                    assert(v[k] == old_v[k] && v[k + 1] == old_v[k + 1]);
                } else if k == j - 1 {
                    assert(v[k] == old_v[k] && v[k + 1] == x@);
                } else if k == j {
                    assert(v[k] == x@ && v[k + 1] == old_v[k]);
                } else {
                    assert(v[k] == old_v[k - 1] && v[k + 1] == old_v[k]);
                }
            }
            if uniformly_numbered(candidates_view(orig)) || node_order_chains(candidates_view(orig)) {
                let ov = candidates_view(orig);
                assert(ov[q] == x@);
                assert forall|k: int| 0 <= k < j implies event_node_order(#[trigger] old_v[k].devnode, x@.devnode) <= 0 by {
                    if k < j - 1 {
                        assert(event_node_order(old_v[k].devnode, old_v[j - 1].devnode) <= 0);
                        assert(old_v[k] == ov[old_pos[k]] && old_v[j - 1] == ov[old_pos[j - 1]]);
                        if uniformly_numbered(ov) {
                            assert(numbered(ov[old_pos[k]].devnode) == numbered(ov[q].devnode));
                            assert(numbered(ov[old_pos[j - 1]].devnode) == numbered(ov[q].devnode));
                        } else {
                            assert(event_node_order(ov[old_pos[k]].devnode, ov[old_pos[j - 1]].devnode) <= 0);
                            assert(event_node_order(ov[old_pos[j - 1]].devnode, ov[q].devnode) <= 0);
                        }
                    }
                }
                assert forall|m: int| j <= m < old_v.len() implies event_node_order(x@.devnode, #[trigger] old_v[m].devnode) < 0 by {
                    assert(old_v[m] == before[m]@);
                }
                lemma_inserted_in_order(old_v, x@, j as int);
                assert(v =~= old_v.insert(j as int, x@));
            }
            assert forall|a: int, b: int| 0 <= a < b < pos.len() implies pos[a] != pos[b] by {
                let oa = if a < j { a } else { a - 1 };
                let ob = if b < j { b } else { b - 1 };
                if a != j && b != j {
                    assert(pos[a] == old_pos[oa] && pos[b] == old_pos[ob]);
                } else if a == j {
                    assert(pos[b] == old_pos[ob]);
                } else {
                    assert(pos[a] == old_pos[oa]);
                }
            }
            assert forall|k: int| 0 <= k < sorted.len() implies 0 <= #[trigger] pos[k] < sorted.len() && sorted@[k] == orig[pos[k]] by {
                if k < j {
                    assert(pos[k] == old_pos[k] && sorted@[k] == before[k]);
                } else if k > j {
                    assert(pos[k] == old_pos[k - 1] && sorted@[k] == before[k - 1]);
                }
            }
            assert forall|k: int, l: int| 0 <= k < l < sorted@.len() && event_node_order(
                #[trigger] sorted@[k].devnode@,
                #[trigger] sorted@[l].devnode@,
            ) == 0 implies pos[k] < pos[l] by {
                if k == j {
                    assert(sorted@[l] == before[l - 1]);
                    assert(event_node_order(x.devnode@, before[l - 1].devnode@) < 0);
                } else if l == j {
                    assert(pos[k] == old_pos[k]);
                } else {
                    let ok = if k < j { k } else { k - 1 };
                    let ol = if l < j { l } else { l - 1 };
                    assert(sorted@[k] == before[ok] && sorted@[l] == before[ol]);
                    assert(pos[k] == old_pos[ok] && pos[l] == old_pos[ol]);
                }
            }
        }
    }
    proof {
        assert(rearranged(orig, sorted@, pos));
    }
    sorted
}

} // verus!

verus! {

/// An optional identity part, or `-` when it is missing.
pub open spec fn or_dash(o: Option<Seq<char>>) -> Seq<char> {
    match o {
        Some(s) => s,
        None => "-"@,
    }
}

/// The short line of the `devices` listing.
pub open spec fn short_line(c: CandidateModel) -> Seq<char> {
    c.devnode + " | "@ + c.name + " | "@ + c.sysname + " | usb="@ + or_dash(c.usb.vendor_id) + ":"@
        + or_dash(c.usb.product_id) + " if="@ + crate::format::debug_opt_u8(c.usb.interface_number)
}

/// What is known of a node's keys: how many it reports, or why nothing is known.
pub open spec fn key_summary(c: CandidateModel) -> Seq<char> {
    match c.supported_keys {
        Some(keys) => crate::text::decimal_digits(keys.to_set().len()) + " keys readable"@,
        None => match c.open_error {
            Some(e) => "evdev unreadable: "@ + e,
            None => "evdev readable, no key bitmap"@,
        },
    }
}

/// The detailed line of the `inspect` listing.
pub open spec fn detail_line(c: CandidateModel) -> Seq<char> {
    "["@ + c.sysname + "] "@ + c.devnode + " | name='"@ + c.name + "' usb="@ + or_dash(c.usb.vendor_id)
        + ":"@ + or_dash(c.usb.product_id) + " if="@ + crate::format::debug_opt_u8(c.usb.interface_number)
        + " serial="@ + crate::format::debug_opt_text(c.usb.serial) + " path="@
        + crate::format::debug_opt_text(c.id_path) + " phys="@ + crate::format::debug_opt_text(c.phys)
        + " | "@ + key_summary(c)
}

fn append_or_dash(out: &mut String, o: &Option<String>)
    ensures
        final(out)@ == old(out)@ + or_dash(opt_text(*o)),
{
    match o {
        Some(s) => out.append(s.as_str()),
        None => {
            out.append("-");
            proof {
                reveal_strlit("-");
            }
        },
    }
}

impl CandidateDevice {
    /// Produces a short line suitable for the `devices` command.
    pub fn short_display(&self) -> (line: String)
        ensures
            line@ == short_line(self@),
    {
        let mut out = self.devnode.clone();
        out.append(" | ");
        out.append(self.name.as_str());
        out.append(" | ");
        out.append(self.sysname.as_str());
        out.append(" | usb=");
        append_or_dash(&mut out, &self.usb.vendor_id);
        out.append(":");
        append_or_dash(&mut out, &self.usb.product_id);
        out.append(" if=");
        crate::format::append_debug_opt_u8(&mut out, self.usb.interface_number);
        out
    }

    /// The key codes of the node, when known, are listed once each (they form a set).
    pub open spec fn keys_distinct(&self) -> bool {
        self.supported_keys matches Some(k) ==> k@.no_duplicates()
    }

    /// Produces a detailed summary for device selection diagnostics.
    pub fn describe(&self) -> (line: String)
        requires
            self.keys_distinct(),
        ensures
            line@ == detail_line(self@),
    {
        let mut out = "[".to_string();
        out.append(self.sysname.as_str());
        out.append("] ");
        out.append(self.devnode.as_str());
        out.append(" | name='");
        out.append(self.name.as_str());
        out.append("' usb=");
        append_or_dash(&mut out, &self.usb.vendor_id);
        out.append(":");
        append_or_dash(&mut out, &self.usb.product_id);
        out.append(" if=");
        crate::format::append_debug_opt_u8(&mut out, self.usb.interface_number);
        out.append(" serial=");
        crate::format::append_debug_opt_text(&mut out, &self.usb.serial);
        out.append(" path=");
        crate::format::append_debug_opt_text(&mut out, &self.id_path);
        out.append(" phys=");
        crate::format::append_debug_opt_text(&mut out, &self.phys);
        out.append(" | ");
        match &self.supported_keys {
            Some(keys) => {
                proof {
                    keys@.unique_seq_to_set();
                }
                crate::text::append_decimal(&mut out, keys.len() as u64);
                out.append(" keys readable");
            },
            None => match &self.open_error {
                Some(e) => {
                    out.append("evdev unreadable: ");
                    out.append(e.as_str());
                },
                None => {
                    out.append("evdev readable, no key bitmap");
                },
            },
        }
        out
    }
}

} // verus!

verus! {

proof fn lemma_numbers_ordered(v: Seq<CandidateModel>, i: int, j: int)
    requires
        nodes_in_order(v),
        forall|k: int| 0 <= k < v.len() ==> (#[trigger] event_number_of(v[k].devnode)) is Some,
        0 <= i <= j < v.len(),
    ensures
        event_number_of(v[i].devnode)->Some_0 <= event_number_of(v[j].devnode)->Some_0,
    decreases j - i,
{
    if i < j {
        lemma_numbers_ordered(v, i, j - 1);
        assert(event_node_order(v[j - 1].devnode, v[j].devnode) <= 0);
        assert(event_number_of(v[j - 1].devnode) is Some);
        assert(event_number_of(v[j].devnode) is Some);
    }
}

/// When every node is an `eventN` node, the node order is the order of the
/// numbers: `event2` comes before `event10`.
pub proof fn numbered_nodes_sorted_by_number(v: Seq<CandidateModel>)
    requires
        nodes_in_order(v),
        forall|k: int| 0 <= k < v.len() ==> (#[trigger] event_number_of(v[k].devnode)) is Some,
    ensures
        forall|i: int, j: int| 0 <= i <= j < v.len() ==> event_number_of(#[trigger] v[i].devnode)->Some_0 <= event_number_of(
            #[trigger] v[j].devnode,
        )->Some_0,
{
    assert forall|i: int, j: int| 0 <= i <= j < v.len() implies event_number_of(#[trigger] v[i].devnode)->Some_0
        <= event_number_of(#[trigger] v[j].devnode)->Some_0 by {
        lemma_numbers_ordered(v, i, j);
    }
}

/// A leading `0x` does not change the value of a hexadecimal byte.
pub proof fn hex_prefix_is_optional(s: Seq<char>)
    ensures
        hex_byte("0x"@ + s) == hex_byte(s),
{
    reveal_strlit("0x");
    let t = "0x"@ + s;
    assert(t.subrange(2, t.len() as int) =~= s);
}

} // verus!

verus! {

/// Keyboard keys, as this library counts them: every code below `BTN_MISC`
/// (0x100), where the button range begins.
pub open spec fn is_keyboard_code(c: KeyCode) -> bool {
    c < 0x100
}

/// Buttons, as this library counts them: `BTN_MISC` (0x100) up to the last
/// gamepad button (0x15f), and the `BTN_TRIGGER_HAPPY` range (0x2c0 to 0x2e7).
pub open spec fn is_button_code(c: KeyCode) -> bool {
    (0x100 <= c && c < 0x160) || (0x2c0 <= c && c < 0x2e8)
}

/// How many codes satisfy `p`.
pub open spec fn count_codes(codes: Seq<KeyCode>, p: spec_fn(KeyCode) -> bool) -> nat
    decreases codes.len(),
{
    if codes.len() == 0 {
        0
    } else {
        count_codes(codes.drop_last(), p) + if p(codes.last()) {
            1nat
        } else {
            0nat
        }
    }
}

proof fn lemma_count_le_len(codes: Seq<KeyCode>, p: spec_fn(KeyCode) -> bool)
    ensures
        count_codes(codes, p) <= codes.len(),
    decreases codes.len(),
{
    if codes.len() > 0 {
        lemma_count_le_len(codes.drop_last(), p);
    }
}

/// The capabilities of a node from its key codes and the counts read from it,
/// with keys and buttons told apart by this library's own code ranges.
pub fn capabilities_from(
    codes: &Vec<KeyCode>,
    relative_axes: usize,
    absolute_axes: usize,
    leds: usize,
    has_repeat: bool,
) -> (caps: DeviceCapabilities)
    ensures
        caps.keyboard_keys == count_codes(codes@, |c: KeyCode| is_keyboard_code(c)),
        caps.button_keys == count_codes(codes@, |c: KeyCode| is_button_code(c)),
        caps.total_keys == codes@.len(),
        caps.relative_axes == relative_axes,
        caps.absolute_axes == absolute_axes,
        caps.leds == leds,
        caps.has_repeat == has_repeat,
{
    let ghost kb = |c: KeyCode| is_keyboard_code(c);
    let ghost bt = |c: KeyCode| is_button_code(c);
    let mut keyboard: usize = 0;
    let mut buttons: usize = 0;
    let mut i: usize = 0;
    while i < codes.len()
        invariant
            i <= codes.len(),
            kb == (|c: KeyCode| is_keyboard_code(c)),
            bt == (|c: KeyCode| is_button_code(c)),
            keyboard == count_codes(codes@.subrange(0, i as int), kb),
            buttons == count_codes(codes@.subrange(0, i as int), bt),
        decreases codes.len() - i,
    {
        let ghost sub = codes@.subrange(0, i as int + 1);
        assert(sub.drop_last() =~= codes@.subrange(0, i as int));
        proof {
            lemma_count_le_len(codes@.subrange(0, i as int), kb);
            lemma_count_le_len(codes@.subrange(0, i as int), bt);
        }
        let c = codes[i];
        if c < 0x100 {
            keyboard = keyboard + 1;
        }
        if (0x100 <= c && c < 0x160) || (0x2c0 <= c && c < 0x2e8) {
            buttons = buttons + 1;
        }
        i = i + 1;
    }
    assert(codes@.subrange(0, codes@.len() as int) =~= codes@);
    DeviceCapabilities {
        keyboard_keys: keyboard,
        button_keys: buttons,
        total_keys: codes.len(),
        relative_axes,
        absolute_axes,
        leds,
        has_repeat,
    }
}

} // verus!
