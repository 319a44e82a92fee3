//! Strict device selection: a configured device resolves to exactly one input
//! node whose name and USB identity match, whatever the node numbers are.

use vstd::prelude::*;
use crate::config::{DeviceConfig, SelectorModel, opt_text};
use crate::discovery::{CandidateDevice, CandidateModel, candidates_view};
use crate::text::text_eq;

verus! {

/// A candidate matches a configured device: same name, same vendor, product and
/// interface, and the same serial when the configuration names one.
pub open spec fn candidate_fits(c: CandidateModel, expected_name: Seq<char>, sel: SelectorModel) -> bool {
    &&& c.name == expected_name
    &&& c.usb.vendor_id == Some(sel.vendor_id)
    &&& c.usb.product_id == Some(sel.product_id)
    &&& c.usb.interface_number == Some(sel.interface_number)
    &&& match sel.serial {
        Some(s) => c.usb.serial == Some(s),
        None => true,
    }
}

/// The candidates that match a configured device, in their order.
pub open spec fn fitting(cs: Seq<CandidateModel>, expected_name: Seq<char>, sel: SelectorModel) -> Seq<CandidateModel>
    decreases cs.len(),
{
    if cs.len() == 0 {
        Seq::empty()
    } else if candidate_fits(cs.last(), expected_name, sel) {
        fitting(cs.drop_last(), expected_name, sel).push(cs.last())
    } else {
        fitting(cs.drop_last(), expected_name, sel)
    }
}

/// The device nodes of some candidates, in order.
pub open spec fn devnodes(cs: Seq<CandidateModel>) -> Seq<Seq<char>> {
    cs.map_values(|c: CandidateModel| c.devnode)
}

/// Why a configured device did not resolve to exactly one node. Both carry the
/// device's label and identity for the message.
pub enum SelectError {
    NoMatch { label: String, vendor_id: String, product_id: String, interface_number: u8 },
    MultipleMatches {
        label: String,
        vendor_id: String,
        product_id: String,
        interface_number: u8,
        nodes: Vec<String>,
    },
}

fn opt_text_eq(a: &Option<String>, b: &String) -> (same: bool)
    ensures
        same == (opt_text(*a) == Some(b@)),
{
    match a {
        Some(t) => text_eq(t.as_str(), b.as_str()),
        None => false,
    }
}

/// A candidate fits exactly when its name is the expected one, its vendor id,
/// product id and interface number are the configured ones, and, where the
/// configuration names a serial, its serial is that one. A candidate whose
/// vendor, product or interface differs is never taken.
pub proof fn only_the_identical_candidate_fits(c: CandidateModel, name: Seq<char>, sel: SelectorModel)
    ensures
        candidate_fits(c, name, sel) <==> {
            &&& c.name == name
            &&& c.usb.vendor_id == Some(sel.vendor_id)
            &&& c.usb.product_id == Some(sel.product_id)
            &&& c.usb.interface_number == Some(sel.interface_number)
            &&& (sel.serial is None || c.usb.serial == sel.serial)
        },
{
}

/// The fitting candidates are the candidates, in order, whose name and USB
/// identity are the configured ones: nothing else is kept and nothing of
/// that kind is left out.
pub proof fn fitting_keeps_exactly_the_identical(cs: Seq<CandidateModel>, name: Seq<char>, sel: SelectorModel)
    ensures
        ({
            let identical = |c: CandidateModel|
                c.name == name && c.usb.vendor_id == Some(sel.vendor_id) && c.usb.product_id == Some(sel.product_id)
                    && c.usb.interface_number == Some(sel.interface_number) && (sel.serial is None || c.usb.serial
                    == sel.serial);
            fitting(cs, name, sel) == cs.filter(identical)
        }),
    decreases cs.len(),
{
    let identical = |c: CandidateModel|
        c.name == name && c.usb.vendor_id == Some(sel.vendor_id) && c.usb.product_id == Some(sel.product_id)
            && c.usb.interface_number == Some(sel.interface_number) && (sel.serial is None || c.usb.serial
            == sel.serial);
    if cs.len() > 0 {
        fitting_keeps_exactly_the_identical(cs.drop_last(), name, sel);
        only_the_identical_candidate_fits(cs.last(), name, sel);
        assert(identical(cs.last()) == candidate_fits(cs.last(), name, sel));
        reveal(Seq::filter);
        assert(cs.filter(identical) == if identical(cs.last()) {
            cs.drop_last().filter(identical).push(cs.last())
        } else {
            cs.drop_last().filter(identical)
        });
    }
}

/// Each fitting candidate fits and is one of the candidates.
proof fn lemma_fitting_members(cs: Seq<CandidateModel>, name: Seq<char>, sel: SelectorModel)
    ensures
        forall|k: int| 0 <= k < fitting(cs, name, sel).len() ==> candidate_fits(#[trigger] fitting(cs, name, sel)[k], name, sel)
            && cs.contains(fitting(cs, name, sel)[k]),
    decreases cs.len(),
{
    if cs.len() > 0 {
        lemma_fitting_members(cs.drop_last(), name, sel);
        let f = fitting(cs, name, sel);
        let g = fitting(cs.drop_last(), name, sel);
        assert forall|k: int| 0 <= k < f.len() implies candidate_fits(#[trigger] f[k], name, sel) && cs.contains(f[k]) by {
            if k < g.len() {
                assert(f[k] == g[k]);
                let j = choose|j: int| 0 <= j < cs.drop_last().len() && cs.drop_last()[j] == g[k];
                assert(cs[j] == g[k]);
            } else {
                assert(f[k] == cs.last());
                assert(cs[cs.len() - 1] == cs.last());
            }
        }
    }
}

/// Compares one candidate against the strict selector built from config.
pub fn candidate_matches(candidate: &CandidateDevice, config: &DeviceConfig) -> (yes: bool)
    ensures
        yes == candidate_fits(candidate@, config.expected_name@, config.selector@),
        yes <==> {
            &&& candidate@.name == config.expected_name@
            &&& candidate@.usb.vendor_id == Some(config.selector@.vendor_id)
            &&& candidate@.usb.product_id == Some(config.selector@.product_id)
            &&& candidate@.usb.interface_number == Some(config.selector@.interface_number)
            &&& (config.selector@.serial is None || candidate@.usb.serial == config.selector@.serial)
        },
{
    text_eq(candidate.name.as_str(), config.expected_name.as_str())
        && opt_text_eq(&candidate.usb.vendor_id, &config.selector.vendor_id)
        && opt_text_eq(&candidate.usb.product_id, &config.selector.product_id)
        && candidate.usb.interface_number == Some(config.selector.interface_number)
        && match &config.selector.serial {
        Some(serial) => opt_text_eq(&candidate.usb.serial, serial),
        None => true,
    }
}

/// The error of a selection whose matches are `found`, for the device `label`
/// with identity `sel`: `NoMatch` when nothing matched, `MultipleMatches` with the
/// matching nodes in order when several did; both carry the label and identity.
pub open spec fn selection_error(e: SelectError, found: Seq<CandidateModel>, label: Seq<char>, sel: SelectorModel) -> bool {
    match e {
        SelectError::NoMatch { label: l, vendor_id, product_id, interface_number } => {
            &&& found.len() == 0
            &&& l@ == label
            &&& vendor_id@ == sel.vendor_id
            &&& product_id@ == sel.product_id
            &&& interface_number == sel.interface_number
        },
        SelectError::MultipleMatches { label: l, vendor_id, product_id, interface_number, nodes } => {
            &&& found.len() >= 2
            &&& crate::config::texts(nodes@) == devnodes(found)
            &&& l@ == label
            &&& vendor_id@ == sel.vendor_id
            &&& product_id@ == sel.product_id
            &&& interface_number == sel.interface_number
        },
    }
}

/// Selects exactly one candidate matching the expected name and USB identity.
/// This keeps device resolution deterministic even when event numbers change:
/// one match is the result; none, or several (listed by node), is an error.
pub fn select_device(candidates: &[CandidateDevice], config: &DeviceConfig) -> (res: Result<CandidateDevice, SelectError>)
    ensures
        ({
            let found = fitting(candidates_view(candidates@), config.expected_name@, config.selector@);
            match res {
                Ok(c) => found.len() == 1 && c@ == found[0],
                Err(e) => selection_error(e, found, config.label@, config.selector@),
            }
        }),
        res matches Ok(c) ==> {
            &&& c@.name == config.expected_name@
            &&& c@.usb.vendor_id == Some(config.selector@.vendor_id)
            &&& c@.usb.product_id == Some(config.selector@.product_id)
            &&& c@.usb.interface_number == Some(config.selector@.interface_number)
            &&& (config.selector@.serial is None || c@.usb.serial == config.selector@.serial)
            &&& candidates_view(candidates@).contains(c@)
        },
{
    let ghost all = candidates_view(candidates@);
    let mut found: Vec<CandidateDevice> = Vec::new();
    let n = candidates.len();
    let mut i: usize = 0;
    assert(all.subrange(0, 0) =~= Seq::<CandidateModel>::empty());
    assert(candidates_view(found@) =~= Seq::<CandidateModel>::empty());
    while i < n
        invariant
            n == candidates@.len(),
            i <= n,
            all == candidates_view(candidates@),
            candidates_view(found@) == fitting(all.subrange(0, i as int), config.expected_name@, config.selector@),
        decreases n - i,
    {
        let ghost sub = all.subrange(0, i as int + 1);
        assert(sub.drop_last() =~= all.subrange(0, i as int));
        assert(sub.last() == candidates@[i as int]@);
        if candidate_matches(&candidates[i], config) {
            let ghost before = found@;
            found.push(candidates[i].duplicate());
            assert(candidates_view(found@) =~= candidates_view(before).push(candidates@[i as int]@));
        }
        i = i + 1;
    }
    assert(all.subrange(0, n as int) =~= all);
    if found.len() == 1 {
        proof {
            lemma_fitting_members(all, config.expected_name@, config.selector@);
            let f = fitting(all, config.expected_name@, config.selector@);
            assert(candidate_fits(f[0], config.expected_name@, config.selector@));
        }
        return Ok(found.remove(0));
    }
    if found.len() == 0 {
        return Err(SelectError::NoMatch {
            label: config.label.clone(),
            vendor_id: config.selector.vendor_id.clone(),
            product_id: config.selector.product_id.clone(),
            interface_number: config.selector.interface_number,
        });
    }
    let mut nodes: Vec<String> = Vec::new();
    let mut k: usize = 0;
    while k < found.len()
        invariant
            k <= found.len(),
            crate::config::texts(nodes@) == devnodes(candidates_view(found@)).subrange(0, k as int),
        decreases found.len() - k,
    {
        let ghost before = nodes@;
        nodes.push(found[k].devnode.clone());
        assert(crate::config::texts(nodes@) =~= crate::config::texts(before).push(found@[k as int].devnode@));
        assert(devnodes(candidates_view(found@))[k as int] == found@[k as int].devnode@);
        k = k + 1;
        assert(crate::config::texts(nodes@) =~= devnodes(candidates_view(found@)).subrange(0, k as int));
    }
    assert(devnodes(candidates_view(found@)).subrange(0, found.len() as int) =~= devnodes(candidates_view(found@)));
    Err(SelectError::MultipleMatches {
        label: config.label.clone(),
        vendor_id: config.selector.vendor_id.clone(),
        product_id: config.selector.product_id.clone(),
        interface_number: config.selector.interface_number,
        nodes,
    })
}

} // verus!

verus! {

/// The `label (vendor:product if=n)` part of a selection message.
pub open spec fn identity_text(label: Seq<char>, vendor: Seq<char>, product: Seq<char>, interface: u8) -> Seq<char> {
    label + " ("@ + vendor + ":"@ + product + " if="@ + crate::text::decimal_digits(interface as nat) + ")"@
}

fn append_identity(out: &mut String, label: &String, vendor: &String, product: &String, interface: u8)
    ensures
        final(out)@ == old(out)@ + identity_text(label@, vendor@, product@, interface),
{
    out.append(label.as_str());
    out.append(" (");
    out.append(vendor.as_str());
    out.append(":");
    out.append(product.as_str());
    out.append(" if=");
    crate::text::append_decimal(out, interface as u64);
    out.append(")");
}

impl SelectError {
    /// The text of this error's message.
    pub open spec fn message_text(&self) -> Seq<char> {
        match self {
                SelectError::NoMatch { label, vendor_id, product_id, interface_number } => "no exact match for "@
                    + identity_text(label@, vendor_id@, product_id@, *interface_number),
                SelectError::MultipleMatches { label, vendor_id, product_id, interface_number, nodes } =>
                    "multiple exact matches for "@ + identity_text(label@, vendor_id@, product_id@, *interface_number)
                    + ": "@ + crate::text::joined_with(crate::config::texts(nodes@), ", "@),
        }
    }

    /// The message shown for this error.
    pub fn message(&self) -> (m: String)
        ensures
            m@ == self.message_text(),
    {
        match self {
            SelectError::NoMatch { label, vendor_id, product_id, interface_number } => {
                let mut m = "no exact match for ".to_string();
                append_identity(&mut m, label, vendor_id, product_id, *interface_number);
                m
            },
            SelectError::MultipleMatches { label, vendor_id, product_id, interface_number, nodes } => {
                let mut m = "multiple exact matches for ".to_string();
                append_identity(&mut m, label, vendor_id, product_id, *interface_number);
                m.append(": ");
                let joined = crate::text::join_texts(nodes, ", ");
                m.append(joined.as_str());
                m
            },
        }
    }
}

} // verus!

verus! {

proof fn lemma_fitting_multiset(cs: Seq<CandidateModel>, name: Seq<char>, sel: SelectorModel)
    ensures
        fitting(cs, name, sel).to_multiset() =~= cs.to_multiset().filter(|c: CandidateModel| candidate_fits(c, name, sel)),
    decreases cs.len(),
{
    broadcast use vstd::seq_lib::group_to_multiset_ensures;
    broadcast use vstd::multiset::group_multiset_axioms;
    let f = |c: CandidateModel| candidate_fits(c, name, sel);
    if cs.len() == 0 {
        assert(cs.to_multiset() =~= vstd::multiset::Multiset::empty());
        assert(cs.to_multiset().filter(f) =~= vstd::multiset::Multiset::empty());
    } else {
        lemma_fitting_multiset(cs.drop_last(), name, sel);
        assert(cs =~= cs.drop_last().push(cs.last()));
        vstd::seq_lib::to_multiset_build(cs.drop_last(), cs.last());
        let prev = cs.drop_last().to_multiset();
        if candidate_fits(cs.last(), name, sel) {
            vstd::seq_lib::to_multiset_build(fitting(cs.drop_last(), name, sel), cs.last());
        }
        assert(fitting(cs, name, sel).to_multiset() =~= cs.to_multiset().filter(f)) by {
            assert forall|v: CandidateModel| fitting(cs, name, sel).to_multiset().count(v) == cs.to_multiset().filter(f).count(v) by {
                assert(cs.to_multiset() == prev.insert(cs.last()));
            }
        }
    }
}

/// Device selection does not depend on the order in which the nodes were found:
/// the same nodes in any order give the same matches, so the same result.
pub proof fn selection_ignores_node_order(cs1: Seq<CandidateModel>, cs2: Seq<CandidateModel>, name: Seq<char>, sel: SelectorModel)
    requires
        cs1.to_multiset() == cs2.to_multiset(),
    ensures
        fitting(cs1, name, sel).to_multiset() == fitting(cs2, name, sel).to_multiset(),
        fitting(cs1, name, sel).len() == fitting(cs2, name, sel).len(),
        fitting(cs1, name, sel).len() == 1 ==> fitting(cs1, name, sel)[0] == fitting(cs2, name, sel)[0],
{
    broadcast use vstd::seq_lib::group_to_multiset_ensures;
    lemma_fitting_multiset(cs1, name, sel);
    lemma_fitting_multiset(cs2, name, sel);
    let f1 = fitting(cs1, name, sel);
    let f2 = fitting(cs2, name, sel);
    vstd::seq_lib::to_multiset_len(f1);
    vstd::seq_lib::to_multiset_len(f2);
    if f1.len() == 1 {
        vstd::seq_lib::to_multiset_contains(f1, f1[0]);
        assert(f1.contains(f1[0])) by {
            assert(f1[0] == f1[0]);
        }
        assert(f2.to_multiset().count(f1[0]) > 0);
        vstd::seq_lib::to_multiset_contains(f2, f1[0]);
        assert(f2.contains(f1[0]));
    }
}

/// The candidate's identity as selection sees it: its name and USB identity.
pub open spec fn same_identity(a: CandidateModel, b: CandidateModel) -> bool {
    a.name == b.name && a.usb == b.usb
}

/// Device selection does not depend on node numbers: nodes renamed (other paths
/// and sysnames, same name and USB identity) match at the same places.
pub proof fn selection_ignores_node_names(cs1: Seq<CandidateModel>, cs2: Seq<CandidateModel>, name: Seq<char>, sel: SelectorModel)
    requires
        cs1.len() == cs2.len(),
        forall|i: int| 0 <= i < cs1.len() ==> same_identity(#[trigger] cs1[i], cs2[i]),
    ensures
        fitting(cs1, name, sel).len() == fitting(cs2, name, sel).len(),
        forall|k: int| 0 <= k < fitting(cs1, name, sel).len() ==> same_identity(#[trigger] fitting(cs1, name, sel)[k], fitting(cs2, name, sel)[k]),
    decreases cs1.len(),
{
    if cs1.len() > 0 {
        assert(same_identity(cs1[cs1.len() - 1], cs2[cs2.len() - 1]));
        assert forall|i: int| 0 <= i < cs1.drop_last().len() implies same_identity(#[trigger] cs1.drop_last()[i], cs2.drop_last()[i]) by {
            assert(same_identity(cs1[i], cs2[i]));
        }
        selection_ignores_node_names(cs1.drop_last(), cs2.drop_last(), name, sel);
    }
}

} // verus!
