//! The remapping decisions of one grabbed device: which output a key event
//! produces, how combos are tapped, and when autofire starts and stops. The
//! caller performs the returned steps on the virtual keyboard.

use vstd::prelude::*;
use crate::config::{LoadedProfile, MappingEntry, MappingModel, mapping_view};
use crate::keycodes::KeyCode;

verus! {

/// How long a tapped key stays down, in milliseconds.
pub const TAP_DURATION_MS: u64 = 10;

/// The pause after each key of a combo, in milliseconds.
pub const COMBO_STEP_DELAY_MS: u64 = 5;

/// One key event for the virtual keyboard: 1 presses, 0 releases, 2 repeats.
#[derive(Clone, Copy, PartialEq, Eq, Debug)]
pub struct OutputEvent {
    pub code: KeyCode,
    pub value: i32,
}

/// One step of output: a batch of key events sent together (followed by a
/// synchronisation report), or a pause.
pub enum OutputStep {
    Emit(Vec<OutputEvent>),
    PauseMs(u64),
}

/// The abstract output step.
pub enum StepModel {
    Emit(Seq<OutputEvent>),
    PauseMs(u64),
}

impl View for OutputStep {
    type V = StepModel;

    open spec fn view(&self) -> StepModel {
        match self {
            OutputStep::Emit(events) => StepModel::Emit(events@),
            OutputStep::PauseMs(ms) => StepModel::PauseMs(*ms),
        }
    }
}

/// The abstract form of a list of output steps.
pub open spec fn steps_view(v: Seq<OutputStep>) -> Seq<StepModel> {
    v.map_values(|s: OutputStep| s@)
}

/// The same key event for each key, in order.
pub open spec fn key_events(keys: Seq<KeyCode>, value: i32) -> Seq<OutputEvent> {
    keys.map_values(|k: KeyCode| OutputEvent { code: k, value: value })
}

/// One key after the other: each key's event on its own, then a short pause.
pub open spec fn stepwise(keys: Seq<KeyCode>, value: i32) -> Seq<StepModel>
    decreases keys.len(),
{
    if keys.len() == 0 {
        Seq::empty()
    } else {
        stepwise(keys.drop_last(), value) + seq![
            StepModel::Emit(seq![OutputEvent { code: keys.last(), value: value }]),
            StepModel::PauseMs(COMBO_STEP_DELAY_MS),
        ]
    }
}

/// A tap of a combo: the keys pressed one by one in order, held for a moment,
/// then released one by one in reverse order.
pub open spec fn tap_steps(keys: Seq<KeyCode>) -> Seq<StepModel> {
    stepwise(keys, 1) + seq![StepModel::PauseMs(TAP_DURATION_MS)] + stepwise(keys.reverse(), 0)
}

fn events_for(keys: &[KeyCode], value: i32) -> (events: Vec<OutputEvent>)
    ensures
        events@ == key_events(keys@, value),
{
    let mut events: Vec<OutputEvent> = Vec::new();
    let mut i: usize = 0;
    while i < keys.len()
        invariant
            i <= keys@.len(),
            events@ == key_events(keys@.subrange(0, i as int), value),
        decreases keys@.len() - i,
    {
        events.push(OutputEvent { code: keys[i], value });
        i = i + 1;
        assert(events@ =~= key_events(keys@.subrange(0, i as int), value));
    }
    assert(keys@.subrange(0, keys@.len() as int) =~= keys@);
    events
}

fn reversed(keys: &[KeyCode]) -> (r: Vec<KeyCode>)
    ensures
        r@ == keys@.reverse(),
{
    let mut r: Vec<KeyCode> = Vec::new();
    let mut i = keys.len();
    while i > 0
        invariant
            i <= keys@.len(),
            r@ == keys@.subrange(i as int, keys@.len() as int).reverse(),
        decreases i,
    {
        i = i - 1;
        r.push(keys[i]);
        assert(r@ =~= keys@.subrange(i as int, keys@.len() as int).reverse());
    }
    assert(keys@.subrange(0, keys@.len() as int) =~= keys@);
    r
}

/// Sends a batch of events to the virtual keyboard in the given order.
pub fn emit_keys(keys: &[KeyCode], value: i32) -> (steps: Vec<OutputStep>)
    ensures
        steps_view(steps@) == seq![StepModel::Emit(key_events(keys@, value))],
{
    let events = events_for(keys, value);
    let steps = vec![OutputStep::Emit(events)];
    assert(steps_view(steps@) =~= seq![StepModel::Emit(key_events(keys@, value))]);
    steps
}

/// Sends one batch with the keys in reverse order, to preserve modifier semantics.
pub fn emit_keys_reverse(keys: &[KeyCode], value: i32) -> (steps: Vec<OutputStep>)
    ensures
        steps_view(steps@) == seq![StepModel::Emit(key_events(keys@.reverse(), value))],
{
    let r = reversed(keys);
    emit_keys(r.as_slice(), value)
}

/// Presses (or releases) keys one by one, with a short pause after each.
pub fn emit_keys_stepwise(keys: &[KeyCode], value: i32) -> (steps: Vec<OutputStep>)
    ensures
        steps_view(steps@) == stepwise(keys@, value),
{
    let mut steps: Vec<OutputStep> = Vec::new();
    let mut i: usize = 0;
    assert(keys@.subrange(0, 0) =~= Seq::<KeyCode>::empty());
    assert(steps_view(steps@) =~= Seq::<StepModel>::empty());
    while i < keys.len()
        invariant
            i <= keys@.len(),
            steps_view(steps@) == stepwise(keys@.subrange(0, i as int), value),
        decreases keys@.len() - i,
    {
        let ghost before = steps@;
        let ev = vec![OutputEvent { code: keys[i], value }];
        steps.push(OutputStep::Emit(ev));
        steps.push(OutputStep::PauseMs(COMBO_STEP_DELAY_MS));
        let ghost sub = keys@.subrange(0, i as int + 1);
        assert(sub.drop_last() =~= keys@.subrange(0, i as int));
        assert(sub.last() == keys@[i as int]);
        assert(ev@ =~= seq![OutputEvent { code: keys@[i as int], value: value }]);
        i = i + 1;
        assert(steps_view(steps@) =~= stepwise(sub.drop_last(), value) + seq![
            StepModel::Emit(seq![OutputEvent { code: sub.last(), value: value }]),
            StepModel::PauseMs(COMBO_STEP_DELAY_MS),
        ]);
    }
    assert(keys@.subrange(0, keys@.len() as int) =~= keys@);
    steps
}

/// Releases (or presses) keys one by one in the reverse order.
pub fn emit_keys_reverse_stepwise(keys: &[KeyCode], value: i32) -> (steps: Vec<OutputStep>)
    ensures
        steps_view(steps@) == stepwise(keys@.reverse(), value),
{
    let r = reversed(keys);
    emit_keys_stepwise(r.as_slice(), value)
}

/// Emits a combo as a short tap with ordered press and release steps.
/// This helps modifier combos behave like a deliberate chord on a real keyboard.
pub fn emit_key_tap(keys: &[KeyCode]) -> (steps: Vec<OutputStep>)
    ensures
        steps_view(steps@) == tap_steps(keys@),
{
    let mut steps = emit_keys_stepwise(keys, 1);
    let ghost press = steps_view(steps@);
    steps.push(OutputStep::PauseMs(TAP_DURATION_MS));
    let mut release = emit_keys_reverse_stepwise(keys, 0);
    let ghost rel = steps_view(release@);
    steps.append(&mut release);
    assert(steps_view(steps@) =~= press + seq![StepModel::PauseMs(TAP_DURATION_MS)] + rel);
    steps
}

} // verus!

verus! {

/// Why a key event could not be handled.
#[derive(Clone, Copy, PartialEq, Eq, Debug)]
pub enum RemapError {
    /// A key value other than release (0), press (1) or repeat (2).
    UnsupportedKeyValue(i32),
    /// The same, on a key with autofire.
    UnsupportedAutofireValue(i32),
}

/// What the caller does for one key event.
pub enum RemapAction {
    /// Nothing.
    Ignore,
    /// Perform these steps now, in order.
    Run(Vec<OutputStep>),
    /// Start tapping `outputs` every `fire_ms` milliseconds until told to stop.
    StartAutofire { source: KeyCode, outputs: Vec<KeyCode>, fire_ms: u64 },
    /// Stop the autofire started for `source`.
    StopAutofire { source: KeyCode },
}

/// The abstract action.
pub enum ActionModel {
    Ignore,
    Run(Seq<StepModel>),
    StartAutofire { source: KeyCode, outputs: Seq<KeyCode>, fire_ms: u64 },
    StopAutofire { source: KeyCode },
}

impl View for RemapAction {
    type V = ActionModel;

    open spec fn view(&self) -> ActionModel {
        match self {
            RemapAction::Ignore => ActionModel::Ignore,
            RemapAction::Run(steps) => ActionModel::Run(steps_view(steps@)),
            RemapAction::StartAutofire { source, outputs, fire_ms } => ActionModel::StartAutofire {
                source: *source,
                outputs: outputs@,
                fire_ms: *fire_ms,
            },
            RemapAction::StopAutofire { source } => ActionModel::StopAutofire { source: *source },
        }
    }
}

/// The output of a key without autofire. A combo (several outputs) is tapped on
/// press and ignores release and repeat; a single output follows the source key:
/// press, repeat, and release (in reverse order). `None` for any other value.
pub open spec fn binding_outcome(outputs: Seq<KeyCode>, value: i32) -> Option<Seq<StepModel>> {
    if outputs.len() > 1 {
        if value == 1 {
            Some(tap_steps(outputs))
        } else if value == 0 || value == 2 {
            Some(Seq::empty())
        } else {
            None
        }
    } else if value == 0 {
        Some(seq![StepModel::Emit(key_events(outputs.reverse(), 0))])
    } else if value == 1 {
        Some(seq![StepModel::Emit(key_events(outputs, 1))])
    } else if value == 2 {
        Some(seq![StepModel::Emit(key_events(outputs, 2))])
    } else {
        None
    }
}

/// The key events a binding sends for one event of its source key: a combo
/// (several outputs) is tapped on press, its outputs pressed in the configured
/// order and then released in reverse order, and sends nothing on release or
/// repeat; a single output follows the source key.
pub open spec fn binding_events(outputs: Seq<KeyCode>, value: i32) -> Seq<OutputEvent> {
    if outputs.len() > 1 {
        if value == 1 {
            key_events(outputs, 1) + key_events(outputs.reverse(), 0)
        } else {
            Seq::empty()
        }
    } else {
        key_events(outputs, value)
    }
}

/// What a binding sends, in order, for each event of its source key: a combo
/// sends on press the presses of its outputs in the configured order, then
/// their releases in reverse order, and nothing on release or repeat; a single
/// output is pressed, repeated and released with the source key. Any other
/// key value is refused.
pub proof fn bindings_send_what_they_promise(outputs: Seq<KeyCode>, value: i32)
    ensures
        (value == 0 || value == 1 || value == 2) <==> binding_outcome(outputs, value) is Some,
        binding_outcome(outputs, value) matches Some(steps) ==> emitted(steps) == binding_events(outputs, value),
        outputs.len() > 1 && value == 1 ==> binding_events(outputs, value).len() == 2 * outputs.len() && forall|k: int|
            0 <= k < outputs.len() ==> #[trigger] binding_events(outputs, value)[k] == (OutputEvent { code: outputs[k], value: 1 })
                && binding_events(outputs, value)[outputs.len() + k] == (OutputEvent {
                code: outputs[outputs.len() - 1 - k],
                value: 0,
            }),
        outputs.len() <= 1 ==> binding_events(outputs, value) == outputs.map_values(
            |k: KeyCode| OutputEvent { code: k, value: value },
        ),
{
    if outputs.len() > 1 {
        if value == 1 {
            tap_presses_then_releases_in_reverse(outputs);
        } else if value == 0 || value == 2 {
            reveal_with_fuel(emitted, 1);
        }
    } else if value == 0 || value == 1 || value == 2 {
        lemma_emit_one_step(key_events(outputs.reverse(), 0));
        lemma_emit_one_step(key_events(outputs, value));
        if value == 0 {
            assert(outputs.reverse() =~= outputs);
        }
    }
}

/// The decision for a key with autofire, and the set of sources whose autofire
/// runs afterwards. A press starts autofire unless it already runs; a release stops
/// it if it runs; a repeat changes nothing (autofire owns the timing).
pub open spec fn autofire_outcome(
    active: Set<KeyCode>,
    source: KeyCode,
    outputs: Seq<KeyCode>,
    fire_ms: u64,
    value: i32,
) -> (Result<ActionModel, RemapError>, Set<KeyCode>) {
    if value == 1 {
        if active.contains(source) {
            (Ok(ActionModel::Ignore), active)
        } else {
            (Ok(ActionModel::StartAutofire { source, outputs, fire_ms }), active.insert(source))
        }
    } else if value == 0 {
        if active.contains(source) {
            (Ok(ActionModel::StopAutofire { source }), active.remove(source))
        } else {
            (Ok(ActionModel::Ignore), active)
        }
    } else if value == 2 {
        (Ok(ActionModel::Ignore), active)
    } else {
        (Err(RemapError::UnsupportedAutofireValue(value)), active)
    }
}

/// The binding of a source key: the last mapping entry for it (a later entry
/// replaces an earlier one for the same key).
pub open spec fn binding_for(entries: Seq<MappingModel>, code: KeyCode) -> Option<MappingModel>
    decreases entries.len(),
{
    if entries.len() == 0 {
        None
    } else if entries.last().input == code {
        Some(entries.last())
    } else {
        binding_for(entries.drop_last(), code)
    }
}

/// The decision for one key event of a grabbed device and the autofire sources
/// afterwards: unmapped keys are ignored; mapped keys follow their binding.
pub open spec fn remap_outcome(
    entries: Seq<MappingModel>,
    active: Set<KeyCode>,
    code: KeyCode,
    value: i32,
) -> (Result<ActionModel, RemapError>, Set<KeyCode>) {
    match binding_for(entries, code) {
        None => (Ok(ActionModel::Ignore), active),
        Some(b) => match b.fire_ms {
            Some(ms) => autofire_outcome(active, code, b.outputs, ms, value),
            None => (
                match binding_outcome(b.outputs, value) {
                    Some(steps) => Ok(ActionModel::Run(steps)),
                    None => Err(RemapError::UnsupportedKeyValue(value)),
                },
                active,
            ),
        },
    }
}

/// Forwards a simple press or emits a full combo depending on the mapping.
/// Combo mappings are emitted as taps, so release and repeat are ignored.
pub fn handle_binding_event(outputs: &[KeyCode], value: i32) -> (res: Result<Vec<OutputStep>, RemapError>)
    ensures
        match res {
            Ok(steps) => binding_outcome(outputs@, value) == Some(steps_view(steps@)),
            Err(e) => binding_outcome(outputs@, value).is_none() && e == RemapError::UnsupportedKeyValue(value),
        },
        res is Ok <==> (value == 0 || value == 1 || value == 2),
        res matches Ok(steps) ==> emitted(steps_view(steps@)) == binding_events(outputs@, value),
{
    proof {
        bindings_send_what_they_promise(outputs@, value);
    }
    if outputs.len() > 1 {
        return match value {
            1 => Ok(emit_key_tap(outputs)),
            0 | 2 => {
                let none: Vec<OutputStep> = Vec::new();
                assert(steps_view(none@) =~= Seq::<StepModel>::empty());
                Ok(none)
            },
            other => Err(RemapError::UnsupportedKeyValue(other)),
        };
    }
    match value {
        0 => Ok(emit_keys_reverse(outputs, 0)),
        1 => Ok(emit_keys(outputs, 1)),
        2 => Ok(emit_keys(outputs, 2)),
        other => Err(RemapError::UnsupportedKeyValue(other)),
    }
}

fn copy_keys(keys: &[KeyCode]) -> (c: Vec<KeyCode>)
    ensures
        c@ == keys@,
{
    let mut c: Vec<KeyCode> = Vec::new();
    let mut i: usize = 0;
    while i < keys.len()
        invariant
            i <= keys@.len(),
            c@ == keys@.subrange(0, i as int),
        decreases keys@.len() - i,
    {
        c.push(keys[i]);
        i = i + 1;
        assert(c@ =~= keys@.subrange(0, i as int));
    }
    assert(keys@.subrange(0, keys@.len() as int) =~= keys@);
    c
}

fn position_of(v: &Vec<KeyCode>, x: KeyCode) -> (p: Option<usize>)
    ensures
        match p {
            Some(i) => i < v.len() && v@[i as int] == x,
            None => !v@.contains(x),
        },
{
    let mut i: usize = 0;
    while i < v.len()
        invariant
            i <= v.len(),
            forall|j: int| 0 <= j < i ==> v@[j] != x,
        decreases v.len() - i,
    {
        if v[i] == x {
            return Some(i);
        }
        i = i + 1;
    }
    None
}

/// Starts and stops autofire while the source key stays pressed. `active` holds
/// the sources whose autofire runs, each once.
pub fn handle_autofire_event(
    active: &mut Vec<KeyCode>,
    source: KeyCode,
    outputs: &[KeyCode],
    fire_ms: u64,
    value: i32,
) -> (res: Result<RemapAction, RemapError>)
    requires
        old(active)@.no_duplicates(),
    ensures
        final(active)@.no_duplicates(),
        ({
            let (outcome, after) = autofire_outcome(old(active)@.to_set(), source, outputs@, fire_ms, value);
            &&& final(active)@.to_set() == after
            &&& match res {
                Ok(a) => outcome == Ok::<ActionModel, RemapError>(a@),
                Err(e) => outcome == Err::<ActionModel, RemapError>(e),
            }
        }),
{
    let ghost before = active@;
    match value {
        1 => {
            match position_of(active, source) {
                Some(_) => Ok(RemapAction::Ignore),
                None => {
                    active.push(source);
                    proof {
                        assert(active@.to_set() =~= before.to_set().insert(source)) by {
                            assert forall|k: KeyCode| active@.contains(k) <==> (before.contains(k) || k == source) by {
                                if active@.contains(k) {
                                    let j = choose|j: int| 0 <= j < active@.len() && active@[j] == k;
                                    if j < before.len() {
                                        assert(before[j] == k);
                                    }
                                }
                                if before.contains(k) {
                                    let j = choose|j: int| 0 <= j < before.len() && before[j] == k;
                                    assert(active@[j] == k);
                                }
                                if k == source {
                                    assert(active@[before.len() as int] == k);
                                }
                            }
                        }
                    }
                    Ok(RemapAction::StartAutofire { source, outputs: copy_keys(outputs), fire_ms })
                },
            }
        },
        0 => {
            match position_of(active, source) {
                Some(i) => {
                    active.remove(i);
                    proof {
                        assert(before.to_set().contains(source)) by {
                            assert(before[i as int] == source);
                        }
                        assert forall|a: int, b: int| 0 <= a < b < active@.len() implies active@[a] != active@[b] by {
                            let oa = if a < i { a } else { a + 1 };
                            let ob = if b < i { b } else { b + 1 };
                            assert(active@[a] == before[oa] && active@[b] == before[ob]);
                        }
                        assert(active@.to_set() =~= before.to_set().remove(source)) by {
                            assert forall|k: KeyCode| active@.contains(k) <==> (before.contains(k) && k != source) by {
                                if active@.contains(k) {
                                    let j = choose|j: int| 0 <= j < active@.len() && active@[j] == k;
                                    let oj = if j < i { j } else { j + 1 };
                                    assert(before[oj] == k);
                                    assert(oj != i);
                                }
                                if before.contains(k) && k != source {
                                    let j = choose|j: int| 0 <= j < before.len() && before[j] == k;
                                    assert(j != i);
                                    let nj = if j < i { j } else { j - 1 };
                                    assert(active@[nj] == k);
                                }
                            }
                        }
                    }
                    Ok(RemapAction::StopAutofire { source })
                },
                None => Ok(RemapAction::Ignore),
            }
        },
        2 => Ok(RemapAction::Ignore),
        other => Err(RemapError::UnsupportedAutofireValue(other)),
    }
}

} // verus!

verus! {

/// The remapping state of one grabbed device: its mapping, and the source keys
/// whose autofire currently runs.
pub struct DeviceRemapper {
    mapping: Vec<MappingEntry>,
    autofire: Vec<KeyCode>,
}

fn find_binding(mapping: &Vec<MappingEntry>, code: KeyCode) -> (found: Option<usize>)
    ensures
        match found {
            Some(k) => k < mapping.len() && binding_for(mapping_view(mapping@), code) == Some(mapping@[k as int]@),
            None => binding_for(mapping_view(mapping@), code).is_none(),
        },
{
    let ghost all = mapping_view(mapping@);
    let mut k = mapping.len();
    assert(all.subrange(0, k as int) =~= all);
    while k > 0
        invariant
            k <= mapping.len(),
            all == mapping_view(mapping@),
            binding_for(all, code) == binding_for(all.subrange(0, k as int), code),
        decreases k,
    {
        let ghost sub = all.subrange(0, k as int);
        assert(sub.last() == mapping@[k - 1]@);
        if mapping[k - 1].input == code {
            return Some(k - 1);
        }
        assert(sub.drop_last() =~= all.subrange(0, k - 1));
        k = k - 1;
    }
    None
}

impl DeviceRemapper {
    /// The state is consistent: each autofire source is recorded once.
    pub closed spec fn wf(&self) -> bool {
        self.autofire@.no_duplicates()
    }

    /// The mapping entries of the device.
    pub closed spec fn bindings(&self) -> Seq<MappingModel> {
        mapping_view(self.mapping@)
    }

    /// The source keys whose autofire runs.
    pub closed spec fn active(&self) -> Set<KeyCode> {
        self.autofire@.to_set()
    }

    /// A device with the given mapping and no autofire running.
    pub fn new(mapping: Vec<MappingEntry>) -> (r: Self)
        ensures
            r.wf(),
            r.bindings() == mapping_view(mapping@),
            r.active() == Set::<KeyCode>::empty(),
    {
        let r = DeviceRemapper { mapping, autofire: Vec::new() };
        assert(r.autofire@.to_set() =~= Set::<KeyCode>::empty());
        r
    }

    /// Whether autofire runs for `source`.
    pub fn autofire_running(&self, source: KeyCode) -> (yes: bool)
        ensures
            yes == self.active().contains(source),
    {
        position_of(&self.autofire, source).is_some()
    }

    /// Decides what one key event of the grabbed device produces, and records
    /// the autofire that starts or stops.
    pub fn process_key_event(&mut self, code: KeyCode, value: i32) -> (res: Result<RemapAction, RemapError>)
        requires
            old(self).wf(),
        ensures
            final(self).wf(),
            final(self).bindings() == old(self).bindings(),
            ({
                let (outcome, after) = remap_outcome(old(self).bindings(), old(self).active(), code, value);
                &&& final(self).active() == after
                &&& match res {
                    Ok(a) => outcome == Ok::<ActionModel, RemapError>(a@),
                    Err(e) => outcome == Err::<ActionModel, RemapError>(e),
                }
            }),
    {
        match find_binding(&self.mapping, code) {
            None => Ok(RemapAction::Ignore),
            Some(k) => {
                let entry = &self.mapping[k];
                match entry.fire_ms {
                    Some(ms) => handle_autofire_event(&mut self.autofire, code, entry.outputs.as_slice(), ms, value),
                    None => match handle_binding_event(entry.outputs.as_slice(), value) {
                        Ok(steps) => Ok(RemapAction::Run(steps)),
                        Err(e) => Err(e),
                    },
                }
            },
        }
    }
}

/// One round of an autofire worker: a tap of the outputs, then the autofire period.
pub open spec fn autofire_round(outputs: Seq<KeyCode>, fire_ms: u64) -> Seq<StepModel> {
    tap_steps(outputs) + seq![StepModel::PauseMs(fire_ms)]
}

/// The steps an autofire worker repeats until it is stopped.
pub fn autofire_round_steps(outputs: &[KeyCode], fire_ms: u64) -> (steps: Vec<OutputStep>)
    ensures
        steps_view(steps@) == autofire_round(outputs@, fire_ms),
{
    let mut steps = emit_key_tap(outputs);
    let ghost tap = steps_view(steps@);
    steps.push(OutputStep::PauseMs(fire_ms));
    assert(steps_view(steps@) =~= tap + seq![StepModel::PauseMs(fire_ms)]);
    steps
}

} // verus!

verus! {

/// Every key that some mapping entry outputs.
pub open spec fn mapping_outputs(entries: Seq<MappingModel>) -> Set<KeyCode> {
    Set::new(|k: KeyCode| exists|i: int| 0 <= i < entries.len() && entries[i].outputs.contains(k))
}

/// Every key that some device of a profile outputs.
pub open spec fn profile_outputs(devices: Seq<crate::config::DeviceModel>) -> Set<KeyCode> {
    Set::new(|k: KeyCode| exists|d: int| 0 <= d < devices.len() && mapping_outputs(devices[d].mapping).contains(k))
}

fn add_keys(keys: &mut Vec<KeyCode>, more: &[KeyCode])
    requires
        old(keys)@.no_duplicates(),
    ensures
        final(keys)@.no_duplicates(),
        final(keys)@.to_set() == old(keys)@.to_set().union(more@.to_set()),
{
    let ghost start = keys@.to_set();
    let mut i: usize = 0;
    while i < more.len()
        invariant
            i <= more@.len(),
            keys@.no_duplicates(),
            keys@.to_set() == start.union(more@.subrange(0, i as int).to_set()),
        decreases more@.len() - i,
    {
        let k = more[i];
        let ghost before = keys@;
        if position_of(keys, k).is_none() {
            keys.push(k);
            assert(keys@.to_set() =~= before.to_set().insert(k)) by {
                assert forall|x: KeyCode| keys@.contains(x) <==> (before.contains(x) || x == k) by {
                    if keys@.contains(x) {
                        let j = choose|j: int| 0 <= j < keys@.len() && keys@[j] == x;
                        if j < before.len() {
                            assert(before[j] == x);
                        }
                    }
                    if before.contains(x) {
                        let j = choose|j: int| 0 <= j < before.len() && before[j] == x;
                        assert(keys@[j] == x);
                    }
                    if x == k {
                        assert(keys@[before.len() as int] == x);
                    }
                }
            }
        }
        assert(more@.subrange(0, i as int + 1).to_set() =~= more@.subrange(0, i as int).to_set().insert(k)) by {
            let s1 = more@.subrange(0, i as int + 1);
            let s0 = more@.subrange(0, i as int);
            assert forall|x: KeyCode| s1.contains(x) <==> (s0.contains(x) || x == k) by {
                if s1.contains(x) {
                    let j = choose|j: int| 0 <= j < s1.len() && s1[j] == x;
                    if j < s0.len() {
                        assert(s0[j] == x);
                    }
                }
                if s0.contains(x) {
                    let j = choose|j: int| 0 <= j < s0.len() && s0[j] == x;
                    assert(s1[j] == x);
                }
                if x == k {
                    assert(s1[i as int] == x);
                }
            }
        }
        i = i + 1;
        assert(keys@.to_set() =~= start.union(more@.subrange(0, i as int).to_set()));
    }
    assert(more@.subrange(0, more@.len() as int) =~= more@);
}

/// The keys the virtual keyboard must offer: the union of all configured
/// outputs, each listed once.
pub fn virtual_keyboard_keys(profile: &LoadedProfile) -> (keys: Vec<KeyCode>)
    ensures
        keys@.no_duplicates(),
        keys@.to_set() == profile_outputs(crate::config::devices_view(profile.devices@)),
{
    let ghost devs = crate::config::devices_view(profile.devices@);
    let mut keys: Vec<KeyCode> = Vec::new();
    let mut d: usize = 0;
    assert(keys@.to_set() =~= profile_outputs(devs.subrange(0, 0)));
    while d < profile.devices.len()
        invariant
            d <= profile.devices.len(),
            devs == crate::config::devices_view(profile.devices@),
            keys@.no_duplicates(),
            keys@.to_set() == profile_outputs(devs.subrange(0, d as int)),
        decreases profile.devices.len() - d,
    {
        let device = &profile.devices[d];
        let ghost at_device = keys@.to_set();
        let mut e: usize = 0;
        let ghost entries = mapping_view(device.mapping@);
        assert(at_device.union(mapping_outputs(entries.subrange(0, 0))) =~= at_device);
        while e < device.mapping.len()
            invariant
                e <= device.mapping.len(),
                entries == mapping_view(device.mapping@),
                keys@.no_duplicates(),
                keys@.to_set() == at_device.union(mapping_outputs(entries.subrange(0, e as int))),
            decreases device.mapping.len() - e,
        {
            add_keys(&mut keys, device.mapping[e].outputs.as_slice());
            proof {
                let s1 = entries.subrange(0, e as int + 1);
                let s0 = entries.subrange(0, e as int);
                let outs = device.mapping@[e as int].outputs@;
                assert(s1[e as int] == device.mapping@[e as int]@);
                assert(mapping_outputs(s1) =~= mapping_outputs(s0).union(outs.to_set())) by {
                    assert forall|x: KeyCode| mapping_outputs(s1).contains(x) <==> (mapping_outputs(s0).contains(x) || outs.contains(x)) by {
                        if mapping_outputs(s1).contains(x) {
                            let i = choose|i: int| 0 <= i < s1.len() && s1[i].outputs.contains(x);
                            if i < s0.len() {
                                assert(s0[i] == s1[i]);
                            }
                        }
                        if mapping_outputs(s0).contains(x) {
                            let i = choose|i: int| 0 <= i < s0.len() && s0[i].outputs.contains(x);
                            assert(s0[i] == s1[i]);
                        }
                    }
                }
            }
            e = e + 1;
            assert(keys@.to_set() =~= at_device.union(mapping_outputs(entries.subrange(0, e as int))));
        }
        proof {
            assert(entries.subrange(0, entries.len() as int) =~= entries);
            let t1 = devs.subrange(0, d as int + 1);
            let t0 = devs.subrange(0, d as int);
            assert(t1[d as int] == device@);
            assert(profile_outputs(t1) =~= profile_outputs(t0).union(mapping_outputs(entries))) by {
                assert forall|x: KeyCode| profile_outputs(t1).contains(x) <==> (profile_outputs(t0).contains(x) || mapping_outputs(entries).contains(x)) by {
                    if profile_outputs(t1).contains(x) {
                        let i = choose|i: int| 0 <= i < t1.len() && mapping_outputs(t1[i].mapping).contains(x);
                        if i < t0.len() {
                            assert(t0[i] == t1[i]);
                        }
                    }
                    if profile_outputs(t0).contains(x) {
                        let i = choose|i: int| 0 <= i < t0.len() && mapping_outputs(t0[i].mapping).contains(x);
                        assert(t0[i] == t1[i]);
                    }
                }
            }
        }
        d = d + 1;
    }
    assert(devs.subrange(0, devs.len() as int) =~= devs);
    keys
}

} // verus!

verus! {

/// The path that stands in the usage text and is no real device.
pub open spec fn placeholder_path() -> Seq<char> {
    "/dev/input/eventX"@
}

/// Why a device path given on the command line is not used.
pub enum DevicePathError {
    /// The placeholder from the usage text was given; `command` is the subcommand.
    Placeholder { command: String },
    /// No file exists at `path`.
    Missing { path: String },
}

/// Rejects placeholder or missing paths before later code fails less clearly.
/// `exists` tells whether a file exists at `path`. The placeholder is recognised
/// as a path (component by component), so `/dev/input//eventX` is it too.
pub fn validate_input_device_path(path: &str, command: &str, exists: bool) -> (res: Result<String, DevicePathError>)
    ensures
        match res {
            Ok(p) => crate::paths::path_order(path@, placeholder_path()) != 0 && exists && p@ == path@,
            Err(DevicePathError::Placeholder { command: c }) => crate::paths::path_order(path@, placeholder_path()) == 0 && c@ == command@,
            Err(DevicePathError::Missing { path: p }) => crate::paths::path_order(path@, placeholder_path()) != 0 && !exists && p@ == path@,
        },
{
    let placeholder = "/dev/input/eventX";
    if crate::paths::compare_paths(path, placeholder) == 0 {
        return Err(DevicePathError::Placeholder { command: command.to_string() });
    }
    if !exists {
        return Err(DevicePathError::Missing { path: path.to_string() });
    }
    Ok(path.to_string())
}

/// What the key code reader does with one key event.
#[derive(Clone, Copy, PartialEq, Eq, Debug)]
pub enum ReaderStep {
    /// Not a press: nothing is shown.
    Skip,
    /// Show the pressed key.
    Show(KeyCode),
    /// `KEY_ESC` was pressed on a grabbed device: stop reading.
    Quit,
}

/// Shows key codes on key press and ends on `KEY_ESC` when the device is grabbed.
pub fn keycode_reader_step(grab: bool, code: KeyCode, value: i32) -> (step: ReaderStep)
    ensures
        step == if value != 1 {
            ReaderStep::Skip
        } else if grab && code == 1 {
            ReaderStep::Quit
        } else {
            ReaderStep::Show(code)
        },
{
    if value != 1 {
        return ReaderStep::Skip;
    }
    if grab && code == crate::keycodes::escape_key() {
        ReaderStep::Quit
    } else {
        ReaderStep::Show(code)
    }
}

} // verus!

verus! {

impl RemapError {
    /// The message shown for this error.
    pub fn message(&self) -> (m: String)
        ensures
            m@ == match self {
                RemapError::UnsupportedKeyValue(v) => "unsupported key value: "@ + crate::text::signed_decimal(*v as int),
                RemapError::UnsupportedAutofireValue(v) => "unsupported key value for autofire: "@
                    + crate::text::signed_decimal(*v as int),
            },
    {
        match self {
            RemapError::UnsupportedKeyValue(v) => {
                let mut m = "unsupported key value: ".to_string();
                crate::format::append_signed(&mut m, *v);
                m
            },
            RemapError::UnsupportedAutofireValue(v) => {
                let mut m = "unsupported key value for autofire: ".to_string();
                crate::format::append_signed(&mut m, *v);
                m
            },
        }
    }
}

impl DevicePathError {
    /// The message shown for this error.
    pub fn message(&self) -> (m: String)
        ensures
            m@ == match self {
                DevicePathError::Placeholder { command } =>
                    "replace /dev/input/eventX with a real device path, for example: cargo run -- "@ + command@
                    + " /dev/input/event29"@,
                DevicePathError::Missing { path } => "input device "@ + path@
                    + " does not exist; run `cargo run -- inspect` first and choose a real /dev/input/eventN path"@,
            },
    {
        match self {
            DevicePathError::Placeholder { command } => {
                let mut m = "replace /dev/input/eventX with a real device path, for example: cargo run -- ".to_string();
                m.append(command.as_str());
                m.append(" /dev/input/event29");
                m
            },
            DevicePathError::Missing { path } => {
                let mut m = "input device ".to_string();
                m.append(path.as_str());
                m.append(" does not exist; run `cargo run -- inspect` first and choose a real /dev/input/eventN path");
                m
            },
        }
    }
}

} // verus!

verus! {

/// The key events that some steps send, in order (pauses send none).
pub open spec fn emitted(steps: Seq<StepModel>) -> Seq<OutputEvent>
    decreases steps.len(),
{
    if steps.len() == 0 {
        Seq::empty()
    } else {
        emitted(steps.drop_last()) + match steps.last() {
            StepModel::Emit(events) => events,
            StepModel::PauseMs(_) => Seq::empty(),
        }
    }
}

proof fn lemma_emitted_append(a: Seq<StepModel>, b: Seq<StepModel>)
    ensures
        emitted(a + b) == emitted(a) + emitted(b),
    decreases b.len(),
{
    if b.len() == 0 {
        assert(a + b =~= a);
        assert(emitted(a) + emitted(b) =~= emitted(a));
    } else {
        lemma_emitted_append(a, b.drop_last());
        assert((a + b).drop_last() =~= a + b.drop_last());
        assert((a + b).last() == b.last());
        assert(emitted(a + b) =~= emitted(a) + emitted(b));
    }
}

/// One step that emits `e` emits exactly `e`.
proof fn lemma_emit_one_step(e: Seq<OutputEvent>)
    ensures
        emitted(seq![StepModel::Emit(e)]) == e,
{
    let s = seq![StepModel::Emit(e)];
    assert(s.drop_last() =~= Seq::<StepModel>::empty());
    assert(emitted(Seq::<StepModel>::empty()) == Seq::<OutputEvent>::empty());
    assert(s.last() == StepModel::Emit(e));
    assert(emitted(s) == emitted(s.drop_last()) + e);
    assert(Seq::<OutputEvent>::empty() + e =~= e);
}

proof fn lemma_stepwise_emits(keys: Seq<KeyCode>, value: i32)
    ensures
        emitted(stepwise(keys, value)) == key_events(keys, value),
    decreases keys.len(),
{
    if keys.len() > 0 {
        lemma_stepwise_emits(keys.drop_last(), value);
        let tail = seq![
            StepModel::Emit(seq![OutputEvent { code: keys.last(), value: value }]),
            StepModel::PauseMs(COMBO_STEP_DELAY_MS),
        ];
        lemma_emitted_append(stepwise(keys.drop_last(), value), tail);
        assert(tail.drop_last().drop_last() =~= Seq::<StepModel>::empty());
        reveal_with_fuel(emitted, 3);
        assert(emitted(tail) =~= seq![OutputEvent { code: keys.last(), value: value }]);
        assert(key_events(keys, value) =~= key_events(keys.drop_last(), value).push(OutputEvent { code: keys.last(), value: value }));
    }
}

/// A tap sends the presses of its keys in order and then their releases in
/// reverse order: every key it presses, it releases, the last pressed first.
pub proof fn tap_presses_then_releases_in_reverse(keys: Seq<KeyCode>)
    ensures
        emitted(tap_steps(keys)) == key_events(keys, 1) + key_events(keys.reverse(), 0),
        emitted(autofire_round(keys, 0)) == emitted(tap_steps(keys)),
{
    lemma_stepwise_emits(keys, 1);
    lemma_stepwise_emits(keys.reverse(), 0);
    let p = seq![StepModel::PauseMs(TAP_DURATION_MS)];
    lemma_emitted_append(stepwise(keys, 1), p);
    lemma_emitted_append(stepwise(keys, 1) + p, stepwise(keys.reverse(), 0));
    assert(p.drop_last() =~= Seq::<StepModel>::empty());
    reveal_with_fuel(emitted, 2);
    assert(emitted(p) =~= Seq::<OutputEvent>::empty());
    assert(emitted(tap_steps(keys)) =~= key_events(keys, 1) + key_events(keys.reverse(), 0));
    let q = seq![StepModel::PauseMs(0)];
    lemma_emitted_append(tap_steps(keys), q);
    assert(q.drop_last() =~= Seq::<StepModel>::empty());
    assert(emitted(q) =~= Seq::<OutputEvent>::empty());
    assert(emitted(autofire_round(keys, 0)) =~= emitted(tap_steps(keys)));
}

/// Pressing a key with autofire starts it once; releasing it stops it, and the
/// set of running autofires is as before. Pressing again while it runs changes
/// nothing.
pub proof fn autofire_press_release_round_trip(active: Set<KeyCode>, source: KeyCode, outputs: Seq<KeyCode>, fire_ms: u64)
    requires
        !active.contains(source),
    ensures
        ({
            let (pressed, during) = autofire_outcome(active, source, outputs, fire_ms, 1);
            let (again, still) = autofire_outcome(during, source, outputs, fire_ms, 1);
            let (released, after) = autofire_outcome(during, source, outputs, fire_ms, 0);
            &&& pressed == Ok::<ActionModel, RemapError>(ActionModel::StartAutofire { source, outputs, fire_ms })
            &&& again == Ok::<ActionModel, RemapError>(ActionModel::Ignore)
            &&& still == during
            &&& released == Ok::<ActionModel, RemapError>(ActionModel::StopAutofire { source })
            &&& after == active
        }),
{
    assert(active.insert(source).remove(source) =~= active);
}

/// Only presses and releases change which autofires run.
pub proof fn only_press_and_release_change_autofire(entries: Seq<MappingModel>, active: Set<KeyCode>, code: KeyCode, value: i32)
    requires
        value != 0 && value != 1,
    ensures
        remap_outcome(entries, active, code, value).1 == active,
{
}

proof fn lemma_binding_in_entries(entries: Seq<MappingModel>, code: KeyCode)
    ensures
        binding_for(entries, code) matches Some(b) ==> (exists|i: int| 0 <= i < entries.len() && entries[i] == b) && b.input == code,
    decreases entries.len(),
{
    if entries.len() > 0 {
        lemma_binding_in_entries(entries.drop_last(), code);
        if binding_for(entries, code) is Some && entries.last().input != code {
            let b = binding_for(entries, code)->Some_0;
            let i = choose|i: int| 0 <= i < entries.len() - 1 && entries.drop_last()[i] == b;
            assert(entries[i] == b);
        }
        if entries.last().input == code {
            assert(entries[entries.len() - 1] == entries.last());
        }
    }
}

/// Every key that the remapping of a profile device can send, at once or by
/// autofire, is one that the virtual keyboard built for the profile offers.
pub proof fn sent_keys_are_offered(devices: Seq<crate::config::DeviceModel>, d: int, active: Set<KeyCode>, code: KeyCode, value: i32)
    requires
        0 <= d < devices.len(),
    ensures
        match remap_outcome(devices[d].mapping, active, code, value).0 {
            Ok(ActionModel::Run(steps)) => forall|k: int| 0 <= k < emitted(steps).len() ==> profile_outputs(devices).contains(
                #[trigger] emitted(steps)[k].code,
            ),
            Ok(ActionModel::StartAutofire { source, outputs, fire_ms }) => forall|k: int| 0 <= k < outputs.len() ==> profile_outputs(
                devices,
            ).contains(#[trigger] outputs[k]),
            _ => true,
        },
{
    let entries = devices[d].mapping;
    lemma_binding_in_entries(entries, code);
    if let Some(b) = binding_for(entries, code) {
        let i = choose|i: int| 0 <= i < entries.len() && entries[i] == b;
        assert forall|x: KeyCode| b.outputs.contains(x) implies #[trigger] profile_outputs(devices).contains(x) by {
            assert(mapping_outputs(entries).contains(x));
        }
        if b.fire_ms is None {
            if let Some(steps) = binding_outcome(b.outputs, value) {
                let outs = b.outputs;
                assert forall|k: int| 0 <= k < emitted(steps).len() implies profile_outputs(devices).contains(#[trigger] emitted(steps)[k].code) by {
                    if outs.len() > 1 && value == 1 {
                        tap_presses_then_releases_in_reverse(outs);
                        let ev = emitted(steps);
                        let n = outs.len() as int;
                        if k < n {
                            assert(ev[k] == key_events(outs, 1)[k]);
                            assert(outs.contains(outs[k]));
                        } else {
                            assert(ev[k] == key_events(outs.reverse(), 0)[k - n]);
                            assert(outs.reverse()[k - n] == outs[n - 1 - (k - n)]);
                            assert(outs.contains(outs[n - 1 - (k - n)]));
                        }
                    } else if outs.len() > 1 {
                        assert(steps =~= Seq::<StepModel>::empty());
                    } else {
                        let evs = if value == 0 {
                            key_events(outs.reverse(), 0)
                        } else {
                            key_events(outs, value)
                        };
                        assert(steps == seq![StepModel::Emit(evs)]);
                        assert(steps.drop_last() =~= Seq::<StepModel>::empty());
                        reveal_with_fuel(emitted, 2);
                        assert(emitted(steps) =~= evs);
                        if value == 0 {
                            assert(outs.reverse()[k] == outs[outs.len() - 1 - k]);
                            assert(outs.contains(outs[outs.len() - 1 - k]));
                        } else {
                            assert(outs.contains(outs[k]));
                        }
                    }
                }
            }
        } else {
            assert forall|k: int| 0 <= k < b.outputs.len() implies profile_outputs(devices).contains(#[trigger] b.outputs[k]) by {
                assert(b.outputs.contains(b.outputs[k]));
            }
        }
    }
}

} // verus!
