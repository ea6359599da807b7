//! Attaching fibers to the ports of a panel: the planned fiber on each side of each port, the
//! slot being edited, the ports reset to the built state, the checks before saving and the
//! changes saved.

use vstd::prelude::*;
use std::collections::HashSet;
use crate::assoc::{has_key, lemma_push, lemma_update, lemma_value_at, to_map, unique_keys};
use vstd::string::StringExecFns;
use crate::connections::{
    used_port_text, CableEnd, FiberKeyInput, FiberOwnEnd, PlannedPanel, PlannedPort, PortUsageFragment, PortUsageInput,
    PortUsageUpdateAction, UsedEndPort,
};
use crate::ids::{PortSide, PortType};
use crate::text::{int_text, nat_text, opt_str, opt_view, push_int, push_nat};

verus! {

broadcast use vstd::std_specs::hash::group_hash_axioms;

/// A side of a port.
pub type SlotKey = (i32, PortSide);

/// What is planned on a side of a port.
#[derive(Clone, Copy, PartialEq, Eq, Structural, Debug)]
pub enum SlotState {
    Empty,
    Assigned(FiberKeyInput),
}

/// The slot being edited: the cable and bundle chosen so far.
#[derive(Clone)]
pub struct SlotEdit {
    pub port_id: i32,
    pub side: PortSide,
    pub cable: Option<CableEnd>,
    pub bundle: Option<i32>,
}

/// The fiber of a usage as a key.
pub open spec fn usage_state(u: Option<PortUsageFragment>) -> SlotState {
    match u {
        Some(usage) => match usage.fiber {
            Some(f) => SlotState::Assigned(FiberKeyInput { cable_id: f.cable.id, bundle: f.bundle, fiber: f.fiber }),
            None => SlotState::Empty,
        },
        None => SlotState::Empty,
    }
}

/// The fiber of a usage, if any, as a key.
pub open spec fn usage_key(u: Option<PortUsageFragment>) -> Option<FiberKeyInput> {
    match usage_state(u) {
        SlotState::Assigned(k) => Some(k),
        SlotState::Empty => None,
    }
}

/// The planned fibers of all sides of the ports (a later port with the same id wins).
pub open spec fn initial_slots(ports: Seq<PlannedPort>) -> Map<SlotKey, SlotState>
    decreases ports.len(),
{
    if ports.len() == 0 {
        Map::empty()
    } else {
        let p = ports.last();
        initial_slots(ports.drop_last()).insert((p.id, PortSide::FRONT), usage_state(p.front_usage)).insert(
            (p.id, PortSide::BACK),
            usage_state(p.back_usage),
        )
    }
}

fn state_of_usage(u: &Option<PortUsageFragment>) -> (r: SlotState)
    ensures
        r == usage_state(*u),
{
    match u {
        Some(usage) => match usage.fiber {
            Some(f) => SlotState::Assigned(FiberKeyInput { cable_id: f.cable.id, bundle: f.bundle, fiber: f.fiber }),
            None => SlotState::Empty,
        },
        None => SlotState::Empty,
    }
}

/// The index of the side `k`, if it has a state.
fn slot_index(slots: &Vec<(SlotKey, SlotState)>, k: SlotKey) -> (r: Option<usize>)
    ensures
        match r {
            Some(i) => i < slots@.len() && slots@[i as int].0 == k,
            None => !has_key(slots@, k),
        },
{
    let mut i: usize = 0;
    while i < slots.len()
        invariant
            i <= slots.len(),
            forall|j: int| 0 <= j < i ==> slots@[j].0 != k,
        decreases slots.len() - i,
    {
        if slots[i].0.0 == k.0 && slots[i].0.1 == k.1 {
            return Some(i);
        }
        i += 1;
    }
    None
}

/// Stores the state of side `k`.
fn slot_insert(slots: &mut Vec<(SlotKey, SlotState)>, k: SlotKey, v: SlotState)
    requires
        unique_keys(old(slots)@),
    ensures
        unique_keys(final(slots)@),
        to_map(final(slots)@) == to_map(old(slots)@).insert(k, v),
{
    match slot_index(slots, k) {
        Some(i) => {
            proof { lemma_update(slots@, i as int, v); }
            slots.set(i, (k, v));
        },
        None => {
            proof { lemma_push(slots@, k, v); }
            slots.push((k, v));
        },
    }
}

/// The state of side `k`, empty if it has none.
fn slot_get(slots: &Vec<(SlotKey, SlotState)>, k: SlotKey) -> (r: SlotState)
    requires
        unique_keys(slots@),
    ensures
        r == if to_map(slots@).contains_key(k) { to_map(slots@)[k] } else { SlotState::Empty },
{
    match slot_index(slots, k) {
        Some(i) => {
            proof { lemma_value_at(slots@, i as int); }
            slots[i].1
        },
        None => SlotState::Empty,
    }
}

/// The planned fiber of each side of each port.
pub fn calculate_current_states(data: &PlannedPanel) -> (r: Vec<(SlotKey, SlotState)>)
    ensures
        unique_keys(r@),
        to_map(r@) == initial_slots(data.ports@),
{
    let mut states: Vec<(SlotKey, SlotState)> = Vec::new();
    proof { assert(to_map(states@) =~= Map::<SlotKey, SlotState>::empty()); }
    let mut i: usize = 0;
    while i < data.ports.len()
        invariant
            i <= data.ports.len(),
            unique_keys(states@),
            to_map(states@) == initial_slots(data.ports@.subrange(0, i as int)),
        decreases data.ports.len() - i,
    {
        let port = &data.ports[i];
        let front = state_of_usage(&port.front_usage);
        slot_insert(&mut states, (port.id, PortSide::FRONT), front);
        let back = state_of_usage(&port.back_usage);
        slot_insert(&mut states, (port.id, PortSide::BACK), back);
        proof {
            let sub = data.ports@.subrange(0, i + 1);
            assert(sub.drop_last() == data.ports@.subrange(0, i as int));
            assert(sub.last() == data.ports@[i as int]);
        }
        i += 1;
    }
    assert(data.ports@.subrange(0, data.ports@.len() as int) == data.ports@);
    states
}

/// The state of the page attaching fibers to a panel's ports.
pub struct AttachFiber {
    current_situation: Option<PlannedPanel>,
    slot_states: Vec<(SlotKey, SlotState)>,
    edit_slot: Option<SlotEdit>,
    reset_ports: HashSet<i32>,
}

impl AttachFiber {
    /// Each side has one state at most.
    pub closed spec fn wf(&self) -> bool {
        unique_keys(self.slot_states@)
    }

    /// The panel and its ports, once loaded.
    pub closed spec fn situation(&self) -> Option<PlannedPanel> {
        self.current_situation
    }

    /// The planned state of each side shown.
    pub closed spec fn slots(&self) -> Map<SlotKey, SlotState> {
        to_map(self.slot_states@)
    }

    /// The slot being edited.
    pub closed spec fn edit(&self) -> Option<SlotEdit> {
        self.edit_slot
    }

    /// The ports to reset to the built state.
    pub closed spec fn resets(&self) -> Set<i32> {
        self.reset_ports@
    }

    /// Nothing loaded yet.
    pub fn new() -> (r: AttachFiber)
        ensures
            r.situation() is None,
            r.slots() == Map::<SlotKey, SlotState>::empty(),
            r.edit() is None,
            r.resets() == Set::<i32>::empty(),
            r.wf(),
    {
        let r = AttachFiber { current_situation: None, slot_states: Vec::new(), edit_slot: None, reset_ports: HashSet::new() };
        assert(to_map(r.slot_states@) =~= Map::<SlotKey, SlotState>::empty());
        r
    }

    pub fn current_situation(&self) -> (r: &Option<PlannedPanel>)
        ensures
            *r == self.situation(),
    {
        &self.current_situation
    }

    pub fn edit_slot(&self) -> (r: &Option<SlotEdit>)
        ensures
            *r == self.edit(),
    {
        &self.edit_slot
    }

    /// The planned state of a side, empty if it has none.
    pub fn slot_state(&self, port_id: i32, side: PortSide) -> (r: SlotState)
        requires
            self.wf(),
        ensures
            r == if self.slots().contains_key((port_id, side)) { self.slots()[(port_id, side)] } else { SlotState::Empty },
    {
        slot_get(&self.slot_states, (port_id, side))
    }

    /// Whether the port is reset to the built state.
    pub fn is_reset(&self, port_id: i32) -> (r: bool)
        ensures
            r == self.resets().contains(port_id),
    {
        self.reset_ports.contains(&port_id)
    }

    /// The panel arrived: every side shows its planned fiber, nothing is reset or edited.
    pub fn data_fetched(&mut self, data: PlannedPanel)
        requires
            old(self).wf(),
        ensures
            final(self).wf(),
            final(self).slots() == initial_slots(data.ports@),
            final(self).resets() == Set::<i32>::empty(),
            final(self).edit() is None,
            final(self).situation() == Some(data),
    {
        let states = calculate_current_states(&data);
        self.slot_states = states;
        self.reset_ports.clear();
        self.edit_slot = None;
        self.current_situation = Some(data);
    }

    /// Starts editing a side: no cable or bundle chosen yet.
    pub fn start_edit(&mut self, port_id: i32, side: PortSide)
        requires
            old(self).wf(),
        ensures
            final(self).wf(),
            final(self).edit() == Some(SlotEdit { port_id, side, cable: None, bundle: None }),
            final(self).slots() == old(self).slots(),
            final(self).resets() == old(self).resets(),
            final(self).situation() == old(self).situation(),
    {
        self.edit_slot = Some(SlotEdit { port_id, side, cable: None, bundle: None });
    }

    /// Chooses the cable of the edited slot, dropping the bundle chosen before.
    pub fn select_cable(&mut self, cable: CableEnd)
        requires
            old(self).wf(),
        ensures
            final(self).wf(),
            final(self).edit() == match old(self).edit() {
                Some(e) => Some(SlotEdit { cable: Some(cable), bundle: None, ..e }),
                None => None,
            },
            final(self).slots() == old(self).slots(),
            final(self).resets() == old(self).resets(),
            final(self).situation() == old(self).situation(),
    {
        match &mut self.edit_slot {
            Some(edit) => {
                edit.cable = Some(cable);
                edit.bundle = None;
            },
            None => {},
        }
    }

    /// Chooses the bundle of the edited slot.
    pub fn select_bundle(&mut self, bundle: i32)
        requires
            old(self).wf(),
        ensures
            final(self).wf(),
            final(self).edit() == match old(self).edit() {
                Some(e) => Some(SlotEdit { bundle: Some(bundle), ..e }),
                None => None,
            },
            final(self).slots() == old(self).slots(),
            final(self).resets() == old(self).resets(),
            final(self).situation() == old(self).situation(),
    {
        match &mut self.edit_slot {
            Some(edit) => {
                edit.bundle = Some(bundle);
            },
            None => {},
        }
    }

    /// Chooses the fiber: with a cable and a bundle chosen it is planned on the edited side,
    /// which is then no longer reset. The edit ends either way.
    pub fn select_fiber(&mut self, fiber: i32)
        requires
            old(self).wf(),
        ensures
            final(self).wf(),
            final(self).edit() is None,
            final(self).situation() == old(self).situation(),
            match old(self).edit() {
                Some(SlotEdit { port_id, side, cable: Some(c), bundle: Some(b) }) => {
                    &&& final(self).slots() == old(self).slots().insert(
                        (port_id, side),
                        SlotState::Assigned(FiberKeyInput { cable_id: c.cable.id, bundle: b, fiber }),
                    )
                    &&& final(self).resets() == old(self).resets().remove(port_id)
                },
                _ => final(self).slots() == old(self).slots() && final(self).resets() == old(self).resets(),
            },
    {
        let edit = self.edit_slot.take();
        match edit {
            Some(SlotEdit { port_id, side, cable: Some(cable), bundle: Some(bundle) }) => {
                let key = FiberKeyInput { cable_id: cable.cable.id, bundle, fiber };
                slot_insert(&mut self.slot_states, (port_id, side), SlotState::Assigned(key));
                self.reset_ports.remove(&port_id);
            },
            _ => {},
        }
    }

    /// Ends editing without a change.
    pub fn cancel_edit(&mut self)
        requires
            old(self).wf(),
        ensures
            final(self).wf(),
            final(self).edit() is None,
            final(self).slots() == old(self).slots(),
            final(self).resets() == old(self).resets(),
            final(self).situation() == old(self).situation(),
    {
        self.edit_slot = None;
    }

    /// Plans no fiber on a side; its port is no longer reset.
    pub fn clear_slot(&mut self, port_id: i32, side: PortSide)
        requires
            old(self).wf(),
        ensures
            final(self).wf(),
            final(self).slots() == old(self).slots().insert((port_id, side), SlotState::Empty),
            final(self).resets() == old(self).resets().remove(port_id),
            final(self).edit() == old(self).edit(),
            final(self).situation() == old(self).situation(),
    {
        slot_insert(&mut self.slot_states, (port_id, side), SlotState::Empty);
        self.reset_ports.remove(&port_id);
    }
}

/// The first port with this id.
pub open spec fn first_port(ports: Seq<PlannedPort>, id: i32) -> Option<PlannedPort>
    decreases ports.len(),
{
    if ports.len() == 0 {
        None
    } else if ports[0].id == id {
        Some(ports[0])
    } else {
        first_port(ports.drop_first(), id)
    }
}

/// The index of the first port with this id.
fn port_index(ports: &Vec<PlannedPort>, id: i32) -> (r: Option<usize>)
    ensures
        match r {
            Some(i) => i < ports@.len() && first_port(ports@, id) == Some(ports@[i as int]),
            None => first_port(ports@, id) is None,
        },
{
    let mut i: usize = 0;
    assert(ports@.subrange(0, ports@.len() as int) == ports@);
    while i < ports.len()
        invariant
            i <= ports.len(),
            first_port(ports@, id) == first_port(ports@.subrange(i as int, ports@.len() as int), id),
        decreases ports.len() - i,
    {
        let ghost rest = ports@.subrange(i as int, ports@.len() as int);
        assert(rest[0] == ports@[i as int]);
        if ports[i].id == id {
            return Some(i);
        }
        assert(rest.drop_first() =~= ports@.subrange(i + 1, ports@.len() as int));
        i += 1;
    }
    assert(ports@.subrange(i as int, ports@.len() as int) =~= Seq::<PlannedPort>::empty());
    None
}

/// The planned state of a side, empty if it has none.
pub open spec fn slot_or_empty(slots: Map<SlotKey, SlotState>, k: SlotKey) -> SlotState {
    if slots.contains_key(k) {
        slots[k]
    } else {
        SlotState::Empty
    }
}

/// The change for a side: attach a fiber planned anew, remove one no longer planned.
pub open spec fn side_change(slots: Map<SlotKey, SlotState>, port_id: i32, side: PortSide, initial: Option<FiberKeyInput>) -> Seq<PortUsageInput> {
    match slot_or_empty(slots, (port_id, side)) {
        SlotState::Assigned(k) => if Some(k) != initial {
            seq![PortUsageInput { port_id, side, fiber: PortUsageUpdateAction::Attach(k) }]
        } else {
            seq![]
        },
        SlotState::Empty => if initial is Some {
            seq![PortUsageInput { port_id, side, fiber: PortUsageUpdateAction::Remove(true) }]
        } else {
            seq![]
        },
    }
}

/// The changes for a port: none for a loop (the loop editor sets them), a reset of a reset
/// port, else the changes of its front and back.
pub open spec fn port_changes(slots: Map<SlotKey, SlotState>, resets: Set<i32>, p: PlannedPort) -> Seq<PortUsageInput> {
    if p.port_type == PortType::Loop {
        seq![]
    } else if resets.contains(p.id) {
        seq![PortUsageInput { port_id: p.id, side: PortSide::FRONT, fiber: PortUsageUpdateAction::Reset(true) }]
    } else {
        side_change(slots, p.id, PortSide::FRONT, usage_key(p.front_usage)) + side_change(slots, p.id, PortSide::BACK, usage_key(p.back_usage))
    }
}

/// The changes for all ports, in port order.
pub open spec fn save_changes(slots: Map<SlotKey, SlotState>, resets: Set<i32>, ports: Seq<PlannedPort>) -> Seq<PortUsageInput>
    decreases ports.len(),
{
    if ports.len() == 0 {
        seq![]
    } else {
        save_changes(slots, resets, ports.drop_last()) + port_changes(slots, resets, ports.last())
    }
}

/// Each change of a port is among the changes of all ports.
proof fn lemma_save_changes_contains(slots: Map<SlotKey, SlotState>, resets: Set<i32>, ports: Seq<PlannedPort>, i: int, x: PortUsageInput)
    requires
        0 <= i < ports.len(),
        port_changes(slots, resets, ports[i]).contains(x),
    ensures
        save_changes(slots, resets, ports).contains(x),
    decreases ports.len(),
{
    let rest = ports.drop_last();
    let before = save_changes(slots, resets, rest);
    let own = port_changes(slots, resets, ports.last());
    assert(save_changes(slots, resets, ports) == before + own);
    if i == ports.len() - 1 {
        let j = choose|j: int| 0 <= j < own.len() && own[j] == x;
        assert((before + own)[before.len() + j] == x);
    } else {
        assert(rest[i] == ports[i]);
        lemma_save_changes_contains(slots, resets, rest, i, x);
        let j = choose|j: int| 0 <= j < before.len() && before[j] == x;
        assert((before + own)[j] == x);
    }
}

/// The fiber key loaded for a side of the port.
pub open spec fn loaded_key(p: PlannedPort, side: PortSide) -> Option<FiberKeyInput> {
    match side {
        PortSide::FRONT => usage_key(p.front_usage),
        PortSide::BACK => usage_key(p.back_usage),
    }
}

/// A side of a port (neither a loop nor reset) that was loaded with a fiber and is planned
/// empty is saved as removed.
pub proof fn law_emptied_side_removed(slots: Map<SlotKey, SlotState>, resets: Set<i32>, ports: Seq<PlannedPort>, i: int, side: PortSide)
    requires
        0 <= i < ports.len(),
        ports[i].port_type != PortType::Loop,
        !resets.contains(ports[i].id),
        slot_or_empty(slots, (ports[i].id, side)) == SlotState::Empty,
        loaded_key(ports[i], side) is Some,
    ensures
        save_changes(slots, resets, ports).contains(
            PortUsageInput { port_id: ports[i].id, side, fiber: PortUsageUpdateAction::Remove(true) },
        ),
{
    let p = ports[i];
    let x = PortUsageInput { port_id: p.id, side, fiber: PortUsageUpdateAction::Remove(true) };
    let f = side_change(slots, p.id, PortSide::FRONT, usage_key(p.front_usage));
    let b = side_change(slots, p.id, PortSide::BACK, usage_key(p.back_usage));
    assert(port_changes(slots, resets, p) == f + b);
    match side {
        PortSide::FRONT => {
            assert((f + b)[0] == x);
        },
        PortSide::BACK => {
            assert((f + b)[f.len() as int] == x);
        },
    }
    lemma_save_changes_contains(slots, resets, ports, i, x);
}

/// A side of a port (neither a loop nor reset) planned on a fiber whose key differs from the one
/// loaded, in the cable, the bundle or the fiber number, is saved as attached to the new key; a
/// side planned on the key it was loaded with is not among the port's changes.
pub proof fn law_replanned_side_saved(
    slots: Map<SlotKey, SlotState>,
    resets: Set<i32>,
    ports: Seq<PlannedPort>,
    i: int,
    side: PortSide,
    k: FiberKeyInput,
)
    requires
        0 <= i < ports.len(),
        ports[i].port_type != PortType::Loop,
        !resets.contains(ports[i].id),
        slot_or_empty(slots, (ports[i].id, side)) == SlotState::Assigned(k),
    ensures
        loaded_key(ports[i], side) != Some(k) ==> save_changes(slots, resets, ports).contains(
            PortUsageInput { port_id: ports[i].id, side, fiber: PortUsageUpdateAction::Attach(k) },
        ),
        loaded_key(ports[i], side) == Some(k) ==> forall|j: int| 0 <= j < port_changes(slots, resets, ports[i]).len()
            ==> (#[trigger] port_changes(slots, resets, ports[i])[j]).side != side,
{
    let p = ports[i];
    let x = PortUsageInput { port_id: p.id, side, fiber: PortUsageUpdateAction::Attach(k) };
    let f = side_change(slots, p.id, PortSide::FRONT, usage_key(p.front_usage));
    let b = side_change(slots, p.id, PortSide::BACK, usage_key(p.back_usage));
    assert(port_changes(slots, resets, p) == f + b);
    if loaded_key(p, side) != Some(k) {
        match side {
            PortSide::FRONT => {
                assert((f + b)[0] == x);
            },
            PortSide::BACK => {
                assert((f + b)[f.len() as int] == x);
            },
        }
        lemma_save_changes_contains(slots, resets, ports, i, x);
    }
}

fn key_of_usage(u: &Option<PortUsageFragment>) -> (r: Option<FiberKeyInput>)
    ensures
        r == usage_key(*u),
{
    match state_of_usage(u) {
        SlotState::Assigned(k) => Some(k),
        SlotState::Empty => None,
    }
}

fn push_side_change(out: &mut Vec<PortUsageInput>, slots: &Vec<(SlotKey, SlotState)>, port_id: i32, side: PortSide, initial: Option<FiberKeyInput>)
    requires
        unique_keys(slots@),
    ensures
        final(out)@ == old(out)@ + side_change(to_map(slots@), port_id, side, initial),
{
    let desired = slot_get(slots, (port_id, side));
    match desired {
        SlotState::Assigned(new_key) => {
            let same = match initial {
                Some(k) => k.cable_id == new_key.cable_id && k.bundle == new_key.bundle && k.fiber == new_key.fiber,
                None => false,
            };
            if !same {
                out.push(PortUsageInput { port_id, side, fiber: PortUsageUpdateAction::Attach(new_key) });
            }
        },
        SlotState::Empty => {
            if initial.is_some() {
                out.push(PortUsageInput { port_id, side, fiber: PortUsageUpdateAction::Remove(true) });
            }
        },
    }
}

/// The error texts of the checks before saving.
pub open spec fn port_errors(slots: Map<SlotKey, SlotState>, p: PlannedPort) -> Seq<Seq<char>> {
    let front = slot_or_empty(slots, (p.id, PortSide::FRONT));
    let back = slot_or_empty(slots, (p.id, PortSide::BACK));
    let label = match p.label {
        Some(l) => l@,
        None => "Unbenannt"@,
    };
    match p.port_type {
        PortType::Splice => if (front == SlotState::Empty) != (back == SlotState::Empty) {
            seq!["Port "@ + label + ": Spleiss muss beidseitig belegt oder komplett leer sein."@]
        } else {
            seq![]
        },
        PortType::Connector => if front != SlotState::Empty && back == SlotState::Empty {
            seq!["Port "@ + label + ": Stecker benötigt zwingend eine Back-Belegung, wenn Front belegt ist."@]
        } else {
            seq![]
        },
        PortType::Loop => seq![],
    }
}

/// The error texts for all ports, in port order.
pub open spec fn validation_errors(slots: Map<SlotKey, SlotState>, ports: Seq<PlannedPort>) -> Seq<Seq<char>>
    decreases ports.len(),
{
    if ports.len() == 0 {
        seq![]
    } else {
        validation_errors(slots, ports.drop_last()) + port_errors(slots, ports.last())
    }
}

/// The texts of strings.
pub open spec fn string_texts(s: Seq<String>) -> Seq<Seq<char>> {
    s.map_values(|t: String| t@)
}

/// The map holds the pair.
pub open spec fn pair_in<K, V>(m: Map<K, V>, p: (K, V)) -> bool {
    m.contains_key(p.0) && m[p.0] == p.1
}

/// The map of `b` holds every pair of `a`, with the same value.
fn slots_within(a: &Vec<(SlotKey, SlotState)>, b: &Vec<(SlotKey, SlotState)>) -> (r: bool)
    requires
        unique_keys(a@),
        unique_keys(b@),
    ensures
        r == forall|k: SlotKey| #[trigger] to_map(a@).contains_key(k) ==> to_map(b@).contains_key(k) && to_map(b@)[k] == to_map(a@)[k],
{
    let mut i: usize = 0;
    while i < a.len()
        invariant
            i <= a.len(),
            unique_keys(a@),
            unique_keys(b@),
            forall|j: int| 0 <= j < i ==> pair_in(to_map(b@), #[trigger] a@[j]),
        decreases a.len() - i,
    {
        match slot_index(b, a[i].0) {
            Some(j) => {
                proof { lemma_value_at(b@, j as int); }
                if b[j].1 != a[i].1 {
                    proof { lemma_value_at(a@, i as int); }
                    return false;
                }
                assert(pair_in(to_map(b@), a@[i as int]));
            },
            None => {
                proof { lemma_value_at(a@, i as int); }
                return false;
            },
        }
        i += 1;
    }
    assert forall|k: SlotKey| #[trigger] to_map(a@).contains_key(k) implies to_map(b@).contains_key(k) && to_map(b@)[k] == to_map(a@)[k] by {
        let j = choose|j: int| 0 <= j < a@.len() && a@[j].0 == k;
        lemma_value_at(a@, j);
        assert(pair_in(to_map(b@), a@[j]));
    }
    true
}

/// Whether the two lists stand for the same map.
fn slots_equal(a: &Vec<(SlotKey, SlotState)>, b: &Vec<(SlotKey, SlotState)>) -> (r: bool)
    requires
        unique_keys(a@),
        unique_keys(b@),
    ensures
        r == (to_map(a@) == to_map(b@)),
{
    let ab = slots_within(a, b);
    let ba = slots_within(b, a);
    if ab && ba {
        assert(to_map(a@) =~= to_map(b@));
    }
    ab && ba
}

/// A planned fiber with this key somewhere.
pub open spec fn assigned(slots: Map<SlotKey, SlotState>, key: FiberKeyInput) -> bool {
    exists|k: SlotKey| slots.contains_key(k) && slots[k] == SlotState::Assigned(key)
}

/// Fibers neither used in the database nor planned on a port here.
pub open spec fn is_free(slots: Map<SlotKey, SlotState>, cable_id: i32) -> spec_fn(FiberOwnEnd) -> bool {
    |f: FiberOwnEnd| f.used_port is None && !assigned(slots, FiberKeyInput { cable_id, bundle: f.bundle, fiber: f.fiber })
}

/// The keys planned on some side.
fn assigned_keys(slots: &Vec<(SlotKey, SlotState)>) -> (r: Vec<FiberKeyInput>)
    requires
        unique_keys(slots@),
    ensures
        forall|key: FiberKeyInput| r@.contains(key) <==> assigned(to_map(slots@), key),
{
    let mut r: Vec<FiberKeyInput> = Vec::new();
    let mut i: usize = 0;
    while i < slots.len()
        invariant
            i <= slots.len(),
            unique_keys(slots@),
            forall|key: FiberKeyInput| r@.contains(key) <==> exists|j: int| 0 <= j < i && slots@[j].1 == SlotState::Assigned(key),
        decreases slots.len() - i,
    {
        let ghost before = r@;
        match slots[i].1 {
            SlotState::Assigned(k) => {
                r.push(k);
                proof {
                    assert forall|key: FiberKeyInput| r@.contains(key) <==> exists|j: int| 0 <= j < i + 1 && slots@[j].1 == SlotState::Assigned(key) by {
                        if r@.contains(key) && key != k {
                            let w = choose|w: int| 0 <= w < r@.len() && r@[w] == key;
                            assert(before[w] == key);
                        }
                        if key == k {
                            assert(r@[r@.len() - 1] == key);
                        } else if before.contains(key) {
                            let w = choose|w: int| 0 <= w < before.len() && before[w] == key;
                            assert(r@[w] == key);
                        }
                    }
                }
            },
            SlotState::Empty => {},
        }
        i += 1;
    }
    assert forall|key: FiberKeyInput| r@.contains(key) <==> assigned(to_map(slots@), key) by {
        if r@.contains(key) {
            let j = choose|j: int| 0 <= j < slots@.len() && slots@[j].1 == SlotState::Assigned(key);
            lemma_value_at(slots@, j);
        }
        if assigned(to_map(slots@), key) {
            let k = choose|k: SlotKey| to_map(slots@).contains_key(k) && to_map(slots@)[k] == SlotState::Assigned(key);
            let j = choose|j: int| 0 <= j < slots@.len() && slots@[j].0 == k;
            lemma_value_at(slots@, j);
        }
    }
    r
}

fn contains_key(keys: &Vec<FiberKeyInput>, key: FiberKeyInput) -> (r: bool)
    ensures
        r == keys@.contains(key),
{
    let mut i: usize = 0;
    while i < keys.len()
        invariant
            i <= keys.len(),
            forall|j: int| 0 <= j < i ==> keys@[j] != key,
        decreases keys.len() - i,
    {
        if keys[i].cable_id == key.cable_id && keys[i].bundle == key.bundle && keys[i].fiber == key.fiber {
            assert(keys@[i as int] == key);
            return true;
        }
        i += 1;
    }
    false
}

impl AttachFiber {
    /// Resets a port to the built state: its sides show their planned fibers again and an
    /// edit of it ends.
    pub fn reset_port(&mut self, port_id: i32)
        requires
            old(self).wf(),
        ensures
            final(self).wf(),
            final(self).resets() == old(self).resets().insert(port_id),
            final(self).situation() == old(self).situation(),
            final(self).slots() == match old(self).situation() {
                Some(s) => match first_port(s.ports@, port_id) {
                    Some(p) => old(self).slots().insert((port_id, PortSide::FRONT), usage_state(p.front_usage)).insert(
                        (port_id, PortSide::BACK),
                        usage_state(p.back_usage),
                    ),
                    None => old(self).slots(),
                },
                None => old(self).slots(),
            },
            final(self).edit() == match old(self).edit() {
                Some(e) => if e.port_id == port_id { None } else { Some(e) },
                None => None,
            },
    {
        self.reset_ports.insert(port_id);
        match &self.current_situation {
            Some(situation) => {
                match port_index(&situation.ports, port_id) {
                    Some(i) => {
                        let front = state_of_usage(&situation.ports[i].front_usage);
                        let back = state_of_usage(&situation.ports[i].back_usage);
                        slot_insert(&mut self.slot_states, (port_id, PortSide::FRONT), front);
                        slot_insert(&mut self.slot_states, (port_id, PortSide::BACK), back);
                    },
                    None => {},
                }
            },
            None => {},
        }
        let editing = match &self.edit_slot {
            Some(e) => e.port_id == port_id,
            None => false,
        };
        if editing {
            self.edit_slot = None;
        }
    }

    /// The changes to store: none without a loaded panel (`None`), else the changes of all
    /// ports in port order.
    pub fn save_changes(&self) -> (r: Option<Vec<PortUsageInput>>)
        requires
            self.wf(),
        ensures
            match self.situation() {
                Some(s) => r matches Some(v) && v@ == save_changes(self.slots(), self.resets(), s.ports@),
                None => r is None,
            },
    {
        match &self.current_situation {
            Some(situation) => {
                let mut usages: Vec<PortUsageInput> = Vec::new();
                let mut i: usize = 0;
                while i < situation.ports.len()
                    invariant
                        i <= situation.ports.len(),
                        self.wf(),
                        usages@ == save_changes(self.slots(), self.resets(), situation.ports@.subrange(0, i as int)),
                    decreases situation.ports.len() - i,
                {
                    let port = &situation.ports[i];
                    let ghost before = usages@;
                    if port.port_type != PortType::Loop {
                        if self.reset_ports.contains(&port.id) {
                            usages.push(PortUsageInput { port_id: port.id, side: PortSide::FRONT, fiber: PortUsageUpdateAction::Reset(true) });
                        } else {
                            let front = key_of_usage(&port.front_usage);
                            push_side_change(&mut usages, &self.slot_states, port.id, PortSide::FRONT, front);
                            let back = key_of_usage(&port.back_usage);
                            push_side_change(&mut usages, &self.slot_states, port.id, PortSide::BACK, back);
                        }
                    }
                    proof {
                        let sub = situation.ports@.subrange(0, i + 1);
                        assert(sub.drop_last() == situation.ports@.subrange(0, i as int));
                        assert(sub.last() == situation.ports@[i as int]);
                        assert(usages@ =~= before + port_changes(self.slots(), self.resets(), situation.ports@[i as int]));
                    }
                    i += 1;
                }
                assert(situation.ports@.subrange(0, situation.ports@.len() as int) == situation.ports@);
                Some(usages)
            },
            None => None,
        }
    }

    /// The checks before saving: a splice used on one side only, a connector used on the front
    /// only; none without a loaded panel.
    pub fn validate(&self) -> (r: Vec<String>)
        requires
            self.wf(),
        ensures
            string_texts(r@) == match self.situation() {
                Some(s) => validation_errors(self.slots(), s.ports@),
                None => Seq::<Seq<char>>::empty(),
            },
    {
        let mut errors: Vec<String> = Vec::new();
        match &self.current_situation {
            Some(situation) => {
                let mut i: usize = 0;
                while i < situation.ports.len()
                    invariant
                        i <= situation.ports.len(),
                        self.wf(),
                        string_texts(errors@) == validation_errors(self.slots(), situation.ports@.subrange(0, i as int)),
                    decreases situation.ports.len() - i,
                {
                    let port = &situation.ports[i];
                    let ghost before = errors@;
                    if port.port_type != PortType::Loop {
                        let front = slot_get(&self.slot_states, (port.id, PortSide::FRONT));
                        let back = slot_get(&self.slot_states, (port.id, PortSide::BACK));
                        let label: &str = match &port.label {
                            Some(l) => l.as_str(),
                            None => "Unbenannt",
                        };
                        let front_empty = front == SlotState::Empty;
                        let back_empty = back == SlotState::Empty;
                        match port.port_type {
                            PortType::Splice => {
                                if front_empty != back_empty {
                                    let mut text = String::from_str("Port ");
                                    text.append(label);
                                    text.append(": Spleiss muss beidseitig belegt oder komplett leer sein.");
                                    errors.push(text);
                                }
                            },
                            PortType::Connector => {
                                if !front_empty && back_empty {
                                    let mut text = String::from_str("Port ");
                                    text.append(label);
                                    text.append(": Stecker benötigt zwingend eine Back-Belegung, wenn Front belegt ist.");
                                    errors.push(text);
                                }
                            },
                            PortType::Loop => {},
                        }
                    }
                    proof {
                        let sub = situation.ports@.subrange(0, i + 1);
                        assert(sub.drop_last() == situation.ports@.subrange(0, i as int));
                        assert(sub.last() == situation.ports@[i as int]);
                        assert(string_texts(errors@) =~= string_texts(before) + port_errors(self.slots(), situation.ports@[i as int]));
                    }
                    i += 1;
                }
                assert(situation.ports@.subrange(0, situation.ports@.len() as int) == situation.ports@);
            },
            None => {
                assert(string_texts(errors@) =~= Seq::<Seq<char>>::empty());
            },
        }
        errors
    }

    /// Whether saving would change something: a reset port, or a side planned otherwise than
    /// loaded.
    pub fn has_changes(&self) -> (r: bool)
        requires
            self.wf(),
        ensures
            r == (!self.resets().is_empty() || match self.situation() {
                Some(s) => self.slots() != initial_slots(s.ports@),
                None => false,
            }),
    {
        if !self.reset_ports.is_empty() {
            return true;
        }
        match &self.current_situation {
            Some(situation) => {
                let initial = calculate_current_states(situation);
                !slots_equal(&self.slot_states, &initial)
            },
            None => false,
        }
    }

    /// The fibers of the cable free to attach: not used in the database and not planned on
    /// a side here, in cable order.
    pub fn get_free_fibers<'a>(&self, cable: &'a CableEnd) -> (r: Vec<&'a FiberOwnEnd>)
        requires
            self.wf(),
        ensures
            r@.len() == cable.fibers@.filter(is_free(self.slots(), cable.cable.id)).len(),
            forall|i: int| 0 <= i < r@.len() ==> *r@[i] == cable.fibers@.filter(is_free(self.slots(), cable.cable.id))[i],
    {
        let keys = assigned_keys(&self.slot_states);
        let ghost pred = is_free(self.slots(), cable.cable.id);
        let mut r: Vec<&'a FiberOwnEnd> = Vec::new();
        let mut i: usize = 0;
        while i < cable.fibers.len()
            invariant
                i <= cable.fibers.len(),
                pred == is_free(self.slots(), cable.cable.id),
                forall|key: FiberKeyInput| keys@.contains(key) <==> assigned(self.slots(), key),
                r@.len() == cable.fibers@.subrange(0, i as int).filter(pred).len(),
                forall|j: int| 0 <= j < r@.len() ==> *r@[j] == cable.fibers@.subrange(0, i as int).filter(pred)[j],
            decreases cable.fibers.len() - i,
        {
            let f = &cable.fibers[i];
            proof {
                cable.fibers@.subrange(0, i as int).lemma_filter_push(cable.fibers@[i as int], pred);
                assert(cable.fibers@.subrange(0, i + 1) == cable.fibers@.subrange(0, i as int).push(cable.fibers@[i as int]));
            }
            let used_locally = contains_key(&keys, FiberKeyInput { cable_id: cable.cable.id, bundle: f.bundle, fiber: f.fiber });
            if f.used_port.is_none() && !used_locally {
                r.push(f);
            }
            i += 1;
        }
        assert(cable.fibers@.subrange(0, cable.fibers@.len() as int) == cable.fibers@);
        r
    }

    /// The first cable of the Schacht with this id.
    pub fn find_cable(&self, cable_id: i32) -> (r: Option<&CableEnd>)
        ensures
            match r {
                Some(c) => self.situation() matches Some(s) && first_cable(s.panel.schacht.cables@, cable_id) == Some(*c),
                None => self.situation() matches Some(s) ==> first_cable(s.panel.schacht.cables@, cable_id) is None,
            },
    {
        match &self.current_situation {
            Some(s) => {
                let cables = &s.panel.schacht.cables;
                let mut i: usize = 0;
                assert(cables@.subrange(0, cables@.len() as int) == cables@);
                while i < cables.len()
                    invariant
                        i <= cables.len(),
                        self.situation() == Some(*s),
                        cables@ == s.panel.schacht.cables@,
                        first_cable(cables@, cable_id) == first_cable(cables@.subrange(i as int, cables@.len() as int), cable_id),
                    decreases cables.len() - i,
                {
                    let ghost rest = cables@.subrange(i as int, cables@.len() as int);
                    assert(rest[0] == cables@[i as int]);
                    if cables[i].cable.id == cable_id {
                        return Some(&cables[i]);
                    }
                    assert(rest.drop_first() =~= cables@.subrange(i + 1, cables@.len() as int));
                    i += 1;
                }
                assert(cables@.subrange(i as int, cables@.len() as int) =~= Seq::<CableEnd>::empty());
                None
            },
            None => None,
        }
    }

    /// The name of the cable of an attached fiber, "Kabel {id}" for a cable not in the
    /// Schacht.
    pub fn assigned_cable_name(&self, key: &FiberKeyInput) -> (r: String)
        ensures
            r@ == match self.situation() {
                Some(s) => match first_cable(s.panel.schacht.cables@, key.cable_id) {
                    Some(c) => c.cable.name@,
                    None => "Kabel "@ + int_text(key.cable_id as int),
                },
                None => "Kabel "@ + int_text(key.cable_id as int),
            },
    {
        match self.find_cable(key.cable_id) {
            Some(c) => c.cable.name.clone(),
            None => {
                let mut r = String::from_str("Kabel ");
                push_int(&mut r, key.cable_id as i64);
                r
            },
        }
    }

    /// Where the attached fiber leads: the port at the far end of its path, if the cable is in
    /// the Schacht and the fiber there ends at a port.
    pub fn assigned_endpoint(&self, key: &FiberKeyInput) -> (r: Option<String>)
        ensures
            match self.situation() {
                Some(s) => match first_cable(s.panel.schacht.cables@, key.cable_id) {
                    Some(c) => end_label_of(first_fiber(c.fibers@, key.bundle, key.fiber), r),
                    None => r is None,
                },
                None => r is None,
            },
    {
        match self.find_cable(key.cable_id) {
            Some(c) => {
                let f = find_fiber(&c.fibers, key.bundle, key.fiber);
                cable_end_label(f)
            },
            None => None,
        }
    }
}

/// The first cable with this id.
pub open spec fn first_cable(cables: Seq<CableEnd>, id: i32) -> Option<CableEnd>
    decreases cables.len(),
{
    if cables.len() == 0 {
        None
    } else if cables[0].cable.id == id {
        Some(cables[0])
    } else {
        first_cable(cables.drop_first(), id)
    }
}

/// The first fiber with this bundle and number.
pub open spec fn first_fiber(fibers: Seq<FiberOwnEnd>, bundle: i32, fiber: i32) -> Option<FiberOwnEnd>
    decreases fibers.len(),
{
    if fibers.len() == 0 {
        None
    } else if fibers[0].bundle == bundle && fibers[0].fiber == fiber {
        Some(fibers[0])
    } else {
        first_fiber(fibers.drop_first(), bundle, fiber)
    }
}

fn find_fiber(fibers: &Vec<FiberOwnEnd>, bundle: i32, fiber: i32) -> (r: Option<&FiberOwnEnd>)
    ensures
        match r {
            Some(f) => first_fiber(fibers@, bundle, fiber) == Some(*f),
            None => first_fiber(fibers@, bundle, fiber) is None,
        },
{
    let mut i: usize = 0;
    assert(fibers@.subrange(0, fibers@.len() as int) == fibers@);
    while i < fibers.len()
        invariant
            i <= fibers.len(),
            first_fiber(fibers@, bundle, fiber) == first_fiber(fibers@.subrange(i as int, fibers@.len() as int), bundle, fiber),
        decreases fibers.len() - i,
    {
        let ghost rest = fibers@.subrange(i as int, fibers@.len() as int);
        assert(rest[0] == fibers@[i as int]);
        if fibers[i].bundle == bundle && fibers[i].fiber == fiber {
            return Some(&fibers[i]);
        }
        assert(rest.drop_first() =~= fibers@.subrange(i + 1, fibers@.len() as int));
        i += 1;
    }
    assert(fibers@.subrange(i as int, fibers@.len() as int) =~= Seq::<FiberOwnEnd>::empty());
    None
}

/// The port at the far end of the fiber's path, if it ends at a port.
pub open spec fn far_port(f: FiberOwnEnd) -> Option<UsedEndPort> {
    match f.other_end {
        Some(e) => match e.used_port {
            Some(p) => p.panel_side_end_port,
            None => None,
        },
        None => None,
    }
}

pub(crate) fn far_port_of(f: &FiberOwnEnd) -> (r: Option<&UsedEndPort>)
    ensures
        match r {
            Some(p) => far_port(*f) == Some(*p),
            None => far_port(*f) is None,
        },
{
    match &f.other_end {
        Some(e) => match &e.used_port {
            Some(p) => match &p.panel_side_end_port {
                Some(u) => Some(u),
                None => None,
            },
            None => None,
        },
        None => None,
    }
}

/// `r` is the text of the far port of the fiber, and nothing without a fiber or a far port.
pub open spec fn end_label_of(f: Option<FiberOwnEnd>, r: Option<String>) -> bool {
    match f {
        Some(fiber) => match far_port(fiber) {
            Some(p) => r matches Some(t) && t@ == used_port_text(p),
            None => r is None,
        },
        None => r is None,
    }
}

/// The text of the port the fiber's path ends at, if there is a fiber and such a port.
pub fn cable_end_label(option: Option<&FiberOwnEnd>) -> (r: Option<String>)
    ensures
        end_label_of(
            match option {
                Some(f) => Some(*f),
                None => None,
            },
            r,
        ),
{
    match option {
        Some(f) => match far_port_of(f) {
            Some(p) => Some(p.to_text()),
            None => None,
        },
        None => None,
    }
}

/// The text or nothing.
pub open spec fn or_empty(o: Option<Seq<char>>) -> Seq<char> {
    match o {
        Some(t) => t,
        None => Seq::empty(),
    }
}

/// How a fiber is offered: its number, and where its path ends if it ends at a port.
pub open spec fn fiber_entry_text(f: FiberOwnEnd) -> Seq<char> {
    match far_port(f) {
        Some(p) => int_text(f.fiber as int) + " ("@ + p.port.panel.schacht.name@ + " "@ + or_empty(opt_view(p.port.panel.name))
            + " "@ + or_empty(opt_view(p.port.label)) + ")"@,
        None => int_text(f.fiber as int),
    }
}

/// "fiber (Schacht panel port)" for a fiber whose path ends at a port, else the number.
pub fn fiber_entry_label(f: &FiberOwnEnd) -> (r: String)
    ensures
        r@ == fiber_entry_text(*f),
{
    let mut r = String::new();
    push_int(&mut r, f.fiber as i64);
    match far_port_of(f) {
        Some(p) => {
            r.append(" (");
            r.append(p.port.panel.schacht.name.as_str());
            r.append(" ");
            match opt_str(&p.port.panel.name) {
                Some(n) => r.append(n),
                None => {},
            }
            r.append(" ");
            match opt_str(&p.port.label) {
                Some(l) => r.append(l),
                None => {},
            }
            r.append(")");
        },
        None => {},
    }
    r
}

/// The fibers of a bundle.
pub open spec fn in_bundle<'a>(bundle: i32) -> spec_fn(&'a FiberOwnEnd) -> bool {
    |f: &'a FiberOwnEnd| f.bundle == bundle
}

/// The fibers of the bundle, in their order.
pub fn bundle_fibers<'a>(fibers: &[&'a FiberOwnEnd], bundle: i32) -> (r: Vec<&'a FiberOwnEnd>)
    ensures
        r@ == fibers@.filter(in_bundle(bundle)),
{
    let mut r: Vec<&'a FiberOwnEnd> = Vec::new();
    let mut i: usize = 0;
    while i < fibers.len()
        invariant
            i <= fibers.len(),
            r@ == fibers@.subrange(0, i as int).filter(in_bundle(bundle)),
        decreases fibers.len() - i,
    {
        proof {
            fibers@.subrange(0, i as int).lemma_filter_push(fibers@[i as int], in_bundle(bundle));
            assert(fibers@.subrange(0, i + 1) == fibers@.subrange(0, i as int).push(fibers@[i as int]));
        }
        if fibers[i].bundle == bundle {
            r.push(fibers[i]);
        }
        i += 1;
    }
    assert(fibers@.subrange(0, fibers@.len() as int) == fibers@);
    r
}

} // verus!

verus! {

/// How many of the fibers lie in each bundle.
pub open spec fn bundle_counts(s: Seq<&FiberOwnEnd>) -> Map<i32, nat>
    decreases s.len(),
{
    if s.len() == 0 {
        Map::empty()
    } else {
        let m = bundle_counts(s.drop_last());
        let b = s.last().bundle;
        m.insert(b, if m.contains_key(b) { m[b] + 1 } else { 1 })
    }
}

/// A bundle to choose, with the number of its free fibers.
#[derive(Clone, Copy, PartialEq, Eq, Structural, Debug)]
pub struct BundleSelectEntry(pub i32, pub usize);

/// The entries list the bundles of `counts` in ascending order, each with its count.
pub open spec fn lists_counts(r: Seq<BundleSelectEntry>, counts: Map<i32, nat>) -> bool {
    &&& forall|i: int, j: int| 0 <= i < j < r.len() ==> r[i].0 < r[j].0
    &&& forall|i: int| 0 <= i < r.len() ==> #[trigger] counts.contains_key(r[i].0) && counts[r[i].0] == r[i].1
    &&& forall|b: i32| #[trigger] counts.contains_key(b) ==> exists|i: int| 0 <= i < r.len() && r[i].0 == b
}

/// The bundles of the fibers in ascending order, each with its number of fibers.
pub fn bundle_entries(fibers: &[&FiberOwnEnd]) -> (r: Vec<BundleSelectEntry>)
    ensures
        lists_counts(r@, bundle_counts(fibers@)),
{
    let mut r: Vec<BundleSelectEntry> = Vec::new();
    let mut i: usize = 0;
    assert(fibers@.subrange(0, 0) =~= Seq::<&FiberOwnEnd>::empty());
    while i < fibers.len()
        invariant
            i <= fibers.len(),
            lists_counts(r@, bundle_counts(fibers@.subrange(0, i as int))),
            forall|k: int| 0 <= k < r@.len() ==> r@[k].1 <= i,
        decreases fibers.len() - i,
    {
        let ghost m = bundle_counts(fibers@.subrange(0, i as int));
        let ghost old_r = r@;
        let b = fibers[i].bundle;
        proof {
            let sub = fibers@.subrange(0, i + 1);
            assert(sub.drop_last() =~= fibers@.subrange(0, i as int));
            assert(sub.last() == fibers@[i as int]);
        }
        let ghost m2 = m.insert(b, if m.contains_key(b) { m[b] + 1 } else { 1 });
        assert(bundle_counts(fibers@.subrange(0, i + 1)) == m2);
        let mut j: usize = 0;
        while j < r.len() && r[j].0 < b
            invariant
                j <= r.len(),
                r@ == old_r,
                forall|k: int| 0 <= k < j ==> r@[k].0 < b,
            decreases r.len() - j,
        {
            j += 1;
        }
        if j < r.len() && r[j].0 == b {
            let c = r[j].1;
            r.set(j, BundleSelectEntry(b, c + 1));
            proof {
                assert(m.contains_key(b) && m[b] == c);
                assert forall|bb: i32| #[trigger] m2.contains_key(bb) implies exists|k: int| 0 <= k < r@.len() && r@[k].0 == bb by {
                    if bb != b {
                        let k = choose|k: int| 0 <= k < old_r.len() && old_r[k].0 == bb;
                        assert(r@[k].0 == bb);
                    } else {
                        assert(r@[j as int].0 == bb);
                    }
                }
                assert forall|k: int| 0 <= k < r@.len() implies #[trigger] m2.contains_key(r@[k].0) && m2[r@[k].0] == r@[k].1 by {
                    if k != j {
                        assert(old_r[k] == r@[k]);
                        assert(m.contains_key(old_r[k].0));
                        assert(old_r[k].0 != b);
                    }
                }
            }
        } else {
            proof {
                if m.contains_key(b) {
                    let k = choose|k: int| 0 <= k < old_r.len() && old_r[k].0 == b;
                    if k >= j {
                        assert(old_r[j as int].0 <= old_r[k].0);
                    }
                    assert(false);
                }
            }
            r.insert(j, BundleSelectEntry(b, 1));
            proof {
                assert forall|k: int| 0 <= k < r@.len() implies #[trigger] m2.contains_key(r@[k].0) && m2[r@[k].0] == r@[k].1 by {
                    if k < j {
                        assert(r@[k] == old_r[k]);
                        assert(m.contains_key(old_r[k].0));
                    } else if k > j {
                        assert(r@[k] == old_r[k - 1]);
                        assert(m.contains_key(old_r[k - 1].0));
                    }
                }
                assert forall|bb: i32| #[trigger] m2.contains_key(bb) implies exists|k: int| 0 <= k < r@.len() && r@[k].0 == bb by {
                    if bb != b {
                        let k = choose|k: int| 0 <= k < old_r.len() && old_r[k].0 == bb;
                        if k < j {
                            assert(r@[k].0 == bb);
                        } else {
                            assert(r@[k + 1].0 == bb);
                        }
                    } else {
                        assert(r@[j as int].0 == bb);
                    }
                }
                assert forall|x: int, y: int| 0 <= x < y < r@.len() implies r@[x].0 < r@[y].0 by {
                    if j < old_r.len() {
                        assert(b < old_r[j as int].0);
                    }
                    if y < j {
                        assert(r@[x] == old_r[x] && r@[y] == old_r[y]);
                    } else if y == j {
                        assert(r@[x] == old_r[x]);
                    } else if x > j {
                        assert(r@[x] == old_r[x - 1] && r@[y] == old_r[y - 1]);
                    } else if x == j {
                        assert(r@[y] == old_r[y - 1]);
                        assert(old_r[j as int].0 <= old_r[y - 1].0);
                    } else {
                        assert(r@[x] == old_r[x] && r@[y] == old_r[y - 1]);
                    }
                }
            }
        }
        i += 1;
    }
    assert(fibers@.subrange(0, fibers@.len() as int) =~= fibers@);
    r
}

impl BundleSelectEntry {
    /// "bundle (count frei)".
    pub fn label(&self) -> (r: String)
        ensures
            r@ == int_text(self.0 as int) + " ("@ + nat_text(self.1 as nat) + " frei)"@,
    {
        let mut r = String::new();
        push_int(&mut r, self.0 as i64);
        r.append(" (");
        push_nat(&mut r, self.1 as u64);
        r.append(" frei)");
        r
    }
}


/// No two ports share an id.
pub open spec fn distinct_port_ids(ports: Seq<PlannedPort>) -> bool {
    forall|i: int, j: int| 0 <= i < j < ports.len() ==> ports[i].id != ports[j].id
}

proof fn lemma_initial_slot(ports: Seq<PlannedPort>, i: int)
    requires
        distinct_port_ids(ports),
        0 <= i < ports.len(),
    ensures
        slot_or_empty(initial_slots(ports), (ports[i].id, PortSide::FRONT)) == usage_state(ports[i].front_usage),
        slot_or_empty(initial_slots(ports), (ports[i].id, PortSide::BACK)) == usage_state(ports[i].back_usage),
    decreases ports.len(),
{
    if i < ports.len() - 1 {
        let t = ports.drop_last();
        assert(distinct_port_ids(t)) by {
            assert forall|a: int, b: int| 0 <= a < b < t.len() implies t[a].id != t[b].id by {
                assert(t[a] == ports[a] && t[b] == ports[b]);
            }
        }
        assert(t[i] == ports[i]);
        lemma_initial_slot(t, i);
        assert(ports.last().id != ports[i].id);
    }
}

proof fn lemma_prefix_saves_nothing(ports: Seq<PlannedPort>, k: int)
    requires
        distinct_port_ids(ports),
        0 <= k <= ports.len(),
    ensures
        save_changes(initial_slots(ports), Set::empty(), ports.subrange(0, k)) == Seq::<PortUsageInput>::empty(),
    decreases k,
{
    if k > 0 {
        let sub = ports.subrange(0, k);
        assert(sub.drop_last() =~= ports.subrange(0, k - 1));
        assert(sub.last() == ports[k - 1]);
        lemma_prefix_saves_nothing(ports, k - 1);
        lemma_initial_slot(ports, k - 1);
        let slots = initial_slots(ports);
        let p = ports[k - 1];
        assert(side_change(slots, p.id, PortSide::FRONT, usage_key(p.front_usage)) =~= Seq::<PortUsageInput>::empty());
        assert(side_change(slots, p.id, PortSide::BACK, usage_key(p.back_usage)) =~= Seq::<PortUsageInput>::empty());
        assert(port_changes(slots, Set::empty(), p) =~= Seq::<PortUsageInput>::empty());
        assert(save_changes(slots, Set::empty(), sub) =~= Seq::<PortUsageInput>::empty());
    }
}

/// Saving right after the panel is loaded (every side showing its planned fiber, no port reset)
/// sends no change, when the ports have distinct ids.
pub proof fn law_saved_as_loaded(ports: Seq<PlannedPort>)
    requires
        distinct_port_ids(ports),
    ensures
        save_changes(initial_slots(ports), Set::empty(), ports) == Seq::<PortUsageInput>::empty(),
{
    lemma_prefix_saves_nothing(ports, ports.len() as int);
    assert(ports.subrange(0, ports.len() as int) =~= ports);
}

} // verus!
