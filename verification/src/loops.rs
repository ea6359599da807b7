//! Looping fibers through a panel: two cables of the same build meet in a Schacht, and each
//! fiber pair with the same bundle and number is either looped through a port of the panel,
//! free, or used elsewhere.

use vstd::prelude::*;
use crate::assoc::{has_key, lemma_push, lemma_update, lemma_value_at, to_map, unique_keys};
use crate::attach::{far_port, far_port_of, first_cable, or_empty};
use crate::connections::{
    CableEnd, CableId, EndPortParentPanel, Fiber, FiberKeyInput, FiberOwnEnd, PlannedPanel, PlannedPort, PortUsageFragment,
    PortUsageInput, PortUsageUpdateAction, UsedEndPort,
};
use crate::ids::{PortSide, PortType};
use crate::text::{int_text, opt_str, opt_view, push_int};
use vstd::string::StringExecFns;

verus! {

/// A fiber by bundle and number.
pub type FiberPos = (i32, i32);

/// What the loop editor shows of a fiber pair.
#[derive(Clone, Copy, PartialEq, Eq, Structural, Debug)]
pub enum FiberStatus {
    /// Neither fiber is used.
    Free,
    /// Both fibers are used on this panel.
    Looped,
    /// A fiber is used elsewhere, or missing on one cable.
    UsedElsewhere,
}

/// The state of a fiber pair: its status, whether the plan changed it, and whether it was
/// reset to the built state.
#[derive(Clone, Copy, PartialEq, Eq, Structural, Debug)]
pub struct FiberData {
    pub status: FiberStatus,
    pub modified_in_plan: bool,
    pub reset: bool,
}

/// `x` comes before `y`: by bundle, then by fiber.
pub open spec fn pos_lt(x: FiberPos, y: FiberPos) -> bool {
    x.0 < y.0 || (x.0 == y.0 && x.1 < y.1)
}

fn pos_before(x: FiberPos, y: FiberPos) -> (r: bool)
    ensures
        r == pos_lt(x, y),
{
    x.0 < y.0 || (x.0 == y.0 && x.1 < y.1)
}

/// The position of a fiber.
pub open spec fn pos_of(f: FiberOwnEnd) -> FiberPos {
    (f.bundle, f.fiber)
}

/// The last fiber at this position (the one a map built from the list keeps).
pub open spec fn last_fiber(fibers: Seq<FiberOwnEnd>, k: FiberPos) -> Option<FiberOwnEnd>
    decreases fibers.len(),
{
    if fibers.len() == 0 {
        None
    } else if pos_of(fibers.last()) == k {
        Some(fibers.last())
    } else {
        last_fiber(fibers.drop_last(), k)
    }
}

/// Some fiber lies at this position.
pub open spec fn has_fiber(fibers: Seq<FiberOwnEnd>, k: FiberPos) -> bool {
    exists|i: int| 0 <= i < fibers.len() && pos_of(fibers[i]) == k
}

pub proof fn lemma_last_fiber(fibers: Seq<FiberOwnEnd>, k: FiberPos)
    ensures
        last_fiber(fibers, k) is Some <==> has_fiber(fibers, k),
        last_fiber(fibers, k) matches Some(f) ==> pos_of(f) == k,
    decreases fibers.len(),
{
    if fibers.len() > 0 {
        let rest = fibers.drop_last();
        lemma_last_fiber(rest, k);
        if has_fiber(rest, k) {
            let i = choose|i: int| 0 <= i < rest.len() && pos_of(rest[i]) == k;
            assert(fibers[i] == rest[i]);
        }
        if has_fiber(fibers, k) && pos_of(fibers.last()) != k {
            let i = choose|i: int| 0 <= i < fibers.len() && pos_of(fibers[i]) == k;
            assert(rest[i] == fibers[i]);
        }
    }
}

/// The fiber is used on a port of this panel.
pub open spec fn used_on_panel(f: FiberOwnEnd, panel_id: i32) -> bool {
    f.used_port matches Some(p) && p.port.panel.id == panel_id
}

/// Whether the planning changed the port the fiber is used on.
pub open spec fn modified_of(f: Option<FiberOwnEnd>) -> bool {
    f matches Some(fiber) && fiber.used_port matches Some(p) && p.modified_in_plan
}

/// The status of a pair: looped when both fibers are used on this panel, free when neither is
/// used, else used elsewhere.
pub open spec fn pair_status(a: Option<FiberOwnEnd>, b: Option<FiberOwnEnd>, panel_id: i32) -> FiberStatus {
    match (a, b) {
        (Some(fa), Some(fb)) => if used_on_panel(fa, panel_id) && used_on_panel(fb, panel_id) {
            FiberStatus::Looped
        } else if fa.used_port is None && fb.used_port is None {
            FiberStatus::Free
        } else {
            FiberStatus::UsedElsewhere
        },
        _ => FiberStatus::UsedElsewhere,
    }
}

/// The state of the pair at a position, as loaded.
pub open spec fn pair_data(a: Option<FiberOwnEnd>, b: Option<FiberOwnEnd>, panel_id: i32) -> FiberData {
    FiberData { status: pair_status(a, b, panel_id), modified_in_plan: modified_of(a) || modified_of(b), reset: false }
}

/// The state of every position that has a fiber on either cable.
pub open spec fn loop_states(a: Seq<FiberOwnEnd>, b: Seq<FiberOwnEnd>, panel_id: i32) -> Map<FiberPos, FiberData> {
    Map::new(
        |k: FiberPos| has_fiber(a, k) || has_fiber(b, k),
        |k: FiberPos| pair_data(last_fiber(a, k), last_fiber(b, k), panel_id),
    )
}

/// What `calculate_loop_states` shows of the pair at a position with a fiber on either cable:
/// it is free exactly when both cables have a fiber there and neither fiber is used on a port;
/// a fiber used on a port of another panel, or a fiber missing on one cable, makes the pair used
/// elsewhere; both fibers used on this panel make it looped.
pub proof fn law_pair_status(a: Seq<FiberOwnEnd>, b: Seq<FiberOwnEnd>, panel_id: i32, k: FiberPos)
    requires
        has_fiber(a, k) || has_fiber(b, k),
    ensures
        loop_states(a, b, panel_id).contains_key(k),
        (loop_states(a, b, panel_id)[k].status == FiberStatus::Free) == (
            (last_fiber(a, k) matches Some(fa) && fa.used_port is None)
            && (last_fiber(b, k) matches Some(fb) && fb.used_port is None)),
        (last_fiber(a, k) matches Some(fa) && fa.used_port matches Some(p) && p.port.panel.id != panel_id)
            ==> loop_states(a, b, panel_id)[k].status == FiberStatus::UsedElsewhere,
        (last_fiber(b, k) matches Some(fb) && fb.used_port matches Some(p) && p.port.panel.id != panel_id)
            ==> loop_states(a, b, panel_id)[k].status == FiberStatus::UsedElsewhere,
        (last_fiber(a, k) is None || last_fiber(b, k) is None)
            ==> loop_states(a, b, panel_id)[k].status == FiberStatus::UsedElsewhere,
        ((last_fiber(a, k) matches Some(fa) && fa.used_port matches Some(p) && p.port.panel.id == panel_id)
            && (last_fiber(b, k) matches Some(fb) && fb.used_port matches Some(q) && q.port.panel.id == panel_id))
            ==> loop_states(a, b, panel_id)[k].status == FiberStatus::Looped,
        loop_states(a, b, panel_id)[k].modified_in_plan == (
            (last_fiber(a, k) matches Some(fa) && fa.used_port matches Some(p) && p.modified_in_plan)
            || (last_fiber(b, k) matches Some(fb) && fb.used_port matches Some(q) && q.modified_in_plan)),
        !loop_states(a, b, panel_id)[k].reset,
{
}

/// The positions ascend strictly.
pub open spec fn ascending<V>(s: Seq<(FiberPos, V)>) -> bool {
    forall|i: int, j: int| 0 <= i < j < s.len() ==> pos_lt(s[i].0, s[j].0)
}

/// The positions ascend strictly.
pub open spec fn ascending_keys(s: Seq<FiberPos>) -> bool {
    forall|i: int, j: int| 0 <= i < j < s.len() ==> pos_lt(s[i], s[j])
}

/// The last fiber at the position.
fn find_last_fiber(fibers: &Vec<FiberOwnEnd>, k: FiberPos) -> (r: Option<&FiberOwnEnd>)
    ensures
        match r {
            Some(f) => last_fiber(fibers@, k) == Some(*f),
            None => last_fiber(fibers@, k) is None,
        },
{
    let mut i: usize = fibers.len();
    assert(fibers@.subrange(0, fibers@.len() as int) == fibers@);
    while i > 0
        invariant
            i <= fibers.len(),
            last_fiber(fibers@, k) == last_fiber(fibers@.subrange(0, i as int), k),
        decreases i,
    {
        let ghost pre = fibers@.subrange(0, i as int);
        assert(pre.last() == fibers@[i - 1]);
        if fibers[i - 1].bundle == k.0 && fibers[i - 1].fiber == k.1 {
            return Some(&fibers[i - 1]);
        }
        assert(pre.drop_last() =~= fibers@.subrange(0, i - 1));
        i -= 1;
    }
    None
}

/// Adds the position to the ascending list unless it is there.
fn insert_pos(keys: &mut Vec<FiberPos>, k: FiberPos)
    requires
        ascending_keys(old(keys)@),
    ensures
        ascending_keys(final(keys)@),
        final(keys)@.to_set() == old(keys)@.to_set().insert(k),
{
    let ghost old_k = keys@;
    let mut j: usize = 0;
    while j < keys.len() && pos_before(keys[j], k)
        invariant
            j <= keys.len(),
            keys@ == old_k,
            forall|x: int| 0 <= x < j ==> pos_lt(keys@[x], k),
        decreases keys.len() - j,
    {
        j += 1;
    }
    if j < keys.len() && keys[j].0 == k.0 && keys[j].1 == k.1 {
        assert(old_k[j as int] == k);
        assert(old_k.contains(k));
        assert(old_k.to_set().insert(k) =~= old_k.to_set());
        return;
    }
    keys.insert(j, k);
    proof {
        assert forall|x: int, y: int| 0 <= x < y < keys@.len() implies pos_lt(keys@[x], keys@[y]) by {
            if j < old_k.len() {
                assert(pos_lt(k, old_k[j as int]));
            }
            if y < j {
                assert(keys@[x] == old_k[x] && keys@[y] == old_k[y]);
            } else if y == j {
                assert(keys@[x] == old_k[x]);
            } else if x > j {
                assert(keys@[x] == old_k[x - 1] && keys@[y] == old_k[y - 1]);
            } else if x == j {
                assert(keys@[y] == old_k[y - 1]);
                if y - 1 > j {
                    assert(pos_lt(old_k[j as int], old_k[y - 1]));
                }
            } else {
                assert(keys@[x] == old_k[x] && keys@[y] == old_k[y - 1]);
                assert(pos_lt(old_k[x], k));
                if y - 1 > j {
                    assert(pos_lt(old_k[j as int], old_k[y - 1]));
                }
            }
        }
        assert forall|p: FiberPos| keys@.to_set().contains(p) <==> old_k.to_set().insert(k).contains(p) by {
            if keys@.contains(p) {
                let w = choose|w: int| 0 <= w < keys@.len() && keys@[w] == p;
                if w < j {
                    assert(old_k[w] == p);
                } else if w > j {
                    assert(old_k[w - 1] == p);
                }
            }
            if old_k.contains(p) {
                let w = choose|w: int| 0 <= w < old_k.len() && old_k[w] == p;
                if w < j {
                    assert(keys@[w] == p);
                } else {
                    assert(keys@[w + 1] == p);
                }
            }
            if p == k {
                assert(keys@[j as int] == p);
            }
        }
        assert(keys@.to_set() =~= old_k.to_set().insert(k));
    }
}

/// The positions of the fibers.
pub open spec fn positions(fibers: Seq<FiberOwnEnd>) -> Set<FiberPos> {
    Set::new(|k: FiberPos| has_fiber(fibers, k))
}

/// Adds the positions of the fibers to the ascending list.
fn add_positions(keys: &mut Vec<FiberPos>, fibers: &Vec<FiberOwnEnd>)
    requires
        ascending_keys(old(keys)@),
    ensures
        ascending_keys(final(keys)@),
        final(keys)@.to_set() == old(keys)@.to_set().union(positions(fibers@)),
{
    let ghost start = keys@.to_set();
    let mut i: usize = 0;
    while i < fibers.len()
        invariant
            i <= fibers.len(),
            ascending_keys(keys@),
            keys@.to_set() == start.union(positions(fibers@.subrange(0, i as int))),
        decreases fibers.len() - i,
    {
        insert_pos(keys, (fibers[i].bundle, fibers[i].fiber));
        proof {
            let pre = fibers@.subrange(0, i as int);
            let next = fibers@.subrange(0, i + 1);
            assert forall|p: FiberPos| positions(next).contains(p) <==> positions(pre).insert(pos_of(fibers@[i as int])).contains(p) by {
                if has_fiber(next, p) {
                    let w = choose|w: int| 0 <= w < next.len() && pos_of(next[w]) == p;
                    if w < i {
                        assert(pre[w] == next[w]);
                    }
                }
                if has_fiber(pre, p) {
                    let w = choose|w: int| 0 <= w < pre.len() && pos_of(pre[w]) == p;
                    assert(next[w] == pre[w]);
                }
                if p == pos_of(fibers@[i as int]) {
                    assert(next[i as int] == fibers@[i as int]);
                }
            }
            assert(positions(next) =~= positions(pre).insert(pos_of(fibers@[i as int])));
            assert(keys@.to_set() =~= start.union(positions(next)));
        }
        i += 1;
    }
    assert(fibers@.subrange(0, fibers@.len() as int) == fibers@);
}

/// The state of every position with a fiber on either cable, ascending by position.
pub fn calculate_loop_states(cable_a: &CableEnd, cable_b: &CableEnd, panel_id: i32) -> (r: Vec<(FiberPos, FiberData)>)
    ensures
        ascending(r@),
        unique_keys(r@),
        to_map(r@) == loop_states(cable_a.fibers@, cable_b.fibers@, panel_id),
{
    let mut keys: Vec<FiberPos> = Vec::new();
    add_positions(&mut keys, &cable_a.fibers);
    add_positions(&mut keys, &cable_b.fibers);
    assert(Seq::<FiberPos>::empty().to_set() =~= Set::<FiberPos>::empty());
    let ghost target = loop_states(cable_a.fibers@, cable_b.fibers@, panel_id);
    let mut r: Vec<(FiberPos, FiberData)> = Vec::new();
    let mut i: usize = 0;
    while i < keys.len()
        invariant
            i <= keys.len(),
            ascending_keys(keys@),
            keys@.to_set() == positions(cable_a.fibers@).union(positions(cable_b.fibers@)),
            target == loop_states(cable_a.fibers@, cable_b.fibers@, panel_id),
            r@.len() == i,
            forall|j: int| 0 <= j < i ==> (#[trigger] r@[j]).0 == keys@[j] && r@[j].1 == target[keys@[j]],
        decreases keys.len() - i,
    {
        let k = keys[i];
        let fa = find_last_fiber(&cable_a.fibers, k);
        let fb = find_last_fiber(&cable_b.fibers, k);
        let modified_a = match fa {
            Some(f) => match &f.used_port {
                Some(p) => p.modified_in_plan,
                None => false,
            },
            None => false,
        };
        let modified_b = match fb {
            Some(f) => match &f.used_port {
                Some(p) => p.modified_in_plan,
                None => false,
            },
            None => false,
        };
        let status = match (fa, fb) {
            (Some(a), Some(b)) => {
                let on_a = match &a.used_port {
                    Some(p) => p.port.panel.id == panel_id,
                    None => false,
                };
                let on_b = match &b.used_port {
                    Some(p) => p.port.panel.id == panel_id,
                    None => false,
                };
                if on_a && on_b {
                    FiberStatus::Looped
                } else if a.used_port.is_none() && b.used_port.is_none() {
                    FiberStatus::Free
                } else {
                    FiberStatus::UsedElsewhere
                }
            },
            _ => FiberStatus::UsedElsewhere,
        };
        let ghost before = r@;
        r.push((k, FiberData { status, modified_in_plan: modified_a || modified_b, reset: false }));
        proof {
            assert(keys@.to_set().contains(k));
            assert(r@[i as int].1 == target[keys@[i as int]]);
            assert forall|j: int| 0 <= j < i + 1 implies (#[trigger] r@[j]).0 == keys@[j] && r@[j].1 == target[keys@[j]] by {
                if j < i {
                    assert(r@[j] == before[j]);
                }
            }
        }
        i += 1;
    }
    proof {
        assert forall|x: int, y: int| 0 <= x < y < r@.len() implies pos_lt(r@[x].0, r@[y].0) by {
            assert(r@[x].0 == keys@[x] && r@[y].0 == keys@[y]);
        }
        assert forall|x: int, y: int| 0 <= x < y < r@.len() implies r@[x].0 != r@[y].0 by {
            assert(r@[x].0 == keys@[x] && r@[y].0 == keys@[y]);
            assert(pos_lt(keys@[x], keys@[y]));
        }
        assert forall|k: FiberPos| #[trigger] to_map(r@).contains_key(k) <==> target.contains_key(k) by {
            if to_map(r@).contains_key(k) {
                let j = choose|j: int| 0 <= j < r@.len() && r@[j].0 == k;
                assert(keys@.contains(keys@[j]));
                assert(keys@.to_set().contains(k));
            }
            if target.contains_key(k) {
                assert(keys@.to_set().contains(k));
                let j = choose|j: int| 0 <= j < keys@.len() && keys@[j] == k;
                assert(r@[j].0 == k);
            }
        }
        assert forall|k: FiberPos| #[trigger] to_map(r@).contains_key(k) implies to_map(r@)[k] == target[k] by {
            let j = choose|j: int| 0 <= j < r@.len() && r@[j].0 == k;
            lemma_value_at(r@, j);
        }
        assert(to_map(r@) =~= target);
    }
    r
}


/// The far port of the last fiber at the position on the cable, if any.
pub open spec fn far_at(cable: Option<CableEnd>, k: FiberPos) -> Option<UsedEndPort> {
    match cable {
        Some(c) => match last_fiber(c.fibers@, k) {
            Some(f) => far_port(f),
            None => None,
        },
        None => None,
    }
}

/// The names of a chain of panels.
pub open spec fn chain_view(chain: Seq<EndPortParentPanel>) -> Seq<Option<Seq<char>>> {
    chain.map_values(|p: EndPortParentPanel| opt_view(p.name))
}

/// Everything a port at the far end holds: label, Schacht, panel and the panels above.
pub open spec fn end_port_view(p: UsedEndPort) -> (Option<Seq<char>>, Seq<char>, Option<Seq<char>>, Seq<Option<Seq<char>>>) {
    (opt_view(p.port.label), p.port.panel.schacht.name@, opt_view(p.port.panel.name), chain_view(p.port.panel.parent_chain@))
}

/// Both are no port, or ports with equal contents.
pub open spec fn same_end_port(a: Option<UsedEndPort>, b: Option<UsedEndPort>) -> bool {
    match (a, b) {
        (Some(x), Some(y)) => end_port_view(x) == end_port_view(y),
        (None, None) => true,
        _ => false,
    }
}

fn same_name(a: &Option<String>, b: &Option<String>) -> (r: bool)
    ensures
        r == (opt_view(*a) == opt_view(*b)),
{
    match (a, b) {
        (Some(x), Some(y)) => *x == *y,
        (None, None) => true,
        _ => false,
    }
}

fn same_chain(a: &Vec<EndPortParentPanel>, b: &Vec<EndPortParentPanel>) -> (r: bool)
    ensures
        r == (chain_view(a@) == chain_view(b@)),
{
    if a.len() != b.len() {
        assert(chain_view(a@).len() != chain_view(b@).len());
        return false;
    }
    let mut i: usize = 0;
    while i < a.len()
        invariant
            i <= a.len(),
            a.len() == b.len(),
            forall|j: int| 0 <= j < i ==> opt_view(#[trigger] a@[j].name) == opt_view(b@[j].name),
        decreases a.len() - i,
    {
        if !same_name(&a[i].name, &b[i].name) {
            assert(chain_view(a@)[i as int] != chain_view(b@)[i as int]);
            return false;
        }
        i += 1;
    }
    assert(chain_view(a@) =~= chain_view(b@));
    true
}

fn same_end_ports(a: Option<&UsedEndPort>, b: Option<&UsedEndPort>) -> (r: bool)
    ensures
        r == same_end_port(
            match a {
                Some(x) => Some(*x),
                None => None,
            },
            match b {
                Some(x) => Some(*x),
                None => None,
            },
        ),
{
    match (a, b) {
        (Some(x), Some(y)) => {
            same_name(&x.port.label, &y.port.label) && x.port.panel.schacht.name == y.port.panel.schacht.name && same_name(
                &x.port.panel.name,
                &y.port.panel.name,
            ) && same_chain(&x.port.panel.parent_chain, &y.port.panel.parent_chain)
        },
        (None, None) => true,
        _ => false,
    }
}

/// The cable at the index of the situation's Schacht.
pub open spec fn cable_at(situation: Option<PlannedPanel>, index: Option<usize>) -> Option<CableEnd> {
    match (situation, index) {
        (Some(s), Some(i)) => Some(s.panel.schacht.cables@[i as int]),
        _ => None,
    }
}

/// The indices of the cables that satisfy `pred`, in order.
pub open spec fn indices_where(cables: Seq<CableEnd>, pred: spec_fn(CableEnd) -> bool) -> Seq<int>
    decreases cables.len(),
{
    if cables.len() == 0 {
        seq![]
    } else {
        let rest = indices_where(cables.drop_last(), pred);
        if pred(cables.last()) {
            rest.push(cables.len() - 1)
        } else {
            rest
        }
    }
}

pub proof fn lemma_indices_where(cables: Seq<CableEnd>, pred: spec_fn(CableEnd) -> bool)
    ensures
        forall|j: int| 0 <= j < indices_where(cables, pred).len() ==> 0 <= #[trigger] indices_where(cables, pred)[j] < cables.len()
            && pred(cables[indices_where(cables, pred)[j]]),
    decreases cables.len(),
{
    if cables.len() > 0 {
        let rest = cables.drop_last();
        lemma_indices_where(rest, pred);
        assert forall|j: int| 0 <= j < indices_where(rest, pred).len() implies cables[#[trigger] indices_where(rest, pred)[j]]
            == rest[indices_where(rest, pred)[j]] by {}
    }
}

/// A cable that can be the other cable of a loop with `a`: another cable with as many bundles
/// and fibers.
pub open spec fn is_partner(a: CableEnd) -> spec_fn(CableEnd) -> bool {
    |c: CableEnd| c.cable.id != a.cable.id && c.cable.bundle_count == a.cable.bundle_count && c.cable.fiber_count == a.cable.fiber_count
}

/// The cable a fiber in a usage belongs to.
pub open spec fn usage_cable(u: Option<PortUsageFragment>) -> Option<i32> {
    match u {
        Some(usage) => match usage.fiber {
            Some(f) => Some(f.cable.id),
            None => None,
        },
        None => None,
    }
}

/// The cables with a fiber on a side of a loop port.
pub open spec fn loop_cable_ids(ports: Seq<PlannedPort>) -> Set<i32> {
    Set::new(
        |id: i32|
            exists|i: int|
                0 <= i < ports.len() && ports[i].port_type == PortType::Loop && (usage_cable(ports[i].front_usage) == Some(id)
                    || usage_cable(ports[i].back_usage) == Some(id)),
    )
}

/// The cables whose id is in the set.
pub open spec fn id_in(ids: Set<i32>) -> spec_fn(CableEnd) -> bool {
    |c: CableEnd| ids.contains(c.cable.id)
}

/// The first entry of the sequence, if any.
pub open spec fn nth_index(s: Seq<int>, n: int) -> Option<usize> {
    if n < s.len() {
        Some(s[n] as usize)
    } else {
        None
    }
}

/// A port is looped through on a fiber at this position (on any cable) as currently built.
pub open spec fn built_at(ports: Seq<PlannedPort>, k: FiberPos) -> bool {
    exists|i: int|
        0 <= i < ports.len() && (usage_fiber_at(ports[i].current_front_usage, k) || usage_fiber_at(ports[i].current_back_usage, k))
}

/// The usage holds a fiber at this position.
pub open spec fn usage_fiber_at(u: Option<PortUsageFragment>, k: FiberPos) -> bool {
    u matches Some(usage) && usage.fiber matches Some(f) && f.bundle == k.0 && f.fiber == k.1
}

/// The looped positions, in order.
pub open spec fn looped_positions(states: Seq<(FiberPos, FiberData)>) -> Seq<FiberPos>
    decreases states.len(),
{
    if states.len() == 0 {
        seq![]
    } else {
        let rest = looped_positions(states.drop_last());
        if states.last().1.status == FiberStatus::Looped {
            rest.push(states.last().0)
        } else {
            rest
        }
    }
}

/// The looped positions of pairs that ascend by position ascend too, and each is the position
/// of one of the pairs.
pub proof fn law_looped_ascend(states: Seq<(FiberPos, FiberData)>)
    requires
        ascending(states),
    ensures
        ascending_keys(looped_positions(states)),
        forall|i: int| 0 <= i < looped_positions(states).len() ==>
            exists|j: int| 0 <= j < states.len() && #[trigger] looped_positions(states)[i] == states[j].0,
    decreases states.len(),
{
    if states.len() > 0 {
        let rest = states.drop_last();
        assert(ascending(rest));
        law_looped_ascend(rest);
        let lr = looped_positions(rest);
        let n = states.len() - 1;
        assert forall|i: int| 0 <= i < lr.len() implies exists|j: int| 0 <= j < states.len() && #[trigger] lr[i] == states[j].0 by {
            let j = choose|j: int| 0 <= j < rest.len() && lr[i] == rest[j].0;
            assert(lr[i] == states[j].0);
        }
        if states.last().1.status == FiberStatus::Looped {
            let l = lr.push(states.last().0);
            assert forall|i: int| 0 <= i < lr.len() implies pos_lt(#[trigger] lr[i], states[n].0) by {
                let j = choose|j: int| 0 <= j < rest.len() && lr[i] == rest[j].0;
                assert(states[j].0 == lr[i]);
            }
            assert forall|i: int, k: int| 0 <= i < k < l.len() implies pos_lt(l[i], l[k]) by {
                if k == lr.len() {
                    assert(l[k] == states[n].0);
                    assert(pos_lt(lr[i], states[n].0));
                }
            }
            assert forall|i: int| 0 <= i < l.len() implies exists|j: int| 0 <= j < states.len() && #[trigger] l[i] == states[j].0 by {
                if i == lr.len() {
                    assert(l[i] == states[n].0);
                } else {
                    assert(l[i] == lr[i]);
                }
            }
        }
    }
}

/// The fiber of a usage.
pub open spec fn usage_fiber(u: Option<PortUsageFragment>) -> Option<Fiber> {
    match u {
        Some(usage) => usage.fiber,
        None => None,
    }
}

/// Attach the fiber at `k` of the cable to a side, unless it is there already.
pub open spec fn attach_side(port_id: i32, side: PortSide, u: Option<PortUsageFragment>, cable_id: i32, k: FiberPos) -> Seq<PortUsageInput> {
    if usage_fiber(u) != Some(Fiber { bundle: k.0, fiber: k.1, cable: CableId { id: cable_id } }) {
        seq![PortUsageInput { port_id, side, fiber: PortUsageUpdateAction::Attach(FiberKeyInput { cable_id, bundle: k.0, fiber: k.1 }) }]
    } else {
        seq![]
    }
}

/// Take the usage off a side, if it has one.
pub open spec fn remove_side(port_id: i32, side: PortSide, u: Option<PortUsageFragment>) -> Seq<PortUsageInput> {
    if u is Some {
        seq![PortUsageInput { port_id, side, fiber: PortUsageUpdateAction::Remove(true) }]
    } else {
        seq![]
    }
}

/// The changes that loop the positions through the ports in order (cable `a` in front, `b`
/// at the back), and free the ports left over.
pub open spec fn loop_updates(looped: Seq<FiberPos>, ports: Seq<PlannedPort>, a: i32, b: i32) -> Seq<PortUsageInput>
    decreases ports.len(),
{
    if ports.len() == 0 {
        seq![]
    } else {
        let p = ports[0];
        if looped.len() == 0 {
            remove_side(p.id, PortSide::FRONT, p.front_usage) + remove_side(p.id, PortSide::BACK, p.back_usage) + loop_updates(
                looped,
                ports.drop_first(),
                a,
                b,
            )
        } else {
            attach_side(p.id, PortSide::FRONT, p.front_usage, a, looped[0]) + attach_side(p.id, PortSide::BACK, p.back_usage, b, looped[0])
                + loop_updates(looped.drop_first(), ports.drop_first(), a, b)
        }
    }
}

/// The state of the page looping fibers through a panel.
pub struct LoopPortEditor {
    current_situation: Option<PlannedPanel>,
    cable_a: Option<usize>,
    cable_b: Option<usize>,
    fiber_states: Vec<(FiberPos, FiberData)>,
    states_from: Option<(usize, usize)>,
    missing_port_count: usize,
}

impl LoopPortEditor {
    /// Cable indices point into the Schacht, positions ascend.
    pub closed spec fn wf(&self) -> bool {
        &&& ascending(self.fiber_states@)
        &&& match self.current_situation {
            Some(s) => {
                &&& (self.cable_a matches Some(i) ==> i < s.panel.schacht.cables@.len())
                &&& (self.cable_b matches Some(i) ==> i < s.panel.schacht.cables@.len())
                &&& (self.states_from matches Some((i, j)) ==> i < s.panel.schacht.cables@.len() && j < s.panel.schacht.cables@.len())
            },
            None => self.cable_a is None && self.cable_b is None && self.states_from is None,
        }
    }

    /// The panel, once loaded.
    pub closed spec fn situation(&self) -> Option<PlannedPanel> {
        self.current_situation
    }

    /// The incoming cable.
    pub closed spec fn chosen_a(&self) -> Option<CableEnd> {
        cable_at(self.current_situation, self.cable_a)
    }

    /// The outgoing cable.
    pub closed spec fn chosen_b(&self) -> Option<CableEnd> {
        cable_at(self.current_situation, self.cable_b)
    }

    /// The fiber pairs shown, ascending by position.
    pub closed spec fn entries(&self) -> Seq<(FiberPos, FiberData)> {
        self.fiber_states@
    }

    /// The state of each fiber pair shown.
    pub closed spec fn states(&self) -> Map<FiberPos, FiberData> {
        to_map(self.fiber_states@)
    }

    /// The incoming cable the states were computed for.
    pub closed spec fn states_cable_a(&self) -> Option<CableEnd> {
        match self.states_from {
            Some((i, _)) => cable_at(self.current_situation, Some(i)),
            None => None,
        }
    }

    /// The outgoing cable the states were computed for.
    pub closed spec fn states_cable_b(&self) -> Option<CableEnd> {
        match self.states_from {
            Some((_, j)) => cable_at(self.current_situation, Some(j)),
            None => None,
        }
    }

    /// Looped positions that found no port at the last save.
    pub closed spec fn missing_ports(&self) -> nat {
        self.missing_port_count as nat
    }

    /// Nothing changed since loading: the pairs equal those of the chosen cables as loaded, and the
    /// far ports they were computed with are those of the chosen cables.
    pub open spec fn unmodified(&self, panel_id: i32) -> bool {
        &&& self.states() == self.loaded_states(panel_id)
        &&& forall|k: FiberPos|
            #[trigger] self.states().contains_key(k) ==> same_end_port(far_at(self.chosen_a(), k), far_at(self.states_cable_a(), k))
                && same_end_port(far_at(self.chosen_b(), k), far_at(self.states_cable_b(), k))
    }

    /// The states of the pairs of the chosen cables as loaded, none without both cables.
    pub open spec fn loaded_states(&self, panel_id: i32) -> Map<FiberPos, FiberData> {
        match (self.chosen_a(), self.chosen_b()) {
            (Some(a), Some(b)) => loop_states(a.fibers@, b.fibers@, panel_id),
            _ => Map::empty(),
        }
    }

    /// In every well-formed editor the fiber pairs ascend by position, so the looped pairs go
    /// onto the panel's ports in ascending order.
    pub proof fn law_entries_ascend(&self)
        requires
            self.wf(),
        ensures
            ascending(self.entries()),
    {
    }

    /// Nothing loaded.
    pub fn new() -> (r: LoopPortEditor)
        ensures
            r.wf(),
            r.situation() is None,
            r.chosen_a() is None,
            r.chosen_b() is None,
            r.entries() == Seq::<(FiberPos, FiberData)>::empty(),
            r.missing_ports() == 0,
    {
        LoopPortEditor {
            current_situation: None,
            cable_a: None,
            cable_b: None,
            fiber_states: Vec::new(),
            states_from: None,
            missing_port_count: 0,
        }
    }

    pub fn current_situation(&self) -> (r: &Option<PlannedPanel>)
        ensures
            *r == self.situation(),
    {
        &self.current_situation
    }

    pub fn cable_a(&self) -> (r: Option<&CableEnd>)
        requires
            self.wf(),
        ensures
            match r {
                Some(c) => self.chosen_a() == Some(*c),
                None => self.chosen_a() is None,
            },
    {
        match (&self.current_situation, self.cable_a) {
            (Some(s), Some(i)) => Some(&s.panel.schacht.cables[i]),
            _ => None,
        }
    }

    pub fn cable_b(&self) -> (r: Option<&CableEnd>)
        requires
            self.wf(),
        ensures
            match r {
                Some(c) => self.chosen_b() == Some(*c),
                None => self.chosen_b() is None,
            },
    {
        match (&self.current_situation, self.cable_b) {
            (Some(s), Some(i)) => Some(&s.panel.schacht.cables[i]),
            _ => None,
        }
    }

    /// The fiber pairs, ascending by position.
    pub fn fiber_states(&self) -> (r: &Vec<(FiberPos, FiberData)>)
        ensures
            r@ == self.entries(),
            to_map(r@) == self.states(),
            self.wf() ==> ascending(r@),
    {
        &self.fiber_states
    }

    pub fn missing_port_count(&self) -> (r: usize)
        ensures
            r == self.missing_ports(),
    {
        self.missing_port_count
    }

    /// Both cables of the loop are chosen.
    pub fn is_pair_defined(&self) -> (r: bool)
        ensures
            r == (self.chosen_a() is Some && self.chosen_b() is Some),
    {
        self.current_situation.is_some() && self.cable_a.is_some() && self.cable_b.is_some()
    }

    /// Recomputes the fiber pairs from the chosen cables: none without both.
    fn prepare_loop_states(&mut self, panel_id: i32)
        requires
            old(self).wf(),
        ensures
            final(self).wf(),
            final(self).situation() == old(self).situation(),
            final(self).chosen_a() == old(self).chosen_a(),
            final(self).chosen_b() == old(self).chosen_b(),
            final(self).states() == old(self).loaded_states(panel_id),
            match (old(self).chosen_a(), old(self).chosen_b()) {
                (Some(_), Some(_)) => final(self).states_cable_a() == old(self).chosen_a() && final(self).states_cable_b()
                    == old(self).chosen_b(),
                _ => final(self).states_cable_a() is None && final(self).states_cable_b() is None,
            },
            final(self).missing_ports() == old(self).missing_ports(),
            final(self).cable_a == old(self).cable_a,
            final(self).cable_b == old(self).cable_b,
    {
        match (&self.current_situation, self.cable_a, self.cable_b) {
            (Some(s), Some(i), Some(j)) => {
                let states = calculate_loop_states(&s.panel.schacht.cables[i], &s.panel.schacht.cables[j], panel_id);
                self.fiber_states = states;
                self.states_from = Some((i, j));
            },
            _ => {
                self.fiber_states = Vec::new();
                self.states_from = None;
                assert(to_map(self.fiber_states@) =~= Map::<FiberPos, FiberData>::empty());
            },
        }
    }
}


/// The index of the position in the list, if it is there.
fn pos_index(states: &Vec<(FiberPos, FiberData)>, k: FiberPos) -> (r: Option<usize>)
    ensures
        match r {
            Some(i) => i < states@.len() && states@[i as int].0 == k,
            None => !has_key(states@, k),
        },
{
    let mut i: usize = 0;
    while i < states.len()
        invariant
            i <= states.len(),
            forall|j: int| 0 <= j < i ==> states@[j].0 != k,
        decreases states.len() - i,
    {
        if states[i].0.0 == k.0 && states[i].0.1 == k.1 {
            return Some(i);
        }
        i += 1;
    }
    None
}

proof fn lemma_ascending_unique(s: Seq<(FiberPos, FiberData)>)
    requires
        ascending(s),
    ensures
        unique_keys(s),
{
    assert forall|i: int, j: int| 0 <= i < j < s.len() implies s[i].0 != s[j].0 by {
        assert(pos_lt(s[i].0, s[j].0));
    }
}

/// Replaces the data at an index; positions stay as they are.
fn set_data(states: &mut Vec<(FiberPos, FiberData)>, i: usize, data: FiberData)
    requires
        ascending(old(states)@),
        i < old(states)@.len(),
    ensures
        ascending(final(states)@),
        to_map(final(states)@) == to_map(old(states)@).insert(old(states)@[i as int].0, data),
{
    proof {
        lemma_ascending_unique(states@);
        lemma_update(states@, i as int, data);
    }
    let k = states[i].0;
    states.set(i, (k, data));
}

/// The map of `b` holds every pair of `a`.
fn states_within(a: &Vec<(FiberPos, FiberData)>, b: &Vec<(FiberPos, FiberData)>) -> (r: bool)
    requires
        unique_keys(a@),
        unique_keys(b@),
    ensures
        r == forall|k: FiberPos| #[trigger] to_map(a@).contains_key(k) ==> to_map(b@).contains_key(k) && to_map(b@)[k] == to_map(a@)[k],
{
    let mut i: usize = 0;
    while i < a.len()
        invariant
            i <= a.len(),
            unique_keys(a@),
            unique_keys(b@),
            forall|j: int| 0 <= j < i ==> to_map(b@).contains_key((#[trigger] a@[j]).0) && to_map(b@)[a@[j].0] == a@[j].1,
        decreases a.len() - i,
    {
        match pos_index(b, a[i].0) {
            Some(j) => {
                proof { lemma_value_at(b@, j as int); }
                if b[j].1 != a[i].1 {
                    proof { lemma_value_at(a@, i as int); }
                    return false;
                }
            },
            None => {
                proof { lemma_value_at(a@, i as int); }
                return false;
            },
        }
        i += 1;
    }
    assert forall|k: FiberPos| #[trigger] to_map(a@).contains_key(k) implies to_map(b@).contains_key(k) && to_map(b@)[k] == to_map(a@)[k] by {
        let j = choose|j: int| 0 <= j < a@.len() && a@[j].0 == k;
        lemma_value_at(a@, j);
    }
    true
}

/// The first cable with this id, by index.
fn cable_index(cables: &Vec<CableEnd>, id: i32) -> (r: Option<usize>)
    ensures
        match r {
            Some(i) => i < cables@.len() && first_cable(cables@, id) == Some(cables@[i as int]),
            None => first_cable(cables@, id) is None,
        },
{
    let mut i: usize = 0;
    assert(cables@.subrange(0, cables@.len() as int) == cables@);
    while i < cables.len()
        invariant
            i <= cables.len(),
            first_cable(cables@, id) == first_cable(cables@.subrange(i as int, cables@.len() as int), id),
        decreases cables.len() - i,
    {
        let ghost rest = cables@.subrange(i as int, cables@.len() as int);
        assert(rest[0] == cables@[i as int]);
        if cables[i].cable.id == id {
            return Some(i);
        }
        assert(rest.drop_first() =~= cables@.subrange(i + 1, cables@.len() as int));
        i += 1;
    }
    assert(cables@.subrange(i as int, cables@.len() as int) =~= Seq::<CableEnd>::empty());
    None
}

fn contains_id(ids: &Vec<i32>, id: i32) -> (r: bool)
    ensures
        r == ids@.contains(id),
{
    let mut i: usize = 0;
    while i < ids.len()
        invariant
            i <= ids.len(),
            forall|j: int| 0 <= j < i ==> ids@[j] != id,
        decreases ids.len() - i,
    {
        if ids[i] == id {
            assert(ids@[i as int] == id);
            return true;
        }
        i += 1;
    }
    false
}

fn cable_of_usage(u: &Option<PortUsageFragment>) -> (r: Option<i32>)
    ensures
        r == usage_cable(*u),
{
    match u {
        Some(usage) => match usage.fiber {
            Some(f) => Some(f.cable.id),
            None => None,
        },
        None => None,
    }
}

/// The cables with a fiber on a side of a loop port.
fn loop_ids(ports: &Vec<PlannedPort>) -> (r: Vec<i32>)
    ensures
        forall|id: i32| r@.contains(id) <==> loop_cable_ids(ports@).contains(id),
{
    let mut r: Vec<i32> = Vec::new();
    let mut i: usize = 0;
    while i < ports.len()
        invariant
            i <= ports.len(),
            forall|id: i32|
                r@.contains(id) <==> exists|j: int|
                    0 <= j < i && ports@[j].port_type == PortType::Loop && (usage_cable(ports@[j].front_usage) == Some(id)
                        || usage_cable(ports@[j].back_usage) == Some(id)),
        decreases ports.len() - i,
    {
        let ghost before = r@;
        if ports[i].port_type == PortType::Loop {
            match cable_of_usage(&ports[i].front_usage) {
                Some(id) => r.push(id),
                None => {},
            }
            match cable_of_usage(&ports[i].back_usage) {
                Some(id) => r.push(id),
                None => {},
            }
        }
        proof {
            assert forall|id: i32|
                r@.contains(id) <==> exists|j: int|
                    0 <= j < i + 1 && ports@[j].port_type == PortType::Loop && (usage_cable(ports@[j].front_usage) == Some(id)
                        || usage_cable(ports@[j].back_usage) == Some(id)) by {
                if r@.contains(id) && !before.contains(id) {
                    assert(ports@[i as int].port_type == PortType::Loop && (usage_cable(ports@[i as int].front_usage) == Some(id)
                        || usage_cable(ports@[i as int].back_usage) == Some(id)));
                }
                if before.contains(id) {
                    let w = choose|w: int| 0 <= w < before.len() && before[w] == id;
                    assert(r@[w] == id);
                }
                if exists|j: int|
                    0 <= j < i + 1 && ports@[j].port_type == PortType::Loop && (usage_cable(ports@[j].front_usage) == Some(id)
                        || usage_cable(ports@[j].back_usage) == Some(id)) {
                    let j = choose|j: int|
                        0 <= j < i + 1 && ports@[j].port_type == PortType::Loop && (usage_cable(ports@[j].front_usage) == Some(id)
                            || usage_cable(ports@[j].back_usage) == Some(id));
                    if j == i {
                        assert(r@[r@.len() - 1] == id || r@[r@.len() - 2] == id);
                    }
                }
            }
        }
        i += 1;
    }
    assert forall|id: i32| r@.contains(id) <==> loop_cable_ids(ports@).contains(id) by {}
    r
}

/// The indices of the cables whose id is in the list.
fn indices_with_ids(cables: &Vec<CableEnd>, ids: &Vec<i32>) -> (r: Vec<usize>)
    ensures
        r@.len() == indices_where(cables@, id_in(ids@.to_set())).len(),
        forall|j: int| 0 <= j < r@.len() ==> r@[j] == indices_where(cables@, id_in(ids@.to_set()))[j],
{
    let ghost pred = id_in(ids@.to_set());
    let mut r: Vec<usize> = Vec::new();
    let mut i: usize = 0;
    while i < cables.len()
        invariant
            i <= cables.len(),
            pred == id_in(ids@.to_set()),
            r@.len() == indices_where(cables@.subrange(0, i as int), pred).len(),
            forall|j: int| 0 <= j < r@.len() ==> r@[j] == indices_where(cables@.subrange(0, i as int), pred)[j],
        decreases cables.len() - i,
    {
        proof {
            let sub = cables@.subrange(0, i + 1);
            assert(sub.drop_last() =~= cables@.subrange(0, i as int));
            assert(sub.last() == cables@[i as int]);
        }
        let found = contains_id(ids, cables[i].cable.id);
        if found {
            r.push(i);
        }
        i += 1;
    }
    assert(cables@.subrange(0, cables@.len() as int) == cables@);
    r
}

/// The indices of the cables that can be the other cable of a loop with cable `a`.
fn partner_indices(cables: &Vec<CableEnd>, a: &CableEnd) -> (r: Vec<usize>)
    ensures
        r@.len() == indices_where(cables@, is_partner(*a)).len(),
        forall|j: int| 0 <= j < r@.len() ==> r@[j] == indices_where(cables@, is_partner(*a))[j],
{
    let mut r: Vec<usize> = Vec::new();
    let mut i: usize = 0;
    while i < cables.len()
        invariant
            i <= cables.len(),
            r@.len() == indices_where(cables@.subrange(0, i as int), is_partner(*a)).len(),
            forall|j: int| 0 <= j < r@.len() ==> r@[j] == indices_where(cables@.subrange(0, i as int), is_partner(*a))[j],
        decreases cables.len() - i,
    {
        proof {
            let sub = cables@.subrange(0, i + 1);
            assert(sub.drop_last() =~= cables@.subrange(0, i as int));
            assert(sub.last() == cables@[i as int]);
        }
        let c = &cables[i].cable;
        if c.id != a.cable.id && c.bundle_count == a.cable.bundle_count && c.fiber_count == a.cable.fiber_count {
            r.push(i);
        }
        i += 1;
    }
    assert(cables@.subrange(0, cables@.len() as int) == cables@);
    r
}

/// A port is looped through on a fiber at this position as currently built.
fn built_on(ports: &Vec<PlannedPort>, k: FiberPos) -> (r: bool)
    ensures
        r == built_at(ports@, k),
{
    let mut i: usize = 0;
    while i < ports.len()
        invariant
            i <= ports.len(),
            forall|j: int| 0 <= j < i ==> !(usage_fiber_at(ports@[j].current_front_usage, k) || usage_fiber_at(ports@[j].current_back_usage, k)),
        decreases ports.len() - i,
    {
        let front = match &ports[i].current_front_usage {
            Some(u) => match u.fiber {
                Some(f) => f.bundle == k.0 && f.fiber == k.1,
                None => false,
            },
            None => false,
        };
        let back = match &ports[i].current_back_usage {
            Some(u) => match u.fiber {
                Some(f) => f.bundle == k.0 && f.fiber == k.1,
                None => false,
            },
            None => false,
        };
        if front || back {
            return true;
        }
        i += 1;
    }
    false
}

impl LoopPortEditor {
    /// The panel arrived. The first two cables of the Schacht with a fiber on a loop port become
    /// the pair; with both found the fiber pairs are computed anew, else they stay as they were.
    pub fn data_fetched(&mut self, data: PlannedPanel, panel_id: i32)
        requires
            old(self).wf(),
        ensures
            final(self).wf(),
            final(self).situation() == Some(data),
            final(self).chosen_a() == cable_at(Some(data), nth_index(indices_where(data.panel.schacht.cables@, id_in(loop_cable_ids(data.ports@))), 0)),
            final(self).chosen_b() == cable_at(Some(data), nth_index(indices_where(data.panel.schacht.cables@, id_in(loop_cable_ids(data.ports@))), 1)),
            final(self).missing_ports() == old(self).missing_ports(),
            final(self).chosen_b() is Some ==> {
                &&& final(self).states() == final(self).loaded_states(panel_id)
                &&& final(self).states_cable_a() == final(self).chosen_a()
                &&& final(self).states_cable_b() == final(self).chosen_b()
            },
            final(self).chosen_b() is None ==> final(self).entries() == old(self).entries() && final(self).states_cable_a() is None
                && final(self).states_cable_b() is None,
    {
        let ids = loop_ids(&data.ports);
        let found = indices_with_ids(&data.panel.schacht.cables, &ids);
        let ghost iw = indices_where(data.panel.schacht.cables@, id_in(loop_cable_ids(data.ports@)));
        proof {
            assert(ids@.to_set() =~= loop_cable_ids(data.ports@));
            lemma_indices_where(data.panel.schacht.cables@, id_in(loop_cable_ids(data.ports@)));
        }
        let first = if found.len() > 0 { Some(found[0]) } else { None };
        let second = if found.len() > 1 { Some(found[1]) } else { None };
        proof {
            if found@.len() > 0 {
                assert(0 <= iw[0] < data.panel.schacht.cables@.len());
            }
            if found@.len() > 1 {
                assert(0 <= iw[1] < data.panel.schacht.cables@.len());
            }
        }
        self.cable_a = first;
        self.cable_b = second;
        self.states_from = None;
        self.current_situation = Some(data);
        if self.cable_b.is_some() {
            self.prepare_loop_states(panel_id);
        }
    }

    /// Chooses the incoming cable by id. A cable that has exactly one partner (another cable of
    /// the same build) gets it as the outgoing cable, and the fiber pairs are computed anew.
    pub fn select_cable_a(&mut self, cable_id: i32, panel_id: i32)
        requires
            old(self).wf(),
        ensures
            final(self).wf(),
            final(self).situation() == old(self).situation(),
            final(self).missing_ports() == old(self).missing_ports(),
            match old(self).situation() {
                Some(s) => {
                    let found = first_cable(s.panel.schacht.cables@, cable_id);
                    let partners = match found {
                        Some(c) => indices_where(s.panel.schacht.cables@, is_partner(c)),
                        None => Seq::<int>::empty(),
                    };
                    &&& final(self).chosen_a() == found
                    &&& if partners.len() == 1 {
                        &&& final(self).chosen_b() == Some(s.panel.schacht.cables@[partners[0]])
                        &&& final(self).states() == final(self).loaded_states(panel_id)
                        &&& final(self).states_cable_a() == final(self).chosen_a()
                        &&& final(self).states_cable_b() == final(self).chosen_b()
                    } else {
                        &&& final(self).chosen_b() == old(self).chosen_b()
                        &&& final(self).entries() == old(self).entries()
                        &&& final(self).states_cable_a() == old(self).states_cable_a()
                        &&& final(self).states_cable_b() == old(self).states_cable_b()
                    }
                },
                None => final(self).chosen_a() is None && final(self).chosen_b() is None && final(self).entries() == old(self).entries(),
            },
    {
        let mut prepare = false;
        match &self.current_situation {
            Some(s) => {
                let cables = &s.panel.schacht.cables;
                let found = cable_index(cables, cable_id);
                match found {
                    Some(i) => {
                        let partners = partner_indices(cables, &cables[i]);
                        proof { lemma_indices_where(cables@, is_partner(cables@[i as int])); }
                        if partners.len() == 1 {
                            self.cable_b = Some(partners[0]);
                            prepare = true;
                        }
                    },
                    None => {},
                }
                self.cable_a = found;
            },
            None => {},
        }
        if prepare {
            self.prepare_loop_states(panel_id);
        }
    }

    /// Chooses the outgoing cable by id and computes the fiber pairs anew.
    pub fn select_cable_b(&mut self, cable_id: i32, panel_id: i32)
        requires
            old(self).wf(),
        ensures
            final(self).wf(),
            final(self).situation() == old(self).situation(),
            final(self).chosen_a() == old(self).chosen_a(),
            final(self).missing_ports() == old(self).missing_ports(),
            match old(self).situation() {
                Some(s) => {
                    &&& final(self).chosen_b() == first_cable(s.panel.schacht.cables@, cable_id)
                    &&& final(self).states() == final(self).loaded_states(panel_id)
                    &&& match (final(self).chosen_a(), final(self).chosen_b()) {
                        (Some(_), Some(_)) => final(self).states_cable_a() == final(self).chosen_a() && final(self).states_cable_b()
                            == final(self).chosen_b(),
                        _ => final(self).states_cable_a() is None && final(self).states_cable_b() is None,
                    }
                },
                None => final(self).chosen_b() is None && final(self).entries() == old(self).entries(),
            },
    {
        match &self.current_situation {
            Some(s) => {
                let found = cable_index(&s.panel.schacht.cables, cable_id);
                self.cable_b = found;
                self.prepare_loop_states(panel_id);
            },
            None => {},
        }
    }

    /// Resets a shown pair to the built state: looped when a port is built with a fiber at its
    /// position, else free.
    pub fn reset_fiber(&mut self, bundle: i32, fiber: i32)
        requires
            old(self).wf(),
        ensures
            final(self).wf(),
            final(self).situation() == old(self).situation(),
            final(self).chosen_a() == old(self).chosen_a(),
            final(self).chosen_b() == old(self).chosen_b(),
            final(self).states_cable_a() == old(self).states_cable_a(),
            final(self).states_cable_b() == old(self).states_cable_b(),
            final(self).missing_ports() == old(self).missing_ports(),
            match old(self).situation() {
                Some(s) => if old(self).states().contains_key((bundle, fiber)) {
                    final(self).states() == old(self).states().insert(
                        (bundle, fiber),
                        FiberData {
                            status: if built_at(s.ports@, (bundle, fiber)) { FiberStatus::Looped } else { FiberStatus::Free },
                            reset: true,
                            ..old(self).states()[(bundle, fiber)]
                        },
                    )
                } else {
                    final(self).entries() == old(self).entries()
                },
                None => final(self).entries() == old(self).entries(),
            },
    {
        match &self.current_situation {
            Some(s) => {
                match pos_index(&self.fiber_states, (bundle, fiber)) {
                    Some(i) => {
                        proof {
                            lemma_ascending_unique(self.fiber_states@);
                            lemma_value_at(self.fiber_states@, i as int);
                        }
                        let built = built_on(&s.ports, (bundle, fiber));
                        let old_data = self.fiber_states[i].1;
                        let status = if built { FiberStatus::Looped } else { FiberStatus::Free };
                        set_data(&mut self.fiber_states, i, FiberData { status, reset: true, ..old_data });
                    },
                    None => {},
                }
            },
            None => {},
        }
    }

    /// Loops or separates a shown pair; the pair counts as changed by the plan, not reset.
    pub fn toggle_fiber(&mut self, bundle: i32, fiber: i32, should_loop: bool)
        requires
            old(self).wf(),
        ensures
            final(self).wf(),
            final(self).situation() == old(self).situation(),
            final(self).chosen_a() == old(self).chosen_a(),
            final(self).chosen_b() == old(self).chosen_b(),
            final(self).states_cable_a() == old(self).states_cable_a(),
            final(self).states_cable_b() == old(self).states_cable_b(),
            final(self).missing_ports() == old(self).missing_ports(),
            if old(self).states().contains_key((bundle, fiber)) {
                final(self).states() == old(self).states().insert(
                    (bundle, fiber),
                    FiberData {
                        status: if should_loop { FiberStatus::Looped } else { FiberStatus::Free },
                        modified_in_plan: true,
                        reset: false,
                    },
                )
            } else {
                final(self).entries() == old(self).entries()
            },
    {
        match pos_index(&self.fiber_states, (bundle, fiber)) {
            Some(i) => {
                proof {
                    lemma_ascending_unique(self.fiber_states@);
                    lemma_value_at(self.fiber_states@, i as int);
                }
                let status = if should_loop { FiberStatus::Looped } else { FiberStatus::Free };
                set_data(&mut self.fiber_states, i, FiberData { status, modified_in_plan: true, reset: false });
            },
            None => {},
        }
    }
}


/// The fiber of a usage.
fn fiber_of_usage(u: &Option<PortUsageFragment>) -> (r: Option<Fiber>)
    ensures
        r == usage_fiber(*u),
{
    match u {
        Some(usage) => usage.fiber,
        None => None,
    }
}

fn push_attach(out: &mut Vec<PortUsageInput>, port_id: i32, side: PortSide, u: &Option<PortUsageFragment>, cable_id: i32, k: FiberPos)
    ensures
        final(out)@ == old(out)@ + attach_side(port_id, side, *u, cable_id, k),
{
    let target = Fiber { bundle: k.0, fiber: k.1, cable: CableId { id: cable_id } };
    let same = match fiber_of_usage(u) {
        Some(f) => f.bundle == target.bundle && f.fiber == target.fiber && f.cable.id == target.cable.id,
        None => false,
    };
    if !same {
        out.push(PortUsageInput { port_id, side, fiber: PortUsageUpdateAction::Attach(FiberKeyInput { cable_id, bundle: k.0, fiber: k.1 }) });
    } else {
        assert(attach_side(port_id, side, *u, cable_id, k) =~= Seq::<PortUsageInput>::empty());
        assert(old(out)@ + Seq::<PortUsageInput>::empty() =~= old(out)@);
    }
}

fn push_remove(out: &mut Vec<PortUsageInput>, port_id: i32, side: PortSide, u: &Option<PortUsageFragment>)
    ensures
        final(out)@ == old(out)@ + remove_side(port_id, side, *u),
{
    if u.is_some() {
        out.push(PortUsageInput { port_id, side, fiber: PortUsageUpdateAction::Remove(true) });
    } else {
        assert(old(out)@ + Seq::<PortUsageInput>::empty() =~= old(out)@);
    }
}

/// The looped positions, in order.
fn looped_list(states: &Vec<(FiberPos, FiberData)>) -> (r: Vec<FiberPos>)
    ensures
        r@ == looped_positions(states@),
{
    let mut r: Vec<FiberPos> = Vec::new();
    let mut i: usize = 0;
    while i < states.len()
        invariant
            i <= states.len(),
            r@ == looped_positions(states@.subrange(0, i as int)),
        decreases states.len() - i,
    {
        proof {
            let sub = states@.subrange(0, i + 1);
            assert(sub.drop_last() =~= states@.subrange(0, i as int));
            assert(sub.last() == states@[i as int]);
        }
        if states[i].1.status == FiberStatus::Looped {
            r.push(states[i].0);
        }
        i += 1;
    }
    assert(states@.subrange(0, states@.len() as int) == states@);
    r
}

/// The changes that loop the positions through the ports in order, and the number of
/// positions left without a port.
pub fn loop_port_updates(looped: &Vec<FiberPos>, ports: &Vec<PlannedPort>, cable_a_id: i32, cable_b_id: i32) -> (r: (Vec<PortUsageInput>, usize))
    ensures
        r.0@ == loop_updates(looped@, ports@, cable_a_id, cable_b_id),
        r.1 == if looped@.len() > ports@.len() { looped@.len() - ports@.len() } else { 0 },
{
    let mut updates: Vec<PortUsageInput> = Vec::new();
    let mut i: usize = 0;
    let mut n: usize = 0;
    assert(looped@.subrange(0, looped@.len() as int) =~= looped@);
    assert(ports@.subrange(0, ports@.len() as int) =~= ports@);
    assert(updates@ + loop_updates(looped@, ports@, cable_a_id, cable_b_id) =~= loop_updates(looped@, ports@, cable_a_id, cable_b_id));
    while i < ports.len()
        invariant
            i <= ports.len(),
            n <= looped.len(),
            n == if i < looped.len() { i } else { looped.len() as usize },
            updates@ + loop_updates(looped@.subrange(n as int, looped@.len() as int), ports@.subrange(i as int, ports@.len() as int), cable_a_id, cable_b_id)
                == loop_updates(looped@, ports@, cable_a_id, cable_b_id),
        decreases ports.len() - i,
    {
        let ghost rest_l = looped@.subrange(n as int, looped@.len() as int);
        let ghost rest_p = ports@.subrange(i as int, ports@.len() as int);
        let ghost before = updates@;
        let port = &ports[i];
        assert(rest_p[0] == ports@[i as int]);
        assert(rest_p.drop_first() =~= ports@.subrange(i + 1, ports@.len() as int));
        if n < looped.len() {
            let k = looped[n];
            assert(rest_l[0] == k);
            assert(rest_l.drop_first() =~= looped@.subrange(n + 1, looped@.len() as int));
            push_attach(&mut updates, port.id, PortSide::FRONT, &port.front_usage, cable_a_id, k);
            push_attach(&mut updates, port.id, PortSide::BACK, &port.back_usage, cable_b_id, k);
            n += 1;
        } else {
            push_remove(&mut updates, port.id, PortSide::FRONT, &port.front_usage);
            push_remove(&mut updates, port.id, PortSide::BACK, &port.back_usage);
        }
        proof {
            let next_l = looped@.subrange(n as int, looped@.len() as int);
            let next_p = ports@.subrange(i + 1, ports@.len() as int);
            assert(updates@ + loop_updates(next_l, next_p, cable_a_id, cable_b_id) =~= before + loop_updates(rest_l, rest_p, cable_a_id, cable_b_id));
        }
        i += 1;
    }
    assert(ports@.subrange(i as int, ports@.len() as int) =~= Seq::<PlannedPort>::empty());
    assert(updates@ + Seq::<PortUsageInput>::empty() =~= updates@);
    let missing: usize = if looped.len() > ports.len() { looped.len() - ports.len() } else { 0 };
    (updates, missing)
}

impl LoopPortEditor {
    /// The changes to store: with the panel and both cables, the looped pairs in position order
    /// go through the ports in order (cable A in front, cable B at the back, leaving alone what
    /// is there already), the ports left over are freed, and the looped pairs left without a
    /// port are counted. Nothing without the panel or a cable.
    pub fn save(&mut self) -> (r: Option<Vec<PortUsageInput>>)
        requires
            old(self).wf(),
        ensures
            final(self).wf(),
            final(self).situation() == old(self).situation(),
            final(self).chosen_a() == old(self).chosen_a(),
            final(self).chosen_b() == old(self).chosen_b(),
            final(self).entries() == old(self).entries(),
            final(self).states_cable_a() == old(self).states_cable_a(),
            final(self).states_cable_b() == old(self).states_cable_b(),
            match (old(self).situation(), old(self).chosen_a(), old(self).chosen_b()) {
                (Some(s), Some(a), Some(b)) => {
                    let looped = looped_positions(old(self).entries());
                    &&& ascending_keys(looped)
                    &&& r matches Some(u) && u@ == loop_updates(looped, s.ports@, a.cable.id, b.cable.id)
                    &&& final(self).missing_ports() == if looped.len() > s.ports@.len() { looped.len() - s.ports@.len() } else { 0 }
                },
                _ => r is None && final(self).missing_ports() == old(self).missing_ports(),
            },
    {
        match (&self.current_situation, self.cable_a, self.cable_b) {
            (Some(s), Some(i), Some(j)) => {
                let a_id = s.panel.schacht.cables[i].cable.id;
                let b_id = s.panel.schacht.cables[j].cable.id;
                let looped = looped_list(&self.fiber_states);
                proof {
                    law_looped_ascend(self.fiber_states@);
                }
                let (updates, missing) = loop_port_updates(&looped, &s.ports, a_id, b_id);
                self.missing_port_count = missing;
                Some(updates)
            },
            _ => None,
        }
    }

    /// The far port of the fiber of cable A at the position, as computed with the pairs.
    pub fn end_port_a(&self, k: FiberPos) -> (r: Option<&UsedEndPort>)
        requires
            self.wf(),
        ensures
            match r {
                Some(p) => far_at(self.states_cable_a(), k) == Some(*p),
                None => far_at(self.states_cable_a(), k) is None,
            },
    {
        match (&self.current_situation, self.states_from) {
            (Some(s), Some((i, _))) => match find_last_fiber(&s.panel.schacht.cables[i].fibers, k) {
                Some(f) => far_port_of(f),
                None => None,
            },
            _ => None,
        }
    }

    /// The far port of the fiber of cable B at the position, as computed with the pairs.
    pub fn end_port_b(&self, k: FiberPos) -> (r: Option<&UsedEndPort>)
        requires
            self.wf(),
        ensures
            match r {
                Some(p) => far_at(self.states_cable_b(), k) == Some(*p),
                None => far_at(self.states_cable_b(), k) is None,
            },
    {
        match (&self.current_situation, self.states_from) {
            (Some(s), Some((_, j))) => match find_last_fiber(&s.panel.schacht.cables[j].fibers, k) {
                Some(f) => far_port_of(f),
                None => None,
            },
            _ => None,
        }
    }

    /// Nothing changed since loading: the pairs equal those of the chosen cables as loaded, far
    /// ports included.
    pub fn is_unmodified(&self, panel_id: i32) -> (r: bool)
        requires
            self.wf(),
        ensures
            r == self.unmodified(panel_id),
    {
        let fresh = match (&self.current_situation, self.cable_a, self.cable_b) {
            (Some(s), Some(i), Some(j)) => calculate_loop_states(&s.panel.schacht.cables[i], &s.panel.schacht.cables[j], panel_id),
            _ => {
                let v: Vec<(FiberPos, FiberData)> = Vec::new();
                assert(to_map(v@) =~= Map::<FiberPos, FiberData>::empty());
                v
            },
        };
        proof {
            lemma_ascending_unique(self.fiber_states@);
            lemma_ascending_unique(fresh@);
        }
        let ab = states_within(&self.fiber_states, &fresh);
        let ba = states_within(&fresh, &self.fiber_states);
        if !(ab && ba) {
            proof {
                if self.states() == self.loaded_states(panel_id) {
                    assert(to_map(fresh@) == to_map(self.fiber_states@));
                }
            }
            return false;
        }
        assert(to_map(self.fiber_states@) =~= to_map(fresh@));
        let a = self.cable_a();
        let b = self.cable_b();
        let mut i: usize = 0;
        while i < self.fiber_states.len()
            invariant
                i <= self.fiber_states.len(),
                self.wf(),
                unique_keys(self.fiber_states@),
                match a {
                    Some(c) => self.chosen_a() == Some(*c),
                    None => self.chosen_a() is None,
                },
                match b {
                    Some(c) => self.chosen_b() == Some(*c),
                    None => self.chosen_b() is None,
                },
                forall|j: int| 0 <= j < i ==> same_end_port(far_at(self.chosen_a(), (#[trigger] self.fiber_states@[j]).0), far_at(self.states_cable_a(), self.fiber_states@[j].0))
                    && same_end_port(far_at(self.chosen_b(), self.fiber_states@[j].0), far_at(self.states_cable_b(), self.fiber_states@[j].0)),
            decreases self.fiber_states.len() - i,
        {
            let k = self.fiber_states[i].0;
            let fresh_a = match a {
                Some(c) => match find_last_fiber(&c.fibers, k) {
                    Some(f) => far_port_of(f),
                    None => None,
                },
                None => None,
            };
            let fresh_b = match b {
                Some(c) => match find_last_fiber(&c.fibers, k) {
                    Some(f) => far_port_of(f),
                    None => None,
                },
                None => None,
            };
            let stored_a = self.end_port_a(k);
            let stored_b = self.end_port_b(k);
            if !same_end_ports(fresh_a, stored_a) || !same_end_ports(fresh_b, stored_b) {
                proof { lemma_value_at(self.fiber_states@, i as int); }
                return false;
            }
            i += 1;
        }
        proof {
            assert forall|k: FiberPos| #[trigger] self.states().contains_key(k) implies same_end_port(far_at(self.chosen_a(), k), far_at(self.states_cable_a(), k))
                && same_end_port(far_at(self.chosen_b(), k), far_at(self.states_cable_b(), k)) by {
                let j = choose|j: int| 0 <= j < self.fiber_states@.len() && self.fiber_states@[j].0 == k;
                assert(self.fiber_states@[j].0 == k);
            }
        }
        true
    }
}


impl CableEnd {
    /// How a cable is offered: "name (bundles x fibers) -> far Schacht".
    pub fn label(&self) -> (r: String)
        ensures
            r@ == self.cable.name@ + " ("@ + int_text(self.cable.bundle_count as int) + "x"@ + int_text(self.cable.fiber_count as int)
                + ") -> "@ + self.path.far_schacht.name@,
    {
        let mut r = self.cable.name.clone();
        r.append(" (");
        push_int(&mut r, self.cable.bundle_count as i64);
        r.append("x");
        push_int(&mut r, self.cable.fiber_count as i64);
        r.append(") -> ");
        r.append(self.path.far_schacht.name.as_str());
        r
    }
}

/// The loop as described above its fibers: "farA(nameA)->farB(nameB) (bundles x fibers)." with
/// the build of cable A.
pub fn pair_description(a: &CableEnd, b: &CableEnd) -> (r: String)
    ensures
        r@ == a.path.far_schacht.name@ + "("@ + a.cable.name@ + ")->"@ + b.path.far_schacht.name@ + "("@ + b.cable.name@ + ") ("@
            + int_text(a.cable.bundle_count as int) + "x"@ + int_text(a.cable.fiber_count as int) + ")."@,
{
    let mut r = a.path.far_schacht.name.clone();
    r.append("(");
    r.append(a.cable.name.as_str());
    r.append(")->");
    r.append(b.path.far_schacht.name.as_str());
    r.append("(");
    r.append(b.cable.name.as_str());
    r.append(") (");
    push_int(&mut r, a.cable.bundle_count as i64);
    r.append("x");
    push_int(&mut r, a.cable.fiber_count as i64);
    r.append(").");
    r
}

/// The cables offered as cable B once cable A is chosen: the others of the same build.
pub fn partner_cables<'a>(cables: &'a Vec<CableEnd>, a: &CableEnd) -> (r: Vec<&'a CableEnd>)
    ensures
        r@.len() == indices_where(cables@, is_partner(*a)).len(),
        forall|j: int| 0 <= j < r@.len() ==> *r@[j] == cables@[indices_where(cables@, is_partner(*a))[j]],
{
    let idx = partner_indices(cables, a);
    proof { lemma_indices_where(cables@, is_partner(*a)); }
    let mut r: Vec<&'a CableEnd> = Vec::new();
    let mut i: usize = 0;
    while i < idx.len()
        invariant
            i <= idx.len(),
            idx@.len() == indices_where(cables@, is_partner(*a)).len(),
            forall|j: int| 0 <= j < idx@.len() ==> idx@[j] == indices_where(cables@, is_partner(*a))[j],
            forall|j: int| 0 <= j < indices_where(cables@, is_partner(*a)).len() ==> 0 <= #[trigger] indices_where(cables@, is_partner(*a))[j] < cables@.len(),
            r@.len() == i,
            forall|j: int| 0 <= j < i ==> *r@[j] == cables@[indices_where(cables@, is_partner(*a))[j]],
        decreases idx.len() - i,
    {
        assert(0 <= indices_where(cables@, is_partner(*a))[i as int] < cables@.len());
        r.push(&cables[idx[i]]);
        i += 1;
    }
    r
}

impl FiberStatus {
    /// The status as shown: "Frei ", "Verbunden " or "Benutzt ".
    pub fn text(&self) -> (r: &'static str)
        ensures
            r@ == match *self {
                FiberStatus::Free => "Frei "@,
                FiberStatus::Looped => "Verbunden "@,
                FiberStatus::UsedElsewhere => "Benutzt "@,
            },
    {
        match self {
            FiberStatus::Free => "Frei ",
            FiberStatus::Looped => "Verbunden ",
            FiberStatus::UsedElsewhere => "Benutzt ",
        }
    }
}

impl FiberData {
    /// A change of the plan is shown (and can be reset): changed and not reset.
    pub fn shows_planned_change(&self) -> (r: bool)
        ensures
            r == (self.modified_in_plan && !self.reset),
    {
        self.modified_in_plan && !self.reset
    }
}

/// Where a fiber of the loop ends: "Schacht panel port", an unnamed panel or port left empty.
pub fn end_port_description(p: &UsedEndPort) -> (r: String)
    ensures
        r@ == p.port.panel.schacht.name@ + " "@ + or_empty(opt_view(p.port.panel.name)) + " "@ + or_empty(opt_view(p.port.label)),
{
    let mut r = p.port.panel.schacht.name.clone();
    r.append(" ");
    match opt_str(&p.port.panel.name) {
        Some(n) => r.append(n),
        None => {},
    }
    r.append(" ");
    match opt_str(&p.port.label) {
        Some(l) => r.append(l),
        None => {},
    }
    r
}


/// The ports already hold the loops: the port at `i` carries the fiber of the position at `i`
/// on cable `a` in front and on cable `b` at the back, and the ports after the last position
/// carry nothing.
pub open spec fn loops_stored(looped: Seq<FiberPos>, ports: Seq<PlannedPort>, a: i32, b: i32) -> bool {
    forall|i: int|
        0 <= i < ports.len() ==> if i < looped.len() {
            &&& usage_fiber((#[trigger] ports[i]).front_usage) == Some(Fiber { bundle: looped[i].0, fiber: looped[i].1, cable: CableId { id: a } })
            &&& usage_fiber(ports[i].back_usage) == Some(Fiber { bundle: looped[i].0, fiber: looped[i].1, cable: CableId { id: b } })
        } else {
            ports[i].front_usage is None && ports[i].back_usage is None
        }
}

/// Saving loops that the ports already hold sends no change.
pub proof fn law_stored_loops_unchanged(looped: Seq<FiberPos>, ports: Seq<PlannedPort>, a: i32, b: i32)
    requires
        loops_stored(looped, ports, a, b),
    ensures
        loop_updates(looped, ports, a, b) == Seq::<PortUsageInput>::empty(),
    decreases ports.len(),
{
    if ports.len() > 0 {
        let p = ports[0];
        let rest = ports.drop_first();
        if looped.len() == 0 {
            assert(loops_stored(looped, rest, a, b)) by {
                assert forall|i: int| 0 <= i < rest.len() implies rest[i].front_usage is None && rest[i].back_usage is None by {
                    assert(rest[i] == ports[i + 1]);
                }
            }
            law_stored_loops_unchanged(looped, rest, a, b);
            assert(remove_side(p.id, PortSide::FRONT, p.front_usage) =~= Seq::<PortUsageInput>::empty());
            assert(remove_side(p.id, PortSide::BACK, p.back_usage) =~= Seq::<PortUsageInput>::empty());
        } else {
            let lr = looped.drop_first();
            assert(loops_stored(lr, rest, a, b)) by {
                assert forall|i: int| 0 <= i < rest.len() implies if i < lr.len() {
                    &&& usage_fiber((#[trigger] rest[i]).front_usage) == Some(Fiber { bundle: lr[i].0, fiber: lr[i].1, cable: CableId { id: a } })
                    &&& usage_fiber(rest[i].back_usage) == Some(Fiber { bundle: lr[i].0, fiber: lr[i].1, cable: CableId { id: b } })
                } else {
                    rest[i].front_usage is None && rest[i].back_usage is None
                } by {
                    assert(rest[i] == ports[i + 1]);
                    if i < lr.len() {
                        assert(lr[i] == looped[i + 1]);
                    }
                }
            }
            law_stored_loops_unchanged(lr, rest, a, b);
            assert(ports[0] == p);
            assert(attach_side(p.id, PortSide::FRONT, p.front_usage, a, looped[0]) =~= Seq::<PortUsageInput>::empty());
            assert(attach_side(p.id, PortSide::BACK, p.back_usage, b, looped[0]) =~= Seq::<PortUsageInput>::empty());
        }
        assert(loop_updates(looped, ports, a, b) =~= Seq::<PortUsageInput>::empty());
    }
}


/// Right after the fiber pairs are computed from the chosen cables (as loading the panel or
/// choosing a cable does), the editor counts as unmodified.
pub proof fn law_fresh_pair_unmodified(e: LoopPortEditor, panel_id: i32)
    requires
        e.states() == e.loaded_states(panel_id),
        e.states_cable_a() == e.chosen_a(),
        e.states_cable_b() == e.chosen_b(),
    ensures
        e.unmodified(panel_id),
{
}

} // verus!
