//! The connection overview of a panel and the panels below it: every port with what is planned
//! on its sides, where the fibers lead, and a summary of ports used and changed.

use vstd::prelude::*;
use vstd::string::StringExecFns;
use crate::ids::{panel_path, write_panel_path, ParentChainPanel, PortType};
use crate::text::{int_text, join, names, names_of, opt_str, opt_view, push_int, str_texts};

verus! {

#[derive(Debug, Clone, Copy, PartialEq, Eq, Structural)]
pub struct FetchPanelOverviewVariables {
    pub plan_id: i32,
    pub panel_id: i32,
}

#[derive(Debug, Clone)]
pub struct FetchPanelOverview {
    pub plan: Option<PlanOverview>,
}

#[derive(Debug, Clone)]
pub struct PlanOverview {
    pub id: i32,
    pub name: String,
    pub panel: Option<PlannedPanelOverview>,
}

/// A panel with its ports as planned, and all panels below it with theirs.
#[derive(Debug, Clone)]
pub struct PlannedPanelOverview {
    pub panel: PanelOverviewDetail,
    pub ports: Vec<PlannedPortOverview>,
    pub all_children_recursive: Vec<PlannedChildPanelOverview>,
}

#[derive(Debug, Clone)]
pub struct PlannedChildPanelOverview {
    pub panel: ChildPanelDetail,
    pub ports: Vec<PlannedPortOverview>,
}

#[derive(Debug, Clone)]
pub struct PanelOverviewDetail {
    pub id: i32,
    pub name: Option<String>,
    pub schacht: SchachtOverview,
    pub parent_chain: Vec<ParentChainPanel>,
}

#[derive(Debug, Clone)]
pub struct ChildPanelDetail {
    pub id: i32,
    pub name: Option<String>,
    pub parent_id: Option<i32>,
    pub parent_order: Option<i32>,
    pub parent_chain: Vec<ParentChainPanel>,
}

#[derive(Debug, Clone)]
pub struct SchachtOverview {
    pub id: i32,
    pub name: String,
    pub cables: Vec<CableEndOverview>,
}

#[derive(Debug, Clone)]
pub struct CableEndOverview {
    pub cable: CableOverviewInfo,
    pub path: CablePathOverview,
    pub fibers: Vec<FiberOwnEndOverview>,
}

#[derive(Debug, Clone)]
pub struct CableOverviewInfo {
    pub id: i32,
    pub name: String,
    pub bundle_count: i32,
    pub fiber_count: i32,
}

#[derive(Debug, Clone)]
pub struct CablePathOverview {
    pub far_schacht: RemoteSchachtOverview,
}

#[derive(Debug, Clone)]
pub struct RemoteSchachtOverview {
    pub name: String,
}

#[derive(Debug, Clone)]
pub struct FiberOwnEndOverview {
    pub bundle: i32,
    pub fiber: i32,
    pub other_end: Option<FiberOtherEndOverview>,
    pub used_port: Option<CableUsedOwnPortOverview>,
}

#[derive(Debug, Clone, Copy, PartialEq, Eq, Structural)]
pub struct CableUsedOwnPortOverview {
    pub port: PortPanelIdOverview,
    pub modified_in_plan: bool,
}

#[derive(Debug, Clone, Copy, PartialEq, Eq, Structural)]
pub struct PortPanelIdOverview {
    pub panel: PanelIdOverview,
}

#[derive(Debug, Clone, Copy, PartialEq, Eq, Structural)]
pub struct PanelIdOverview {
    pub id: i32,
}

#[derive(Debug, Clone)]
pub struct FiberOtherEndOverview {
    pub used_port: Option<CableUsedEndPortOverview>,
}

#[derive(Debug, Clone)]
pub struct CableUsedEndPortOverview {
    pub panel_side_end_port: Option<UsedEndPortOverview>,
}

/// The port a fiber path ends at.
#[derive(Debug, Clone)]
pub struct UsedEndPortOverview {
    pub port: EndPortOverview,
}

#[derive(Debug, Clone)]
pub struct EndPortOverview {
    pub label: Option<String>,
    pub panel: EndPortPanelOverview,
}

#[derive(Debug, Clone)]
pub struct EndPortPanelOverview {
    pub id: i32,
    pub name: Option<String>,
    pub schacht: EndPortSchachtOverview,
    pub parent_chain: Vec<ParentChainPanel>,
}

#[derive(Debug, Clone)]
pub struct EndPortSchachtOverview {
    pub name: String,
}

/// A port with the usage planned on its front and back.
#[derive(Debug, Clone)]
pub struct PlannedPortOverview {
    pub id: i32,
    pub label: Option<String>,
    pub order_number: i32,
    pub port_type: PortType,
    pub front_usage: Option<PortUsageOverview>,
    pub back_usage: Option<PortUsageOverview>,
}

#[derive(Debug, Clone, Copy, PartialEq, Eq, Structural)]
pub struct PortUsageOverview {
    pub fiber: Option<FiberOverview>,
    pub modified_in_plan: bool,
}

#[derive(Debug, Clone, Copy, PartialEq, Eq, Structural)]
pub struct FiberOverview {
    pub bundle: i32,
    pub fiber: i32,
    pub cable: CableIdOverview,
}

#[derive(Debug, Clone, Copy, PartialEq, Eq, Structural)]
pub struct CableIdOverview {
    pub id: i32,
}

/// The names of the panels above and then the panel's own, if any.
pub open spec fn chain_names(chain: Seq<ParentChainPanel>, name: Option<String>) -> Seq<Seq<char>> {
    match opt_view(name) {
        Some(n) => names_of(chain).push(n),
        None => names_of(chain),
    }
}

fn chain_name_list<'a>(chain: &'a [ParentChainPanel], name: &'a Option<String>) -> (r: Vec<&'a str>)
    ensures
        str_texts(r@) == chain_names(chain@, *name),
{
    let mut parts = names(chain);
    match opt_str(name) {
        Some(n) => {
            let ghost before = parts@;
            parts.push(n);
            assert(str_texts(parts@) =~= str_texts(before).push(n@));
        },
        None => {},
    }
    parts
}

impl PanelOverviewDetail {
    /// The panel as shown: "Schacht: Parent > Panel", just the Schacht without names.
    pub fn to_text(&self) -> (r: String)
        ensures
            r@ == panel_path(Some(self.schacht.name@), chain_names(self.parent_chain@, self.name)),
    {
        let mut out = String::new();
        let parts = chain_name_list(self.parent_chain.as_slice(), &self.name);
        write_panel_path(&mut out, Some(self.schacht.name.as_str()), parts.as_slice());
        out
    }
}

impl EndPortPanelOverview {
    /// The panel as shown: "Schacht: Parent > Panel", just the Schacht without names.
    pub fn to_text(&self) -> (r: String)
        ensures
            r@ == panel_path(Some(self.schacht.name@), chain_names(self.parent_chain@, self.name)),
    {
        let mut out = String::new();
        let parts = chain_name_list(self.parent_chain.as_slice(), &self.name);
        write_panel_path(&mut out, Some(self.schacht.name.as_str()), parts.as_slice());
        out
    }
}

impl ChildPanelDetail {
    /// The panel as shown: "Parent > Panel", "Panel {id}" without names.
    pub fn to_text(&self) -> (r: String)
        ensures
            r@ == if chain_names(self.parent_chain@, self.name).len() == 0 {
                "Panel "@ + int_text(self.id as int)
            } else {
                join(chain_names(self.parent_chain@, self.name), " > "@)
            },
    {
        let mut out = String::new();
        let parts = chain_name_list(self.parent_chain.as_slice(), &self.name);
        if parts.len() == 0 {
            out.append("Panel ");
            push_int(&mut out, self.id as i64);
        } else {
            write_panel_path(&mut out, None, parts.as_slice());
        }
        out
    }
}

/// A port's text: its panel, then " : label" if it has a label.
pub open spec fn end_port_text(p: UsedEndPortOverview) -> Seq<char> {
    panel_path(Some(p.port.panel.schacht.name@), chain_names(p.port.panel.parent_chain@, p.port.panel.name)) + match opt_view(
        p.port.label,
    ) {
        Some(l) => " : "@ + l,
        None => Seq::<char>::empty(),
    }
}

impl UsedEndPortOverview {
    /// The port as shown: its panel, then " : label" if it has a label.
    pub fn to_text(&self) -> (r: String)
        ensures
            r@ == end_port_text(*self),
    {
        let mut out = self.port.panel.to_text();
        match opt_str(&self.port.label) {
            Some(l) => crate::ids::write_port_label(&mut out, l),
            None => {},
        }
        out
    }
}

/// The usage holds a fiber.
pub open spec fn has_fiber(u: Option<PortUsageOverview>) -> bool {
    u matches Some(usage) && usage.fiber is Some
}

/// The plan changed the usage.
pub open spec fn usage_modified(u: Option<PortUsageOverview>) -> bool {
    u matches Some(usage) && usage.modified_in_plan
}

/// A fiber is planned on a side of the port.
pub open spec fn port_used(p: PlannedPortOverview) -> bool {
    has_fiber(p.front_usage) || has_fiber(p.back_usage)
}

/// The plan changed a side of the port.
pub open spec fn port_modified(p: PlannedPortOverview) -> bool {
    usage_modified(p.front_usage) || usage_modified(p.back_usage)
}

/// The number of ports with a fiber planned on a side.
pub open spec fn used_count(ports: Seq<PlannedPortOverview>) -> nat
    decreases ports.len(),
{
    if ports.len() == 0 {
        0
    } else {
        used_count(ports.drop_last()) + if port_used(ports.last()) { 1nat } else { 0nat }
    }
}

/// The number of ports the plan changed.
pub open spec fn modified_count(ports: Seq<PlannedPortOverview>) -> nat
    decreases ports.len(),
{
    if ports.len() == 0 {
        0
    } else {
        modified_count(ports.drop_last()) + if port_modified(ports.last()) { 1nat } else { 0nat }
    }
}

/// Adding a port to the list adds one to the used count exactly when a fiber is planned on its
/// front or on its back, either side alone being enough.
pub proof fn law_used_count_push(ports: Seq<PlannedPortOverview>, p: PlannedPortOverview)
    ensures
        used_count(ports.push(p)) == used_count(ports) + if (p.front_usage matches Some(u) && u.fiber is Some)
            || (p.back_usage matches Some(v) && v.fiber is Some) {
            1nat
        } else {
            0nat
        },
{
    assert(ports.push(p).drop_last() =~= ports);
}

/// Adding a port to the list adds one to the count of changed ports exactly when the plan
/// changed its front or its back.
pub proof fn law_modified_count_push(ports: Seq<PlannedPortOverview>, p: PlannedPortOverview)
    ensures
        modified_count(ports.push(p)) == modified_count(ports) + if (p.front_usage matches Some(u) && u.modified_in_plan)
            || (p.back_usage matches Some(v) && v.modified_in_plan) {
            1nat
        } else {
            0nat
        },
{
    assert(ports.push(p).drop_last() =~= ports);
}

/// No more ports have a fiber planned, or were changed by the plan, than there are ports.
pub proof fn law_counts_within_total(ports: Seq<PlannedPortOverview>)
    ensures
        used_count(ports) <= ports.len(),
        modified_count(ports) <= ports.len(),
    decreases ports.len(),
{
    if ports.len() > 0 {
        law_counts_within_total(ports.drop_last());
    }
}

impl PlannedPortOverview {
    /// A fiber is planned on a side.
    pub fn is_used(&self) -> (r: bool)
        ensures
            r == port_used(*self),
    {
        let front = match self.front_usage {
            Some(u) => u.fiber.is_some(),
            None => false,
        };
        let back = match self.back_usage {
            Some(u) => u.fiber.is_some(),
            None => false,
        };
        front || back
    }

    /// The plan changed a side.
    pub fn is_modified(&self) -> (r: bool)
        ensures
            r == port_modified(*self),
    {
        let front = match self.front_usage {
            Some(u) => u.modified_in_plan,
            None => false,
        };
        let back = match self.back_usage {
            Some(u) => u.modified_in_plan,
            None => false,
        };
        front || back
    }
}

/// The number of ports with a fiber planned on a side.
pub fn count_used_ports(ports: &[PlannedPortOverview]) -> (r: usize)
    ensures
        r == used_count(ports@),
{
    let mut n: usize = 0;
    let mut i: usize = 0;
    while i < ports.len()
        invariant
            i <= ports.len(),
            n == used_count(ports@.subrange(0, i as int)),
        decreases ports.len() - i,
    {
        proof {
            let sub = ports@.subrange(0, i + 1);
            assert(sub.drop_last() =~= ports@.subrange(0, i as int));
            law_counts_within_total(ports@.subrange(0, i as int));
        }
        if ports[i].is_used() {
            n += 1;
        }
        i += 1;
    }
    assert(ports@.subrange(0, ports@.len() as int) =~= ports@);
    n
}

/// The number of ports the plan changed.
pub fn count_modified_ports(ports: &[PlannedPortOverview]) -> (r: usize)
    ensures
        r == modified_count(ports@),
{
    let mut n: usize = 0;
    let mut i: usize = 0;
    while i < ports.len()
        invariant
            i <= ports.len(),
            n == modified_count(ports@.subrange(0, i as int)),
        decreases ports.len() - i,
    {
        proof {
            let sub = ports@.subrange(0, i + 1);
            assert(sub.drop_last() =~= ports@.subrange(0, i as int));
            law_counts_within_total(ports@.subrange(0, i as int));
        }
        if ports[i].is_modified() {
            n += 1;
        }
        i += 1;
    }
    assert(ports@.subrange(0, ports@.len() as int) =~= ports@);
    n
}

/// The port the fiber's path ends at, if there is a fiber and such a port.
pub open spec fn far_end_port(f: Option<FiberOwnEndOverview>) -> Option<UsedEndPortOverview> {
    match f {
        Some(fiber) => match fiber.other_end {
            Some(e) => match e.used_port {
                Some(p) => p.panel_side_end_port,
                None => None,
            },
            None => None,
        },
        None => None,
    }
}

/// The port the fiber ends at on its other end, if used there.
pub fn cable_end_port(option: Option<&FiberOwnEndOverview>) -> (r: Option<&UsedEndPortOverview>)
    ensures
        match r {
            Some(p) => far_end_port(
                match option {
                    Some(f) => Some(*f),
                    None => None,
                },
            ) == Some(*p),
            None => far_end_port(
                match option {
                    Some(f) => Some(*f),
                    None => None,
                },
            ) is None,
        },
{
    match option {
        Some(f) => match &f.other_end {
            Some(e) => match &e.used_port {
                Some(p) => match &p.panel_side_end_port {
                    Some(u) => Some(u),
                    None => None,
                },
                None => None,
            },
            None => None,
        },
        None => None,
    }
}


/// How the flow through a port is shown.
#[derive(Debug, Clone, Copy, PartialEq, Eq, Structural)]
pub enum PortFlow {
    /// A loop port.
    Loop,
    /// Fibers on both sides.
    Connected,
    /// A fiber on one side.
    Partial,
    /// No fiber.
    Empty,
}

/// The fiber looped through a loop port: the front one, else the back one.
pub open spec fn loop_fiber_of(p: PlannedPortOverview) -> Option<FiberOverview> {
    match p.front_usage {
        Some(u) if u.fiber is Some => u.fiber,
        _ => match p.back_usage {
            Some(u) => u.fiber,
            None => None,
        },
    }
}

impl PlannedPortOverview {
    /// The label, "Port {order}" without one.
    pub fn display_label(&self) -> (r: String)
        ensures
            r@ == match opt_view(self.label) {
                Some(l) => l,
                None => "Port "@ + int_text(self.order_number as int),
            },
    {
        match &self.label {
            Some(l) => l.clone(),
            None => {
                let mut r = String::from_str("Port ");
                push_int(&mut r, self.order_number as i64);
                r
            },
        }
    }

    /// The type as shown and the class of its label.
    pub fn type_text(&self) -> (r: (&'static str, &'static str))
        ensures
            r.0@ == match self.port_type {
                PortType::Splice => "Spleiss"@,
                PortType::Connector => "Stecker"@,
                PortType::Loop => "Loop"@,
            },
            r.1@ == match self.port_type {
                PortType::Splice => "pf-m-green"@,
                PortType::Connector => "pf-m-cyan"@,
                PortType::Loop => "pf-m-purple"@,
            },
    {
        match self.port_type {
            PortType::Splice => ("Spleiss", "pf-m-green"),
            PortType::Connector => ("Stecker", "pf-m-cyan"),
            PortType::Loop => ("Loop", "pf-m-purple"),
        }
    }

    /// The fiber looped through a loop port (the front one, else the back one); none for other
    /// ports.
    pub fn loop_fiber(&self) -> (r: Option<FiberOverview>)
        ensures
            r == if self.port_type == PortType::Loop { loop_fiber_of(*self) } else { None },
    {
        if self.port_type != PortType::Loop {
            return None;
        }
        match self.front_usage {
            Some(u) if u.fiber.is_some() => u.fiber,
            _ => match self.back_usage {
                Some(u) => u.fiber,
                None => None,
            },
        }
    }

    /// The port is listed: loop ports only with a fiber looped through.
    pub fn is_shown(&self) -> (r: bool)
        ensures
            r == (self.port_type != PortType::Loop || loop_fiber_of(*self) is Some),
    {
        self.port_type != PortType::Loop || self.loop_fiber().is_some()
    }

    /// How the flow through the port is shown.
    pub fn flow(&self) -> (r: PortFlow)
        ensures
            r == if self.port_type == PortType::Loop {
                PortFlow::Loop
            } else if has_fiber(self.front_usage) && has_fiber(self.back_usage) {
                PortFlow::Connected
            } else if has_fiber(self.front_usage) || has_fiber(self.back_usage) {
                PortFlow::Partial
            } else {
                PortFlow::Empty
            },
    {
        if self.port_type == PortType::Loop {
            return PortFlow::Loop;
        }
        let front = match self.front_usage {
            Some(u) => u.fiber.is_some(),
            None => false,
        };
        let back = match self.back_usage {
            Some(u) => u.fiber.is_some(),
            None => false,
        };
        if front && back {
            PortFlow::Connected
        } else if front || back {
            PortFlow::Partial
        } else {
            PortFlow::Empty
        }
    }
}

/// The first cable end with this cable id.
pub open spec fn first_cable_end(cables: Seq<CableEndOverview>, id: i32) -> Option<CableEndOverview>
    decreases cables.len(),
{
    if cables.len() == 0 {
        None
    } else if cables[0].cable.id == id {
        Some(cables[0])
    } else {
        first_cable_end(cables.drop_first(), id)
    }
}

/// The first fiber with this bundle and number.
pub open spec fn first_fiber_end(fibers: Seq<FiberOwnEndOverview>, bundle: i32, fiber: i32) -> Option<FiberOwnEndOverview>
    decreases fibers.len(),
{
    if fibers.len() == 0 {
        None
    } else if fibers[0].bundle == bundle && fibers[0].fiber == fiber {
        Some(fibers[0])
    } else {
        first_fiber_end(fibers.drop_first(), bundle, fiber)
    }
}

fn find_cable_end(cables: &Vec<CableEndOverview>, id: i32) -> (r: Option<&CableEndOverview>)
    ensures
        match r {
            Some(c) => first_cable_end(cables@, id) == Some(*c),
            None => first_cable_end(cables@, id) is None,
        },
{
    let mut i: usize = 0;
    assert(cables@.subrange(0, cables@.len() as int) == cables@);
    while i < cables.len()
        invariant
            i <= cables.len(),
            first_cable_end(cables@, id) == first_cable_end(cables@.subrange(i as int, cables@.len() as int), id),
        decreases cables.len() - i,
    {
        let ghost rest = cables@.subrange(i as int, cables@.len() as int);
        assert(rest[0] == cables@[i as int]);
        if cables[i].cable.id == id {
            return Some(&cables[i]);
        }
        assert(rest.drop_first() =~= cables@.subrange(i + 1, cables@.len() as int));
        i += 1;
    }
    assert(cables@.subrange(i as int, cables@.len() as int) =~= Seq::<CableEndOverview>::empty());
    None
}

fn find_fiber_end(fibers: &Vec<FiberOwnEndOverview>, bundle: i32, fiber: i32) -> (r: Option<&FiberOwnEndOverview>)
    ensures
        match r {
            Some(f) => first_fiber_end(fibers@, bundle, fiber) == Some(*f),
            None => first_fiber_end(fibers@, bundle, fiber) is None,
        },
{
    let mut i: usize = 0;
    assert(fibers@.subrange(0, fibers@.len() as int) == fibers@);
    while i < fibers.len()
        invariant
            i <= fibers.len(),
            first_fiber_end(fibers@, bundle, fiber) == first_fiber_end(fibers@.subrange(i as int, fibers@.len() as int), bundle, fiber),
        decreases fibers.len() - i,
    {
        let ghost rest = fibers@.subrange(i as int, fibers@.len() as int);
        assert(rest[0] == fibers@[i as int]);
        if fibers[i].bundle == bundle && fibers[i].fiber == fiber {
            return Some(&fibers[i]);
        }
        assert(rest.drop_first() =~= fibers@.subrange(i + 1, fibers@.len() as int));
        i += 1;
    }
    assert(fibers@.subrange(i as int, fibers@.len() as int) =~= Seq::<FiberOwnEndOverview>::empty());
    None
}

/// What a side of a port shows when a fiber is planned on it: the cable (its name, "Kabel {id}"
/// for a cable not in the Schacht), the Schacht at its far end, the fiber, whether the plan
/// changed it, and the port its path ends at.
pub struct ConnectionCell {
    pub cable_id: i32,
    pub cable_name: String,
    pub far_schacht: Option<String>,
    pub fiber: FiberOverview,
    pub modified_in_plan: bool,
    pub destination: Option<String>,
}

/// The cell shows the usage of a side as the Schacht's cables describe it.
pub open spec fn shows_usage(cell: ConnectionCell, usage: PortUsageOverview, f: FiberOverview, cables: Seq<CableEndOverview>) -> bool {
    let end = first_cable_end(cables, f.cable.id);
    &&& cell.cable_id == f.cable.id
    &&& cell.fiber == f
    &&& cell.modified_in_plan == usage.modified_in_plan
    &&& cell.cable_name@ == match end {
        Some(c) => c.cable.name@,
        None => "Kabel "@ + int_text(f.cable.id as int),
    }
    &&& opt_view(cell.far_schacht) == match end {
        Some(c) => Some(c.path.far_schacht.name@),
        None => None,
    }
    &&& opt_view(cell.destination) == match end {
        Some(c) => match far_end_port(first_fiber_end(c.fibers@, f.bundle, f.fiber)) {
            Some(p) => Some(end_port_text(p)),
            None => None,
        },
        None => None,
    }
}

impl SchachtOverview {
    /// What a side of a port shows; `None` for a free side (no usage or no fiber).
    pub fn connection_cell(&self, usage: Option<&PortUsageOverview>) -> (r: Option<ConnectionCell>)
        ensures
            match usage {
                Some(u) => match u.fiber {
                    Some(f) => r matches Some(cell) && shows_usage(cell, *u, f, self.cables@),
                    None => r is None,
                },
                None => r is None,
            },
    {
        let usage = match usage {
            Some(u) => u,
            None => return None,
        };
        let f = match usage.fiber {
            Some(f) => f,
            None => return None,
        };
        let end = find_cable_end(&self.cables, f.cable.id);
        let cable_name = match end {
            Some(c) => c.cable.name.clone(),
            None => {
                let mut r = String::from_str("Kabel ");
                push_int(&mut r, f.cable.id as i64);
                r
            },
        };
        let far_schacht = match end {
            Some(c) => Some(c.path.far_schacht.name.clone()),
            None => None,
        };
        let destination = match end {
            Some(c) => match cable_end_port(find_fiber_end(&c.fibers, f.bundle, f.fiber)) {
                Some(p) => Some(p.to_text()),
                None => None,
            },
            None => None,
        };
        Some(ConnectionCell { cable_id: f.cable.id, cable_name, far_schacht, fiber: f, modified_in_plan: usage.modified_in_plan, destination })
    }
}

/// The panels below with ports, in order.
pub open spec fn with_ports(children: Seq<PlannedChildPanelOverview>) -> Seq<PlannedChildPanelOverview> {
    children.filter(|c: PlannedChildPanelOverview| c.ports@.len() > 0)
}

/// Sums over the panels below.
pub open spec fn children_ports(children: Seq<PlannedChildPanelOverview>) -> nat
    decreases children.len(),
{
    if children.len() == 0 {
        0
    } else {
        children_ports(children.drop_last()) + children.last().ports@.len()
    }
}

pub open spec fn children_used(children: Seq<PlannedChildPanelOverview>) -> nat
    decreases children.len(),
{
    if children.len() == 0 {
        0
    } else {
        children_used(children.drop_last()) + used_count(children.last().ports@)
    }
}

pub open spec fn children_modified(children: Seq<PlannedChildPanelOverview>) -> nat
    decreases children.len(),
{
    if children.len() == 0 {
        0
    } else {
        children_modified(children.drop_last()) + modified_count(children.last().ports@)
    }
}

/// The figures at the top of the overview: panels with ports, their ports, those with a fiber
/// planned, and those the plan changed.
#[derive(Debug, Clone, Copy, PartialEq, Eq, Structural)]
pub struct OverviewSummary {
    pub total_panels: usize,
    pub total_ports: usize,
    pub used_ports: usize,
    pub modified_ports: usize,
}

impl OverviewSummary {
    /// The ports without a fiber planned.
    pub fn free_ports(&self) -> (r: usize)
        ensures
            r == if self.total_ports >= self.used_ports { self.total_ports - self.used_ports } else { 0 },
    {
        self.total_ports.saturating_sub(self.used_ports)
    }

    /// "1 Panel" or "{n} Panels".
    pub fn panels_label(&self) -> (r: String)
        ensures
            r@ == if self.total_panels == 1 { "1 Panel"@ } else { int_text(self.total_panels as int) + " Panels"@ },
    {
        if self.total_panels == 1 {
            String::from_str("1 Panel")
        } else {
            let mut r = String::new();
            crate::text::push_nat(&mut r, self.total_panels as u64);
            r.append(" Panels");
            proof {
                assert(int_text(self.total_panels as int) == crate::text::nat_text(self.total_panels as nat));
            }
            r
        }
    }
}

impl PlannedChildPanelOverview {
    /// Splices or connectors among its own ports.
    pub fn has_direct_ports(&self) -> (r: bool)
        ensures
            r == exists|i: int| 0 <= i < self.ports@.len() && self.ports@[i].port_type != PortType::Loop,
    {
        let mut i: usize = 0;
        while i < self.ports.len()
            invariant
                i <= self.ports.len(),
                forall|j: int| 0 <= j < i ==> self.ports@[j].port_type == PortType::Loop,
            decreases self.ports.len() - i,
        {
            if self.ports[i].port_type != PortType::Loop {
                return true;
            }
            i += 1;
        }
        false
    }

    /// Loop ports among its own ports.
    pub fn has_direct_loops(&self) -> (r: bool)
        ensures
            r == exists|i: int| 0 <= i < self.ports@.len() && self.ports@[i].port_type == PortType::Loop,
    {
        let mut i: usize = 0;
        while i < self.ports.len()
            invariant
                i <= self.ports.len(),
                forall|j: int| 0 <= j < i ==> self.ports@[j].port_type != PortType::Loop,
            decreases self.ports.len() - i,
        {
            if self.ports[i].port_type == PortType::Loop {
                return true;
            }
            i += 1;
        }
        false
    }

    /// Its depth below the panel shown, at least 1.
    pub fn hierarchy_level(&self) -> (r: usize)
        ensures
            r == if self.panel.parent_chain@.len() > 1 { self.panel.parent_chain@.len() } else { 1 },
    {
        if self.panel.parent_chain.len() > 1 {
            self.panel.parent_chain.len()
        } else {
            1
        }
    }
}

impl PlannedPanelOverview {
    /// The panels below with ports, in order.
    pub fn child_panels_with_ports(&self) -> (r: Vec<&PlannedChildPanelOverview>)
        ensures
            r@.len() == with_ports(self.all_children_recursive@).len(),
            forall|i: int| 0 <= i < r@.len() ==> *r@[i] == with_ports(self.all_children_recursive@)[i],
    {
        let ghost keep = |c: PlannedChildPanelOverview| c.ports@.len() > 0;
        let children = &self.all_children_recursive;
        let mut r: Vec<&PlannedChildPanelOverview> = Vec::new();
        let mut i: usize = 0;
        while i < children.len()
            invariant
                i <= children.len(),
                keep == (|c: PlannedChildPanelOverview| c.ports@.len() > 0),
                r@.len() == children@.subrange(0, i as int).filter(keep).len(),
                forall|j: int| 0 <= j < r@.len() ==> *r@[j] == children@.subrange(0, i as int).filter(keep)[j],
            decreases children.len() - i,
        {
            proof {
                children@.subrange(0, i as int).lemma_filter_push(children@[i as int], keep);
                assert(children@.subrange(0, i + 1) == children@.subrange(0, i as int).push(children@[i as int]));
            }
            if children[i].ports.len() > 0 {
                r.push(&children[i]);
            }
            i += 1;
        }
        assert(children@.subrange(0, children@.len() as int) == children@);
        r
    }

    /// The figures of the overview: the panel itself counts only with ports, the panels below
    /// with ports each count with all their ports.
    pub fn summary(&self) -> (r: OverviewSummary)
        requires
            self.ports@.len() + children_ports(with_ports(self.all_children_recursive@)) <= usize::MAX,
            self.all_children_recursive@.len() < usize::MAX,
        ensures
            r.total_panels == (if self.ports@.len() > 0 { 1nat } else { 0nat }) + with_ports(self.all_children_recursive@).len(),
            r.total_ports == self.ports@.len() + children_ports(with_ports(self.all_children_recursive@)),
            r.used_ports == used_count(self.ports@) + children_used(with_ports(self.all_children_recursive@)),
            r.modified_ports == modified_count(self.ports@) + children_modified(with_ports(self.all_children_recursive@)),
    {
        let children = self.child_panels_with_ports();
        let ghost wp = with_ports(self.all_children_recursive@);
        proof {
            law_counts_within_total(self.ports@);
            self.all_children_recursive@.lemma_filter_len(|c: PlannedChildPanelOverview| c.ports@.len() > 0);
        }
        let has_root = self.ports.len() > 0;
        let mut total_ports: usize = self.ports.len();
        let mut used_ports: usize = count_used_ports(self.ports.as_slice());
        let mut modified_ports: usize = count_modified_ports(self.ports.as_slice());
        let mut i: usize = 0;
        while i < children.len()
            invariant
                i <= children.len(),
                children@.len() == wp.len(),
                forall|j: int| 0 <= j < children@.len() ==> *children@[j] == wp[j],
                self.ports@.len() + children_ports(wp) <= usize::MAX,
                total_ports == self.ports@.len() + children_ports(wp.subrange(0, i as int)),
                used_ports == used_count(self.ports@) + children_used(wp.subrange(0, i as int)),
                modified_ports == modified_count(self.ports@) + children_modified(wp.subrange(0, i as int)),
                used_ports <= total_ports,
                modified_ports <= total_ports,
            decreases children.len() - i,
        {
            proof {
                let sub = wp.subrange(0, i + 1);
                assert(sub.drop_last() =~= wp.subrange(0, i as int));
                assert(sub.last() == wp[i as int]);
                lemma_children_ports_prefix(wp, i + 1);
                law_counts_within_total(wp[i as int].ports@);
            }
            let c = children[i];
            total_ports = total_ports + c.ports.len();
            used_ports = used_ports + count_used_ports(c.ports.as_slice());
            modified_ports = modified_ports + count_modified_ports(c.ports.as_slice());
            i += 1;
        }
        assert(wp.subrange(0, wp.len() as int) == wp);
        let total_panels: usize = if has_root { 1 + children.len() } else { children.len() };
        OverviewSummary { total_panels, total_ports, used_ports, modified_ports }
    }
}

proof fn lemma_children_ports_prefix(s: Seq<PlannedChildPanelOverview>, k: int)
    requires
        0 <= k <= s.len(),
    ensures
        children_ports(s.subrange(0, k)) <= children_ports(s),
    decreases s.len(),
{
    if k < s.len() {
        assert(s.drop_last().subrange(0, k) =~= s.subrange(0, k));
        lemma_children_ports_prefix(s.drop_last(), k);
    } else {
        assert(s.subrange(0, k) =~= s);
    }
}

/// `p` goes after every port of `sorted` numbered at most as `p` is.
pub open spec fn insert_by_order(sorted: Seq<PlannedPortOverview>, p: PlannedPortOverview) -> Seq<PlannedPortOverview>
    decreases sorted.len(),
{
    if sorted.len() == 0 || sorted.last().order_number <= p.order_number {
        sorted.push(p)
    } else {
        insert_by_order(sorted.drop_last(), p).push(sorted.last())
    }
}

/// The ports ordered by number, ports with equal numbers in their order (a stable sort).
pub open spec fn sorted_by_order(ports: Seq<PlannedPortOverview>) -> Seq<PlannedPortOverview>
    decreases ports.len(),
{
    if ports.len() == 0 {
        seq![]
    } else {
        insert_by_order(sorted_by_order(ports.drop_last()), ports.last())
    }
}

proof fn lemma_insert_len(sorted: Seq<PlannedPortOverview>, p: PlannedPortOverview)
    ensures
        insert_by_order(sorted, p).len() == sorted.len() + 1,
    decreases sorted.len(),
{
    if sorted.len() > 0 && sorted.last().order_number > p.order_number {
        lemma_insert_len(sorted.drop_last(), p);
    }
}

/// Inserts `p` into the list ordered by number, after the ports numbered at most as it is.
fn insert_port<'a>(sorted: &mut Vec<&'a PlannedPortOverview>, p: &'a PlannedPortOverview)
    ensures
        deref_ports(final(sorted)@) == insert_by_order(deref_ports(old(sorted)@), *p),
{
    let ghost old_s = deref_ports(sorted@);
    let mut j: usize = sorted.len();
    assert(old_s.subrange(0, j as int) =~= old_s);
    assert(insert_by_order(old_s, *p) + old_s.subrange(j as int, old_s.len() as int) =~= insert_by_order(old_s, *p));
    while j > 0 && sorted[j - 1].order_number > p.order_number
        invariant
            j <= sorted@.len(),
            deref_ports(sorted@) == old_s,
            insert_by_order(old_s, *p) == insert_by_order(old_s.subrange(0, j as int), *p) + old_s.subrange(j as int, old_s.len() as int),
        decreases j,
    {
        proof {
            let pre = old_s.subrange(0, j as int);
            assert(pre.last() == old_s[j - 1]);
            assert(pre.drop_last() =~= old_s.subrange(0, j - 1));
            assert(old_s.subrange(j - 1, old_s.len() as int) =~= seq![old_s[j - 1]] + old_s.subrange(j as int, old_s.len() as int));
            assert(insert_by_order(pre, *p) == insert_by_order(old_s.subrange(0, j - 1), *p).push(old_s[j - 1]));
            assert(insert_by_order(old_s.subrange(0, j - 1), *p).push(old_s[j - 1]) + old_s.subrange(j as int, old_s.len() as int)
                =~= insert_by_order(old_s.subrange(0, j - 1), *p) + old_s.subrange(j - 1, old_s.len() as int));
        }
        j -= 1;
    }
    proof {
        let pre = old_s.subrange(0, j as int);
        assert(insert_by_order(pre, *p) == pre.push(*p));
    }
    sorted.insert(j, p);
    proof {
        assert(deref_ports(sorted@) =~= old_s.subrange(0, j as int).push(*p) + old_s.subrange(j as int, old_s.len() as int));
    }
}

/// The ports the references point to.
pub open spec fn deref_ports(s: Seq<&PlannedPortOverview>) -> Seq<PlannedPortOverview> {
    s.map_values(|p: &PlannedPortOverview| *p)
}

/// The ports ordered by number, ports with equal numbers in their order.
pub fn sorted_ports(ports: &[PlannedPortOverview]) -> (r: Vec<&PlannedPortOverview>)
    ensures
        deref_ports(r@) == sorted_by_order(ports@),
{
    let mut r: Vec<&PlannedPortOverview> = Vec::new();
    let mut i: usize = 0;
    assert(deref_ports(r@) =~= Seq::<PlannedPortOverview>::empty());
    while i < ports.len()
        invariant
            i <= ports.len(),
            deref_ports(r@) == sorted_by_order(ports@.subrange(0, i as int)),
        decreases ports.len() - i,
    {
        proof {
            let sub = ports@.subrange(0, i + 1);
            assert(sub.drop_last() =~= ports@.subrange(0, i as int));
            assert(sub.last() == ports@[i as int]);
        }
        insert_port(&mut r, &ports[i]);
        i += 1;
    }
    assert(ports@.subrange(0, ports@.len() as int) == ports@);
    r
}


/// The ports ascend by number.
pub open spec fn ascending_orders(s: Seq<PlannedPortOverview>) -> bool {
    forall|i: int, j: int| 0 <= i < j < s.len() ==> s[i].order_number <= s[j].order_number
}

proof fn lemma_insert_by_order(sorted: Seq<PlannedPortOverview>, p: PlannedPortOverview)
    requires
        ascending_orders(sorted),
    ensures
        ascending_orders(insert_by_order(sorted, p)),
        insert_by_order(sorted, p).to_multiset() == sorted.to_multiset().insert(p),
        forall|i: int|
            0 <= i < insert_by_order(sorted, p).len() ==> #[trigger] insert_by_order(sorted, p)[i] == p || sorted.contains(
                insert_by_order(sorted, p)[i],
            ),
    decreases sorted.len(),
{
    broadcast use vstd::seq_lib::group_to_multiset_ensures;

    let r = insert_by_order(sorted, p);
    if sorted.len() == 0 || sorted.last().order_number <= p.order_number {
        assert forall|i: int, j: int| 0 <= i < j < r.len() implies r[i].order_number <= r[j].order_number by {
            if j == r.len() - 1 && sorted.len() > 0 {
                assert(r[i] == sorted[i]);
                assert(sorted[i].order_number <= sorted.last().order_number);
            }
        }
        assert forall|i: int| 0 <= i < r.len() implies #[trigger] r[i] == p || sorted.contains(r[i]) by {
            if i < sorted.len() {
                assert(r[i] == sorted[i]);
            }
        }
    } else {
        let front = sorted.drop_last();
        let last = sorted.last();
        assert(ascending_orders(front));
        lemma_insert_by_order(front, p);
        let inner = insert_by_order(front, p);
        assert(r == inner.push(last));
        assert(sorted == front.push(last));
        assert forall|i: int| 0 <= i < inner.len() implies inner[i].order_number <= last.order_number by {
            if inner[i] != p {
                assert(front.contains(inner[i]));
                let w = choose|w: int| 0 <= w < front.len() && front[w] == inner[i];
                assert(sorted[w] == front[w]);
            }
        }
        assert forall|i: int, j: int| 0 <= i < j < r.len() implies r[i].order_number <= r[j].order_number by {
            if j == r.len() - 1 {
                assert(r[i] == inner[i]);
            } else {
                assert(r[i] == inner[i] && r[j] == inner[j]);
            }
        }
        assert forall|i: int| 0 <= i < r.len() implies #[trigger] r[i] == p || sorted.contains(r[i]) by {
            if i < inner.len() {
                assert(r[i] == inner[i]);
                if inner[i] != p {
                    assert(front.contains(inner[i]));
                    let w = choose|w: int| 0 <= w < front.len() && front[w] == inner[i];
                    assert(sorted[w] == front[w]);
                }
            } else {
                assert(sorted[sorted.len() - 1] == last);
            }
        }
        assert(r.to_multiset() =~= sorted.to_multiset().insert(p));
    }
}

/// The ports as `sorted_ports` orders them ascend by number and are the given ports, each as
/// often as given.
pub proof fn law_sorted_ports(ports: Seq<PlannedPortOverview>)
    ensures
        ascending_orders(sorted_by_order(ports)),
        sorted_by_order(ports).to_multiset() == ports.to_multiset(),
    decreases ports.len(),
{
    broadcast use vstd::seq_lib::group_to_multiset_ensures;

    if ports.len() > 0 {
        law_sorted_ports(ports.drop_last());
        lemma_insert_by_order(sorted_by_order(ports.drop_last()), ports.last());
        assert(ports == ports.drop_last().push(ports.last()));
    } else {
        assert(sorted_by_order(ports).to_multiset() =~= ports.to_multiset());
    }
}



/// The overview's figures fit together: no more ports of the panels below are used or changed
/// than they have, so the free ports are the ports not used.
pub proof fn law_children_counts_within(children: Seq<PlannedChildPanelOverview>)
    ensures
        children_used(children) <= children_ports(children),
        children_modified(children) <= children_ports(children),
    decreases children.len(),
{
    if children.len() > 0 {
        law_children_counts_within(children.drop_last());
        law_counts_within_total(children.last().ports@);
    }
}

} // verus!
