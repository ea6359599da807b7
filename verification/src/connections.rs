//! The port usage of a panel as planned and as currently built, the cables reaching its
//! Schacht with their fibers, and the changes of port usage sent back.

use vstd::prelude::*;
use crate::ids::{PortSide, PortType};
use crate::text::{Named, led_join, names, names_of, opt_str, opt_view, push_joined, str_texts};

verus! {

pub struct FetchPanelUsageVariables {
    pub plan_id: i32,
    pub panel_id: i32,
}

#[derive(Debug, Clone)]
pub struct FetchPanelUsage {
    pub plan: Option<Plan>,
}

#[derive(Debug, Clone)]
pub struct Plan {
    pub id: i32,
    pub panel: Option<PlannedPanel>,
}

/// A panel with its ports, as planned.
#[derive(Debug, Clone)]
pub struct PlannedPanel {
    pub panel: Panel,
    pub ports: Vec<PlannedPort>,
}

/// A port with its usage on both sides, in the plan (`*_usage`) and as built now
/// (`current_*_usage`).
#[derive(Debug, Clone)]
pub struct PlannedPort {
    pub id: i32,
    pub label: Option<String>,
    pub order_number: i32,
    pub port_type: PortType,
    pub front_usage: Option<PortUsageFragment>,
    pub back_usage: Option<PortUsageFragment>,
    pub current_front_usage: Option<PortUsageFragment>,
    pub current_back_usage: Option<PortUsageFragment>,
}

#[derive(Debug, Clone)]
pub struct Panel {
    pub schacht: Schacht,
    pub name: Option<String>,
    pub parent_chain: Vec<EndPortParentPanel>,
}

#[derive(Debug, Clone)]
pub struct Schacht {
    pub cables: Vec<CableEnd>,
    pub name: String,
}

/// A cable ending in the Schacht, with the fibers of this end.
#[derive(Debug, Clone)]
pub struct CableEnd {
    pub cable: Cable,
    pub path: CablePath,
    pub fibers: Vec<FiberOwnEnd>,
}

/// A fiber at this end of its cable: the port it is used on here, if any, and its other end.
#[derive(Debug, Clone)]
pub struct FiberOwnEnd {
    pub bundle: i32,
    pub fiber: i32,
    pub other_end: Option<FiberOtherEnd>,
    pub used_port: Option<CableUsedOwnPort>,
}

#[derive(Debug, Clone)]
pub struct CableUsedOwnPort {
    pub port: PortPanelId,
    pub modified_in_plan: bool,
}

#[derive(Debug, Clone)]
pub struct FiberOtherEnd {
    pub used_port: Option<CableUsedEndPort>,
}

#[derive(Debug, Clone)]
pub struct CableUsedEndPort {
    pub panel_side_end_port: Option<UsedEndPort>,
}

/// The port a fiber path ends at.
#[derive(Debug, Clone)]
pub struct UsedEndPort {
    pub port: EndPort,
}

#[derive(Debug, Clone)]
pub struct EndPort {
    pub label: Option<String>,
    pub panel: EndPortPanel,
}

#[derive(Debug, Clone)]
pub struct EndPortPanel {
    pub schacht: EndPortSchacht,
    pub name: Option<String>,
    pub parent_chain: Vec<EndPortParentPanel>,
}

#[derive(Debug, Clone)]
pub struct EndPortParentPanel {
    pub name: Option<String>,
}

#[derive(Debug, Clone)]
pub struct EndPortSchacht {
    pub name: String,
}

#[derive(Debug, Copy, Clone, PartialEq, Eq, Structural, Hash)]
pub struct PortPanelId {
    pub panel: PanelId,
}

#[derive(Debug, Copy, Clone, PartialEq, Eq, Structural, Hash)]
pub struct PanelId {
    pub id: i32,
}

#[derive(Debug, Clone)]
pub struct CablePath {
    pub far_schacht: RemoteSchacht,
}

#[derive(Debug, Clone)]
pub struct RemoteSchacht {
    pub name: String,
}

#[derive(Debug, Clone)]
pub struct Cable {
    pub id: i32,
    pub name: String,
    pub bundle_count: i32,
    pub fiber_count: i32,
}

/// The fiber on a side of a port, and whether the plan changed it.
#[derive(Debug, Clone)]
pub struct PortUsageFragment {
    pub fiber: Option<Fiber>,
    pub modified_in_plan: bool,
}

#[derive(Debug, Clone, Copy, PartialEq, Eq, Structural, Hash)]
pub struct Fiber {
    pub bundle: i32,
    pub fiber: i32,
    pub cable: CableId,
}

#[derive(Debug, Copy, Clone, PartialEq, Eq, Structural, Hash)]
pub struct CableId {
    pub id: i32,
}

/// The changes of port usage stored for a plan.
#[derive(Debug)]
pub struct UpdatePortUsage {
    pub plan_id: i32,
    pub usages: Vec<PortUsageInput>,
}

/// A change of the fiber on a side of a port.
#[derive(Debug, Copy, Clone, PartialEq, Eq, Structural, Hash)]
pub struct PortUsageInput {
    pub port_id: i32,
    pub side: PortSide,
    pub fiber: PortUsageUpdateAction,
}

/// Take the fiber off, go back to the built state, or attach a fiber.
#[derive(Debug, Copy, Clone, PartialEq, Eq, Structural, Hash)]
pub enum PortUsageUpdateAction {
    Remove(bool),
    Reset(bool),
    Attach(FiberKeyInput),
}

/// A fiber by cable, bundle and number.
#[derive(Debug, Copy, Clone, PartialEq, Eq, Structural, Hash, PartialOrd, Ord)]
pub struct FiberKeyInput {
    pub cable_id: i32,
    pub bundle: i32,
    pub fiber: i32,
}

impl Named for EndPortParentPanel {
    open spec fn name_view(&self) -> Option<Seq<char>> {
        opt_view(self.name)
    }

    fn name_str(&self) -> (r: Option<&str>) {
        opt_str(&self.name)
    }
}

/// A panel's place as this page writes it: "Schacht:Parent Panel" (only named panels), just
/// the Schacht without any.
pub open spec fn compact_path(schacht: Seq<char>, chain: Seq<EndPortParentPanel>, name: Option<Seq<char>>) -> Seq<char> {
    let parts = match name {
        Some(n) => names_of(chain).push(n),
        None => names_of(chain),
    };
    schacht + led_join(parts, ":"@, " "@)
}

/// The names of the chain and then the panel's own, if any.
fn chain_and_name<'a>(chain: &'a [EndPortParentPanel], name: &'a Option<String>) -> (r: Vec<&'a str>)
    ensures
        str_texts(r@) == match opt_view(*name) {
            Some(n) => names_of(chain@).push(n),
            None => names_of(chain@),
        },
{
    let mut parts = names(chain);
    match opt_str(name) {
        Some(n) => {
            let ghost before = parts@;
            parts.push(n);
            assert(str_texts(parts@) =~= str_texts(before).push(n@));
        },
        None => {},
    }
    parts
}

impl EndPortPanel {
    /// The panel as shown: "Schacht:Parent Panel".
    pub fn to_text(&self) -> (r: String)
        ensures
            r@ == compact_path(self.schacht.name@, self.parent_chain@, opt_view(self.name)),
    {
        let mut out = self.schacht.name.clone();
        let parts = chain_and_name(self.parent_chain.as_slice(), &self.name);
        push_joined(&mut out, ":", " ", parts.as_slice());
        out
    }
}

impl Panel {
    /// The panel as shown: "Schacht:Parent Panel".
    pub fn to_text(&self) -> (r: String)
        ensures
            r@ == compact_path(self.schacht.name@, self.parent_chain@, opt_view(self.name)),
    {
        let mut out = self.schacht.name.clone();
        let parts = chain_and_name(self.parent_chain.as_slice(), &self.name);
        push_joined(&mut out, ":", " ", parts.as_slice());
        out
    }
}

/// A port as shown: its panel, then ":label" if it has a label.
pub open spec fn used_port_text(p: UsedEndPort) -> Seq<char> {
    compact_path(p.port.panel.schacht.name@, p.port.panel.parent_chain@, opt_view(p.port.panel.name)) + match opt_view(
        p.port.label,
    ) {
        Some(l) => ":"@ + l,
        None => Seq::<char>::empty(),
    }
}

impl UsedEndPort {
    /// The port as shown: its panel, then ":label" if it has a label.
    pub fn to_text(&self) -> (r: String)
        ensures
            r@ == used_port_text(*self),
    {
        let mut out = self.port.panel.to_text();
        match opt_str(&self.port.label) {
            Some(l) => {
                out.append(":");
                out.append(l);
            },
            None => {},
        }
        out
    }
}

} // verus!
