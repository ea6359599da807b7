//! The issues the Netbox synchronisation of a plan reports, and how ports and Netbox rear ports
//! are named in them.

use vstd::prelude::*;
use vstd::string::StringExecFns;
use crate::text::{int_text, led_join, names, names_of, opt_str, opt_view, push_int, push_joined, str_texts, Named};

verus! {

pub struct SyncNetboxVariables {
    pub plan_id: i32,
}

/// The issues found while synchronising a plan to Netbox.
pub struct SyncNetbox {
    pub sync_plan_to_netbox: Vec<SyncIssue>,
}

/// An issue of the synchronisation.
pub enum SyncIssue {
    MissingNetboxReference(MissingNetboxReferenceError),
    BlindEnd(BlindEndError),
    AsymmetricDuplex(AsymmetricDuplexError),
    PortBlockedInNetbox(PortBlockedInNetboxError),
    NameCollision(NameCollisionError),
    MissingNetboxMasterData(MissingNetboxMasterDataError),
    RoutingLoop(RoutingLoopError),
    InvalidTargetReference(InvalidTargetReferenceError),
    Unknown,
}

pub struct MissingNetboxReferenceError {
    pub port: PanelPortInfo,
}

/// A port of a panel, as the issues name it.
#[derive(Debug, Clone)]
pub struct PanelPortInfo {
    pub order_number: i32,
    pub panel: PanelInfo,
    pub label: Option<String>,
}

#[derive(Debug, Clone)]
pub struct PanelInfo {
    pub name: Option<String>,
    pub schacht: SchachtInfo,
    pub parent_chain: Vec<ParentChainPanelInfo>,
}

#[derive(Debug, Clone)]
pub struct ParentChainPanelInfo {
    pub name: Option<String>,
}

#[derive(Debug, Clone)]
pub struct SchachtInfo {
    pub name: String,
}

impl Named for ParentChainPanelInfo {
    open spec fn name_view(&self) -> Option<Seq<char>> {
        opt_view(self.name)
    }

    fn name_str(&self) -> (r: Option<&str>) {
        opt_str(&self.name)
    }
}

pub struct BlindEndError {
    pub port: PanelPortInfo,
}

pub struct AsymmetricDuplexError {
    pub start_netbox_port: RearPort,
    pub connections: Vec<AsymetricTargetConnectionEntry>,
}

/// A Netbox device: its name and the name of its location.
#[derive(Debug, Clone)]
pub struct NetboxDevice {
    pub name: Option<String>,
    pub location_name: Option<String>,
}

/// A rear port of a Netbox device.
#[derive(Debug, Clone)]
pub struct RearPort {
    pub name: String,
    pub device: NetboxDevice,
}

#[derive(Debug, Clone)]
pub struct AsymetricTargetConnectionEntry {
    pub target_netbox_port: RearPort,
    pub pairs: Vec<PortPair>,
}

#[derive(Debug, Clone)]
pub struct PortPair {
    pub source_port: PanelPortInfo,
    pub target_port: PanelPortInfo,
}

#[derive(Debug, Clone)]
pub struct PortBlockedInNetboxError {
    pub port: PanelPortInfo,
    pub netbox_port: RearPort,
}

pub struct NameCollisionError {
    pub panel: PanelInfo,
    pub circuit_name: String,
}

pub struct MissingNetboxMasterDataError {
    pub entity_type: String,
}

pub struct RoutingLoopError {
    pub port: PanelPortInfo,
}

pub struct InvalidTargetReferenceError {
    pub port: PanelPortInfo,
}

/// The names of the panels above and then the panel's own, if any.
pub open spec fn info_names(p: PanelInfo) -> Seq<Seq<char>> {
    match opt_view(p.name) {
        Some(n) => names_of(p.parent_chain@).push(n),
        None => names_of(p.parent_chain@),
    }
}

/// A port as the issues name it: "Schacht, Parent, Panel: label", "... : Port {n}" without a
/// label.
pub open spec fn port_label_text(p: PanelPortInfo) -> Seq<char> {
    p.panel.schacht.name@ + led_join(info_names(p.panel), ", "@, ", "@) + match opt_view(p.label) {
        Some(l) => ": "@ + l,
        None => ": Port "@ + int_text(p.order_number as int),
    }
}

impl PanelPortInfo {
    /// The port as the issues name it: its Schacht, the names of its panels from the top, then
    /// its label ("Port {n}" without one).
    pub fn port_label(&self) -> (r: String)
        ensures
            r@ == port_label_text(*self),
    {
        let mut result = self.panel.schacht.name.clone();
        let mut parts = names(self.panel.parent_chain.as_slice());
        match opt_str(&self.panel.name) {
            Some(n) => {
                let ghost before = parts@;
                parts.push(n);
                assert(str_texts(parts@) =~= str_texts(before).push(n@));
            },
            None => {},
        }
        push_joined(&mut result, ", ", ", ", parts.as_slice());
        match opt_str(&self.label) {
            Some(l) => {
                result.append(": ");
                result.append(l);
            },
            None => {
                result.append(": Port ");
                push_int(&mut result, self.order_number as i64);
            },
        }
        result
    }
}

/// The text or "<kein name>".
pub open spec fn or_unnamed(o: Option<Seq<char>>) -> Seq<char> {
    match o {
        Some(t) => t,
        None => "<kein name>"@,
    }
}

/// A rear port as the issues name it: "location, device, port".
pub open spec fn rear_port_text(p: RearPort) -> Seq<char> {
    or_unnamed(opt_view(p.device.location_name)) + ", "@ + or_unnamed(opt_view(p.device.name)) + ", "@ + p.name@
}

impl RearPort {
    /// "location, device, port", "<kein name>" for a missing location or device name.
    pub fn display_name(&self) -> (r: String)
        ensures
            r@ == rear_port_text(*self),
    {
        let mut r = String::new();
        match opt_str(&self.device.location_name) {
            Some(l) => r.append(l),
            None => r.append("<kein name>"),
        }
        r.append(", ");
        match opt_str(&self.device.name) {
            Some(n) => r.append(n),
            None => r.append("<kein name>"),
        }
        r.append(", ");
        r.append(self.name.as_str());
        r
    }
}

/// The message of an issue.
pub open spec fn issue_text(issue: SyncIssue) -> Seq<char> {
    match issue {
        SyncIssue::MissingNetboxReference(e) => "Fehlende Netbox refernz beim Port "@ + port_label_text(e.port),
        SyncIssue::BlindEnd(e) => "Verbindung endet nicht auf einem Stecker "@ + port_label_text(e.port) + " "@,
        SyncIssue::AsymmetricDuplex(e) => "Verschiedene Netbox-Gegenstellen zu "@ + rear_port_text(e.start_netbox_port),
        SyncIssue::PortBlockedInNetbox(e) => "Port "@ + port_label_text(e.port) + " blockiert in Netbox: Netbox Port "@ + rear_port_text(
            e.netbox_port,
        ),
        SyncIssue::NameCollision(e) => "Namenskollision bei Circuit: "@ + e.circuit_name@,
        SyncIssue::MissingNetboxMasterData(e) => "Fehlende Netbox Stammdaten für Typ: "@ + e.entity_type@,
        SyncIssue::RoutingLoop(e) => "Routing Loop festgestellt bei Port "@ + port_label_text(e.port),
        SyncIssue::InvalidTargetReference(e) => "Ungültiges Ziel bei Port "@ + port_label_text(e.port),
        SyncIssue::Unknown => "Unbekannter Fehler"@,
    }
}

/// A line under an asymmetric duplex issue: "target: source -> target port".
pub open spec fn pair_line(target: RearPort, pair: PortPair) -> Seq<char> {
    rear_port_text(target) + ": "@ + port_label_text(pair.source_port) + " -> "@ + port_label_text(pair.target_port)
}

/// The lines under an asymmetric duplex issue, one per port pair of each connection.
pub open spec fn duplex_lines(connections: Seq<AsymetricTargetConnectionEntry>) -> Seq<Seq<char>>
    decreases connections.len(),
{
    if connections.len() == 0 {
        seq![]
    } else {
        let c = connections.last();
        duplex_lines(connections.drop_last()) + c.pairs@.map_values(|p: PortPair| pair_line(c.target_netbox_port, p))
    }
}

/// The texts of strings.
pub open spec fn texts_of(s: Seq<String>) -> Seq<Seq<char>> {
    s.map_values(|t: String| t@)
}

impl SyncIssue {
    /// The message shown for the issue.
    pub fn text(&self) -> (r: String)
        ensures
            r@ == issue_text(*self),
    {
        match self {
            SyncIssue::MissingNetboxReference(e) => {
                let mut r = String::from_str("Fehlende Netbox refernz beim Port ");
                let l = e.port.port_label();
                r.append(l.as_str());
                r
            },
            SyncIssue::BlindEnd(e) => {
                let mut r = String::from_str("Verbindung endet nicht auf einem Stecker ");
                let l = e.port.port_label();
                r.append(l.as_str());
                r.append(" ");
                r
            },
            SyncIssue::AsymmetricDuplex(e) => {
                let mut r = String::from_str("Verschiedene Netbox-Gegenstellen zu ");
                let l = e.start_netbox_port.display_name();
                r.append(l.as_str());
                r
            },
            SyncIssue::PortBlockedInNetbox(e) => {
                let mut r = String::from_str("Port ");
                let l = e.port.port_label();
                r.append(l.as_str());
                r.append(" blockiert in Netbox: Netbox Port ");
                let n = e.netbox_port.display_name();
                r.append(n.as_str());
                r
            },
            SyncIssue::NameCollision(e) => {
                let mut r = String::from_str("Namenskollision bei Circuit: ");
                r.append(e.circuit_name.as_str());
                r
            },
            SyncIssue::MissingNetboxMasterData(e) => {
                let mut r = String::from_str("Fehlende Netbox Stammdaten für Typ: ");
                r.append(e.entity_type.as_str());
                r
            },
            SyncIssue::RoutingLoop(e) => {
                let mut r = String::from_str("Routing Loop festgestellt bei Port ");
                let l = e.port.port_label();
                r.append(l.as_str());
                r
            },
            SyncIssue::InvalidTargetReference(e) => {
                let mut r = String::from_str("Ungültiges Ziel bei Port ");
                let l = e.port.port_label();
                r.append(l.as_str());
                r
            },
            SyncIssue::Unknown => String::from_str("Unbekannter Fehler"),
        }
    }

    /// The lines listed under the issue: for an asymmetric duplex, one per port pair of each
    /// connection; none for the others.
    pub fn details(&self) -> (r: Vec<String>)
        ensures
            texts_of(r@) == match *self {
                SyncIssue::AsymmetricDuplex(e) => duplex_lines(e.connections@),
                _ => Seq::<Seq<char>>::empty(),
            },
    {
        let mut r: Vec<String> = Vec::new();
        match self {
            SyncIssue::AsymmetricDuplex(e) => {
                let mut i: usize = 0;
                while i < e.connections.len()
                    invariant
                        i <= e.connections.len(),
                        texts_of(r@) == duplex_lines(e.connections@.subrange(0, i as int)),
                    decreases e.connections.len() - i,
                {
                    let c = &e.connections[i];
                    let target = c.target_netbox_port.display_name();
                    let ghost before = texts_of(r@);
                    let mut j: usize = 0;
                    while j < c.pairs.len()
                        invariant
                            j <= c.pairs.len(),
                            target@ == rear_port_text(c.target_netbox_port),
                            texts_of(r@) == before + c.pairs@.subrange(0, j as int).map_values(|p: PortPair| pair_line(c.target_netbox_port, p)),
                        decreases c.pairs.len() - j,
                    {
                        let mut line = target.clone();
                        line.append(": ");
                        let s = c.pairs[j].source_port.port_label();
                        line.append(s.as_str());
                        line.append(" -> ");
                        let t = c.pairs[j].target_port.port_label();
                        line.append(t.as_str());
                        let ghost prev = r@;
                        r.push(line);
                        assert(texts_of(r@) =~= texts_of(prev).push(line@));
                        assert(c.pairs@.subrange(0, j + 1).map_values(|p: PortPair| pair_line(c.target_netbox_port, p))
                            =~= c.pairs@.subrange(0, j as int).map_values(|p: PortPair| pair_line(c.target_netbox_port, p)).push(
                            pair_line(c.target_netbox_port, c.pairs@[j as int]),
                        ));
                        j += 1;
                    }
                    proof {
                        assert(c.pairs@.subrange(0, c.pairs@.len() as int) =~= c.pairs@);
                        let sub = e.connections@.subrange(0, i + 1);
                        assert(sub.drop_last() =~= e.connections@.subrange(0, i as int));
                        assert(sub.last() == e.connections@[i as int]);
                    }
                    i += 1;
                }
                assert(e.connections@.subrange(0, e.connections@.len() as int) =~= e.connections@);
            },
            _ => {
                assert(texts_of(r@) =~= Seq::<Seq<char>>::empty());
            },
        }
        r
    }
}

} // verus!
