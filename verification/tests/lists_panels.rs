use cable_editor::cabinet::PanelTreeEntry;
use cable_editor::lists::{
    icon_data_url,
    chrono_stub_date, duct_title, object_title, panel_menu_entries, panel_name_or_id, panel_views, with_self,
    ChildPanelNav, OverviewNetboxDevice, PanelLabelButtonProps, PanelView, PlanStatus, Role, SchachtTypListEntry,
};
use cable_editor::netbox::{
    AsymetricTargetConnectionEntry, AsymmetricDuplexError, BlindEndError, MissingNetboxMasterDataError, NameCollisionError,
    NetboxDevice, PanelInfo, PanelPortInfo, ParentChainPanelInfo, PortBlockedInNetboxError, PortPair, RearPort,
    RoutingLoopError, SchachtInfo, SyncIssue, InvalidTargetReferenceError, MissingNetboxReferenceError,
};
use cable_editor::panel_tree::{ChildPanelEntry, NetboxDeviceId, RootPanelEntry};
use cable_editor::schacht::{
    CableSegmentEndSchacht, SchachtCable, SchachtCableEnd, SchachtCablePath, SchachtCables, SchachtChildPanel, SchachtRootPanel,
};

fn port_info(label: Option<&str>, order: i32) -> PanelPortInfo {
    PanelPortInfo {
        order_number: order,
        panel: PanelInfo {
            name: Some("P1".to_string()),
            schacht: SchachtInfo { name: "S1".to_string() },
            parent_chain: vec![ParentChainPanelInfo { name: Some("Rack".to_string()) }, ParentChainPanelInfo { name: None }],
        },
        label: label.map(str::to_string),
    }
}

fn rear(name: &str, device: Option<&str>, location: Option<&str>) -> RearPort {
    RearPort {
        name: name.to_string(),
        device: NetboxDevice { name: device.map(str::to_string), location_name: location.map(str::to_string) },
    }
}

#[test]
fn port_and_rear_port_names() {
    assert_eq!(port_info(Some("12"), 3).port_label(), "S1, Rack, P1: 12");
    assert_eq!(port_info(None, 3).port_label(), "S1, Rack, P1: Port 3");
    assert_eq!(rear("r1", Some("dev"), Some("loc")).display_name(), "loc, dev, r1");
    assert_eq!(rear("r1", None, None).display_name(), "<kein name>, <kein name>, r1");
}

#[test]
fn issue_texts() {
    let p = port_info(Some("12"), 3);
    assert_eq!(
        SyncIssue::MissingNetboxReference(MissingNetboxReferenceError { port: p.clone() }).text(),
        "Fehlende Netbox refernz beim Port S1, Rack, P1: 12"
    );
    assert_eq!(
        SyncIssue::BlindEnd(BlindEndError { port: p.clone() }).text(),
        "Verbindung endet nicht auf einem Stecker S1, Rack, P1: 12 "
    );
    assert_eq!(
        SyncIssue::PortBlockedInNetbox(PortBlockedInNetboxError { port: p.clone(), netbox_port: rear("r1", Some("d"), Some("l")) }).text(),
        "Port S1, Rack, P1: 12 blockiert in Netbox: Netbox Port l, d, r1"
    );
    assert_eq!(
        SyncIssue::NameCollision(NameCollisionError { panel: p.panel.clone(), circuit_name: "C7".to_string() }).text(),
        "Namenskollision bei Circuit: C7"
    );
    assert_eq!(
        SyncIssue::MissingNetboxMasterData(MissingNetboxMasterDataError { entity_type: "Site".to_string() }).text(),
        "Fehlende Netbox Stammdaten für Typ: Site"
    );
    assert_eq!(
        SyncIssue::RoutingLoop(RoutingLoopError { port: p.clone() }).text(),
        "Routing Loop festgestellt bei Port S1, Rack, P1: 12"
    );
    assert_eq!(
        SyncIssue::InvalidTargetReference(InvalidTargetReferenceError { port: p.clone() }).text(),
        "Ungültiges Ziel bei Port S1, Rack, P1: 12"
    );
    assert_eq!(SyncIssue::Unknown.text(), "Unbekannter Fehler");
    assert!(SyncIssue::Unknown.details().is_empty());
}

#[test]
fn duplex_issue_lists_each_pair() {
    let issue = SyncIssue::AsymmetricDuplex(AsymmetricDuplexError {
        start_netbox_port: rear("r0", Some("d0"), Some("l0")),
        connections: vec![AsymetricTargetConnectionEntry {
            target_netbox_port: rear("r1", Some("d1"), Some("l1")),
            pairs: vec![
                PortPair { source_port: port_info(Some("1"), 1), target_port: port_info(Some("2"), 2) },
                PortPair { source_port: port_info(None, 3), target_port: port_info(Some("4"), 4) },
            ],
        }],
    });
    assert_eq!(issue.text(), "Verschiedene Netbox-Gegenstellen zu l0, d0, r0");
    assert_eq!(
        issue.details(),
        vec![
            "l1, d1, r1: S1, Rack, P1: 1 -> S1, Rack, P1: 2".to_string(),
            "l1, d1, r1: S1, Rack, P1: Port 3 -> S1, Rack, P1: 4".to_string(),
        ]
    );
}

fn child(id: i32, parent: i32, order: Option<i32>, name: &str) -> SchachtChildPanel {
    SchachtChildPanel { id, name: Some(name.to_string()), parent_id: Some(parent), parent_order: order, count_ports: id }
}

#[test]
fn schacht_panels_depth_first_by_place() {
    let s = SchachtCables {
        id: 1,
        name: "S1".to_string(),
        root_panels: vec![SchachtRootPanel {
            id: 1,
            name: Some("Rack".to_string()),
            count_ports: 0,
            all_children_recursive: vec![child(2, 1, Some(2), "B"), child(3, 1, Some(1), "A"), child(4, 3, None, "A1")],
        }],
        cables: vec![SchachtCableEnd {
            cable: SchachtCable { id: 9, name: "K9".to_string() },
            path: SchachtCablePath { far_schacht: CableSegmentEndSchacht { id: 2, name: "S2".to_string() } },
        }],
    };
    let panels = s.panels();
    assert_eq!(panels.iter().map(|p| p.id).collect::<Vec<_>>(), vec![1, 3, 4, 2]);
    assert_eq!(panels[2].parents, vec!["Rack".to_string(), "A".to_string()]);
    assert!(panels[0].parents.is_empty());
    assert_eq!(s.cables[0].label_text(), "K9-S2");
}

fn root(id: i32, children: Vec<ChildPanelEntry>) -> RootPanelEntry {
    RootPanelEntry {
        id,
        name: Some(format!("R{id}")),
        all_children_recursive: children,
        count_ports: 4,
        count_loop_ports: 1,
        netbox_device: Some(NetboxDeviceId { id: 50 }),
    }
}

fn tree_child(id: i32, parent: i32, order: Option<i32>) -> ChildPanelEntry {
    ChildPanelEntry {
        id,
        name: Some(format!("C{id}")),
        parent_id: Some(parent),
        parent_order: order,
        count_ports: 2,
        count_loop_ports: 0,
        netbox_device: None,
    }
}

fn shape(e: &PanelTreeEntry) -> String {
    let inner: Vec<String> = e.children.iter().map(shape).collect();
    if inner.is_empty() {
        e.id.to_string()
    } else {
        format!("{}[{}]", e.id, inner.join(","))
    }
}

#[test]
fn panel_tree_from_rows() {
    let roots = vec![root(1, vec![tree_child(2, 1, Some(2)), tree_child(3, 1, Some(1)), tree_child(4, 3, Some(1))]), root(5, vec![])];
    let trees = PanelTreeEntry::try_from_root_panels(roots).expect("the rows form a tree");
    assert_eq!(trees.iter().map(shape).collect::<Vec<_>>(), vec!["1[3[4],2]".to_string(), "5".to_string()]);
    assert!(trees[0].has_loop);
    assert_eq!(trees[0].port_count, 4);
    assert_eq!(trees[0].netbox_device_id, Some(50));
    assert_eq!(trees[0].children[0].name.as_deref(), Some("C3"));
    assert!(!trees[0].children[0].has_loop);
}

#[test]
fn rows_that_do_not_form_a_tree_are_refused() {
    let roots = vec![root(1, vec![tree_child(2, 99, Some(1))])];
    assert!(PanelTreeEntry::try_from_root_panels(roots).is_none());
}

#[test]
fn roles_and_statuses() {
    assert_eq!(Role::Planner.title(), "Planer");
    assert_eq!(Role::Reader.description(), "Lesen und Etiketten drucken");
    assert!(Role::Admin.includes(Role::Planner));
    assert!(Role::Planner.includes(Role::Planner));
    assert!(!Role::Reader.includes(Role::Planner));
    assert_eq!(PlanStatus::REJECTED.name(), "Rejected");
}

#[test]
fn titles_and_names() {
    assert_eq!(duct_title(None, "S1", "S2"), "S1 – S2");
    assert_eq!(duct_title(Some("Rohr 4"), "S1", "S2"), "Rohr 4");
    assert_eq!(object_title("Kabel", Some("K1")), "Kabel – K1");
    assert_eq!(object_title("Kabel", None), "Kabel");
    assert_eq!(panel_name_or_id(7, &None), "Panel 7");
    assert_eq!(chrono_stub_date(), "2026");
    assert_eq!(SchachtTypListEntry { id: 3, name: None, icon: String::new() }.label(), "schacht 3");
    let dev = OverviewNetboxDevice { id: 8, name: None, device_type: "Patch".to_string(), location_name: Some("Keller".to_string()) };
    assert_eq!(dev.to_text(), "Keller 8 (Patch)");
    assert_eq!(PanelView::Attach.title(), "Fasern auflegen");
}

#[test]
fn panel_views_in_plan_and_built_state() {
    assert_eq!(panel_views(3), vec![PanelView::Show, PanelView::Edit, PanelView::Attach, PanelView::Loop]);
    assert_eq!(panel_views(0), vec![PanelView::Show, PanelView::Edit]);
}

#[test]
fn siblings_with_self_by_place() {
    let nav = |id: i32, order: Option<i32>| ChildPanelNav { id, name: None, parent_order: order };
    let all = with_self(&[nav(2, Some(3)), nav(3, None), nav(4, Some(1))], 9, &Some("me".to_string()), Some(3));
    assert_eq!(all.iter().map(|n| n.id).collect::<Vec<_>>(), vec![3, 4, 2, 9]);
    let entries = panel_menu_entries(&all, 9);
    assert_eq!(entries.iter().map(|e| (e.text.clone(), e.selected)).collect::<Vec<_>>(), vec![
        ("Panel 3".to_string(), false),
        ("Panel 4".to_string(), false),
        ("Panel 2".to_string(), false),
        ("me".to_string(), true),
    ]);
}

#[test]
fn label_texts() {
    let single = PanelLabelButtonProps { id: 4, name: Some("P".to_string()), parents: vec![] };
    let t = single.texts();
    assert_eq!(t.len(), 1);
    assert_eq!((t[0].label.as_str(), t[0].text.as_str()), ("Name", "P"));
    let nested = PanelLabelButtonProps { id: 4, name: None, parents: vec!["Rack".to_string(), "Fach".to_string()] };
    let t = nested.texts();
    assert_eq!(t.len(), 2);
    assert_eq!(t[0].text, "Panel 4");
    assert_eq!((t[1].label.as_str(), t[1].text.as_str()), ("Pfad", "Rack - Fach - Panel 4"));
}

#[test]
fn icon_as_data_url() {
    assert_eq!(icon_data_url("<svg/>"), "data:image/svg+xml;base64,PHN2Zy8+");
    assert_eq!(icon_data_url("ä"), "data:image/svg+xml;base64,w6Q=");
    assert_eq!(icon_data_url(""), "data:image/svg+xml;base64,");
}
