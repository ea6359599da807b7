use cable_editor::ids::{ParentChainPanel, PortType};
use cable_editor::overview::{
    cable_end_port, count_modified_ports, count_used_ports, sorted_ports, CableEndOverview, CableIdOverview,
    CableOverviewInfo, CablePathOverview, CableUsedEndPortOverview, ChildPanelDetail, EndPortOverview,
    EndPortPanelOverview, EndPortSchachtOverview, FiberOtherEndOverview, FiberOverview, FiberOwnEndOverview,
    OverviewSummary, PanelOverviewDetail, PlannedChildPanelOverview, PlannedPanelOverview, PlannedPortOverview, PortFlow,
    PortUsageOverview, RemoteSchachtOverview, SchachtOverview, UsedEndPortOverview,
};

fn fiber(cable: i32, bundle: i32, number: i32) -> FiberOverview {
    FiberOverview { bundle, fiber: number, cable: CableIdOverview { id: cable } }
}

fn usage(f: Option<FiberOverview>, modified: bool) -> Option<PortUsageOverview> {
    Some(PortUsageOverview { fiber: f, modified_in_plan: modified })
}

fn port(id: i32, order: i32, port_type: PortType, front: Option<PortUsageOverview>, back: Option<PortUsageOverview>) -> PlannedPortOverview {
    PlannedPortOverview { id, label: None, order_number: order, port_type, front_usage: front, back_usage: back }
}

fn chain(names: &[Option<&str>]) -> Vec<ParentChainPanel> {
    names.iter().enumerate().map(|(i, n)| ParentChainPanel { id: i as i32, name: n.map(str::to_string) }).collect()
}

fn end_port() -> UsedEndPortOverview {
    UsedEndPortOverview {
        port: EndPortOverview {
            label: Some("7".to_string()),
            panel: EndPortPanelOverview {
                id: 5,
                name: Some("P2".to_string()),
                schacht: EndPortSchachtOverview { name: "S9".to_string() },
                parent_chain: chain(&[Some("Rack"), None]),
            },
        },
    }
}

fn schacht() -> SchachtOverview {
    SchachtOverview {
        id: 1,
        name: "S1".to_string(),
        cables: vec![CableEndOverview {
            cable: CableOverviewInfo { id: 100, name: "K1".to_string(), bundle_count: 1, fiber_count: 2 },
            path: CablePathOverview { far_schacht: RemoteSchachtOverview { name: "S9".to_string() } },
            fibers: vec![FiberOwnEndOverview {
                bundle: 1,
                fiber: 2,
                other_end: Some(FiberOtherEndOverview { used_port: Some(CableUsedEndPortOverview { panel_side_end_port: Some(end_port()) }) }),
                used_port: None,
            }],
        }],
    }
}

#[test]
fn port_texts_and_flow() {
    let p = port(1, 4, PortType::Splice, usage(Some(fiber(100, 1, 2)), false), None);
    assert_eq!(p.display_label(), "Port 4");
    assert_eq!(p.type_text(), ("Spleiss", "pf-m-green"));
    assert_eq!(p.flow(), PortFlow::Partial);
    assert!(p.is_used());
    assert!(!p.is_modified());
    assert!(p.is_shown());
    let both = port(2, 5, PortType::Connector, usage(Some(fiber(100, 1, 1)), true), usage(Some(fiber(100, 1, 2)), false));
    assert_eq!(both.flow(), PortFlow::Connected);
    assert!(both.is_modified());
    let empty = port(3, 6, PortType::Connector, usage(None, true), None);
    assert_eq!(empty.flow(), PortFlow::Empty);
    assert!(!empty.is_used());
}

#[test]
fn loop_ports_shown_only_with_a_fiber() {
    let bare = port(1, 1, PortType::Loop, None, None);
    assert!(!bare.is_shown());
    assert_eq!(bare.flow(), PortFlow::Loop);
    let back = port(2, 2, PortType::Loop, usage(None, false), usage(Some(fiber(3, 1, 4)), false));
    assert_eq!(back.loop_fiber(), Some(fiber(3, 1, 4)));
    assert!(back.is_shown());
    let splice = port(3, 3, PortType::Splice, usage(Some(fiber(3, 1, 4)), false), None);
    assert_eq!(splice.loop_fiber(), None);
}

#[test]
fn counts_of_ports() {
    let ports = vec![
        port(1, 1, PortType::Splice, usage(Some(fiber(1, 1, 1)), true), None),
        port(2, 2, PortType::Splice, None, usage(None, true)),
        port(3, 3, PortType::Splice, None, None),
    ];
    assert_eq!(count_used_ports(&ports), 1);
    assert_eq!(count_modified_ports(&ports), 2);
}

#[test]
fn connection_cell_of_known_cable() {
    let s = schacht();
    let u = PortUsageOverview { fiber: Some(fiber(100, 1, 2)), modified_in_plan: true };
    let cell = s.connection_cell(Some(&u)).expect("a fiber is planned");
    assert_eq!(cell.cable_name, "K1");
    assert_eq!(cell.far_schacht.as_deref(), Some("S9"));
    assert_eq!(cell.destination.as_deref(), Some("S9: Rack > P2 : 7"));
    assert!(cell.modified_in_plan);
    let unknown = PortUsageOverview { fiber: Some(fiber(5, 1, 1)), modified_in_plan: false };
    let cell = s.connection_cell(Some(&unknown)).expect("a fiber is planned");
    assert_eq!(cell.cable_name, "Kabel 5");
    assert_eq!(cell.far_schacht, None);
    assert_eq!(cell.destination, None);
    assert!(s.connection_cell(None).is_none());
    assert!(s.connection_cell(Some(&PortUsageOverview { fiber: None, modified_in_plan: true })).is_none());
}

#[test]
fn panel_texts() {
    let d = PanelOverviewDetail { id: 1, name: Some("P1".to_string()), schacht: SchachtOverview { cables: vec![], ..schacht() }, parent_chain: chain(&[Some("Rack")]) };
    assert_eq!(d.to_text(), "S1: Rack > P1");
    let c = ChildPanelDetail { id: 12, name: None, parent_id: None, parent_order: None, parent_chain: vec![] };
    assert_eq!(c.to_text(), "Panel 12");
    let c2 = ChildPanelDetail { id: 12, name: Some("Sub".to_string()), parent_id: Some(1), parent_order: Some(1), parent_chain: chain(&[Some("Rack"), Some("P1")]) };
    assert_eq!(c2.to_text(), "Rack > P1 > Sub");
    assert_eq!(end_port().to_text(), "S9: Rack > P2 : 7");
    let f = &schacht().cables[0].fibers[0];
    assert_eq!(cable_end_port(Some(f)).map(|p| p.to_text()).as_deref(), Some("S9: Rack > P2 : 7"));
    assert!(cable_end_port(None).is_none());
}

fn child(id: i32, ports: Vec<PlannedPortOverview>, depth: usize) -> PlannedChildPanelOverview {
    PlannedChildPanelOverview {
        panel: ChildPanelDetail { id, name: None, parent_id: Some(1), parent_order: None, parent_chain: chain(&vec![Some("x"); depth]) },
        ports,
    }
}

#[test]
fn summary_counts_panels_with_ports() {
    let overview = PlannedPanelOverview {
        panel: PanelOverviewDetail { id: 1, name: None, schacht: schacht(), parent_chain: vec![] },
        ports: vec![],
        all_children_recursive: vec![
            child(2, vec![port(1, 1, PortType::Splice, usage(Some(fiber(1, 1, 1)), true), None)], 1),
            child(3, vec![], 2),
            child(4, vec![port(2, 1, PortType::Loop, None, None), port(3, 2, PortType::Splice, None, None)], 3),
        ],
    };
    let s = overview.summary();
    assert_eq!(s, OverviewSummary { total_panels: 2, total_ports: 3, used_ports: 1, modified_ports: 1 });
    assert_eq!(s.free_ports(), 2);
    assert_eq!(s.panels_label(), "2 Panels");
    assert_eq!(OverviewSummary { total_panels: 1, total_ports: 0, used_ports: 0, modified_ports: 0 }.panels_label(), "1 Panel");
    let with_ports = overview.child_panels_with_ports();
    assert_eq!(with_ports.iter().map(|c| c.panel.id).collect::<Vec<_>>(), vec![2, 4]);
    assert!(with_ports[1].has_direct_loops());
    assert!(with_ports[1].has_direct_ports());
    assert!(!with_ports[0].has_direct_loops());
    assert_eq!(with_ports[0].hierarchy_level(), 1);
    assert_eq!(with_ports[1].hierarchy_level(), 3);
}

#[test]
fn ports_sorted_by_number_keeping_ties() {
    let ports = vec![
        port(1, 3, PortType::Splice, None, None),
        port(2, 1, PortType::Splice, None, None),
        port(3, 3, PortType::Splice, None, None),
        port(4, 2, PortType::Splice, None, None),
    ];
    let sorted = sorted_ports(&ports);
    assert_eq!(sorted.iter().map(|p| p.id).collect::<Vec<_>>(), vec![2, 4, 1, 3]);
}
