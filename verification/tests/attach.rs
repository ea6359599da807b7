use cable_editor::attach::{
    bundle_entries, bundle_fibers, cable_end_label, calculate_current_states, fiber_entry_label, AttachFiber, SlotState,
};
use cable_editor::connections::{
    Cable, CableEnd, CablePath, CableUsedEndPort, CableUsedOwnPort, EndPort, EndPortPanel, EndPortParentPanel, EndPortSchacht,
    Fiber, FiberKeyInput, FiberOtherEnd, FiberOwnEnd, Panel, PanelId, PlannedPanel, PlannedPort, PortPanelId,
    PortUsageFragment, PortUsageInput, PortUsageUpdateAction, RemoteSchacht, Schacht, UsedEndPort,
};
use cable_editor::ids::{PortSide, PortType};

fn end_port(schacht: &str, panel: Option<&str>, label: Option<&str>) -> UsedEndPort {
    UsedEndPort {
        port: EndPort {
            label: label.map(str::to_string),
            panel: EndPortPanel {
                schacht: EndPortSchacht { name: schacht.to_string() },
                name: panel.map(str::to_string),
                parent_chain: vec![EndPortParentPanel { name: Some("Rack".to_string()) }, EndPortParentPanel { name: None }],
            },
        },
    }
}

fn fiber(bundle: i32, number: i32, used_here: bool, far: Option<UsedEndPort>) -> FiberOwnEnd {
    FiberOwnEnd {
        bundle,
        fiber: number,
        other_end: Some(FiberOtherEnd { used_port: Some(CableUsedEndPort { panel_side_end_port: far }) }),
        used_port: if used_here {
            Some(CableUsedOwnPort { port: PortPanelId { panel: PanelId { id: 9 } }, modified_in_plan: false })
        } else {
            None
        },
    }
}

fn cable() -> CableEnd {
    CableEnd {
        cable: Cable { id: 100, name: "K1".to_string(), bundle_count: 2, fiber_count: 4 },
        path: CablePath { far_schacht: RemoteSchacht { name: "S2".to_string() } },
        fibers: vec![
            fiber(1, 1, false, Some(end_port("S2", Some("Panel 7"), Some("3")))),
            fiber(1, 2, true, None),
            fiber(1, 3, false, None),
            fiber(2, 1, false, None),
        ],
    }
}

fn usage(cable_id: i32, bundle: i32, number: i32) -> Option<PortUsageFragment> {
    Some(PortUsageFragment { fiber: Some(Fiber { bundle, fiber: number, cable: cable_id_of(cable_id) }), modified_in_plan: false })
}

fn cable_id_of(id: i32) -> cable_editor::connections::CableId {
    cable_editor::connections::CableId { id }
}

fn port(id: i32, label: &str, port_type: PortType, front: Option<PortUsageFragment>) -> PlannedPort {
    PlannedPort {
        id,
        label: Some(label.to_string()),
        order_number: id,
        port_type,
        front_usage: front,
        back_usage: None,
        current_front_usage: None,
        current_back_usage: None,
    }
}

fn panel() -> PlannedPanel {
    PlannedPanel {
        panel: Panel {
            schacht: Schacht { cables: vec![cable()], name: "S1".to_string() },
            name: Some("P".to_string()),
            parent_chain: vec![],
        },
        ports: vec![
            port(1, "P1", PortType::Splice, usage(100, 1, 1)),
            port(2, "P2", PortType::Connector, None),
            port(3, "P3", PortType::Loop, usage(100, 2, 1)),
        ],
    }
}

fn loaded() -> AttachFiber {
    let mut a = AttachFiber::new();
    a.data_fetched(panel());
    a
}

fn key(bundle: i32, number: i32) -> FiberKeyInput {
    FiberKeyInput { cable_id: 100, bundle, fiber: number }
}

#[test]
fn loaded_panel_shows_planned_fibers_and_has_no_changes() {
    let a = loaded();
    assert_eq!(a.slot_state(1, PortSide::FRONT), SlotState::Assigned(key(1, 1)));
    assert_eq!(a.slot_state(1, PortSide::BACK), SlotState::Empty);
    assert_eq!(a.slot_state(2, PortSide::FRONT), SlotState::Empty);
    assert!(!a.has_changes());
    assert_eq!(a.save_changes(), Some(vec![]));
    let states = calculate_current_states(&panel());
    assert_eq!(states.len(), 6);
}

#[test]
fn nothing_to_save_before_loading() {
    let a = AttachFiber::new();
    assert_eq!(a.save_changes(), None);
    assert!(a.validate().is_empty());
    assert!(!a.has_changes());
}

#[test]
fn one_sided_splice_is_reported() {
    let a = loaded();
    assert_eq!(a.validate(), vec!["Port P1: Spleiss muss beidseitig belegt oder komplett leer sein.".to_string()]);
}

#[test]
fn connector_with_front_only_is_reported() {
    let mut a = loaded();
    a.start_edit(2, PortSide::FRONT);
    a.select_cable(cable());
    a.select_bundle(1);
    a.select_fiber(3);
    let errors = a.validate();
    assert_eq!(errors.len(), 2);
    assert_eq!(errors[1], "Port P2: Stecker benötigt zwingend eine Back-Belegung, wenn Front belegt ist.");
}

#[test]
fn selecting_a_fiber_plans_it() {
    let mut a = loaded();
    // (1, 2) is used in the database, (1, 1) and (2, 1) are planned on ports here
    assert_eq!(a.get_free_fibers(&cable()).iter().map(|f| (f.bundle, f.fiber)).collect::<Vec<_>>(), vec![(1, 3)]);
    a.start_edit(1, PortSide::BACK);
    a.select_cable(cable());
    a.select_bundle(1);
    a.select_fiber(3);
    assert!(a.edit_slot().is_none());
    assert_eq!(a.slot_state(1, PortSide::BACK), SlotState::Assigned(key(1, 3)));
    assert!(a.has_changes());
    assert!(a.validate().is_empty());
    assert_eq!(
        a.save_changes(),
        Some(vec![PortUsageInput { port_id: 1, side: PortSide::BACK, fiber: PortUsageUpdateAction::Attach(key(1, 3)) }])
    );
    assert!(a.get_free_fibers(&cable()).is_empty());
}

#[test]
fn fiber_without_bundle_changes_nothing() {
    let mut a = loaded();
    a.start_edit(2, PortSide::FRONT);
    a.select_cable(cable());
    a.select_fiber(3);
    assert!(a.edit_slot().is_none());
    assert_eq!(a.slot_state(2, PortSide::FRONT), SlotState::Empty);
    a.start_edit(2, PortSide::FRONT);
    a.cancel_edit();
    assert!(!a.has_changes());
}

#[test]
fn clearing_a_side_removes_its_fiber() {
    let mut a = loaded();
    a.clear_slot(1, PortSide::FRONT);
    assert_eq!(
        a.save_changes(),
        Some(vec![PortUsageInput { port_id: 1, side: PortSide::FRONT, fiber: PortUsageUpdateAction::Remove(true) }])
    );
}

#[test]
fn reset_port_goes_back_to_built_state() {
    let mut a = loaded();
    a.clear_slot(1, PortSide::FRONT);
    a.start_edit(1, PortSide::BACK);
    a.reset_port(1);
    assert!(a.is_reset(1));
    assert!(a.edit_slot().is_none());
    assert_eq!(a.slot_state(1, PortSide::FRONT), SlotState::Assigned(key(1, 1)));
    assert_eq!(
        a.save_changes(),
        Some(vec![PortUsageInput { port_id: 1, side: PortSide::FRONT, fiber: PortUsageUpdateAction::Reset(true) }])
    );
    a.clear_slot(1, PortSide::BACK);
    assert!(!a.is_reset(1));
}

#[test]
fn loop_ports_are_left_to_the_loop_editor() {
    let mut a = loaded();
    a.clear_slot(3, PortSide::FRONT);
    assert_eq!(a.save_changes(), Some(vec![]));
}

#[test]
fn cable_names_and_endpoints() {
    let a = loaded();
    assert_eq!(a.assigned_cable_name(&key(1, 1)), "K1");
    assert_eq!(a.assigned_cable_name(&FiberKeyInput { cable_id: 5, bundle: 1, fiber: 1 }), "Kabel 5");
    assert_eq!(a.assigned_endpoint(&key(1, 1)).as_deref(), Some("S2:Rack Panel 7:3"));
    assert_eq!(a.assigned_endpoint(&key(1, 3)), None);
    assert!(a.find_cable(100).is_some());
    assert!(a.find_cable(101).is_none());
}

#[test]
fn fiber_labels() {
    let c = cable();
    assert_eq!(fiber_entry_label(&c.fibers[0]), "1 (S2 Panel 7 3)");
    assert_eq!(fiber_entry_label(&c.fibers[2]), "3");
    assert_eq!(cable_end_label(Some(&c.fibers[0])).as_deref(), Some("S2:Rack Panel 7:3"));
    assert_eq!(cable_end_label(None), None);
    let unnamed = fiber(1, 4, false, Some(end_port("S3", None, None)));
    assert_eq!(fiber_entry_label(&unnamed), "4 (S3  )");
    assert_eq!(cable_end_label(Some(&unnamed)).as_deref(), Some("S3:Rack"));
}

#[test]
fn bundles_with_free_counts() {
    let c = cable();
    let refs: Vec<&FiberOwnEnd> = vec![&c.fibers[3], &c.fibers[0], &c.fibers[2]];
    let entries = bundle_entries(&refs);
    assert_eq!(entries.len(), 2);
    assert_eq!((entries[0].0, entries[0].1), (1, 2));
    assert_eq!((entries[1].0, entries[1].1), (2, 1));
    assert_eq!(entries[0].label(), "1 (2 frei)");
    let in_one = bundle_fibers(&refs, 1);
    assert_eq!(in_one.iter().map(|f| f.fiber).collect::<Vec<_>>(), vec![1, 3]);
}

#[test]
fn compact_panel_paths() {
    let p = Panel {
        schacht: Schacht { cables: vec![], name: "S1".to_string() },
        name: Some("P4".to_string()),
        parent_chain: vec![EndPortParentPanel { name: Some("Rack".to_string()) }, EndPortParentPanel { name: Some("Fach".to_string()) }],
    };
    assert_eq!(p.to_text(), "S1:Rack Fach P4");
    let bare = Panel { schacht: Schacht { cables: vec![], name: "S1".to_string() }, name: None, parent_chain: vec![] };
    assert_eq!(bare.to_text(), "S1");
    assert_eq!(end_port("S2", None, None).port.panel.to_text(), "S2:Rack");
}
