use cable_editor::connections::{
    Cable, CableEnd, CableId, CablePath, CableUsedOwnPort, EndPort, EndPortPanel, EndPortSchacht, Fiber, FiberOwnEnd, Panel,
    PanelId, PlannedPanel, PlannedPort, PortPanelId, PortUsageFragment, PortUsageInput, PortUsageUpdateAction, RemoteSchacht,
    Schacht, UsedEndPort, FiberKeyInput,
};
use cable_editor::ids::{PortSide, PortType};
use cable_editor::loops::{
    calculate_loop_states, end_port_description, loop_port_updates, pair_description, partner_cables, FiberData,
    FiberStatus, LoopPortEditor,
};

const PANEL: i32 = 9;

fn fiber(bundle: i32, number: i32, used_on: Option<i32>, modified: bool) -> FiberOwnEnd {
    FiberOwnEnd {
        bundle,
        fiber: number,
        other_end: None,
        used_port: used_on.map(|id| CableUsedOwnPort { port: PortPanelId { panel: PanelId { id } }, modified_in_plan: modified }),
    }
}

fn cable(id: i32, name: &str, bundles: i32, fibers: i32, far: &str, list: Vec<FiberOwnEnd>) -> CableEnd {
    CableEnd {
        cable: Cable { id, name: name.to_string(), bundle_count: bundles, fiber_count: fibers },
        path: CablePath { far_schacht: RemoteSchacht { name: far.to_string() } },
        fibers: list,
    }
}

fn usage(cable_id: i32, bundle: i32, number: i32) -> Option<PortUsageFragment> {
    Some(PortUsageFragment { fiber: Some(Fiber { bundle, fiber: number, cable: CableId { id: cable_id } }), modified_in_plan: false })
}

fn loop_port(id: i32, front: Option<PortUsageFragment>, back: Option<PortUsageFragment>) -> PlannedPort {
    PlannedPort {
        id,
        label: None,
        order_number: id,
        port_type: PortType::Loop,
        current_front_usage: front.clone(),
        current_back_usage: back.clone(),
        front_usage: front,
        back_usage: back,
    }
}

fn cables() -> Vec<CableEnd> {
    vec![
        cable(1, "KA", 1, 2, "SA", vec![fiber(1, 1, Some(PANEL), false), fiber(1, 2, None, false)]),
        cable(2, "KB", 1, 2, "SB", vec![fiber(1, 1, Some(PANEL), true), fiber(1, 2, None, false)]),
        cable(3, "KC", 2, 4, "SC", vec![fiber(1, 1, Some(4), false)]),
    ]
}

fn panel() -> PlannedPanel {
    PlannedPanel {
        panel: Panel { schacht: Schacht { cables: cables(), name: "S".to_string() }, name: None, parent_chain: vec![] },
        ports: vec![loop_port(10, usage(1, 1, 1), usage(2, 1, 1)), loop_port(11, None, None)],
    }
}

fn loaded() -> LoopPortEditor {
    let mut e = LoopPortEditor::new();
    e.data_fetched(panel(), PANEL);
    e
}

fn states(e: &LoopPortEditor) -> Vec<((i32, i32), FiberStatus)> {
    e.fiber_states().iter().map(|(k, d)| (*k, d.status)).collect()
}

#[test]
fn loaded_pair_shows_loop_states() {
    let e = loaded();
    assert_eq!(e.cable_a().map(|c| c.cable.id), Some(1));
    assert_eq!(e.cable_b().map(|c| c.cable.id), Some(2));
    assert!(e.is_pair_defined());
    assert_eq!(states(&e), vec![((1, 1), FiberStatus::Looped), ((1, 2), FiberStatus::Free)]);
    assert!(e.fiber_states()[0].1.modified_in_plan);
    assert!(!e.fiber_states()[1].1.modified_in_plan);
    assert!(e.is_unmodified(PANEL));
}

#[test]
fn saving_stored_loops_sends_nothing() {
    let mut e = loaded();
    assert_eq!(e.save(), Some(vec![]));
    assert_eq!(e.missing_port_count(), 0);
}

#[test]
fn looping_a_pair_uses_the_next_port() {
    let mut e = loaded();
    e.toggle_fiber(1, 2, true);
    assert_eq!(states(&e), vec![((1, 1), FiberStatus::Looped), ((1, 2), FiberStatus::Looped)]);
    assert!(!e.is_unmodified(PANEL));
    assert_eq!(
        e.save(),
        Some(vec![
            PortUsageInput {
                port_id: 11,
                side: PortSide::FRONT,
                fiber: PortUsageUpdateAction::Attach(FiberKeyInput { cable_id: 1, bundle: 1, fiber: 2 }),
            },
            PortUsageInput {
                port_id: 11,
                side: PortSide::BACK,
                fiber: PortUsageUpdateAction::Attach(FiberKeyInput { cable_id: 2, bundle: 1, fiber: 2 }),
            },
        ])
    );
}

#[test]
fn separating_frees_the_port() {
    let mut e = loaded();
    e.toggle_fiber(1, 1, false);
    assert_eq!(
        e.save(),
        Some(vec![
            PortUsageInput { port_id: 10, side: PortSide::FRONT, fiber: PortUsageUpdateAction::Remove(true) },
            PortUsageInput { port_id: 10, side: PortSide::BACK, fiber: PortUsageUpdateAction::Remove(true) },
        ])
    );
}

#[test]
fn reset_returns_to_built_state() {
    let mut e = loaded();
    e.toggle_fiber(1, 1, false);
    e.reset_fiber(1, 1);
    let d = e.fiber_states()[0].1;
    assert_eq!(d.status, FiberStatus::Looped);
    assert!(d.reset);
    assert!(!d.shows_planned_change());
    e.toggle_fiber(1, 2, true);
    e.reset_fiber(1, 2);
    assert_eq!(e.fiber_states()[1].1.status, FiberStatus::Free);
}

#[test]
fn positions_without_port_are_counted() {
    let ports = vec![loop_port(10, None, None)];
    let (updates, missing) = loop_port_updates(&vec![(1, 1), (1, 2), (2, 1)], &ports, 1, 2);
    assert_eq!(missing, 2);
    assert_eq!(updates.len(), 2);
}

#[test]
fn cable_without_partner_keeps_cable_b() {
    let mut e = loaded();
    e.select_cable_a(3, PANEL);
    assert_eq!(e.cable_a().map(|c| c.cable.id), Some(3));
    assert_eq!(e.cable_b().map(|c| c.cable.id), Some(2));
    e.select_cable_a(2, PANEL);
    assert_eq!(e.cable_b().map(|c| c.cable.id), Some(1));
    assert!(e.is_unmodified(PANEL));
    e.select_cable_b(3, PANEL);
    assert_eq!(e.cable_b().map(|c| c.cable.id), Some(3));
    assert_eq!(states(&e), vec![((1, 1), FiberStatus::UsedElsewhere), ((1, 2), FiberStatus::UsedElsewhere)]);
}

#[test]
fn nothing_saved_without_panel() {
    let mut e = LoopPortEditor::new();
    assert_eq!(e.save(), None);
    assert!(!e.is_pair_defined());
}

#[test]
fn loop_states_of_two_cables() {
    let c = cables();
    let s = calculate_loop_states(&c[0], &c[2], PANEL);
    assert_eq!(
        s.iter().map(|(k, d)| (*k, d.status, d.modified_in_plan)).collect::<Vec<_>>(),
        vec![((1, 1), FiberStatus::UsedElsewhere, false), ((1, 2), FiberStatus::UsedElsewhere, false)]
    );
    let t = calculate_loop_states(&c[0], &c[1], PANEL);
    assert_eq!(t[0].1, FiberData { status: FiberStatus::Looped, modified_in_plan: true, reset: false });
    assert_eq!(t[1].1, FiberData { status: FiberStatus::Free, modified_in_plan: false, reset: false });
}

#[test]
fn cable_texts() {
    let c = cables();
    assert_eq!(c[0].label(), "KA (1x2) -> SA");
    assert_eq!(pair_description(&c[0], &c[1]), "SA(KA)->SB(KB) (1x2).");
    assert_eq!(partner_cables(&c, &c[0]).iter().map(|x| x.cable.id).collect::<Vec<_>>(), vec![2]);
    assert_eq!(FiberStatus::Looped.text(), "Verbunden ");
    let p = UsedEndPort {
        port: EndPort {
            label: None,
            panel: EndPortPanel { schacht: EndPortSchacht { name: "S4".to_string() }, name: Some("P".to_string()), parent_chain: vec![] },
        },
    };
    assert_eq!(end_port_description(&p), "S4 P ");
}

#[test]
fn fiber_pairs_ascend_by_position() {
    let mut e = loaded();
    e.toggle_fiber(1, 2, true);
    let keys: Vec<(i32, i32)> = e.fiber_states().iter().map(|(k, _)| *k).collect();
    assert!(keys.windows(2).all(|w| w[0] < w[1]));
}
