use cable_editor::ids::{IdOrNew, PortType};
use cable_editor::ports::{
    checked_next_port_label, next_port_label, EditablePort, FetchedPanelWithPorts, NetboxDevicePort, NetboxPortId,
    PanelPortEntry, PortEditor,
};

fn stored(id: i32, order: i32, label: &str, port_type: PortType) -> EditablePort {
    EditablePort {
        id: IdOrNew::Id(id),
        order_number: order,
        label: label.to_string(),
        port_type,
        deleted: false,
        netbox_port: None,
    }
}

fn editor(ports: Vec<EditablePort>) -> PortEditor {
    let mut e = PortEditor::new();
    let device = e.ports_fetched(ports, Some("Rack".to_string()), Some("S1".to_string()), Some(77));
    assert_eq!(device, Some(77));
    e
}

fn labels(e: &PortEditor) -> Vec<(String, i32, bool)> {
    e.ports().iter().map(|p| (p.label.clone(), p.order_number, p.deleted)).collect()
}

#[test]
fn label_counts_up_keeping_width() {
    assert_eq!(next_port_label("P007", 9), "P008");
    assert_eq!(next_port_label("P099", 9), "P100");
    assert_eq!(next_port_label("P12", 9), "P13");
    assert_eq!(next_port_label("12", 9), "13");
    assert_eq!(next_port_label("Faser 9", 9), "Faser 10");
}

#[test]
fn label_is_trimmed_first() {
    assert_eq!(next_port_label(" Port 09 ", 4), "Port 10");
}

#[test]
fn label_without_number_gives_port_order() {
    assert_eq!(next_port_label("Kabel", 5), "Port 5");
    assert_eq!(next_port_label("", 1), "Port 1");
}

#[test]
fn numeric_but_not_decimal_gives_port_order() {
    // '٣' is numeric, but no decimal digit `usize` parses
    assert_eq!(next_port_label("Port ٣", 5), "Port 5");
    assert_eq!(next_port_label("Port ½", 6), "Port 6");
}

#[test]
fn label_that_cannot_be_split_is_refused() {
    assert_eq!(checked_next_port_label("Spleiß", 5), None);
    assert_eq!(checked_next_port_label("Spleiß3", 5), None);
    assert_eq!(checked_next_port_label("Spleiß 3", 5).as_deref(), Some("Spleiß 4"));
    assert_eq!(checked_next_port_label("P18446744073709551615", 1), None);
    assert_eq!(checked_next_port_label("P18446744073709551614", 1).as_deref(), Some("P18446744073709551615"));
}

#[test]
fn first_port_is_a_splice_named_after_its_number() {
    let mut e = PortEditor::new();
    e.add_port();
    e.add_port();
    let ports = e.ports();
    assert_eq!(ports.len(), 2);
    assert_eq!(ports[0].label, "Port 1");
    assert_eq!(ports[0].port_type, PortType::Splice);
    assert_eq!(ports[1].label, "Port 2");
    assert_eq!(ports[1].order_number, 2);
    assert!(matches!(ports[1].id, IdOrNew::Temporary(_)));
}

#[test]
fn added_port_follows_the_last() {
    let mut e = editor(vec![stored(1, 1, "F01", PortType::Connector), stored(2, 2, "F02", PortType::Connector)]);
    e.add_port();
    let p = &e.ports()[2];
    assert_eq!(p.label, "F03");
    assert_eq!(p.port_type, PortType::Connector);
    assert_eq!(p.order_number, 3);
    assert!(!p.deleted);
    assert_eq!(p.netbox_port, None);
}

#[test]
fn adding_after_unsplittable_label_is_refused() {
    let mut e = editor(vec![stored(1, 1, "Spleiß", PortType::Splice)]);
    assert!(!e.try_add_port());
    assert_eq!(e.ports().len(), 1);
    let mut f = editor(vec![stored(1, 1, "A1", PortType::Splice)]);
    assert!(f.try_add_port());
    assert_eq!(f.ports()[1].label, "A2");
}

#[test]
fn deleting_renumbers_and_saving_sends_kept_ports() {
    let mut e = editor(vec![stored(1, 1, "F01", PortType::Connector), stored(2, 2, "F02", PortType::Connector)]);
    e.add_port();
    e.mark_deleted(0);
    assert_eq!(
        labels(&e),
        vec![("F01".to_string(), 1, true), ("F02".to_string(), 1, false), ("F03".to_string(), 2, false)]
    );
    let (changes, deletes) = e.save();
    assert_eq!(deletes, vec![1]);
    assert_eq!(changes.len(), 2);
    assert_eq!(changes[0].id.id, Some(2));
    assert_eq!(changes[0].order, 1);
    assert_eq!(changes[0].label, "F02");
    assert_eq!(changes[1].id.id, None);
    assert!(changes[1].id.temporary.is_some());
    assert_eq!(changes[1].order, 2);
    assert_eq!(changes[1].port_type, PortType::Connector);
}

#[test]
fn deleting_a_new_port_drops_it() {
    let mut e = editor(vec![stored(1, 1, "F01", PortType::Splice)]);
    e.add_port();
    e.mark_deleted(1);
    assert_eq!(labels(&e), vec![("F01".to_string(), 1, false)]);
    let (changes, deletes) = e.save();
    assert_eq!(changes.len(), 1);
    assert!(deletes.is_empty());
}

#[test]
fn moving_up_and_down_again_restores_ports() {
    let mut deleted = stored(2, 2, "B", PortType::Splice);
    deleted.deleted = true;
    let mut e = editor(vec![stored(1, 1, "A", PortType::Splice), deleted, stored(3, 2, "C", PortType::Splice)]);
    e.move_up(2);
    assert_eq!(
        labels(&e),
        vec![("C".to_string(), 1, false), ("B".to_string(), 2, true), ("A".to_string(), 2, false)]
    );
    e.move_down(0);
    assert_eq!(
        labels(&e),
        vec![("A".to_string(), 1, false), ("B".to_string(), 2, true), ("C".to_string(), 2, false)]
    );
}

#[test]
fn moving_beyond_the_ends_changes_nothing() {
    let mut e = editor(vec![stored(1, 1, "A", PortType::Splice), stored(2, 2, "B", PortType::Splice)]);
    e.move_up(0);
    e.move_down(1);
    e.move_down(5);
    assert_eq!(labels(&e), vec![("A".to_string(), 1, false), ("B".to_string(), 2, false)]);
}

#[test]
fn updates_touch_one_port() {
    let mut e = editor(vec![stored(1, 1, "A", PortType::Splice), stored(2, 2, "B", PortType::Splice)]);
    e.update_label(1, "Z".to_string());
    e.update_type(0, PortType::Loop);
    e.update_netbox_id(0, Some(5));
    e.update_label(9, "ignored".to_string());
    assert_eq!(e.ports()[0].label, "A");
    assert_eq!(e.ports()[0].port_type, PortType::Loop);
    assert_eq!(e.ports()[0].netbox_port, Some(5));
    assert_eq!(e.ports()[1].label, "Z");
}

#[test]
fn title_and_visible_ports() {
    let mut deleted = stored(2, 2, "B", PortType::Splice);
    deleted.deleted = true;
    let e = editor(vec![stored(1, 1, "A", PortType::Splice), deleted, stored(3, 2, "C", PortType::Splice)]);
    assert_eq!(e.title_text(), "Panel: Rack (Schacht: S1)");
    assert_eq!(e.visible_indices(), vec![0, 2]);
    assert_eq!(PortEditor::new().title_text(), "Panel bearbeiten");
}

#[test]
fn netbox_port_names() {
    let mut e = editor(vec![stored(1, 1, "A", PortType::Splice)]);
    e.netbox_ports_fetched(vec![
        NetboxDevicePort { id: 5, name: "rear-5".to_string() },
        NetboxDevicePort { id: 6, name: "rear-6".to_string() },
    ]);
    let mut p = stored(1, 1, "A", PortType::Splice);
    assert_eq!(e.netbox_port_name(&p), " - ");
    p.netbox_port = Some(6);
    assert_eq!(e.netbox_port_name(&p), "rear-6");
    p.netbox_port = Some(9);
    assert_eq!(e.netbox_port_name(&p), " - ");
}

#[test]
fn stored_port_entry_and_row_key() {
    let entry = PanelPortEntry {
        id: 4,
        order_number: 3,
        label: None,
        port_type: PortType::Connector,
        netbox_port: Some(NetboxPortId { id: 8 }),
    };
    let p = EditablePort::from_entry(entry);
    assert_eq!(p.label, "");
    assert_eq!(p.netbox_port, Some(8));
    assert_eq!(p.row_key(), "4");
    let mut t = p.clone();
    t.id = IdOrNew::Temporary(0xff);
    assert_eq!(t.row_key(), "00000000-0000-0000-0000-0000000000ff");
}

#[test]
fn panel_device_falls_back_to_parents() {
    let f = FetchedPanelWithPorts::from_panel(vec![], Some("P".to_string()), None, &[None, Some(3), Some(4)]);
    assert_eq!(f.netbox_device_id, Some(3));
    assert_eq!(f.schacht_name, None);
    let g = FetchedPanelWithPorts::from_panel(vec![], None, Some(9), &[Some(3)]);
    assert_eq!(g.netbox_device_id, Some(9));
}
