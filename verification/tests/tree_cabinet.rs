use cable_editor::cabinet::{EditCabinet, PanelEntry, PanelTreeEntry};
use cable_editor::ids::IdOrNew;
use cable_editor::tree::{TreeModel, TreeRow, TreeState};

fn entry(id: i32, name: &str) -> (IdOrNew, PanelEntry) {
    (IdOrNew::Id(id), PanelEntry { id: IdOrNew::Id(id), name: Some(name.to_string()) })
}

/// Roots 1 and 2; 3 and 4 below 1.
fn sample() -> TreeModel<PanelEntry> {
    TreeModel::new(
        vec![IdOrNew::Id(1), IdOrNew::Id(2)],
        vec![entry(1, "A"), entry(2, "B"), entry(3, "C"), entry(4, "D")],
        vec![(IdOrNew::Id(1), vec![IdOrNew::Id(3), IdOrNew::Id(4)])],
    )
}

fn row(level: u8, expanded: bool, expandable: bool, key: i32, parent: Option<i32>, prev: Option<i32>) -> TreeRow {
    TreeRow {
        level,
        expanded,
        expandable,
        key: IdOrNew::Id(key),
        parent_key: parent.map(IdOrNew::Id),
        previous_sibling: prev.map(IdOrNew::Id),
    }
}

#[test]
fn rows_of_collapsed_tree() {
    let rows = sample().rows(&TreeState::default());
    assert_eq!(rows, vec![row(1, false, true, 1, None, None), row(1, false, false, 2, None, Some(1))]);
}

#[test]
fn rows_of_expanded_tree() {
    let mut state = TreeState::default();
    state.open(IdOrNew::Id(1));
    let rows = sample().rows(&state);
    assert_eq!(
        rows,
        vec![
            row(1, true, true, 1, None, None),
            row(2, false, false, 3, Some(1), None),
            row(2, false, false, 4, Some(1), Some(3)),
            row(1, false, false, 2, None, Some(1)),
        ]
    );
}

#[test]
fn toggle_twice_restores_state() {
    let mut state = TreeState::default();
    state.open(IdOrNew::Id(2));
    state.toggle(IdOrNew::Id(1));
    assert!(state.is_open(&IdOrNew::Id(1)));
    state.toggle(IdOrNew::Id(1));
    assert!(!state.is_open(&IdOrNew::Id(1)));
    assert!(state.is_open(&IdOrNew::Id(2)));
    state.close(IdOrNew::Id(2));
    assert!(!state.is_open(&IdOrNew::Id(2)));
}

#[test]
fn remove_leaves_no_trace() {
    let tree = sample().remove(&IdOrNew::Id(3));
    assert_eq!(tree.roots(), &[IdOrNew::Id(1), IdOrNew::Id(2)]);
    assert!(tree.entries().iter().all(|(k, _)| *k != IdOrNew::Id(3)));
    assert_eq!(tree.entries().len(), 3);
    assert_eq!(tree.children().len(), 1);
    assert_eq!(tree.children()[0].1, vec![IdOrNew::Id(4)]);
    let tree = tree.remove(&IdOrNew::Id(2));
    assert_eq!(tree.roots(), &[IdOrNew::Id(1)]);
}

#[test]
fn exchange_siblings_twice_restores_tree() {
    let tree = sample();
    let once = tree.exchange_siblings(Some(IdOrNew::Id(1)), [IdOrNew::Id(3), IdOrNew::Id(4)]);
    assert_eq!(once.children()[0].1, vec![IdOrNew::Id(4), IdOrNew::Id(3)]);
    let twice = once.exchange_siblings(Some(IdOrNew::Id(1)), [IdOrNew::Id(3), IdOrNew::Id(4)]);
    assert_eq!(twice.children()[0].1, vec![IdOrNew::Id(3), IdOrNew::Id(4)]);
    let roots = tree.exchange_siblings(None, [IdOrNew::Id(1), IdOrNew::Id(2)]);
    assert_eq!(roots.roots(), &[IdOrNew::Id(2), IdOrNew::Id(1)]);
}

#[test]
fn exchange_in_list() {
    let list = [IdOrNew::Id(5), IdOrNew::Id(6), IdOrNew::Id(7)];
    let swapped = TreeModel::<PanelEntry>::exchange_siblings_in_list([IdOrNew::Id(7), IdOrNew::Id(5)], &list);
    assert_eq!(swapped, vec![IdOrNew::Id(7), IdOrNew::Id(6), IdOrNew::Id(5)]);
}

#[test]
fn new_parent_moves_once() {
    let tree = sample().new_parent(IdOrNew::Id(2), Some(IdOrNew::Id(1)));
    assert_eq!(tree.roots(), &[IdOrNew::Id(1)]);
    assert_eq!(tree.children()[0].1, vec![IdOrNew::Id(3), IdOrNew::Id(4), IdOrNew::Id(2)]);
    let tree = tree.new_parent(IdOrNew::Id(3), None);
    assert_eq!(tree.roots(), &[IdOrNew::Id(1), IdOrNew::Id(3)]);
    assert_eq!(tree.children()[0].1, vec![IdOrNew::Id(4), IdOrNew::Id(2)]);
}

fn loaded() -> Vec<PanelTreeEntry> {
    let leaf = |id: i32, name: &str| PanelTreeEntry {
        id,
        name: Some(name.to_string()),
        children: vec![],
        has_loop: false,
        port_count: 0,
        netbox_device_id: None,
    };
    vec![
        PanelTreeEntry {
            id: 10,
            name: Some("Rack".to_string()),
            children: vec![leaf(11, "P1"), leaf(12, "P2")],
            has_loop: false,
            port_count: 0,
            netbox_device_id: None,
        },
        leaf(20, "Wand"),
    ]
}

#[test]
fn cabinet_saved_as_loaded_sends_nothing() {
    let mut cabinet = EditCabinet::new();
    cabinet.panels_fetched(loaded());
    assert_eq!(cabinet.model().roots(), &[IdOrNew::Id(10), IdOrNew::Id(20)]);
    let (changes, deletes) = cabinet.save();
    assert!(changes.is_empty());
    assert!(deletes.is_empty());
}

#[test]
fn created_panel_is_saved_as_new() {
    let mut cabinet = EditCabinet::new();
    cabinet.panels_fetched(loaded());
    cabinet.create_panel();
    let roots = cabinet.model().roots().to_vec();
    assert_eq!(roots.len(), 3);
    let IdOrNew::Temporary(u) = roots[2] else { panic!("not a new panel") };
    let (changes, deletes) = cabinet.save();
    assert!(deletes.is_empty());
    assert_eq!(changes.len(), 1);
    let c = &changes[0];
    assert_eq!(c.id.id, None);
    let hex = format!("{:032x}", u);
    let expected = format!("{}-{}-{}-{}-{}", &hex[0..8], &hex[8..12], &hex[12..16], &hex[16..20], &hex[20..32]);
    assert_eq!(c.id.temporary.as_deref(), Some(expected.as_str()));
    assert!(c.parent_id.is_none());
    assert_eq!(c.order, 3);
    assert_eq!(c.name, None);
}

#[test]
fn removed_panel_is_deleted() {
    let mut cabinet = EditCabinet::new();
    cabinet.panels_fetched(loaded());
    cabinet.remove(IdOrNew::Id(11));
    let (changes, deletes) = cabinet.save();
    assert_eq!(deletes, vec![11]);
    // P2 moved up to the first place under the rack
    assert_eq!(changes.len(), 1);
    assert_eq!(changes[0].id.id, Some(12));
    assert_eq!(changes[0].order, 1);
}

#[test]
fn renamed_panel_is_updated() {
    let mut cabinet = EditCabinet::new();
    cabinet.panels_fetched(loaded());
    cabinet.set_name(IdOrNew::Id(20), "Wand links".to_string());
    let (changes, deletes) = cabinet.save();
    assert!(deletes.is_empty());
    assert_eq!(changes.len(), 1);
    assert_eq!(changes[0].name.as_deref(), Some("Wand links"));
    assert_eq!(changes[0].order, 2);
    assert!(changes[0].parent_id.is_none());
}

#[test]
fn move_up_goes_next_to_parent() {
    let mut cabinet = EditCabinet::new();
    cabinet.panels_fetched(loaded());
    assert!(!cabinet.move_up(IdOrNew::Id(10)));
    assert!(cabinet.move_up(IdOrNew::Id(12)));
    assert_eq!(cabinet.model().roots(), &[IdOrNew::Id(10), IdOrNew::Id(20), IdOrNew::Id(12)]);
    let (changes, _) = cabinet.save();
    assert_eq!(changes.len(), 1);
    assert_eq!(changes[0].id.id, Some(12));
    assert!(changes[0].parent_id.is_none());
    assert_eq!(changes[0].order, 3);
}

#[test]
fn new_parent_opens_parent() {
    let mut cabinet = EditCabinet::new();
    cabinet.panels_fetched(loaded());
    cabinet.new_parent(IdOrNew::Id(20), IdOrNew::Id(10));
    assert!(cabinet.state().is_open(&IdOrNew::Id(10)));
    let (changes, _) = cabinet.save();
    assert_eq!(changes.len(), 1);
    assert_eq!(changes[0].id.id, Some(20));
    assert_eq!(changes[0].parent_id.as_ref().and_then(|p| p.id), Some(10));
    assert_eq!(changes[0].order, 3);
}

#[test]
fn tree_clone_is_equal() {
    let t = sample();
    let c = t.clone();
    assert_eq!(c.roots(), t.roots());
    assert_eq!(c.entries(), t.entries());
    assert_eq!(c.children(), t.children());
    assert!(c == t);
}

fn places(tree: &TreeModel<PanelEntry>, k: IdOrNew) -> usize {
    tree.roots().iter().filter(|x| **x == k).count()
        + tree.children().iter().map(|(_, l)| l.iter().filter(|x| **x == k).count()).sum::<usize>()
}

#[test]
fn new_parent_keeps_other_keys() {
    let before = sample();
    let after = before.new_parent(IdOrNew::Id(3), Some(IdOrNew::Id(2)));
    for k in [1, 2, 4] {
        assert_eq!(places(&after, IdOrNew::Id(k)), places(&before, IdOrNew::Id(k)));
    }
    assert_eq!(places(&after, IdOrNew::Id(3)), 1);
}
