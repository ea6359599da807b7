//! The panels of a cabinet (Schacht) as a tree: building it from the loaded panels, editing it,
//! and the changes saved.

use vstd::prelude::*;
use crate::assoc::{has_key, lemma_push, lemma_update, lemma_value_at, to_map};
use crate::ids::{opt_text, IdOrNew, IdOrNewInput};
use crate::tree::{copy_keys, copy_lists, keys_unique, lists_view, lists_appended, lists_swapped, lists_without, other_than, pair_other_than, swapped, without, CopyRow, TreeModel, TreeState};

verus! {

/// A panel with the panels inside it, as loaded.
#[derive(Debug)]
pub struct PanelTreeEntry {
    pub id: i32,
    pub name: Option<String>,
    pub children: Vec<PanelTreeEntry>,
    pub has_loop: bool,
    pub port_count: usize,
    pub netbox_device_id: Option<i32>,
}

/// A panel in the editor: its id and name.
#[derive(Debug, Clone, PartialEq, Eq, Hash)]
pub struct PanelEntry {
    pub id: IdOrNew,
    pub name: Option<String>,
}

/// An exact copy of an optional name.
fn copy_name(n: &Option<String>) -> (r: Option<String>)
    ensures
        r == *n,
{
    match n {
        Some(s) => Some(s.clone()),
        None => None,
    }
}

impl CopyRow for PanelEntry {
    fn copy_row(&self) -> (r: PanelEntry)
        ensures
            r == *self,
    {
        PanelEntry { id: self.id, name: copy_name(&self.name) }
    }
}

/// The map after inserting the pairs in order (a later pair replaces an earlier one).
pub open spec fn insert_all<V>(m: Map<IdOrNew, V>, s: Seq<(IdOrNew, V)>) -> Map<IdOrNew, V>
    decreases s.len(),
{
    if s.len() == 0 {
        m
    } else {
        insert_all(m, s.drop_last()).insert(s.last().0, s.last().1)
    }
}

pub proof fn lemma_insert_all_concat<V>(m: Map<IdOrNew, V>, a: Seq<(IdOrNew, V)>, b: Seq<(IdOrNew, V)>)
    ensures
        insert_all(m, a + b) == insert_all(insert_all(m, a), b),
    decreases b.len(),
{
    if b.len() == 0 {
        assert(a + b =~= a);
    } else {
        lemma_insert_all_concat(m, a, b.drop_last());
        assert((a + b).drop_last() =~= a + b.drop_last());
        assert((a + b).last() == b.last());
    }
}

/// The entry of a loaded panel.
pub open spec fn panel_entry_of(e: PanelTreeEntry) -> PanelEntry {
    PanelEntry { id: IdOrNew::Id(e.id), name: e.name }
}

/// The ids of the panels.
pub open spec fn ids_of(s: Seq<PanelTreeEntry>) -> Seq<IdOrNew> {
    s.map_values(|e: PanelTreeEntry| IdOrNew::Id(e.id))
}

/// The entries of a tree, each panel before the panels inside it.
pub open spec fn tree_entries(e: PanelTreeEntry) -> Seq<(IdOrNew, PanelEntry)>
    decreases e,
{
    seq![(IdOrNew::Id(e.id), panel_entry_of(e))] + list_entries(e.children@)
}

/// The entries of the trees in order.
pub open spec fn list_entries(s: Seq<PanelTreeEntry>) -> Seq<(IdOrNew, PanelEntry)>
    decreases s,
{
    if s.len() == 0 {
        seq![]
    } else {
        list_entries(s.drop_last()) + tree_entries(s.last())
    }
}

/// The child lists of a tree, a panel's list after those of the panels inside it.
pub open spec fn tree_rels(e: PanelTreeEntry) -> Seq<(IdOrNew, Seq<IdOrNew>)>
    decreases e,
{
    list_rels(e.children@).push((IdOrNew::Id(e.id), ids_of(e.children@)))
}

/// The child lists of the trees in order.
pub open spec fn list_rels(s: Seq<PanelTreeEntry>) -> Seq<(IdOrNew, Seq<IdOrNew>)>
    decreases s,
{
    if s.len() == 0 {
        seq![]
    } else {
        list_rels(s.drop_last()) + tree_rels(s.last())
    }
}

/// Stores `v` under `k`.
fn put<V>(list: &mut Vec<(IdOrNew, V)>, k: IdOrNew, v: V)
    requires
        keys_unique(old(list)@),
    ensures
        keys_unique(final(list)@),
        to_map(final(list)@) == to_map(old(list)@).insert(k, v),
{
    let mut i: usize = 0;
    while i < list.len()
        invariant
            i <= list.len(),
            keys_unique(list@),
            list@ == old(list)@,
            forall|j: int| 0 <= j < i ==> list@[j].0 != k,
        decreases list.len() - i,
    {
        if list[i].0 == k {
            proof { lemma_update(list@, i as int, v); }
            list.set(i, (k, v));
            return;
        }
        i += 1;
    }
    proof { lemma_push(list@, k, v); }
    list.push((k, v));
}

/// Stores a child list under `k`.
fn put_list(list: &mut Vec<(IdOrNew, Vec<IdOrNew>)>, k: IdOrNew, v: Vec<IdOrNew>)
    requires
        keys_unique(lists_view(old(list)@)),
    ensures
        keys_unique(lists_view(final(list)@)),
        to_map(lists_view(final(list)@)) == to_map(lists_view(old(list)@)).insert(k, v@),
{
    let ghost before = lists_view(list@);
    let mut i: usize = 0;
    while i < list.len()
        invariant
            i <= list.len(),
            before == lists_view(list@),
            list@ == old(list)@,
            keys_unique(before),
            forall|j: int| 0 <= j < i ==> list@[j].0 != k,
        decreases list.len() - i,
    {
        if list[i].0 == k {
            proof { lemma_update(before, i as int, v@); }
            list.set(i, (k, v));
            assert(lists_view(list@) =~= before.update(i as int, (before[i as int].0, v@)));
            return;
        }
        i += 1;
    }
    proof {
        assert(!has_key(before, k)) by {
            if has_key(before, k) {
                let j = choose|j: int| 0 <= j < before.len() && before[j].0 == k;
                assert(list@[j].0 == k);
            }
        }
        lemma_push(before, k, v@);
    }
    list.push((k, v));
    assert(lists_view(list@) =~= before.push((k, v@)));
}

/// Adds the entries and child lists of the panels inside `parent`, and `parent`'s child list.
fn append_children(entries: &mut Vec<(IdOrNew, PanelEntry)>, rels: &mut Vec<(IdOrNew, Vec<IdOrNew>)>, parent: IdOrNew, children: &Vec<PanelTreeEntry>)
    requires
        keys_unique(old(entries)@),
        keys_unique(lists_view(old(rels)@)),
    ensures
        keys_unique(final(entries)@),
        keys_unique(lists_view(final(rels)@)),
        to_map(final(entries)@) == insert_all(to_map(old(entries)@), list_entries(children@)),
        to_map(lists_view(final(rels)@)) == insert_all(to_map(lists_view(old(rels)@)), list_rels(children@)).insert(parent, ids_of(children@)),
    decreases children@,
{
    let ghost e0 = to_map(entries@);
    let ghost r0 = to_map(lists_view(rels@));
    let mut ids: Vec<IdOrNew> = Vec::new();
    let mut i: usize = 0;
    while i < children.len()
        invariant
            i <= children.len(),
            keys_unique(entries@),
            keys_unique(lists_view(rels@)),
            ids@ == ids_of(children@.subrange(0, i as int)),
            to_map(entries@) == insert_all(e0, list_entries(children@.subrange(0, i as int))),
            to_map(lists_view(rels@)) == insert_all(r0, list_rels(children@.subrange(0, i as int))),
        decreases children.len() - i,
    {
        let c = &children[i];
        let id = IdOrNew::Id(c.id);
        let ghost sub = children@.subrange(0, i + 1);
        proof {
            assert(sub.drop_last() =~= children@.subrange(0, i as int));
            assert(sub.last() == children@[i as int]);
            lemma_insert_all_concat(e0, list_entries(children@.subrange(0, i as int)), tree_entries(children@[i as int]));
            lemma_insert_all_concat(r0, list_rels(children@.subrange(0, i as int)), tree_rels(children@[i as int]));
            lemma_insert_all_concat(
                insert_all(e0, list_entries(children@.subrange(0, i as int))),
                seq![(id, panel_entry_of(*c))],
                list_entries(c.children@),
            );
            let ei = insert_all(e0, list_entries(children@.subrange(0, i as int)));
            assert(insert_all(ei, seq![(id, panel_entry_of(*c))]) == ei.insert(id, panel_entry_of(*c))) by {
                assert(seq![(id, panel_entry_of(*c))].drop_last() =~= Seq::<(IdOrNew, PanelEntry)>::empty());
                assert(insert_all(ei, Seq::<(IdOrNew, PanelEntry)>::empty()) == ei);
            }
            let ri = insert_all(r0, list_rels(children@.subrange(0, i as int)));
            assert(tree_rels(*c).drop_last() =~= list_rels(c.children@));
            assert(insert_all(ri, tree_rels(*c)) == insert_all(ri, list_rels(c.children@)).insert(id, ids_of(c.children@)));
        }
        ids.push(id);
        put(entries, id, PanelEntry { id, name: copy_name(&c.name) });
        append_children(entries, rels, id, &c.children);
        proof {
            assert(ids@ =~= ids_of(sub));
        }
        i += 1;
    }
    assert(children@.subrange(0, children@.len() as int) =~= children@);
    put_list(rels, parent, ids);
}


/// Copies of the entries, the one of `id` (if any) named `text`.
fn entries_renamed(entries: &Vec<(IdOrNew, PanelEntry)>, id: IdOrNew, text: String) -> (r: Vec<(IdOrNew, PanelEntry)>)
    requires
        keys_unique(entries@),
    ensures
        keys_unique(r@),
        to_map(r@) == if to_map(entries@).contains_key(id) {
            to_map(entries@).insert(id, PanelEntry { name: Some(text), ..to_map(entries@)[id] })
        } else {
            to_map(entries@)
        },
{
    let mut r: Vec<(IdOrNew, PanelEntry)> = Vec::new();
    let mut found: Option<usize> = None;
    let mut i: usize = 0;
    while i < entries.len()
        invariant
            i <= entries.len(),
            keys_unique(entries@),
            r@.len() == i,
            forall|j: int| 0 <= j < i ==> (#[trigger] r@[j]).0 == entries@[j].0,
            forall|j: int| 0 <= j < i && entries@[j].0 != id ==> r@[j] == entries@[j],
            match found {
                Some(f) => f < i && entries@[f as int].0 == id && r@[f as int].1 == PanelEntry { name: Some(text), ..entries@[f as int].1 },
                None => forall|j: int| 0 <= j < i ==> entries@[j].0 != id,
            },
        decreases entries.len() - i,
    {
        let ghost before = r@;
        if entries[i].0 == id {
            let e = PanelEntry { id: entries[i].1.id, name: Some(text.clone()) };
            r.push((id, e));
            found = Some(i);
        } else {
            let e = entries[i].1.copy_row();
            r.push((entries[i].0, e));
        }
        proof {
            assert forall|j: int| 0 <= j < i implies r@[j] == before[j] by {}
        }
        i += 1;
    }
    proof {
        assert(keys_unique(r@)) by {
            assert forall|a: int, b: int| 0 <= a < b < r@.len() implies r@[a].0 != r@[b].0 by {
                assert(r@[a].0 == entries@[a].0 && r@[b].0 == entries@[b].0);
            }
        }
        let m = to_map(entries@);
        let target = if m.contains_key(id) { m.insert(id, PanelEntry { name: Some(text), ..m[id] }) } else { m };
        assert forall|k: IdOrNew| #[trigger] to_map(r@).contains_key(k) <==> target.contains_key(k) by {
            if to_map(r@).contains_key(k) {
                let j = choose|j: int| 0 <= j < r@.len() && r@[j].0 == k;
                assert(entries@[j].0 == k);
            }
            if target.contains_key(k) {
                let j = choose|j: int| 0 <= j < entries@.len() && entries@[j].0 == k;
                assert(r@[j].0 == k);
            }
        }
        assert forall|k: IdOrNew| #[trigger] to_map(r@).contains_key(k) implies to_map(r@)[k] == target[k] by {
            let j = choose|j: int| 0 <= j < r@.len() && r@[j].0 == k;
            lemma_value_at(r@, j);
            lemma_value_at(entries@, j);
        }
        assert(to_map(r@) =~= target);
    }
    r
}

/// The first key whose child list holds `entry`.
pub open spec fn parent_of(c: Seq<(IdOrNew, Seq<IdOrNew>)>, entry: IdOrNew) -> Option<IdOrNew>
    decreases c.len(),
{
    if c.len() == 0 {
        None
    } else if c[0].1.contains(entry) {
        Some(c[0].0)
    } else {
        parent_of(c.drop_first(), entry)
    }
}

fn contains_key(list: &Vec<IdOrNew>, k: IdOrNew) -> (r: bool)
    ensures
        r == list@.contains(k),
{
    let mut i: usize = 0;
    while i < list.len()
        invariant
            i <= list.len(),
            forall|j: int| 0 <= j < i ==> list@[j] != k,
        decreases list.len() - i,
    {
        if list[i] == k {
            assert(list@[i as int] == k);
            return true;
        }
        i += 1;
    }
    false
}

fn find_parent(children: &Vec<(IdOrNew, Vec<IdOrNew>)>, entry: IdOrNew) -> (r: Option<IdOrNew>)
    ensures
        r == parent_of(lists_view(children@), entry),
{
    let ghost c = lists_view(children@);
    let mut i: usize = 0;
    assert(c.subrange(0, c.len() as int) == c);
    while i < children.len()
        invariant
            i <= children.len(),
            c == lists_view(children@),
            parent_of(c, entry) == parent_of(c.subrange(i as int, c.len() as int), entry),
        decreases children.len() - i,
    {
        let ghost rest = c.subrange(i as int, c.len() as int);
        assert(rest[0] == c[i as int]);
        if contains_key(&children[i].1, entry) {
            return Some(children[i].0);
        }
        assert(rest.drop_first() =~= c.subrange(i + 1, c.len() as int));
        i += 1;
    }
    assert(c.subrange(i as int, c.len() as int) =~= Seq::<(IdOrNew, Seq<IdOrNew>)>::empty());
    None
}

/// The state of the page editing the panels of a cabinet.
pub struct EditCabinet {
    state: TreeState,
    model: TreeModel<PanelEntry>,
    loaded_panels: Option<Vec<PanelTreeEntry>>,
}

impl EditCabinet {
    /// The panel tree being edited.
    pub closed spec fn tree(&self) -> TreeModel<PanelEntry> {
        self.model
    }

    /// The panels as loaded, if loaded.
    pub closed spec fn loaded(&self) -> Option<Seq<PanelTreeEntry>> {
        match self.loaded_panels {
            Some(v) => Some(v@),
            None => None,
        }
    }

    /// The panels shown expanded.
    pub closed spec fn opened(&self) -> Set<IdOrNew> {
        self.state@
    }

    /// Nothing loaded.
    pub fn new() -> (r: EditCabinet)
        ensures
            r.tree().roots_view().len() == 0,
            r.tree().entries_view().len() == 0,
            r.tree().children_view().len() == 0,
            r.loaded() is None,
            r.opened() == Set::<IdOrNew>::empty(),
    {
        EditCabinet { state: TreeState::default(), model: TreeModel::default(), loaded_panels: None }
    }

    pub fn model(&self) -> (r: &TreeModel<PanelEntry>)
        ensures
            *r == self.tree(),
    {
        &self.model
    }

    pub fn state(&self) -> (r: &TreeState)
        ensures
            r@ == self.opened(),
    {
        &self.state
    }

    /// The panels arrived: each becomes an entry with its name, the panels inside it its child
    /// list; the top panels are the roots.
    pub fn panels_fetched(&mut self, panel_entries: Vec<PanelTreeEntry>)
        ensures
            final(self).tree().roots_view() == ids_of(panel_entries@),
            to_map(final(self).tree().entries_view()) == insert_all(Map::empty(), list_entries(panel_entries@)),
            to_map(final(self).tree().children_view()) == insert_all(Map::empty(), list_rels(panel_entries@)),
            final(self).loaded() == Some(panel_entries@),
            final(self).opened() == old(self).opened(),
    {
        let mut roots: Vec<IdOrNew> = Vec::new();
        let mut entries: Vec<(IdOrNew, PanelEntry)> = Vec::new();
        let mut rels: Vec<(IdOrNew, Vec<IdOrNew>)> = Vec::new();
        let ghost e0 = to_map(entries@);
        let ghost r0 = to_map(lists_view(rels@));
        assert(e0 =~= Map::<IdOrNew, PanelEntry>::empty());
        assert(r0 =~= Map::<IdOrNew, Seq<IdOrNew>>::empty());
        assert(lists_view(rels@) =~= Seq::<(IdOrNew, Seq<IdOrNew>)>::empty());
        let mut i: usize = 0;
        while i < panel_entries.len()
            invariant
                i <= panel_entries.len(),
                keys_unique(entries@),
                keys_unique(lists_view(rels@)),
                e0 == Map::<IdOrNew, PanelEntry>::empty(),
                r0 == Map::<IdOrNew, Seq<IdOrNew>>::empty(),
                roots@ == ids_of(panel_entries@.subrange(0, i as int)),
                to_map(entries@) == insert_all(e0, list_entries(panel_entries@.subrange(0, i as int))),
                to_map(lists_view(rels@)) == insert_all(r0, list_rels(panel_entries@.subrange(0, i as int))),
            decreases panel_entries.len() - i,
        {
            let c = &panel_entries[i];
            let id = IdOrNew::Id(c.id);
            let ghost sub = panel_entries@.subrange(0, i + 1);
            proof {
                assert(sub.drop_last() =~= panel_entries@.subrange(0, i as int));
                assert(sub.last() == panel_entries@[i as int]);
                lemma_insert_all_concat(e0, list_entries(panel_entries@.subrange(0, i as int)), tree_entries(*c));
                lemma_insert_all_concat(r0, list_rels(panel_entries@.subrange(0, i as int)), tree_rels(*c));
                let ei = insert_all(e0, list_entries(panel_entries@.subrange(0, i as int)));
                lemma_insert_all_concat(ei, seq![(id, panel_entry_of(*c))], list_entries(c.children@));
                assert(insert_all(ei, seq![(id, panel_entry_of(*c))]) == ei.insert(id, panel_entry_of(*c))) by {
                    assert(seq![(id, panel_entry_of(*c))].drop_last() =~= Seq::<(IdOrNew, PanelEntry)>::empty());
                    assert(insert_all(ei, Seq::<(IdOrNew, PanelEntry)>::empty()) == ei);
                }
                let ri = insert_all(r0, list_rels(panel_entries@.subrange(0, i as int)));
                assert(tree_rels(*c).drop_last() =~= list_rels(c.children@));
                assert(insert_all(ri, tree_rels(*c)) == insert_all(ri, list_rels(c.children@)).insert(id, ids_of(c.children@)));
            }
            roots.push(id);
            put(&mut entries, id, PanelEntry { id, name: copy_name(&c.name) });
            append_children(&mut entries, &mut rels, id, &c.children);
            proof {
                assert(roots@ =~= ids_of(sub));
            }
            i += 1;
        }
        assert(panel_entries@.subrange(0, panel_entries@.len() as int) =~= panel_entries@);
        self.model = TreeModel::new(roots, entries, rels);
        self.loaded_panels = Some(panel_entries);
    }

    /// Adds a new panel without a name at the end of the roots, under a new temporary id.
    pub fn create_panel(&mut self)
        ensures
            exists|u: u128| {
                &&& final(self).tree().roots_view() == old(self).tree().roots_view().push(IdOrNew::Temporary(u))
                &&& to_map(final(self).tree().entries_view()) == to_map(old(self).tree().entries_view()).insert(
                    IdOrNew::Temporary(u),
                    PanelEntry { id: IdOrNew::Temporary(u), name: None },
                )
                &&& (finite_tree(old(self).tree()) && !to_map(old(self).tree().children_view()).contains_key(IdOrNew::Temporary(u))
                    ==> finite_tree(final(self).tree()))
            },
            final(self).tree().children_view() == old(self).tree().children_view(),
            final(self).loaded() == old(self).loaded(),
            final(self).opened() == old(self).opened(),
    {
        let new_id = IdOrNew::default();
        let ghost u = new_id->Temporary_0;
        assert(new_id == IdOrNew::Temporary(u));
        let mut roots = copy_keys(self.model.roots());
        roots.push(new_id);
        let mut entries: Vec<(IdOrNew, PanelEntry)> = Vec::new();
        let old_entries = self.model.entries();
        let mut i: usize = 0;
        while i < old_entries.len()
            invariant
                i <= old_entries.len(),
                entries@.len() == i,
                forall|j: int| 0 <= j < i ==> #[trigger] entries@[j] == old_entries@[j],
            decreases old_entries.len() - i,
        {
            let e = old_entries[i].1.copy_row();
            entries.push((old_entries[i].0, e));
            i += 1;
        }
        assert(entries@ =~= old_entries@);
        put(&mut entries, new_id, PanelEntry { id: new_id, name: None });
        let children = copy_lists(self.model.children());
        self.model = TreeModel::new(roots, entries, children);
        assert(self.tree().roots_view() == old(self).tree().roots_view().push(IdOrNew::Temporary(u)));
        proof {
            let t = old(self).tree();
            let e = to_map(t.entries_view());
            let c = to_map(t.children_view());
            let x = IdOrNew::Temporary(u);
            if finite_tree(t) && !c.contains_key(x) {
                let e2 = to_map(self.tree().entries_view());
                assert(e2 == e.insert(x, PanelEntry { id: x, name: None }));
                assert(to_map(self.tree().children_view()) == c);
                assert(smaller_tree(e2, c, e, c));
                assert forall|y: IdOrNew| #[trigger] self.tree().roots_view().contains(y) implies t.roots_view().contains(y)
                    || !(e2.contains_key(y) && c.contains_key(y)) by {
                    let i = choose|i: int| 0 <= i < self.tree().roots_view().len() && self.tree().roots_view()[i] == y;
                    if i < t.roots_view().len() {
                        assert(t.roots_view()[i] == y);
                    }
                }
                lemma_finite_smaller(t, self.tree());
            }
        }
    }
}


impl EditCabinet {
    /// Removes a panel from the tree.
    pub fn remove(&mut self, id: IdOrNew)
        ensures
            final(self).tree().roots_view() == without(old(self).tree().roots_view(), id),
            final(self).tree().entries_view() == old(self).tree().entries_view().filter(pair_other_than(id)),
            final(self).tree().children_view() == lists_without(old(self).tree().children_view(), id),
            final(self).loaded() == old(self).loaded(),
            final(self).opened() == old(self).opened(),
            finite_tree(old(self).tree()) ==> finite_tree(final(self).tree()),
    {
        let old_children = self.model.children();
        let ghost cv = lists_view(old_children@);
        self.model = self.model.remove(&id);
        proof {
            let t = old(self).tree();
            let ev = t.entries_view();
            let f = ev.filter(pair_other_than::<PanelEntry>(id));
            let c2 = lists_without(cv, id);
            assert forall|k: IdOrNew| #[trigger] to_map(f).contains_key(k) implies to_map(ev).contains_key(k) by {
                let i = choose|i: int| 0 <= i < f.len() && f[i].0 == k;
                assert(f.contains(f[i]));
                ev.lemma_filter_contains_rev(pair_other_than::<PanelEntry>(id), f[i]);
                let j = choose|j: int| 0 <= j < ev.len() && ev[j] == f[i];
                assert(ev[j].0 == k);
            }
            assert forall|i: int, x: IdOrNew| 0 <= i < cv.len() && #[trigger] c2[i].1.contains(x) implies cv[i].1.contains(x) by {
                lemma_without_within(cv[i].1, id);
            }
            lemma_lists_smaller(to_map(f), to_map(ev), c2, cv);
            lemma_without_within(t.roots_view(), id);
            if finite_tree(t) {
                lemma_finite_smaller(t, self.tree());
            }
        }
    }

    /// Exchanges two siblings under `parent`, or among the roots.
    pub fn exchange_siblings(&mut self, parent: Option<IdOrNew>, siblings: [IdOrNew; 2])
        ensures
            final(self).tree().roots_view() == match parent {
                Some(_) => old(self).tree().roots_view(),
                None => swapped(old(self).tree().roots_view(), siblings[0], siblings[1]),
            },
            final(self).tree().children_view() == match parent {
                Some(p) => lists_swapped(old(self).tree().children_view(), p, siblings[0], siblings[1]),
                None => old(self).tree().children_view(),
            },
            final(self).tree().entries_view() == old(self).tree().entries_view(),
            final(self).loaded() == old(self).loaded(),
            final(self).opened() == old(self).opened(),
            finite_tree(old(self).tree()) && both_or_neither(old(self).tree(), parent, siblings[0], siblings[1])
                ==> finite_tree(final(self).tree()),
    {
        let old_children = self.model.children();
        let ghost cv = lists_view(old_children@);
        self.model = self.model.exchange_siblings(parent, siblings);
        proof {
            let t = old(self).tree();
            let a = siblings[0];
            let b = siblings[1];
            if finite_tree(t) && both_or_neither(t, parent, a, b) {
                let e = to_map(t.entries_view());
                match parent {
                    Some(p) => {
                        let c2 = lists_swapped(cv, p, a, b);
                        assert forall|i: int, x: IdOrNew| 0 <= i < cv.len() && #[trigger] c2[i].1.contains(x) implies cv[i].1.contains(x) by {
                            if cv[i].0 == p {
                                lemma_swapped_within(cv[i].1, a, b);
                            }
                        }
                        lemma_lists_smaller(e, e, c2, cv);
                    },
                    None => {
                        assert forall|i: int, x: IdOrNew| 0 <= i < cv.len() && #[trigger] cv[i].1.contains(x) implies cv[i].1.contains(x) by {}
                        lemma_lists_smaller(e, e, cv, cv);
                        lemma_swapped_within(t.roots_view(), a, b);
                    },
                }
                lemma_finite_smaller(t, self.tree());
            }
        }
    }

    /// Moves a panel into another one (at the end of its child list) and shows that one
    /// expanded.
    pub fn new_parent(&mut self, entry: IdOrNew, new_parent: IdOrNew)
        ensures
            final(self).tree().roots_view() == without(old(self).tree().roots_view(), entry),
            final(self).tree().children_view() == lists_appended(lists_without(old(self).tree().children_view(), entry), new_parent, entry),
            final(self).tree().entries_view() == old(self).tree().entries_view(),
            final(self).loaded() == old(self).loaded(),
            final(self).opened() == old(self).opened().insert(new_parent),
    {
        self.model = self.model.new_parent(entry, Some(new_parent));
        self.state.open(new_parent);
    }

    /// Moves a panel up one level: next to its parent, under the parent's parent (shown expanded)
    /// or among the roots. Without a parent nothing changes and the result is false.
    pub fn move_up(&mut self, entry: IdOrNew) -> (r: bool)
        ensures
            r == (parent_of(old(self).tree().children_view(), entry) is Some),
            final(self).loaded() == old(self).loaded(),
            match parent_of(old(self).tree().children_view(), entry) {
                Some(current) => {
                    let target = parent_of(old(self).tree().children_view(), current);
                    &&& final(self).tree().roots_view() == match target {
                        Some(_) => without(old(self).tree().roots_view(), entry),
                        None => without(old(self).tree().roots_view(), entry).push(entry),
                    }
                    &&& final(self).tree().children_view() == match target {
                        Some(p) => lists_appended(lists_without(old(self).tree().children_view(), entry), p, entry),
                        None => lists_without(old(self).tree().children_view(), entry),
                    }
                    &&& final(self).tree().entries_view() == old(self).tree().entries_view()
                    &&& final(self).opened() == match target {
                        Some(p) => old(self).opened().insert(p),
                        None => old(self).opened(),
                    }
                },
                None => final(self).tree() == old(self).tree() && final(self).opened() == old(self).opened(),
            },
    {
        let current = find_parent(self.model.children(), entry);
        match current {
            Some(current_parent) => {
                let new_parent = find_parent(self.model.children(), current_parent);
                match new_parent {
                    Some(p) => self.state.open(p),
                    None => {},
                }
                self.model = self.model.new_parent(entry, new_parent);
                true
            },
            None => false,
        }
    }

    /// Names a panel (one not in the tree stays unknown).
    pub fn set_name(&mut self, id: IdOrNew, text: String)
        ensures
            final(self).tree().roots_view() == old(self).tree().roots_view(),
            final(self).tree().children_view() == old(self).tree().children_view(),
            to_map(final(self).tree().entries_view()) == if to_map(old(self).tree().entries_view()).contains_key(id) {
                to_map(old(self).tree().entries_view()).insert(id, PanelEntry { name: Some(text), ..to_map(old(self).tree().entries_view())[id] })
            } else {
                to_map(old(self).tree().entries_view())
            },
            final(self).loaded() == old(self).loaded(),
            final(self).opened() == old(self).opened(),
            finite_tree(old(self).tree()) ==> finite_tree(final(self).tree()),
    {
        let ghost text_view = text;
        let entries = entries_renamed(self.model.entries(), id, text);
        let roots = copy_keys(self.model.roots());
        let children = copy_lists(self.model.children());
        self.model = TreeModel::new(roots, entries, children);
        proof {
            let t = old(self).tree();
            let e = to_map(t.entries_view());
            let c = to_map(t.children_view());
            let e2 = to_map(self.tree().entries_view());
            assert(e2 == if e.contains_key(id) { e.insert(id, PanelEntry { name: Some(text_view), ..e[id] }) } else { e });
            assert(to_map(self.tree().children_view()) == c);
            assert(smaller_tree(e2, c, e, c));
            if finite_tree(t) {
                lemma_finite_smaller(t, self.tree());
            }
        }
    }
}


/// A panel as saved: its id, name, parent and place among its siblings.
#[derive(Debug, Clone)]
pub struct FlatPanelNode {
    pub id: IdOrNew,
    pub name: Option<String>,
    pub parent_id: Option<IdOrNew>,
    pub order: i32,
}

/// A panel as the backend stores it.
#[derive(Debug, Clone)]
pub struct FlatPanelInput {
    pub id: IdOrNewInput,
    pub name: Option<String>,
    pub parent_id: Option<IdOrNewInput>,
    pub order: i32,
    pub netbox_device_id: Option<i32>,
}

/// The changes of a cabinet's panels sent to the backend.
#[derive(Debug)]
pub struct SyncCabinetPanelsVariables {
    pub cabinet_id: i32,
    pub changes: Vec<FlatPanelInput>,
    pub deletes: Vec<i32>,
}

/// The loaded panels flattened, each before the panels inside it, numbered from 1 among their
/// siblings.
pub open spec fn flat_loaded(panels: Seq<PanelTreeEntry>, parent: Option<IdOrNew>) -> Seq<FlatPanelNode>
    decreases panels,
{
    if panels.len() == 0 {
        seq![]
    } else {
        flat_loaded(panels.drop_last(), parent) + flat_loaded_tree(panels.last(), parent, panels.len() as int)
    }
}

pub open spec fn flat_loaded_tree(p: PanelTreeEntry, parent: Option<IdOrNew>, order: int) -> Seq<FlatPanelNode>
    decreases p,
{
    seq![FlatPanelNode { id: IdOrNew::Id(p.id), name: p.name, parent_id: parent, order: order as i32 }] + flat_loaded(
        p.children@,
        Some(IdOrNew::Id(p.id)),
    )
}

/// The nodes by id.
pub open spec fn keyed(nodes: Seq<FlatPanelNode>) -> Seq<(IdOrNew, FlatPanelNode)> {
    nodes.map_values(|n: FlatPanelNode| (n.id, n))
}

/// The panels of the tree flattened from `list` down, each before the panels inside it, numbered
/// from 1 among their siblings (counting siblings without an entry); keys without an entry are
/// left out with what is below them. `d` bounds the depth.
pub open spec fn flat_list(e: Map<IdOrNew, PanelEntry>, c: Map<IdOrNew, Seq<IdOrNew>>, list: Seq<IdOrNew>, parent: Option<IdOrNew>, d: nat) -> Seq<FlatPanelNode>
    decreases d, list.len(),
{
    if list.len() == 0 {
        seq![]
    } else {
        let id = list.last();
        flat_list(e, c, list.drop_last(), parent, d) + if e.contains_key(id) {
            seq![FlatPanelNode { id, name: e[id].name, parent_id: parent, order: list.len() as i32 }] + if c.contains_key(id) && d > 0 {
                flat_list(e, c, c[id], Some(id), (d - 1) as nat)
            } else {
                seq![]
            }
        } else {
            seq![]
        }
    }
}

/// Below `list`, the tree reaches no deeper than `d` levels (so it has no cycle).
pub open spec fn within(e: Map<IdOrNew, PanelEntry>, c: Map<IdOrNew, Seq<IdOrNew>>, list: Seq<IdOrNew>, d: nat) -> bool
    decreases d, list.len(),
{
    if list.len() == 0 {
        true
    } else {
        let id = list.last();
        &&& within(e, c, list.drop_last(), d)
        &&& (e.contains_key(id) && c.contains_key(id) ==> d > 0 && within(e, c, c[id], (d - 1) as nat))
    }
}

proof fn lemma_within_prefix(e: Map<IdOrNew, PanelEntry>, c: Map<IdOrNew, Seq<IdOrNew>>, list: Seq<IdOrNew>, d: nat, i: int)
    requires
        within(e, c, list, d),
        0 <= i <= list.len(),
    ensures
        within(e, c, list.subrange(0, i), d),
    decreases list.len(),
{
    if i < list.len() {
        assert(list.drop_last().subrange(0, i) =~= list.subrange(0, i));
        lemma_within_prefix(e, c, list.drop_last(), d, i);
    } else {
        assert(list.subrange(0, i) =~= list);
    }
}

/// The tree of the editor has finite depth below its roots.
pub open spec fn finite_tree(t: TreeModel<PanelEntry>) -> bool {
    exists|d: nat| within(to_map(t.entries_view()), to_map(t.children_view()), t.roots_view(), d)
}

/// The panel `x` of `list` is fine for `within`: with an entry and a child list it has room for
/// them one level deeper.
pub open spec fn node_within(e: Map<IdOrNew, PanelEntry>, c: Map<IdOrNew, Seq<IdOrNew>>, x: IdOrNew, d: nat) -> bool {
    e.contains_key(x) && c.contains_key(x) ==> d > 0 && within(e, c, c[x], (d - 1) as nat)
}

/// `within` holds of a list when it holds of each of its panels.
proof fn lemma_within_each(e: Map<IdOrNew, PanelEntry>, c: Map<IdOrNew, Seq<IdOrNew>>, list: Seq<IdOrNew>, d: nat)
    ensures
        within(e, c, list, d) <==> forall|i: int| 0 <= i < list.len() ==> node_within(e, c, #[trigger] list[i], d),
    decreases list.len(),
{
    if list.len() > 0 {
        let rest = list.drop_last();
        lemma_within_each(e, c, rest, d);
        assert forall|i: int| 0 <= i < rest.len() implies #[trigger] rest[i] == list[i] by {}
        if forall|i: int| 0 <= i < list.len() ==> node_within(e, c, #[trigger] list[i], d) {
            assert(node_within(e, c, list[list.len() - 1], d));
            assert forall|i: int| 0 <= i < rest.len() implies node_within(e, c, #[trigger] rest[i], d) by {
                assert(node_within(e, c, list[i], d));
            }
        }
        if within(e, c, list, d) {
            assert forall|i: int| 0 <= i < list.len() implies node_within(e, c, #[trigger] list[i], d) by {
                if i < rest.len() {
                    assert(node_within(e, c, rest[i], d));
                }
            }
        }
    }
}

/// The tree `(e2, c2)` holds no more than `(e, c)`: each of its panels with an entry and a child
/// list has both in `(e, c)`, with no child that isn't there.
pub open spec fn smaller_tree(
    e2: Map<IdOrNew, PanelEntry>,
    c2: Map<IdOrNew, Seq<IdOrNew>>,
    e: Map<IdOrNew, PanelEntry>,
    c: Map<IdOrNew, Seq<IdOrNew>>,
) -> bool {
    forall|k: IdOrNew| #[trigger] e2.contains_key(k) && #[trigger] c2.contains_key(k) ==> {
        &&& e.contains_key(k)
        &&& c.contains_key(k)
        &&& forall|x: IdOrNew| #[trigger] c2[k].contains(x) ==> c[k].contains(x)
    }
}

/// A smaller tree below fewer panels is no deeper.
proof fn lemma_within_smaller(
    e: Map<IdOrNew, PanelEntry>,
    c: Map<IdOrNew, Seq<IdOrNew>>,
    list: Seq<IdOrNew>,
    d: nat,
    e2: Map<IdOrNew, PanelEntry>,
    c2: Map<IdOrNew, Seq<IdOrNew>>,
    list2: Seq<IdOrNew>,
)
    requires
        within(e, c, list, d),
        smaller_tree(e2, c2, e, c),
        forall|x: IdOrNew| #[trigger] list2.contains(x) ==> list.contains(x) || !(e2.contains_key(x) && c2.contains_key(x)),
    ensures
        within(e2, c2, list2, d),
    decreases d,
{
    lemma_within_each(e, c, list, d);
    lemma_within_each(e2, c2, list2, d);
    assert forall|i: int| 0 <= i < list2.len() implies node_within(e2, c2, #[trigger] list2[i], d) by {
        let x = list2[i];
        assert(list2.contains(x));
        if e2.contains_key(x) && c2.contains_key(x) {
            let j = choose|j: int| 0 <= j < list.len() && list[j] == x;
            assert(node_within(e, c, list[j], d));
            assert forall|y: IdOrNew| #[trigger] c2[x].contains(y) implies c[x].contains(y) || !(e2.contains_key(y) && c2.contains_key(y)) by {}
            lemma_within_smaller(e, c, c[x], (d - 1) as nat, e2, c2, c2[x]);
        }
    }
}

/// A smaller tree below fewer roots still has finite depth.
proof fn lemma_finite_smaller(t: TreeModel<PanelEntry>, t2: TreeModel<PanelEntry>)
    requires
        finite_tree(t),
        smaller_tree(to_map(t2.entries_view()), to_map(t2.children_view()), to_map(t.entries_view()), to_map(t.children_view())),
        forall|x: IdOrNew| #[trigger] t2.roots_view().contains(x) ==> t.roots_view().contains(x)
            || !(to_map(t2.entries_view()).contains_key(x) && to_map(t2.children_view()).contains_key(x)),
    ensures
        finite_tree(t2),
{
    let e = to_map(t.entries_view());
    let c = to_map(t.children_view());
    let d = choose|d: nat| within(e, c, t.roots_view(), d);
    lemma_within_smaller(e, c, t.roots_view(), d, to_map(t2.entries_view()), to_map(t2.children_view()), t2.roots_view());
}

/// The keys without `id` are among the keys.
proof fn lemma_without_within(s: Seq<IdOrNew>, id: IdOrNew)
    ensures
        forall|x: IdOrNew| #[trigger] without(s, id).contains(x) ==> s.contains(x),
{
    assert forall|x: IdOrNew| #[trigger] without(s, id).contains(x) implies s.contains(x) by {
        s.lemma_filter_contains_rev(other_than(id), x);
    }
}

/// With both of `a` and `b` in the list or neither, exchanging them brings in no other key.
proof fn lemma_swapped_within(s: Seq<IdOrNew>, a: IdOrNew, b: IdOrNew)
    requires
        s.contains(a) == s.contains(b),
    ensures
        forall|x: IdOrNew| #[trigger] swapped(s, a, b).contains(x) ==> s.contains(x),
{
    assert forall|x: IdOrNew| #[trigger] swapped(s, a, b).contains(x) implies s.contains(x) by {
        let i = choose|i: int| 0 <= i < swapped(s, a, b).len() && swapped(s, a, b)[i] == x;
        assert(s.contains(s[i]));
    }
}

/// The child lists keep their keys, each list being replaced by one with no other key; the
/// entries lose keys at most.
proof fn lemma_lists_smaller(
    e2: Map<IdOrNew, PanelEntry>,
    e: Map<IdOrNew, PanelEntry>,
    c2: Seq<(IdOrNew, Seq<IdOrNew>)>,
    c: Seq<(IdOrNew, Seq<IdOrNew>)>,
)
    requires
        forall|k: IdOrNew| #[trigger] e2.contains_key(k) ==> e.contains_key(k),
        keys_unique(c),
        c2.len() == c.len(),
        forall|i: int| 0 <= i < c.len() ==> #[trigger] c2[i].0 == c[i].0,
        forall|i: int, x: IdOrNew| 0 <= i < c.len() && #[trigger] c2[i].1.contains(x) ==> c[i].1.contains(x),
    ensures
        smaller_tree(e2, to_map(c2), e, to_map(c)),
{
    assert(keys_unique(c2));
    assert forall|k: IdOrNew| #[trigger] e2.contains_key(k) && #[trigger] to_map(c2).contains_key(k) implies {
        &&& e.contains_key(k)
        &&& to_map(c).contains_key(k)
        &&& forall|x: IdOrNew| #[trigger] to_map(c2)[k].contains(x) ==> to_map(c)[k].contains(x)
    } by {
        let i = choose|i: int| 0 <= i < c2.len() && c2[i].0 == k;
        lemma_value_at(c2, i);
        lemma_value_at(c, i);
        assert forall|x: IdOrNew| #[trigger] to_map(c2)[k].contains(x) implies to_map(c)[k].contains(x) by {
            assert(c2[i].1.contains(x));
        }
    }
}

/// The two siblings to exchange are both in the list they are exchanged in (the roots without a
/// parent, the child list of the parent otherwise), or neither is.
pub open spec fn both_or_neither(t: TreeModel<PanelEntry>, parent: Option<IdOrNew>, a: IdOrNew, b: IdOrNew) -> bool {
    match parent {
        None => t.roots_view().contains(a) == t.roots_view().contains(b),
        Some(p) => forall|i: int| 0 <= i < t.children_view().len() && #[trigger] t.children_view()[i].0 == p
            ==> (t.children_view()[i].1.contains(a) == t.children_view()[i].1.contains(b)),
    }
}

/// The panels of the tree flattened from the roots.
pub open spec fn current_nodes(t: TreeModel<PanelEntry>) -> Seq<FlatPanelNode> {
    let e = to_map(t.entries_view());
    let c = to_map(t.children_view());
    flat_list(e, c, t.roots_view(), None, choose|d: nat| within(e, c, t.roots_view(), d))
}

/// The nodes differ in a field.
pub open spec fn node_differs(n: FlatPanelNode, o: FlatPanelNode) -> bool {
    n.id != o.id || opt_text(n.name) != opt_text(o.name) || n.parent_id != o.parent_id || n.order != o.order
}

/// Every panel added in the editor (under a temporary id) is among the changes that `save`
/// sends, and no stored panel is among the new ones.
pub proof fn law_new_panel_saved(current: Seq<FlatPanelNode>, n: FlatPanelNode)
    requires
        current.contains(n),
    ensures
        n.id is Temporary ==> current.filter(is_new_panel()).contains(n),
        n.id is Id ==> !current.filter(is_new_panel()).contains(n),
{
    let i = choose|i: int| 0 <= i < current.len() && current[i] == n;
    let f = current.filter(is_new_panel());
    if n.id is Temporary {
        current.lemma_filter_contains(is_new_panel(), i);
    } else if f.contains(n) {
        let j = choose|j: int| 0 <= j < f.len() && f[j] == n;
        current.lemma_filter_pred(is_new_panel(), j);
    }
}

/// A stored panel of the tree whose parent, place or name differs from the one loaded is among
/// the changes that `save` sends; one equal to the one loaded in all of them is not.
pub proof fn law_changed_panel_saved(current: Seq<FlatPanelNode>, as_loaded: Map<IdOrNew, FlatPanelNode>, n: FlatPanelNode)
    requires
        current.contains(n),
        n.id is Id,
        as_loaded.contains_key(n.id),
        as_loaded[n.id].id == n.id,
    ensures
        n.parent_id != as_loaded[n.id].parent_id || n.order != as_loaded[n.id].order
            || opt_text(n.name) != opt_text(as_loaded[n.id].name) ==> current.filter(is_changed(as_loaded)).contains(n),
        n.parent_id == as_loaded[n.id].parent_id && n.order == as_loaded[n.id].order
            && opt_text(n.name) == opt_text(as_loaded[n.id].name) ==> !current.filter(is_changed(as_loaded)).contains(n),
{
    let i = choose|i: int| 0 <= i < current.len() && current[i] == n;
    let f = current.filter(is_changed(as_loaded));
    if n.parent_id != as_loaded[n.id].parent_id || n.order != as_loaded[n.id].order || opt_text(n.name) != opt_text(as_loaded[n.id].name) {
        current.lemma_filter_contains(is_changed(as_loaded), i);
    } else if f.contains(n) {
        let j = choose|j: int| 0 <= j < f.len() && f[j] == n;
        current.lemma_filter_pred(is_changed(as_loaded), j);
    }
}

/// A new panel.
pub open spec fn is_new(n: FlatPanelNode) -> bool {
    n.id is Temporary
}

/// A panel added in the editor.
pub open spec fn is_new_panel() -> spec_fn(FlatPanelNode) -> bool {
    |n: FlatPanelNode| is_new(n)
}

/// A stored panel that changed since loading.
pub open spec fn is_changed(as_loaded: Map<IdOrNew, FlatPanelNode>) -> spec_fn(FlatPanelNode) -> bool {
    |n: FlatPanelNode| n.id is Id && as_loaded.contains_key(n.id) && node_differs(n, as_loaded[n.id])
}

/// The input for an id.
pub open spec fn input_for(i: IdOrNewInput, id: IdOrNew) -> bool {
    match id {
        IdOrNew::Id(x) => i.id == Some(x) && i.temporary is None,
        IdOrNew::Temporary(u) => i.id is None && opt_text(i.temporary) == Some(crate::ids::uuid_text(u)),
    }
}

/// The input saves the node.
pub open spec fn saves_node(i: FlatPanelInput, n: FlatPanelNode) -> bool {
    &&& input_for(i.id, n.id)
    &&& opt_text(i.name) == opt_text(n.name)
    &&& match n.parent_id {
        Some(p) => i.parent_id matches Some(pi) && input_for(pi, p),
        None => i.parent_id is None,
    }
    &&& i.order == n.order
    &&& i.netbox_device_id is None
}

/// The panels as loaded, by id (a later one replaces an earlier one).
pub open spec fn nodes_as_loaded(loaded: Option<Seq<PanelTreeEntry>>) -> Map<IdOrNew, FlatPanelNode> {
    match loaded {
        Some(l) => insert_all(Map::empty(), keyed(flat_loaded(l, None))),
        None => Map::empty(),
    }
}

/// The index of the key, if the list has it.
fn key_index<V>(list: &Vec<(IdOrNew, V)>, k: IdOrNew) -> (r: Option<usize>)
    ensures
        match r {
            Some(i) => i < list@.len() && list@[i as int].0 == k,
            None => !has_key(list@, k),
        },
{
    let mut i: usize = 0;
    while i < list.len()
        invariant
            i <= list.len(),
            forall|j: int| 0 <= j < i ==> list@[j].0 != k,
        decreases list.len() - i,
    {
        if list[i].0 == k {
            return Some(i);
        }
        i += 1;
    }
    None
}

/// Appends the loaded panels flattened.
fn flatten_loaded(panels: &Vec<PanelTreeEntry>, parent: Option<IdOrNew>, result: &mut Vec<FlatPanelNode>)
    ensures
        final(result)@ == old(result)@ + flat_loaded(panels@, parent),
    decreases panels@,
{
    let ghost start = result@;
    let mut i: usize = 0;
    while i < panels.len()
        invariant
            i <= panels.len(),
            result@ == start + flat_loaded(panels@.subrange(0, i as int), parent),
        decreases panels.len() - i,
    {
        let p = &panels[i];
        let id = IdOrNew::Id(p.id);
        let ghost before = result@;
        proof {
            let sub = panels@.subrange(0, i + 1);
            assert(sub.drop_last() =~= panels@.subrange(0, i as int));
            assert(sub.last() == panels@[i as int]);
        }
        let order: i32 = #[verifier::truncate] ((i + 1) as i32);
        let ghost node = FlatPanelNode { id, name: p.name, parent_id: parent, order: ((i + 1) as int) as i32 };
        assert(order == ((i + 1) as int) as i32);
        result.push(FlatPanelNode { id, name: copy_name(&p.name), parent_id: parent, order });
        let ghost mid = result@;
        flatten_loaded(&p.children, Some(id), result);
        proof {
            assert(mid == before.push(node));
            assert(flat_loaded_tree(*p, parent, (i + 1) as int) == seq![node] + flat_loaded(p.children@, Some(id)));
            assert(result@ =~= start + flat_loaded(panels@.subrange(0, i + 1), parent));
        }
        i += 1;
    }
    assert(panels@.subrange(0, panels@.len() as int) =~= panels@);
}

/// Appends the panels of the tree flattened from `list` down.
#[verifier::spinoff_prover]
#[verifier::rlimit(40)]
fn flatten_current(model: &TreeModel<PanelEntry>, list: &[IdOrNew], parent: Option<IdOrNew>, result: &mut Vec<FlatPanelNode>, Ghost(d): Ghost<nat>)
    requires
        within(to_map(model.entries_view()), to_map(model.children_view()), list@, d),
    ensures
        final(result)@ == old(result)@ + flat_list(to_map(model.entries_view()), to_map(model.children_view()), list@, parent, d),
    decreases d, list@.len(),
{
    let ghost e = to_map(model.entries_view());
    let ghost c = to_map(model.children_view());
    let ghost start = result@;
    let entries = model.entries();
    let children = model.children();
    let mut i: usize = 0;
    while i < list.len()
        invariant
            i <= list.len(),
            e == to_map(model.entries_view()),
            c == to_map(model.children_view()),
            entries@ == model.entries_view(),
            lists_view(children@) == model.children_view(),
            keys_unique(entries@),
            keys_unique(lists_view(children@)),
            within(e, c, list@, d),
            result@ == start + flat_list(e, c, list@.subrange(0, i as int), parent, d),
        decreases list.len() - i,
    {
        let id = list[i];
        let ghost sub = list@.subrange(0, i + 1);
        proof {
            assert(sub.drop_last() =~= list@.subrange(0, i as int));
            assert(sub.last() == id);
            lemma_within_prefix(e, c, list@, d, i + 1);
        }
        let ghost before = result@;
        match key_index(entries, id) {
            Some(k) => {
                proof { lemma_value_at(entries@, k as int); }
                let order: i32 = #[verifier::truncate] ((i + 1) as i32);
                result.push(FlatPanelNode { id, name: copy_name(&entries[k].1.name), parent_id: parent, order });
                match key_index(children, id) {
                    Some(j) => {
                        proof {
                            lemma_value_at(lists_view(children@), j as int);
                            assert(lists_view(children@)[j as int].0 == id);
                        }
                        flatten_current(model, children[j].1.as_slice(), Some(id), result, Ghost((d - 1) as nat));
                    },
                    None => {
                        proof {
                            assert(!has_key(lists_view(children@), id)) by {
                                if has_key(lists_view(children@), id) {
                                    let w = choose|w: int| 0 <= w < lists_view(children@).len() && lists_view(children@)[w].0 == id;
                                    assert(children@[w].0 == id);
                                }
                            }
                        }
                    },
                }
            },
            None => {},
        }
        proof {
            assert(result@ =~= start + flat_list(e, c, sub, parent, d));
        }
        i += 1;
    }
    assert(list@.subrange(0, list@.len() as int) =~= list@);
}


fn same_name(a: &Option<String>, b: &Option<String>) -> (r: bool)
    ensures
        r == (opt_text(*a) == opt_text(*b)),
{
    match (a, b) {
        (Some(x), Some(y)) => *x == *y,
        (None, None) => true,
        _ => false,
    }
}

fn differs(n: &FlatPanelNode, o: &FlatPanelNode) -> (r: bool)
    ensures
        r == node_differs(*n, *o),
{
    n.id != o.id || !same_name(&n.name, &o.name) || n.parent_id != o.parent_id || n.order != o.order
}

fn panel_input(n: &FlatPanelNode) -> (r: FlatPanelInput)
    ensures
        saves_node(r, *n),
{
    FlatPanelInput {
        id: IdOrNewInput::from(n.id),
        name: copy_name(&n.name),
        parent_id: match n.parent_id {
            Some(p) => Some(IdOrNewInput::from(p)),
            None => None,
        },
        order: n.order,
        netbox_device_id: None,
    }
}

/// The ids of the nodes.
pub open spec fn node_ids(nodes: Seq<FlatPanelNode>) -> Seq<IdOrNew> {
    nodes.map_values(|n: FlatPanelNode| n.id)
}

fn node_ids_contain(nodes: &Vec<FlatPanelNode>, id: IdOrNew) -> (r: bool)
    ensures
        r == node_ids(nodes@).contains(id),
{
    let mut i: usize = 0;
    while i < nodes.len()
        invariant
            i <= nodes.len(),
            forall|j: int| 0 <= j < i ==> nodes@[j].id != id,
        decreases nodes.len() - i,
    {
        if nodes[i].id == id {
            assert(node_ids(nodes@)[i as int] == id);
            return true;
        }
        i += 1;
    }
    assert(!node_ids(nodes@).contains(id)) by {
        if node_ids(nodes@).contains(id) {
            let w = choose|w: int| 0 <= w < node_ids(nodes@).len() && node_ids(nodes@)[w] == id;
            assert(nodes@[w].id == id);
        }
    }
    false
}

impl EditCabinet {
    /// What saving sends: the new panels and then the stored panels that changed since loading
    /// (both in tree order), and the stored panels no longer in the tree (each once, in no
    /// particular order).
    pub fn save(&self) -> (r: (Vec<FlatPanelInput>, Vec<i32>))
        requires
            finite_tree(self.tree()),
        ensures
            ({
                let current = current_nodes(self.tree());
                let as_loaded = nodes_as_loaded(self.loaded());
                let changed = current.filter(is_new_panel()) + current.filter(is_changed(as_loaded));
                &&& r.0@.len() == changed.len()
                &&& forall|i: int| 0 <= i < r.0@.len() ==> saves_node(#[trigger] r.0@[i], changed[i])
                &&& r.1@.no_duplicates()
                &&& forall|x: i32| #[trigger] r.1@.contains(x) <==> as_loaded.contains_key(IdOrNew::Id(x)) && !node_ids(current).contains(
                    IdOrNew::Id(x),
                )
            }),
    {
        let ghost e = to_map(self.model.entries_view());
        let ghost c = to_map(self.model.children_view());
        let ghost d = choose|d: nat| within(e, c, self.model.roots_view(), d);
        let mut current: Vec<FlatPanelNode> = Vec::new();
        flatten_current(&self.model, self.model.roots(), None, &mut current, Ghost(d));
        assert(current@ =~= current_nodes(self.model));
        let mut loaded_nodes: Vec<FlatPanelNode> = Vec::new();
        match &self.loaded_panels {
            Some(l) => flatten_loaded(l, None, &mut loaded_nodes),
            None => {},
        }
        let ghost flat = loaded_nodes@;
        let mut as_loaded: Vec<(IdOrNew, FlatPanelNode)> = Vec::new();
        let mut i: usize = 0;
        assert(to_map(as_loaded@) =~= Map::<IdOrNew, FlatPanelNode>::empty());
        while i < loaded_nodes.len()
            invariant
                i <= loaded_nodes.len(),
                flat == loaded_nodes@,
                keys_unique(as_loaded@),
                to_map(as_loaded@) == insert_all(Map::empty(), keyed(flat.subrange(0, i as int))),
            decreases loaded_nodes.len() - i,
        {
            proof {
                let sub = keyed(flat.subrange(0, i + 1));
                assert(sub.drop_last() =~= keyed(flat.subrange(0, i as int)));
                assert(sub.last() == (flat[i as int].id, flat[i as int]));
            }
            let n = &loaded_nodes[i];
            put(&mut as_loaded, n.id, FlatPanelNode { id: n.id, name: copy_name(&n.name), parent_id: n.parent_id, order: n.order });
            i += 1;
        }
        assert(flat.subrange(0, flat.len() as int) =~= flat);
        assert(to_map(as_loaded@) == nodes_as_loaded(self.loaded()));
        let ghost om = to_map(as_loaded@);
        let ghost newp = is_new_panel();
        let ghost chg = is_changed(om);
        let mut creates: Vec<FlatPanelInput> = Vec::new();
        let mut updates: Vec<FlatPanelInput> = Vec::new();
        let mut k: usize = 0;
        while k < current.len()
            invariant
                k <= current.len(),
                keys_unique(as_loaded@),
                om == to_map(as_loaded@),
                newp == is_new_panel(),
                chg == is_changed(om),
                creates@.len() == current@.subrange(0, k as int).filter(newp).len(),
                forall|j: int| 0 <= j < creates@.len() ==> saves_node(#[trigger] creates@[j], current@.subrange(0, k as int).filter(newp)[j]),
                updates@.len() == current@.subrange(0, k as int).filter(chg).len(),
                forall|j: int| 0 <= j < updates@.len() ==> saves_node(#[trigger] updates@[j], current@.subrange(0, k as int).filter(chg)[j]),
            decreases current.len() - k,
        {
            let n = &current[k];
            proof {
                current@.subrange(0, k as int).lemma_filter_push(current@[k as int], newp);
                current@.subrange(0, k as int).lemma_filter_push(current@[k as int], chg);
                assert(current@.subrange(0, k + 1) == current@.subrange(0, k as int).push(current@[k as int]));
            }
            let ghost cb = creates@;
            let ghost ub = updates@;
            match n.id {
                IdOrNew::Temporary(_) => {
                    creates.push(panel_input(n));
                    assert forall|j: int| 0 <= j < creates@.len() implies saves_node(#[trigger] creates@[j], current@.subrange(0, k + 1).filter(newp)[j]) by {
                        if j < cb.len() {
                            assert(creates@[j] == cb[j]);
                        }
                    }
                },
                IdOrNew::Id(_) => {
                    match key_index(&as_loaded, n.id) {
                        Some(o) => {
                            proof { lemma_value_at(as_loaded@, o as int); }
                            if differs(n, &as_loaded[o].1) {
                                updates.push(panel_input(n));
                                assert forall|j: int| 0 <= j < updates@.len() implies saves_node(#[trigger] updates@[j], current@.subrange(0, k + 1).filter(chg)[j]) by {
                                    if j < ub.len() {
                                        assert(updates@[j] == ub[j]);
                                    }
                                }
                            }
                        },
                        None => {},
                    }
                },
            }
            k += 1;
        }
        assert(current@.subrange(0, current@.len() as int) =~= current@);
        let ghost cr = creates@;
        let mut m: usize = 0;
        let n_creates = creates.len();
        while m < updates.len()
            invariant
                m <= updates.len(),
                creates@.len() == n_creates + m,
                n_creates == cr.len(),
                forall|j: int| 0 <= j < n_creates ==> #[trigger] creates@[j] == cr[j],
                forall|j: int| 0 <= j < m ==> #[trigger] creates@[n_creates + j] == updates@[j],
            decreases updates.len() - m,
        {
            let u = FlatPanelInput {
                id: copy_input(&updates[m].id),
                name: copy_name(&updates[m].name),
                parent_id: match &updates[m].parent_id {
                    Some(p) => Some(copy_input(p)),
                    None => None,
                },
                order: updates[m].order,
                netbox_device_id: updates[m].netbox_device_id,
            };
            creates.push(u);
            m += 1;
        }
        let mut deletes: Vec<i32> = Vec::new();
        let mut q: usize = 0;
        while q < as_loaded.len()
            invariant
                q <= as_loaded.len(),
                keys_unique(as_loaded@),
                om == to_map(as_loaded@),
                deletes@.no_duplicates(),
                forall|x: i32| #[trigger] deletes@.contains(x) <==> exists|j: int|
                    0 <= j < q && as_loaded@[j].0 == IdOrNew::Id(x) && !node_ids(current@).contains(IdOrNew::Id(x)),
            decreases as_loaded.len() - q,
        {
            let key = as_loaded[q].0;
            match key {
                IdOrNew::Id(x) => {
                    if !node_ids_contain(&current, key) {
                        let ghost before = deletes@;
                        proof {
                            assert(!before.contains(x)) by {
                                if before.contains(x) {
                                    let j = choose|j: int| 0 <= j < q && as_loaded@[j].0 == IdOrNew::Id(x) && !node_ids(current@).contains(IdOrNew::Id(x));
                                    assert(as_loaded@[j].0 != as_loaded@[q as int].0);
                                }
                            }
                        }
                        deletes.push(x);
                        proof {
                            assert forall|y: i32| #[trigger] deletes@.contains(y) <==> exists|j: int|
                                0 <= j < q + 1 && as_loaded@[j].0 == IdOrNew::Id(y) && !node_ids(current@).contains(IdOrNew::Id(y)) by {
                                if deletes@.contains(y) && y != x {
                                    let w = choose|w: int| 0 <= w < deletes@.len() && deletes@[w] == y;
                                    assert(before[w] == y);
                                }
                                if y == x {
                                    assert(deletes@[deletes@.len() - 1] == y);
                                }
                                if before.contains(y) {
                                    let w = choose|w: int| 0 <= w < before.len() && before[w] == y;
                                    assert(deletes@[w] == y);
                                }
                            }
                        }
                    }
                },
                IdOrNew::Temporary(_) => {},
            }
            q += 1;
        }
        proof {
            assert forall|x: i32| #[trigger] deletes@.contains(x) <==> om.contains_key(IdOrNew::Id(x)) && !node_ids(current@).contains(IdOrNew::Id(x)) by {
                if om.contains_key(IdOrNew::Id(x)) {
                    let j = choose|j: int| 0 <= j < as_loaded@.len() && as_loaded@[j].0 == IdOrNew::Id(x);
                }
            }
            let changed = current@.filter(newp) + current@.filter(chg);
            assert forall|i: int| 0 <= i < creates@.len() implies saves_node(#[trigger] creates@[i], changed[i]) by {
                if i < n_creates {
                    assert(creates@[i] == cr[i]);
                } else {
                    let j = i - n_creates;
                    assert(creates@[n_creates + j] == updates@[j]);
                    assert(n_creates + j == i);
                }
            }
        }
        (creates, deletes)
    }
}

/// An exact copy of an id input.
fn copy_input(i: &IdOrNewInput) -> (r: IdOrNewInput)
    ensures
        r == *i,
{
    IdOrNewInput { id: i.id, temporary: copy_name(&i.temporary) }
}


/// Only panels with an entry are flattened.
proof fn lemma_flat_list_has_entries(e: Map<IdOrNew, PanelEntry>, c: Map<IdOrNew, Seq<IdOrNew>>, list: Seq<IdOrNew>, parent: Option<IdOrNew>, d: nat, id: IdOrNew)
    requires
        node_ids(flat_list(e, c, list, parent, d)).contains(id),
    ensures
        e.contains_key(id),
    decreases d, list.len(),
{
    let all = flat_list(e, c, list, parent, d);
    let w = choose|w: int| 0 <= w < node_ids(all).len() && node_ids(all)[w] == id;
    assert(all[w].id == id);
    if list.len() > 0 {
        let last = list.last();
        let front = flat_list(e, c, list.drop_last(), parent, d);
        if w < front.len() {
            assert(all[w] == front[w]);
            assert(node_ids(front)[w] == id);
            lemma_flat_list_has_entries(e, c, list.drop_last(), parent, d, id);
        } else if e.contains_key(last) && c.contains_key(last) && d > 0 && w > front.len() {
            let below = flat_list(e, c, c[last], Some(last), (d - 1) as nat);
            assert(all[w] == below[w - front.len() - 1]);
            assert(node_ids(below)[w - front.len() - 1] == id);
            lemma_flat_list_has_entries(e, c, c[last], Some(last), (d - 1) as nat, id);
        }
    }
}

/// A panel removed from the tree is not among the panels saved, so saving deletes it when it
/// was stored: after `remove`, the entries are those of `entries` other than the panel's.
pub proof fn law_removed_panel_not_saved(t: TreeModel<PanelEntry>, entries: Seq<(IdOrNew, PanelEntry)>, id: IdOrNew)
    requires
        finite_tree(t),
        t.entries_view() == entries.filter(pair_other_than(id)),
    ensures
        !node_ids(current_nodes(t)).contains(id),
{
    let e = to_map(t.entries_view());
    let c = to_map(t.children_view());
    let d = choose|d: nat| within(e, c, t.roots_view(), d);
    if node_ids(current_nodes(t)).contains(id) {
        lemma_flat_list_has_entries(e, c, t.roots_view(), None, d, id);
        let w = choose|w: int| 0 <= w < t.entries_view().len() && t.entries_view()[w].0 == id;
        let f = entries.filter(pair_other_than(id));
        assert(f.contains(f[w]));
        assert(pair_other_than::<PanelEntry>(id)(f[w]));
    }
}

/// A panel created at the end of the roots is saved as a new panel without a parent, numbered
/// after the other roots.
pub proof fn law_created_panel_saved(t: TreeModel<PanelEntry>, u: u128)
    requires
        finite_tree(t),
        t.roots_view().len() > 0,
        t.roots_view().last() == IdOrNew::Temporary(u),
        to_map(t.entries_view()).contains_key(IdOrNew::Temporary(u)),
    ensures
        ({
            let node = FlatPanelNode {
                id: IdOrNew::Temporary(u),
                name: to_map(t.entries_view())[IdOrNew::Temporary(u)].name,
                parent_id: None,
                order: t.roots_view().len() as i32,
            };
            &&& current_nodes(t).contains(node)
            &&& is_new(node)
            &&& current_nodes(t).filter(is_new_panel()).contains(node)
        }),
{
    let e = to_map(t.entries_view());
    let c = to_map(t.children_view());
    let roots = t.roots_view();
    let d = choose|d: nat| within(e, c, roots, d);
    let node = FlatPanelNode { id: IdOrNew::Temporary(u), name: e[IdOrNew::Temporary(u)].name, parent_id: None, order: roots.len() as i32 };
    let front = flat_list(e, c, roots.drop_last(), None, d);
    let all = flat_list(e, c, roots, None, d);
    assert(all[front.len() as int] == node);
    assert(current_nodes(t) == all);
    assert(all.contains(node));
    assert(is_new_panel()(all[front.len() as int]));
}


/// The keys of the pairs.
pub open spec fn keys_of<V>(s: Seq<(IdOrNew, V)>) -> Seq<IdOrNew> {
    s.map_values(|x: (IdOrNew, V)| x.0)
}

proof fn lemma_keys_concat<V>(a: Seq<(IdOrNew, V)>, b: Seq<(IdOrNew, V)>)
    ensures
        keys_of(a + b) == keys_of(a) + keys_of(b),
{
    assert(keys_of(a + b) =~= keys_of(a) + keys_of(b));
}

proof fn lemma_node_ids_concat(a: Seq<FlatPanelNode>, b: Seq<FlatPanelNode>)
    ensures
        node_ids(a + b) == node_ids(a) + node_ids(b),
{
    assert(node_ids(a + b) =~= node_ids(a) + node_ids(b));
}

/// The loaded panels flatten in the order their entries are listed.
proof fn lemma_flat_ids(s: Seq<PanelTreeEntry>, parent: Option<IdOrNew>)
    ensures
        node_ids(flat_loaded(s, parent)) == keys_of(list_entries(s)),
    decreases s,
{
    if s.len() > 0 {
        let p = s.last();
        lemma_flat_ids(s.drop_last(), parent);
        lemma_flat_ids(p.children@, Some(IdOrNew::Id(p.id)));
        lemma_node_ids_concat(flat_loaded(s.drop_last(), parent), flat_loaded_tree(p, parent, s.len() as int));
        lemma_node_ids_concat(
            seq![FlatPanelNode { id: IdOrNew::Id(p.id), name: p.name, parent_id: parent, order: s.len() as i32 }],
            flat_loaded(p.children@, Some(IdOrNew::Id(p.id))),
        );
        lemma_keys_concat(list_entries(s.drop_last()), tree_entries(p));
        lemma_keys_concat(seq![(IdOrNew::Id(p.id), panel_entry_of(p))], list_entries(p.children@));
        assert(node_ids(seq![FlatPanelNode { id: IdOrNew::Id(p.id), name: p.name, parent_id: parent, order: s.len() as i32 }])
            =~= keys_of(seq![(IdOrNew::Id(p.id), panel_entry_of(p))]));
    } else {
        assert(node_ids(flat_loaded(s, parent)) =~= keys_of(list_entries(s)));
    }
}

/// Each panel has one child list, as it has one entry.
proof fn lemma_rel_keys(s: Seq<PanelTreeEntry>)
    ensures
        keys_of(list_rels(s)).to_multiset() == keys_of(list_entries(s)).to_multiset(),
    decreases s,
{
    broadcast use vstd::seq_lib::group_to_multiset_ensures;

    if s.len() > 0 {
        let p = s.last();
        let id = IdOrNew::Id(p.id);
        lemma_rel_keys(s.drop_last());
        lemma_rel_keys(p.children@);
        lemma_keys_concat(list_rels(s.drop_last()), tree_rels(p));
        lemma_keys_concat(list_entries(s.drop_last()), tree_entries(p));
        lemma_keys_concat(seq![(id, panel_entry_of(p))], list_entries(p.children@));
        assert(keys_of(tree_rels(p)) =~= keys_of(list_rels(p.children@)).push(id));
        assert(keys_of(seq![(id, panel_entry_of(p))]) =~= seq![id]);
        vstd::seq_lib::lemma_multiset_commutative(keys_of(list_rels(s.drop_last())), keys_of(tree_rels(p)));
        vstd::seq_lib::lemma_multiset_commutative(keys_of(list_entries(s.drop_last())), keys_of(tree_entries(p)));
        vstd::seq_lib::lemma_multiset_commutative(seq![id], keys_of(list_entries(p.children@)));
        assert(seq![id].to_multiset() =~= vstd::multiset::Multiset::<IdOrNew>::empty().insert(id)) by {
            assert(seq![id] =~= Seq::<IdOrNew>::empty().push(id));
        }
        assert(keys_of(tree_rels(p)).to_multiset() =~= keys_of(tree_entries(p)).to_multiset());
    } else {
        assert(keys_of(list_rels(s)) =~= keys_of(list_entries(s)));
    }
}


/// The map holds every pair of the list.
pub open spec fn holds_all<V>(m: Map<IdOrNew, V>, s: Seq<(IdOrNew, V)>) -> bool {
    forall|i: int| 0 <= i < s.len() ==> m.contains_key(#[trigger] s[i].0) && m[s[i].0] == s[i].1
}

/// Inserting pairs with distinct keys keeps every one of them, and adds no other key.
proof fn lemma_insert_all_distinct<V>(m: Map<IdOrNew, V>, s: Seq<(IdOrNew, V)>)
    requires
        keys_of(s).no_duplicates(),
    ensures
        holds_all(insert_all(m, s), s),
        forall|k: IdOrNew| #[trigger] insert_all(m, s).contains_key(k) ==> m.contains_key(k) || keys_of(s).contains(k),
    decreases s.len(),
{
    if s.len() > 0 {
        let t = s.drop_last();
        assert(keys_of(t) =~= keys_of(s).drop_last());
        lemma_insert_all_distinct(m, t);
        let r = insert_all(m, s);
        assert forall|i: int| 0 <= i < s.len() implies r.contains_key(#[trigger] s[i].0) && r[s[i].0] == s[i].1 by {
            if i < s.len() - 1 {
                assert(keys_of(s)[i] != keys_of(s)[s.len() - 1]);
                assert(t[i] == s[i]);
            }
        }
        assert forall|k: IdOrNew| #[trigger] r.contains_key(k) implies m.contains_key(k) || keys_of(s).contains(k) by {
            if k == s.last().0 {
                assert(keys_of(s)[s.len() - 1] == k);
            } else if !m.contains_key(k) {
                let w = choose|w: int| 0 <= w < keys_of(t).len() && keys_of(t)[w] == k;
                assert(keys_of(s)[w] == k);
            }
        }
    }
}

proof fn lemma_holds_all_concat<V>(m: Map<IdOrNew, V>, a: Seq<(IdOrNew, V)>, b: Seq<(IdOrNew, V)>)
    requires
        holds_all(m, a + b),
    ensures
        holds_all(m, a),
        holds_all(m, b),
{
    assert forall|i: int| 0 <= i < a.len() implies m.contains_key(#[trigger] a[i].0) && m[a[i].0] == a[i].1 by {
        assert((a + b)[i] == a[i]);
    }
    assert forall|i: int| 0 <= i < b.len() implies m.contains_key(#[trigger] b[i].0) && m[b[i].0] == b[i].1 by {
        assert((a + b)[a.len() + i] == b[i]);
    }
}

/// The maps hold each panel's entry and child list, all the way down.
pub open spec fn agrees(e: Map<IdOrNew, PanelEntry>, c: Map<IdOrNew, Seq<IdOrNew>>, s: Seq<PanelTreeEntry>) -> bool
    decreases s,
{
    if s.len() == 0 {
        true
    } else {
        let p = s.last();
        &&& agrees(e, c, s.drop_last())
        &&& e.contains_key(IdOrNew::Id(p.id))
        &&& e[IdOrNew::Id(p.id)] == panel_entry_of(p)
        &&& c.contains_key(IdOrNew::Id(p.id))
        &&& c[IdOrNew::Id(p.id)] == ids_of(p.children@)
        &&& agrees(e, c, p.children@)
    }
}

/// Maps holding all entries and child lists of the panels agree with them.
proof fn lemma_agrees(e: Map<IdOrNew, PanelEntry>, c: Map<IdOrNew, Seq<IdOrNew>>, s: Seq<PanelTreeEntry>)
    requires
        holds_all(e, list_entries(s)),
        holds_all(c, list_rels(s)),
    ensures
        agrees(e, c, s),
    decreases s,
{
    if s.len() > 0 {
        let p = s.last();
        let id = IdOrNew::Id(p.id);
        lemma_holds_all_concat(e, list_entries(s.drop_last()), tree_entries(p));
        lemma_holds_all_concat(c, list_rels(s.drop_last()), tree_rels(p));
        lemma_holds_all_concat(e, seq![(id, panel_entry_of(p))], list_entries(p.children@));
        assert(tree_rels(p) == list_rels(p.children@) + seq![(id, ids_of(p.children@))]);
        lemma_holds_all_concat(c, list_rels(p.children@), seq![(id, ids_of(p.children@))]);
        assert(seq![(id, panel_entry_of(p))][0].0 == id);
        assert(seq![(id, ids_of(p.children@))][0].0 == id);
        lemma_agrees(e, c, s.drop_last());
        lemma_agrees(e, c, p.children@);
    }
}

/// The panels flatten from the maps as they were loaded.
proof fn lemma_flat_as_loaded(e: Map<IdOrNew, PanelEntry>, c: Map<IdOrNew, Seq<IdOrNew>>, s: Seq<PanelTreeEntry>, parent: Option<IdOrNew>, d: nat)
    requires
        agrees(e, c, s),
        within(e, c, ids_of(s), d),
    ensures
        flat_list(e, c, ids_of(s), parent, d) == flat_loaded(s, parent),
    decreases d, s.len(),
{
    if s.len() > 0 {
        let p = s.last();
        let id = IdOrNew::Id(p.id);
        let ids = ids_of(s);
        assert(ids.drop_last() =~= ids_of(s.drop_last()));
        assert(ids.last() == id);
        lemma_flat_as_loaded(e, c, s.drop_last(), parent, d);
        lemma_flat_as_loaded(e, c, p.children@, Some(id), (d - 1) as nat);
        let node = FlatPanelNode { id, name: p.name, parent_id: parent, order: s.len() as i32 };
        assert(e[id].name == p.name);
        assert(c[id] == ids_of(p.children@));
        assert(d > 0);
        let below = flat_list(e, c, c[id], Some(id), (d - 1) as nat);
        assert(below == flat_loaded(p.children@, Some(id)));
        assert(flat_list(e, c, ids, parent, d) == flat_list(e, c, ids.drop_last(), parent, d) + (seq![node] + below));
        assert(flat_loaded_tree(p, parent, s.len() as int) == seq![node] + below);
        assert(flat_loaded(s, parent) == flat_loaded(s.drop_last(), parent) + flat_loaded_tree(p, parent, s.len() as int));
    } else {
        assert(flat_list(e, c, ids_of(s), parent, d) =~= flat_loaded(s, parent));
    }
}

/// The number of levels of the panels.
pub open spec fn height(s: Seq<PanelTreeEntry>) -> nat
    decreases s,
{
    if s.len() == 0 {
        0
    } else {
        let below = 1 + height(s.last().children@);
        let before = height(s.drop_last());
        if below > before { below } else { before }
    }
}

/// Loaded panels have finite depth.
proof fn lemma_within_height(e: Map<IdOrNew, PanelEntry>, c: Map<IdOrNew, Seq<IdOrNew>>, s: Seq<PanelTreeEntry>, d: nat)
    requires
        agrees(e, c, s),
        d >= height(s),
    ensures
        within(e, c, ids_of(s), d),
    decreases s,
{
    if s.len() > 0 {
        let p = s.last();
        let ids = ids_of(s);
        assert(ids.drop_last() =~= ids_of(s.drop_last()));
        lemma_within_height(e, c, s.drop_last(), d);
        lemma_within_height(e, c, p.children@, (d - 1) as nat);
    }
}


/// Loaded panels all have stored ids.
proof fn lemma_loaded_stored(s: Seq<PanelTreeEntry>, parent: Option<IdOrNew>)
    ensures
        forall|i: int| 0 <= i < flat_loaded(s, parent).len() ==> (#[trigger] flat_loaded(s, parent)[i]).id is Id,
    decreases s,
{
    if s.len() > 0 {
        let p = s.last();
        lemma_loaded_stored(s.drop_last(), parent);
        lemma_loaded_stored(p.children@, Some(IdOrNew::Id(p.id)));
        let front = flat_loaded(s.drop_last(), parent);
        let below = flat_loaded(p.children@, Some(IdOrNew::Id(p.id)));
        let node = FlatPanelNode { id: IdOrNew::Id(p.id), name: p.name, parent_id: parent, order: s.len() as i32 };
        let tree = flat_loaded_tree(p, parent, s.len() as int);
        assert(tree == seq![node] + below);
        let all = flat_loaded(s, parent);
        assert(all == front + tree);
        assert forall|i: int| 0 <= i < all.len() implies (#[trigger] all[i]).id is Id by {
            if i < front.len() {
                assert(all[i] == front[i]);
            } else if i == front.len() {
                assert(all[i] == tree[0]);
            } else {
                assert(all[i] == tree[i - front.len()]);
                assert(tree[i - front.len()] == below[i - front.len() - 1]);
            }
        }
    }
}

/// Saving right after the panels are loaded sends no change and deletes nothing, when no two
/// loaded panels share an id: the tree `panels_fetched` builds from them has finite depth and
/// flattens to the panels as loaded.
pub proof fn law_saved_as_loaded(panels: Seq<PanelTreeEntry>, t: TreeModel<PanelEntry>)
    requires
        node_ids(flat_loaded(panels, None)).no_duplicates(),
        t.roots_view() == ids_of(panels),
        to_map(t.entries_view()) == insert_all(Map::empty(), list_entries(panels)),
        to_map(t.children_view()) == insert_all(Map::empty(), list_rels(panels)),
    ensures
        finite_tree(t),
        current_nodes(t) == flat_loaded(panels, None),
        current_nodes(t).filter(is_new_panel()).len() == 0,
        current_nodes(t).filter(is_changed(nodes_as_loaded(Some(panels)))).len() == 0,
        forall|x: i32| #[trigger] nodes_as_loaded(Some(panels)).contains_key(IdOrNew::Id(x)) ==> node_ids(current_nodes(t)).contains(IdOrNew::Id(x)),
{
    let e = to_map(t.entries_view());
    let c = to_map(t.children_view());
    let flat = flat_loaded(panels, None);
    lemma_flat_ids(panels, None);
    lemma_rel_keys(panels);
    keys_of(list_entries(panels)).lemma_multiset_has_no_duplicates();
    keys_of(list_rels(panels)).lemma_multiset_has_no_duplicates_conv();
    lemma_insert_all_distinct(Map::<IdOrNew, PanelEntry>::empty(), list_entries(panels));
    lemma_insert_all_distinct(Map::<IdOrNew, Seq<IdOrNew>>::empty(), list_rels(panels));
    lemma_agrees(e, c, panels);
    lemma_within_height(e, c, panels, height(panels));
    assert(finite_tree(t));
    let d = choose|d: nat| within(e, c, t.roots_view(), d);
    lemma_flat_as_loaded(e, c, panels, None, d);
    assert(current_nodes(t) == flat);
    lemma_loaded_stored(panels, None);
    assert(flat.filter(is_new_panel()).len() == 0) by {
        if flat.filter(is_new_panel()).len() > 0 {
            let n = flat.filter(is_new_panel())[0];
            flat.filter_lemma(is_new_panel());
            assert(flat.filter(is_new_panel()).contains(n));
            flat.lemma_filter_contains_rev(is_new_panel(), n);
            let i = choose|i: int| 0 <= i < flat.len() && flat[i] == n;
            assert(flat[i].id is Id);
        }
    }
    let keyed_flat = keyed(flat);
    assert(keys_of(keyed_flat) =~= node_ids(flat));
    lemma_insert_all_distinct(Map::<IdOrNew, FlatPanelNode>::empty(), keyed_flat);
    let as_loaded = nodes_as_loaded(Some(panels));
    assert(as_loaded == insert_all(Map::<IdOrNew, FlatPanelNode>::empty(), keyed_flat));
    assert(flat.filter(is_changed(as_loaded)).len() == 0) by {
        if flat.filter(is_changed(as_loaded)).len() > 0 {
            let n = flat.filter(is_changed(as_loaded))[0];
            flat.filter_lemma(is_changed(as_loaded));
            assert(flat.filter(is_changed(as_loaded)).contains(n));
            flat.lemma_filter_contains_rev(is_changed(as_loaded), n);
            let i = choose|i: int| 0 <= i < flat.len() && flat[i] == n;
            assert(keyed_flat[i] == (n.id, n));
            assert(keyed_flat[i].0 == n.id);
            assert(as_loaded[n.id] == n);
        }
    }
    assert forall|x: i32| #[trigger] as_loaded.contains_key(IdOrNew::Id(x)) implies node_ids(flat).contains(IdOrNew::Id(x)) by {
        assert(keys_of(keyed_flat).contains(IdOrNew::Id(x)));
    }
}

} // verus!
