//! A Schacht with its panels and the cables ending there: the panels listed depth first, and
//! how a cable end is labelled.

use vstd::prelude::*;
use vstd::string::StringExecFns;
use crate::text::opt_view;

verus! {

/// A Schacht at an end of a cable segment.
#[derive(Debug, Clone)]
pub struct CableSegmentEndSchacht {
    pub id: i32,
    pub name: String,
}

/// A Schacht with its top panels (each with all panels below it) and its cable ends.
#[derive(Debug, Clone)]
pub struct SchachtCables {
    pub id: i32,
    pub name: String,
    pub root_panels: Vec<SchachtRootPanel>,
    pub cables: Vec<SchachtCableEnd>,
}

#[derive(Debug, Clone)]
pub struct SchachtRootPanel {
    pub id: i32,
    pub name: Option<String>,
    pub count_ports: i32,
    pub all_children_recursive: Vec<SchachtChildPanel>,
}

#[derive(Debug, Clone)]
pub struct SchachtChildPanel {
    pub id: i32,
    pub name: Option<String>,
    pub parent_id: Option<i32>,
    pub parent_order: Option<i32>,
    pub count_ports: i32,
}

/// A panel of the Schacht in tree order.
#[derive(Debug, Clone)]
pub struct SchachtPanelEntry {
    pub id: i32,
    pub name: Option<String>,
    pub port_count: i32,
    /// Names of the parent panels, root first.
    pub parents: Vec<String>,
}

#[derive(Debug, Clone)]
pub struct SchachtCableEnd {
    pub cable: SchachtCable,
    pub path: SchachtCablePath,
}

#[derive(Debug, Clone)]
pub struct SchachtCable {
    pub id: i32,
    pub name: String,
}

/// Oriented from the requested Schacht, so far_schacht is the other end.
#[derive(Debug, Clone)]
pub struct SchachtCablePath {
    pub far_schacht: CableSegmentEndSchacht,
}

impl SchachtCableEnd {
    /// Cable label text: "<cable>-<destination>".
    pub fn label_text(&self) -> (r: String)
        ensures
            r@ == self.cable.name@ + "-"@ + self.path.far_schacht.name@,
    {
        let mut r = self.cable.name.clone();
        r.append("-");
        r.append(self.path.far_schacht.name.as_str());
        r
    }
}

/// A panel entry as the list shows it: id, name, ports and the names above it.
pub struct EntryView {
    pub id: i32,
    pub name: Option<Seq<char>>,
    pub port_count: i32,
    pub parents: Seq<Seq<char>>,
}

/// The texts of strings.
pub open spec fn string_views(s: Seq<String>) -> Seq<Seq<char>> {
    s.map_values(|t: String| t@)
}

pub open spec fn entry_view(e: SchachtPanelEntry) -> EntryView {
    EntryView { id: e.id, name: opt_view(e.name), port_count: e.port_count, parents: string_views(e.parents@) }
}

/// `a` sorts before or with `b`: no order first, then ascending.
pub open spec fn order_le(a: Option<i32>, b: Option<i32>) -> bool {
    match (a, b) {
        (None, _) => true,
        (Some(_), None) => false,
        (Some(x), Some(y)) => x <= y,
    }
}

/// `c` goes after the panels of `sorted` that sort before or with it.
pub open spec fn insert_by_parent_order(sorted: Seq<SchachtChildPanel>, c: SchachtChildPanel) -> Seq<SchachtChildPanel>
    decreases sorted.len(),
{
    if sorted.len() == 0 || order_le(sorted.last().parent_order, c.parent_order) {
        sorted.push(c)
    } else {
        insert_by_parent_order(sorted.drop_last(), c).push(sorted.last())
    }
}

/// The panels by their order under the parent, panels of equal order in their order (stable).
pub open spec fn sorted_by_parent_order(s: Seq<SchachtChildPanel>) -> Seq<SchachtChildPanel>
    decreases s.len(),
{
    if s.len() == 0 {
        seq![]
    } else {
        insert_by_parent_order(sorted_by_parent_order(s.drop_last()), s.last())
    }
}

/// The panels directly below `parent`.
pub open spec fn child_of(parent: i32) -> spec_fn(SchachtChildPanel) -> bool {
    |c: SchachtChildPanel| c.parent_id == Some(parent)
}

/// The panels directly below `parent`, in their order.
pub open spec fn kids(root: SchachtRootPanel, parent: i32) -> Seq<SchachtChildPanel> {
    sorted_by_parent_order(root.all_children_recursive@.filter(child_of(parent)))
}

/// The parent names for the panels below a panel: those above it and its own, if any.
pub open spec fn with_name(parents: Seq<Seq<char>>, name: Option<String>) -> Seq<Seq<char>> {
    match opt_view(name) {
        Some(n) => parents.push(n),
        None => parents,
    }
}

/// The entries of the panels in `list` and below them, depth first; `d` bounds the depth.
pub open spec fn entries_below(root: SchachtRootPanel, list: Seq<SchachtChildPanel>, parents: Seq<Seq<char>>, d: nat) -> Seq<EntryView>
    decreases d, list.len(),
{
    if list.len() == 0 {
        seq![]
    } else {
        let c = list.last();
        entries_below(root, list.drop_last(), parents, d) + seq![
            EntryView { id: c.id, name: opt_view(c.name), port_count: c.count_ports, parents },
        ] + if d > 0 {
            entries_below(root, kids(root, c.id), with_name(parents, c.name), (d - 1) as nat)
        } else {
            seq![]
        }
    }
}

/// Below every panel of `list`, the panels reach no deeper than `d` levels (no cycle).
pub open spec fn depth_within(root: SchachtRootPanel, list: Seq<SchachtChildPanel>, d: nat) -> bool
    decreases d, list.len(),
{
    if list.len() == 0 {
        true
    } else {
        &&& depth_within(root, list.drop_last(), d)
        &&& d > 0
        &&& depth_within(root, kids(root, list.last().id), (d - 1) as nat)
    }
}

/// The entries of a top panel and all panels below it.
pub open spec fn root_entries(root: SchachtRootPanel, d: nat) -> Seq<EntryView> {
    seq![EntryView { id: root.id, name: opt_view(root.name), port_count: root.count_ports, parents: seq![] }] + entries_below(
        root,
        kids(root, root.id),
        with_name(seq![], root.name),
        d,
    )
}

/// The panels of every top panel have a finite depth.
pub open spec fn panels_finite(s: SchachtCables) -> bool {
    forall|i: int| 0 <= i < s.root_panels@.len() ==> exists|d: nat| depth_within(#[trigger] s.root_panels@[i], kids(s.root_panels@[i], s.root_panels@[i].id), d)
}

/// The depth bound chosen for a top panel.
pub open spec fn depth_of(root: SchachtRootPanel) -> nat {
    choose|d: nat| depth_within(root, kids(root, root.id), d)
}

/// The entries of all panels: each top panel followed by the panels below it, depth first.
pub open spec fn all_entries(roots: Seq<SchachtRootPanel>) -> Seq<EntryView>
    decreases roots.len(),
{
    if roots.len() == 0 {
        seq![]
    } else {
        all_entries(roots.drop_last()) + root_entries(roots.last(), depth_of(roots.last()))
    }
}

proof fn lemma_depth_prefix(root: SchachtRootPanel, list: Seq<SchachtChildPanel>, d: nat, i: int)
    requires
        depth_within(root, list, d),
        0 <= i <= list.len(),
    ensures
        depth_within(root, list.subrange(0, i), d),
    decreases list.len(),
{
    if i < list.len() {
        assert(list.drop_last().subrange(0, i) =~= list.subrange(0, i));
        lemma_depth_prefix(root, list.drop_last(), d, i);
    } else {
        assert(list.subrange(0, i) =~= list);
    }
}

/// The references point to these panels.
pub open spec fn deref_children(s: Seq<&SchachtChildPanel>) -> Seq<SchachtChildPanel> {
    s.map_values(|c: &SchachtChildPanel| *c)
}

fn order_before_or_with(a: Option<i32>, b: Option<i32>) -> (r: bool)
    ensures
        r == order_le(a, b),
{
    match (a, b) {
        (None, _) => true,
        (Some(_), None) => false,
        (Some(x), Some(y)) => x <= y,
    }
}

fn insert_child<'a>(sorted: &mut Vec<&'a SchachtChildPanel>, c: &'a SchachtChildPanel)
    ensures
        deref_children(final(sorted)@) == insert_by_parent_order(deref_children(old(sorted)@), *c),
{
    let ghost old_s = deref_children(sorted@);
    let mut j: usize = sorted.len();
    assert(old_s.subrange(0, j as int) =~= old_s);
    assert(insert_by_parent_order(old_s, *c) + old_s.subrange(j as int, old_s.len() as int) =~= insert_by_parent_order(old_s, *c));
    while j > 0 && !order_before_or_with(sorted[j - 1].parent_order, c.parent_order)
        invariant
            j <= sorted@.len(),
            deref_children(sorted@) == old_s,
            insert_by_parent_order(old_s, *c) == insert_by_parent_order(old_s.subrange(0, j as int), *c) + old_s.subrange(j as int, old_s.len() as int),
        decreases j,
    {
        proof {
            let pre = old_s.subrange(0, j as int);
            assert(pre.last() == old_s[j - 1]);
            assert(pre.drop_last() =~= old_s.subrange(0, j - 1));
            assert(insert_by_parent_order(pre, *c) == insert_by_parent_order(old_s.subrange(0, j - 1), *c).push(old_s[j - 1]));
            assert(insert_by_parent_order(old_s.subrange(0, j - 1), *c).push(old_s[j - 1]) + old_s.subrange(j as int, old_s.len() as int)
                =~= insert_by_parent_order(old_s.subrange(0, j - 1), *c) + old_s.subrange(j - 1, old_s.len() as int));
        }
        j -= 1;
    }
    proof {
        let pre = old_s.subrange(0, j as int);
        assert(insert_by_parent_order(pre, *c) == pre.push(*c));
    }
    sorted.insert(j, c);
    assert(deref_children(sorted@) =~= old_s.subrange(0, j as int).push(*c) + old_s.subrange(j as int, old_s.len() as int));
}

/// The panels directly below `parent`, in their order.
fn children_of(root: &SchachtRootPanel, parent: i32) -> (r: Vec<&SchachtChildPanel>)
    ensures
        deref_children(r@) == kids(*root, parent),
{
    let all = &root.all_children_recursive;
    let mut r: Vec<&SchachtChildPanel> = Vec::new();
    let mut i: usize = 0;
    assert(deref_children(r@) =~= Seq::<SchachtChildPanel>::empty());
    assert(all@.subrange(0, 0).filter(child_of(parent)) =~= Seq::<SchachtChildPanel>::empty());
    while i < all.len()
        invariant
            i <= all.len(),
            deref_children(r@) == sorted_by_parent_order(all@.subrange(0, i as int).filter(child_of(parent))),
        decreases all.len() - i,
    {
        proof {
            all@.subrange(0, i as int).lemma_filter_push(all@[i as int], child_of(parent));
            assert(all@.subrange(0, i + 1) == all@.subrange(0, i as int).push(all@[i as int]));
        }
        if all[i].parent_id == Some(parent) {
            proof {
                let f = all@.subrange(0, i as int).filter(child_of(parent));
                assert(f.push(all@[i as int]).drop_last() =~= f);
            }
            insert_child(&mut r, &all[i]);
        }
        i += 1;
    }
    assert(all@.subrange(0, all@.len() as int) =~= all@);
    r
}

/// Exact copies of the strings.
fn copy_strings(s: &Vec<String>) -> (r: Vec<String>)
    ensures
        r@ == s@,
{
    let mut r: Vec<String> = Vec::new();
    let mut i: usize = 0;
    while i < s.len()
        invariant
            i <= s.len(),
            r@ == s@.subrange(0, i as int),
        decreases s.len() - i,
    {
        r.push(s[i].clone());
        assert(s@.subrange(0, i + 1) =~= s@.subrange(0, i as int).push(s@[i as int]));
        i += 1;
    }
    assert(s@.subrange(0, s@.len() as int) =~= s@);
    r
}

fn copy_name(n: &Option<String>) -> (r: Option<String>)
    ensures
        r == *n,
{
    match n {
        Some(s) => Some(s.clone()),
        None => None,
    }
}

/// Appends the entries of the panels in `list` and below them, depth first.
fn push_children(root: &SchachtRootPanel, list: &Vec<&SchachtChildPanel>, parents: &Vec<String>, out: &mut Vec<SchachtPanelEntry>, Ghost(d): Ghost<nat>)
    requires
        depth_within(*root, deref_children(list@), d),
    ensures
        final(out)@.map_values(|e: SchachtPanelEntry| entry_view(e)) == old(out)@.map_values(|e: SchachtPanelEntry| entry_view(e))
            + entries_below(*root, deref_children(list@), string_views(parents@), d),
    decreases d, list@.len(),
{
    let ghost start = out@.map_values(|e: SchachtPanelEntry| entry_view(e));
    let ghost l = deref_children(list@);
    let ghost pv = string_views(parents@);
    let mut i: usize = 0;
    while i < list.len()
        invariant
            i <= list.len(),
            l == deref_children(list@),
            pv == string_views(parents@),
            depth_within(*root, l, d),
            out@.map_values(|e: SchachtPanelEntry| entry_view(e)) == start + entries_below(*root, l.subrange(0, i as int), pv, d),
        decreases list.len() - i,
    {
        let c = list[i];
        let ghost sub = l.subrange(0, i + 1);
        proof {
            assert(sub.drop_last() =~= l.subrange(0, i as int));
            assert(sub.last() == *c);
            lemma_depth_prefix(*root, l, d, i + 1);
        }
        let ghost before = out@.map_values(|e: SchachtPanelEntry| entry_view(e));
        let entry = SchachtPanelEntry { id: c.id, name: copy_name(&c.name), port_count: c.count_ports, parents: copy_strings(parents) };
        out.push(entry);
        assert(out@.map_values(|e: SchachtPanelEntry| entry_view(e)) =~= before.push(entry_view(entry)));
        let mut child_parents = copy_strings(parents);
        match &c.name {
            Some(n) => {
                child_parents.push(n.clone());
            },
            None => {},
        }
        assert(string_views(child_parents@) =~= with_name(pv, c.name));
        let grand = children_of(root, c.id);
        push_children(root, &grand, &child_parents, out, Ghost((d - 1) as nat));
        proof {
            assert(out@.map_values(|e: SchachtPanelEntry| entry_view(e)) =~= start + entries_below(*root, sub, pv, d));
        }
        i += 1;
    }
    assert(l.subrange(0, l.len() as int) =~= l);
}

impl SchachtCables {
    /// All panels, each followed by the panels below it (depth first, in their order under
    /// their parent), with the names of the panels above them.
    pub fn panels(&self) -> (r: Vec<SchachtPanelEntry>)
        requires
            panels_finite(*self),
        ensures
            r@.map_values(|e: SchachtPanelEntry| entry_view(e)) == all_entries(self.root_panels@),
    {
        let mut out: Vec<SchachtPanelEntry> = Vec::new();
        let mut i: usize = 0;
        assert(out@.map_values(|e: SchachtPanelEntry| entry_view(e)) =~= Seq::<EntryView>::empty());
        while i < self.root_panels.len()
            invariant
                i <= self.root_panels.len(),
                panels_finite(*self),
                out@.map_values(|e: SchachtPanelEntry| entry_view(e)) == all_entries(self.root_panels@.subrange(0, i as int)),
            decreases self.root_panels.len() - i,
        {
            let root = &self.root_panels[i];
            let ghost sub = self.root_panels@.subrange(0, i + 1);
            proof {
                assert(sub.drop_last() =~= self.root_panels@.subrange(0, i as int));
                assert(sub.last() == *root);
                assert(exists|d: nat| depth_within(*root, kids(*root, root.id), d));
            }
            let ghost d = depth_of(*root);
            let ghost before = out@.map_values(|e: SchachtPanelEntry| entry_view(e));
            let entry = SchachtPanelEntry { id: root.id, name: copy_name(&root.name), port_count: root.count_ports, parents: Vec::new() };
            out.push(entry);
            assert(string_views(entry.parents@) =~= Seq::<Seq<char>>::empty());
            assert(out@.map_values(|e: SchachtPanelEntry| entry_view(e)) =~= before.push(entry_view(entry)));
            let mut parents: Vec<String> = Vec::new();
            match &root.name {
                Some(n) => parents.push(n.clone()),
                None => {},
            }
            assert(string_views(parents@) =~= with_name(seq![], root.name));
            let kids_list = children_of(root, root.id);
            push_children(root, &kids_list, &parents, &mut out, Ghost(d));
            proof {
                assert(out@.map_values(|e: SchachtPanelEntry| entry_view(e)) =~= all_entries(sub));
            }
            i += 1;
        }
        assert(self.root_panels@.subrange(0, self.root_panels@.len() as int) =~= self.root_panels@);
        out
    }
}


/// The panels ascend by their place under their parent, those without a place first.
pub open spec fn ascending_places(s: Seq<SchachtChildPanel>) -> bool {
    forall|i: int, j: int| 0 <= i < j < s.len() ==> order_le(s[i].parent_order, s[j].parent_order)
}

proof fn lemma_insert_by_parent_order(sorted: Seq<SchachtChildPanel>, p: SchachtChildPanel)
    requires
        ascending_places(sorted),
    ensures
        ascending_places(insert_by_parent_order(sorted, p)),
        insert_by_parent_order(sorted, p).to_multiset() == sorted.to_multiset().insert(p),
        forall|i: int| 0 <= i < insert_by_parent_order(sorted, p).len() ==> #[trigger] insert_by_parent_order(sorted, p)[i] == p || sorted.contains(insert_by_parent_order(sorted, p)[i]),
    decreases sorted.len(),
{
    broadcast use vstd::seq_lib::group_to_multiset_ensures;

    let r = insert_by_parent_order(sorted, p);
    if sorted.len() == 0 || order_le(sorted.last().parent_order, p.parent_order) {
        assert forall|i: int, j: int| 0 <= i < j < r.len() implies order_le(r[i].parent_order, r[j].parent_order) by {
            if j == r.len() - 1 && sorted.len() > 0 {
                assert(r[i] == sorted[i]);
                assert(order_le(sorted[i].parent_order, sorted.last().parent_order));
            }
        }
        assert forall|i: int| 0 <= i < r.len() implies #[trigger] r[i] == p || sorted.contains(r[i]) by {
            if i < sorted.len() {
                assert(r[i] == sorted[i]);
            }
        }
    } else {
        let front = sorted.drop_last();
        let last = sorted.last();
        assert(ascending_places(front));
        lemma_insert_by_parent_order(front, p);
        let inner = insert_by_parent_order(front, p);
        assert(r == inner.push(last));
        assert(sorted == front.push(last));
        assert forall|i: int| 0 <= i < inner.len() implies order_le(inner[i].parent_order, last.parent_order) by {
            if inner[i] != p {
                assert(front.contains(inner[i]));
                let w = choose|w: int| 0 <= w < front.len() && front[w] == inner[i];
                assert(sorted[w] == front[w]);
            }
        }
        assert forall|i: int, j: int| 0 <= i < j < r.len() implies order_le(r[i].parent_order, r[j].parent_order) by {
            if j == r.len() - 1 {
                assert(r[i] == inner[i]);
            } else {
                assert(r[i] == inner[i] && r[j] == inner[j]);
            }
        }
        assert forall|i: int| 0 <= i < r.len() implies #[trigger] r[i] == p || sorted.contains(r[i]) by {
            if i < inner.len() {
                assert(r[i] == inner[i]);
                if inner[i] != p {
                    assert(front.contains(inner[i]));
                    let w = choose|w: int| 0 <= w < front.len() && front[w] == inner[i];
                    assert(sorted[w] == front[w]);
                }
            } else {
                assert(sorted[sorted.len() - 1] == last);
            }
        }
        assert(r.to_multiset() =~= sorted.to_multiset().insert(p));
    }
}

/// The panels below a parent, as the list of a Schacht's panels takes them, come by their place
/// under the parent (those without a place first) and are the given panels, each as often as given.
pub proof fn law_panels_ordered(s: Seq<SchachtChildPanel>)
    ensures
        ascending_places(sorted_by_parent_order(s)),
        sorted_by_parent_order(s).to_multiset() == s.to_multiset(),
    decreases s.len(),
{
    broadcast use vstd::seq_lib::group_to_multiset_ensures;

    if s.len() > 0 {
        law_panels_ordered(s.drop_last());
        lemma_insert_by_parent_order(sorted_by_parent_order(s.drop_last()), s.last());
        assert(s == s.drop_last().push(s.last()));
    } else {
        assert(sorted_by_parent_order(s).to_multiset() =~= s.to_multiset());
    }
}

} // verus!
