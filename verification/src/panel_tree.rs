//! The panels of a Schacht as loaded: each top panel with all panels below it, each of those
//! with its parent and its place under it. From these rows the tree is built.

use vstd::prelude::*;
use crate::assoc::{has_key, lemma_push, lemma_remove, lemma_update, lemma_value_at, to_map, unique_keys};
use crate::cabinet::PanelTreeEntry;
use crate::text::opt_view;
use vstd::seq_lib::seq_to_set_is_finite;

verus! {

/// A Netbox device by id.
#[derive(Debug, Clone, Copy, PartialEq, Eq, Structural)]
pub struct NetboxDeviceId {
    pub id: i32,
}

/// A top panel of the Schacht with all panels below it.
#[derive(Debug, Clone)]
pub struct RootPanelEntry {
    pub id: i32,
    pub name: Option<String>,
    pub all_children_recursive: Vec<ChildPanelEntry>,
    pub count_ports: i32,
    pub count_loop_ports: i32,
    pub netbox_device: Option<NetboxDeviceId>,
}

/// A panel below a top panel, with its parent and its place under the parent.
#[derive(Debug, Clone)]
pub struct ChildPanelEntry {
    pub id: i32,
    pub name: Option<String>,
    pub parent_id: Option<i32>,
    pub parent_order: Option<i32>,
    pub count_ports: i32,
    pub count_loop_ports: i32,
    pub netbox_device: Option<NetboxDeviceId>,
}

/// What the tree keeps of a panel.
#[derive(Debug, Clone)]
pub struct PanelData {
    pub name: Option<String>,
    pub has_loop: bool,
    pub port_count: usize,
    pub netbox_device_id: Option<i32>,
}

/// A row: a panel's id, its data, and its parent with its place, if it has both.
pub struct PanelRow {
    pub id: i32,
    pub data: PanelData,
    pub link: Option<(i32, i32)>,
}

pub open spec fn device_id(d: Option<NetboxDeviceId>) -> Option<i32> {
    match d {
        Some(x) => Some(x.id),
        None => None,
    }
}

pub open spec fn child_row(c: ChildPanelEntry) -> PanelRow {
    PanelRow {
        id: c.id,
        data: PanelData {
            name: c.name,
            has_loop: c.count_loop_ports > 0,
            port_count: c.count_ports as usize,
            netbox_device_id: device_id(c.netbox_device),
        },
        link: match (c.parent_id, c.parent_order) {
            (Some(p), Some(o)) => Some((p, o)),
            _ => None,
        },
    }
}

pub open spec fn root_row(r: RootPanelEntry) -> PanelRow {
    PanelRow {
        id: r.id,
        data: PanelData {
            name: r.name,
            has_loop: r.count_loop_ports > 0,
            port_count: r.count_ports as usize,
            netbox_device_id: device_id(r.netbox_device),
        },
        link: None,
    }
}

/// The rows in the order they are read: each top panel's panels below it, then the top panel.
pub open spec fn rows_of(roots: Seq<RootPanelEntry>) -> Seq<PanelRow>
    decreases roots.len(),
{
    if roots.len() == 0 {
        seq![]
    } else {
        let r = roots.last();
        rows_of(roots.drop_last()) + r.all_children_recursive@.map_values(|c: ChildPanelEntry| child_row(c)) + seq![root_row(r)]
    }
}

/// `(order, id)` into a list ascending by order; an equal order is replaced.
pub open spec fn order_insert(s: Seq<(i32, i32)>, order: i32, id: i32) -> Seq<(i32, i32)>
    decreases s.len(),
{
    if s.len() == 0 {
        seq![(order, id)]
    } else if s.last().0 == order {
        s.drop_last().push((order, id))
    } else if s.last().0 < order {
        s.push((order, id))
    } else {
        order_insert(s.drop_last(), order, id).push(s.last())
    }
}

/// The panels under `parent` by order, a later row replacing an earlier one of equal order.
pub open spec fn kid_entries(rows: Seq<PanelRow>, parent: i32) -> Seq<(i32, i32)>
    decreases rows.len(),
{
    if rows.len() == 0 {
        seq![]
    } else {
        let before = kid_entries(rows.drop_last(), parent);
        match rows.last().link {
            Some((p, o)) => if p == parent {
                order_insert(before, o, rows.last().id)
            } else {
                before
            },
            None => before,
        }
    }
}

/// The ids of the panels under `parent`, by order.
pub open spec fn kids(rows: Seq<PanelRow>, parent: i32) -> Seq<i32> {
    kid_entries(rows, parent).map_values(|e: (i32, i32)| e.1)
}

/// The parents named by the rows.
pub open spec fn parent_seq(rows: Seq<PanelRow>) -> Seq<i32>
    decreases rows.len(),
{
    if rows.len() == 0 {
        seq![]
    } else {
        match rows.last().link {
            Some((p, _)) => parent_seq(rows.drop_last()).push(p),
            None => parent_seq(rows.drop_last()),
        }
    }
}

pub open spec fn parents(rows: Seq<PanelRow>) -> Set<i32> {
    parent_seq(rows).to_set()
}

/// The ids of the rows.
pub open spec fn row_ids(rows: Seq<PanelRow>) -> Set<i32> {
    rows.map_values(|r: PanelRow| r.id).to_set()
}

/// A row with this id has a parent and a place.
pub open spec fn is_child(rows: Seq<PanelRow>, id: i32) -> bool {
    exists|i: int| 0 <= i < rows.len() && rows[i].id == id && rows[i].link is Some
}

/// The data of the last row with this id.
pub open spec fn last_data(rows: Seq<PanelRow>, id: i32) -> Option<PanelData>
    decreases rows.len(),
{
    if rows.len() == 0 {
        None
    } else if rows.last().id == id {
        Some(rows.last().data)
    } else {
        last_data(rows.drop_last(), id)
    }
}

/// The ids in order of first appearance, each once.
pub open spec fn distinct_ids(s: Seq<i32>) -> Seq<i32>
    decreases s.len(),
{
    if s.len() == 0 {
        seq![]
    } else if distinct_ids(s.drop_last()).contains(s.last()) {
        distinct_ids(s.drop_last())
    } else {
        distinct_ids(s.drop_last()).push(s.last())
    }
}

/// The panels at the top: the ids of the rows, each once, without those of child rows.
pub open spec fn root_ids(rows: Seq<PanelRow>) -> Seq<i32> {
    distinct_ids(rows.map_values(|r: PanelRow| r.id)).filter(|id: i32| !is_child(rows, id))
}

/// Inserts `(order, id)` into an ascending list, replacing an equal order.
fn insert_ordered(s: &mut Vec<(i32, i32)>, order: i32, id: i32)
    ensures
        final(s)@ == order_insert(old(s)@, order, id),
{
    let ghost old_s = s@;
    let mut j: usize = s.len();
    assert(old_s.subrange(0, j as int) =~= old_s);
    assert(order_insert(old_s, order, id) + old_s.subrange(j as int, old_s.len() as int) =~= order_insert(old_s, order, id));
    while j > 0 && s[j - 1].0 > order
        invariant
            j <= s@.len(),
            s@ == old_s,
            order_insert(old_s, order, id) == order_insert(old_s.subrange(0, j as int), order, id) + old_s.subrange(j as int, old_s.len() as int),
        decreases j,
    {
        proof {
            let pre = old_s.subrange(0, j as int);
            assert(pre.last() == old_s[j - 1]);
            assert(pre.drop_last() =~= old_s.subrange(0, j - 1));
            assert(order_insert(pre, order, id) == order_insert(old_s.subrange(0, j - 1), order, id).push(old_s[j - 1]));
            assert(order_insert(old_s.subrange(0, j - 1), order, id).push(old_s[j - 1]) + old_s.subrange(j as int, old_s.len() as int)
                =~= order_insert(old_s.subrange(0, j - 1), order, id) + old_s.subrange(j - 1, old_s.len() as int));
        }
        j -= 1;
    }
    let ghost pre = old_s.subrange(0, j as int);
    if j > 0 && s[j - 1].0 == order {
        assert(pre.last() == old_s[j - 1]);
        assert(order_insert(pre, order, id) == pre.drop_last().push((order, id)));
        s.set(j - 1, (order, id));
        assert(s@ =~= pre.drop_last().push((order, id)) + old_s.subrange(j as int, old_s.len() as int));
    } else {
        if j > 0 {
            assert(pre.last() == old_s[j - 1]);
        }
        assert(order_insert(pre, order, id) == pre.push((order, id)));
        s.insert(j, (order, id));
        assert(s@ =~= pre.push((order, id)) + old_s.subrange(j as int, old_s.len() as int));
    }
}


fn copy_name(n: &Option<String>) -> (r: Option<String>)
    ensures
        r == *n,
{
    match n {
        Some(s) => Some(s.clone()),
        None => None,
    }
}

fn device_of(d: &Option<NetboxDeviceId>) -> (r: Option<i32>)
    ensures
        r == device_id(*d),
{
    match d {
        Some(x) => Some(x.id),
        None => None,
    }
}

/// The rows of the loaded panels, in the order they are read.
fn rows_from(roots: &Vec<RootPanelEntry>) -> (r: Vec<PanelRow>)
    ensures
        r@ == rows_of(roots@),
{
    let mut rows: Vec<PanelRow> = Vec::new();
    let mut i: usize = 0;
    while i < roots.len()
        invariant
            i <= roots.len(),
            rows@ == rows_of(roots@.subrange(0, i as int)),
        decreases roots.len() - i,
    {
        let root = &roots[i];
        let ghost start = rows@;
        let cs = &root.all_children_recursive;
        let mut j: usize = 0;
        while j < cs.len()
            invariant
                j <= cs.len(),
                rows@ == start + cs@.subrange(0, j as int).map_values(|c: ChildPanelEntry| child_row(c)),
            decreases cs.len() - j,
        {
            let c = &cs[j];
            let link = match (c.parent_id, c.parent_order) {
                (Some(p), Some(o)) => Some((p, o)),
                _ => None,
            };
            let row = PanelRow {
                id: c.id,
                data: PanelData {
                    name: copy_name(&c.name),
                    has_loop: c.count_loop_ports > 0,
                    port_count: #[verifier::truncate] (c.count_ports as usize),
                    netbox_device_id: device_of(&c.netbox_device),
                },
                link,
            };
            assert(row == child_row(*c));
            rows.push(row);
            assert(cs@.subrange(0, j + 1).map_values(|c: ChildPanelEntry| child_row(c)) =~= cs@.subrange(0, j as int).map_values(
                |c: ChildPanelEntry| child_row(c),
            ).push(child_row(cs@[j as int])));
            j += 1;
        }
        assert(cs@.subrange(0, cs@.len() as int) =~= cs@);
        let row = PanelRow {
            id: root.id,
            data: PanelData {
                name: copy_name(&root.name),
                has_loop: root.count_loop_ports > 0,
                port_count: #[verifier::truncate] (root.count_ports as usize),
                netbox_device_id: device_of(&root.netbox_device),
            },
            link: None,
        };
        assert(row == root_row(*root));
        rows.push(row);
        proof {
            let sub = roots@.subrange(0, i + 1);
            assert(sub.drop_last() =~= roots@.subrange(0, i as int));
            assert(sub.last() == *root);
            assert(rows@ =~= rows_of(sub));
        }
        i += 1;
    }
    assert(roots@.subrange(0, roots@.len() as int) =~= roots@);
    rows
}

/// The child lists of the rows by parent.
pub open spec fn kid_map(rows: Seq<PanelRow>) -> Map<i32, Seq<(i32, i32)>> {
    Map::new(|p: i32| parents(rows).contains(p), |p: i32| kid_entries(rows, p))
}

/// The data of the rows by id.
pub open spec fn data_map(rows: Seq<PanelRow>) -> Map<i32, PanelData> {
    Map::new(|id: i32| row_ids(rows).contains(id), |id: i32| last_data(rows, id).unwrap())
}

pub open spec fn kid_lists(c: Seq<(i32, Vec<(i32, i32)>)>) -> Seq<(i32, Seq<(i32, i32)>)> {
    c.map_values(|e: (i32, Vec<(i32, i32)>)| (e.0, e.1@))
}

fn list_index(c: &Vec<(i32, Vec<(i32, i32)>)>, k: i32) -> (r: Option<usize>)
    ensures
        match r {
            Some(i) => i < c@.len() && c@[i as int].0 == k,
            None => !has_key(kid_lists(c@), k),
        },
{
    let mut i: usize = 0;
    while i < c.len()
        invariant
            i <= c.len(),
            forall|j: int| 0 <= j < i ==> c@[j].0 != k,
        decreases c.len() - i,
    {
        if c[i].0 == k {
            return Some(i);
        }
        i += 1;
    }
    proof {
        if has_key(kid_lists(c@), k) {
            let j = choose|j: int| 0 <= j < kid_lists(c@).len() && kid_lists(c@)[j].0 == k;
            assert(c@[j].0 == k);
        }
    }
    None
}

fn data_index(d: &Vec<(i32, PanelData)>, k: i32) -> (r: Option<usize>)
    ensures
        match r {
            Some(i) => i < d@.len() && d@[i as int].0 == k,
            None => !has_key(d@, k),
        },
{
    let mut i: usize = 0;
    while i < d.len()
        invariant
            i <= d.len(),
            forall|j: int| 0 <= j < i ==> d@[j].0 != k,
        decreases d.len() - i,
    {
        if d[i].0 == k {
            return Some(i);
        }
        i += 1;
    }
    None
}

fn copy_pairs(v: &Vec<(i32, i32)>) -> (r: Vec<(i32, i32)>)
    ensures
        r@ == v@,
{
    let mut r: Vec<(i32, i32)> = Vec::new();
    let mut q: usize = 0;
    while q < v.len()
        invariant
            q <= v.len(),
            r@ == v@.subrange(0, q as int),
        decreases v.len() - q,
    {
        r.push(v[q]);
        assert(v@.subrange(0, q + 1) =~= v@.subrange(0, q as int).push(v@[q as int]));
        q += 1;
    }
    assert(v@.subrange(0, v@.len() as int) =~= v@);
    r
}

/// The child lists and the data of the rows, by parent and by id.
fn index_rows(rows: &Vec<PanelRow>) -> (r: (Vec<(i32, Vec<(i32, i32)>)>, Vec<(i32, PanelData)>))
    ensures
        unique_keys(kid_lists(r.0@)),
        to_map(kid_lists(r.0@)) == kid_map(rows@),
        unique_keys(r.1@),
        to_map(r.1@) == data_map(rows@),
{
    let mut children: Vec<(i32, Vec<(i32, i32)>)> = Vec::new();
    let mut data: Vec<(i32, PanelData)> = Vec::new();
    let mut i: usize = 0;
    assert(to_map(kid_lists(children@)) =~= kid_map(rows@.subrange(0, 0)));
    assert(to_map(data@) =~= data_map(rows@.subrange(0, 0)));
    while i < rows.len()
        invariant
            i <= rows.len(),
            unique_keys(kid_lists(children@)),
            to_map(kid_lists(children@)) == kid_map(rows@.subrange(0, i as int)),
            unique_keys(data@),
            to_map(data@) == data_map(rows@.subrange(0, i as int)),
        decreases rows.len() - i,
    {
        let row = &rows[i];
        let ghost pre = rows@.subrange(0, i as int);
        let ghost next = rows@.subrange(0, i + 1);
        proof {
            assert(next.drop_last() =~= pre);
            assert(next.last() == rows@[i as int]);
        }
        let ghost before_c = kid_lists(children@);
        match row.link {
            Some((p, o)) => {
                match list_index(&children, p) {
                    Some(k) => {
                        proof { lemma_value_at(before_c, k as int); }
                        let mut list = copy_pairs(&children[k].1);
                        insert_ordered(&mut list, o, row.id);
                        proof { lemma_update(before_c, k as int, list@); }
                        children.set(k, (p, list));
                        assert(kid_lists(children@) =~= before_c.update(k as int, (before_c[k as int].0, list@)));
                    },
                    None => {
                        let mut list = Vec::new();
                        list.push((o, row.id));
                        proof {
                            lemma_push(before_c, p, list@);
                            assert(!to_map(before_c).contains_key(p));
                            assert(!kid_map(pre).contains_key(p));
                            assert(!parents(pre).contains(p));
                            assert(kid_entries(pre, p) =~= Seq::<(i32, i32)>::empty()) by {
                                lemma_no_kids(pre, p);
                            }
                        }
                        children.push((p, list));
                        assert(kid_lists(children@) =~= before_c.push((p, list@)));
                    },
                }
                proof {
                    assert(parent_seq(next) == parent_seq(pre).push(p));
                    parent_seq(pre).lemma_push_to_set_commute(p);
                    assert(to_map(kid_lists(children@)) =~= kid_map(next));
                }
            },
            None => {
                proof {
                    assert(parent_seq(next) == parent_seq(pre));
                    assert forall|x: i32| kid_entries(next, x) == kid_entries(pre, x) by {}
                    assert(to_map(kid_lists(children@)) =~= kid_map(next));
                }
            },
        }
        let d = PanelData {
            name: copy_name(&row.data.name),
            has_loop: row.data.has_loop,
            port_count: row.data.port_count,
            netbox_device_id: row.data.netbox_device_id,
        };
        let ghost before_d = data@;
        match data_index(&data, row.id) {
            Some(k) => {
                proof { lemma_update(before_d, k as int, d); }
                data.set(k, (row.id, d));
            },
            None => {
                proof { lemma_push(before_d, row.id, d); }
                data.push((row.id, d));
            },
        }
        proof {
            assert(next.map_values(|r: PanelRow| r.id) =~= pre.map_values(|r: PanelRow| r.id).push(row.id));
            pre.map_values(|r: PanelRow| r.id).lemma_push_to_set_commute(row.id);
            assert forall|x: i32| #[trigger] data_map(next).contains_key(x) implies data_map(pre).contains_key(x) || x == row.id by {}
            assert forall|x: i32| data_map(pre).contains_key(x) && x != row.id implies last_data(next, x) == last_data(pre, x) by {}
            assert(last_data(next, row.id) == Some(row.data));
            assert(to_map(data@) =~= data_map(next));
        }
        i += 1;
    }
    assert(rows@.subrange(0, rows@.len() as int) =~= rows@);
    (children, data)
}

proof fn lemma_no_kids(rows: Seq<PanelRow>, p: i32)
    requires
        !parents(rows).contains(p),
    ensures
        kid_entries(rows, p) == Seq::<(i32, i32)>::empty(),
    decreases rows.len(),
{
    if rows.len() > 0 {
        let pre = rows.drop_last();
        match rows.last().link {
            Some((q, _)) => {
                assert(parent_seq(rows) == parent_seq(pre).push(q));
                assert(parent_seq(rows).contains(q)) by {
                    assert(parent_seq(rows)[parent_seq(rows).len() - 1] == q);
                }
                assert(q != p);
                assert forall|x: i32| parent_seq(pre).contains(x) implies parent_seq(rows).contains(x) by {
                    let w = choose|w: int| 0 <= w < parent_seq(pre).len() && parent_seq(pre)[w] == x;
                    assert(parent_seq(rows)[w] == x);
                }
            },
            None => {
                assert(parent_seq(rows) == parent_seq(pre));
            },
        }
        lemma_no_kids(pre, p);
    }
}


/// A panel tree as the rows describe it.
pub struct PanelTree {
    pub id: i32,
    pub name: Option<Seq<char>>,
    pub has_loop: bool,
    pub port_count: usize,
    pub netbox_device_id: Option<i32>,
    pub children: Seq<PanelTree>,
}

/// The entry holds the tree.
pub open spec fn matches_tree(e: PanelTreeEntry, t: PanelTree) -> bool
    decreases e,
{
    &&& e.id == t.id
    &&& opt_view(e.name) == t.name
    &&& e.has_loop == t.has_loop
    &&& e.port_count == t.port_count
    &&& e.netbox_device_id == t.netbox_device_id
    &&& e.children@.len() == t.children.len()
    &&& forall|i: int| 0 <= i < e.children@.len() ==> matches_tree(#[trigger] e.children@[i], t.children[i])
}

/// The node of a panel: its data if still there, else no name, no loop, no ports, no device.
pub open spec fn node(id: i32, d: Option<PanelData>, children: Seq<PanelTree>) -> PanelTree {
    match d {
        Some(data) => PanelTree {
            id,
            name: opt_view(data.name),
            has_loop: data.has_loop,
            port_count: data.port_count,
            netbox_device_id: data.netbox_device_id,
            children,
        },
        None => PanelTree { id, name: None, has_loop: false, port_count: 0, netbox_device_id: None, children },
    }
}

/// The parents whose child lists were not taken yet.
pub open spec fn pending(rows: Seq<PanelRow>, taken: Set<i32>) -> nat {
    parents(rows).difference(taken).len()
}

pub proof fn lemma_pending_take(rows: Seq<PanelRow>, taken: Set<i32>, id: i32)
    requires
        parents(rows).contains(id),
        !taken.contains(id),
    ensures
        pending(rows, taken.insert(id)) < pending(rows, taken),
{
    let p = parents(rows);
    seq_to_set_is_finite(parent_seq(rows));
    vstd::set_lib::lemma_len_difference(p, taken);
    assert(p.difference(taken.insert(id)) =~= p.difference(taken).remove(id));
    vstd::set_lib::lemma_len_subset(p.difference(taken), p);
}

proof fn lemma_pending_mono(rows: Seq<PanelRow>, a: Set<i32>, b: Set<i32>)
    requires
        a.subset_of(b),
    ensures
        pending(rows, b) <= pending(rows, a),
{
    let p = parents(rows);
    seq_to_set_is_finite(parent_seq(rows));
    vstd::set_lib::lemma_len_difference(p, a);
    vstd::set_lib::lemma_len_subset(p.difference(a), p);
    vstd::set_lib::lemma_len_subset(p.difference(b), p.difference(a));
}

/// The tree of `id`: the first visit takes its child list (if not taken) and its data (if not
/// used); `taken` and `used` say what earlier visits took.
pub open spec fn collect(rows: Seq<PanelRow>, id: i32, taken: Set<i32>, used: Set<i32>) -> (PanelTree, Set<i32>, Set<i32>)
    decreases pending(rows, taken), 0nat,
{
    let (children, t2, u2) = if parents(rows).contains(id) && !taken.contains(id) {
        proof {
            lemma_pending_take(rows, taken, id);
        }
        collect_list(rows, kids(rows, id), taken.insert(id), used, pending(rows, taken.insert(id)))
    } else {
        (Seq::<PanelTree>::empty(), taken, used)
    };
    let d = if row_ids(rows).contains(id) && !u2.contains(id) { last_data(rows, id) } else { None };
    (node(id, d, children), t2, if d is Some { u2.insert(id) } else { u2 })
}

/// The trees of the ids in order; `bound` bounds the parents not taken yet.
pub open spec fn collect_list(rows: Seq<PanelRow>, ids: Seq<i32>, taken: Set<i32>, used: Set<i32>, bound: nat) -> (Seq<PanelTree>, Set<i32>, Set<i32>)
    decreases bound, ids.len(),
{
    if ids.len() == 0 || pending(rows, taken) > bound {
        (seq![], taken, used)
    } else {
        let (t, t1, u1) = collect(rows, ids[0], taken, used);
        if pending(rows, t1) > bound {
            (seq![t], t1, u1)
        } else {
            let (ts, t2, u2) = collect_list(rows, ids.drop_first(), t1, u1, bound);
            (seq![t] + ts, t2, u2)
        }
    }
}

proof fn lemma_last_data_some(rows: Seq<PanelRow>, id: i32)
    ensures
        row_ids(rows).contains(id) ==> last_data(rows, id) is Some,
    decreases rows.len(),
{
    if rows.len() > 0 {
        let pre = rows.drop_last();
        lemma_last_data_some(pre, id);
        if row_ids(rows).contains(id) && rows.last().id != id {
            let ids = rows.map_values(|r: PanelRow| r.id);
            assert(ids.contains(id));
            let w = choose|w: int| 0 <= w < ids.len() && #[trigger] ids[w] == id;
            assert(w < pre.len());
            assert(pre.map_values(|r: PanelRow| r.id)[w] == id);
            assert(pre.map_values(|r: PanelRow| r.id).contains(id));
        }
    }
}

/// The child lists not taken.
pub open spec fn kids_left(rows: Seq<PanelRow>, taken: Set<i32>) -> Map<i32, Seq<(i32, i32)>> {
    Map::new(|p: i32| parents(rows).contains(p) && !taken.contains(p), |p: i32| kid_entries(rows, p))
}

/// The data not used.
pub open spec fn data_left(rows: Seq<PanelRow>, used: Set<i32>) -> Map<i32, PanelData> {
    Map::new(|id: i32| row_ids(rows).contains(id) && !used.contains(id), |id: i32| last_data(rows, id).unwrap())
}

fn take_list(children: &mut Vec<(i32, Vec<(i32, i32)>)>, k: i32) -> (r: Vec<(i32, i32)>)
    requires
        unique_keys(kid_lists(old(children)@)),
    ensures
        unique_keys(kid_lists(final(children)@)),
        to_map(kid_lists(final(children)@)) == to_map(kid_lists(old(children)@)).remove(k),
        to_map(kid_lists(old(children)@)).contains_key(k) ==> r@ == to_map(kid_lists(old(children)@))[k],
        !to_map(kid_lists(old(children)@)).contains_key(k) ==> r@.len() == 0,
{
    let ghost before = kid_lists(children@);
    match list_index(children, k) {
        Some(i) => {
            proof {
                lemma_value_at(before, i as int);
                lemma_remove(before, i as int);
            }
            let (_, list) = children.remove(i);
            assert(kid_lists(children@) =~= before.remove(i as int));
            list
        },
        None => {
            assert(to_map(before).remove(k) =~= to_map(before));
            Vec::new()
        },
    }
}

fn take_data(data: &mut Vec<(i32, PanelData)>, k: i32) -> (r: Option<PanelData>)
    requires
        unique_keys(old(data)@),
    ensures
        unique_keys(final(data)@),
        to_map(final(data)@) == to_map(old(data)@).remove(k),
        r == if to_map(old(data)@).contains_key(k) { Some(to_map(old(data)@)[k]) } else { None },
{
    let ghost before = data@;
    match data_index(data, k) {
        Some(i) => {
            proof {
                lemma_value_at(before, i as int);
                lemma_remove(before, i as int);
            }
            let (_, d) = data.remove(i);
            Some(d)
        },
        None => {
            assert(to_map(before).remove(k) =~= to_map(before));
            None
        },
    }
}

/// The tree of `entry_id`, taking the child lists and data it reaches from what is left.
fn collect_children(
    Ghost(rows): Ghost<Seq<PanelRow>>,
    entry_id: i32,
    children: &mut Vec<(i32, Vec<(i32, i32)>)>,
    data: &mut Vec<(i32, PanelData)>,
    Ghost(taken): Ghost<Set<i32>>,
    Ghost(used): Ghost<Set<i32>>,
) -> (r: PanelTreeEntry)
    requires
        unique_keys(kid_lists(old(children)@)),
        to_map(kid_lists(old(children)@)) == kids_left(rows, taken),
        unique_keys(old(data)@),
        to_map(old(data)@) == data_left(rows, used),
    ensures
        ({
            let (t, t2, u2) = collect(rows, entry_id, taken, used);
            &&& matches_tree(r, t)
            &&& unique_keys(kid_lists(final(children)@))
            &&& to_map(kid_lists(final(children)@)) == kids_left(rows, t2)
            &&& unique_keys(final(data)@)
            &&& to_map(final(data)@) == data_left(rows, u2)
            &&& taken.subset_of(t2)
        }),
    decreases pending(rows, taken),
{
    let ghost res = collect(rows, entry_id, taken, used);
    let ghost expand = parents(rows).contains(entry_id) && !taken.contains(entry_id);
    let list = take_list(children, entry_id);
    let ghost t1 = if expand { taken.insert(entry_id) } else { taken };
    proof {
        assert(to_map(kid_lists(children@)) =~= kids_left(rows, t1));
        if expand {
            lemma_pending_take(rows, taken, entry_id);
        }
    }
    let ghost ids = list@.map_values(|e: (i32, i32)| e.1);
    let ghost bound = pending(rows, t1);
    let ghost target = if expand {
        collect_list(rows, kids(rows, entry_id), t1, used, bound)
    } else {
        (Seq::<PanelTree>::empty(), taken, used)
    };
    proof {
        if expand {
            assert(ids == kids(rows, entry_id));
        } else {
            assert(ids.len() == 0);
        }
    }
    let mut child_results: Vec<PanelTreeEntry> = Vec::new();
    let ghost mut views: Seq<PanelTree> = seq![];
    let ghost mut tj = t1;
    let ghost mut uj = used;
    let mut j: usize = 0;
    proof {
        if expand {
            assert(ids.subrange(0, ids.len() as int) =~= ids);
            assert(views + collect_list(rows, ids, t1, used, bound).0 =~= collect_list(rows, ids, t1, used, bound).0);
        }
    }
    while j < list.len()
        invariant
            j <= list.len(),
            ids == list@.map_values(|e: (i32, i32)| e.1),
            expand ==> ids == kids(rows, entry_id),
            !expand ==> ids.len() == 0 && views.len() == 0 && tj == t1 && uj == used,
            t1.subset_of(tj),
            taken.subset_of(t1),
            pending(rows, tj) <= bound,
            bound == pending(rows, t1),
            bound < pending(rows, taken) || !expand,
            unique_keys(kid_lists(children@)),
            to_map(kid_lists(children@)) == kids_left(rows, tj),
            unique_keys(data@),
            to_map(data@) == data_left(rows, uj),
            child_results@.len() == views.len(),
            forall|i: int| 0 <= i < views.len() ==> matches_tree(#[trigger] child_results@[i], views[i]),
            expand ==> ({
                let (ts, tf, uf) = collect_list(rows, ids.subrange(j as int, ids.len() as int), tj, uj, bound);
                target == (views + ts, tf, uf)
            }),
        decreases list.len() - j,
    {
        let kid = list[j].1;
        proof {
            assert(ids[j as int] == kid);
            let rest = ids.subrange(j as int, ids.len() as int);
            assert(rest[0] == kid);
            assert(rest.drop_first() =~= ids.subrange(j + 1, ids.len() as int));
        }
        let ghost step = collect(rows, kid, tj, uj);
        let t = collect_children(Ghost(rows), kid, children, data, Ghost(tj), Ghost(uj));
        proof {
            lemma_pending_mono(rows, tj, step.1);
            let old_views = views;
            views = views.push(step.0);
            tj = step.1;
            uj = step.2;
            if expand {
                assert(old_views + (seq![step.0] + collect_list(rows, ids.subrange(j + 1, ids.len() as int), tj, uj, bound).0) =~= views
                    + collect_list(rows, ids.subrange(j + 1, ids.len() as int), tj, uj, bound).0);
            }
        }
        child_results.push(t);
        j += 1;
    }
    proof {
        if expand {
            assert(ids.subrange(j as int, ids.len() as int) =~= Seq::<i32>::empty());
            assert(views + Seq::<PanelTree>::empty() =~= views);
        }
    }
    let ghost u2 = uj;
    let d = take_data(data, entry_id);
    let entry = match d {
        Some(dd) => PanelTreeEntry {
            id: entry_id,
            name: dd.name,
            children: child_results,
            has_loop: dd.has_loop,
            port_count: dd.port_count,
            netbox_device_id: dd.netbox_device_id,
        },
        None => PanelTreeEntry { id: entry_id, name: None, children: child_results, has_loop: false, port_count: 0, netbox_device_id: None },
    };
    proof {
        if expand {
            assert(views == target.0 && tj == target.1 && uj == target.2);
        } else {
            assert(views =~= Seq::<PanelTree>::empty());
        }
        lemma_last_data_some(rows, entry_id);
        let dd = if row_ids(rows).contains(entry_id) && !u2.contains(entry_id) { last_data(rows, entry_id) } else { None };
        assert(d == dd);
        assert(res.0 == node(entry_id, dd, views));
        let final_u = if d is Some { u2.insert(entry_id) } else { u2 };
        assert(res.2 == final_u);
        assert(res.1 == tj);
        assert(to_map(data@) =~= data_left(rows, final_u));
        assert(matches_tree(entry, res.0));
    }
    entry
}


/// The trees of the top panels, and what they took.
pub open spec fn built(rows: Seq<PanelRow>) -> (Seq<PanelTree>, Set<i32>, Set<i32>) {
    collect_list(rows, root_ids(rows), Set::empty(), Set::empty(), pending(rows, Set::empty()))
}

/// Building the trees takes every child list and the data of every panel: the rows form a
/// tree below the top panels.
pub open spec fn forms_tree(rows: Seq<PanelRow>) -> bool {
    parents(rows).subset_of(built(rows).1) && row_ids(rows).subset_of(built(rows).2)
}

fn contains_id(ids: &Vec<i32>, id: i32) -> (r: bool)
    ensures
        r == ids@.contains(id),
{
    let mut i: usize = 0;
    while i < ids.len()
        invariant
            i <= ids.len(),
            forall|j: int| 0 <= j < i ==> ids@[j] != id,
        decreases ids.len() - i,
    {
        if ids[i] == id {
            assert(ids@[i as int] == id);
            return true;
        }
        i += 1;
    }
    false
}

/// The ids of the top panels.
fn top_ids(rows: &Vec<PanelRow>) -> (r: Vec<i32>)
    ensures
        r@ == root_ids(rows@),
{
    let ghost all = rows@.map_values(|r: PanelRow| r.id);
    let mut child_ids: Vec<i32> = Vec::new();
    let mut distinct: Vec<i32> = Vec::new();
    let mut i: usize = 0;
    while i < rows.len()
        invariant
            i <= rows.len(),
            all == rows@.map_values(|r: PanelRow| r.id),
            distinct@ == distinct_ids(all.subrange(0, i as int)),
            forall|x: i32| child_ids@.contains(x) <==> exists|j: int| 0 <= j < i && rows@[j].id == x && rows@[j].link is Some,
        decreases rows.len() - i,
    {
        let id = rows[i].id;
        proof {
            let sub = all.subrange(0, i + 1);
            assert(sub.drop_last() =~= all.subrange(0, i as int));
            assert(sub.last() == id);
        }
        if !contains_id(&distinct, id) {
            distinct.push(id);
        }
        let ghost before = child_ids@;
        if rows[i].link.is_some() {
            child_ids.push(id);
        }
        proof {
            assert forall|x: i32| child_ids@.contains(x) <==> exists|j: int| 0 <= j < i + 1 && rows@[j].id == x && rows@[j].link is Some by {
                if child_ids@.contains(x) && !before.contains(x) {
                    assert(rows@[i as int].id == x && rows@[i as int].link is Some);
                }
                if before.contains(x) {
                    let w = choose|w: int| 0 <= w < before.len() && before[w] == x;
                    assert(child_ids@[w] == x);
                }
                if exists|j: int| 0 <= j < i + 1 && rows@[j].id == x && rows@[j].link is Some {
                    let j = choose|j: int| 0 <= j < i + 1 && rows@[j].id == x && rows@[j].link is Some;
                    if j == i {
                        assert(child_ids@[child_ids@.len() - 1] == x);
                    }
                }
            }
        }
        i += 1;
    }
    assert(all.subrange(0, all.len() as int) =~= all);
    let ghost keep = |id: i32| !is_child(rows@, id);
    let mut r: Vec<i32> = Vec::new();
    let mut k: usize = 0;
    while k < distinct.len()
        invariant
            k <= distinct.len(),
            keep == (|id: i32| !is_child(rows@, id)),
            forall|x: i32| child_ids@.contains(x) <==> is_child(rows@, x),
            r@ == distinct@.subrange(0, k as int).filter(keep),
        decreases distinct.len() - k,
    {
        proof {
            distinct@.subrange(0, k as int).lemma_filter_push(distinct@[k as int], keep);
            assert(distinct@.subrange(0, k + 1) == distinct@.subrange(0, k as int).push(distinct@[k as int]));
        }
        if !contains_id(&child_ids, distinct[k]) {
            r.push(distinct[k]);
        }
        k += 1;
    }
    assert(distinct@.subrange(0, distinct@.len() as int) =~= distinct@);
    r
}

impl PanelTreeEntry {
    /// The trees of the top panels built from the rows as loaded: every panel with its data (the
    /// last row of it wins), the panels below it ordered by their place (a later row replacing
    /// one of equal place). `None` where the rows do not form a tree below the top panels (a
    /// child list or a panel is never reached).
    pub fn try_from_root_panels(roots: Vec<RootPanelEntry>) -> (r: Option<Vec<PanelTreeEntry>>)
        ensures
            r is Some <==> forms_tree(rows_of(roots@)),
            r matches Some(v) ==> v@.len() == built(rows_of(roots@)).0.len() && forall|i: int|
                0 <= i < v@.len() ==> matches_tree(#[trigger] v@[i], built(rows_of(roots@)).0[i]),
    {
        let rows = rows_from(&roots);
        let ghost rs = rows@;
        let (mut children, mut data) = index_rows(&rows);
        let ids = top_ids(&rows);
        proof {
            assert(to_map(kid_lists(children@)) =~= kids_left(rs, Set::empty()));
            assert(to_map(data@) =~= data_left(rs, Set::empty()));
        }
        let ghost bound = pending(rs, Set::empty());
        let ghost target = built(rs);
        let ghost mut views: Seq<PanelTree> = seq![];
        let ghost mut tj: Set<i32> = Set::empty();
        let ghost mut uj: Set<i32> = Set::empty();
        let mut result: Vec<PanelTreeEntry> = Vec::new();
        let mut j: usize = 0;
        assert(ids@.subrange(0, ids@.len() as int) =~= ids@);
        assert(views + target.0 =~= target.0);
        while j < ids.len()
            invariant
                j <= ids.len(),
                ids@ == root_ids(rs),
                target == built(rs),
                bound == pending(rs, Set::empty()),
                pending(rs, tj) <= bound,
                unique_keys(kid_lists(children@)),
                to_map(kid_lists(children@)) == kids_left(rs, tj),
                unique_keys(data@),
                to_map(data@) == data_left(rs, uj),
                result@.len() == views.len(),
                forall|i: int| 0 <= i < views.len() ==> matches_tree(#[trigger] result@[i], views[i]),
                ({
                    let (ts, tf, uf) = collect_list(rs, ids@.subrange(j as int, ids@.len() as int), tj, uj, bound);
                    target == (views + ts, tf, uf)
                }),
            decreases ids.len() - j,
        {
            let id = ids[j];
            proof {
                let rest = ids@.subrange(j as int, ids@.len() as int);
                assert(rest[0] == id);
                assert(rest.drop_first() =~= ids@.subrange(j + 1, ids@.len() as int));
            }
            let ghost step = collect(rs, id, tj, uj);
            let t = collect_children(Ghost(rs), id, &mut children, &mut data, Ghost(tj), Ghost(uj));
            proof {
                lemma_pending_mono(rs, tj, step.1);
                let old_views = views;
                views = views.push(step.0);
                tj = step.1;
                uj = step.2;
                assert(old_views + (seq![step.0] + collect_list(rs, ids@.subrange(j + 1, ids@.len() as int), tj, uj, bound).0) =~= views
                    + collect_list(rs, ids@.subrange(j + 1, ids@.len() as int), tj, uj, bound).0);
            }
            result.push(t);
            j += 1;
        }
        proof {
            assert(ids@.subrange(j as int, ids@.len() as int) =~= Seq::<i32>::empty());
            assert(views + Seq::<PanelTree>::empty() =~= views);
            assert(target.1 == tj && target.2 == uj);
        }
        if children.len() == 0 && data.len() == 0 {
            proof {
                assert forall|p: i32| parents(rs).contains(p) implies tj.contains(p) by {
                    if !tj.contains(p) {
                        assert(kids_left(rs, tj).contains_key(p));
                        let w = choose|w: int| 0 <= w < kid_lists(children@).len() && kid_lists(children@)[w].0 == p;
                    }
                }
                assert forall|x: i32| row_ids(rs).contains(x) implies uj.contains(x) by {
                    if !uj.contains(x) {
                        assert(data_left(rs, uj).contains_key(x));
                        let w = choose|w: int| 0 <= w < data@.len() && data@[w].0 == x;
                    }
                }
            }
            Some(result)
        } else {
            proof {
                if children.len() > 0 {
                    lemma_value_at(kid_lists(children@), 0);
                    assert(kids_left(rs, tj).contains_key(children@[0].0));
                } else {
                    lemma_value_at(data@, 0);
                    assert(data_left(rs, uj).contains_key(data@[0].0));
                }
            }
            None
        }
    }

    /// The trees of the top panels built from the rows as loaded (see `try_from_root_panels`);
    /// the rows must form a tree below the top panels.
    pub fn from_root_panels(roots: Vec<RootPanelEntry>) -> (r: Vec<PanelTreeEntry>)
        requires
            forms_tree(rows_of(roots@)),
        ensures
            r@.len() == built(rows_of(roots@)).0.len(),
            forall|i: int| 0 <= i < r@.len() ==> matches_tree(#[trigger] r@[i], built(rows_of(roots@)).0[i]),
    {
        match PanelTreeEntry::try_from_root_panels(roots) {
            Some(v) => v,
            None => Vec::new(),
        }
    }
}

} // verus!
