//! The tree of a table: entries (rows) by key, the root keys in order and the child keys of
//! each key in order, as edited by moving, reordering and removing entries; and which
//! entries are expanded.

use vstd::prelude::*;
use crate::ids::IdOrNew;

verus! {

broadcast use vstd::seq_lib::group_seq_properties;

/// No key occurs twice in an association list.
pub open spec fn keys_unique<V>(s: Seq<(IdOrNew, V)>) -> bool {
    forall|i: int, j: int| 0 <= i < j < s.len() ==> s[i].0 != s[j].0
}

/// The keys of an association list, in order.
pub open spec fn keys_of<V>(s: Seq<(IdOrNew, V)>) -> Seq<IdOrNew> {
    s.map_values(|e: (IdOrNew, V)| e.0)
}

/// Keys other than `id`.
pub open spec fn other_than(id: IdOrNew) -> spec_fn(IdOrNew) -> bool {
    |k: IdOrNew| k != id
}

/// The keys without `id`, in the same order.
pub open spec fn without(s: Seq<IdOrNew>, id: IdOrNew) -> Seq<IdOrNew> {
    s.filter(other_than(id))
}

/// The keys with `a` and `b` exchanged.
pub open spec fn swapped(s: Seq<IdOrNew>, a: IdOrNew, b: IdOrNew) -> Seq<IdOrNew> {
    s.map_values(|k: IdOrNew| if k == a { b } else if k == b { a } else { k })
}

/// The child lists as sequences.
pub open spec fn lists_view(c: Seq<(IdOrNew, Vec<IdOrNew>)>) -> Seq<(IdOrNew, Seq<IdOrNew>)> {
    c.map_values(|e: (IdOrNew, Vec<IdOrNew>)| (e.0, e.1@))
}

/// Pairs other than the one of `id`.
pub open spec fn pair_other_than<V>(id: IdOrNew) -> spec_fn((IdOrNew, V)) -> bool {
    |e: (IdOrNew, V)| e.0 != id
}

/// How often `k` occurs.
pub open spec fn count(s: Seq<IdOrNew>, k: IdOrNew) -> nat {
    s.filter(equal_to(k)).len()
}

/// Keys equal to `k`.
pub open spec fn equal_to(k: IdOrNew) -> spec_fn(IdOrNew) -> bool {
    |x: IdOrNew| x == k
}

/// How often `k` occurs in all child lists together.
pub open spec fn count_in_lists(c: Seq<(IdOrNew, Seq<IdOrNew>)>, k: IdOrNew) -> nat
    decreases c.len(),
{
    if c.len() == 0 {
        0
    } else {
        count_in_lists(c.drop_last(), k) + count(c.last().1, k)
    }
}

/// Each list filtered of `id`.
pub open spec fn lists_without(c: Seq<(IdOrNew, Seq<IdOrNew>)>, id: IdOrNew) -> Seq<(IdOrNew, Seq<IdOrNew>)> {
    c.map_values(|e: (IdOrNew, Seq<IdOrNew>)| (e.0, without(e.1, id)))
}

/// The list of `parent` with `a` and `b` exchanged, the other lists unchanged.
pub open spec fn lists_swapped(c: Seq<(IdOrNew, Seq<IdOrNew>)>, parent: IdOrNew, a: IdOrNew, b: IdOrNew) -> Seq<(IdOrNew, Seq<IdOrNew>)> {
    c.map_values(|e: (IdOrNew, Seq<IdOrNew>)| if e.0 == parent { (e.0, swapped(e.1, a, b)) } else { e })
}

/// `entry` appended to the list of `parent`; a new list for it at the end if it had none.
pub open spec fn lists_appended(c: Seq<(IdOrNew, Seq<IdOrNew>)>, parent: IdOrNew, entry: IdOrNew) -> Seq<(IdOrNew, Seq<IdOrNew>)> {
    if keys_of(c).contains(parent) {
        c.map_values(append_to(parent, entry))
    } else {
        c.push((parent, seq![entry]))
    }
}

/// `entry` appended to the list of `parent`, other lists unchanged.
pub open spec fn append_to(parent: IdOrNew, entry: IdOrNew) -> spec_fn((IdOrNew, Seq<IdOrNew>)) -> (IdOrNew, Seq<IdOrNew>) {
    |e: (IdOrNew, Seq<IdOrNew>)| if e.0 == parent { (e.0, e.1.push(entry)) } else { e }
}

/// A row the tree can copy exactly.
pub trait CopyRow: Sized {
    fn copy_row(&self) -> (r: Self)
        ensures
            r == *self;
}

/// `t` holds copies of the entries of `s`, in order.
pub open spec fn copied_entries<Row>(s: Seq<(IdOrNew, Row)>, t: Seq<(IdOrNew, Row)>) -> bool {
    &&& s.len() == t.len()
    &&& forall|i: int| 0 <= i < s.len() ==> #[trigger] t[i] == s[i]
}

pub proof fn lemma_filter_keys_unique<V>(s: Seq<(IdOrNew, V)>, p: spec_fn((IdOrNew, V)) -> bool)
    requires
        keys_unique(s),
    ensures
        keys_unique(s.filter(p)),
    decreases s.len(),
{
    reveal(Seq::filter);
    if s.len() > 0 {
        lemma_filter_keys_unique(s.drop_last(), p);
        let f = s.drop_last().filter(p);
        if p(s.last()) {
            assert forall|i: int| 0 <= i < f.len() implies #[trigger] f[i].0 != s.last().0 by {
                assert(f.contains(f[i]));
                s.drop_last().lemma_filter_contains_rev(p, f[i]);
                let j = choose|j: int| 0 <= j < s.drop_last().len() && s.drop_last()[j] == f[i];
                assert(s[j] == f[i]);
            }
        }
    }
}

/// Copies of the entries.
fn copy_entries<Row: CopyRow>(entries: &Vec<(IdOrNew, Row)>) -> (r: Vec<(IdOrNew, Row)>)
    ensures
        copied_entries(entries@, r@),
{
    let mut r: Vec<(IdOrNew, Row)> = Vec::new();
    let mut i: usize = 0;
    while i < entries.len()
        invariant
            i <= entries.len(),
            r.len() == i,
            forall|j: int| 0 <= j < i ==> #[trigger] r@[j] == entries@[j],
        decreases entries.len() - i,
    {
        let row = entries[i].1.copy_row();
        r.push((entries[i].0, row));
        i += 1;
    }
    r
}

/// The keys without `id`.
fn keys_without(keys: &[IdOrNew], id: IdOrNew) -> (r: Vec<IdOrNew>)
    ensures
        r@ == without(keys@, id),
{
    let mut r: Vec<IdOrNew> = Vec::new();
    let mut i: usize = 0;
    while i < keys.len()
        invariant
            i <= keys.len(),
            r@ == without(keys@.subrange(0, i as int), id),
        decreases keys.len() - i,
    {
        proof {
            keys@.subrange(0, i as int).lemma_filter_push(keys@[i as int], other_than(id));
            assert(keys@.subrange(0, i + 1) == keys@.subrange(0, i as int).push(keys@[i as int]));
        }
        if keys[i] != id {
            r.push(keys[i]);
        }
        i += 1;
    }
    assert(keys@.subrange(0, keys.len() as int) == keys@);
    r
}

/// A tree of entries: the root keys in order, the row of each key and the child keys of each
/// key in order. Keys occur at most once among the entries and among the child lists.
#[derive(PartialEq)]
pub struct TreeModel<Row> {
    roots: Vec<IdOrNew>,
    entries: Vec<(IdOrNew, Row)>,
    children: Vec<(IdOrNew, Vec<IdOrNew>)>,
}

impl<Row> TreeModel<Row> {
    #[verifier::type_invariant]
    spec fn well_formed(self) -> bool {
        &&& keys_unique(self.entries@)
        &&& keys_unique(lists_view(self.children@))
    }

    /// The root keys, in order.
    pub closed spec fn roots_view(&self) -> Seq<IdOrNew> {
        self.roots@
    }

    /// The rows by key, as an association list.
    pub closed spec fn entries_view(&self) -> Seq<(IdOrNew, Row)> {
        self.entries@
    }

    /// The child keys of each key, as an association list.
    pub closed spec fn children_view(&self) -> Seq<(IdOrNew, Seq<IdOrNew>)> {
        lists_view(self.children@)
    }

    pub fn new(
        roots: Vec<IdOrNew>,
        entries: Vec<(IdOrNew, Row)>,
        children: Vec<(IdOrNew, Vec<IdOrNew>)>,
    ) -> (r: Self)
        requires
            keys_unique(entries@),
            keys_unique(lists_view(children@)),
        ensures
            r.roots_view() == roots@,
            r.entries_view() == entries@,
            r.children_view() == lists_view(children@),
    {
        TreeModel { roots, entries, children }
    }

    pub fn roots(&self) -> (r: &[IdOrNew])
        ensures
            r@ == self.roots_view(),
    {
        self.roots.as_slice()
    }

    /// The rows by key; each key once.
    pub fn entries(&self) -> (r: &Vec<(IdOrNew, Row)>)
        ensures
            r@ == self.entries_view(),
            keys_unique(r@),
    {
        proof { use_type_invariant(self); }
        &self.entries
    }

    /// The child lists by key; each key once.
    pub fn children(&self) -> (r: &Vec<(IdOrNew, Vec<IdOrNew>)>)
        ensures
            lists_view(r@) == self.children_view(),
            keys_unique(lists_view(r@)),
    {
        proof { use_type_invariant(self); }
        &self.children
    }
}

impl<Row: CopyRow> Clone for TreeModel<Row> {
    /// The same roots, entries and child lists.
    fn clone(&self) -> (r: Self)
        ensures
            r.roots_view() == self.roots_view(),
            r.entries_view() == self.entries_view(),
            r.children_view() == self.children_view(),
    {
        proof { use_type_invariant(self); }
        let entries = copy_entries(&self.entries);
        proof {
            lemma_copied_keys(self.entries@, entries@);
            assert(entries@ =~= self.entries@);
        }
        let children = copy_lists(&self.children);
        TreeModel { roots: copy_keys(self.roots.as_slice()), entries, children }
    }
}

impl<Row> Default for TreeModel<Row> {
    fn default() -> (r: Self)
        ensures
            r.roots_view() == Seq::<IdOrNew>::empty(),
            r.entries_view() == Seq::<(IdOrNew, Row)>::empty(),
            r.children_view() == Seq::<(IdOrNew, Seq<IdOrNew>)>::empty(),
    {
        let r = TreeModel { roots: Vec::new(), entries: Vec::new(), children: Vec::new() };
        assert(lists_view(r.children@) =~= Seq::<(IdOrNew, Seq<IdOrNew>)>::empty());
        r
    }
}

/// Each child list without `id`.
fn lists_without_key(children: &Vec<(IdOrNew, Vec<IdOrNew>)>, id: IdOrNew) -> (r: Vec<(IdOrNew, Vec<IdOrNew>)>)
    ensures
        lists_view(r@) == lists_without(lists_view(children@), id),
{
    let mut r: Vec<(IdOrNew, Vec<IdOrNew>)> = Vec::new();
    let mut i: usize = 0;
    while i < children.len()
        invariant
            i <= children.len(),
            r.len() == i,
            forall|j: int| 0 <= j < i ==> #[trigger] r@[j].0 == children@[j].0 && r@[j].1@ == without(children@[j].1@, id),
        decreases children.len() - i,
    {
        let list = keys_without(children[i].1.as_slice(), id);
        r.push((children[i].0, list));
        i += 1;
    }
    assert(lists_view(r@) =~= lists_without(lists_view(children@), id));
    r
}

/// Copies of the entries other than the one of `id`.
fn entries_without<Row: CopyRow>(entries: &Vec<(IdOrNew, Row)>, id: IdOrNew) -> (r: Vec<(IdOrNew, Row)>)
    ensures
        copied_entries(entries@.filter(pair_other_than(id)), r@),
{
    let mut r: Vec<(IdOrNew, Row)> = Vec::new();
    let mut i: usize = 0;
    while i < entries.len()
        invariant
            i <= entries.len(),
            copied_entries(entries@.subrange(0, i as int).filter(pair_other_than(id)), r@),
        decreases entries.len() - i,
    {
        proof {
            entries@.subrange(0, i as int).lemma_filter_push(entries@[i as int], pair_other_than::<Row>(id));
            assert(entries@.subrange(0, i + 1) == entries@.subrange(0, i as int).push(entries@[i as int]));
        }
        if entries[i].0 != id {
            let row = entries[i].1.copy_row();
            r.push((entries[i].0, row));
        }
        i += 1;
    }
    assert(entries@.subrange(0, entries.len() as int) == entries@);
    r
}

proof fn lemma_copied_keys<Row: CopyRow>(s: Seq<(IdOrNew, Row)>, t: Seq<(IdOrNew, Row)>)
    requires
        copied_entries(s, t),
        keys_unique(s),
    ensures
        keys_unique(t),
        keys_of(t) == keys_of(s),
{
    assert(keys_of(t) =~= keys_of(s));
}

impl<Row: CopyRow> TreeModel<Row> {
    /// The tree without `id`: gone from the roots, the entries and every child list. Its own
    /// child list stays, as it was.
    pub fn remove(&self, id: &IdOrNew) -> (r: Self)
        ensures
            r.roots_view() == without(self.roots_view(), *id),
            r.entries_view() == self.entries_view().filter(pair_other_than(*id)),
            r.children_view() == lists_without(self.children_view(), *id),
    {
        proof { use_type_invariant(self); }
        let roots = keys_without(self.roots.as_slice(), *id);
        let entries = entries_without(&self.entries, *id);
        let children = lists_without_key(&self.children, *id);
        proof {
            lemma_filter_keys_unique(self.entries@, pair_other_than::<Row>(*id));
            lemma_copied_keys(self.entries@.filter(pair_other_than::<Row>(*id)), entries@);
            assert(entries@ =~= self.entries@.filter(pair_other_than::<Row>(*id)));
            assert(keys_of(lists_view(children@)) =~= keys_of(lists_view(self.children@)));
        }
        TreeModel { roots, entries, children }
    }
}

impl<Row> TreeModel<Row> {
    /// The siblings with the two switching ones exchanged: each occurrence of the first becomes
    /// the second and the other way round.
    pub fn exchange_siblings_in_list(switching_siblings: [IdOrNew; 2], all_siblings: &[IdOrNew]) -> (r: Vec<IdOrNew>)
        ensures
            r@ == swapped(all_siblings@, switching_siblings[0], switching_siblings[1]),
    {
        let mut r: Vec<IdOrNew> = Vec::new();
        let mut i: usize = 0;
        while i < all_siblings.len()
            invariant
                i <= all_siblings.len(),
                r@ == swapped(all_siblings@.subrange(0, i as int), switching_siblings[0], switching_siblings[1]),
            decreases all_siblings.len() - i,
        {
            let k = all_siblings[i];
            let n = if k == switching_siblings[0] {
                switching_siblings[1]
            } else if k == switching_siblings[1] {
                switching_siblings[0]
            } else {
                k
            };
            r.push(n);
            assert(all_siblings@.subrange(0, i + 1) == all_siblings@.subrange(0, i as int).push(k));
            i += 1;
        }
        assert(all_siblings@.subrange(0, all_siblings.len() as int) == all_siblings@);
        r
    }

    /// The list with `parent`'s child keys exchanged as `exchange_siblings_in_list` does.
    fn lists_with_swap(children: &Vec<(IdOrNew, Vec<IdOrNew>)>, parent: IdOrNew, siblings: [IdOrNew; 2]) -> (r: Vec<(IdOrNew, Vec<IdOrNew>)>)
        ensures
            lists_view(r@) == lists_swapped(lists_view(children@), parent, siblings[0], siblings[1]),
    {
        let mut r: Vec<(IdOrNew, Vec<IdOrNew>)> = Vec::new();
        let mut i: usize = 0;
        while i < children.len()
            invariant
                i <= children.len(),
                r.len() == i,
                forall|j: int| 0 <= j < i ==> #[trigger] r@[j].0 == children@[j].0 && r@[j].1@ == (
                    if children@[j].0 == parent { swapped(children@[j].1@, siblings[0], siblings[1]) } else { children@[j].1@ }),
            decreases children.len() - i,
        {
            let list = if children[i].0 == parent {
                Self::exchange_siblings_in_list(siblings, children[i].1.as_slice())
            } else {
                copy_keys(children[i].1.as_slice())
            };
            let ghost lv = list@;
            let ghost before = r@;
            r.push((children[i].0, list));
            assert(r@[i as int].1@ == lv);
            assert(forall|j: int| 0 <= j < i ==> r@[j] == before[j]);
            i += 1;
        }
        assert(lists_view(r@) =~= lists_swapped(lists_view(children@), parent, siblings[0], siblings[1]));
        r
    }
}

/// A copy of the keys.
pub(crate) fn copy_keys(keys: &[IdOrNew]) -> (r: Vec<IdOrNew>)
    ensures
        r@ == keys@,
{
    let mut r: Vec<IdOrNew> = Vec::new();
    let mut i: usize = 0;
    while i < keys.len()
        invariant
            i <= keys.len(),
            r@ == keys@.subrange(0, i as int),
        decreases keys.len() - i,
    {
        r.push(keys[i]);
        i += 1;
    }
    assert(keys@.subrange(0, keys.len() as int) == keys@);
    r
}

/// A copy of the child lists.
pub(crate) fn copy_lists(children: &Vec<(IdOrNew, Vec<IdOrNew>)>) -> (r: Vec<(IdOrNew, Vec<IdOrNew>)>)
    ensures
        lists_view(r@) == lists_view(children@),
{
    let mut r: Vec<(IdOrNew, Vec<IdOrNew>)> = Vec::new();
    let mut i: usize = 0;
    while i < children.len()
        invariant
            i <= children.len(),
            r.len() == i,
            forall|j: int| 0 <= j < i ==> #[trigger] r@[j].0 == children@[j].0 && r@[j].1@ == children@[j].1@,
        decreases children.len() - i,
    {
        let list = copy_keys(children[i].1.as_slice());
        r.push((children[i].0, list));
        i += 1;
    }
    assert(lists_view(r@) =~= lists_view(children@));
    r
}

/// The child lists with `entry` appended to `parent`'s list, or a new list for it.
fn lists_with_entry(children: Vec<(IdOrNew, Vec<IdOrNew>)>, parent: IdOrNew, entry: IdOrNew) -> (r: Vec<(IdOrNew, Vec<IdOrNew>)>)
    requires
        keys_unique(lists_view(children@)),
    ensures
        lists_view(r@) == lists_appended(lists_view(children@), parent, entry),
        keys_unique(lists_view(r@)),
{
    let ghost old_lists = lists_view(children@);
    let mut r: Vec<(IdOrNew, Vec<IdOrNew>)> = Vec::new();
    let mut found = false;
    let mut i: usize = 0;
    while i < children.len()
        invariant
            i <= children.len(),
            r.len() == i,
            old_lists == lists_view(children@),
            found == keys_of(old_lists.subrange(0, i as int)).contains(parent),
            forall|j: int| #![trigger r@[j]] 0 <= j < i ==> r@[j].0 == children@[j].0 && r@[j].1@ == (
                if children@[j].0 == parent { children@[j].1@.push(entry) } else { children@[j].1@ }),
        decreases children.len() - i,
    {
        let mut list = copy_keys(children[i].1.as_slice());
        assert(list@ == children@[i as int].1@);
        if children[i].0 == parent {
            list.push(entry);
            found = true;
        }
        assert(list@ == if children@[i as int].0 == parent { children@[i as int].1@.push(entry) } else { children@[i as int].1@ });
        proof {
            let k = old_lists.subrange(0, i + 1);
            let p = keys_of(old_lists.subrange(0, i as int));
            assert(keys_of(k) =~= p.push(children@[i as int].0));
            if children@[i as int].0 == parent {
                assert(keys_of(k)[i as int] == parent);
            } else if keys_of(k).contains(parent) {
                let w = choose|w: int| 0 <= w < keys_of(k).len() && keys_of(k)[w] == parent;
                assert(p[w] == parent);
            }
        }
        let ghost lv = list@;
        let ghost before = r@;
        r.push((children[i].0, list));
        assert forall|j: int| #![trigger r@[j]] 0 <= j < i + 1 implies r@[j].0 == children@[j].0 && r@[j].1@ == (
            if children@[j].0 == parent { children@[j].1@.push(entry) } else { children@[j].1@ }) by {
            if j < i {
                assert(r@[j] == before[j]);
                assert(before[j].0 == children@[j].0);
                assert(before[j].1@ == (if children@[j].0 == parent { children@[j].1@.push(entry) } else { children@[j].1@ }));
            } else {
                assert(r@[j].0 == children@[j].0);
                assert(r@[j].1@ == lv);
            }
        }
        i += 1;
    }
    assert(old_lists.subrange(0, children.len() as int) == old_lists);
    if !found {
        let mut list: Vec<IdOrNew> = Vec::new();
        list.push(entry);
        let ghost before = r@;
        r.push((parent, list));
        proof {
            assert forall|j: int| 0 <= j < children@.len() implies children@[j].0 != parent by {
                assert(keys_of(old_lists)[j] == children@[j].0);
            }
            assert(lists_view(before) =~= old_lists);
            assert(lists_view(r@) =~= old_lists.push((parent, seq![entry])));
            assert forall|i: int, j: int| 0 <= i < j < lists_view(r@).len() implies lists_view(r@)[i].0 != lists_view(r@)[j].0 by {
                if j == lists_view(r@).len() - 1 {
                    assert(keys_of(old_lists)[i] == old_lists[i].0);
                    assert(lists_view(r@)[i] == old_lists[i]);
                    if old_lists[i].0 == parent {
                        assert(keys_of(old_lists).contains(parent));
                    }
                } else {
                    assert(lists_view(r@)[i] == old_lists[i]);
                    assert(lists_view(r@)[j] == old_lists[j]);
                }
            }
        }
    } else {
        proof {
            assert(lists_view(r@) =~= old_lists.map_values(append_to(parent, entry)));
        }
    }
    r
}

impl<Row: CopyRow> TreeModel<Row> {
    /// The tree with the two siblings exchanged in the child list of `parent`, or among the
    /// roots without a parent.
    pub fn exchange_siblings(&self, parent: Option<IdOrNew>, siblings: [IdOrNew; 2]) -> (r: Self)
        ensures
            r.roots_view() == match parent {
                Some(_) => self.roots_view(),
                None => swapped(self.roots_view(), siblings[0], siblings[1]),
            },
            r.children_view() == match parent {
                Some(p) => lists_swapped(self.children_view(), p, siblings[0], siblings[1]),
                None => self.children_view(),
            },
            r.entries_view() == self.entries_view(),
    {
        proof { use_type_invariant(self); }
        let (children, roots) = match parent {
            Some(p) => (Self::lists_with_swap(&self.children, p, siblings), copy_keys(self.roots.as_slice())),
            None => (copy_lists(&self.children), Self::exchange_siblings_in_list(siblings, self.roots.as_slice())),
        };
        let entries = copy_entries(&self.entries);
        proof {
            lemma_copied_keys(self.entries@, entries@);
            assert(entries@ =~= self.entries@);
            assert(keys_of(lists_view(children@)) =~= keys_of(lists_view(self.children@)));
        }
        TreeModel { roots, entries, children }
    }

    /// The tree with `entry` moved to the end of `new_parent`'s child list, or of the roots
    /// without a new parent; it is taken out of the roots and every child list first.
    pub fn new_parent(&self, entry: IdOrNew, new_parent: Option<IdOrNew>) -> (r: Self)
        ensures
            r.roots_view() == match new_parent {
                Some(_) => without(self.roots_view(), entry),
                None => without(self.roots_view(), entry).push(entry),
            },
            r.children_view() == match new_parent {
                Some(p) => lists_appended(lists_without(self.children_view(), entry), p, entry),
                None => lists_without(self.children_view(), entry),
            },
            r.entries_view() == self.entries_view(),
    {
        proof { use_type_invariant(self); }
        let mut roots = keys_without(self.roots.as_slice(), entry);
        let children = lists_without_key(&self.children, entry);
        proof {
            assert(keys_of(lists_view(children@)) =~= keys_of(lists_view(self.children@)));
        }
        let children = match new_parent {
            Some(p) => lists_with_entry(children, p, entry),
            None => {
                roots.push(entry);
                children
            },
        };
        let entries = copy_entries(&self.entries);
        proof {
            lemma_copied_keys(self.entries@, entries@);
            assert(entries@ =~= self.entries@);
        }
        TreeModel { roots, entries, children }
    }
}

/// A row of the table showing a tree: the entry, its depth (roots at 1), whether it can be
/// expanded (has children) and is, its parent and the sibling just before it.
#[derive(Copy, Clone, Debug, PartialEq, Eq, Structural)]
pub struct TreeRow {
    pub level: u8,
    pub expanded: bool,
    pub expandable: bool,
    pub key: IdOrNew,
    pub parent_key: Option<IdOrNew>,
    pub previous_sibling: Option<IdOrNew>,
}

/// The child list of `k` (the first one, there is one at most).
pub open spec fn lookup(c: Seq<(IdOrNew, Seq<IdOrNew>)>, k: IdOrNew) -> Option<Seq<IdOrNew>>
    decreases c.len(),
{
    if c.len() == 0 {
        None
    } else if c[0].0 == k {
        Some(c[0].1)
    } else {
        lookup(c.drop_first(), k)
    }
}

/// Whether `k` has a child list that isn't empty.
pub open spec fn has_children(c: Seq<(IdOrNew, Seq<IdOrNew>)>, k: IdOrNew) -> bool {
    lookup(c, k) matches Some(l) && l.len() > 0
}

/// The rows of the subtree of `entry` at `level`: its own row, then, if it has children and
/// is expanded, those of its children one level deeper.
pub open spec fn subtree_rows(
    c: Seq<(IdOrNew, Seq<IdOrNew>)>,
    open: Set<IdOrNew>,
    level: int,
    parent: Option<IdOrNew>,
    entry: IdOrNew,
    prev: Option<IdOrNew>,
) -> Seq<TreeRow>
    decreases 255 - level, 0int, 0int,
{
    if has_children(c, entry) {
        let expanded = open.contains(entry);
        let head = seq![TreeRow { level: level as u8, expanded, expandable: true, key: entry, parent_key: parent, previous_sibling: prev }];
        if expanded && level < 255 {
            head + list_rows(c, open, level + 1, Some(entry), lookup(c, entry).unwrap(), None)
        } else {
            head
        }
    } else {
        seq![TreeRow { level: level as u8, expanded: false, expandable: false, key: entry, parent_key: parent, previous_sibling: prev }]
    }
}

/// The rows of the subtrees of `keys` in order, each key the previous sibling of the next.
pub open spec fn list_rows(
    c: Seq<(IdOrNew, Seq<IdOrNew>)>,
    open: Set<IdOrNew>,
    level: int,
    parent: Option<IdOrNew>,
    keys: Seq<IdOrNew>,
    prev: Option<IdOrNew>,
) -> Seq<TreeRow>
    decreases 255 - level, 1int, keys.len(),
{
    if keys.len() == 0 {
        seq![]
    } else {
        subtree_rows(c, open, level, parent, keys[0], prev) + list_rows(c, open, level, parent, keys.drop_first(), Some(keys[0]))
    }
}

/// The expanded subtree of `entry` at `level` stays within 255 levels (deeper the row's level
/// would overflow); it also rules out expanded cycles, which never end.
pub open spec fn fits(c: Seq<(IdOrNew, Seq<IdOrNew>)>, open: Set<IdOrNew>, level: int, entry: IdOrNew) -> bool
    decreases 255 - level,
{
    has_children(c, entry) && open.contains(entry) ==> {
        &&& level < 255
        &&& forall|i: int| 0 <= i < lookup(c, entry).unwrap().len() ==> fits(c, open, level + 1, #[trigger] lookup(c, entry).unwrap()[i])
    }
}

proof fn lemma_list_rows_prefix(
    c: Seq<(IdOrNew, Seq<IdOrNew>)>,
    open: Set<IdOrNew>,
    level: int,
    parent: Option<IdOrNew>,
    keys: Seq<IdOrNew>,
    prev: Option<IdOrNew>,
    i: int,
)
    requires
        0 <= i < keys.len(),
    ensures
        list_rows(c, open, level, parent, keys.subrange(0, i + 1), prev) == list_rows(c, open, level, parent, keys.subrange(0, i), prev)
            + subtree_rows(c, open, level, parent, keys[i], if i == 0 { prev } else { Some(keys[i - 1]) }),
    decreases i,
{
    let k1 = keys.subrange(0, i + 1);
    assert(k1[0] == keys[0]);
    if i == 0 {
        assert(k1.drop_first() =~= Seq::<IdOrNew>::empty());
        assert(keys.subrange(0, 0) =~= Seq::<IdOrNew>::empty());
        let t = subtree_rows(c, open, level, parent, keys[0], prev);
        assert(list_rows(c, open, level, parent, k1, prev) == t + list_rows(c, open, level, parent, k1.drop_first(), Some(keys[0])));
        assert(list_rows(c, open, level, parent, Seq::<IdOrNew>::empty(), Some(keys[0])) == Seq::<TreeRow>::empty());
        assert(list_rows(c, open, level, parent, Seq::<IdOrNew>::empty(), prev) == Seq::<TreeRow>::empty());
        assert(t + Seq::<TreeRow>::empty() =~= Seq::<TreeRow>::empty() + t);
    } else {
        let rest = keys.drop_first();
        let k0 = keys.subrange(0, i);
        lemma_list_rows_prefix(c, open, level, parent, rest, Some(keys[0]), i - 1);
        assert(k1.drop_first() =~= rest.subrange(0, i));
        assert(k0.drop_first() =~= rest.subrange(0, i - 1));
        assert(k0[0] == keys[0]);
        assert(rest[i - 1] == keys[i]);
        if i > 1 {
            assert(rest[i - 2] == keys[i - 1]);
        }
        let head = subtree_rows(c, open, level, parent, keys[0], prev);
        let a = list_rows(c, open, level, parent, rest.subrange(0, i - 1), Some(keys[0]));
        let b = subtree_rows(c, open, level, parent, keys[i], if i == 0 { prev } else { Some(keys[i - 1]) });
        assert(list_rows(c, open, level, parent, k1, prev) == head + list_rows(c, open, level, parent, k1.drop_first(), Some(keys[0])));
        assert(list_rows(c, open, level, parent, k0, prev) == head + list_rows(c, open, level, parent, k0.drop_first(), Some(keys[0])));
        assert(head + (a + b) == (head + a) + b);
    }
}

/// The child list of `k`, if it has one.
fn find_children(children: &Vec<(IdOrNew, Vec<IdOrNew>)>, k: IdOrNew) -> (r: Option<&Vec<IdOrNew>>)
    ensures
        match r {
            Some(l) => lookup(lists_view(children@), k) == Some(l@),
            None => lookup(lists_view(children@), k) is None,
        },
{
    let ghost c = lists_view(children@);
    let mut i: usize = 0;
    assert(c.subrange(0, c.len() as int) == c);
    while i < children.len()
        invariant
            i <= children.len(),
            c == lists_view(children@),
            lookup(c, k) == lookup(c.subrange(i as int, c.len() as int), k),
        decreases children.len() - i,
    {
        let ghost rest = c.subrange(i as int, c.len() as int);
        assert(rest[0] == c[i as int]);
        if children[i].0 == k {
            return Some(&children[i].1);
        }
        assert(rest.drop_first() =~= c.subrange(i + 1, c.len() as int));
        i += 1;
    }
    assert(c.subrange(i as int, c.len() as int) =~= Seq::<(IdOrNew, Seq<IdOrNew>)>::empty());
    None
}

/// Appends the rows of the subtree of `entry` (its own, then its children's if it is
/// expanded).
fn append_tree(
    result: &mut Vec<TreeRow>,
    level: u8,
    states: &TreeState,
    parent_key: Option<IdOrNew>,
    entry: IdOrNew,
    children: &Vec<(IdOrNew, Vec<IdOrNew>)>,
    previous_sibling: Option<IdOrNew>,
)
    requires
        fits(lists_view(children@), states@, level as int, entry),
    ensures
        final(result)@ == old(result)@ + subtree_rows(lists_view(children@), states@, level as int, parent_key, entry, previous_sibling),
    decreases 255 - level, 0int, 0int,
{
    let ghost c = lists_view(children@);
    let ghost start = result@;
    match find_children(children, entry) {
        Some(children_of_entry) if children_of_entry.len() > 0 => {
            let expanded = states.is_open(&entry);
            result.push(TreeRow { level, expanded, expandable: true, key: entry, parent_key, previous_sibling });
            if expanded {
                let ghost head = result@;
                let ghost keys = children_of_entry@;
                let mut previous: Option<IdOrNew> = None;
                let mut i: usize = 0;
                proof {
                    assert(lookup(c, entry).unwrap() == keys);
                    assert forall|j: int| 0 <= j < keys.len() implies fits(c, states@, level + 1, #[trigger] keys[j]) by {
                        assert(keys[j] == lookup(c, entry).unwrap()[j]);
                    }
                    assert(keys.subrange(0, 0) =~= Seq::<IdOrNew>::empty());
                    assert(head =~= head + Seq::<TreeRow>::empty());
                }
                while i < children_of_entry.len()
                    invariant
                        i <= children_of_entry.len(),
                        keys == children_of_entry@,
                        c == lists_view(children@),
                        lookup(c, entry) == Some(keys),
                        level < 255,
                        states@.contains(entry),
                        forall|j: int| 0 <= j < keys.len() ==> fits(c, states@, level + 1, #[trigger] keys[j]),
                        previous == if i == 0 { None } else { Some(keys[i - 1]) },
                        result@ == head + list_rows(c, states@, level + 1, Some(entry), keys.subrange(0, i as int), None),
                    decreases children_of_entry.len() - i,
                {
                    let child_entry = children_of_entry[i];
                    proof {
                        lemma_list_rows_prefix(c, states@, level + 1, Some(entry), keys, None, i as int);
                    }
                    append_tree(result, level + 1, states, Some(entry), child_entry, children, previous);
                    previous = Some(child_entry);
                    i += 1;
                }
                assert(keys.subrange(0, keys.len() as int) == keys);
            }
        },
        _ => {
            result.push(TreeRow { level, expanded: false, expandable: false, key: entry, parent_key, previous_sibling });
        },
    }
}

impl<Row> TreeModel<Row> {
    /// The expanded subtrees of all roots stay within 255 levels.
    pub open spec fn rows_fit(&self, open: Set<IdOrNew>) -> bool {
        forall|i: int| 0 <= i < self.roots_view().len() ==> fits(self.children_view(), open, 1, #[trigger] self.roots_view()[i])
    }

    /// The rows the table shows: each root and, below the expanded entries, their children,
    /// depth first.
    pub open spec fn rows_view(&self, open: Set<IdOrNew>) -> Seq<TreeRow> {
        list_rows(self.children_view(), open, 1, None, self.roots_view(), None)
    }

    /// The rows the table shows for the expanded entries of `state`.
    pub fn rows(&self, state: &TreeState) -> (r: Vec<TreeRow>)
        requires
            self.rows_fit(state@),
        ensures
            r@ == self.rows_view(state@),
    {
        let ghost c = lists_view(self.children@);
        let ghost keys = self.roots@;
        let mut result: Vec<TreeRow> = Vec::new();
        let mut previous_sibling: Option<IdOrNew> = None;
        let mut i: usize = 0;
        while i < self.roots.len()
            invariant
                i <= self.roots.len(),
                keys == self.roots@,
                c == lists_view(self.children@),
                self.rows_fit(state@),
                previous_sibling == if i == 0 { None } else { Some(keys[i - 1]) },
                result@ == list_rows(c, state@, 1, None, keys.subrange(0, i as int), None),
            decreases self.roots.len() - i,
        {
            let root_key = self.roots[i];
            proof {
                assert(fits(c, state@, 1, self.roots_view()[i as int]));
                lemma_list_rows_prefix(c, state@, 1, None, keys, None, i as int);
                assert(Seq::<TreeRow>::empty() + list_rows(c, state@, 1, None, keys.subrange(0, i as int), None) == list_rows(c, state@, 1, None, keys.subrange(0, i as int), None));
            }
            append_tree(&mut result, 1, state, None, root_key, &self.children, previous_sibling);
            previous_sibling = Some(root_key);
            i += 1;
        }
        assert(keys.subrange(0, keys.len() as int) == keys);
        result
    }
}

/// Which entries of a tree are expanded.
pub struct TreeState {
    open_parents: Vec<IdOrNew>,
}

impl View for TreeState {
    type V = Set<IdOrNew>;

    /// The expanded entries.
    closed spec fn view(&self) -> Set<IdOrNew> {
        Set::new(|k: IdOrNew| self.open_parents@.contains(k))
    }
}

impl Default for TreeState {
    /// Nothing expanded.
    fn default() -> (r: TreeState)
        ensures
            r@ == Set::<IdOrNew>::empty(),
    {
        let r = TreeState { open_parents: Vec::new() };
        assert(r@ =~= Set::<IdOrNew>::empty());
        r
    }
}

impl TreeState {
    /// Expands `k`.
    pub fn open(&mut self, k: IdOrNew)
        ensures
            final(self)@ == old(self)@.insert(k),
    {
        if !self.is_open(&k) {
            self.open_parents.push(k);
        }
        assert(self@ =~= old(self)@.insert(k));
    }

    /// Collapses `k`.
    pub fn close(&mut self, k: IdOrNew)
        ensures
            final(self)@ == old(self)@.remove(k),
    {
        let rest = keys_without(self.open_parents.as_slice(), k);
        self.open_parents = rest;
        proof {
            assert forall|x: IdOrNew| self@.contains(x) <==> old(self)@.remove(k).contains(x) by {
                if old(self).open_parents@.contains(x) && x != k {
                    let i = choose|i: int| 0 <= i < old(self).open_parents@.len() && old(self).open_parents@[i] == x;
                    old(self).open_parents@.lemma_filter_contains(other_than(k), i);
                }
                if self.open_parents@.contains(x) {
                    old(self).open_parents@.lemma_filter_contains_rev(other_than(k), x);
                    let i = choose|i: int| 0 <= i < self.open_parents@.len() && self.open_parents@[i] == x;
                    old(self).open_parents@.lemma_filter_pred(other_than(k), i);
                }
            }
        }
        assert(self@ =~= old(self)@.remove(k));
    }

    /// Expands `k` if it is collapsed, collapses it if it is expanded.
    pub fn toggle(&mut self, k: IdOrNew)
        ensures
            final(self)@ == toggled(old(self)@, k),
    {
        if self.is_open(&k) {
            self.close(k);
        } else {
            self.open(k);
        }
    }

    /// Whether `k` is expanded.
    pub fn is_open(&self, k: &IdOrNew) -> (r: bool)
        ensures
            r == self@.contains(*k),
    {
        let mut i: usize = 0;
        while i < self.open_parents.len()
            invariant
                i <= self.open_parents.len(),
                forall|j: int| 0 <= j < i ==> self.open_parents@[j] != *k,
            decreases self.open_parents.len() - i,
        {
            if self.open_parents[i] == *k {
                return true;
            }
            i += 1;
        }
        false
    }
}

/// `k` expanded if it was collapsed and collapsed if it was expanded.
pub open spec fn toggled(s: Set<IdOrNew>, k: IdOrNew) -> Set<IdOrNew> {
    if s.contains(k) {
        s.remove(k)
    } else {
        s.insert(k)
    }
}

/// Toggling an entry twice leaves the expanded entries as they were.
pub proof fn law_toggle_twice(s: Set<IdOrNew>, k: IdOrNew)
    ensures
        toggled(toggled(s, k), k) == s,
{
    assert(toggled(toggled(s, k), k) =~= s);
}

/// `k` no longer occurs once it is filtered out.
pub proof fn lemma_count_without(s: Seq<IdOrNew>, k: IdOrNew)
    ensures
        count(without(s, k), k) == 0,
        !without(s, k).contains(k),
{
    let w = without(s, k);
    assert(w.filter(equal_to(k)) =~= Seq::<IdOrNew>::empty()) by {
        if w.filter(equal_to(k)).len() > 0 {
            let f = w.filter(equal_to(k));
            w.lemma_filter_pred(equal_to(k), 0);
            assert(f.contains(f[0]));
            w.lemma_filter_contains_rev(equal_to(k), f[0]);
            let i = choose|i: int| 0 <= i < w.len() && w[i] == f[0];
            s.lemma_filter_pred(other_than(k), i);
        }
    }
    if w.contains(k) {
        let i = choose|i: int| 0 <= i < w.len() && w[i] == k;
        s.lemma_filter_pred(other_than(k), i);
    }
}

/// Appending `k` adds one occurrence.
pub proof fn lemma_count_push(s: Seq<IdOrNew>, k: IdOrNew)
    ensures
        count(s.push(k), k) == count(s, k) + 1,
{
    s.lemma_filter_push(k, equal_to(k));
}

pub proof fn lemma_count_lists_without(c: Seq<(IdOrNew, Seq<IdOrNew>)>, k: IdOrNew)
    ensures
        count_in_lists(lists_without(c, k), k) == 0,
    decreases c.len(),
{
    if c.len() > 0 {
        lemma_count_lists_without(c.drop_last(), k);
        assert(lists_without(c, k).drop_last() =~= lists_without(c.drop_last(), k));
        lemma_count_without(c.last().1, k);
    }
}

/// Appending `e` to one list adds one occurrence among all lists.
pub proof fn lemma_count_lists_appended(c: Seq<(IdOrNew, Seq<IdOrNew>)>, p: IdOrNew, e: IdOrNew)
    requires
        keys_unique(c),
    ensures
        count_in_lists(lists_appended(c, p, e), e) == count_in_lists(c, e) + 1,
    decreases c.len(),
{
    let f = append_to(p, e);
    if keys_of(c).contains(p) {
        let d = c.drop_last();
        assert(keys_unique(d));
        assert(c.map_values(f).drop_last() =~= d.map_values(f));
        if c.last().0 == p {
            lemma_count_push(c.last().1, e);
            assert forall|i: int| 0 <= i < d.len() implies d[i].0 != p by {}
            assert(d.map_values(f) =~= d);
        } else {
            let w = choose|w: int| 0 <= w < keys_of(c).len() && keys_of(c)[w] == p;
            assert(keys_of(d)[w] == p);
            lemma_count_lists_appended(d, p, e);
        }
    } else {
        assert(lists_appended(c, p, e).drop_last() =~= c);
        lemma_count_push(Seq::<IdOrNew>::empty(), e);
        assert(Seq::<IdOrNew>::empty().push(e) =~= seq![e]);
        assert(count(Seq::<IdOrNew>::empty(), e) == 0) by {
            reveal(Seq::filter);
        }
    }
}

/// Removing an entry leaves no trace of it: it is no longer among the roots, the entries or
/// any child list.
pub proof fn law_remove_leaves_no_trace<Row>(t: TreeModel<Row>, id: IdOrNew)
    ensures
        !without(t.roots_view(), id).contains(id),
        !keys_of(t.entries_view().filter(pair_other_than(id))).contains(id),
        count_in_lists(lists_without(t.children_view(), id), id) == 0,
{
    lemma_count_without(t.roots_view(), id);
    lemma_count_lists_without(t.children_view(), id);
    let f = t.entries_view().filter(pair_other_than::<Row>(id));
    if keys_of(f).contains(id) {
        let i = choose|i: int| 0 <= i < keys_of(f).len() && keys_of(f)[i] == id;
        t.entries_view().lemma_filter_pred(pair_other_than::<Row>(id), i);
    }
}

/// Exchanging the same two siblings twice gives the tree back.
pub proof fn law_exchange_twice(roots: Seq<IdOrNew>, children: Seq<(IdOrNew, Seq<IdOrNew>)>, parent: IdOrNew, a: IdOrNew, b: IdOrNew)
    ensures
        swapped(swapped(roots, a, b), a, b) == roots,
        lists_swapped(lists_swapped(children, parent, a, b), parent, a, b) == children,
{
    assert(swapped(swapped(roots, a, b), a, b) =~= roots);
    assert forall|i: int| 0 <= i < children.len() implies #[trigger] lists_swapped(lists_swapped(children, parent, a, b), parent, a, b)[i] == children[i] by {
        if children[i].0 == parent {
            assert(swapped(swapped(children[i].1, a, b), a, b) =~= children[i].1);
        }
    }
    assert(lists_swapped(lists_swapped(children, parent, a, b), parent, a, b) =~= children);
}

/// After moving an entry to a new parent (or to the roots) it occurs exactly once among the
/// roots and the child lists, at the end of the new parent's list (or of the roots).
pub proof fn law_new_parent_once(roots: Seq<IdOrNew>, children: Seq<(IdOrNew, Seq<IdOrNew>)>, entry: IdOrNew, new_parent: Option<IdOrNew>)
    requires
        keys_unique(children),
    ensures
        ({
            let r = match new_parent {
                Some(_) => without(roots, entry),
                None => without(roots, entry).push(entry),
            };
            let c = match new_parent {
                Some(p) => lists_appended(lists_without(children, entry), p, entry),
                None => lists_without(children, entry),
            };
            count(r, entry) + count_in_lists(c, entry) == 1
        }),
{
    lemma_count_without(roots, entry);
    lemma_count_lists_without(children, entry);
    match new_parent {
        Some(p) => {
            let w = lists_without(children, entry);
            assert(keys_of(w) =~= keys_of(children));
            lemma_count_lists_appended(w, p, entry);
        },
        None => {
            lemma_count_push(without(roots, entry), entry);
        },
    }
}


/// A key other than `e` occurs as often without `e` as before.
pub proof fn lemma_count_without_other(s: Seq<IdOrNew>, e: IdOrNew, k: IdOrNew)
    requires
        k != e,
    ensures
        count(without(s, e), k) == count(s, k),
    decreases s.len(),
{
    if s.len() == 0 {
        assert(without(s, e) =~= s);
    } else {
        let d = s.drop_last();
        let x = s.last();
        lemma_count_without_other(d, e, k);
        assert(s =~= d.push(x));
        d.lemma_filter_push(x, other_than(e));
        d.lemma_filter_push(x, equal_to(k));
        without(d, e).lemma_filter_push(x, equal_to(k));
    }
}

/// Appending `e` leaves the count of another key alone.
pub proof fn lemma_count_push_other(s: Seq<IdOrNew>, e: IdOrNew, k: IdOrNew)
    requires
        k != e,
    ensures
        count(s.push(e), k) == count(s, k),
{
    s.lemma_filter_push(e, equal_to(k));
}

/// A key other than `e` occurs as often among the lists without `e` as before.
pub proof fn lemma_count_lists_without_other(c: Seq<(IdOrNew, Seq<IdOrNew>)>, e: IdOrNew, k: IdOrNew)
    requires
        k != e,
    ensures
        count_in_lists(lists_without(c, e), k) == count_in_lists(c, k),
    decreases c.len(),
{
    if c.len() > 0 {
        lemma_count_lists_without_other(c.drop_last(), e, k);
        assert(lists_without(c, e).drop_last() =~= lists_without(c.drop_last(), e));
        lemma_count_without_other(c.last().1, e, k);
    }
}

/// Appending `e` to the list of `p` in each list leaves the count of another key alone.
proof fn lemma_count_lists_mapped_other(c: Seq<(IdOrNew, Seq<IdOrNew>)>, p: IdOrNew, e: IdOrNew, k: IdOrNew)
    requires
        k != e,
    ensures
        count_in_lists(c.map_values(append_to(p, e)), k) == count_in_lists(c, k),
    decreases c.len(),
{
    if c.len() > 0 {
        let f = append_to(p, e);
        lemma_count_lists_mapped_other(c.drop_last(), p, e, k);
        assert(c.map_values(f).drop_last() =~= c.drop_last().map_values(f));
        if c.last().0 == p {
            lemma_count_push_other(c.last().1, e, k);
        }
    }
}

/// Appending `e` to the list of `p` leaves the count of another key among all lists alone.
pub proof fn lemma_count_lists_appended_other(c: Seq<(IdOrNew, Seq<IdOrNew>)>, p: IdOrNew, e: IdOrNew, k: IdOrNew)
    requires
        k != e,
    ensures
        count_in_lists(lists_appended(c, p, e), k) == count_in_lists(c, k),
{
    if keys_of(c).contains(p) {
        lemma_count_lists_mapped_other(c, p, e, k);
    } else {
        assert(lists_appended(c, p, e).drop_last() =~= c);
        lemma_count_push_other(Seq::<IdOrNew>::empty(), e, k);
        assert(Seq::<IdOrNew>::empty().push(e) =~= seq![e]);
        assert(count(Seq::<IdOrNew>::empty(), k) == 0) by {
            reveal(Seq::filter);
        }
    }
}

/// Moving an entry to a new parent (or to the roots) leaves every other key where it was
/// counted: it occurs among the roots and the child lists exactly as often as before. So a tree
/// in which each key has at most one place keeps that property.
pub proof fn law_new_parent_keeps_others(
    roots: Seq<IdOrNew>,
    children: Seq<(IdOrNew, Seq<IdOrNew>)>,
    entry: IdOrNew,
    new_parent: Option<IdOrNew>,
    k: IdOrNew,
)
    requires
        k != entry,
    ensures
        ({
            let r = match new_parent {
                Some(_) => without(roots, entry),
                None => without(roots, entry).push(entry),
            };
            let c = match new_parent {
                Some(p) => lists_appended(lists_without(children, entry), p, entry),
                None => lists_without(children, entry),
            };
            count(r, k) + count_in_lists(c, k) == count(roots, k) + count_in_lists(children, k)
        }),
{
    lemma_count_without_other(roots, entry, k);
    lemma_count_lists_without_other(children, entry, k);
    match new_parent {
        Some(p) => {
            lemma_count_lists_appended_other(lists_without(children, entry), p, entry, k);
        },
        None => {
            lemma_count_push_other(without(roots, entry), entry, k);
        },
    }
}

/// An event of a tree table: one of a row, or a row opened or closed.
#[derive(Debug, Clone, Copy, PartialEq, Eq)]
pub enum TreeTableMsg<RowMsg, Key> {
    RowEvent(RowMsg),
    ToogleRow(Key),
}


/// The row of the key at `i` of a collapsed list.
pub open spec fn collapsed_row(c: Seq<(IdOrNew, Seq<IdOrNew>)>, level: int, parent: Option<IdOrNew>, keys: Seq<IdOrNew>, prev: Option<IdOrNew>, i: int) -> TreeRow {
    TreeRow {
        level: level as u8,
        expanded: false,
        expandable: has_children(c, keys[i]),
        key: keys[i],
        parent_key: parent,
        previous_sibling: if i == 0 { prev } else { Some(keys[i - 1]) },
    }
}

proof fn lemma_rows_collapsed(c: Seq<(IdOrNew, Seq<IdOrNew>)>, level: int, parent: Option<IdOrNew>, keys: Seq<IdOrNew>, prev: Option<IdOrNew>)
    ensures
        list_rows(c, Set::empty(), level, parent, keys, prev).len() == keys.len(),
        forall|i: int|
            0 <= i < keys.len() ==> #[trigger] list_rows(c, Set::empty(), level, parent, keys, prev)[i] == collapsed_row(c, level, parent, keys, prev, i),
    decreases keys.len(),
{
    if keys.len() > 0 {
        let rest = keys.drop_first();
        lemma_rows_collapsed(c, level, parent, rest, Some(keys[0]));
        let rows = list_rows(c, Set::empty(), level, parent, keys, prev);
        let tail = list_rows(c, Set::empty(), level, parent, rest, Some(keys[0]));
        let head = subtree_rows(c, Set::empty(), level, parent, keys[0], prev);
        assert(head == seq![collapsed_row(c, level, parent, keys, prev, 0)]);
        assert(rows == head + tail);
        assert forall|i: int| 0 <= i < keys.len() implies #[trigger] rows[i] == collapsed_row(c, level, parent, keys, prev, i) by {
            if i > 0 {
                assert(rows[i] == tail[i - 1]);
                assert(rest[i - 1] == keys[i]);
                if i > 1 {
                    assert(rest[i - 2] == keys[i - 1]);
                }
            }
        }
    }
}

/// A top-level row of `key`, not expanded, after `prev`.
pub open spec fn top_row(row: TreeRow, key: IdOrNew, prev: Option<IdOrNew>) -> bool {
    &&& row.key == key
    &&& row.level == 1
    &&& !row.expanded
    &&& row.parent_key == None::<IdOrNew>
    &&& row.previous_sibling == prev
}

impl<Row> TreeModel<Row> {
    /// With nothing expanded the table shows the roots in order, each at the top level with no
    /// parent and the root before it as its previous sibling.
    pub proof fn law_collapsed_rows(&self)
        ensures
            self.rows_view(Set::empty()).len() == self.roots_view().len(),
            forall|i: int|
                0 <= i < self.roots_view().len() ==> top_row(
                    #[trigger] self.rows_view(Set::empty())[i],
                    self.roots_view()[i],
                    if i == 0 { None } else { Some(self.roots_view()[i - 1]) },
                ),
    {
        lemma_rows_collapsed(lists_view(self.children@), 1, None, self.roots@, None);
    }
}

} // verus!
