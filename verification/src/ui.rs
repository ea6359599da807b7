//! Decisions of the page elements: the keys of a popup menu, the colour of a fiber label and
//! the ducts a click on the cable map can add or remove.

use vstd::prelude::*;
use vstd::string::StringExecFns;
use crate::lists::MapDuctEnd;
use crate::schacht::CableSegmentEndSchacht;
use crate::text::{nat_text, push_nat, str_eq};

verus! {

/// What a key pressed in an open popup menu does.
#[derive(Debug, Clone, Copy, PartialEq, Eq, Structural)]
pub enum MenuKeyAction {
    /// Escape: close the menu and focus its toggle.
    Close,
    /// Move the focus to the entry at this index (none there: nothing is focused).
    Focus(usize),
    /// Any other key: nothing happens.
    Ignore,
}

/// The key's action in a menu of `count` entries with the entry at `current` focused: the arrow
/// keys move down and up (wrapping around), Home and End go to the first and last entry.
pub open spec fn key_action(key: Seq<char>, current: Option<usize>, count: usize) -> MenuKeyAction {
    let last = if count == 0 { usize::MAX } else { (count - 1) as usize };
    if key == "Escape"@ {
        MenuKeyAction::Close
    } else if key == "ArrowDown"@ {
        MenuKeyAction::Focus(
            match current {
                Some(i) => if i + 1 == count { 0 } else { (i + 1) as usize },
                None => 0,
            },
        )
    } else if key == "ArrowUp"@ {
        MenuKeyAction::Focus(
            match current {
                Some(i) => if i == 0 { last } else { (i - 1) as usize },
                None => last,
            },
        )
    } else if key == "Home"@ {
        MenuKeyAction::Focus(0)
    } else if key == "End"@ {
        MenuKeyAction::Focus(last)
    } else {
        MenuKeyAction::Ignore
    }
}

/// The action of a key pressed in an open menu, see `key_action`.
pub fn menu_key_action(key: &str, current: Option<usize>, count: usize) -> (r: MenuKeyAction)
    requires
        current matches Some(i) ==> i < count,
    ensures
        r == key_action(key@, current, count),
{
    let last: usize = if count == 0 { usize::MAX } else { count - 1 };
    if str_eq(key, "Escape") {
        MenuKeyAction::Close
    } else if str_eq(key, "ArrowDown") {
        MenuKeyAction::Focus(
            match current {
                Some(i) => if i + 1 == count { 0 } else { i + 1 },
                None => 0,
            },
        )
    } else if str_eq(key, "ArrowUp") {
        MenuKeyAction::Focus(
            match current {
                Some(i) => if i == 0 { count - 1 } else { i - 1 },
                None => last,
            },
        )
    } else if str_eq(key, "Home") {
        MenuKeyAction::Focus(0)
    } else if str_eq(key, "End") {
        MenuKeyAction::Focus(last)
    } else {
        MenuKeyAction::Ignore
    }
}

/// The colour of a fiber's label: fibers count in groups of twelve colours, from the 13th on
/// with a ring. Fiber 0 has no colour.
pub fn fiber_color(n: u8) -> (r: Option<(u8, bool)>)
    ensures
        r == if n == 0 { None } else { Some(((((n - 1) as int) % 12 + 1) as u8, n > 12)) },
{
    if n == 0 {
        None
    } else {
        Some((((n - 1) % 12) + 1, n > 12))
    }
}

/// The class of a fiber colour: "swisscom-fiber-{n}".
pub fn fiber_class(base: u8) -> (r: String)
    ensures
        r@ == "swisscom-fiber-"@ + nat_text(base as nat),
{
    let mut r = String::from_str("swisscom-fiber-");
    push_nat(&mut r, base as u64);
    r
}

/// An end of the cable's path.
#[derive(Debug, Clone, Copy, PartialEq, Eq, Structural)]
pub enum PathEnd {
    /// At `CablePath::near_schacht`
    Front,
    /// At the last segment's far Schacht
    Tail,
}

/// An end of a duct.
#[derive(Debug, Clone, Copy, PartialEq, Eq, Structural)]
pub enum DuctSide {
    A,
    Z,
}

/// A duct on the map by the ids of it and its ends.
#[derive(Debug, Clone, Copy, PartialEq, Eq, Structural)]
pub struct DuctEnds {
    pub id: i32,
    pub schacht_a: i32,
    pub schacht_z: i32,
}

/// What a click on a duct does to the path.
#[derive(Debug, Clone, Copy, PartialEq, Eq, Structural)]
pub enum ClickEdit {
    /// Add the duct at this end of the path; its other end (on this side of the duct) becomes
    /// the path's new end.
    Append { end: PathEnd, other: DuctSide },
    /// Remove the segment at this end.
    Remove(PathEnd),
    /// Start the path of a cable without one with this duct.
    Start,
}

/// A duct that reacts to a click: its index among the ducts, the edit and its tooltip.
#[derive(Debug, Clone, Copy, PartialEq, Eq)]
pub struct Clickable {
    pub duct: usize,
    pub edit: ClickEdit,
    pub text: &'static str,
}

/// The edit a click on the duct makes and its tooltip text, if any. `ends` are the path's front
/// and tail Schacht when it has segments; `path_ducts` are its ducts in order.
pub open spec fn duct_edit(ends: Option<(i32, i32)>, path_ducts: Seq<i32>, d: DuctEnds) -> Option<(ClickEdit, Seq<char>)> {
    match ends {
        None => Some((ClickEdit::Start, "Kabelweg hier beginnen"@)),
        Some((front, tail)) => if path_ducts.len() > 0 && d.id == path_ducts[0] {
            Some((ClickEdit::Remove(PathEnd::Front), "Segment entfernen"@))
        } else if path_ducts.len() > 0 && d.id == path_ducts.last() {
            Some((ClickEdit::Remove(PathEnd::Tail), "Segment entfernen"@))
        } else if path_ducts.contains(d.id) {
            None
        } else if d.schacht_a == tail {
            Some((ClickEdit::Append { end: PathEnd::Tail, other: DuctSide::Z }, "Segment hinzufügen"@))
        } else if d.schacht_z == tail {
            Some((ClickEdit::Append { end: PathEnd::Tail, other: DuctSide::A }, "Segment hinzufügen"@))
        } else if d.schacht_a == front {
            Some((ClickEdit::Append { end: PathEnd::Front, other: DuctSide::Z }, "Segment hinzufügen"@))
        } else if d.schacht_z == front {
            Some((ClickEdit::Append { end: PathEnd::Front, other: DuctSide::A }, "Segment hinzufügen"@))
        } else {
            None
        },
    }
}

/// The ducts that react to a click, in order.
pub open spec fn clickables(ends: Option<(i32, i32)>, path_ducts: Seq<i32>, ducts: Seq<DuctEnds>) -> Seq<(int, ClickEdit, Seq<char>)>
    decreases ducts.len(),
{
    if ducts.len() == 0 {
        seq![]
    } else {
        let rest = clickables(ends, path_ducts, ducts.drop_last());
        match duct_edit(ends, path_ducts, ducts.last()) {
            Some((edit, text)) => rest.push((ducts.len() - 1, edit, text)),
            None => rest,
        }
    }
}

/// Each duct with an edit is listed among the clickable ducts with its index.
proof fn lemma_clickables_contains(
    ends: Option<(i32, i32)>,
    path_ducts: Seq<i32>,
    ducts: Seq<DuctEnds>,
    i: int,
    e: ClickEdit,
    t: Seq<char>,
)
    requires
        0 <= i < ducts.len(),
        duct_edit(ends, path_ducts, ducts[i]) == Some((e, t)),
    ensures
        clickables(ends, path_ducts, ducts).contains((i, e, t)),
    decreases ducts.len(),
{
    let rest = ducts.drop_last();
    let c = clickables(ends, path_ducts, ducts);
    if i == ducts.len() - 1 {
        assert(c == clickables(ends, path_ducts, rest).push((i, e, t)));
        assert(c[c.len() - 1] == (i, e, t));
    } else {
        assert(rest[i] == ducts[i]);
        lemma_clickables_contains(ends, path_ducts, rest, i, e, t);
        let r = clickables(ends, path_ducts, rest);
        let j = choose|j: int| 0 <= j < r.len() && r[j] == (i, e, t);
        match duct_edit(ends, path_ducts, ducts.last()) {
            Some((e2, t2)) => assert(c[j] == (i, e, t)),
            None => assert(c[j] == (i, e, t)),
        }
    }
}

/// With a path of segments, the first duct of the path is offered for removal at the front,
/// also when it is the only one; the last duct, when it isn't also the first, is offered for
/// removal at the tail.
pub proof fn law_path_ends_removable(ends: Option<(i32, i32)>, path_ducts: Seq<i32>, ducts: Seq<DuctEnds>, i: int)
    requires
        ends is Some,
        path_ducts.len() > 0,
        0 <= i < ducts.len(),
    ensures
        ducts[i].id == path_ducts[0]
            ==> clickables(ends, path_ducts, ducts).contains((i, ClickEdit::Remove(PathEnd::Front), "Segment entfernen"@)),
        ducts[i].id == path_ducts[path_ducts.len() - 1] && ducts[i].id != path_ducts[0]
            ==> clickables(ends, path_ducts, ducts).contains((i, ClickEdit::Remove(PathEnd::Tail), "Segment entfernen"@)),
{
    if ducts[i].id == path_ducts[0] {
        lemma_clickables_contains(ends, path_ducts, ducts, i, ClickEdit::Remove(PathEnd::Front), "Segment entfernen"@);
    } else if ducts[i].id == path_ducts[path_ducts.len() - 1] {
        lemma_clickables_contains(ends, path_ducts, ducts, i, ClickEdit::Remove(PathEnd::Tail), "Segment entfernen"@);
    }
}

/// Without a path of segments every duct starts the path; with one, a duct not on the path
/// whose A end is the tail Schacht is offered to be added at the tail, its Z end becoming the
/// new tail.
pub proof fn law_start_and_extend(ends: Option<(i32, i32)>, path_ducts: Seq<i32>, ducts: Seq<DuctEnds>, i: int)
    requires
        0 <= i < ducts.len(),
    ensures
        ends is None ==> clickables(ends, path_ducts, ducts).contains((i, ClickEdit::Start, "Kabelweg hier beginnen"@)),
        (ends matches Some((front, tail)) && !path_ducts.contains(ducts[i].id) && ducts[i].schacht_a == tail)
            ==> clickables(ends, path_ducts, ducts).contains(
                (i, ClickEdit::Append { end: PathEnd::Tail, other: DuctSide::Z }, "Segment hinzufügen"@),
            ),
{
    match ends {
        None => {
            lemma_clickables_contains(ends, path_ducts, ducts, i, ClickEdit::Start, "Kabelweg hier beginnen"@);
        },
        Some((front, tail)) => {
            if !path_ducts.contains(ducts[i].id) && ducts[i].schacht_a == tail {
                if path_ducts.len() > 0 {
                    assert(path_ducts.contains(path_ducts[0]));
                    assert(path_ducts.contains(path_ducts[path_ducts.len() - 1]));
                }
                lemma_clickables_contains(
                    ends,
                    path_ducts,
                    ducts,
                    i,
                    ClickEdit::Append { end: PathEnd::Tail, other: DuctSide::Z },
                    "Segment hinzufügen"@,
                );
            }
        },
    }
}

fn contains_duct(ducts: &[i32], id: i32) -> (r: bool)
    ensures
        r == ducts@.contains(id),
{
    let mut i: usize = 0;
    while i < ducts.len()
        invariant
            i <= ducts.len(),
            forall|j: int| 0 <= j < i ==> ducts@[j] != id,
        decreases ducts.len() - i,
    {
        if ducts[i] == id {
            assert(ducts@[i as int] == id);
            return true;
        }
        i += 1;
    }
    false
}

fn edit_of(ends: Option<(i32, i32)>, path_ducts: &[i32], d: DuctEnds) -> (r: Option<(ClickEdit, &'static str)>)
    ensures
        match r {
            Some((e, t)) => duct_edit(ends, path_ducts@, d) == Some((e, t@)),
            None => duct_edit(ends, path_ducts@, d) is None,
        },
{
    match ends {
        None => Some((ClickEdit::Start, "Kabelweg hier beginnen")),
        Some((front, tail)) => {
            let n = path_ducts.len();
            if n > 0 && d.id == path_ducts[0] {
                Some((ClickEdit::Remove(PathEnd::Front), "Segment entfernen"))
            } else if n > 0 && d.id == path_ducts[n - 1] {
                Some((ClickEdit::Remove(PathEnd::Tail), "Segment entfernen"))
            } else if contains_duct(path_ducts, d.id) {
                None
            } else if d.schacht_a == tail {
                Some((ClickEdit::Append { end: PathEnd::Tail, other: DuctSide::Z }, "Segment hinzufügen"))
            } else if d.schacht_z == tail {
                Some((ClickEdit::Append { end: PathEnd::Tail, other: DuctSide::A }, "Segment hinzufügen"))
            } else if d.schacht_a == front {
                Some((ClickEdit::Append { end: PathEnd::Front, other: DuctSide::Z }, "Segment hinzufügen"))
            } else if d.schacht_z == front {
                Some((ClickEdit::Append { end: PathEnd::Front, other: DuctSide::A }, "Segment hinzufügen"))
            } else {
                None
            }
        },
    }
}

/// The entries list the clicks one for one.
pub open spec fn lists_clicks(r: Seq<Clickable>, c: Seq<(int, ClickEdit, Seq<char>)>) -> bool {
    &&& r.len() == c.len()
    &&& forall|j: int|
        0 <= j < r.len() ==> (#[trigger] r[j]).duct == c[j].0 && r[j].edit == c[j].1 && r[j].text@ == c[j].2
}

/// The ducts that react to a click while the path is edited: with a path of segments, its
/// first and last duct (removed at the front and the tail) and the ducts touching its tail or
/// front (added there, the tail first); without, every duct (starting the path).
pub fn clickable(ends: Option<(i32, i32)>, path_ducts: &[i32], ducts: &[DuctEnds]) -> (r: Vec<Clickable>)
    ensures
        lists_clicks(r@, clickables(ends, path_ducts@, ducts@)),
{
    let mut r: Vec<Clickable> = Vec::new();
    let mut i: usize = 0;
    while i < ducts.len()
        invariant
            i <= ducts.len(),
            lists_clicks(r@, clickables(ends, path_ducts@, ducts@.subrange(0, i as int))),
        decreases ducts.len() - i,
    {
        let ghost before = r@;
        let ghost prev = clickables(ends, path_ducts@, ducts@.subrange(0, i as int));
        let ghost sub = ducts@.subrange(0, i + 1);
        proof {
            assert(sub.drop_last() =~= ducts@.subrange(0, i as int));
            assert(sub.last() == ducts@[i as int]);
        }
        match edit_of(ends, path_ducts, ducts[i]) {
            Some((edit, text)) => {
                r.push(Clickable { duct: i, edit, text });
                proof {
                    let next = clickables(ends, path_ducts@, sub);
                    assert(next == prev.push((i as int, edit, text@)));
                    assert forall|j: int| 0 <= j < r@.len() implies (#[trigger] r@[j]).duct == next[j].0
                        && r@[j].edit == next[j].1 && r@[j].text@ == next[j].2 by {
                        if j < before.len() {
                            assert(r@[j] == before[j]);
                        }
                    }
                }
            },
            None => {
                proof {
                    assert(clickables(ends, path_ducts@, sub) == prev);
                }
            },
        }
        i += 1;
        proof {
            assert(ducts@.subrange(0, i as int) == sub);
        }
    }
    assert(ducts@.subrange(0, ducts@.len() as int) =~= ducts@);
    r
}

/// The Schacht at an end of a duct, as a path segment takes it.
pub fn end_schacht(end: &MapDuctEnd) -> (r: CableSegmentEndSchacht)
    ensures
        r.id == end.id,
        r.name == end.name,
{
    CableSegmentEndSchacht { id: end.id, name: end.name.clone() }
}

/// Data a map layer refers to, found again by its key.
pub trait ReferencedData {
    type Key;

    fn key_of(&self) -> Self::Key;
}

/// In a menu with entries, the down arrow and then the up arrow bring the focus back to the
/// entry it was on, and the other way round.
pub proof fn law_down_up_return(i: usize, count: usize)
    requires
        i < count,
    ensures
        key_action("ArrowDown"@, Some(i), count) matches MenuKeyAction::Focus(d) && d < count && key_action(
            "ArrowUp"@,
            Some(d),
            count,
        ) == MenuKeyAction::Focus(i),
        key_action("ArrowUp"@, Some(i), count) matches MenuKeyAction::Focus(u) && u < count && key_action(
            "ArrowDown"@,
            Some(u),
            count,
        ) == MenuKeyAction::Focus(i),
{
    reveal_strlit("Escape");
    reveal_strlit("ArrowDown");
    reveal_strlit("ArrowUp");
    assert("Escape"@.len() == 6 && "ArrowDown"@.len() == 9 && "ArrowUp"@.len() == 7);
}

} // verus!
