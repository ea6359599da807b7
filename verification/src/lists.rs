//! The small records the pages list and link, and how they are named: plans, roles, ducts,
//! Schacht types, cables, panels in menus, and the properties of the pages.

use vstd::prelude::*;
use vstd::string::StringExecFns;
use crate::ids::ParentChainPanel;
use crate::schacht::{order_le, CableSegmentEndSchacht};
use crate::text::{int_text, join, opt_str, opt_view, push_int, str_texts};

verus! {

/// How the frontend logs in: the OAuth client and its endpoints.
#[derive(Debug, Clone)]
pub struct AuthenticationData {
    pub client_id: String,
    pub token_url: String,
    pub auth_url: String,
}

#[derive(Debug, Clone)]
pub struct AuthenticationQuery {
    pub authentication: AuthenticationData,
}

/// What the user may do, each role includes the ones before it. Only decides what the frontend
/// shows, the backend checks every change itself.
#[derive(Debug, Clone, Copy, PartialEq, Eq, Structural, PartialOrd, Ord)]
pub enum Role {
    Reader,
    Planner,
    Admin,
}

impl Role {
    pub fn title(self) -> (r: &'static str)
        ensures
            r@ == match self {
                Role::Reader => "Leser"@,
                Role::Planner => "Planer"@,
                Role::Admin => "Admin"@,
            },
    {
        match self {
            Role::Reader => "Leser",
            Role::Planner => "Planer",
            Role::Admin => "Admin",
        }
    }

    /// What the role allows, for users asking why they can't do something
    pub fn description(self) -> (r: &'static str)
        ensures
            r@ == match self {
                Role::Reader => "Lesen und Etiketten drucken"@,
                Role::Planner => "Planen und Kabel, Panels und Ports ändern"@,
                Role::Admin => "Planungen umsetzen, nach Netbox übertragen und Kabel löschen"@,
            },
    {
        match self {
            Role::Reader => "Lesen und Etiketten drucken",
            Role::Planner => "Planen und Kabel, Panels und Ports ändern",
            Role::Admin => "Planungen umsetzen, nach Netbox übertragen und Kabel löschen",
        }
    }

    /// The rank of the role: each role includes those of lower rank.
    pub open spec fn rank(self) -> int {
        match self {
            Role::Reader => 0,
            Role::Planner => 1,
            Role::Admin => 2,
        }
    }

    /// The role includes `other`.
    pub fn includes(self, other: Role) -> (r: bool)
        ensures
            r == (self.rank() >= other.rank()),
    {
        let a: u8 = match self {
            Role::Reader => 0,
            Role::Planner => 1,
            Role::Admin => 2,
        };
        let b: u8 = match other {
            Role::Reader => 0,
            Role::Planner => 1,
            Role::Admin => 2,
        };
        a >= b
    }
}

/// The logged in user as the backend sees it: the OIDC userinfo and the role derived from its
/// groups, shown in the user menu for support.
#[derive(Debug, Clone)]
pub struct CurrentUser {
    pub display_name: String,
    pub preferred_username: String,
    pub groups: Vec<String>,
    pub role: Role,
}

/// A cable in a duct.
#[derive(Debug, Clone)]
pub struct DuctCable {
    pub id: i32,
    pub name: String,
    pub bundle_count: i32,
    pub fiber_count: i32,
}

#[derive(Debug, Clone)]
pub struct DuctListSchacht {
    pub id: i32,
    pub name: String,
}

#[derive(Debug, Clone, Copy, PartialEq, Eq, Structural)]
pub struct DuctListCable {
    pub id: i32,
}

/// How a duct is named: its description, else "A – Z" of the Schächte it connects.
pub open spec fn duct_title_text(description: Option<Seq<char>>, schacht_a: Seq<char>, schacht_z: Seq<char>) -> Seq<char> {
    match description {
        Some(d) => d,
        None => schacht_a + " – "@ + schacht_z,
    }
}

/// How a duct is named: its description, else the Schächte it connects.
pub fn duct_title(description: Option<&str>, schacht_a: &str, schacht_z: &str) -> (r: String)
    ensures
        r@ == duct_title_text(
            match description {
                Some(d) => Some(d@),
                None => None,
            },
            schacht_a@,
            schacht_z@,
        ),
{
    match description {
        Some(d) => String::from_str(d),
        None => {
            let mut r = String::from_str(schacht_a);
            r.append(" – ");
            r.append(schacht_z);
            r
        },
    }
}

/// The state of a plan.
#[derive(Debug, Clone, Copy, PartialEq, Eq, Structural, Hash, PartialOrd, Ord)]
pub enum PlanStatus {
    IMPLEMENTED,
    OPEN,
    REJECTED,
}

impl PlanStatus {
    pub fn name(self) -> (r: &'static str)
        ensures
            r@ == match self {
                PlanStatus::IMPLEMENTED => "Implemented"@,
                PlanStatus::OPEN => "Open"@,
                PlanStatus::REJECTED => "Rejected"@,
            },
    {
        match self {
            PlanStatus::IMPLEMENTED => "Implemented",
            PlanStatus::OPEN => "Open",
            PlanStatus::REJECTED => "Rejected",
        }
    }
}

#[derive(Debug, Clone)]
pub struct PlanListEntry {
    pub id: i32,
    pub name: String,
    pub status: PlanStatus,
}

/// Where a cable runs: from its near to its far Schacht.
#[derive(Debug, Clone)]
pub struct CablePathDescription {
    pub near_schacht: CableSegmentEndSchacht,
    pub far_schacht: CableSegmentEndSchacht,
}

#[derive(Debug, Clone)]
pub struct SchachtListPanelEntry {
    pub id: i32,
    pub name: Option<String>,
}

/// A type of Schacht.
#[derive(Debug, Clone)]
pub struct SchachtTypListEntry {
    pub id: i32,
    pub name: Option<String>,
    pub icon: String,
}

impl SchachtTypListEntry {
    /// How the type is offered: its name, "schacht {id}" without one.
    pub fn label(&self) -> (r: String)
        ensures
            r@ == match opt_view(self.name) {
                Some(n) => n,
                None => "schacht "@ + int_text(self.id as int),
            },
    {
        match &self.name {
            Some(n) => n.clone(),
            None => {
                let mut r = String::from_str("schacht ");
                push_int(&mut r, self.id as i64);
                r
            },
        }
    }
}

/// The standard Base64 encoding (with padding) of the UTF-8 bytes of a text.
pub uninterp spec fn base64_text(s: Seq<char>) -> Seq<char>;

/// `base64::engine::general_purpose::STANDARD.encode` on the UTF-8 bytes of `text`: the padded
/// standard Base64 encoding, which depends on the text alone. The encoder panics only when the
/// length of its output overflows `usize`, which no `str` reaches (it holds at most `isize::MAX`
/// bytes, and the output is a third longer).
#[verifier::external_body]
fn base64_standard(text: &str) -> (r: String)
    ensures
        r@ == base64_text(text@),
{
    base64::Engine::encode(&base64::engine::general_purpose::STANDARD, text.as_bytes())
}

/// The data URL of an SVG icon, as an image element shows it: the SVG text in Base64.
pub fn icon_data_url(icon: &str) -> (r: String)
    ensures
        r@ == "data:image/svg+xml;base64,"@ + base64_text(icon@),
{
    let encoded = base64_standard(icon);
    let mut r = String::from_str("data:image/svg+xml;base64,");
    r.append(encoded.as_str());
    r
}

/// An end of a duct on the map.
#[derive(Debug, Clone)]
pub struct MapDuctEnd {
    pub id: i32,
    pub name: String,
}

#[derive(Debug, Clone)]
pub struct MapCable {
    pub id: i32,
    pub name: String,
}

/// A panel with the panels above it and those directly below it.
#[derive(Debug, Clone)]
pub struct PanelHierarchy {
    pub id: i32,
    pub name: Option<String>,
    pub parent_chain: Vec<ParentChainPanel>,
    pub children: Vec<ChildPanelNav>,
}

/// A panel in a navigation menu, with its place under its parent.
#[derive(Debug, Clone)]
pub struct ChildPanelNav {
    pub id: i32,
    pub name: Option<String>,
    pub parent_order: Option<i32>,
}

pub struct Variables {
    pub id: i32,
}

pub struct UpdatePlanVariables {
    pub plan_id: i32,
    pub name: String,
}

pub struct ImplementPlanVariables {
    pub plan_id: i32,
}

#[derive(Debug, Clone, Copy, PartialEq, Eq, Structural)]
pub struct SchachtTypeRef {
    pub id: i32,
}

#[derive(Debug, Clone)]
pub struct SchachtTypeEntry {
    pub id: i32,
    pub name: Option<String>,
}

#[derive(Debug, Clone, Copy, PartialEq, Eq, Structural)]
pub struct SchachtId {
    pub id: i32,
}

#[derive(Debug, Clone, Copy, PartialEq, Eq, Structural)]
pub struct DuctPropertiesEnd {
    pub id: i32,
}

#[derive(Debug, Clone, Copy, PartialEq, Eq, Structural)]
pub struct DuctPropertiesCable {
    pub id: i32,
}

/// The coordinate system of a duct's course as typed.
#[derive(Debug, Clone, Copy, PartialEq, Eq, Structural)]
pub enum CoordinateSystem {
    Lv95,
    Lv03,
    Wgs84,
}

/// The ends and description of a duct as stored.
#[derive(Debug, Clone)]
pub struct DuctInput {
    pub schacht_a: i32,
    pub schacht_z: i32,
    pub description: Option<String>,
}

#[derive(Debug, Clone, Copy, PartialEq, Eq, Structural)]
pub struct DuctId {
    pub id: i32,
}

/// The build of a cable: bundles and fibers per bundle.
#[derive(Debug, Clone, Copy, PartialEq, Eq, Structural)]
pub struct UpdateCableStructure {
    pub bundle_count: i32,
    pub fiber_count: i32,
}

/// A Netbox device a cabinet's panel can stand for.
#[derive(Debug, Clone, PartialEq, Eq)]
pub struct OverviewNetboxDevice {
    pub id: i32,
    pub name: Option<String>,
    pub device_type: String,
    pub location_name: Option<String>,
}

impl OverviewNetboxDevice {
    /// The device as offered: "location name (type)", the id in place of a missing name.
    pub fn to_text(&self) -> (r: String)
        ensures
            r@ == match opt_view(self.location_name) {
                Some(l) => l + " "@,
                None => Seq::<char>::empty(),
            } + match opt_view(self.name) {
                Some(n) => n + " "@,
                None => int_text(self.id as int) + " "@,
            } + "("@ + self.device_type@ + ")"@,
    {
        let mut r = String::new();
        match opt_str(&self.location_name) {
            Some(l) => {
                r.append(l);
                r.append(" ");
            },
            None => {},
        }
        match opt_str(&self.name) {
            Some(n) => {
                r.append(n);
                r.append(" ");
            },
            None => {
                push_int(&mut r, self.id as i64);
                r.append(" ");
            },
        }
        r.append("(");
        r.append(self.device_type.as_str());
        r.append(")");
        r
    }
}

/// A new panel with the panels inside it.
#[derive(Debug)]
pub struct CreatePanelInput {
    pub name: String,
    pub schacht_id: i32,
    pub children: Vec<CreatePanelInput>,
}

/// The properties of the page attaching fibers.
#[derive(Debug, Clone, Copy, PartialEq, Eq, Structural)]
pub struct AttachFiberProps {
    pub plan_id: i32,
    pub panel_id: i32,
}

/// The properties of the page looping fibers.
#[derive(Debug, Clone, Copy, PartialEq, Eq, Structural)]
pub struct LoopPortEditorProps {
    pub plan_id: i32,
    pub panel_id: i32,
}

/// The properties of the page editing ports.
#[derive(Debug, Clone, Copy, PartialEq, Eq, Structural)]
pub struct PortEditorProps {
    pub panel_id: i32,
}

/// The properties of the connection overview.
#[derive(Debug, Clone, Copy, PartialEq, Eq, Structural)]
pub struct ShowPanelProps {
    pub plan_id: i32,
    pub panel_id: i32,
}

/// The date printed in the footer of the connection overview.
pub fn chrono_stub_date() -> (r: String)
    ensures
        r@ == "2026"@,
{
    String::from_str("2026")
}

/// A link to a view of a plan.
#[derive(Debug, Clone, Copy, PartialEq, Eq, Structural)]
pub struct PlanLink {}

/// The views of a panel.
#[derive(Debug, Clone, Copy, PartialEq, Eq, Structural)]
pub enum PanelView {
    Show,
    Edit,
    Attach,
    Loop,
}

impl PanelView {
    /// The view's title in the menu.
    pub fn title(self) -> (r: &'static str)
        ensures
            r@ == match self {
                PanelView::Show => "Übersicht"@,
                PanelView::Edit => "Ports ändern"@,
                PanelView::Attach => "Fasern auflegen"@,
                PanelView::Loop => "Loops verbinden"@,
            },
    {
        match self {
            PanelView::Show => "Übersicht",
            PanelView::Edit => "Ports ändern",
            PanelView::Attach => "Fasern auflegen",
            PanelView::Loop => "Loops verbinden",
        }
    }
}

/// The properties of the panel menu.
#[derive(Debug, Clone, Copy, PartialEq, Eq, Structural)]
pub struct ListPanelProps {
    pub plan_id: i32,
    pub panel_id: i32,
    pub view: PanelView,
}

/// The views a panel's menu offers: the overview and the port editor, and in a plan (not the
/// built state, plan 0) attaching fibers and looping.
pub fn panel_views(plan_id: i32) -> (r: Vec<PanelView>)
    ensures
        r@ == if plan_id != 0 {
            seq![PanelView::Show, PanelView::Edit, PanelView::Attach, PanelView::Loop]
        } else {
            seq![PanelView::Show, PanelView::Edit]
        },
{
    let mut r: Vec<PanelView> = Vec::new();
    r.push(PanelView::Show);
    r.push(PanelView::Edit);
    if plan_id != 0 {
        r.push(PanelView::Attach);
        r.push(PanelView::Loop);
    }
    r
}

/// A panel's name in a menu, "Panel {id}" without one.
pub open spec fn nav_name(id: i32, name: Option<String>) -> Seq<char> {
    match opt_view(name) {
        Some(n) => n,
        None => "Panel "@ + int_text(id as int),
    }
}

/// A panel's name in a menu, "Panel {id}" without one.
pub fn panel_name_or_id(id: i32, name: &Option<String>) -> (r: String)
    ensures
        r@ == nav_name(id, *name),
{
    match name {
        Some(n) => n.clone(),
        None => {
            let mut r = String::from_str("Panel ");
            push_int(&mut r, id as i64);
            r
        },
    }
}

/// An entry of a panel menu: whether it is the current panel, its text and the panel it opens.
pub struct PanelMenuEntry {
    pub selected: bool,
    pub text: String,
    pub panel_id: i32,
}

/// The entries for other panels: each panel by name, the current one selected.
pub fn panel_menu_entries(others: &[ChildPanelNav], panel_id: i32) -> (r: Vec<PanelMenuEntry>)
    ensures
        r@.len() == others@.len(),
        forall|i: int|
            0 <= i < r@.len() ==> #[trigger] r@[i].panel_id == others@[i].id && r@[i].selected == (others@[i].id == panel_id)
                && r@[i].text@ == nav_name(others@[i].id, others@[i].name),
{
    let mut r: Vec<PanelMenuEntry> = Vec::new();
    let mut i: usize = 0;
    while i < others.len()
        invariant
            i <= others.len(),
            r@.len() == i,
            forall|j: int|
                0 <= j < i ==> #[trigger] r@[j].panel_id == others@[j].id && r@[j].selected == (others@[j].id == panel_id)
                    && r@[j].text@ == nav_name(others@[j].id, others@[j].name),
        decreases others.len() - i,
    {
        let o = &others[i];
        r.push(PanelMenuEntry { selected: o.id == panel_id, text: panel_name_or_id(o.id, &o.name), panel_id: o.id });
        i += 1;
    }
    r
}

/// `p` goes after the panels of `sorted` that sort before or with it.
pub open spec fn insert_nav(sorted: Seq<ChildPanelNav>, p: ChildPanelNav) -> Seq<ChildPanelNav>
    decreases sorted.len(),
{
    if sorted.len() == 0 || order_le(sorted.last().parent_order, p.parent_order) {
        sorted.push(p)
    } else {
        insert_nav(sorted.drop_last(), p).push(sorted.last())
    }
}

/// The panels by their place under their parent, equal places in their order (stable).
pub open spec fn sorted_nav(s: Seq<ChildPanelNav>) -> Seq<ChildPanelNav>
    decreases s.len(),
{
    if s.len() == 0 {
        seq![]
    } else {
        insert_nav(sorted_nav(s.drop_last()), s.last())
    }
}

fn copy_nav(p: &ChildPanelNav) -> (r: ChildPanelNav)
    ensures
        r == *p,
{
    ChildPanelNav {
        id: p.id,
        name: match &p.name {
            Some(n) => Some(n.clone()),
            None => None,
        },
        parent_order: p.parent_order,
    }
}

fn order_before_or_with(a: Option<i32>, b: Option<i32>) -> (r: bool)
    ensures
        r == order_le(a, b),
{
    match (a, b) {
        (None, _) => true,
        (Some(_), None) => false,
        (Some(x), Some(y)) => x <= y,
    }
}

fn insert_nav_sorted(sorted: &mut Vec<ChildPanelNav>, p: ChildPanelNav)
    ensures
        final(sorted)@ == insert_nav(old(sorted)@, p),
{
    let ghost old_s = sorted@;
    let mut j: usize = sorted.len();
    assert(old_s.subrange(0, j as int) =~= old_s);
    assert(insert_nav(old_s, p) + old_s.subrange(j as int, old_s.len() as int) =~= insert_nav(old_s, p));
    while j > 0 && !order_before_or_with(sorted[j - 1].parent_order, p.parent_order)
        invariant
            j <= sorted@.len(),
            sorted@ == old_s,
            insert_nav(old_s, p) == insert_nav(old_s.subrange(0, j as int), p) + old_s.subrange(j as int, old_s.len() as int),
        decreases j,
    {
        proof {
            let pre = old_s.subrange(0, j as int);
            assert(pre.last() == old_s[j - 1]);
            assert(pre.drop_last() =~= old_s.subrange(0, j - 1));
            assert(insert_nav(pre, p) == insert_nav(old_s.subrange(0, j - 1), p).push(old_s[j - 1]));
            assert(insert_nav(old_s.subrange(0, j - 1), p).push(old_s[j - 1]) + old_s.subrange(j as int, old_s.len() as int)
                =~= insert_nav(old_s.subrange(0, j - 1), p) + old_s.subrange(j - 1, old_s.len() as int));
        }
        j -= 1;
    }
    proof {
        let pre = old_s.subrange(0, j as int);
        assert(insert_nav(pre, p) == pre.push(p));
    }
    sorted.insert(j, p);
    assert(sorted@ =~= old_s.subrange(0, j as int).push(p) + old_s.subrange(j as int, old_s.len() as int));
}

/// The siblings of a panel (which the backend returns without it) plus the panel, in panel
/// order (a stable sort by place, panels without a place first).
pub fn with_self(siblings: &[ChildPanelNav], id: i32, name: &Option<String>, parent_order: Option<i32>) -> (r: Vec<ChildPanelNav>)
    ensures
        r@ == sorted_nav(siblings@.push(ChildPanelNav { id, name: *name, parent_order })),
{
    let ghost all = siblings@.push(ChildPanelNav { id, name: *name, parent_order });
    let mut r: Vec<ChildPanelNav> = Vec::new();
    let mut i: usize = 0;
    while i < siblings.len()
        invariant
            i <= siblings.len(),
            all == siblings@.push(ChildPanelNav { id, name: *name, parent_order }),
            r@ == sorted_nav(all.subrange(0, i as int)),
        decreases siblings.len() - i,
    {
        proof {
            let sub = all.subrange(0, i + 1);
            assert(sub.drop_last() =~= all.subrange(0, i as int));
            assert(sub.last() == siblings@[i as int]);
        }
        insert_nav_sorted(&mut r, copy_nav(&siblings[i]));
        i += 1;
    }
    let me = ChildPanelNav {
        id,
        name: match name {
            Some(n) => Some(n.clone()),
            None => None,
        },
        parent_order,
    };
    proof {
        let sub = all.subrange(0, i + 1);
        assert(sub.drop_last() =~= all.subrange(0, i as int));
        assert(sub.last() == me);
        assert(sub =~= all);
    }
    insert_nav_sorted(&mut r, me);
    r
}

/// A page's title: "view – object", just the view while the object is loading.
pub fn object_title(view: &str, object: Option<&str>) -> (r: String)
    ensures
        r@ == match object {
            Some(o) => view@ + " – "@ + o@,
            None => view@,
        },
{
    let mut r = String::from_str(view);
    match object {
        Some(o) => {
            r.append(" – ");
            r.append(o);
        },
        None => {},
    }
    r
}

/// The properties of the button printing a panel's label.
#[derive(Debug, Clone)]
pub struct PanelLabelButtonProps {
    pub id: i32,
    pub name: Option<String>,
    /// Names of the parent panels, root first.
    pub parents: Vec<String>,
}

/// A text choice for a label: its name in the dialog and the text.
#[derive(Debug, Clone)]
pub struct LabelText {
    pub label: String,
    pub text: String,
}

/// The texts of strings.
pub open spec fn views_of(s: Seq<String>) -> Seq<Seq<char>> {
    s.map_values(|t: String| t@)
}

/// A panel's label: its name ("Panel {id}" without one).
pub open spec fn label_name(id: i32, name: Option<String>) -> Seq<char> {
    match opt_view(name) {
        Some(n) => n,
        None => "Panel "@ + int_text(id as int),
    }
}

/// The path of a panel on its label: the names above it and its own, joined by " - ".
pub open spec fn label_path(id: i32, name: Option<String>, parents: Seq<String>) -> Seq<char> {
    join(views_of(parents).push(label_name(id, name)), " - "@)
}

impl PanelLabelButtonProps {
    /// The label texts offered: the name, and the path from the top panel when it differs.
    pub fn texts(&self) -> (r: Vec<LabelText>)
        ensures
            r@.len() == if label_path(self.id, self.name, self.parents@) != label_name(self.id, self.name) { 2nat } else { 1nat },
            r@[0].label@ == "Name"@,
            r@[0].text@ == label_name(self.id, self.name),
            r@.len() == 2 ==> r@[1].label@ == "Pfad"@ && r@[1].text@ == label_path(self.id, self.name, self.parents@),
    {
        let name = panel_name_or_id(self.id, &self.name);
        let mut parts: Vec<&str> = Vec::new();
        let mut i: usize = 0;
        while i < self.parents.len()
            invariant
                i <= self.parents.len(),
                str_texts(parts@) == views_of(self.parents@.subrange(0, i as int)),
            decreases self.parents.len() - i,
        {
            let ghost before = parts@;
            parts.push(self.parents[i].as_str());
            assert(str_texts(parts@) =~= str_texts(before).push(self.parents@[i as int]@));
            assert(views_of(self.parents@.subrange(0, i + 1)) =~= views_of(self.parents@.subrange(0, i as int)).push(self.parents@[i as int]@));
            i += 1;
        }
        assert(self.parents@.subrange(0, self.parents@.len() as int) =~= self.parents@);
        let ghost before = parts@;
        parts.push(name.as_str());
        assert(str_texts(parts@) =~= str_texts(before).push(name@));
        let mut path = String::new();
        crate::text::push_joined(&mut path, "", " - ", parts.as_slice());
        proof {
            assert(str_texts(parts@).len() > 0);
            reveal_strlit("");
            assert(""@ + join(str_texts(parts@), " - "@) =~= join(str_texts(parts@), " - "@));
        }
        let differs = !(path == name);
        let mut r: Vec<LabelText> = Vec::new();
        r.push(LabelText { label: String::from_str("Name"), text: name });
        if differs {
            r.push(LabelText { label: String::from_str("Pfad"), text: path });
        }
        r
    }
}


/// The siblings ascend by their place under their parent, those without a place first.
pub open spec fn ascending_nav(s: Seq<ChildPanelNav>) -> bool {
    forall|i: int, j: int| 0 <= i < j < s.len() ==> order_le(s[i].parent_order, s[j].parent_order)
}

proof fn lemma_insert_nav(sorted: Seq<ChildPanelNav>, p: ChildPanelNav)
    requires
        ascending_nav(sorted),
    ensures
        ascending_nav(insert_nav(sorted, p)),
        insert_nav(sorted, p).to_multiset() == sorted.to_multiset().insert(p),
        forall|i: int| 0 <= i < insert_nav(sorted, p).len() ==> #[trigger] insert_nav(sorted, p)[i] == p || sorted.contains(insert_nav(sorted, p)[i]),
    decreases sorted.len(),
{
    broadcast use vstd::seq_lib::group_to_multiset_ensures;

    let r = insert_nav(sorted, p);
    if sorted.len() == 0 || order_le(sorted.last().parent_order, p.parent_order) {
        assert forall|i: int, j: int| 0 <= i < j < r.len() implies order_le(r[i].parent_order, r[j].parent_order) by {
            if j == r.len() - 1 && sorted.len() > 0 {
                assert(r[i] == sorted[i]);
                assert(order_le(sorted[i].parent_order, sorted.last().parent_order));
            }
        }
        assert forall|i: int| 0 <= i < r.len() implies #[trigger] r[i] == p || sorted.contains(r[i]) by {
            if i < sorted.len() {
                assert(r[i] == sorted[i]);
            }
        }
    } else {
        let front = sorted.drop_last();
        let last = sorted.last();
        assert(ascending_nav(front));
        lemma_insert_nav(front, p);
        let inner = insert_nav(front, p);
        assert(r == inner.push(last));
        assert(sorted == front.push(last));
        assert forall|i: int| 0 <= i < inner.len() implies order_le(inner[i].parent_order, last.parent_order) by {
            if inner[i] != p {
                assert(front.contains(inner[i]));
                let w = choose|w: int| 0 <= w < front.len() && front[w] == inner[i];
                assert(sorted[w] == front[w]);
            }
        }
        assert forall|i: int, j: int| 0 <= i < j < r.len() implies order_le(r[i].parent_order, r[j].parent_order) by {
            if j == r.len() - 1 {
                assert(r[i] == inner[i]);
            } else {
                assert(r[i] == inner[i] && r[j] == inner[j]);
            }
        }
        assert forall|i: int| 0 <= i < r.len() implies #[trigger] r[i] == p || sorted.contains(r[i]) by {
            if i < inner.len() {
                assert(r[i] == inner[i]);
                if inner[i] != p {
                    assert(front.contains(inner[i]));
                    let w = choose|w: int| 0 <= w < front.len() && front[w] == inner[i];
                    assert(sorted[w] == front[w]);
                }
            } else {
                assert(sorted[sorted.len() - 1] == last);
            }
        }
        assert(r.to_multiset() =~= sorted.to_multiset().insert(p));
    }
}

/// The siblings as `with_self` orders them come by their place under the parent (those without
/// a place first) and are the given panels, each as often as given.
pub proof fn law_siblings_ordered(s: Seq<ChildPanelNav>)
    ensures
        ascending_nav(sorted_nav(s)),
        sorted_nav(s).to_multiset() == s.to_multiset(),
    decreases s.len(),
{
    broadcast use vstd::seq_lib::group_to_multiset_ensures;

    if s.len() > 0 {
        law_siblings_ordered(s.drop_last());
        lemma_insert_nav(sorted_nav(s.drop_last()), s.last());
        assert(s == s.drop_last().push(s.last()));
    } else {
        assert(sorted_nav(s).to_multiset() =~= s.to_multiset());
    }
}


/// Each role includes itself and every role a role it includes includes; the administrator
/// includes every role, and every role includes the reader.
pub proof fn law_roles_nested(a: Role, b: Role, c: Role)
    ensures
        a.rank() >= a.rank(),
        a.rank() >= b.rank() && b.rank() >= c.rank() ==> a.rank() >= c.rank(),
        Role::Admin.rank() >= a.rank(),
        a.rank() >= Role::Reader.rank(),
{
}

} // verus!
