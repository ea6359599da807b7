//! Identifiers and small shared types of the planning data: panels and ports that already
//! exist or were just added, port types and sides, and how a panel's path is written.

use vstd::prelude::*;
use crate::text::{join, opt_str, opt_view, str_texts, Named};

verus! {

/// A panel or port stored in the database (`Id`) or added in the editor and not stored yet
/// (`Temporary`, the 128 bits of a random UUID).
#[derive(Clone, Copy, Debug, PartialEq, Eq, Structural, Hash, PartialOrd, Ord)]
pub enum IdOrNew {
    Id(i32),
    Temporary(u128),
}

/// The 128 bits of a UUID are those of a version 4 UUID: the version field holds 4 and the
/// variant field the bits `10`.
pub open spec fn is_v4_bits(v: u128) -> bool {
    (v >> 76u128) & 0xfu128 == 4 && (v >> 62u128) & 3u128 == 2
}

/// A fresh random UUID (version 4), as its 128 bits (`Uuid::new_v4().as_u128()`, most
/// significant byte first). `new_v4` masks random bits with the version and variant fields, so
/// those fields are promised; the other bits come from the random number generator and nothing
/// is promised of them.
#[verifier::external_body]
fn random_uuid() -> (r: u128)
    ensures
        is_v4_bits(r),
{
    uuid::Uuid::new_v4().as_u128()
}

impl IdOrNew {
    /// A new temporary id for an entry added in the editor.
    pub fn new_temporary() -> (r: IdOrNew)
        ensures
            r matches IdOrNew::Temporary(v) && is_v4_bits(v),
    {
        IdOrNew::Temporary(random_uuid())
    }
}

impl Default for IdOrNew {
    /// A new temporary id, as for an entry just added in the editor.
    fn default() -> (r: IdOrNew)
        ensures
            r matches IdOrNew::Temporary(v) && is_v4_bits(v),
    {
        IdOrNew::new_temporary()
    }
}

impl From<i32> for IdOrNew {
    fn from(value: i32) -> (r: IdOrNew) {
        IdOrNew::Id(value)
    }
}

impl vstd::std_specs::convert::FromSpecImpl<i32> for IdOrNew {
    open spec fn obeys_from_spec() -> bool {
        true
    }

    open spec fn from_spec(value: i32) -> IdOrNew {
        IdOrNew::Id(value)
    }
}

/// A lower case hexadecimal digit.
pub open spec fn hex_digit(d: int) -> char {
    if d < 10 {
        (48 + d) as char
    } else {
        (87 + d) as char
    }
}

/// The lowest `n` hexadecimal digits of `v`, most significant first.
pub open spec fn hex_text(v: nat, n: nat) -> Seq<char>
    decreases n,
{
    if n == 0 {
        seq![]
    } else {
        hex_text(v / 16, (n - 1) as nat) + seq![hex_digit((v % 16) as int)]
    }
}

/// A UUID in its usual form, e.g. `67e55044-10b1-426f-9247-bb680e5fe0c8`: 32 lower case
/// hexadecimal digits of its 128 bits, hyphens after the 8th, 12th, 16th and 20th.
pub open spec fn uuid_text(v: u128) -> Seq<char> {
    let h = hex_text(v as nat, 32);
    h.subrange(0, 8) + seq!['-'] + h.subrange(8, 12) + seq!['-'] + h.subrange(12, 16) + seq!['-']
        + h.subrange(16, 20) + seq!['-'] + h.subrange(20, 32)
}

/// `Uuid::from_u128(value).to_string()`: the UUID with these bits in its hyphenated lower case
/// form (the crate's `Display` writes `as_hyphenated()` in lower case).
#[verifier::external_body]
fn uuid_to_text(value: u128) -> (r: String)
    ensures
        r@ == uuid_text(value),
{
    uuid::Uuid::from_u128(value).to_string()
}

/// The id as the backend takes it: a stored id, or the text of a temporary one.
#[derive(Debug, Clone)]
pub struct IdOrNewInput {
    pub id: Option<i32>,
    pub temporary: Option<String>,
}

/// The text inside an optional `String`.
pub open spec fn opt_text(o: Option<String>) -> Option<Seq<char>> {
    match o {
        Some(s) => Some(s@),
        None => None,
    }
}

impl IdOrNewInput {
    /// The input for an id: `id` for a stored one, the UUID text for a temporary one.
    pub fn from(val: IdOrNew) -> (r: IdOrNewInput)
        ensures
            val matches IdOrNew::Id(id) ==> r.id == Some(id) && r.temporary is None,
            val matches IdOrNew::Temporary(u) ==> r.id is None && opt_text(r.temporary) == Some(uuid_text(u)),
    {
        match val {
            IdOrNew::Id(id) => IdOrNewInput { id: Some(id), temporary: None },
            IdOrNew::Temporary(u) => IdOrNewInput { id: None, temporary: Some(uuid_to_text(u)) },
        }
    }
}

/// How a port is used: a splice, a connector, or a loop from one cable to another.
#[derive(Clone, Copy, PartialEq, Eq, Structural, Debug, Hash, Ord, PartialOrd)]
pub enum PortType {
    Splice,
    Connector,
    Loop,
}

/// The side of a port a fiber is attached to.
#[derive(Clone, Copy, PartialEq, Eq, Structural, Debug, Hash, Ord, PartialOrd)]
pub enum PortSide {
    FRONT,
    BACK,
}

/// A panel above another one, root first.
#[derive(Debug, Clone, PartialEq, Eq, Hash)]
pub struct ParentChainPanel {
    pub id: i32,
    pub name: Option<String>,
}

impl Named for ParentChainPanel {
    open spec fn name_view(&self) -> Option<Seq<char>> {
        opt_view(self.name)
    }

    fn name_str(&self) -> (r: Option<&str>) {
        opt_str(&self.name)
    }
}

/// The path of a panel as users see it: "Schacht: Parent > Panel"; without a Schacht it starts
/// with the first panel.
pub open spec fn panel_path(schacht: Option<Seq<char>>, panels: Seq<Seq<char>>) -> Seq<char> {
    match schacht {
        Some(s) => if panels.len() == 0 {
            s
        } else {
            s + ": "@ + join(panels, " > "@)
        },
        None => join(panels, " > "@),
    }
}

/// Writes the path of a panel as users see it, "Schacht: Parent > Panel" (`panels` are the names
/// from the root panel down, unnamed ones left out). Without a Schacht it starts with the first
/// panel.
pub fn write_panel_path(out: &mut String, schacht: Option<&str>, panels: &[&str])
    ensures
        final(out)@ == old(out)@ + panel_path(
            match schacht {
                Some(s) => Some(s@),
                None => None,
            },
            str_texts(panels@),
        ),
{
    let ghost start = out@;
    let ghost texts = str_texts(panels@);
    let mut first = true;
    match schacht {
        Some(s) => {
            out.append(s);
        },
        None => {},
    }
    let ghost head = out@;
    let mut i: usize = 0;
    while i < panels.len()
        invariant
            i <= panels.len(),
            texts == str_texts(panels@),
            first == (i == 0),
            out@ == head + if i == 0 {
                Seq::<char>::empty()
            } else {
                match schacht {
                    Some(_) => ": "@ + join(texts.subrange(0, i as int), " > "@),
                    None => join(texts.subrange(0, i as int), " > "@),
                }
            },
        decreases panels.len() - i,
    {
        let ghost prev = out@;
        if first {
            if schacht.is_some() {
                out.append(": ");
            }
        } else {
            out.append(" > ");
        }
        out.append(panels[i]);
        proof {
            let sub = texts.subrange(0, i + 1);
            assert(sub.drop_last() == texts.subrange(0, i as int));
            assert(sub.last() == panels@[i as int]@);
            if i == 0 {
                assert(sub.len() == 1);
                assert(join(sub, " > "@) == sub[0]);
            }
        }
        first = false;
        i += 1;
    }
    proof {
        assert(texts.subrange(0, panels@.len() as int) == texts);
    }
}

/// Writes a port after the path of its panel: " : label".
pub fn write_port_label(out: &mut String, label: &str)
    ensures
        final(out)@ == old(out)@ + " : "@ + label@,
{
    out.append(" : ");
    out.append(label);
}

} // verus!
