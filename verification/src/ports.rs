//! Editing the ports of a panel: labels, types, order, the Netbox port each one stands for,
//! ports added after the last one with its label counted up, deletions, and the changes saved.

use vstd::prelude::*;
use crate::ids::{IdOrNew, IdOrNewInput, PortType};
use crate::text::{int_text, nat_text, opt_view, push_char, push_int};
use vstd::string::StringExecFns;
use vstd::string::StrSliceExecFns;

verus! {

/// A character with Unicode's White_Space property: tab, line feed, vertical tab, form feed,
/// carriage return, space, next line, no-break space, ogham space mark, the spaces from en quad
/// to hair space, line and paragraph separator, narrow no-break space, medium mathematical
/// space and ideographic space.
pub open spec fn is_white_space(c: char) -> bool {
    ||| '\u{9}' <= c && c <= '\u{d}'
    ||| c == ' '
    ||| c == '\u{85}'
    ||| c == '\u{a0}'
    ||| c == '\u{1680}'
    ||| '\u{2000}' <= c && c <= '\u{200a}'
    ||| c == '\u{2028}'
    ||| c == '\u{2029}'
    ||| c == '\u{202f}'
    ||| c == '\u{205f}'
    ||| c == '\u{3000}'
}

/// The text without the whitespace at its start.
pub open spec fn trimmed_start(s: Seq<char>) -> Seq<char>
    decreases s.len(),
{
    if s.len() > 0 && is_white_space(s[0]) {
        trimmed_start(s.drop_first())
    } else {
        s
    }
}

/// The text without the whitespace at its end.
pub open spec fn trimmed_end(s: Seq<char>) -> Seq<char>
    decreases s.len(),
{
    if s.len() > 0 && is_white_space(s.last()) {
        trimmed_end(s.drop_last())
    } else {
        s
    }
}

/// The text without the whitespace at its start and end (`str::trim`).
pub open spec fn trimmed(s: Seq<char>) -> Seq<char> {
    trimmed_end(trimmed_start(s))
}

/// Whether the character is numeric (`char::is_numeric`).
pub uninterp spec fn numeric_char(c: char) -> bool;

/// `str::trim`: the slice without leading and trailing whitespace, whitespace as Unicode's
/// White_Space property defines it.
#[verifier::external_body]
pub(crate) fn trim_str<'a>(s: &'a str) -> (r: &'a str)
    ensures
        r@ == trimmed(s@),
{
    s.trim()
}

/// `char::is_numeric`: whether the character's general category is a number category (Nd, Nl
/// or No). The contract names the result and says nothing more of it.
#[verifier::external_body]
fn is_numeric(c: char) -> (r: bool)
    ensures
        r == numeric_char(c),
{
    c.is_numeric()
}

/// The characters of a string slice.
pub(crate) fn chars_of(s: &str) -> (r: Vec<char>)
    ensures
        r@ == s@,
{
    let n = s.unicode_len();
    let mut r: Vec<char> = Vec::new();
    let mut i: usize = 0;
    while i < n
        invariant
            i <= n,
            n == s@.len(),
            r@ == s@.subrange(0, i as int),
        decreases n - i,
    {
        let c = s.get_char(i);
        r.push(c);
        assert(s@.subrange(0, i + 1) == s@.subrange(0, i as int).push(c));
        i += 1;
    }
    assert(s@.subrange(0, n as int) == s@);
    r
}

/// The index of the last character that is not numeric, -1 when all are.
pub open spec fn last_non_numeric(t: Seq<char>) -> int
    decreases t.len(),
{
    if t.len() == 0 {
        -1
    } else if !numeric_char(t.last()) {
        t.len() - 1
    } else {
        last_non_numeric(t.drop_last())
    }
}

/// The text up to and with its last character that is not numeric.
pub open spec fn prefix_part(t: Seq<char>) -> Seq<char> {
    t.subrange(0, last_non_numeric(t) + 1)
}

/// The numeric characters at the end of the text.
pub open spec fn number_part(t: Seq<char>) -> Seq<char> {
    t.subrange(last_non_numeric(t) + 1, t.len() as int)
}

pub open spec fn is_ascii_digit(c: char) -> bool {
    '0' <= c && c <= '9'
}

/// The value of a sequence of decimal digits.
pub open spec fn digits_value(s: Seq<char>) -> nat
    decreases s.len(),
{
    if s.len() == 0 {
        0
    } else {
        10 * digits_value(s.drop_last()) + ((s.last() as nat) - 48) as nat
    }
}

/// Only decimal digits.
pub open spec fn all_digits(s: Seq<char>) -> bool {
    forall|i: int| 0 <= i < s.len() ==> is_ascii_digit(#[trigger] s[i])
}

/// The text is a number that `usize` holds, as `str::parse::<usize>` takes it (no sign here).
pub open spec fn parses_as_usize(s: Seq<char>) -> bool {
    s.len() > 0 && all_digits(s) && digits_value(s) <= usize::MAX
}

/// `n` zeros.
pub open spec fn zeros(n: nat) -> Seq<char> {
    Seq::new(n, |_i: int| '0')
}

/// The number counted up by one, padded with zeros to its old width when it started with a zero.
pub open spec fn incremented(number: Seq<char>) -> Seq<char> {
    let new = nat_text(digits_value(number) + 1);
    if number[0] == '0' {
        zeros((number.len() - new.len()) as nat) + new
    } else {
        new
    }
}

/// The label of a port added after one labelled `label`: its trailing number counted up, or
/// "Port {next_order}" when the trimmed label does not end in a number.
pub open spec fn next_label_text(label: Seq<char>, next_order: int) -> Seq<char> {
    let t = trimmed(label);
    if parses_as_usize(number_part(t)) {
        prefix_part(t) + incremented(number_part(t))
    } else {
        "Port "@ + int_text(next_order)
    }
}

/// The label can be split after its last character that is not numeric: there is none, or it
/// takes one byte in UTF-8.
pub open spec fn label_splits(label: Seq<char>) -> bool {
    let t = trimmed(label);
    last_non_numeric(t) >= 0 ==> (t[last_non_numeric(t)] as u32) < 128
}

/// The trailing number of the label can be counted up without overflow.
pub open spec fn label_counts_up(label: Seq<char>) -> bool {
    let t = trimmed(label);
    parses_as_usize(number_part(t)) ==> digits_value(number_part(t)) < usize::MAX
}

/// `10` to the power of `k`.
pub open spec fn pow10(k: nat) -> nat
    decreases k,
{
    if k == 0 {
        1
    } else {
        10 * pow10((k - 1) as nat)
    }
}

proof fn lemma_value_below_pow(s: Seq<char>)
    requires
        all_digits(s),
    ensures
        digits_value(s) < pow10(s.len()),
    decreases s.len(),
{
    if s.len() > 0 {
        let rest = s.drop_last();
        assert(all_digits(rest)) by {
            assert forall|i: int| 0 <= i < rest.len() implies is_ascii_digit(#[trigger] rest[i]) by {
                assert(rest[i] == s[i]);
            }
        }
        lemma_value_below_pow(rest);
        assert(is_ascii_digit(s[s.len() - 1]));
        let d = ((s.last() as nat) - 48) as nat;
        assert(d <= 9);
        let v = digits_value(rest);
        let p = pow10(rest.len());
        assert(10 * v + d < 10 * p) by (nonlinear_arith)
            requires
                v < p,
                d <= 9,
        ;
    }
}

proof fn lemma_leading_zero(s: Seq<char>)
    requires
        s.len() >= 1,
        s[0] == '0',
    ensures
        digits_value(s) == digits_value(s.drop_first()),
    decreases s.len(),
{
    if s.len() == 1 {
        assert(s.drop_last().len() == 0);
        assert(s.drop_first().len() == 0);
        assert(s.last() == '0');
        assert(digits_value(s.drop_last()) == 0);
        assert(digits_value(s) == 0);
        assert(digits_value(s.drop_first()) == 0);
    } else {
        let rest = s.drop_last();
        assert(rest[0] == '0');
        lemma_leading_zero(rest);
        let t = s.drop_first();
        assert(rest.drop_first() =~= t.drop_last());
        assert(t.last() == s.last());
        assert(digits_value(t) == 10 * digits_value(t.drop_last()) + ((t.last() as nat) - 48) as nat);
        assert(digits_value(s) == 10 * digits_value(rest) + ((s.last() as nat) - 48) as nat);
    }
}

proof fn lemma_text_len(m: nat, k: nat)
    requires
        k >= 1,
        m < pow10(k),
    ensures
        nat_text(m).len() <= k,
    decreases k,
{
    if m >= 10 {
        let p = pow10((k - 1) as nat);
        if k == 1 {
            assert(pow10(1) == 10);
        }
        assert(k >= 2);
        assert(m / 10 < p) by (nonlinear_arith)
            requires
                m < 10 * p,
        ;
        lemma_text_len(m / 10, (k - 1) as nat);
    }
}

/// The digits of a number starting with a zero count up within its width.
proof fn lemma_padding_fits(number: Seq<char>)
    requires
        number.len() >= 1,
        all_digits(number),
        number[0] == '0',
    ensures
        nat_text(digits_value(number) + 1).len() <= number.len(),
{
    lemma_leading_zero(number);
    let rest = number.drop_first();
    assert(all_digits(rest)) by {
        assert forall|i: int| 0 <= i < rest.len() implies is_ascii_digit(#[trigger] rest[i]) by {
            assert(rest[i] == number[i + 1]);
        }
    }
    lemma_value_below_pow(rest);
    assert(pow10(number.len()) == 10 * pow10(rest.len()));
    lemma_text_len(digits_value(number) + 1, number.len());
}

/// Appends the characters `chars[from..to]`.
fn push_range(s: &mut String, chars: &Vec<char>, from: usize, to: usize)
    requires
        from <= to <= chars@.len(),
    ensures
        final(s)@ == old(s)@ + chars@.subrange(from as int, to as int),
{
    let mut i: usize = from;
    while i < to
        invariant
            from <= i <= to,
            to <= chars@.len(),
            s@ == old(s)@ + chars@.subrange(from as int, i as int),
        decreases to - i,
    {
        push_char(s, chars[i]);
        assert(chars@.subrange(from as int, i + 1) == chars@.subrange(from as int, i as int).push(chars@[i as int]));
        i += 1;
    }
}

/// The decimal digits of `n`.
fn decimal(n: usize) -> (r: Vec<char>)
    ensures
        r@ == nat_text(n as nat),
{
    let mut s = String::new();
    crate::text::push_nat(&mut s, n as u64);
    let t = s.as_str();
    chars_of(t)
}

/// Where the trailing numeric characters of the text start.
fn number_start(chars: &Vec<char>) -> (r: usize)
    ensures
        r as int == last_non_numeric(chars@) + 1,
        r <= chars@.len(),
{
    let mut i: usize = chars.len();
    assert(chars@.subrange(0, chars@.len() as int) == chars@);
    while i > 0 && is_numeric(chars[i - 1])
        invariant
            i <= chars.len(),
            last_non_numeric(chars@) == last_non_numeric(chars@.subrange(0, i as int)),
        decreases i,
    {
        let ghost pre = chars@.subrange(0, i as int);
        assert(pre.last() == chars@[i - 1]);
        assert(pre.drop_last() =~= chars@.subrange(0, i - 1));
        i -= 1;
    }
    if i > 0 {
        let ghost pre = chars@.subrange(0, i as int);
        assert(pre.last() == chars@[i - 1]);
    } else {
        assert(chars@.subrange(0, 0).len() == 0);
    }
    i
}

/// Parses `chars[from..]` as `str::parse::<usize>` parses a text of digits.
fn parse_digits(chars: &Vec<char>, from: usize) -> (r: Option<usize>)
    requires
        from <= chars@.len(),
    ensures
        match r {
            Some(v) => parses_as_usize(chars@.subrange(from as int, chars@.len() as int)) && v as nat
                == digits_value(chars@.subrange(from as int, chars@.len() as int)),
            None => !parses_as_usize(chars@.subrange(from as int, chars@.len() as int)),
        },
{
    let mut v: usize = 0;
    let mut digits_only = true;
    let mut overflow = false;
    let mut i: usize = from;
    while i < chars.len()
        invariant
            from <= i <= chars.len(),
            digits_only == all_digits(chars@.subrange(from as int, i as int)),
            digits_only && !overflow ==> v as nat == digits_value(chars@.subrange(from as int, i as int)),
            digits_only && overflow ==> digits_value(chars@.subrange(from as int, i as int)) > usize::MAX,
        decreases chars.len() - i,
    {
        let c = chars[i];
        let ghost sub = chars@.subrange(from as int, i as int);
        let ghost next = chars@.subrange(from as int, i + 1);
        assert(next.drop_last() =~= sub);
        assert(next.last() == c);
        if '0' <= c && c <= '9' {
            let d = (c as u32 - 48) as usize;
            if digits_only && !overflow {
                match v.checked_mul(10) {
                    Some(w) => match w.checked_add(d) {
                        Some(x) => {
                            v = x;
                        },
                        None => {
                            overflow = true;
                        },
                    },
                    None => {
                        overflow = true;
                    },
                }
            }
            assert(all_digits(next) == all_digits(sub)) by {
                if all_digits(sub) {
                    assert forall|k: int| 0 <= k < next.len() implies is_ascii_digit(#[trigger] next[k]) by {
                        if k < sub.len() {
                            assert(next[k] == sub[k]);
                        }
                    }
                }
                if all_digits(next) {
                    assert forall|k: int| 0 <= k < sub.len() implies is_ascii_digit(#[trigger] sub[k]) by {
                        assert(next[k] == sub[k]);
                    }
                }
            }
        } else {
            digits_only = false;
            assert(!is_ascii_digit(next[next.len() - 1]));
        }
        i += 1;
    }
    if digits_only && !overflow && i > from {
        Some(v)
    } else {
        None
    }
}

/// The label of a port added after one labelled `label`: the trimmed label with its trailing
/// number counted up (keeping its width when it starts with a zero), else "Port {next_order}".
pub fn next_port_label(label: &str, next_order: i32) -> (r: String)
    requires
        label_splits(label@),
        label_counts_up(label@),
    ensures
        r@ == next_label_text(label@, next_order as int),
{
    let t = trim_str(label);
    let chars = chars_of(t);
    let start = number_start(&chars);
    match parse_digits(&chars, start) {
        Some(n) => {
            let ghost number = chars@.subrange(start as int, chars@.len() as int);
            let new = decimal(n + 1);
            let mut r = String::new();
            push_range(&mut r, &chars, 0, start);
            if chars[start] == '0' {
                proof { lemma_padding_fits(number); }
                let width = chars.len() - start;
                let pad = width - new.len();
                let mut k: usize = 0;
                while k < pad
                    invariant
                        k <= pad,
                        r@ == chars@.subrange(0, start as int) + zeros(k as nat),
                    decreases pad - k,
                {
                    push_char(&mut r, '0');
                    assert(zeros((k + 1) as nat) =~= zeros(k as nat).push('0'));
                    k += 1;
                }
            } else {
                assert(zeros(0) =~= Seq::<char>::empty());
            }
            crate::text::push_chars(&mut r, &new);
            proof {
                assert(number[0] == chars@[start as int]);
                if chars@[start as int] != '0' {
                    assert(r@ =~= chars@.subrange(0, start as int) + nat_text(digits_value(number) + 1));
                }
            }
            r
        },
        None => {
            let mut r = String::from_str("Port ");
            push_int(&mut r, next_order as i64);
            r
        },
    }
}

/// The label of a port added after one labelled `label`, as `next_port_label` gives it; `None`
/// where that label cannot be split after its last character that is not numeric (it takes
/// more than one byte), or its trailing number is the largest `usize`.
pub fn checked_next_port_label(label: &str, next_order: i32) -> (r: Option<String>)
    ensures
        match r {
            Some(l) => label_splits(label@) && label_counts_up(label@) && l@ == next_label_text(label@, next_order as int),
            None => !(label_splits(label@) && label_counts_up(label@)),
        },
{
    let t = trim_str(label);
    let chars = chars_of(t);
    let start = number_start(&chars);
    if start > 0 && (chars[start - 1] as u32) >= 128 {
        return None;
    }
    match parse_digits(&chars, start) {
        Some(n) => {
            if n == usize::MAX {
                return None;
            }
        },
        None => {},
    }
    Some(next_port_label(label, next_order))
}


/// A port of the panel as the database holds it.
#[derive(Debug, Clone)]
pub struct PanelPortEntry {
    pub id: i32,
    pub order_number: i32,
    pub label: Option<String>,
    pub port_type: PortType,
    pub netbox_port: Option<NetboxPortId>,
}

/// A Netbox rear port by id.
#[derive(Debug, Clone, Copy, PartialEq, Eq, Structural)]
pub struct NetboxPortId {
    pub id: i32,
}

/// A panel with its ports, its name and the Netbox device its ports belong to.
#[derive(Debug, Clone)]
pub struct FetchedPanelWithPorts {
    pub ports: Vec<PanelPortEntry>,
    pub panel_name: Option<String>,
    pub schacht_name: Option<String>,
    pub netbox_device_id: Option<i32>,
}

/// The first device given, if any.
pub open spec fn first_device(devices: Seq<Option<i32>>) -> Option<i32>
    decreases devices.len(),
{
    if devices.len() == 0 {
        None
    } else if devices[0] is Some {
        devices[0]
    } else {
        first_device(devices.drop_first())
    }
}

/// The first device given, if any.
fn first_device_of(devices: &[Option<i32>]) -> (r: Option<i32>)
    ensures
        r == first_device(devices@),
{
    let mut i: usize = 0;
    assert(devices@.subrange(0, devices@.len() as int) == devices@);
    while i < devices.len()
        invariant
            i <= devices.len(),
            first_device(devices@) == first_device(devices@.subrange(i as int, devices@.len() as int)),
        decreases devices.len() - i,
    {
        let ghost rest = devices@.subrange(i as int, devices@.len() as int);
        assert(rest[0] == devices@[i as int]);
        if devices[i].is_some() {
            return devices[i];
        }
        assert(rest.drop_first() =~= devices@.subrange(i + 1, devices@.len() as int));
        i += 1;
    }
    assert(devices@.subrange(i as int, devices@.len() as int) =~= Seq::<Option<i32>>::empty());
    None
}

impl FetchedPanelWithPorts {
    /// The panel as loaded: its own Netbox device, else the first one of the panels above it
    /// (`parent_devices`, root first); no Schacht name.
    pub fn from_panel(ports: Vec<PanelPortEntry>, panel_name: Option<String>, own_device: Option<i32>, parent_devices: &[Option<i32>]) -> (r: FetchedPanelWithPorts)
        ensures
            r.ports@ == ports@,
            r.panel_name == panel_name,
            r.schacht_name is None,
            r.netbox_device_id == match own_device {
                Some(d) => Some(d),
                None => first_device(parent_devices@),
            },
    {
        let device = match own_device {
            Some(d) => Some(d),
            None => first_device_of(parent_devices),
        };
        FetchedPanelWithPorts { ports, panel_name, schacht_name: None, netbox_device_id: device }
    }
}

impl Default for FetchedPanelWithPorts {
    /// No ports, names or device.
    fn default() -> (r: FetchedPanelWithPorts)
        ensures
            r.ports@.len() == 0,
            r.panel_name is None,
            r.schacht_name is None,
            r.netbox_device_id is None,
    {
        FetchedPanelWithPorts { ports: Vec::new(), panel_name: None, schacht_name: None, netbox_device_id: None }
    }
}

/// A rear port of the panel's Netbox device.
#[derive(Debug, Clone)]
pub struct NetboxDevicePort {
    pub id: i32,
    pub name: String,
}

/// A port as saved: stored or new, with its place, label, type and Netbox port.
#[derive(Debug, Clone)]
pub struct FlatPortInput {
    pub id: IdOrNewInput,
    pub order: i32,
    pub label: String,
    pub port_type: PortType,
    pub netbox_port_id: Option<i32>,
}

/// A port as the editor holds it.
#[derive(Debug, Clone)]
pub struct EditablePort {
    pub id: IdOrNew,
    pub order_number: i32,
    pub label: String,
    pub port_type: PortType,
    pub deleted: bool,
    pub netbox_port: Option<i32>,
}

impl EditablePort {
    /// A stored port as the editor takes it: no label becomes an empty one.
    pub fn from_entry(p: PanelPortEntry) -> (r: EditablePort)
        ensures
            r.id == IdOrNew::Id(p.id),
            r.order_number == p.order_number,
            r.label@ == match p.label {
                Some(l) => l@,
                None => Seq::<char>::empty(),
            },
            r.port_type == p.port_type,
            !r.deleted,
            r.netbox_port == match p.netbox_port {
                Some(n) => Some(n.id),
                None => None,
            },
    {
        let label = match p.label {
            Some(l) => l,
            None => String::new(),
        };
        EditablePort {
            id: IdOrNew::Id(p.id),
            order_number: p.order_number,
            label,
            port_type: p.port_type,
            deleted: false,
            netbox_port: match p.netbox_port {
                Some(n) => Some(n.id),
                None => None,
            },
        }
    }
}

/// An exact copy of the port.
fn copy_port(p: &EditablePort) -> (r: EditablePort)
    ensures
        r == *p,
{
    EditablePort {
        id: p.id,
        order_number: p.order_number,
        label: p.label.clone(),
        port_type: p.port_type,
        deleted: p.deleted,
        netbox_port: p.netbox_port,
    }
}

/// The ports not marked deleted.
pub open spec fn active_count(ports: Seq<EditablePort>) -> nat
    decreases ports.len(),
{
    if ports.len() == 0 {
        0
    } else {
        active_count(ports.drop_last()) + if ports.last().deleted { 0nat } else { 1nat }
    }
}

proof fn lemma_active_count_bound(ports: Seq<EditablePort>)
    ensures
        active_count(ports) <= ports.len(),
    decreases ports.len(),
{
    if ports.len() > 0 {
        lemma_active_count_bound(ports.drop_last());
    }
}

/// The port at `i` after numbering: the ports not deleted count from 1 in their order, deleted
/// ones keep their number.
pub open spec fn renumbered_at(ports: Seq<EditablePort>, i: int) -> EditablePort {
    if ports[i].deleted {
        ports[i]
    } else {
        EditablePort { order_number: (active_count(ports.subrange(0, i)) + 1) as i32, ..ports[i] }
    }
}

/// The ports after numbering.
pub open spec fn renumbered(ports: Seq<EditablePort>) -> Seq<EditablePort> {
    Seq::new(ports.len(), |i: int| renumbered_at(ports, i))
}

/// The highest order number, 0 without ports.
pub open spec fn max_order(ports: Seq<EditablePort>) -> int
    decreases ports.len(),
{
    if ports.len() == 0 {
        0
    } else {
        let m = max_order(ports.drop_last());
        if ports.last().order_number > m || ports.len() == 1 {
            ports.last().order_number as int
        } else {
            m
        }
    }
}

/// The port the editor adds after the others: numbered after the highest number, labelled after
/// the last port (or "Port n"), of the last port's type (or a splice).
pub open spec fn added_port(ports: Seq<EditablePort>, p: EditablePort) -> bool {
    let next_order = max_order(ports) + 1;
    &&& p.id is Temporary
    &&& p.order_number == next_order
    &&& !p.deleted
    &&& p.netbox_port is None
    &&& if ports.len() == 0 {
        p.label@ == "Port "@ + int_text(next_order) && p.port_type == PortType::Splice
    } else {
        p.label@ == next_label_text(ports.last().label@, next_order) && p.port_type == ports.last().port_type
    }
}

/// The stored port ids in the list.
pub open spec fn deleted_ids(ports: Seq<EditablePort>) -> Seq<i32>
    decreases ports.len(),
{
    if ports.len() == 0 {
        seq![]
    } else {
        let rest = deleted_ids(ports.drop_last());
        match ports.last().id {
            IdOrNew::Id(id) => if ports.last().deleted {
                rest.push(id)
            } else {
                rest
            },
            IdOrNew::Temporary(_) => rest,
        }
    }
}

/// The ports that stay, in order.
pub open spec fn kept_ports(ports: Seq<EditablePort>) -> Seq<EditablePort> {
    ports.filter(|p: EditablePort| !p.deleted)
}

/// The input saves the port as it is.
pub open spec fn saves_port(c: FlatPortInput, p: EditablePort) -> bool {
    &&& c.order == p.order_number
    &&& c.label@ == p.label@
    &&& c.port_type == p.port_type
    &&& c.netbox_port_id == p.netbox_port
    &&& match p.id {
        IdOrNew::Id(id) => c.id.id == Some(id) && c.id.temporary is None,
        IdOrNew::Temporary(u) => c.id.id is None && opt_view(c.id.temporary) == Some(crate::ids::uuid_text(u)),
    }
}

/// The index of the last port before `index` that is not deleted.
pub open spec fn previous_active(ports: Seq<EditablePort>, index: int) -> Option<int>
    decreases index,
{
    if index <= 0 {
        None
    } else if !ports[index - 1].deleted {
        Some(index - 1)
    } else {
        previous_active(ports, index - 1)
    }
}

/// The index of the first port after `index` that is not deleted.
pub open spec fn next_active(ports: Seq<EditablePort>, index: int) -> Option<int>
    decreases ports.len() - index,
{
    if index + 1 >= ports.len() {
        None
    } else if !ports[index + 1].deleted {
        Some(index + 1)
    } else {
        next_active(ports, index + 1)
    }
}

/// The ports with those at `i` and `j` exchanged.
pub open spec fn swapped_ports(ports: Seq<EditablePort>, i: int, j: int) -> Seq<EditablePort> {
    ports.update(i, ports[j]).update(j, ports[i])
}

/// The state of the page editing a panel's ports.
pub struct PortEditor {
    ports: Vec<EditablePort>,
    panel_name: Option<String>,
    cabinet_name: Option<String>,
    netbox_device_id: Option<i32>,
    netbox_ports: Vec<NetboxDevicePort>,
}

impl PortEditor {
    /// The ports in the editor, deleted ones included.
    pub closed spec fn port_list(&self) -> Seq<EditablePort> {
        self.ports@
    }

    /// The ports of the Netbox device.
    pub closed spec fn netbox_list(&self) -> Seq<NetboxDevicePort> {
        self.netbox_ports@
    }

    pub closed spec fn panel_name_view(&self) -> Option<Seq<char>> {
        opt_view(self.panel_name)
    }

    pub closed spec fn cabinet_name_view(&self) -> Option<Seq<char>> {
        opt_view(self.cabinet_name)
    }

    pub closed spec fn device(&self) -> Option<i32> {
        self.netbox_device_id
    }

    /// Nothing loaded.
    pub fn new() -> (r: PortEditor)
        ensures
            r.port_list().len() == 0,
            r.netbox_list().len() == 0,
            r.panel_name_view() is None,
            r.cabinet_name_view() is None,
            r.device() is None,
    {
        PortEditor { ports: Vec::new(), panel_name: None, cabinet_name: None, netbox_device_id: None, netbox_ports: Vec::new() }
    }

    pub fn ports(&self) -> (r: &Vec<EditablePort>)
        ensures
            r@ == self.port_list(),
    {
        &self.ports
    }

    pub fn netbox_ports(&self) -> (r: &Vec<NetboxDevicePort>)
        ensures
            r@ == self.netbox_list(),
    {
        &self.netbox_ports
    }

    /// The ports arrived: they replace those in the editor, and the Netbox ports are dropped until
    /// those of the device (returned, if any) arrive.
    pub fn ports_fetched(&mut self, ports: Vec<EditablePort>, panel_name: Option<String>, cabinet_name: Option<String>, netbox_device_id: Option<i32>) -> (r: Option<i32>)
        ensures
            final(self).port_list() == ports@,
            final(self).panel_name_view() == opt_view(panel_name),
            final(self).cabinet_name_view() == opt_view(cabinet_name),
            final(self).device() == netbox_device_id,
            final(self).netbox_list().len() == 0,
            r == netbox_device_id,
    {
        self.ports = ports;
        self.panel_name = panel_name;
        self.cabinet_name = cabinet_name;
        self.netbox_device_id = netbox_device_id;
        self.netbox_ports = Vec::new();
        netbox_device_id
    }

    /// The rear ports of the device arrived.
    pub fn netbox_ports_fetched(&mut self, netbox_ports: Vec<NetboxDevicePort>)
        ensures
            final(self).netbox_list() == netbox_ports@,
            final(self).port_list() == old(self).port_list(),
            final(self).device() == old(self).device(),
            final(self).panel_name_view() == old(self).panel_name_view(),
            final(self).cabinet_name_view() == old(self).cabinet_name_view(),
    {
        self.netbox_ports = netbox_ports;
    }

    /// Numbers the ports not deleted from 1 in their order.
    fn recalculate_orders(&mut self)
        requires
            old(self).port_list().len() < i32::MAX,
        ensures
            final(self).port_list() == renumbered(old(self).port_list()),
            final(self).netbox_list() == old(self).netbox_list(),
            final(self).device() == old(self).device(),
            final(self).panel_name_view() == old(self).panel_name_view(),
            final(self).cabinet_name_view() == old(self).cabinet_name_view(),
    {
        let ghost start = self.ports@;
        let mut current_order: i32 = 1;
        let mut i: usize = 0;
        while i < self.ports.len()
            invariant
                i <= self.ports.len(),
                start.len() == self.ports@.len(),
                start.len() < i32::MAX,
                current_order == active_count(start.subrange(0, i as int)) + 1,
                forall|j: int| 0 <= j < i ==> self.ports@[j] == renumbered_at(start, j),
                forall|j: int| i <= j < start.len() ==> self.ports@[j] == start[j],
                self.netbox_ports@ == old(self).netbox_ports@,
                self.netbox_device_id == old(self).netbox_device_id,
                self.panel_name == old(self).panel_name,
                self.cabinet_name == old(self).cabinet_name,
            decreases self.ports.len() - i,
        {
            proof {
                let sub = start.subrange(0, i + 1);
                assert(sub.drop_last() =~= start.subrange(0, i as int));
                assert(sub.last() == start[i as int]);
                lemma_active_count_bound(start.subrange(0, i as int));
            }
            if !self.ports[i].deleted {
                let p = copy_port(&self.ports[i]);
                self.ports.set(i, EditablePort { order_number: current_order, ..p });
                current_order += 1;
            }
            i += 1;
        }
        assert(self.ports@ =~= renumbered(start));
    }

    /// Adds a port after the others (see `added_port`) and numbers the ports anew.
    pub fn add_port(&mut self)
        requires
            old(self).port_list().len() + 1 < i32::MAX,
            max_order(old(self).port_list()) < i32::MAX,
            old(self).port_list().len() > 0 ==> label_splits(old(self).port_list().last().label@) && label_counts_up(
                old(self).port_list().last().label@,
            ),
        ensures
            final(self).port_list().len() == old(self).port_list().len() + 1,
            exists|p: EditablePort| added_port(old(self).port_list(), p) && final(self).port_list() == renumbered(old(self).port_list().push(p)),
            final(self).netbox_list() == old(self).netbox_list(),
            final(self).device() == old(self).device(),
            final(self).panel_name_view() == old(self).panel_name_view(),
            final(self).cabinet_name_view() == old(self).cabinet_name_view(),
    {
        let next_order = self.highest_order() + 1;
        let n = self.ports.len();
        let (label, port_type) = if n > 0 {
            (next_port_label(self.ports[n - 1].label.as_str(), next_order), self.ports[n - 1].port_type)
        } else {
            let mut l = String::from_str("Port ");
            push_int(&mut l, next_order as i64);
            (l, PortType::Splice)
        };
        let p = EditablePort { id: IdOrNew::default(), order_number: next_order, label, port_type, deleted: false, netbox_port: None };
        let ghost added = p;
        self.ports.push(p);
        self.recalculate_orders();
        assert(added_port(old(self).port_list(), added));
    }

    /// The highest order number, 0 without ports.
    fn highest_order(&self) -> (r: i32)
        ensures
            r == max_order(self.port_list()),
    {
        let mut m: i32 = 0;
        let mut i: usize = 0;
        while i < self.ports.len()
            invariant
                i <= self.ports.len(),
                m == max_order(self.ports@.subrange(0, i as int)),
            decreases self.ports.len() - i,
        {
            proof {
                let sub = self.ports@.subrange(0, i + 1);
                assert(sub.drop_last() =~= self.ports@.subrange(0, i as int));
                assert(sub.last() == self.ports@[i as int]);
            }
            if self.ports[i].order_number > m || i == 0 {
                m = self.ports[i].order_number;
            }
            i += 1;
        }
        assert(self.ports@.subrange(0, self.ports@.len() as int) == self.ports@);
        m
    }

    /// Adds a port as `add_port` does, unless that would fail: with too many ports, the highest
    /// number at the largest `i32`, or a last label that cannot be split after its last character
    /// that is not numeric (one taking more than one byte) or counted up. Returns whether it added.
    pub fn try_add_port(&mut self) -> (r: bool)
        ensures
            r == (old(self).port_list().len() + 1 < i32::MAX && max_order(old(self).port_list()) < i32::MAX && (old(self).port_list().len()
                > 0 ==> label_splits(old(self).port_list().last().label@) && label_counts_up(old(self).port_list().last().label@))),
            r ==> final(self).port_list().len() == old(self).port_list().len() + 1 && exists|p: EditablePort|
                added_port(old(self).port_list(), p) && final(self).port_list() == renumbered(old(self).port_list().push(p)),
            !r ==> final(self).port_list() == old(self).port_list(),
            final(self).netbox_list() == old(self).netbox_list(),
            final(self).device() == old(self).device(),
            final(self).panel_name_view() == old(self).panel_name_view(),
            final(self).cabinet_name_view() == old(self).cabinet_name_view(),
    {
        let n = self.ports.len();
        if n >= 2147483646 {
            return false;
        }
        let highest = self.highest_order();
        if highest == i32::MAX {
            return false;
        }
        if n > 0 {
            if checked_next_port_label(self.ports[n - 1].label.as_str(), highest + 1).is_none() {
                return false;
            }
        }
        self.add_port();
        true
    }

    /// Sets the label of the port at `index`, if there is one.
    pub fn update_label(&mut self, index: usize, label: String)
        ensures
            final(self).port_list() == if index < old(self).port_list().len() {
                old(self).port_list().update(index as int, EditablePort { label, ..old(self).port_list()[index as int] })
            } else {
                old(self).port_list()
            },
            final(self).netbox_list() == old(self).netbox_list(),
            final(self).device() == old(self).device(),
            final(self).panel_name_view() == old(self).panel_name_view(),
            final(self).cabinet_name_view() == old(self).cabinet_name_view(),
    {
        if index < self.ports.len() {
            let p = copy_port(&self.ports[index]);
            self.ports.set(index, EditablePort { label, ..p });
        }
    }

    /// Sets the type of the port at `index`, if there is one.
    pub fn update_type(&mut self, index: usize, port_type: PortType)
        ensures
            final(self).port_list() == if index < old(self).port_list().len() {
                old(self).port_list().update(index as int, EditablePort { port_type, ..old(self).port_list()[index as int] })
            } else {
                old(self).port_list()
            },
            final(self).netbox_list() == old(self).netbox_list(),
            final(self).device() == old(self).device(),
            final(self).panel_name_view() == old(self).panel_name_view(),
            final(self).cabinet_name_view() == old(self).cabinet_name_view(),
    {
        if index < self.ports.len() {
            let p = copy_port(&self.ports[index]);
            self.ports.set(index, EditablePort { port_type, ..p });
        }
    }

    /// Sets the Netbox port of the port at `index`, if there is one.
    pub fn update_netbox_id(&mut self, index: usize, port_id: Option<i32>)
        ensures
            final(self).port_list() == if index < old(self).port_list().len() {
                old(self).port_list().update(index as int, EditablePort { netbox_port: port_id, ..old(self).port_list()[index as int] })
            } else {
                old(self).port_list()
            },
            final(self).netbox_list() == old(self).netbox_list(),
            final(self).device() == old(self).device(),
            final(self).panel_name_view() == old(self).panel_name_view(),
            final(self).cabinet_name_view() == old(self).cabinet_name_view(),
    {
        if index < self.ports.len() {
            let p = copy_port(&self.ports[index]);
            self.ports.set(index, EditablePort { netbox_port: port_id, ..p });
        }
    }

    /// Deletes the port at `index`: a new one goes, a stored one is marked deleted. The ports are
    /// numbered anew either way.
    pub fn mark_deleted(&mut self, index: usize)
        requires
            old(self).port_list().len() < i32::MAX,
        ensures
            final(self).port_list() == renumbered(
                if index < old(self).port_list().len() {
                    match old(self).port_list()[index as int].id {
                        IdOrNew::Temporary(_) => old(self).port_list().remove(index as int),
                        IdOrNew::Id(_) => old(self).port_list().update(index as int, EditablePort { deleted: true, ..old(self).port_list()[index as int] }),
                    }
                } else {
                    old(self).port_list()
                },
            ),
            final(self).netbox_list() == old(self).netbox_list(),
            final(self).device() == old(self).device(),
            final(self).panel_name_view() == old(self).panel_name_view(),
            final(self).cabinet_name_view() == old(self).cabinet_name_view(),
    {
        if index < self.ports.len() {
            match self.ports[index].id {
                IdOrNew::Temporary(_) => {
                    self.ports.remove(index);
                },
                IdOrNew::Id(_) => {
                    let p = copy_port(&self.ports[index]);
                    self.ports.set(index, EditablePort { deleted: true, ..p });
                },
            }
        }
        self.recalculate_orders();
    }

    /// Exchanges the ports at `i` and `j`.
    fn swap_ports(&mut self, i: usize, j: usize)
        requires
            i < old(self).port_list().len(),
            j < old(self).port_list().len(),
        ensures
            final(self).port_list() == swapped_ports(old(self).port_list(), i as int, j as int),
            final(self).netbox_list() == old(self).netbox_list(),
            final(self).device() == old(self).device(),
            final(self).panel_name_view() == old(self).panel_name_view(),
            final(self).cabinet_name_view() == old(self).cabinet_name_view(),
    {
        let a = copy_port(&self.ports[i]);
        let b = copy_port(&self.ports[j]);
        self.ports.set(i, b);
        self.ports.set(j, a);
    }

    /// Moves the port at `index` before the previous port that is not deleted, if any, and numbers
    /// the ports anew.
    pub fn move_up(&mut self, index: usize)
        requires
            index < old(self).port_list().len(),
            old(self).port_list().len() < i32::MAX,
        ensures
            final(self).port_list() == match previous_active(old(self).port_list(), index as int) {
                Some(j) => renumbered(swapped_ports(old(self).port_list(), index as int, j)),
                None => old(self).port_list(),
            },
            final(self).netbox_list() == old(self).netbox_list(),
            final(self).device() == old(self).device(),
            final(self).panel_name_view() == old(self).panel_name_view(),
            final(self).cabinet_name_view() == old(self).cabinet_name_view(),
    {
        let mut k: usize = index;
        while k > 0 && self.ports[k - 1].deleted
            invariant
                k <= index,
                index < self.ports@.len(),
                previous_active(self.ports@, index as int) == previous_active(self.ports@, k as int),
            decreases k,
        {
            k -= 1;
        }
        if k > 0 {
            self.swap_ports(index, k - 1);
            self.recalculate_orders();
        }
    }

    /// Moves the port at `index` after the next port that is not deleted, if any, and numbers the
    /// ports anew.
    pub fn move_down(&mut self, index: usize)
        requires
            old(self).port_list().len() < i32::MAX,
        ensures
            final(self).port_list() == match next_active(old(self).port_list(), index as int) {
                Some(j) => renumbered(swapped_ports(old(self).port_list(), index as int, j)),
                None => old(self).port_list(),
            },
            final(self).netbox_list() == old(self).netbox_list(),
            final(self).device() == old(self).device(),
            final(self).panel_name_view() == old(self).panel_name_view(),
            final(self).cabinet_name_view() == old(self).cabinet_name_view(),
    {
        if index >= self.ports.len() {
            return;
        }
        let mut k: usize = index + 1;
        while k < self.ports.len() && self.ports[k].deleted
            invariant
                index < k <= self.ports@.len(),
                next_active(self.ports@, index as int) == next_active(self.ports@, k - 1),
            decreases self.ports@.len() - k,
        {
            k += 1;
        }
        if k < self.ports.len() {
            self.swap_ports(index, k);
            self.recalculate_orders();
        }
    }
}


/// The input saving the port.
fn flat_input(p: &EditablePort) -> (r: FlatPortInput)
    ensures
        saves_port(r, *p),
{
    FlatPortInput {
        id: IdOrNewInput::from(p.id),
        order: p.order_number,
        label: p.label.clone(),
        port_type: p.port_type,
        netbox_port_id: p.netbox_port,
    }
}

impl PortEditor {
    /// What saving sends: the ports that stay, in order, and the ids of the stored ports marked
    /// deleted (new ports marked deleted are simply dropped).
    pub fn save(&self) -> (r: (Vec<FlatPortInput>, Vec<i32>))
        ensures
            r.0@.len() == kept_ports(self.port_list()).len(),
            forall|i: int| 0 <= i < r.0@.len() ==> saves_port(#[trigger] r.0@[i], kept_ports(self.port_list())[i]),
            r.1@ == deleted_ids(self.port_list()),
    {
        let mut changes: Vec<FlatPortInput> = Vec::new();
        let mut deletes: Vec<i32> = Vec::new();
        let ghost keep = |p: EditablePort| !p.deleted;
        let mut i: usize = 0;
        while i < self.ports.len()
            invariant
                i <= self.ports.len(),
                keep == (|p: EditablePort| !p.deleted),
                changes@.len() == self.ports@.subrange(0, i as int).filter(keep).len(),
                forall|j: int| 0 <= j < changes@.len() ==> saves_port(#[trigger] changes@[j], self.ports@.subrange(0, i as int).filter(keep)[j]),
                deletes@ == deleted_ids(self.ports@.subrange(0, i as int)),
            decreases self.ports.len() - i,
        {
            let ghost before = changes@;
            proof {
                let sub = self.ports@.subrange(0, i + 1);
                assert(sub.drop_last() =~= self.ports@.subrange(0, i as int));
                assert(sub.last() == self.ports@[i as int]);
                self.ports@.subrange(0, i as int).lemma_filter_push(self.ports@[i as int], keep);
                assert(sub == self.ports@.subrange(0, i as int).push(self.ports@[i as int]));
            }
            let port = &self.ports[i];
            if port.deleted {
                match port.id {
                    IdOrNew::Id(id) => deletes.push(id),
                    IdOrNew::Temporary(_) => {},
                }
            } else {
                changes.push(flat_input(port));
                proof {
                    assert forall|j: int| 0 <= j < changes@.len() implies saves_port(#[trigger] changes@[j], self.ports@.subrange(0, i + 1).filter(keep)[j]) by {
                        if j < before.len() {
                            assert(changes@[j] == before[j]);
                        }
                    }
                }
            }
            i += 1;
        }
        assert(self.ports@.subrange(0, self.ports@.len() as int) == self.ports@);
        (changes, deletes)
    }

    /// The title: "Panel: p (Schacht: s)", "Panel: p", "Panel bearbeiten (Schacht: s)" or
    /// "Panel bearbeiten", as the names are known.
    pub fn title_text(&self) -> (r: String)
        ensures
            r@ == match (self.panel_name_view(), self.cabinet_name_view()) {
                (Some(p), Some(s)) => "Panel: "@ + p + " (Schacht: "@ + s + ")"@,
                (Some(p), None) => "Panel: "@ + p,
                (None, Some(s)) => "Panel bearbeiten (Schacht: "@ + s + ")"@,
                (None, None) => "Panel bearbeiten"@,
            },
    {
        match (&self.panel_name, &self.cabinet_name) {
            (Some(p), Some(s)) => {
                let mut r = String::from_str("Panel: ");
                r.append(p.as_str());
                r.append(" (Schacht: ");
                r.append(s.as_str());
                r.append(")");
                r
            },
            (Some(p), None) => {
                let mut r = String::from_str("Panel: ");
                r.append(p.as_str());
                r
            },
            (None, Some(s)) => {
                let mut r = String::from_str("Panel bearbeiten (Schacht: ");
                r.append(s.as_str());
                r.append(")");
                r
            },
            (None, None) => String::from_str("Panel bearbeiten"),
        }
    }

    /// The indices of the ports shown: those not deleted, in order.
    pub fn visible_indices(&self) -> (r: Vec<usize>)
        ensures
            forall|j: int| 0 <= j < r@.len() ==> r@[j] < self.port_list().len() && !self.port_list()[r@[j] as int].deleted,
            forall|j: int, k: int| 0 <= j < k < r@.len() ==> r@[j] < r@[k],
            forall|i: int| 0 <= i < self.port_list().len() && !self.port_list()[i].deleted ==> r@.contains(i as usize),
    {
        let mut r: Vec<usize> = Vec::new();
        let mut i: usize = 0;
        while i < self.ports.len()
            invariant
                i <= self.ports.len(),
                forall|j: int| 0 <= j < r@.len() ==> r@[j] < i && !self.ports@[r@[j] as int].deleted,
                forall|j: int, k: int| 0 <= j < k < r@.len() ==> r@[j] < r@[k],
                forall|x: int| 0 <= x < i && !self.ports@[x].deleted ==> r@.contains(x as usize),
            decreases self.ports.len() - i,
        {
            if !self.ports[i].deleted {
                let ghost before = r@;
                r.push(i);
                proof {
                    assert forall|x: int| 0 <= x < i + 1 && !self.ports@[x].deleted implies r@.contains(x as usize) by {
                        if x < i {
                            let w = choose|w: int| 0 <= w < before.len() && before[w] == x as usize;
                            assert(r@[w] == x as usize);
                        } else {
                            assert(r@[r@.len() - 1] == x as usize);
                        }
                    }
                }
            }
            i += 1;
        }
        r
    }

    /// The name of the port's Netbox port among the device's ports, " - " without one.
    pub fn netbox_port_name(&self, port: &EditablePort) -> (r: &str)
        ensures
            r@ == match port.netbox_port {
                Some(id) => match first_netbox_port(self.netbox_list(), id) {
                    Some(np) => np.name@,
                    None => " - "@,
                },
                None => " - "@,
            },
    {
        match port.netbox_port {
            Some(id) => {
                let mut i: usize = 0;
                assert(self.netbox_ports@.subrange(0, self.netbox_ports@.len() as int) == self.netbox_ports@);
                while i < self.netbox_ports.len()
                    invariant
                        i <= self.netbox_ports.len(),
                        port.netbox_port == Some(id),
                        first_netbox_port(self.netbox_ports@, id) == first_netbox_port(self.netbox_ports@.subrange(i as int, self.netbox_ports@.len() as int), id),
                    decreases self.netbox_ports.len() - i,
                {
                    let ghost rest = self.netbox_ports@.subrange(i as int, self.netbox_ports@.len() as int);
                    assert(rest[0] == self.netbox_ports@[i as int]);
                    if self.netbox_ports[i].id == id {
                        return self.netbox_ports[i].name.as_str();
                    }
                    assert(rest.drop_first() =~= self.netbox_ports@.subrange(i + 1, self.netbox_ports@.len() as int));
                    i += 1;
                }
                assert(self.netbox_ports@.subrange(i as int, self.netbox_ports@.len() as int) =~= Seq::<NetboxDevicePort>::empty());
                " - "
            },
            None => " - ",
        }
    }
}

/// The first Netbox port with this id.
pub open spec fn first_netbox_port(ports: Seq<NetboxDevicePort>, id: i32) -> Option<NetboxDevicePort>
    decreases ports.len(),
{
    if ports.len() == 0 {
        None
    } else if ports[0].id == id {
        Some(ports[0])
    } else {
        first_netbox_port(ports.drop_first(), id)
    }
}

impl EditablePort {
    /// The key of the port's row: the stored id, or the UUID of a new port, as text.
    pub fn row_key(&self) -> (r: String)
        ensures
            r@ == match self.id {
                IdOrNew::Id(id) => int_text(id as int),
                IdOrNew::Temporary(u) => crate::ids::uuid_text(u),
            },
    {
        match self.id {
            IdOrNew::Id(id) => crate::text::int_to_text(id as i64),
            IdOrNew::Temporary(u) => {
                let input = IdOrNewInput::from(self.id);
                match input.temporary {
                    Some(t) => t,
                    None => String::new(),
                }
            },
        }
    }
}


/// The port is the other one up to its number; a deleted port is the same.
pub open spec fn same_but_number(a: EditablePort, b: EditablePort) -> bool {
    &&& a.deleted == b.deleted
    &&& (a.deleted ==> a == b)
    &&& a == EditablePort { order_number: a.order_number, ..b }
}

proof fn lemma_renumbered_at_same(ports: Seq<EditablePort>, i: int)
    requires
        0 <= i < ports.len(),
    ensures
        same_but_number(renumbered_at(ports, i), ports[i]),
{
}

proof fn lemma_active_count_same(a: Seq<EditablePort>, b: Seq<EditablePort>)
    requires
        a.len() == b.len(),
        forall|m: int| 0 <= m < a.len() ==> a[m].deleted == b[m].deleted,
    ensures
        active_count(a) == active_count(b),
    decreases a.len(),
{
    if a.len() > 0 {
        lemma_active_count_same(a.drop_last(), b.drop_last());
    }
}

/// Lists that differ only in the numbers of ports not deleted are numbered alike.
proof fn lemma_renumbered_same(a: Seq<EditablePort>, b: Seq<EditablePort>)
    requires
        a.len() == b.len(),
        forall|m: int| 0 <= m < a.len() ==> same_but_number(#[trigger] a[m], b[m]),
    ensures
        renumbered(a) == renumbered(b),
{
    assert forall|i: int| 0 <= i < a.len() implies renumbered_at(a, i) == renumbered_at(b, i) by {
        assert(same_but_number(a[i], b[i]));
        lemma_active_count_same(a.subrange(0, i), b.subrange(0, i));
    }
    assert(renumbered(a) =~= renumbered(b));
}

proof fn lemma_renumbered_prefix(ports: Seq<EditablePort>)
    requires
        ports.len() > 0,
    ensures
        renumbered(ports).drop_last() == renumbered(ports.drop_last()),
        renumbered(ports).last() == renumbered_at(ports, ports.len() - 1),
{
    let t = ports.drop_last();
    assert forall|i: int| 0 <= i < t.len() implies renumbered_at(ports, i) == renumbered_at(t, i) by {
        assert(ports.subrange(0, i) =~= t.subrange(0, i));
    }
    assert(renumbered(ports).drop_last() =~= renumbered(t));
}

/// Once numbered, the ports that stay count from 1 in their order, as many as there are ports
/// not deleted; deleted ports keep their number.
pub proof fn law_numbered_from_one(ports: Seq<EditablePort>)
    requires
        ports.len() < i32::MAX,
    ensures
        kept_ports(renumbered(ports)).len() == active_count(ports),
        forall|k: int| 0 <= k < kept_ports(renumbered(ports)).len() ==> #[trigger] kept_ports(renumbered(ports))[k].order_number == k + 1,
        forall|i: int| 0 <= i < ports.len() && ports[i].deleted ==> #[trigger] renumbered(ports)[i] == ports[i],
    decreases ports.len(),
{
    let keep = |p: EditablePort| !p.deleted;
    if ports.len() == 0 {
        assert(kept_ports(renumbered(ports)) =~= Seq::<EditablePort>::empty());
    } else {
        let t = ports.drop_last();
        law_numbered_from_one(t);
        lemma_renumbered_prefix(ports);
        let last = renumbered_at(ports, ports.len() - 1);
        assert(renumbered(ports) =~= renumbered(t).push(last));
        renumbered(t).lemma_filter_push(last, keep);
        assert(ports.subrange(0, ports.len() - 1) =~= t);
        lemma_active_count_bound(t);
        if !last.deleted {
            assert(kept_ports(renumbered(ports)) == kept_ports(renumbered(t)).push(last));
        } else {
            assert(kept_ports(renumbered(ports)) == kept_ports(renumbered(t)));
        }
    }
}

proof fn lemma_previous_active(ports: Seq<EditablePort>, index: int, j: int)
    requires
        0 <= index < ports.len(),
        previous_active(ports, index) == Some(j),
    ensures
        0 <= j < index,
        !ports[j].deleted,
        forall|m: int| j < m < index ==> ports[m].deleted,
    decreases index,
{
    if index > 0 && ports[index - 1].deleted {
        lemma_previous_active(ports, index - 1, j);
    }
}

proof fn lemma_next_active_found(ports: Seq<EditablePort>, j: int, index: int)
    requires
        0 <= j < index < ports.len(),
        !ports[index].deleted,
        forall|m: int| j < m < index ==> ports[m].deleted,
    ensures
        next_active(ports, j) == Some(index),
    decreases index - j,
{
    if j + 1 < index {
        lemma_next_active_found(ports, j + 1, index);
    }
}

/// Moving a port up and then down again gives the ports back, numbered: after `move_up`
/// exchanged the port at `index` with the previous port not deleted, at `j`, the next port not
/// deleted after `j` is the one at `index`, and `move_down` at `j` exchanges them back.
pub proof fn law_move_up_then_down(ports: Seq<EditablePort>, index: int)
    requires
        0 <= index < ports.len(),
        ports.len() < i32::MAX,
        previous_active(ports, index) is Some,
    ensures
        ({
            let j = previous_active(ports, index)->0;
            let up = renumbered(swapped_ports(ports, index, j));
            &&& next_active(up, j) == Some(index)
            &&& renumbered(swapped_ports(up, j, index)) == renumbered(ports)
        }),
{
    let j = previous_active(ports, index)->0;
    lemma_previous_active(ports, index, j);
    let sw = swapped_ports(ports, index, j);
    let up = renumbered(sw);
    assert forall|m: int| 0 <= m < up.len() implies same_but_number(#[trigger] up[m], sw[m]) by {
        lemma_renumbered_at_same(sw, m);
    }
    assert(!up[index].deleted);
    assert forall|m: int| j < m < index implies up[m].deleted by {
        assert(same_but_number(up[m], sw[m]));
    }
    lemma_next_active_found(up, j, index);
    let back = swapped_ports(up, j, index);
    assert forall|m: int| 0 <= m < back.len() implies same_but_number(#[trigger] back[m], ports[m]) by {
        if m == j {
            assert(same_but_number(up[index], sw[index]));
        } else if m == index {
            assert(same_but_number(up[j], sw[j]));
        } else {
            assert(same_but_number(up[m], sw[m]));
        }
    }
    lemma_renumbered_same(back, ports);
}

} // verus!
