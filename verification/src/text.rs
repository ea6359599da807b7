//! Building texts shown to users: decimal numbers and the pieces strings are made of.

use vstd::prelude::*;

verus! {

/// The character of a decimal digit.
pub open spec fn digit_char(d: int) -> char
    recommends
        0 <= d < 10,
{
    (48 + d) as char
}

/// Decimal digits of a natural number, most significant first, without leading zeros.
pub open spec fn nat_text(n: nat) -> Seq<char>
    decreases n,
{
    if n < 10 {
        seq![digit_char(n as int)]
    } else {
        nat_text(n / 10) + seq![digit_char((n % 10) as int)]
    }
}

/// An integer as `Display` writes it: a minus sign for negative values, then the digits.
pub open spec fn int_text(n: int) -> Seq<char> {
    if n < 0 {
        seq!['-'] + nat_text((-n) as nat)
    } else {
        nat_text(n as nat)
    }
}

/// Appends a character (`String::push`).
#[verifier::external_body]
pub(crate) fn push_char(s: &mut String, c: char)
    ensures
        final(s)@ == old(s)@.push(c),
{
    s.push(c);
}

/// The digits of `n`, most significant first.
fn digits(n: u64) -> (r: Vec<char>)
    ensures
        r@ == nat_text(n as nat),
{
    let mut m = n;
    let mut tail: Vec<char> = Vec::new();
    while m >= 10
        invariant
            nat_text(n as nat) == nat_text(m as nat) + tail@,
        decreases m,
    {
        let d = (m % 10) as u8;
        let c = (48u8 + d) as char;
        let ghost before = tail@;
        tail.insert(0, c);
        assert(tail@ == seq![c] + before);
        assert(c == digit_char((m % 10) as int));
        assert(nat_text(m as nat) == nat_text((m / 10) as nat) + seq![c]);
        m = m / 10;
    }
    let ghost before = tail@;
    tail.insert(0, (48u8 + m as u8) as char);
    assert(tail@ == seq![digit_char(m as int)] + before);
    tail
}

/// Appends the characters of `chars`.
pub fn push_chars(s: &mut String, chars: &Vec<char>)
    ensures
        final(s)@ == old(s)@ + chars@,
{
    let mut i: usize = 0;
    while i < chars.len()
        invariant
            i <= chars.len(),
            s@ == old(s)@ + chars@.subrange(0, i as int),
        decreases chars.len() - i,
    {
        push_char(s, chars[i]);
        assert(chars@.subrange(0, i + 1) == chars@.subrange(0, i as int).push(chars@[i as int]));
        i += 1;
    }
    assert(chars@.subrange(0, chars.len() as int) == chars@);
}

/// Appends `n` in decimal, as `write!(s, "{n}")` does.
pub fn push_int(s: &mut String, n: i64)
    ensures
        final(s)@ == old(s)@ + int_text(n as int),
{
    if n < 0 {
        push_char(s, '-');
        let m: u64 = if n == i64::MIN { 9223372036854775808u64 } else { (-n) as u64 };
        let d = digits(m);
        push_chars(s, &d);
    } else {
        let d = digits(n as u64);
        push_chars(s, &d);
    }
}

/// Appends the natural number `n` in decimal.
pub fn push_nat(s: &mut String, n: u64)
    ensures
        final(s)@ == old(s)@ + nat_text(n as nat),
{
    let d = digits(n);
    push_chars(s, &d);
}

/// `n` in decimal (`n.to_string()`).
pub fn int_to_text(n: i64) -> (r: String)
    ensures
        r@ == int_text(n as int),
{
    let mut r = String::new();
    push_int(&mut r, n);
    r
}

/// The texts joined with `sep` between them.
pub open spec fn join(parts: Seq<Seq<char>>, sep: Seq<char>) -> Seq<char>
    decreases parts.len(),
{
    if parts.len() == 0 {
        seq![]
    } else if parts.len() == 1 {
        parts[0]
    } else {
        join(parts.drop_last(), sep) + sep + parts.last()
    }
}

/// Nothing for no parts, else `lead` and the parts joined with `sep`.
pub open spec fn led_join(parts: Seq<Seq<char>>, lead: Seq<char>, sep: Seq<char>) -> Seq<char> {
    if parts.len() == 0 {
        seq![]
    } else {
        lead + join(parts, sep)
    }
}

/// The texts of string slices.
pub open spec fn str_texts(parts: Seq<&str>) -> Seq<Seq<char>> {
    parts.map_values(|p: &str| p@)
}

/// Appends nothing for no parts, else `lead` and the parts joined with `sep`.
pub fn push_joined(out: &mut String, lead: &str, sep: &str, parts: &[&str])
    ensures
        final(out)@ == old(out)@ + led_join(str_texts(parts@), lead@, sep@),
{
    let ghost start = out@;
    let ghost texts = str_texts(parts@);
    let mut i: usize = 0;
    while i < parts.len()
        invariant
            i <= parts.len(),
            texts == str_texts(parts@),
            out@ == start + led_join(texts.subrange(0, i as int), lead@, sep@),
        decreases parts.len() - i,
    {
        if i == 0 {
            out.append(lead);
        } else {
            out.append(sep);
        }
        out.append(parts[i]);
        proof {
            let sub = texts.subrange(0, i + 1);
            assert(sub.drop_last() == texts.subrange(0, i as int));
            assert(sub.last() == parts@[i as int]@);
            if i == 0 {
                assert(join(sub, sep@) == sub[0]);
            }
        }
        i += 1;
    }
    assert(texts.subrange(0, parts@.len() as int) == texts);
}

/// Something with an optional name, such as a panel.
pub trait Named {
    /// The name, if it has one.
    spec fn name_view(&self) -> Option<Seq<char>>;

    fn name_str(&self) -> (r: Option<&str>)
        ensures
            match r {
                Some(s) => self.name_view() == Some(s@),
                None => self.name_view() is None,
            };
}

/// The names of the items that have one, in order.
pub open spec fn names_of<T: Named>(items: Seq<T>) -> Seq<Seq<char>>
    decreases items.len(),
{
    if items.len() == 0 {
        seq![]
    } else {
        let rest = names_of(items.drop_last());
        match items.last().name_view() {
            Some(n) => rest.push(n),
            None => rest,
        }
    }
}

/// The names of the items that have one, in order.
pub fn names<T: Named>(items: &[T]) -> (r: Vec<&str>)
    ensures
        str_texts(r@) == names_of(items@),
{
    let mut r: Vec<&str> = Vec::new();
    let mut i: usize = 0;
    while i < items.len()
        invariant
            i <= items.len(),
            str_texts(r@) == names_of(items@.subrange(0, i as int)),
        decreases items.len() - i,
    {
        let ghost before = r@;
        match items[i].name_str() {
            Some(n) => {
                r.push(n);
            },
            None => {},
        }
        proof {
            let sub = items@.subrange(0, i + 1);
            assert(sub.drop_last() == items@.subrange(0, i as int));
            assert(sub.last() == items@[i as int]);
            assert(str_texts(r@) =~= match items@[i as int].name_view() {
                Some(n) => str_texts(before).push(n),
                None => str_texts(before),
            });
        }
        i += 1;
    }
    assert(items@.subrange(0, items@.len() as int) == items@);
    r
}

/// The text of an optional name.
pub open spec fn opt_view(o: Option<String>) -> Option<Seq<char>> {
    match o {
        Some(s) => Some(s@),
        None => None,
    }
}

/// The text of an optional name as a string slice.
pub fn opt_str(o: &Option<String>) -> (r: Option<&str>)
    ensures
        match r {
            Some(s) => opt_view(*o) == Some(s@),
            None => o is None,
        },
{
    match o {
        Some(s) => Some(s.as_str()),
        None => None,
    }
}


/// Whether two texts are equal.
pub fn str_eq(a: &str, b: &str) -> (r: bool)
    ensures
        r == (a@ == b@),
{
    let n = a.unicode_len();
    if n != b.unicode_len() {
        return false;
    }
    let mut i: usize = 0;
    while i < n
        invariant
            i <= n,
            n == a@.len(),
            n == b@.len(),
            forall|j: int| 0 <= j < i ==> a@[j] == b@[j],
        decreases n - i,
    {
        if a.get_char(i) != b.get_char(i) {
            return false;
        }
        i += 1;
    }
    assert(a@ =~= b@);
    true
}

} // verus!
