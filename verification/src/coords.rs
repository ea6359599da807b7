//! Coordinates typed by users: the two systems and their fields, values pasted as a pair, and
//! the LV95 thousands grouping.

use vstd::prelude::*;
use vstd::string::StringExecFns;
use vstd::string::StrSliceExecFns;
use crate::ports::trim_str;
use crate::text::push_char;

verus! {

/// The coordinate system positions are typed in.
#[derive(Debug, Clone, Copy, PartialEq, Eq, Structural)]
pub enum CoordinateSystem {
    Lv95,
    Wgs84,
}

impl Default for CoordinateSystem {
    fn default() -> (r: CoordinateSystem)
        ensures
            r == CoordinateSystem::Lv95,
    {
        CoordinateSystem::Lv95
    }
}

impl CoordinateSystem {
    pub fn title(self) -> (r: &'static str)
        ensures
            r@ == match self {
                CoordinateSystem::Lv95 => "LV95"@,
                CoordinateSystem::Wgs84 => "WGS84"@,
            },
    {
        match self {
            CoordinateSystem::Lv95 => "LV95",
            CoordinateSystem::Wgs84 => "WGS84",
        }
    }

    /// Labels of the two fields
    pub fn labels(self) -> (r: (&'static str, &'static str))
        ensures
            r.0@ == match self {
                CoordinateSystem::Lv95 => "Ost (E)"@,
                CoordinateSystem::Wgs84 => "Breite"@,
            },
            r.1@ == match self {
                CoordinateSystem::Lv95 => "Nord (N)"@,
                CoordinateSystem::Wgs84 => "Länge"@,
            },
    {
        match self {
            CoordinateSystem::Lv95 => ("Ost (E)", "Nord (N)"),
            CoordinateSystem::Wgs84 => ("Breite", "Länge"),
        }
    }

    pub fn placeholders(self) -> (r: (&'static str, &'static str))
        ensures
            r.0@ == match self {
                CoordinateSystem::Lv95 => "2 600 000.00"@,
                CoordinateSystem::Wgs84 => "46.95108"@,
            },
            r.1@ == match self {
                CoordinateSystem::Lv95 => "1 200 000.00"@,
                CoordinateSystem::Wgs84 => "7.43864"@,
            },
    {
        match self {
            CoordinateSystem::Lv95 => ("2 600 000.00", "1 200 000.00"),
            CoordinateSystem::Wgs84 => ("46.95108", "7.43864"),
        }
    }
}

/// `c` is one of the digits `0` to `9`.
pub open spec fn is_digit(c: char) -> bool {
    '0' <= c && c <= '9'
}

/// How many digits `s` holds.
pub open spec fn digit_count(s: Seq<char>) -> nat
    decreases s.len(),
{
    if s.len() == 0 {
        0
    } else {
        digit_count(s.drop_last()) + if is_digit(s.last()) { 1nat } else { 0nat }
    }
}

/// In a text of `d` digits, a character `c` with `seen` digits before it is preceded by a space:
/// it is a digit, not the first one, and a multiple of three digits (itself included) are left.
/// Only digits count, so a sign is never followed by a space.
pub open spec fn space_before(d: int, seen: int, c: char) -> bool {
    is_digit(c) && seen > 0 && (d - seen) % 3 == 0
}

/// The text `s`, of `d` digits in all, with a space as thousands separator: `2 709 812`.
pub open spec fn group_text(s: Seq<char>, d: int) -> Seq<char>
    decreases s.len(),
{
    if s.len() == 0 {
        seq![]
    } else {
        let last = s.last();
        group_text(s.drop_last(), d) + if space_before(d, digit_count(s.drop_last()) as int, last) {
            seq![' ', last]
        } else {
            seq![last]
        }
    }
}

/// One more character counted: the digits of the first `i + 1` characters.
proof fn lemma_digit_count_step(s: Seq<char>, i: int)
    requires
        0 <= i < s.len(),
    ensures
        digit_count(s.subrange(0, i + 1)) == digit_count(s.subrange(0, i)) + if is_digit(s[i]) { 1nat } else { 0nat },
        s.subrange(0, i + 1).drop_last() =~= s.subrange(0, i),
        s.subrange(0, i + 1).last() == s[i],
{
    assert(s.subrange(0, i + 1).drop_last() =~= s.subrange(0, i));
}

/// The integer part of a value with a space before each group of three digits counted from the
/// right: `2709812` gives `2 709 812`, `-123456` gives `-123 456`.
pub fn group_thousands(int_part: &str) -> (r: String)
    ensures
        r@ == group_text(int_part@, digit_count(int_part@) as int),
{
    let n = int_part.unicode_len();
    let mut d: usize = 0;
    let mut i: usize = 0;
    while i < n
        invariant
            i <= n,
            n == int_part@.len(),
            d == digit_count(int_part@.subrange(0, i as int)),
            d <= i,
        decreases n - i,
    {
        let c = int_part.get_char(i);
        proof {
            lemma_digit_count_step(int_part@, i as int);
        }
        if '0' <= c && c <= '9' {
            d += 1;
        }
        i += 1;
    }
    assert(int_part@.subrange(0, n as int) =~= int_part@);
    let mut r = String::new();
    let mut seen: usize = 0;
    i = 0;
    while i < n
        invariant
            i <= n,
            n == int_part@.len(),
            d == digit_count(int_part@),
            seen == digit_count(int_part@.subrange(0, i as int)),
            seen <= i,
            r@ == group_text(int_part@.subrange(0, i as int), d as int),
        decreases n - i,
    {
        let c = int_part.get_char(i);
        proof {
            lemma_digit_count_step(int_part@, i as int);
            lemma_digit_count_prefix(int_part@, i as int);
        }
        if '0' <= c && c <= '9' {
            if seen > 0 && (d - seen) % 3 == 0 {
                push_char(&mut r, ' ');
            }
            seen += 1;
        }
        push_char(&mut r, c);
        i += 1;
    }
    assert(int_part@.subrange(0, n as int) =~= int_part@);
    r
}

/// A prefix holds no more digits than the whole text.
proof fn lemma_digit_count_prefix(s: Seq<char>, i: int)
    requires
        0 <= i <= s.len(),
    ensures
        digit_count(s.subrange(0, i)) <= digit_count(s),
    decreases s.len() - i,
{
    if i < s.len() {
        lemma_digit_count_step(s, i);
        lemma_digit_count_prefix(s, i + 1);
    } else {
        assert(s.subrange(0, i) =~= s);
    }
}


/// The separators of two values pasted into one field, in the order they are tried.
pub open spec fn pair_separators() -> Seq<Seq<char>> {
    seq!["/"@, ";"@, "\t"@, ", "@]
}

/// `sep` occurs in `t` at `i`.
pub open spec fn occurs_at(t: Seq<char>, sep: Seq<char>, i: int) -> bool {
    0 <= i && i + sep.len() <= t.len() && t.subrange(i, i + sep.len()) == sep
}

/// `i` is the first place of `sep` in `t`.
pub open spec fn first_at(t: Seq<char>, sep: Seq<char>, i: int) -> bool {
    occurs_at(t, sep, i) && forall|j: int| 0 <= j < i ==> !occurs_at(t, sep, j)
}

/// The text before and after the first `sep`, if it occurs (`str::split_once`).
pub open spec fn split_once(t: Seq<char>, sep: Seq<char>) -> Option<(Seq<char>, Seq<char>)> {
    if exists|i: int| first_at(t, sep, i) {
        let i = choose|i: int| first_at(t, sep, i);
        Some((t.subrange(0, i), t.subrange(i + sep.len(), t.len() as int)))
    } else {
        None
    }
}

/// `is_number` gave `v` for a text `x`.
pub open spec fn judged<F: Fn(&str) -> bool>(is_number: F, x: Seq<char>, v: bool) -> bool {
    exists|s: &str| s@ == x && is_number.ensures((s,), v)
}

/// The separator at `k` does not split the text into two numbers.
pub open spec fn rejected<F: Fn(&str) -> bool>(t: Seq<char>, k: int, is_number: F) -> bool {
    match split_once(t, pair_separators()[k]) {
        Some((x, y)) => judged(is_number, x, false) || judged(is_number, y, false),
        None => true,
    }
}

/// The separator at `k` splits the text into two numbers, `a` and `b` when trimmed.
pub open spec fn accepted<F: Fn(&str) -> bool>(t: Seq<char>, k: int, is_number: F, a: Seq<char>, b: Seq<char>) -> bool {
    &&& split_once(t, pair_separators()[k]) matches Some((x, y))
    &&& judged(is_number, x, true)
    &&& judged(is_number, y, true)
    &&& a == crate::ports::trimmed(x)
    &&& b == crate::ports::trimmed(y)
}

/// The first place of `sep` (not empty) in the characters.
fn find_sep(t: &Vec<char>, sep: &Vec<char>) -> (r: Option<usize>)
    requires
        sep@.len() > 0,
    ensures
        match r {
            Some(i) => first_at(t@, sep@, i as int),
            None => forall|i: int| !occurs_at(t@, sep@, i),
        },
{
    let n = t.len();
    let m = sep.len();
    if m > n {
        return None;
    }
    let mut i: usize = 0;
    while i <= n - m
        invariant
            m == sep@.len(),
            n == t@.len(),
            0 < m <= n,
            i <= n,
            forall|j: int| 0 <= j < i ==> !occurs_at(t@, sep@, j),
        decreases n - i,
    {
        let mut k: usize = 0;
        let mut same = true;
        while k < m
            invariant
                m == sep@.len(),
                n == t@.len(),
                i + m <= n,
                k <= m,
                same == forall|x: int| 0 <= x < k ==> t@[i + x] == sep@[x],
            decreases m - k,
        {
            if t[i + k] != sep[k] {
                same = false;
            }
            k += 1;
        }
        if same {
            assert(t@.subrange(i as int, i + m) =~= sep@);
            return Some(i);
        }
        proof {
            if occurs_at(t@, sep@, i as int) {
                assert forall|x: int| 0 <= x < m implies t@[i + x] == sep@[x] by {
                    assert(t@.subrange(i as int, i + m)[x] == t@[i + x]);
                }
            }
        }
        i += 1;
    }
    None
}

/// The characters of a string slice.
fn seq_of(s: &str) -> (r: Vec<char>)
    ensures
        r@ == s@,
{
    crate::ports::chars_of(s)
}

/// Both values pasted into one field, such as `47.41963, 8.88611` or `2709812 / 1262154`: the
/// separators are tried in order, and the first that splits the text into two parts which
/// `is_number` takes gives the trimmed parts.
pub fn split_pair<F: Fn(&str) -> bool>(text: &str, is_number: F) -> (r: Option<(String, String)>)
    requires
        forall|s: &str| is_number.requires((s,)),
    ensures
        match r {
            Some((a, b)) => exists|k: int|
                0 <= k < 4 && (forall|j: int| 0 <= j < k ==> rejected(text@, j, is_number)) && #[trigger] accepted(text@, k, is_number, a@, b@),
            None => forall|k: int| 0 <= k < 4 ==> rejected(text@, k, is_number),
        },
{
    let t = seq_of(text);
    let n = t.len();
    let separators: [&str; 4] = ["/", ";", "\t", ", "];
    proof {
        reveal_strlit("/");
        reveal_strlit(";");
        reveal_strlit("\t");
        reveal_strlit(", ");
        assert(forall|x: int| 0 <= x < 4 ==> (#[trigger] pair_separators()[x]).len() > 0);
    }
    let mut k: usize = 0;
    while k < 4
        invariant
            k <= 4,
            t@ == text@,
            n == t@.len(),
            forall|s: &str| is_number.requires((s,)),
            separators@.len() == 4,
            forall|x: int| 0 <= x < 4 ==> (#[trigger] separators@[x])@ == pair_separators()[x],
            forall|x: int| 0 <= x < 4 ==> (#[trigger] pair_separators()[x]).len() > 0,
            forall|j: int| 0 <= j < k ==> rejected(text@, j, is_number),
        decreases 4 - k,
    {
        let sep = seq_of(separators[k]);
        assert(sep@ == pair_separators()[k as int]);
        match find_sep(&t, &sep) {
            Some(i) => {
                let m = sep.len();
                let first = text.substring_char(0, i);
                let second = text.substring_char(i + m, n);
                proof {
                    assert(split_once(text@, sep@) == Some((first@, second@)));
                }
                let first_ok = is_number(first);
                if first_ok {
                    let second_ok = is_number(second);
                    if second_ok {
                        let ra = String::from_str(trim_str(first));
                        let rb = String::from_str(trim_str(second));
                        assert(accepted(text@, k as int, is_number, ra@, rb@));
                        assert(forall|j: int| 0 <= j < k ==> rejected(text@, j, is_number));
                        let r = Some((ra, rb));
                        assert(r matches Some((a, b)) && a@ == ra@ && b@ == rb@);
                        assert(exists|kk: int|
                            0 <= kk < 4 && (forall|j: int| 0 <= j < kk ==> rejected(text@, j, is_number)) && #[trigger] accepted(text@, kk, is_number, ra@, rb@));
                        return r;
                    }
                    assert(judged(is_number, second@, false));
                } else {
                    assert(judged(is_number, first@, false));
                }
            },
            None => {
                assert(split_once(text@, sep@) is None);
            },
        }
        k += 1;
    }
    None
}

} // verus!
