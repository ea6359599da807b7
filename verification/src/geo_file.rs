//! Lines read from GeoJSON and GPX files, e.g. a duct's course exported from QGIS or recorded
//! with a GPS device: which lines a document holds, their names, the parts of a multi-line
//! joined where they meet, and the coordinate system declared or guessed.

use vstd::prelude::*;
use vstd::string::StringExecFns;
use crate::lists::CoordinateSystem;
use crate::text::{nat_text, push_nat, str_eq};

verus! {

/// A JSON value of a document. A number stands as the index of its value in a table kept beside
/// the document (numbers of equal value share an index) together with the text `serde_json`
/// writes for it; an array and an object carry the compact JSON text of the whole value.
#[derive(Debug)]
pub enum Json {
    Null,
    Bool(bool),
    Number(usize, String),
    Text(String),
    Array(Vec<Json>, String),
    Object(Vec<(String, Json)>, String),
}

/// A position of a line: the indices of its east (or longitude) and north (or latitude) value in
/// the document's number table, in the file's order.
#[derive(Debug, Clone, Copy, PartialEq, Eq, Structural)]
pub struct Position {
    pub x: usize,
    pub y: usize,
}

/// A line in the file, with the name to choose it by.
#[derive(Debug, Clone)]
pub struct FileLine {
    pub name: String,
    pub points: Vec<Position>,
}

/// The lines of a file and the coordinate system it uses (declared or guessed).
#[derive(Debug, Clone)]
pub struct GeoFile {
    pub lines: Vec<FileLine>,
    pub system: CoordinateSystem,
}

/// A line by its name and positions.
pub type LineView = (Seq<char>, Seq<Position>);

pub open spec fn line_view(l: FileLine) -> LineView {
    (l.name@, l.points@)
}

pub open spec fn lines_view(ls: Seq<FileLine>) -> Seq<LineView> {
    ls.map_values(|l: FileLine| line_view(l))
}

/// The index of the first member named `key`, -1 without one.
pub open spec fn member_index(m: Seq<(String, Json)>, key: Seq<char>) -> int
    decreases m.len(),
{
    if m.len() == 0 {
        -1
    } else if member_index(m.drop_last(), key) >= 0 {
        member_index(m.drop_last(), key)
    } else if m.last().0@ == key {
        m.len() - 1
    } else {
        -1
    }
}

/// The first member named `key` is a member.
pub proof fn lemma_member_index(m: Seq<(String, Json)>, key: Seq<char>)
    ensures
        -1 <= member_index(m, key) < m.len(),
        member_index(m, key) >= 0 ==> m[member_index(m, key)].0@ == key,
    decreases m.len(),
{
    if m.len() > 0 {
        lemma_member_index(m.drop_last(), key);
    }
}

/// The member named `key` of an object (`Value::get`).
pub open spec fn json_get(v: Json, key: Seq<char>) -> Option<Json> {
    match v {
        Json::Object(m, _) => {
            let i = member_index(m@, key);
            if i >= 0 {
                Some(m@[i].1)
            } else {
                None
            }
        },
        _ => None,
    }
}

/// The text of a JSON string (`Value::as_str`).
pub open spec fn json_text(v: Option<Json>) -> Option<Seq<char>> {
    match v {
        Some(Json::Text(t)) => Some(t@),
        _ => None,
    }
}

/// The value as text: a string as it is, everything else as `serde_json` writes it.
pub open spec fn value_text(v: Json) -> Seq<char> {
    match v {
        Json::Null => "null"@,
        Json::Bool(b) => if b { "true"@ } else { "false"@ },
        Json::Number(_, t) => t@,
        Json::Text(t) => t@,
        Json::Array(_, t) => t@,
        Json::Object(_, t) => t@,
    }
}

/// The keys tried for a feature's name, in order.
pub open spec fn name_keys() -> Seq<Seq<char>> {
    seq!["name"@, "Name"@, "description"@, "bezeichnung"@, "id"@]
}

/// The name of a feature: the first of the name keys its properties have, else `default`.
pub open spec fn name_from(properties: Option<Json>, keys: Seq<Seq<char>>, default: Seq<char>) -> Seq<char>
    decreases keys.len(),
{
    if keys.len() == 0 {
        default
    } else {
        match properties {
            Some(p) => match json_get(p, keys[0]) {
                Some(v) => value_text(v),
                None => name_from(properties, keys.drop_first(), default),
            },
            None => default,
        }
    }
}

/// A position `[x, y, ..]` of numbers.
pub open spec fn position_of(p: Json) -> Option<Position> {
    match p {
        Json::Array(a, _) => if a@.len() >= 2 {
            match (a@[0], a@[1]) {
                (Json::Number(x, _), Json::Number(y, _)) => Some(Position { x, y }),
                _ => None,
            }
        } else {
            None
        },
        _ => None,
    }
}

/// The positions of a list, if each is one.
pub open spec fn positions_in(items: Seq<Json>) -> Option<Seq<Position>>
    decreases items.len(),
{
    if items.len() == 0 {
        Some(seq![])
    } else {
        match (positions_in(items.drop_last()), position_of(items.last())) {
            (Some(ps), Some(p)) => Some(ps.push(p)),
            _ => None,
        }
    }
}

/// GeoJSON positions `[[x, y, (z)], ..]`.
pub open spec fn positions_of(c: Option<Json>) -> Option<Seq<Position>> {
    match c {
        Some(Json::Array(items, _)) => positions_in(items@),
        _ => None,
    }
}

/// The parts as one line, if each starts where the one before ends (an empty part joins
/// anything).
pub open spec fn joined(parts: Seq<Seq<Position>>) -> Option<Seq<Position>>
    decreases parts.len(),
{
    if parts.len() == 0 {
        Some(seq![])
    } else {
        match joined(parts.drop_last()) {
            Some(j) => {
                let part = parts.last();
                if j.len() > 0 && part.len() > 0 {
                    if j.last() != part[0] {
                        None
                    } else {
                        Some(j + part.subrange(1, part.len() as int))
                    }
                } else {
                    Some(j + part)
                }
            },
            None => None,
        }
    }
}

/// The parts of a multi-line that are lists of positions, in order.
pub open spec fn line_parts(items: Seq<Json>) -> Seq<Seq<Position>>
    decreases items.len(),
{
    if items.len() == 0 {
        seq![]
    } else {
        let rest = line_parts(items.drop_last());
        match positions_of(Some(items.last())) {
            Some(ps) => rest.push(ps),
            None => rest,
        }
    }
}

/// The parts one by one, named "{name} (Teil {n})".
pub open spec fn numbered_parts(parts: Seq<Seq<Position>>, name: Seq<char>) -> Seq<LineView>
    decreases parts.len(),
{
    if parts.len() == 0 {
        seq![]
    } else {
        numbered_parts(parts.drop_last(), name).push((name + " (Teil "@ + nat_text(parts.len()) + ")"@, parts.last()))
    }
}

/// The lines of a multi-line: one if its parts join, else each part.
pub open spec fn multi_line(parts: Seq<Seq<Position>>, name: Seq<char>) -> Seq<LineView> {
    match joined(parts) {
        Some(points) => seq![(name, points)],
        None => numbered_parts(parts, name),
    }
}

/// The kind of a GeoJSON object (its `type`).
pub open spec fn kind(v: Json) -> Option<Seq<char>> {
    json_text(json_get(v, "type"@))
}

/// The lines of a GeoJSON value, in document order; `name` names a line without a name of its
/// own. The features of a collection are named "Linie {n}" by their place.
pub open spec fn geojson_lines(v: Json, name: Seq<char>) -> Seq<LineView>
    decreases v,
{
    match v {
        Json::Object(m, _) => {
            let k = kind(v);
            if k == Some("FeatureCollection"@) {
                let i = member_index(m@, "features"@);
                if i >= 0 {
                    proof {
                        lemma_member_index(m@, "features"@);
                    }
                    match m@[i].1 {
                        Json::Array(items, _) => features_lines(items@),
                        _ => seq![],
                    }
                } else {
                    seq![]
                }
            } else if k == Some("Feature"@) {
                let own = name_from(json_get(v, "properties"@), name_keys(), name);
                let i = member_index(m@, "geometry"@);
                if i >= 0 {
                    proof {
                        lemma_member_index(m@, "geometry"@);
                    }
                    geojson_lines(m@[i].1, own)
                } else {
                    seq![]
                }
            } else if k == Some("GeometryCollection"@) {
                let i = member_index(m@, "geometries"@);
                if i >= 0 {
                    proof {
                        lemma_member_index(m@, "geometries"@);
                    }
                    match m@[i].1 {
                        Json::Array(items, _) => geometries_lines(items@, name),
                        _ => seq![],
                    }
                } else {
                    seq![]
                }
            } else if k == Some("LineString"@) {
                match positions_of(json_get(v, "coordinates"@)) {
                    Some(points) => seq![(name, points)],
                    None => seq![],
                }
            } else if k == Some("MultiLineString"@) {
                match json_get(v, "coordinates"@) {
                    Some(Json::Array(items, _)) => multi_line(line_parts(items@), name),
                    _ => multi_line(seq![], name),
                }
            } else {
                seq![]
            }
        },
        _ => seq![],
    }
}

/// The lines of the features of a collection, the feature at `i` named "Linie {i + 1}".
pub open spec fn features_lines(items: Seq<Json>) -> Seq<LineView>
    decreases items,
{
    if items.len() == 0 {
        seq![]
    } else {
        features_lines(items.drop_last()) + geojson_lines(items.last(), "Linie "@ + nat_text(items.len()))
    }
}

/// The lines of the geometries of a collection, each unnamed one named `name`.
pub open spec fn geometries_lines(items: Seq<Json>, name: Seq<char>) -> Seq<LineView>
    decreases items,
{
    if items.len() == 0 {
        seq![]
    } else {
        geometries_lines(items.drop_last(), name) + geojson_lines(items.last(), name)
    }
}


/// The value a reference points to, if any.
pub open spec fn opt_json(v: Option<&Json>) -> Option<Json> {
    match v {
        Some(x) => Some(*x),
        None => None,
    }
}

/// The first member named `key`.
fn member<'a>(m: &'a Vec<(String, Json)>, key: &str) -> (r: Option<&'a Json>)
    ensures
        match r {
            Some(v) => member_index(m@, key@) >= 0 && *v == m@[member_index(m@, key@)].1,
            None => member_index(m@, key@) < 0,
        },
{
    let mut i: usize = 0;
    while i < m.len()
        invariant
            i <= m.len(),
            member_index(m@.subrange(0, i as int), key@) < 0,
        decreases m.len() - i,
    {
        let ghost sub = m@.subrange(0, i + 1);
        proof {
            assert(sub.drop_last() =~= m@.subrange(0, i as int));
            assert(sub.last() == m@[i as int]);
        }
        if str_eq(m[i].0.as_str(), key) {
            proof {
                lemma_member_prefix(m@, key@, i + 1);
            }
            return Some(&m[i].1);
        }
        i += 1;
    }
    assert(m@.subrange(0, m@.len() as int) =~= m@);
    None
}

/// A member found in a prefix is the first member of the whole list.
proof fn lemma_member_prefix(m: Seq<(String, Json)>, key: Seq<char>, k: int)
    requires
        0 <= k <= m.len(),
        member_index(m.subrange(0, k), key) >= 0,
    ensures
        member_index(m, key) == member_index(m.subrange(0, k), key),
    decreases m.len() - k,
{
    if k < m.len() {
        let next = m.subrange(0, k + 1);
        assert(next.drop_last() =~= m.subrange(0, k));
        lemma_member_prefix(m, key, k + 1);
    } else {
        assert(m.subrange(0, k) =~= m);
    }
}

/// The member named `key` of an object.
fn get<'a>(v: &'a Json, key: &str) -> (r: Option<&'a Json>)
    ensures
        match r {
            Some(x) => json_get(*v, key@) == Some(*x),
            None => json_get(*v, key@) is None,
        },
{
    match v {
        Json::Object(m, _) => member(m, key),
        _ => None,
    }
}

/// The text of a JSON string.
fn as_text<'a>(v: Option<&'a Json>) -> (r: Option<&'a str>)
    ensures
        match r {
            Some(t) => json_text(opt_json(v)) == Some(t@),
            None => json_text(opt_json(v)) is None,
        },
{
    match v {
        Some(Json::Text(t)) => Some(t.as_str()),
        _ => None,
    }
}

/// The value as text, see `value_text`.
fn text_of(v: &Json) -> (r: String)
    ensures
        r@ == value_text(*v),
{
    match v {
        Json::Null => String::from_str("null"),
        Json::Bool(b) => if *b {
            String::from_str("true")
        } else {
            String::from_str("false")
        },
        Json::Number(_, t) => t.clone(),
        Json::Text(t) => t.clone(),
        Json::Array(_, t) => t.clone(),
        Json::Object(_, t) => t.clone(),
    }
}

/// The name of a feature with these properties, see `name_from`.
fn feature_name(properties: Option<&Json>, default: &str) -> (r: String)
    ensures
        r@ == name_from(opt_json(properties), name_keys(), default@),
{
    let keys: [&str; 5] = ["name", "Name", "description", "bezeichnung", "id"];
    let ghost props = opt_json(properties);
    proof {
        reveal_strlit("name");
        reveal_strlit("Name");
        reveal_strlit("description");
        reveal_strlit("bezeichnung");
        reveal_strlit("id");
    }
    assert(name_keys().subrange(0, 5) =~= name_keys());
    match properties {
        Some(p) => {
            let mut k: usize = 0;
            while k < 5
                invariant
                    k <= 5,
                    props == Some(*p),
                    props == opt_json(properties),
                    keys@.len() == 5,
                    forall|x: int| 0 <= x < 5 ==> (#[trigger] keys@[x])@ == name_keys()[x],
                    name_from(props, name_keys(), default@) == name_from(props, name_keys().subrange(k as int, 5), default@),
                decreases 5 - k,
            {
                let ghost rest = name_keys().subrange(k as int, 5);
                assert(rest[0] == name_keys()[k as int]);
                assert(rest.drop_first() =~= name_keys().subrange(k + 1, 5));
                let key = keys[k];
                assert(key@ == rest[0]);
                match get(p, key) {
                    Some(v) => {
                        assert(name_from(props, rest, default@) == value_text(*v));
                        return text_of(v);
                    },
                    None => {},
                }
                k += 1;
            }
            assert(name_keys().subrange(5, 5) =~= Seq::<Seq<char>>::empty());
            String::from_str(default)
        },
        None => String::from_str(default),
    }
}

/// The position `[x, y, ..]`, if it is one.
fn position(p: &Json) -> (r: Option<Position>)
    ensures
        r == position_of(*p),
{
    match p {
        Json::Array(a, _) => {
            if a.len() >= 2 {
                match (&a[0], &a[1]) {
                    (Json::Number(x, _), Json::Number(y, _)) => Some(Position { x: *x, y: *y }),
                    _ => None,
                }
            } else {
                None
            }
        },
        _ => None,
    }
}

/// GeoJSON positions, if the value is a list of them.
fn positions(c: Option<&Json>) -> (r: Option<Vec<Position>>)
    ensures
        match r {
            Some(ps) => positions_of(opt_json(c)) == Some(ps@),
            None => positions_of(opt_json(c)) is None,
        },
{
    match c {
        Some(Json::Array(items, _)) => {
            assert(positions_of(opt_json(c)) == positions_in(items@));
            let mut ps: Vec<Position> = Vec::new();
            let mut i: usize = 0;
            while i < items.len()
                invariant
                    i <= items.len(),
                    positions_in(items@.subrange(0, i as int)) == Some(ps@),
                    positions_of(opt_json(c)) == positions_in(items@),
                decreases items.len() - i,
            {
                let ghost sub = items@.subrange(0, i + 1);
                proof {
                    assert(sub.drop_last() =~= items@.subrange(0, i as int));
                    assert(sub.last() == items@[i as int]);
                }
                match position(&items[i]) {
                    Some(p) => ps.push(p),
                    None => {
                        proof {
                            assert(positions_in(sub) is None);
                            lemma_positions_stay_none(items@, i + 1);
                        }
                        return None;
                    },
                }
                i += 1;
            }
            assert(items@.subrange(0, items@.len() as int) =~= items@);
            Some(ps)
        },
        _ => None,
    }
}

/// Once an item is no position, no longer prefix is a list of positions.
proof fn lemma_positions_stay_none(items: Seq<Json>, k: int)
    requires
        0 <= k <= items.len(),
        positions_in(items.subrange(0, k)) is None,
    ensures
        positions_in(items) is None,
    decreases items.len() - k,
{
    if k < items.len() {
        let next = items.subrange(0, k + 1);
        assert(next.drop_last() =~= items.subrange(0, k));
        lemma_positions_stay_none(items, k + 1);
    } else {
        assert(items.subrange(0, k) =~= items);
    }
}

/// The parts as one line, if each starts where the one before ends.
pub fn join_parts(parts: &Vec<Vec<Position>>) -> (r: Option<Vec<Position>>)
    ensures
        match r {
            Some(j) => joined(parts@.map_values(|p: Vec<Position>| p@)) == Some(j@),
            None => joined(parts@.map_values(|p: Vec<Position>| p@)) is None,
        },
{
    let ghost views = parts@.map_values(|p: Vec<Position>| p@);
    let mut j: Vec<Position> = Vec::new();
    let mut i: usize = 0;
    while i < parts.len()
        invariant
            i <= parts.len(),
            views == parts@.map_values(|p: Vec<Position>| p@),
            joined(views.subrange(0, i as int)) == Some(j@),
        decreases parts.len() - i,
    {
        let ghost sub = views.subrange(0, i + 1);
        proof {
            assert(sub.drop_last() =~= views.subrange(0, i as int));
            assert(sub.last() == parts@[i as int]@);
        }
        let part = &parts[i];
        let n = j.len();
        if n > 0 && part.len() > 0 {
            if j[n - 1] != part[0] {
                proof {
                    lemma_joined_stays_none(views, i + 1);
                }
                return None;
            }
            let mut k: usize = 1;
            let ghost start = j@;
            while k < part.len()
                invariant
                    1 <= k <= part.len(),
                    j@ == start + part@.subrange(1, k as int),
                decreases part.len() - k,
            {
                j.push(part[k]);
                assert(part@.subrange(1, k + 1) =~= part@.subrange(1, k as int).push(part@[k as int]));
                k += 1;
            }
        } else {
            let mut k: usize = 0;
            let ghost start = j@;
            while k < part.len()
                invariant
                    k <= part.len(),
                    j@ == start + part@.subrange(0, k as int),
                decreases part.len() - k,
            {
                j.push(part[k]);
                assert(part@.subrange(0, k + 1) =~= part@.subrange(0, k as int).push(part@[k as int]));
                k += 1;
            }
            assert(part@.subrange(0, part@.len() as int) =~= part@);
        }
        i += 1;
    }
    assert(views.subrange(0, parts@.len() as int) =~= views);
    Some(j)
}

/// Once parts do not join, no longer prefix joins.
proof fn lemma_joined_stays_none(parts: Seq<Seq<Position>>, k: int)
    requires
        0 <= k <= parts.len(),
        joined(parts.subrange(0, k)) is None,
    ensures
        joined(parts) is None,
    decreases parts.len() - k,
{
    if k < parts.len() {
        let next = parts.subrange(0, k + 1);
        assert(next.drop_last() =~= parts.subrange(0, k));
        lemma_joined_stays_none(parts, k + 1);
    } else {
        assert(parts.subrange(0, k) =~= parts);
    }
}


/// A copy of the positions.
fn copy_positions(ps: &Vec<Position>) -> (r: Vec<Position>)
    ensures
        r@ == ps@,
{
    let mut r: Vec<Position> = Vec::new();
    let mut i: usize = 0;
    while i < ps.len()
        invariant
            i <= ps.len(),
            r@ == ps@.subrange(0, i as int),
        decreases ps.len() - i,
    {
        r.push(ps[i]);
        assert(ps@.subrange(0, i + 1) =~= ps@.subrange(0, i as int).push(ps@[i as int]));
        i += 1;
    }
    assert(ps@.subrange(0, ps@.len() as int) =~= ps@);
    r
}

/// The parts of a multi-line that are lists of positions.
fn parts_of(items: &Vec<Json>) -> (r: Vec<Vec<Position>>)
    ensures
        r@.map_values(|p: Vec<Position>| p@) == line_parts(items@),
{
    let mut r: Vec<Vec<Position>> = Vec::new();
    let mut i: usize = 0;
    while i < items.len()
        invariant
            i <= items.len(),
            r@.map_values(|p: Vec<Position>| p@) == line_parts(items@.subrange(0, i as int)),
        decreases items.len() - i,
    {
        let ghost sub = items@.subrange(0, i + 1);
        let ghost before = r@.map_values(|p: Vec<Position>| p@);
        proof {
            assert(sub.drop_last() =~= items@.subrange(0, i as int));
            assert(sub.last() == items@[i as int]);
        }
        match positions(Some(&items[i])) {
            Some(ps) => {
                let ghost v = ps@;
                r.push(ps);
                assert(r@.map_values(|p: Vec<Position>| p@) =~= before.push(v));
            },
            None => {},
        }
        i += 1;
    }
    assert(items@.subrange(0, items@.len() as int) =~= items@);
    r
}

/// Appends the lines of a multi-line, see `multi_line`.
fn push_multi_line(parts: Vec<Vec<Position>>, name: &str, lines: &mut Vec<FileLine>)
    ensures
        lines_view(final(lines)@) == lines_view(old(lines)@) + multi_line(parts@.map_values(|p: Vec<Position>| p@), name@),
{
    let ghost views = parts@.map_values(|p: Vec<Position>| p@);
    let ghost start = lines_view(lines@);
    match join_parts(&parts) {
        Some(points) => {
            let ghost pv = points@;
            lines.push(FileLine { name: String::from_str(name), points });
            assert(lines_view(lines@) =~= start.push((name@, pv)));
            assert(lines_view(lines@) =~= start + multi_line(views, name@));
        },
        None => {
            let mut i: usize = 0;
            while i < parts.len()
                invariant
                    i <= parts.len(),
                    views == parts@.map_values(|p: Vec<Position>| p@),
                    lines_view(lines@) == start + numbered_parts(views.subrange(0, i as int), name@),
                decreases parts.len() - i,
            {
                let ghost sub = views.subrange(0, i + 1);
                proof {
                    assert(sub.drop_last() =~= views.subrange(0, i as int));
                    assert(sub.last() == parts@[i as int]@);
                }
                let mut n = String::from_str(name);
                n.append(" (Teil ");
                push_nat(&mut n, (i + 1) as u64);
                n.append(")");
                let ghost before = lines_view(lines@);
                lines.push(FileLine { name: n, points: copy_positions(&parts[i]) });
                assert(lines_view(lines@) =~= before.push(line_view(lines@.last())));
                i += 1;
            }
            assert(views.subrange(0, parts@.len() as int) =~= views);
        },
    }
}


/// Appends the lines of a GeoJSON value, see `geojson_lines`.
pub fn collect_geojson(json: &Json, name: &str, lines: &mut Vec<FileLine>)
    ensures
        lines_view(final(lines)@) == lines_view(old(lines)@) + geojson_lines(*json, name@),
    decreases json,
{
    let ghost start = lines_view(lines@);
    proof {
        reveal_strlit("type");
        reveal_strlit("FeatureCollection");
        reveal_strlit("Feature");
        reveal_strlit("GeometryCollection");
        reveal_strlit("LineString");
        reveal_strlit("MultiLineString");
    }
    match json {
        Json::Object(m, _) => {
            let k = as_text(get(json, "type"));
            let t: &str = match k {
                Some(t) => t,
                None => "",
            };
            assert(k is None ==> kind(*json) is None);
            if k.is_some() && str_eq(t, "FeatureCollection") {
                proof {
                    lemma_member_index(m@, "features"@);
                }
                match member(m, "features") {
                    Some(Json::Array(items, _)) => {
                        let mut i: usize = 0;
                        while i < items.len()
                            invariant
                                i <= items.len(),
                                lines_view(lines@) == start + features_lines(items@.subrange(0, i as int)),
                                0 <= member_index(m@, "features"@) < m@.len(),
                                m@[member_index(m@, "features"@)].1 == Json::Array(*items, m@[member_index(m@, "features"@)].1->Array_1),
                                *json == Json::Object(*m, json->Object_1),
                            decreases items.len() - i,
                        {
                            let ghost sub = items@.subrange(0, i + 1);
                            proof {
                                assert(sub.drop_last() =~= items@.subrange(0, i as int));
                                assert(sub.last() == items@[i as int]);
                                lemma_member_index(m@, "features"@);
                                let idx = member_index(m@, "features"@);
                                assert(decreases_to!(*json => json->Object_0));
                                assert(json->Object_0 == *m);
                                assert(decreases_to!(*m => m@));
                                assert(decreases_to!(m@ => m@[idx]));
                                assert(decreases_to!(m@[idx] => m@[idx].1));
                                assert(decreases_to!(m@[idx].1 => m@[idx].1->Array_0));
                                assert(m@[idx].1->Array_0 == *items);
                                assert(decreases_to!(*items => items@));
                                assert(decreases_to!(items@ => items@[i as int]));
                                assert(decreases_to!(*json => items@[i as int]));
                            }
                            let mut n = String::from_str("Linie ");
                            push_nat(&mut n, (i + 1) as u64);
                            let ghost before = lines_view(lines@);
                            collect_geojson(&items[i], n.as_str(), lines);
                            proof {
                                assert(features_lines(sub) == features_lines(items@.subrange(0, i as int)) + geojson_lines(
                                    items@[i as int],
                                    "Linie "@ + nat_text((i + 1) as nat),
                                ));
                            }
                            i += 1;
                        }
                        assert(items@.subrange(0, items@.len() as int) =~= items@);
                    },
                    _ => {},
                }
                assert(lines_view(lines@) =~= start + geojson_lines(*json, name@));
            } else if k.is_some() && str_eq(t, "Feature") {
                let own = feature_name(get(json, "properties"), name);
                proof {
                    lemma_member_index(m@, "geometry"@);
                }
                match member(m, "geometry") {
                    Some(g) => {
                        collect_geojson(g, own.as_str(), lines);
                    },
                    None => {},
                }
                assert(lines_view(lines@) =~= start + geojson_lines(*json, name@));
            } else if k.is_some() && str_eq(t, "GeometryCollection") {
                proof {
                    lemma_member_index(m@, "geometries"@);
                }
                match member(m, "geometries") {
                    Some(Json::Array(items, _)) => {
                        let mut i: usize = 0;
                        while i < items.len()
                            invariant
                                i <= items.len(),
                                lines_view(lines@) == start + geometries_lines(items@.subrange(0, i as int), name@),
                                0 <= member_index(m@, "geometries"@) < m@.len(),
                                m@[member_index(m@, "geometries"@)].1 == Json::Array(*items, m@[member_index(m@, "geometries"@)].1->Array_1),
                                *json == Json::Object(*m, json->Object_1),
                            decreases items.len() - i,
                        {
                            let ghost sub = items@.subrange(0, i + 1);
                            proof {
                                assert(sub.drop_last() =~= items@.subrange(0, i as int));
                                assert(sub.last() == items@[i as int]);
                                lemma_member_index(m@, "geometries"@);
                                let idx = member_index(m@, "geometries"@);
                                assert(decreases_to!(*json => json->Object_0));
                                assert(json->Object_0 == *m);
                                assert(decreases_to!(*m => m@));
                                assert(decreases_to!(m@ => m@[idx]));
                                assert(decreases_to!(m@[idx] => m@[idx].1));
                                assert(decreases_to!(m@[idx].1 => m@[idx].1->Array_0));
                                assert(m@[idx].1->Array_0 == *items);
                                assert(decreases_to!(*items => items@));
                                assert(decreases_to!(items@ => items@[i as int]));
                                assert(decreases_to!(*json => items@[i as int]));
                            }
                            collect_geojson(&items[i], name, lines);
                            i += 1;
                        }
                        assert(items@.subrange(0, items@.len() as int) =~= items@);
                    },
                    _ => {},
                }
                assert(lines_view(lines@) =~= start + geojson_lines(*json, name@));
            } else if k.is_some() && str_eq(t, "LineString") {
                match positions(get(json, "coordinates")) {
                    Some(points) => {
                        let ghost pv = points@;
                        lines.push(FileLine { name: String::from_str(name), points });
                        assert(lines_view(lines@) =~= start.push((name@, pv)));
                    },
                    None => {},
                }
                assert(lines_view(lines@) =~= start + geojson_lines(*json, name@));
            } else if k.is_some() && str_eq(t, "MultiLineString") {
                match get(json, "coordinates") {
                    Some(Json::Array(items, _)) => {
                        let parts = parts_of(items);
                        push_multi_line(parts, name, lines);
                    },
                    _ => {
                        let parts: Vec<Vec<Position>> = Vec::new();
                        assert(parts@.map_values(|p: Vec<Position>| p@) =~= Seq::<Seq<Position>>::empty());
                        push_multi_line(parts, name, lines);
                    },
                }
                assert(lines_view(lines@) =~= start + geojson_lines(*json, name@));
            } else {
                assert(geojson_lines(*json, name@) =~= Seq::<LineView>::empty());
                assert(lines_view(lines@) =~= start + geojson_lines(*json, name@));
            }
        },
        _ => {
            assert(lines_view(lines@) =~= start + geojson_lines(*json, name@));
        },
    }
}


/// The coordinate system a GeoJSON document declares in its `crs` member (GeoJSON 2008, still
/// written by QGIS for other systems).
pub open spec fn declared(v: Json) -> Option<CoordinateSystem> {
    match json_get(v, "crs"@) {
        Some(crs) => match json_get(crs, "properties"@) {
            Some(props) => match json_text(json_get(props, "name"@)) {
                Some(name) => if name.len() >= 4 && name.subrange(name.len() - 4, name.len() as int) == "2056"@ {
                    Some(CoordinateSystem::Lv95)
                } else if name.len() >= 5 && name.subrange(name.len() - 5, name.len() as int) == "21781"@ {
                    Some(CoordinateSystem::Lv03)
                } else if (name.len() >= 4 && name.subrange(name.len() - 4, name.len() as int) == "4326"@) || (name.len() >= 5
                    && name.subrange(name.len() - 5, name.len() as int) == "CRS84"@) {
                    Some(CoordinateSystem::Wgs84)
                } else {
                    None
                },
                None => None,
            },
            None => None,
        },
        None => None,
    }
}

/// The text ends with `suffix`.
pub fn ends_with(text: &str, suffix: &str) -> (r: bool)
    ensures
        r == (suffix@.len() <= text@.len() && text@.subrange(text@.len() - suffix@.len(), text@.len() as int) == suffix@),
{
    let n = text.unicode_len();
    let m = suffix.unicode_len();
    if m > n {
        return false;
    }
    let mut i: usize = 0;
    while i < m
        invariant
            i <= m <= n,
            n == text@.len(),
            m == suffix@.len(),
            forall|j: int| 0 <= j < i ==> text@[n - m + j] == suffix@[j],
        decreases m - i,
    {
        if text.get_char(n - m + i) != suffix.get_char(i) {
            assert(text@.subrange(n - m, n as int)[i as int] != suffix@[i as int]);
            return false;
        }
        i += 1;
    }
    assert(text@.subrange(n - m, n as int) =~= suffix@);
    true
}

/// The system a GeoJSON document declares, see `declared`.
pub fn declared_system(json: &Json) -> (r: Option<CoordinateSystem>)
    ensures
        r == declared(*json),
{
    proof {
        reveal_strlit("crs");
        reveal_strlit("properties");
        reveal_strlit("name");
        reveal_strlit("2056");
        reveal_strlit("21781");
        reveal_strlit("4326");
        reveal_strlit("CRS84");
    }
    match get(json, "crs") {
        Some(crs) => match get(crs, "properties") {
            Some(props) => match as_text(get(props, "name")) {
                Some(name) => if ends_with(name, "2056") {
                    Some(CoordinateSystem::Lv95)
                } else if ends_with(name, "21781") {
                    Some(CoordinateSystem::Lv03)
                } else if ends_with(name, "4326") || ends_with(name, "CRS84") {
                    Some(CoordinateSystem::Wgs84)
                } else {
                    None
                },
                None => None,
            },
            None => None,
        },
        None => None,
    }
}

/// The first position of the first line, if there is one.
pub open spec fn first_position(lines: Seq<LineView>) -> Option<Position> {
    if lines.len() > 0 && lines[0].1.len() > 0 {
        Some(lines[0].1[0])
    } else {
        None
    }
}

/// The lines of a GeoJSON document and its system: the one declared, else the one
/// `guess_system` takes the first position for, else WGS84 (RFC 7946).
pub fn geojson_file<F: Fn(Position) -> CoordinateSystem>(json: &Json, guess_system: F) -> (r: GeoFile)
    requires
        forall|p: Position| guess_system.requires((p,)),
    ensures
        lines_view(r.lines@) == geojson_lines(*json, "Linie"@),
        match declared(*json) {
            Some(s) => r.system == s,
            None => match first_position(lines_view(r.lines@)) {
                Some(p) => guess_system.ensures((p,), r.system),
                None => r.system == CoordinateSystem::Wgs84,
            },
        },
{
    let mut lines: Vec<FileLine> = Vec::new();
    assert(lines_view(lines@) =~= Seq::<LineView>::empty());
    collect_geojson(json, "Linie", &mut lines);
    assert(lines_view(lines@) =~= geojson_lines(*json, "Linie"@));
    let system = match declared_system(json) {
        Some(s) => s,
        None => {
            if lines.len() > 0 && lines[0].points.len() > 0 {
                assert(lines_view(lines@)[0] == line_view(lines@[0]));
                guess_system(lines[0].points[0])
            } else {
                CoordinateSystem::Wgs84
            }
        },
    };
    GeoFile { lines, system }
}

/// The lines of a GPX file: tracks, then routes.
#[derive(Debug, Clone, Copy, PartialEq, Eq, Structural)]
pub enum GpxKind {
    Track,
    Route,
}

/// "Track n" or "Route n", n counting from 1.
pub open spec fn gpx_default_name(kind: GpxKind, index: u32) -> Seq<char> {
    match kind {
        GpxKind::Track => "Track "@ + nat_text((index + 1) as nat),
        GpxKind::Route => "Route "@ + nat_text((index + 1) as nat),
    }
}

/// The line of the track or route at `index` of its kind: its own name, else "Track n" or
/// "Route n" (n counting from 1); none without a position that was read.
pub fn gpx_line(kind: GpxKind, index: u32, name: Option<String>, points: Vec<Position>) -> (r: Option<FileLine>)
    ensures
        match r {
            Some(l) => points@.len() > 0 && l.points@ == points@ && l.name@ == match name {
                Some(n) => n@,
                None => gpx_default_name(kind, index),
            },
            None => points@.len() == 0,
        },
{
    if points.len() == 0 {
        return None;
    }
    let name = match name {
        Some(n) => n,
        None => {
            let mut n = match kind {
                GpxKind::Track => String::from_str("Track "),
                GpxKind::Route => String::from_str("Route "),
            };
            push_nat(&mut n, index as u64 + 1);
            n
        },
    };
    Some(FileLine { name, points })
}

/// A file without a line is refused.
pub fn with_lines(file: GeoFile) -> (r: Result<GeoFile, String>)
    ensures
        match r {
            Ok(f) => file.lines@.len() > 0 && f == file,
            Err(e) => file.lines@.len() == 0 && e@ == "Die Datei enthält keine Linie"@,
        },
{
    if file.lines.len() == 0 {
        Err(String::from_str("Die Datei enthält keine Linie"))
    } else {
        Ok(file)
    }
}


/// The text in lowercase (`str::to_lowercase`).
pub uninterp spec fn lowercase(s: Seq<char>) -> Seq<char>;

/// `str::to_lowercase`: each character replaced by its lowercase mapping as Unicode defines it
/// (one character may become several). The contract names the result and says nothing more of
/// it.
#[verifier::external_body]
fn to_lowercase(s: &str) -> (r: String)
    ensures
        r@ == lowercase(s@),
{
    s.to_lowercase()
}

/// A file is read as GPX when its name ends with ".gpx" in any case, else as GeoJSON.
pub fn is_gpx_name(file_name: &str) -> (r: bool)
    ensures
        r == (lowercase(file_name@).len() >= 4 && lowercase(file_name@).subrange(lowercase(file_name@).len() - 4, lowercase(file_name@).len() as int)
            == ".gpx"@),
{
    let lower = to_lowercase(file_name);
    proof {
        reveal_strlit(".gpx");
    }
    ends_with(lower.as_str(), ".gpx")
}

} // verus!
