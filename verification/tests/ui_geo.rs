use cable_editor::coords::{group_thousands, split_pair, CoordinateSystem};
use cable_editor::geo_file::{
    collect_geojson, declared_system, geojson_file, gpx_line, is_gpx_name, join_parts, with_lines, FileLine, GeoFile, GpxKind,
    Json, Position,
};
use cable_editor::lists::{CoordinateSystem as DuctSystem, MapDuctEnd};
use cable_editor::ui::{
    clickable, end_schacht, fiber_class, fiber_color, menu_key_action, ClickEdit, DuctEnds, DuctSide, MenuKeyAction, PathEnd,
};

#[test]
fn menu_keys() {
    assert_eq!(menu_key_action("Escape", Some(1), 3), MenuKeyAction::Close);
    assert_eq!(menu_key_action("ArrowDown", Some(2), 3), MenuKeyAction::Focus(0));
    assert_eq!(menu_key_action("ArrowDown", None, 3), MenuKeyAction::Focus(0));
    assert_eq!(menu_key_action("ArrowUp", Some(0), 3), MenuKeyAction::Focus(2));
    assert_eq!(menu_key_action("ArrowUp", None, 3), MenuKeyAction::Focus(2));
    assert_eq!(menu_key_action("Home", Some(2), 3), MenuKeyAction::Focus(0));
    assert_eq!(menu_key_action("End", None, 3), MenuKeyAction::Focus(2));
    assert_eq!(menu_key_action("End", None, 0), MenuKeyAction::Focus(usize::MAX));
    assert_eq!(menu_key_action("a", Some(0), 3), MenuKeyAction::Ignore);
}

#[test]
fn down_then_up_returns() {
    for i in 0..4 {
        let MenuKeyAction::Focus(d) = menu_key_action("ArrowDown", Some(i), 4) else { panic!("no focus") };
        assert_eq!(menu_key_action("ArrowUp", Some(d), 4), MenuKeyAction::Focus(i));
    }
}

#[test]
fn fiber_colours() {
    assert_eq!(fiber_color(0), None);
    assert_eq!(fiber_color(1), Some((1, false)));
    assert_eq!(fiber_color(12), Some((12, false)));
    assert_eq!(fiber_color(13), Some((1, true)));
    assert_eq!(fiber_color(255), Some((3, true)));
    assert_eq!(fiber_class(7), "swisscom-fiber-7");
}

fn duct(id: i32, a: i32, z: i32) -> DuctEnds {
    DuctEnds { id, schacht_a: a, schacht_z: z }
}

#[test]
fn clickable_ducts_of_a_path() {
    // path 1 -(10)- 2 -(11)- 3
    let ducts = [duct(10, 1, 2), duct(11, 2, 3), duct(12, 3, 4), duct(13, 5, 1), duct(14, 6, 7), duct(15, 1, 3)];
    let r = clickable(Some((1, 3)), &[10, 11], &ducts);
    let got: Vec<(usize, ClickEdit, &str)> = r.iter().map(|c| (c.duct, c.edit, c.text)).collect();
    assert_eq!(
        got,
        vec![
            (0, ClickEdit::Remove(PathEnd::Front), "Segment entfernen"),
            (1, ClickEdit::Remove(PathEnd::Tail), "Segment entfernen"),
            (2, ClickEdit::Append { end: PathEnd::Tail, other: DuctSide::Z }, "Segment hinzufügen"),
            (3, ClickEdit::Append { end: PathEnd::Front, other: DuctSide::A }, "Segment hinzufügen"),
            (5, ClickEdit::Append { end: PathEnd::Tail, other: DuctSide::A }, "Segment hinzufügen"),
        ]
    );
}

#[test]
fn every_duct_starts_a_missing_path() {
    let r = clickable(None, &[], &[duct(1, 1, 2), duct(2, 3, 4)]);
    assert_eq!(r.len(), 2);
    assert!(r.iter().all(|c| c.edit == ClickEdit::Start && c.text == "Kabelweg hier beginnen"));
}

#[test]
fn duct_end_as_segment_end() {
    let e = end_schacht(&MapDuctEnd { id: 4, name: "S4".to_string() });
    assert_eq!((e.id, e.name.as_str()), (4, "S4"));
}

#[test]
fn coordinate_fields() {
    assert_eq!(CoordinateSystem::default(), CoordinateSystem::Lv95);
    assert_eq!(CoordinateSystem::Wgs84.title(), "WGS84");
    assert_eq!(CoordinateSystem::Lv95.labels(), ("Ost (E)", "Nord (N)"));
    assert_eq!(CoordinateSystem::Wgs84.placeholders(), ("46.95108", "7.43864"));
}

#[test]
fn thousands_grouping() {
    assert_eq!(group_thousands("2709812"), "2 709 812");
    assert_eq!(group_thousands("812"), "812");
    assert_eq!(group_thousands("-1262154"), "-1 262 154");
    assert_eq!(group_thousands(""), "");
    assert_eq!(group_thousands("-123456"), "-123 456");
    assert_eq!(group_thousands("-999"), "-999");
    assert_eq!(group_thousands("1000"), "1 000");
}

fn is_number(s: &str) -> bool {
    let t: String = s.trim().chars().filter(|c| !matches!(c, '\'' | '’' | ' ')).map(|c| if c == ',' { '.' } else { c }).collect();
    !t.is_empty() && t.parse::<f64>().map(|v| v.is_finite()).unwrap_or(false)
}

#[test]
fn pasted_pairs() {
    assert_eq!(split_pair("47.41963, 8.88611", is_number), Some(("47.41963".to_string(), "8.88611".to_string())));
    assert_eq!(split_pair(" 2709812 / 1262154 ", is_number), Some(("2709812".to_string(), "1262154".to_string())));
    assert_eq!(split_pair("2709812\t1262154", is_number), Some(("2709812".to_string(), "1262154".to_string())));
    assert_eq!(split_pair("1;2", is_number), Some(("1".to_string(), "2".to_string())));
    assert_eq!(split_pair("47.41963", is_number), None);
    assert_eq!(split_pair("a / b", is_number), None);
    // "/" splits into non-numbers, then "," with a space splits into two numbers
    assert_eq!(split_pair("1/x, 2", is_number), None);
    assert_eq!(split_pair("8,5, 9,5", is_number), Some(("8,5".to_string(), "9,5".to_string())));
}

fn num(i: usize) -> Json {
    Json::Number(i, i.to_string())
}

fn text(t: &str) -> Json {
    Json::Text(t.to_string())
}

fn obj(members: Vec<(&str, Json)>) -> Json {
    Json::Object(members.into_iter().map(|(k, v)| (k.to_string(), v)).collect(), "{..}".to_string())
}

fn arr(items: Vec<Json>) -> Json {
    Json::Array(items, "[..]".to_string())
}

fn line(points: &[(usize, usize)]) -> Json {
    arr(points.iter().map(|(x, y)| arr(vec![num(*x), num(*y)])).collect())
}

fn names_and_points(lines: &[FileLine]) -> Vec<(String, Vec<(usize, usize)>)> {
    lines.iter().map(|l| (l.name.clone(), l.points.iter().map(|p| (p.x, p.y)).collect())).collect()
}

#[test]
fn geojson_features_and_names() {
    let doc = obj(vec![
        ("type", text("FeatureCollection")),
        (
            "features",
            arr(vec![
                obj(vec![
                    ("type", text("Feature")),
                    ("properties", obj(vec![("id", num(7)), ("Name", text("Rohr A"))])),
                    ("geometry", obj(vec![("type", text("LineString")), ("coordinates", line(&[(1, 2), (3, 4)]))])),
                ]),
                obj(vec![
                    ("type", text("Feature")),
                    ("properties", Json::Null),
                    ("geometry", obj(vec![("type", text("LineString")), ("coordinates", line(&[(5, 6)]))])),
                ]),
                obj(vec![
                    ("type", text("Feature")),
                    ("properties", obj(vec![("id", num(9))])),
                    ("geometry", obj(vec![("type", text("Point")), ("coordinates", arr(vec![num(1), num(2)]))])),
                ]),
            ]),
        ),
    ]);
    let mut lines = Vec::new();
    collect_geojson(&doc, "Linie", &mut lines);
    assert_eq!(
        names_and_points(&lines),
        vec![("Rohr A".to_string(), vec![(1, 2), (3, 4)]), ("Linie 2".to_string(), vec![(5, 6)])]
    );
}

#[test]
fn multi_line_parts_join_or_stay_apart() {
    let joined = obj(vec![("type", text("MultiLineString")), ("coordinates", arr(vec![line(&[(1, 2), (3, 4)]), line(&[(3, 4), (5, 6)])]))]);
    let mut lines = Vec::new();
    collect_geojson(&joined, "Rohr", &mut lines);
    assert_eq!(names_and_points(&lines), vec![("Rohr".to_string(), vec![(1, 2), (3, 4), (5, 6)])]);
    let apart = obj(vec![("type", text("MultiLineString")), ("coordinates", arr(vec![line(&[(1, 2)]), line(&[(7, 8)])]))]);
    let mut lines = Vec::new();
    collect_geojson(&apart, "Rohr", &mut lines);
    assert_eq!(
        names_and_points(&lines),
        vec![("Rohr (Teil 1)".to_string(), vec![(1, 2)]), ("Rohr (Teil 2)".to_string(), vec![(7, 8)])]
    );
    let p = |x, y| Position { x, y };
    assert_eq!(join_parts(&vec![vec![], vec![p(1, 1)], vec![p(1, 1), p(2, 2)]]), Some(vec![p(1, 1), p(2, 2)]));
    assert_eq!(join_parts(&vec![vec![p(1, 1)], vec![p(2, 2)]]), None);
}

#[test]
fn declared_and_guessed_systems() {
    let crs = |name: &str| obj(vec![("crs", obj(vec![("properties", obj(vec![("name", text(name))]))])), ("type", text("LineString")), ("coordinates", line(&[(11, 12)]))]);
    assert_eq!(declared_system(&crs("urn:ogc:def:crs:EPSG::2056")), Some(DuctSystem::Lv95));
    assert_eq!(declared_system(&crs("EPSG:21781")), Some(DuctSystem::Lv03));
    assert_eq!(declared_system(&crs("urn:ogc:def:crs:OGC:1.3:CRS84")), Some(DuctSystem::Wgs84));
    assert_eq!(declared_system(&crs("EPSG:3857")), None);
    let guess = |p: Position| if p.x == 11 { DuctSystem::Lv03 } else { DuctSystem::Wgs84 };
    let f = geojson_file(&crs("EPSG:3857"), guess);
    assert_eq!(f.system, DuctSystem::Lv03);
    assert_eq!(f.lines[0].name, "Linie");
    let f = geojson_file(&crs("EPSG:2056"), guess);
    assert_eq!(f.system, DuctSystem::Lv95);
    let empty = geojson_file(&obj(vec![("type", text("FeatureCollection"))]), guess);
    assert_eq!(empty.system, DuctSystem::Wgs84);
    assert!(empty.lines.is_empty());
}

#[test]
fn file_kinds_and_gpx_lines() {
    assert!(is_gpx_name("Track.GPX"));
    assert!(is_gpx_name("a.gpx"));
    assert!(!is_gpx_name("a.geojson"));
    assert!(!is_gpx_name("gpx"));
    let l = gpx_line(GpxKind::Route, 1, None, vec![Position { x: 0, y: 1 }]).expect("has a position");
    assert_eq!(l.name, "Route 2");
    let named = gpx_line(GpxKind::Track, 0, Some("Weg".to_string()), vec![Position { x: 0, y: 1 }]).expect("has a position");
    assert_eq!(named.name, "Weg");
    assert!(gpx_line(GpxKind::Track, 0, None, vec![]).is_none());
    let none = with_lines(GeoFile { lines: vec![], system: DuctSystem::Wgs84 });
    assert_eq!(none.err().as_deref(), Some("Die Datei enthält keine Linie"));
    assert!(with_lines(GeoFile { lines: vec![l], system: DuctSystem::Wgs84 }).is_ok());
}
