use cable_editor::ids::{write_panel_path, write_port_label, IdOrNew, IdOrNewInput};
use cable_editor::text::{int_to_text, push_int, push_nat, str_eq};

#[test]
fn stored_id_input() {
    let input = IdOrNewInput::from(IdOrNew::Id(42));
    assert_eq!(input.id, Some(42));
    assert_eq!(input.temporary, None);
}

#[test]
fn temporary_id_input_is_uuid_text() {
    let input = IdOrNewInput::from(IdOrNew::Temporary(0x67e5_5044_10b1_426f_9247_bb68_0e5f_e0c8));
    assert_eq!(input.id, None);
    assert_eq!(input.temporary.as_deref(), Some("67e55044-10b1-426f-9247-bb680e5fe0c8"));
}

#[test]
fn small_temporary_id_is_padded() {
    let input = IdOrNewInput::from(IdOrNew::Temporary(0x1234));
    assert_eq!(input.temporary.as_deref(), Some("00000000-0000-0000-0000-000000001234"));
}

#[test]
fn new_temporary_ids_are_temporary_and_differ() {
    let a = IdOrNew::new_temporary();
    let b = IdOrNew::default();
    assert!(matches!(a, IdOrNew::Temporary(_)));
    assert!(matches!(b, IdOrNew::Temporary(_)));
    assert_ne!(a, b);
}

#[test]
fn id_from_integer() {
    assert_eq!(IdOrNew::from(7), IdOrNew::Id(7));
}

#[test]
fn panel_path_with_schacht() {
    let mut out = String::new();
    write_panel_path(&mut out, Some("S1"), &["Rack", "Panel 3"]);
    assert_eq!(out, "S1: Rack > Panel 3");
}

#[test]
fn panel_path_without_schacht() {
    let mut out = String::from("at ");
    write_panel_path(&mut out, None, &["Rack", "Panel 3"]);
    assert_eq!(out, "at Rack > Panel 3");
}

#[test]
fn panel_path_of_schacht_only() {
    let mut out = String::new();
    write_panel_path(&mut out, Some("S1"), &[]);
    assert_eq!(out, "S1");
}

#[test]
fn port_label_after_path() {
    let mut out = String::from("S1: Rack");
    write_port_label(&mut out, "12");
    assert_eq!(out, "S1: Rack : 12");
}

#[test]
fn integer_texts() {
    assert_eq!(int_to_text(-42), "-42");
    assert_eq!(int_to_text(0), "0");
    assert_eq!(int_to_text(i64::MIN), "-9223372036854775808");
    let mut s = String::from("n=");
    push_nat(&mut s, 1907);
    push_int(&mut s, -3);
    assert_eq!(s, "n=1907-3");
}

#[test]
fn text_equality() {
    assert!(str_eq("Länge", "Länge"));
    assert!(!str_eq("Länge", "Lange"));
    assert!(!str_eq("ab", "abc"));
}

#[test]
fn new_temporary_ids_are_version_4() {
    for _ in 0..20 {
        match IdOrNew::new_temporary() {
            IdOrNew::Temporary(v) => {
                assert_eq!((v >> 76) & 0xf, 4);
                assert_eq!((v >> 62) & 3, 2);
                let text = IdOrNewInput::from(IdOrNew::Temporary(v)).temporary.unwrap();
                assert_eq!(text.as_bytes()[14], b'4');
            }
            IdOrNew::Id(_) => panic!("not temporary"),
        }
    }
}
