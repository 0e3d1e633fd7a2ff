use perspecta::settings::{
    default_visible_metadata_fields, escape_toml_string, metadata_field_names,
    ordered_visible_metadata_fields, parse_visible_metadata_fields_from_toml,
    render_settings_toml, unescape_toml_string, visible_fields_from_settings,
};

#[test]
fn metadata_settings_toml_roundtrip() {
    let selected = vec![
        "PatientName".to_string(),
        "StudyDescription".to_string(),
        "Modality".to_string(),
    ];
    let toml = render_settings_toml(&selected);
    let parsed = parse_visible_metadata_fields_from_toml(&toml).expect("TOML should parse");
    assert_eq!(parsed, selected);
}

#[test]
fn settings_filter_unknown_values() {
    let toml = "visible_metadata_fields = [\"PatientName\", \"UnknownField\"]\n";
    let listed = parse_visible_metadata_fields_from_toml(toml).unwrap();
    let loaded = visible_fields_from_settings(&listed).expect("settings should load");
    assert!(loaded.contains(&"PatientName".to_string()));
    assert!(!loaded.contains(&"UnknownField".to_string()));
    assert_eq!(visible_fields_from_settings(&["Nope".to_string()]), None);
    assert_eq!(visible_fields_from_settings(&[]), Some(Vec::new()));
}

#[test]
fn render_layout() {
    let text = render_settings_toml(&["A\"b".to_string()]);
    assert_eq!(text, "visible_metadata_fields = [\n  \"A\\\"b\",\n]\n");
    assert_eq!(parse_visible_metadata_fields_from_toml(&text).unwrap(), vec!["A\"b".to_string()]);
}

#[test]
fn parse_without_key_or_brackets() {
    assert_eq!(parse_visible_metadata_fields_from_toml("other = [\"x\"]"), None);
    assert_eq!(parse_visible_metadata_fields_from_toml("visible_metadata_fields = \"x\""), None);
    assert_eq!(
        parse_visible_metadata_fields_from_toml("visible_metadata_fields = [ x, \"y\" ]"),
        Some(vec!["y".to_string()])
    );
}

#[test]
fn escapes_round_trip() {
    assert_eq!(escape_toml_string("a\\b\"c"), "a\\\\b\\\"c");
    assert_eq!(unescape_toml_string("a\\\\b\\\"c\\n\\q\\"), "a\\b\"c\nq");
    let s = "x\\\"y";
    assert_eq!(unescape_toml_string(&escape_toml_string(s)), s);
}

#[test]
fn field_order_is_fixed() {
    let names = metadata_field_names();
    assert_eq!(names.len(), 28);
    assert_eq!(names[0], "PatientName");
    assert_eq!(names[27], "InstanceNumber");
    assert_eq!(default_visible_metadata_fields(), names);
    let ordered = ordered_visible_metadata_fields(&["Modality".to_string(), "PatientID".to_string(), "X".to_string()]);
    assert_eq!(ordered, vec!["PatientID".to_string(), "Modality".to_string()]);
}

use perspecta::history::history_id_from_paths;

#[test]
fn history_id_ignores_path_order() {
    let a = history_id_from_paths(&["b/x.dcm".to_string(), "a/y.dcm".to_string()]);
    let b = history_id_from_paths(&["a/y.dcm".to_string(), "b/x.dcm".to_string()]);
    assert_eq!(a, "2:a/y.dcm|b/x.dcm");
    assert_eq!(a, b);
    assert_eq!(history_id_from_paths(&[]), "0:");
}
